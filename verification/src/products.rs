use crate::blob::{
    dumps, lemma_mark_in_parts, lemma_take_free, lemma_take_in_parts, lemma_written_in_parts,
    line_texts, parses, region_free, tagged, take, take_byte, BlobRegions, Cursor, DumpError,
    Dumped, FileBlob, RawBlob, Stats,
};
use crate::conversion::{
    decimal, key_arrow, key_prefix, le_bytes, lemma_le2_at, lemma_le3_at, lemma_le4_at,
    lemma_le_bytes_len, little_endian_2_bytes, little_endian_3_bytes, little_endian_4_bytes,
    spec_decimal, spec_le2, spec_le3, spec_le4,
};
use crate::characters::CharacterMapsModel;
use crate::error::Fatal;
use crate::modes::{
    dump_modes, read_modes, ModeIndex, ModeModel,
};
use crate::shared::share;
use crate::table::{
    backwards, collect, lemma_backwards, lemma_count, lemma_descending, lemma_map_at, listing,
    lists_descending, Table,
};
use std::rc::Rc;
use vstd::prelude::*;
use vstd::slice::slice_subrange;
use vstd::string::StringExecFns;

verus! {

/// One product: its id, the derivatives it stands for, its flags, and its
/// modes.
pub struct ProductIndexEntry {
    product_id: u16,
    derivative_id_low: u16,
    derivative_id_high: u16,
    flags: u16,
    mode_index: Rc<ModeIndex>,
}

/// What a product holds: its id, the derivatives it stands for, its flags,
/// and its modes by number.
pub struct ProductModel {
    pub product_id: u16,
    pub derivative_id_low: u16,
    pub derivative_id_high: u16,
    pub flags: u16,
    pub modes: Map<int, ModeModel>,
}

impl View for ProductIndexEntry {
    type V = ProductModel;

    closed spec fn view(&self) -> ProductModel {
        ProductModel {
            product_id: self.product_id,
            derivative_id_low: self.derivative_id_low,
            derivative_id_high: self.derivative_id_high,
            flags: self.flags,
            modes: (*self.mode_index)@,
        }
    }
}

impl Clone for ProductIndexEntry {
    fn clone(&self) -> (r: ProductIndexEntry)
        ensures
            r == *self,
    {
        ProductIndexEntry {
            product_id: self.product_id,
            derivative_id_low: self.derivative_id_low,
            derivative_id_high: self.derivative_id_high,
            flags: self.flags,
            mode_index: share(&self.mode_index),
        }
    }
}

/// How many products a table may hold. The bounds are a check of
/// plausibility, not part of the format: a caller may set its own.
#[derive(PartialEq, Eq, Structural, Clone, Copy, Debug)]
pub struct CountBounds {
    pub min: u8,
    pub max: u8,
}

/// The bounds that go with a schema: 10 to 40 products in schema 2, at most
/// 40 in the later ones.
pub open spec fn bounds_of(schema: u16) -> CountBounds {
    if schema == 2 {
        CountBounds { min: 10, max: 40 }
    } else {
        CountBounds { min: 0, max: 40 }
    }
}

impl CountBounds {
    /// The bounds that go with a schema.
    pub fn for_schema(schema: u16) -> (bounds: CountBounds)
        ensures
            bounds == bounds_of(schema),
    {
        if schema == 2 {
            CountBounds { min: 10, max: 40 }
        } else {
            CountBounds { min: 0, max: 40 }
        }
    }
}

/// The fields of a record: the product's id, the lowest and the highest
/// derivative, the flags, and the offset of the modes.
pub struct ProductRecord {
    pub product_id: u16,
    pub derivative_id_low: u16,
    pub derivative_id_high: u16,
    pub flags: u16,
    pub offset: u32,
}

/// The width of a record: 8 bytes in schema 2, else 11.
pub open spec fn record_len(schema: u16) -> int {
    if schema == 2 {
        8
    } else {
        11
    }
}

/// The record that the bytes hold. Schema 2: the flags and the one
/// derivative in a byte each, the id in two bytes, the offset in four. Later
/// schemas: the id, the lowest and the highest derivative and the flags in two
/// bytes each, the offset in three.
pub open spec fn decode_record(schema: u16, buf: Seq<u8>) -> ProductRecord {
    if schema == 2 {
        ProductRecord {
            product_id: spec_le2(buf.skip(2)) as u16,
            derivative_id_low: buf[1] as u16,
            derivative_id_high: buf[1] as u16,
            flags: buf[0] as u16,
            offset: spec_le4(buf.skip(4)) as u32,
        }
    } else {
        ProductRecord {
            product_id: spec_le2(buf) as u16,
            derivative_id_low: spec_le2(buf.skip(2)) as u16,
            derivative_id_high: spec_le2(buf.skip(4)) as u16,
            flags: spec_le2(buf.skip(6)) as u16,
            offset: spec_le3(buf.skip(8)) as u32,
        }
    }
}

/// The bytes that hold the record.
pub open spec fn encode_record(schema: u16, rec: ProductRecord) -> Seq<u8> {
    if schema == 2 {
        seq![rec.flags as u8, rec.derivative_id_low as u8] + le_bytes(rec.product_id as nat, 2)
            + le_bytes(rec.offset as nat, 4)
    } else {
        le_bytes(rec.product_id as nat, 2) + le_bytes(rec.derivative_id_low as nat, 2) + le_bytes(
            rec.derivative_id_high as nat,
            2,
        ) + le_bytes(rec.flags as nat, 2) + le_bytes(rec.offset as nat, 3)
    }
}

/// The records that a schema can hold. Schema 2 has one derivative and
/// flags that fit a byte; the later ones have offsets of three bytes.
pub open spec fn fits(schema: u16, rec: ProductRecord) -> bool {
    if schema == 2 {
        &&& rec.derivative_id_low == rec.derivative_id_high
        &&& rec.derivative_id_low < 256
        &&& rec.flags < 256
    } else {
        rec.offset < 0x100_0000
    }
}

/// What was written as a record is read back as it was: in every schema, for
/// every record that the schema can hold.
pub proof fn lemma_record_roundtrip(schema: u16, rec: ProductRecord)
    requires
        fits(schema, rec),
    ensures
        encode_record(schema, rec).len() == record_len(schema),
        decode_record(schema, encode_record(schema, rec)) == rec,
{
    let buf = encode_record(schema, rec);
    lemma_le_bytes_len(rec.product_id as nat, 2);
    lemma_le_bytes_len(rec.derivative_id_low as nat, 2);
    lemma_le_bytes_len(rec.derivative_id_high as nat, 2);
    lemma_le_bytes_len(rec.flags as nat, 2);
    lemma_le_bytes_len(rec.offset as nat, 3);
    lemma_le_bytes_len(rec.offset as nat, 4);
    if schema == 2 {
        assert(buf.subrange(2, 4) =~= le_bytes(rec.product_id as nat, 2));
        lemma_le2_at(buf, 2, rec.product_id as nat);
        assert(buf.subrange(4, 8) =~= le_bytes(rec.offset as nat, 4));
        lemma_le4_at(buf, 4, rec.offset as nat);
        assert(buf[0] == rec.flags as u8);
        assert(buf[1] == rec.derivative_id_low as u8);
    } else {
        assert(buf.skip(0) =~= buf);
        assert(buf.subrange(0, 2) =~= le_bytes(rec.product_id as nat, 2));
        lemma_le2_at(buf, 0, rec.product_id as nat);
        assert(buf.subrange(2, 4) =~= le_bytes(rec.derivative_id_low as nat, 2));
        lemma_le2_at(buf, 2, rec.derivative_id_low as nat);
        assert(buf.subrange(4, 6) =~= le_bytes(rec.derivative_id_high as nat, 2));
        lemma_le2_at(buf, 4, rec.derivative_id_high as nat);
        assert(buf.subrange(6, 8) =~= le_bytes(rec.flags as nat, 2));
        lemma_le2_at(buf, 6, rec.flags as nat);
        assert(buf.subrange(8, 11) =~= le_bytes(rec.offset as nat, 3));
        lemma_le3_at(buf, 8, rec.offset as nat);
    }
}

/// What a table's header must say of itself: a record width of 8 in schema
/// 2, of 11 in schemas 3 and 4, else `EntrySize`; then a number of products
/// within the bounds, else `EntryCount`. Another schema is `InvalidFormat`.
pub open spec fn check_schema(
    schema: u16,
    idx_entry_len: u8,
    num_of_products: u8,
    bounds: CountBounds,
) -> Result<(), Fatal> {
    if schema != 2 && schema != 3 && schema != 4 {
        Err(Fatal::InvalidFormat)
    } else if idx_entry_len != record_len(schema) {
        Err(Fatal::EntrySize)
    } else if num_of_products < bounds.min || num_of_products > bounds.max {
        Err(Fatal::EntryCount)
    } else {
        Ok(())
    }
}

/// Reading `count` records at the cursor, added to `records`. `InvalidFlags`
/// where the flags of a schema-2 record are above 15, `EmptySlot` where a
/// product has no modes.
pub open spec fn read_records(
    bytes: Seq<u8>,
    cur: Cursor,
    schema: u16,
    count: nat,
    records: Seq<ProductRecord>,
) -> Result<(Seq<ProductRecord>, Cursor), Fatal>
    decreases count,
{
    if count == 0 {
        Ok((records, cur))
    } else {
        match take(bytes, cur, record_len(schema), BlobRegions::Products) {
            Err(e) => Err(e),
            Ok((buf, next)) => {
                let rec = decode_record(schema, buf);
                if schema == 2 && rec.flags > 15 {
                    Err(Fatal::InvalidFlags)
                } else if rec.offset == 0 {
                    Err(Fatal::EmptySlot)
                } else {
                    read_records(bytes, next, schema, (count - 1) as nat, records.push(rec))
                }
            },
        }
    }
}

/// A record that stands written at the cursor is read as it was written,
/// and the cursor then stands behind it. This holds for every record that the
/// schema can hold and that a table may hold: with modes, and in schema 2 with
/// flags up to 15. The bytes must not have been read as something else.
pub proof fn lemma_read_written(bytes: Seq<u8>, cur: Cursor, schema: u16, rec: ProductRecord)
    requires
        fits(schema, rec),
        rec.offset != 0,
        schema == 2 ==> rec.flags <= 15,
        0 <= cur.pos,
        cur.pos + record_len(schema) <= bytes.len(),
        bytes.subrange(cur.pos, cur.pos + record_len(schema)) == encode_record(schema, rec),
        region_free(cur.regions, cur.pos, cur.pos + record_len(schema), BlobRegions::Products),
    ensures
        read_records(bytes, cur, schema, 1, Seq::empty()) == Ok::<
            (Seq<ProductRecord>, Cursor),
            Fatal,
        >(
            (
                seq![rec],
                Cursor {
                    pos: cur.pos + record_len(schema),
                    regions: tagged(
                        cur.regions,
                        cur.pos,
                        cur.pos + record_len(schema),
                        BlobRegions::Products,
                    ),
                },
            ),
        ),
{
    lemma_record_roundtrip(schema, rec);
    reveal_with_fuel(read_records, 2);
    assert(Seq::<ProductRecord>::empty().push(rec) =~= seq![rec]);
}

/// The bytes that hold the records, one behind the other.
pub open spec fn encode_records(schema: u16, recs: Seq<ProductRecord>) -> Seq<u8>
    decreases recs.len(),
{
    if recs.len() == 0 {
        Seq::empty()
    } else {
        encode_record(schema, recs[0]) + encode_records(schema, recs.skip(1))
    }
}

/// The records that a table of the schema may hold: those that the schema
/// can hold, with modes, and in schema 2 with flags up to 15.
pub open spec fn readable(schema: u16, rec: ProductRecord) -> bool {
    &&& fits(schema, rec)
    &&& rec.offset != 0
    &&& schema == 2 ==> rec.flags <= 15
}

/// Records take up as many bytes as their number times the width of one.
pub proof fn lemma_encoded_len(schema: u16, recs: Seq<ProductRecord>)
    requires
        forall|i: int| 0 <= i < recs.len() ==> fits(schema, #[trigger] recs[i]),
    ensures
        encode_records(schema, recs).len() == record_len(schema) * recs.len(),
    decreases recs.len(),
{
    if recs.len() > 0 {
        let rest = recs.skip(1);
        assert forall|i: int| 0 <= i < rest.len() implies fits(schema, #[trigger] rest[i]) by {
            assert(rest[i] == recs[i + 1]);
        }
        lemma_encoded_len(schema, rest);
        lemma_record_roundtrip(schema, recs[0]);
        let width = record_len(schema);
        assert(width + width * (recs.len() - 1) == width * recs.len()) by (nonlinear_arith);
    }
}

/// Reading a record that stands written at the cursor is one step of
/// reading a table: the record joins those read before, and the rest is read
/// behind it.
pub proof fn lemma_read_one(
    bytes: Seq<u8>,
    cur: Cursor,
    schema: u16,
    rec: ProductRecord,
    count: nat,
    before: Seq<ProductRecord>,
)
    requires
        readable(schema, rec),
        count > 0,
        0 <= cur.pos,
        cur.pos + record_len(schema) <= bytes.len(),
        bytes.subrange(cur.pos, cur.pos + record_len(schema)) == encode_record(schema, rec),
        region_free(cur.regions, cur.pos, cur.pos + record_len(schema), BlobRegions::Products),
    ensures
        read_records(bytes, cur, schema, count, before) == read_records(
            bytes,
            Cursor {
                pos: cur.pos + record_len(schema),
                regions: tagged(
                    cur.regions,
                    cur.pos,
                    cur.pos + record_len(schema),
                    BlobRegions::Products,
                ),
            },
            schema,
            (count - 1) as nat,
            before.push(rec),
        ),
{
    lemma_record_roundtrip(schema, rec);
}

/// Records that stand written at the cursor, one behind the other, are read
/// as they were written: as many, in the same order, each field as it was, and
/// the cursor then stands behind the last. The bytes must not have been read
/// as something else. `before` are the records read before these.
pub proof fn lemma_read_all_written(
    bytes: Seq<u8>,
    cur: Cursor,
    schema: u16,
    recs: Seq<ProductRecord>,
    before: Seq<ProductRecord>,
)
    requires
        forall|i: int| 0 <= i < recs.len() ==> readable(schema, #[trigger] recs[i]),
        0 <= cur.pos,
        cur.regions.len() == bytes.len(),
        cur.pos + encode_records(schema, recs).len() <= bytes.len(),
        bytes.subrange(cur.pos, cur.pos + encode_records(schema, recs).len()) == encode_records(
            schema,
            recs,
        ),
        region_free(
            cur.regions,
            cur.pos,
            cur.pos + encode_records(schema, recs).len(),
            BlobRegions::Products,
        ),
    ensures
        read_records(bytes, cur, schema, recs.len(), before) == Ok::<
            (Seq<ProductRecord>, Cursor),
            Fatal,
        >(
            (
                before + recs,
                Cursor {
                    pos: cur.pos + encode_records(schema, recs).len(),
                    regions: tagged(
                        cur.regions,
                        cur.pos,
                        cur.pos + encode_records(schema, recs).len(),
                        BlobRegions::Products,
                    ),
                },
            ),
        ),
    decreases recs.len(),
{
    if recs.len() == 0 {
        assert(before + recs =~= before);
        assert(tagged(cur.regions, cur.pos, cur.pos, BlobRegions::Products) =~= cur.regions);
    } else {
        let first = recs[0];
        let rest = recs.skip(1);
        let front = encode_record(schema, first);
        let back = encode_records(schema, rest);
        let width = record_len(schema);
        assert(front.len() == width) by {
            lemma_record_roundtrip(schema, first);
        }
        assert(encode_records(schema, recs) == front + back);
        lemma_written_in_parts(bytes, cur.pos, front, back);
        lemma_mark_in_parts(
            cur.regions,
            cur.pos,
            cur.pos + width,
            cur.pos + width + back.len(),
            BlobRegions::Products,
        );
        lemma_read_one(bytes, cur, schema, first, recs.len(), before);
        let next = Cursor {
            pos: cur.pos + width,
            regions: tagged(cur.regions, cur.pos, cur.pos + width, BlobRegions::Products),
        };
        assert forall|i: int| 0 <= i < rest.len() implies readable(schema, #[trigger] rest[i]) by {
            assert(rest[i] == recs[i + 1]);
        }
        lemma_read_all_written(bytes, next, schema, rest, before.push(first));
        assert(before.push(first) + rest =~= before + recs);
    }
}

/// Schemas 3 and 4 hold the same records.
proof fn lemma_later_records(bytes: Seq<u8>, cur: Cursor, count: nat, records: Seq<ProductRecord>)
    ensures
        read_records(bytes, cur, 4, count, records) == read_records(bytes, cur, 3, count, records),
    decreases count,
{
    if count > 0 {
        match take(bytes, cur, 11, BlobRegions::Products) {
            Err(e) => {},
            Ok((buf, next)) => {
                let rec = decode_record(3, buf);
                assert(rec == decode_record(4, buf));
                lemma_later_records(bytes, next, (count - 1) as nat, records.push(rec));
            },
        }
    }
}

/// Making the products of the records from place `i` on and putting them
/// into `products`: the modes of each are read at their offset. `DuplicateKey`
/// where an id comes a second time.
pub open spec fn build(
    bytes: Seq<u8>,
    cur: Cursor,
    schema: u16,
    font_family: u8,
    records: Seq<ProductRecord>,
    i: int,
    products: Map<int, ProductModel>,
) -> Result<(Map<int, ProductModel>, Cursor), Fatal>
    decreases records.len() - i,
{
    if i < 0 || i >= records.len() {
        Ok((products, cur))
    } else {
        let rec = records[i];
        match read_modes(bytes, Cursor { pos: rec.offset as int, ..cur }, schema, font_family) {
            Err(e) => Err(e),
            Ok((modes, next)) => if products.contains_key(rec.product_id as int) {
                Err(Fatal::DuplicateKey)
            } else {
                build(
                    bytes,
                    next,
                    schema,
                    font_family,
                    records,
                    i + 1,
                    products.insert(
                        rec.product_id as int,
                        ProductModel {
                            product_id: rec.product_id,
                            derivative_id_low: rec.derivative_id_low,
                            derivative_id_high: rec.derivative_id_high,
                            flags: rec.flags,
                            modes,
                        },
                    ),
                )
            },
        }
    }
}

/// Reading the table of products at the cursor: the number of products and
/// the record width in one byte each, the records, and then the modes of each
/// product with all that lies below them.
pub open spec fn read_products(
    bytes: Seq<u8>,
    cur: Cursor,
    schema: u16,
    font_family: u8,
    bounds: CountBounds,
) -> Result<(Map<int, ProductModel>, Cursor), Fatal> {
    match take_byte(bytes, cur, BlobRegions::Products) {
        Err(e) => Err(e),
        Ok((num_products, c1)) => match take_byte(bytes, c1, BlobRegions::Products) {
            Err(e) => Err(e),
            Ok((idx_entry_len, c2)) => match check_schema(
                schema,
                idx_entry_len,
                num_products,
                bounds,
            ) {
                Err(e) => Err(e),
                Ok(()) => match read_records(bytes, c2, schema, num_products as nat, Seq::empty()) {
                    Err(e) => Err(e),
                    Ok((records, c3)) => build(
                        bytes,
                        c3,
                        schema,
                        font_family,
                        records,
                        0,
                        Map::empty(),
                    ),
                },
            },
        },
    }
}

/// The bytes of a table of products of schema 3 with one product: the
/// header of two bytes, and the one record.
pub open spec fn one_product_table(rec: ProductRecord) -> Seq<u8> {
    seq![1u8, 11u8] + encode_record(3, rec)
}

/// A schema-3 table with one product that stands written at the cursor is
/// read as that product, under its id, with the modes that are read at its
/// offset. This holds where the bounds admit one product, and for bytes that
/// were not read as something else.
#[verifier::rlimit(80)]
pub proof fn lemma_one_product(
    bytes: Seq<u8>,
    cur: Cursor,
    font_family: u8,
    bounds: CountBounds,
    rec: ProductRecord,
    modes: Map<int, ModeModel>,
    end: Cursor,
)
    requires
        0 <= cur.pos,
        cur.regions.len() == bytes.len(),
        cur.pos + 13 <= bytes.len(),
        bytes.subrange(cur.pos, cur.pos + 13) == one_product_table(rec),
        readable(3, rec),
        bounds.min <= 1 <= bounds.max,
        region_free(cur.regions, cur.pos, cur.pos + 13, BlobRegions::Products),
        read_modes(
            bytes,
            Cursor {
                pos: rec.offset as int,
                regions: tagged(cur.regions, cur.pos, cur.pos + 13, BlobRegions::Products),
            },
            3,
            font_family,
        ) == Ok::<(Map<int, ModeModel>, Cursor), Fatal>((modes, end)),
    ensures
        read_products(bytes, cur, 3, font_family, bounds) == Ok::<
            (Map<int, ProductModel>, Cursor),
            Fatal,
        >(
            (
                Map::<int, ProductModel>::empty().insert(
                    rec.product_id as int,
                    ProductModel {
                        product_id: rec.product_id,
                        derivative_id_low: rec.derivative_id_low,
                        derivative_id_high: rec.derivative_id_high,
                        flags: rec.flags,
                        modes,
                    },
                ),
                end,
            ),
        ),
{
    let tag = BlobRegions::Products;
    lemma_record_roundtrip(3, rec);
    lemma_take_free(bytes, cur, 13, tag);
    let last = take(bytes, cur, 13, tag)->Ok_0.1;
    lemma_take_in_parts(bytes, cur, 2, 11, tag);
    let c2 = take(bytes, cur, 2, tag)->Ok_0.1;
    assert(take(bytes, c2, 11, tag)->Ok_0.0 =~= encode_record(3, rec));
    lemma_take_in_parts(bytes, cur, 1, 1, tag);
    let c1 = take(bytes, cur, 1, tag)->Ok_0.1;
    assert(take(bytes, cur, 1, tag)->Ok_0.0 =~= seq![1u8]);
    assert(take(bytes, c1, 1, tag)->Ok_0.0 =~= seq![11u8]);
    assert(take_byte(bytes, cur, tag) == Ok::<(u8, Cursor), Fatal>((1u8, c1)));
    assert(take_byte(bytes, c1, tag) == Ok::<(u8, Cursor), Fatal>((11u8, c2)));
    let records = Seq::<ProductRecord>::empty().push(rec);
    assert(read_records(bytes, last, 3, 0, records) == Ok::<(Seq<ProductRecord>, Cursor), Fatal>(
        (records, last),
    ));
    assert(read_records(bytes, c2, 3, 1, Seq::empty()) == Ok::<
        (Seq<ProductRecord>, Cursor),
        Fatal,
    >((records, last)));
    let products = Map::<int, ProductModel>::empty().insert(
        rec.product_id as int,
        ProductModel {
            product_id: rec.product_id,
            derivative_id_low: rec.derivative_id_low,
            derivative_id_high: rec.derivative_id_high,
            flags: rec.flags,
            modes,
        },
    );
    assert(build(bytes, end, 3, font_family, records, 1, products) == Ok::<
        (Map<int, ProductModel>, Cursor),
        Fatal,
    >((products, end)));
    assert(Cursor { pos: records[0].offset as int, ..last } == Cursor {
        pos: rec.offset as int,
        regions: tagged(cur.regions, cur.pos, cur.pos + 13, tag),
    });
    assert(build(bytes, last, 3, font_family, records, 0, Map::empty()) == Ok::<
        (Map<int, ProductModel>, Cursor),
        Fatal,
    >((products, end)));
}

/// A product in words: the derivatives it stands for and the number of its
/// modes. Derivatives 0 to 65535 are all of them.
pub open spec fn product_text(low: u16, high: u16, modes: nat) -> Seq<char> {
    if high == 65535 && low == 0 {
        "ALL DERIVATIVES : num of modes = "@ + spec_decimal(modes)
    } else if high > low {
        "Derv "@ + spec_decimal(low as nat) + " - "@ + spec_decimal(high as nat)
            + " : num_of_modes = "@ + spec_decimal(modes)
    } else {
        " Derv "@ + spec_decimal(low as nat) + " : num_of_modes = "@ + spec_decimal(modes)
    }
}

impl ProductIndexEntry {
    /// The table of modes is well formed.
    pub closed spec fn wf(&self) -> bool {
        self.mode_index.wf()
    }

    /// All that lies below the product resolves its strings by `blob`.
    pub closed spec fn within(&self, blob: RawBlob) -> bool {
        self.mode_index.within(blob)
    }

    fn new(
        product_id: u16,
        derivative_id_low: u16,
        derivative_id_high: u16,
        flags: u16,
        mode_index: ModeIndex,
    ) -> (entry: ProductIndexEntry)
        ensures
            mode_index.wf() ==> entry.wf(),
            forall|blob: RawBlob| #[trigger] mode_index.within(blob) ==> entry.within(blob),
            entry@ == (ProductModel {
                product_id,
                derivative_id_low,
                derivative_id_high,
                flags,
                modes: mode_index@,
            }),
    {
        ProductIndexEntry {
            product_id,
            derivative_id_low,
            derivative_id_high,
            flags,
            mode_index: Rc::new(mode_index),
        }
    }

    /// The product in words.
    pub fn to_string(&self) -> (r: Result<String, Fatal>)
        requires
            self.wf(),
        ensures
            self@.modes.dom().finite(),
            r is Ok,
            r->Ok_0@ == product_text(
                self@.derivative_id_low,
                self@.derivative_id_high,
                self@.modes.dom().len(),
            ),
    {
        let num_modes = self.mode_index.get_num_modes();
        if self.derivative_id_high == 65535 && self.derivative_id_low == 0 {
            let mut text = "ALL DERIVATIVES : num of modes = ".to_owned();
            text.append(decimal(num_modes as u64).as_str());
            return Ok(text);
        }
        if self.derivative_id_high > self.derivative_id_low {
            let mut text = "Derv ".to_owned();
            text.append(decimal(self.derivative_id_low as u64).as_str());
            text.append(" - ");
            text.append(decimal(self.derivative_id_high as u64).as_str());
            text.append(" : num_of_modes = ");
            text.append(decimal(num_modes as u64).as_str());
            return Ok(text);
        }
        let mut text = " Derv ".to_owned();
        text.append(decimal(self.derivative_id_low as u64).as_str());
        text.append(" : num_of_modes = ");
        text.append(decimal(num_modes as u64).as_str());
        Ok(text)
    }

    /// The id of the product.
    pub fn get_product_id(&self) -> (id: u16)
        ensures
            id == self@.product_id,
    {
        self.product_id
    }

    /// The lowest and the highest derivative that the product stands for.
    pub fn get_derivatives(&self) -> (range: (u16, u16))
        ensures
            range == (self@.derivative_id_low, self@.derivative_id_high),
    {
        (self.derivative_id_low, self.derivative_id_high)
    }

    /// The flags of the product.
    pub fn get_flags(&self) -> (flags: u16)
        ensures
            flags == self@.flags,
    {
        self.flags
    }

    /// Adds the line of the product to `lines`.
    fn dump_line(&self, lines: &mut Vec<String>)
        requires
            self.wf(),
        ensures
            line_texts(final(lines)@) == line_texts(old(lines)@).push(
                key_prefix(self@.product_id as nat) + product_text(
                    self@.derivative_id_low,
                    self@.derivative_id_high,
                    self@.modes.dom().len(),
                ),
            ),
    {
        let mut shown = key_arrow(self.product_id as u64);
        match self.to_string() {
            Ok(text) => {
                shown.append(text.as_str());
            },
            Err(_) => {},
        }
        let ghost texts = line_texts(lines@);
        lines.push(shown);
        assert(line_texts(lines@) =~= texts.push(shown@));
    }

    /// The modes of the product.
    pub fn get_modes(&self) -> (modes: &ModeIndex)
        ensures
            modes@ == self@.modes,
            self.wf() ==> modes.wf(),
            forall|blob: RawBlob| #[trigger] self.within(blob) ==> modes.within(blob),
    {
        &self.mode_index
    }
}

/// The line of a product, added to the lines so far: its id, an arrow, and
/// the product in words.
pub open spec fn dump_product_line(product: ProductModel, so_far: Dumped) -> Dumped {
    Dumped {
        lines: so_far.lines.push(
            key_prefix(product.product_id as nat) + product_text(
                product.derivative_id_low,
                product.derivative_id_high,
                product.modes.dom().len(),
            ),
        ),
        ..so_far
    }
}

/// Putting the products from place `i` of the list on into words: one line
/// for each product, and behind it the lines of its modes. The first failure
/// ends it.
pub open spec fn dump_products(
    bytes: Seq<u8>,
    maps: CharacterMapsModel,
    products: Seq<(int, ProductModel)>,
    i: int,
    so_far: Dumped,
) -> Dumped
    decreases products.len() - i,
{
    if i < 0 || i >= products.len() || so_far.failure is Some {
        so_far
    } else {
        dump_products(
            bytes,
            maps,
            products,
            i + 1,
            dump_modes(
                bytes,
                maps,
                listing(products[i].1.modes),
                0,
                dump_product_line(products[i].1, so_far),
            ),
        )
    }
}

/// The products of a file, by id.
pub struct ProductIndex {
    products: Table<ProductIndexEntry>,
}

impl View for ProductIndex {
    type V = Map<int, ProductModel>;

    closed spec fn view(&self) -> Map<int, ProductModel> {
        self.products@.map_values(|e: ProductIndexEntry| e@)
    }
}

/// The ids of the entries, in their order.
pub open spec fn product_ids(entries: Seq<ProductIndexEntry>) -> Seq<int> {
    entries.map_values(|e: ProductIndexEntry| e@.product_id as int)
}

/// The entries as what they hold, in their order.
pub open spec fn product_models(entries: Seq<ProductIndexEntry>) -> Seq<ProductModel> {
    entries.map_values(|e: ProductIndexEntry| e@)
}

/// Every entry of the table stands under its own id and is well formed.
spec fn entries_wf(products: Map<int, ProductIndexEntry>) -> bool {
    forall|k: int| #[trigger]
        products.contains_key(k) ==> products[k].product_id == k && products[k].wf()
}

/// Every entry of the table resolves its strings by `blob`.
spec fn entries_within(products: Map<int, ProductIndexEntry>, blob: RawBlob) -> bool {
    forall|k: int| #[trigger] products.contains_key(k) ==> products[k].within(blob)
}

impl ProductIndex {
    /// No id occurs twice, every entry stands under its own id, and the
    /// tables of modes are well formed.
    pub closed spec fn wf(&self) -> bool {
        &&& self.products.wf()
        &&& entries_wf(self.products@)
    }

    /// Every entry, with all below it, resolves its strings by `blob`.
    pub closed spec fn within(&self, blob: RawBlob) -> bool {
        entries_within(self.products@, blob)
    }

    /// Every entry stands under its own id, and the entries are finitely many.
    pub proof fn lemma_keys(&self)
        requires
            self.wf(),
        ensures
            self@.dom().finite(),
            forall|k: int| #[trigger] self@.contains_key(k) ==> self@[k].product_id == k,
    {
        lemma_count(self.products.keys(), self.products.values());
        assert(self@.dom() =~= self.products@.dom());
    }

    /// The table of the given entries. `DuplicateKey` where two of them have
    /// the same id.
    pub fn new(entries: Vec<ProductIndexEntry>) -> (r: Result<ProductIndex, Fatal>)
        requires
            forall|i: int| 0 <= i < entries@.len() ==> (#[trigger] entries@[i]).wf(),
        ensures
            match collect(product_ids(entries@), product_models(entries@), 0, Map::empty()) {
                Some(products) => r is Ok && r->Ok_0.wf() && r->Ok_0@ == products,
                None => r == Err::<ProductIndex, Fatal>(Fatal::DuplicateKey),
            },
            forall|blob: RawBlob|
                r is Ok && (forall|i: int|
                    0 <= i < entries@.len() ==> (#[trigger] entries@[i]).within(blob))
                    ==> #[trigger] r->Ok_0.within(blob),
    {
        let mut products: Table<ProductIndexEntry> = Table::new();
        let mut i: usize = 0;
        let ghost ids = product_ids(entries@);
        let ghost models = product_models(entries@);
        assert(products@.map_values(|e: ProductIndexEntry| e@) =~= Map::<
            int,
            ProductModel,
        >::empty());
        while i < entries.len()
            invariant
                i <= entries@.len(),
                ids == product_ids(entries@),
                models == product_models(entries@),
                forall|i: int| 0 <= i < entries@.len() ==> (#[trigger] entries@[i]).wf(),
                products.wf(),
                entries_wf(products@),
                forall|k: int| #[trigger]
                    products@.contains_key(k) ==> exists|j: int|
                        0 <= j < i && entries@[j] == products@[k],
                collect(ids, models, 0, Map::empty()) == collect(
                    ids,
                    models,
                    i as int,
                    products@.map_values(|e: ProductIndexEntry| e@),
                ),
            decreases entries@.len() - i,
        {
            let entry = entries[i].clone();
            let ghost before = products@;
            let added = products.insert(entry.product_id as i64, entry);
            proof {
                assert(before.map_values(|e: ProductIndexEntry| e@).dom() =~= before.dom());
            }
            if !added {
                return Err(Fatal::DuplicateKey);
            }
            assert(products@.map_values(|e: ProductIndexEntry| e@) =~= before.map_values(
                |e: ProductIndexEntry| e@,
            ).insert(ids[i as int], models[i as int]));
            i += 1;
        }
        Ok(ProductIndex { products })
    }

    fn validate_schema(schema: u16, idx_entry_len: u8, num_of_products: u8, bounds: CountBounds) -> (r:
        Result<(), Fatal>)
        ensures
            r == check_schema(schema, idx_entry_len, num_of_products, bounds),
    {
        match schema {
            2 => {
                if idx_entry_len != 8 {
                    return Err(Fatal::EntrySize);
                }
            },
            3 => {
                if idx_entry_len != 11 {
                    return Err(Fatal::EntrySize);
                }
            },
            4 => {
                if idx_entry_len != 11 {
                    return Err(Fatal::EntrySize);
                }
            },
            _ => {
                return Err(Fatal::InvalidFormat);
            },
        }
        if num_of_products < bounds.min {
            return Err(Fatal::EntryCount);
        }
        if num_of_products > bounds.max {
            return Err(Fatal::EntryCount);
        }
        Ok(())
    }

    /// Reads the `num_entries` records of a schema-2 table at the cursor.
    fn read_v2_entries(fp: &mut FileBlob, num_entries: u8) -> (r: Result<Vec<ProductRecord>, Fatal>)
        requires
            old(fp).wf(),
        ensures
            final(fp).follows(*old(fp)),
            match read_records(
                old(fp).handle().bytes(),
                old(fp).cursor(),
                2,
                num_entries as nat,
                Seq::empty(),
            ) {
                Ok((records, next)) => r is Ok && r->Ok_0@ == records && final(fp).cursor() == next,
                Err(e) => r == Err::<Vec<ProductRecord>, Fatal>(e),
            },
    {
        let mut tmp_info: Vec<ProductRecord> = Vec::new();
        let ghost bytes = old(fp).handle().bytes();
        let ghost whole = read_records(bytes, old(fp).cursor(), 2, num_entries as nat, Seq::empty());
        let mut i: u8 = 0;
        while i < num_entries
            invariant
                i <= num_entries,
                fp.follows(*old(fp)),
                bytes == old(fp).handle().bytes(),
                whole == read_records(
                    bytes,
                    old(fp).cursor(),
                    2,
                    num_entries as nat,
                    Seq::empty(),
                ),
                whole == read_records(
                    bytes,
                    fp.cursor(),
                    2,
                    (num_entries - i) as nat,
                    tmp_info@,
                ),
            decreases num_entries - i,
        {
            let buf = fp.read_exact(8, BlobRegions::Products)?;
            let flags = buf[0] as u16;
            if flags > 15 {
                return Err(Fatal::InvalidFlags);
            }
            let derivative_id = buf[1] as u16;
            let product_id = little_endian_2_bytes(slice_subrange(buf.as_slice(), 2, 4));
            let offset_to_modes = little_endian_4_bytes(slice_subrange(buf.as_slice(), 4, 8));
            if offset_to_modes == 0 {
                return Err(Fatal::EmptySlot);
            }
            tmp_info.push(
                ProductRecord {
                    product_id,
                    derivative_id_low: derivative_id,
                    derivative_id_high: derivative_id,
                    flags,
                    offset: offset_to_modes,
                },
            );
            i += 1;
        }
        Ok(tmp_info)
    }

    /// Reads the `num_entries` records of a table of schema 3 or 4 at the
    /// cursor.
    fn read_v3_entries(fp: &mut FileBlob, num_entries: u8) -> (r: Result<Vec<ProductRecord>, Fatal>)
        requires
            old(fp).wf(),
        ensures
            final(fp).follows(*old(fp)),
            match read_records(
                old(fp).handle().bytes(),
                old(fp).cursor(),
                3,
                num_entries as nat,
                Seq::empty(),
            ) {
                Ok((records, next)) => r is Ok && r->Ok_0@ == records && final(fp).cursor() == next,
                Err(e) => r == Err::<Vec<ProductRecord>, Fatal>(e),
            },
    {
        let mut tmp_info: Vec<ProductRecord> = Vec::new();
        let ghost bytes = old(fp).handle().bytes();
        let ghost whole = read_records(bytes, old(fp).cursor(), 3, num_entries as nat, Seq::empty());
        let mut i: u8 = 0;
        while i < num_entries
            invariant
                i <= num_entries,
                fp.follows(*old(fp)),
                bytes == old(fp).handle().bytes(),
                whole == read_records(
                    bytes,
                    old(fp).cursor(),
                    3,
                    num_entries as nat,
                    Seq::empty(),
                ),
                whole == read_records(
                    bytes,
                    fp.cursor(),
                    3,
                    (num_entries - i) as nat,
                    tmp_info@,
                ),
            decreases num_entries - i,
        {
            let buf = fp.read_exact(11, BlobRegions::Products)?;
            let product_id = little_endian_2_bytes(slice_subrange(buf.as_slice(), 0, 2));
            let derivative_id_low = little_endian_2_bytes(slice_subrange(buf.as_slice(), 2, 4));
            let derivative_id_high = little_endian_2_bytes(slice_subrange(buf.as_slice(), 4, 6));
            let flags = little_endian_2_bytes(slice_subrange(buf.as_slice(), 6, 8));
            let offset_to_modes = little_endian_3_bytes(slice_subrange(buf.as_slice(), 8, 11));
            if offset_to_modes == 0 {
                return Err(Fatal::EmptySlot);
            }
            tmp_info.push(
                ProductRecord {
                    product_id,
                    derivative_id_low,
                    derivative_id_high,
                    flags,
                    offset: offset_to_modes,
                },
            );
            i += 1;
        }
        Ok(tmp_info)
    }

    /// Reads the table of products at the cursor, and all that lies below
    /// it, with the bounds that go with the schema.
    pub fn create_from_file(fp: &mut FileBlob, schema: u16, font_family: u8) -> (r: Result<
        ProductIndex,
        Fatal,
    >)
        requires
            old(fp).wf(),
        ensures
            parses(
                *old(fp),
                *final(fp),
                r,
                read_products(
                    old(fp).handle().bytes(),
                    old(fp).cursor(),
                    schema,
                    font_family,
                    bounds_of(schema),
                ),
            ),
            r is Ok ==> r->Ok_0.wf() && r->Ok_0.within(old(fp).handle()),
    {
        Self::create_within(fp, schema, font_family, CountBounds::for_schema(schema))
    }

    /// Reads the table of products at the cursor, and all that lies below
    /// it, with the number of products held to `bounds`.
    pub fn create_within(fp: &mut FileBlob, schema: u16, font_family: u8, bounds: CountBounds) -> (r:
        Result<ProductIndex, Fatal>)
        requires
            old(fp).wf(),
        ensures
            parses(
                *old(fp),
                *final(fp),
                r,
                read_products(
                    old(fp).handle().bytes(),
                    old(fp).cursor(),
                    schema,
                    font_family,
                    bounds,
                ),
            ),
            r is Ok ==> r->Ok_0.wf() && r->Ok_0.within(old(fp).handle()),
    {
        let num_products = fp.read_byte(BlobRegions::Products)?;
        let idx_entry_len = fp.read_byte(BlobRegions::Products)?;
        Self::validate_schema(schema, idx_entry_len, num_products, bounds)?;
        proof {
            lemma_later_records(
                fp.handle().bytes(),
                fp.cursor(),
                num_products as nat,
                Seq::empty(),
            );
        }
        let tmp_info = match schema {
            2 => Self::read_v2_entries(fp, num_products)?,
            _ => Self::read_v3_entries(fp, num_products)?,
        };
        let mut products: Table<ProductIndexEntry> = Table::new();
        let ghost blob = old(fp).handle();
        let ghost bytes = blob.bytes();
        let ghost whole = read_products(bytes, old(fp).cursor(), schema, font_family, bounds);
        assert(products@.map_values(|e: ProductIndexEntry| e@) =~= Map::<
            int,
            ProductModel,
        >::empty());
        let mut i: usize = 0;
        while i < tmp_info.len()
            invariant
                i <= tmp_info@.len(),
                fp.follows(*old(fp)),
                blob == old(fp).handle(),
                bytes == blob.bytes(),
                whole == read_products(bytes, old(fp).cursor(), schema, font_family, bounds),
                products.wf(),
                entries_wf(products@),
                entries_within(products@, blob),
                whole == build(
                    bytes,
                    fp.cursor(),
                    schema,
                    font_family,
                    tmp_info@,
                    i as int,
                    products@.map_values(|e: ProductIndexEntry| e@),
                ),
            decreases tmp_info@.len() - i,
        {
            let info = &tmp_info[i];
            fp.set_pos(info.offset);
            let mode_index = ModeIndex::create_from_file(fp, schema, font_family)?;
            let entry = ProductIndexEntry::new(
                info.product_id,
                info.derivative_id_low,
                info.derivative_id_high,
                info.flags,
                mode_index,
            );
            let ghost before = products@;
            let ghost model = entry@;
            assert(before.map_values(|e: ProductIndexEntry| e@).dom() =~= before.dom());
            if !products.insert(info.product_id as i64, entry) {
                return Err(Fatal::DuplicateKey);
            }
            assert(products@.map_values(|e: ProductIndexEntry| e@) =~= before.map_values(
                |e: ProductIndexEntry| e@,
            ).insert(info.product_id as int, model));
            i += 1;
        }
        Ok(ProductIndex { products })
    }

    /// The number of products.
    pub fn len(&self) -> (n: usize)
        requires
            self.wf(),
        ensures
            self@.dom().finite(),
            n == self@.dom().len(),
    {
        assert(self@.dom() =~= self.products@.dom());
        self.products.len()
    }

    /// The entry of a product, if the table has it.
    pub fn get(&self, product_id: u16) -> (r: Option<&ProductIndexEntry>)
        requires
            self.wf(),
        ensures
            match r {
                Some(entry) => {
                    &&& self@.contains_key(product_id as int)
                    &&& self@[product_id as int] == entry@
                    &&& entry.wf()
                    &&& forall|blob: RawBlob| #[trigger] self.within(blob) ==> entry.within(blob)
                },
                None => !self@.contains_key(product_id as int),
            },
    {
        assert(self@.dom() =~= self.products@.dom());
        self.products.get(product_id as i64)
    }

    /// Puts the products into words, by falling key, each with all that
    /// lies below it, and adds the lines to `lines`.
    #[verifier::rlimit(80)]
    pub(crate) fn dump(
        &self,
        lines: &mut Vec<String>,
        stats: &mut Stats,
        Ghost(blob): Ghost<RawBlob>,
    ) -> (r: Result<(), DumpError>)
        requires
            self.wf(),
            self.within(blob),
            old(stats).regions().len() == blob.bytes().len(),
        ensures
            final(stats).regions().len() == blob.bytes().len(),
            dumps(
                r,
                final(lines)@,
                *final(stats),
                dump_products(
                    blob.bytes(),
                    blob.maps(),
                    listing(self@),
                    0,
                    (Dumped {
                        failure: None,
                        lines: line_texts(old(lines)@),
                        regions: old(stats).regions(),
                        strings: old(stats).strings(),
                    }),
                ),
            ),
    {
        let n = self.products.len();
        let ghost items = listing(self@);
        let ghost start = Dumped {
            failure: None,
            lines: line_texts(lines@),
            regions: stats.regions(),
            strings: stats.strings(),
        };
        proof {
            lemma_backwards(self.products.keys(), self.products.values(), |e: ProductIndexEntry| e@);
        }
        let mut i: usize = n;
        while i > 0
            invariant
                self.wf(),
                self.within(blob),
                n == self.products.keys().len(),
                i <= n,
                items == listing(self@),
                start == (Dumped {
                    failure: None,
                    lines: line_texts(old(lines)@),
                    regions: old(stats).regions(),
                    strings: old(stats).strings(),
                }),
                items == backwards(
                    self.products.keys(),
                    self.products.values(),
                    |e: ProductIndexEntry| e@,
                ),
                stats.regions().len() == blob.bytes().len(),
                dump_products(blob.bytes(), blob.maps(), items, 0, start) == dump_products(
                    blob.bytes(),
                    blob.maps(),
                    items,
                    n - i,
                    (Dumped {
                        failure: None,
                        lines: line_texts(lines@),
                        regions: stats.regions(),
                        strings: stats.strings(),
                    }),
                ),
            decreases i,
        {
            i -= 1;
            let entry = self.products.value_at(i);
            let ghost before = Dumped {
                failure: None,
                lines: line_texts(lines@),
                regions: stats.regions(),
                strings: stats.strings(),
            };
            let ghost item = items[n - 1 - i];
            let ghost line = dump_product_line(item.1, before);
            let ghost below = dump_modes(blob.bytes(), blob.maps(), listing(item.1.modes), 0, line);
            proof {
                assert(dump_products(blob.bytes(), blob.maps(), items, n - 1 - i, before)
                    == dump_products(blob.bytes(), blob.maps(), items, n - i, below));
                assert(below.failure is Some ==> dump_products(
                    blob.bytes(),
                    blob.maps(),
                    items,
                    n - i,
                    below,
                ) == below);
            }
            entry.dump_line(lines);
            let r = entry.mode_index.dump(lines, stats, Ghost(blob));
            if let Err(e) = r {
                return Err(e);
            }
        }
        Ok(())
    }

    /// The entries by falling id, for going through them.
    pub fn into_iter(&self) -> (iter: ProductIndexIterator)
        requires
            self.wf(),
        ensures
            iter.wf(),
            lists_descending(iter@, self@),
            forall|blob: RawBlob| #[trigger] self.within(blob) ==> iter.within(blob),
    {
        let mut items: Vec<(u16, ProductIndexEntry)> = Vec::new();
        let n = self.products.len();
        let mut i: usize = 0;
        while i < n
            invariant
                self.wf(),
                n == self.products.keys().len(),
                i <= n,
                items@.len() == i,
                forall|j: int|
                    0 <= j < i ==> #[trigger] items@[j] == (
                        self.products.keys()[j] as u16,
                        self.products.values()[j],
                    ) && self.products.keys()[j] == items@[j].0 && items@[j].1.wf(),
            decreases n - i,
        {
            let entry = self.products.value_at(i).clone();
            items.push((entry.product_id, entry));
            i += 1;
        }
        let iter = ProductIndexIterator { items };
        proof {
            assert forall|blob: RawBlob| #[trigger] self.within(blob) implies iter.within(
                blob,
            ) by {
                assert forall|j: int| 0 <= j < iter.items@.len() implies (
                #[trigger] iter.items@[j]).1.within(blob) by {
                    lemma_map_at(self.products.keys(), self.products.values(), j);
                }
            }
            lemma_descending(
                self.products.keys(),
                self.products.values(),
                |e: ProductIndexEntry| e@,
                iter@,
            );
        }
        iter
    }
}

/// The entries of a table of products that are still to come, by falling id.
pub struct ProductIndexIterator {
    items: Vec<(u16, ProductIndexEntry)>,
}

impl View for ProductIndexIterator {
    type V = Seq<(int, ProductModel)>;

    closed spec fn view(&self) -> Seq<(int, ProductModel)> {
        Seq::new(
            self.items@.len(),
            |i: int|
                (
                    self.items@[self.items@.len() - 1 - i].0 as int,
                    self.items@[self.items@.len() - 1 - i].1@,
                ),
        )
    }
}

impl ProductIndexIterator {
    /// Every entry that is still to come is well formed.
    pub closed spec fn wf(&self) -> bool {
        forall|i: int| 0 <= i < self.items@.len() ==> (#[trigger] self.items@[i]).1.wf()
    }

    /// Every entry that is still to come resolves its strings by `blob`.
    pub closed spec fn within(&self, blob: RawBlob) -> bool {
        forall|i: int| 0 <= i < self.items@.len() ==> (#[trigger] self.items@[i]).1.within(blob)
    }

    /// The next entry with its id, if one is left.
    pub fn next(&mut self) -> (r: Option<(u16, ProductIndexEntry)>)
        ensures
            old(self).wf() ==> final(self).wf(),
            forall|blob: RawBlob| #[trigger] old(self).within(blob) ==> final(self).within(blob),
            match r {
                Some((id, entry)) => {
                    &&& old(self)@.len() > 0
                    &&& old(self)@[0] == (id as int, entry@)
                    &&& final(self)@ == old(self)@.skip(1)
                    &&& old(self).wf() ==> entry.wf()
                    &&& forall|blob: RawBlob| #[trigger]
                        old(self).within(blob) ==> entry.within(blob)
                },
                None => old(self)@.len() == 0 && final(self)@ == old(self)@,
            },
    {
        let r = self.items.pop();
        proof {
            if r is Some {
                assert(self@ =~= old(self)@.skip(1));
                assert(old(self).items@[old(self).items@.len() - 1] == r->Some_0);
            }
        }
        r
    }
}

} // verus!
