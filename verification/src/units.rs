use crate::blob::{
    describe, dump_entry, dumps, line_texts, parses, take, take_byte, take_le2, worded,
    BlobRegions, Cursor, DumpError, Dumped, FileBlob, RawBlob, Stats, StringError,
};
use crate::characters::CharacterMapsModel;
use crate::conversion::{
    key_arrow, key_prefix, le_bytes, lemma_le2_at, lemma_le3_at, lemma_le4_at, lemma_le_bytes_len,
    little_endian_2_bytes, little_endian_3_bytes, little_endian_4_bytes, spec_le2, spec_le3,
    spec_le4,
};
use crate::error::Fatal;
use crate::table::{
    backwards, collect, lemma_backwards, lemma_count, lemma_descending, lemma_map_at, listing,
    lists_descending, Table,
};
use vstd::prelude::*;
use vstd::slice::slice_subrange;
use vstd::std_specs::cmp::PartialEqSpecImpl;

verus! {

/// One unit of measurement: its id, and where its caption and its tooltip
/// stand in the file.
pub struct UnitsIndexEntry {
    units: u16,
    caption_off: u32,
    tooltip_off: u32,
    blob: RawBlob,
}

/// What an entry holds: the id of the unit, and the offsets of its caption
/// and its tooltip.
pub struct UnitsModel {
    pub units: u16,
    pub caption_off: u32,
    pub tooltip_off: u32,
}

impl View for UnitsIndexEntry {
    type V = UnitsModel;

    closed spec fn view(&self) -> UnitsModel {
        UnitsModel {
            units: self.units,
            caption_off: self.caption_off,
            tooltip_off: self.tooltip_off,
        }
    }
}

impl Clone for UnitsIndexEntry {
    fn clone(&self) -> (r: UnitsIndexEntry)
        ensures
            r == *self,
    {
        UnitsIndexEntry {
            units: self.units,
            caption_off: self.caption_off,
            tooltip_off: self.tooltip_off,
            blob: self.blob.clone(),
        }
    }
}

impl PartialEq for UnitsIndexEntry {
    fn eq(&self, other: &Self) -> (r: bool) {
        self.caption_off == other.caption_off
    }
}

impl PartialEqSpecImpl for UnitsIndexEntry {
    open spec fn obeys_eq_spec() -> bool {
        true
    }

    open spec fn eq_spec(&self, other: &Self) -> bool {
        self@.caption_off == other@.caption_off
    }
}

/// The fields of one record of the table.
pub struct UnitsRecord {
    pub id: u16,
    pub caption_off: u32,
    pub tooltip_off: u32,
}

/// The width of a record: 6 bytes in schema 2, 5 in schema 3, else 8.
pub open spec fn record_len(schema: u16) -> int {
    if schema == 2 {
        6
    } else if schema == 3 {
        5
    } else {
        8
    }
}

/// The record that the bytes hold. Schema 2: the id in two bytes, the offset
/// of the caption in four. Schema 3: the id, the offset in three bytes. Schema 4:
/// the id, the offsets of caption and tooltip in three bytes each.
pub open spec fn decode_record(schema: u16, buf: Seq<u8>) -> UnitsRecord {
    if schema == 2 {
        UnitsRecord {
            id: spec_le2(buf) as u16,
            caption_off: spec_le4(buf.skip(2)) as u32,
            tooltip_off: 0,
        }
    } else if schema == 3 {
        UnitsRecord {
            id: spec_le2(buf) as u16,
            caption_off: spec_le3(buf.skip(2)) as u32,
            tooltip_off: 0,
        }
    } else {
        UnitsRecord {
            id: spec_le2(buf) as u16,
            caption_off: spec_le3(buf.skip(2)) as u32,
            tooltip_off: spec_le3(buf.skip(5)) as u32,
        }
    }
}

/// The bytes that hold the record.
pub open spec fn encode_record(schema: u16, rec: UnitsRecord) -> Seq<u8> {
    if schema == 2 {
        le_bytes(rec.id as nat, 2) + le_bytes(rec.caption_off as nat, 4)
    } else if schema == 3 {
        le_bytes(rec.id as nat, 2) + le_bytes(rec.caption_off as nat, 3)
    } else {
        le_bytes(rec.id as nat, 2) + le_bytes(rec.caption_off as nat, 3) + le_bytes(
            rec.tooltip_off as nat,
            3,
        )
    }
}

/// What was written as a record is read back as it was: in every schema, for
/// every record that the schema can hold.
pub proof fn lemma_record_roundtrip(schema: u16, rec: UnitsRecord)
    requires
        schema == 2 || schema == 3 || schema == 4,
        schema != 2 ==> rec.caption_off < 0x100_0000,
        schema == 4 ==> rec.tooltip_off < 0x100_0000,
        schema != 4 ==> rec.tooltip_off == 0,
    ensures
        encode_record(schema, rec).len() == record_len(schema),
        decode_record(schema, encode_record(schema, rec)) == rec,
{
    let buf = encode_record(schema, rec);
    lemma_le_bytes_len(rec.id as nat, 2);
    lemma_le_bytes_len(rec.caption_off as nat, 3);
    lemma_le_bytes_len(rec.caption_off as nat, 4);
    lemma_le_bytes_len(rec.tooltip_off as nat, 3);
    assert(buf.subrange(0, 2) =~= le_bytes(rec.id as nat, 2));
    assert(buf.skip(0) =~= buf);
    lemma_le2_at(buf, 0, rec.id as nat);
    if schema == 2 {
        assert(buf.subrange(2, 6) =~= le_bytes(rec.caption_off as nat, 4));
        lemma_le4_at(buf, 2, rec.caption_off as nat);
    } else {
        assert(buf.subrange(2, 5) =~= le_bytes(rec.caption_off as nat, 3));
        lemma_le3_at(buf, 2, rec.caption_off as nat);
        if schema == 4 {
            assert(buf.subrange(5, 8) =~= le_bytes(rec.tooltip_off as nat, 3));
            lemma_le3_at(buf, 5, rec.tooltip_off as nat);
        }
    }
}

/// Reading one record at the cursor: `EmptySlot` where it has no caption.
pub open spec fn read_record(bytes: Seq<u8>, cur: Cursor, schema: u16) -> Result<
    (UnitsModel, Cursor),
    Fatal,
> {
    match take(bytes, cur, record_len(schema), BlobRegions::Units) {
        Err(e) => Err(e),
        Ok((buf, next)) => {
            let rec = decode_record(schema, buf);
            if rec.caption_off == 0 {
                Err(Fatal::EmptySlot)
            } else {
                Ok(
                    (
                        UnitsModel {
                            units: rec.id,
                            caption_off: rec.caption_off,
                            tooltip_off: rec.tooltip_off,
                        },
                        next,
                    ),
                )
            }
        },
    }
}

/// Reading `count` records at the cursor into `units`: `DuplicateKey` where
/// an id comes a second time.
pub open spec fn read_records(
    bytes: Seq<u8>,
    cur: Cursor,
    schema: u16,
    count: nat,
    units: Map<int, UnitsModel>,
) -> Result<(Map<int, UnitsModel>, Cursor), Fatal>
    decreases count,
{
    if count == 0 {
        Ok((units, cur))
    } else {
        match read_record(bytes, cur, schema) {
            Err(e) => Err(e),
            Ok((entry, next)) => if units.contains_key(entry.units as int) {
                Err(Fatal::DuplicateKey)
            } else {
                read_records(
                    bytes,
                    next,
                    schema,
                    (count - 1) as nat,
                    units.insert(entry.units as int, entry),
                )
            },
        }
    }
}

/// What a table's header must say of itself: the width of a record that goes
/// with the schema, else `EntrySize`; then a maximal string length of 16, or
/// of 256 in schema 4, else `StringLength`. Another schema is `InvalidFormat`.
pub open spec fn check_schema(schema: u16, idx_entry_len: u8, max_str_len: u16) -> Result<
    (),
    Fatal,
> {
    if schema != 2 && schema != 3 && schema != 4 {
        Err(Fatal::InvalidFormat)
    } else if idx_entry_len != record_len(schema) {
        Err(Fatal::EntrySize)
    } else if max_str_len != (if schema == 4 {
        256
    } else {
        16int
    }) {
        Err(Fatal::StringLength)
    } else {
        Ok(())
    }
}

/// Reading the header at the cursor: the number of entries. Before schema 4
/// the header also holds the maximal string length and the font family, which
/// must be that of the file, else `FontFamily`.
pub open spec fn read_header(bytes: Seq<u8>, cur: Cursor, schema: u16, root_font_family: u8) -> Result<
    (u16, Cursor),
    Fatal,
> {
    match take_le2(bytes, cur, BlobRegions::Units) {
        Err(e) => Err(e),
        Ok((num_entries, c1)) => if schema < 4 {
            match take_le2(bytes, c1, BlobRegions::Units) {
                Err(e) => Err(e),
                Ok((max_str_len, c2)) => match take_byte(bytes, c2, BlobRegions::Units) {
                    Err(e) => Err(e),
                    Ok((font_family, c3)) => if root_font_family != font_family {
                        Err(Fatal::FontFamily)
                    } else {
                        match take_byte(bytes, c3, BlobRegions::Units) {
                            Err(e) => Err(e),
                            Ok((idx_entry_len, c4)) => match check_schema(
                                schema,
                                idx_entry_len,
                                max_str_len,
                            ) {
                                Err(e) => Err(e),
                                Ok(()) => Ok((num_entries, c4)),
                            },
                        }
                    },
                },
            }
        } else {
            match take_byte(bytes, c1, BlobRegions::Units) {
                Err(e) => Err(e),
                Ok((idx_entry_len, c2)) => match check_schema(schema, idx_entry_len, 256) {
                    Err(e) => Err(e),
                    Ok(()) => Ok((num_entries, c2)),
                },
            }
        },
    }
}

/// Reading the table of units at the cursor.
pub open spec fn read_units(bytes: Seq<u8>, cur: Cursor, schema: u16, root_font_family: u8) -> Result<
    (Map<int, UnitsModel>, Cursor),
    Fatal,
> {
    match read_header(bytes, cur, schema, root_font_family) {
        Err(e) => Err(e),
        Ok((num_entries, next)) => read_records(bytes, next, schema, num_entries as nat, Map::empty()),
    }
}

impl UnitsIndexEntry {
    /// The handle by which the entry resolves its strings.
    pub closed spec fn blob(&self) -> RawBlob {
        self.blob
    }

    /// The entry of a unit, which resolves its strings by the file of `fp`.
    pub fn new(units: u16, caption_off: u32, tooltip_off: u32, fp: &mut FileBlob) -> (entry:
        UnitsIndexEntry)
        ensures
            *final(fp) == *old(fp),
            entry@ == (UnitsModel { units, caption_off, tooltip_off }),
            entry.blob() == old(fp).handle(),
    {
        UnitsIndexEntry { units, caption_off, tooltip_off, blob: fp.freeze() }
    }

    /// The id of the unit.
    pub fn get_units(&self) -> (id: u16)
        ensures
            id == self@.units,
    {
        self.units
    }

    /// The offset of the caption.
    pub fn get_caption_off(&self) -> (off: u32)
        ensures
            off == self@.caption_off,
    {
        self.caption_off
    }

    /// The offset of the tooltip, 0 where there is none.
    pub fn get_tooltip_off(&self) -> (off: u32)
        ensures
            off == self@.tooltip_off,
    {
        self.tooltip_off
    }

    /// The unit in words: its caption and, where it has one, its tooltip,
    /// each of at most 16 bytes.
    pub fn to_string(&self, stats: &mut Stats) -> (r: Result<String, StringError>)
        requires
            old(stats).regions().len() == self.blob().bytes().len(),
        ensures
            final(stats).regions().len() == self.blob().bytes().len(),
            ({
                let expected = describe(
                    self.blob().bytes(),
                    self.blob().maps(),
                    old(stats).regions(),
                    old(stats).strings(),
                    self@.caption_off,
                    self@.tooltip_off,
                    16,
                );
                &&& worded(r) == expected.result
                &&& final(stats).regions() == expected.regions
                &&& final(stats).strings() == expected.strings
            }),
    {
        self.blob.get_caption(self.caption_off, self.tooltip_off, 16, stats)
    }

    fn load_v2(fp: &mut FileBlob) -> (r: Result<(u16, UnitsIndexEntry), Fatal>)
        requires
            old(fp).wf(),
        ensures
            final(fp).follows(*old(fp)),
            loads(r, *old(fp), *final(fp), read_record(old(fp).handle().bytes(), old(fp).cursor(), 2)),
    {
        let buf = fp.read_exact(6, BlobRegions::Units)?;
        let unit_id = little_endian_2_bytes(slice_subrange(buf.as_slice(), 0, 2));
        let offset = little_endian_4_bytes(slice_subrange(buf.as_slice(), 2, 6));
        if offset == 0 {
            return Err(Fatal::EmptySlot);
        }
        let entry = UnitsIndexEntry::new(unit_id, offset, 0, fp);
        Ok((unit_id, entry))
    }

    fn load_v3(fp: &mut FileBlob) -> (r: Result<(u16, UnitsIndexEntry), Fatal>)
        requires
            old(fp).wf(),
        ensures
            final(fp).follows(*old(fp)),
            loads(r, *old(fp), *final(fp), read_record(old(fp).handle().bytes(), old(fp).cursor(), 3)),
    {
        let buf = fp.read_exact(5, BlobRegions::Units)?;
        let unit_id = little_endian_2_bytes(slice_subrange(buf.as_slice(), 0, 2));
        let offset = little_endian_3_bytes(slice_subrange(buf.as_slice(), 2, 5));
        if offset == 0 {
            return Err(Fatal::EmptySlot);
        }
        let entry = UnitsIndexEntry::new(unit_id, offset, 0, fp);
        Ok((unit_id, entry))
    }

    fn load_v4(fp: &mut FileBlob) -> (r: Result<(u16, UnitsIndexEntry), Fatal>)
        requires
            old(fp).wf(),
        ensures
            final(fp).follows(*old(fp)),
            loads(r, *old(fp), *final(fp), read_record(old(fp).handle().bytes(), old(fp).cursor(), 4)),
    {
        let buf = fp.read_exact(8, BlobRegions::Units)?;
        let unit_id = little_endian_2_bytes(slice_subrange(buf.as_slice(), 0, 2));
        let caption_off = little_endian_3_bytes(slice_subrange(buf.as_slice(), 2, 5));
        let tooltip_off = little_endian_3_bytes(slice_subrange(buf.as_slice(), 5, 8));
        if caption_off == 0 {
            return Err(Fatal::EmptySlot);
        }
        let entry = UnitsIndexEntry::new(unit_id, caption_off, tooltip_off, fp);
        Ok((unit_id, entry))
    }
}

/// What reading one record gave, held against what it had to give.
pub open spec fn loads(
    got: Result<(u16, UnitsIndexEntry), Fatal>,
    before: FileBlob,
    after: FileBlob,
    expected: Result<(UnitsModel, Cursor), Fatal>,
) -> bool {
    match expected {
        Ok((entry, next)) => {
            &&& got is Ok
            &&& got->Ok_0.0 == entry.units
            &&& got->Ok_0.1@ == entry
            &&& got->Ok_0.1.blob() == before.handle()
            &&& after.cursor() == next
        },
        Err(e) => got == Err::<(u16, UnitsIndexEntry), Fatal>(e),
    }
}

/// Putting the units from place `i` of the list on into words, one line
/// each: the id, an arrow, and the caption with the tooltip. The first failure
/// ends it.
pub open spec fn dump_units(
    bytes: Seq<u8>,
    maps: CharacterMapsModel,
    units: Seq<(int, UnitsModel)>,
    i: int,
    so_far: Dumped,
) -> Dumped
    decreases units.len() - i,
{
    if i < 0 || i >= units.len() || so_far.failure is Some {
        so_far
    } else {
        dump_units(
            bytes,
            maps,
            units,
            i + 1,
            dump_entry(
                bytes,
                maps,
                key_prefix(units[i].0 as nat),
                units[i].1.caption_off,
                units[i].1.tooltip_off,
                16,
                so_far,
            ),
        )
    }
}

/// The table of units, by unit id.
pub struct UnitsIndex {
    units: Table<UnitsIndexEntry>,
}

impl View for UnitsIndex {
    type V = Map<int, UnitsModel>;

    closed spec fn view(&self) -> Map<int, UnitsModel> {
        self.units@.map_values(|e: UnitsIndexEntry| e@)
    }
}

/// The ids of the entries, in their order.
pub open spec fn unit_ids(entries: Seq<UnitsIndexEntry>) -> Seq<int> {
    entries.map_values(|e: UnitsIndexEntry| e@.units as int)
}

/// The entries as what they hold, in their order.
pub open spec fn unit_models(entries: Seq<UnitsIndexEntry>) -> Seq<UnitsModel> {
    entries.map_values(|e: UnitsIndexEntry| e@)
}

impl UnitsIndex {
    /// No id occurs twice, and every entry stands under its own id.
    pub closed spec fn wf(&self) -> bool {
        &&& self.units.wf()
        &&& forall|k: int| #[trigger]
            self.units@.contains_key(k) ==> self.units@[k].units == k
    }

    /// Every entry resolves its strings by `blob`.
    pub closed spec fn within(&self, blob: RawBlob) -> bool {
        forall|k: int| #[trigger] self.units@.contains_key(k) ==> self.units@[k].blob() == blob
    }

    /// Every entry stands under its own id, and the entries are finitely many.
    pub proof fn lemma_keys(&self)
        requires
            self.wf(),
        ensures
            self@.dom().finite(),
            forall|k: int| #[trigger] self@.contains_key(k) ==> self@[k].units == k,
    {
        lemma_count(self.units.keys(), self.units.values());
        assert(self@.dom() =~= self.units@.dom());
    }

    /// The table of the given entries. `DuplicateKey` where two of them have
    /// the same id.
    pub fn new(entries: Vec<UnitsIndexEntry>) -> (r: Result<UnitsIndex, Fatal>)
        ensures
            match collect(unit_ids(entries@), unit_models(entries@), 0, Map::empty()) {
                Some(units) => r is Ok && r->Ok_0.wf() && r->Ok_0@ == units,
                None => r == Err::<UnitsIndex, Fatal>(Fatal::DuplicateKey),
            },
            forall|blob: RawBlob|
                r is Ok && (forall|i: int|
                    0 <= i < entries@.len() ==> (#[trigger] entries@[i]).blob() == blob)
                    ==> #[trigger] r->Ok_0.within(blob),
    {
        let mut units: Table<UnitsIndexEntry> = Table::new();
        let mut i: usize = 0;
        let ghost ids = unit_ids(entries@);
        let ghost models = unit_models(entries@);
        assert(units@.map_values(|e: UnitsIndexEntry| e@) =~= Map::<int, UnitsModel>::empty());
        while i < entries.len()
            invariant
                i <= entries@.len(),
                ids == unit_ids(entries@),
                models == unit_models(entries@),
                units.wf(),
                forall|k: int| #[trigger] units@.contains_key(k) ==> units@[k].units == k,
                forall|k: int| #[trigger]
                    units@.contains_key(k) ==> exists|j: int|
                        0 <= j < i && entries@[j] == units@[k],
                collect(ids, models, 0, Map::empty()) == collect(
                    ids,
                    models,
                    i as int,
                    units@.map_values(|e: UnitsIndexEntry| e@),
                ),
            decreases entries@.len() - i,
        {
            let entry = entries[i].clone();
            let ghost before = units@;
            let added = units.insert(entry.units as i64, entry);
            proof {
                assert(before.map_values(|e: UnitsIndexEntry| e@).dom() =~= before.dom());
            }
            if !added {
                return Err(Fatal::DuplicateKey);
            }
            assert(units@.map_values(|e: UnitsIndexEntry| e@) =~= before.map_values(
                |e: UnitsIndexEntry| e@,
            ).insert(ids[i as int], models[i as int]));
            i += 1;
        }
        Ok(UnitsIndex { units })
    }

    fn validate_schema(schema: u16, idx_entry_len: u8, max_str_len: u16) -> (r: Result<(), Fatal>)
        ensures
            r == check_schema(schema, idx_entry_len, max_str_len),
    {
        let mut req_str_len: u16 = 16;
        match schema {
            2 => {
                if idx_entry_len != 6 {
                    return Err(Fatal::EntrySize);
                }
            },
            3 => {
                if idx_entry_len != 5 {
                    return Err(Fatal::EntrySize);
                }
            },
            4 => {
                if idx_entry_len != 8 {
                    return Err(Fatal::EntrySize);
                }
                req_str_len = 256;
            },
            _ => {
                return Err(Fatal::InvalidFormat);
            },
        }
        if max_str_len != req_str_len {
            return Err(Fatal::StringLength);
        }
        Ok(())
    }

    /// Reads the table of units at the cursor.
    pub fn from(fp: &mut FileBlob, schema: u16, root_font_family: u8) -> (r: Result<
        UnitsIndex,
        Fatal,
    >)
        requires
            old(fp).wf(),
        ensures
            parses(
                *old(fp),
                *final(fp),
                r,
                read_units(old(fp).handle().bytes(), old(fp).cursor(), schema, root_font_family),
            ),
            r is Ok ==> r->Ok_0.wf() && r->Ok_0.within(old(fp).handle()),
    {
        let num_entries = fp.read_le_2bytes(BlobRegions::Units)?;
        let mut max_str_len: u16 = 256;
        if schema < 4 {
            max_str_len = fp.read_le_2bytes(BlobRegions::Units)?;
            let font_family = fp.read_byte(BlobRegions::Units)?;
            if root_font_family != font_family {
                return Err(Fatal::FontFamily);
            }
        }
        let idx_entry_len = fp.read_byte(BlobRegions::Units)?;
        Self::validate_schema(schema, idx_entry_len, max_str_len)?;
        let mut units: Table<UnitsIndexEntry> = Table::new();
        let ghost blob = old(fp).handle();
        let ghost bytes = blob.bytes();
        let ghost whole = read_units(bytes, old(fp).cursor(), schema, root_font_family);
        assert(units@.map_values(|e: UnitsIndexEntry| e@) =~= Map::<int, UnitsModel>::empty());
        let mut i: u16 = 0;
        while i < num_entries
            invariant
                i <= num_entries,
                schema == 2 || schema == 3 || schema == 4,
                fp.follows(*old(fp)),
                blob == old(fp).handle(),
                bytes == blob.bytes(),
                whole == read_units(bytes, old(fp).cursor(), schema, root_font_family),
                units.wf(),
                forall|k: int| #[trigger] units@.contains_key(k) ==> units@[k].units == k,
                forall|k: int| #[trigger] units@.contains_key(k) ==> units@[k].blob() == blob,
                whole == read_records(
                    bytes,
                    fp.cursor(),
                    schema,
                    (num_entries - i) as nat,
                    units@.map_values(|e: UnitsIndexEntry| e@),
                ),
            decreases num_entries - i,
        {
            let (unit_id, entry) = match schema {
                2 => UnitsIndexEntry::load_v2(fp)?,
                3 => UnitsIndexEntry::load_v3(fp)?,
                _ => UnitsIndexEntry::load_v4(fp)?,
            };
            let ghost before = units@;
            let ghost model = entry@;
            assert(before.map_values(|e: UnitsIndexEntry| e@).dom() =~= before.dom());
            if !units.insert(unit_id as i64, entry) {
                return Err(Fatal::DuplicateKey);
            }
            assert(units@.map_values(|e: UnitsIndexEntry| e@) =~= before.map_values(
                |e: UnitsIndexEntry| e@,
            ).insert(unit_id as int, model));
            i += 1;
        }
        Ok(UnitsIndex { units })
    }

    /// The number of units.
    pub fn len(&self) -> (n: usize)
        requires
            self.wf(),
        ensures
            self@.dom().finite(),
            n == self@.dom().len(),
    {
        assert(self@.dom() =~= self.units@.dom());
        self.units.len()
    }

    /// The entry of a unit, if the table has it.
    pub fn get(&self, id: u16) -> (r: Option<&UnitsIndexEntry>)
        requires
            self.wf(),
        ensures
            match r {
                Some(entry) => {
                    &&& self@.contains_key(id as int)
                    &&& self@[id as int] == entry@
                    &&& forall|blob: RawBlob| #[trigger] self.within(blob) ==> entry.blob() == blob
                },
                None => !self@.contains_key(id as int),
            },
    {
        assert(self@.dom() =~= self.units@.dom());
        self.units.get(id as i64)
    }

    /// Puts the units into words, by falling id, and adds the lines to
    /// `lines`.
    pub(crate) fn dump(
        &self,
        lines: &mut Vec<String>,
        stats: &mut Stats,
        Ghost(blob): Ghost<RawBlob>,
    ) -> (r: Result<(), DumpError>)
        requires
            self.wf(),
            self.within(blob),
            old(stats).regions().len() == blob.bytes().len(),
        ensures
            final(stats).regions().len() == blob.bytes().len(),
            dumps(
                r,
                final(lines)@,
                *final(stats),
                dump_units(
                    blob.bytes(),
                    blob.maps(),
                    listing(self@),
                    0,
                    (Dumped {
                        failure: None,
                        lines: line_texts(old(lines)@),
                        regions: old(stats).regions(),
                        strings: old(stats).strings(),
                    }),
                ),
            ),
    {
        let n = self.units.len();
        let ghost items = listing(self@);
        let ghost start = Dumped {
            failure: None,
            lines: line_texts(lines@),
            regions: stats.regions(),
            strings: stats.strings(),
        };
        proof {
            lemma_backwards(self.units.keys(), self.units.values(), |e: UnitsIndexEntry| e@);
        }
        let mut i: usize = n;
        while i > 0
            invariant
                self.wf(),
                self.within(blob),
                n == self.units.keys().len(),
                i <= n,
                items == listing(self@),
                start == (Dumped {
                    failure: None,
                    lines: line_texts(old(lines)@),
                    regions: old(stats).regions(),
                    strings: old(stats).strings(),
                }),
                items == backwards(
                    self.units.keys(),
                    self.units.values(),
                    |e: UnitsIndexEntry| e@,
                ),
                stats.regions().len() == blob.bytes().len(),
                dump_units(blob.bytes(), blob.maps(), items, 0, start) == dump_units(
                    blob.bytes(),
                    blob.maps(),
                    items,
                    n - i,
                    (Dumped {
                        failure: None,
                        lines: line_texts(lines@),
                        regions: stats.regions(),
                        strings: stats.strings(),
                    }),
                ),
            decreases i,
        {
            i -= 1;
            let entry = self.units.value_at(i);
            let ghost before = Dumped {
                failure: None,
                lines: line_texts(lines@),
                regions: stats.regions(),
                strings: stats.strings(),
            };
            let r = entry.blob.dump_entry(
                key_arrow(entry.units as u64),
                entry.caption_off,
                entry.tooltip_off,
                16,
                lines,
                stats,
            );
            proof {
                let after = dump_entry(
                    blob.bytes(),
                    blob.maps(),
                    key_prefix(items[n - 1 - i].0 as nat),
                    items[n - 1 - i].1.caption_off,
                    items[n - 1 - i].1.tooltip_off,
                    16,
                    before,
                );
                assert(dump_units(blob.bytes(), blob.maps(), items, n - 1 - i, before)
                    == dump_units(blob.bytes(), blob.maps(), items, n - i, after));
                assert(after.failure is Some ==> dump_units(
                    blob.bytes(),
                    blob.maps(),
                    items,
                    n - i,
                    after,
                ) == after);
            }
            if let Err(e) = r {
                return Err(e);
            }
        }
        Ok(())
    }

    /// The entries by falling id, for going through them.
    pub fn into_iter(&self) -> (iter: UnitsIndexIterator)
        requires
            self.wf(),
        ensures
            lists_descending(iter@, self@),
            forall|blob: RawBlob| #[trigger] self.within(blob) ==> iter.within(blob),
    {
        let mut items: Vec<(u16, UnitsIndexEntry)> = Vec::new();
        let n = self.units.len();
        let mut i: usize = 0;
        while i < n
            invariant
                self.wf(),
                n == self.units.keys().len(),
                i <= n,
                items@.len() == i,
                forall|j: int|
                    0 <= j < i ==> #[trigger] items@[j] == (
                        self.units.keys()[j] as u16,
                        self.units.values()[j],
                    ) && self.units.keys()[j] == items@[j].0,
            decreases n - i,
        {
            let entry = self.units.value_at(i).clone();
            items.push((entry.units, entry));
            i += 1;
        }
        let iter = UnitsIndexIterator { items };
        proof {
            assert forall|blob: RawBlob| #[trigger] self.within(blob) implies iter.within(
                blob,
            ) by {
                assert forall|j: int| 0 <= j < iter.items@.len() implies (
                #[trigger] iter.items@[j]).1.blob() == blob by {
                    lemma_map_at(self.units.keys(), self.units.values(), j);
                }
            }
            lemma_descending(
                self.units.keys(),
                self.units.values(),
                |e: UnitsIndexEntry| e@,
                iter@,
            );
        }
        iter
    }
}

/// The entries of a table of units that are still to come, by falling id.
pub struct UnitsIndexIterator {
    items: Vec<(u16, UnitsIndexEntry)>,
}

impl View for UnitsIndexIterator {
    type V = Seq<(int, UnitsModel)>;

    closed spec fn view(&self) -> Seq<(int, UnitsModel)> {
        Seq::new(
            self.items@.len(),
            |i: int|
                (
                    self.items@[self.items@.len() - 1 - i].0 as int,
                    self.items@[self.items@.len() - 1 - i].1@,
                ),
        )
    }
}

impl UnitsIndexIterator {
    /// Every entry that is still to come resolves its strings by `blob`.
    pub closed spec fn within(&self, blob: RawBlob) -> bool {
        forall|i: int| 0 <= i < self.items@.len() ==> (#[trigger] self.items@[i]).1.blob() == blob
    }

    /// The next entry with its id, if one is left.
    pub fn next(&mut self) -> (r: Option<(u16, UnitsIndexEntry)>)
        ensures
            forall|blob: RawBlob| #[trigger] old(self).within(blob) ==> final(self).within(blob),
            match r {
                Some((id, entry)) => {
                    &&& old(self)@.len() > 0
                    &&& old(self)@[0] == (id as int, entry@)
                    &&& final(self)@ == old(self)@.skip(1)
                    &&& forall|blob: RawBlob| #[trigger]
                        old(self).within(blob) ==> entry.blob() == blob
                },
                None => old(self)@.len() == 0 && final(self)@ == old(self)@,
            },
    {
        let r = self.items.pop();
        proof {
            if r is Some {
                assert(self@ =~= old(self)@.skip(1));
                assert(old(self).items@[old(self).items@.len() - 1] == r->Some_0);
            }
        }
        r
    }
}

} // verus!
