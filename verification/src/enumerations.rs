use crate::blob::{
    describe, dump_entry, dumps, line_texts, parses, take, worded, BlobRegions, Cursor,
    DumpError, Dumped, FileBlob, RawBlob, Stats, StringError,
};
use crate::conversion::{
    key_arrow, key_prefix, le_bytes, lemma_le2_at, lemma_le3_at, lemma_le4_at,
    lemma_le_bytes_len, little_endian_2_bytes, little_endian_3_bytes, little_endian_4_bytes,
    spec_le2, spec_le3, spec_le4,
};
use crate::characters::CharacterMapsModel;
use crate::error::Fatal;
use crate::table::{
    backwards, lemma_backwards, lemma_count, lemma_descending, lemma_map_at, listing,
    lists_descending, Table,
};
use vstd::prelude::*;
use vstd::slice::slice_subrange;
use vstd::std_specs::cmp::PartialEqSpecImpl;

verus! {

/// One text that the drive names by a string id: where its caption stands
/// in the file.
pub struct EnumerationsIndexEntry {
    caption_off: u32,
    blob: RawBlob,
}

/// What an entry holds: the offset of its caption.
pub struct EnumerationModel {
    pub caption_off: u32,
}

impl View for EnumerationsIndexEntry {
    type V = EnumerationModel;

    closed spec fn view(&self) -> EnumerationModel {
        EnumerationModel { caption_off: self.caption_off }
    }
}

impl Clone for EnumerationsIndexEntry {
    fn clone(&self) -> (r: EnumerationsIndexEntry)
        ensures
            r == *self,
    {
        EnumerationsIndexEntry { caption_off: self.caption_off, blob: self.blob.clone() }
    }
}

impl PartialEq for EnumerationsIndexEntry {
    fn eq(&self, other: &Self) -> (r: bool) {
        self.caption_off == other.caption_off
    }
}

impl PartialEqSpecImpl for EnumerationsIndexEntry {
    open spec fn obeys_eq_spec() -> bool {
        true
    }

    open spec fn eq_spec(&self, other: &Self) -> bool {
        self@.caption_off == other@.caption_off
    }
}

/// The fields of one record of the table.
pub struct EnumerationRecord {
    pub id: u16,
    pub caption_off: u32,
}

/// The width of a record: 6 bytes in schema 2, else 5.
pub open spec fn record_len(schema: u16) -> int {
    if schema == 2 {
        6
    } else {
        5
    }
}

/// The record that the bytes hold: the id in two bytes, then the offset of
/// the caption, in four bytes in schema 2, else in three.
pub open spec fn decode_record(schema: u16, buf: Seq<u8>) -> EnumerationRecord {
    if schema == 2 {
        EnumerationRecord { id: spec_le2(buf) as u16, caption_off: spec_le4(buf.skip(2)) as u32 }
    } else {
        EnumerationRecord { id: spec_le2(buf) as u16, caption_off: spec_le3(buf.skip(2)) as u32 }
    }
}

/// The bytes that hold the record.
pub open spec fn encode_record(schema: u16, rec: EnumerationRecord) -> Seq<u8> {
    if schema == 2 {
        le_bytes(rec.id as nat, 2) + le_bytes(rec.caption_off as nat, 4)
    } else {
        le_bytes(rec.id as nat, 2) + le_bytes(rec.caption_off as nat, 3)
    }
}

/// What was written as a record is read back as it was: in every schema, for
/// every record that the schema can hold.
pub proof fn lemma_record_roundtrip(schema: u16, rec: EnumerationRecord)
    requires
        schema != 2 ==> rec.caption_off < 0x100_0000,
    ensures
        encode_record(schema, rec).len() == record_len(schema),
        decode_record(schema, encode_record(schema, rec)) == rec,
{
    let buf = encode_record(schema, rec);
    lemma_le_bytes_len(rec.id as nat, 2);
    lemma_le_bytes_len(rec.caption_off as nat, 3);
    lemma_le_bytes_len(rec.caption_off as nat, 4);
    assert(buf.subrange(0, 2) =~= le_bytes(rec.id as nat, 2));
    assert(buf.skip(0) =~= buf);
    lemma_le2_at(buf, 0, rec.id as nat);
    if schema == 2 {
        assert(buf.subrange(2, 6) =~= le_bytes(rec.caption_off as nat, 4));
        lemma_le4_at(buf, 2, rec.caption_off as nat);
    } else {
        assert(buf.subrange(2, 5) =~= le_bytes(rec.caption_off as nat, 3));
        lemma_le3_at(buf, 2, rec.caption_off as nat);
    }
}

/// Reading one record at the cursor: `EmptySlot` where it has no caption.
pub open spec fn read_record(bytes: Seq<u8>, cur: Cursor, schema: u16) -> Result<
    ((u16, EnumerationModel), Cursor),
    Fatal,
> {
    match take(bytes, cur, record_len(schema), BlobRegions::Enumerations) {
        Err(e) => Err(e),
        Ok((buf, next)) => {
            let rec = decode_record(schema, buf);
            if rec.caption_off == 0 {
                Err(Fatal::EmptySlot)
            } else {
                Ok(((rec.id, EnumerationModel { caption_off: rec.caption_off }), next))
            }
        },
    }
}

/// Reading `count` records at the cursor into `enumerations`: `DuplicateKey`
/// where an id comes a second time.
pub open spec fn read_records(
    bytes: Seq<u8>,
    cur: Cursor,
    schema: u16,
    count: nat,
    enumerations: Map<int, EnumerationModel>,
) -> Result<(Map<int, EnumerationModel>, Cursor), Fatal>
    decreases count,
{
    if count == 0 {
        Ok((enumerations, cur))
    } else {
        match read_record(bytes, cur, schema) {
            Err(e) => Err(e),
            Ok(((id, entry), next)) => if enumerations.contains_key(id as int) {
                Err(Fatal::DuplicateKey)
            } else {
                read_records(
                    bytes,
                    next,
                    schema,
                    (count - 1) as nat,
                    enumerations.insert(id as int, entry),
                )
            },
        }
    }
}

/// What a table's header must say of itself: the width of a record that goes
/// with the schema, else `EntrySize`; then a maximal string length of 16, or
/// of 256 in schema 4, else `StringLength`. Another schema is `InvalidFormat`.
pub open spec fn check_schema(schema: u16, idx_entry_len: u8, max_str_len: u16) -> Result<
    (),
    Fatal,
> {
    if schema != 2 && schema != 3 && schema != 4 {
        Err(Fatal::InvalidFormat)
    } else if idx_entry_len != record_len(schema) {
        Err(Fatal::EntrySize)
    } else if max_str_len != (if schema == 4 {
        256
    } else {
        16int
    }) {
        Err(Fatal::StringLength)
    } else {
        Ok(())
    }
}

/// Reading the header at the cursor: the number of entries. Before schema 4
/// the header goes on with the maximal string length, the font family, which
/// must be that of the file, else `FontFamily`, and the width of a record;
/// from schema 4 on with that width alone.
pub open spec fn read_header(bytes: Seq<u8>, cur: Cursor, schema: u16, root_font_family: u8) -> Result<
    (u16, Cursor),
    Fatal,
> {
    match take(bytes, cur, 2, BlobRegions::Enumerations) {
        Err(e) => Err(e),
        Ok((common, c1)) => if schema < 4 {
            match take(bytes, c1, 4, BlobRegions::Enumerations) {
                Err(e) => Err(e),
                Ok((hdr, c2)) => if root_font_family != hdr[2] {
                    Err(Fatal::FontFamily)
                } else {
                    match check_schema(schema, hdr[3], spec_le2(hdr) as u16) {
                        Err(e) => Err(e),
                        Ok(()) => Ok((spec_le2(common) as u16, c2)),
                    }
                },
            }
        } else {
            match take(bytes, c1, 1, BlobRegions::Enumerations) {
                Err(e) => Err(e),
                Ok((hdr, c2)) => match check_schema(schema, hdr[0], 256) {
                    Err(e) => Err(e),
                    Ok(()) => Ok((spec_le2(common) as u16, c2)),
                },
            }
        },
    }
}

/// Reading the table of enumerations at the cursor.
pub open spec fn read_enumerations(
    bytes: Seq<u8>,
    cur: Cursor,
    schema: u16,
    root_font_family: u8,
) -> Result<(Map<int, EnumerationModel>, Cursor), Fatal> {
    match read_header(bytes, cur, schema, root_font_family) {
        Err(e) => Err(e),
        Ok((num_entries, next)) => read_records(bytes, next, schema, num_entries as nat, Map::empty()),
    }
}

/// What reading one record gave, held against what it had to give.
pub open spec fn loads(
    got: Result<(u16, EnumerationsIndexEntry), Fatal>,
    before: FileBlob,
    after: FileBlob,
    expected: Result<((u16, EnumerationModel), Cursor), Fatal>,
) -> bool {
    match expected {
        Ok(((id, entry), next)) => {
            &&& got is Ok
            &&& got->Ok_0.0 == id
            &&& got->Ok_0.1@ == entry
            &&& got->Ok_0.1.blob() == before.handle()
            &&& after.cursor() == next
        },
        Err(e) => got == Err::<(u16, EnumerationsIndexEntry), Fatal>(e),
    }
}

impl EnumerationsIndexEntry {
    /// The handle by which the entry resolves its strings.
    pub closed spec fn blob(&self) -> RawBlob {
        self.blob
    }

    /// The offset of the caption.
    pub fn get_caption_off(&self) -> (off: u32)
        ensures
            off == self@.caption_off,
    {
        self.caption_off
    }

    /// The text in words: its caption, of at most 16 bytes.
    pub fn to_string(&self, stats: &mut Stats) -> (r: Result<String, StringError>)
        requires
            old(stats).regions().len() == self.blob().bytes().len(),
        ensures
            final(stats).regions().len() == self.blob().bytes().len(),
            ({
                let expected = describe(
                    self.blob().bytes(),
                    self.blob().maps(),
                    old(stats).regions(),
                    old(stats).strings(),
                    self@.caption_off,
                    0,
                    16,
                );
                &&& worded(r) == expected.result
                &&& final(stats).regions() == expected.regions
                &&& final(stats).strings() == expected.strings
            }),
    {
        self.blob.get_caption(self.caption_off, 0, 16, stats)
    }

    fn load_v2(fp: &mut FileBlob) -> (r: Result<(u16, EnumerationsIndexEntry), Fatal>)
        requires
            old(fp).wf(),
        ensures
            final(fp).follows(*old(fp)),
            loads(
                r,
                *old(fp),
                *final(fp),
                read_record(old(fp).handle().bytes(), old(fp).cursor(), 2),
            ),
    {
        let buf = fp.read_exact(6, BlobRegions::Enumerations)?;
        let enumeration = little_endian_2_bytes(slice_subrange(buf.as_slice(), 0, 2));
        let offset = little_endian_4_bytes(slice_subrange(buf.as_slice(), 2, 6));
        if offset == 0 {
            return Err(Fatal::EmptySlot);
        }
        let entry = EnumerationsIndexEntry { caption_off: offset, blob: fp.freeze() };
        Ok((enumeration, entry))
    }

    fn load_v3(fp: &mut FileBlob) -> (r: Result<(u16, EnumerationsIndexEntry), Fatal>)
        requires
            old(fp).wf(),
        ensures
            final(fp).follows(*old(fp)),
            loads(
                r,
                *old(fp),
                *final(fp),
                read_record(old(fp).handle().bytes(), old(fp).cursor(), 3),
            ),
    {
        let buf = fp.read_exact(5, BlobRegions::Enumerations)?;
        let enumeration = little_endian_2_bytes(slice_subrange(buf.as_slice(), 0, 2));
        let offset = little_endian_3_bytes(slice_subrange(buf.as_slice(), 2, 5));
        if offset == 0 {
            return Err(Fatal::EmptySlot);
        }
        let entry = EnumerationsIndexEntry { caption_off: offset, blob: fp.freeze() };
        Ok((enumeration, entry))
    }
}

/// Putting the enumerations from place `i` of the list on into words, one
/// line each: the id, an arrow, and the text. The first failure ends it.
pub open spec fn dump_enumerations(
    bytes: Seq<u8>,
    maps: CharacterMapsModel,
    entries: Seq<(int, EnumerationModel)>,
    i: int,
    so_far: Dumped,
) -> Dumped
    decreases entries.len() - i,
{
    if i < 0 || i >= entries.len() || so_far.failure is Some {
        so_far
    } else {
        dump_enumerations(
            bytes,
            maps,
            entries,
            i + 1,
            dump_entry(
                bytes,
                maps,
                key_prefix(entries[i].0 as nat),
                entries[i].1.caption_off,
                0,
                16,
                so_far,
            ),
        )
    }
}

/// The table of enumerations, by string id.
pub struct EnumerationsIndex {
    enumerations: Table<EnumerationsIndexEntry>,
}

impl View for EnumerationsIndex {
    type V = Map<int, EnumerationModel>;

    closed spec fn view(&self) -> Map<int, EnumerationModel> {
        self.enumerations@.map_values(|e: EnumerationsIndexEntry| e@)
    }
}

impl EnumerationsIndex {
    /// No id occurs twice, and every id fits two bytes.
    pub closed spec fn wf(&self) -> bool {
        &&& self.enumerations.wf()
        &&& forall|k: int| #[trigger] self.enumerations@.contains_key(k) ==> 0 <= k <= u16::MAX
    }

    /// Every entry resolves its strings by `blob`.
    pub closed spec fn within(&self, blob: RawBlob) -> bool {
        forall|k: int| #[trigger] self.enumerations@.contains_key(k) ==> self.enumerations@[k].blob() == blob
    }

    /// Every id fits two bytes, and the entries are finitely many.
    pub proof fn lemma_keys(&self)
        requires
            self.wf(),
        ensures
            self@.dom().finite(),
            forall|k: int| #[trigger] self@.contains_key(k) ==> 0 <= k <= u16::MAX,
    {
        lemma_count(self.enumerations.keys(), self.enumerations.values());
        assert(self@.dom() =~= self.enumerations@.dom());
    }

    fn validate_schema(schema: u16, idx_entry_len: u8, max_str_len: u16) -> (r: Result<(), Fatal>)
        ensures
            r == check_schema(schema, idx_entry_len, max_str_len),
    {
        let mut req_string_len: u16 = 16;
        match schema {
            2 => {
                if idx_entry_len != 6 {
                    return Err(Fatal::EntrySize);
                }
            },
            3 => {
                if idx_entry_len != 5 {
                    return Err(Fatal::EntrySize);
                }
            },
            4 => {
                if idx_entry_len != 5 {
                    return Err(Fatal::EntrySize);
                }
                req_string_len = 256;
            },
            _ => {
                return Err(Fatal::InvalidFormat);
            },
        }
        if max_str_len != req_string_len {
            return Err(Fatal::StringLength);
        }
        Ok(())
    }

    /// Reads the table of enumerations at the cursor.
    pub fn from(fp: &mut FileBlob, schema: u16, root_font_family: u8) -> (r: Result<
        EnumerationsIndex,
        Fatal,
    >)
        requires
            old(fp).wf(),
        ensures
            parses(
                *old(fp),
                *final(fp),
                r,
                read_enumerations(old(fp).handle().bytes(), old(fp).cursor(), schema, root_font_family),
            ),
            r is Ok ==> r->Ok_0.wf() && r->Ok_0.within(old(fp).handle()),
    {
        let common_hdr = fp.read_exact(2, BlobRegions::Enumerations)?;
        let num_entries = little_endian_2_bytes(slice_subrange(common_hdr.as_slice(), 0, 2));
        assert(common_hdr@.subrange(0, 2) =~= common_hdr@);
        if schema < 4 {
            let hdr = fp.read_exact(4, BlobRegions::Enumerations)?;
            let max_str_len = little_endian_2_bytes(slice_subrange(hdr.as_slice(), 0, 2));
            let font_family = hdr[2];
            let idx_entry_len = hdr[3];
            if root_font_family != font_family {
                return Err(Fatal::FontFamily);
            }
            Self::validate_schema(schema, idx_entry_len, max_str_len)?;
        } else {
            let hdr = fp.read_exact(1, BlobRegions::Enumerations)?;
            let idx_entry_len = hdr[0];
            Self::validate_schema(schema, idx_entry_len, 256)?;
        }
        let mut enumerations: Table<EnumerationsIndexEntry> = Table::new();
        let ghost blob = old(fp).handle();
        let ghost bytes = blob.bytes();
        let ghost whole = read_enumerations(bytes, old(fp).cursor(), schema, root_font_family);
        assert(enumerations@.map_values(|e: EnumerationsIndexEntry| e@) =~= Map::<
            int,
            EnumerationModel,
        >::empty());
        let mut i: u16 = 0;
        while i < num_entries
            invariant
                i <= num_entries,
                schema == 2 || schema == 3 || schema == 4,
                fp.follows(*old(fp)),
                blob == old(fp).handle(),
                bytes == blob.bytes(),
                whole == read_enumerations(bytes, old(fp).cursor(), schema, root_font_family),
                enumerations.wf(),
                forall|k: int| #[trigger] enumerations@.contains_key(k) ==> 0 <= k <= u16::MAX,
                forall|k: int| #[trigger] enumerations@.contains_key(k) ==> enumerations@[k].blob() == blob,
                whole == read_records(
                    bytes,
                    fp.cursor(),
                    schema,
                    (num_entries - i) as nat,
                    enumerations@.map_values(|e: EnumerationsIndexEntry| e@),
                ),
            decreases num_entries - i,
        {
            let (enumeration, entry) = match schema {
                2 => EnumerationsIndexEntry::load_v2(fp)?,
                _ => EnumerationsIndexEntry::load_v3(fp)?,
            };
            let ghost before = enumerations@;
            let ghost model = entry@;
            assert(before.map_values(|e: EnumerationsIndexEntry| e@).dom() =~= before.dom());
            if !enumerations.insert(enumeration as i64, entry) {
                return Err(Fatal::DuplicateKey);
            }
            assert(enumerations@.map_values(|e: EnumerationsIndexEntry| e@) =~= before.map_values(
                |e: EnumerationsIndexEntry| e@,
            ).insert(enumeration as int, model));
            i += 1;
        }
        Ok(EnumerationsIndex { enumerations })
    }

    /// The number of enumerations.
    pub fn len(&self) -> (n: usize)
        requires
            self.wf(),
        ensures
            self@.dom().finite(),
            n == self@.dom().len(),
    {
        assert(self@.dom() =~= self.enumerations@.dom());
        self.enumerations.len()
    }

    /// The entry of a string id, if the table has it.
    pub fn get(&self, id: u16) -> (r: Option<&EnumerationsIndexEntry>)
        requires
            self.wf(),
        ensures
            match r {
                Some(entry) => {
                    &&& self@.contains_key(id as int)
                    &&& self@[id as int] == entry@
                    &&& forall|blob: RawBlob| #[trigger] self.within(blob) ==> entry.blob() == blob
                },
                None => !self@.contains_key(id as int),
            },
    {
        assert(self@.dom() =~= self.enumerations@.dom());
        self.enumerations.get(id as i64)
    }

    /// Puts the enumerations into words, by falling id, and adds the lines
    /// to `lines`.
    pub(crate) fn dump(
        &self,
        lines: &mut Vec<String>,
        stats: &mut Stats,
        Ghost(blob): Ghost<RawBlob>,
    ) -> (r: Result<(), DumpError>)
        requires
            self.wf(),
            self.within(blob),
            old(stats).regions().len() == blob.bytes().len(),
        ensures
            final(stats).regions().len() == blob.bytes().len(),
            dumps(
                r,
                final(lines)@,
                *final(stats),
                dump_enumerations(
                    blob.bytes(),
                    blob.maps(),
                    listing(self@),
                    0,
                    (Dumped {
                        failure: None,
                        lines: line_texts(old(lines)@),
                        regions: old(stats).regions(),
                        strings: old(stats).strings(),
                    }),
                ),
            ),
    {
        let n = self.enumerations.len();
        let ghost items = listing(self@);
        let ghost start = Dumped {
            failure: None,
            lines: line_texts(lines@),
            regions: stats.regions(),
            strings: stats.strings(),
        };
        proof {
            lemma_backwards(
                self.enumerations.keys(),
                self.enumerations.values(),
                |e: EnumerationsIndexEntry| e@,
            );
        }
        let mut i: usize = n;
        while i > 0
            invariant
                self.wf(),
                self.within(blob),
                n == self.enumerations.keys().len(),
                i <= n,
                items == listing(self@),
                start == (Dumped {
                    failure: None,
                    lines: line_texts(old(lines)@),
                    regions: old(stats).regions(),
                    strings: old(stats).strings(),
                }),
                items == backwards(
                    self.enumerations.keys(),
                    self.enumerations.values(),
                    |e: EnumerationsIndexEntry| e@,
                ),
                stats.regions().len() == blob.bytes().len(),
                dump_enumerations(blob.bytes(), blob.maps(), items, 0, start) == dump_enumerations(
                    blob.bytes(),
                    blob.maps(),
                    items,
                    n - i,
                    (Dumped {
                        failure: None,
                        lines: line_texts(lines@),
                        regions: stats.regions(),
                        strings: stats.strings(),
                    }),
                ),
            decreases i,
        {
            i -= 1;
            let key = self.enumerations.key_at(i);
            let entry = self.enumerations.value_at(i);
            let ghost before = Dumped {
                failure: None,
                lines: line_texts(lines@),
                regions: stats.regions(),
                strings: stats.strings(),
            };
            let r = entry.blob.dump_entry(
                key_arrow(key as u64),
                entry.caption_off,
                0,
                16,
                lines,
                stats,
            );
            proof {
                let after = dump_entry(
                    blob.bytes(),
                    blob.maps(),
                    key_prefix(items[n - 1 - i].0 as nat),
                    items[n - 1 - i].1.caption_off,
                    0,
                    16,
                    before,
                );
                assert(dump_enumerations(blob.bytes(), blob.maps(), items, n - 1 - i, before)
                    == dump_enumerations(blob.bytes(), blob.maps(), items, n - i, after));
                assert(after.failure is Some ==> dump_enumerations(
                    blob.bytes(),
                    blob.maps(),
                    items,
                    n - i,
                    after,
                ) == after);
            }
            if let Err(e) = r {
                return Err(e);
            }
        }
        Ok(())
    }

    /// The entries by falling id, for going through them.
    pub fn into_iter(&self) -> (iter: EnumerationsIndexIterator)
        requires
            self.wf(),
        ensures
            lists_descending(iter@, self@),
            forall|blob: RawBlob| #[trigger] self.within(blob) ==> iter.within(blob),
    {
        let mut items: Vec<(u16, EnumerationsIndexEntry)> = Vec::new();
        let n = self.enumerations.len();
        let mut i: usize = 0;
        while i < n
            invariant
                self.wf(),
                n == self.enumerations.keys().len(),
                i <= n,
                items@.len() == i,
                forall|j: int|
                    0 <= j < i ==> #[trigger] items@[j] == (
                        self.enumerations.keys()[j] as u16,
                        self.enumerations.values()[j],
                    ) && self.enumerations.keys()[j] == items@[j].0,
            decreases n - i,
        {
            let key = self.enumerations.key_at(i);
            let entry = self.enumerations.value_at(i).clone();
            items.push((key as u16, entry));
            i += 1;
        }
        let iter = EnumerationsIndexIterator { items };
        proof {
            assert forall|blob: RawBlob| #[trigger] self.within(blob) implies iter.within(
                blob,
            ) by {
                assert forall|j: int| 0 <= j < iter.items@.len() implies (
                #[trigger] iter.items@[j]).1.blob() == blob by {
                    lemma_map_at(self.enumerations.keys(), self.enumerations.values(), j);
                }
            }
            lemma_descending(
                self.enumerations.keys(),
                self.enumerations.values(),
                |e: EnumerationsIndexEntry| e@,
                iter@,
            );
        }
        iter
    }
}

/// The entries of a table of enumerations that are still to come, by
/// falling id.
pub struct EnumerationsIndexIterator {
    items: Vec<(u16, EnumerationsIndexEntry)>,
}

impl View for EnumerationsIndexIterator {
    type V = Seq<(int, EnumerationModel)>;

    closed spec fn view(&self) -> Seq<(int, EnumerationModel)> {
        Seq::new(
            self.items@.len(),
            |i: int|
                (
                    self.items@[self.items@.len() - 1 - i].0 as int,
                    self.items@[self.items@.len() - 1 - i].1@,
                ),
        )
    }
}

impl EnumerationsIndexIterator {
    /// Every entry that is still to come resolves its strings by `blob`.
    pub closed spec fn within(&self, blob: RawBlob) -> bool {
        forall|i: int| 0 <= i < self.items@.len() ==> (#[trigger] self.items@[i]).1.blob() == blob
    }

    /// The next entry with its id, if one is left.
    pub fn next(&mut self) -> (r: Option<(u16, EnumerationsIndexEntry)>)
        ensures
            forall|blob: RawBlob| #[trigger] old(self).within(blob) ==> final(self).within(blob),
            match r {
                Some((id, entry)) => {
                    &&& old(self)@.len() > 0
                    &&& old(self)@[0] == (id as int, entry@)
                    &&& final(self)@ == old(self)@.skip(1)
                    &&& forall|blob: RawBlob| #[trigger]
                        old(self).within(blob) ==> entry.blob() == blob
                },
                None => old(self)@.len() == 0 && final(self)@ == old(self)@,
            },
    {
        let r = self.items.pop();
        proof {
            if r is Some {
                assert(self@ =~= old(self)@.skip(1));
                assert(old(self).items@[old(self).items@.len() - 1] == r->Some_0);
            }
        }
        r
    }
}

} // verus!
