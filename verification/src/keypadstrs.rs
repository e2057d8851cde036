use crate::blob::{
    describe, dump_entry, dumps, line_texts, parses, take, take_byte, take_le2, worded,
    BlobRegions, Cursor, DumpError, Dumped, FileBlob, RawBlob, Stats, StringError,
};
use crate::conversion::{
    key_arrow, key_prefix, le_bytes, lemma_le2_at, lemma_le4_at, lemma_le_bytes_len,
    little_endian_2_bytes, little_endian_4_bytes, spec_le2, spec_le4,
};
use crate::characters::CharacterMapsModel;
use crate::error::Fatal;
use crate::table::{
    backwards, lemma_backwards, lemma_count, lemma_descending, lemma_map_at, listing,
    lists_descending, Table,
};
use vstd::prelude::*;
use vstd::slice::slice_subrange;
use vstd::std_specs::cmp::PartialEqSpecImpl;

verus! {

/// One text of the keypad: where it stands in the file.
pub struct KeypadStrIndexEntry {
    caption_off: u32,
    blob: RawBlob,
}

/// What an entry holds: the offset of its text.
pub struct KeypadStrModel {
    pub caption_off: u32,
}

impl View for KeypadStrIndexEntry {
    type V = KeypadStrModel;

    closed spec fn view(&self) -> KeypadStrModel {
        KeypadStrModel { caption_off: self.caption_off }
    }
}

impl Clone for KeypadStrIndexEntry {
    fn clone(&self) -> (r: KeypadStrIndexEntry)
        ensures
            r == *self,
    {
        KeypadStrIndexEntry { caption_off: self.caption_off, blob: self.blob.clone() }
    }
}

impl PartialEq for KeypadStrIndexEntry {
    fn eq(&self, other: &Self) -> (r: bool) {
        self.caption_off == other.caption_off
    }
}

impl PartialEqSpecImpl for KeypadStrIndexEntry {
    open spec fn obeys_eq_spec() -> bool {
        true
    }

    open spec fn eq_spec(&self, other: &Self) -> bool {
        self@.caption_off == other@.caption_off
    }
}

/// The fields of one record of the table.
pub struct KeypadStrRecord {
    pub id: u16,
    pub caption_off: u32,
}

/// The width of a record: 6 bytes.
pub open spec fn record_len() -> int {
    6
}

/// The record that the bytes hold: the id in two bytes, then the offset of
/// the text in four.
pub open spec fn decode_record(buf: Seq<u8>) -> KeypadStrRecord {
    KeypadStrRecord { id: spec_le2(buf) as u16, caption_off: spec_le4(buf.skip(2)) as u32 }
}

/// The bytes that hold the record.
pub open spec fn encode_record(rec: KeypadStrRecord) -> Seq<u8> {
    le_bytes(rec.id as nat, 2) + le_bytes(rec.caption_off as nat, 4)
}

/// What was written as a record is read back as it was.
pub proof fn lemma_record_roundtrip(rec: KeypadStrRecord)
    ensures
        encode_record(rec).len() == record_len(),
        decode_record(encode_record(rec)) == rec,
{
    let buf = encode_record(rec);
    lemma_le_bytes_len(rec.id as nat, 2);
    lemma_le_bytes_len(rec.caption_off as nat, 4);
    assert(buf.subrange(0, 2) =~= le_bytes(rec.id as nat, 2));
    assert(buf.skip(0) =~= buf);
    lemma_le2_at(buf, 0, rec.id as nat);
    assert(buf.subrange(2, 6) =~= le_bytes(rec.caption_off as nat, 4));
    lemma_le4_at(buf, 2, rec.caption_off as nat);
}

/// Reading one record at the cursor: `EmptySlot` where it has no caption.
pub open spec fn read_record(bytes: Seq<u8>, cur: Cursor) -> Result<
    ((u16, KeypadStrModel), Cursor),
    Fatal,
> {
    match take(bytes, cur, record_len(), BlobRegions::KeypadStrs) {
        Err(e) => Err(e),
        Ok((buf, next)) => {
            let rec = decode_record(buf);
            if rec.caption_off == 0 {
                Err(Fatal::EmptySlot)
            } else {
                Ok(((rec.id, KeypadStrModel { caption_off: rec.caption_off }), next))
            }
        },
    }
}

/// Reading `count` records at the cursor into `keypad_strs`: `DuplicateKey`
/// where an id comes a second time.
pub open spec fn read_records(
    bytes: Seq<u8>,
    cur: Cursor,
    count: nat,
    keypad_strs: Map<int, KeypadStrModel>,
) -> Result<(Map<int, KeypadStrModel>, Cursor), Fatal>
    decreases count,
{
    if count == 0 {
        Ok((keypad_strs, cur))
    } else {
        match read_record(bytes, cur) {
            Err(e) => Err(e),
            Ok(((id, entry), next)) => if keypad_strs.contains_key(id as int) {
                Err(Fatal::DuplicateKey)
            } else {
                read_records(bytes, next, (count - 1) as nat, keypad_strs.insert(id as int, entry))
            },
        }
    }
}

/// What the table's header must say of itself: schema 2, else
/// `InvalidFormat`; records of 6 bytes, else `EntrySize`; a maximal string
/// length of 32, else `StringLength`.
pub open spec fn check_schema(schema: u16, idx_entry_len: u8, max_str_len: u16) -> Result<
    (),
    Fatal,
> {
    if schema != 2 {
        Err(Fatal::InvalidFormat)
    } else if idx_entry_len != 6 {
        Err(Fatal::EntrySize)
    } else if max_str_len != 32 {
        Err(Fatal::StringLength)
    } else {
        Ok(())
    }
}

/// Reading the header at the cursor: the number of entries, the maximal
/// string length, the font family, which must be that of the file, else
/// `FontFamily`, and the width of a record.
pub open spec fn read_header(bytes: Seq<u8>, cur: Cursor, schema: u16, root_font_family: u8) -> Result<
    (u16, Cursor),
    Fatal,
> {
    match take_le2(bytes, cur, BlobRegions::KeypadStrs) {
        Err(e) => Err(e),
        Ok((num_entries, c1)) => match take_le2(bytes, c1, BlobRegions::KeypadStrs) {
            Err(e) => Err(e),
            Ok((max_str_len, c2)) => match take_byte(bytes, c2, BlobRegions::KeypadStrs) {
                Err(e) => Err(e),
                Ok((font_family, c3)) => match take_byte(bytes, c3, BlobRegions::KeypadStrs) {
                    Err(e) => Err(e),
                    Ok((idx_entry_len, c4)) => if root_font_family != font_family {
                        Err(Fatal::FontFamily)
                    } else {
                        match check_schema(schema, idx_entry_len, max_str_len) {
                            Err(e) => Err(e),
                            Ok(()) => Ok((num_entries, c4)),
                        }
                    },
                },
            },
        },
    }
}

/// Reading the table of keypad strings at the cursor.
pub open spec fn read_keypad_strs(
    bytes: Seq<u8>,
    cur: Cursor,
    schema: u16,
    root_font_family: u8,
) -> Result<(Map<int, KeypadStrModel>, Cursor), Fatal> {
    match read_header(bytes, cur, schema, root_font_family) {
        Err(e) => Err(e),
        Ok((num_entries, next)) => read_records(bytes, next, num_entries as nat, Map::empty()),
    }
}

/// What reading one record gave, held against what it had to give.
pub open spec fn loads(
    got: Result<(u16, KeypadStrIndexEntry), Fatal>,
    before: FileBlob,
    after: FileBlob,
    expected: Result<((u16, KeypadStrModel), Cursor), Fatal>,
) -> bool {
    match expected {
        Ok(((id, entry), next)) => {
            &&& got is Ok
            &&& got->Ok_0.0 == id
            &&& got->Ok_0.1@ == entry
            &&& got->Ok_0.1.blob() == before.handle()
            &&& after.cursor() == next
        },
        Err(e) => got == Err::<(u16, KeypadStrIndexEntry), Fatal>(e),
    }
}

impl KeypadStrIndexEntry {
    /// The handle by which the entry resolves its strings.
    pub closed spec fn blob(&self) -> RawBlob {
        self.blob
    }

    /// The offset of the text.
    pub fn get_caption_off(&self) -> (off: u32)
        ensures
            off == self@.caption_off,
    {
        self.caption_off
    }

    /// The text, of at most 32 bytes.
    pub fn to_string(&self, stats: &mut Stats) -> (r: Result<String, StringError>)
        requires
            old(stats).regions().len() == self.blob().bytes().len(),
        ensures
            final(stats).regions().len() == self.blob().bytes().len(),
            ({
                let expected = describe(
                    self.blob().bytes(),
                    self.blob().maps(),
                    old(stats).regions(),
                    old(stats).strings(),
                    self@.caption_off,
                    0,
                    32,
                );
                &&& worded(r) == expected.result
                &&& final(stats).regions() == expected.regions
                &&& final(stats).strings() == expected.strings
            }),
    {
        self.blob.get_caption(self.caption_off, 0, 32, stats)
    }

    fn load_v2(fp: &mut FileBlob) -> (r: Result<(u16, KeypadStrIndexEntry), Fatal>)
        requires
            old(fp).wf(),
        ensures
            final(fp).follows(*old(fp)),
            loads(
                r,
                *old(fp),
                *final(fp),
                read_record(old(fp).handle().bytes(), old(fp).cursor()),
            ),
    {
        let buf = fp.read_exact(6, BlobRegions::KeypadStrs)?;
        let string_id = little_endian_2_bytes(slice_subrange(buf.as_slice(), 0, 2));
        let offset = little_endian_4_bytes(slice_subrange(buf.as_slice(), 2, 6));
        if offset == 0 {
            return Err(Fatal::EmptySlot);
        }
        let entry = KeypadStrIndexEntry { caption_off: offset, blob: fp.freeze() };
        Ok((string_id, entry))
    }
}

/// Putting the keypad strings from place `i` of the list on into words, one
/// line each: the id, an arrow, and the text. The first failure ends it.
pub open spec fn dump_keypad_strs(
    bytes: Seq<u8>,
    maps: CharacterMapsModel,
    entries: Seq<(int, KeypadStrModel)>,
    i: int,
    so_far: Dumped,
) -> Dumped
    decreases entries.len() - i,
{
    if i < 0 || i >= entries.len() || so_far.failure is Some {
        so_far
    } else {
        dump_keypad_strs(
            bytes,
            maps,
            entries,
            i + 1,
            dump_entry(
                bytes,
                maps,
                key_prefix(entries[i].0 as nat),
                entries[i].1.caption_off,
                0,
                32,
                so_far,
            ),
        )
    }
}

/// The table of keypad strings, by string id.
pub struct KeypadStrIndex {
    keypad_strs: Table<KeypadStrIndexEntry>,
}

impl View for KeypadStrIndex {
    type V = Map<int, KeypadStrModel>;

    closed spec fn view(&self) -> Map<int, KeypadStrModel> {
        self.keypad_strs@.map_values(|e: KeypadStrIndexEntry| e@)
    }
}

impl KeypadStrIndex {
    /// No id occurs twice, and every id fits two bytes.
    pub closed spec fn wf(&self) -> bool {
        &&& self.keypad_strs.wf()
        &&& forall|k: int| #[trigger] self.keypad_strs@.contains_key(k) ==> 0 <= k <= u16::MAX
    }

    /// Every entry resolves its strings by `blob`.
    pub closed spec fn within(&self, blob: RawBlob) -> bool {
        forall|k: int| #[trigger] self.keypad_strs@.contains_key(k) ==> self.keypad_strs@[k].blob() == blob
    }

    /// Every id fits two bytes, and the entries are finitely many.
    pub proof fn lemma_keys(&self)
        requires
            self.wf(),
        ensures
            self@.dom().finite(),
            forall|k: int| #[trigger] self@.contains_key(k) ==> 0 <= k <= u16::MAX,
    {
        lemma_count(self.keypad_strs.keys(), self.keypad_strs.values());
        assert(self@.dom() =~= self.keypad_strs@.dom());
    }

    fn validate_schema(schema: u16, idx_entry_len: u8, max_str_len: u16) -> (r: Result<(), Fatal>)
        ensures
            r == check_schema(schema, idx_entry_len, max_str_len),
    {
        match schema {
            2 => {
                if idx_entry_len != 6 {
                    return Err(Fatal::EntrySize);
                }
            },
            _ => {
                return Err(Fatal::InvalidFormat);
            },
        }
        if max_str_len != 32 {
            return Err(Fatal::StringLength);
        }
        Ok(())
    }

    /// A table without entries.
    pub fn empty() -> (index: KeypadStrIndex)
        ensures
            index.wf(),
            forall|blob: RawBlob| #[trigger] index.within(blob),
            index@ == Map::<int, KeypadStrModel>::empty(),
    {
        let index = KeypadStrIndex { keypad_strs: Table::new() };
        assert(index@ =~= Map::<int, KeypadStrModel>::empty());
        index
    }

    /// Reads the table of keypad strings at the cursor.
    pub fn from(fp: &mut FileBlob, schema: u16, root_font_family: u8) -> (r: Result<
        KeypadStrIndex,
        Fatal,
    >)
        requires
            old(fp).wf(),
        ensures
            parses(
                *old(fp),
                *final(fp),
                r,
                read_keypad_strs(old(fp).handle().bytes(), old(fp).cursor(), schema, root_font_family),
            ),
            r is Ok ==> r->Ok_0.wf() && r->Ok_0.within(old(fp).handle()),
    {
        let num_entries = fp.read_le_2bytes(BlobRegions::KeypadStrs)?;
        let max_str_len = fp.read_le_2bytes(BlobRegions::KeypadStrs)?;
        let font_family = fp.read_byte(BlobRegions::KeypadStrs)?;
        let idx_entry_len = fp.read_byte(BlobRegions::KeypadStrs)?;
        if root_font_family != font_family {
            return Err(Fatal::FontFamily);
        }
        let mut keypad_strs: Table<KeypadStrIndexEntry> = Table::new();
        Self::validate_schema(schema, idx_entry_len, max_str_len)?;
        let ghost blob = old(fp).handle();
        let ghost bytes = blob.bytes();
        let ghost whole = read_keypad_strs(bytes, old(fp).cursor(), schema, root_font_family);
        assert(keypad_strs@.map_values(|e: KeypadStrIndexEntry| e@) =~= Map::<
            int,
            KeypadStrModel,
        >::empty());
        let mut i: u16 = 0;
        while i < num_entries
            invariant
                i <= num_entries,
                fp.follows(*old(fp)),
                blob == old(fp).handle(),
                bytes == blob.bytes(),
                whole == read_keypad_strs(bytes, old(fp).cursor(), schema, root_font_family),
                keypad_strs.wf(),
                forall|k: int| #[trigger] keypad_strs@.contains_key(k) ==> 0 <= k <= u16::MAX,
                forall|k: int| #[trigger] keypad_strs@.contains_key(k) ==> keypad_strs@[k].blob() == blob,
                whole == read_records(
                    bytes,
                    fp.cursor(),
                    (num_entries - i) as nat,
                    keypad_strs@.map_values(|e: KeypadStrIndexEntry| e@),
                ),
            decreases num_entries - i,
        {
            let (string_id, entry) = KeypadStrIndexEntry::load_v2(fp)?;
            let ghost before = keypad_strs@;
            let ghost model = entry@;
            assert(before.map_values(|e: KeypadStrIndexEntry| e@).dom() =~= before.dom());
            if !keypad_strs.insert(string_id as i64, entry) {
                return Err(Fatal::DuplicateKey);
            }
            assert(keypad_strs@.map_values(|e: KeypadStrIndexEntry| e@) =~= before.map_values(
                |e: KeypadStrIndexEntry| e@,
            ).insert(string_id as int, model));
            i += 1;
        }
        Ok(KeypadStrIndex { keypad_strs })
    }

    /// The number of keypad strings.
    pub fn len(&self) -> (n: usize)
        requires
            self.wf(),
        ensures
            self@.dom().finite(),
            n == self@.dom().len(),
    {
        assert(self@.dom() =~= self.keypad_strs@.dom());
        self.keypad_strs.len()
    }

    /// The entry of a string id, if the table has it.
    pub fn get(&self, id: u16) -> (r: Option<&KeypadStrIndexEntry>)
        requires
            self.wf(),
        ensures
            match r {
                Some(entry) => {
                    &&& self@.contains_key(id as int)
                    &&& self@[id as int] == entry@
                    &&& forall|blob: RawBlob| #[trigger] self.within(blob) ==> entry.blob() == blob
                },
                None => !self@.contains_key(id as int),
            },
    {
        assert(self@.dom() =~= self.keypad_strs@.dom());
        self.keypad_strs.get(id as i64)
    }

    /// Puts the keypad strings into words, by falling id, and adds the lines
    /// to `lines`.
    pub(crate) fn dump(
        &self,
        lines: &mut Vec<String>,
        stats: &mut Stats,
        Ghost(blob): Ghost<RawBlob>,
    ) -> (r: Result<(), DumpError>)
        requires
            self.wf(),
            self.within(blob),
            old(stats).regions().len() == blob.bytes().len(),
        ensures
            final(stats).regions().len() == blob.bytes().len(),
            dumps(
                r,
                final(lines)@,
                *final(stats),
                dump_keypad_strs(
                    blob.bytes(),
                    blob.maps(),
                    listing(self@),
                    0,
                    (Dumped {
                        failure: None,
                        lines: line_texts(old(lines)@),
                        regions: old(stats).regions(),
                        strings: old(stats).strings(),
                    }),
                ),
            ),
    {
        let n = self.keypad_strs.len();
        let ghost items = listing(self@);
        let ghost start = Dumped {
            failure: None,
            lines: line_texts(lines@),
            regions: stats.regions(),
            strings: stats.strings(),
        };
        proof {
            lemma_backwards(
                self.keypad_strs.keys(),
                self.keypad_strs.values(),
                |e: KeypadStrIndexEntry| e@,
            );
        }
        let mut i: usize = n;
        while i > 0
            invariant
                self.wf(),
                self.within(blob),
                n == self.keypad_strs.keys().len(),
                i <= n,
                items == listing(self@),
                start == (Dumped {
                    failure: None,
                    lines: line_texts(old(lines)@),
                    regions: old(stats).regions(),
                    strings: old(stats).strings(),
                }),
                items == backwards(
                    self.keypad_strs.keys(),
                    self.keypad_strs.values(),
                    |e: KeypadStrIndexEntry| e@,
                ),
                stats.regions().len() == blob.bytes().len(),
                dump_keypad_strs(blob.bytes(), blob.maps(), items, 0, start) == dump_keypad_strs(
                    blob.bytes(),
                    blob.maps(),
                    items,
                    n - i,
                    (Dumped {
                        failure: None,
                        lines: line_texts(lines@),
                        regions: stats.regions(),
                        strings: stats.strings(),
                    }),
                ),
            decreases i,
        {
            i -= 1;
            let key = self.keypad_strs.key_at(i);
            let entry = self.keypad_strs.value_at(i);
            let ghost before = Dumped {
                failure: None,
                lines: line_texts(lines@),
                regions: stats.regions(),
                strings: stats.strings(),
            };
            let r = entry.blob.dump_entry(
                key_arrow(key as u64),
                entry.caption_off,
                0,
                32,
                lines,
                stats,
            );
            proof {
                let after = dump_entry(
                    blob.bytes(),
                    blob.maps(),
                    key_prefix(items[n - 1 - i].0 as nat),
                    items[n - 1 - i].1.caption_off,
                    0,
                    32,
                    before,
                );
                assert(dump_keypad_strs(blob.bytes(), blob.maps(), items, n - 1 - i, before)
                    == dump_keypad_strs(blob.bytes(), blob.maps(), items, n - i, after));
                assert(after.failure is Some ==> dump_keypad_strs(
                    blob.bytes(),
                    blob.maps(),
                    items,
                    n - i,
                    after,
                ) == after);
            }
            if let Err(e) = r {
                return Err(e);
            }
        }
        Ok(())
    }

    /// The entries by falling id, for going through them.
    pub fn into_iter(&self) -> (iter: KeypadStrIterator)
        requires
            self.wf(),
        ensures
            lists_descending(iter@, self@),
            forall|blob: RawBlob| #[trigger] self.within(blob) ==> iter.within(blob),
    {
        let mut items: Vec<(u16, KeypadStrIndexEntry)> = Vec::new();
        let n = self.keypad_strs.len();
        let mut i: usize = 0;
        while i < n
            invariant
                self.wf(),
                n == self.keypad_strs.keys().len(),
                i <= n,
                items@.len() == i,
                forall|j: int|
                    0 <= j < i ==> #[trigger] items@[j] == (
                        self.keypad_strs.keys()[j] as u16,
                        self.keypad_strs.values()[j],
                    ) && self.keypad_strs.keys()[j] == items@[j].0,
            decreases n - i,
        {
            let key = self.keypad_strs.key_at(i);
            let entry = self.keypad_strs.value_at(i).clone();
            items.push((key as u16, entry));
            i += 1;
        }
        let iter = KeypadStrIterator { items };
        proof {
            assert forall|blob: RawBlob| #[trigger] self.within(blob) implies iter.within(
                blob,
            ) by {
                assert forall|j: int| 0 <= j < iter.items@.len() implies (
                #[trigger] iter.items@[j]).1.blob() == blob by {
                    lemma_map_at(self.keypad_strs.keys(), self.keypad_strs.values(), j);
                }
            }
            lemma_descending(
                self.keypad_strs.keys(),
                self.keypad_strs.values(),
                |e: KeypadStrIndexEntry| e@,
                iter@,
            );
        }
        iter
    }
}

/// The entries of a table of keypad strings that are still to come, by
/// falling id.
pub struct KeypadStrIterator {
    items: Vec<(u16, KeypadStrIndexEntry)>,
}

impl View for KeypadStrIterator {
    type V = Seq<(int, KeypadStrModel)>;

    closed spec fn view(&self) -> Seq<(int, KeypadStrModel)> {
        Seq::new(
            self.items@.len(),
            |i: int|
                (
                    self.items@[self.items@.len() - 1 - i].0 as int,
                    self.items@[self.items@.len() - 1 - i].1@,
                ),
        )
    }
}

impl KeypadStrIterator {
    /// Every entry that is still to come resolves its strings by `blob`.
    pub closed spec fn within(&self, blob: RawBlob) -> bool {
        forall|i: int| 0 <= i < self.items@.len() ==> (#[trigger] self.items@[i]).1.blob() == blob
    }

    /// The next entry with its id, if one is left.
    pub fn next(&mut self) -> (r: Option<(u16, KeypadStrIndexEntry)>)
        ensures
            forall|blob: RawBlob| #[trigger] old(self).within(blob) ==> final(self).within(blob),
            match r {
                Some((id, entry)) => {
                    &&& old(self)@.len() > 0
                    &&& old(self)@[0] == (id as int, entry@)
                    &&& final(self)@ == old(self)@.skip(1)
                    &&& forall|blob: RawBlob| #[trigger]
                        old(self).within(blob) ==> entry.blob() == blob
                },
                None => old(self)@.len() == 0 && final(self)@ == old(self)@,
            },
    {
        let r = self.items.pop();
        proof {
            if r is Some {
                assert(self@ =~= old(self)@.skip(1));
                assert(old(self).items@[old(self).items@.len() - 1] == r->Some_0);
            }
        }
        r
    }
}

} // verus!
