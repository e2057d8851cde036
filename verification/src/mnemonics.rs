use crate::blob::{
    describe, parses, take, take_byte, take_le2, worded, BlobRegions, Cursor, FileBlob, RawBlob,
    Stats, StringError,
};
use crate::conversion::{
    le_bytes, lemma_le3_at, lemma_le4_at, lemma_le_bytes_len, little_endian_3_bytes,
    little_endian_4_bytes, spec_le3, spec_le4,
};
use crate::error::Fatal;
use crate::table::{
    collect, lemma_count, lemma_descending, lemma_map_at, lists_descending, Table,
};
use vstd::prelude::*;
use vstd::slice::slice_subrange;
use vstd::std_specs::cmp::PartialEqSpecImpl;

verus! {

/// One value that a parameter can take: the value, and where its caption and
/// its tooltip stand in the file.
pub struct MnemonicIndexEntry {
    value: i32,
    caption_off: u32,
    tooltip_off: u32,
    blob: RawBlob,
}

/// What an entry holds: the value, and the offsets of its caption and its
/// tooltip.
pub struct MnemonicModel {
    pub value: i32,
    pub caption_off: u32,
    pub tooltip_off: u32,
}

impl View for MnemonicIndexEntry {
    type V = MnemonicModel;

    closed spec fn view(&self) -> MnemonicModel {
        MnemonicModel {
            value: self.value,
            caption_off: self.caption_off,
            tooltip_off: self.tooltip_off,
        }
    }
}

impl Clone for MnemonicIndexEntry {
    fn clone(&self) -> (r: MnemonicIndexEntry)
        ensures
            r == *self,
    {
        MnemonicIndexEntry {
            value: self.value,
            caption_off: self.caption_off,
            tooltip_off: self.tooltip_off,
            blob: self.blob.clone(),
        }
    }
}

impl PartialEq for MnemonicIndexEntry {
    fn eq(&self, other: &Self) -> (r: bool) {
        self.caption_off == other.caption_off
    }
}

impl PartialEqSpecImpl for MnemonicIndexEntry {
    open spec fn obeys_eq_spec() -> bool {
        true
    }

    open spec fn eq_spec(&self, other: &Self) -> bool {
        self@.caption_off == other@.caption_off
    }
}

/// The fields of one record of the table.
pub struct MnemonicRecord {
    pub raw: u32,
    pub caption_off: u32,
    pub tooltip_off: u32,
}

/// The number of bytes that a record takes up: 10.
pub open spec fn record_len() -> int {
    10
}

/// The record that the bytes hold: the value in four bytes, the offsets of
/// caption and tooltip in three bytes each.
pub open spec fn decode_record(buf: Seq<u8>) -> MnemonicRecord {
    MnemonicRecord {
        raw: spec_le4(buf) as u32,
        caption_off: spec_le3(buf.skip(4)) as u32,
        tooltip_off: spec_le3(buf.skip(7)) as u32,
    }
}

/// The bytes that hold the record.
pub open spec fn encode_record(rec: MnemonicRecord) -> Seq<u8> {
    le_bytes(rec.raw as nat, 4) + le_bytes(rec.caption_off as nat, 3) + le_bytes(
        rec.tooltip_off as nat,
        3,
    )
}

/// What was written as a record is read back as it was, for every record
/// that the bytes can hold.
pub proof fn lemma_record_roundtrip(rec: MnemonicRecord)
    requires
        rec.caption_off < 0x100_0000,
        rec.tooltip_off < 0x100_0000,
    ensures
        encode_record(rec).len() == record_len(),
        decode_record(encode_record(rec)) == rec,
{
    let buf = encode_record(rec);
    lemma_le_bytes_len(rec.raw as nat, 4);
    lemma_le_bytes_len(rec.caption_off as nat, 3);
    lemma_le_bytes_len(rec.tooltip_off as nat, 3);
    assert(buf.subrange(0, 4) =~= le_bytes(rec.raw as nat, 4));
    assert(buf.skip(0) =~= buf);
    lemma_le4_at(buf, 0, rec.raw as nat);
    assert(buf.subrange(4, 7) =~= le_bytes(rec.caption_off as nat, 3));
    lemma_le3_at(buf, 4, rec.caption_off as nat);
    assert(buf.subrange(7, 10) =~= le_bytes(rec.tooltip_off as nat, 3));
    lemma_le3_at(buf, 7, rec.tooltip_off as nat);
}

/// The signed value that stands behind the four bytes read: every number
/// of four bytes has one. Up to 0x7FFFFFF it is the number itself. From
/// 0x7FFFFFFF on it is the number less 0xFFFFFFFF, which is negative or zero.
/// Between the two it is the number and one.
pub open spec fn mnemonic_key(raw: u32) -> i32 {
    if raw <= 0x7FF_FFFF {
        raw as i32
    } else if raw >= 0x7FFF_FFFF {
        (raw - 0xFFFF_FFFF) as i32
    } else {
        (raw + 1) as i32
    }
}

/// The signed value that stands behind the four bytes read.
pub fn decode_key(raw: u32) -> (key: i32)
    ensures
        key == mnemonic_key(raw),
{
    let wide: i64 = raw as i64;
    if raw <= 0x7FF_FFFF {
        wide as i32
    } else if raw >= 0x7FFF_FFFF {
        (wide - 0xFFFF_FFFF) as i32
    } else {
        (wide + 1) as i32
    }
}

/// Reading one record at the cursor: `EmptySlot` where the record has no
/// caption.
pub open spec fn read_record(bytes: Seq<u8>, cur: Cursor) -> Result<(MnemonicModel, Cursor), Fatal> {
    match take(bytes, cur, record_len(), BlobRegions::Mnemonics) {
        Err(e) => Err(e),
        Ok((buf, next)) => {
            let rec = decode_record(buf);
            if rec.caption_off == 0 {
                Err(Fatal::EmptySlot)
            } else {
                Ok(
                    (
                        MnemonicModel {
                            value: mnemonic_key(rec.raw),
                            caption_off: rec.caption_off,
                            tooltip_off: rec.tooltip_off,
                        },
                        next,
                    ),
                )
            }
        },
    }
}

/// Reading `count` records at the cursor into `values`: `DuplicateKey` where
/// a value comes a second time.
pub open spec fn read_records(
    bytes: Seq<u8>,
    cur: Cursor,
    count: nat,
    values: Map<int, MnemonicModel>,
) -> Result<(Map<int, MnemonicModel>, Cursor), Fatal>
    decreases count,
{
    if count == 0 {
        Ok((values, cur))
    } else {
        match read_record(bytes, cur) {
            Err(e) => Err(e),
            Ok((entry, next)) => if values.contains_key(entry.value as int) {
                Err(Fatal::DuplicateKey)
            } else {
                read_records(
                    bytes,
                    next,
                    (count - 1) as nat,
                    values.insert(entry.value as int, entry),
                )
            },
        }
    }
}

/// What the table's header must say of itself: in schema 4 a record width of
/// 5, else `EntrySize`. Another schema is `InvalidFormat`. The width serves as
/// a mark of the schema only: a record takes up 10 bytes.
pub open spec fn check_schema(schema: u16, idx_entry_len: u8) -> Result<(), Fatal> {
    if schema != 4 {
        Err(Fatal::InvalidFormat)
    } else if idx_entry_len != 5 {
        Err(Fatal::EntrySize)
    } else {
        Ok(())
    }
}

/// Reading the table of mnemonics at the cursor: the number of entries in
/// two bytes and the record width in one, then the records. A width of 0
/// stands for a table without entries.
pub open spec fn read_mnemonics(bytes: Seq<u8>, cur: Cursor) -> Result<
    (Map<int, MnemonicModel>, Cursor),
    Fatal,
> {
    match take_le2(bytes, cur, BlobRegions::Mnemonics) {
        Err(e) => Err(e),
        Ok((num_entries, c1)) => match take_byte(bytes, c1, BlobRegions::Mnemonics) {
            Err(e) => Err(e),
            Ok((idx_entry_len, c2)) => if idx_entry_len != 0 {
                match check_schema(4, idx_entry_len) {
                    Err(e) => Err(e),
                    Ok(()) => read_records(bytes, c2, num_entries as nat, Map::empty()),
                }
            } else {
                Ok((Map::empty(), c2))
            },
        },
    }
}

/// The table of the values that a parameter can take, by value.
pub struct MnemonicIndex {
    values: Table<MnemonicIndexEntry>,
}

impl View for MnemonicIndex {
    type V = Map<int, MnemonicModel>;

    closed spec fn view(&self) -> Map<int, MnemonicModel> {
        self.values@.map_values(|e: MnemonicIndexEntry| e@)
    }
}

impl MnemonicIndexEntry {
    /// The handle by which the entry resolves its strings.
    pub closed spec fn blob(&self) -> RawBlob {
        self.blob
    }

    /// The value.
    pub fn get_value(&self) -> (value: i32)
        ensures
            value == self@.value,
    {
        self.value
    }

    /// The offset of the caption.
    pub fn get_caption_off(&self) -> (off: u32)
        ensures
            off == self@.caption_off,
    {
        self.caption_off
    }

    /// The offset of the tooltip, 0 where there is none.
    pub fn get_tooltip_off(&self) -> (off: u32)
        ensures
            off == self@.tooltip_off,
    {
        self.tooltip_off
    }

    /// The value in words: its caption and, where it has one, its tooltip,
    /// each of at most 32 bytes.
    pub fn to_string(&self, stats: &mut Stats) -> (r: Result<String, StringError>)
        requires
            old(stats).regions().len() == self.blob().bytes().len(),
        ensures
            final(stats).regions().len() == self.blob().bytes().len(),
            ({
                let expected = describe(
                    self.blob().bytes(),
                    self.blob().maps(),
                    old(stats).regions(),
                    old(stats).strings(),
                    self@.caption_off,
                    self@.tooltip_off,
                    32,
                );
                &&& worded(r) == expected.result
                &&& final(stats).regions() == expected.regions
                &&& final(stats).strings() == expected.strings
            }),
    {
        self.blob.get_caption(self.caption_off, self.tooltip_off, 32, stats)
    }

    fn load(fp: &mut FileBlob) -> (r: Result<(i32, MnemonicIndexEntry), Fatal>)
        requires
            old(fp).wf(),
        ensures
            final(fp).follows(*old(fp)),
            loads(
                r,
                *old(fp),
                *final(fp),
                read_record(old(fp).handle().bytes(), old(fp).cursor()),
            ),
    {
        let buf = fp.read_exact(10, BlobRegions::Mnemonics)?;
        let raw = little_endian_4_bytes(slice_subrange(buf.as_slice(), 0, 4));
        let caption_off = little_endian_3_bytes(slice_subrange(buf.as_slice(), 4, 7));
        let tooltip_off = little_endian_3_bytes(slice_subrange(buf.as_slice(), 7, 10));
        assert(buf@.subrange(0, 4).take(4) =~= buf@.take(4));
        let value = decode_key(raw);
        if caption_off == 0 {
            return Err(Fatal::EmptySlot);
        }
        let entry = MnemonicIndexEntry { value, caption_off, tooltip_off, blob: fp.freeze() };
        Ok((value, entry))
    }
}

/// What reading one record gave, held against what it had to give.
pub open spec fn loads(
    got: Result<(i32, MnemonicIndexEntry), Fatal>,
    before: FileBlob,
    after: FileBlob,
    expected: Result<(MnemonicModel, Cursor), Fatal>,
) -> bool {
    match expected {
        Ok((entry, next)) => {
            &&& got is Ok
            &&& got->Ok_0.0 == entry.value
            &&& got->Ok_0.1@ == entry
            &&& got->Ok_0.1.blob() == before.handle()
            &&& after.cursor() == next
        },
        Err(e) => got == Err::<(i32, MnemonicIndexEntry), Fatal>(e),
    }
}

/// The values of the entries, in their order.
pub open spec fn mnemonic_values(entries: Seq<MnemonicIndexEntry>) -> Seq<int> {
    entries.map_values(|e: MnemonicIndexEntry| e@.value as int)
}

/// The entries as what they hold, in their order.
pub open spec fn mnemonic_models(entries: Seq<MnemonicIndexEntry>) -> Seq<MnemonicModel> {
    entries.map_values(|e: MnemonicIndexEntry| e@)
}

impl MnemonicIndex {
    /// No value occurs twice, and every entry stands under its own value.
    pub closed spec fn wf(&self) -> bool {
        &&& self.values.wf()
        &&& forall|k: int| #[trigger]
            self.values@.contains_key(k) ==> self.values@[k].value == k
    }

    /// Every entry resolves its strings by `blob`.
    pub closed spec fn within(&self, blob: RawBlob) -> bool {
        forall|k: int| #[trigger] self.values@.contains_key(k) ==> self.values@[k].blob() == blob
    }

    /// Every entry stands under its own value, and the entries are finitely many.
    pub proof fn lemma_keys(&self)
        requires
            self.wf(),
        ensures
            self@.dom().finite(),
            forall|k: int| #[trigger] self@.contains_key(k) ==> self@[k].value == k,
    {
        lemma_count(self.values.keys(), self.values.values());
        assert(self@.dom() =~= self.values@.dom());
    }

    /// The table of the given entries. `DuplicateKey` where two of them have
    /// the same value.
    pub fn new(entries: Vec<MnemonicIndexEntry>) -> (r: Result<MnemonicIndex, Fatal>)
        ensures
            match collect(mnemonic_values(entries@), mnemonic_models(entries@), 0, Map::empty()) {
                Some(values) => r is Ok && r->Ok_0.wf() && r->Ok_0@ == values,
                None => r == Err::<MnemonicIndex, Fatal>(Fatal::DuplicateKey),
            },
            forall|blob: RawBlob|
                r is Ok && (forall|i: int|
                    0 <= i < entries@.len() ==> (#[trigger] entries@[i]).blob() == blob)
                    ==> #[trigger] r->Ok_0.within(blob),
    {
        let mut values: Table<MnemonicIndexEntry> = Table::new();
        let mut i: usize = 0;
        let ghost ids = mnemonic_values(entries@);
        let ghost models = mnemonic_models(entries@);
        assert(values@.map_values(|e: MnemonicIndexEntry| e@) =~= Map::<int, MnemonicModel>::empty());
        while i < entries.len()
            invariant
                i <= entries@.len(),
                ids == mnemonic_values(entries@),
                models == mnemonic_models(entries@),
                values.wf(),
                forall|k: int| #[trigger] values@.contains_key(k) ==> values@[k].value == k,
                forall|k: int| #[trigger]
                    values@.contains_key(k) ==> exists|j: int|
                        0 <= j < i && entries@[j] == values@[k],
                collect(ids, models, 0, Map::empty()) == collect(
                    ids,
                    models,
                    i as int,
                    values@.map_values(|e: MnemonicIndexEntry| e@),
                ),
            decreases entries@.len() - i,
        {
            let entry = entries[i].clone();
            let ghost before = values@;
            let added = values.insert(entry.value as i64, entry);
            proof {
                assert(before.map_values(|e: MnemonicIndexEntry| e@).dom() =~= before.dom());
            }
            if !added {
                return Err(Fatal::DuplicateKey);
            }
            assert(values@.map_values(|e: MnemonicIndexEntry| e@) =~= before.map_values(
                |e: MnemonicIndexEntry| e@,
            ).insert(ids[i as int], models[i as int]));
            i += 1;
        }
        Ok(MnemonicIndex { values })
    }

    /// A table without entries.
    pub fn empty() -> (index: MnemonicIndex)
        ensures
            index.wf(),
            forall|blob: RawBlob| #[trigger] index.within(blob),
            index@ == Map::<int, MnemonicModel>::empty(),
    {
        let index = MnemonicIndex { values: Table::new() };
        assert(index@ =~= Map::<int, MnemonicModel>::empty());
        index
    }

    /// Checks what the table's header says of itself.
    pub fn validate_schema(schema: u16, idx_entry_len: u8) -> (r: Result<(), Fatal>)
        ensures
            r == check_schema(schema, idx_entry_len),
    {
        match schema {
            4 => {
                if idx_entry_len != 5 {
                    return Err(Fatal::EntrySize);
                }
            },
            _ => {
                return Err(Fatal::InvalidFormat);
            },
        }
        Ok(())
    }

    /// Reads the table of mnemonics at the cursor.
    pub fn from(fp: &mut FileBlob) -> (r: Result<MnemonicIndex, Fatal>)
        requires
            old(fp).wf(),
        ensures
            parses(*old(fp), *final(fp), r, read_mnemonics(old(fp).handle().bytes(), old(fp).cursor())),
            r is Ok ==> r->Ok_0.wf() && r->Ok_0.within(old(fp).handle()),
    {
        let num_entries = fp.read_le_2bytes(BlobRegions::Mnemonics)?;
        let idx_entry_len = fp.read_byte(BlobRegions::Mnemonics)?;
        let mut values: Table<MnemonicIndexEntry> = Table::new();
        assert(values@.map_values(|e: MnemonicIndexEntry| e@) =~= Map::<
            int,
            MnemonicModel,
        >::empty());
        if idx_entry_len != 0 {
            Self::validate_schema(4, idx_entry_len)?;
            let ghost blob = old(fp).handle();
            let ghost bytes = blob.bytes();
        let ghost whole = read_mnemonics(bytes, old(fp).cursor());
            let mut i: u16 = 0;
            while i < num_entries
                invariant
                    i <= num_entries,
                    fp.follows(*old(fp)),
                    blob == old(fp).handle(),
                    bytes == blob.bytes(),
                whole == read_mnemonics(bytes, old(fp).cursor()),
                    values.wf(),
                    forall|k: int| #[trigger] values@.contains_key(k) ==> values@[k].value == k,
                    forall|k: int| #[trigger] values@.contains_key(k) ==> values@[k].blob() == blob,
                    whole == read_records(
                        bytes,
                        fp.cursor(),
                        (num_entries - i) as nat,
                        values@.map_values(|e: MnemonicIndexEntry| e@),
                    ),
                decreases num_entries - i,
            {
                let (value, entry) = MnemonicIndexEntry::load(fp)?;
                let ghost before = values@;
                let ghost model = entry@;
                assert(before.map_values(|e: MnemonicIndexEntry| e@).dom() =~= before.dom());
                if !values.insert(value as i64, entry) {
                    return Err(Fatal::DuplicateKey);
                }
                assert(values@.map_values(|e: MnemonicIndexEntry| e@) =~= before.map_values(
                    |e: MnemonicIndexEntry| e@,
                ).insert(value as int, model));
                i += 1;
            }
        }
        Ok(MnemonicIndex { values })
    }

    /// The number of values.
    pub fn get_num_values(&self) -> (n: usize)
        requires
            self.wf(),
        ensures
            self@.dom().finite(),
            n == self@.dom().len(),
    {
        assert(self@.dom() =~= self.values@.dom());
        self.values.len()
    }

    /// The entry of a value, if the table has it.
    pub fn get(&self, id: i32) -> (r: Option<&MnemonicIndexEntry>)
        requires
            self.wf(),
        ensures
            match r {
                Some(entry) => {
                    &&& self@.contains_key(id as int)
                    &&& self@[id as int] == entry@
                    &&& forall|blob: RawBlob| #[trigger] self.within(blob) ==> entry.blob() == blob
                },
                None => !self@.contains_key(id as int),
            },
    {
        assert(self@.dom() =~= self.values@.dom());
        self.values.get(id as i64)
    }

    /// The entries by falling value, for going through them.
    pub fn into_iter(&self) -> (iter: MnemonicIndexIterator)
        requires
            self.wf(),
        ensures
            lists_descending(iter@, self@),
            forall|blob: RawBlob| #[trigger] self.within(blob) ==> iter.within(blob),
    {
        let mut items: Vec<(i32, MnemonicIndexEntry)> = Vec::new();
        let n = self.values.len();
        let mut i: usize = 0;
        while i < n
            invariant
                self.wf(),
                n == self.values.keys().len(),
                i <= n,
                items@.len() == i,
                forall|j: int|
                    0 <= j < i ==> #[trigger] items@[j] == (
                        self.values.keys()[j] as i32,
                        self.values.values()[j],
                    ) && self.values.keys()[j] == items@[j].0,
            decreases n - i,
        {
            let entry = self.values.value_at(i).clone();
            items.push((entry.value, entry));
            i += 1;
        }
        let iter = MnemonicIndexIterator { items };
        proof {
            assert forall|blob: RawBlob| #[trigger] self.within(blob) implies iter.within(
                blob,
            ) by {
                assert forall|j: int| 0 <= j < iter.items@.len() implies (
                #[trigger] iter.items@[j]).1.blob() == blob by {
                    lemma_map_at(self.values.keys(), self.values.values(), j);
                }
            }
            lemma_descending(
                self.values.keys(),
                self.values.values(),
                |e: MnemonicIndexEntry| e@,
                iter@,
            );
        }
        iter
    }
}

/// The entries of a table of mnemonics that are still to come, by falling
/// value.
pub struct MnemonicIndexIterator {
    items: Vec<(i32, MnemonicIndexEntry)>,
}

impl View for MnemonicIndexIterator {
    type V = Seq<(int, MnemonicModel)>;

    closed spec fn view(&self) -> Seq<(int, MnemonicModel)> {
        Seq::new(
            self.items@.len(),
            |i: int|
                (
                    self.items@[self.items@.len() - 1 - i].0 as int,
                    self.items@[self.items@.len() - 1 - i].1@,
                ),
        )
    }
}

impl MnemonicIndexIterator {
    /// Every entry that is still to come resolves its strings by `blob`.
    pub closed spec fn within(&self, blob: RawBlob) -> bool {
        forall|i: int| 0 <= i < self.items@.len() ==> (#[trigger] self.items@[i]).1.blob() == blob
    }

    /// The next entry with its value, if one is left.
    pub fn next(&mut self) -> (r: Option<(i32, MnemonicIndexEntry)>)
        ensures
            forall|blob: RawBlob| #[trigger] old(self).within(blob) ==> final(self).within(blob),
            match r {
                Some((id, entry)) => {
                    &&& old(self)@.len() > 0
                    &&& old(self)@[0] == (id as int, entry@)
                    &&& final(self)@ == old(self)@.skip(1)
                    &&& forall|blob: RawBlob| #[trigger]
                        old(self).within(blob) ==> entry.blob() == blob
                },
                None => old(self)@.len() == 0 && final(self)@ == old(self)@,
            },
    {
        let r = self.items.pop();
        proof {
            if r is Some {
                assert(self@ =~= old(self)@.skip(1));
                assert(old(self).items@[old(self).items@.len() - 1] == r->Some_0);
            }
        }
        r
    }
}

} // verus!
