use crate::blob::{
    dumps, lemma_take_free, lemma_take_in_parts, line_texts, parses, region_free, tagged, take,
    take_byte, BlobRegions, Cursor, DumpError, DumpFailure, Dumped, FileBlob, RawBlob, Stats,
};
use crate::conversion::{
    decimal, le_bytes, lemma_le3_at, lemma_le4_at, lemma_le_bytes_len, little_endian_3_bytes,
    little_endian_4_bytes, spec_decimal, spec_le3, spec_le4,
};
use crate::characters::CharacterMapsModel;
use crate::error::Fatal;
use crate::menus::{
    dump_menus, read_menus_v3, read_menus_v4, read_v2, MenuIndex, MenuModel,
};
use crate::shared::share;
use crate::table::{
    backwards, collect, lemma_backwards, lemma_count, lemma_descending, lemma_map_at, listing,
    lists_descending, Table,
};
use std::rc::Rc;
use vstd::prelude::*;
use vstd::slice::slice_subrange;
use vstd::string::StringExecFns;

verus! {

/// One mode of a product: its number and its menus.
pub struct ModeIndexEntry {
    mode_num: u8,
    menu_index: Rc<MenuIndex>,
}

/// What a mode holds: its number, and its menus by number.
pub struct ModeModel {
    pub mode_num: u8,
    pub menus: Map<int, MenuModel>,
}

impl View for ModeIndexEntry {
    type V = ModeModel;

    closed spec fn view(&self) -> ModeModel {
        ModeModel { mode_num: self.mode_num, menus: (*self.menu_index)@ }
    }
}

impl Clone for ModeIndexEntry {
    fn clone(&self) -> (r: ModeIndexEntry)
        ensures
            r == *self,
    {
        ModeIndexEntry { mode_num: self.mode_num, menu_index: share(&self.menu_index) }
    }
}

/// A schema-2 record: the mode's number, and the offset of its menus in four
/// bytes.
pub open spec fn decode_v2(buf: Seq<u8>) -> (u8, u32) {
    (buf[0], spec_le4(buf.skip(1)) as u32)
}

/// The bytes that hold a schema-2 record.
pub open spec fn encode_v2(rec: (u8, u32)) -> Seq<u8> {
    seq![rec.0] + le_bytes(rec.1 as nat, 4)
}

/// A record of schema 3 or 4: the offset of the mode's menus, in three bytes.
pub open spec fn decode_v3(buf: Seq<u8>) -> u32 {
    spec_le3(buf) as u32
}

/// The bytes that hold a record of schema 3 or 4.
pub open spec fn encode_v3(offset: u32) -> Seq<u8> {
    le_bytes(offset as nat, 3)
}

/// What was written as a schema-2 record is read back as it was.
pub proof fn lemma_v2_roundtrip(rec: (u8, u32))
    ensures
        encode_v2(rec).len() == 5,
        decode_v2(encode_v2(rec)) == rec,
{
    let buf = encode_v2(rec);
    lemma_le_bytes_len(rec.1 as nat, 4);
    assert(buf.subrange(1, 5) =~= le_bytes(rec.1 as nat, 4));
    lemma_le4_at(buf, 1, rec.1 as nat);
}

/// What was written as a record of schema 3 or 4 is read back as it was, for
/// every offset that three bytes can hold.
pub proof fn lemma_v3_roundtrip(offset: u32)
    requires
        offset < 0x100_0000,
    ensures
        encode_v3(offset).len() == 3,
        decode_v3(encode_v3(offset)) == offset,
{
    let buf = encode_v3(offset);
    lemma_le_bytes_len(offset as nat, 3);
    assert(buf.subrange(0, 3) =~= buf);
    assert(buf.skip(0) =~= buf);
    lemma_le3_at(buf, 0, offset as nat);
}

/// What a table's header must say of itself: a record width of 5 in schema
/// 2, of 3 in schemas 3 and 4, else `EntrySize`; then one to four modes, else
/// `EntryCount`. Another schema is `InvalidFormat`.
pub open spec fn check_schema(schema: u16, idx_entry_len: u8, num_modes: u8) -> Result<(), Fatal> {
    if schema != 2 && schema != 3 && schema != 4 {
        Err(Fatal::InvalidFormat)
    } else if idx_entry_len != (if schema == 2 {
        5
    } else {
        3int
    }) {
        Err(Fatal::EntrySize)
    } else if num_modes < 1 || num_modes > 4 {
        Err(Fatal::EntryCount)
    } else {
        Ok(())
    }
}

/// Reading the schema-2 records from the `i`-th of `total` on, added to
/// `records`. Several modes are numbered from 1 in their order, a single one is
/// 0 or 1, else `ModeSequence`. `EmptySlot` where a mode has no menus.
pub open spec fn read_v2_records(
    bytes: Seq<u8>,
    cur: Cursor,
    total: int,
    i: int,
    records: Seq<(u8, u32)>,
) -> Result<(Seq<(u8, u32)>, Cursor), Fatal>
    decreases total - i,
{
    if i < 0 || i >= total {
        Ok((records, cur))
    } else {
        match take(bytes, cur, 5, BlobRegions::Modes) {
            Err(e) => Err(e),
            Ok((buf, next)) => {
                let rec = decode_v2(buf);
                if total > 1 && rec.0 != i + 1 {
                    Err(Fatal::ModeSequence)
                } else if total <= 1 && rec.0 != 0 && rec.0 != 1 {
                    Err(Fatal::ModeSequence)
                } else if rec.1 == 0 {
                    Err(Fatal::EmptySlot)
                } else {
                    read_v2_records(bytes, next, total, i + 1, records.push(rec))
                }
            },
        }
    }
}

/// Reading the records of schema 3 or 4 from the `i`-th of `total` on, added
/// to `records`. A single mode has number 0 and must have menus, else
/// `EmptySlot`. Several modes are numbered from 1 by their place, and offset 0
/// stands for a mode that is not there.
pub open spec fn read_v3_records(
    bytes: Seq<u8>,
    cur: Cursor,
    total: int,
    i: int,
    records: Seq<(u8, u32)>,
) -> Result<(Seq<(u8, u32)>, Cursor), Fatal>
    decreases total - i,
{
    if i < 0 || i >= total {
        Ok((records, cur))
    } else {
        match take(bytes, cur, 3, BlobRegions::Modes) {
            Err(e) => Err(e),
            Ok((buf, next)) => {
                let offset = decode_v3(buf);
                if total == 1 && offset == 0 {
                    Err(Fatal::EmptySlot)
                } else {
                    let mode_num = if total == 1 {
                        0u8
                    } else {
                        (i + 1) as u8
                    };
                    read_v3_records(
                        bytes,
                        next,
                        total,
                        i + 1,
                        if offset != 0 {
                            records.push((mode_num, offset))
                        } else {
                            records
                        },
                    )
                }
            },
        }
    }
}

/// Reading the menus of a mode at the cursor, in the way of the schema.
pub open spec fn read_menus(bytes: Seq<u8>, cur: Cursor, schema: u16, font_family: u8) -> Result<
    (Map<int, MenuModel>, Cursor),
    Fatal,
> {
    if schema == 2 {
        read_v2(bytes, cur, font_family)
    } else if schema == 3 {
        read_menus_v3(bytes, cur, font_family)
    } else {
        read_menus_v4(bytes, cur)
    }
}

/// Making the modes of the records from place `i` on and putting them into
/// `modes`: the menus of each are read at their offset. `DuplicateKey` where a
/// number comes a second time.
pub open spec fn build(
    bytes: Seq<u8>,
    cur: Cursor,
    schema: u16,
    font_family: u8,
    records: Seq<(u8, u32)>,
    i: int,
    modes: Map<int, ModeModel>,
) -> Result<(Map<int, ModeModel>, Cursor), Fatal>
    decreases records.len() - i,
{
    if i < 0 || i >= records.len() {
        Ok((modes, cur))
    } else {
        let rec = records[i];
        match read_menus(bytes, Cursor { pos: rec.1 as int, ..cur }, schema, font_family) {
            Err(e) => Err(e),
            Ok((menus, next)) => if modes.contains_key(rec.0 as int) {
                Err(Fatal::DuplicateKey)
            } else {
                build(
                    bytes,
                    next,
                    schema,
                    font_family,
                    records,
                    i + 1,
                    modes.insert(rec.0 as int, ModeModel { mode_num: rec.0, menus }),
                )
            },
        }
    }
}

/// Reading the table of modes at the cursor: the number of modes and the
/// record width in one byte each, the records, and then the menus of each mode.
pub open spec fn read_modes(bytes: Seq<u8>, cur: Cursor, schema: u16, font_family: u8) -> Result<
    (Map<int, ModeModel>, Cursor),
    Fatal,
> {
    match take_byte(bytes, cur, BlobRegions::Modes) {
        Err(e) => Err(e),
        Ok((num_modes, c1)) => match take_byte(bytes, c1, BlobRegions::Modes) {
            Err(e) => Err(e),
            Ok((idx_entry_len, c2)) => match check_schema(schema, idx_entry_len, num_modes) {
                Err(e) => Err(e),
                Ok(()) => match (if schema == 2 {
                    read_v2_records(bytes, c2, num_modes as int, 0, Seq::empty())
                } else {
                    read_v3_records(bytes, c2, num_modes as int, 0, Seq::empty())
                }) {
                    Err(e) => Err(e),
                    Ok((records, c3)) => build(
                        bytes,
                        c3,
                        schema,
                        font_family,
                        records,
                        0,
                        Map::empty(),
                    ),
                },
            },
        },
    }
}

/// The bytes of a table of modes of schema 3 or 4 with one mode: the header
/// of two bytes, and the offset of the mode's menus.
pub open spec fn one_mode_table(menus_off: u32) -> Seq<u8> {
    seq![1u8, 3u8] + encode_v3(menus_off)
}

/// A table of schema 3 with one mode that stands written at the cursor is
/// read as mode 0, with the menus that are read at its offset. The bytes of
/// the table must not have been read as something else.
#[verifier::rlimit(80)]
pub proof fn lemma_one_mode(
    bytes: Seq<u8>,
    cur: Cursor,
    font_family: u8,
    menus_off: u32,
    menus: Map<int, MenuModel>,
    end: Cursor,
)
    requires
        0 <= cur.pos,
        cur.regions.len() == bytes.len(),
        cur.pos + 5 <= bytes.len(),
        bytes.subrange(cur.pos, cur.pos + 5) == one_mode_table(menus_off),
        0 < menus_off < 0x100_0000,
        region_free(cur.regions, cur.pos, cur.pos + 5, BlobRegions::Modes),
        read_menus_v3(
            bytes,
            Cursor {
                pos: menus_off as int,
                regions: tagged(cur.regions, cur.pos, cur.pos + 5, BlobRegions::Modes),
            },
            font_family,
        ) == Ok::<(Map<int, MenuModel>, Cursor), Fatal>((menus, end)),
    ensures
        read_modes(bytes, cur, 3, font_family) == Ok::<(Map<int, ModeModel>, Cursor), Fatal>(
            (Map::<int, ModeModel>::empty().insert(0, ModeModel { mode_num: 0, menus }), end),
        ),
{
    let tag = BlobRegions::Modes;
    lemma_v3_roundtrip(menus_off);
    lemma_take_free(bytes, cur, 5, tag);
    let last = take(bytes, cur, 5, tag)->Ok_0.1;
    lemma_take_in_parts(bytes, cur, 2, 3, tag);
    let c2 = take(bytes, cur, 2, tag)->Ok_0.1;
    assert(take(bytes, c2, 3, tag)->Ok_0.0 =~= encode_v3(menus_off));
    lemma_take_in_parts(bytes, cur, 1, 1, tag);
    let c1 = take(bytes, cur, 1, tag)->Ok_0.1;
    assert(take(bytes, cur, 1, tag)->Ok_0.0 =~= seq![1u8]);
    assert(take(bytes, c1, 1, tag)->Ok_0.0 =~= seq![3u8]);
    assert(take_byte(bytes, cur, tag) == Ok::<(u8, Cursor), Fatal>((1u8, c1)));
    assert(take_byte(bytes, c1, tag) == Ok::<(u8, Cursor), Fatal>((3u8, c2)));
    let records = Seq::<(u8, u32)>::empty().push((0u8, menus_off));
    assert(read_v3_records(bytes, last, 1, 1, records) == Ok::<(Seq<(u8, u32)>, Cursor), Fatal>(
        (records, last),
    ));
    assert(read_v3_records(bytes, c2, 1, 0, Seq::empty()) == Ok::<
        (Seq<(u8, u32)>, Cursor),
        Fatal,
    >((records, last)));
    let modes = Map::<int, ModeModel>::empty().insert(0, ModeModel { mode_num: 0, menus });
    assert(build(bytes, end, 3, font_family, records, 1, modes) == Ok::<
        (Map<int, ModeModel>, Cursor),
        Fatal,
    >((modes, end)));
    assert(Cursor { pos: records[0].1 as int, ..last } == Cursor {
        pos: menus_off as int,
        regions: tagged(cur.regions, cur.pos, cur.pos + 5, tag),
    });
    assert(build(bytes, last, 3, font_family, records, 0, Map::empty()) == Ok::<
        (Map<int, ModeModel>, Cursor),
        Fatal,
    >((modes, end)));
}

/// The name of a mode: `None` where the number is none of 0 to 4.
pub open spec fn mode_name(mode: u8) -> Option<Seq<char>> {
    if mode == 0 {
        Some("Any"@)
    } else if mode == 1 {
        Some("Open Loop"@)
    } else if mode == 2 {
        Some("RFC-A"@)
    } else if mode == 3 {
        Some("RFC-S"@)
    } else if mode == 4 {
        Some("Regen"@)
    } else {
        None
    }
}

/// A mode in words: its name and the number of its menus.
pub open spec fn mode_text(name: Seq<char>, menus: nat) -> Seq<char> {
    "Mode '"@ + name + "' num of menus = "@ + spec_decimal(menus)
}

impl ModeIndexEntry {
    /// The table of menus is well formed.
    pub closed spec fn wf(&self) -> bool {
        self.menu_index.wf()
    }

    /// The menus, with their parameters, resolve their strings by `blob`.
    pub closed spec fn within(&self, blob: RawBlob) -> bool {
        self.menu_index.within(blob)
    }

    /// The entry of a mode with the given menus.
    pub fn new(mode_num: u8, menu_index: MenuIndex) -> (entry: ModeIndexEntry)
        ensures
            menu_index.wf() ==> entry.wf(),
            forall|blob: RawBlob| #[trigger] menu_index.within(blob) ==> entry.within(blob),
            entry@ == (ModeModel { mode_num, menus: menu_index@ }),
    {
        ModeIndexEntry { mode_num, menu_index: Rc::new(menu_index) }
    }

    /// The mode in words, `mode` being its number: `UnknownMode` where that
    /// is none of 0 to 4.
    pub fn to_string(&self, mode: u8) -> (r: Result<String, Fatal>)
        requires
            self.wf(),
        ensures
            self@.menus.dom().finite(),
            match mode_name(mode) {
                Some(name) => r is Ok && r->Ok_0@ == mode_text(name, self@.menus.dom().len()),
                None => r == Err::<String, Fatal>(Fatal::UnknownMode),
            },
    {
        let count = self.menu_index.get_num_menus();
        let name = match mode {
            0 => "Any",
            1 => "Open Loop",
            2 => "RFC-A",
            3 => "RFC-S",
            4 => "Regen",
            _ => {
                return Err(Fatal::UnknownMode);
            },
        };
        let mut text = "Mode '".to_owned();
        text.append(name);
        text.append("' num of menus = ");
        text.append(decimal(count as u64).as_str());
        Ok(text)
    }

    /// The number of the mode.
    pub fn get_mode_num(&self) -> (number: u8)
        ensures
            number == self@.mode_num,
    {
        self.mode_num
    }

    /// Adds the line of the mode to `lines`.
    fn dump_line(&self, lines: &mut Vec<String>) -> (r: Result<(), DumpError>)
        requires
            self.wf(),
        ensures
            match mode_name(self@.mode_num) {
                Some(name) => {
                    &&& r is Ok
                    &&& line_texts(final(lines)@) == line_texts(old(lines)@).push(
                        "- "@ + mode_text(name, self@.menus.dom().len()),
                    )
                },
                None => {
                    &&& r is Err
                    &&& r->Err_0@ == DumpFailure::Mode(Fatal::UnknownMode)
                    &&& final(lines)@ == old(lines)@
                },
            },
    {
        let text = match self.to_string(self.mode_num) {
            Ok(text) => text,
            Err(e) => {
                return Err(DumpError::Mode(e));
            },
        };
        let mut shown = "- ".to_owned();
        shown.append(text.as_str());
        let ghost texts = line_texts(lines@);
        lines.push(shown);
        assert(line_texts(lines@) =~= texts.push(shown@));
        Ok(())
    }

    /// The menus of the mode.
    pub fn get_menus(&self) -> (menus: &MenuIndex)
        ensures
            menus@ == self@.menus,
            self.wf() ==> menus.wf(),
            forall|blob: RawBlob| #[trigger] self.within(blob) ==> menus.within(blob),
    {
        &self.menu_index
    }
}

/// The line of a mode, added to the lines so far: the name of the mode and
/// the number of its menus. A number without a name is a failure.
pub open spec fn dump_mode_line(mode: ModeModel, so_far: Dumped) -> Dumped {
    match mode_name(mode.mode_num) {
        Some(name) => Dumped {
            lines: so_far.lines.push("- "@ + mode_text(name, mode.menus.dom().len())),
            ..so_far
        },
        None => Dumped { failure: Some(DumpFailure::Mode(Fatal::UnknownMode)), ..so_far },
    }
}

/// Putting the modes from place `i` of the list on into words: one line for
/// each mode, and behind it the lines of its menus. The first failure ends it.
pub open spec fn dump_modes(
    bytes: Seq<u8>,
    maps: CharacterMapsModel,
    modes: Seq<(int, ModeModel)>,
    i: int,
    so_far: Dumped,
) -> Dumped
    decreases modes.len() - i,
{
    if i < 0 || i >= modes.len() || so_far.failure is Some {
        so_far
    } else {
        dump_modes(
            bytes,
            maps,
            modes,
            i + 1,
            dump_menus(
                bytes,
                maps,
                listing(modes[i].1.menus),
                0,
                dump_mode_line(modes[i].1, so_far),
            ),
        )
    }
}

/// The modes of one product, by number.
pub struct ModeIndex {
    modes: Table<ModeIndexEntry>,
}

impl View for ModeIndex {
    type V = Map<int, ModeModel>;

    closed spec fn view(&self) -> Map<int, ModeModel> {
        self.modes@.map_values(|e: ModeIndexEntry| e@)
    }
}

/// The numbers of the entries, in their order.
pub open spec fn mode_numbers(entries: Seq<ModeIndexEntry>) -> Seq<int> {
    entries.map_values(|e: ModeIndexEntry| e@.mode_num as int)
}

/// The entries as what they hold, in their order.
pub open spec fn mode_models(entries: Seq<ModeIndexEntry>) -> Seq<ModeModel> {
    entries.map_values(|e: ModeIndexEntry| e@)
}

/// Every entry of the table stands under its own number and is well formed.
spec fn entries_wf(modes: Map<int, ModeIndexEntry>) -> bool {
    forall|k: int| #[trigger] modes.contains_key(k) ==> modes[k].mode_num == k && modes[k].wf()
}

/// Every entry of the table resolves its strings by `blob`.
spec fn entries_within(modes: Map<int, ModeIndexEntry>, blob: RawBlob) -> bool {
    forall|k: int| #[trigger] modes.contains_key(k) ==> modes[k].within(blob)
}

impl ModeIndex {
    /// No number occurs twice, every entry stands under its own number, and
    /// the tables of menus are well formed.
    pub closed spec fn wf(&self) -> bool {
        &&& self.modes.wf()
        &&& entries_wf(self.modes@)
    }

    /// Every entry, with all below it, resolves its strings by `blob`.
    pub closed spec fn within(&self, blob: RawBlob) -> bool {
        entries_within(self.modes@, blob)
    }

    /// Every entry stands under its own number, and the entries are finitely
    /// many.
    pub proof fn lemma_keys(&self)
        requires
            self.wf(),
        ensures
            self@.dom().finite(),
            forall|k: int| #[trigger] self@.contains_key(k) ==> self@[k].mode_num == k,
    {
        lemma_count(self.modes.keys(), self.modes.values());
        assert(self@.dom() =~= self.modes@.dom());
    }

    /// The table of the given entries. `DuplicateKey` where two of them have
    /// the same number.
    pub fn new(entries: Vec<ModeIndexEntry>) -> (r: Result<ModeIndex, Fatal>)
        requires
            forall|i: int| 0 <= i < entries@.len() ==> (#[trigger] entries@[i]).wf(),
        ensures
            match collect(mode_numbers(entries@), mode_models(entries@), 0, Map::empty()) {
                Some(modes) => r is Ok && r->Ok_0.wf() && r->Ok_0@ == modes,
                None => r == Err::<ModeIndex, Fatal>(Fatal::DuplicateKey),
            },
            forall|blob: RawBlob|
                r is Ok && (forall|i: int|
                    0 <= i < entries@.len() ==> (#[trigger] entries@[i]).within(blob))
                    ==> #[trigger] r->Ok_0.within(blob),
    {
        let mut modes: Table<ModeIndexEntry> = Table::new();
        let mut i: usize = 0;
        let ghost ids = mode_numbers(entries@);
        let ghost models = mode_models(entries@);
        assert(modes@.map_values(|e: ModeIndexEntry| e@) =~= Map::<int, ModeModel>::empty());
        while i < entries.len()
            invariant
                i <= entries@.len(),
                ids == mode_numbers(entries@),
                models == mode_models(entries@),
                forall|i: int| 0 <= i < entries@.len() ==> (#[trigger] entries@[i]).wf(),
                modes.wf(),
                entries_wf(modes@),
                forall|k: int| #[trigger]
                    modes@.contains_key(k) ==> exists|j: int|
                        0 <= j < i && entries@[j] == modes@[k],
                collect(ids, models, 0, Map::empty()) == collect(
                    ids,
                    models,
                    i as int,
                    modes@.map_values(|e: ModeIndexEntry| e@),
                ),
            decreases entries@.len() - i,
        {
            let entry = entries[i].clone();
            let ghost before = modes@;
            let added = modes.insert(entry.mode_num as i64, entry);
            proof {
                assert(before.map_values(|e: ModeIndexEntry| e@).dom() =~= before.dom());
            }
            if !added {
                return Err(Fatal::DuplicateKey);
            }
            assert(modes@.map_values(|e: ModeIndexEntry| e@) =~= before.map_values(
                |e: ModeIndexEntry| e@,
            ).insert(ids[i as int], models[i as int]));
            i += 1;
        }
        Ok(ModeIndex { modes })
    }

    fn validate_schema(schema: u16, idx_entry_len: u8, num_modes: u8) -> (r: Result<(), Fatal>)
        ensures
            r == check_schema(schema, idx_entry_len, num_modes),
    {
        match schema {
            2 => {
                if idx_entry_len != 5 {
                    return Err(Fatal::EntrySize);
                }
            },
            3 => {
                if idx_entry_len != 3 {
                    return Err(Fatal::EntrySize);
                }
            },
            4 => {
                if idx_entry_len != 3 {
                    return Err(Fatal::EntrySize);
                }
            },
            _ => {
                return Err(Fatal::InvalidFormat);
            },
        }
        if num_modes < 1 {
            return Err(Fatal::EntryCount);
        }
        if num_modes > 4 {
            return Err(Fatal::EntryCount);
        }
        Ok(())
    }

    /// Reads the `num_entries` records of a schema-2 table at the cursor.
    fn read_v2_entries(fp: &mut FileBlob, num_entries: u8) -> (r: Result<Vec<(u8, u32)>, Fatal>)
        requires
            old(fp).wf(),
        ensures
            final(fp).follows(*old(fp)),
            match read_v2_records(
                old(fp).handle().bytes(),
                old(fp).cursor(),
                num_entries as int,
                0,
                Seq::empty(),
            ) {
                Ok((records, next)) => r is Ok && r->Ok_0@ == records && final(fp).cursor() == next,
                Err(e) => r == Err::<Vec<(u8, u32)>, Fatal>(e),
            },
    {
        let mut tmp_info: Vec<(u8, u32)> = Vec::new();
        let ghost bytes = old(fp).handle().bytes();
        let ghost whole = read_v2_records(
            bytes,
            old(fp).cursor(),
            num_entries as int,
            0,
            Seq::empty(),
        );
        let mut i: u8 = 0;
        while i < num_entries
            invariant
                i <= num_entries,
                fp.follows(*old(fp)),
                bytes == old(fp).handle().bytes(),
                whole == read_v2_records(
                    bytes,
                    old(fp).cursor(),
                    num_entries as int,
                    0,
                    Seq::empty(),
                ),
                whole == read_v2_records(
                    bytes,
                    fp.cursor(),
                    num_entries as int,
                    i as int,
                    tmp_info@,
                ),
            decreases num_entries - i,
        {
            let buf = fp.read_exact(5, BlobRegions::Modes)?;
            let mode_num = buf[0];
            if num_entries > 1 {
                if mode_num != i + 1 {
                    return Err(Fatal::ModeSequence);
                }
            } else if mode_num != 0 && mode_num != 1 {
                return Err(Fatal::ModeSequence);
            }
            let offset = little_endian_4_bytes(slice_subrange(buf.as_slice(), 1, 5));
            if offset == 0 {
                return Err(Fatal::EmptySlot);
            }
            tmp_info.push((mode_num, offset));
            i += 1;
        }
        Ok(tmp_info)
    }

    /// Reads the `num_entries` records of a table of schema 3 or 4 at the
    /// cursor.
    fn read_v3_entries(fp: &mut FileBlob, num_entries: u8) -> (r: Result<Vec<(u8, u32)>, Fatal>)
        requires
            old(fp).wf(),
        ensures
            final(fp).follows(*old(fp)),
            match read_v3_records(
                old(fp).handle().bytes(),
                old(fp).cursor(),
                num_entries as int,
                0,
                Seq::empty(),
            ) {
                Ok((records, next)) => r is Ok && r->Ok_0@ == records && final(fp).cursor() == next,
                Err(e) => r == Err::<Vec<(u8, u32)>, Fatal>(e),
            },
    {
        let mut tmp_info: Vec<(u8, u32)> = Vec::new();
        let ghost bytes = old(fp).handle().bytes();
        let ghost whole = read_v3_records(
            bytes,
            old(fp).cursor(),
            num_entries as int,
            0,
            Seq::empty(),
        );
        let mut i: u8 = 0;
        while i < num_entries
            invariant
                i <= num_entries,
                fp.follows(*old(fp)),
                bytes == old(fp).handle().bytes(),
                whole == read_v3_records(
                    bytes,
                    old(fp).cursor(),
                    num_entries as int,
                    0,
                    Seq::empty(),
                ),
                whole == read_v3_records(
                    bytes,
                    fp.cursor(),
                    num_entries as int,
                    i as int,
                    tmp_info@,
                ),
            decreases num_entries - i,
        {
            let offset = fp.read_le_3bytes(BlobRegions::Modes)?;
            let mode_num = if num_entries == 1 {
                if offset == 0 {
                    return Err(Fatal::EmptySlot);
                }
                0
            } else {
                i + 1
            };
            if offset != 0 {
                tmp_info.push((mode_num, offset));
            }
            i += 1;
        }
        Ok(tmp_info)
    }

    /// Reads the table of modes at the cursor, and all that lies below it.
    pub fn create_from_file(fp: &mut FileBlob, schema: u16, font_family: u8) -> (r: Result<
        ModeIndex,
        Fatal,
    >)
        requires
            old(fp).wf(),
        ensures
            parses(
                *old(fp),
                *final(fp),
                r,
                read_modes(old(fp).handle().bytes(), old(fp).cursor(), schema, font_family),
            ),
            r is Ok ==> r->Ok_0.wf() && r->Ok_0.within(old(fp).handle()),
    {
        let num_modes = fp.read_byte(BlobRegions::Modes)?;
        let idx_entry_len = fp.read_byte(BlobRegions::Modes)?;
        Self::validate_schema(schema, idx_entry_len, num_modes)?;
        let tmp_info = match schema {
            2 => Self::read_v2_entries(fp, num_modes)?,
            _ => Self::read_v3_entries(fp, num_modes)?,
        };
        let mut modes: Table<ModeIndexEntry> = Table::new();
        let ghost blob = old(fp).handle();
        let ghost bytes = blob.bytes();
        let ghost whole = read_modes(bytes, old(fp).cursor(), schema, font_family);
        assert(modes@.map_values(|e: ModeIndexEntry| e@) =~= Map::<int, ModeModel>::empty());
        let mut i: usize = 0;
        while i < tmp_info.len()
            invariant
                i <= tmp_info@.len(),
                schema == 2 || schema == 3 || schema == 4,
                fp.follows(*old(fp)),
                blob == old(fp).handle(),
                bytes == blob.bytes(),
                whole == read_modes(bytes, old(fp).cursor(), schema, font_family),
                modes.wf(),
                entries_wf(modes@),
                entries_within(modes@, blob),
                whole == build(
                    bytes,
                    fp.cursor(),
                    schema,
                    font_family,
                    tmp_info@,
                    i as int,
                    modes@.map_values(|e: ModeIndexEntry| e@),
                ),
            decreases tmp_info@.len() - i,
        {
            let (mode_num, offset) = tmp_info[i];
            fp.set_pos(offset);
            let menu_index = match schema {
                2 => MenuIndex::from_v2(fp, font_family)?,
                3 => MenuIndex::from_v3(fp, font_family)?,
                _ => MenuIndex::from_v4(fp)?,
            };
            let entry = ModeIndexEntry::new(mode_num, menu_index);
            let ghost before = modes@;
            let ghost model = entry@;
            assert(before.map_values(|e: ModeIndexEntry| e@).dom() =~= before.dom());
            if !modes.insert(mode_num as i64, entry) {
                return Err(Fatal::DuplicateKey);
            }
            assert(modes@.map_values(|e: ModeIndexEntry| e@) =~= before.map_values(
                |e: ModeIndexEntry| e@,
            ).insert(mode_num as int, model));
            i += 1;
        }
        Ok(ModeIndex { modes })
    }

    /// The number of modes.
    pub fn get_num_modes(&self) -> (n: usize)
        requires
            self.wf(),
        ensures
            self@.dom().finite(),
            n == self@.dom().len(),
    {
        assert(self@.dom() =~= self.modes@.dom());
        self.modes.len()
    }

    /// The entry of a mode, if the table has it.
    pub fn get(&self, mode: u8) -> (r: Option<&ModeIndexEntry>)
        requires
            self.wf(),
        ensures
            match r {
                Some(entry) => {
                    &&& self@.contains_key(mode as int)
                    &&& self@[mode as int] == entry@
                    &&& entry.wf()
                    &&& forall|blob: RawBlob| #[trigger] self.within(blob) ==> entry.within(blob)
                },
                None => !self@.contains_key(mode as int),
            },
    {
        assert(self@.dom() =~= self.modes@.dom());
        self.modes.get(mode as i64)
    }

    /// Puts the modes into words, by falling key, each with all that
    /// lies below it, and adds the lines to `lines`.
    #[verifier::rlimit(80)]
    pub(crate) fn dump(
        &self,
        lines: &mut Vec<String>,
        stats: &mut Stats,
        Ghost(blob): Ghost<RawBlob>,
    ) -> (r: Result<(), DumpError>)
        requires
            self.wf(),
            self.within(blob),
            old(stats).regions().len() == blob.bytes().len(),
        ensures
            final(stats).regions().len() == blob.bytes().len(),
            dumps(
                r,
                final(lines)@,
                *final(stats),
                dump_modes(
                    blob.bytes(),
                    blob.maps(),
                    listing(self@),
                    0,
                    (Dumped {
                        failure: None,
                        lines: line_texts(old(lines)@),
                        regions: old(stats).regions(),
                        strings: old(stats).strings(),
                    }),
                ),
            ),
    {
        let n = self.modes.len();
        let ghost items = listing(self@);
        let ghost start = Dumped {
            failure: None,
            lines: line_texts(lines@),
            regions: stats.regions(),
            strings: stats.strings(),
        };
        proof {
            lemma_backwards(self.modes.keys(), self.modes.values(), |e: ModeIndexEntry| e@);
        }
        let mut i: usize = n;
        while i > 0
            invariant
                self.wf(),
                self.within(blob),
                n == self.modes.keys().len(),
                i <= n,
                items == listing(self@),
                start == (Dumped {
                    failure: None,
                    lines: line_texts(old(lines)@),
                    regions: old(stats).regions(),
                    strings: old(stats).strings(),
                }),
                items == backwards(
                    self.modes.keys(),
                    self.modes.values(),
                    |e: ModeIndexEntry| e@,
                ),
                stats.regions().len() == blob.bytes().len(),
                dump_modes(blob.bytes(), blob.maps(), items, 0, start) == dump_modes(
                    blob.bytes(),
                    blob.maps(),
                    items,
                    n - i,
                    (Dumped {
                        failure: None,
                        lines: line_texts(lines@),
                        regions: stats.regions(),
                        strings: stats.strings(),
                    }),
                ),
            decreases i,
        {
            i -= 1;
            let entry = self.modes.value_at(i);
            let ghost before = Dumped {
                failure: None,
                lines: line_texts(lines@),
                regions: stats.regions(),
                strings: stats.strings(),
            };
            let ghost item = items[n - 1 - i];
            let ghost line = dump_mode_line(item.1, before);
            let ghost below = dump_menus(blob.bytes(), blob.maps(), listing(item.1.menus), 0, line);
            proof {
                assert(dump_modes(blob.bytes(), blob.maps(), items, n - 1 - i, before)
                    == dump_modes(blob.bytes(), blob.maps(), items, n - i, below));
                assert(below.failure is Some ==> dump_modes(
                    blob.bytes(),
                    blob.maps(),
                    items,
                    n - i,
                    below,
                ) == below);
            }
            proof {
                assert(line.failure is Some ==> dump_menus(
                    blob.bytes(),
                    blob.maps(),
                    listing(item.1.menus),
                    0,
                    line,
                ) == line);
            }
            entry.dump_line(lines)?;
            let r = entry.menu_index.dump(lines, stats, Ghost(blob));
            if let Err(e) = r {
                return Err(e);
            }
        }
        Ok(())
    }

    /// The entries by falling number, for going through them.
    pub fn into_iter(&self) -> (iter: ModeIndexIterator)
        requires
            self.wf(),
        ensures
            iter.wf(),
            lists_descending(iter@, self@),
            forall|blob: RawBlob| #[trigger] self.within(blob) ==> iter.within(blob),
    {
        let mut items: Vec<(u8, ModeIndexEntry)> = Vec::new();
        let n = self.modes.len();
        let mut i: usize = 0;
        while i < n
            invariant
                self.wf(),
                n == self.modes.keys().len(),
                i <= n,
                items@.len() == i,
                forall|j: int|
                    0 <= j < i ==> #[trigger] items@[j] == (
                        self.modes.keys()[j] as u8,
                        self.modes.values()[j],
                    ) && self.modes.keys()[j] == items@[j].0 && items@[j].1.wf(),
            decreases n - i,
        {
            let entry = self.modes.value_at(i).clone();
            items.push((entry.mode_num, entry));
            i += 1;
        }
        let iter = ModeIndexIterator { items };
        proof {
            assert forall|blob: RawBlob| #[trigger] self.within(blob) implies iter.within(
                blob,
            ) by {
                assert forall|j: int| 0 <= j < iter.items@.len() implies (
                #[trigger] iter.items@[j]).1.within(blob) by {
                    lemma_map_at(self.modes.keys(), self.modes.values(), j);
                }
            }
            lemma_descending(
                self.modes.keys(),
                self.modes.values(),
                |e: ModeIndexEntry| e@,
                iter@,
            );
        }
        iter
    }
}

/// The entries of a table of modes that are still to come, by falling number.
pub struct ModeIndexIterator {
    items: Vec<(u8, ModeIndexEntry)>,
}

impl View for ModeIndexIterator {
    type V = Seq<(int, ModeModel)>;

    closed spec fn view(&self) -> Seq<(int, ModeModel)> {
        Seq::new(
            self.items@.len(),
            |i: int|
                (
                    self.items@[self.items@.len() - 1 - i].0 as int,
                    self.items@[self.items@.len() - 1 - i].1@,
                ),
        )
    }
}

impl ModeIndexIterator {
    /// Every entry that is still to come is well formed.
    pub closed spec fn wf(&self) -> bool {
        forall|i: int| 0 <= i < self.items@.len() ==> (#[trigger] self.items@[i]).1.wf()
    }

    /// Every entry that is still to come resolves its strings by `blob`.
    pub closed spec fn within(&self, blob: RawBlob) -> bool {
        forall|i: int| 0 <= i < self.items@.len() ==> (#[trigger] self.items@[i]).1.within(blob)
    }

    /// The next entry with its number, if one is left.
    pub fn next(&mut self) -> (r: Option<(u8, ModeIndexEntry)>)
        ensures
            old(self).wf() ==> final(self).wf(),
            forall|blob: RawBlob| #[trigger] old(self).within(blob) ==> final(self).within(blob),
            match r {
                Some((number, entry)) => {
                    &&& old(self)@.len() > 0
                    &&& old(self)@[0] == (number as int, entry@)
                    &&& final(self)@ == old(self)@.skip(1)
                    &&& old(self).wf() ==> entry.wf()
                    &&& forall|blob: RawBlob| #[trigger]
                        old(self).within(blob) ==> entry.within(blob)
                },
                None => old(self)@.len() == 0 && final(self)@ == old(self)@,
            },
    {
        let r = self.items.pop();
        proof {
            if r is Some {
                assert(self@ =~= old(self)@.skip(1));
                assert(old(self).items@[old(self).items@.len() - 1] == r->Some_0);
            }
        }
        r
    }
}

} // verus!
