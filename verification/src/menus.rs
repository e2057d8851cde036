use crate::blob::{
    describe, dump_entry, dumps, lemma_take_free, lemma_take_in_parts, line_texts, parses,
    region_free, tagged, take, take_byte, take_le2, worded, BlobRegions, Cursor, DumpError,
    Dumped, FileBlob, RawBlob, Stats, StringError,
};
use crate::conversion::{
    key_arrow, key_prefix, le_bytes, lemma_le3_at, lemma_le_bytes_len, little_endian_3_bytes,
    spec_le3,
};
use crate::characters::CharacterMapsModel;
use crate::error::Fatal;
use crate::parameters::{
    check_schema, dump_params, menu_caption, menu_models, read_v2_records, read_v3, read_v4,
    ParamModel, ParameterIndex,
};
use crate::shared::share;
use crate::table::{
    backwards, collect, lemma_backwards, lemma_count, lemma_descending, lemma_map_at, listing,
    lists_descending, Table,
};
use std::rc::Rc;
use vstd::prelude::*;
use vstd::slice::slice_subrange;
use vstd::string::StringExecFns;
use vstd::std_specs::cmp::PartialEqSpecImpl;

verus! {

/// One menu of a mode: its number, where its caption and its tooltip stand in
/// the file, and its parameters.
pub struct MenuIndexEntry {
    menu_num: u8,
    caption_off: u32,
    tooltip_off: u32,
    param_index: Rc<ParameterIndex>,
    blob: RawBlob,
}

/// What a menu holds: its number, the offsets of its caption and its tooltip,
/// and its parameters by number.
pub struct MenuModel {
    pub menu_num: u8,
    pub caption_off: u32,
    pub tooltip_off: u32,
    pub params: Map<int, ParamModel>,
}

impl View for MenuIndexEntry {
    type V = MenuModel;

    closed spec fn view(&self) -> MenuModel {
        MenuModel {
            menu_num: self.menu_num,
            caption_off: self.caption_off,
            tooltip_off: self.tooltip_off,
            params: (*self.param_index)@,
        }
    }
}

impl Clone for MenuIndexEntry {
    fn clone(&self) -> (r: MenuIndexEntry)
        ensures
            r == *self,
    {
        MenuIndexEntry {
            menu_num: self.menu_num,
            caption_off: self.caption_off,
            tooltip_off: self.tooltip_off,
            param_index: share(&self.param_index),
            blob: self.blob.clone(),
        }
    }
}

impl PartialEq for MenuIndexEntry {
    fn eq(&self, other: &Self) -> (r: bool) {
        self.caption_off == other.caption_off
    }
}

impl PartialEqSpecImpl for MenuIndexEntry {
    open spec fn obeys_eq_spec() -> bool {
        true
    }

    open spec fn eq_spec(&self, other: &Self) -> bool {
        self@.caption_off == other@.caption_off
    }
}

/// A schema-3 record: the offset of the menu's parameters, in three bytes.
pub open spec fn decode_v3(buf: Seq<u8>) -> u32 {
    spec_le3(buf) as u32
}

/// The bytes that hold a schema-3 record.
pub open spec fn encode_v3(offset: u32) -> Seq<u8> {
    le_bytes(offset as nat, 3)
}

/// A schema-4 record: the offsets of the menu's caption, of its tooltip and
/// of its parameters, in three bytes each.
pub open spec fn decode_v4(buf: Seq<u8>) -> (u32, u32, u32) {
    (spec_le3(buf) as u32, spec_le3(buf.skip(3)) as u32, spec_le3(buf.skip(6)) as u32)
}

/// The bytes that hold a schema-4 record.
pub open spec fn encode_v4(rec: (u32, u32, u32)) -> Seq<u8> {
    le_bytes(rec.0 as nat, 3) + le_bytes(rec.1 as nat, 3) + le_bytes(rec.2 as nat, 3)
}

/// What was written as a schema-3 record is read back as it was, for every
/// offset that three bytes can hold.
pub proof fn lemma_v3_roundtrip(offset: u32)
    requires
        offset < 0x100_0000,
    ensures
        encode_v3(offset).len() == 3,
        decode_v3(encode_v3(offset)) == offset,
{
    let buf = encode_v3(offset);
    lemma_le_bytes_len(offset as nat, 3);
    assert(buf.subrange(0, 3) =~= buf);
    assert(buf.skip(0) =~= buf);
    lemma_le3_at(buf, 0, offset as nat);
}

/// What was written as a schema-4 record is read back as it was, for every
/// record that the bytes can hold.
pub proof fn lemma_v4_roundtrip(rec: (u32, u32, u32))
    requires
        rec.0 < 0x100_0000,
        rec.1 < 0x100_0000,
        rec.2 < 0x100_0000,
    ensures
        encode_v4(rec).len() == 9,
        decode_v4(encode_v4(rec)) == rec,
{
    let buf = encode_v4(rec);
    lemma_le_bytes_len(rec.0 as nat, 3);
    lemma_le_bytes_len(rec.1 as nat, 3);
    lemma_le_bytes_len(rec.2 as nat, 3);
    assert(buf.subrange(0, 3) =~= le_bytes(rec.0 as nat, 3));
    assert(buf.skip(0) =~= buf);
    lemma_le3_at(buf, 0, rec.0 as nat);
    assert(buf.subrange(3, 6) =~= le_bytes(rec.1 as nat, 3));
    lemma_le3_at(buf, 3, rec.1 as nat);
    assert(buf.subrange(6, 9) =~= le_bytes(rec.2 as nat, 3));
    lemma_le3_at(buf, 6, rec.2 as nat);
}

/// The record width that a table of menus must declare: 6 in schema 2, 3 in
/// schema 3, 9 in schema 4, else `EntrySize`. Another schema is `InvalidFormat`.
pub open spec fn check_menu_schema(schema: u16, idx_entry_len: u8) -> Result<(), Fatal> {
    if schema != 2 && schema != 3 && schema != 4 {
        Err(Fatal::InvalidFormat)
    } else if idx_entry_len != (if schema == 2 {
        6
    } else if schema == 3 {
        3
    } else {
        9int
    }) {
        Err(Fatal::EntrySize)
    } else {
        Ok(())
    }
}

/// The menus that a schema-2 file implies: one for each menu that a
/// parameter names. Entry 255 of its parameters is no parameter: it gives the
/// menu its caption and its tooltip.
pub open spec fn synthesize(menus: Map<int, Map<int, ParamModel>>) -> Map<int, MenuModel> {
    Map::new(
        |k: int| menus.contains_key(k),
        |k: int|
            MenuModel {
                menu_num: k as u8,
                caption_off: menu_caption(menus[k]).0,
                tooltip_off: menu_caption(menus[k]).1,
                params: menus[k].remove(255),
            },
    )
}

/// Reading the parameters of a schema-2 file at the cursor, as menus.
pub open spec fn read_v2(bytes: Seq<u8>, cur: Cursor, root_font_family: u8) -> Result<
    (Map<int, MenuModel>, Cursor),
    Fatal,
> {
    match take_le2(bytes, cur, BlobRegions::Parameters) {
        Err(e) => Err(e),
        Ok((num_entries, c1)) => match take_le2(bytes, c1, BlobRegions::Parameters) {
            Err(e) => Err(e),
            Ok((max_str_len, c2)) => match take_byte(bytes, c2, BlobRegions::Parameters) {
                Err(e) => Err(e),
                Ok((font_family, c3)) => match take_byte(bytes, c3, BlobRegions::Parameters) {
                    Err(e) => Err(e),
                    Ok((idx_entry_len, c4)) => if root_font_family != font_family {
                        Err(Fatal::FontFamily)
                    } else {
                        match check_schema(2, idx_entry_len, max_str_len) {
                            Err(e) => Err(e),
                            Ok(()) => match read_v2_records(
                                bytes,
                                c4,
                                num_entries as nat,
                                Map::empty(),
                            ) {
                                Err(e) => Err(e),
                                Ok((menus, next)) => Ok((synthesize(menus), next)),
                            },
                        }
                    },
                },
            },
        },
    }
}

/// Reading `count` schema-3 records at the cursor, the first being that of
/// menu `menu`: the menus that have parameters, each with the offset of its
/// parameters, added to `records`. Offset 0 stands for a menu that is not there.
pub open spec fn read_v3_records(
    bytes: Seq<u8>,
    cur: Cursor,
    count: nat,
    menu: int,
    records: Seq<(u8, u32)>,
) -> Result<(Seq<(u8, u32)>, Cursor), Fatal>
    decreases count,
{
    if count == 0 {
        Ok((records, cur))
    } else {
        match take(bytes, cur, 3, BlobRegions::Menus) {
            Err(e) => Err(e),
            Ok((buf, next)) => {
                let offset = decode_v3(buf);
                read_v3_records(
                    bytes,
                    next,
                    (count - 1) as nat,
                    menu + 1,
                    if offset > 0 {
                        records.push((menu as u8, offset))
                    } else {
                        records
                    },
                )
            },
        }
    }
}

/// Making the menus of the schema-3 records from place `i` on and putting
/// them into `menus`: the parameters of each are read at their offset.
pub open spec fn build_v3(
    bytes: Seq<u8>,
    cur: Cursor,
    font_family: u8,
    records: Seq<(u8, u32)>,
    i: int,
    menus: Map<int, MenuModel>,
) -> Result<(Map<int, MenuModel>, Cursor), Fatal>
    decreases records.len() - i,
{
    if i < 0 || i >= records.len() {
        Ok((menus, cur))
    } else {
        let rec = records[i];
        match read_v3(bytes, Cursor { pos: rec.1 as int, ..cur }, font_family) {
            Err(e) => Err(e),
            Ok(((params, caption_off, tooltip_off), next)) => if menus.contains_key(rec.0 as int) {
                Err(Fatal::DuplicateKey)
            } else {
                build_v3(
                    bytes,
                    next,
                    font_family,
                    records,
                    i + 1,
                    menus.insert(
                        rec.0 as int,
                        MenuModel { menu_num: rec.0, caption_off, tooltip_off, params },
                    ),
                )
            },
        }
    }
}

/// Reading a schema-3 table of menus at the cursor: the number of menus
/// and the record width in one byte each, one record for each menu, and then
/// the parameters of the menus that are there.
pub open spec fn read_menus_v3(bytes: Seq<u8>, cur: Cursor, font_family: u8) -> Result<
    (Map<int, MenuModel>, Cursor),
    Fatal,
> {
    match take_byte(bytes, cur, BlobRegions::Menus) {
        Err(e) => Err(e),
        Ok((num_menus, c1)) => match take_byte(bytes, c1, BlobRegions::Menus) {
            Err(e) => Err(e),
            Ok((idx_entry_len, c2)) => match check_menu_schema(3, idx_entry_len) {
                Err(e) => Err(e),
                Ok(()) => match read_v3_records(bytes, c2, num_menus as nat, 0, Seq::empty()) {
                    Err(e) => Err(e),
                    Ok((records, c3)) => build_v3(bytes, c3, font_family, records, 0, Map::empty()),
                },
            },
        },
    }
}

/// The bytes of a schema-3 table of menus with one slot, that of menu 0:
/// the header of two bytes, and the offset of the menu's parameters.
pub open spec fn one_menu_table(params_off: u32) -> Seq<u8> {
    seq![1u8, 3u8] + encode_v3(params_off)
}

/// A schema-3 table with one menu that stands written at the cursor is read
/// as menu 0, with the parameters that are read at its offset and the caption
/// that they give it. The bytes of the table must not have been read as
/// something else.
#[verifier::rlimit(80)]
pub proof fn lemma_one_menu(
    bytes: Seq<u8>,
    cur: Cursor,
    font_family: u8,
    params_off: u32,
    params: Map<int, ParamModel>,
    caption_off: u32,
    tooltip_off: u32,
    end: Cursor,
)
    requires
        0 <= cur.pos,
        cur.regions.len() == bytes.len(),
        cur.pos + 5 <= bytes.len(),
        bytes.subrange(cur.pos, cur.pos + 5) == one_menu_table(params_off),
        0 < params_off < 0x100_0000,
        region_free(cur.regions, cur.pos, cur.pos + 5, BlobRegions::Menus),
        read_v3(
            bytes,
            Cursor {
                pos: params_off as int,
                regions: tagged(cur.regions, cur.pos, cur.pos + 5, BlobRegions::Menus),
            },
            font_family,
        ) == Ok::<((Map<int, ParamModel>, u32, u32), Cursor), Fatal>(
            ((params, caption_off, tooltip_off), end),
        ),
    ensures
        read_menus_v3(bytes, cur, font_family) == Ok::<(Map<int, MenuModel>, Cursor), Fatal>(
            (
                Map::<int, MenuModel>::empty().insert(
                    0,
                    MenuModel { menu_num: 0, caption_off, tooltip_off, params },
                ),
                end,
            ),
        ),
{
    let tag = BlobRegions::Menus;
    lemma_v3_roundtrip(params_off);
    lemma_take_free(bytes, cur, 5, tag);
    let last = take(bytes, cur, 5, tag)->Ok_0.1;
    lemma_take_in_parts(bytes, cur, 2, 3, tag);
    let c2 = take(bytes, cur, 2, tag)->Ok_0.1;
    assert(take(bytes, c2, 3, tag)->Ok_0.0 =~= encode_v3(params_off));
    lemma_take_in_parts(bytes, cur, 1, 1, tag);
    let c1 = take(bytes, cur, 1, tag)->Ok_0.1;
    assert(take(bytes, cur, 1, tag)->Ok_0.0 =~= seq![1u8]);
    assert(take(bytes, c1, 1, tag)->Ok_0.0 =~= seq![3u8]);
    assert(take_byte(bytes, cur, tag) == Ok::<(u8, Cursor), Fatal>((1u8, c1)));
    assert(take_byte(bytes, c1, tag) == Ok::<(u8, Cursor), Fatal>((3u8, c2)));
    let records = Seq::<(u8, u32)>::empty().push((0u8, params_off));
    assert(read_v3_records(bytes, last, 0, 1, records) == Ok::<(Seq<(u8, u32)>, Cursor), Fatal>(
        (records, last),
    ));
    assert(read_v3_records(bytes, c2, 1, 0, Seq::empty()) == Ok::<
        (Seq<(u8, u32)>, Cursor),
        Fatal,
    >((records, last)));
    let menus = Map::<int, MenuModel>::empty().insert(
        0,
        MenuModel { menu_num: 0, caption_off, tooltip_off, params },
    );
    assert(build_v3(bytes, end, font_family, records, 1, menus) == Ok::<
        (Map<int, MenuModel>, Cursor),
        Fatal,
    >((menus, end)));
    assert(Cursor { pos: records[0].1 as int, ..last } == Cursor {
        pos: params_off as int,
        regions: tagged(cur.regions, cur.pos, cur.pos + 5, tag),
    });
    assert(build_v3(bytes, last, font_family, records, 0, Map::empty()) == Ok::<
        (Map<int, MenuModel>, Cursor),
        Fatal,
    >((menus, end)));
}

/// Reading `count` schema-4 records at the cursor, the first being that of
/// menu `menu`: the menus that have a caption, each with its three offsets,
/// added to `records`.
pub open spec fn read_v4_records(
    bytes: Seq<u8>,
    cur: Cursor,
    count: nat,
    menu: int,
    records: Seq<(u8, u32, u32, u32)>,
) -> Result<(Seq<(u8, u32, u32, u32)>, Cursor), Fatal>
    decreases count,
{
    if count == 0 {
        Ok((records, cur))
    } else {
        match take(bytes, cur, 9, BlobRegions::Menus) {
            Err(e) => Err(e),
            Ok((buf, next)) => {
                let rec = decode_v4(buf);
                read_v4_records(
                    bytes,
                    next,
                    (count - 1) as nat,
                    menu + 1,
                    if rec.0 > 0 {
                        records.push((menu as u8, rec.0, rec.1, rec.2))
                    } else {
                        records
                    },
                )
            },
        }
    }
}

/// Making the menus of the schema-4 records from place `i` on and putting
/// them into `menus`: the parameters of each are read at their offset.
pub open spec fn build_v4(
    bytes: Seq<u8>,
    cur: Cursor,
    records: Seq<(u8, u32, u32, u32)>,
    i: int,
    menus: Map<int, MenuModel>,
) -> Result<(Map<int, MenuModel>, Cursor), Fatal>
    decreases records.len() - i,
{
    if i < 0 || i >= records.len() {
        Ok((menus, cur))
    } else {
        let rec = records[i];
        match read_v4(bytes, Cursor { pos: rec.3 as int, ..cur }) {
            Err(e) => Err(e),
            Ok((params, next)) => if menus.contains_key(rec.0 as int) {
                Err(Fatal::DuplicateKey)
            } else {
                build_v4(
                    bytes,
                    next,
                    records,
                    i + 1,
                    menus.insert(
                        rec.0 as int,
                        MenuModel {
                            menu_num: rec.0,
                            caption_off: rec.1,
                            tooltip_off: rec.2,
                            params,
                        },
                    ),
                )
            },
        }
    }
}

/// Reading a schema-4 table of menus at the cursor.
pub open spec fn read_menus_v4(bytes: Seq<u8>, cur: Cursor) -> Result<
    (Map<int, MenuModel>, Cursor),
    Fatal,
> {
    match take_byte(bytes, cur, BlobRegions::Menus) {
        Err(e) => Err(e),
        Ok((num_menus, c1)) => match take_byte(bytes, c1, BlobRegions::Menus) {
            Err(e) => Err(e),
            Ok((idx_entry_len, c2)) => match check_menu_schema(4, idx_entry_len) {
                Err(e) => Err(e),
                Ok(()) => match read_v4_records(bytes, c2, num_menus as nat, 0, Seq::empty()) {
                    Err(e) => Err(e),
                    Ok((records, c3)) => build_v4(bytes, c3, records, 0, Map::empty()),
                },
            },
        },
    }
}

impl MenuIndexEntry {
    /// The table of parameters is well formed.
    pub closed spec fn wf(&self) -> bool {
        self.param_index.wf()
    }

    /// The handle by which the entry resolves its strings.
    pub closed spec fn blob(&self) -> RawBlob {
        self.blob
    }

    /// The entry and its parameters resolve their strings by `blob`.
    pub closed spec fn within(&self, blob: RawBlob) -> bool {
        self.blob == blob && self.param_index.within(blob)
    }

    /// An entry within a blob resolves its own strings by it.
    pub proof fn lemma_within(&self, blob: RawBlob)
        requires
            self.within(blob),
        ensures
            self.blob() == blob,
    {
    }

    /// The entry of a menu with the given parameters, which resolves its strings
    /// by the file of `fp`.
    pub fn new(
        menu_num: u8,
        caption_off: u32,
        tooltip_off: u32,
        param_index: ParameterIndex,
        fp: &mut FileBlob,
    ) -> (entry: MenuIndexEntry)
        ensures
            *final(fp) == *old(fp),
            param_index.wf() ==> entry.wf(),
            param_index.within(old(fp).handle()) ==> entry.within(old(fp).handle()),
            entry@ == (MenuModel { menu_num, caption_off, tooltip_off, params: param_index@ }),
    {
        MenuIndexEntry {
            menu_num,
            caption_off,
            tooltip_off,
            param_index: Rc::new(param_index),
            blob: fp.freeze(),
        }
    }

    /// The menu in words: its caption and, where it has one, its tooltip,
    /// each of at most 32 bytes.
    pub fn to_string(&self, stats: &mut Stats) -> (r: Result<String, StringError>)
        requires
            old(stats).regions().len() == self.blob().bytes().len(),
        ensures
            final(stats).regions().len() == self.blob().bytes().len(),
            ({
                let expected = describe(
                    self.blob().bytes(),
                    self.blob().maps(),
                    old(stats).regions(),
                    old(stats).strings(),
                    self@.caption_off,
                    self@.tooltip_off,
                    32,
                );
                &&& worded(r) == expected.result
                &&& final(stats).regions() == expected.regions
                &&& final(stats).strings() == expected.strings
            }),
    {
        self.blob.get_caption(self.caption_off, self.tooltip_off, 32, stats)
    }

    /// The parameters of the menu.
    pub fn get_params(&self) -> (params: &ParameterIndex)
        ensures
            params@ == self@.params,
            self.wf() ==> params.wf(),
            forall|blob: RawBlob| #[trigger] self.within(blob) ==> params.within(blob),
    {
        &self.param_index
    }

    /// The number of the menu.
    pub fn get_menu_num(&self) -> (number: u8)
        ensures
            number == self@.menu_num,
    {
        self.menu_num
    }

    /// The offset of the caption.
    pub fn get_caption_off(&self) -> (off: u32)
        ensures
            off == self@.caption_off,
    {
        self.caption_off
    }

    /// The offset of the tooltip, 0 where there is none.
    pub fn get_tooltip_off(&self) -> (off: u32)
        ensures
            off == self@.tooltip_off,
    {
        self.tooltip_off
    }
}

/// What stands before the words of a menu in a list.
pub open spec fn menu_prefix(number: nat) -> Seq<char> {
    "- - M."@ + key_prefix(number)
}

/// Putting the menus from place `i` of the list on into words: one line for
/// each menu, and behind it the lines of its parameters. The first failure
/// ends it.
pub open spec fn dump_menus(
    bytes: Seq<u8>,
    maps: CharacterMapsModel,
    menus: Seq<(int, MenuModel)>,
    i: int,
    so_far: Dumped,
) -> Dumped
    decreases menus.len() - i,
{
    if i < 0 || i >= menus.len() || so_far.failure is Some {
        so_far
    } else {
        dump_menus(
            bytes,
            maps,
            menus,
            i + 1,
            dump_params(
                bytes,
                maps,
                listing(menus[i].1.params),
                0,
                dump_entry(
                    bytes,
                    maps,
                    menu_prefix(menus[i].0 as nat),
                    menus[i].1.caption_off,
                    menus[i].1.tooltip_off,
                    32,
                    so_far,
                ),
            ),
        )
    }
}

/// The menus of one mode, by number.
pub struct MenuIndex {
    menus: Table<MenuIndexEntry>,
}

impl View for MenuIndex {
    type V = Map<int, MenuModel>;

    closed spec fn view(&self) -> Map<int, MenuModel> {
        self.menus@.map_values(|e: MenuIndexEntry| e@)
    }
}

/// The numbers of the entries, in their order.
pub open spec fn menu_numbers(entries: Seq<MenuIndexEntry>) -> Seq<int> {
    entries.map_values(|e: MenuIndexEntry| e@.menu_num as int)
}

/// The entries as what they hold, in their order.
pub open spec fn menu_entries(entries: Seq<MenuIndexEntry>) -> Seq<MenuModel> {
    entries.map_values(|e: MenuIndexEntry| e@)
}

/// Every entry of the table stands under its own number and is well formed.
spec fn entries_wf(menus: Map<int, MenuIndexEntry>) -> bool {
    forall|k: int| #[trigger] menus.contains_key(k) ==> menus[k].menu_num == k && menus[k].wf()
}

/// Every entry of the table resolves its strings by `blob`.
spec fn entries_within(menus: Map<int, MenuIndexEntry>, blob: RawBlob) -> bool {
    forall|k: int| #[trigger] menus.contains_key(k) ==> menus[k].within(blob)
}

impl MenuIndex {
    /// No number occurs twice, every entry stands under its own number, and
    /// the tables of parameters are well formed.
    pub closed spec fn wf(&self) -> bool {
        &&& self.menus.wf()
        &&& entries_wf(self.menus@)
    }

    /// Every entry, with its parameters, resolves its strings by `blob`.
    pub closed spec fn within(&self, blob: RawBlob) -> bool {
        entries_within(self.menus@, blob)
    }

    /// Every entry stands under its own number, and the entries are finitely
    /// many.
    pub proof fn lemma_keys(&self)
        requires
            self.wf(),
        ensures
            self@.dom().finite(),
            forall|k: int| #[trigger] self@.contains_key(k) ==> self@[k].menu_num == k,
    {
        lemma_count(self.menus.keys(), self.menus.values());
        assert(self@.dom() =~= self.menus@.dom());
    }

    /// The table of the given entries. `DuplicateKey` where two of them have
    /// the same number.
    pub fn new(entries: Vec<MenuIndexEntry>) -> (r: Result<MenuIndex, Fatal>)
        requires
            forall|i: int| 0 <= i < entries@.len() ==> (#[trigger] entries@[i]).wf(),
        ensures
            match collect(menu_numbers(entries@), menu_entries(entries@), 0, Map::empty()) {
                Some(menus) => r is Ok && r->Ok_0.wf() && r->Ok_0@ == menus,
                None => r == Err::<MenuIndex, Fatal>(Fatal::DuplicateKey),
            },
            forall|blob: RawBlob|
                r is Ok && (forall|i: int|
                    0 <= i < entries@.len() ==> (#[trigger] entries@[i]).within(blob))
                    ==> #[trigger] r->Ok_0.within(blob),
    {
        let mut menus: Table<MenuIndexEntry> = Table::new();
        let mut i: usize = 0;
        let ghost ids = menu_numbers(entries@);
        let ghost models = menu_entries(entries@);
        assert(menus@.map_values(|e: MenuIndexEntry| e@) =~= Map::<int, MenuModel>::empty());
        while i < entries.len()
            invariant
                i <= entries@.len(),
                ids == menu_numbers(entries@),
                models == menu_entries(entries@),
                forall|i: int| 0 <= i < entries@.len() ==> (#[trigger] entries@[i]).wf(),
                menus.wf(),
                entries_wf(menus@),
                forall|k: int| #[trigger]
                    menus@.contains_key(k) ==> exists|j: int|
                        0 <= j < i && entries@[j] == menus@[k],
                collect(ids, models, 0, Map::empty()) == collect(
                    ids,
                    models,
                    i as int,
                    menus@.map_values(|e: MenuIndexEntry| e@),
                ),
            decreases entries@.len() - i,
        {
            let entry = entries[i].clone();
            let ghost before = menus@;
            let added = menus.insert(entry.menu_num as i64, entry);
            proof {
                assert(before.map_values(|e: MenuIndexEntry| e@).dom() =~= before.dom());
            }
            if !added {
                return Err(Fatal::DuplicateKey);
            }
            assert(menus@.map_values(|e: MenuIndexEntry| e@) =~= before.map_values(
                |e: MenuIndexEntry| e@,
            ).insert(ids[i as int], models[i as int]));
            i += 1;
        }
        Ok(MenuIndex { menus })
    }

    fn validate_schema(schema: u16, idx_entry_len: u8) -> (r: Result<(), Fatal>)
        ensures
            r == check_menu_schema(schema, idx_entry_len),
    {
        match schema {
            2 => {
                if idx_entry_len != 6 {
                    return Err(Fatal::EntrySize);
                }
            },
            3 => {
                if idx_entry_len != 3 {
                    return Err(Fatal::EntrySize);
                }
            },
            4 => {
                if idx_entry_len != 9 {
                    return Err(Fatal::EntrySize);
                }
            },
            _ => {
                return Err(Fatal::InvalidFormat);
            },
        }
        Ok(())
    }

    /// Reads the parameters of a schema-2 file at the cursor, as menus. Such
    /// a file has no table of menus: there is one menu for each menu that a
    /// parameter names.
    pub fn from_v2(fp: &mut FileBlob, root_font_family: u8) -> (r: Result<MenuIndex, Fatal>)
        requires
            old(fp).wf(),
        ensures
            parses(
                *old(fp),
                *final(fp),
                r,
                read_v2(old(fp).handle().bytes(), old(fp).cursor(), root_font_family),
            ),
            r is Ok ==> r->Ok_0.wf() && r->Ok_0.within(old(fp).handle()),
    {
        let num_entries = fp.read_le_2bytes(BlobRegions::Parameters)?;
        let max_str_len = fp.read_le_2bytes(BlobRegions::Parameters)?;
        let font_family = fp.read_byte(BlobRegions::Parameters)?;
        let idx_entry_len = fp.read_byte(BlobRegions::Parameters)?;
        if root_font_family != font_family {
            return Err(Fatal::FontFamily);
        }
        ParameterIndex::validate_schema(2, idx_entry_len, max_str_len)?;
        let mut tmp_menus = ParameterIndex::read_v2_entries(fp, num_entries)?;
        let ghost blob = old(fp).handle();
        let ghost groups = menu_models(tmp_menus@);
        let ghost end = fp.cursor();
        let mut menus: Table<MenuIndexEntry> = Table::new();
        assert(groups.dom() =~= tmp_menus@.dom());
        while tmp_menus.len() > 0
            invariant
                fp.follows(*old(fp)),
                fp.cursor() == end,
                blob == old(fp).handle(),
                tmp_menus.wf(),
                menus.wf(),
                entries_wf(menus@),
                entries_within(menus@, blob),
                forall|k: int| #[trigger]
                    tmp_menus@.contains_key(k) ==> 0 <= k <= 255 && tmp_menus@[k].wf()
                        && tmp_menus@[k].within(blob) && tmp_menus@[k]@ == groups[k],
                forall|k: int| #[trigger]
                    groups.contains_key(k) <==> (tmp_menus@.contains_key(k)
                        || menus@.contains_key(k)),
                forall|k: int| !(tmp_menus@.contains_key(k) && #[trigger] menus@.contains_key(k)),
                forall|k: int| #[trigger]
                    menus@.contains_key(k) ==> menus@[k]@ == synthesize(groups)[k],
            decreases tmp_menus.keys().len(),
        {
            match tmp_menus.pop() {
                Some((menu_num, param_index)) => {
                    let mut param_index = param_index;
                    let (caption_off, tooltip_off) = param_index.self_check_param255();
                    let entry = MenuIndexEntry::new(
                        menu_num as u8,
                        caption_off,
                        tooltip_off,
                        param_index,
                        fp,
                    );
                    let added = menus.insert(menu_num, entry);
                    assert(added);
                },
                None => {},
            }
        }
        let index = MenuIndex { menus };
        assert(index@ =~= synthesize(groups));
        Ok(index)
    }

    /// Reads the `num_entries` records of a schema-3 table at the cursor.
    fn read_v3_entries(fp: &mut FileBlob, num_entries: u8) -> (r: Result<Vec<(u8, u32)>, Fatal>)
        requires
            old(fp).wf(),
        ensures
            final(fp).follows(*old(fp)),
            match read_v3_records(
                old(fp).handle().bytes(),
                old(fp).cursor(),
                num_entries as nat,
                0,
                Seq::empty(),
            ) {
                Ok((records, next)) => r is Ok && r->Ok_0@ == records && final(fp).cursor() == next,
                Err(e) => r == Err::<Vec<(u8, u32)>, Fatal>(e),
            },
    {
        let mut tmp_info: Vec<(u8, u32)> = Vec::new();
        let ghost bytes = old(fp).handle().bytes();
        let ghost whole = read_v3_records(
            bytes,
            old(fp).cursor(),
            num_entries as nat,
            0,
            Seq::empty(),
        );
        let mut i: u8 = 0;
        while i < num_entries
            invariant
                i <= num_entries,
                fp.follows(*old(fp)),
                bytes == old(fp).handle().bytes(),
                whole == read_v3_records(
                    bytes,
                    old(fp).cursor(),
                    num_entries as nat,
                    0,
                    Seq::empty(),
                ),
                whole == read_v3_records(
                    bytes,
                    fp.cursor(),
                    (num_entries - i) as nat,
                    i as int,
                    tmp_info@,
                ),
            decreases num_entries - i,
        {
            let offset = fp.read_le_3bytes(BlobRegions::Menus)?;
            if offset > 0 {
                tmp_info.push((i, offset));
            }
            i += 1;
        }
        Ok(tmp_info)
    }

    /// Reads the `num_entries` records of a schema-4 table at the cursor.
    fn read_v4_entries(fp: &mut FileBlob, num_entries: u8) -> (r: Result<
        Vec<(u8, u32, u32, u32)>,
        Fatal,
    >)
        requires
            old(fp).wf(),
        ensures
            final(fp).follows(*old(fp)),
            match read_v4_records(
                old(fp).handle().bytes(),
                old(fp).cursor(),
                num_entries as nat,
                0,
                Seq::empty(),
            ) {
                Ok((records, next)) => r is Ok && r->Ok_0@ == records && final(fp).cursor() == next,
                Err(e) => r == Err::<Vec<(u8, u32, u32, u32)>, Fatal>(e),
            },
    {
        let mut tmp_info: Vec<(u8, u32, u32, u32)> = Vec::new();
        let ghost bytes = old(fp).handle().bytes();
        let ghost whole = read_v4_records(
            bytes,
            old(fp).cursor(),
            num_entries as nat,
            0,
            Seq::empty(),
        );
        let mut i: u8 = 0;
        while i < num_entries
            invariant
                i <= num_entries,
                fp.follows(*old(fp)),
                bytes == old(fp).handle().bytes(),
                whole == read_v4_records(
                    bytes,
                    old(fp).cursor(),
                    num_entries as nat,
                    0,
                    Seq::empty(),
                ),
                whole == read_v4_records(
                    bytes,
                    fp.cursor(),
                    (num_entries - i) as nat,
                    i as int,
                    tmp_info@,
                ),
            decreases num_entries - i,
        {
            let buf = fp.read_exact(9, BlobRegions::Menus)?;
            let caption_off = little_endian_3_bytes(slice_subrange(buf.as_slice(), 0, 3));
            let tooltip_off = little_endian_3_bytes(slice_subrange(buf.as_slice(), 3, 6));
            let offset = little_endian_3_bytes(slice_subrange(buf.as_slice(), 6, 9));
            if caption_off > 0 {
                tmp_info.push((i, caption_off, tooltip_off, offset));
            }
            i += 1;
        }
        Ok(tmp_info)
    }

    /// Reads a schema-3 table of menus at the cursor, and the parameters of
    /// the menus that are there.
    pub fn from_v3(fp: &mut FileBlob, font_family: u8) -> (r: Result<MenuIndex, Fatal>)
        requires
            old(fp).wf(),
        ensures
            parses(
                *old(fp),
                *final(fp),
                r,
                read_menus_v3(old(fp).handle().bytes(), old(fp).cursor(), font_family),
            ),
            r is Ok ==> r->Ok_0.wf() && r->Ok_0.within(old(fp).handle()),
    {
        let num_menus = fp.read_byte(BlobRegions::Menus)?;
        let idx_entry_len = fp.read_byte(BlobRegions::Menus)?;
        let mut menus: Table<MenuIndexEntry> = Table::new();
        Self::validate_schema(3, idx_entry_len)?;
        let tmp_info = Self::read_v3_entries(fp, num_menus)?;
        let ghost blob = old(fp).handle();
        let ghost bytes = blob.bytes();
        let ghost whole = read_menus_v3(bytes, old(fp).cursor(), font_family);
        assert(menus@.map_values(|e: MenuIndexEntry| e@) =~= Map::<int, MenuModel>::empty());
        let mut i: usize = 0;
        while i < tmp_info.len()
            invariant
                i <= tmp_info@.len(),
                fp.follows(*old(fp)),
                blob == old(fp).handle(),
                bytes == blob.bytes(),
                whole == read_menus_v3(bytes, old(fp).cursor(), font_family),
                menus.wf(),
                entries_wf(menus@),
                entries_within(menus@, blob),
                whole == build_v3(
                    bytes,
                    fp.cursor(),
                    font_family,
                    tmp_info@,
                    i as int,
                    menus@.map_values(|e: MenuIndexEntry| e@),
                ),
            decreases tmp_info@.len() - i,
        {
            let (menu_num, offset) = tmp_info[i];
            fp.set_pos(offset);
            let (param_index, caption_off, tooltip_off) = ParameterIndex::from_v3(
                fp,
                font_family,
            )?;
            let menu_entry = MenuIndexEntry::new(
                menu_num,
                caption_off,
                tooltip_off,
                param_index,
                fp,
            );
            let ghost before = menus@;
            let ghost model = menu_entry@;
            assert(before.map_values(|e: MenuIndexEntry| e@).dom() =~= before.dom());
            if !menus.insert(menu_num as i64, menu_entry) {
                return Err(Fatal::DuplicateKey);
            }
            assert(menus@.map_values(|e: MenuIndexEntry| e@) =~= before.map_values(
                |e: MenuIndexEntry| e@,
            ).insert(menu_num as int, model));
            i += 1;
        }
        Ok(MenuIndex { menus })
    }

    /// Reads a schema-4 table of menus at the cursor, and the parameters of
    /// the menus that are there.
    pub fn from_v4(fp: &mut FileBlob) -> (r: Result<MenuIndex, Fatal>)
        requires
            old(fp).wf(),
        ensures
            parses(
                *old(fp),
                *final(fp),
                r,
                read_menus_v4(old(fp).handle().bytes(), old(fp).cursor()),
            ),
            r is Ok ==> r->Ok_0.wf() && r->Ok_0.within(old(fp).handle()),
    {
        let num_menus = fp.read_byte(BlobRegions::Menus)?;
        let idx_entry_len = fp.read_byte(BlobRegions::Menus)?;
        let mut menus: Table<MenuIndexEntry> = Table::new();
        Self::validate_schema(4, idx_entry_len)?;
        let tmp_info = Self::read_v4_entries(fp, num_menus)?;
        let ghost blob = old(fp).handle();
        let ghost bytes = blob.bytes();
        let ghost whole = read_menus_v4(bytes, old(fp).cursor());
        assert(menus@.map_values(|e: MenuIndexEntry| e@) =~= Map::<int, MenuModel>::empty());
        let mut i: usize = 0;
        while i < tmp_info.len()
            invariant
                i <= tmp_info@.len(),
                fp.follows(*old(fp)),
                blob == old(fp).handle(),
                bytes == blob.bytes(),
                whole == read_menus_v4(bytes, old(fp).cursor()),
                menus.wf(),
                entries_wf(menus@),
                entries_within(menus@, blob),
                whole == build_v4(
                    bytes,
                    fp.cursor(),
                    tmp_info@,
                    i as int,
                    menus@.map_values(|e: MenuIndexEntry| e@),
                ),
            decreases tmp_info@.len() - i,
        {
            let (menu_num, caption_off, tooltip_off, offset) = tmp_info[i];
            fp.set_pos(offset);
            let param_index = ParameterIndex::from_v4(fp)?;
            let menu_entry = MenuIndexEntry::new(
                menu_num,
                caption_off,
                tooltip_off,
                param_index,
                fp,
            );
            let ghost before = menus@;
            let ghost model = menu_entry@;
            assert(before.map_values(|e: MenuIndexEntry| e@).dom() =~= before.dom());
            if !menus.insert(menu_num as i64, menu_entry) {
                return Err(Fatal::DuplicateKey);
            }
            assert(menus@.map_values(|e: MenuIndexEntry| e@) =~= before.map_values(
                |e: MenuIndexEntry| e@,
            ).insert(menu_num as int, model));
            i += 1;
        }
        Ok(MenuIndex { menus })
    }

    /// The number of menus.
    pub fn get_num_menus(&self) -> (n: usize)
        requires
            self.wf(),
        ensures
            self@.dom().finite(),
            n == self@.dom().len(),
    {
        assert(self@.dom() =~= self.menus@.dom());
        self.menus.len()
    }

    /// The entry of a menu, if the table has it.
    pub fn get(&self, menu: u8) -> (r: Option<&MenuIndexEntry>)
        requires
            self.wf(),
        ensures
            match r {
                Some(entry) => {
                    &&& self@.contains_key(menu as int)
                    &&& self@[menu as int] == entry@
                    &&& entry.wf()
                    &&& forall|blob: RawBlob| #[trigger] self.within(blob) ==> entry.within(blob)
                },
                None => !self@.contains_key(menu as int),
            },
    {
        assert(self@.dom() =~= self.menus@.dom());
        self.menus.get(menu as i64)
    }

    /// Puts the menus into words, by falling key, each with all that
    /// lies below it, and adds the lines to `lines`.
    #[verifier::rlimit(80)]
    pub(crate) fn dump(
        &self,
        lines: &mut Vec<String>,
        stats: &mut Stats,
        Ghost(blob): Ghost<RawBlob>,
    ) -> (r: Result<(), DumpError>)
        requires
            self.wf(),
            self.within(blob),
            old(stats).regions().len() == blob.bytes().len(),
        ensures
            final(stats).regions().len() == blob.bytes().len(),
            dumps(
                r,
                final(lines)@,
                *final(stats),
                dump_menus(
                    blob.bytes(),
                    blob.maps(),
                    listing(self@),
                    0,
                    (Dumped {
                        failure: None,
                        lines: line_texts(old(lines)@),
                        regions: old(stats).regions(),
                        strings: old(stats).strings(),
                    }),
                ),
            ),
    {
        let n = self.menus.len();
        let ghost items = listing(self@);
        let ghost start = Dumped {
            failure: None,
            lines: line_texts(lines@),
            regions: stats.regions(),
            strings: stats.strings(),
        };
        proof {
            lemma_backwards(self.menus.keys(), self.menus.values(), |e: MenuIndexEntry| e@);
        }
        let mut i: usize = n;
        while i > 0
            invariant
                self.wf(),
                self.within(blob),
                n == self.menus.keys().len(),
                i <= n,
                items == listing(self@),
                start == (Dumped {
                    failure: None,
                    lines: line_texts(old(lines)@),
                    regions: old(stats).regions(),
                    strings: old(stats).strings(),
                }),
                items == backwards(
                    self.menus.keys(),
                    self.menus.values(),
                    |e: MenuIndexEntry| e@,
                ),
                stats.regions().len() == blob.bytes().len(),
                dump_menus(blob.bytes(), blob.maps(), items, 0, start) == dump_menus(
                    blob.bytes(),
                    blob.maps(),
                    items,
                    n - i,
                    (Dumped {
                        failure: None,
                        lines: line_texts(lines@),
                        regions: stats.regions(),
                        strings: stats.strings(),
                    }),
                ),
            decreases i,
        {
            i -= 1;
            let entry = self.menus.value_at(i);
            let ghost before = Dumped {
                failure: None,
                lines: line_texts(lines@),
                regions: stats.regions(),
                strings: stats.strings(),
            };
            let ghost item = items[n - 1 - i];
            let ghost line = dump_entry(
                blob.bytes(),
                blob.maps(),
                menu_prefix(item.0 as nat),
                item.1.caption_off,
                item.1.tooltip_off,
                32,
                before,
            );
            let ghost below = dump_params(blob.bytes(), blob.maps(), listing(item.1.params), 0, line);
            proof {
                assert(dump_menus(blob.bytes(), blob.maps(), items, n - 1 - i, before)
                    == dump_menus(blob.bytes(), blob.maps(), items, n - i, below));
                assert(below.failure is Some ==> dump_menus(
                    blob.bytes(),
                    blob.maps(),
                    items,
                    n - i,
                    below,
                ) == below);
            }
            let mut prefix = "- - M.".to_owned();
            prefix.append(key_arrow(entry.menu_num as u64).as_str());
            let shown = entry.blob.dump_entry(
                prefix,
                entry.caption_off,
                entry.tooltip_off,
                32,
                lines,
                stats,
            );
            proof {
                assert(line.failure is Some ==> dump_params(
                    blob.bytes(),
                    blob.maps(),
                    listing(item.1.params),
                    0,
                    line,
                ) == line);
            }
            if let Err(e) = shown {
                return Err(e);
            }
            let r = entry.param_index.dump(lines, stats, Ghost(blob));
            if let Err(e) = r {
                return Err(e);
            }
        }
        Ok(())
    }

    /// The entries by falling number, for going through them.
    pub fn into_iter(&self) -> (iter: MenuIndexIterator)
        requires
            self.wf(),
        ensures
            iter.wf(),
            lists_descending(iter@, self@),
            forall|blob: RawBlob| #[trigger] self.within(blob) ==> iter.within(blob),
    {
        let mut items: Vec<(u8, MenuIndexEntry)> = Vec::new();
        let n = self.menus.len();
        let mut i: usize = 0;
        while i < n
            invariant
                self.wf(),
                n == self.menus.keys().len(),
                i <= n,
                items@.len() == i,
                forall|j: int|
                    0 <= j < i ==> #[trigger] items@[j] == (
                        self.menus.keys()[j] as u8,
                        self.menus.values()[j],
                    ) && self.menus.keys()[j] == items@[j].0 && items@[j].1.wf(),
            decreases n - i,
        {
            let entry = self.menus.value_at(i).clone();
            items.push((entry.menu_num, entry));
            i += 1;
        }
        let iter = MenuIndexIterator { items };
        proof {
            assert forall|blob: RawBlob| #[trigger] self.within(blob) implies iter.within(
                blob,
            ) by {
                assert forall|j: int| 0 <= j < iter.items@.len() implies (
                #[trigger] iter.items@[j]).1.within(blob) by {
                    lemma_map_at(self.menus.keys(), self.menus.values(), j);
                }
            }
            lemma_descending(
                self.menus.keys(),
                self.menus.values(),
                |e: MenuIndexEntry| e@,
                iter@,
            );
        }
        iter
    }
}

/// The entries of a table of menus that are still to come, by falling number.
pub struct MenuIndexIterator {
    items: Vec<(u8, MenuIndexEntry)>,
}

impl View for MenuIndexIterator {
    type V = Seq<(int, MenuModel)>;

    closed spec fn view(&self) -> Seq<(int, MenuModel)> {
        Seq::new(
            self.items@.len(),
            |i: int|
                (
                    self.items@[self.items@.len() - 1 - i].0 as int,
                    self.items@[self.items@.len() - 1 - i].1@,
                ),
        )
    }
}

impl MenuIndexIterator {
    /// Every entry that is still to come is well formed.
    pub closed spec fn wf(&self) -> bool {
        forall|i: int| 0 <= i < self.items@.len() ==> (#[trigger] self.items@[i]).1.wf()
    }

    /// Every entry that is still to come resolves its strings by `blob`.
    pub closed spec fn within(&self, blob: RawBlob) -> bool {
        forall|i: int| 0 <= i < self.items@.len() ==> (#[trigger] self.items@[i]).1.within(blob)
    }

    /// The next entry with its number, if one is left.
    pub fn next(&mut self) -> (r: Option<(u8, MenuIndexEntry)>)
        ensures
            old(self).wf() ==> final(self).wf(),
            forall|blob: RawBlob| #[trigger] old(self).within(blob) ==> final(self).within(blob),
            match r {
                Some((number, entry)) => {
                    &&& old(self)@.len() > 0
                    &&& old(self)@[0] == (number as int, entry@)
                    &&& final(self)@ == old(self)@.skip(1)
                    &&& old(self).wf() ==> entry.wf()
                    &&& forall|blob: RawBlob| #[trigger]
                        old(self).within(blob) ==> entry.within(blob)
                },
                None => old(self)@.len() == 0 && final(self)@ == old(self)@,
            },
    {
        let r = self.items.pop();
        proof {
            if r is Some {
                assert(self@ =~= old(self)@.skip(1));
                assert(old(self).items@[old(self).items@.len() - 1] == r->Some_0);
            }
        }
        r
    }
}

} // verus!
