use crate::blob::{
    lemma_mark_in_parts, lemma_take_free, lemma_take_in_parts, lemma_written_in_parts,
    region_free, tagged,
    describe, dump_entry, dumps, line_texts, parses, take, take_byte, take_le2, worded,
    BlobRegions, Cursor, DumpError, Dumped, FileBlob, RawBlob, Stats, StringError,
};
use crate::conversion::{
    key_arrow, key_prefix, le_bytes, lemma_le2_at, lemma_le3_at, lemma_le4_at,
    lemma_le_bytes_len, little_endian_2_bytes, little_endian_3_bytes, little_endian_4_bytes,
    spec_le2, spec_le3, spec_le4,
};
use crate::characters::CharacterMapsModel;
use crate::error::Fatal;
use crate::mnemonics::{read_mnemonics, MnemonicIndex, MnemonicModel};
use crate::shared::share;
use crate::table::{
    backwards, collect, lemma_backwards, lemma_count, lemma_descending, lemma_map_at, listing,
    lists_descending, Table,
};
use std::rc::Rc;
use vstd::prelude::*;
use vstd::slice::slice_subrange;
use vstd::string::StringExecFns;
use vstd::std_specs::cmp::PartialEqSpecImpl;

verus! {

/// One parameter of a menu: its number, where its caption and its tooltip
/// stand in the file, and the values it can take.
pub struct ParameterIndexEntry {
    param_num: u8,
    caption_off: u32,
    tooltip_off: u32,
    mnemonic: Rc<MnemonicIndex>,
    blob: RawBlob,
}

/// What a parameter holds: its number, the offsets of its caption and its
/// tooltip, and the values it can take.
pub struct ParamModel {
    pub param_num: u8,
    pub caption_off: u32,
    pub tooltip_off: u32,
    pub mnemonics: Map<int, MnemonicModel>,
}

impl View for ParameterIndexEntry {
    type V = ParamModel;

    closed spec fn view(&self) -> ParamModel {
        ParamModel {
            param_num: self.param_num,
            caption_off: self.caption_off,
            tooltip_off: self.tooltip_off,
            mnemonics: (*self.mnemonic)@,
        }
    }
}

impl Clone for ParameterIndexEntry {
    fn clone(&self) -> (r: ParameterIndexEntry)
        ensures
            r == *self,
    {
        ParameterIndexEntry {
            param_num: self.param_num,
            caption_off: self.caption_off,
            tooltip_off: self.tooltip_off,
            mnemonic: share(&self.mnemonic),
            blob: self.blob.clone(),
        }
    }
}

impl PartialEq for ParameterIndexEntry {
    fn eq(&self, other: &Self) -> (r: bool) {
        self.caption_off == other.caption_off
    }
}

impl PartialEqSpecImpl for ParameterIndexEntry {
    open spec fn obeys_eq_spec() -> bool {
        true
    }

    open spec fn eq_spec(&self, other: &Self) -> bool {
        self@.caption_off == other@.caption_off
    }
}

/// The number of the entry that is no parameter: it holds the caption and
/// the tooltip of the menu itself.
pub const MENU_CAPTION: u8 = 255;

/// A parameter without values of its own.
pub open spec fn plain_param(param_num: u8, caption_off: u32) -> ParamModel {
    ParamModel { param_num, caption_off, tooltip_off: 0, mnemonics: Map::empty() }
}

/// A schema-2 record: the parameter's number, its menu's number, and the
/// offset of its caption in four bytes.
pub open spec fn decode_v2(buf: Seq<u8>) -> (u8, u8, u32) {
    (buf[0], buf[1], spec_le4(buf.skip(2)) as u32)
}

/// The bytes that hold a schema-2 record.
pub open spec fn encode_v2(rec: (u8, u8, u32)) -> Seq<u8> {
    seq![rec.0, rec.1] + le_bytes(rec.2 as nat, 4)
}

/// A schema-3 record: the parameter's number in two bytes, and the offset of
/// its caption in three.
pub open spec fn decode_v3(buf: Seq<u8>) -> (u16, u32) {
    (spec_le2(buf) as u16, spec_le3(buf.skip(2)) as u32)
}

/// The bytes that hold a schema-3 record.
pub open spec fn encode_v3(rec: (u16, u32)) -> Seq<u8> {
    le_bytes(rec.0 as nat, 2) + le_bytes(rec.1 as nat, 3)
}

/// A schema-4 record: the parameter's number in one byte, then the offsets
/// of its caption, of its tooltip and of the table of its values, in three
/// bytes each.
pub open spec fn decode_v4(buf: Seq<u8>) -> (u8, u32, u32, u32) {
    (
        buf[0],
        spec_le3(buf.skip(1)) as u32,
        spec_le3(buf.skip(4)) as u32,
        spec_le3(buf.skip(7)) as u32,
    )
}

/// The bytes that hold a schema-4 record.
pub open spec fn encode_v4(rec: (u8, u32, u32, u32)) -> Seq<u8> {
    seq![rec.0] + le_bytes(rec.1 as nat, 3) + le_bytes(rec.2 as nat, 3) + le_bytes(
        rec.3 as nat,
        3,
    )
}

/// What was written as a schema-2 record is read back as it was.
pub proof fn lemma_v2_roundtrip(rec: (u8, u8, u32))
    ensures
        encode_v2(rec).len() == 6,
        decode_v2(encode_v2(rec)) == rec,
{
    let buf = encode_v2(rec);
    lemma_le_bytes_len(rec.2 as nat, 4);
    assert(buf.subrange(2, 6) =~= le_bytes(rec.2 as nat, 4));
    lemma_le4_at(buf, 2, rec.2 as nat);
}

/// What was written as a schema-3 record is read back as it was, for every
/// record that the bytes can hold.
pub proof fn lemma_v3_roundtrip(rec: (u16, u32))
    requires
        rec.1 < 0x100_0000,
    ensures
        encode_v3(rec).len() == 5,
        decode_v3(encode_v3(rec)) == rec,
{
    let buf = encode_v3(rec);
    lemma_le_bytes_len(rec.0 as nat, 2);
    lemma_le_bytes_len(rec.1 as nat, 3);
    assert(buf.subrange(0, 2) =~= le_bytes(rec.0 as nat, 2));
    assert(buf.skip(0) =~= buf);
    lemma_le2_at(buf, 0, rec.0 as nat);
    assert(buf.subrange(2, 5) =~= le_bytes(rec.1 as nat, 3));
    lemma_le3_at(buf, 2, rec.1 as nat);
}

/// What was written as a schema-4 record is read back as it was, for every
/// record that the bytes can hold.
pub proof fn lemma_v4_roundtrip(rec: (u8, u32, u32, u32))
    requires
        rec.1 < 0x100_0000,
        rec.2 < 0x100_0000,
        rec.3 < 0x100_0000,
    ensures
        encode_v4(rec).len() == 10,
        decode_v4(encode_v4(rec)) == rec,
{
    let buf = encode_v4(rec);
    lemma_le_bytes_len(rec.1 as nat, 3);
    lemma_le_bytes_len(rec.2 as nat, 3);
    lemma_le_bytes_len(rec.3 as nat, 3);
    assert(buf.subrange(1, 4) =~= le_bytes(rec.1 as nat, 3));
    lemma_le3_at(buf, 1, rec.1 as nat);
    assert(buf.subrange(4, 7) =~= le_bytes(rec.2 as nat, 3));
    lemma_le3_at(buf, 4, rec.2 as nat);
    assert(buf.subrange(7, 10) =~= le_bytes(rec.3 as nat, 3));
    lemma_le3_at(buf, 7, rec.3 as nat);
}

/// What a table's header must say of itself: a record width of 6 in schema
/// 2, of 5 in schemas 3 and 4, else `EntrySize`; then a maximal string length
/// of 32, or of 256 in schema 4, else `StringLength`. Another schema is
/// `InvalidFormat`. In schema 4 the width is a mark of the schema only: a record
/// takes up 10 bytes.
pub open spec fn check_schema(schema: u16, idx_entry_len: u8, max_str_len: u16) -> Result<
    (),
    Fatal,
> {
    if schema != 2 && schema != 3 && schema != 4 {
        Err(Fatal::InvalidFormat)
    } else if idx_entry_len != (if schema == 2 {
        6
    } else {
        5int
    }) {
        Err(Fatal::EntrySize)
    } else if max_str_len != (if schema == 4 {
        256
    } else {
        32int
    }) {
        Err(Fatal::StringLength)
    } else {
        Ok(())
    }
}

/// The parameters of a schema-2 file, menu by menu, with one more parameter
/// put under its menu. `None` where the menu has the parameter already.
pub open spec fn grouped(
    menus: Map<int, Map<int, ParamModel>>,
    menu: u8,
    param: ParamModel,
) -> Option<Map<int, Map<int, ParamModel>>> {
    if menus.contains_key(menu as int) {
        if menus[menu as int].contains_key(param.param_num as int) {
            None
        } else {
            Some(menus.insert(menu as int, menus[menu as int].insert(param.param_num as int, param)))
        }
    } else {
        Some(
            menus.insert(
                menu as int,
                Map::<int, ParamModel>::empty().insert(param.param_num as int, param),
            ),
        )
    }
}

/// Reading `count` schema-2 records at the cursor into `menus`. A record
/// without a caption is a slot that is not there. `DuplicateKey` where a menu
/// gets a parameter a second time.
pub open spec fn read_v2_records(
    bytes: Seq<u8>,
    cur: Cursor,
    count: nat,
    menus: Map<int, Map<int, ParamModel>>,
) -> Result<(Map<int, Map<int, ParamModel>>, Cursor), Fatal>
    decreases count,
{
    if count == 0 {
        Ok((menus, cur))
    } else {
        match take(bytes, cur, 6, BlobRegions::Parameters) {
            Err(e) => Err(e),
            Ok((buf, next)) => {
                let rec = decode_v2(buf);
                if rec.2 == 0 {
                    read_v2_records(bytes, next, (count - 1) as nat, menus)
                } else {
                    match grouped(menus, rec.1, plain_param(rec.0, rec.2)) {
                        None => Err(Fatal::DuplicateKey),
                        Some(more) => read_v2_records(bytes, next, (count - 1) as nat, more),
                    }
                }
            },
        }
    }
}

/// The bytes that hold schema-2 records, one behind the other.
pub open spec fn encode_v2_records(recs: Seq<(u8, u8, u32)>) -> Seq<u8>
    decreases recs.len(),
{
    if recs.len() == 0 {
        Seq::empty()
    } else {
        encode_v2(recs[0]) + encode_v2_records(recs.skip(1))
    }
}

/// Record `i` is that of parameter `param` in menu `menu`.
pub open spec fn slot_at(recs: Seq<(u8, u8, u32)>, i: int, menu: int, param: int) -> bool {
    0 <= i < recs.len() && recs[i].1 == menu && recs[i].0 == param
}

/// No two records are for the same parameter of the same menu.
pub open spec fn distinct_slots(recs: Seq<(u8, u8, u32)>) -> bool {
    forall|i: int, j: int|
        0 <= i < j < recs.len() ==> !(#[trigger] recs[i].1 == #[trigger] recs[j].1 && recs[i].0
            == recs[j].0)
}

/// The record is found under its menu and its number, with its offset.
pub open spec fn holds(menus: Map<int, Map<int, ParamModel>>, rec: (u8, u8, u32)) -> bool {
    &&& menus.contains_key(rec.1 as int)
    &&& menus[rec.1 as int].contains_key(rec.0 as int)
    &&& menus[rec.1 as int][rec.0 as int] == plain_param(rec.0, rec.2)
}

/// `menus` are the records by menu: each record is found under its menu and
/// its number, every parameter of every menu comes from a record, and no menu
/// is without one.
pub open spec fn groups_of(recs: Seq<(u8, u8, u32)>, menus: Map<int, Map<int, ParamModel>>) -> bool {
    &&& forall|i: int| 0 <= i < recs.len() ==> holds(menus, #[trigger] recs[i])
    &&& forall|m: int, p: int|
        menus.contains_key(m) && #[trigger] menus[m].contains_key(p) ==> exists|i: int|
            slot_at(recs, i, m, p)
    &&& forall|m: int| #[trigger]
        menus.contains_key(m) ==> exists|i: int| 0 <= i < recs.len() && #[trigger] recs[i].1 == m
}

/// Reading a schema-2 record with a caption that stands written at the
/// cursor is one step of reading the records: the record is put under its
/// menu, and the rest is read behind it.
pub proof fn lemma_read_v2_one(
    bytes: Seq<u8>,
    cur: Cursor,
    rec: (u8, u8, u32),
    count: nat,
    menus: Map<int, Map<int, ParamModel>>,
)
    requires
        count > 0,
        rec.2 != 0,
        0 <= cur.pos,
        cur.pos + 6 <= bytes.len(),
        bytes.subrange(cur.pos, cur.pos + 6) == encode_v2(rec),
        region_free(cur.regions, cur.pos, cur.pos + 6, BlobRegions::Parameters),
        grouped(menus, rec.1, plain_param(rec.0, rec.2)) is Some,
    ensures
        read_v2_records(bytes, cur, count, menus) == read_v2_records(
            bytes,
            Cursor {
                pos: cur.pos + 6,
                regions: tagged(cur.regions, cur.pos, cur.pos + 6, BlobRegions::Parameters),
            },
            (count - 1) as nat,
            grouped(menus, rec.1, plain_param(rec.0, rec.2))->Some_0,
        ),
{
    lemma_v2_roundtrip(rec);
}

/// Putting a record under its menu keeps the menus the records by menu, as
/// long as no record before it was for the same parameter of the same menu.
pub proof fn lemma_grouped(
    done: Seq<(u8, u8, u32)>,
    rec: (u8, u8, u32),
    menus: Map<int, Map<int, ParamModel>>,
)
    requires
        groups_of(done, menus),
        forall|i: int| 0 <= i < done.len() ==> !(#[trigger] done[i].1 == rec.1 && done[i].0 == rec.0),
    ensures
        grouped(menus, rec.1, plain_param(rec.0, rec.2)) is Some,
        groups_of(done.push(rec), grouped(menus, rec.1, plain_param(rec.0, rec.2))->Some_0),
{
    let menu = rec.1 as int;
    let param = rec.0 as int;
    let model = plain_param(rec.0, rec.2);
    if menus.contains_key(menu) && menus[menu].contains_key(param) {
        let i = choose|i: int| slot_at(done, i, menu, param);
        assert(done[i].1 == rec.1 && done[i].0 == rec.0);
    }
    let more = grouped(menus, rec.1, model)->Some_0;
    let all = done.push(rec);
    assert forall|i: int| 0 <= i < all.len() implies holds(more, #[trigger] all[i]) by {
        if i < done.len() {
            assert(holds(menus, done[i]));
            assert(all[i] == done[i]);
        }
    }
    assert forall|m: int, p: int|
        more.contains_key(m) && #[trigger] more[m].contains_key(p) implies exists|i: int|
        slot_at(all, i, m, p) by {
        if m == menu && p == param {
            assert(slot_at(all, done.len() as int, m, p));
        } else {
            assert(menus.contains_key(m) && menus[m].contains_key(p));
            let i = choose|i: int| slot_at(done, i, m, p);
            assert(slot_at(all, i, m, p));
        }
    }
    assert forall|m: int| #[trigger] more.contains_key(m) implies exists|i: int|
        0 <= i < all.len() && #[trigger] all[i].1 == m by {
        if m == menu {
            assert(all[done.len() as int].1 == m);
        } else {
            let i = choose|i: int| 0 <= i < done.len() && #[trigger] done[i].1 == m;
            assert(all[i].1 == m);
        }
    }
}

/// Schema-2 records with captions that stand written at the cursor, no two
/// of them for the same parameter of the same menu, are read as they were
/// written and put under their menus: each record is found under its menu and
/// its number with its offset, and nothing else is there. The cursor then
/// stands behind the last record. `done` are the records read before these,
/// and `menus` what they were put into.
pub proof fn lemma_read_v2_written(
    bytes: Seq<u8>,
    cur: Cursor,
    done: Seq<(u8, u8, u32)>,
    recs: Seq<(u8, u8, u32)>,
    menus: Map<int, Map<int, ParamModel>>,
)
    requires
        groups_of(done, menus),
        distinct_slots(done + recs),
        forall|i: int| 0 <= i < recs.len() ==> (#[trigger] recs[i]).2 != 0,
        0 <= cur.pos,
        cur.regions.len() == bytes.len(),
        cur.pos + encode_v2_records(recs).len() <= bytes.len(),
        bytes.subrange(cur.pos, cur.pos + encode_v2_records(recs).len()) == encode_v2_records(
            recs,
        ),
        region_free(
            cur.regions,
            cur.pos,
            cur.pos + encode_v2_records(recs).len(),
            BlobRegions::Parameters,
        ),
    ensures
        read_v2_records(bytes, cur, recs.len(), menus) is Ok,
        groups_of(done + recs, read_v2_records(bytes, cur, recs.len(), menus)->Ok_0.0),
        read_v2_records(bytes, cur, recs.len(), menus)->Ok_0.1 == (Cursor {
            pos: cur.pos + encode_v2_records(recs).len(),
            regions: tagged(
                cur.regions,
                cur.pos,
                cur.pos + encode_v2_records(recs).len(),
                BlobRegions::Parameters,
            ),
        }),
        encode_v2_records(recs).len() == 6 * recs.len(),
    decreases recs.len(),
{
    if recs.len() == 0 {
        assert(done + recs =~= done);
        assert(tagged(cur.regions, cur.pos, cur.pos, BlobRegions::Parameters) =~= cur.regions);
    } else {
        let first = recs[0];
        let rest = recs.skip(1);
        let front = encode_v2(first);
        let back = encode_v2_records(rest);
        assert(front.len() == 6) by {
            lemma_v2_roundtrip(first);
        }
        assert(encode_v2_records(recs) == front + back);
        lemma_written_in_parts(bytes, cur.pos, front, back);
        lemma_mark_in_parts(
            cur.regions,
            cur.pos,
            cur.pos + 6,
            cur.pos + 6 + back.len(),
            BlobRegions::Parameters,
        );
        let all = done + recs;
        assert forall|i: int| 0 <= i < done.len() implies !(#[trigger] done[i].1 == first.1
            && done[i].0 == first.0) by {
            assert(all[i] == done[i]);
            assert(all[done.len() as int] == first);
            assert(!(all[i].1 == all[done.len() as int].1 && all[i].0 == all[done.len() as int].0));
        }
        lemma_grouped(done, first, menus);
        lemma_read_v2_one(bytes, cur, first, recs.len(), menus);
        let next = Cursor {
            pos: cur.pos + 6,
            regions: tagged(cur.regions, cur.pos, cur.pos + 6, BlobRegions::Parameters),
        };
        let more = grouped(menus, first.1, plain_param(first.0, first.2))->Some_0;
        assert(done.push(first) + rest =~= all);
        assert forall|i: int| 0 <= i < rest.len() implies (#[trigger] rest[i]).2 != 0 by {
            assert(rest[i] == recs[i + 1]);
        }
        lemma_read_v2_written(bytes, next, done.push(first), rest, more);
    }
}

/// Reading `count` schema-3 records at the cursor into `params`. A record
/// without a caption is a slot that is not there. `ValueTooLarge` where a
/// number does not fit one byte, `DuplicateKey` where one comes a second time.
pub open spec fn read_v3_records(
    bytes: Seq<u8>,
    cur: Cursor,
    count: nat,
    params: Map<int, ParamModel>,
) -> Result<(Map<int, ParamModel>, Cursor), Fatal>
    decreases count,
{
    if count == 0 {
        Ok((params, cur))
    } else {
        match take(bytes, cur, 5, BlobRegions::Parameters) {
            Err(e) => Err(e),
            Ok((buf, next)) => {
                let rec = decode_v3(buf);
                if rec.0 > 255 {
                    Err(Fatal::ValueTooLarge)
                } else if rec.1 == 0 {
                    read_v3_records(bytes, next, (count - 1) as nat, params)
                } else if params.contains_key(rec.0 as int) {
                    Err(Fatal::DuplicateKey)
                } else {
                    read_v3_records(
                        bytes,
                        next,
                        (count - 1) as nat,
                        params.insert(rec.0 as int, plain_param(rec.0 as u8, rec.1)),
                    )
                }
            },
        }
    }
}

/// The offsets of the caption and the tooltip of the menu that the
/// parameters belong to: those of entry 255, or zeros where there is none.
pub open spec fn menu_caption(params: Map<int, ParamModel>) -> (u32, u32) {
    if params.contains_key(255) {
        (params[255].caption_off, params[255].tooltip_off)
    } else {
        (0, 0)
    }
}

/// Reading a schema-3 table of parameters at the cursor: the parameters
/// without entry 255, and the offsets of the menu's caption and tooltip. A
/// record width of 0 stands for a table without entries.
pub open spec fn read_v3(bytes: Seq<u8>, cur: Cursor, root_font_family: u8) -> Result<
    ((Map<int, ParamModel>, u32, u32), Cursor),
    Fatal,
> {
    match take_le2(bytes, cur, BlobRegions::Parameters) {
        Err(e) => Err(e),
        Ok((num_entries, c1)) => match take_le2(bytes, c1, BlobRegions::Parameters) {
            Err(e) => Err(e),
            Ok((max_str_len, c2)) => match take_byte(bytes, c2, BlobRegions::Parameters) {
                Err(e) => Err(e),
                Ok((font_family, c3)) => match take_byte(bytes, c3, BlobRegions::Parameters) {
                    Err(e) => Err(e),
                    Ok((idx_entry_len, c4)) => if root_font_family != font_family {
                        Err(Fatal::FontFamily)
                    } else if idx_entry_len != 0 {
                        match check_schema(3, idx_entry_len, max_str_len) {
                            Err(e) => Err(e),
                            Ok(()) => match read_v3_records(
                                bytes,
                                c4,
                                num_entries as nat,
                                Map::empty(),
                            ) {
                                Err(e) => Err(e),
                                Ok((params, next)) => Ok(
                                    (
                                        (
                                            params.remove(255),
                                            menu_caption(params).0,
                                            menu_caption(params).1,
                                        ),
                                        next,
                                    ),
                                ),
                            },
                        }
                    } else {
                        Ok(((Map::empty(), 0, 0), c4))
                    },
                },
            },
        },
    }
}

/// The bytes of a schema-3 table that holds one parameter: the header of
/// six bytes, and the one record.
pub open spec fn one_param_table(font_family: u8, param: u8, caption_off: u32) -> Seq<u8> {
    seq![1u8, 0u8, 32u8, 0u8, font_family, 5u8] + encode_v3((param as u16, caption_off))
}

/// A schema-3 table with one parameter that stands written at the cursor is
/// read as that one parameter, under its number and with its caption. The
/// menu gets no caption from it. This holds for a parameter other than 255
/// with a caption, and for bytes that were not read as something else.
#[verifier::rlimit(80)]
pub proof fn lemma_one_param(
    bytes: Seq<u8>,
    cur: Cursor,
    font_family: u8,
    param: u8,
    caption_off: u32,
)
    requires
        0 <= cur.pos,
        cur.regions.len() == bytes.len(),
        cur.pos + 11 <= bytes.len(),
        bytes.subrange(cur.pos, cur.pos + 11) == one_param_table(font_family, param, caption_off),
        param != 255,
        0 < caption_off < 0x100_0000,
        region_free(cur.regions, cur.pos, cur.pos + 11, BlobRegions::Parameters),
    ensures
        read_v3(bytes, cur, font_family) == Ok::<
            ((Map<int, ParamModel>, u32, u32), Cursor),
            Fatal,
        >(
            (
                (
                    Map::<int, ParamModel>::empty().insert(
                        param as int,
                        plain_param(param, caption_off),
                    ),
                    0u32,
                    0u32,
                ),
                Cursor {
                    pos: cur.pos + 11,
                    regions: tagged(cur.regions, cur.pos, cur.pos + 11, BlobRegions::Parameters),
                },
            ),
        ),
{
    let tag = BlobRegions::Parameters;
    let table = one_param_table(font_family, param, caption_off);
    let rec = (param as u16, caption_off);
    lemma_v3_roundtrip(rec);
    lemma_take_free(bytes, cur, 11, tag);
    let end = take(bytes, cur, 11, tag)->Ok_0.1;
    // the header and the record
    lemma_take_in_parts(bytes, cur, 6, 5, tag);
    let c6 = take(bytes, cur, 6, tag)->Ok_0.1;
    let head = take(bytes, cur, 6, tag)->Ok_0.0;
    assert(head =~= seq![1u8, 0u8, 32u8, 0u8, font_family, 5u8]);
    assert(take(bytes, c6, 5, tag)->Ok_0.0 =~= encode_v3(rec));
    // the fields of the header
    lemma_take_in_parts(bytes, cur, 2, 4, tag);
    let c2 = take(bytes, cur, 2, tag)->Ok_0.1;
    lemma_take_in_parts(bytes, c2, 2, 2, tag);
    let c4 = take(bytes, c2, 2, tag)->Ok_0.1;
    lemma_take_in_parts(bytes, c4, 1, 1, tag);
    let c5 = take(bytes, c4, 1, tag)->Ok_0.1;
    assert(take(bytes, cur, 2, tag)->Ok_0.0 =~= seq![1u8, 0u8]);
    assert(take(bytes, c2, 2, tag)->Ok_0.0 =~= seq![32u8, 0u8]);
    assert(take(bytes, c4, 1, tag)->Ok_0.0 =~= seq![font_family]);
    assert(take(bytes, c5, 1, tag)->Ok_0.0 =~= seq![5u8]);
    assert(take(bytes, c5, 1, tag)->Ok_0.1 == c6);
    assert(take_le2(bytes, cur, tag) == Ok::<(u16, Cursor), Fatal>((1u16, c2)));
    assert(take_le2(bytes, c2, tag) == Ok::<(u16, Cursor), Fatal>((32u16, c4)));
    assert(take_byte(bytes, c4, tag) == Ok::<(u8, Cursor), Fatal>((font_family, c5)));
    assert(take_byte(bytes, c5, tag) == Ok::<(u8, Cursor), Fatal>((5u8, c6)));
    // the one record
    let params = Map::<int, ParamModel>::empty().insert(
        param as int,
        plain_param(param, caption_off),
    );
    assert(read_v3_records(bytes, end, 0, params) == Ok::<(Map<int, ParamModel>, Cursor), Fatal>(
        (params, end),
    ));
    assert(read_v3_records(bytes, c6, 1, Map::empty()) == Ok::<
        (Map<int, ParamModel>, Cursor),
        Fatal,
    >((params, end)));
    assert(params.remove(255) =~= params);
}

/// Reading `count` schema-4 records at the cursor, added to `records`. A
/// record takes up ten bytes, all of them read as part of the parameters. A
/// record without a caption is a slot that is not there.
pub open spec fn read_v4_records(
    bytes: Seq<u8>,
    cur: Cursor,
    count: nat,
    records: Seq<(u8, u32, u32, u32)>,
) -> Result<(Seq<(u8, u32, u32, u32)>, Cursor), Fatal>
    decreases count,
{
    if count == 0 {
        Ok((records, cur))
    } else {
        match take(bytes, cur, 10, BlobRegions::Parameters) {
            Err(e) => Err(e),
            Ok((buf, next)) => {
                let rec = decode_v4(buf);
                if rec.1 > 0 {
                    read_v4_records(bytes, next, (count - 1) as nat, records.push(rec))
                } else {
                    read_v4_records(bytes, next, (count - 1) as nat, records)
                }
            },
        }
    }
}

/// Making the parameters of the records from place `i` on and putting them
/// into `params`. Where a record names a table of values, that table is read
/// first, at its offset. `DuplicateKey` where a number comes a second time.
pub open spec fn build_v4(
    bytes: Seq<u8>,
    cur: Cursor,
    records: Seq<(u8, u32, u32, u32)>,
    i: int,
    params: Map<int, ParamModel>,
) -> Result<(Map<int, ParamModel>, Cursor), Fatal>
    decreases records.len() - i,
{
    if i < 0 || i >= records.len() {
        Ok((params, cur))
    } else {
        let rec = records[i];
        let values = if rec.3 > 0 {
            read_mnemonics(bytes, Cursor { pos: rec.3 as int, ..cur })
        } else {
            Ok((Map::empty(), cur))
        };
        match values {
            Err(e) => Err(e),
            Ok((mnemonics, next)) => if params.contains_key(rec.0 as int) {
                Err(Fatal::DuplicateKey)
            } else {
                build_v4(
                    bytes,
                    next,
                    records,
                    i + 1,
                    params.insert(
                        rec.0 as int,
                        ParamModel {
                            param_num: rec.0,
                            caption_off: rec.1,
                            tooltip_off: rec.2,
                            mnemonics,
                        },
                    ),
                )
            },
        }
    }
}

/// Reading a schema-4 table of parameters at the cursor: the number of
/// entries and the record width in one byte each, the records, and then the
/// tables of values that the records name. A width of 0 stands for a table
/// without entries.
pub open spec fn read_v4(bytes: Seq<u8>, cur: Cursor) -> Result<
    (Map<int, ParamModel>, Cursor),
    Fatal,
> {
    match take_byte(bytes, cur, BlobRegions::Parameters) {
        Err(e) => Err(e),
        Ok((num_params, c1)) => match take_byte(bytes, c1, BlobRegions::Parameters) {
            Err(e) => Err(e),
            Ok((idx_entry_len, c2)) => if idx_entry_len != 0 {
                match check_schema(4, idx_entry_len, 256) {
                    Err(e) => Err(e),
                    Ok(()) => match read_v4_records(bytes, c2, num_params as nat, Seq::empty()) {
                        Err(e) => Err(e),
                        Ok((records, c3)) => build_v4(bytes, c3, records, 0, Map::empty()),
                    },
                }
            } else {
                Ok((Map::empty(), c2))
            },
        },
    }
}

impl ParameterIndexEntry {
    /// The table of values is well formed.
    pub closed spec fn wf(&self) -> bool {
        self.mnemonic.wf()
    }

    /// The handle by which the entry resolves its strings.
    pub closed spec fn blob(&self) -> RawBlob {
        self.blob
    }

    /// The entry and its values resolve their strings by `blob`.
    pub closed spec fn within(&self, blob: RawBlob) -> bool {
        self.blob == blob && self.mnemonic.within(blob)
    }

    /// An entry within a blob resolves its own strings by it.
    pub proof fn lemma_within(&self, blob: RawBlob)
        requires
            self.within(blob),
        ensures
            self.blob() == blob,
    {
    }

    fn new(
        param_num: u8,
        caption_off: u32,
        tooltip_off: u32,
        mnemonic: MnemonicIndex,
        fp: &mut FileBlob,
    ) -> (entry: ParameterIndexEntry)
        requires
            mnemonic.wf(),
        ensures
            *final(fp) == *old(fp),
            entry.wf(),
            mnemonic.within(old(fp).handle()) ==> entry.within(old(fp).handle()),
            entry@ == (ParamModel { param_num, caption_off, tooltip_off, mnemonics: mnemonic@ }),
    {
        ParameterIndexEntry {
            param_num,
            caption_off,
            tooltip_off,
            mnemonic: Rc::new(mnemonic),
            blob: fp.freeze(),
        }
    }

    /// The parameter in words: its caption and, where it has one, its
    /// tooltip, each of at most 32 bytes.
    pub fn to_string(&self, stats: &mut Stats) -> (r: Result<String, StringError>)
        requires
            old(stats).regions().len() == self.blob().bytes().len(),
        ensures
            final(stats).regions().len() == self.blob().bytes().len(),
            ({
                let expected = describe(
                    self.blob().bytes(),
                    self.blob().maps(),
                    old(stats).regions(),
                    old(stats).strings(),
                    self@.caption_off,
                    self@.tooltip_off,
                    32,
                );
                &&& worded(r) == expected.result
                &&& final(stats).regions() == expected.regions
                &&& final(stats).strings() == expected.strings
            }),
    {
        self.blob.get_caption(self.caption_off, self.tooltip_off, 32, stats)
    }

    /// The values that the parameter can take.
    pub fn get_mnemonics(&self) -> (mnemonics: &MnemonicIndex)
        ensures
            mnemonics@ == self@.mnemonics,
            self.wf() ==> mnemonics.wf(),
            forall|blob: RawBlob| #[trigger] self.within(blob) ==> mnemonics.within(blob),
    {
        &self.mnemonic
    }

    /// The number of the parameter.
    pub fn get_param_num(&self) -> (number: u8)
        ensures
            number == self@.param_num,
    {
        self.param_num
    }

    /// The offset of the caption.
    pub fn get_caption_off(&self) -> (off: u32)
        ensures
            off == self@.caption_off,
    {
        self.caption_off
    }

    /// The offset of the tooltip, 0 where there is none.
    pub fn get_tooltip_off(&self) -> (off: u32)
        ensures
            off == self@.tooltip_off,
    {
        self.tooltip_off
    }
}


impl ParameterIndexEntry {
    /// Reads one schema-3 record: the parameter's number and its entry.
    fn load_v3(fp: &mut FileBlob) -> (r: Result<(u8, ParameterIndexEntry), Fatal>)
        requires
            old(fp).wf(),
        ensures
            final(fp).follows(*old(fp)),
            match take(old(fp).handle().bytes(), old(fp).cursor(), 5, BlobRegions::Parameters) {
                Err(e) => r == Err::<(u8, ParameterIndexEntry), Fatal>(e),
                Ok((buf, next)) => if decode_v3(buf).0 > 255 {
                    r == Err::<(u8, ParameterIndexEntry), Fatal>(Fatal::ValueTooLarge)
                } else {
                    &&& r is Ok
                    &&& r->Ok_0.0 == decode_v3(buf).0
                    &&& r->Ok_0.1.wf()
                    &&& r->Ok_0.1.within(old(fp).handle())
                    &&& r->Ok_0.1@ == plain_param(decode_v3(buf).0 as u8, decode_v3(buf).1)
                    &&& final(fp).cursor() == next
                },
            },
    {
        let buf = fp.read_exact(5, BlobRegions::Parameters)?;
        let param = little_endian_2_bytes(slice_subrange(buf.as_slice(), 0, 2));
        if param > 255 {
            return Err(Fatal::ValueTooLarge);
        }
        let offset = little_endian_3_bytes(slice_subrange(buf.as_slice(), 2, 5));
        let param_entry = ParameterIndexEntry::new(
            param as u8,
            offset,
            0,
            MnemonicIndex::empty(),
            fp,
        );
        Ok((param as u8, param_entry))
    }

    /// Reads one schema-2 record: the menu's number, the parameter's number
    /// and its entry.
    fn load_v2(fp: &mut FileBlob) -> (r: Result<(u8, u8, ParameterIndexEntry), Fatal>)
        requires
            old(fp).wf(),
        ensures
            final(fp).follows(*old(fp)),
            match take(old(fp).handle().bytes(), old(fp).cursor(), 6, BlobRegions::Parameters) {
                Err(e) => r == Err::<(u8, u8, ParameterIndexEntry), Fatal>(e),
                Ok((buf, next)) => {
                    &&& r is Ok
                    &&& r->Ok_0.0 == decode_v2(buf).1
                    &&& r->Ok_0.1 == decode_v2(buf).0
                    &&& r->Ok_0.2.wf()
                    &&& r->Ok_0.2.within(old(fp).handle())
                    &&& r->Ok_0.2@ == plain_param(decode_v2(buf).0, decode_v2(buf).2)
                    &&& final(fp).cursor() == next
                },
            },
    {
        let buf = fp.read_exact(6, BlobRegions::Parameters)?;
        let param = buf[0];
        let menu = buf[1];
        let offset = little_endian_4_bytes(slice_subrange(buf.as_slice(), 2, 6));
        let param_entry = ParameterIndexEntry::new(param, offset, 0, MnemonicIndex::empty(), fp);
        Ok((menu, param, param_entry))
    }
}

/// What stands before the words of a parameter in a list.
pub open spec fn param_prefix(number: nat) -> Seq<char> {
    "- - - P."@ + key_prefix(number)
}

/// Putting the parameters from place `i` of the list on into words, one
/// line each. The first failure ends it.
pub open spec fn dump_params(
    bytes: Seq<u8>,
    maps: CharacterMapsModel,
    params: Seq<(int, ParamModel)>,
    i: int,
    so_far: Dumped,
) -> Dumped
    decreases params.len() - i,
{
    if i < 0 || i >= params.len() || so_far.failure is Some {
        so_far
    } else {
        dump_params(
            bytes,
            maps,
            params,
            i + 1,
            dump_entry(
                bytes,
                maps,
                param_prefix(params[i].0 as nat),
                params[i].1.caption_off,
                params[i].1.tooltip_off,
                32,
                so_far,
            ),
        )
    }
}

/// The parameters of one menu, by number.
pub struct ParameterIndex {
    params: Table<ParameterIndexEntry>,
}

impl View for ParameterIndex {
    type V = Map<int, ParamModel>;

    closed spec fn view(&self) -> Map<int, ParamModel> {
        self.params@.map_values(|e: ParameterIndexEntry| e@)
    }
}

/// The numbers of the entries, in their order.
pub open spec fn param_numbers(entries: Seq<ParameterIndexEntry>) -> Seq<int> {
    entries.map_values(|e: ParameterIndexEntry| e@.param_num as int)
}

/// The entries as what they hold, in their order.
pub open spec fn param_models(entries: Seq<ParameterIndexEntry>) -> Seq<ParamModel> {
    entries.map_values(|e: ParameterIndexEntry| e@)
}

/// The tables of a schema-2 file as what they hold, menu by menu.
pub open spec fn menu_models(menus: Map<int, ParameterIndex>) -> Map<int, Map<int, ParamModel>> {
    menus.map_values(|p: ParameterIndex| p@)
}

/// Every entry of the table stands under its own number and is well formed.
spec fn entries_wf(params: Map<int, ParameterIndexEntry>) -> bool {
    forall|k: int| #[trigger]
        params.contains_key(k) ==> params[k].param_num == k && params[k].wf()
}

/// Every entry of the table resolves its strings by `blob`.
spec fn entries_within(params: Map<int, ParameterIndexEntry>, blob: RawBlob) -> bool {
    forall|k: int| #[trigger] params.contains_key(k) ==> params[k].within(blob)
}

impl ParameterIndex {
    /// No number occurs twice, every entry stands under its own number, and
    /// the tables of values are well formed.
    pub closed spec fn wf(&self) -> bool {
        &&& self.params.wf()
        &&& entries_wf(self.params@)
    }

    /// Every entry, with its values, resolves its strings by `blob`.
    pub closed spec fn within(&self, blob: RawBlob) -> bool {
        entries_within(self.params@, blob)
    }

    /// Every entry stands under its own number, and the entries are finitely
    /// many.
    pub proof fn lemma_keys(&self)
        requires
            self.wf(),
        ensures
            self@.dom().finite(),
            forall|k: int| #[trigger] self@.contains_key(k) ==> self@[k].param_num == k,
    {
        lemma_count(self.params.keys(), self.params.values());
        assert(self@.dom() =~= self.params@.dom());
    }

    /// The table of the given entries. `DuplicateKey` where two of them have
    /// the same number.
    pub fn new(entries: Vec<ParameterIndexEntry>) -> (r: Result<ParameterIndex, Fatal>)
        requires
            forall|i: int| 0 <= i < entries@.len() ==> (#[trigger] entries@[i]).wf(),
        ensures
            match collect(param_numbers(entries@), param_models(entries@), 0, Map::empty()) {
                Some(params) => r is Ok && r->Ok_0.wf() && r->Ok_0@ == params,
                None => r == Err::<ParameterIndex, Fatal>(Fatal::DuplicateKey),
            },
            forall|blob: RawBlob|
                r is Ok && (forall|i: int|
                    0 <= i < entries@.len() ==> (#[trigger] entries@[i]).within(blob))
                    ==> #[trigger] r->Ok_0.within(blob),
    {
        let mut params: Table<ParameterIndexEntry> = Table::new();
        let mut i: usize = 0;
        let ghost ids = param_numbers(entries@);
        let ghost models = param_models(entries@);
        assert(params@.map_values(|e: ParameterIndexEntry| e@) =~= Map::<
            int,
            ParamModel,
        >::empty());
        while i < entries.len()
            invariant
                i <= entries@.len(),
                ids == param_numbers(entries@),
                models == param_models(entries@),
                forall|i: int| 0 <= i < entries@.len() ==> (#[trigger] entries@[i]).wf(),
                params.wf(),
                entries_wf(params@),
                forall|k: int| #[trigger]
                    params@.contains_key(k) ==> exists|j: int|
                        0 <= j < i && entries@[j] == params@[k],
                collect(ids, models, 0, Map::empty()) == collect(
                    ids,
                    models,
                    i as int,
                    params@.map_values(|e: ParameterIndexEntry| e@),
                ),
            decreases entries@.len() - i,
        {
            let entry = entries[i].clone();
            let ghost before = params@;
            let added = params.insert(entry.param_num as i64, entry);
            proof {
                assert(before.map_values(|e: ParameterIndexEntry| e@).dom() =~= before.dom());
            }
            if !added {
                return Err(Fatal::DuplicateKey);
            }
            assert(params@.map_values(|e: ParameterIndexEntry| e@) =~= before.map_values(
                |e: ParameterIndexEntry| e@,
            ).insert(ids[i as int], models[i as int]));
            i += 1;
        }
        Ok(ParameterIndex { params })
    }

    /// Reads the `num_entries` records of a schema-2 file at the cursor. Such
    /// a file has no menus: each record names its menu, and the result holds
    /// one table of parameters for each menu that is named.
    pub fn read_v2_entries(fp: &mut FileBlob, num_entries: u16) -> (r: Result<
        Table<ParameterIndex>,
        Fatal,
    >)
        requires
            old(fp).wf(),
        ensures
            final(fp).follows(*old(fp)),
            match read_v2_records(
                old(fp).handle().bytes(),
                old(fp).cursor(),
                num_entries as nat,
                Map::empty(),
            ) {
                Ok((menus, next)) => {
                    &&& r is Ok
                    &&& r->Ok_0.wf()
                    &&& menu_models(r->Ok_0@) == menus
                    &&& forall|k: int| #[trigger]
                        r->Ok_0@.contains_key(k) ==> 0 <= k <= 255 && r->Ok_0@[k].wf()
                            && r->Ok_0@[k].within(old(fp).handle())
                    &&& final(fp).cursor() == next
                },
                Err(e) => r == Err::<Table<ParameterIndex>, Fatal>(e),
            },
    {
        let mut tmp_menus: Table<ParameterIndex> = Table::new();
        let ghost blob = old(fp).handle();
        let ghost bytes = blob.bytes();
        let ghost whole = read_v2_records(bytes, old(fp).cursor(), num_entries as nat, Map::empty());
        assert(menu_models(tmp_menus@) =~= Map::<int, Map<int, ParamModel>>::empty());
        let mut i: u16 = 0;
        while i < num_entries
            invariant
                i <= num_entries,
                fp.follows(*old(fp)),
                blob == old(fp).handle(),
                bytes == blob.bytes(),
                whole == read_v2_records(bytes, old(fp).cursor(), num_entries as nat, Map::empty()),
                tmp_menus.wf(),
                forall|k: int| #[trigger]
                    tmp_menus@.contains_key(k) ==> 0 <= k <= 255 && tmp_menus@[k].wf()
                        && tmp_menus@[k].within(blob),
                whole == read_v2_records(
                    bytes,
                    fp.cursor(),
                    (num_entries - i) as nat,
                    menu_models(tmp_menus@),
                ),
            decreases num_entries - i,
        {
            let (menu, param, entry) = ParameterIndexEntry::load_v2(fp)?;
            if entry.caption_off != 0 {
                let ghost before = tmp_menus@;
                let ghost model = entry@;
                assert(menu_models(before).dom() =~= before.dom());
                let mut index = match tmp_menus.remove(menu as i64) {
                    Some(index) => index,
                    None => {
                        let index = ParameterIndex { params: Table::new() };
                        assert(index@ =~= Map::<int, ParamModel>::empty());
                        index
                    },
                };
                let ghost group = index@;
                let ghost group_entries = index.params@;
                assert(group.dom() =~= group_entries.dom());
                if !index.params.insert(param as i64, entry) {
                    return Err(Fatal::DuplicateKey);
                }
                assert(index@ =~= group.insert(param as int, model));
                let ghost removed = tmp_menus@;
                let added = tmp_menus.insert(menu as i64, index);
                assert(added);
                assert(menu_models(tmp_menus@) =~= menu_models(before).insert(
                    menu as int,
                    group.insert(param as int, model),
                ));
            }
            i += 1;
        }
        Ok(tmp_menus)
    }

    /// Reads a schema-3 table of parameters at the cursor. Entry 255 is no
    /// parameter: it is taken out, and its offsets are handed out as those of
    /// the menu's caption and tooltip.
    pub fn from_v3(fp: &mut FileBlob, root_font_family: u8) -> (r: Result<
        (ParameterIndex, u32, u32),
        Fatal,
    >)
        requires
            old(fp).wf(),
        ensures
            final(fp).follows(*old(fp)),
            match read_v3(old(fp).handle().bytes(), old(fp).cursor(), root_font_family) {
                Ok(((params, caption_off, tooltip_off), next)) => {
                    &&& r is Ok
                    &&& r->Ok_0.0.wf()
                    &&& r->Ok_0.0.within(old(fp).handle())
                    &&& r->Ok_0.0@ == params
                    &&& r->Ok_0.1 == caption_off
                    &&& r->Ok_0.2 == tooltip_off
                    &&& final(fp).cursor() == next
                },
                Err(e) => r == Err::<(ParameterIndex, u32, u32), Fatal>(e),
            },
    {
        let num_entries = fp.read_le_2bytes(BlobRegions::Parameters)?;
        let max_str_len = fp.read_le_2bytes(BlobRegions::Parameters)?;
        let font_family = fp.read_byte(BlobRegions::Parameters)?;
        let idx_entry_len = fp.read_byte(BlobRegions::Parameters)?;
        if root_font_family != font_family {
            return Err(Fatal::FontFamily);
        }
        let mut params: Table<ParameterIndexEntry> = Table::new();
        assert(params@.map_values(|e: ParameterIndexEntry| e@) =~= Map::<
            int,
            ParamModel,
        >::empty());
        if idx_entry_len != 0 {
            Self::validate_schema(3, idx_entry_len, max_str_len)?;
            let ghost blob = old(fp).handle();
            let ghost bytes = blob.bytes();
            let ghost whole = read_v3(bytes, old(fp).cursor(), root_font_family);
            let ghost start = fp.cursor();
            let mut i: u16 = 0;
            while i < num_entries
                invariant
                    i <= num_entries,
                    fp.follows(*old(fp)),
                    blob == old(fp).handle(),
                    bytes == blob.bytes(),
                    whole == read_v3(bytes, old(fp).cursor(), root_font_family),
                    params.wf(),
                    entries_wf(params@),
                    entries_within(params@, blob),
                    read_v3_records(bytes, start, num_entries as nat, Map::empty())
                        == read_v3_records(
                        bytes,
                        fp.cursor(),
                        (num_entries - i) as nat,
                        params@.map_values(|e: ParameterIndexEntry| e@),
                    ),
                    read_v3_records(bytes, start, num_entries as nat, Map::empty()) is Err
                        ==> whole is Err && whole->Err_0 == read_v3_records(
                        bytes,
                        start,
                        num_entries as nat,
                        Map::empty(),
                    )->Err_0,
                decreases num_entries - i,
            {
                let (param, entry) = ParameterIndexEntry::load_v3(fp)?;
                if entry.caption_off != 0 {
                    let ghost before = params@;
                    let ghost model = entry@;
                    assert(before.map_values(|e: ParameterIndexEntry| e@).dom() =~= before.dom());
                    if !params.insert(param as i64, entry) {
                        return Err(Fatal::DuplicateKey);
                    }
                    assert(params@.map_values(|e: ParameterIndexEntry| e@) =~= before.map_values(
                        |e: ParameterIndexEntry| e@,
                    ).insert(param as int, model));
                }
                i += 1;
            }
            let mut param_index = ParameterIndex { params };
            assert(param_index.within(blob));
            let (caption_off, tooltip_off) = param_index.self_check_param255();
            Ok((param_index, caption_off, tooltip_off))
        } else {
            Ok((ParameterIndex { params }, 0, 0))
        }
    }

    /// Takes entry 255 out of the table, if it is there.
    fn check_param255(params: &mut Table<ParameterIndexEntry>) -> (r: (u32, u32))
        requires
            old(params).wf(),
        ensures
            final(params).wf(),
            final(params)@ == old(params)@.remove(255),
            r == if old(params)@.contains_key(255) {
                (old(params)@[255]@.caption_off, old(params)@[255]@.tooltip_off)
            } else {
                (0u32, 0u32)
            },
    {
        let fake_param = match params.remove(MENU_CAPTION as i64) {
            Some(param) => param,
            None => {
                return (0, 0);
            },
        };
        (fake_param.caption_off, fake_param.tooltip_off)
    }

    /// Takes entry 255 out of the table, if it is there, and hands out its
    /// offsets: those of the caption and the tooltip of the menu. Zeros where it
    /// is not there.
    pub fn self_check_param255(&mut self) -> (r: (u32, u32))
        requires
            old(self).wf(),
        ensures
            final(self).wf(),
            final(self)@ == old(self)@.remove(255),
            !final(self)@.contains_key(255),
            r == menu_caption(old(self)@),
            forall|blob: RawBlob| #[trigger] old(self).within(blob) ==> final(self).within(blob),
    {
        proof {
            assert(old(self)@.dom() =~= old(self).params@.dom());
        }
        let r = ParameterIndex::check_param255(&mut self.params);
        proof {
            assert(self@ =~= old(self)@.remove(255));
        }
        r
    }

    /// Checks what a table's header says of itself.
    pub fn validate_schema(schema: u16, idx_entry_len: u8, max_str_len: u16) -> (r: Result<
        (),
        Fatal,
    >)
        ensures
            r == check_schema(schema, idx_entry_len, max_str_len),
    {
        let mut req_str_len: u16 = 32;
        match schema {
            2 => {
                if idx_entry_len != 6 {
                    return Err(Fatal::EntrySize);
                }
            },
            3 => {
                if idx_entry_len != 5 {
                    return Err(Fatal::EntrySize);
                }
            },
            4 => {
                if idx_entry_len != 5 {
                    return Err(Fatal::EntrySize);
                }
                req_str_len = 256;
            },
            _ => {
                return Err(Fatal::InvalidFormat);
            },
        }
        if max_str_len != req_str_len {
            return Err(Fatal::StringLength);
        }
        Ok(())
    }

    /// The number of parameters.
    pub fn get_num_params(&self) -> (n: usize)
        requires
            self.wf(),
        ensures
            self@.dom().finite(),
            n == self@.dom().len(),
    {
        assert(self@.dom() =~= self.params@.dom());
        self.params.len()
    }

    /// The entry of a parameter, if the table has it.
    pub fn get(&self, param: u8) -> (r: Option<&ParameterIndexEntry>)
        requires
            self.wf(),
        ensures
            match r {
                Some(entry) => {
                    &&& self@.contains_key(param as int)
                    &&& self@[param as int] == entry@
                    &&& entry.wf()
                    &&& forall|blob: RawBlob| #[trigger] self.within(blob) ==> entry.within(blob)
                },
                None => !self@.contains_key(param as int),
            },
    {
        assert(self@.dom() =~= self.params@.dom());
        self.params.get(param as i64)
    }
}


impl ParameterIndex {
    /// Reads the `num_entries` records of a schema-4 table at the cursor.
    fn read_v4_entries(fp: &mut FileBlob, num_entries: u8) -> (r: Result<
        Vec<(u8, u32, u32, u32)>,
        Fatal,
    >)
        requires
            old(fp).wf(),
        ensures
            final(fp).follows(*old(fp)),
            match read_v4_records(
                old(fp).handle().bytes(),
                old(fp).cursor(),
                num_entries as nat,
                Seq::empty(),
            ) {
                Ok((records, next)) => r is Ok && r->Ok_0@ == records && final(fp).cursor() == next,
                Err(e) => r == Err::<Vec<(u8, u32, u32, u32)>, Fatal>(e),
            },
    {
        let mut tmp_info: Vec<(u8, u32, u32, u32)> = Vec::new();
        let ghost bytes = old(fp).handle().bytes();
        let ghost whole = read_v4_records(bytes, old(fp).cursor(), num_entries as nat, Seq::empty());
        let mut i: u8 = 0;
        while i < num_entries
            invariant
                i <= num_entries,
                fp.follows(*old(fp)),
                bytes == old(fp).handle().bytes(),
                whole == read_v4_records(
                    bytes,
                    old(fp).cursor(),
                    num_entries as nat,
                    Seq::empty(),
                ),
                whole == read_v4_records(bytes, fp.cursor(), (num_entries - i) as nat, tmp_info@),
            decreases num_entries - i,
        {
            let buf = fp.read_exact(10, BlobRegions::Parameters)?;
            let param = buf[0];
            let caption_off = little_endian_3_bytes(slice_subrange(buf.as_slice(), 1, 4));
            let tooltip_off = little_endian_3_bytes(slice_subrange(buf.as_slice(), 4, 7));
            let mnemonic_off = little_endian_3_bytes(slice_subrange(buf.as_slice(), 7, 10));
            if caption_off > 0 {
                tmp_info.push((param, caption_off, tooltip_off, mnemonic_off));
            }
            i += 1;
        }
        Ok(tmp_info)
    }

    /// Reads a schema-4 table of parameters at the cursor, and the tables of
    /// values that its records name.
    pub fn from_v4(fp: &mut FileBlob) -> (r: Result<ParameterIndex, Fatal>)
        requires
            old(fp).wf(),
        ensures
            parses(*old(fp), *final(fp), r, read_v4(old(fp).handle().bytes(), old(fp).cursor())),
            r is Ok ==> r->Ok_0.wf() && r->Ok_0.within(old(fp).handle()),
    {
        let num_params = fp.read_byte(BlobRegions::Parameters)?;
        let idx_entry_len = fp.read_byte(BlobRegions::Parameters)?;
        let mut params: Table<ParameterIndexEntry> = Table::new();
        assert(params@.map_values(|e: ParameterIndexEntry| e@) =~= Map::<
            int,
            ParamModel,
        >::empty());
        if idx_entry_len != 0 {
            Self::validate_schema(4, idx_entry_len, 256)?;
            let tmp_info = Self::read_v4_entries(fp, num_params)?;
            let ghost blob = old(fp).handle();
            let ghost bytes = blob.bytes();
            let ghost whole = read_v4(bytes, old(fp).cursor());
            let mut i: usize = 0;
            while i < tmp_info.len()
                invariant
                    i <= tmp_info@.len(),
                    fp.follows(*old(fp)),
                    blob == old(fp).handle(),
                    bytes == blob.bytes(),
                    whole == read_v4(bytes, old(fp).cursor()),
                    params.wf(),
                    entries_wf(params@),
                    entries_within(params@, blob),
                    whole == build_v4(
                        bytes,
                        fp.cursor(),
                        tmp_info@,
                        i as int,
                        params@.map_values(|e: ParameterIndexEntry| e@),
                    ),
                decreases tmp_info@.len() - i,
            {
                let (param, caption_off, tooltip_off, mnemonic_off) = tmp_info[i];
                let mnemonic = if mnemonic_off > 0 {
                    fp.set_pos(mnemonic_off);
                    MnemonicIndex::from(fp)?
                } else {
                    MnemonicIndex::empty()
                };
                let entry = ParameterIndexEntry::new(
                    param,
                    caption_off,
                    tooltip_off,
                    mnemonic,
                    fp,
                );
                let ghost before = params@;
                let ghost model = entry@;
                assert(before.map_values(|e: ParameterIndexEntry| e@).dom() =~= before.dom());
                if !params.insert(param as i64, entry) {
                    return Err(Fatal::DuplicateKey);
                }
                assert(params@.map_values(|e: ParameterIndexEntry| e@) =~= before.map_values(
                    |e: ParameterIndexEntry| e@,
                ).insert(param as int, model));
                i += 1;
            }
        }
        Ok(ParameterIndex { params })
    }

    /// Puts the parameters into words, by falling number, and adds the
    /// lines to `lines`.
    pub(crate) fn dump(
        &self,
        lines: &mut Vec<String>,
        stats: &mut Stats,
        Ghost(blob): Ghost<RawBlob>,
    ) -> (r: Result<(), DumpError>)
        requires
            self.wf(),
            self.within(blob),
            old(stats).regions().len() == blob.bytes().len(),
        ensures
            final(stats).regions().len() == blob.bytes().len(),
            dumps(
                r,
                final(lines)@,
                *final(stats),
                dump_params(
                    blob.bytes(),
                    blob.maps(),
                    listing(self@),
                    0,
                    (Dumped {
                        failure: None,
                        lines: line_texts(old(lines)@),
                        regions: old(stats).regions(),
                        strings: old(stats).strings(),
                    }),
                ),
            ),
    {
        let n = self.params.len();
        let ghost items = listing(self@);
        let ghost start = Dumped {
            failure: None,
            lines: line_texts(lines@),
            regions: stats.regions(),
            strings: stats.strings(),
        };
        proof {
            lemma_backwards(self.params.keys(), self.params.values(), |e: ParameterIndexEntry| e@);
        }
        let mut i: usize = n;
        while i > 0
            invariant
                self.wf(),
                self.within(blob),
                n == self.params.keys().len(),
                i <= n,
                items == listing(self@),
                start == (Dumped {
                    failure: None,
                    lines: line_texts(old(lines)@),
                    regions: old(stats).regions(),
                    strings: old(stats).strings(),
                }),
                items == backwards(
                    self.params.keys(),
                    self.params.values(),
                    |e: ParameterIndexEntry| e@,
                ),
                stats.regions().len() == blob.bytes().len(),
                dump_params(blob.bytes(), blob.maps(), items, 0, start) == dump_params(
                    blob.bytes(),
                    blob.maps(),
                    items,
                    n - i,
                    (Dumped {
                        failure: None,
                        lines: line_texts(lines@),
                        regions: stats.regions(),
                        strings: stats.strings(),
                    }),
                ),
            decreases i,
        {
            i -= 1;
            let entry = self.params.value_at(i);
            let ghost before = Dumped {
                failure: None,
                lines: line_texts(lines@),
                regions: stats.regions(),
                strings: stats.strings(),
            };
            let mut prefix = "- - - P.".to_owned();
            prefix.append(key_arrow(entry.param_num as u64).as_str());
            let r = entry.blob.dump_entry(
                prefix,
                entry.caption_off,
                entry.tooltip_off,
                32,
                lines,
                stats,
            );
            proof {
                let after = dump_entry(
                    blob.bytes(),
                    blob.maps(),
                    param_prefix(items[n - 1 - i].0 as nat),
                    items[n - 1 - i].1.caption_off,
                    items[n - 1 - i].1.tooltip_off,
                    32,
                    before,
                );
                assert(dump_params(blob.bytes(), blob.maps(), items, n - 1 - i, before)
                    == dump_params(blob.bytes(), blob.maps(), items, n - i, after));
                assert(after.failure is Some ==> dump_params(
                    blob.bytes(),
                    blob.maps(),
                    items,
                    n - i,
                    after,
                ) == after);
            }
            if let Err(e) = r {
                return Err(e);
            }
        }
        Ok(())
    }

    /// The entries by falling number, for going through them.
    pub fn into_iter(&self) -> (iter: ParameterIndexIterator)
        requires
            self.wf(),
        ensures
            iter.wf(),
            lists_descending(iter@, self@),
            forall|blob: RawBlob| #[trigger] self.within(blob) ==> iter.within(blob),
    {
        let mut items: Vec<(u8, ParameterIndexEntry)> = Vec::new();
        let n = self.params.len();
        let mut i: usize = 0;
        while i < n
            invariant
                self.wf(),
                n == self.params.keys().len(),
                i <= n,
                items@.len() == i,
                forall|j: int|
                    0 <= j < i ==> #[trigger] items@[j] == (
                        self.params.keys()[j] as u8,
                        self.params.values()[j],
                    ) && self.params.keys()[j] == items@[j].0 && items@[j].1.wf(),
            decreases n - i,
        {
            let entry = self.params.value_at(i).clone();
            items.push((entry.param_num, entry));
            i += 1;
        }
        let iter = ParameterIndexIterator { items };
        proof {
            assert forall|blob: RawBlob| #[trigger] self.within(blob) implies iter.within(
                blob,
            ) by {
                assert forall|j: int| 0 <= j < iter.items@.len() implies (
                #[trigger] iter.items@[j]).1.within(blob) by {
                    lemma_map_at(self.params.keys(), self.params.values(), j);
                }
            }
            lemma_descending(
                self.params.keys(),
                self.params.values(),
                |e: ParameterIndexEntry| e@,
                iter@,
            );
        }
        iter
    }
}

/// The entries of a table of parameters that are still to come, by falling
/// number.
pub struct ParameterIndexIterator {
    items: Vec<(u8, ParameterIndexEntry)>,
}

impl View for ParameterIndexIterator {
    type V = Seq<(int, ParamModel)>;

    closed spec fn view(&self) -> Seq<(int, ParamModel)> {
        Seq::new(
            self.items@.len(),
            |i: int|
                (
                    self.items@[self.items@.len() - 1 - i].0 as int,
                    self.items@[self.items@.len() - 1 - i].1@,
                ),
        )
    }
}

impl ParameterIndexIterator {
    /// Every entry that is still to come is well formed.
    pub closed spec fn wf(&self) -> bool {
        forall|i: int| 0 <= i < self.items@.len() ==> (#[trigger] self.items@[i]).1.wf()
    }

    /// Every entry that is still to come resolves its strings by `blob`.
    pub closed spec fn within(&self, blob: RawBlob) -> bool {
        forall|i: int| 0 <= i < self.items@.len() ==> (#[trigger] self.items@[i]).1.within(blob)
    }

    /// The next entry with its number, if one is left.
    pub fn next(&mut self) -> (r: Option<(u8, ParameterIndexEntry)>)
        ensures
            old(self).wf() ==> final(self).wf(),
            forall|blob: RawBlob| #[trigger] old(self).within(blob) ==> final(self).within(blob),
            match r {
                Some((number, entry)) => {
                    &&& old(self)@.len() > 0
                    &&& old(self)@[0] == (number as int, entry@)
                    &&& final(self)@ == old(self)@.skip(1)
                    &&& old(self).wf() ==> entry.wf()
                    &&& forall|blob: RawBlob| #[trigger]
                        old(self).within(blob) ==> entry.within(blob)
                },
                None => old(self)@.len() == 0 && final(self)@ == old(self)@,
            },
    {
        let r = self.items.pop();
        proof {
            if r is Some {
                assert(self@ =~= old(self)@.skip(1));
                assert(old(self).items@[old(self).items@.len() - 1] == r->Some_0);
            }
        }
        r
    }
}

} // verus!
