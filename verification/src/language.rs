use crate::blob::{
    describe, is_lead, lemma_describe_single_bytes, region_free, StringFailure,
    lemma_take_free, lemma_take_in_parts, line_texts, tagged, take, take_le2, BlobRegions,
    Cursor, DumpError, Dumped, FileBlob, RawBlob, Stats, StringRecord,
};
use crate::characters::{lookup, CharacterMaps, CharacterMapsModel};
use crate::conversion::{
    le_bytes, lemma_le3_at, lemma_le_bytes_len, little_endian_2_bytes,
    little_endian_2_bytes_as_u8, little_endian_3_bytes, little_endian_4_bytes,
    little_endian_4_version, spec_le2, spec_le3, spec_le4, spec_version,
};
use crate::enumerations::{
    dump_enumerations, read_enumerations, EnumerationModel, EnumerationsIndex,
};
use crate::error::Fatal;
use crate::menus::{lemma_one_menu, one_menu_table, MenuModel};
use crate::modes::{lemma_one_mode, one_mode_table, ModeModel};
use crate::parameters::{lemma_one_param, one_param_table, plain_param, ParamModel};
use crate::keypadstrs::{dump_keypad_strs, read_keypad_strs, KeypadStrIndex, KeypadStrModel};
use crate::products::{
    bounds_of, dump_products, lemma_one_product, one_product_table, read_products, CountBounds,
    ProductIndex, ProductModel, ProductRecord,
};
use crate::table::listing;
use crate::units::{dump_units, read_units, UnitsIndex, UnitsModel};
use vstd::prelude::*;
use vstd::slice::slice_subrange;

verus! {

/// What the head of a language file says of the file.
pub struct Header {
    pub file_len: u32,
    pub file_crc: u32,
    pub schema: u16,
    pub locale_id: u16,
    pub lang_version: String,
    pub lang_name: Vec<u8>,
    pub font_family: u8,
    pub offset_size: u16,
}

/// What the head of a language file says, as plain values.
pub struct HeaderModel {
    pub file_len: u32,
    pub file_crc: u32,
    pub schema: u16,
    pub locale_id: u16,
    pub lang_version: Seq<char>,
    pub lang_name: Seq<u8>,
    pub font_family: u8,
    pub offset_size: u16,
}

impl View for Header {
    type V = HeaderModel;

    open spec fn view(&self) -> HeaderModel {
        HeaderModel {
            file_len: self.file_len,
            file_crc: self.file_crc,
            schema: self.schema,
            locale_id: self.locale_id,
            lang_version: self.lang_version@,
            lang_name: self.lang_name@,
            font_family: self.font_family,
            offset_size: self.offset_size,
        }
    }
}

/// All that a language file holds.
pub struct LanguageModel {
    pub header: HeaderModel,
    pub products: Map<int, ProductModel>,
    pub enumerations: Map<int, EnumerationModel>,
    pub keypad_strs: Map<int, KeypadStrModel>,
    pub units: Map<int, UnitsModel>,
}

/// The length of the part of the head that every schema has.
pub const COMMON_HEADER: usize = 32;

/// The length that the file states for itself, in its first four bytes.
pub open spec fn stated_len(data: Seq<u8>) -> u32 {
    spec_le4(data) as u32
}

/// The schema that the file states for itself.
pub open spec fn stated_schema(data: Seq<u8>) -> u16 {
    spec_le2(data.skip(8)) as u16
}

/// The decoder that goes with a schema: UTF-8 from schema 4 on, before that
/// the maps of the code page.
pub open spec fn decoder_of(schema: u16, maps: CharacterMapsModel) -> CharacterMapsModel {
    if schema > 3 {
        CharacterMapsModel { is_utf8: true, maps: Seq::empty() }
    } else {
        maps
    }
}

/// The schema is 2 with offsets of four bytes, or 3 or 4 with offsets of
/// three: else `InvalidFormat`.
pub open spec fn check_format(schema: u16, offset_size: u16) -> Result<(), Fatal> {
    if (schema == 2 && offset_size == 4) || (schema == 3 && offset_size == 3) || (schema == 4
        && offset_size == 3) {
        Ok(())
    } else {
        Err(Fatal::InvalidFormat)
    }
}

/// Reading the font family at the cursor: before schema 4 it stands in two
/// bytes, of which the second must be 0, else `ValueTooLarge`. From schema 4
/// on there is none, and it counts as 0.
pub open spec fn read_font_family(bytes: Seq<u8>, cur: Cursor, schema: u16) -> Result<
    (u8, Cursor),
    Fatal,
> {
    if schema < 4 {
        match take(bytes, cur, 2, BlobRegions::Header) {
            Err(e) => Err(e),
            Ok((buf, next)) => if buf[1] != 0 {
                Err(Fatal::ValueTooLarge)
            } else {
                Ok((buf[0], next))
            },
        }
    } else {
        Ok((0, cur))
    }
}

/// Reading the offsets of the four tables at the cursor: of the products, of
/// the enumerations, of the keypad strings and of the units. Each is a number
/// of three bytes. Schema 2 gives each a slot of four bytes, schema 3 one of
/// three. Schema 4 has no keypad strings: their offset counts as 0.
pub open spec fn read_offsets(bytes: Seq<u8>, cur: Cursor, schema: u16) -> Result<
    (Seq<u32>, Cursor),
    Fatal,
> {
    if schema == 2 {
        match take(bytes, cur, 16, BlobRegions::Header) {
            Err(e) => Err(e),
            Ok((buf, next)) => Ok(
                (
                    seq![
                        spec_le3(buf) as u32,
                        spec_le3(buf.skip(4)) as u32,
                        spec_le3(buf.skip(8)) as u32,
                        spec_le3(buf.skip(12)) as u32,
                    ],
                    next,
                ),
            ),
        }
    } else if schema == 3 {
        match take(bytes, cur, 12, BlobRegions::Header) {
            Err(e) => Err(e),
            Ok((buf, next)) => Ok(
                (
                    seq![
                        spec_le3(buf) as u32,
                        spec_le3(buf.skip(3)) as u32,
                        spec_le3(buf.skip(6)) as u32,
                        spec_le3(buf.skip(9)) as u32,
                    ],
                    next,
                ),
            ),
        }
    } else if schema == 4 {
        match take(bytes, cur, 9, BlobRegions::Header) {
            Err(e) => Err(e),
            Ok((buf, next)) => Ok(
                (
                    seq![
                        spec_le3(buf) as u32,
                        spec_le3(buf.skip(3)) as u32,
                        0u32,
                        spec_le3(buf.skip(6)) as u32,
                    ],
                    next,
                ),
            ),
        }
    } else {
        Err(Fatal::InvalidFormat)
    }
}

/// Reading the keypad strings: at their offset where it is not 0. Where it
/// is 0, a schema-2 file is refused with `MissingKeypadStrs`, and a later one
/// has none.
pub open spec fn read_keypad(bytes: Seq<u8>, cur: Cursor, schema: u16, font_family: u8, offset: u32) -> Result<
    (Map<int, KeypadStrModel>, Cursor),
    Fatal,
> {
    if offset > 0 {
        read_keypad_strs(bytes, Cursor { pos: offset as int, ..cur }, schema, font_family)
    } else if schema == 2 {
        Err(Fatal::MissingKeypadStrs)
    } else {
        Ok((Map::empty(), cur))
    }
}

/// Reading the four tables, each at its offset, in their order: products,
/// enumerations, keypad strings, units.
pub open spec fn read_tables(
    bytes: Seq<u8>,
    cur: Cursor,
    header: HeaderModel,
    offsets: Seq<u32>,
    bounds: CountBounds,
) -> Result<(LanguageModel, Cursor), Fatal> {
    let schema = header.schema;
    let font_family = header.font_family;
    match read_products(
        bytes,
        Cursor { pos: offsets[0] as int, ..cur },
        schema,
        font_family,
        bounds,
    ) {
        Err(e) => Err(e),
        Ok((products, c1)) => match read_enumerations(
            bytes,
            Cursor { pos: offsets[1] as int, ..c1 },
            schema,
            font_family,
        ) {
            Err(e) => Err(e),
            Ok((enumerations, c2)) => match read_keypad(bytes, c2, schema, font_family, offsets[2]) {
                Err(e) => Err(e),
                Ok((keypad_strs, c3)) => match read_units(
                    bytes,
                    Cursor { pos: offsets[3] as int, ..c3 },
                    schema,
                    font_family,
                ) {
                    Err(e) => Err(e),
                    Ok((units, c4)) => Ok(
                        (LanguageModel { header, products, enumerations, keypad_strs, units }, c4),
                    ),
                },
            },
        },
    }
}

/// Reading a whole language file. The head of 32 bytes gives the length, the
/// checksum, the schema, the locale, the version and the name. A file shorter
/// than that is `OutOfBounds`, one of another length than it states is
/// `LengthMismatch`. Behind the head stand the font family, the width of an
/// offset and the offsets of the four tables, and at those offsets the tables.
pub open spec fn read_language(data: Seq<u8>, bounds: CountBounds) -> Result<
    (LanguageModel, Cursor),
    Fatal,
> {
    if data.len() < 32 {
        Err(Fatal::OutOfBounds)
    } else if data.len() != stated_len(data) {
        Err(Fatal::LengthMismatch)
    } else {
        let schema = stated_schema(data);
        let start = Cursor { pos: 32, regions: Seq::new(data.len(), |i: int| BlobRegions::Empty) };
        match read_font_family(data, start, schema) {
            Err(e) => Err(e),
            Ok((font_family, c1)) => match take_le2(data, c1, BlobRegions::Header) {
                Err(e) => Err(e),
                Ok((offset_size, c2)) => match check_format(schema, offset_size) {
                    Err(e) => Err(e),
                    Ok(()) => match read_offsets(data, c2, schema) {
                        Err(e) => Err(e),
                        Ok((offsets, c3)) => read_tables(
                            data,
                            c3,
                            HeaderModel {
                                file_len: stated_len(data),
                                file_crc: spec_le4(data.skip(4)) as u32,
                                schema,
                                locale_id: spec_le2(data.skip(10)) as u16,
                                lang_version: spec_version(data.subrange(12, 16)),
                                lang_name: data.subrange(16, 32),
                                font_family,
                                offset_size,
                            },
                            offsets,
                            bounds,
                        ),
                    },
                },
            },
        }
    }
}

/// What a schema-3 file says behind its head of 32 bytes, where its
/// products stand at offset 52 and it has no keypad strings: the font
/// family, an offset width of 3, and the four offsets.
pub open spec fn small_file_head(font_family: u8, enumerations: u32, units: u32) -> Seq<u8> {
    seq![font_family, 0u8, 3u8, 0u8] + le_bytes(52, 3) + le_bytes(enumerations as nat, 3)
        + le_bytes(0, 3) + le_bytes(units as nat, 3)
}

/// What each byte of such a file was read as once its one product is read,
/// with its one mode at offset 65, that mode's one menu at offset 70 and that
/// menu's one parameter at offset 75.
#[verifier::opaque]
pub open spec fn small_file_regions(len: nat) -> Seq<BlobRegions> {
    tagged(
        tagged(
            tagged(
                tagged(
                    tagged(Seq::new(len, |i: int| BlobRegions::Empty), 32, 48, BlobRegions::Header),
                    52,
                    65,
                    BlobRegions::Products,
                ),
                65,
                70,
                BlobRegions::Modes,
            ),
            70,
            75,
            BlobRegions::Menus,
        ),
        75,
        86,
        BlobRegions::Parameters,
    )
}

/// The bytes are a schema-3 file with one product for all derivatives at
/// offset 52, its one mode at offset 65, that mode's one menu at offset 70 and
/// that menu's one parameter at offset 75, and with no keypad strings.
#[verifier::opaque]
pub open spec fn small_file(
    data: Seq<u8>,
    font_family: u8,
    product_id: u16,
    flags: u16,
    param: u8,
    caption_off: u32,
    enumerations_off: u32,
    units_off: u32,
) -> bool {
    &&& data.len() >= 86
    &&& data.subrange(32, 48) == small_file_head(font_family, enumerations_off, units_off)
    &&& data.subrange(52, 65) == one_product_table(
        ProductRecord {
            product_id,
            derivative_id_low: 0,
            derivative_id_high: 65535,
            flags,
            offset: 65,
        },
    )
    &&& data.subrange(65, 70) == one_mode_table(70)
    &&& data.subrange(70, 75) == one_menu_table(75)
    &&& data.subrange(75, 86) == one_param_table(font_family, param, caption_off)
    &&& param != 255
    &&& 0 < caption_off < 0x100_0000
    &&& enumerations_off < 0x100_0000
    &&& units_off < 0x100_0000
}

/// The one product of such a file, with its one mode, that mode's one menu
/// and that menu's one parameter.
#[verifier::opaque]
pub open spec fn small_file_products(
    product_id: u16,
    flags: u16,
    param: u8,
    caption_off: u32,
) -> Map<int, ProductModel> {
    Map::<int, ProductModel>::empty().insert(
        product_id as int,
        ProductModel {
            product_id,
            derivative_id_low: 0,
            derivative_id_high: 65535,
            flags,
            modes: Map::<int, ModeModel>::empty().insert(
                0,
                ModeModel {
                    mode_num: 0,
                    menus: Map::<int, MenuModel>::empty().insert(
                        0,
                        MenuModel {
                            menu_num: 0,
                            caption_off: 0,
                            tooltip_off: 0,
                            params: Map::<int, ParamModel>::empty().insert(
                                param as int,
                                plain_param(param, caption_off),
                            ),
                        },
                    ),
                },
            ),
        },
    )
}

/// What stands behind the head of such a file is read as its font family,
/// its offset width and its four offsets, and the 16 bytes are marked as
/// part of the header.
#[verifier::rlimit(80)]
pub proof fn lemma_small_file_head(
    data: Seq<u8>,
    font_family: u8,
    enumerations_off: u32,
    units_off: u32,
)
    requires
        data.len() >= 48,
        data.subrange(32, 48) == small_file_head(font_family, enumerations_off, units_off),
        enumerations_off < 0x100_0000,
        units_off < 0x100_0000,
    ensures
        ({
            let start = Cursor {
                pos: 32,
                regions: Seq::new(data.len(), |i: int| BlobRegions::Empty),
            };
            let c34 = read_font_family(data, start, 3)->Ok_0.1;
            let c36 = take_le2(data, c34, BlobRegions::Header)->Ok_0.1;
            &&& read_font_family(data, start, 3) is Ok
            &&& read_font_family(data, start, 3)->Ok_0.0 == font_family
            &&& take_le2(data, c34, BlobRegions::Header) is Ok
            &&& take_le2(data, c34, BlobRegions::Header)->Ok_0.0 == 3
            &&& read_offsets(data, c36, 3) == Ok::<(Seq<u32>, Cursor), Fatal>(
                (
                    seq![52u32, enumerations_off, 0u32, units_off],
                    Cursor {
                        pos: 48,
                        regions: tagged(start.regions, 32, 48, BlobRegions::Header),
                    },
                ),
            )
        }),
{
    let r0 = Seq::new(data.len(), |i: int| BlobRegions::Empty);
    lemma_le_bytes_len(52, 3);
    lemma_le_bytes_len(enumerations_off as nat, 3);
    lemma_le_bytes_len(0, 3);
    lemma_le_bytes_len(units_off as nat, 3);
    let start = Cursor { pos: 32, regions: r0 };
    lemma_take_free(data, start, 16, BlobRegions::Header);
    lemma_take_in_parts(data, start, 2, 14, BlobRegions::Header);
    let c34 = take(data, start, 2, BlobRegions::Header)->Ok_0.1;
    lemma_take_in_parts(data, c34, 2, 12, BlobRegions::Header);
    let c36 = take(data, c34, 2, BlobRegions::Header)->Ok_0.1;
    let table = take(data, c36, 12, BlobRegions::Header)->Ok_0.0;
    assert(take(data, start, 2, BlobRegions::Header)->Ok_0.0 =~= seq![font_family, 0u8]);
    assert(take(data, c34, 2, BlobRegions::Header)->Ok_0.0 =~= seq![3u8, 0u8]);
    assert(table =~= le_bytes(52, 3) + le_bytes(enumerations_off as nat, 3) + le_bytes(0, 3)
        + le_bytes(units_off as nat, 3));
    assert(table.skip(0) =~= table);
    assert(table.subrange(0, 3) =~= le_bytes(52, 3));
    lemma_le3_at(table, 0, 52);
    assert(table.subrange(3, 6) =~= le_bytes(enumerations_off as nat, 3));
    lemma_le3_at(table, 3, enumerations_off as nat);
    assert(table.subrange(6, 9) =~= le_bytes(0, 3));
    lemma_le3_at(table, 6, 0);
    assert(table.subrange(9, 12) =~= le_bytes(units_off as nat, 3));
    lemma_le3_at(table, 9, units_off as nat);
    assert(read_offsets(data, c36, 3)->Ok_0.0 =~= seq![52u32, enumerations_off, 0u32, units_off]);
}

/// The one product of such a file is read with all that lies below it, and
/// the cursor then stands behind the parameter.
#[verifier::rlimit(80)]
pub proof fn lemma_small_file_tree(
    data: Seq<u8>,
    font_family: u8,
    product_id: u16,
    flags: u16,
    param: u8,
    caption_off: u32,
)
    requires
        data.len() >= 86,
        data.subrange(52, 65) == one_product_table(
            ProductRecord {
                product_id,
                derivative_id_low: 0,
                derivative_id_high: 65535,
                flags,
                offset: 65,
            },
        ),
        data.subrange(65, 70) == one_mode_table(70),
        data.subrange(70, 75) == one_menu_table(75),
        data.subrange(75, 86) == one_param_table(font_family, param, caption_off),
        param != 255,
        0 < caption_off < 0x100_0000,
    ensures
        read_products(
            data,
            Cursor {
                pos: 52,
                regions: tagged(
                    Seq::new(data.len(), |i: int| BlobRegions::Empty),
                    32,
                    48,
                    BlobRegions::Header,
                ),
            },
            3,
            font_family,
            bounds_of(3),
        ) == Ok::<(Map<int, ProductModel>, Cursor), Fatal>(
            (
                small_file_products(product_id, flags, param, caption_off),
                Cursor { pos: 86, regions: small_file_regions(data.len()) },
            ),
        ),
{
    reveal(small_file_regions);
    reveal(small_file_products);
    let len = data.len();
    let r0 = Seq::new(len, |i: int| BlobRegions::Empty);
    let rh = tagged(r0, 32, 48, BlobRegions::Header);
    let r1 = tagged(rh, 52, 65, BlobRegions::Products);
    let r2 = tagged(r1, 65, 70, BlobRegions::Modes);
    let r3 = tagged(r2, 70, 75, BlobRegions::Menus);
    let r4 = tagged(r3, 75, 86, BlobRegions::Parameters);
    let rec = ProductRecord {
        product_id,
        derivative_id_low: 0,
        derivative_id_high: 65535,
        flags,
        offset: 65,
    };
    let params = Map::<int, ParamModel>::empty().insert(
        param as int,
        plain_param(param, caption_off),
    );
    let menus = Map::<int, MenuModel>::empty().insert(
        0,
        MenuModel { menu_num: 0, caption_off: 0, tooltip_off: 0, params },
    );
    let modes = Map::<int, ModeModel>::empty().insert(0, ModeModel { mode_num: 0, menus });
    let after = Cursor { pos: 86, regions: r4 };
    assert(region_free(r3, 75, 86, BlobRegions::Parameters));
    lemma_one_param(data, Cursor { pos: 75, regions: r3 }, font_family, param, caption_off);
    assert(region_free(r2, 70, 75, BlobRegions::Menus));
    lemma_one_menu(data, Cursor { pos: 70, regions: r2 }, font_family, 75, params, 0, 0, after);
    assert(region_free(r1, 65, 70, BlobRegions::Modes));
    lemma_one_mode(data, Cursor { pos: 65, regions: r1 }, font_family, 70, menus, after);
    assert(region_free(rh, 52, 65, BlobRegions::Products));
    lemma_one_product(
        data,
        Cursor { pos: 52, regions: rh },
        font_family,
        bounds_of(3),
        rec,
        modes,
        after,
    );
}

/// The four tables of a schema-3 file without keypad strings are read one
/// after the other, each at its offset and with the marks that the one before
/// left: where each of the three that are there can be read so, the file holds
/// what they hold.
pub proof fn lemma_tables_without_keypad(
    data: Seq<u8>,
    cur: Cursor,
    header: HeaderModel,
    offsets: Seq<u32>,
    bounds: CountBounds,
    products: Map<int, ProductModel>,
    after: Cursor,
    enumerations: Map<int, EnumerationModel>,
    between: Cursor,
    units: Map<int, UnitsModel>,
    end: Cursor,
)
    requires
        header.schema == 3,
        offsets.len() == 4,
        offsets[2] == 0,
        read_products(
            data,
            Cursor { pos: offsets[0] as int, regions: cur.regions },
            3,
            header.font_family,
            bounds,
        ) == Ok::<(Map<int, ProductModel>, Cursor), Fatal>((products, after)),
        read_enumerations(
            data,
            Cursor { pos: offsets[1] as int, regions: after.regions },
            3,
            header.font_family,
        ) == Ok::<(Map<int, EnumerationModel>, Cursor), Fatal>((enumerations, between)),
        read_units(
            data,
            Cursor { pos: offsets[3] as int, regions: between.regions },
            3,
            header.font_family,
        ) == Ok::<(Map<int, UnitsModel>, Cursor), Fatal>((units, end)),
    ensures
        read_tables(data, cur, header, offsets, bounds) == Ok::<(LanguageModel, Cursor), Fatal>(
            (
                LanguageModel {
                    header,
                    products,
                    enumerations,
                    keypad_strs: Map::empty(),
                    units,
                },
                end,
            ),
        ),
{
    assert(Cursor { pos: offsets[0] as int, ..cur } == Cursor {
        pos: offsets[0] as int,
        regions: cur.regions,
    });
    assert(Cursor { pos: offsets[1] as int, ..after } == Cursor {
        pos: offsets[1] as int,
        regions: after.regions,
    });
    assert(read_keypad(data, between, 3, header.font_family, offsets[2]) == Ok::<
        (Map<int, KeypadStrModel>, Cursor),
        Fatal,
    >((Map::empty(), between)));
    assert(Cursor { pos: offsets[3] as int, ..between } == Cursor {
        pos: offsets[3] as int,
        regions: between.regions,
    });
}

/// A schema-3 file with one product for all derivatives, which has one mode,
/// which has one menu, which has one parameter, is read as that tree: the
/// product under its id, mode 0 under it, menu 0 under that, and under that
/// the parameter under its number, with its caption. The file has no keypad
/// strings. Its enumerations and its units are whatever their tables hold,
/// as long as those can be read behind the product.
#[verifier::rlimit(80)]
pub proof fn lemma_small_file(
    data: Seq<u8>,
    font_family: u8,
    product_id: u16,
    flags: u16,
    param: u8,
    caption_off: u32,
    enumerations_off: u32,
    units_off: u32,
    enumerations: Map<int, EnumerationModel>,
    units: Map<int, UnitsModel>,
    between: Cursor,
    end: Cursor,
)
    requires
        small_file(
            data,
            font_family,
            product_id,
            flags,
            param,
            caption_off,
            enumerations_off,
            units_off,
        ),
        stated_len(data) == data.len(),
        stated_schema(data) == 3,
        read_enumerations(
            data,
            Cursor { pos: enumerations_off as int, regions: small_file_regions(data.len()) },
            3,
            font_family,
        ) == Ok::<(Map<int, EnumerationModel>, Cursor), Fatal>((enumerations, between)),
        read_units(data, Cursor { pos: units_off as int, regions: between.regions }, 3, font_family)
            == Ok::<(Map<int, UnitsModel>, Cursor), Fatal>((units, end)),
    ensures
        read_language(data, bounds_of(3)) is Ok,
        read_language(data, bounds_of(3))->Ok_0.1 == end,
        read_language(data, bounds_of(3))->Ok_0.0.products == small_file_products(
            product_id,
            flags,
            param,
            caption_off,
        ),
        read_language(data, bounds_of(3))->Ok_0.0.enumerations == enumerations,
        read_language(data, bounds_of(3))->Ok_0.0.keypad_strs == Map::<
            int,
            KeypadStrModel,
        >::empty(),
        read_language(data, bounds_of(3))->Ok_0.0.units == units,
{
    let products = small_file_products(product_id, flags, param, caption_off);
    let r0 = Seq::new(data.len(), |i: int| BlobRegions::Empty);
    let rh = tagged(r0, 32, 48, BlobRegions::Header);
    let start = Cursor { pos: 32, regions: r0 };
    let offsets = seq![52u32, enumerations_off, 0u32, units_off];
    let c48 = Cursor { pos: 48, regions: rh };
    let after = Cursor { pos: 86, regions: small_file_regions(data.len()) };
    assert(data.len() >= 86) by {
        reveal(small_file);
    }
    let c34 = read_font_family(data, start, 3)->Ok_0.1;
    let c36 = take_le2(data, c34, BlobRegions::Header)->Ok_0.1;
    assert({
        &&& read_font_family(data, start, 3) is Ok
        &&& read_font_family(data, start, 3)->Ok_0.0 == font_family
        &&& take_le2(data, c34, BlobRegions::Header) is Ok
        &&& take_le2(data, c34, BlobRegions::Header)->Ok_0.0 == 3
        &&& read_offsets(data, c36, 3) == Ok::<(Seq<u32>, Cursor), Fatal>((offsets, c48))
    }) by {
        reveal(small_file);
        lemma_small_file_head(data, font_family, enumerations_off, units_off);
    }
    assert(read_products(data, Cursor { pos: 52, regions: rh }, 3, font_family, bounds_of(3))
        == Ok::<(Map<int, ProductModel>, Cursor), Fatal>((products, after))) by {
        reveal(small_file);
        lemma_small_file_tree(data, font_family, product_id, flags, param, caption_off);
    }
    let header = HeaderModel {
        file_len: stated_len(data),
        file_crc: spec_le4(data.skip(4)) as u32,
        schema: 3,
        locale_id: spec_le2(data.skip(10)) as u16,
        lang_version: spec_version(data.subrange(12, 16)),
        lang_name: data.subrange(16, 32),
        font_family,
        offset_size: 3,
    };
    lemma_tables_without_keypad(
        data,
        c48,
        header,
        offsets,
        bounds_of(3),
        products,
        after,
        enumerations,
        between,
        units,
        end,
    );
    assert(check_format(3, 3) == Ok::<(), Fatal>(()));
}

/// The bytes of the word "Speed" in a code page that agrees with ASCII, with
/// the zero byte that ends them.
pub open spec fn speed_bytes() -> Seq<u8> {
    seq![0x53u8, 0x70u8, 0x65u8, 0x65u8, 0x64u8, 0u8]
}

/// A parameter whose caption stands in the file as the bytes of "Speed" and
/// a zero byte, and which has no tooltip, reads "Speed" where the code page
/// gives each of these bytes its ASCII character. The bytes must not have
/// been read as something else.
pub proof fn lemma_caption_speed(
    bytes: Seq<u8>,
    maps: CharacterMapsModel,
    regions: Seq<BlobRegions>,
    strings: Seq<StringRecord>,
    off: u32,
)
    requires
        !maps.is_utf8,
        0 < off,
        off + 6 <= bytes.len(),
        regions.len() == bytes.len(),
        bytes.subrange(off as int, off + 6) == speed_bytes(),
        lookup(maps.maps, 1, 0x53) == Some(seq!['S']),
        lookup(maps.maps, 1, 0x70) == Some(seq!['p']),
        lookup(maps.maps, 1, 0x65) == Some(seq!['e']),
        lookup(maps.maps, 1, 0x64) == Some(seq!['d']),
        region_free(regions, off as int, off + 6, BlobRegions::Text),
    ensures
        describe(bytes, maps, regions, strings, off, 0, 32).result == Ok::<
            Seq<char>,
            StringFailure,
        >("Speed"@),
{
    reveal_strlit("Speed");
    let chars = seq!['S', 'p', 'e', 'e', 'd'];
    assert("Speed"@ =~= chars);
    let word = bytes.subrange(off as int, off + 6);
    assert forall|j: int| 0 <= j < 6 implies bytes[off + j] == speed_bytes()[j] by {
        assert(word[j] == bytes[off + j]);
    }
    assert(!is_lead(0x53) && !is_lead(0x70) && !is_lead(0x65) && !is_lead(0x64)) by (bit_vector);
    assert forall|j: int| 0 <= j < chars.len() implies !is_lead(#[trigger] bytes[off + j]) by {
        assert(bytes[off + j] == speed_bytes()[j]);
    }
    assert forall|j: int| 0 <= j < chars.len() implies #[trigger] bytes[off + j] != 0 by {
        assert(bytes[off + j] == speed_bytes()[j]);
    }
    assert forall|j: int| 0 <= j < chars.len() implies lookup(
        maps.maps,
        1,
        #[trigger] bytes[off + j] as u16,
    ) == Some(seq![chars[j]]) by {
        assert(bytes[off + j] == speed_bytes()[j]);
    }
    assert(bytes[off + 5] == speed_bytes()[5]);
    lemma_describe_single_bytes(bytes, maps, regions, strings, off, 32, chars);
}

/// A heading, added to the lines so far, unless a failure has ended them.
pub open spec fn heading(text: Seq<char>, so_far: Dumped) -> Dumped {
    if so_far.failure is Some {
        so_far
    } else {
        Dumped { lines: so_far.lines.push(text), ..so_far }
    }
}

/// The content of a language file in words: under a heading each, the
/// products with all that lies below them, the enumerations, the keypad
/// strings and the units, each table by falling key. Every string is resolved
/// on the way, and the diagnostics take note of it. The first failure ends it.
pub open spec fn dump_language(
    bytes: Seq<u8>,
    maps: CharacterMapsModel,
    model: LanguageModel,
    regions: Seq<BlobRegions>,
    strings: Seq<StringRecord>,
) -> Dumped {
    let begun = heading(
        "Products ...."@,
        Dumped { failure: None, lines: Seq::empty(), regions, strings },
    );
    let products = dump_products(bytes, maps, listing(model.products), 0, begun);
    let enumerations = dump_enumerations(
        bytes,
        maps,
        listing(model.enumerations),
        0,
        heading("Legacy Enumerations ...."@, products),
    );
    let keypad_strs = dump_keypad_strs(
        bytes,
        maps,
        listing(model.keypad_strs),
        0,
        heading("Keypad strs ...."@, enumerations),
    );
    dump_units(bytes, maps, listing(model.units), 0, heading("Units ...."@, keypad_strs))
}

/// A language file, read: its head and its four tables.
pub struct Language {
    header: Header,
    product_index: ProductIndex,
    enumeration_index: EnumerationsIndex,
    keypad_str_index: KeypadStrIndex,
    units_index: UnitsIndex,
    blob: RawBlob,
}

impl View for Language {
    type V = LanguageModel;

    closed spec fn view(&self) -> LanguageModel {
        LanguageModel {
            header: self.header@,
            products: self.product_index@,
            enumerations: self.enumeration_index@,
            keypad_strs: self.keypad_str_index@,
            units: self.units_index@,
        }
    }
}

impl Language {
    /// The tables are well formed, and every entry resolves its strings by
    /// the handle of the file.
    pub closed spec fn wf(&self) -> bool {
        &&& self.product_index.wf()
        &&& self.enumeration_index.wf()
        &&& self.keypad_str_index.wf()
        &&& self.units_index.wf()
        &&& self.product_index.within(self.blob)
        &&& self.enumeration_index.within(self.blob)
        &&& self.keypad_str_index.within(self.blob)
        &&& self.units_index.within(self.blob)
    }

    /// The handle to the bytes of the file.
    pub closed spec fn blob(&self) -> RawBlob {
        self.blob
    }

    /// Checks the schema against the width of an offset.
    fn validate_schema(schema: u16, offset_size: u16) -> (r: Result<(), Fatal>)
        ensures
            r == check_format(schema, offset_size),
    {
        match schema {
            2 => {
                if offset_size != 4 {
                    return Err(Fatal::InvalidFormat);
                }
            },
            3 => {
                if offset_size != 3 {
                    return Err(Fatal::InvalidFormat);
                }
            },
            4 => {
                if offset_size != 3 {
                    return Err(Fatal::InvalidFormat);
                }
            },
            _ => {
                return Err(Fatal::InvalidFormat);
            },
        }
        Ok(())
    }

    /// Reads the offsets of the four tables at the cursor.
    fn parse_offsets(fp: &mut FileBlob, schema: u16, offset_size: u16) -> (r: Result<
        Vec<u32>,
        Fatal,
    >)
        requires
            old(fp).wf(),
        ensures
            final(fp).follows(*old(fp)),
            match read_offsets(old(fp).handle().bytes(), old(fp).cursor(), schema) {
                Ok((offsets, next)) => {
                    &&& r is Ok
                    &&& r->Ok_0@ == offsets
                    &&& r->Ok_0@.len() == 4
                    &&& final(fp).cursor() == next
                },
                Err(e) => r == Err::<Vec<u32>, Fatal>(e),
            },
    {
        let mut offsets: Vec<u32> = Vec::new();
        match schema {
            2 => {
                let header = fp.read_exact(16, BlobRegions::Header)?;
                offsets.push(little_endian_3_bytes(slice_subrange(header.as_slice(), 0, 4)));
                offsets.push(little_endian_3_bytes(slice_subrange(header.as_slice(), 4, 8)));
                offsets.push(little_endian_3_bytes(slice_subrange(header.as_slice(), 8, 12)));
                offsets.push(little_endian_3_bytes(slice_subrange(header.as_slice(), 12, 16)));
                assert(header@.subrange(0, 4).take(3) =~= header@.take(3));
            },
            3 => {
                let header = fp.read_exact(12, BlobRegions::Header)?;
                offsets.push(little_endian_3_bytes(slice_subrange(header.as_slice(), 0, 3)));
                offsets.push(little_endian_3_bytes(slice_subrange(header.as_slice(), 3, 6)));
                offsets.push(little_endian_3_bytes(slice_subrange(header.as_slice(), 6, 9)));
                offsets.push(little_endian_3_bytes(slice_subrange(header.as_slice(), 9, 12)));
            },
            4 => {
                let header = fp.read_exact(9, BlobRegions::Header)?;
                offsets.push(little_endian_3_bytes(slice_subrange(header.as_slice(), 0, 3)));
                offsets.push(little_endian_3_bytes(slice_subrange(header.as_slice(), 3, 6)));
                offsets.push(0);
                offsets.push(little_endian_3_bytes(slice_subrange(header.as_slice(), 6, 9)));
            },
            _ => {
                return Err(Fatal::InvalidFormat);
            },
        }
        assert(offsets@ =~= read_offsets(
            old(fp).handle().bytes(),
            old(fp).cursor(),
            schema,
        )->Ok_0.0);
        Ok(offsets)
    }

    /// Reads a whole language file from its bytes, with the bounds on the
    /// number of products that go with its schema. `maps` decodes the text of
    /// a file before schema 4. The result holds the file and the diagnostics
    /// of the reading.
    pub fn from(data: Vec<u8>, maps: CharacterMaps) -> (r: Result<(Language, Stats), Fatal>)
        ensures
            Self::reads(data@, maps@, bounds_of(stated_schema(data@)), r),
    {
        if data.len() < COMMON_HEADER {
            return Err(Fatal::OutOfBounds);
        }
        let schema = little_endian_2_bytes(slice_subrange(data.as_slice(), 8, 10));
        Self::from_within(data, maps, CountBounds::for_schema(schema))
    }

    /// What reading a file gave, held against what it had to give.
    pub open spec fn reads(
        data: Seq<u8>,
        maps: CharacterMapsModel,
        bounds: CountBounds,
        r: Result<(Language, Stats), Fatal>,
    ) -> bool {
        match read_language(data, bounds) {
            Ok((model, end)) => {
                &&& r is Ok
                &&& r->Ok_0.0@ == model
                &&& r->Ok_0.0.wf()
                &&& r->Ok_0.0.blob().bytes() == data
                &&& r->Ok_0.0.blob().maps() == decoder_of(model.header.schema, maps)
                &&& r->Ok_0.1.regions() == end.regions
                &&& r->Ok_0.1.regions().len() == data.len()
                &&& r->Ok_0.1.strings() == Seq::<StringRecord>::empty()
            },
            Err(e) => r == Err::<(Language, Stats), Fatal>(e),
        }
    }

    /// Reads a whole language file from its bytes, with the number of
    /// products held to `bounds`.
    pub fn from_within(data: Vec<u8>, maps: CharacterMaps, bounds: CountBounds) -> (r: Result<
        (Language, Stats),
        Fatal,
    >)
        ensures
            Self::reads(data@, maps@, bounds, r),
    {
        if data.len() < COMMON_HEADER {
            return Err(Fatal::OutOfBounds);
        }
        let file_len = little_endian_4_bytes(slice_subrange(data.as_slice(), 0, 4));
        let file_crc = little_endian_4_bytes(slice_subrange(data.as_slice(), 4, 8));
        let schema = little_endian_2_bytes(slice_subrange(data.as_slice(), 8, 10));
        let locale_id = little_endian_2_bytes(slice_subrange(data.as_slice(), 10, 12));
        let lang_version = little_endian_4_version(slice_subrange(data.as_slice(), 12, 16));
        let lang_name = vstd::slice::slice_to_vec(slice_subrange(data.as_slice(), 16, 32));
        let ghost bytes = data@;
        let ghost whole = read_language(bytes, bounds);
        let mut fp = FileBlob::load(
            data,
            file_len,
            file_crc,
            if schema > 3 {
                CharacterMaps::utf8()
            } else {
                maps
            },
        )?;
        fp.set_pos(32);
        let ghost loaded = fp;
        let font_family = if schema < 4 {
            let font_hdr = fp.read_exact(2, BlobRegions::Header)?;
            little_endian_2_bytes_as_u8(slice_subrange(font_hdr.as_slice(), 0, 2))?
        } else {
            0
        };
        let offset_size = fp.read_le_2bytes(BlobRegions::Header)?;
        Self::validate_schema(schema, offset_size)?;
        let offsets = Self::parse_offsets(&mut fp, schema, offset_size)?;

        fp.set_pos(offsets[0]);
        let product_index = ProductIndex::create_within(&mut fp, schema, font_family, bounds)?;

        fp.set_pos(offsets[1]);
        let enumeration_index = EnumerationsIndex::from(&mut fp, schema, font_family)?;

        let keypad_str_index = if offsets[2] > 0 {
            fp.set_pos(offsets[2]);
            KeypadStrIndex::from(&mut fp, schema, font_family)?
        } else if schema == 2 {
            return Err(Fatal::MissingKeypadStrs);
        } else {
            KeypadStrIndex::empty()
        };

        fp.set_pos(offsets[3]);
        let units_index = UnitsIndex::from(&mut fp, schema, font_family)?;

        let header = Header {
            file_len,
            file_crc,
            schema,
            locale_id,
            lang_version,
            lang_name,
            font_family,
            offset_size,
        };
        let blob = fp.freeze();
        let lang = Language {
            header,
            product_index,
            enumeration_index,
            keypad_str_index,
            units_index,
            blob,
        };
        Ok((lang, fp.into_stats()))
    }

    /// Puts the content of the file into words, line by line, and resolves
    /// every string on the way. `stats` must be the diagnostics of this file.
    pub fn dump(&self, stats: &mut Stats) -> (r: Result<Vec<String>, DumpError>)
        requires
            self.wf(),
            old(stats).regions().len() == self.blob().bytes().len(),
        ensures
            final(stats).regions().len() == self.blob().bytes().len(),
            ({
                let expected = dump_language(
                    self.blob().bytes(),
                    self.blob().maps(),
                    self@,
                    old(stats).regions(),
                    old(stats).strings(),
                );
                &&& final(stats).regions() == expected.regions
                &&& final(stats).strings() == expected.strings
                &&& match expected.failure {
                    Some(e) => r is Err && r->Err_0@ == e,
                    None => r is Ok && line_texts(r->Ok_0@) == expected.lines,
                }
            }),
    {
        let ghost bytes = self.blob().bytes();
        let ghost maps = self.blob().maps();
        let ghost blob = self.blob();
        let mut lines: Vec<String> = Vec::new();
        assert(line_texts(lines@) =~= Seq::<Seq<char>>::empty());

        let ghost texts = line_texts(lines@);
        lines.push("Products ....".to_owned());
        assert(line_texts(lines@) =~= texts.push("Products ...."@));
        let r = self.product_index.dump(&mut lines, stats, Ghost(blob));
        let ghost products = dump_products(
            bytes,
            maps,
            listing(self@.products),
            0,
            heading(
                "Products ...."@,
                Dumped {
                    failure: None,
                    lines: Seq::empty(),
                    regions: old(stats).regions(),
                    strings: old(stats).strings(),
                },
            ),
        );
        proof {
            let a = heading("Legacy Enumerations ...."@, products);
            let b = dump_enumerations(bytes, maps, listing(self@.enumerations), 0, a);
            let c = heading("Keypad strs ...."@, b);
            let d = dump_keypad_strs(bytes, maps, listing(self@.keypad_strs), 0, c);
            let e = heading("Units ...."@, d);
            assert(products.failure is Some ==> dump_units(
                bytes,
                maps,
                listing(self@.units),
                0,
                e,
            ) == products);
        }
        if let Err(e) = r {
            return Err(e);
        }
        let ghost texts = line_texts(lines@);
        lines.push("Legacy Enumerations ....".to_owned());
        assert(line_texts(lines@) =~= texts.push("Legacy Enumerations ...."@));
        let r = self.enumeration_index.dump(&mut lines, stats, Ghost(blob));
        let ghost enumerations = dump_enumerations(
            bytes,
            maps,
            listing(self@.enumerations),
            0,
            heading("Legacy Enumerations ...."@, products),
        );
        proof {
            let c = heading("Keypad strs ...."@, enumerations);
            let d = dump_keypad_strs(bytes, maps, listing(self@.keypad_strs), 0, c);
            let e = heading("Units ...."@, d);
            assert(enumerations.failure is Some ==> dump_units(
                bytes,
                maps,
                listing(self@.units),
                0,
                e,
            ) == enumerations);
        }
        if let Err(e) = r {
            return Err(e);
        }
        let ghost texts = line_texts(lines@);
        lines.push("Keypad strs ....".to_owned());
        assert(line_texts(lines@) =~= texts.push("Keypad strs ...."@));
        let r = self.keypad_str_index.dump(&mut lines, stats, Ghost(blob));
        let ghost keypad_strs = dump_keypad_strs(
            bytes,
            maps,
            listing(self@.keypad_strs),
            0,
            heading("Keypad strs ...."@, enumerations),
        );
        proof {
            let e = heading("Units ...."@, keypad_strs);
            assert(keypad_strs.failure is Some ==> dump_units(
                bytes,
                maps,
                listing(self@.units),
                0,
                e,
            ) == keypad_strs);
        }
        if let Err(e) = r {
            return Err(e);
        }
        let ghost texts = line_texts(lines@);
        lines.push("Units ....".to_owned());
        assert(line_texts(lines@) =~= texts.push("Units ...."@));
        let r = self.units_index.dump(&mut lines, stats, Ghost(blob));
        if let Err(e) = r {
            return Err(e);
        }
        Ok(lines)
    }

    /// What the head of the file says.
    pub fn header(&self) -> (header: &Header)
        ensures
            header@ == self@.header,
    {
        &self.header
    }

    /// The handle to the bytes of the file, for resolving strings.
    pub fn freeze(&self) -> (raw: RawBlob)
        ensures
            raw == self.blob(),
    {
        self.blob.clone()
    }

    /// The products of the file.
    pub fn products(&self) -> (index: &ProductIndex)
        ensures
            index@ == self@.products,
            self.wf() ==> index.wf() && index.within(self.blob()),
    {
        &self.product_index
    }

    /// The enumerations of the file.
    pub fn enumerations(&self) -> (index: &EnumerationsIndex)
        ensures
            index@ == self@.enumerations,
            self.wf() ==> index.wf() && index.within(self.blob()),
    {
        &self.enumeration_index
    }

    /// The keypad strings of the file.
    pub fn keypad_strs(&self) -> (index: &KeypadStrIndex)
        ensures
            index@ == self@.keypad_strs,
            self.wf() ==> index.wf() && index.within(self.blob()),
    {
        &self.keypad_str_index
    }

    /// The units of the file.
    pub fn units(&self) -> (index: &UnitsIndex)
        ensures
            index@ == self@.units,
            self.wf() ==> index.wf() && index.within(self.blob()),
    {
        &self.units_index
    }
}

} // verus!
