use langpack::blob::{BlobRegions, DecodeError, DumpError};
use langpack::characters::{read_character_file, CharacterMaps};
use langpack::error::Fatal;
use langpack::language::Language;
use langpack::products::CountBounds;

fn le2(v: u16) -> Vec<u8> {
    vec![v as u8, (v >> 8) as u8]
}

fn le3(v: u32) -> Vec<u8> {
    vec![v as u8, (v >> 8) as u8, (v >> 16) as u8]
}

fn le4(v: u32) -> Vec<u8> {
    vec![v as u8, (v >> 8) as u8, (v >> 16) as u8, (v >> 24) as u8]
}

fn patch(data: &mut Vec<u8>, at: usize, bytes: &[u8]) {
    data[at..at + bytes.len()].copy_from_slice(bytes);
}

fn ascii_maps() -> CharacterMaps {
    let mut xml = String::from("<?xml version=\"1.0\"?><characterMaps><characterMap id=\"1\" bytesPerCharacter=\"1\">");
    for code in 32u8..127 {
        let text = match code as char {
            '<' => "&lt;".to_string(),
            '&' => "&amp;".to_string(),
            '"' => "&quot;".to_string(),
            c => c.to_string(),
        };
        xml.push_str(&format!("<char value=\"{}\" name=\"{}\"/>", code, text));
    }
    xml.push_str("</characterMap></characterMaps>");
    read_character_file(xml.as_bytes()).ok().unwrap()
}

/// A schema-3 file with one product for all derivatives, one mode, one menu
/// and one parameter whose caption is "Speed".
fn schema_3_file() -> (Vec<u8>, u16, u16) {
    let product: u16 = 0x0123;
    let param: u16 = 4;
    let mut data = vec![0u8; 32];
    patch(&mut data, 8, &le2(3));
    patch(&mut data, 10, &le2(1033));
    patch(&mut data, 12, &[4, 3, 2, 1]);
    patch(&mut data, 16, b"English\0\0\0\0\0\0\0\0\0");
    data.extend([2, 0]); // font family
    data.extend(le2(3)); // width of an offset
    data.extend(vec![0; 12]); // the four offsets, set below
    data.extend([0xAA; 4]); // a gap before the products, which stand at 52
    assert_eq!(data.len(), 52);
    let modes = 52 + 2 + 11;
    data.extend([1, 11]);
    data.extend([le2(product), le2(0), le2(65535), le2(0), le3(modes)].concat());
    let menus = modes + 2 + 3;
    data.extend([1, 3]);
    data.extend(le3(menus));
    let params = menus + 2 + 3;
    data.extend([1, 3]);
    data.extend(le3(params));
    let speed = params + 6 + 10;
    let menu_caption = speed + 6;
    data.extend([le2(2), le2(32), vec![2, 5]].concat());
    data.extend([le2(param), le3(speed)].concat());
    data.extend([le2(255), le3(menu_caption)].concat());
    assert_eq!(data.len() as u32, speed);
    data.extend(b"Speed\0");
    data.extend(b"Motor\0");
    let enumerations = data.len() as u32;
    data.extend([le2(0), le2(16), vec![2, 5]].concat());
    let units = data.len() as u32;
    data.extend([le2(1), le2(16), vec![2, 5]].concat());
    data.extend([le2(77), le3(speed)].concat());
    patch(&mut data, 36, &[le3(52), le3(enumerations), le3(0), le3(units)].concat());
    let len = data.len() as u32;
    patch(&mut data, 0, &le4(len));
    patch(&mut data, 4, &le4(0xDEADBEEF));
    (data, product, param)
}

#[test]
fn a_schema_3_file_is_read_down_to_its_parameter() {
    let (data, product, param) = schema_3_file();
    let (lang, mut stats) = Language::from(data, ascii_maps()).ok().unwrap();
    let header = lang.header();
    assert_eq!(header.schema, 3);
    assert_eq!(header.locale_id, 1033);
    assert_eq!(header.file_crc, 0xDEADBEEF);
    assert_eq!(header.lang_version, "V1.2.3.4");
    assert_eq!(&header.lang_name[..7], b"English");
    assert_eq!(header.font_family, 2);
    assert_eq!(header.offset_size, 3);
    let entry = lang.products().get(product).unwrap();
    assert_eq!(entry.to_string().ok().unwrap(), "ALL DERIVATIVES : num of modes = 1");
    let mode = entry.get_modes().get(0).unwrap();
    let menu = mode.get_menus().get(0).unwrap();
    let parameter = menu.get_params().get(param as u8).unwrap();
    assert_eq!(parameter.to_string(&mut stats).ok().unwrap(), "Speed");
    assert_eq!(menu.to_string(&mut stats).ok().unwrap(), "Motor");
    assert!(menu.get_params().get(255).is_none());
    assert_eq!(menu.get_params().get_num_params(), 1);
    assert_eq!(lang.enumerations().len(), 0);
    assert_eq!(lang.keypad_strs().len(), 0);
    assert_eq!(lang.units().get(77).unwrap().to_string(&mut stats).ok().unwrap(), "Speed");
    // the same text at the same offset is no copy
    assert_eq!(stats.duplicate_count(), 0);
    // what was not read: the head of 32 bytes and the gap of 4
    assert_eq!(stats.unused(), 36);
    let runs = stats.runs();
    assert_eq!(runs[0].region, BlobRegions::Empty);
    assert_eq!((runs[0].start, runs[0].end), (0, 31));
    assert_eq!(runs[1].region, BlobRegions::Header);
    assert_eq!((runs[1].start, runs[1].end), (32, 47));
    assert_eq!(runs[3].region, BlobRegions::Products);
    assert_eq!(runs.last().unwrap().region, BlobRegions::Units);
}

#[test]
fn a_handle_of_the_file_resolves_its_strings() {
    let (data, _, _) = schema_3_file();
    let (lang, mut stats) = Language::from(data.clone(), ascii_maps()).ok().unwrap();
    let raw = lang.freeze();
    assert_eq!(raw.len(), data.len());
    assert_eq!(raw.get_string(91, 32, &mut stats).ok().unwrap(), "Speed");
}

#[test]
fn the_length_of_the_file_is_checked() {
    let (data, _, _) = schema_3_file();
    let mut longer = data.clone();
    longer.push(0);
    assert!(matches!(Language::from(longer, ascii_maps()), Err(Fatal::LengthMismatch)));
    assert!(matches!(
        Language::from(data[..data.len() - 1].to_vec(), ascii_maps()),
        Err(Fatal::LengthMismatch)
    ));
    assert!(matches!(Language::from(data[..31].to_vec(), ascii_maps()), Err(Fatal::OutOfBounds)));
    assert!(matches!(Language::from(vec![], ascii_maps()), Err(Fatal::OutOfBounds)));
    let mut head = data[..32].to_vec();
    patch(&mut head, 0, &le4(32));
    assert!(matches!(Language::from(head, ascii_maps()), Err(Fatal::OutOfBounds)));
}

#[test]
fn the_schema_and_the_width_of_an_offset_are_checked() {
    let (data, _, _) = schema_3_file();
    let mut other = data.clone();
    patch(&mut other, 34, &le2(4));
    assert!(matches!(Language::from(other, ascii_maps()), Err(Fatal::InvalidFormat)));
    let mut other = data.clone();
    patch(&mut other, 8, &le2(1));
    assert!(matches!(Language::from(other, ascii_maps()), Err(Fatal::InvalidFormat)));
    let mut other = data.clone();
    patch(&mut other, 8, &le2(5));
    assert!(matches!(Language::from(other, ascii_maps()), Err(Fatal::InvalidFormat)));
    let mut other = data.clone();
    patch(&mut other, 32, &[2, 1]);
    assert!(matches!(Language::from(other, ascii_maps()), Err(Fatal::ValueTooLarge)));
    let mut other = data.clone();
    patch(&mut other, 32, &[3, 0]);
    assert!(matches!(Language::from(other, ascii_maps()), Err(Fatal::FontFamily)));
}

#[test]
fn tables_that_share_bytes_are_refused() {
    let (data, _, _) = schema_3_file();
    let mut other = data.clone();
    // the units are said to stand where the products stand
    patch(&mut other, 45, &le3(52));
    assert!(matches!(Language::from(other, ascii_maps()), Err(Fatal::RegionMismatch)));
    let mut other = data;
    // the products are said to stand on the head
    patch(&mut other, 36, &le3(40));
    assert!(matches!(Language::from(other, ascii_maps()), Err(Fatal::RegionMismatch)));
}

#[test]
fn the_bounds_on_products_can_be_set() {
    let (data, product, _) = schema_3_file();
    let strict = CountBounds { min: 10, max: 40 };
    assert!(matches!(
        Language::from_within(data.clone(), ascii_maps(), strict),
        Err(Fatal::EntryCount)
    ));
    let (lang, _) =
        Language::from_within(data, ascii_maps(), CountBounds { min: 1, max: 1 }).ok().unwrap();
    assert!(lang.products().get(product).is_some());
}

/// A schema-4 file with one product, one mode, one menu and one parameter
/// with two values; its text is UTF-8.
fn schema_4_file() -> Vec<u8> {
    let mut data = vec![0u8; 32];
    patch(&mut data, 8, &le2(4));
    data.extend(le2(3));
    data.extend(vec![0; 9]);
    let text = |data: &mut Vec<u8>, s: &str| {
        let at = data.len() as u32;
        data.extend(s.as_bytes());
        data.push(0);
        at
    };
    let on = text(&mut data, "Ein");
    let off = text(&mut data, "Aus");
    let caption = text(&mut data, "Größe");
    let tooltip = text(&mut data, "Maß");
    let group = text(&mut data, "Menü");
    let volt = text(&mut data, "V");
    let enumerated = text(&mut data, "Auto");
    let values = data.len() as u32;
    data.extend([le2(2), vec![5]].concat());
    data.extend([le4(1), le3(on), le3(0)].concat());
    data.extend([le4(0xFFFF_FFFE), le3(off), le3(0)].concat());
    let params = data.len() as u32;
    data.extend([2, 5]);
    data.extend([vec![9], le3(caption), le3(tooltip), le3(values)].concat());
    data.extend([vec![3], le3(caption), le3(0), le3(0)].concat());
    let menus = data.len() as u32;
    data.extend([2, 9]);
    data.extend([le3(0), le3(0), le3(0)].concat());
    data.extend([le3(group), le3(0), le3(params)].concat());
    let modes = data.len() as u32;
    data.extend([1, 3]);
    data.extend(le3(menus));
    let products = data.len() as u32;
    data.extend([1, 11]);
    data.extend([le2(500), le2(1), le2(1), le2(0), le3(modes)].concat());
    let enumerations = data.len() as u32;
    data.extend([le2(1), vec![5]].concat());
    data.extend([le2(12), le3(enumerated)].concat());
    let units = data.len() as u32;
    data.extend([le2(1), vec![8]].concat());
    data.extend([le2(3), le3(volt), le3(tooltip)].concat());
    patch(&mut data, 34, &[le3(products), le3(enumerations), le3(units)].concat());
    let len = data.len() as u32;
    patch(&mut data, 0, &le4(len));
    data
}

#[test]
fn a_schema_4_file_is_read_as_utf8() {
    let (lang, mut stats) = Language::from(schema_4_file(), ascii_maps()).ok().unwrap();
    assert_eq!(lang.header().schema, 4);
    assert_eq!(lang.header().font_family, 0);
    let product = lang.products().get(500).unwrap();
    assert_eq!(product.to_string().ok().unwrap(), " Derv 1 : num_of_modes = 1");
    let mode = product.get_modes().get(0).unwrap();
    let menu = mode.get_menus().get(1).unwrap();
    assert!(mode.get_menus().get(0).is_none());
    assert_eq!(menu.to_string(&mut stats).ok().unwrap(), "Menü");
    let param = menu.get_params().get(9).unwrap();
    assert_eq!(param.to_string(&mut stats).ok().unwrap(), "Größe / Maß");
    assert_eq!(menu.get_params().get(3).unwrap().to_string(&mut stats).ok().unwrap(), "Größe");
    let values = param.get_mnemonics();
    assert_eq!(values.get(1).unwrap().to_string(&mut stats).ok().unwrap(), "Ein");
    assert_eq!(values.get(-1).unwrap().to_string(&mut stats).ok().unwrap(), "Aus");
    assert_eq!(lang.units().get(3).unwrap().to_string(&mut stats).ok().unwrap(), "V / Maß");
    assert_eq!(lang.enumerations().get(12).unwrap().to_string(&mut stats).ok().unwrap(), "Auto");
    assert_eq!(lang.keypad_strs().len(), 0);
    assert_eq!(stats.duplicate_count(), 0);
}

/// A schema-2 file with ten products that share one mode.
fn schema_2_file(keypad: bool) -> Vec<u8> {
    let mut data = vec![0u8; 32];
    patch(&mut data, 8, &le2(2));
    data.extend([6, 0]);
    data.extend(le2(4));
    data.extend(vec![0; 16]);
    let text = |data: &mut Vec<u8>, s: &str| {
        let at = data.len() as u32;
        data.extend(s.as_bytes());
        data.push(0);
        at
    };
    let speed = text(&mut data, "Speed");
    let group = text(&mut data, "Drive");
    let up = text(&mut data, "Up");
    let params = data.len() as u32;
    data.extend([le2(2), le2(32), vec![6, 6]].concat());
    data.extend([vec![1, 5], le4(speed)].concat());
    data.extend([vec![255, 5], le4(group)].concat());
    let modes = data.len() as u32;
    data.extend([1, 5]);
    data.extend([vec![1], le4(params)].concat());
    let products = data.len() as u32;
    data.extend([10, 8]);
    for id in 0..10u16 {
        data.extend([vec![0, 0], le2(id), le4(modes)].concat());
    }
    let enumerations = data.len() as u32;
    data.extend([le2(1), le2(16), vec![6, 6]].concat());
    data.extend([le2(4), le4(speed)].concat());
    let keypad_strs = data.len() as u32;
    data.extend([le2(1), le2(32), vec![6, 6]].concat());
    data.extend([le2(8), le4(up)].concat());
    let units = data.len() as u32;
    data.extend([le2(0), le2(16), vec![6, 6]].concat());
    let keypad_off = if keypad { keypad_strs } else { 0 };
    patch(
        &mut data,
        36,
        &[le4(products), le4(enumerations), le4(keypad_off), le4(units)].concat(),
    );
    let len = data.len() as u32;
    patch(&mut data, 0, &le4(len));
    data
}

#[test]
fn a_schema_2_file_is_read_with_its_keypad_strings() {
    let (lang, mut stats) = Language::from(schema_2_file(true), ascii_maps()).ok().unwrap();
    assert_eq!(lang.products().len(), 10);
    let product = lang.products().get(9).unwrap();
    let menu = product.get_modes().get(1).unwrap().get_menus().get(5).unwrap();
    assert_eq!(menu.to_string(&mut stats).ok().unwrap(), "Drive");
    assert_eq!(menu.get_params().get(1).unwrap().to_string(&mut stats).ok().unwrap(), "Speed");
    assert_eq!(lang.keypad_strs().get(8).unwrap().to_string(&mut stats).ok().unwrap(), "Up");
    assert_eq!(lang.enumerations().get(4).unwrap().to_string(&mut stats).ok().unwrap(), "Speed");
    assert_eq!(lang.units().len(), 0);
}

#[test]
fn a_schema_2_file_must_have_keypad_strings() {
    assert!(matches!(
        Language::from(schema_2_file(false), ascii_maps()),
        Err(Fatal::MissingKeypadStrs)
    ));
}

#[test]
fn a_file_is_put_into_words_line_by_line() {
    let (data, _, _) = schema_3_file();
    let (lang, mut stats) = Language::from(data, ascii_maps()).ok().unwrap();
    let lines = lang.dump(&mut stats).ok().unwrap();
    assert_eq!(
        lines,
        vec![
            "Products ....",
            "291 => ALL DERIVATIVES : num of modes = 1",
            "- Mode 'Any' num of menus = 1",
            "- - M.0 => Motor",
            "- - - P.4 => Speed",
            "Legacy Enumerations ....",
            "Keypad strs ....",
            "Units ....",
            "77 => Speed",
        ]
    );
    // every string was resolved once; none is a copy of another
    assert_eq!(stats.duplicate_count(), 0);
    assert_eq!(stats.unused(), 36);
}

#[test]
fn tables_are_put_into_words_by_falling_key() {
    let (lang, mut stats) = Language::from(schema_4_file(), ascii_maps()).ok().unwrap();
    let lines = lang.dump(&mut stats).ok().unwrap();
    assert_eq!(
        lines,
        vec![
            "Products ....",
            "500 =>  Derv 1 : num_of_modes = 1",
            "- Mode 'Any' num of menus = 1",
            "- - M.1 => Menü",
            "- - - P.9 => Größe / Maß",
            "- - - P.3 => Größe",
            "Legacy Enumerations ....",
            "12 => Auto",
            "Keypad strs ....",
            "Units ....",
            "3 => V / Maß",
        ]
    );
    // "Größe" was resolved twice at one offset, "Maß" twice at one offset
    assert_eq!(stats.duplicate_count(), 0);
}

#[test]
fn a_string_that_cannot_be_resolved_ends_the_words() {
    let (mut data, _, _) = schema_3_file();
    // a byte that can only be the high part of a code, behind a byte that
    // cannot be its low part
    let speed = 91;
    assert_eq!(&data[speed..speed + 5], b"Speed");
    data[speed + 2] = 0xC4;
    let (lang, mut stats) = Language::from(data, ascii_maps()).ok().unwrap();
    match lang.dump(&mut stats) {
        Err(DumpError::Text(e)) => {
            assert_eq!(e.offset, 91);
            match e.error {
                DecodeError::Dangling { partial, bytes } => {
                    assert_eq!(partial, "Sp");
                    assert_eq!(bytes, vec![b'S', b'p', 0xC4, b'e', b'd']);
                }
                _ => panic!("the last byte has no part before it"),
            }
        }
        _ => panic!("the caption of the parameter cannot be decoded"),
    }
}
