use langpack::characters::{
    parse_u16, read_character_file, skip_bom, Attribute, Character, CharacterMap, CharacterMaps,
    MapError, XmlItem,
};
use langpack::error::Fatal;

const MAPS: &str = "<?xml version=\"1.0\" encoding=\"utf-8\"?>\n<characterMaps>\n  <!-- western -->\n  <characterMap id=\"1\" bytesPerCharacter=\"1\">\n    <char value=\"65\" name=\"A\"/>\n    <char name=\"&#228;\" value=\"+228\" extra=\"x\"/>\n    <char value=\"66\" name=\"B\"></char>\n    <char value=\"65\" name=\"a\"/>\n  </characterMap>\n  <characterMap bytesPerCharacter=\"2\" id=\"7\">\n    <char value=\"300\" name=\"&#x4e2d;\"/>\n  </characterMap>\n  <characterMap id=\"9\" bytesPerCharacter=\"1\">\n    <char value=\"67\" name=\"C\"/>\n  </characterMap>\n  <note>text</note>\n</characterMaps>\n";

#[test]
fn character_maps_are_read_from_xml() {
    let maps = read_character_file(MAPS.as_bytes()).ok().unwrap();
    assert!(!maps.is_utf8());
    // the last entry of a code counts
    assert_eq!(maps.decode_byte(65), Ok("a".to_string()));
    assert_eq!(maps.decode_byte(66), Ok("B".to_string()));
    assert_eq!(maps.decode_byte(228), Ok("\u{e4}".to_string()));
    assert_eq!(maps.decode_2bytes(300), Ok("\u{4e2d}".to_string()));
    // only the first map of a width is asked
    assert_eq!(maps.decode_byte(67), Err(Fatal::MissingCharacter));
    assert_eq!(maps.decode_2bytes(65), Err(Fatal::MissingCharacter));
}

#[test]
fn a_byte_order_mark_is_skipped() {
    let mut bytes = vec![0xEF, 0xBB, 0xBF];
    bytes.extend_from_slice(MAPS.as_bytes());
    let maps = read_character_file(&bytes).ok().unwrap();
    assert_eq!(maps.decode_byte(66), Ok("B".to_string()));
    assert_eq!(skip_bom(&bytes), Some(3));
    assert_eq!(skip_bom(MAPS.as_bytes()), Some(0));
    assert_eq!(skip_bom(b"<a/"), None);
    assert_eq!(skip_bom(&[0xEF, 0xBB, 0xBF, b'<']), Some(3));
}

#[test]
fn a_file_of_maps_is_checked() {
    assert!(matches!(read_character_file(b"<a>"), Err(MapError::Truncated)));
    assert!(matches!(
        read_character_file(b"<m><char value=\"1\" name=\"x\"/></m>"),
        Err(MapError::OrphanChar)
    ));
    assert!(matches!(
        read_character_file(b"<characterMap id=\"x\"/>"),
        Err(MapError::BadNumber)
    ));
    assert!(matches!(
        read_character_file(b"<characterMap id=\"1\" bytesPerCharacter=\"65536\"/>"),
        Err(MapError::BadNumber)
    ));
    assert!(matches!(
        read_character_file(b"<characterMap id=\"1\"><char value=\"-1\"/></characterMap>"),
        Err(MapError::BadNumber)
    ));
    // what stands behind a failure of the parser is not read
    let maps = read_character_file(b"<characterMap id=\"1\" bytesPerCharacter=\"1\"><char value=\"1\" name=\"x\"/><<<")
        .ok()
        .unwrap();
    assert_eq!(maps.decode_byte(1), Ok("x".to_string()));
    let maps = read_character_file(b"<nothing/>").ok().unwrap();
    assert_eq!(maps.decode_byte(1), Err(Fatal::MissingCharacter));
}

#[test]
fn numbers_are_decimal_with_or_without_a_plus() {
    assert_eq!(parse_u16("0"), Some(0));
    assert_eq!(parse_u16("007"), Some(7));
    assert_eq!(parse_u16("+12"), Some(12));
    assert_eq!(parse_u16("65535"), Some(65535));
    assert_eq!(parse_u16("65536"), None);
    assert_eq!(parse_u16("99999999999999999999"), None);
    assert_eq!(parse_u16(""), None);
    assert_eq!(parse_u16("+"), None);
    assert_eq!(parse_u16("-1"), None);
    assert_eq!(parse_u16("1 "), None);
    assert_eq!(parse_u16(" 1"), None);
    assert_eq!(parse_u16("1_0"), None);
    assert_eq!(parse_u16("0x10"), None);
    assert_eq!(parse_u16("++1"), None);
    assert_eq!(parse_u16("\u{663}"), None);
    for text in ["0", "007", "+12", "65535", "65536", "", "+", "-1", "1 ", "++1", "\u{663}"] {
        assert_eq!(parse_u16(text), text.parse::<u16>().ok());
    }
}

fn attribute(name: &str, value: &str) -> Attribute {
    Attribute { name: name.to_string(), value: value.to_string() }
}

#[test]
fn maps_are_built_from_items() {
    let items = vec![
        XmlItem::Other,
        XmlItem::Start { name: "characterMap".to_string(), attributes: vec![attribute("id", "3")] },
        XmlItem::Start {
            name: "char".to_string(),
            attributes: vec![attribute("value", "1"), attribute("name", "one"), attribute("value", "2")],
        },
        XmlItem::Failure,
        XmlItem::Start { name: "Char".to_string(), attributes: vec![attribute("value", "x")] },
        XmlItem::Start {
            name: "characterMap".to_string(),
            attributes: vec![attribute("bytesPerCharacter", "1"), attribute("ID", "x")],
        },
        XmlItem::Start { name: "char".to_string(), attributes: vec![] },
    ];
    let maps = CharacterMaps::from_items(&items).ok().unwrap();
    // the first map has width 0 and is never asked; the second holds code 0 with no text
    assert_eq!(maps.decode_byte(0), Ok(String::new()));
    assert_eq!(maps.decode_byte(2), Err(Fatal::MissingCharacter));
    assert!(matches!(
        CharacterMaps::from_items(&vec![XmlItem::Start { name: "char".to_string(), attributes: vec![] }]),
        Err(MapError::OrphanChar)
    ));
}

#[test]
fn a_map_and_a_character_are_made_of_attributes() {
    let map = CharacterMap::new(&vec![attribute("id", "4"), attribute("bytesPerCharacter", "2")]).ok().unwrap();
    assert_eq!(map.get_unicode(1), Err(Fatal::MissingCharacter));
    assert!(matches!(CharacterMap::new(&vec![attribute("id", "")]), Err(MapError::BadNumber)));
    let (code, character) =
        Character::create_from_xml(&vec![attribute("name", "x"), attribute("value", "9")]).ok().unwrap();
    assert_eq!(code, 9);
    assert_eq!(character.get_unicode(), "x");
    let mut map = map;
    map.insert(code, character);
    assert_eq!(map.get_unicode(9), Ok("x".to_string()));
    let maps = CharacterMaps::new(vec![map]);
    assert_eq!(maps.clone().decode_2bytes(9), Ok("x".to_string()));
    assert_eq!(maps.decode_byte(9), Err(Fatal::MissingCharacter));
}

#[test]
fn the_utf8_decoder_has_no_maps() {
    let maps = CharacterMaps::utf8();
    assert!(maps.is_utf8());
    assert_eq!(maps.decode_byte(65), Err(Fatal::MissingCharacter));
    assert_eq!(maps.decode_2bytes(65), Err(Fatal::MissingCharacter));
}
