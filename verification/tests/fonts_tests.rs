use langpack::error::Fatal;
use langpack::fonts::{FontIndex, FontSection};

fn le2(v: u16) -> Vec<u8> {
    vec![v as u8, (v >> 8) as u8]
}

fn le4(v: u32) -> Vec<u8> {
    vec![v as u8, (v >> 8) as u8, (v >> 16) as u8, (v >> 24) as u8]
}

fn section(char_map: u8, family: u8, w: u8, h: u8, bpg: u8, min: u16, max: u16, glyphs: &[u8]) -> Vec<u8> {
    let mut bytes = vec![char_map, 0, 0, 0, family, w, h, bpg];
    bytes.extend(le2(min));
    bytes.extend(le2(max));
    bytes.extend_from_slice(glyphs);
    bytes
}

fn font_file(sections: &[Vec<u8>]) -> Vec<u8> {
    let mut data = vec![0u8; 16];
    data[12..14].copy_from_slice(&le2(sections.len() as u16));
    data[14..16].copy_from_slice(&le2(16));
    let mut at = 16 + 4 * sections.len() as u32;
    for s in sections {
        data.extend(le4(at));
        at += s.len() as u32;
    }
    for s in sections {
        data.extend_from_slice(s);
    }
    data
}

#[test]
fn glyphs_are_found_by_map_family_and_codepoint() {
    let data = font_file(&[
        section(1, 2, 5, 7, 2, 65, 67, &[1, 2, 3, 4, 5, 6]),
        section(1, 3, 6, 8, 1, 0, 1, &[9, 8]),
        section(1, 2, 9, 9, 1, 100, 100, &[0x55]),
    ]);
    let fonts = FontIndex::from(&data).ok().unwrap();
    assert_eq!(fonts.get_size(1, 2), Some((5, 7)));
    assert_eq!(fonts.get_size(1, 3), Some((6, 8)));
    assert_eq!(fonts.get_size(2, 2), None);
    assert_eq!(fonts.get_glyph(1, 2, 65), Some(vec![1, 2]));
    assert_eq!(fonts.get_glyph(1, 2, 67), Some(vec![5, 6]));
    assert_eq!(fonts.get_glyph(1, 2, 68), None);
    assert_eq!(fonts.get_glyph(1, 2, 100), Some(vec![0x55]));
    assert_eq!(fonts.get_glyph(1, 3, 1), Some(vec![8]));
    assert_eq!(fonts.get_glyph(1, 3, 2), None);
    assert_eq!(fonts.get_glyph(7, 3, 1), None);
}

#[test]
fn a_font_file_that_ends_early_is_refused() {
    let data = font_file(&[section(1, 2, 5, 7, 2, 65, 67, &[1, 2, 3, 4, 5, 6])]);
    assert!(matches!(FontIndex::from(&data[..15]), Err(Fatal::OutOfBounds)));
    assert!(matches!(FontIndex::from(&data[..18]), Err(Fatal::OutOfBounds)));
    assert!(matches!(FontIndex::from(&data[..30]), Err(Fatal::OutOfBounds)));
    assert!(FontIndex::from(&data[..32]).is_ok());
    assert!(FontIndex::from(&[0u8; 16]).is_ok());
}

#[test]
fn glyphs_that_the_file_does_not_hold_are_absent() {
    let data = font_file(&[section(1, 2, 5, 7, 2, 65, 67, &[1, 2, 3])]);
    let fonts = FontIndex::from(&data).ok().unwrap();
    assert_eq!(fonts.get_glyph(1, 2, 65), Some(vec![1, 2]));
    assert_eq!(fonts.get_glyph(1, 2, 66), None);
    assert_eq!(fonts.get_glyph(1, 2, 67), None);
}

#[test]
fn a_font_takes_no_more_glyphs_than_its_codepoints() {
    let data = font_file(&[
        section(1, 2, 5, 7, 1, 10, 11, &[1, 2]),
        section(1, 4, 5, 7, 1, 10, 11, &[3, 4]),
    ]);
    let fonts = FontIndex::from(&data).ok().unwrap();
    assert_eq!(fonts.get_glyph(1, 2, 11), Some(vec![2]));
    assert_eq!(fonts.get_glyph(1, 4, 10), Some(vec![3]));
}

#[test]
fn codepoints_must_rise() {
    let data = font_file(&[section(1, 2, 5, 7, 2, 67, 65, &[])]);
    assert!(matches!(FontIndex::from(&data), Err(Fatal::CodepointRange)));
    let data = font_file(&[section(1, 2, 5, 7, 0, 0, 65535, &[])]);
    assert!(matches!(FontIndex::from(&data), Err(Fatal::CodepointRange)));
    let data = font_file(&[section(1, 2, 5, 7, 0, 1, 65535, &[])]);
    assert!(FontIndex::from(&data).is_ok());
}

#[test]
fn a_font_is_read_at_its_offset() {
    let mut data = vec![0xEE; 3];
    data.extend(section(4, 5, 6, 7, 1, 1, 2, &[8, 9]));
    assert!(FontSection::from(&data, 3).is_ok());
    assert!(matches!(FontSection::from(&data, 6), Err(Fatal::OutOfBounds)));
    assert!(matches!(FontSection::from(&data, 4000), Err(Fatal::OutOfBounds)));
}
