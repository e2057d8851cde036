use langpack::blob::{BlobRegions, FileBlob};
use langpack::characters::CharacterMaps;
use langpack::enumerations::EnumerationsIndex;
use langpack::error::Fatal;
use langpack::keypadstrs::KeypadStrIndex;
use langpack::mnemonics::{decode_key, MnemonicIndex};
use langpack::units::{UnitsIndex, UnitsIndexEntry};

fn blob(data: Vec<u8>) -> FileBlob {
    let size = data.len() as u32;
    FileBlob::load(data, size, 0, CharacterMaps::utf8()).unwrap()
}

fn le2(v: u16) -> Vec<u8> {
    vec![v as u8, (v >> 8) as u8]
}

fn le3(v: u32) -> Vec<u8> {
    vec![v as u8, (v >> 8) as u8, (v >> 16) as u8]
}

fn le4(v: u32) -> Vec<u8> {
    vec![v as u8, (v >> 8) as u8, (v >> 16) as u8, (v >> 24) as u8]
}

fn cat(parts: &[Vec<u8>]) -> Vec<u8> {
    parts.iter().flat_map(|p| p.iter().copied()).collect()
}

fn units_v3(records: &[(u16, u32)]) -> Vec<u8> {
    let mut data = cat(&[le2(records.len() as u16), le2(16), vec![7, 5]]);
    for (id, off) in records {
        data.extend(le2(*id));
        data.extend(le3(*off));
    }
    data
}

fn unit_keys(index: &UnitsIndex) -> Vec<u16> {
    let mut keys = Vec::new();
    let mut iter = index.into_iter();
    while let Some((id, _)) = iter.next() {
        keys.push(id);
    }
    keys
}

#[test]
fn units_of_schema_3_are_read() {
    let mut data = units_v3(&[(3, 100), (1, 200), (2, 0x123456)]);
    data.resize(300, 0);
    let mut fp = blob(data);
    let index = UnitsIndex::from(&mut fp, 3, 7).ok().unwrap();
    assert_eq!(index.len(), 3);
    assert_eq!(index.get(2).unwrap().get_caption_off(), 0x123456);
    assert_eq!(index.get(2).unwrap().get_tooltip_off(), 0);
    assert_eq!(index.get(1).unwrap().get_caption_off(), 200);
    assert!(index.get(4).is_none());
    assert_eq!(unit_keys(&index), vec![3, 2, 1]);
    // the cursor stands behind the table
    assert_eq!(fp.read_byte(BlobRegions::Units), Ok(0));
    fp.set_pos(0);
    assert_eq!(fp.read_byte(BlobRegions::Header), Err(Fatal::RegionMismatch));
    fp.set_pos(22);
    assert_eq!(fp.read_byte(BlobRegions::Header), Ok(0));
}

#[test]
fn units_of_schema_2_have_offsets_of_four_bytes() {
    let data = cat(&[le2(1), le2(16), vec![0, 6], le2(0x0102), le4(0x01020304)]);
    let mut fp = blob(data);
    let index = UnitsIndex::from(&mut fp, 2, 0).ok().unwrap();
    assert_eq!(index.get(0x0102).unwrap().get_caption_off(), 0x01020304);
}

#[test]
fn units_of_schema_4_have_tooltips_and_no_font_family() {
    let data = cat(&[le2(2), vec![8], le2(9), le3(40), le3(50), le2(8), le3(60), le3(0)]);
    let mut fp = blob(data);
    let index = UnitsIndex::from(&mut fp, 4, 99).ok().unwrap();
    assert_eq!(index.get(9).unwrap().get_caption_off(), 40);
    assert_eq!(index.get(9).unwrap().get_tooltip_off(), 50);
    assert_eq!(index.get(8).unwrap().get_tooltip_off(), 0);
    assert_eq!(unit_keys(&index), vec![9, 8]);
}

#[test]
fn units_header_is_checked() {
    let good = units_v3(&[(1, 10)]);
    let mut font = good.clone();
    font[4] = 8;
    assert!(matches!(UnitsIndex::from(&mut blob(font), 3, 7), Err(Fatal::FontFamily)));
    let mut width = good.clone();
    width[5] = 6;
    assert!(matches!(UnitsIndex::from(&mut blob(width), 3, 7), Err(Fatal::EntrySize)));
    let mut length = good.clone();
    length[2] = 32;
    assert!(matches!(UnitsIndex::from(&mut blob(length), 3, 7), Err(Fatal::StringLength)));
    assert!(matches!(UnitsIndex::from(&mut blob(good.clone()), 2, 7), Err(Fatal::EntrySize)));
    assert!(matches!(UnitsIndex::from(&mut blob(good.clone()), 1, 7), Err(Fatal::InvalidFormat)));
    assert!(matches!(UnitsIndex::from(&mut blob(good.clone()), 5, 7), Err(Fatal::InvalidFormat)));
    assert!(matches!(UnitsIndex::from(&mut blob(good[..8].to_vec()), 3, 7), Err(Fatal::OutOfBounds)));
    assert!(matches!(UnitsIndex::from(&mut blob(vec![1]), 3, 7), Err(Fatal::OutOfBounds)));
    assert!(UnitsIndex::from(&mut blob(good), 3, 7).is_ok());
}

#[test]
fn units_refuse_empty_slots_and_duplicate_ids() {
    assert!(matches!(
        UnitsIndex::from(&mut blob(units_v3(&[(1, 10), (2, 0)])), 3, 7),
        Err(Fatal::EmptySlot)
    ));
    assert!(matches!(
        UnitsIndex::from(&mut blob(units_v3(&[(1, 10), (2, 20), (1, 30)])), 3, 7),
        Err(Fatal::DuplicateKey)
    ));
}

#[test]
fn a_table_of_entries_refuses_a_key_twice() {
    let mut fp = blob(vec![0; 4]);
    let a = UnitsIndexEntry::new(5, 10, 0, &mut fp);
    let b = UnitsIndexEntry::new(9, 20, 0, &mut fp);
    let c = UnitsIndexEntry::new(5, 30, 0, &mut fp);
    assert!(matches!(
        UnitsIndex::new(vec![a.clone(), b.clone(), c.clone()]),
        Err(Fatal::DuplicateKey)
    ));
    assert!(matches!(UnitsIndex::new(vec![c.clone(), c.clone()]), Err(Fatal::DuplicateKey)));
    let index = UnitsIndex::new(vec![a, b]).ok().unwrap();
    assert_eq!(index.len(), 2);
    assert_eq!(UnitsIndex::new(vec![]).ok().unwrap().len(), 0);
}

#[test]
fn entries_come_by_falling_key_in_whatever_order_they_were_put() {
    let mut fp = blob(vec![0; 4]);
    let entries: Vec<UnitsIndexEntry> =
        [40u16, 7, 65535, 0, 300].iter().map(|k| UnitsIndexEntry::new(*k, 1, 0, &mut fp)).collect();
    let forward = UnitsIndex::new(entries.clone()).ok().unwrap();
    let mut turned = entries.clone();
    turned.reverse();
    let backward = UnitsIndex::new(turned).ok().unwrap();
    assert_eq!(unit_keys(&forward), vec![65535, 300, 40, 7, 0]);
    assert_eq!(unit_keys(&backward), vec![65535, 300, 40, 7, 0]);
    let mut iter = forward.into_iter();
    assert_eq!(iter.next().unwrap().0, 65535);
    assert_eq!(iter.next().unwrap().0, 300);
}

#[test]
fn entries_are_equal_by_their_caption() {
    let mut fp = blob(vec![0; 4]);
    let a = UnitsIndexEntry::new(5, 10, 1, &mut fp);
    let b = UnitsIndexEntry::new(9, 10, 2, &mut fp);
    let c = UnitsIndexEntry::new(5, 11, 1, &mut fp);
    assert!(a == b);
    assert!(a != c);
}

#[test]
fn units_are_put_into_words() {
    let mut data = units_v3(&[(1, 20), (2, 24)]);
    data.resize(20, 0xEE);
    data.extend_from_slice(b"rpm\0A\0");
    let mut fp = blob(data);
    let index = UnitsIndex::from(&mut fp, 3, 7).ok().unwrap();
    let mut stats = fp.into_stats();
    assert_eq!(index.get(1).unwrap().to_string(&mut stats).ok().unwrap(), "rpm");
    assert_eq!(index.get(2).unwrap().to_string(&mut stats).ok().unwrap(), "A");
    let err = {
        let mut fp = blob(units_v3(&[(1, 3)]));
        let index = UnitsIndex::from(&mut fp, 3, 7).ok().unwrap();
        let mut stats = fp.into_stats();
        index.get(1).unwrap().to_string(&mut stats).err().unwrap()
    };
    assert_eq!(err.offset, 3);
    assert!(err.error.is_fatal());
}

fn enums(schema: u16, records: &[(u16, u32)]) -> Vec<u8> {
    let mut data = le2(records.len() as u16);
    match schema {
        2 => data.extend(cat(&[le2(16), vec![3, 6]])),
        3 => data.extend(cat(&[le2(16), vec![3, 5]])),
        _ => data.push(5),
    }
    for (id, off) in records {
        data.extend(le2(*id));
        if schema == 2 {
            data.extend(le4(*off));
        } else {
            data.extend(le3(*off));
        }
    }
    data
}

#[test]
fn enumerations_are_read_in_every_schema() {
    for schema in [2u16, 3, 4] {
        let mut fp = blob(enums(schema, &[(10, 100), (30, 300), (20, 200)]));
        let index = EnumerationsIndex::from(&mut fp, schema, 3).ok().unwrap();
        assert_eq!(index.len(), 3);
        assert_eq!(index.get(30).unwrap().get_caption_off(), 300);
        let mut keys = Vec::new();
        let mut iter = index.into_iter();
        while let Some((id, entry)) = iter.next() {
            keys.push((id, entry.get_caption_off()));
        }
        assert_eq!(keys, vec![(30, 300), (20, 200), (10, 100)]);
    }
}

#[test]
fn enumerations_are_checked() {
    assert!(matches!(
        EnumerationsIndex::from(&mut blob(enums(3, &[(1, 0)])), 3, 3),
        Err(Fatal::EmptySlot)
    ));
    assert!(matches!(
        EnumerationsIndex::from(&mut blob(enums(2, &[(1, 5), (1, 6)])), 2, 3),
        Err(Fatal::DuplicateKey)
    ));
    assert!(matches!(
        EnumerationsIndex::from(&mut blob(enums(3, &[(1, 5)])), 3, 4),
        Err(Fatal::FontFamily)
    ));
    assert!(matches!(
        EnumerationsIndex::from(&mut blob(enums(3, &[(1, 5)])), 2, 3),
        Err(Fatal::EntrySize)
    ));
    assert!(matches!(
        EnumerationsIndex::from(&mut blob(enums(4, &[(1, 5)])), 5, 3),
        Err(Fatal::InvalidFormat)
    ));
    let mut length = enums(3, &[(1, 5)]);
    length[2] = 17;
    assert!(matches!(EnumerationsIndex::from(&mut blob(length), 3, 3), Err(Fatal::StringLength)));
    assert!(matches!(
        EnumerationsIndex::from(&mut blob(enums(3, &[(1, 5)])[..9].to_vec()), 3, 3),
        Err(Fatal::OutOfBounds)
    ));
}

#[test]
fn enumerations_are_put_into_words() {
    let mut data = enums(4, &[(1, 8)]);
    data.extend_from_slice(b"Auto\0");
    let mut fp = blob(data);
    let index = EnumerationsIndex::from(&mut fp, 4, 0).ok().unwrap();
    let mut stats = fp.into_stats();
    assert_eq!(index.get(1).unwrap().to_string(&mut stats).ok().unwrap(), "Auto");
}

fn keypad(records: &[(u16, u32)]) -> Vec<u8> {
    let mut data = cat(&[le2(records.len() as u16), le2(32), vec![1, 6]]);
    for (id, off) in records {
        data.extend(le2(*id));
        data.extend(le4(*off));
    }
    data
}

#[test]
fn keypad_strings_are_read_in_schema_2_only() {
    let mut data = keypad(&[(2, 18), (1, 21)]);
    data.extend_from_slice(b"Up\0Down\0");
    let mut fp = blob(data.clone());
    let index = KeypadStrIndex::from(&mut fp, 2, 1).ok().unwrap();
    let mut stats = fp.into_stats();
    assert_eq!(index.len(), 2);
    assert_eq!(index.get(1).unwrap().to_string(&mut stats).ok().unwrap(), "Down");
    assert_eq!(index.get(2).unwrap().to_string(&mut stats).ok().unwrap(), "Up");
    let mut iter = index.into_iter();
    assert_eq!(iter.next().unwrap().0, 2);
    assert_eq!(iter.next().unwrap().0, 1);
    assert!(iter.next().is_none());
    assert!(matches!(KeypadStrIndex::from(&mut blob(data.clone()), 3, 1), Err(Fatal::InvalidFormat)));
    assert!(matches!(KeypadStrIndex::from(&mut blob(data), 2, 2), Err(Fatal::FontFamily)));
    assert_eq!(KeypadStrIndex::empty().len(), 0);
}

#[test]
fn keypad_strings_are_checked() {
    let mut width = keypad(&[(1, 5)]);
    width[5] = 5;
    assert!(matches!(KeypadStrIndex::from(&mut blob(width), 2, 1), Err(Fatal::EntrySize)));
    let mut length = keypad(&[(1, 5)]);
    length[2] = 16;
    assert!(matches!(KeypadStrIndex::from(&mut blob(length), 2, 1), Err(Fatal::StringLength)));
    assert!(matches!(
        KeypadStrIndex::from(&mut blob(keypad(&[(1, 0)])), 2, 1),
        Err(Fatal::EmptySlot)
    ));
    assert!(matches!(
        KeypadStrIndex::from(&mut blob(keypad(&[(1, 5), (1, 5)])), 2, 1),
        Err(Fatal::DuplicateKey)
    ));
}

fn mnemonics(width: u8, records: &[(u32, u32, u32)]) -> Vec<u8> {
    let mut data = cat(&[le2(records.len() as u16), vec![width]]);
    for (raw, caption, tooltip) in records {
        data.extend(le4(*raw));
        data.extend(le3(*caption));
        data.extend(le3(*tooltip));
    }
    data
}

#[test]
fn mnemonic_values_above_the_middle_are_negative() {
    let mut fp = blob(mnemonics(5, &[(0xFFFF_FFFE, 40, 0), (5, 50, 60), (0x8000_0000, 70, 0)]));
    let index = MnemonicIndex::from(&mut fp).ok().unwrap();
    assert_eq!(index.get_num_values(), 3);
    assert_eq!(index.get(-1).unwrap().get_caption_off(), 40);
    assert_eq!(index.get(5).unwrap().get_caption_off(), 50);
    assert_eq!(index.get(5).unwrap().get_tooltip_off(), 60);
    assert_eq!(index.get(-2147483647).unwrap().get_caption_off(), 70);
    let mut keys = Vec::new();
    let mut iter = index.into_iter();
    while let Some((value, _)) = iter.next() {
        keys.push(value);
    }
    assert_eq!(keys, vec![5, -1, -2147483647]);
}

#[test]
fn every_raw_value_has_a_key() {
    assert_eq!(decode_key(0), 0);
    assert_eq!(decode_key(5), 5);
    assert_eq!(decode_key(0x07FF_FFFF), 0x07FF_FFFF);
    assert_eq!(decode_key(0x0800_0000), 0x0800_0001);
    assert_eq!(decode_key(0x1000_0000), 0x1000_0001);
    assert_eq!(decode_key(0x7FFF_FFFE), i32::MAX);
    assert_eq!(decode_key(0x7FFF_FFFF), i32::MIN);
    assert_eq!(decode_key(0x8000_0000), -0x7FFF_FFFF);
    assert_eq!(decode_key(0xFFFF_FFFE), -1);
    assert_eq!(decode_key(0xFFFF_FFFF), 0);
    let records = [(0x7FFF_FFFF, 40, 0), (0x0800_0000, 41, 0), (0x7FFF_FFFE, 42, 0)];
    let index = MnemonicIndex::from(&mut blob(mnemonics(5, &records))).ok().unwrap();
    assert_eq!(index.get(i32::MIN).unwrap().get_caption_off(), 40);
    assert_eq!(index.get(0x0800_0001).unwrap().get_caption_off(), 41);
    assert_eq!(index.get(i32::MAX).unwrap().get_caption_off(), 42);
    assert_eq!(index.get_num_values(), 3);
}

#[test]
fn mnemonic_values_are_checked() {
    assert!(MnemonicIndex::from(&mut blob(mnemonics(5, &[(0x07FF_FFFF, 40, 0)]))).is_ok());
    assert!(matches!(
        MnemonicIndex::from(&mut blob(mnemonics(5, &[(1, 0, 9)]))),
        Err(Fatal::EmptySlot)
    ));
    assert!(matches!(
        MnemonicIndex::from(&mut blob(mnemonics(5, &[(1, 9, 0), (1, 8, 0)]))),
        Err(Fatal::DuplicateKey)
    ));
    // 0xFFFFFFFF and 0 both stand for the value 0
    assert!(matches!(
        MnemonicIndex::from(&mut blob(mnemonics(5, &[(0, 9, 0), (0xFFFF_FFFF, 8, 0)]))),
        Err(Fatal::DuplicateKey)
    ));
    assert!(matches!(
        MnemonicIndex::from(&mut blob(mnemonics(10, &[(1, 9, 0)]))),
        Err(Fatal::EntrySize)
    ));
    assert!(matches!(
        MnemonicIndex::from(&mut blob(mnemonics(5, &[(1, 9, 0)])[..12].to_vec())),
        Err(Fatal::OutOfBounds)
    ));
}

#[test]
fn a_mnemonic_table_of_width_zero_is_empty() {
    let mut fp = blob(mnemonics(0, &[(1, 9, 0)]));
    let index = MnemonicIndex::from(&mut fp).ok().unwrap();
    assert_eq!(index.get_num_values(), 0);
    assert_eq!(MnemonicIndex::empty().get_num_values(), 0);
    // the records were not read
    fp.set_pos(3);
    assert_eq!(fp.read_byte(BlobRegions::Text), Ok(1));
}

#[test]
fn mnemonic_schema_is_checked() {
    assert_eq!(MnemonicIndex::validate_schema(4, 5), Ok(()));
    assert_eq!(MnemonicIndex::validate_schema(4, 10), Err(Fatal::EntrySize));
    assert_eq!(MnemonicIndex::validate_schema(3, 5), Err(Fatal::InvalidFormat));
}

#[test]
fn mnemonics_are_put_into_words() {
    let mut data = mnemonics(5, &[(1, 13, 16)]);
    data.extend_from_slice(b"On\0Runs\0");
    let mut fp = blob(data);
    let index = MnemonicIndex::from(&mut fp).ok().unwrap();
    let mut stats = fp.into_stats();
    assert_eq!(index.get(1).unwrap().to_string(&mut stats).ok().unwrap(), "On / Runs");
}
