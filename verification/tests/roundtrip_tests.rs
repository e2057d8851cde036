use langpack::blob::FileBlob;
use langpack::characters::CharacterMaps;
use langpack::enumerations::EnumerationsIndex;
use langpack::keypadstrs::KeypadStrIndex;
use langpack::menus::MenuIndex;
use langpack::mnemonics::MnemonicIndex;
use langpack::modes::ModeIndex;
use langpack::parameters::ParameterIndex;
use langpack::products::{CountBounds, ProductIndex};
use langpack::units::UnitsIndex;

fn le2(v: u16) -> Vec<u8> {
    vec![v as u8, (v >> 8) as u8]
}

fn le3(v: u32) -> Vec<u8> {
    assert!(v < 0x100_0000);
    vec![v as u8, (v >> 8) as u8, (v >> 16) as u8]
}

fn le4(v: u32) -> Vec<u8> {
    vec![v as u8, (v >> 8) as u8, (v >> 16) as u8, (v >> 24) as u8]
}

fn open(data: Vec<u8>, at: u32) -> FileBlob {
    let size = data.len() as u32;
    let mut fp = FileBlob::load(data, size, 0, CharacterMaps::utf8()).unwrap();
    fp.set_pos(at);
    fp
}

/// An empty table of menus of schema 3 at offset 1, and one mode that
/// points to it at offset 3.
fn stub() -> Vec<u8> {
    vec![0xEE, 0, 3, 1, 3, 1, 0, 0]
}

const MODES: u32 = 3;

#[test]
fn product_records_of_schema_3_are_read_as_written() {
    let records: Vec<(u16, u16, u16, u16, u32)> = vec![
        (0, 0, 0, 0, MODES),
        (65535, 65535, 65535, 65535, MODES),
        (0x1234, 0, 65535, 0x00FF, MODES),
        (0x00FF, 0x0100, 0xFF00, 0x8001, MODES),
    ];
    for schema in [3u16, 4] {
        let mut data = stub();
        if schema == 4 {
            // menus of schema 4 declare records of 9 bytes
            data[2] = 9;
        }
        let at = data.len() as u32;
        data.extend([records.len() as u8, 11]);
        for (id, low, high, flags, off) in &records {
            data.extend([le2(*id), le2(*low), le2(*high), le2(*flags), le3(*off)].concat());
        }
        let products = ProductIndex::create_from_file(&mut open(data, at), schema, 0).ok().unwrap();
        assert_eq!(products.len(), records.len());
        for (id, low, high, flags, _) in &records {
            let entry = products.get(*id).unwrap();
            assert_eq!(entry.get_product_id(), *id);
            assert_eq!(entry.get_derivatives(), (*low, *high));
            assert_eq!(entry.get_flags(), *flags);
            assert_eq!(entry.get_modes().get_num_modes(), 1);
        }
    }
}

#[test]
fn product_records_of_schema_2_are_read_as_written() {
    let mut data = vec![0xEE];
    let params = data.len() as u32;
    data.extend([le2(0), le2(32), vec![0, 6]].concat());
    let modes = data.len() as u32;
    data.extend([1, 5, 0]);
    data.extend(le4(params));
    let records: Vec<(u8, u8, u16, u32)> =
        vec![(0, 0, 0, modes), (15, 255, 65535, modes), (7, 1, 0x0102, modes)];
    let at = data.len() as u32;
    data.extend([records.len() as u8, 8]);
    for (flags, derivative, id, off) in &records {
        data.extend([vec![*flags, *derivative], le2(*id), le4(*off)].concat());
    }
    let all = CountBounds { min: 0, max: 255 };
    let products = ProductIndex::create_within(&mut open(data, at), 2, 0, all).ok().unwrap();
    for (flags, derivative, id, _) in &records {
        let entry = products.get(*id).unwrap();
        assert_eq!(entry.get_flags(), *flags as u16);
        assert_eq!(entry.get_derivatives(), (*derivative as u16, *derivative as u16));
        assert_eq!(entry.get_modes().get(0).unwrap().get_mode_num(), 0);
    }
}

#[test]
fn unit_records_are_read_as_written() {
    let records: Vec<(u16, u32, u32)> =
        vec![(0, 1, 0), (65535, 0xFF_FFFF, 0xFF_FFFF), (0x0102, 0x030405, 0x060708)];
    for schema in [2u16, 3, 4] {
        let mut data = le2(records.len() as u16);
        match schema {
            2 => data.extend([le2(16), vec![0, 6]].concat()),
            3 => data.extend([le2(16), vec![0, 5]].concat()),
            _ => data.push(8),
        }
        for (id, caption, tooltip) in &records {
            data.extend(le2(*id));
            match schema {
                2 => data.extend(le4(*caption | 0x9900_0000)),
                3 => data.extend(le3(*caption)),
                _ => data.extend([le3(*caption), le3(*tooltip)].concat()),
            }
        }
        let units = UnitsIndex::from(&mut open(data, 0), schema, 0).ok().unwrap();
        for (id, caption, tooltip) in &records {
            let entry = units.get(*id).unwrap();
            assert_eq!(entry.get_units(), *id);
            match schema {
                2 => assert_eq!(entry.get_caption_off(), *caption | 0x9900_0000),
                _ => assert_eq!(entry.get_caption_off(), *caption),
            }
            assert_eq!(entry.get_tooltip_off(), if schema == 4 { *tooltip } else { 0 });
        }
    }
}

#[test]
fn enumeration_and_keypad_records_are_read_as_written() {
    let records: Vec<(u16, u32)> = vec![(0, 1), (65535, 0xFF_FFFF), (0x0102, 0x030405)];
    for schema in [2u16, 3, 4] {
        let mut data = le2(records.len() as u16);
        match schema {
            2 => data.extend([le2(16), vec![0, 6]].concat()),
            3 => data.extend([le2(16), vec![0, 5]].concat()),
            _ => data.push(5),
        }
        for (id, caption) in &records {
            data.extend(le2(*id));
            if schema == 2 {
                data.extend(le4(*caption | 0x8000_0000));
            } else {
                data.extend(le3(*caption));
            }
        }
        let index = EnumerationsIndex::from(&mut open(data, 0), schema, 0).ok().unwrap();
        for (id, caption) in &records {
            let wide = if schema == 2 { *caption | 0x8000_0000 } else { *caption };
            assert_eq!(index.get(*id).unwrap().get_caption_off(), wide);
        }
    }
    let mut data = [le2(records.len() as u16), le2(32), vec![0, 6]].concat();
    for (id, caption) in &records {
        data.extend([le2(*id), le4(*caption | 0x4000_0000)].concat());
    }
    let index = KeypadStrIndex::from(&mut open(data, 0), 2, 0).ok().unwrap();
    for (id, caption) in &records {
        assert_eq!(index.get(*id).unwrap().get_caption_off(), *caption | 0x4000_0000);
    }
}

#[test]
fn mnemonic_records_are_read_as_written() {
    let records: Vec<(u32, i32, u32, u32)> = vec![
        (0, 0, 1, 0),
        (0x07FF_FFFF, 0x07FF_FFFF, 0xFF_FFFF, 0xFF_FFFF),
        (0x8000_0000, -0x7FFF_FFFF, 0x010203, 0x040506),
        (0xFFFF_FFFE, -1, 2, 3),
        (5, 5, 4, 5),
    ];
    let mut data = [le2(records.len() as u16), vec![5]].concat();
    for (raw, _, caption, tooltip) in &records {
        data.extend([le4(*raw), le3(*caption), le3(*tooltip)].concat());
    }
    let index = MnemonicIndex::from(&mut open(data, 0)).ok().unwrap();
    for (_, value, caption, tooltip) in &records {
        let entry = index.get(*value).unwrap();
        assert_eq!(entry.get_value(), *value);
        assert_eq!(entry.get_caption_off(), *caption);
        assert_eq!(entry.get_tooltip_off(), *tooltip);
    }
}

#[test]
fn parameter_records_are_read_as_written() {
    // schema 3
    let records: Vec<(u16, u32)> = vec![(0, 1), (254, 0xFF_FFFF), (255, 0x010203), (7, 0x0A0B0C)];
    let mut data = [le2(records.len() as u16), le2(32), vec![0, 5]].concat();
    for (param, caption) in &records {
        data.extend([le2(*param), le3(*caption)].concat());
    }
    let (params, caption, tooltip) = ParameterIndex::from_v3(&mut open(data, 0), 0).ok().unwrap();
    assert_eq!((caption, tooltip), (0x010203, 0));
    for (param, caption) in records.iter().filter(|r| r.0 != 255) {
        let entry = params.get(*param as u8).unwrap();
        assert_eq!(entry.get_param_num(), *param as u8);
        assert_eq!(entry.get_caption_off(), *caption);
        assert_eq!(entry.get_tooltip_off(), 0);
    }
    // schema 4
    let records: Vec<(u8, u32, u32)> = vec![(0, 1, 0), (255, 0xFF_FFFF, 0xFF_FFFF), (9, 0x010203, 0x040506)];
    let mut data = vec![records.len() as u8, 5];
    for (param, caption, tooltip) in &records {
        data.extend([vec![*param], le3(*caption), le3(*tooltip), le3(0)].concat());
    }
    let params = ParameterIndex::from_v4(&mut open(data, 0)).ok().unwrap();
    for (param, caption, tooltip) in &records {
        let entry = params.get(*param).unwrap();
        assert_eq!(entry.get_param_num(), *param);
        assert_eq!(entry.get_caption_off(), *caption);
        assert_eq!(entry.get_tooltip_off(), *tooltip);
    }
    // schema 2
    let records: Vec<(u8, u8, u32)> = vec![(0, 0, 1), (254, 255, 0xFFFF_FFFF), (3, 255, 0x01020304)];
    let mut data = Vec::new();
    for (param, menu, caption) in &records {
        data.extend([vec![*param, *menu], le4(*caption)].concat());
    }
    let menus = ParameterIndex::read_v2_entries(&mut open(data, 0), 3).ok().unwrap();
    for (param, menu, caption) in &records {
        let entry = menus.get(*menu as i64).unwrap().get(*param).unwrap();
        assert_eq!(entry.get_caption_off(), *caption);
    }
}

#[test]
fn menu_and_mode_records_are_read_as_written() {
    // an empty table of parameters of schema 4 at offset 1
    let mut data = vec![0xEE, 0, 0];
    let at = data.len() as u32;
    let records: Vec<(u32, u32, u32)> = vec![(1, 0, 1), (0xFF_FFFF, 0xFF_FFFF, 1), (0x010203, 0x040506, 1)];
    data.extend([records.len() as u8, 9]);
    for (caption, tooltip, params) in &records {
        data.extend([le3(*caption), le3(*tooltip), le3(*params)].concat());
    }
    let menus = MenuIndex::from_v4(&mut open(data.clone(), at)).ok().unwrap();
    for (i, (caption, tooltip, _)) in records.iter().enumerate() {
        let entry = menus.get(i as u8).unwrap();
        assert_eq!(entry.get_menu_num(), i as u8);
        assert_eq!(entry.get_caption_off(), *caption);
        assert_eq!(entry.get_tooltip_off(), *tooltip);
    }
    // modes of schema 4 that point to these menus
    let modes_at = data.len() as u32;
    data.extend([2, 3]);
    data.extend([le3(at), le3(at)].concat());
    let modes = ModeIndex::create_from_file(&mut open(data, modes_at), 4, 0).ok().unwrap();
    assert_eq!(modes.get(1).unwrap().get_mode_num(), 1);
    assert_eq!(modes.get(2).unwrap().get_menus().get_num_menus(), 3);
}
