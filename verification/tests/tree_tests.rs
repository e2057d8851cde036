use langpack::blob::{BlobRegions, FileBlob};
use langpack::characters::CharacterMaps;
use langpack::error::Fatal;
use langpack::menus::{MenuIndex, MenuIndexEntry};
use langpack::modes::{ModeIndex, ModeIndexEntry};
use langpack::parameters::ParameterIndex;
use langpack::products::{CountBounds, ProductIndex};

fn blob(data: Vec<u8>) -> FileBlob {
    let size = data.len() as u32;
    FileBlob::load(data, size, 0, CharacterMaps::utf8()).unwrap()
}

fn le2(v: u16) -> Vec<u8> {
    vec![v as u8, (v >> 8) as u8]
}

fn le3(v: u32) -> Vec<u8> {
    vec![v as u8, (v >> 8) as u8, (v >> 16) as u8]
}

fn le4(v: u32) -> Vec<u8> {
    vec![v as u8, (v >> 8) as u8, (v >> 16) as u8, (v >> 24) as u8]
}

/// A file that grows by tables put at known offsets.
struct Image {
    data: Vec<u8>,
}

impl Image {
    fn new(head: usize) -> Image {
        Image { data: vec![0; head] }
    }

    fn here(&self) -> u32 {
        self.data.len() as u32
    }

    fn put(&mut self, bytes: &[u8]) -> u32 {
        let at = self.here();
        self.data.extend_from_slice(bytes);
        at
    }

    fn text(&mut self, text: &str) -> u32 {
        let at = self.put(text.as_bytes());
        self.data.push(0);
        at
    }

    fn params_v3(&mut self, font: u8, records: &[(u16, u32)]) -> u32 {
        let mut bytes = [le2(records.len() as u16), le2(32), vec![font, 5]].concat();
        for (param, off) in records {
            bytes.extend(le2(*param));
            bytes.extend(le3(*off));
        }
        self.put(&bytes)
    }

    fn params_v4(&mut self, records: &[(u8, u32, u32, u32)]) -> u32 {
        let mut bytes = vec![records.len() as u8, 5];
        for (param, caption, tooltip, values) in records {
            bytes.push(*param);
            bytes.extend(le3(*caption));
            bytes.extend(le3(*tooltip));
            bytes.extend(le3(*values));
        }
        self.put(&bytes)
    }

    fn mnemonics(&mut self, records: &[(u32, u32, u32)]) -> u32 {
        let mut bytes = [le2(records.len() as u16), vec![5]].concat();
        for (raw, caption, tooltip) in records {
            bytes.extend(le4(*raw));
            bytes.extend(le3(*caption));
            bytes.extend(le3(*tooltip));
        }
        self.put(&bytes)
    }

    fn params_v2(&mut self, font: u8, records: &[(u8, u8, u32)]) -> u32 {
        let mut bytes = [le2(records.len() as u16), le2(32), vec![font, 6]].concat();
        for (param, menu, off) in records {
            bytes.push(*param);
            bytes.push(*menu);
            bytes.extend(le4(*off));
        }
        self.put(&bytes)
    }

    fn menus_v3(&mut self, offsets: &[u32]) -> u32 {
        let mut bytes = vec![offsets.len() as u8, 3];
        for off in offsets {
            bytes.extend(le3(*off));
        }
        self.put(&bytes)
    }

    fn menus_v4(&mut self, records: &[(u32, u32, u32)]) -> u32 {
        let mut bytes = vec![records.len() as u8, 9];
        for (caption, tooltip, params) in records {
            bytes.extend(le3(*caption));
            bytes.extend(le3(*tooltip));
            bytes.extend(le3(*params));
        }
        self.put(&bytes)
    }

    fn modes_v3(&mut self, offsets: &[u32]) -> u32 {
        let mut bytes = vec![offsets.len() as u8, 3];
        for off in offsets {
            bytes.extend(le3(*off));
        }
        self.put(&bytes)
    }

    fn modes_v2(&mut self, records: &[(u8, u32)]) -> u32 {
        let mut bytes = vec![records.len() as u8, 5];
        for (mode, off) in records {
            bytes.push(*mode);
            bytes.extend(le4(*off));
        }
        self.put(&bytes)
    }

    fn products_v3(&mut self, records: &[(u16, u16, u16, u16, u32)]) -> u32 {
        let mut bytes = vec![records.len() as u8, 11];
        for (id, low, high, flags, off) in records {
            bytes.extend(le2(*id));
            bytes.extend(le2(*low));
            bytes.extend(le2(*high));
            bytes.extend(le2(*flags));
            bytes.extend(le3(*off));
        }
        self.put(&bytes)
    }

    fn products_v2(&mut self, records: &[(u8, u8, u16, u32)]) -> u32 {
        let mut bytes = vec![records.len() as u8, 8];
        for (flags, derivative, id, off) in records {
            bytes.push(*flags);
            bytes.push(*derivative);
            bytes.extend(le2(*id));
            bytes.extend(le4(*off));
        }
        self.put(&bytes)
    }

    fn open(&self, at: u32) -> FileBlob {
        let mut fp = blob(self.data.clone());
        fp.set_pos(at);
        fp
    }
}

fn param_keys(index: &ParameterIndex) -> Vec<u8> {
    let mut keys = Vec::new();
    let mut iter = index.into_iter();
    while let Some((number, _)) = iter.next() {
        keys.push(number);
    }
    keys
}

fn menu_keys(index: &MenuIndex) -> Vec<u8> {
    let mut keys = Vec::new();
    let mut iter = index.into_iter();
    while let Some((number, _)) = iter.next() {
        keys.push(number);
    }
    keys
}

fn mode_keys(index: &ModeIndex) -> Vec<u8> {
    let mut keys = Vec::new();
    let mut iter = index.into_iter();
    while let Some((number, _)) = iter.next() {
        keys.push(number);
    }
    keys
}

#[test]
fn entry_255_gives_the_menu_its_caption() {
    let mut image = Image::new(1);
    let caption = image.text("Menu 1");
    let speed = image.text("Speed");
    let at = image.params_v3(4, &[(1, speed), (255, caption), (7, speed)]);
    let mut fp = image.open(at);
    let (params, caption_off, tooltip_off) = ParameterIndex::from_v3(&mut fp, 4).ok().unwrap();
    assert_eq!(caption_off, caption);
    assert_eq!(tooltip_off, 0);
    assert!(params.get(255).is_none());
    assert_eq!(params.get_num_params(), 2);
    assert_eq!(param_keys(&params), vec![7, 1]);
    let mut stats = fp.into_stats();
    assert_eq!(params.get(1).unwrap().to_string(&mut stats).ok().unwrap(), "Speed");
    assert_eq!(params.get(7).unwrap().get_mnemonics().get_num_values(), 0);
}

#[test]
fn entry_255_alone_leaves_no_parameter() {
    let mut image = Image::new(1);
    let at = image.params_v3(4, &[(255, 0x4321)]);
    let mut fp = image.open(at);
    let (params, caption_off, tooltip_off) = ParameterIndex::from_v3(&mut fp, 4).ok().unwrap();
    assert_eq!((caption_off, tooltip_off), (0x4321, 0));
    assert_eq!(params.get_num_params(), 0);
    assert_eq!(param_keys(&params), Vec::<u8>::new());
}

#[test]
fn parameters_without_entry_255_give_no_caption() {
    let mut image = Image::new(1);
    let at = image.params_v3(4, &[(3, 9)]);
    let mut fp = image.open(at);
    let (mut params, caption_off, tooltip_off) = ParameterIndex::from_v3(&mut fp, 4).ok().unwrap();
    assert_eq!((caption_off, tooltip_off), (0, 0));
    assert_eq!(params.self_check_param255(), (0, 0));
    assert_eq!(param_keys(&params), vec![3]);
}

#[test]
fn parameters_of_schema_3_are_checked() {
    let mut image = Image::new(1);
    let at = image.params_v3(4, &[(1, 5), (256, 6)]);
    assert!(matches!(ParameterIndex::from_v3(&mut image.open(at), 4), Err(Fatal::ValueTooLarge)));
    let at = image.params_v3(4, &[(1, 5), (1, 6)]);
    assert!(matches!(ParameterIndex::from_v3(&mut image.open(at), 4), Err(Fatal::DuplicateKey)));
    let at = image.params_v3(4, &[(1, 5)]);
    assert!(matches!(ParameterIndex::from_v3(&mut image.open(at), 5), Err(Fatal::FontFamily)));
    let mut other = Image::new(1);
    let at = other.put(&[1, 0, 32, 0, 4, 6, 1, 0, 5, 0, 0]);
    assert!(matches!(ParameterIndex::from_v3(&mut other.open(at), 4), Err(Fatal::EntrySize)));
    let at = other.put(&[1, 0, 16, 0, 4, 5, 1, 0, 5, 0, 0]);
    assert!(matches!(ParameterIndex::from_v3(&mut other.open(at), 4), Err(Fatal::StringLength)));
    let at = other.put(&[1, 0, 32, 0, 4, 5, 1, 0]);
    assert!(matches!(ParameterIndex::from_v3(&mut other.open(at), 4), Err(Fatal::OutOfBounds)));
}

#[test]
fn a_parameter_without_a_caption_is_not_there() {
    let mut image = Image::new(1);
    let at = image.params_v3(4, &[(1, 0), (2, 9), (1, 0), (255, 0)]);
    let mut fp = image.open(at);
    let (params, caption_off, _) = ParameterIndex::from_v3(&mut fp, 4).ok().unwrap();
    assert_eq!(param_keys(&params), vec![2]);
    assert_eq!(caption_off, 0);
}

#[test]
fn a_parameter_table_of_width_zero_is_empty() {
    let mut image = Image::new(1);
    let at = image.put(&[3, 0, 99, 0, 4, 0, 1, 2, 3]);
    let mut fp = image.open(at);
    let (params, caption_off, tooltip_off) = ParameterIndex::from_v3(&mut fp, 4).ok().unwrap();
    assert_eq!(params.get_num_params(), 0);
    assert_eq!((caption_off, tooltip_off), (0, 0));
    let at = image.put(&[3, 0]);
    assert_eq!(ParameterIndex::from_v4(&mut image.open(at)).ok().unwrap().get_num_params(), 0);
}

#[test]
fn parameters_of_schema_4_have_tooltips_and_values() {
    let mut image = Image::new(1);
    let on = image.text("On");
    let off = image.text("Off");
    let caption = image.text("Enable");
    let tooltip = image.text("Switch");
    let values = image.mnemonics(&[(1, on, 0), (0, off, 0)]);
    let at = image.params_v4(&[(5, caption, tooltip, values), (6, 0, tooltip, values), (2, caption, 0, 0)]);
    let mut fp = image.open(at);
    let params = ParameterIndex::from_v4(&mut fp).ok().unwrap();
    assert_eq!(param_keys(&params), vec![5, 2]);
    let five = params.get(5).unwrap();
    assert_eq!(five.get_caption_off(), caption);
    assert_eq!(five.get_tooltip_off(), tooltip);
    assert_eq!(five.get_mnemonics().get_num_values(), 2);
    assert_eq!(params.get(2).unwrap().get_mnemonics().get_num_values(), 0);
    let mut stats = fp.into_stats();
    assert_eq!(five.to_string(&mut stats).ok().unwrap(), "Enable / Switch");
    assert_eq!(five.get_mnemonics().get(1).unwrap().to_string(&mut stats).ok().unwrap(), "On");
    assert_eq!(params.get(2).unwrap().to_string(&mut stats).ok().unwrap(), "Enable");
}

#[test]
fn parameters_of_schema_4_are_checked() {
    let mut image = Image::new(1);
    let at = image.params_v4(&[(5, 9, 0, 0), (5, 8, 0, 0)]);
    assert!(matches!(ParameterIndex::from_v4(&mut image.open(at)), Err(Fatal::DuplicateKey)));
    let at = image.put(&[1, 10, 5, 9, 0, 0, 0, 0, 0, 0, 0, 0]);
    assert!(matches!(ParameterIndex::from_v4(&mut image.open(at)), Err(Fatal::EntrySize)));
    let at = image.put(&[1, 5, 5, 9, 0, 0]);
    assert!(matches!(ParameterIndex::from_v4(&mut image.open(at)), Err(Fatal::OutOfBounds)));
    // the values of a parameter lie on the records of the table
    let mut image = Image::new(1);
    let at = image.here();
    image.params_v4(&[(5, 9, 0, at + 2)]);
    assert!(matches!(ParameterIndex::from_v4(&mut image.open(at)), Err(Fatal::RegionMismatch)));
}

#[test]
fn a_parameter_record_of_schema_4_belongs_to_the_parameters() {
    let mut image = Image::new(1);
    let at = image.params_v4(&[(5, 9, 0, 0)]);
    let mut fp = image.open(at);
    assert_eq!(ParameterIndex::from_v4(&mut fp).ok().unwrap().get_num_params(), 1);
    // the header of two bytes and the record of ten were read as parameters
    let report = fp.display_stats();
    assert_eq!(report.runs.len(), 2);
    assert_eq!(report.runs[1].region, BlobRegions::Parameters);
    assert_eq!((report.runs[1].start, report.runs[1].end), (1, 12));
    fp.set_pos(at + 3);
    assert_eq!(fp.read_byte(BlobRegions::Menus), Err(Fatal::RegionMismatch));
    fp.set_pos(at + 11);
    assert_eq!(fp.read_byte(BlobRegions::Parameters), Ok(0));
}

#[test]
fn parameter_schema_is_checked() {
    assert_eq!(ParameterIndex::validate_schema(2, 6, 32), Ok(()));
    assert_eq!(ParameterIndex::validate_schema(3, 5, 32), Ok(()));
    assert_eq!(ParameterIndex::validate_schema(4, 5, 256), Ok(()));
    assert_eq!(ParameterIndex::validate_schema(2, 5, 32), Err(Fatal::EntrySize));
    assert_eq!(ParameterIndex::validate_schema(3, 6, 32), Err(Fatal::EntrySize));
    assert_eq!(ParameterIndex::validate_schema(4, 10, 256), Err(Fatal::EntrySize));
    assert_eq!(ParameterIndex::validate_schema(4, 5, 32), Err(Fatal::StringLength));
    assert_eq!(ParameterIndex::validate_schema(3, 5, 256), Err(Fatal::StringLength));
    assert_eq!(ParameterIndex::validate_schema(1, 5, 32), Err(Fatal::InvalidFormat));
}

#[test]
fn schema_2_parameters_are_grouped_by_menu() {
    let mut image = Image::new(1);
    let at = image.here() + 6;
    image.params_v2(9, &[(1, 3, 10), (2, 3, 20), (1, 0, 30), (255, 3, 40), (9, 0, 0)]);
    let mut fp = image.open(at);
    let mut menus = ParameterIndex::read_v2_entries(&mut fp, 5).ok().unwrap();
    assert_eq!(menus.len(), 2);
    assert_eq!(param_keys(menus.get(3).unwrap()), vec![255, 2, 1]);
    assert_eq!(param_keys(menus.get(0).unwrap()), vec![1]);
    let (menu, mut params) = menus.pop().unwrap();
    assert_eq!(menu, 3);
    assert_eq!(params.self_check_param255(), (40, 0));
    assert_eq!(param_keys(&params), vec![2, 1]);
    let mut fp = image.open(at);
    assert!(matches!(
        ParameterIndex::read_v2_entries(&mut fp, 6),
        Err(Fatal::OutOfBounds)
    ));
    let mut twice = Image::new(1);
    let at = twice.here() + 6;
    twice.params_v2(9, &[(1, 3, 10), (1, 3, 20)]);
    assert!(matches!(
        ParameterIndex::read_v2_entries(&mut twice.open(at), 2),
        Err(Fatal::DuplicateKey)
    ));
}

#[test]
fn schema_2_menus_are_made_of_the_parameters() {
    let mut image = Image::new(1);
    let one = image.text("Menu one");
    let speed = image.text("Speed");
    let at = image.params_v2(9, &[(1, 1, speed), (255, 1, one), (4, 2, speed), (5, 2, speed)]);
    let mut fp = image.open(at);
    let menus = MenuIndex::from_v2(&mut fp, 9).ok().unwrap();
    assert_eq!(menus.get_num_menus(), 2);
    assert_eq!(menu_keys(&menus), vec![2, 1]);
    let first = menus.get(1).unwrap();
    assert_eq!(first.get_caption_off(), one);
    assert_eq!(param_keys(first.get_params()), vec![1]);
    let second = menus.get(2).unwrap();
    assert_eq!(second.get_caption_off(), 0);
    assert_eq!(param_keys(second.get_params()), vec![5, 4]);
    let mut stats = fp.into_stats();
    assert_eq!(first.to_string(&mut stats).ok().unwrap(), "Menu one");
    assert_eq!(second.to_string(&mut stats).ok().unwrap(), "[-- no string --]");
    assert!(matches!(MenuIndex::from_v2(&mut image.open(at), 8), Err(Fatal::FontFamily)));
}

#[test]
fn schema_3_menus_skip_the_slots_that_are_empty() {
    let mut image = Image::new(1);
    let caption = image.text("Drive");
    let speed = image.text("Speed");
    let first = image.params_v3(2, &[(255, caption), (1, speed)]);
    let third = image.params_v3(2, &[(8, speed)]);
    let at = image.menus_v3(&[first, 0, third]);
    let mut fp = image.open(at);
    let menus = MenuIndex::from_v3(&mut fp, 2).ok().unwrap();
    assert_eq!(menu_keys(&menus), vec![2, 0]);
    assert_eq!(menus.get(0).unwrap().get_caption_off(), caption);
    assert_eq!(menus.get(2).unwrap().get_caption_off(), 0);
    assert!(menus.get(1).is_none());
    assert_eq!(param_keys(menus.get(0).unwrap().get_params()), vec![1]);
    assert_eq!(param_keys(menus.get(2).unwrap().get_params()), vec![8]);
    let mut stats = fp.into_stats();
    assert_eq!(menus.get(0).unwrap().to_string(&mut stats).ok().unwrap(), "Drive");
    let mut wide = Image::new(1);
    let at = wide.put(&[1, 9, 0, 0, 0]);
    assert!(matches!(MenuIndex::from_v3(&mut wide.open(at), 2), Err(Fatal::EntrySize)));
    let at = wide.put(&[2, 3, 0, 0, 0]);
    assert!(matches!(MenuIndex::from_v3(&mut wide.open(at), 2), Err(Fatal::OutOfBounds)));
}

#[test]
fn schema_4_menus_carry_their_own_caption() {
    let mut image = Image::new(1);
    let caption = image.text("Drive");
    let tooltip = image.text("All of it");
    let speed = image.text("Speed");
    let params = image.params_v4(&[(1, speed, 0, 0)]);
    let at = image.menus_v4(&[(0, tooltip, params), (caption, tooltip, params)]);
    let mut fp = image.open(at);
    let menus = MenuIndex::from_v4(&mut fp).ok().unwrap();
    assert_eq!(menu_keys(&menus), vec![1]);
    let menu = menus.get(1).unwrap();
    assert_eq!(menu.get_caption_off(), caption);
    assert_eq!(menu.get_tooltip_off(), tooltip);
    let mut stats = fp.into_stats();
    assert_eq!(menu.to_string(&mut stats).ok().unwrap(), "Drive / All of it");
    assert_eq!(menu.get_params().get(1).unwrap().to_string(&mut stats).ok().unwrap(), "Speed");
    let mut wide = Image::new(1);
    let at = wide.put(&[1, 3, 0, 0, 0]);
    assert!(matches!(MenuIndex::from_v4(&mut wide.open(at)), Err(Fatal::EntrySize)));
}

#[test]
fn menus_made_of_entries_refuse_a_number_twice() {
    let mut image = Image::new(1);
    let at = image.params_v3(2, &[(1, 9)]);
    let mut fp = image.open(at);
    let (params, _, _) = ParameterIndex::from_v3(&mut fp, 2).ok().unwrap();
    let a = MenuIndexEntry::new(3, 10, 0, params, &mut fp);
    let mut fp = image.open(at);
    let (params, _, _) = ParameterIndex::from_v3(&mut fp, 2).ok().unwrap();
    let b = MenuIndexEntry::new(4, 10, 0, params, &mut fp);
    assert!(a == b);
    assert!(matches!(MenuIndex::new(vec![a.clone(), b.clone(), a.clone()]), Err(Fatal::DuplicateKey)));
    let menus = MenuIndex::new(vec![a.clone(), b.clone()]).ok().unwrap();
    assert_eq!(menu_keys(&menus), vec![4, 3]);
    let menus = MenuIndex::new(vec![b, a]).ok().unwrap();
    assert_eq!(menu_keys(&menus), vec![4, 3]);
    let params: Vec<_> = {
        let mut list = Vec::new();
        let mut iter = menus.get(3).unwrap().get_params().into_iter();
        while let Some((_, entry)) = iter.next() {
            list.push(entry);
        }
        list
    };
    assert!(matches!(
        ParameterIndex::new(vec![params[0].clone(), params[0].clone()]),
        Err(Fatal::DuplicateKey)
    ));
    assert_eq!(ParameterIndex::new(params).ok().unwrap().get_num_params(), 1);
}

#[test]
fn a_single_mode_of_schema_3_is_mode_0() {
    let mut image = Image::new(1);
    let menus = image.menus_v3(&[]);
    let at = image.modes_v3(&[menus]);
    let mut fp = image.open(at);
    let modes = ModeIndex::create_from_file(&mut fp, 3, 0).ok().unwrap();
    assert_eq!(modes.get_num_modes(), 1);
    assert_eq!(mode_keys(&modes), vec![0]);
    assert_eq!(modes.get(0).unwrap().get_menus().get_num_menus(), 0);
    assert_eq!(
        modes.get(0).unwrap().to_string(0).ok().unwrap(),
        "Mode 'Any' num of menus = 0"
    );
    let at = image.modes_v3(&[0]);
    assert!(matches!(
        ModeIndex::create_from_file(&mut image.open(at), 3, 0),
        Err(Fatal::EmptySlot)
    ));
}

#[test]
fn several_modes_of_schema_3_are_numbered_from_1() {
    let mut image = Image::new(1);
    let a = image.menus_v3(&[]);
    let b = image.menus_v3(&[0, 0]);
    let at = image.modes_v3(&[a, 0, b, 0]);
    let mut fp = image.open(at);
    let modes = ModeIndex::create_from_file(&mut fp, 3, 0).ok().unwrap();
    assert_eq!(mode_keys(&modes), vec![3, 1]);
    assert_eq!(modes.get_num_modes(), 2);
    assert!(modes.get(2).is_none());
}

#[test]
fn modes_of_schema_4_hold_menus_of_schema_4() {
    let mut image = Image::new(1);
    let caption = image.text("Drive");
    let params = image.params_v4(&[]);
    let menus = image.menus_v4(&[(caption, 0, params)]);
    let at = image.modes_v3(&[menus, menus]);
    let mut fp = image.open(at);
    let modes = ModeIndex::create_from_file(&mut fp, 4, 0).ok().unwrap();
    assert_eq!(mode_keys(&modes), vec![2, 1]);
    assert_eq!(modes.get(2).unwrap().get_menus().get_num_menus(), 1);
    assert_eq!(
        modes.get(2).unwrap().to_string(2).ok().unwrap(),
        "Mode 'RFC-A' num of menus = 1"
    );
}

#[test]
fn modes_of_schema_2_must_come_in_sequence() {
    let mut image = Image::new(1);
    let params = image.params_v2(0, &[]);
    let at = image.modes_v2(&[(1, params), (2, params)]);
    let modes = ModeIndex::create_from_file(&mut image.open(at), 2, 0).ok().unwrap();
    assert_eq!(mode_keys(&modes), vec![2, 1]);
    let at = image.modes_v2(&[(1, params), (3, params)]);
    assert!(matches!(
        ModeIndex::create_from_file(&mut image.open(at), 2, 0),
        Err(Fatal::ModeSequence)
    ));
    let at = image.modes_v2(&[(0, params), (1, params)]);
    assert!(matches!(
        ModeIndex::create_from_file(&mut image.open(at), 2, 0),
        Err(Fatal::ModeSequence)
    ));
    let at = image.modes_v2(&[(0, params)]);
    assert_eq!(mode_keys(&ModeIndex::create_from_file(&mut image.open(at), 2, 0).ok().unwrap()), vec![0]);
    let at = image.modes_v2(&[(1, params)]);
    assert_eq!(mode_keys(&ModeIndex::create_from_file(&mut image.open(at), 2, 0).ok().unwrap()), vec![1]);
    let at = image.modes_v2(&[(2, params)]);
    assert!(matches!(
        ModeIndex::create_from_file(&mut image.open(at), 2, 0),
        Err(Fatal::ModeSequence)
    ));
    let at = image.modes_v2(&[(1, 0)]);
    assert!(matches!(
        ModeIndex::create_from_file(&mut image.open(at), 2, 0),
        Err(Fatal::EmptySlot)
    ));
}

#[test]
fn the_number_of_modes_is_one_to_four() {
    let mut image = Image::new(1);
    let menus = image.menus_v3(&[]);
    let at = image.modes_v3(&[]);
    assert!(matches!(
        ModeIndex::create_from_file(&mut image.open(at), 3, 0),
        Err(Fatal::EntryCount)
    ));
    let at = image.modes_v3(&[menus, menus, menus, menus]);
    assert_eq!(
        mode_keys(&ModeIndex::create_from_file(&mut image.open(at), 3, 0).ok().unwrap()),
        vec![4, 3, 2, 1]
    );
    let at = image.modes_v3(&[menus, menus, menus, menus, menus]);
    assert!(matches!(
        ModeIndex::create_from_file(&mut image.open(at), 3, 0),
        Err(Fatal::EntryCount)
    ));
    let at = image.modes_v3(&[menus]);
    assert!(matches!(
        ModeIndex::create_from_file(&mut image.open(at), 2, 0),
        Err(Fatal::EntrySize)
    ));
    assert!(matches!(
        ModeIndex::create_from_file(&mut image.open(at), 7, 0),
        Err(Fatal::InvalidFormat)
    ));
}

#[test]
fn modes_are_put_into_words_by_their_number() {
    let mut image = Image::new(1);
    let menus = image.menus_v3(&[]);
    let mut fp = image.open(menus);
    let index = MenuIndex::from_v3(&mut fp, 0).ok().unwrap();
    let entry = ModeIndexEntry::new(1, index);
    assert_eq!(entry.to_string(1).ok().unwrap(), "Mode 'Open Loop' num of menus = 0");
    assert_eq!(entry.to_string(3).ok().unwrap(), "Mode 'RFC-S' num of menus = 0");
    assert_eq!(entry.to_string(4).ok().unwrap(), "Mode 'Regen' num of menus = 0");
    assert!(matches!(entry.to_string(5), Err(Fatal::UnknownMode)));
    let other = entry.clone();
    assert!(matches!(ModeIndex::new(vec![entry.clone(), other]), Err(Fatal::DuplicateKey)));
    assert_eq!(ModeIndex::new(vec![entry]).ok().unwrap().get_num_modes(), 1);
}

fn one_mode(image: &mut Image) -> u32 {
    let menus = image.menus_v3(&[]);
    image.modes_v3(&[menus])
}

#[test]
fn products_of_schema_3_are_read() {
    let mut image = Image::new(1);
    let modes = one_mode(&mut image);
    let at = image.products_v3(&[(7, 0, 65535, 1, modes), (9, 2, 5, 0, modes), (8, 3, 3, 0, modes)]);
    let mut fp = image.open(at);
    let products = ProductIndex::create_from_file(&mut fp, 3, 0).ok().unwrap();
    assert_eq!(products.len(), 3);
    let mut texts = Vec::new();
    let mut iter = products.into_iter();
    while let Some((id, entry)) = iter.next() {
        texts.push((id, entry.to_string().ok().unwrap()));
    }
    assert_eq!(
        texts,
        vec![
            (9, "Derv 2 - 5 : num_of_modes = 1".to_string()),
            (8, " Derv 3 : num_of_modes = 1".to_string()),
            (7, "ALL DERIVATIVES : num of modes = 1".to_string()),
        ]
    );
    assert_eq!(products.get(7).unwrap().get_modes().get_num_modes(), 1);
    assert!(products.get(6).is_none());
}

#[test]
fn products_are_checked() {
    let mut image = Image::new(1);
    let modes = one_mode(&mut image);
    let at = image.products_v3(&[(7, 0, 0, 0, modes), (7, 1, 1, 0, modes)]);
    assert!(matches!(
        ProductIndex::create_from_file(&mut image.open(at), 3, 0),
        Err(Fatal::DuplicateKey)
    ));
    let at = image.products_v3(&[(7, 0, 0, 0, 0)]);
    assert!(matches!(
        ProductIndex::create_from_file(&mut image.open(at), 3, 0),
        Err(Fatal::EmptySlot)
    ));
    let at = image.products_v3(&[(7, 0, 0, 0, modes)]);
    assert!(matches!(
        ProductIndex::create_from_file(&mut image.open(at), 2, 0),
        Err(Fatal::EntrySize)
    ));
    assert!(matches!(
        ProductIndex::create_from_file(&mut image.open(at), 9, 0),
        Err(Fatal::InvalidFormat)
    ));
    assert!(ProductIndex::create_from_file(&mut image.open(at), 4, 0).is_err());
    let at = image.put(&[1, 11, 7, 0]);
    assert!(matches!(
        ProductIndex::create_from_file(&mut image.open(at), 3, 0),
        Err(Fatal::OutOfBounds)
    ));
}

#[test]
fn the_number_of_products_is_held_to_bounds() {
    let mut image = Image::new(1);
    let modes = one_mode(&mut image);
    let many: Vec<_> = (0..41u16).map(|i| (i, 0, 0, 0, modes)).collect();
    let at = image.products_v3(&many);
    assert!(matches!(
        ProductIndex::create_from_file(&mut image.open(at), 3, 0),
        Err(Fatal::EntryCount)
    ));
    let all = CountBounds { min: 0, max: 255 };
    assert_eq!(ProductIndex::create_within(&mut image.open(at), 3, 0, all).ok().unwrap().len(), 41);
    let at = image.products_v3(&many[..40]);
    assert_eq!(ProductIndex::create_from_file(&mut image.open(at), 3, 0).ok().unwrap().len(), 40);
    let at = image.products_v3(&many[..1]);
    assert_eq!(ProductIndex::create_from_file(&mut image.open(at), 3, 0).ok().unwrap().len(), 1);
    let strict = CountBounds { min: 10, max: 40 };
    assert!(matches!(
        ProductIndex::create_within(&mut image.open(at), 3, 0, strict),
        Err(Fatal::EntryCount)
    ));
    assert_eq!(CountBounds::for_schema(2), strict);
    assert_eq!(CountBounds::for_schema(3), CountBounds { min: 0, max: 40 });
    assert_eq!(CountBounds::for_schema(4), CountBounds { min: 0, max: 40 });
}

#[test]
fn products_of_schema_2_have_one_derivative_and_small_flags() {
    let mut image = Image::new(1);
    let params = image.params_v2(0, &[]);
    let modes = image.modes_v2(&[(1, params)]);
    let records: Vec<_> = (0..10u16).map(|i| (15u8, 4u8, i, modes)).collect();
    let at = image.products_v2(&records);
    let products = ProductIndex::create_from_file(&mut image.open(at), 2, 0).ok().unwrap();
    assert_eq!(products.len(), 10);
    assert_eq!(products.get(3).unwrap().to_string().ok().unwrap(), " Derv 4 : num_of_modes = 1");
    let at = image.products_v2(&records[..9]);
    assert!(matches!(
        ProductIndex::create_from_file(&mut image.open(at), 2, 0),
        Err(Fatal::EntryCount)
    ));
    let mut flagged = records.clone();
    flagged[4].0 = 16;
    let at = image.products_v2(&flagged);
    assert!(matches!(
        ProductIndex::create_from_file(&mut image.open(at), 2, 0),
        Err(Fatal::InvalidFlags)
    ));
    let mut empty = records.clone();
    empty[9].3 = 0;
    let at = image.products_v2(&empty);
    assert!(matches!(
        ProductIndex::create_from_file(&mut image.open(at), 2, 0),
        Err(Fatal::EmptySlot)
    ));
}

#[test]
fn products_made_of_entries_refuse_an_id_twice() {
    let mut image = Image::new(1);
    let modes = one_mode(&mut image);
    let at = image.products_v3(&[(7, 0, 0, 0, modes), (3, 0, 0, 0, modes)]);
    let products = ProductIndex::create_from_file(&mut image.open(at), 3, 0).ok().unwrap();
    let mut entries = Vec::new();
    let mut iter = products.into_iter();
    while let Some((_, entry)) = iter.next() {
        entries.push(entry);
    }
    let again = ProductIndex::new(entries.clone()).ok().unwrap();
    assert_eq!(again.len(), 2);
    entries.push(entries[0].clone());
    assert!(matches!(ProductIndex::new(entries), Err(Fatal::DuplicateKey)));
}

#[test]
fn a_table_shared_by_two_parents_is_read_twice() {
    let mut image = Image::new(1);
    let menus = image.menus_v3(&[]);
    let modes = image.modes_v3(&[menus, menus, menus]);
    let at = image.products_v3(&[(1, 0, 0, 0, modes), (2, 0, 0, 0, modes)]);
    let mut fp = image.open(at);
    assert_eq!(ProductIndex::create_from_file(&mut fp, 3, 0).ok().unwrap().len(), 2);
    fp.set_pos(menus);
    assert_eq!(fp.read_byte(BlobRegions::Modes), Err(Fatal::RegionMismatch));
}
