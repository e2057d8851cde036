use langpack::blob::{
    BlobRegions, DecodeError, FileBlob, RegionRun, Stats, StringError,
};
use langpack::characters::{Character, CharacterMap, CharacterMaps};
use langpack::error::Fatal;

fn utf8_blob(data: Vec<u8>) -> FileBlob {
    let size = data.len() as u32;
    FileBlob::load(data, size, 0, CharacterMaps::utf8()).unwrap()
}

fn codepage() -> CharacterMaps {
    let mut one = CharacterMap::empty(1, 1);
    one.insert(0x41, Character::new("A".to_string()));
    one.insert(0x42, Character::new("B".to_string()));
    one.insert(0x43, Character::new(String::new()));
    let mut two = CharacterMap::empty(2, 2);
    // the pair (0x03, 0xC1): ((0xC1 & 0x3F) << 7) | (0x03 >> 1) = 128 + 1
    two.insert(129, Character::new("\u{4e2d}".to_string()));
    CharacterMaps::new(vec![one, two])
}

fn codepage_blob(data: Vec<u8>) -> FileBlob {
    let size = data.len() as u32;
    FileBlob::load(data, size, 0, codepage()).unwrap()
}

#[test]
fn load_refuses_another_length() {
    assert!(FileBlob::load(vec![1, 2, 3], 3, 0, CharacterMaps::utf8()).is_ok());
    assert!(matches!(
        FileBlob::load(vec![1, 2, 3], 4, 0, CharacterMaps::utf8()),
        Err(Fatal::LengthMismatch)
    ));
    assert!(matches!(
        FileBlob::load(vec![], 1, 0, CharacterMaps::utf8()),
        Err(Fatal::LengthMismatch)
    ));
}

#[test]
fn reads_advance_and_end_with_the_file() {
    let mut fp = utf8_blob(vec![0x34, 0x12, 0xFF, 1, 2, 3, 4, 5, 6, 7]);
    assert_eq!(fp.read_le_2bytes(BlobRegions::Header), Ok(0x1234));
    assert_eq!(fp.read_byte(BlobRegions::Header), Ok(0xFF));
    assert_eq!(fp.read_le_3bytes(BlobRegions::Header), Ok(0x030201));
    assert_eq!(fp.read_le_4bytes(BlobRegions::Header), Ok(0x07060504));
    assert_eq!(fp.read_byte(BlobRegions::Header), Err(Fatal::OutOfBounds));
}

#[test]
fn a_read_past_the_end_reads_nothing() {
    let mut fp = utf8_blob(vec![1, 2, 3]);
    assert_eq!(fp.read_le_4bytes(BlobRegions::Units), Err(Fatal::OutOfBounds));
    assert_eq!(fp.read_le_3bytes(BlobRegions::Modes), Ok(0x030201));
    fp.set_pos(1000);
    assert_eq!(fp.read_byte(BlobRegions::Modes), Err(Fatal::OutOfBounds));
}

#[test]
fn read_exact_gives_the_bytes() {
    let mut fp = utf8_blob(vec![9, 8, 7, 6]);
    fp.set_pos(1);
    assert_eq!(fp.read_exact(2, BlobRegions::Menus), Ok(vec![8, 7]));
    assert_eq!(fp.read_exact(0, BlobRegions::Units), Ok(vec![]));
    assert_eq!(fp.read_exact(1, BlobRegions::Menus), Ok(vec![6]));
}

#[test]
fn reading_again_as_the_same_thing_is_accepted() {
    let mut fp = utf8_blob(vec![1, 2, 3, 4]);
    assert_eq!(fp.read_le_2bytes(BlobRegions::Menus), Ok(0x0201));
    fp.set_pos(0);
    assert_eq!(fp.read_le_2bytes(BlobRegions::Menus), Ok(0x0201));
    fp.set_pos(1);
    assert_eq!(fp.read_le_3bytes(BlobRegions::Menus), Ok(0x040302));
}

#[test]
fn reading_again_as_another_thing_is_refused() {
    let mut fp = utf8_blob(vec![1, 2, 3, 4]);
    assert_eq!(fp.read_le_2bytes(BlobRegions::Menus), Ok(0x0201));
    fp.set_pos(1);
    assert_eq!(fp.read_le_2bytes(BlobRegions::Units), Err(Fatal::RegionMismatch));
    fp.set_pos(2);
    assert_eq!(fp.read_le_2bytes(BlobRegions::Units), Ok(0x0403));
}

#[test]
fn offset_zero_is_no_string() {
    let fp = utf8_blob(vec![b'A', 0, b'B']);
    let raw = {
        let mut fp = fp;
        let raw = fp.freeze();
        (raw, fp.into_stats())
    };
    let (raw, mut stats) = raw;
    for n in [0u16, 1, 16, 65535] {
        assert_eq!(raw.get_string(0, n, &mut stats).ok().unwrap(), "[-- no string --]");
    }
    assert_eq!(stats.unused(), 3);
    assert_eq!(stats.duplicate_count(), 0);
}

#[test]
fn a_string_that_starts_with_its_end_is_empty() {
    let mut fp = utf8_blob(vec![b'A', 0, b'B', 0]);
    let raw = fp.freeze();
    let mut stats = fp.into_stats();
    assert_eq!(raw.get_string(1, 16, &mut stats).ok().unwrap(), "[-- empty string --]");
    assert_eq!(raw.get_string(3, 1, &mut stats).ok().unwrap(), "[-- empty string --]");
    assert_eq!(raw.get_string(2, 0, &mut stats).ok().unwrap(), "[-- empty string --]");
    assert_eq!(stats.unused(), 2);
}

#[test]
fn a_string_ends_at_its_zero_byte_or_at_its_length() {
    let mut fp = utf8_blob(b"xSpeed\0Torque".to_vec());
    let raw = fp.freeze();
    let mut stats = fp.into_stats();
    assert_eq!(raw.get_string(1, 32, &mut stats).ok().unwrap(), "Speed");
    assert_eq!(raw.get_string(7, 3, &mut stats).ok().unwrap(), "Tor");
    assert_eq!(
        stats.runs(),
        vec![
            RegionRun { start: 0, end: 0, region: BlobRegions::Empty },
            RegionRun { start: 1, end: 9, region: BlobRegions::Text },
            RegionRun { start: 10, end: 12, region: BlobRegions::Empty },
        ]
    );
    assert_eq!(stats.unused(), 4);
}

#[test]
fn a_string_that_runs_out_of_the_file_is_fatal() {
    let mut fp = utf8_blob(b"abc".to_vec());
    let raw = fp.freeze();
    let mut stats = fp.into_stats();
    assert!(matches!(
        raw.get_string(1, 16, &mut stats),
        Err(DecodeError::Aborted(Fatal::OutOfBounds))
    ));
    assert!(matches!(
        raw.get_string(9, 1, &mut stats),
        Err(DecodeError::Aborted(Fatal::OutOfBounds))
    ));
    assert_eq!(stats.unused(), 3);
    assert_eq!(raw.get_string(1, 2, &mut stats).ok().unwrap(), "bc");
}

#[test]
fn text_cannot_lie_on_a_table() {
    let mut fp = utf8_blob(b"abcd\0".to_vec());
    assert_eq!(fp.read_byte(BlobRegions::Units), Ok(b'a'));
    let raw = fp.freeze();
    let mut stats = fp.into_stats();
    assert_eq!(raw.get_string(1, 16, &mut stats).ok().unwrap(), "bcd");
    let mut fp = utf8_blob(b"abcd\0".to_vec());
    fp.set_pos(2);
    assert_eq!(fp.read_byte(BlobRegions::Units), Ok(b'c'));
    let raw = fp.freeze();
    let mut stats = fp.into_stats();
    let err = raw.get_string(1, 16, &mut stats).err().unwrap();
    assert!(matches!(err, DecodeError::Aborted(Fatal::RegionMismatch)));
    assert!(err.is_fatal());
}

#[test]
fn utf8_text_is_decoded_and_bad_utf8_is_an_error() {
    let mut data = vec![0u8];
    data.extend_from_slice("Größe".as_bytes());
    data.push(0);
    data.extend_from_slice(&[0xC3, 0x28, 0]);
    let mut fp = utf8_blob(data);
    let raw = fp.freeze();
    let mut stats = fp.into_stats();
    assert_eq!(raw.get_string(1, 32, &mut stats).ok().unwrap(), "Größe");
    let err = raw.get_string(9, 32, &mut stats).err().unwrap();
    assert!(matches!(err, DecodeError::InvalidUtf8));
    assert!(!err.is_fatal());
}

#[test]
fn single_bytes_are_looked_up_in_the_first_map_of_one_byte() {
    let mut fp = codepage_blob(vec![0, 0x41, 0x42, 0x43, 0x41, 0]);
    let raw = fp.freeze();
    let mut stats = fp.into_stats();
    assert_eq!(raw.get_string(1, 32, &mut stats).ok().unwrap(), "ABA");
}

#[test]
fn a_pair_is_one_code_of_two_bytes() {
    // 0x03 has its low bit set, 0xC1 its two top bits: code ((0xC1 & 0x3F) << 7) | (0x03 >> 1)
    let mut fp = codepage_blob(vec![0, 0x41, 0x03, 0xC1, 0x42, 0]);
    let raw = fp.freeze();
    let mut stats = fp.into_stats();
    assert_eq!(raw.get_string(1, 32, &mut stats).ok().unwrap(), "A\u{4e2d}B");
}

#[test]
fn a_lone_high_byte_is_a_decode_error() {
    // 0x42 has its low bit clear, so 0xC1 behind it is no part of a pair
    let mut fp = codepage_blob(vec![0, 0x42, 0xC1, 0, 0xC5, 0]);
    let raw = fp.freeze();
    let mut stats = fp.into_stats();
    match raw.get_string(1, 32, &mut stats) {
        Err(DecodeError::Dangling { partial, bytes }) => {
            assert_eq!(partial, "B");
            assert_eq!(bytes, vec![0x42, 0xC1]);
        }
        _ => panic!("a dangling byte must be reported"),
    }
    match raw.get_string(4, 32, &mut stats) {
        Err(DecodeError::Dangling { partial, bytes }) => {
            assert_eq!(partial, "");
            assert_eq!(bytes, vec![0xC5]);
        }
        _ => panic!("a dangling byte must be reported"),
    }
}

#[test]
fn a_high_byte_before_an_unpaired_byte_is_a_decode_error() {
    // 0xC1 comes first and 0x41 does not make a pair with it
    let mut fp = codepage_blob(vec![0, 0xC1, 0x41, 0]);
    let raw = fp.freeze();
    let mut stats = fp.into_stats();
    assert!(matches!(raw.get_string(1, 32, &mut stats), Err(DecodeError::Dangling { .. })));
}

#[test]
fn a_code_without_an_entry_is_fatal() {
    let mut fp = codepage_blob(vec![0, 0x41, 0x44, 0, 0x05, 0xC1, 0]);
    let raw = fp.freeze();
    let mut stats = fp.into_stats();
    assert!(matches!(
        raw.get_string(1, 32, &mut stats),
        Err(DecodeError::Aborted(Fatal::MissingCharacter))
    ));
    assert!(matches!(
        raw.get_string(4, 32, &mut stats),
        Err(DecodeError::Aborted(Fatal::MissingCharacter))
    ));
}

#[test]
fn a_copy_at_another_offset_counts_its_size() {
    let mut fp = utf8_blob(b"\0Speed\0Speed\0Gain\0".to_vec());
    let raw = fp.freeze();
    let mut stats = fp.into_stats();
    assert_eq!(raw.get_string(1, 32, &mut stats).ok().unwrap(), "Speed");
    assert_eq!(stats.duplicate_count(), 0);
    assert_eq!(raw.get_string(1, 32, &mut stats).ok().unwrap(), "Speed");
    assert_eq!(stats.duplicate_count(), 0);
    assert_eq!(raw.get_string(7, 32, &mut stats).ok().unwrap(), "Speed");
    assert_eq!(stats.duplicate_count(), 5);
    assert_eq!(raw.get_string(13, 32, &mut stats).ok().unwrap(), "Gain");
    assert_eq!(stats.duplicate_count(), 5);
    // both offsets still resolve
    assert_eq!(raw.get_string(1, 32, &mut stats).ok().unwrap(), "Speed");
    assert_eq!(raw.get_string(7, 32, &mut stats).ok().unwrap(), "Speed");
    assert_eq!(stats.duplicate_count(), 10);
}

#[test]
fn empty_strings_at_two_offsets_count_one_byte() {
    let mut fp = utf8_blob(vec![1, 0, 0, 0]);
    let raw = fp.freeze();
    let mut stats = fp.into_stats();
    assert_eq!(raw.get_string(1, 8, &mut stats).ok().unwrap(), "[-- empty string --]");
    assert_eq!(raw.get_string(2, 8, &mut stats).ok().unwrap(), "[-- empty string --]");
    assert_eq!(stats.duplicate_count(), 1);
}

#[test]
fn caption_and_tooltip_are_joined() {
    let mut fp = utf8_blob(b"\0Speed\0How fast\0\xFF\0".to_vec());
    let raw = fp.freeze();
    let mut stats = fp.into_stats();
    assert_eq!(raw.get_caption(1, 0, 32, &mut stats).ok().unwrap(), "Speed");
    assert_eq!(raw.get_caption(1, 7, 32, &mut stats).ok().unwrap(), "Speed / How fast");
    assert_eq!(raw.get_caption(0, 7, 32, &mut stats).ok().unwrap(), "[-- no string --] / How fast");
    match raw.get_caption(1, 16, 32, &mut stats) {
        Err(StringError { offset, error }) => {
            assert_eq!(offset, 16);
            assert!(matches!(error, DecodeError::InvalidUtf8));
        }
        Ok(_) => panic!("the tooltip is no UTF-8"),
    }
    match raw.get_caption(16, 1, 32, &mut stats) {
        Err(StringError { offset, .. }) => assert_eq!(offset, 16),
        Ok(_) => panic!("the caption is no UTF-8"),
    }
}

#[test]
fn report_counts_unused_bytes_and_lists_runs() {
    let mut fp = utf8_blob(vec![0; 8]);
    fp.set_pos(2);
    fp.read_le_2bytes(BlobRegions::Header).unwrap();
    fp.read_byte(BlobRegions::Units).unwrap();
    let report = fp.display_stats();
    assert_eq!(report.unused, 5);
    assert_eq!(report.duplicate_count, 0);
    assert_eq!(
        report.runs,
        vec![
            RegionRun { start: 0, end: 1, region: BlobRegions::Empty },
            RegionRun { start: 2, end: 3, region: BlobRegions::Header },
            RegionRun { start: 4, end: 4, region: BlobRegions::Units },
            RegionRun { start: 5, end: 7, region: BlobRegions::Empty },
        ]
    );
    let empty = Stats::new(0);
    assert_eq!(empty.runs(), vec![]);
    assert_eq!(empty.unused(), 0);
    assert_eq!(empty.len(), 0);
}

#[test]
fn a_shared_handle_reads_the_same_file() {
    let mut fp = utf8_blob(b"\0Speed\0".to_vec());
    let raw = fp.freeze();
    let other = raw.clone();
    let mut stats = fp.into_stats();
    assert_eq!(raw.len(), 7);
    assert_eq!(other.len(), 7);
    assert_eq!(other.get_string(1, 32, &mut stats).ok().unwrap(), "Speed");
    assert_eq!(raw.get_string(1, 32, &mut stats).ok().unwrap(), "Speed");
}
