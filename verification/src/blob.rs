use crate::characters::{lookup, CharacterMapModel, CharacterMaps, CharacterMapsModel};
use crate::conversion::{
    little_endian_2_bytes, little_endian_3_bytes, little_endian_4_bytes, spec_le2, spec_le3,
    spec_le4,
};
use crate::error::Fatal;
use crate::shared::share;
use std::rc::Rc;
use vstd::prelude::*;
use vstd::utf8::{decode_utf8, valid_utf8};

verus! {

/// What a byte of the file was read as.
#[derive(PartialEq, Eq, Structural, Clone, Copy, Debug)]
pub enum BlobRegions {
    Empty,
    Header,
    Units,
    Products,
    Parameters,
    Menus,
    Modes,
    Enumerations,
    Mnemonics,
    KeypadStrs,
    Text,
    Invalid,
}

/// Where a sequential read stands: the position of the next byte, and what
/// each byte of the file has been read as so far.
pub struct Cursor {
    pub pos: int,
    pub regions: Seq<BlobRegions>,
}

/// Every byte of `[start, end)` is still unread, or was read as `tag`.
pub open spec fn region_free(
    regions: Seq<BlobRegions>,
    start: int,
    end: int,
    tag: BlobRegions,
) -> bool {
    forall|i: int|
        start <= i < end ==> #[trigger] regions[i] == BlobRegions::Empty || regions[i] == tag
}

/// `regions` with every byte of `[start, end)` marked as `tag`.
pub open spec fn tagged(regions: Seq<BlobRegions>, start: int, end: int, tag: BlobRegions) -> Seq<
    BlobRegions,
> {
    Seq::new(
        regions.len(),
        |i: int|
            if start <= i < end {
                tag
            } else {
                regions[i]
            },
    )
}

/// Marking `[start, end)` as `tag`. The bytes are taken in order: the first one
/// that was read as something else, or that lies beyond the file, decides.
pub open spec fn mark(regions: Seq<BlobRegions>, start: int, end: int, tag: BlobRegions) -> Result<
    Seq<BlobRegions>,
    Fatal,
> {
    if start >= end {
        Ok(regions)
    } else if end <= regions.len() {
        if region_free(regions, start, end, tag) {
            Ok(tagged(regions, start, end, tag))
        } else {
            Err(Fatal::RegionMismatch)
        }
    } else if region_free(regions, start, regions.len() as int, tag) {
        Err(Fatal::OutOfBounds)
    } else {
        Err(Fatal::RegionMismatch)
    }
}

/// Reading `n` bytes at the cursor as `tag`: the bytes and the cursor behind
/// them, `OutOfBounds` where the file ends before, `RegionMismatch` where one of
/// them was read as something else.
pub open spec fn take(bytes: Seq<u8>, cur: Cursor, n: int, tag: BlobRegions) -> Result<
    (Seq<u8>, Cursor),
    Fatal,
> {
    if cur.pos + n > bytes.len() {
        Err(Fatal::OutOfBounds)
    } else if !region_free(cur.regions, cur.pos, cur.pos + n, tag) {
        Err(Fatal::RegionMismatch)
    } else {
        Ok(
            (
                bytes.subrange(cur.pos, cur.pos + n),
                Cursor { pos: cur.pos + n, regions: tagged(cur.regions, cur.pos, cur.pos + n, tag) },
            ),
        )
    }
}

/// One text that was resolved, the offset it was first found at, and the
/// bytes that later copies of it at other offsets take up.
pub struct StringUse {
    text: String,
    offset: u32,
    count: u32,
}

/// What is noted of one text: the text, the offset it was first found at, and
/// the bytes that its copies at other offsets take up.
pub struct StringRecord {
    pub text: Seq<char>,
    pub offset: u32,
    pub count: u32,
}

impl StringUse {
    /// The note as plain values.
    pub closed spec fn view(&self) -> StringRecord {
        StringRecord { text: self.text@, offset: self.offset, count: self.count }
    }
}

/// The diagnostics of one file: what each byte was read as, and the texts
/// that were resolved.
pub struct Stats {
    regions: Vec<BlobRegions>,
    string_offsets: Vec<StringUse>,
}

impl Stats {
    /// What each byte of the file was read as.
    pub closed spec fn regions(&self) -> Seq<BlobRegions> {
        self.regions@
    }

    /// The texts that were resolved, in the order in which they were first found.
    pub closed spec fn strings(&self) -> Seq<StringRecord> {
        self.string_offsets@.map_values(|u: StringUse| u@)
    }

    /// Diagnostics for a file of `size` bytes, none of them read.
    pub fn new(size: usize) -> (stats: Stats)
        ensures
            stats.regions() == Seq::new(size as nat, |i: int| BlobRegions::Empty),
            stats.strings() == Seq::<StringRecord>::empty(),
    {
        let mut regions: Vec<BlobRegions> = Vec::new();
        let mut i: usize = 0;
        while i < size
            invariant
                i <= size,
                regions@ == Seq::new(i as nat, |j: int| BlobRegions::Empty),
            decreases size - i,
        {
            regions.push(BlobRegions::Empty);
            i += 1;
            assert(regions@ =~= Seq::new(i as nat, |j: int| BlobRegions::Empty));
        }
        let stats = Stats { regions, string_offsets: Vec::new() };
        assert(stats.strings() =~= Seq::<StringRecord>::empty());
        stats
    }

    /// The number of bytes that these diagnostics cover.
    pub fn len(&self) -> (n: usize)
        ensures
            n == self.regions().len(),
    {
        self.regions.len()
    }
}

/// The bytes of one file, with the decoder for its text.
pub struct _Blob {
    data: Vec<u8>,
    maps: CharacterMaps,
}

impl _Blob {
    /// The bytes of the file.
    pub closed spec fn bytes(&self) -> Seq<u8> {
        self.data@
    }

    /// The decoder for the text of the file.
    pub closed spec fn maps(&self) -> CharacterMapsModel {
        self.maps@
    }

    /// Marks the bytes of `[start, end)` as read as `_type`. Nothing is marked
    /// where the result is an error.
    pub fn add_region(&self, stats: &mut Stats, start: usize, end: usize, _type: BlobRegions) -> (r:
        Result<(), Fatal>)
        requires
            old(stats).regions().len() == self.bytes().len(),
        ensures
            final(stats).strings() == old(stats).strings(),
            match mark(old(stats).regions(), start as int, end as int, _type) {
                Ok(regions) => r == Ok::<(), Fatal>(()) && final(stats).regions() == regions,
                Err(e) => r == Err::<(), Fatal>(e) && final(stats).regions() == old(
                    stats,
                ).regions(),
            },
    {
        let size = self.data.len();
        let limit = if end <= size {
            end
        } else {
            size
        };
        let mut i: usize = start;
        while i < limit
            invariant
                start <= i,
                start < limit ==> i <= limit,
                limit == if end <= size { end } else { size },
                size == stats.regions@.len(),
                *stats == *old(stats),
                region_free(stats.regions@, start as int, i as int, _type),
            decreases limit - i,
        {
            let seen = stats.regions[i];
            if seen != BlobRegions::Empty && seen != _type {
                assert(stats.regions@[i as int] == seen);
                return Err(Fatal::RegionMismatch);
            }
            i += 1;
        }
        if start < end && end > size {
            return Err(Fatal::OutOfBounds);
        }
        assert(stats.regions@ =~= tagged(stats.regions@, start as int, start as int, _type));
        let mut i: usize = start;
        while i < end
            invariant
                start <= i,
                start < end ==> i <= end,
                start < end ==> end <= size,
                start >= end ==> i == start,
                size == stats.regions@.len(),
                size == old(stats).regions@.len(),
                stats.string_offsets == old(stats).string_offsets,
                stats.regions@ == tagged(old(stats).regions@, start as int, i as int, _type),
                start < end ==> region_free(old(stats).regions@, start as int, end as int, _type),
            decreases end - i,
        {
            stats.regions.set(i, _type);
            i += 1;
            assert(stats.regions@ =~= tagged(old(stats).regions@, start as int, i as int, _type));
        }
        assert(start >= end ==> stats.regions@ =~= old(stats).regions@);
        Ok(())
    }
}


/// Reading one byte at the cursor as `tag`.
pub open spec fn take_byte(bytes: Seq<u8>, cur: Cursor, tag: BlobRegions) -> Result<
    (u8, Cursor),
    Fatal,
> {
    match take(bytes, cur, 1, tag) {
        Ok((buf, next)) => Ok((buf[0], next)),
        Err(e) => Err(e),
    }
}

/// Reading a little-endian number of two bytes at the cursor as `tag`.
pub open spec fn take_le2(bytes: Seq<u8>, cur: Cursor, tag: BlobRegions) -> Result<
    (u16, Cursor),
    Fatal,
> {
    match take(bytes, cur, 2, tag) {
        Ok((buf, next)) => Ok((spec_le2(buf) as u16, next)),
        Err(e) => Err(e),
    }
}

/// Reading a little-endian number of three bytes at the cursor as `tag`.
pub open spec fn take_le3(bytes: Seq<u8>, cur: Cursor, tag: BlobRegions) -> Result<
    (u32, Cursor),
    Fatal,
> {
    match take(bytes, cur, 3, tag) {
        Ok((buf, next)) => Ok((spec_le3(buf) as u32, next)),
        Err(e) => Err(e),
    }
}

/// Reading a little-endian number of four bytes at the cursor as `tag`.
pub open spec fn take_le4(bytes: Seq<u8>, cur: Cursor, tag: BlobRegions) -> Result<
    (u32, Cursor),
    Fatal,
> {
    match take(bytes, cur, 4, tag) {
        Ok((buf, next)) => Ok((spec_le4(buf) as u32, next)),
        Err(e) => Err(e),
    }
}

/// A read-only handle to the bytes of a file and to its decoder. Every entry
/// of a table keeps one, to resolve its strings later.
pub struct RawBlob {
    data: Rc<_Blob>,
}

impl Clone for RawBlob {
    fn clone(&self) -> (r: RawBlob)
        ensures
            r == *self,
    {
        RawBlob { data: share(&self.data) }
    }
}

impl RawBlob {
    /// The bytes of the file.
    pub closed spec fn bytes(&self) -> Seq<u8> {
        self.data.bytes()
    }

    /// The decoder for the text of the file.
    pub closed spec fn maps(&self) -> CharacterMapsModel {
        self.data.maps()
    }

    /// The number of bytes of the file.
    pub fn len(&self) -> (n: usize)
        ensures
            n == self.bytes().len(),
    {
        self.data.data.len()
    }
}

/// The bytes of a file with a position in them, for reading the file from
/// front to back, and the diagnostics that the reads fill.
pub struct FileBlob {
    data: Rc<_Blob>,
    stats: Stats,
    pos: usize,
}

/// What a read of the file gave, held against what it had to give: on success
/// the value and the cursor behind it, else the error and the cursor as it
/// was. The bytes, the decoder and the resolved texts stay as they were either
/// way.
pub open spec fn reads<T>(
    before: FileBlob,
    after: FileBlob,
    got: Result<T, Fatal>,
    expected: Result<(T, Cursor), Fatal>,
) -> bool {
    &&& after.follows(before)
    &&& match expected {
        Ok((value, next)) => got == Ok::<T, Fatal>(value) && after.cursor() == next,
        Err(e) => got == Err::<T, Fatal>(e) && after.cursor() == before.cursor(),
    }
}

/// As `reads`, for a value that is described by its view.
pub open spec fn parses<T: View>(
    before: FileBlob,
    after: FileBlob,
    got: Result<T, Fatal>,
    expected: Result<(T::V, Cursor), Fatal>,
) -> bool {
    &&& after.follows(before)
    &&& match expected {
        Ok((model, next)) => got is Ok && got->Ok_0@ == model && after.cursor() == next,
        Err(e) => got == Err::<T, Fatal>(e),
    }
}

impl FileBlob {
    /// The handle that `freeze` gives.
    pub closed spec fn handle(&self) -> RawBlob {
        RawBlob { data: self.data }
    }

    /// Where the next read begins, and what each byte was read as so far.
    pub closed spec fn cursor(&self) -> Cursor {
        Cursor { pos: self.pos as int, regions: self.stats.regions() }
    }

    /// The diagnostics that the reads fill.
    pub closed spec fn stats(&self) -> Stats {
        self.stats
    }

    /// The diagnostics cover the file byte for byte.
    pub closed spec fn wf(&self) -> bool {
        self.stats.regions().len() == self.data.bytes().len()
    }

    /// This is `before` after some reads: the same file, the same resolved texts.
    pub open spec fn follows(&self, before: FileBlob) -> bool {
        &&& self.wf()
        &&& self.handle() == before.handle()
        &&& self.stats().strings() == before.stats().strings()
    }

    /// Takes the bytes of a whole file. `LengthMismatch` where their number is
    /// not `expected_size`. The checksum is taken and not held against the bytes.
    pub fn load(data: Vec<u8>, expected_size: u32, expected_crc: u32, maps: CharacterMaps) -> (r:
        Result<FileBlob, Fatal>)
        ensures
            match r {
                Ok(fp) => {
                    &&& data@.len() == expected_size
                    &&& fp.wf()
                    &&& fp.handle().bytes() == data@
                    &&& fp.handle().maps() == maps@
                    &&& fp.cursor() == (Cursor {
                        pos: 0,
                        regions: Seq::new(data@.len(), |i: int| BlobRegions::Empty),
                    })
                    &&& fp.stats().strings() == Seq::<StringRecord>::empty()
                },
                Err(e) => e == Fatal::LengthMismatch && data@.len() != expected_size,
            },
    {
        let size = data.len();
        if size != expected_size as usize {
            return Err(Fatal::LengthMismatch);
        }
        let stats = Stats::new(size);
        Ok(FileBlob { data: Rc::new(_Blob { data, maps }), stats, pos: 0 })
    }

    /// Moves the cursor to `pos`. No bound is checked here: a read beyond the
    /// file fails when it is made.
    pub fn set_pos(&mut self, pos: u32)
        requires
            old(self).wf(),
        ensures
            final(self).follows(*old(self)),
            final(self).cursor() == (Cursor { pos: pos as int, ..old(self).cursor() }),
    {
        self.pos = pos as usize;
    }

    /// A handle to the same bytes, for resolving strings later.
    pub fn freeze(&mut self) -> (raw: RawBlob)
        ensures
            *final(self) == *old(self),
            raw == old(self).handle(),
    {
        RawBlob { data: share(&self.data) }
    }

    /// Reads `n` bytes at the cursor as `region` and moves the cursor behind
    /// them. Where the read fails, nothing is marked and the cursor stays.
    pub fn read_exact(&mut self, n: usize, region: BlobRegions) -> (r: Result<Vec<u8>, Fatal>)
        requires
            old(self).wf(),
        ensures
            final(self).follows(*old(self)),
            r is Ok ==> r->Ok_0@.len() == n,
            match take(old(self).handle().bytes(), old(self).cursor(), n as int, region) {
                Ok((buf, next)) => r is Ok && r->Ok_0@ == buf && final(self).cursor() == next,
                Err(e) => r == Err::<Vec<u8>, Fatal>(e) && final(self).cursor() == old(
                    self,
                ).cursor(),
            },
    {
        let size = self.data.data.len();
        let pos = self.pos;
        if pos > size || n > size - pos {
            return Err(Fatal::OutOfBounds);
        }
        let mut buf: Vec<u8> = Vec::new();
        let mut i: usize = 0;
        while i < n
            invariant
                i <= n,
                pos + n <= size,
                size == self.data.data@.len(),
                buf@ == self.data.data@.subrange(pos as int, pos + i),
            decreases n - i,
        {
            buf.push(self.data.data[pos + i]);
            i += 1;
            assert(buf@ =~= self.data.data@.subrange(pos as int, pos + i));
        }
        assert(n == 0 ==> tagged(self.stats.regions@, pos as int, pos as int, region)
            =~= self.stats.regions@);
        match self.data.add_region(&mut self.stats, pos, pos + n, region) {
            Ok(()) => {
                self.pos = pos + n;
                Ok(buf)
            },
            Err(e) => Err(e),
        }
    }

    /// Reads a little-endian number of four bytes at the cursor as `region`.
    pub fn read_le_4bytes(&mut self, region: BlobRegions) -> (r: Result<u32, Fatal>)
        requires
            old(self).wf(),
        ensures
            reads(
                *old(self),
                *final(self),
                r,
                take_le4(old(self).handle().bytes(), old(self).cursor(), region),
            ),
    {
        match self.read_exact(4, region) {
            Ok(values) => Ok(little_endian_4_bytes(values.as_slice())),
            Err(e) => Err(e),
        }
    }

    /// Reads a little-endian number of three bytes at the cursor as `region`.
    pub fn read_le_3bytes(&mut self, region: BlobRegions) -> (r: Result<u32, Fatal>)
        requires
            old(self).wf(),
        ensures
            reads(
                *old(self),
                *final(self),
                r,
                take_le3(old(self).handle().bytes(), old(self).cursor(), region),
            ),
    {
        match self.read_exact(3, region) {
            Ok(values) => Ok(little_endian_3_bytes(values.as_slice())),
            Err(e) => Err(e),
        }
    }

    /// Reads a little-endian number of two bytes at the cursor as `region`.
    pub fn read_le_2bytes(&mut self, region: BlobRegions) -> (r: Result<u16, Fatal>)
        requires
            old(self).wf(),
        ensures
            reads(
                *old(self),
                *final(self),
                r,
                take_le2(old(self).handle().bytes(), old(self).cursor(), region),
            ),
    {
        match self.read_exact(2, region) {
            Ok(values) => Ok(little_endian_2_bytes(values.as_slice())),
            Err(e) => Err(e),
        }
    }

    /// Reads one byte at the cursor as `region`.
    pub fn read_byte(&mut self, region: BlobRegions) -> (r: Result<u8, Fatal>)
        requires
            old(self).wf(),
        ensures
            reads(
                *old(self),
                *final(self),
                r,
                take_byte(old(self).handle().bytes(), old(self).cursor(), region),
            ),
    {
        match self.read_exact(1, region) {
            Ok(values) => Ok(values[0]),
            Err(e) => Err(e),
        }
    }

    /// Gives up the cursor and hands out the diagnostics, for resolving strings.
    pub fn into_stats(self) -> (stats: Stats)
        ensures
            stats == self.stats(),
            stats.regions() == self.cursor().regions,
            self.wf() ==> stats.regions().len() == self.handle().bytes().len(),
    {
        self.stats
    }
}


/// Why a string could not be resolved.
pub enum DecodeError {
    /// The bytes are not UTF-8.
    InvalidUtf8,
    /// A byte that can only follow another stands where none can follow it.
    /// `partial` is the text decoded before it, `bytes` are the bytes of the
    /// whole string.
    Dangling { partial: String, bytes: Vec<u8> },
    /// The file or the character maps are corrupt.
    Aborted(Fatal),
}

/// Why a string could not be resolved, as plain values.
pub enum DecodeFailure {
    InvalidUtf8,
    Dangling { partial: Seq<char>, bytes: Seq<u8> },
    Aborted(Fatal),
}

impl View for DecodeError {
    type V = DecodeFailure;

    open spec fn view(&self) -> DecodeFailure {
        match *self {
            DecodeError::InvalidUtf8 => DecodeFailure::InvalidUtf8,
            DecodeError::Dangling { partial, bytes } => DecodeFailure::Dangling {
                partial: partial@,
                bytes: bytes@,
            },
            DecodeError::Aborted(e) => DecodeFailure::Aborted(e),
        }
    }
}

impl DecodeError {
    /// Whether the error ends the processing of the file. The others concern
    /// one string only.
    pub fn is_fatal(&self) -> (r: bool)
        ensures
            r == (self@ is Aborted),
    {
        match self {
            DecodeError::Aborted(_) => true,
            _ => false,
        }
    }
}

/// A result of resolving a string, as its view.
pub open spec fn decoded(r: Result<String, DecodeError>) -> Result<Seq<char>, DecodeFailure> {
    match r {
        Ok(text) => Ok(text@),
        Err(e) => Err(e@),
    }
}

/// The text that stands for "no string": the offset was 0.
pub open spec fn no_string() -> Seq<char> {
    "[-- no string --]"@
}

/// The text that stands for a string without content.
pub open spec fn empty_string() -> Seq<char> {
    "[-- empty string --]"@
}

/// `second` marks `first` as the low part of a two-byte code.
pub open spec fn is_pair(first: u8, second: u8) -> bool {
    (second & 0xC0) == 0xC0 && (first & 0x01) == 0x01
}

/// The byte can only be the high part of a two-byte code.
pub open spec fn is_lead(byte: u8) -> bool {
    (byte & 0xC0) == 0xC0
}

/// The two-byte code that `first` and `second` hold.
pub open spec fn pair_code(first: u8, second: u8) -> u16 {
    (((second as u16) & 0x3F) << 7) | ((first >> 1) as u16)
}

/// Decoding the bytes from place `i` on with the maps of a code page, `text`
/// being what the bytes before `i` gave.
pub open spec fn decode_codepage(
    maps: Seq<CharacterMapModel>,
    bytes: Seq<u8>,
    i: int,
    text: Seq<char>,
) -> Result<Seq<char>, DecodeFailure>
    decreases bytes.len() - i,
{
    if i < 0 || i >= bytes.len() {
        Ok(text)
    } else if i + 1 < bytes.len() && is_pair(bytes[i], bytes[i + 1]) {
        match lookup(maps, 2, pair_code(bytes[i], bytes[i + 1])) {
            Some(t) => decode_codepage(maps, bytes, i + 2, text + t),
            None => Err(DecodeFailure::Aborted(Fatal::MissingCharacter)),
        }
    } else if is_lead(bytes[i]) {
        Err(DecodeFailure::Dangling { partial: text, bytes })
    } else {
        match lookup(maps, 1, bytes[i] as u16) {
            Some(t) => decode_codepage(maps, bytes, i + 1, text + t),
            None => Err(DecodeFailure::Aborted(Fatal::MissingCharacter)),
        }
    }
}

/// The text of `bytes`: as UTF-8, or by the maps of the code page.
pub open spec fn decode(maps: CharacterMapsModel, bytes: Seq<u8>) -> Result<
    Seq<char>,
    DecodeFailure,
> {
    if maps.is_utf8 {
        if valid_utf8(bytes) {
            Ok(decode_utf8(bytes))
        } else {
            Err(DecodeFailure::InvalidUtf8)
        }
    } else {
        decode_codepage(maps.maps, bytes, 0, Seq::empty())
    }
}

/// The length of the string at `off`, counted from `k` bytes on: it ends before
/// the first zero byte, or after `max` bytes. `None` where the file ends first.
pub open spec fn text_len(bytes: Seq<u8>, off: int, max: int, k: int) -> Option<int>
    decreases max - k,
{
    if k >= max {
        Some(k)
    } else if off + k >= bytes.len() {
        None
    } else if bytes[off + k] == 0 {
        Some(k)
    } else {
        text_len(bytes, off, max, k + 1)
    }
}

/// The end of the bytes that a string of length `k` at `off` takes up: a
/// string shorter than `max` has a zero byte behind it.
pub open spec fn text_end(off: int, max: int, k: int) -> int {
    if k < max {
        off + k + 1
    } else {
        off + k
    }
}

/// The place of the first record from `i` on that holds `text`.
pub open spec fn find_text(strings: Seq<StringRecord>, text: Seq<char>, i: int) -> Option<int>
    decreases strings.len() - i,
{
    if i < 0 || i >= strings.len() {
        None
    } else if strings[i].text == text {
        Some(i)
    } else {
        find_text(strings, text, i + 1)
    }
}

/// A count raised by `size`, as far as 32 bits go.
pub open spec fn raised(count: u32, size: u32) -> u32 {
    if count + size > u32::MAX {
        u32::MAX
    } else {
        (count + size) as u32
    }
}

/// The records after `text` was resolved at `off` from `size` bytes. A text
/// seen first is noted with its offset. Seen again at another offset, its
/// count rises by `size`; at the same offset nothing changes.
pub open spec fn record(strings: Seq<StringRecord>, text: Seq<char>, off: u32, size: u32) -> Seq<
    StringRecord,
> {
    match find_text(strings, text, 0) {
        Some(i) => if strings[i].offset != off {
            strings.update(i, StringRecord { count: raised(strings[i].count, size), ..strings[i] })
        } else {
            strings
        },
        None => strings.push(StringRecord { text, offset: off, count: 0 }),
    }
}

/// What resolving a string gives, and the diagnostics after it.
pub struct Resolved {
    pub result: Result<Seq<char>, DecodeFailure>,
    pub regions: Seq<BlobRegions>,
    pub strings: Seq<StringRecord>,
}

/// Resolving the string of at most `max` bytes at `off`.
pub open spec fn resolve(
    bytes: Seq<u8>,
    maps: CharacterMapsModel,
    regions: Seq<BlobRegions>,
    strings: Seq<StringRecord>,
    off: u32,
    max: u16,
) -> Resolved {
    if off == 0 {
        Resolved { result: Ok(no_string()), regions, strings }
    } else {
        match text_len(bytes, off as int, max as int, 0) {
            None => Resolved {
                result: Err(DecodeFailure::Aborted(Fatal::OutOfBounds)),
                regions,
                strings,
            },
            Some(k) => match mark(
                regions,
                off as int,
                text_end(off as int, max as int, k),
                BlobRegions::Text,
            ) {
                Err(e) => Resolved { result: Err(DecodeFailure::Aborted(e)), regions, strings },
                Ok(marked) => if k == 0 {
                    Resolved {
                        result: Ok(empty_string()),
                        regions: marked,
                        strings: record(strings, Seq::empty(), off, 1),
                    }
                } else {
                    match decode(maps, bytes.subrange(off as int, off + k)) {
                        Ok(text) => Resolved {
                            result: Ok(text),
                            regions: marked,
                            strings: record(strings, text, off, k as u32),
                        },
                        Err(e) => Resolved { result: Err(e), regions: marked, strings },
                    }
                },
            },
        }
    }
}

/// The text of `bytes` as UTF-8, if they are UTF-8.
///
/// Trusted: this is `String::from_utf8` of std, which checks that the bytes
/// are valid UTF-8 and, if so, hands them on as a string. vstd's `valid_utf8`
/// and `decode_utf8` state the encoding.
#[verifier::external_body]
fn utf8_string(bytes: Vec<u8>) -> (r: Option<String>)
    ensures
        match r {
            Some(text) => valid_utf8(bytes@) && text@ == decode_utf8(bytes@),
            None => !valid_utf8(bytes@),
        },
{
    String::from_utf8(bytes).ok()
}

impl _Blob {
    /// Notes that `string` was resolved at `off` from `size` bytes.
    pub fn add_string(&self, stats: &mut Stats, string: &str, off: u32, size: u32)
        ensures
            final(stats).regions() == old(stats).regions(),
            final(stats).strings() == record(old(stats).strings(), string@, off, size),
    {
        let text: String = string.to_owned();
        let mut i: usize = 0;
        while i < stats.string_offsets.len()
            invariant
                i <= stats.string_offsets@.len(),
                *stats == *old(stats),
                text@ == string@,
                find_text(stats.strings(), text@, 0) == find_text(stats.strings(), text@, i as int),
            decreases stats.string_offsets@.len() - i,
        {
            if stats.string_offsets[i].text == text {
                let orig_off = stats.string_offsets[i].offset;
                let count = stats.string_offsets[i].count;
                if orig_off != off {
                    let raised = if count > u32::MAX - size {
                        u32::MAX
                    } else {
                        count + size
                    };
                    stats.string_offsets.set(i, StringUse { text, offset: orig_off, count: raised });
                    assert(stats.strings() =~= record(old(stats).strings(), string@, off, size));
                }
                return ;
            }
            i += 1;
        }
        stats.string_offsets.push(StringUse { text, offset: off, count: 0 });
        assert(stats.strings() =~= record(old(stats).strings(), string@, off, size));
    }
}

impl RawBlob {
    /// The bytes of the string at `off`, without the zero byte that may end
    /// it, and the bytes it takes up marked as text.
    fn get_bytes(&self, off: u32, max_length: u16, stats: &mut Stats) -> (r: Result<Vec<u8>, Fatal>)
        requires
            old(stats).regions().len() == self.bytes().len(),
        ensures
            final(stats).strings() == old(stats).strings(),
            final(stats).regions().len() == self.bytes().len(),
            match text_len(self.bytes(), off as int, max_length as int, 0) {
                None => r == Err::<Vec<u8>, Fatal>(Fatal::OutOfBounds) && final(stats).regions()
                    == old(stats).regions(),
                Some(k) => match mark(
                    old(stats).regions(),
                    off as int,
                    text_end(off as int, max_length as int, k),
                    BlobRegions::Text,
                ) {
                    Ok(marked) => {
                        &&& r is Ok
                        &&& 0 <= k <= max_length
                        &&& k > 0 ==> off + k <= self.bytes().len()
                        &&& r->Ok_0@.len() == k
                        &&& k > 0 ==> r->Ok_0@ == self.bytes().subrange(off as int, off + k)
                        &&& final(stats).regions() == marked
                    },
                    Err(e) => r == Err::<Vec<u8>, Fatal>(e) && final(stats).regions() == old(
                        stats,
                    ).regions(),
                },
            },
    {
        let mut bytes: Vec<u8> = Vec::new();
        let size: usize = self.data.data.len();
        let start: usize = off as usize;
        let max: usize = max_length as usize;
        let mut k: usize = 0;
        let mut open: bool = true;
        while open && k < max
            invariant
                self.bytes() == self.data.data@,
                size == self.bytes().len(),
                start == off,
                max == max_length,
                k <= max,
                *stats == *old(stats),
                old(stats).regions().len() == self.bytes().len(),
                !open ==> k < max && start + k < size,
                !open ==> text_len(self.bytes(), off as int, max as int, 0) == Some(k as int),
                open ==> text_len(self.bytes(), off as int, max as int, 0) == text_len(
                    self.bytes(),
                    off as int,
                    max as int,
                    k as int,
                ),
                k > 0 ==> start + k <= size,
                bytes@.len() == k,
                k > 0 ==> bytes@ == self.bytes().subrange(off as int, off + k),
            decreases (max - k) + (if open { 1int } else { 0int }),
        {
            if start >= size || k >= size - start {
                return Err(Fatal::OutOfBounds);
            }
            let ch = self.data.data[start + k];
            if ch == 0 {
                open = false;
            } else {
                bytes.push(ch);
                k += 1;
                assert(bytes@ =~= self.bytes().subrange(off as int, off + k));
            }
        }
        if k == 0 && open {
            return Ok(bytes);
        }
        let end: usize = if open {
            start + k
        } else {
            start + k + 1
        };
        assert(end == text_end(off as int, max_length as int, k as int));
        match self.data.add_region(stats, start, end, BlobRegions::Text) {
            Ok(()) => Ok(bytes),
            Err(e) => Err(e),
        }
    }

    /// The text of `bytes`.
    fn bytes_to_string(&self, bytes: Vec<u8>) -> (r: Result<String, DecodeError>)
        ensures
            decoded(r) == decode(self.maps(), bytes@),
    {
        if self.data.maps.is_utf8() {
            return match utf8_string(bytes) {
                Some(text) => Ok(text),
                None => Err(DecodeError::InvalidUtf8),
            };
        }
        let mut result = String::new();
        let mut i: usize = 0;
        while i < bytes.len()
            invariant
                i <= bytes@.len(),
                !self.maps().is_utf8,
                decode(self.maps(), bytes@) == decode_codepage(
                    self.maps().maps,
                    bytes@,
                    i as int,
                    result@,
                ),
            decreases bytes@.len() - i,
        {
            let ch1 = bytes[i];
            i += 1;
            let paired = i < bytes.len() && (bytes[i] & 0xC0) == 0xC0 && (ch1 & 0x01) == 0x01;
            let unicode = if paired {
                let ch2 = bytes[i];
                i += 1;
                self.data.maps.decode_2bytes((((ch2 as u16) & 0x3F) << 7) | ((ch1 >> 1) as u16))
            } else if (ch1 & 0xC0) == 0xC0 {
                return Err(DecodeError::Dangling { partial: result, bytes });
            } else {
                self.data.maps.decode_byte(ch1)
            };
            match unicode {
                Ok(ch) => {
                    result.append(ch.as_str());
                },
                Err(e) => {
                    return Err(DecodeError::Aborted(e));
                },
            }
        }
        Ok(result)
    }

    /// The string of at most `max_length` bytes at `off`. Offset 0 stands for
    /// "no string". The string ends before the first zero byte, which is taken
    /// with it. The bytes are marked as text and the text is noted in `stats`.
    pub fn get_string(&self, off: u32, max_length: u16, stats: &mut Stats) -> (r: Result<
        String,
        DecodeError,
    >)
        requires
            old(stats).regions().len() == self.bytes().len(),
        ensures
            final(stats).regions().len() == self.bytes().len(),
            ({
                let expected = resolve(
                    self.bytes(),
                    self.maps(),
                    old(stats).regions(),
                    old(stats).strings(),
                    off,
                    max_length,
                );
                &&& decoded(r) == expected.result
                &&& final(stats).regions() == expected.regions
                &&& final(stats).strings() == expected.strings
            }),
    {
        if off == 0 {
            return Ok("[-- no string --]".to_owned());
        }
        let bytes = match self.get_bytes(off, max_length, stats) {
            Ok(bytes) => bytes,
            Err(e) => {
                return Err(DecodeError::Aborted(e));
            },
        };
        let len = bytes.len() as u32;
        if len == 0 {
            self.data.add_string(stats, "", off, 1);
            proof {
                reveal_strlit("");
                assert(""@ =~= Seq::<char>::empty());
            }
            return Ok("[-- empty string --]".to_owned());
        }
        let result = self.bytes_to_string(bytes);
        match &result {
            Ok(x) => self.data.add_string(stats, x.as_str(), off, len),
            Err(_) => {},
        }
        result
    }
}


/// Why an entry could not be put into words: the offset of the string that
/// failed, and the failure.
pub struct StringError {
    pub offset: u32,
    pub error: DecodeError,
}

/// Why an entry could not be put into words, as plain values.
pub struct StringFailure {
    pub offset: u32,
    pub failure: DecodeFailure,
}

impl View for StringError {
    type V = StringFailure;

    open spec fn view(&self) -> StringFailure {
        StringFailure { offset: self.offset, failure: self.error@ }
    }
}

/// A result of putting an entry into words, as its view.
pub open spec fn worded(r: Result<String, StringError>) -> Result<Seq<char>, StringFailure> {
    match r {
        Ok(text) => Ok(text@),
        Err(e) => Err(e@),
    }
}

/// What stands between a caption and a tooltip.
pub open spec fn separator() -> Seq<char> {
    " / "@
}

/// What putting an entry into words gives, and the diagnostics after it.
pub struct Described {
    pub result: Result<Seq<char>, StringFailure>,
    pub regions: Seq<BlobRegions>,
    pub strings: Seq<StringRecord>,
}

/// An entry in words: its caption, and behind a separator its tooltip where
/// it has one. The caption is resolved first; the first failure ends it.
pub open spec fn describe(
    bytes: Seq<u8>,
    maps: CharacterMapsModel,
    regions: Seq<BlobRegions>,
    strings: Seq<StringRecord>,
    caption_off: u32,
    tooltip_off: u32,
    max: u16,
) -> Described {
    let first = resolve(bytes, maps, regions, strings, caption_off, max);
    match first.result {
        Err(e) => Described {
            result: Err(StringFailure { offset: caption_off, failure: e }),
            regions: first.regions,
            strings: first.strings,
        },
        Ok(caption) => if tooltip_off != 0 {
            let second = resolve(bytes, maps, first.regions, first.strings, tooltip_off, max);
            match second.result {
                Err(e) => Described {
                    result: Err(StringFailure { offset: tooltip_off, failure: e }),
                    regions: second.regions,
                    strings: second.strings,
                },
                Ok(tooltip) => Described {
                    result: Ok(caption + separator() + tooltip),
                    regions: second.regions,
                    strings: second.strings,
                },
            }
        } else {
            Described { result: Ok(caption), regions: first.regions, strings: first.strings }
        },
    }
}

impl RawBlob {
    /// The caption at `caption_off` and, where `tooltip_off` is not 0, the
    /// tooltip there, as one text.
    pub fn get_caption(
        &self,
        caption_off: u32,
        tooltip_off: u32,
        max_length: u16,
        stats: &mut Stats,
    ) -> (r: Result<String, StringError>)
        requires
            old(stats).regions().len() == self.bytes().len(),
        ensures
            final(stats).regions().len() == self.bytes().len(),
            ({
                let expected = describe(
                    self.bytes(),
                    self.maps(),
                    old(stats).regions(),
                    old(stats).strings(),
                    caption_off,
                    tooltip_off,
                    max_length,
                );
                &&& worded(r) == expected.result
                &&& final(stats).regions() == expected.regions
                &&& final(stats).strings() == expected.strings
            }),
    {
        let mut str1 = match self.get_string(caption_off, max_length, stats) {
            Ok(x) => x,
            Err(x) => {
                return Err(StringError { offset: caption_off, error: x });
            },
        };
        if tooltip_off != 0 {
            let str2 = match self.get_string(tooltip_off, max_length, stats) {
                Ok(x) => x,
                Err(x) => {
                    return Err(StringError { offset: tooltip_off, error: x });
                },
            };
            str1.append(" / ");
            str1.append(str2.as_str());
        }
        Ok(str1)
    }
}

/// A stretch of bytes that were all read as the same thing: the first and
/// the last of them, and what they were read as.
#[derive(PartialEq, Eq, Structural, Clone, Copy, Debug)]
pub struct RegionRun {
    pub start: usize,
    pub end: usize,
    pub region: BlobRegions,
}

/// The stretches of `regions` from place `i` on, the one that is open having
/// begun at `start`, added to `runs`. A stretch ends where the next byte was
/// read as something else, or with the file.
pub open spec fn runs_from(regions: Seq<BlobRegions>, i: int, start: int, runs: Seq<RegionRun>) -> Seq<
    RegionRun,
>
    decreases regions.len() - i,
{
    if i < 0 || i >= regions.len() {
        if 0 <= start < regions.len() {
            runs.push(
                RegionRun {
                    start: start as usize,
                    end: (regions.len() - 1) as usize,
                    region: regions[start],
                },
            )
        } else {
            runs
        }
    } else if start < i && regions[i] != regions[start] {
        runs_from(
            regions,
            i + 1,
            i,
            runs.push(
                RegionRun { start: start as usize, end: (i - 1) as usize, region: regions[start] },
            ),
        )
    } else {
        runs_from(regions, i + 1, start, runs)
    }
}

/// The number of bytes from place `i` on that nothing has read.
pub open spec fn unused_from(regions: Seq<BlobRegions>, i: int) -> nat
    decreases regions.len() - i,
{
    if i < 0 || i >= regions.len() {
        0
    } else if regions[i] == BlobRegions::Empty {
        1 + unused_from(regions, i + 1)
    } else {
        unused_from(regions, i + 1)
    }
}

/// The bytes that copies of texts take up: the sum of the counts from place
/// `i` on.
pub open spec fn duplicates_from(strings: Seq<StringRecord>, i: int) -> nat
    decreases strings.len() - i,
{
    if i < 0 || i >= strings.len() {
        0
    } else {
        strings[i].count as nat + duplicates_from(strings, i + 1)
    }
}

/// What the diagnostics of a file come to.
pub struct StatsReport {
    /// The bytes taken up by texts that the file holds more than once.
    pub duplicate_count: u128,
    /// The bytes that nothing has read.
    pub unused: usize,
    /// The file as stretches of bytes read as the same thing, in order.
    pub runs: Vec<RegionRun>,
}

impl Stats {
    /// The bytes that copies of texts take up.
    pub fn duplicate_count(&self) -> (n: u128)
        ensures
            n == duplicates_from(self.strings(), 0),
    {
        let mut n: u128 = 0;
        let mut i: usize = self.string_offsets.len();
        while i > 0
            invariant
                i <= self.string_offsets@.len(),
                n == duplicates_from(self.strings(), i as int),
                self.string_offsets@.len() <= usize::MAX,
                n <= (self.string_offsets@.len() - i) * 0x1_0000_0000,
            decreases i,
        {
            i -= 1;
            n = n + self.string_offsets[i].count as u128;
        }
        n
    }

    /// The number of bytes that nothing has read.
    pub fn unused(&self) -> (n: usize)
        ensures
            n == unused_from(self.regions(), 0),
    {
        let mut n: usize = 0;
        let mut i: usize = self.regions.len();
        while i > 0
            invariant
                i <= self.regions@.len(),
                n == unused_from(self.regions(), i as int),
                self.regions@.len() <= usize::MAX,
                n <= self.regions@.len() - i,
            decreases i,
        {
            i -= 1;
            if self.regions[i] == BlobRegions::Empty {
                n += 1;
            }
        }
        n
    }

    /// The file as stretches of bytes read as the same thing, in order.
    pub fn runs(&self) -> (runs: Vec<RegionRun>)
        ensures
            runs@ == runs_from(self.regions(), 0, 0, Seq::empty()),
    {
        let mut runs: Vec<RegionRun> = Vec::new();
        let size = self.regions.len();
        let mut start: usize = 0;
        let mut i: usize = 0;
        while i < size
            invariant
                size == self.regions@.len(),
                start <= i <= size,
                i > 0 ==> start < i,
                runs_from(self.regions(), 0, 0, Seq::empty()) == runs_from(
                    self.regions(),
                    i as int,
                    start as int,
                    runs@,
                ),
            decreases size - i,
        {
            if start < i && self.regions[i] != self.regions[start] {
                runs.push(RegionRun { start, end: i - 1, region: self.regions[start] });
                start = i;
            }
            i += 1;
        }
        if start < size {
            runs.push(RegionRun { start, end: size - 1, region: self.regions[start] });
        }
        runs
    }

    /// The whole report.
    pub fn report(&self) -> (report: StatsReport)
        ensures
            report.duplicate_count == duplicates_from(self.strings(), 0),
            report.unused == unused_from(self.regions(), 0),
            report.runs@ == runs_from(self.regions(), 0, 0, Seq::empty()),
    {
        StatsReport {
            duplicate_count: self.duplicate_count(),
            unused: self.unused(),
            runs: self.runs(),
        }
    }
}

impl _Blob {
    /// What the diagnostics of the file come to.
    pub fn display_stats(&self, stats: &Stats) -> (report: StatsReport)
        ensures
            report.duplicate_count == duplicates_from(stats.strings(), 0),
            report.unused == unused_from(stats.regions(), 0),
            report.runs@ == runs_from(stats.regions(), 0, 0, Seq::empty()),
    {
        stats.report()
    }
}

impl FileBlob {
    /// What the diagnostics come to so far.
    pub fn display_stats(&self) -> (report: StatsReport)
        ensures
            report.duplicate_count == duplicates_from(self.stats().strings(), 0),
            report.unused == unused_from(self.cursor().regions, 0),
            report.runs@ == runs_from(self.cursor().regions, 0, 0, Seq::empty()),
    {
        self.data.display_stats(&self.stats)
    }
}


/// Marking bytes that are marked the same way already changes nothing: a
/// read of the same bytes as the same thing can be made again.
pub proof fn lemma_mark_again(regions: Seq<BlobRegions>, start: int, end: int, tag: BlobRegions)
    requires
        0 <= start,
        mark(regions, start, end, tag) is Ok,
    ensures
        mark(mark(regions, start, end, tag)->Ok_0, start, end, tag) == mark(
            regions,
            start,
            end,
            tag,
        ),
{
    let marked = mark(regions, start, end, tag)->Ok_0;
    if start < end {
        assert(region_free(marked, start, end, tag));
        assert(tagged(marked, start, end, tag) =~= marked);
    }
}

/// A read that was made can be made again at the same place as the same
/// thing: it gives the same bytes and leaves the marks as they are.
pub proof fn lemma_take_again(bytes: Seq<u8>, cur: Cursor, n: int, tag: BlobRegions)
    requires
        0 <= cur.pos,
        0 <= n,
        cur.regions.len() == bytes.len(),
        take(bytes, cur, n, tag) is Ok,
    ensures
        take(bytes, Cursor { pos: cur.pos, regions: take(bytes, cur, n, tag)->Ok_0.1.regions }, n, tag)
            == take(bytes, cur, n, tag),
{
    let next = take(bytes, cur, n, tag)->Ok_0.1;
    assert(region_free(next.regions, cur.pos, cur.pos + n, tag));
    assert(tagged(next.regions, cur.pos, cur.pos + n, tag) =~= next.regions);
}

/// Bytes that were read as one thing cannot be read as another: marking a
/// stretch that shares a byte with a marked one, as something else, is
/// refused with `RegionMismatch`.
pub proof fn lemma_mark_conflict(
    regions: Seq<BlobRegions>,
    start: int,
    end: int,
    tag: BlobRegions,
    start2: int,
    end2: int,
    tag2: BlobRegions,
    shared: int,
)
    requires
        0 <= start < end,
        mark(regions, start, end, tag) is Ok,
        tag != BlobRegions::Empty,
        tag2 != tag,
        start <= shared < end,
        start2 <= shared < end2,
    ensures
        mark(mark(regions, start, end, tag)->Ok_0, start2, end2, tag2) == Err::<
            Seq<BlobRegions>,
            Fatal,
        >(Fatal::RegionMismatch),
{
    let marked = mark(regions, start, end, tag)->Ok_0;
    assert(marked[shared] == tag);
}

/// A read at bytes that were read as another thing fails with
/// `RegionMismatch`, as long as the file holds the bytes asked for.
pub proof fn lemma_take_conflict(
    bytes: Seq<u8>,
    cur: Cursor,
    n: int,
    tag: BlobRegions,
    pos2: int,
    n2: int,
    tag2: BlobRegions,
    shared: int,
)
    requires
        0 <= cur.pos,
        cur.regions.len() == bytes.len(),
        take(bytes, cur, n, tag) is Ok,
        tag != BlobRegions::Empty,
        tag2 != tag,
        cur.pos <= shared < cur.pos + n,
        pos2 <= shared < pos2 + n2,
        pos2 + n2 <= bytes.len(),
    ensures
        take(bytes, Cursor { pos: pos2, regions: take(bytes, cur, n, tag)->Ok_0.1.regions }, n2, tag2)
            == Err::<(Seq<u8>, Cursor), Fatal>(Fatal::RegionMismatch),
{
    let next = take(bytes, cur, n, tag)->Ok_0.1;
    assert(next.regions[shared] == tag);
}

/// Offset 0 stands for "no string", whatever the length asked for: nothing
/// is read and nothing is noted.
pub proof fn lemma_no_string(
    bytes: Seq<u8>,
    maps: CharacterMapsModel,
    regions: Seq<BlobRegions>,
    strings: Seq<StringRecord>,
    max: u16,
)
    ensures
        resolve(bytes, maps, regions, strings, 0, max) == (Resolved {
            result: Ok(no_string()),
            regions,
            strings,
        }),
{
}

/// A string that begins with its zero byte stands for "empty string": the
/// zero byte is marked as text, and the empty text is noted. This holds where
/// the byte was not read as something else before.
pub proof fn lemma_empty_string(
    bytes: Seq<u8>,
    maps: CharacterMapsModel,
    regions: Seq<BlobRegions>,
    strings: Seq<StringRecord>,
    off: u32,
    max: u16,
)
    requires
        0 < off < bytes.len(),
        bytes[off as int] == 0,
        max > 0,
        regions.len() == bytes.len(),
        regions[off as int] == BlobRegions::Empty || regions[off as int] == BlobRegions::Text,
    ensures
        resolve(bytes, maps, regions, strings, off, max) == (Resolved {
            result: Ok(empty_string()),
            regions: regions.update(off as int, BlobRegions::Text),
            strings: record(strings, Seq::empty(), off, 1),
        }),
{
    assert(text_len(bytes, off as int, max as int, 0) == Some(0int));
    assert(tagged(regions, off as int, off + 1, BlobRegions::Text) =~= regions.update(
        off as int,
        BlobRegions::Text,
    ));
}

/// The code of a pair in numbers: the low six bits of the second byte,
/// above the high seven bits of the first.
pub proof fn lemma_pair_code(first: u8, second: u8)
    ensures
        pair_code(first, second) == (second % 64) * 128 + first / 2,
{
    assert((((second as u16) & 0x3F) << 7) | ((first >> 1) as u16) == ((second % 64) as u16) * 128
        + ((first / 2) as u16)) by (bit_vector);
}

/// Two bytes of which the second marks the first as the low part of a code
/// are decoded as one code of two bytes, looked up in the first map of such
/// codes.
pub proof fn lemma_decode_pair(maps: Seq<CharacterMapModel>, first: u8, second: u8)
    requires
        is_pair(first, second),
    ensures
        decode_codepage(maps, seq![first, second], 0, Seq::empty()) == match lookup(
            maps,
            2,
            pair_code(first, second),
        ) {
            Some(text) => Ok::<Seq<char>, DecodeFailure>(text),
            None => Err::<Seq<char>, DecodeFailure>(
                DecodeFailure::Aborted(Fatal::MissingCharacter),
            ),
        },
{
    reveal_with_fuel(decode_codepage, 3);
    let bytes = seq![first, second];
    match lookup(maps, 2, pair_code(first, second)) {
        Some(text) => {
            assert(Seq::<char>::empty() + text =~= text);
        },
        None => {},
    }
}

/// A last byte that can only be the high part of a code, with no byte
/// before it to go with, is a failure of decoding, and one that says what was
/// decoded so far.
pub proof fn lemma_decode_dangling(
    maps: Seq<CharacterMapModel>,
    bytes: Seq<u8>,
    text: Seq<char>,
)
    requires
        bytes.len() > 0,
        is_lead(bytes.last()),
    ensures
        decode_codepage(maps, bytes, bytes.len() - 1, text) == Err::<Seq<char>, DecodeFailure>(
            DecodeFailure::Dangling { partial: text, bytes },
        ),
{
}

/// What resolving a string gives does not depend on the texts noted before.
pub proof fn lemma_resolve_ignores_notes(
    bytes: Seq<u8>,
    maps: CharacterMapsModel,
    regions: Seq<BlobRegions>,
    strings: Seq<StringRecord>,
    others: Seq<StringRecord>,
    off: u32,
    max: u16,
)
    ensures
        resolve(bytes, maps, regions, strings, off, max).result == resolve(
            bytes,
            maps,
            regions,
            others,
            off,
            max,
        ).result,
        resolve(bytes, maps, regions, strings, off, max).regions == resolve(
            bytes,
            maps,
            regions,
            others,
            off,
            max,
        ).regions,
{
}

/// A string that was resolved can be resolved again, with the same result
/// and the same marks.
pub proof fn lemma_resolve_again(
    bytes: Seq<u8>,
    maps: CharacterMapsModel,
    regions: Seq<BlobRegions>,
    strings: Seq<StringRecord>,
    others: Seq<StringRecord>,
    off: u32,
    max: u16,
)
    requires
        resolve(bytes, maps, regions, strings, off, max).result is Ok,
    ensures
        ({
            let first = resolve(bytes, maps, regions, strings, off, max);
            let second = resolve(bytes, maps, first.regions, others, off, max);
            second.result == first.result && second.regions == first.regions
        }),
{
    if off != 0 {
        let k = text_len(bytes, off as int, max as int, 0)->Some_0;
        lemma_mark_again(regions, off as int, text_end(off as int, max as int, k), BlobRegions::Text);
    }
}

proof fn lemma_duplicates_push(strings: Seq<StringRecord>, added: StringRecord, i: int)
    requires
        0 <= i <= strings.len(),
    ensures
        duplicates_from(strings.push(added), i) == duplicates_from(strings, i) + added.count,
    decreases strings.len() - i,
{
    if i < strings.len() {
        lemma_duplicates_push(strings, added, i + 1);
    } else {
        assert(duplicates_from(strings.push(added), i + 1) == 0);
    }
}

proof fn lemma_duplicates_update(strings: Seq<StringRecord>, at: int, changed: StringRecord, i: int)
    requires
        0 <= i <= strings.len(),
        0 <= at < strings.len(),
    ensures
        duplicates_from(strings.update(at, changed), i) == if i <= at {
            duplicates_from(strings, i) - strings[at].count + changed.count
        } else {
            duplicates_from(strings, i) as int
        },
    decreases strings.len() - i,
{
    if i < strings.len() {
        lemma_duplicates_update(strings, at, changed, i + 1);
    }
}

proof fn lemma_find_text(strings: Seq<StringRecord>, text: Seq<char>, i: int)
    requires
        0 <= i,
    ensures
        match find_text(strings, text, i) {
            Some(at) => i <= at < strings.len() && strings[at].text == text,
            None => forall|j: int| i <= j < strings.len() ==> strings[j].text != text,
        },
    decreases strings.len() - i,
{
    if i < strings.len() && strings[i].text != text {
        lemma_find_text(strings, text, i + 1);
    }
}

proof fn lemma_find_after_push(strings: Seq<StringRecord>, added: StringRecord, i: int)
    requires
        0 <= i <= strings.len(),
        forall|j: int| i <= j < strings.len() ==> strings[j].text != added.text,
    ensures
        find_text(strings.push(added), added.text, i) == Some(strings.len() as int),
    decreases strings.len() - i,
{
    if i < strings.len() {
        lemma_find_after_push(strings, added, i + 1);
    }
}

/// A text seen again at another offset than its first adds the size of the
/// later copy to the bytes that copies take up, as long as its count has room.
pub proof fn lemma_copy_counts(strings: Seq<StringRecord>, text: Seq<char>, off: u32, size: u32)
    requires
        find_text(strings, text, 0) is Some,
        strings[find_text(strings, text, 0)->Some_0].offset != off,
        strings[find_text(strings, text, 0)->Some_0].count + size <= u32::MAX,
    ensures
        duplicates_from(record(strings, text, off, size), 0) == duplicates_from(strings, 0) + size,
{
    lemma_find_text(strings, text, 0);
    let at = find_text(strings, text, 0)->Some_0;
    lemma_duplicates_update(
        strings,
        at,
        StringRecord { count: raised(strings[at].count, size), ..strings[at] },
        0,
    );
}

/// A text that is found at two different offsets: the first leaves the
/// bytes that copies take up as they are, the second adds its own size to
/// them.
pub proof fn lemma_second_offset_counts(
    strings: Seq<StringRecord>,
    text: Seq<char>,
    first: u32,
    first_size: u32,
    second: u32,
    second_size: u32,
)
    requires
        find_text(strings, text, 0) is None,
        first != second,
    ensures
        duplicates_from(record(strings, text, first, first_size), 0) == duplicates_from(strings, 0),
        duplicates_from(
            record(record(strings, text, first, first_size), text, second, second_size),
            0,
        ) == duplicates_from(strings, 0) + second_size,
{
    lemma_find_text(strings, text, 0);
    let added = StringRecord { text, offset: first, count: 0 };
    let once = record(strings, text, first, first_size);
    assert(once == strings.push(added));
    lemma_duplicates_push(strings, added, 0);
    lemma_find_after_push(strings, added, 0);
    lemma_copy_counts(once, text, second, second_size);
}


/// A text that stands at two different offsets of the file, resolved at
/// the one and then at the other: the second adds its length in bytes to the
/// bytes that copies take up, and the first can still be resolved, with the
/// same result. This holds for a text that was not noted before, and for
/// strings that are not empty.
pub proof fn lemma_copy_at_second_offset(
    bytes: Seq<u8>,
    maps: CharacterMapsModel,
    regions: Seq<BlobRegions>,
    strings: Seq<StringRecord>,
    first: u32,
    second: u32,
    max: u16,
)
    requires
        first != 0,
        second != 0,
        first != second,
        text_len(bytes, first as int, max as int, 0) is Some,
        text_len(bytes, first as int, max as int, 0)->Some_0 > 0,
        text_len(bytes, second as int, max as int, 0) is Some,
        text_len(bytes, second as int, max as int, 0)->Some_0 > 0,
        resolve(bytes, maps, regions, strings, first, max).result is Ok,
        find_text(strings, resolve(bytes, maps, regions, strings, first, max).result->Ok_0, 0)
            is None,
        ({
            let one = resolve(bytes, maps, regions, strings, first, max);
            resolve(bytes, maps, one.regions, one.strings, second, max).result == one.result
        }),
    ensures
        ({
            let one = resolve(bytes, maps, regions, strings, first, max);
            let two = resolve(bytes, maps, one.regions, one.strings, second, max);
            let again = resolve(bytes, maps, two.regions, two.strings, first, max);
            &&& duplicates_from(one.strings, 0) == duplicates_from(strings, 0)
            &&& duplicates_from(two.strings, 0) == duplicates_from(strings, 0) + text_len(
                bytes,
                second as int,
                max as int,
                0,
            )->Some_0
            &&& again.result == one.result
        }),
{
    let one = resolve(bytes, maps, regions, strings, first, max);
    let two = resolve(bytes, maps, one.regions, one.strings, second, max);
    let text = one.result->Ok_0;
    let k1 = text_len(bytes, first as int, max as int, 0)->Some_0;
    let k2 = text_len(bytes, second as int, max as int, 0)->Some_0;
    lemma_text_len(bytes, first as int, max as int, 0);
    lemma_text_len(bytes, second as int, max as int, 0);
    lemma_second_offset_counts(strings, text, first, k1 as u32, second, k2 as u32);
    let end1 = text_end(first as int, max as int, k1);
    let end2 = text_end(second as int, max as int, k2);
    assert(region_free(two.regions, first as int, end1, BlobRegions::Text)) by {
        assert forall|i: int| first <= i < end1 implies #[trigger] two.regions[i]
            == BlobRegions::Text by {
            assert(one.regions[i] == BlobRegions::Text);
        }
    }
    assert(tagged(two.regions, first as int, end1, BlobRegions::Text) =~= two.regions);
}

/// The length of a string lies within the length asked for, and the bytes
/// that the string takes up lie within the file.
pub proof fn lemma_text_len(bytes: Seq<u8>, off: int, max: int, k: int)
    requires
        0 <= off,
        0 <= k <= max,
        text_len(bytes, off, max, k) is Some,
    ensures
        k <= text_len(bytes, off, max, k)->Some_0 <= max,
        text_len(bytes, off, max, k)->Some_0 > k ==> text_end(
            off,
            max,
            text_len(bytes, off, max, k)->Some_0,
        ) <= bytes.len(),
    decreases max - k,
{
    if k < max && off + k < bytes.len() && bytes[off + k] != 0 {
        lemma_text_len(bytes, off, max, k + 1);
        let n = text_len(bytes, off, max, k + 1)->Some_0;
        if n == k + 1 {
            if n < max {
                assert(off + n < bytes.len());
            }
        }
    }
}


/// No text is noted twice.
pub open spec fn distinct_texts(strings: Seq<StringRecord>) -> bool {
    forall|i: int, j: int|
        0 <= i < j < strings.len() ==> (#[trigger] strings[i]).text != (#[trigger] strings[j]).text
}

/// Noting a text keeps the texts distinct: each text has one note, however
/// often and wherever it is found.
pub proof fn lemma_notes_stay_distinct(
    strings: Seq<StringRecord>,
    text: Seq<char>,
    off: u32,
    size: u32,
)
    requires
        distinct_texts(strings),
    ensures
        distinct_texts(record(strings, text, off, size)),
{
    lemma_find_text(strings, text, 0);
    let after = record(strings, text, off, size);
    assert forall|i: int, j: int| 0 <= i < j < after.len() implies (#[trigger] after[i]).text != (
    #[trigger] after[j]).text by {
        if j < strings.len() {
            assert(strings[i].text != strings[j].text);
        }
    }
}


/// Why the content of a file could not be put into words.
pub enum DumpError {
    /// A string could not be resolved.
    Text(StringError),
    /// A mode has a number that has no name.
    Mode(Fatal),
}

/// Why the content of a file could not be put into words, as plain values.
pub enum DumpFailure {
    Text(StringFailure),
    Mode(Fatal),
}

impl View for DumpError {
    type V = DumpFailure;

    open spec fn view(&self) -> DumpFailure {
        match *self {
            DumpError::Text(e) => DumpFailure::Text(e@),
            DumpError::Mode(e) => DumpFailure::Mode(e),
        }
    }
}

/// How far putting the content of a file into words has come: the lines so
/// far, the diagnostics after them, and the failure that ended it, if one did.
pub struct Dumped {
    pub failure: Option<DumpFailure>,
    pub lines: Seq<Seq<char>>,
    pub regions: Seq<BlobRegions>,
    pub strings: Seq<StringRecord>,
}

/// The lines as texts, in their order.
pub open spec fn line_texts(lines: Seq<String>) -> Seq<Seq<char>> {
    lines.map_values(|l: String| l@)
}

/// What putting content into words came to, held against what it had to
/// come to.
pub open spec fn dumps(
    got: Result<(), DumpError>,
    lines: Seq<String>,
    stats: Stats,
    expected: Dumped,
) -> bool {
    &&& line_texts(lines) == expected.lines
    &&& stats.regions() == expected.regions
    &&& stats.strings() == expected.strings
    &&& match expected.failure {
        Some(e) => got is Err && got->Err_0@ == e,
        None => got is Ok,
    }
}

/// Putting one entry into words by its caption and its tooltip, behind
/// `prefix`, as the next line after `so_far`.
pub open spec fn dump_entry(
    bytes: Seq<u8>,
    maps: CharacterMapsModel,
    prefix: Seq<char>,
    caption_off: u32,
    tooltip_off: u32,
    max: u16,
    so_far: Dumped,
) -> Dumped {
    let d = describe(bytes, maps, so_far.regions, so_far.strings, caption_off, tooltip_off, max);
    match d.result {
        Ok(text) => Dumped {
            failure: None,
            lines: so_far.lines.push(prefix + text),
            regions: d.regions,
            strings: d.strings,
        },
        Err(e) => Dumped {
            failure: Some(DumpFailure::Text(e)),
            lines: so_far.lines,
            regions: d.regions,
            strings: d.strings,
        },
    }
}

impl RawBlob {
    /// Puts one entry into words by its caption and its tooltip, behind
    /// `prefix`, and adds the line to `lines`.
    pub fn dump_entry(
        &self,
        prefix: String,
        caption_off: u32,
        tooltip_off: u32,
        max_length: u16,
        lines: &mut Vec<String>,
        stats: &mut Stats,
    ) -> (r: Result<(), DumpError>)
        requires
            old(stats).regions().len() == self.bytes().len(),
        ensures
            final(stats).regions().len() == self.bytes().len(),
            dumps(
                r,
                final(lines)@,
                *final(stats),
                dump_entry(
                    self.bytes(),
                    self.maps(),
                    prefix@,
                    caption_off,
                    tooltip_off,
                    max_length,
                    (Dumped {
                        failure: None,
                        lines: line_texts(old(lines)@),
                        regions: old(stats).regions(),
                        strings: old(stats).strings(),
                    }),
                ),
            ),
    {
        match self.get_caption(caption_off, tooltip_off, max_length, stats) {
            Ok(text) => {
                let mut line = prefix;
                line.append(text.as_str());
                let ghost before = line_texts(lines@);
                lines.push(line);
                assert(line_texts(lines@) =~= before.push(prefix@ + text@));
                Ok(())
            },
            Err(e) => Err(DumpError::Text(e)),
        }
    }
}


/// Marking a stretch in two parts is marking it whole, and the second part
/// is as free after the first is marked as it was before.
pub proof fn lemma_mark_in_parts(
    regions: Seq<BlobRegions>,
    start: int,
    mid: int,
    end: int,
    tag: BlobRegions,
)
    requires
        0 <= start <= mid <= end <= regions.len(),
        region_free(regions, start, end, tag),
    ensures
        region_free(regions, start, mid, tag),
        region_free(tagged(regions, start, mid, tag), mid, end, tag),
        tagged(tagged(regions, start, mid, tag), mid, end, tag) == tagged(regions, start, end, tag),
{
    let first = tagged(regions, start, mid, tag);
    assert forall|i: int| mid <= i < end implies #[trigger] first[i] == BlobRegions::Empty
        || first[i] == tag by {
        assert(regions[i] == BlobRegions::Empty || regions[i] == tag);
    }
    assert(tagged(first, mid, end, tag) =~= tagged(regions, start, end, tag));
}

/// Where a stretch of bytes holds two texts one behind the other, its front
/// holds the first and its back the second.
pub proof fn lemma_written_in_parts(bytes: Seq<u8>, pos: int, front: Seq<u8>, back: Seq<u8>)
    requires
        0 <= pos,
        pos + front.len() + back.len() <= bytes.len(),
        bytes.subrange(pos, pos + front.len() + back.len()) == front + back,
    ensures
        bytes.subrange(pos, pos + front.len()) == front,
        bytes.subrange(pos + front.len(), pos + front.len() + back.len()) == back,
{
    let whole = bytes.subrange(pos, pos + front.len() + back.len());
    assert forall|j: int| 0 <= j < front.len() implies bytes.subrange(pos, pos + front.len())[j]
        == front[j] by {
        assert(whole[j] == (front + back)[j]);
    }
    assert(bytes.subrange(pos, pos + front.len()) =~= front);
    assert forall|j: int| 0 <= j < back.len() implies bytes.subrange(
        pos + front.len(),
        pos + front.len() + back.len(),
    )[j] == back[j] by {
        assert(whole[front.len() + j] == (front + back)[front.len() + j]);
    }
    assert(bytes.subrange(pos + front.len(), pos + front.len() + back.len()) =~= back);
}


/// A read can be made in two steps: the first gives the front of the bytes,
/// the second the back, and the cursor then stands where the one read would
/// leave it, with the same marks.
pub proof fn lemma_take_in_parts(bytes: Seq<u8>, cur: Cursor, front: int, back: int, tag: BlobRegions)
    requires
        0 <= cur.pos,
        0 <= front,
        0 <= back,
        cur.regions.len() == bytes.len(),
        take(bytes, cur, front + back, tag) is Ok,
    ensures
        take(bytes, cur, front, tag) is Ok,
        take(bytes, cur, front, tag)->Ok_0.0 == take(bytes, cur, front + back, tag)->Ok_0.0.subrange(
            0,
            front,
        ),
        take(bytes, cur, front, tag)->Ok_0.1.pos == cur.pos + front,
        take(bytes, cur, front, tag)->Ok_0.1.regions.len() == bytes.len(),
        take(bytes, take(bytes, cur, front, tag)->Ok_0.1, back, tag) is Ok,
        take(bytes, take(bytes, cur, front, tag)->Ok_0.1, back, tag)->Ok_0.0 == take(
            bytes,
            cur,
            front + back,
            tag,
        )->Ok_0.0.subrange(front, front + back),
        take(bytes, take(bytes, cur, front, tag)->Ok_0.1, back, tag)->Ok_0.1 == take(
            bytes,
            cur,
            front + back,
            tag,
        )->Ok_0.1,
{
    lemma_mark_in_parts(cur.regions, cur.pos, cur.pos + front, cur.pos + front + back, tag);
    let whole = take(bytes, cur, front + back, tag)->Ok_0.0;
    assert(take(bytes, cur, front, tag)->Ok_0.0 =~= whole.subrange(0, front));
    let mid = take(bytes, cur, front, tag)->Ok_0.1;
    assert(take(bytes, mid, back, tag)->Ok_0.0 =~= whole.subrange(front, front + back));
}

/// A read of bytes that lie within the file and were not read as something
/// else gives those bytes, marks them, and moves the cursor behind them.
pub proof fn lemma_take_free(bytes: Seq<u8>, cur: Cursor, n: int, tag: BlobRegions)
    requires
        0 <= cur.pos,
        0 <= n,
        cur.pos + n <= bytes.len(),
        region_free(cur.regions, cur.pos, cur.pos + n, tag),
    ensures
        take(bytes, cur, n, tag) == Ok::<(Seq<u8>, Cursor), Fatal>(
            (
                bytes.subrange(cur.pos, cur.pos + n),
                Cursor { pos: cur.pos + n, regions: tagged(cur.regions, cur.pos, cur.pos + n, tag) },
            ),
        ),
{
}


/// A string whose bytes from place `k` up to place `n` are not zero, with a
/// zero byte at place `n` within the length asked for, has length `n`.
pub proof fn lemma_text_ends(bytes: Seq<u8>, off: int, max: int, k: int, n: int)
    requires
        0 <= off,
        0 <= k <= n < max,
        off + n < bytes.len(),
        forall|j: int| k <= j < n ==> #[trigger] bytes[off + j] != 0,
        bytes[off + n] == 0,
    ensures
        text_len(bytes, off, max, k) == Some(n),
    decreases n - k,
{
    if k < n {
        assert(bytes[off + k] != 0);
        lemma_text_ends(bytes, off, max, k + 1, n);
    }
}

/// Bytes of which none can be the high part of a code are decoded one by
/// one. Where each of them stands for one character in the first map of
/// one-byte codes, the text is those characters, in the order of the bytes.
pub proof fn lemma_decode_single_bytes(
    maps: Seq<CharacterMapModel>,
    bytes: Seq<u8>,
    chars: Seq<char>,
    i: int,
    text: Seq<char>,
)
    requires
        0 <= i <= bytes.len(),
        chars.len() == bytes.len(),
        forall|j: int| 0 <= j < bytes.len() ==> !is_lead(#[trigger] bytes[j]),
        forall|j: int|
            0 <= j < bytes.len() ==> lookup(maps, 1, #[trigger] bytes[j] as u16) == Some(
                seq![chars[j]],
            ),
    ensures
        decode_codepage(maps, bytes, i, text) == Ok::<Seq<char>, DecodeFailure>(
            text + chars.skip(i),
        ),
    decreases bytes.len() - i,
{
    if i >= bytes.len() {
        assert(text + chars.skip(i) =~= text);
    } else {
        if i + 1 < bytes.len() {
            assert(!is_lead(bytes[i + 1]));
        }
        assert(!is_lead(bytes[i]));
        assert(lookup(maps, 1, bytes[i] as u16) == Some(seq![chars[i]]));
        lemma_decode_single_bytes(maps, bytes, chars, i + 1, text + seq![chars[i]]);
        assert(text + seq![chars[i]] + chars.skip(i + 1) =~= text + chars.skip(i));
    }
}

/// A caption of single-byte characters that ends with a zero byte is put
/// into words as those characters: the parameter, menu or unit that has it,
/// and no tooltip, reads as that text. Its bytes and the zero byte are marked
/// as text, and the text is noted. The bytes must not have been read as
/// something else.
pub proof fn lemma_describe_single_bytes(
    bytes: Seq<u8>,
    maps: CharacterMapsModel,
    regions: Seq<BlobRegions>,
    strings: Seq<StringRecord>,
    off: u32,
    max: u16,
    chars: Seq<char>,
)
    requires
        !maps.is_utf8,
        0 < off,
        0 < chars.len() < max,
        off + chars.len() < bytes.len(),
        regions.len() == bytes.len(),
        bytes[off + chars.len()] == 0,
        forall|j: int| 0 <= j < chars.len() ==> #[trigger] bytes[off + j] != 0,
        forall|j: int| 0 <= j < chars.len() ==> !is_lead(#[trigger] bytes[off + j]),
        forall|j: int|
            0 <= j < chars.len() ==> lookup(maps.maps, 1, #[trigger] bytes[off + j] as u16)
                == Some(seq![chars[j]]),
        region_free(regions, off as int, off + chars.len() + 1, BlobRegions::Text),
    ensures
        describe(bytes, maps, regions, strings, off, 0, max) == (Described {
            result: Ok(chars),
            regions: tagged(regions, off as int, off + chars.len() + 1, BlobRegions::Text),
            strings: record(strings, chars, off, chars.len() as u32),
        }),
{
    let n = chars.len() as int;
    lemma_text_ends(bytes, off as int, max as int, 0, n);
    let raw = bytes.subrange(off as int, off + n);
    assert forall|j: int| 0 <= j < raw.len() implies !is_lead(#[trigger] raw[j]) by {
        assert(raw[j] == bytes[off + j]);
    }
    assert forall|j: int| 0 <= j < raw.len() implies lookup(maps.maps, 1, #[trigger] raw[j] as u16)
        == Some(seq![chars[j]]) by {
        assert(raw[j] == bytes[off + j]);
    }
    lemma_decode_single_bytes(maps.maps, raw, chars, 0, Seq::empty());
    assert(Seq::<char>::empty() + chars.skip(0) =~= chars);
}

} // verus!
