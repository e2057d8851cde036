use crate::conversion::{
    little_endian_2_bytes, little_endian_4_bytes, spec_le2, spec_le4,
};
use crate::error::Fatal;
use vstd::prelude::*;
use vstd::slice::{slice_subrange, slice_to_vec};

verus! {

/// One font of a font file: the character map and the font family it is
/// for, the size of a glyph, the codepoints it covers, and the glyphs.
pub struct FontSection {
    char_map: u8,
    font_family: u8,
    min_codepoint: u16,
    max_codepoint: u16,
    glyph_width: u8,
    glyph_height: u8,
    bytes_per_glyph: u8,
    blob: Vec<u8>,
}

/// What a font holds, as plain values.
pub struct FontSectionModel {
    pub char_map: u8,
    pub font_family: u8,
    pub min_codepoint: u16,
    pub max_codepoint: u16,
    pub glyph_width: u8,
    pub glyph_height: u8,
    pub bytes_per_glyph: u8,
    pub blob: Seq<u8>,
}

impl View for FontSection {
    type V = FontSectionModel;

    closed spec fn view(&self) -> FontSectionModel {
        FontSectionModel {
            char_map: self.char_map,
            font_family: self.font_family,
            min_codepoint: self.min_codepoint,
            max_codepoint: self.max_codepoint,
            glyph_width: self.glyph_width,
            glyph_height: self.glyph_height,
            bytes_per_glyph: self.bytes_per_glyph,
            blob: self.blob@,
        }
    }
}

/// The length of the head of a font file.
pub const FILE_HEADER: usize = 16;

/// The length of the head of a font.
pub const SECTION_HEADER: usize = 12;

/// The number of fonts that the file states, in bytes 12 and 13.
pub open spec fn stated_fonts(data: Seq<u8>) -> nat {
    spec_le2(data.skip(12))
}

/// Where the table of offsets stands, as bytes 14 and 15 state it.
pub open spec fn stated_table(data: Seq<u8>) -> nat {
    spec_le2(data.skip(14))
}

/// The offset of font `i`, from the table of offsets: a number of four
/// bytes. `None` where the file ends before.
pub open spec fn font_offset(data: Seq<u8>, i: int) -> Option<u32> {
    let at = stated_table(data) + 4 * i;
    if at + 4 <= data.len() {
        Some(spec_le4(data.skip(at)) as u32)
    } else {
        None
    }
}

/// The font at `offset`. Its head of 12 bytes holds the character map in
/// byte 0, the font family, the width and the height of a glyph and the
/// bytes of a glyph in bytes 4 to 7, and the lowest and the highest codepoint
/// in two bytes each. The glyphs follow, as far as the file goes.
pub open spec fn section_at(data: Seq<u8>, offset: int) -> Result<FontSectionModel, Fatal> {
    if offset + 12 > data.len() {
        Err(Fatal::OutOfBounds)
    } else {
        let head = data.subrange(offset, offset + 12);
        let min = spec_le2(head.skip(8));
        let max = spec_le2(head.skip(10));
        if max < min || max - min + 1 > 65535 {
            Err(Fatal::CodepointRange)
        } else {
            let size = head[7] * (max - min + 1);
            let end = if offset + 12 + size <= data.len() {
                offset + 12 + size
            } else {
                data.len() as int
            };
            Ok(
                FontSectionModel {
                    char_map: head[0],
                    font_family: head[4],
                    min_codepoint: min as u16,
                    max_codepoint: max as u16,
                    glyph_width: head[5],
                    glyph_height: head[6],
                    bytes_per_glyph: head[7],
                    blob: data.subrange(offset + 12, end),
                },
            )
        }
    }
}

/// The offsets of the fonts from the `i`-th of `count` on, added to
/// `offsets`: `OutOfBounds` where the file ends before.
pub open spec fn read_offsets(data: Seq<u8>, count: int, i: int, offsets: Seq<u32>) -> Result<
    Seq<u32>,
    Fatal,
>
    decreases count - i,
{
    if i < 0 || i >= count {
        Ok(offsets)
    } else {
        match font_offset(data, i) {
            None => Err(Fatal::OutOfBounds),
            Some(offset) => read_offsets(data, count, i + 1, offsets.push(offset)),
        }
    }
}

/// The fonts at the offsets from place `i` on, added to `sections`.
pub open spec fn read_sections(
    data: Seq<u8>,
    offsets: Seq<u32>,
    i: int,
    sections: Seq<FontSectionModel>,
) -> Result<Seq<FontSectionModel>, Fatal>
    decreases offsets.len() - i,
{
    if i < 0 || i >= offsets.len() {
        Ok(sections)
    } else {
        match section_at(data, offsets[i] as int) {
            Err(e) => Err(e),
            Ok(section) => read_sections(data, offsets, i + 1, sections.push(section)),
        }
    }
}

/// The fonts of a font file. Its head of 16 bytes states the number of
/// fonts and where the table of their offsets stands. All offsets are read
/// before the first font.
pub open spec fn read_fonts(data: Seq<u8>) -> Result<Seq<FontSectionModel>, Fatal> {
    if data.len() < 16 {
        Err(Fatal::OutOfBounds)
    } else {
        match read_offsets(data, stated_fonts(data) as int, 0, Seq::empty()) {
            Err(e) => Err(e),
            Ok(offsets) => read_sections(data, offsets, 0, Seq::empty()),
        }
    }
}

/// The first of the fonts from place `i` on that is for the character map
/// and the font family.
pub open spec fn find_font(sections: Seq<FontSectionModel>, char_map: u8, font_family: u8, i: int) -> Option<
    FontSectionModel,
>
    decreases sections.len() - i,
{
    if i < 0 || i >= sections.len() {
        None
    } else if sections[i].char_map == char_map && sections[i].font_family == font_family {
        Some(sections[i])
    } else {
        find_font(sections, char_map, font_family, i + 1)
    }
}

/// The first of the fonts from place `i` on that is for the character map
/// and the font family and covers the codepoint.
pub open spec fn find_glyph_font(
    sections: Seq<FontSectionModel>,
    char_map: u8,
    font_family: u8,
    codepoint: u16,
    i: int,
) -> Option<FontSectionModel>
    decreases sections.len() - i,
{
    if i < 0 || i >= sections.len() {
        None
    } else if sections[i].char_map == char_map && sections[i].font_family == font_family
        && sections[i].min_codepoint <= codepoint <= sections[i].max_codepoint {
        Some(sections[i])
    } else {
        find_glyph_font(sections, char_map, font_family, codepoint, i + 1)
    }
}

/// The glyph of a codepoint in a font that covers it: `None` where the file
/// ended before the glyph.
pub open spec fn glyph_in(section: FontSectionModel, codepoint: u16) -> Option<Seq<u8>> {
    let idx = (codepoint - section.min_codepoint) * section.bytes_per_glyph;
    if idx + section.bytes_per_glyph <= section.blob.len() {
        Some(section.blob.subrange(idx, idx + section.bytes_per_glyph))
    } else {
        None
    }
}

impl FontSection {
    /// Reads the font at `offset` of the file.
    pub fn from(data: &[u8], offset: u32) -> (r: Result<FontSection, Fatal>)
        ensures
            match section_at(data@, offset as int) {
                Ok(section) => r is Ok && r->Ok_0@ == section,
                Err(e) => r == Err::<FontSection, Fatal>(e),
            },
    {
        let size = data.len();
        let start = offset as usize;
        if start > size || size - start < SECTION_HEADER {
            return Err(Fatal::OutOfBounds);
        }
        let font_header = slice_subrange(data, start, start + SECTION_HEADER);
        let char_map = font_header[0];
        let font_family = font_header[4];
        let glyph_width = font_header[5];
        let glyph_height = font_header[6];
        let bytes_per_glyph = font_header[7];
        let min_codepoint = little_endian_2_bytes(slice_subrange(font_header, 8, 10));
        let max_codepoint = little_endian_2_bytes(slice_subrange(font_header, 10, 12));
        if max_codepoint < min_codepoint || max_codepoint - min_codepoint == 65535 {
            return Err(Fatal::CodepointRange);
        }
        let count: usize = (max_codepoint - min_codepoint) as usize + 1;
        assert(bytes_per_glyph * count <= 255 * 65535) by (nonlinear_arith)
            requires
                bytes_per_glyph <= 255,
                count <= 65535,
        ;
        let blob_size: usize = (bytes_per_glyph as usize) * count;
        let first = start + SECTION_HEADER;
        let end = if size - first >= blob_size {
            first + blob_size
        } else {
            size
        };
        let blob = slice_to_vec(slice_subrange(data, first, end));
        Ok(
            FontSection {
                char_map,
                font_family,
                min_codepoint,
                max_codepoint,
                glyph_width,
                glyph_height,
                bytes_per_glyph,
                blob,
            },
        )
    }
}

/// The fonts of a font file.
pub struct FontIndex {
    sections: Vec<FontSection>,
}

impl View for FontIndex {
    type V = Seq<FontSectionModel>;

    closed spec fn view(&self) -> Seq<FontSectionModel> {
        self.sections@.map_values(|s: FontSection| s@)
    }
}

impl FontIndex {
    /// Reads a font file from its bytes.
    pub fn from(data: &[u8]) -> (r: Result<FontIndex, Fatal>)
        ensures
            match read_fonts(data@) {
                Ok(sections) => r is Ok && r->Ok_0@ == sections,
                Err(e) => r == Err::<FontIndex, Fatal>(e),
            },
    {
        if data.len() < FILE_HEADER {
            return Err(Fatal::OutOfBounds);
        }
        let num_fonts = little_endian_2_bytes(slice_subrange(data, 12, 14));
        let offset_to_offset_table = little_endian_2_bytes(slice_subrange(data, 14, 16));
        let size = data.len();
        let table = offset_to_offset_table as usize;

        let mut offset_table: Vec<u32> = Vec::new();
        let mut i: u16 = 0;
        while i < num_fonts
            invariant
                i <= num_fonts,
                size == data@.len(),
                size >= 16,
                num_fonts == stated_fonts(data@),
                table == stated_table(data@),
                read_offsets(data@, num_fonts as int, 0, Seq::empty()) == read_offsets(
                    data@,
                    num_fonts as int,
                    i as int,
                    offset_table@,
                ),
            decreases num_fonts - i,
        {
            let at = table + 4 * (i as usize);
            if at > size || size - at < 4 {
                return Err(Fatal::OutOfBounds);
            }
            offset_table.push(little_endian_4_bytes(slice_subrange(data, at, at + 4)));
            i += 1;
        }
        let mut sections: Vec<FontSection> = Vec::new();
        let mut i: usize = 0;
        assert(sections@.map_values(|s: FontSection| s@) =~= Seq::<FontSectionModel>::empty());
        while i < offset_table.len()
            invariant
                i <= offset_table@.len(),
                read_fonts(data@) == read_sections(
                    data@,
                    offset_table@,
                    i as int,
                    sections@.map_values(|s: FontSection| s@),
                ),
            decreases offset_table@.len() - i,
        {
            let section = FontSection::from(data, offset_table[i])?;
            let ghost before = sections@.map_values(|s: FontSection| s@);
            let ghost model = section@;
            sections.push(section);
            assert(sections@.map_values(|s: FontSection| s@) =~= before.push(model));
            i += 1;
        }
        Ok(FontIndex { sections })
    }

    /// The width and the height of a glyph in the first font that is for
    /// the character map and the font family.
    pub fn get_size(&self, char_map: u8, font_family: u8) -> (r: Option<(u8, u8)>)
        ensures
            r == match find_font(self@, char_map, font_family, 0) {
                Some(section) => Some((section.glyph_width, section.glyph_height)),
                None => None,
            },
    {
        let mut i: usize = 0;
        while i < self.sections.len()
            invariant
                i <= self.sections@.len(),
                find_font(self@, char_map, font_family, 0) == find_font(
                    self@,
                    char_map,
                    font_family,
                    i as int,
                ),
            decreases self.sections@.len() - i,
        {
            let section = &self.sections[i];
            assert(self@[i as int] == section@);
            if (section.char_map == char_map) && (section.font_family == font_family) {
                return Some((section.glyph_width, section.glyph_height));
            }
            i += 1;
        }
        None
    }

    /// The glyph of a codepoint in the first font that is for the character
    /// map and the font family and covers the codepoint.
    pub fn get_glyph(&self, char_map: u8, font_family: u8, codepoint: u16) -> (r: Option<Vec<u8>>)
        ensures
            match find_glyph_font(self@, char_map, font_family, codepoint, 0) {
                Some(section) => match glyph_in(section, codepoint) {
                    Some(glyph) => r is Some && r->Some_0@ == glyph,
                    None => r is None,
                },
                None => r is None,
            },
    {
        let mut i: usize = 0;
        while i < self.sections.len()
            invariant
                i <= self.sections@.len(),
                find_glyph_font(self@, char_map, font_family, codepoint, 0) == find_glyph_font(
                    self@,
                    char_map,
                    font_family,
                    codepoint,
                    i as int,
                ),
            decreases self.sections@.len() - i,
        {
            let section = &self.sections[i];
            assert(self@[i as int] == section@);
            if (section.char_map == char_map) && (section.font_family == font_family) && (codepoint
                >= section.min_codepoint) && (codepoint <= section.max_codepoint) {
                let width = section.bytes_per_glyph as usize;
                let place = (codepoint - section.min_codepoint) as usize;
                assert(place * width <= 65535 * 255) by (nonlinear_arith)
                    requires
                        place <= 65535,
                        width <= 255,
                ;
                let idx: usize = place * width;
                if idx > section.blob.len() || section.blob.len() - idx < width {
                    return None;
                }
                let glyph = slice_to_vec(slice_subrange(section.blob.as_slice(), idx, idx + width));
                return Some(glyph);
            }
            i += 1;
        }
        None
    }
}

} // verus!
