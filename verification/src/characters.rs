use crate::error::Fatal;
use crate::shared::share;
use std::collections::HashMap;
use std::rc::Rc;
use vstd::prelude::*;
use vstd::string::{StrSliceExecFns, StringExecFns};

verus! {

broadcast use vstd::std_specs::hash::group_hash_axioms;

/// What one character map says: its id, the width of its codes in bytes, and
/// the text that each code stands for.
pub struct CharacterMapModel {
    pub id: u16,
    pub bytes_per: u16,
    pub chars: Map<u16, Seq<char>>,
}

/// What a decoder works with: UTF-8, or the character maps of a code page.
pub struct CharacterMapsModel {
    pub is_utf8: bool,
    pub maps: Seq<CharacterMapModel>,
}

/// The first of `maps` whose codes are `width` bytes wide.
pub open spec fn first_map(maps: Seq<CharacterMapModel>, width: u16) -> Option<CharacterMapModel>
    decreases maps.len(),
{
    if maps.len() == 0 {
        None
    } else if maps[0].bytes_per == width {
        Some(maps[0])
    } else {
        first_map(maps.skip(1), width)
    }
}

/// The text of `code` in the first map of the given width, if it has one.
pub open spec fn lookup(maps: Seq<CharacterMapModel>, width: u16, code: u16) -> Option<Seq<char>> {
    match first_map(maps, width) {
        Some(m) => if m.chars.contains_key(code) {
            Some(m.chars[code])
        } else {
            None
        },
        None => None,
    }
}

/// The text of one code, and how often it was asked for.
pub struct Character {
    unicode: String,
    count: u32,
}

/// One character map: its id, the width of its codes in bytes, and its
/// characters by code.
pub struct CharacterMap {
    id: u16,
    bytes_per: u16,
    chars: HashMap<u16, Character>,
}

/// The character maps of a code page, in the order of their file.
pub struct _CharacterMaps {
    maps: Vec<CharacterMap>,
}

/// A decoder of text: UTF-8, or the character maps of a code page. It is
/// cheap to copy: the copies share the maps.
pub struct CharacterMaps {
    is_utf8: bool,
    maps: Rc<_CharacterMaps>,
}

impl Character {
    /// The text of the code.
    pub closed spec fn view(&self) -> Seq<char> {
        self.unicode@
    }

    /// A character with the given text.
    pub fn new(unicode: String) -> (c: Character)
        ensures
            c@ == unicode@,
    {
        Character { unicode, count: 0 }
    }

    /// The text of the code.
    pub fn get_unicode(&self) -> (text: String)
        ensures
            text@ == self@,
    {
        self.unicode.clone()
    }
}

impl CharacterMap {
    /// What the map says.
    pub closed spec fn view(&self) -> CharacterMapModel {
        CharacterMapModel {
            id: self.id,
            bytes_per: self.bytes_per,
            chars: self.chars@.map_values(|c: Character| c@),
        }
    }

    /// A map without entries.
    pub fn empty(id: u16, bytes_per: u16) -> (m: CharacterMap)
        ensures
            m@ == (CharacterMapModel { id, bytes_per, chars: Map::empty() }),
    {
        let m = CharacterMap { id, bytes_per, chars: HashMap::new() };
        assert(m@.chars =~= Map::empty());
        m
    }

    /// Sets the text of `code`, in place of what it had.
    pub fn insert(&mut self, code: u16, character: Character)
        ensures
            final(self)@ == (CharacterMapModel {
                chars: old(self)@.chars.insert(code, character@),
                ..old(self)@
            }),
    {
        self.chars.insert(code, character);
        assert(self@.chars =~= old(self)@.chars.insert(code, character@));
    }

    /// The text of `ch` in this map, or `MissingCharacter`.
    pub fn get_unicode(&self, ch: u16) -> (r: Result<String, Fatal>)
        ensures
            match r {
                Ok(text) => self@.chars.contains_key(ch) && text@ == self@.chars[ch],
                Err(e) => e == Fatal::MissingCharacter && !self@.chars.contains_key(ch),
            },
    {
        match self.chars.get(&ch) {
            Some(c) => Ok(c.get_unicode()),
            None => Err(Fatal::MissingCharacter),
        }
    }
}

impl _CharacterMaps {
    /// What the maps say, in their order.
    pub closed spec fn view(&self) -> Seq<CharacterMapModel> {
        self.maps@.map_values(|m: CharacterMap| m@)
    }

    /// No maps.
    pub fn empty() -> (m: _CharacterMaps)
        ensures
            m@ == Seq::<CharacterMapModel>::empty(),
    {
        let m = _CharacterMaps { maps: Vec::<CharacterMap>::new() };
        assert(m@ =~= Seq::<CharacterMapModel>::empty());
        m
    }

    /// The given maps, in their order.
    pub fn new(maps: Vec<CharacterMap>) -> (m: _CharacterMaps)
        ensures
            m@ == maps@.map_values(|m: CharacterMap| m@),
    {
        _CharacterMaps { maps }
    }

    /// The text of `code` in the first map whose codes are `width` bytes wide.
    fn find(&self, width: u16, code: u16) -> (r: Result<String, Fatal>)
        ensures
            match r {
                Ok(text) => lookup(self@, width, code) == Some(text@),
                Err(e) => e == Fatal::MissingCharacter && lookup(self@, width, code) is None,
            },
    {
        let mut i: usize = 0;
        assert(self@.skip(0) =~= self@);
        while i < self.maps.len()
            invariant
                i <= self.maps.len(),
                first_map(self@, width) == first_map(self@.skip(i as int), width),
            decreases self.maps.len() - i,
        {
            let map = &self.maps[i];
            proof {
                assert(self@.skip(i as int)[0] == map@);
                assert(self@.skip(i as int).skip(1) =~= self@.skip(i + 1));
            }
            if map.bytes_per == width {
                return map.get_unicode(code);
            }
            i += 1;
        }
        Err(Fatal::MissingCharacter)
    }
}

impl Clone for CharacterMaps {
    fn clone(&self) -> (r: CharacterMaps)
        ensures
            r == *self,
    {
        CharacterMaps { is_utf8: self.is_utf8, maps: share(&self.maps) }
    }
}

impl CharacterMaps {
    /// What the decoder works with.
    pub closed spec fn view(&self) -> CharacterMapsModel {
        CharacterMapsModel { is_utf8: self.is_utf8, maps: self.maps@ }
    }

    /// Whether the text is UTF-8.
    pub fn is_utf8(&self) -> (r: bool)
        ensures
            r == self@.is_utf8,
    {
        self.is_utf8
    }

    /// The decoder for files whose text is UTF-8: it has no maps.
    pub fn utf8() -> (m: CharacterMaps)
        ensures
            m@ == (CharacterMapsModel { is_utf8: true, maps: Seq::empty() }),
    {
        CharacterMaps { is_utf8: true, maps: Rc::new(_CharacterMaps::empty()) }
    }

    /// The decoder for a code page with the given maps.
    pub fn new(maps: Vec<CharacterMap>) -> (m: CharacterMaps)
        ensures
            m@ == (CharacterMapsModel {
                is_utf8: false,
                maps: maps@.map_values(|m: CharacterMap| m@),
            }),
    {
        CharacterMaps { is_utf8: false, maps: Rc::new(_CharacterMaps::new(maps)) }
    }

    /// The text of a two-byte code: that of the first map with two-byte codes.
    pub fn decode_2bytes(&self, ch: u16) -> (r: Result<String, Fatal>)
        ensures
            match r {
                Ok(text) => lookup(self@.maps, 2, ch) == Some(text@),
                Err(e) => e == Fatal::MissingCharacter && lookup(self@.maps, 2, ch) is None,
            },
    {
        self.maps.find(2, ch)
    }

    /// The text of a one-byte code: that of the first map with one-byte codes.
    pub fn decode_byte(&self, ch: u8) -> (r: Result<String, Fatal>)
        ensures
            match r {
                Ok(text) => lookup(self@.maps, 1, ch as u16) == Some(text@),
                Err(e) => e == Fatal::MissingCharacter && lookup(self@.maps, 1, ch as u16) is None,
            },
    {
        self.maps.find(1, ch as u16)
    }
}


/// Why a file of character maps could not be read.
#[derive(PartialEq, Eq, Structural, Clone, Copy, Debug)]
pub enum MapError {
    /// The file is shorter than a byte-order mark can be looked for in.
    Truncated,
    /// An id, a width or a code is no number of 16 bits.
    BadNumber,
    /// A character stands before the first map.
    OrphanChar,
}

/// One attribute of an element: its local name and its value.
pub struct Attribute {
    pub name: String,
    pub value: String,
}

impl View for Attribute {
    type V = (Seq<char>, Seq<char>);

    open spec fn view(&self) -> (Seq<char>, Seq<char>) {
        (self.name@, self.value@)
    }
}

/// One item of an XML document, as far as the character maps need it: the
/// start of an element with its local name and its attributes, a failure of
/// the parser, or anything else.
pub enum XmlItem {
    Start { name: String, attributes: Vec<Attribute> },
    Failure,
    Other,
}

/// One item of an XML document, as plain values.
pub enum XmlItemModel {
    Start { name: Seq<char>, attributes: Seq<(Seq<char>, Seq<char>)> },
    Failure,
    Other,
}

impl View for XmlItem {
    type V = XmlItemModel;

    open spec fn view(&self) -> XmlItemModel {
        match *self {
            XmlItem::Start { name, attributes } => XmlItemModel::Start {
                name: name@,
                attributes: attributes@.map_values(|a: Attribute| a@),
            },
            XmlItem::Failure => XmlItemModel::Failure,
            XmlItem::Other => XmlItemModel::Other,
        }
    }
}

/// The items as what they hold, in their order.
pub open spec fn item_models(items: Seq<XmlItem>) -> Seq<XmlItemModel> {
    items.map_values(|i: XmlItem| i@)
}

/// The items that the XML parser makes of a document.
pub uninterp spec fn xml_items(bytes: Seq<u8>) -> Seq<XmlItemModel>;

/// The items of an XML document, in the order of the document, up to its
/// end or to the first failure.
///
/// Trusted: this runs `xml::reader::EventReader` over the bytes and maps each
/// event that its iterator yields to one item: the start of an element keeps
/// its local name and, of each attribute, the local name and the value; an
/// error becomes `Failure`, every other event `Other`. The parser reads nothing
/// but the bytes, so the items are a function of them. The iterator ends after
/// the end of the document or after the first error.
#[verifier::external_body]
fn parse_xml(bytes: &[u8]) -> (items: Vec<XmlItem>)
    ensures
        item_models(items@) == xml_items(bytes@),
{
    xml::reader::EventReader::new(bytes).into_iter().map(
        |e| match e {
            Ok(xml::reader::XmlEvent::StartElement { name, attributes, .. }) => XmlItem::Start {
                name: name.local_name,
                attributes: attributes.into_iter().map(
                    |a| Attribute { name: a.name.local_name, value: a.value },
                ).collect(),
            },
            Ok(_) => XmlItem::Other,
            Err(_) => XmlItem::Failure,
        },
    ).collect()
}

/// The value of a decimal digit: `None` for any other character.
pub open spec fn digit_value(c: char) -> Option<nat> {
    if 48 <= c as u32 <= 57 {
        Some((c as u32 - 48) as nat)
    } else {
        None
    }
}

/// The number that the digits from place `i` on add to `value`: `None`
/// where one of them is no digit, or the number does not fit 16 bits.
pub open spec fn digits_value(text: Seq<char>, i: int, value: nat) -> Option<nat>
    decreases text.len() - i,
{
    if i < 0 || i >= text.len() {
        Some(value)
    } else {
        match digit_value(text[i]) {
            None => None,
            Some(d) => if value * 10 + d > 65535 {
                None
            } else {
                digits_value(text, i + 1, value * 10 + d)
            },
        }
    }
}

/// A text as a number of 16 bits: decimal digits, at least one, with or
/// without a plus sign before them.
pub open spec fn parse_number(text: Seq<char>) -> Option<u16> {
    let start: int = if text.len() > 0 && text[0] == '+' {
        1
    } else {
        0
    };
    if text.len() <= start {
        None
    } else {
        match digits_value(text, start, 0) {
            Some(value) => Some(value as u16),
            None => None,
        }
    }
}

/// Reads a text as a number of 16 bits.
pub fn parse_u16(text: &str) -> (r: Option<u16>)
    ensures
        r == parse_number(text@),
{
    let n = text.unicode_len();
    let start: usize = if n > 0 && text.get_char(0) == '+' {
        1
    } else {
        0
    };
    if n <= start {
        return None;
    }
    let mut value: u32 = 0;
    let mut i: usize = start;
    while i < n
        invariant
            start <= i <= n,
            n == text@.len(),
            start < n,
            start == (if text@.len() > 0 && text@[0] == '+' {
                1int
            } else {
                0int
            }),
            value <= 65535,
            digits_value(text@, start as int, 0) == digits_value(text@, i as int, value as nat),
        decreases n - i,
    {
        let c = text.get_char(i) as u32;
        if c < 48 || c > 57 {
            return None;
        }
        let next = value * 10 + (c - 48);
        if next > 65535 {
            return None;
        }
        value = next;
        i += 1;
    }
    Some(value as u16)
}

/// The id and the width that the attributes from place `i` on give a map
/// that has `id` and `bytes_per` so far: `id` sets the one,
/// `bytesPerCharacter` the other, and the last of each counts.
pub open spec fn map_attributes(
    attributes: Seq<(Seq<char>, Seq<char>)>,
    i: int,
    id: u16,
    bytes_per: u16,
) -> Result<(u16, u16), MapError>
    decreases attributes.len() - i,
{
    if i < 0 || i >= attributes.len() {
        Ok((id, bytes_per))
    } else if attributes[i].0 == "id"@ {
        match parse_number(attributes[i].1) {
            None => Err(MapError::BadNumber),
            Some(n) => map_attributes(attributes, i + 1, n, bytes_per),
        }
    } else if attributes[i].0 == "bytesPerCharacter"@ {
        match parse_number(attributes[i].1) {
            None => Err(MapError::BadNumber),
            Some(n) => map_attributes(attributes, i + 1, id, n),
        }
    } else {
        map_attributes(attributes, i + 1, id, bytes_per)
    }
}

/// The code and the text that the attributes from place `i` on give a
/// character that has `value` and `unicode` so far: `value` sets the one,
/// `name` the other, and the last of each counts.
pub open spec fn char_attributes(
    attributes: Seq<(Seq<char>, Seq<char>)>,
    i: int,
    value: u16,
    unicode: Seq<char>,
) -> Result<(u16, Seq<char>), MapError>
    decreases attributes.len() - i,
{
    if i < 0 || i >= attributes.len() {
        Ok((value, unicode))
    } else if attributes[i].0 == "name"@ {
        char_attributes(attributes, i + 1, value, attributes[i].1)
    } else if attributes[i].0 == "value"@ {
        match parse_number(attributes[i].1) {
            None => Err(MapError::BadNumber),
            Some(n) => char_attributes(attributes, i + 1, n, unicode),
        }
    } else {
        char_attributes(attributes, i + 1, value, unicode)
    }
}

/// The maps that the items from place `i` on make of `maps`. An element
/// `characterMap` begins a map. An element `char` puts a character into the
/// map begun last, `OrphanChar` where there is none. Other items do nothing.
pub open spec fn build_maps(items: Seq<XmlItemModel>, i: int, maps: Seq<CharacterMapModel>) -> Result<
    Seq<CharacterMapModel>,
    MapError,
>
    decreases items.len() - i,
{
    if i < 0 || i >= items.len() {
        Ok(maps)
    } else {
        match items[i] {
            XmlItemModel::Start { name, attributes } => if name == "characterMap"@ {
                match map_attributes(attributes, 0, 0, 0) {
                    Err(e) => Err(e),
                    Ok((id, bytes_per)) => build_maps(
                        items,
                        i + 1,
                        maps.push(CharacterMapModel { id, bytes_per, chars: Map::empty() }),
                    ),
                }
            } else if name == "char"@ {
                match char_attributes(attributes, 0, 0, Seq::empty()) {
                    Err(e) => Err(e),
                    Ok((value, unicode)) => if maps.len() == 0 {
                        Err(MapError::OrphanChar)
                    } else {
                        build_maps(
                            items,
                            i + 1,
                            maps.update(
                                maps.len() - 1,
                                CharacterMapModel {
                                    chars: maps.last().chars.insert(value, unicode),
                                    ..maps.last()
                                },
                            ),
                        )
                    },
                }
            } else {
                build_maps(items, i + 1, maps)
            },
            _ => build_maps(items, i + 1, maps),
        }
    }
}

/// Where the document begins in the bytes of a file: behind a byte-order
/// mark of three bytes, where the file begins with 0xEF. `None` where the file
/// has fewer than four bytes.
pub open spec fn document_start(bytes: Seq<u8>) -> Option<int> {
    if bytes.len() < 4 {
        None
    } else if bytes[0] == 0xEF {
        Some(3)
    } else {
        Some(0)
    }
}

/// The character maps that a file holds.
pub open spec fn read_maps(bytes: Seq<u8>) -> Result<CharacterMapsModel, MapError> {
    match document_start(bytes) {
        None => Err(MapError::Truncated),
        Some(start) => match build_maps(
            xml_items(bytes.subrange(start, bytes.len() as int)),
            0,
            Seq::empty(),
        ) {
            Err(e) => Err(e),
            Ok(maps) => Ok(CharacterMapsModel { is_utf8: false, maps }),
        },
    }
}

impl Character {
    /// The code and the character that the attributes of an element `char`
    /// give.
    pub fn create_from_xml(attributes: &Vec<Attribute>) -> (r: Result<(u16, Character), MapError>)
        ensures
            match char_attributes(attributes@.map_values(|a: Attribute| a@), 0, 0, Seq::empty()) {
                Ok((value, unicode)) => r is Ok && r->Ok_0.0 == value && r->Ok_0.1@ == unicode,
                Err(e) => r == Err::<(u16, Character), MapError>(e),
            },
    {
        let name_key = "name".to_owned();
        let value_key = "value".to_owned();
        let mut unicode: String = String::new();
        let mut value: u16 = 0;
        let ghost models = attributes@.map_values(|a: Attribute| a@);
        let mut i: usize = 0;
        while i < attributes.len()
            invariant
                i <= attributes@.len(),
                models == attributes@.map_values(|a: Attribute| a@),
                name_key@ == "name"@,
                value_key@ == "value"@,
                char_attributes(models, 0, 0, Seq::empty()) == char_attributes(
                    models,
                    i as int,
                    value,
                    unicode@,
                ),
            decreases attributes@.len() - i,
        {
            let attr = &attributes[i];
            assert(models[i as int] == attr@);
            if attr.name == name_key {
                unicode = attr.value.clone();
            } else if attr.name == value_key {
                value = match parse_u16(attr.value.as_str()) {
                    Some(n) => n,
                    None => {
                        return Err(MapError::BadNumber);
                    },
                };
            }
            i += 1;
        }
        Ok((value, Character::new(unicode)))
    }
}

impl CharacterMap {
    /// The map, still without characters, that the attributes of an element
    /// `characterMap` give.
    pub fn new(attributes: &Vec<Attribute>) -> (r: Result<CharacterMap, MapError>)
        ensures
            match map_attributes(attributes@.map_values(|a: Attribute| a@), 0, 0, 0) {
                Ok((id, bytes_per)) => r is Ok && r->Ok_0@ == (CharacterMapModel {
                    id,
                    bytes_per,
                    chars: Map::empty(),
                }),
                Err(e) => r == Err::<CharacterMap, MapError>(e),
            },
    {
        let id_key = "id".to_owned();
        let width_key = "bytesPerCharacter".to_owned();
        let mut id: u16 = 0;
        let mut bytes_per: u16 = 0;
        let ghost models = attributes@.map_values(|a: Attribute| a@);
        let mut i: usize = 0;
        while i < attributes.len()
            invariant
                i <= attributes@.len(),
                models == attributes@.map_values(|a: Attribute| a@),
                id_key@ == "id"@,
                width_key@ == "bytesPerCharacter"@,
                map_attributes(models, 0, 0, 0) == map_attributes(models, i as int, id, bytes_per),
            decreases attributes@.len() - i,
        {
            let attr = &attributes[i];
            assert(models[i as int] == attr@);
            if attr.name == id_key {
                id = match parse_u16(attr.value.as_str()) {
                    Some(n) => n,
                    None => {
                        return Err(MapError::BadNumber);
                    },
                };
            } else if attr.name == width_key {
                bytes_per = match parse_u16(attr.value.as_str()) {
                    Some(n) => n,
                    None => {
                        return Err(MapError::BadNumber);
                    },
                };
            }
            i += 1;
        }
        Ok(CharacterMap::empty(id, bytes_per))
    }
}

impl CharacterMaps {
    /// The decoder that the items of a file of character maps give.
    pub fn from_items(items: &Vec<XmlItem>) -> (r: Result<CharacterMaps, MapError>)
        ensures
            match build_maps(item_models(items@), 0, Seq::empty()) {
                Ok(maps) => r is Ok && r->Ok_0@ == (CharacterMapsModel { is_utf8: false, maps }),
                Err(e) => r == Err::<CharacterMaps, MapError>(e),
            },
    {
        let map_tag = "characterMap".to_owned();
        let char_tag = "char".to_owned();
        let mut maps: Vec<CharacterMap> = Vec::new();
        let ghost models = item_models(items@);
        assert(maps@.map_values(|m: CharacterMap| m@) =~= Seq::<CharacterMapModel>::empty());
        let mut i: usize = 0;
        while i < items.len()
            invariant
                i <= items@.len(),
                models == item_models(items@),
                map_tag@ == "characterMap"@,
                char_tag@ == "char"@,
                build_maps(models, 0, Seq::empty()) == build_maps(
                    models,
                    i as int,
                    maps@.map_values(|m: CharacterMap| m@),
                ),
            decreases items@.len() - i,
        {
            assert(models[i as int] == items@[i as int]@);
            let ghost before = maps@.map_values(|m: CharacterMap| m@);
            match &items[i] {
                XmlItem::Start { name, attributes } => {
                    if *name == map_tag {
                        let map = CharacterMap::new(attributes)?;
                        let ghost model = map@;
                        maps.push(map);
                        assert(maps@.map_values(|m: CharacterMap| m@) =~= before.push(model));
                    } else if *name == char_tag {
                        let (value, char_def) = Character::create_from_xml(attributes)?;
                        match maps.pop() {
                            None => {
                                return Err(MapError::OrphanChar);
                            },
                            Some(last) => {
                                let mut last = last;
                                last.insert(value, char_def);
                                let ghost model = last@;
                                maps.push(last);
                                assert(maps@.map_values(|m: CharacterMap| m@) =~= before.update(
                                    before.len() - 1,
                                    model,
                                ));
                            },
                        }
                    }
                },
                _ => {},
            }
            i += 1;
        }
        Ok(CharacterMaps::new(maps))
    }
}

/// Where the document begins in the bytes of a file.
pub fn skip_bom(bytes: &[u8]) -> (r: Option<usize>)
    ensures
        match document_start(bytes@) {
            Some(start) => r == Some(start as usize),
            None => r is None,
        },
{
    if bytes.len() < 4 {
        return None;
    }
    if bytes[0] == 0xEF {
        Some(3)
    } else {
        Some(0)
    }
}

/// Reads the character maps from the bytes of their file.
pub fn read_character_file(bytes: &[u8]) -> (r: Result<CharacterMaps, MapError>)
    ensures
        match read_maps(bytes@) {
            Ok(maps) => r is Ok && r->Ok_0@ == maps,
            Err(e) => r == Err::<CharacterMaps, MapError>(e),
        },
{
    let start = match skip_bom(bytes) {
        Some(start) => start,
        None => {
            return Err(MapError::Truncated);
        },
    };
    let items = parse_xml(vstd::slice::slice_subrange(bytes, start, bytes.len()));
    CharacterMaps::from_items(&items)
}

} // verus!
