//! The value model and the store snapshot.
//!
//! A raw store entry is a `(name, bytes)` pair.  The raw name embeds the
//! value's kind as its second-to-last underscore-delimited token; the bytes
//! are a little-endian binary image of the value.  Decoding is fail-soft: a
//! byte blob of the wrong length yields a kind-appropriate default instead of
//! an error.  Floating-point payloads are carried as their IEEE 754 bit
//! patterns, so the codec itself is exact.

use crate::strutil::all_hex_digits;
use crate::strutil::char_from_u32;
use crate::strutil::contains_seq;
use crate::strutil::contains_str;
use crate::strutil::find_last;
use crate::strutil::fmt_hex_u32;
use crate::strutil::hex_text;
use crate::strutil::hex_val;
use crate::strutil::last_idx_of;
use crate::strutil::lemma_hex_text_val;
use crate::strutil::parse_hex_u32;
use crate::strutil::push_char;
use vstd::bytes::lemma_auto_spec_u32_to_from_le_bytes;
use vstd::bytes::lemma_auto_spec_u64_to_from_le_bytes;
use vstd::bytes::spec_u32_from_le_bytes;
use vstd::bytes::spec_u32_to_le_bytes;
use vstd::bytes::spec_u64_from_le_bytes;
use vstd::bytes::spec_u64_to_le_bytes;
use vstd::bytes::u32_from_le_bytes;
use vstd::bytes::u32_to_le_bytes;
use vstd::bytes::u64_from_le_bytes;
use vstd::bytes::u64_to_le_bytes;
use vstd::prelude::*;
use vstd::string::StrSliceExecFns;
use vstd::string::StringExecFns;
use vstd::utf8::decode_utf8;
use vstd::utf8::encode_utf8;
use vstd::utf8::encode_utf8_decode_utf8;
use vstd::utf8::encode_utf8_valid_utf8;
use vstd::utf8::valid_utf8;

verus! {

broadcast use vstd::string::group_string_axioms;

/// Errors of the codec.  A malformed raw name is the only failure of the
/// binary decode direction; the others arise when parsing text records.
#[derive(Debug, Clone, Copy, PartialEq, Eq, Structural)]
pub enum DecodeError {
    /// A raw store name with fewer than two underscore-delimited tokens.
    MalformedRawName,
    /// A text record whose declared kind is not one of the seven.
    UnknownTextKind,
    /// A text record whose value's shape does not match its declared kind.
    TypeMismatch,
    /// A `key` text value that is empty or whose escape does not parse.
    InvalidKeyEncoding,
    /// A `color` record whose name does not end in a channel letter.
    InvalidColorName,
}

#[derive(Debug, Clone, Copy)]
pub struct Int(pub i32);

/// A double-precision value, stored as its IEEE 754 bit pattern.
#[derive(Debug, Clone, Copy)]
pub struct Float(pub u64);

#[derive(Debug, Clone, Copy)]
pub struct Bool(pub bool);

#[derive(Debug, Clone, Copy)]
pub struct Axis(pub i32);

/// One channel of a four-channel color: channel index (R=0, G=1, B=2, A=3)
/// and the channel value's IEEE 754 bit pattern.
#[derive(Debug, Clone, Copy)]
pub struct Color(pub i32, pub u64);

/// A single Unicode code point representing a keybinding.
#[derive(Debug, Clone, Copy)]
pub struct Key(pub i32);

#[derive(Debug)]
pub struct Str(pub String);

/// The closed set of typed setting values.
#[derive(Debug)]
pub enum BattlebitType {
    Int(Int),
    Float(Float),
    Bool(Bool),
    Axis(Axis),
    Color(Color),
    Key(Key),
    Str(Str),
}

/// Mathematical image of a setting value.
pub enum ValueView {
    Int(int),
    Float(u64),
    Bool(bool),
    Axis(int),
    Color(int, u64),
    Key(int),
    Str(Seq<char>),
}

impl View for BattlebitType {
    type V = ValueView;

    open spec fn view(&self) -> ValueView {
        match self {
            BattlebitType::Int(v) => ValueView::Int(v.0 as int),
            BattlebitType::Float(v) => ValueView::Float(v.0),
            BattlebitType::Bool(v) => ValueView::Bool(v.0),
            BattlebitType::Axis(v) => ValueView::Axis(v.0 as int),
            BattlebitType::Color(v) => ValueView::Color(v.0 as int, v.1),
            BattlebitType::Key(v) => ValueView::Key(v.0 as int),
            BattlebitType::Str(v) => ValueView::Str(v.0@),
        }
    }
}

/// The kind tag written into text records for each kind of value.
pub open spec fn kind_tag(v: ValueView) -> Seq<char> {
    match v {
        ValueView::Int(_) => "int"@,
        ValueView::Float(_) => "float"@,
        ValueView::Bool(_) => "bool"@,
        ValueView::Axis(_) => "axis"@,
        ValueView::Color(_, _) => "color"@,
        ValueView::Key(_) => "key"@,
        ValueView::Str(_) => "str"@,
    }
}

// ---------------------------------------------------------------------------
// Binary layout
// ---------------------------------------------------------------------------
/// Signed 32-bit value of a 4-byte little-endian blob, defaulting to zero on
/// any other length.
pub open spec fn dec_i32(bytes: Seq<u8>) -> int {
    if bytes.len() == 4 {
        spec_u32_from_le_bytes(bytes) as i32 as int
    } else {
        0
    }
}

/// Bit pattern held by an 8-byte little-endian blob, defaulting to zero on
/// any other length.
pub open spec fn dec_bits(bytes: Seq<u8>) -> u64 {
    if bytes.len() == 8 {
        spec_u64_from_le_bytes(bytes)
    } else {
        0
    }
}

/// Truth value of a single byte compared to one, defaulting to false on any
/// other length.
pub open spec fn dec_bool(bytes: Seq<u8>) -> bool {
    if bytes.len() == 1 {
        bytes[0] == 1
    } else {
        false
    }
}

/// Characters of a UTF-8 blob, defaulting to the empty string when the bytes
/// are not valid UTF-8.
pub open spec fn dec_str(bytes: Seq<u8>) -> Seq<char> {
    if valid_utf8(bytes) {
        decode_utf8(bytes)
    } else {
        Seq::<char>::empty()
    }
}

/// Binary image of a setting value: 4-byte little-endian for the integer
/// kinds, 8-byte little-endian bit patterns for the floating kinds, one byte
/// for booleans, UTF-8 for strings.
pub open spec fn spec_encode_bin(v: ValueView) -> Seq<u8> {
    match v {
        ValueView::Int(i) => spec_u32_to_le_bytes(i as u32),
        ValueView::Float(b) => spec_u64_to_le_bytes(b),
        ValueView::Bool(b) => seq![
            if b {
                1u8
            } else {
                0u8
            },
        ],
        ValueView::Axis(i) => spec_u32_to_le_bytes(i as u32),
        ValueView::Color(_, b) => spec_u64_to_le_bytes(b),
        ValueView::Key(i) => spec_u32_to_le_bytes(i as u32),
        ValueView::Str(s) => encode_utf8(s),
    }
}

/// Value decoded from a kind tag and a binary blob; an unrecognized tag
/// falls back to a string value.
pub open spec fn spec_decode_value(typ: Seq<char>, bytes: Seq<u8>) -> ValueView {
    if typ == "int"@ {
        ValueView::Int(dec_i32(bytes))
    } else if typ == "float"@ {
        ValueView::Float(dec_bits(bytes))
    } else if typ == "bool"@ {
        ValueView::Bool(dec_bool(bytes))
    } else if typ == "axis"@ {
        ValueView::Axis(dec_i32(bytes))
    } else if typ == "key"@ {
        ValueView::Key(dec_i32(bytes))
    } else if typ == "r"@ {
        ValueView::Color(0, dec_bits(bytes))
    } else if typ == "g"@ {
        ValueView::Color(1, dec_bits(bytes))
    } else if typ == "b"@ {
        ValueView::Color(2, dec_bits(bytes))
    } else if typ == "a"@ {
        ValueView::Color(3, dec_bits(bytes))
    } else {
        ValueView::Str(dec_str(bytes))
    }
}

/// `s` begins with `prefix`.
pub open spec fn starts_with(s: Seq<char>, prefix: Seq<char>) -> bool {
    s.len() >= prefix.len() && s.subrange(0, prefix.len() as int) == prefix
}

/// Logical name gained by a decoded entry: the suffixed kinds keep an
/// explicit kind marker so they never collide with a like-named entry of
/// another kind; an unrecognized tag keeps the whole raw name.
pub open spec fn spec_decoded_name(key: Seq<char>, name: Seq<char>, typ: Seq<char>) -> Seq<
    char,
> {
    if typ == "axis"@ {
        name + "_axis"@
    } else if typ == "key"@ {
        name + "_key"@
    } else if typ == "r"@ || typ == "g"@ || typ == "b"@ || typ == "a"@ {
        name + "_"@ + typ
    } else if typ == "int"@ || typ == "float"@ || typ == "bool"@ {
        name
    } else {
        key
    }
}

/// Decode of a raw store entry: split the raw name, take the second-to-last
/// token as the kind tag, dispatch on it, and derive the logical name.  A
/// tag opening with the platform-UI prefix always carries an integer.  With
/// exactly two tokens the logical name is empty; a raw name without any
/// underscore cannot be split and is rejected.
pub open spec fn spec_from_reg(key: Seq<char>, bytes: Seq<u8>) -> Option<(Seq<char>, ValueView)> {
    let p2 = last_idx_of(key, '_');
    if p2 < 0 {
        None
    } else {
        let p1 = last_idx_of(key.subrange(0, p2), '_');
        let name = if p1 >= 0 {
            key.subrange(0, p1)
        } else {
            Seq::<char>::empty()
        };
        let typ = key.subrange(p1 + 1, p2);
        if starts_with(typ, "Screenmanager"@) {
            Some((name, ValueView::Int(dec_i32(bytes))))
        } else {
            Some((spec_decoded_name(key, name, typ), spec_decode_value(typ, bytes)))
        }
    }
}

impl BattlebitType {
    /// Kind tag of this value, as written into text records.
    pub fn to_reg_type_str(&self) -> (r: &'static str)
        ensures
            r@ == kind_tag(self@),
    {
        match self {
            BattlebitType::Int(_) => "int",
            BattlebitType::Float(_) => "float",
            BattlebitType::Bool(_) => "bool",
            BattlebitType::Axis(_) => "axis",
            BattlebitType::Color(_) => "color",
            BattlebitType::Key(_) => "key",
            BattlebitType::Str(_) => "str",
        }
    }

    /// Binary image of this value, together with the store's layout hint:
    /// everything numeric is written as a double-word image, strings as raw
    /// binary.
    pub fn to_reg_value(&self) -> (r: RegData)
        ensures
            r.bytes@ == spec_encode_bin(self@),
            r.dword <==> !(self@ is Str),
    {
        match self {
            BattlebitType::Int(v) => RegData { bytes: u32_to_le_bytes(v.0 as u32), dword: true },
            BattlebitType::Float(v) => RegData { bytes: u64_to_le_bytes(v.0), dword: true },
            BattlebitType::Bool(v) => {
                let mut b: Vec<u8> = Vec::new();
                b.push(
                    if v.0 {
                        1
                    } else {
                        0
                    },
                );
                assert(b@ =~= spec_encode_bin(ValueView::Bool(v.0)));
                RegData { bytes: b, dword: true }
            },
            BattlebitType::Axis(v) => RegData { bytes: u32_to_le_bytes(v.0 as u32), dword: true },
            BattlebitType::Color(v) => RegData { bytes: u64_to_le_bytes(v.1), dword: true },
            BattlebitType::Key(v) => RegData { bytes: u32_to_le_bytes(v.0 as u32), dword: true },
            BattlebitType::Str(v) => {
                let b = vstd::slice::slice_to_vec(v.0.as_str().as_bytes());
                RegData { bytes: b, dword: false }
            },
        }
    }

    /// Decode one raw store entry into its logical name and typed value.
    pub fn from_reg(key: &str, bytes: &[u8]) -> (r: Result<(String, BattlebitType), DecodeError>)
        ensures
            match r {
                Ok((name, value)) => spec_from_reg(key@, bytes@) == Some((name@, value@)),
                Err(e) => spec_from_reg(key@, bytes@) is None && e == DecodeError::MalformedRawName,
            },
    {
        let p2 = match find_last(key, '_') {
            Some(p) => p,
            None => {
                return Err(DecodeError::MalformedRawName);
            },
        };
        proof {
            crate::strutil::lemma_last_idx_of(key@, '_');
        }
        let prefix = key.substring_char(0, p2);
        proof {
            crate::strutil::lemma_last_idx_of(prefix@, '_');
        }
        let (name_end, typ_start) = match find_last(prefix, '_') {
            Some(p) => (p, p + 1),
            None => (0usize, 0usize),
        };
        let name = String::from_str(key.substring_char(0, name_end));
        let typ = key.substring_char(typ_start, p2);
        let ghost namev = name@;
        let ghost typv = typ@;
        proof {
            lemma_tags_distinct();
            reveal_strlit("_");
            assert("_"@.len() == 1 && "_"@[0] == '_');
        }

        // Platform-UI prefixed tags always carry integers.
        let is_screen = if typ.unicode_len() >= 13 {
            let head = typ.substring_char(0, 13);
            proof {
                reveal_strlit("Screenmanager");
            }
            crate::strutil::str_eq(head, "Screenmanager")
        } else {
            proof {
                reveal_strlit("Screenmanager");
            }
            false
        };
        if is_screen {
            return Ok((name, BattlebitType::Int(Int(dec_i32_exec(bytes)))));
        }
        assert(!starts_with(typv, "Screenmanager"@));

        if crate::strutil::str_eq(typ, "int") {
            Ok((name, BattlebitType::Int(Int(dec_i32_exec(bytes)))))
        } else if crate::strutil::str_eq(typ, "float") {
            Ok((name, BattlebitType::Float(Float(dec_bits_exec(bytes)))))
        } else if crate::strutil::str_eq(typ, "bool") {
            let b = bytes.len() == 1 && *vstd::slice::slice_index_get(bytes, 0) == 1;
            Ok((name, BattlebitType::Bool(Bool(b))))
        } else if crate::strutil::str_eq(typ, "axis") {
            let n = name.concat("_axis");
            assert(n@ == spec_decoded_name(key@, namev, typv));
            Ok((n, BattlebitType::Axis(Axis(dec_i32_exec(bytes)))))
        } else if crate::strutil::str_eq(typ, "key") {
            let n = name.concat("_key");
            Ok((n, BattlebitType::Key(Key(dec_i32_exec(bytes)))))
        } else if crate::strutil::str_eq(typ, "r") {
            let n = name.concat("_r");
            proof {
                reveal_strlit("_r");
                assert("_r"@.len() == 2 && "_r"@[0] == '_' && "_r"@[1] == 'r');
                assert(namev + "_r"@ =~= namev + "_"@ + typv);
            }
            Ok((n, BattlebitType::Color(Color(0, dec_bits_exec(bytes)))))
        } else if crate::strutil::str_eq(typ, "g") {
            let n = name.concat("_g");
            proof {
                reveal_strlit("_g");
                assert("_g"@.len() == 2 && "_g"@[0] == '_' && "_g"@[1] == 'g');
                assert(namev + "_g"@ =~= namev + "_"@ + typv);
            }
            Ok((n, BattlebitType::Color(Color(1, dec_bits_exec(bytes)))))
        } else if crate::strutil::str_eq(typ, "b") {
            let n = name.concat("_b");
            proof {
                reveal_strlit("_b");
                assert("_b"@.len() == 2 && "_b"@[0] == '_' && "_b"@[1] == 'b');
                assert(namev + "_b"@ =~= namev + "_"@ + typv);
            }
            Ok((n, BattlebitType::Color(Color(2, dec_bits_exec(bytes)))))
        } else if crate::strutil::str_eq(typ, "a") {
            let n = name.concat("_a");
            proof {
                reveal_strlit("_a");
                assert("_a"@.len() == 2 && "_a"@[0] == '_' && "_a"@[1] == 'a');
                assert(namev + "_a"@ =~= namev + "_"@ + typv);
            }
            Ok((n, BattlebitType::Color(Color(3, dec_bits_exec(bytes)))))
        } else {
            let full = String::from_str(key);
            let s = match crate::strutil::utf8_to_string(vstd::slice::slice_to_vec(bytes)) {
                Some(s) => s,
                None => String::new(),
            };
            Ok((full, BattlebitType::Str(Str(s))))
        }
    }
}

/// Binary image plus the store's layout hint for one value.
pub struct RegData {
    pub bytes: Vec<u8>,
    /// True when the store should record this as a double-word value.
    pub dword: bool,
}

/// Signed 32-bit decode with the fail-soft default.
pub fn dec_i32_exec(bytes: &[u8]) -> (r: i32)
    ensures
        r as int == dec_i32(bytes@),
{
    if bytes.len() == 4 {
        u32_from_le_bytes(bytes) as i32
    } else {
        0
    }
}

/// Bit-pattern decode with the fail-soft default.
pub fn dec_bits_exec(bytes: &[u8]) -> (r: u64)
    ensures
        r == dec_bits(bytes@),
{
    if bytes.len() == 8 {
        u64_from_le_bytes(bytes)
    } else {
        0
    }
}

// ---------------------------------------------------------------------------
// Round trip of the binary codec
// ---------------------------------------------------------------------------
/// Binary kind tag under which a value of this kind is stored.
pub open spec fn bin_tag_of(v: ValueView) -> Seq<char> {
    match v {
        ValueView::Int(_) => "int"@,
        ValueView::Float(_) => "float"@,
        ValueView::Bool(_) => "bool"@,
        ValueView::Axis(_) => "axis"@,
        ValueView::Key(_) => "key"@,
        ValueView::Color(ch, _) => if ch == 0 {
            "r"@
        } else if ch == 1 {
            "g"@
        } else if ch == 2 {
            "b"@
        } else {
            "a"@
        },
        ValueView::Str(_) => "str"@,
    }
}

/// The payload of each integer-like kind fits a signed 32-bit value.
pub open spec fn value_in_range(v: ValueView) -> bool {
    match v {
        ValueView::Int(i) => i32::MIN <= i <= i32::MAX,
        ValueView::Axis(i) => i32::MIN <= i <= i32::MAX,
        ValueView::Key(i) => i32::MIN <= i <= i32::MAX,
        ValueView::Color(ch, _) => 0 <= ch <= 3,
        _ => true,
    }
}


/// Lengths and first characters of the kind-tag literals, enough to tell any
/// two of them apart.
pub proof fn lemma_tags_distinct()
    ensures
        "int"@.len() == 3 && "int"@[0] == 'i',
        "float"@.len() == 5 && "float"@[0] == 'f',
        "bool"@.len() == 4 && "bool"@[0] == 'b',
        "axis"@.len() == 4 && "axis"@[0] == 'a',
        "key"@.len() == 3 && "key"@[0] == 'k',
        "r"@.len() == 1 && "r"@[0] == 'r',
        "g"@.len() == 1 && "g"@[0] == 'g',
        "b"@.len() == 1 && "b"@[0] == 'b',
        "a"@.len() == 1 && "a"@[0] == 'a',
        "str"@.len() == 3 && "str"@[0] == 's',
        "color"@.len() == 5 && "color"@[0] == 'c',
{
    reveal_strlit("int");
    reveal_strlit("float");
    reveal_strlit("bool");
    reveal_strlit("axis");
    reveal_strlit("key");
    reveal_strlit("r");
    reveal_strlit("g");
    reveal_strlit("b");
    reveal_strlit("a");
    reveal_strlit("str");
    reveal_strlit("color");
}

/// Decoding a value's binary image under its own kind tag restores the value
/// exactly, for every kind.
pub proof fn lemma_binary_round_trip(v: ValueView)
    requires
        value_in_range(v),
    ensures
        spec_decode_value(bin_tag_of(v), spec_encode_bin(v)) == v,
{
    lemma_tags_distinct();
    lemma_auto_spec_u32_to_from_le_bytes();
    lemma_auto_spec_u64_to_from_le_bytes();
    match v {
        ValueView::Int(i) => {
            lemma_i32_u32_round_trip(i);
        },
        ValueView::Axis(i) => {
            lemma_i32_u32_round_trip(i);
        },
        ValueView::Key(i) => {
            lemma_i32_u32_round_trip(i);
        },
        ValueView::Str(s) => {
            encode_utf8_valid_utf8(s);
            encode_utf8_decode_utf8(s);
        },
        _ => {},
    }
}

/// Casting a signed 32-bit quantity to unsigned and back is the identity.
pub proof fn lemma_i32_u32_round_trip(i: int)
    requires
        i32::MIN <= i <= i32::MAX,
    ensures
        (i as u32) as i32 == i,
{
    let x: i32 = i as i32;
    assert((x as u32) as i32 == x) by (bit_vector);
    assert(i as u32 == x as u32);
}


// ---------------------------------------------------------------------------
// Key text form
// ---------------------------------------------------------------------------
/// The code point is one a character can carry: non-negative, not a
/// surrogate, and at most `0x10FFFF`.
pub open spec fn key_text_ok(k: int) -> bool {
    0 <= k && (k < 0xD800 || (0xE000 <= k && k <= 0x10FFFF))
}

/// Text form of a key: printable ASCII renders as the literal character,
/// anything else as a backslash-u escape in lowercase hexadecimal.
pub open spec fn key_text_matches(k: int, s: Seq<char>) -> bool {
    if 0x20 <= k <= 0x7E {
        s.len() == 1 && s[0] as u32 == k
    } else {
        s == seq!['\\', 'u'] + hex_text(k)
    }
}

/// Code point denoted by a key text value: a backslash-u escape is read as
/// hexadecimal and must denote a valid character; anything else denotes its
/// first character; the empty text denotes nothing.
pub open spec fn spec_key_of_text(s: Seq<char>) -> Option<int> {
    if s.len() >= 2 && s[0] == '\\' && s[1] == 'u' {
        let h = s.subrange(2, s.len() as int);
        if h.len() > 0 && all_hex_digits(h) && hex_val(h) <= u32::MAX && key_text_ok(hex_val(h)) {
            Some(hex_val(h))
        } else {
            None
        }
    } else if s.len() > 0 {
        Some(s[0] as u32 as int)
    } else {
        None
    }
}

impl Key {
    /// Render this key's code point as text, checking that the code point is
    /// a valid character instead of assuming it.
    pub fn to_key_ascii(&self) -> (r: Result<String, DecodeError>)
        ensures
            r matches Ok(s) ==> key_text_ok(self.0 as int) && key_text_matches(
                self.0 as int,
                s@,
            ),
            r is Err ==> !key_text_ok(self.0 as int) && r == Err::<String, DecodeError>(
                DecodeError::InvalidKeyEncoding,
            ),
    {
        if self.0 < 0 {
            return Err(DecodeError::InvalidKeyEncoding);
        }
        let u = self.0 as u32;
        match char_from_u32(u) {
            None => Err(DecodeError::InvalidKeyEncoding),
            Some(c) => {
                let mut s = String::new();
                if 0x20 <= u && u <= 0x7E {
                    push_char(&mut s, c);
                    assert(s@.len() == 1 && s@[0] as u32 == self.0 as int);
                } else {
                    push_char(&mut s, '\\');
                    push_char(&mut s, 'u');
                    fmt_hex_u32(u, &mut s);
                    assert(s@ =~= seq!['\\', 'u'] + hex_text(u as int));
                }
                Ok(s)
            },
        }
    }

    /// Read a key text value back into a code point.
    pub fn from_key_ascii(key: &str) -> (r: Result<Key, DecodeError>)
        ensures
            r matches Ok(k) ==> spec_key_of_text(key@) == Some(k.0 as int),
            r is Err ==> spec_key_of_text(key@) is None && r == Err::<Key, DecodeError>(
                DecodeError::InvalidKeyEncoding,
            ),
    {
        let n = key.unicode_len();
        let is_escape = if n >= 2 {
            key.get_char(0) == '\\' && key.get_char(1) == 'u'
        } else {
            false
        };
        if is_escape {
            let hexs = key.substring_char(2, n);
            match parse_hex_u32(hexs) {
                None => Err(DecodeError::InvalidKeyEncoding),
                Some(v) => match char_from_u32(v) {
                    None => Err(DecodeError::InvalidKeyEncoding),
                    Some(_) => Ok(Key(v as i32)),
                },
            }
        } else if n > 0 {
            let c = key.get_char(0);
            Ok(Key((c as u32) as i32))
        } else {
            Err(DecodeError::InvalidKeyEncoding)
        }
    }
}

/// Rendering a valid key code point and reading the text back restores the
/// code point, for the literal and the escaped form alike.
pub proof fn lemma_key_text_round_trip(k: int, s: Seq<char>)
    requires
        key_text_ok(k),
        key_text_matches(k, s),
    ensures
        spec_key_of_text(s) == Some(k),
{
    if 0x20 <= k <= 0x7E {
    } else {
        lemma_hex_text_val(k);
        assert(s[0] == '\\' && s[1] == 'u');
        assert(s.subrange(2, s.len() as int) =~= hex_text(k));
    }
}

// ---------------------------------------------------------------------------
// The store snapshot
// ---------------------------------------------------------------------------
/// Association-list image as a map from logical name to value; a later entry
/// overrides an earlier one of the same name.
pub open spec fn assoc_map(s: Seq<(String, BattlebitType)>) -> Map<Seq<char>, ValueView>
    decreases s.len(),
{
    if s.len() == 0 {
        Map::<Seq<char>, ValueView>::empty()
    } else {
        assoc_map(s.drop_last()).insert(s.last().0@, s.last().1@)
    }
}

/// No two entries share a name.
pub open spec fn unique_names(s: Seq<(String, BattlebitType)>) -> bool {
    forall|i: int, j: int|
        0 <= i < j < s.len() ==> (#[trigger] s[i]).0@ != (#[trigger] s[j]).0@
}

pub proof fn lemma_assoc_map_props(s: Seq<(String, BattlebitType)>)
    ensures
        forall|k: Seq<char>|
            #[trigger] assoc_map(s).dom().contains(k) <==> exists|i: int|
                0 <= i < s.len() && (#[trigger] s[i]).0@ == k,
        unique_names(s) ==> forall|i: int|
            0 <= i < s.len() ==> assoc_map(s)[(#[trigger] s[i]).0@] == s[i].1@,
    decreases s.len(),
{
    if s.len() > 0 {
        lemma_assoc_map_props(s.drop_last());
        assert(forall|i: int| 0 <= i < s.len() - 1 ==> #[trigger] s.drop_last()[i] == s[i]);
        assert forall|k: Seq<char>| #[trigger]
            assoc_map(s).dom().contains(k) implies exists|i: int|
            0 <= i < s.len() && (#[trigger] s[i]).0@ == k by {
            if k == s.last().0@ {
                assert((s[s.len() - 1]).0@ == k);
            } else {
                assert(assoc_map(s.drop_last()).dom().contains(k));
                let i = choose|i: int|
                    0 <= i < s.drop_last().len() && (#[trigger] s.drop_last()[i]).0@ == k;
                assert((s[i]).0@ == k);
            }
        }
        assert forall|k: Seq<char>|
            (exists|i: int| 0 <= i < s.len() && (#[trigger] s[i]).0@ == k) implies #[trigger]
            assoc_map(s).dom().contains(k) by {
            let i = choose|i: int| 0 <= i < s.len() && (#[trigger] s[i]).0@ == k;
            if i < s.len() - 1 {
                assert((s.drop_last()[i]).0@ == k);
                assert(assoc_map(s.drop_last()).dom().contains(k));
            }
        }
        if unique_names(s) {
            assert(unique_names(s.drop_last()));
            assert forall|i: int| 0 <= i < s.len() implies assoc_map(s)[(#[trigger] s[i]).0@]
                == s[i].1@ by {
                if i < s.len() - 1 {
                    assert(s[i].0@ != s.last().0@);
                    assert(assoc_map(s.drop_last())[s.drop_last()[i].0@] == s.drop_last()[i].1@);
                }
            }
        }
    }
}

/// Insert or overwrite one entry of an association list, preserving name
/// uniqueness.
pub fn map_insert(v: &mut Vec<(String, BattlebitType)>, name: String, value: BattlebitType)
    requires
        unique_names(old(v)@),
    ensures
        unique_names(final(v)@),
        assoc_map(final(v)@) == assoc_map(old(v)@).insert(name@, value@),
{
    let n = v.len();
    let mut i: usize = 0;
    while i < n
        invariant
            i <= n,
            n == v@.len(),
            v@ == old(v)@,
            unique_names(v@),
            forall|k: int| 0 <= k < i ==> (#[trigger] v@[k]).0@ != name@,
        decreases n - i,
    {
        if crate::strutil::str_eq(v[i].0.as_str(), name.as_str()) {
            let _ = v.remove(i);
            v.insert(i, (name, value));
            proof {
                let s_old = old(v)@;
                let s_new = v@;
                assert(s_new =~= s_old.update(i as int, (s_new[i as int].0, s_new[i as int].1)));
                assert(forall|k: int|
                    0 <= k < s_old.len() && k != i ==> #[trigger] s_new[k] == s_old[k]);
                assert(s_new[i as int].0@ == s_old[i as int].0@);
                assert(unique_names(s_new));
                lemma_assoc_map_props(s_old);
                lemma_assoc_map_props(s_new);
                assert(assoc_map(s_new) =~= assoc_map(s_old).insert(name@, value@)) by {
                    let ml = assoc_map(s_new);
                    let mr = assoc_map(s_old).insert(name@, value@);
                    assert forall|k: Seq<char>| #[trigger]
                        ml.dom().contains(k) implies mr.dom().contains(k) by {
                        let j = choose|j: int|
                            0 <= j < s_new.len() && (#[trigger] s_new[j]).0@ == k;
                        if j != i {
                            assert((s_old[j]).0@ == k);
                        }
                    }
                    assert forall|k: Seq<char>| #[trigger]
                        mr.dom().contains(k) implies ml.dom().contains(k) by {
                        if k == name@ {
                            assert((s_new[i as int]).0@ == k);
                        } else {
                            let j = choose|j: int|
                                0 <= j < s_old.len() && (#[trigger] s_old[j]).0@ == k;
                            assert((s_new[j]).0@ == k);
                        }
                    }
                    assert forall|k: Seq<char>| #[trigger]
                        ml.dom().contains(k) implies ml[k] == mr[k] by {
                        let j = choose|j: int| 0 <= j < s_new.len() && (#[trigger] s_new[j]).0@
                            == k;
                        if k == name@ {
                            assert(j == i);
                            assert(ml[k] == value@);
                        } else {
                            assert(j != i);
                            assert(s_old[j].0@ == k);
                            assert(mr[k] == assoc_map(s_old)[k]);
                        }
                    }
                }
            }
            return ;
        }
        i = i + 1;
    }
    let ghost s_old = v@;
    v.push((name, value));
    proof {
        assert(v@.drop_last() =~= s_old);
        assert(unique_names(v@));
    }
}

/// Image of loading a full store enumeration: entries with an empty name or
/// an unsplittable raw name are skipped, the rest are decoded and entered
/// under their logical names, later entries overriding earlier ones.
pub open spec fn spec_load_map(entries: Seq<(String, Vec<u8>)>) -> Map<Seq<char>, ValueView>
    decreases entries.len(),
{
    if entries.len() == 0 {
        Map::<Seq<char>, ValueView>::empty()
    } else {
        let m = spec_load_map(entries.drop_last());
        let e = entries.last();
        if e.0@.len() > 0 {
            match spec_from_reg(e.0@, e.1@) {
                Some((name, value)) => m.insert(name, value),
                None => m,
            }
        } else {
            m
        }
    }
}

/// An in-memory image of the platform store: every raw name observed at load
/// time, the decoded current state, and the pending-write overlay.
pub struct State {
    /// Every raw name observed at load time, in enumeration order.
    pub original_registry_keys: Vec<String>,
    /// The decoded current state, keyed by logical name.
    pub registry: Vec<(String, BattlebitType)>,
    /// Entries staged for write-back, keyed by resolved raw name.
    pub updated_registry: Vec<(String, BattlebitType)>,
}

impl State {
    /// Both association lists keep their names unique.
    pub open spec fn wf(&self) -> bool {
        unique_names(self.registry@) && unique_names(self.updated_registry@)
    }

    /// Build a snapshot from a full store enumeration.
    pub fn new(entries: Vec<(String, Vec<u8>)>) -> (r: State)
        ensures
            r.wf(),
            r.original_registry_keys@.len() == entries@.len(),
            forall|i: int|
                0 <= i < entries@.len() ==> (#[trigger] r.original_registry_keys@[i])@ == (
                entries@[i]).0@,
            assoc_map(r.registry@) == spec_load_map(entries@),
            r.updated_registry@.len() == 0,
    {
        let n = entries.len();
        let mut originals: Vec<String> = Vec::new();
        let mut registry: Vec<(String, BattlebitType)> = Vec::new();
        let mut i: usize = 0;
        proof {
            assert(entries@.subrange(0, 0) =~= Seq::<(String, Vec<u8>)>::empty());
        }
        while i < n
            invariant
                i <= n,
                n == entries@.len(),
                originals@.len() == i,
                forall|k: int|
                    0 <= k < i ==> (#[trigger] originals@[k])@ == (entries@[k]).0@,
                unique_names(registry@),
                assoc_map(registry@) == spec_load_map(entries@.subrange(0, i as int)),
            decreases n - i,
        {
            let name = &entries[i].0;
            originals.push(name.clone());
            let ghost before = registry@;
            if name.as_str().unicode_len() > 0 {
                match BattlebitType::from_reg(name.as_str(), entries[i].1.as_slice()) {
                    Ok((logical, value)) => {
                        map_insert(&mut registry, logical, value);
                    },
                    Err(_) => {},
                }
            }
            proof {
                assert(entries@.subrange(0, i + 1).drop_last() =~= entries@.subrange(0, i as int));
                assert(entries@.subrange(0, i + 1).last() == entries@[i as int]);
            }
            i = i + 1;
        }
        proof {
            assert(entries@.subrange(0, n as int) =~= entries@);
        }
        State { original_registry_keys: originals, registry, updated_registry: Vec::new() }
    }
}

// ---------------------------------------------------------------------------
// Name resolution
// ---------------------------------------------------------------------------
/// Candidate raw name for a logical name about to be written: the suffixed
/// kinds already carry their marker, every other kind appends its tag.
pub open spec fn spec_candidate(name: Seq<char>, v: ValueView) -> Seq<char> {
    match v {
        ValueView::Color(_, _) => name,
        ValueView::Key(_) => name,
        ValueView::Axis(_) => name,
        _ => name + "_"@ + kind_tag(v),
    }
}

/// First observed raw name containing the candidate as a substring, or the
/// candidate itself when none does.
pub open spec fn spec_resolve(originals: Seq<String>, cand: Seq<char>) -> Seq<char>
    decreases originals.len(),
{
    if originals.len() == 0 {
        cand
    } else if contains_seq(originals[0]@, cand) {
        originals[0]@
    } else {
        spec_resolve(originals.drop_first(), cand)
    }
}

/// A candidate with some observed superstring always resolves to the first
/// such observed name, never to the fresh candidate built from the logical
/// name; without one, the candidate is used verbatim.
pub proof fn lemma_resolve_stability(originals: Seq<String>, cand: Seq<char>)
    ensures
        (exists|i: int| 0 <= i < originals.len() && contains_seq((#[trigger] originals[i])@, cand))
            ==> exists|i: int|
            0 <= i < originals.len() && contains_seq((#[trigger] originals[i])@, cand)
                && spec_resolve(originals, cand) == originals[i]@,
        (forall|i: int|
            0 <= i < originals.len() ==> !contains_seq((#[trigger] originals[i])@, cand))
            ==> spec_resolve(originals, cand) == cand,
    decreases originals.len(),
{
    if originals.len() > 0 {
        lemma_resolve_stability(originals.drop_first(), cand);
        assert(forall|i: int|
            0 <= i < originals.len() - 1 ==> #[trigger] originals.drop_first()[i]
                == originals[i + 1]);
        if !contains_seq(originals[0]@, cand) {
            if exists|i: int|
                0 <= i < originals.len() && contains_seq((#[trigger] originals[i])@, cand) {
                let i = choose|i: int|
                    0 <= i < originals.len() && contains_seq((#[trigger] originals[i])@, cand);
                assert(contains_seq(originals.drop_first()[i - 1]@, cand));
            }
        }
    }
}

impl State {
    /// Raw store name to write a logical name's value to.
    #[verifier::loop_isolation(false)]
    pub fn resolve_regedit_name(&self, name: String, typ: &BattlebitType) -> (r: String)
        ensures
            r@ == spec_resolve(self.original_registry_keys@, spec_candidate(name@, typ@)),
    {
        let ghost namev = name@;
        let cand: String = match typ {
            BattlebitType::Color(_) => name,
            BattlebitType::Key(_) => name,
            BattlebitType::Axis(_) => name,
            _ => name.concat("_").concat(typ.to_reg_type_str()),
        };
        proof {
            reveal_strlit("_");
            if !(typ@ is Color || typ@ is Key || typ@ is Axis) {
                assert(cand@ =~= namev + "_"@ + kind_tag(typ@));
            }
        }
        let n = self.original_registry_keys.len();
        let mut i: usize = 0;
        proof {
            assert(self.original_registry_keys@.skip(0) =~= self.original_registry_keys@);
        }
        while i < n
            invariant
                i <= n,
                n == self.original_registry_keys@.len(),
                cand@ == spec_candidate(namev, typ@),
                spec_resolve(self.original_registry_keys@.skip(i as int), cand@) == spec_resolve(
                    self.original_registry_keys@,
                    cand@,
                ),
            decreases n - i,
        {
            let orig = &self.original_registry_keys[i];
            proof {
                assert(self.original_registry_keys@.skip(i as int)[0] == self.original_registry_keys@[i as int]);
            }
            if contains_str(orig.as_str(), cand.as_str()) {
                let res = orig.clone();
                proof {
                    assert(spec_resolve(self.original_registry_keys@.skip(i as int), cand@)
                        == self.original_registry_keys@[i as int]@);
                    assert(res@ == self.original_registry_keys@[i as int]@);
                    assert(cand@ == spec_candidate(namev, typ@));
                }
                return res;
            }
            proof {
                assert(self.original_registry_keys@.skip(i as int).drop_first()
                    =~= self.original_registry_keys@.skip(i + 1));
            }
            i = i + 1;
        }
        cand
    }

    /// Resolve a logical name against the observed raw names and stage the
    /// value for write-back.
    pub fn update_registry(&mut self, name: &str, value: BattlebitType)
        requires
            old(self).wf(),
        ensures
            final(self).wf(),
            final(self).registry == old(self).registry,
            final(self).original_registry_keys == old(self).original_registry_keys,
            assoc_map(final(self).updated_registry@) == assoc_map(old(self).updated_registry@)
                .insert(
                spec_resolve(
                    old(self).original_registry_keys@,
                    spec_candidate(name@, value@),
                ),
                value@,
            ),
    {
        let resolved = self.resolve_regedit_name(String::from_str(name), &value);
        map_insert(&mut self.updated_registry, resolved, value);
    }
}

} // verus!
