//! The text codec: record encode/decode between typed values and structured
//! text records, import staging, deterministic sorted rendering, and parsing
//! of the document format.
//!
//! A record is `{typ, value}` keyed by logical name.  Inside this crate a
//! float value is its IEEE 754 bit pattern (`TextScalar::FloatBits`); the
//! wire form (`TomlValue::Float`) carries the decimal literal text, and the
//! conversion between the two happens outside the crate, at the file
//! boundary.

use crate::battlebit::assoc_map;
use crate::battlebit::kind_tag;
use crate::battlebit::key_text_matches;
use crate::battlebit::key_text_ok;
use crate::battlebit::lemma_tags_distinct;
use crate::battlebit::spec_candidate;
use crate::battlebit::spec_key_of_text;
use crate::battlebit::spec_resolve;
use crate::battlebit::value_in_range;
use crate::battlebit::BattlebitType;
use crate::battlebit::DecodeError;
use crate::battlebit::State;
use crate::battlebit::ValueView;
use crate::filters::spec_any_matches;
use crate::filters::filter_any;
use crate::filters::Filter;
use crate::filters::FilterVariant;
use crate::strutil::all_hex_digits;
use crate::strutil::char_from_u32;
use crate::strutil::fmt_i64;
use crate::strutil::hex_digit_char;
use crate::strutil::hex_val;
use crate::strutil::int_lit_val;
use crate::strutil::int_text;
use crate::strutil::is_int_lit;
use crate::strutil::is_digit;
use crate::strutil::parse_i64;
use crate::strutil::push_char;
use crate::strutil::str_eq;
use crate::strutil::str_le;
use crate::strutil::str_le_exec;
use crate::strutil::lemma_str_le_antisymmetric;
use crate::strutil::lemma_str_le_total;
use crate::strutil::hex_digit_exec;
use vstd::multiset::Multiset;
use vstd::prelude::*;
use vstd::string::StrSliceExecFns;
use vstd::string::StringExecFns;

verus! {

broadcast use vstd::string::group_string_axioms;

/// A record value as this crate models it: floats as bit patterns.
#[derive(Debug)]
pub enum TextScalar {
    Int(i64),
    FloatBits(u64),
    Bool(bool),
    Str(String),
}

/// Mathematical image of a record value.
pub enum TextView {
    Int(int),
    FloatBits(u64),
    Bool(bool),
    Str(Seq<char>),
}

impl View for TextScalar {
    type V = TextView;

    open spec fn view(&self) -> TextView {
        match self {
            TextScalar::Int(i) => TextView::Int(*i as int),
            TextScalar::FloatBits(b) => TextView::FloatBits(*b),
            TextScalar::Bool(b) => TextView::Bool(*b),
            TextScalar::Str(s) => TextView::Str(s@),
        }
    }
}

/// One text record: a declared kind tag and a value.
#[derive(Debug)]
pub struct Entry {
    pub typ: String,
    pub value: TextScalar,
}

/// Mathematical image of a record.
pub struct EntryView {
    pub typ: Seq<char>,
    pub value: TextView,
}

impl View for Entry {
    type V = EntryView;

    open spec fn view(&self) -> EntryView {
        EntryView { typ: self.typ@, value: self.value@ }
    }
}

/// Image of a record list.
pub open spec fn records_view(s: Seq<(String, Entry)>) -> Seq<(Seq<char>, EntryView)> {
    s.map_values(|p: (String, Entry)| (p.0@, p.1@))
}

// ---------------------------------------------------------------------------
// Record encode
// ---------------------------------------------------------------------------
/// The text value that renders a given setting value: integers for the
/// integer kinds, the bit pattern for the floating kinds, the key text for
/// keys.
pub open spec fn text_matches(v: ValueView, t: TextView) -> bool {
    match v {
        ValueView::Int(i) => t == TextView::Int(i),
        ValueView::Float(b) => t == TextView::FloatBits(b),
        ValueView::Bool(b) => t == TextView::Bool(b),
        ValueView::Axis(i) => t == TextView::Int(i),
        ValueView::Color(_, b) => t == TextView::FloatBits(b),
        ValueView::Key(k) => t matches TextView::Str(s) && key_text_ok(k) && key_text_matches(
            k,
            s,
        ),
        ValueView::Str(s) => t == TextView::Str(s),
    }
}

impl BattlebitType {
    /// Render this value as a text record value.  Fails only for a key whose
    /// code point is not a valid character.
    pub fn to_toml_value(&self) -> (r: Result<TextScalar, DecodeError>)
        ensures
            r matches Ok(t) ==> text_matches(self@, t@),
            r is Err ==> (self@ matches ValueView::Key(k) && !key_text_ok(k)) && r
                == Err::<TextScalar, DecodeError>(DecodeError::InvalidKeyEncoding),
    {
        match self {
            BattlebitType::Int(v) => Ok(TextScalar::Int(v.0 as i64)),
            BattlebitType::Float(v) => Ok(TextScalar::FloatBits(v.0)),
            BattlebitType::Bool(v) => Ok(TextScalar::Bool(v.0)),
            BattlebitType::Axis(v) => Ok(TextScalar::Int(v.0 as i64)),
            BattlebitType::Color(v) => Ok(TextScalar::FloatBits(v.1)),
            BattlebitType::Key(v) => match v.to_key_ascii() {
                Ok(s) => Ok(TextScalar::Str(s)),
                Err(e) => Err(e),
            },
            BattlebitType::Str(v) => Ok(TextScalar::Str(v.0.clone())),
        }
    }
}

// ---------------------------------------------------------------------------
// Record decode
// ---------------------------------------------------------------------------
/// Decode of one text record: dispatch on the declared kind tag, check the
/// value's shape, and for a color derive the channel from the last character
/// of the logical name.  Errors say exactly what was wrong.
pub open spec fn spec_from_text(typ: Seq<char>, t: TextView, name: Seq<char>) -> Result<
    ValueView,
    DecodeError,
> {
    if typ == "int"@ {
        match t {
            TextView::Int(i) => Ok(ValueView::Int(((i as i64) as i32) as int)),
            _ => Err(DecodeError::TypeMismatch),
        }
    } else if typ == "float"@ {
        match t {
            TextView::FloatBits(b) => Ok(ValueView::Float(b)),
            _ => Err(DecodeError::TypeMismatch),
        }
    } else if typ == "bool"@ {
        match t {
            TextView::Bool(b) => Ok(ValueView::Bool(b)),
            _ => Err(DecodeError::TypeMismatch),
        }
    } else if typ == "axis"@ {
        match t {
            TextView::Int(i) => Ok(ValueView::Axis(((i as i64) as i32) as int)),
            _ => Err(DecodeError::TypeMismatch),
        }
    } else if typ == "color"@ {
        if name.len() == 0 {
            Err(DecodeError::InvalidColorName)
        } else {
            let last = name[name.len() - 1];
            if last == 'r' || last == 'g' || last == 'b' || last == 'a' {
                match t {
                    TextView::FloatBits(bits) => Ok(
                        ValueView::Color(
                            if last == 'r' {
                                0
                            } else if last == 'g' {
                                1
                            } else if last == 'b' {
                                2
                            } else {
                                3
                            },
                            bits,
                        ),
                    ),
                    _ => Err(DecodeError::TypeMismatch),
                }
            } else {
                Err(DecodeError::InvalidColorName)
            }
        }
    } else if typ == "key"@ {
        match t {
            TextView::Str(s) => match spec_key_of_text(s) {
                Some(k) => Ok(ValueView::Key(k)),
                None => Err(DecodeError::InvalidKeyEncoding),
            },
            _ => Err(DecodeError::TypeMismatch),
        }
    } else if typ == "str"@ {
        match t {
            TextView::Str(s) => Ok(ValueView::Str(s)),
            _ => Err(DecodeError::TypeMismatch),
        }
    } else {
        Err(DecodeError::UnknownTextKind)
    }
}

impl BattlebitType {
    /// Decode one text record into a typed value.
    pub fn from_toml_value(typ: &str, value: &TextScalar, name: &str) -> (r: Result<
        BattlebitType,
        DecodeError,
    >)
        ensures
            match r {
                Ok(v) => spec_from_text(typ@, value@, name@) == Ok::<ValueView, DecodeError>(v@),
                Err(e) => spec_from_text(typ@, value@, name@) == Err::<ValueView, DecodeError>(e),
            },
    {
        if str_eq(typ, "int") {
            match value {
                TextScalar::Int(i) => Ok(
                    BattlebitType::Int(crate::battlebit::Int(*i as i32)),
                ),
                _ => Err(DecodeError::TypeMismatch),
            }
        } else if str_eq(typ, "float") {
            match value {
                TextScalar::FloatBits(b) => Ok(
                    BattlebitType::Float(crate::battlebit::Float(*b)),
                ),
                _ => Err(DecodeError::TypeMismatch),
            }
        } else if str_eq(typ, "bool") {
            match value {
                TextScalar::Bool(b) => Ok(BattlebitType::Bool(crate::battlebit::Bool(*b))),
                _ => Err(DecodeError::TypeMismatch),
            }
        } else if str_eq(typ, "axis") {
            match value {
                TextScalar::Int(i) => Ok(
                    BattlebitType::Axis(crate::battlebit::Axis(*i as i32)),
                ),
                _ => Err(DecodeError::TypeMismatch),
            }
        } else if str_eq(typ, "color") {
            let n = name.unicode_len();
            if n == 0 {
                return Err(DecodeError::InvalidColorName);
            }
            let last = name.get_char(n - 1);
            if last == 'r' || last == 'g' || last == 'b' || last == 'a' {
                match value {
                    TextScalar::FloatBits(bits) => {
                        let ch: i32 = if last == 'r' {
                            0
                        } else if last == 'g' {
                            1
                        } else if last == 'b' {
                            2
                        } else {
                            3
                        };
                        Ok(BattlebitType::Color(crate::battlebit::Color(ch, *bits)))
                    },
                    _ => Err(DecodeError::TypeMismatch),
                }
            } else {
                Err(DecodeError::InvalidColorName)
            }
        } else if str_eq(typ, "key") {
            match value {
                TextScalar::Str(s) => match crate::battlebit::Key::from_key_ascii(s.as_str()) {
                    Ok(k) => Ok(BattlebitType::Key(k)),
                    Err(e) => Err(e),
                },
                _ => Err(DecodeError::TypeMismatch),
            }
        } else if str_eq(typ, "str") {
            match value {
                TextScalar::Str(s) => Ok(
                    BattlebitType::Str(crate::battlebit::Str(s.clone())),
                ),
                _ => Err(DecodeError::TypeMismatch),
            }
        } else {
            Err(DecodeError::UnknownTextKind)
        }
    }
}

/// Where the name's last character must agree with a color's channel; other
/// kinds put no demand on the name.
pub open spec fn name_suffix_ok(v: ValueView, name: Seq<char>) -> bool {
    match v {
        ValueView::Color(ch, _) => name.len() > 0 && name[name.len() - 1] == (if ch == 0 {
            'r'
        } else if ch == 1 {
            'g'
        } else if ch == 2 {
            'b'
        } else {
            'a'
        }),
        _ => true,
    }
}

/// Rendering a value as a text record and decoding the record under the
/// value's own kind tag restores the value, for every kind, provided a
/// color's name carries its channel letter and a key's code point is valid.
pub proof fn lemma_text_round_trip(v: ValueView, t: TextView, name: Seq<char>)
    requires
        value_in_range(v),
        text_matches(v, t),
        name_suffix_ok(v, name),
        v matches ValueView::Key(k) ==> key_text_ok(k),
    ensures
        spec_from_text(kind_tag(v), t, name) == Ok::<ValueView, DecodeError>(v),
{
    lemma_tags_distinct();
    match v {
        ValueView::Int(i) => {
            lemma_i64_i32_trunc(i);
        },
        ValueView::Axis(i) => {
            lemma_i64_i32_trunc(i);
        },
        ValueView::Key(k) => {
            match t {
                TextView::Str(s) => {
                    crate::battlebit::lemma_key_text_round_trip(k, s);
                },
                _ => {},
            }
        },
        _ => {},
    }
}

/// Truncating a signed 32-bit quantity through 64 bits is the identity.
pub proof fn lemma_i64_i32_trunc(i: int)
    requires
        i32::MIN <= i <= i32::MAX,
    ensures
        ((i as i64) as i32) as int == i,
{
    let x: i64 = i as i64;
    assert(-0x8000_0000i64 <= x <= 0x7FFF_FFFFi64 ==> (x as i32) as i64 == x) by (bit_vector);
}

// ---------------------------------------------------------------------------
// Export: registry to records
// ---------------------------------------------------------------------------

/// A value that the text codec cannot render: a key whose code point is no
/// valid character.
pub open spec fn entry_unencodable(v: ValueView) -> bool {
    v matches ValueView::Key(k) && !key_text_ok(k)
}

/// Entry `i` of the registry is selected: no filter is active or some
/// active filter matches it.
pub open spec fn export_included(
    reg: Seq<(String, BattlebitType)>,
    fs: Seq<FilterVariant>,
    i: int,
) -> bool {
    fs.len() == 0 || spec_any_matches(fs, reg[i].0@, kind_tag(reg[i].1@))
}

/// Export fails exactly when some selected entry cannot be rendered.
pub open spec fn export_fails(reg: Seq<(String, BattlebitType)>, fs: Seq<FilterVariant>) -> bool {
    exists|i: int|
        0 <= i < reg.len() && export_included(reg, fs, i) && entry_unencodable(
            (#[trigger] reg[i]).1@,
        )
}

/// The record list mirrors the registry in order: an entry appears exactly
/// when no filter is active or some active filter selects it, keyed by its
/// logical name, tagged with its kind, its value rendered as text.
pub open spec fn export_matches(
    reg: Seq<(String, BattlebitType)>,
    fs: Seq<FilterVariant>,
    recs: Seq<(Seq<char>, EntryView)>,
) -> bool
    decreases reg.len(),
{
    if reg.len() == 0 {
        recs.len() == 0
    } else {
        let e = reg.last();
        let included = fs.len() == 0 || spec_any_matches(fs, e.0@, kind_tag(e.1@));
        if included {
            recs.len() > 0 && recs.last().0 == e.0@ && recs.last().1.typ == kind_tag(e.1@)
                && text_matches(e.1@, recs.last().1.value) && export_matches(
                reg.drop_last(),
                fs,
                recs.drop_last(),
            )
        } else {
            export_matches(reg.drop_last(), fs, recs)
        }
    }
}

impl State {
    /// Render the registry (optionally filtered) as text records, in
    /// registry order.  Fails exactly when a selected entry is a key with an
    /// invalid code point.
    pub fn to_filtered_toml(&self, active: Vec<FilterVariant>) -> (r: Result<
        Vec<(String, Entry)>,
        DecodeError,
    >)
        ensures
            r matches Ok(recs) ==> export_matches(self.registry@, active@, records_view(recs@)),
            r is Err <==> export_fails(self.registry@, active@),
            r is Err ==> r == Err::<Vec<(String, Entry)>, DecodeError>(
                DecodeError::InvalidKeyEncoding,
            ),
    {
        let n = self.registry.len();
        let mut out: Vec<(String, Entry)> = Vec::new();
        let mut i: usize = 0;
        proof {
            assert(self.registry@.subrange(0, 0) =~= Seq::<(String, BattlebitType)>::empty());
            assert(records_view(out@) =~= Seq::<(Seq<char>, EntryView)>::empty());
        }
        while i < n
            invariant
                i <= n,
                n == self.registry@.len(),
                export_matches(
                    self.registry@.subrange(0, i as int),
                    active@,
                    records_view(out@),
                ),
                forall|k: int|
                    0 <= k < i ==> !(export_included(self.registry@, active@, k)
                        && entry_unencodable((#[trigger] self.registry@[k]).1@)),
            decreases n - i,
        {
            let name = &self.registry[i].0;
            let value = &self.registry[i].1;
            let typ = value.to_reg_type_str();
            let included = if active.len() == 0 {
                true
            } else {
                filter_any(&active, name.as_str(), typ)
            };
            let ghost prev = out@;
            if included {
                let scalar = match value.to_toml_value() {
                    Ok(t) => t,
                    Err(e) => {
                        proof {
                            assert(export_included(self.registry@, active@, i as int));
                            assert(entry_unencodable(self.registry@[i as int].1@));
                            assert(export_fails(self.registry@, active@));
                        }
                        return Err(e);
                    },
                };
                proof {
                    if entry_unencodable(self.registry@[i as int].1@) {
                        assert(text_matches(self.registry@[i as int].1@, scalar@));
                        assert(false);
                    }
                }
                let entry = Entry { typ: String::from_str(typ), value: scalar };
                out.push((name.clone(), entry));
                proof {
                    assert(records_view(out@) =~= records_view(prev).push(
                        (self.registry@[i as int].0@, out@.last().1@),
                    ));
                    assert(records_view(out@).drop_last() =~= records_view(prev));
                }
            }
            proof {
                let taken = self.registry@.subrange(0, i + 1);
                assert(taken.drop_last() =~= self.registry@.subrange(0, i as int));
                assert(taken.last() == self.registry@[i as int]);
            }
            i = i + 1;
        }
        proof {
            assert(self.registry@.subrange(0, n as int) =~= self.registry@);
            assert(!export_fails(self.registry@, active@));
        }
        Ok(out)
    }

    /// Render the whole registry as text records, in registry order.  Fails
    /// exactly when some entry is a key with an invalid code point.
    pub fn to_toml(&self) -> (r: Result<Vec<(String, Entry)>, DecodeError>)
        ensures
            r matches Ok(recs) ==> export_matches(
                self.registry@,
                Seq::<FilterVariant>::empty(),
                records_view(recs@),
            ),
            r is Err <==> export_fails(self.registry@, Seq::<FilterVariant>::empty()),
            r is Err ==> r == Err::<Vec<(String, Entry)>, DecodeError>(
                DecodeError::InvalidKeyEncoding,
            ),
    {
        let empty: Vec<FilterVariant> = Vec::new();
        proof {
            assert(empty@ =~= Seq::<FilterVariant>::empty());
        }
        self.to_filtered_toml(empty)
    }
}


/// A value has exactly one text rendering: two record values that both
/// render it are the same value.
pub proof fn lemma_text_matches_functional(v: ValueView, t1: TextView, t2: TextView)
    requires
        text_matches(v, t1),
        text_matches(v, t2),
    ensures
        t1 == t2,
{
    match v {
        ValueView::Key(k) => {
            match (t1, t2) {
                (TextView::Str(s1), TextView::Str(s2)) => {
                    if 0x20 <= k <= 0x7E {
                        let u1 = s1[0] as u32;
                        let u2 = s2[0] as u32;
                        vstd::utf8::char_u32_cast(s1[0], u1);
                        vstd::utf8::char_u32_cast(s2[0], u2);
                        assert(s1 =~= s2);
                    }
                },
                _ => {},
            }
        },
        _ => {},
    }
}

/// Exporting a registry is a function of the registry and the active
/// filters: any two record lists that mirror the same registry under the
/// same filters are equal.  Together with the sorted rendering, export
/// output is fully determined by the registry's contents.
pub proof fn lemma_export_functional(
    reg: Seq<(String, BattlebitType)>,
    fs: Seq<FilterVariant>,
    r1: Seq<(Seq<char>, EntryView)>,
    r2: Seq<(Seq<char>, EntryView)>,
)
    requires
        export_matches(reg, fs, r1),
        export_matches(reg, fs, r2),
    ensures
        r1 == r2,
    decreases reg.len(),
{
    if reg.len() == 0 {
        assert(r1 =~= r2);
    } else {
        let e = reg.last();
        let included = fs.len() == 0 || spec_any_matches(fs, e.0@, kind_tag(e.1@));
        if included {
            lemma_export_functional(reg.drop_last(), fs, r1.drop_last(), r2.drop_last());
            lemma_text_matches_functional(e.1@, r1.last().1.value, r2.last().1.value);
            assert(r1.last().1 == r2.last().1);
            assert(r1.last() == r2.last());
            assert(r1 =~= r1.drop_last().push(r1.last()));
            assert(r2 =~= r2.drop_last().push(r2.last()));
        } else {
            lemma_export_functional(reg.drop_last(), fs, r1, r2);
        }
    }
}

// ---------------------------------------------------------------------------
// Import: records into the pending-write overlay
// ---------------------------------------------------------------------------
/// Image of a fail-fast import: records are decoded in order and staged one
/// by one under their resolved raw names; the first failing record stops the
/// walk, leaves its own name unstaged, and keeps everything staged before
/// it.
pub open spec fn spec_import(
    originals: Seq<String>,
    m: Map<Seq<char>, ValueView>,
    recs: Seq<(Seq<char>, EntryView)>,
) -> (Map<Seq<char>, ValueView>, Option<DecodeError>)
    decreases recs.len(),
{
    if recs.len() == 0 {
        (m, None)
    } else {
        let rec = recs[0];
        match spec_from_text(rec.1.typ, rec.1.value, rec.0) {
            Ok(v) => spec_import(
                originals,
                m.insert(spec_resolve(originals, spec_candidate(rec.0, v)), v),
                recs.drop_first(),
            ),
            Err(e) => (m, Some(e)),
        }
    }
}

impl State {
    /// Decode text records in order and stage each into the pending-write
    /// overlay; abort on the first malformed record, keeping what was staged
    /// before it.
    pub fn from_toml(&mut self, records: Vec<(String, Entry)>) -> (r: Result<(), DecodeError>)
        requires
            old(self).wf(),
        ensures
            final(self).wf(),
            final(self).registry == old(self).registry,
            final(self).original_registry_keys == old(self).original_registry_keys,
            ({
                let (m, err) = spec_import(
                    old(self).original_registry_keys@,
                    assoc_map(old(self).updated_registry@),
                    records_view(records@),
                );
                assoc_map(final(self).updated_registry@) == m && (match r {
                    Ok(()) => err is None,
                    Err(e) => err == Some(e),
                })
            }),
    {
        let n = records.len();
        let ghost recs = records_view(records@);
        let mut i: usize = 0;
        proof {
            assert(recs.skip(0) =~= recs);
        }
        while i < n
            invariant
                i <= n,
                n == records@.len(),
                recs == records_view(records@),
                self.wf(),
                self.registry == old(self).registry,
                self.original_registry_keys == old(self).original_registry_keys,
                spec_import(
                    old(self).original_registry_keys@,
                    assoc_map(old(self).updated_registry@),
                    recs,
                ) == spec_import(
                    old(self).original_registry_keys@,
                    assoc_map(self.updated_registry@),
                    recs.skip(i as int),
                ),
            decreases n - i,
        {
            let name = &records[i].0;
            let entry = &records[i].1;
            proof {
                assert(recs.skip(i as int)[0] == recs[i as int]);
                assert(recs[i as int] == (records@[i as int].0@, records@[i as int].1@));
            }
            match BattlebitType::from_toml_value(
                entry.typ.as_str(),
                &entry.value,
                name.as_str(),
            ) {
                Ok(value) => {
                    self.update_registry(name.as_str(), value);
                    proof {
                        assert(recs.skip(i as int).drop_first() =~= recs.skip(i + 1));
                    }
                },
                Err(e) => {
                    return Err(e);
                },
            }
            i = i + 1;
        }
        proof {
            assert(recs.skip(n as int) =~= Seq::<(Seq<char>, EntryView)>::empty());
        }
        Ok(())
    }
}

// ---------------------------------------------------------------------------
// Wire records
// ---------------------------------------------------------------------------
/// A record value in wire form: a float is carried as its decimal literal
/// text, produced and interpreted outside this crate.
#[derive(Debug)]
pub enum TomlValue {
    Int(i64),
    Float(String),
    Bool(bool),
    Str(String),
}

/// Mathematical image of a wire value.
pub enum TomlValueView {
    Int(int),
    Float(Seq<char>),
    Bool(bool),
    Str(Seq<char>),
}

impl View for TomlValue {
    type V = TomlValueView;

    open spec fn view(&self) -> TomlValueView {
        match self {
            TomlValue::Int(i) => TomlValueView::Int(*i as int),
            TomlValue::Float(s) => TomlValueView::Float(s@),
            TomlValue::Bool(b) => TomlValueView::Bool(*b),
            TomlValue::Str(s) => TomlValueView::Str(s@),
        }
    }
}

/// One wire record.
#[derive(Debug)]
pub struct TomlEntry {
    pub typ: String,
    pub value: TomlValue,
}

/// Mathematical image of a wire record.
pub struct TomlEntryView {
    pub typ: Seq<char>,
    pub value: TomlValueView,
}

impl View for TomlEntry {
    type V = TomlEntryView;

    open spec fn view(&self) -> TomlEntryView {
        TomlEntryView { typ: self.typ@, value: self.value@ }
    }
}

/// Image of a wire record list.
pub open spec fn wire_view(s: Seq<(String, TomlEntry)>) -> Seq<(Seq<char>, TomlEntryView)> {
    s.map_values(|p: (String, TomlEntry)| (p.0@, p.1@))
}

/// Names appear in lexicographic order.
pub open spec fn name_sorted(s: Seq<(Seq<char>, TomlEntryView)>) -> bool {
    forall|i: int, j: int| 0 <= i < j < s.len() ==> str_le(#[trigger] s[i].0, #[trigger] s[j].0)
}

/// No two records share a name.
pub open spec fn rec_unique_names(s: Seq<(Seq<char>, TomlEntryView)>) -> bool {
    forall|i: int, j: int| 0 <= i < j < s.len() ==> (#[trigger] s[i]).0 != (#[trigger] s[j]).0
}

/// Sort wire records by name, keeping exactly the same records.
#[verifier::loop_isolation(false)]
pub fn sort_toml(records: Vec<(String, TomlEntry)>) -> (r: Vec<(String, TomlEntry)>)
    ensures
        wire_view(r@).to_multiset() == wire_view(records@).to_multiset(),
        name_sorted(wire_view(r@)),
{
    broadcast use vstd::seq_lib::group_to_multiset_ensures;

    let ghost orig = wire_view(records@);
    let mut rest = records;
    let mut out: Vec<(String, TomlEntry)> = Vec::new();
    proof {
        assert(wire_view(out@) =~= Seq::<(Seq<char>, TomlEntryView)>::empty());
        assert(wire_view(out@).to_multiset().add(wire_view(rest@).to_multiset())
            =~= orig.to_multiset());
    }
    while rest.len() > 0
        invariant
            wire_view(out@).to_multiset().add(wire_view(rest@).to_multiset())
                == orig.to_multiset(),
            name_sorted(wire_view(out@)),
            forall|a: int, b: int|
                0 <= a < out@.len() && 0 <= b < rest@.len() ==> str_le(
                    #[trigger] wire_view(out@)[a].0,
                    #[trigger] wire_view(rest@)[b].0,
                ),
        decreases rest@.len(),
    {
        let m = rest.len();
        let mut j: usize = 0;
        let mut k: usize = 1;
        proof {
            lemma_str_le_total(wire_view(rest@)[0].0, wire_view(rest@)[0].0);
        }
        while k < m
            invariant
                j < k <= m,
                m == rest@.len(),
                forall|t: int|
                    0 <= t < k ==> str_le(
                        wire_view(rest@)[j as int].0,
                        #[trigger] wire_view(rest@)[t].0,
                    ),
            decreases m - k,
        {
            if str_le_exec(rest[k].0.as_str(), rest[j].0.as_str()) {
                proof {
                    assert forall|t: int|
                        0 <= t < k + 1 implies str_le(
                        wire_view(rest@)[k as int].0,
                        #[trigger] wire_view(rest@)[t].0,
                    ) by {
                        if t == k {
                            lemma_str_le_total(
                                wire_view(rest@)[k as int].0,
                                wire_view(rest@)[k as int].0,
                            );
                        } else {
                            crate::strutil::lemma_str_le_transitive(
                                wire_view(rest@)[k as int].0,
                                wire_view(rest@)[j as int].0,
                                wire_view(rest@)[t].0,
                            );
                        }
                    }
                }
                j = k;
            } else {
                proof {
                    lemma_str_le_total(
                        wire_view(rest@)[k as int].0,
                        wire_view(rest@)[j as int].0,
                    );
                }
            }
            k = k + 1;
        }
        let ghost rest_before = rest@;
        let e = rest.remove(j);
        let ghost prev_out = out@;
        out.push(e);
        proof {
            let rv = wire_view(rest_before);
            assert(wire_view(out@) =~= wire_view(prev_out).push(rv[j as int]));
            assert(wire_view(rest@) =~= rv.remove(j as int));
            assert(wire_view(out@).to_multiset() =~= wire_view(prev_out).to_multiset().insert(
                rv[j as int],
            ));
            assert(wire_view(rest@).to_multiset() =~= rv.to_multiset().remove(rv[j as int]));
            assert(rv.to_multiset().count(rv[j as int]) >= 1) by {
                assert(rv.contains(rv[j as int]));
            }
            assert(wire_view(out@).to_multiset().add(wire_view(rest@).to_multiset())
                =~= wire_view(prev_out).to_multiset().add(rv.to_multiset()));
            assert forall|a: int, b: int|
                0 <= a < out@.len() && 0 <= b < rest@.len() implies str_le(
                #[trigger] wire_view(out@)[a].0,
                #[trigger] wire_view(rest@)[b].0,
            ) by {
                let bb = if b < j {
                    b
                } else {
                    b + 1
                };
                assert(wire_view(rest@)[b] == rv[bb]);
                if a < prev_out.len() {
                    assert(wire_view(out@)[a] == wire_view(prev_out)[a]);
                } else {
                    assert(wire_view(out@)[a] == rv[j as int]);
                }
            }
            assert(name_sorted(wire_view(out@)));
        }
    }
    proof {
        assert(wire_view(rest@) =~= Seq::<(Seq<char>, TomlEntryView)>::empty());
        assert(wire_view(out@).to_multiset().add(Multiset::<(Seq<char>,
            TomlEntryView)>::empty()) =~= wire_view(out@).to_multiset());
    }
    out
}

/// Two name-sorted record lists holding the same records, with names unique,
/// are the same list.
pub proof fn lemma_sorted_records_unique(
    a: Seq<(Seq<char>, TomlEntryView)>,
    b: Seq<(Seq<char>, TomlEntryView)>,
)
    requires
        name_sorted(a),
        name_sorted(b),
        rec_unique_names(a),
        a.to_multiset() == b.to_multiset(),
    ensures
        a == b,
    decreases a.len(),
{
    broadcast use vstd::seq_lib::group_to_multiset_ensures;

    a.to_multiset_ensures();
    b.to_multiset_ensures();
    assert(a.len() == b.len());
    if a.len() > 0 {
        assert(a.to_multiset().count(a[0]) > 0);
        assert(b.contains(a[0]));
        let ia = choose|i: int| 0 <= i < b.len() && b[i] == a[0];
        assert(b.to_multiset().count(b[0]) > 0);
        assert(a.contains(b[0]));
        let ib = choose|i: int| 0 <= i < a.len() && a[i] == b[0];
        assert(a[0] == b[0]) by {
            if ib != 0 && ia != 0 {
                assert(str_le(a[0].0, a[ib].0));
                assert(str_le(b[0].0, b[ia].0));
                lemma_str_le_antisymmetric(a[0].0, b[0].0);
                assert(a[ib].0 == a[0].0);
            }
        }
        let at = a.drop_first();
        let bt = b.drop_first();
        assert(at =~= a.remove(0));
        assert(bt =~= b.remove(0));
        assert(at.to_multiset() =~= a.to_multiset().remove(a[0]));
        assert(bt.to_multiset() =~= b.to_multiset().remove(b[0]));
        assert(forall|i: int| 0 <= i < at.len() ==> #[trigger] at[i] == a[i + 1]);
        assert(forall|i: int| 0 <= i < bt.len() ==> #[trigger] bt[i] == b[i + 1]);
        assert(name_sorted(at));
        assert(name_sorted(bt));
        assert(rec_unique_names(at));
        lemma_sorted_records_unique(at, bt);
        assert(a =~= seq![a[0]] + at);
        assert(b =~= seq![b[0]] + bt);
    } else {
        assert(a =~= b);
    }
}

// ---------------------------------------------------------------------------
// Rendering
// ---------------------------------------------------------------------------
/// Characters allowed in an unquoted section name.
pub open spec fn is_bare_char(c: char) -> bool {
    is_digit(c) || ('a' as u32 <= c as u32 <= 'z' as u32) || ('A' as u32 <= c as u32
        <= 'Z' as u32) || c == '_' || c == '-'
}

/// A name that can stand unquoted: nonempty, every character bare.
pub open spec fn is_bare_name(s: Seq<char>) -> bool {
    s.len() > 0 && forall|k: int| 0 <= k < s.len() ==> is_bare_char(#[trigger] s[k])
}

/// Four-digit lowercase hexadecimal, for escaped control characters.
pub open spec fn hex4(n: int) -> Seq<char> {
    seq![
        hex_digit_char(n / 4096 % 16),
        hex_digit_char(n / 256 % 16),
        hex_digit_char(n / 16 % 16),
        hex_digit_char(n % 16),
    ]
}

/// Escape of one character inside a quoted string.
pub open spec fn esc_char(c: char) -> Seq<char> {
    if c == '"' {
        seq!['\\', '"']
    } else if c == '\\' {
        seq!['\\', '\\']
    } else if c == '\n' {
        seq!['\\', 'n']
    } else if c == '\r' {
        seq!['\\', 'r']
    } else if c == '\t' {
        seq!['\\', 't']
    } else if (c as u32) < 0x20 {
        seq!['\\', 'u'] + hex4(c as u32 as int)
    } else {
        seq![c]
    }
}

/// Escape of a whole string body.
pub open spec fn esc_str(s: Seq<char>) -> Seq<char>
    decreases s.len(),
{
    if s.len() == 0 {
        Seq::<char>::empty()
    } else {
        esc_str(s.drop_last()) + esc_char(s.last())
    }
}

/// A quoted string: the escaped body between double quotes.
pub open spec fn quoted(s: Seq<char>) -> Seq<char> {
    seq!['"'] + esc_str(s) + seq!['"']
}

/// A section name: bare when possible, quoted otherwise.
pub open spec fn render_name(s: Seq<char>) -> Seq<char> {
    if is_bare_name(s) {
        s
    } else {
        quoted(s)
    }
}

/// Text of one wire value.
pub open spec fn render_value(v: TomlValueView) -> Seq<char> {
    match v {
        TomlValueView::Int(i) => int_text(i),
        TomlValueView::Float(t) => t,
        TomlValueView::Bool(b) => if b {
            "true"@
        } else {
            "false"@
        },
        TomlValueView::Str(s) => quoted(s),
    }
}

/// Text of one record: a section header, the kind tag, and the value.
pub open spec fn render_record(name: Seq<char>, e: TomlEntryView) -> Seq<char> {
    seq!['['] + render_name(name) + seq![']'] + seq!['\n'] + "typ = "@ + quoted(e.typ)
        + seq!['\n'] + "value = "@ + render_value(e.value) + seq!['\n']
}

/// Text of a whole record list, in order.
pub open spec fn render_doc(recs: Seq<(Seq<char>, TomlEntryView)>) -> Seq<char>
    decreases recs.len(),
{
    if recs.len() == 0 {
        Seq::<char>::empty()
    } else {
        render_doc(recs.drop_last()) + render_record(recs.last().0, recs.last().1)
    }
}

/// Sorting two arrangements of the same records and rendering them yields
/// byte-identical text: export output is independent of iteration order.
pub proof fn lemma_deterministic_export(
    a: Seq<(Seq<char>, TomlEntryView)>,
    b: Seq<(Seq<char>, TomlEntryView)>,
)
    requires
        name_sorted(a),
        name_sorted(b),
        rec_unique_names(a),
        a.to_multiset() == b.to_multiset(),
    ensures
        render_doc(a) == render_doc(b),
{
    lemma_sorted_records_unique(a, b);
}

/// Append one escaped character.
fn push_esc_char(out: &mut String, c: char)
    ensures
        final(out)@ == old(out)@ + esc_char(c),
{
    let u = c as u32;
    if c == '"' {
        push_char(out, '\\');
        push_char(out, '"');
        assert(out@ =~= old(out)@ + esc_char(c));
    } else if c == '\\' {
        push_char(out, '\\');
        push_char(out, '\\');
        assert(out@ =~= old(out)@ + esc_char(c));
    } else if c == '\n' {
        push_char(out, '\\');
        push_char(out, 'n');
        assert(out@ =~= old(out)@ + esc_char(c));
    } else if c == '\r' {
        push_char(out, '\\');
        push_char(out, 'r');
        assert(out@ =~= old(out)@ + esc_char(c));
    } else if c == '\t' {
        push_char(out, '\\');
        push_char(out, 't');
        assert(out@ =~= old(out)@ + esc_char(c));
    } else if u < 0x20 {
        push_char(out, '\\');
        push_char(out, 'u');
        push_char(out, hex_digit_exec((u / 4096 % 16) as u8));
        push_char(out, hex_digit_exec((u / 256 % 16) as u8));
        push_char(out, hex_digit_exec((u / 16 % 16) as u8));
        push_char(out, hex_digit_exec((u % 16) as u8));
        assert(out@ =~= old(out)@ + esc_char(c));
    } else {
        push_char(out, c);
        assert(out@ =~= old(out)@ + esc_char(c));
    }
}

/// Append a quoted, escaped string.
#[verifier::loop_isolation(false)]
fn append_quoted(out: &mut String, s: &str)
    ensures
        final(out)@ == old(out)@ + quoted(s@),
{
    push_char(out, '"');
    let n = s.unicode_len();
    let mut i: usize = 0;
    proof {
        assert(esc_str(s@.subrange(0, 0)) =~= Seq::<char>::empty());
        assert(out@ =~= old(out)@ + seq!['"'] + esc_str(s@.subrange(0, 0)));
    }
    while i < n
        invariant
            i <= n,
            out@ == old(out)@ + seq!['"'] + esc_str(s@.subrange(0, i as int)),
        decreases n - i,
    {
        let c = s.get_char(i);
        push_esc_char(out, c);
        proof {
            assert(s@.subrange(0, i + 1).drop_last() =~= s@.subrange(0, i as int));
            assert(s@.subrange(0, i + 1).last() == s@[i as int]);
            assert(out@ =~= old(out)@ + seq!['"'] + esc_str(s@.subrange(0, i + 1)));
        }
        i = i + 1;
    }
    push_char(out, '"');
    proof {
        assert(s@.subrange(0, n as int) =~= s@);
        assert(out@ =~= old(out)@ + quoted(s@));
    }
}


/// Front decomposition of the string-body escape: the escape of a nonempty
/// string is the escape of its first character followed by the escape of the
/// rest.
pub proof fn lemma_esc_str_front(t: Seq<char>)
    requires
        t.len() > 0,
    ensures
        esc_str(t) == esc_char(t[0]) + esc_str(t.drop_first()),
    decreases t.len(),
{
    if t.len() == 1 {
        assert(t.drop_last() =~= Seq::<char>::empty());
        assert(t.drop_first() =~= Seq::<char>::empty());
        assert(esc_char(t[0]) + esc_str(t.drop_first()) =~= Seq::<char>::empty() + esc_char(
            t.last(),
        ));
    } else {
        lemma_esc_str_front(t.drop_last());
        assert(t.drop_last()[0] == t[0]);
        assert(t.drop_last().drop_first() =~= t.drop_first().drop_last());
        assert(t.drop_first().last() == t.last());
        assert(esc_char(t[0]) + (esc_str(t.drop_first().drop_last()) + esc_char(t.last()))
            =~= (esc_char(t[0]) + esc_str(t.drop_first().drop_last())) + esc_char(t.last()));
    }
}

/// Every lowercase hexadecimal digit is a hexadecimal digit.
pub proof fn lemma_hex_digit_char_is_hex(d: int)
    requires
        0 <= d < 16,
    ensures
        crate::strutil::is_hex_digit(hex_digit_char(d)),
        crate::strutil::hex_digit_val(hex_digit_char(d)) == d,
{
}

/// The four-digit escape of a control character evaluates back to its code.
pub proof fn lemma_hex4_val(u: int)
    requires
        0 <= u < 0x20,
    ensures
        all_hex_digits(hex4(u)),
        hex_val(hex4(u)) == u,
{
    assert(u / 4096 == 0);
    assert(u / 256 == 0);
    assert(u / 16 < 2);
    vstd::arithmetic::div_mod::lemma_fundamental_div_mod(u, 16);
    lemma_hex_digit_char_is_hex(0);
    lemma_hex_digit_char_is_hex(u / 16);
    lemma_hex_digit_char_is_hex(u % 16);
    let h = hex4(u);
    assert(h[0] == hex_digit_char(0));
    assert(h[1] == hex_digit_char(0));
    assert(h[2] == hex_digit_char(u / 16));
    assert(h[3] == hex_digit_char(u % 16));
    assert(all_hex_digits(h)) by {
        assert(forall|k: int| 0 <= k < 4 ==> (#[trigger] h[k]) == h[k]);
    }
    let h3 = h.drop_last();
    let h2 = h3.drop_last();
    let h1 = h2.drop_last();
    let h0 = h1.drop_last();
    assert(h0 =~= Seq::<char>::empty());
    assert(hex_val(h0) == 0);
    assert(h1.last() == h[0]);
    assert(hex_val(h1) == 0);
    assert(h2.last() == h[1]);
    assert(hex_val(h2) == 0);
    assert(h3.last() == h[2]);
    assert(hex_val(h3) == u / 16);
    assert(h.last() == h[3]);
    assert(hex_val(h) == (u / 16) * 16 + u % 16);
}

/// Reading an escaped string body back from inside its quotes undoes the
/// escape exactly.
pub proof fn lemma_unq_esc(s: Seq<char>, i: int, t: Seq<char>)
    requires
        1 <= i,
        i + esc_str(t).len() == s.len() - 1,
        s.subrange(i, s.len() - 1) == esc_str(t),
    ensures
        unq_from(s, i) == Some(t),
    decreases t.len(),
{
    if t.len() == 0 {
        assert(i >= s.len() - 1);
        assert(t =~= Seq::<char>::empty());
    } else {
        lemma_esc_str_front(t);
        let c = t[0];
        let head = esc_char(c);
        let rest = esc_str(t.drop_first());
        let hl = head.len() as int;
        assert(s.subrange(i, s.len() - 1) == head + rest);
        assert forall|k: int| 0 <= k < hl implies s[i + k] == head[k] by {
            assert(s.subrange(i, s.len() - 1)[k] == s[i + k]);
            assert((head + rest)[k] == head[k]);
        }
        assert forall|k: int|
            0 <= k < rest.len() implies #[trigger] s.subrange(i + hl, s.len() - 1)[k]
            == rest[k] by {
            assert(s.subrange(i, s.len() - 1)[hl + k] == s[i + hl + k]);
            assert((head + rest)[hl + k] == rest[k]);
            assert(s.subrange(i + hl, s.len() - 1)[k] == s[i + hl + k]);
        }
        assert(s.subrange(i + hl, s.len() - 1) =~= rest);
        assert(seq![c] + t.drop_first() =~= t);
        if c == '"' || c == '\\' || c == '\n' || c == '\r' || c == '\t' {
            assert(hl == 2);
            assert(s[i + 0] == head[0]);
            assert(s[i + 1] == head[1]);
            assert(s[i] == '\\');
            lemma_unq_esc(s, i + 2, t.drop_first());
        } else if (c as u32) < 0x20 {
            assert(hl == 6);
            assert(s[i + 0] == head[0]);
            assert(s[i + 1] == head[1]);
            assert(s[i] == '\\');
            assert(s[i + 1] == 'u');
            let h = s.subrange(i + 2, i + 6);
            assert forall|k: int| 0 <= k < 4 implies #[trigger] h[k] == hex4(
                c as u32 as int,
            )[k] by {
                assert(s[i + (2 + k)] == head[2 + k]);
                assert(h[k] == s[i + 2 + k]);
                assert(head[2 + k] == hex4(c as u32 as int)[k]);
            }
            assert(h =~= hex4(c as u32 as int));
            lemma_hex4_val(c as u32 as int);
            assert(hex_val(h) == c as u32 as int);
            assert(key_text_ok(hex_val(h)));
            vstd::utf8::char_u32_cast(c, c as u32);
            assert(((hex_val(h) as u32) as char) == c);
            lemma_unq_esc(s, i + 6, t.drop_first());
        } else {
            assert(hl == 1);
            assert(s[i + 0] == head[0]);
            assert(s[i] == c);
            assert(c != '\\' && c != '"');
            lemma_unq_esc(s, i + 1, t.drop_first());
        }
    }
}

/// A quoted string reads back as exactly the string it was made from.
pub proof fn lemma_unquote_quoted(t: Seq<char>)
    ensures
        spec_unquote(quoted(t)) == Some(t),
{
    let s = quoted(t);
    assert(s[0] == '"');
    assert(s[s.len() - 1] == '"');
    assert(s.subrange(1, s.len() - 1) =~= esc_str(t));
    lemma_unq_esc(s, 1, t);
}



/// A record that the renderer and the reader agree on: a float's raw text is
/// float-shaped and is no in-range integer literal (what the file-boundary
/// conversion produces), and an integer fits the signed 64-bit range.
pub open spec fn renderable_rec(r: (Seq<char>, TomlEntryView)) -> bool {
    match r.1.value {
        TomlValueView::Int(i) => i64::MIN <= i <= i64::MAX,
        TomlValueView::Float(t) => spec_float_shaped(t) && !(is_int_lit(t) && i64::MIN
            <= int_lit_val(t) <= i64::MAX),
        _ => true,
    }
}

/// Every record of the list is renderable.
pub open spec fn renderable(recs: Seq<(Seq<char>, TomlEntryView)>) -> bool {
    forall|k: int| 0 <= k < recs.len() ==> renderable_rec(#[trigger] recs[k])
}

/// A rendered section name reads back as the name it was made from: a bare
/// name stands verbatim and does not look like a quoted one; any other name
/// is quoted and unquotes to itself.
pub proof fn lemma_render_name_round_trip(nm: Seq<char>)
    ensures
        is_bare_name(nm) ==> render_name(nm) == nm && nm[0] != '"',
        !is_bare_name(nm) ==> render_name(nm).len() > 0 && render_name(nm)[0] == '"'
            && spec_unquote(render_name(nm)) == Some(nm),
{
    if is_bare_name(nm) {
        assert(is_bare_char(nm[0]));
        assert(('"' as u32) == 34);
    } else {
        assert(render_name(nm) == quoted(nm));
        assert(quoted(nm)[0] == '"');
        lemma_unquote_quoted(nm);
    }
}

/// A rendered scalar reads back as the value it was made from, provided a
/// float's raw text is float-shaped and is no integer literal in range —
/// which is what the conversion at the file boundary produces.
pub proof fn lemma_scalar_round_trip(v: TomlValueView)
    requires
        v matches TomlValueView::Int(i) ==> i64::MIN <= i <= i64::MAX,
        v matches TomlValueView::Float(t) ==> spec_float_shaped(t) && !(is_int_lit(t)
            && i64::MIN <= int_lit_val(t) <= i64::MAX),
    ensures
        spec_scalar(render_value(v)) == Some(v),
{
    reveal_strlit("true");
    reveal_strlit("false");
    assert("true"@.len() == 4 && "true"@[0] == 't');
    assert("false"@.len() == 5 && "false"@[0] == 'f' && "false"@[2] == 'l');
    match v {
        TomlValueView::Bool(b) => {
        },
        TomlValueView::Int(i) => {
            let s = int_text(i);
            crate::strutil::lemma_int_text_round_trip(i);
            assert(s[0] == '-' || s[0] == '+' || is_digit(s[0]));
            assert(('t' as u32) == 116 && ('f' as u32) == 102 && ('"' as u32) == 34);
            assert(('-' as u32) == 45 && ('+' as u32) == 43);
            assert(s != "true"@ && s != "false"@);
            assert(!(s.len() > 0 && s[0] == '"'));
        },
        TomlValueView::Float(t) => {
            assert(render_value(v) == t);
            if t == "true"@ {
                assert(is_float_char('t'));
                assert(false);
            }
            if t == "false"@ {
                assert(is_float_char('l'));
                assert(('l' as u32) == 108);
                assert(false);
            }
            if t.len() > 0 && t[0] == '"' {
                assert(is_float_char('"'));
                assert(false);
            }
        },
        TomlValueView::Str(s) => {
            assert(quoted(s)[0] == '"');
            assert(quoted(s) != "true"@);
            assert(quoted(s) != "false"@);
            lemma_unquote_quoted(s);
        },
    }
}


/// No escape produces a raw line break.
pub proof fn lemma_esc_char_no_newline(c: char)
    ensures
        forall|k: int| 0 <= k < esc_char(c).len() ==> (#[trigger] esc_char(c)[k]) != '\n',
{
    assert(('\n' as u32) == 10);
}

/// An escaped string body holds no raw line break.
pub proof fn lemma_esc_str_no_newline(t: Seq<char>)
    ensures
        forall|k: int| 0 <= k < esc_str(t).len() ==> (#[trigger] esc_str(t)[k]) != '\n',
    decreases t.len(),
{
    if t.len() > 0 {
        lemma_esc_str_no_newline(t.drop_last());
        lemma_esc_char_no_newline(t.last());
        assert(forall|k: int|
            0 <= k < esc_str(t).len() ==> (#[trigger] esc_str(t)[k]) == (esc_str(t.drop_last())
                + esc_char(t.last()))[k]);
    }
}

/// No rendered piece of a record line holds a raw line break.
pub proof fn lemma_render_no_newline(nm: Seq<char>, e: TomlEntryView)
    requires
        renderable_rec((nm, e)),
    ensures
        forall|k: int|
            0 <= k < render_name(nm).len() ==> (#[trigger] render_name(nm)[k]) != '\n',
        forall|k: int|
            0 <= k < quoted(e.typ).len() ==> (#[trigger] quoted(e.typ)[k]) != '\n',
        forall|k: int|
            0 <= k < render_value(e.value).len() ==> (#[trigger] render_value(e.value)[k])
                != '\n',
{
    assert(('\n' as u32) == 10);
    lemma_esc_str_no_newline(nm);
    lemma_esc_str_no_newline(e.typ);
    if !is_bare_name(nm) {
        assert(forall|k: int|
            0 <= k < quoted(nm).len() ==> (#[trigger] quoted(nm)[k]) == (seq!['"'] + esc_str(nm)
                + seq!['"'])[k]);
    }
    assert(forall|k: int|
        0 <= k < quoted(e.typ).len() ==> (#[trigger] quoted(e.typ)[k]) == (seq!['"'] + esc_str(
            e.typ,
        ) + seq!['"'])[k]);
    match e.value {
        TomlValueView::Int(i) => {
            crate::strutil::lemma_int_text_round_trip(i);
            let s = int_text(i);
            assert forall|k: int| 0 <= k < s.len() implies (#[trigger] s[k]) != '\n' by {
                if s[0] == '-' || s[0] == '+' {
                    if k > 0 {
                        assert(is_digit(s.drop_first()[k - 1]));
                    }
                } else {
                    assert(is_digit(s[k]));
                }
            }
        },
        TomlValueView::Float(t) => {
            assert(forall|k: int| 0 <= k < t.len() ==> is_float_char(#[trigger] t[k]));
        },
        TomlValueView::Bool(b) => {
            reveal_strlit("true");
            reveal_strlit("false");
            assert forall|k: int|
                0 <= k < render_value(e.value).len() implies (#[trigger] render_value(e.value)[k])
                != '\n' by {
                if b {
                    assert(render_value(e.value)[k] == "true"@[k]);
                } else {
                    assert(render_value(e.value)[k] == "false"@[k]);
                }
            }
        },
        TomlValueView::Str(s) => {
            lemma_esc_str_no_newline(s);
            assert(forall|k: int|
                0 <= k < quoted(s).len() ==> (#[trigger] quoted(s)[k]) == (seq!['"'] + esc_str(s)
                    + seq!['"'])[k]);
        },
    }
}

/// The first line break after a position with none before it is the line's
/// end.
pub proof fn lemma_eol_is(s: Seq<char>, i: int, p: int)
    requires
        0 <= i <= p < s.len(),
        s[p] == '\n',
        forall|k: int| i <= k < p ==> s[k] != '\n',
    ensures
        eol(s, i) == p,
    decreases p - i,
{
    if i < p {
        lemma_eol_is(s, i + 1, p);
    }
}

/// One line of the document: from a position where the remaining text is a
/// break-free line, a break, and a remainder, the line scanner finds exactly
/// that line and leaves the walk at the remainder.
pub proof fn lemma_line_at(s: Seq<char>, i: int, line: Seq<char>, rest: Seq<char>)
    requires
        0 <= i <= s.len(),
        s.subrange(i, s.len() as int) == line + seq!['\n'] + rest,
        forall|k: int| 0 <= k < line.len() ==> (#[trigger] line[k]) != '\n',
    ensures
        eol(s, i) == i + line.len(),
        i + line.len() < s.len(),
        s.subrange(i, i + line.len()) == line,
        s.subrange(i + line.len() + 1, s.len() as int) == rest,
    decreases 0int,
{
    let whole = line + seq!['\n'] + rest;
    assert(s.len() - i == whole.len());
    assert forall|k: int| 0 <= k < whole.len() implies s[i + k] == whole[k] by {
        assert(s.subrange(i, s.len() as int)[k] == s[i + k]);
    }
    assert(s[i + line.len()] == '\n') by {
        assert(whole[line.len() as int] == '\n');
    }
    assert forall|k: int| i <= k < i + line.len() implies s[k] != '\n' by {
        assert(s[i + (k - i)] == whole[k - i]);
        assert(whole[k - i] == line[k - i]);
    }
    lemma_eol_is(s, i, i + line.len());
    assert forall|k: int| 0 <= k < line.len() implies #[trigger] s.subrange(
        i,
        i + line.len(),
    )[k] == line[k] by {
        assert(s[i + k] == whole[k]);
        assert(s.subrange(i, i + line.len())[k] == s[i + k]);
    }
    assert(s.subrange(i, i + line.len()) =~= line);
    assert forall|k: int| 0 <= k < rest.len() implies #[trigger] s.subrange(
        i + line.len() + 1,
        s.len() as int,
    )[k] == rest[k] by {
        assert(s[i + (line.len() + 1 + k)] == whole[line.len() + 1 + k]);
        assert(whole[line.len() + 1 + k] == rest[k]);
        assert(s.subrange(i + line.len() + 1, s.len() as int)[k] == s[i + line.len() + 1 + k]);
    }
    assert(s.subrange(i + line.len() + 1, s.len() as int) =~= rest);
}


/// Walking one rendered record: from any state whose close succeeds, the
/// reader takes the record's three lines and stands after them with the
/// record's section open and both fields read.
#[verifier::rlimit(100)]
pub proof fn lemma_record_lines(
    s: Seq<char>,
    i: int,
    acc: Seq<(Seq<char>, TomlEntryView)>,
    cur: Option<Seq<char>>,
    ctyp: Option<Seq<char>>,
    cval: Option<TomlValueView>,
    acc2: Seq<(Seq<char>, TomlEntryView)>,
    nm: Seq<char>,
    e: TomlEntryView,
    tail: Seq<char>,
)
    requires
        0 <= i <= s.len(),
        s.subrange(i, s.len() as int) == render_record(nm, e) + tail,
        spec_close(acc, cur, ctyp, cval) == Ok::<Seq<(Seq<char>, TomlEntryView)>, ParseError>(
            acc2,
        ),
        renderable_rec((nm, e)),
    ensures
        spec_parse_from(s, i, acc, cur, ctyp, cval) == spec_parse_from(
            s,
            i + render_record(nm, e).len(),
            acc2,
            Some(nm),
            Some(e.typ),
            Some(e.value),
        ),
{
    reveal_strlit("typ = ");
    reveal_strlit("value = ");
    assert("typ = "@.len() == 6 && "typ = "@[0] == 't');
    assert("value = "@.len() == 8 && "value = "@[0] == 'v');
    lemma_render_no_newline(nm, e);
    let rn = render_name(nm);
    let qt = quoted(e.typ);
    let rv = render_value(e.value);
    let hline = seq!['['] + rn + seq![']'];
    let tline = "typ = "@ + qt;
    let vline = "value = "@ + rv;
    let rr = render_record(nm, e);
    assert(rr =~= hline + seq!['\n'] + (tline + seq!['\n'] + (vline + seq!['\n'])));
    assert(s.subrange(i, s.len() as int) =~= hline + seq!['\n'] + (tline + seq!['\n'] + (vline
        + seq!['\n'] + tail)));

    // The header line.
    assert(forall|k: int| 0 <= k < hline.len() ==> (#[trigger] hline[k]) != '\n');
    lemma_line_at(s, i, hline, tline + seq!['\n'] + (vline + seq!['\n'] + tail));
    let i2 = i + hline.len() + 1;
    assert(hline[0] == '[');
    assert(hline[hline.len() - 1] == ']') by {
        assert((seq![']'])[0] == ']');
    }
    assert(hline.subrange(1, hline.len() - 1) =~= rn);
    lemma_render_name_round_trip(nm);
    assert(('[' as u32) == 91 && ('#' as u32) == 35 && (']' as u32) == 93);
    assert(spec_parse_from(s, i, acc, cur, ctyp, cval) == spec_parse_from(
        s,
        i2,
        acc2,
        Some(nm),
        None,
        None,
    ));

    // The kind-tag line.
    assert(forall|k: int| 0 <= k < tline.len() ==> (#[trigger] tline[k]) != '\n') by {
        assert(forall|k: int|
            0 <= k < tline.len() ==> (#[trigger] tline[k]) == (if k < 6 {
                "typ = "@[k]
            } else {
                qt[k - 6]
            }));
        assert("typ = "@[0] == 't' && "typ = "@[1] == 'y' && "typ = "@[2] == 'p' && "typ = "@[3]
            == ' ' && "typ = "@[4] == '=' && "typ = "@[5] == ' ');
        assert(('\n' as u32) == 10);
    }
    lemma_line_at(s, i2, tline, vline + seq!['\n'] + tail);
    let i3 = i2 + tline.len() + 1;
    assert(tline[0] == 't');
    assert(tline.len() >= 7) by {
        assert(qt.len() >= 2);
    }
    assert(tline.subrange(0, 6) =~= "typ = "@);
    assert(tline.subrange(6, tline.len() as int) =~= qt);
    lemma_unquote_quoted(e.typ);
    assert(('t' as u32) == 116);
    assert(spec_parse_from(s, i2, acc2, Some(nm), None, None) == spec_parse_from(
        s,
        i3,
        acc2,
        Some(nm),
        Some(e.typ),
        None,
    ));

    // The value line.
    assert(forall|k: int| 0 <= k < vline.len() ==> (#[trigger] vline[k]) != '\n') by {
        assert(forall|k: int|
            0 <= k < vline.len() ==> (#[trigger] vline[k]) == (if k < 8 {
                "value = "@[k]
            } else {
                rv[k - 8]
            }));
        assert("value = "@[0] == 'v' && "value = "@[1] == 'a' && "value = "@[2] == 'l'
            && "value = "@[3] == 'u' && "value = "@[4] == 'e' && "value = "@[5] == ' '
            && "value = "@[6] == '=' && "value = "@[7] == ' ');
        assert(('\n' as u32) == 10);
    }
    lemma_line_at(s, i3, vline, tail);
    let i4 = i3 + vline.len() + 1;
    assert(vline[0] == 'v');
    assert(('v' as u32) == 118);
    if vline.len() >= 7 && vline.subrange(0, 6) == "typ = "@ {
        assert(vline.subrange(0, 6)[0] == 'v');
        assert(false);
    }
    assert(vline.len() >= 9) by {
        assert(rv.len() >= 1) by {
            match e.value {
                TomlValueView::Int(v) => {
                    crate::strutil::lemma_int_text_round_trip(v);
                },
                TomlValueView::Float(t) => {},
                TomlValueView::Bool(b) => {
                    reveal_strlit("true");
                    reveal_strlit("false");
                },
                TomlValueView::Str(t) => {},
            }
        }
    }
    assert(vline.subrange(0, 8) =~= "value = "@);
    assert(vline.subrange(8, vline.len() as int) =~= rv);
    lemma_scalar_round_trip(e.value);
    assert(spec_parse_from(s, i3, acc2, Some(nm), Some(e.typ), None) == spec_parse_from(
        s,
        i4,
        acc2,
        Some(nm),
        Some(e.typ),
        Some(e.value),
    ));
    assert(i4 == i + rr.len());
}


/// Front decomposition of the rendered document.
pub proof fn lemma_render_doc_front(recs: Seq<(Seq<char>, TomlEntryView)>)
    requires
        recs.len() > 0,
    ensures
        render_doc(recs) == render_record(recs[0].0, recs[0].1) + render_doc(recs.drop_first()),
    decreases recs.len(),
{
    if recs.len() == 1 {
        assert(recs.drop_last() =~= Seq::<(Seq<char>, TomlEntryView)>::empty());
        assert(recs.drop_first() =~= Seq::<(Seq<char>, TomlEntryView)>::empty());
        assert(render_record(recs[0].0, recs[0].1) + render_doc(recs.drop_first())
            =~= Seq::<char>::empty() + render_record(recs.last().0, recs.last().1));
    } else {
        lemma_render_doc_front(recs.drop_last());
        assert(recs.drop_last()[0] == recs[0]);
        assert(recs.drop_last().drop_first() =~= recs.drop_first().drop_last());
        assert(recs.drop_first().last() == recs.last());
        assert(render_record(recs[0].0, recs[0].1) + (render_doc(recs.drop_first().drop_last())
            + render_record(recs.last().0, recs.last().1)) =~= (render_record(
            recs[0].0,
            recs[0].1,
        ) + render_doc(recs.drop_first().drop_last())) + render_record(
            recs.last().0,
            recs.last().1,
        ));
    }
}

/// Walking a rendered document from any state whose close succeeds reads
/// back exactly the records it was made from, after what was already read.
#[verifier::rlimit(100)]
pub proof fn lemma_parse_render_aux(
    s: Seq<char>,
    i: int,
    acc: Seq<(Seq<char>, TomlEntryView)>,
    cur: Option<Seq<char>>,
    ctyp: Option<Seq<char>>,
    cval: Option<TomlValueView>,
    acc2: Seq<(Seq<char>, TomlEntryView)>,
    recs: Seq<(Seq<char>, TomlEntryView)>,
)
    requires
        0 <= i <= s.len(),
        s.subrange(i, s.len() as int) == render_doc(recs),
        spec_close(acc, cur, ctyp, cval) == Ok::<Seq<(Seq<char>, TomlEntryView)>, ParseError>(
            acc2,
        ),
        renderable(recs),
    ensures
        spec_parse_from(s, i, acc, cur, ctyp, cval) == Ok::<
            Seq<(Seq<char>, TomlEntryView)>,
            ParseError,
        >(acc2 + recs),
    decreases recs.len(),
{
    if recs.len() == 0 {
        assert(s.len() - i == 0);
        assert(acc2 + recs =~= acc2);
    } else {
        lemma_render_doc_front(recs);
        let nm = recs[0].0;
        let e = recs[0].1;
        let rr = render_record(nm, e);
        let tail = render_doc(recs.drop_first());
        assert(renderable_rec(recs[0]));
        assert((nm, e) == recs[0]);
        assert(s.subrange(i, s.len() as int) == rr + tail);
        assert(s.subrange(i, s.len() as int).len() == s.len() - i);
        assert((rr + tail).len() == rr.len() + tail.len());
        assert(s.len() - i == rr.len() + tail.len());
        lemma_record_lines(s, i, acc, cur, ctyp, cval, acc2, nm, e, tail);
        let i2 = i + rr.len();
        assert(i2 <= s.len());
        assert forall|k: int| 0 <= k < tail.len() implies #[trigger] s.subrange(
            i2,
            s.len() as int,
        )[k] == tail[k] by {
            assert(s.subrange(i, s.len() as int)[rr.len() + k] == s[i + (rr.len() + k)]);
            assert((rr + tail)[rr.len() + k] == tail[k]);
            assert(s.subrange(i2, s.len() as int)[k] == s[i2 + k]);
        }
        assert(s.subrange(i2, s.len() as int) =~= tail);
        assert(renderable(recs.drop_first())) by {
            assert(forall|k: int|
                0 <= k < recs.drop_first().len() ==> (#[trigger] recs.drop_first()[k]) == recs[k
                    + 1]);
        }
        assert(spec_close(acc2, Some(nm), Some(e.typ), Some(e.value)) == Ok::<
            Seq<(Seq<char>, TomlEntryView)>,
            ParseError,
        >(acc2.push((nm, TomlEntryView { typ: e.typ, value: e.value }))));
        assert(TomlEntryView { typ: e.typ, value: e.value } == e);
        lemma_parse_render_aux(
            s,
            i2,
            acc2,
            Some(nm),
            Some(e.typ),
            Some(e.value),
            acc2.push(recs[0]),
            recs.drop_first(),
        );
        assert(acc2.push(recs[0]) + recs.drop_first() =~= acc2 + recs);
    }
}

/// Rendering records and reading the document back yields exactly those
/// records: the parser is the inverse of the renderer on its own output.
pub proof fn lemma_parse_render_round_trip(recs: Seq<(Seq<char>, TomlEntryView)>)
    requires
        renderable(recs),
    ensures
        spec_parse(render_doc(recs)) == Ok::<Seq<(Seq<char>, TomlEntryView)>, ParseError>(recs),
{
    let s = render_doc(recs);
    assert(s.subrange(0, s.len() as int) =~= s);
    lemma_parse_render_aux(
        s,
        0,
        Seq::<(Seq<char>, TomlEntryView)>::empty(),
        None,
        None,
        None,
        Seq::<(Seq<char>, TomlEntryView)>::empty(),
        recs,
    );
    assert(Seq::<(Seq<char>, TomlEntryView)>::empty() + recs =~= recs);
}

/// Decide whether a name can stand unquoted.
fn is_bare_exec(s: &str) -> (r: bool)
    ensures
        r == is_bare_name(s@),
{
    let n = s.unicode_len();
    if n == 0 {
        return false;
    }
    let mut i: usize = 0;
    while i < n
        invariant
            i <= n,
            n == s@.len(),
            n > 0,
            forall|k: int| 0 <= k < i ==> is_bare_char(#[trigger] s@[k]),
        decreases n - i,
    {
        let u = s.get_char(i) as u32;
        if !((48 <= u && u <= 57) || (97 <= u && u <= 122) || (65 <= u && u <= 90) || u == 95
            || u == 45) {
            assert(!is_bare_char(s@[i as int]));
            return false;
        }
        assert(is_bare_char(s@[i as int]));
        i = i + 1;
    }
    true
}

/// Render sorted wire records as document text.
#[verifier::loop_isolation(false)]
#[verifier::rlimit(60)]
pub fn render_toml(records: &Vec<(String, TomlEntry)>) -> (r: String)
    ensures
        r@ == render_doc(wire_view(records@)),
{
    let n = records.len();
    let mut out = String::new();
    let mut i: usize = 0;
    proof {
        assert(wire_view(records@).subrange(0, 0) =~= Seq::<(Seq<char>, TomlEntryView)>::empty());
        assert(out@ =~= render_doc(wire_view(records@).subrange(0, 0)));
    }
    while i < n
        invariant
            i <= n,
            out@ == render_doc(wire_view(records@).subrange(0, i as int)),
        decreases n - i,
    {
        let ghost before = out@;
        let name = &records[i].0;
        let entry = &records[i].1;
        push_char(&mut out, '[');
        if is_bare_exec(name.as_str()) {
            out.append(name.as_str());
        } else {
            append_quoted(&mut out, name.as_str());
        }
        push_char(&mut out, ']');
        push_char(&mut out, '\n');
        out.append("typ = ");
        append_quoted(&mut out, entry.typ.as_str());
        push_char(&mut out, '\n');
        out.append("value = ");
        match &entry.value {
            TomlValue::Int(v) => {
                let t = fmt_i64(*v);
                out.append(t.as_str());
            },
            TomlValue::Float(t) => {
                out.append(t.as_str());
            },
            TomlValue::Bool(b) => {
                if *b {
                    out.append("true");
                } else {
                    out.append("false");
                }
            },
            TomlValue::Str(s) => {
                append_quoted(&mut out, s.as_str());
            },
        }
        push_char(&mut out, '\n');
        proof {
            let rv = wire_view(records@);
            assert(rv.subrange(0, i + 1).drop_last() =~= rv.subrange(0, i as int));
            assert(rv.subrange(0, i + 1).last() == rv[i as int]);
            assert(out@ =~= before + render_record(rv[i as int].0, rv[i as int].1));
        }
        i = i + 1;
    }
    proof {
        assert(wire_view(records@).subrange(0, n as int) =~= wire_view(records@));
    }
    out
}

// ---------------------------------------------------------------------------
// Parsing
// ---------------------------------------------------------------------------
/// Failures of the document reader.
#[derive(Debug, Clone, Copy, PartialEq, Eq, Structural)]
pub enum ParseError {
    /// A section header that is not `[name]` with a readable name.
    BadHeader,
    /// A line that is neither a header, a comment, nor a known field.
    BadLine,
    /// A quoted string with a malformed escape or missing quote.
    BadString,
    /// A value that is no boolean, integer, float or string literal.
    BadScalar,
    /// A field given twice within one section.
    DuplicateField,
    /// A section closed without both its kind tag and its value.
    MissingField,
}

/// Position of the first line break at or after `i`, or the text's end.
pub open spec fn eol(s: Seq<char>, i: int) -> int
    decreases s.len() - i,
{
    if i >= s.len() {
        s.len() as int
    } else if s[i] == '\n' {
        i
    } else {
        eol(s, i + 1)
    }
}

pub proof fn lemma_eol(s: Seq<char>, i: int)
    requires
        0 <= i <= s.len(),
    ensures
        i <= eol(s, i) <= s.len(),
        eol(s, i) < s.len() ==> s[eol(s, i)] == '\n',
        forall|k: int| i <= k < eol(s, i) ==> s[k] != '\n',
    decreases s.len() - i,
{
    if i < s.len() && s[i] != '\n' {
        lemma_eol(s, i + 1);
    }
}

/// Scan for the first line break at or after `i`.
fn line_end(s: &str, i: usize) -> (r: usize)
    requires
        i <= s@.len(),
    ensures
        r == eol(s@, i as int),
{
    let n = s.unicode_len();
    let mut j = i;
    while j < n
        invariant
            i <= j <= n,
            n == s@.len(),
            eol(s@, i as int) == eol(s@, j as int),
        decreases n - j,
    {
        if s.get_char(j) == '\n' {
            return j;
        }
        j = j + 1;
    }
    j
}

/// A successful tail with `p` put in front of it.
pub open spec fn opt_prefix(p: Seq<char>, o: Option<Seq<char>>) -> Option<Seq<char>> {
    match o {
        Some(t) => Some(p + t),
        None => None,
    }
}

pub proof fn lemma_opt_prefix_push(p: Seq<char>, c: char, o2: Option<Seq<char>>, o: Option<
    Seq<char>,
>)
    requires
        o2 == (match o {
            Some(t) => Some(seq![c] + t),
            None => None::<Seq<char>>,
        }),
    ensures
        opt_prefix(p, o2) == opt_prefix(p.push(c), o),
{
    match o {
        Some(t) => {
            assert(p + (seq![c] + t) =~= p.push(c) + t);
        },
        None => {},
    }
}

/// Reading of a quoted string's body from position `i` up to the closing
/// quote: ordinary characters are taken as they stand, backslash escapes are
/// undone, and a stray quote, a dangling backslash, an unknown escape or a
/// bad four-digit escape reads as nothing.
pub open spec fn unq_from(s: Seq<char>, i: int) -> Option<Seq<char>>
    decreases s.len() - i,
{
    if i >= s.len() - 1 {
        Some(Seq::<char>::empty())
    } else if s[i] == '\\' {
        if i + 1 >= s.len() - 1 {
            None
        } else {
            let e = s[i + 1];
            if e == '"' || e == '\\' || e == 'n' || e == 'r' || e == 't' {
                let c = if e == '"' {
                    '"'
                } else if e == '\\' {
                    '\\'
                } else if e == 'n' {
                    '\n'
                } else if e == 'r' {
                    '\r'
                } else {
                    '\t'
                };
                match unq_from(s, i + 2) {
                    Some(t) => Some(seq![c] + t),
                    None => None,
                }
            } else if e == 'u' {
                if i + 6 > s.len() - 1 {
                    None
                } else {
                    let h = s.subrange(i + 2, i + 6);
                    if all_hex_digits(h) && hex_val(h) <= u32::MAX && key_text_ok(hex_val(h)) {
                        match unq_from(s, i + 6) {
                            Some(t) => Some(seq![((hex_val(h) as u32) as char)] + t),
                            None => None,
                        }
                    } else {
                        None
                    }
                }
            } else {
                None
            }
        }
    } else if s[i] == '"' {
        None
    } else {
        match unq_from(s, i + 1) {
            Some(t) => Some(seq![s[i]] + t),
            None => None,
        }
    }
}

/// Reading of a whole quoted string token: the undone body between two
/// double quotes; anything else reads as nothing.
pub open spec fn spec_unquote(s: Seq<char>) -> Option<Seq<char>> {
    if s.len() >= 2 && s[0] == '"' && s[s.len() - 1] == '"' {
        unq_from(s, 1)
    } else {
        None
    }
}

/// Read a quoted string token, undoing the escapes that the renderer makes.
#[verifier::loop_isolation(false)]
fn parse_quoted(s: &str) -> (r: Option<String>)
    ensures
        match r {
            Some(t) => spec_unquote(s@) == Some(t@),
            None => spec_unquote(s@) is None,
        },
{
    let n = s.unicode_len();
    if n < 2 || s.get_char(0) != '"' || s.get_char(n - 1) != '"' {
        return None;
    }
    let mut out = String::new();
    let mut i: usize = 1;
    proof {
        assert(Seq::<char>::empty() + unq_from(s@, 1).unwrap()
            =~= unq_from(s@, 1).unwrap());
    }
    while i < n - 1
        invariant
            1 <= i <= n - 1,
            unq_from(s@, 1) == opt_prefix(out@, unq_from(s@, i as int)),
        decreases n - 1 - i,
    {
        let ghost prev = out@;
        let c = s.get_char(i);
        if c == '\\' {
            if i + 1 >= n - 1 {
                return None;
            }
            let e = s.get_char(i + 1);
            if e == '"' || e == '\\' || e == 'n' || e == 'r' || e == 't' {
                let c2 = if e == '"' {
                    '"'
                } else if e == '\\' {
                    '\\'
                } else if e == 'n' {
                    '\n'
                } else if e == 'r' {
                    '\r'
                } else {
                    '\t'
                };
                push_char(&mut out, c2);
                proof {
                    lemma_opt_prefix_push(
                        prev,
                        c2,
                        unq_from(s@, i as int),
                        unq_from(s@, i + 2),
                    );
                }
                i = i + 2;
            } else if e == 'u' {
                if n - 1 - i < 6 {
                    return None;
                }
                let hexs = s.substring_char(i + 2, i + 6);
                let v = match crate::strutil::parse_hex_u32(hexs) {
                    Some(v) => v,
                    None => {
                        return None;
                    },
                };
                let c2 = match char_from_u32(v) {
                    Some(c2) => c2,
                    None => {
                        proof {
                            crate::strutil::lemma_hex_val_nonneg(s@.subrange(i + 2, i + 6));
                        }
                        return None;
                    },
                };
                push_char(&mut out, c2);
                proof {
                    vstd::utf8::char_u32_cast(c2, v);
                    assert(((hex_val(s@.subrange(i + 2, i + 6)) as u32) as char) == c2);
                    lemma_opt_prefix_push(
                        prev,
                        c2,
                        unq_from(s@, i as int),
                        unq_from(s@, i + 6),
                    );
                }
                i = i + 6;
            } else {
                return None;
            }
        } else if c == '"' {
            return None;
        } else {
            push_char(&mut out, c);
            proof {
                lemma_opt_prefix_push(prev, c, unq_from(s@, i as int), unq_from(s@, i + 1));
            }
            i = i + 1;
        }
    }
    proof {
        assert(unq_from(s@, i as int) == Some(Seq::<char>::empty()));
        assert(out@ + Seq::<char>::empty() =~= out@);
    }
    Some(out)
}

/// Characters that the decimal/// Characters that the decimal, exponent, infinity and not-a-number float
/// forms use.
pub open spec fn is_float_char(c: char) -> bool {
    is_digit(c) || c == '.' || c == 'e' || c == 'E' || c == '+' || c == '-' || c == '_' || c
        == 'i' || c == 'n' || c == 'f' || c == 'a' || c == 'N'
}

/// A token shaped like a float literal: nonempty, made of float characters.
pub open spec fn spec_float_shaped(s: Seq<char>) -> bool {
    s.len() > 0 && forall|k: int| 0 <= k < s.len() ==> is_float_char(#[trigger] s[k])
}

fn is_float_shaped(s: &str) -> (r: bool)
    ensures
        r == spec_float_shaped(s@),
{
    let n = s.unicode_len();
    if n == 0 {
        return false;
    }
    let mut i: usize = 0;
    while i < n
        invariant
            i <= n,
            n == s@.len(),
            forall|k: int| 0 <= k < i ==> is_float_char(#[trigger] s@[k]),
        decreases n - i,
    {
        let c = s.get_char(i);
        let u = c as u32;
        let ok = (48 <= u && u <= 57) || u == 46 || u == 101 || u == 69 || u == 43 || u == 45
            || u == 95 || u == 105 || u == 110 || u == 102 || u == 97 || u == 78;
        if !ok {
            assert(!is_float_char(s@[i as int]));
            return false;
        }
        assert(is_float_char(s@[i as int]));
        i = i + 1;
    }
    true
}

/// Reading of one scalar token: the boolean keywords, a quoted string, an
/// optionally signed integer within the signed 64-bit range, or a token
/// shaped like a float literal kept as raw text; anything else reads as
/// nothing.
pub open spec fn spec_scalar(s: Seq<char>) -> Option<TomlValueView> {
    if s == "true"@ {
        Some(TomlValueView::Bool(true))
    } else if s == "false"@ {
        Some(TomlValueView::Bool(false))
    } else if s.len() > 0 && s[0] == '"' {
        match spec_unquote(s) {
            Some(t) => Some(TomlValueView::Str(t)),
            None => None,
        }
    } else if is_int_lit(s) && i64::MIN <= int_lit_val(s) <= i64::MAX {
        Some(TomlValueView::Int(int_lit_val(s)))
    } else if spec_float_shaped(s) {
        Some(TomlValueView::Float(s))
    } else {
        None
    }
}

/// Read one scalar token.
fn parse_scalar(s: &str) -> (r: Option<TomlValue>)
    ensures
        match r {
            Some(v) => spec_scalar(s@) == Some(v@),
            None => spec_scalar(s@) is None,
        },
{
    if str_eq(s, "true") {
        return Some(TomlValue::Bool(true));
    }
    if str_eq(s, "false") {
        return Some(TomlValue::Bool(false));
    }
    let n = s.unicode_len();
    if n > 0 && s.get_char(0) == '"' {
        return match parse_quoted(s) {
            Some(t) => Some(TomlValue::Str(t)),
            None => None,
        };
    }
    match parse_i64(s) {
        Some(v) => Some(TomlValue::Int(v)),
        None => {
            if is_float_shaped(s) {
                Some(TomlValue::Float(String::from_str(s)))
            } else {
                None
            }
        },
    }
}

/// Close the open section, if any: it must carry both its fields.
pub open spec fn spec_close(
    acc: Seq<(Seq<char>, TomlEntryView)>,
    cur: Option<Seq<char>>,
    ctyp: Option<Seq<char>>,
    cval: Option<TomlValueView>,
) -> Result<Seq<(Seq<char>, TomlEntryView)>, ParseError> {
    match cur {
        Some(nm) => match (ctyp, cval) {
            (Some(t), Some(v)) => Ok(acc.push((nm, TomlEntryView { typ: t, value: v }))),
            _ => Err(ParseError::MissingField),
        },
        None => Ok(acc),
    }
}

/// Reading of a document from position `i` onward, given the walker's
/// state: the records read so far and the open section's pieces.  One line
/// is read per step: blank and comment lines pass, a header closes the open
/// section and opens a new one, the two field lines fill it.
pub open spec fn spec_parse_from(
    s: Seq<char>,
    i: int,
    acc: Seq<(Seq<char>, TomlEntryView)>,
    cur: Option<Seq<char>>,
    ctyp: Option<Seq<char>>,
    cval: Option<TomlValueView>,
) -> Result<Seq<(Seq<char>, TomlEntryView)>, ParseError>
    decreases s.len() - i,
{
    if i >= s.len() {
        spec_close(acc, cur, ctyp, cval)
    } else {
        let j0 = eol(s, i);
        let j = if i <= j0 <= s.len() {
            j0
        } else {
            i
        };
        let next = if j < s.len() {
            j + 1
        } else {
            s.len() as int
        };
        let line = s.subrange(i, j);
        if line.len() == 0 || line[0] == '#' {
            spec_parse_from(s, next, acc, cur, ctyp, cval)
        } else if line[0] == '[' {
            if line.len() < 2 || line[line.len() - 1] != ']' {
                Err(ParseError::BadHeader)
            } else {
                match spec_close(acc, cur, ctyp, cval) {
                    Ok(acc2) => {
                        let namepart = line.subrange(1, line.len() - 1);
                        if namepart.len() > 0 && namepart[0] == '"' {
                            match spec_unquote(namepart) {
                                Some(nm) => spec_parse_from(s, next, acc2, Some(nm), None, None),
                                None => Err(ParseError::BadHeader),
                            }
                        } else {
                            spec_parse_from(s, next, acc2, Some(namepart), None, None)
                        }
                    },
                    Err(e) => Err(e),
                }
            }
        } else if cur is None {
            Err(ParseError::BadLine)
        } else if line.len() >= 7 && line.subrange(0, 6) == "typ = "@ {
            if ctyp is Some {
                Err(ParseError::DuplicateField)
            } else {
                match spec_unquote(line.subrange(6, line.len() as int)) {
                    Some(t) => spec_parse_from(s, next, acc, cur, Some(t), cval),
                    None => Err(ParseError::BadString),
                }
            }
        } else if line.len() >= 9 && line.subrange(0, 8) == "value = "@ {
            if cval is Some {
                Err(ParseError::DuplicateField)
            } else {
                match spec_scalar(line.subrange(8, line.len() as int)) {
                    Some(v) => spec_parse_from(s, next, acc, cur, ctyp, Some(v)),
                    None => Err(ParseError::BadScalar),
                }
            }
        } else {
            Err(ParseError::BadLine)
        }
    }
}

/// Reading of a whole document, starting with nothing read and no section
/// open.
pub open spec fn spec_parse(s: Seq<char>) -> Result<Seq<(Seq<char>, TomlEntryView)>, ParseError> {
    spec_parse_from(
        s,
        0,
        Seq::<(Seq<char>, TomlEntryView)>::empty(),
        None,
        None,
        None,
    )
}

/// Image of an optional owned name.
pub open spec fn opt_str_view(o: Option<String>) -> Option<Seq<char>> {
    match o {
        Some(s) => Some(s@),
        None => None,
    }
}

/// Image of an optional wire value.
pub open spec fn opt_val_view(o: Option<TomlValue>) -> Option<TomlValueView> {
    match o {
        Some(v) => Some(v@),
        None => None,
    }
}

/// Read a whole document into wire records, in document order, exactly as
/// `spec_parse` reads it.  The format is line-based: `[name]` headers with
/// bare or quoted names, `typ = "..."` and `value = ...` fields, blank lines
/// and `#` comments between them.  Every document that `render_toml`
/// produces reads back as the records it was made from; that round trip is
/// `lemma_parse_render_round_trip`.
#[verifier::loop_isolation(false)]
#[verifier::rlimit(90)]
pub fn parse_toml(text: &str) -> (r: Result<Vec<(String, TomlEntry)>, ParseError>)
    ensures
        match r {
            Ok(recs) => spec_parse(text@) == Ok::<Seq<(Seq<char>, TomlEntryView)>, ParseError>(
                wire_view(recs@),
            ),
            Err(e) => spec_parse(text@) == Err::<Seq<(Seq<char>, TomlEntryView)>, ParseError>(e),
        },
{
    let n = text.unicode_len();
    let mut out: Vec<(String, TomlEntry)> = Vec::new();
    let mut cur: Option<String> = None;
    let mut cur_typ: Option<String> = None;
    let mut cur_val: Option<TomlValue> = None;
    let mut i: usize = 0;
    proof {
        assert(wire_view(out@) =~= Seq::<(Seq<char>, TomlEntryView)>::empty());
    }
    while i < n
        invariant
            i <= n,
            spec_parse(text@) == spec_parse_from(
                text@,
                i as int,
                wire_view(out@),
                opt_str_view(cur),
                opt_str_view(cur_typ),
                opt_val_view(cur_val),
            ),
        decreases n - i,
    {
        let ghost st_acc = wire_view(out@);
        let ghost st_cur = opt_str_view(cur);
        let ghost st_typ = opt_str_view(cur_typ);
        let ghost st_val = opt_val_view(cur_val);
        let ghost i0 = i as int;
        let j = line_end(text, i);
        proof {
            lemma_eol(text@, i as int);
        }
        let next_i: usize = if j < n {
            j + 1
        } else {
            n
        };
        let line = text.substring_char(i, j);
        let ln = line.unicode_len();
        if ln == 0 || line.get_char(0) == '#' {
            // a blank or comment line
        } else if line.get_char(0) == '[' {
            if ln < 2 || line.get_char(ln - 1) != ']' {
                return Err(ParseError::BadHeader);
            }
            let finished = cur;
            match finished {
                Some(nm) => {
                    let t = match cur_typ {
                        Some(t) => t,
                        None => {
                            return Err(ParseError::MissingField);
                        },
                    };
                    let v = match cur_val {
                        Some(v) => v,
                        None => {
                            return Err(ParseError::MissingField);
                        },
                    };
                    let ghost prev = wire_view(out@);
                    out.push((nm, TomlEntry { typ: t, value: v }));
                    proof {
                        assert(wire_view(out@) =~= prev.push(
                            (out@.last().0@, out@.last().1@),
                        ));
                        assert(spec_close(st_acc, st_cur, st_typ, st_val)
                            == Ok::<Seq<(Seq<char>, TomlEntryView)>, ParseError>(wire_view(out@)));
                    }
                },
                None => {},
            }
            let namepart = line.substring_char(1, ln - 1);
            let name = if namepart.unicode_len() > 0 && namepart.get_char(0) == '"' {
                match parse_quoted(namepart) {
                    Some(s) => s,
                    None => {
                        return Err(ParseError::BadHeader);
                    },
                }
            } else {
                String::from_str(namepart)
            };
            cur = Some(name);
            cur_typ = None;
            cur_val = None;
        } else {
            if cur.is_none() {
                return Err(ParseError::BadLine);
            }
            if ln >= 7 && str_eq(line.substring_char(0, 6), "typ = ") {
                if cur_typ.is_some() {
                    return Err(ParseError::DuplicateField);
                }
                match parse_quoted(line.substring_char(6, ln)) {
                    Some(t) => {
                        cur_typ = Some(t);
                    },
                    None => {
                        return Err(ParseError::BadString);
                    },
                }
            } else if ln >= 9 && str_eq(line.substring_char(0, 8), "value = ") {
                if cur_val.is_some() {
                    return Err(ParseError::DuplicateField);
                }
                match parse_scalar(line.substring_char(8, ln)) {
                    Some(v) => {
                        cur_val = Some(v);
                    },
                    None => {
                        return Err(ParseError::BadScalar);
                    },
                }
            } else {
                return Err(ParseError::BadLine);
            }
        }
        proof {
            assert(spec_parse_from(text@, i0, st_acc, st_cur, st_typ, st_val)
                == spec_parse_from(
                text@,
                next_i as int,
                wire_view(out@),
                opt_str_view(cur),
                opt_str_view(cur_typ),
                opt_val_view(cur_val),
            ));
        }
        i = next_i;
    }
    let finished = cur;
    match finished {
        Some(nm) => {
            let t = match cur_typ {
                Some(t) => t,
                None => {
                    return Err(ParseError::MissingField);
                },
            };
            let v = match cur_val {
                Some(v) => v,
                None => {
                    return Err(ParseError::MissingField);
                },
            };
            let ghost prev = wire_view(out@);
            out.push((nm, TomlEntry { typ: t, value: v }));
            proof {
                assert(wire_view(out@) =~= prev.push((out@.last().0@, out@.last().1@)));
            }
        },
        None => {},
    }
    Ok(out)
}

} // verus!
