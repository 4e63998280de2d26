//! Filter predicates over `(logical_name, kind_tag)` pairs, used to select
//! subsets of settings for export.  An entry is included when any active
//! predicate matches; an unrecognized filter token degrades to a literal
//! substring filter instead of an error.

use crate::strutil::contains_seq;
use crate::strutil::contains_str;
use crate::strutil::split_char;
use crate::strutil::split_on;
use crate::strutil::str_eq;
use vstd::prelude::*;
use vstd::string::StrSliceExecFns;
use vstd::string::StringExecFns;

verus! {

broadcast use vstd::string::group_string_axioms;

/// A predicate over a logical name and its kind tag.
pub trait Filter {
    /// What this predicate holds of a name and kind tag.
    spec fn matches(&self, input: Seq<char>, typ: Seq<char>) -> bool;

    /// Decide the predicate.
    fn filter(&self, input: &str, typ: &str) -> (r: bool)
        ensures
            r == self.matches(input@, typ@),
    ;
}

pub struct Hitmarkers;

impl Filter for Hitmarkers {
    open spec fn matches(&self, input: Seq<char>, typ: Seq<char>) -> bool {
        contains_seq(input, "HitMarker"@)
    }

    fn filter(&self, input: &str, typ: &str) -> (r: bool) {
        contains_str(input, "HitMarker")
    }
}

pub struct Keybindings;

impl Filter for Keybindings {
    open spec fn matches(&self, input: Seq<char>, typ: Seq<char>) -> bool {
        contains_seq(input, "key"@) || typ == "key"@ || contains_seq(input, "axis"@) || typ
            == "axis"@
    }

    fn filter(&self, input: &str, typ: &str) -> (r: bool) {
        contains_str(input, "key") || str_eq(typ, "key") || contains_str(input, "axis") || str_eq(
            typ,
            "axis",
        )
    }
}

pub struct Sensitivity;

impl Filter for Sensitivity {
    open spec fn matches(&self, input: Seq<char>, typ: Seq<char>) -> bool {
        contains_seq(input, "Sensitivity"@)
    }

    fn filter(&self, input: &str, typ: &str) -> (r: bool) {
        contains_str(input, "Sensitivity")
    }
}

pub struct Audio;

impl Filter for Audio {
    open spec fn matches(&self, input: Seq<char>, typ: Seq<char>) -> bool {
        contains_seq(input, "Volume"@)
    }

    fn filter(&self, input: &str, typ: &str) -> (r: bool) {
        contains_str(input, "Volume")
    }
}

/// Literal substring selector, the escape hatch for arbitrary tokens.
pub struct Manual(pub String);

impl Filter for Manual {
    open spec fn matches(&self, input: Seq<char>, typ: Seq<char>) -> bool {
        contains_seq(input, self.0@)
    }

    fn filter(&self, input: &str, typ: &str) -> (r: bool) {
        contains_str(input, self.0.as_str())
    }
}

/// The closed set of filter predicates, dispatched by a single match.
pub enum FilterVariant {
    Hitmarkers(Hitmarkers),
    Keybindings(Keybindings),
    Sensitivity(Sensitivity),
    Audio(Audio),
    Manual(Manual),
}

/// Mathematical image of a filter.
pub enum FilterView {
    Hitmarkers,
    Keybindings,
    Sensitivity,
    Audio,
    Manual(Seq<char>),
}

impl View for FilterVariant {
    type V = FilterView;

    open spec fn view(&self) -> FilterView {
        match self {
            FilterVariant::Hitmarkers(_) => FilterView::Hitmarkers,
            FilterVariant::Keybindings(_) => FilterView::Keybindings,
            FilterVariant::Sensitivity(_) => FilterView::Sensitivity,
            FilterVariant::Audio(_) => FilterView::Audio,
            FilterVariant::Manual(m) => FilterView::Manual(m.0@),
        }
    }
}

/// What a filter of each shape holds of a name and kind tag.
pub open spec fn view_matches(f: FilterView, input: Seq<char>, typ: Seq<char>) -> bool {
    match f {
        FilterView::Hitmarkers => contains_seq(input, "HitMarker"@),
        FilterView::Keybindings => contains_seq(input, "key"@) || typ == "key"@ || contains_seq(
            input,
            "axis"@,
        ) || typ == "axis"@,
        FilterView::Sensitivity => contains_seq(input, "Sensitivity"@),
        FilterView::Audio => contains_seq(input, "Volume"@),
        FilterView::Manual(s) => contains_seq(input, s),
    }
}

impl Filter for FilterVariant {
    open spec fn matches(&self, input: Seq<char>, typ: Seq<char>) -> bool {
        view_matches(self@, input, typ)
    }

    fn filter(&self, input: &str, typ: &str) -> (r: bool) {
        match self {
            FilterVariant::Hitmarkers(f) => f.filter(input, typ),
            FilterVariant::Keybindings(f) => f.filter(input, typ),
            FilterVariant::Sensitivity(f) => f.filter(input, typ),
            FilterVariant::Audio(f) => f.filter(input, typ),
            FilterVariant::Manual(f) => f.filter(input, typ),
        }
    }
}

/// An entry is selected when any active predicate matches it; no active
/// predicate rejects it on its own.
pub open spec fn spec_any_matches(fs: Seq<FilterVariant>, input: Seq<char>, typ: Seq<char>) -> bool {
    exists|i: int| 0 <= i < fs.len() && view_matches((#[trigger] fs[i])@, input, typ)
}

/// Decide whether any of the active filters selects the entry.
pub fn filter_any(fs: &Vec<FilterVariant>, input: &str, typ: &str) -> (r: bool)
    ensures
        r == spec_any_matches(fs@, input@, typ@),
{
    let n = fs.len();
    let mut i: usize = 0;
    while i < n
        invariant
            i <= n,
            n == fs@.len(),
            forall|k: int| 0 <= k < i ==> !view_matches((#[trigger] fs@[k])@, input@, typ@),
        decreases n - i,
    {
        if fs[i].filter(input, typ) {
            return true;
        }
        i = i + 1;
    }
    false
}

/// The common filter bundle requested under the name `common`.
pub open spec fn common_views() -> Seq<FilterView> {
    seq![FilterView::Hitmarkers, FilterView::Keybindings, FilterView::Audio]
}

/// Filters produced by one parsed filter token.
pub open spec fn spec_token_filters(f: Seq<char>) -> Seq<FilterView> {
    if f == "hitmarkers"@ {
        seq![FilterView::Hitmarkers]
    } else if f == "keybindings"@ {
        seq![FilterView::Keybindings]
    } else if f == "sensitivity"@ {
        seq![FilterView::Sensitivity]
    } else if f == "audio"@ {
        seq![FilterView::Audio]
    } else if f == "common"@ {
        common_views()
    } else {
        seq![FilterView::Manual(f)]
    }
}

/// Filters produced by a list of parsed filter tokens, in order.
pub open spec fn spec_parse_filters(filters: Seq<String>) -> Seq<FilterView>
    decreases filters.len(),
{
    if filters.len() == 0 {
        Seq::<FilterView>::empty()
    } else {
        spec_parse_filters(filters.drop_last()) + spec_token_filters(filters.last()@)
    }
}

/// Match filter tokens against the predicate name table; the token `common`
/// expands to its bundle, and an unrecognized token becomes a literal
/// substring filter.
pub fn parse_filters(filters: Vec<String>) -> (r: Vec<FilterVariant>)
    ensures
        r@.map_values(|f: FilterVariant| f@) == spec_parse_filters(filters@),
{
    let n = filters.len();
    let mut out: Vec<FilterVariant> = Vec::new();
    let mut i: usize = 0;
    proof {
        assert(filters@.subrange(0, 0) =~= Seq::<String>::empty());
        assert(out@.map_values(|f: FilterVariant| f@) =~= spec_parse_filters(
            filters@.subrange(0, 0),
        ));
    }
    while i < n
        invariant
            i <= n,
            n == filters@.len(),
            out@.map_values(|f: FilterVariant| f@) == spec_parse_filters(
                filters@.subrange(0, i as int),
            ),
        decreases n - i,
    {
        let f = &filters[i];
        let ghost prev = out@;
        if str_eq(f.as_str(), "hitmarkers") {
            out.push(FilterVariant::Hitmarkers(Hitmarkers));
        } else if str_eq(f.as_str(), "keybindings") {
            out.push(FilterVariant::Keybindings(Keybindings));
        } else if str_eq(f.as_str(), "sensitivity") {
            out.push(FilterVariant::Sensitivity(Sensitivity));
        } else if str_eq(f.as_str(), "audio") {
            out.push(FilterVariant::Audio(Audio));
        } else if str_eq(f.as_str(), "common") {
            out.push(FilterVariant::Hitmarkers(Hitmarkers));
            out.push(FilterVariant::Keybindings(Keybindings));
            out.push(FilterVariant::Audio(Audio));
        } else {
            out.push(FilterVariant::Manual(Manual(f.clone())));
        }
        proof {
            let taken = filters@.subrange(0, i + 1);
            assert(taken.drop_last() =~= filters@.subrange(0, i as int));
            assert(taken.last() == filters@[i as int]);
            assert(out@.map_values(|f: FilterVariant| f@) =~= prev.map_values(
                |f: FilterVariant| f@,
            ) + spec_token_filters(filters@[i as int]@));
        }
        i = i + 1;
    }
    proof {
        assert(filters@.subrange(0, n as int) =~= filters@);
    }
    out
}

/// Image of flattening comma-separated filter tokens.
pub open spec fn spec_process_filters(filters: Seq<String>) -> Seq<Seq<char>>
    decreases filters.len(),
{
    if filters.len() == 0 {
        Seq::<Seq<char>>::empty()
    } else {
        spec_process_filters(filters.drop_last()) + split_on(filters.last()@, ',')
    }
}

/// Split each user-supplied filter token on commas and flatten the result.
pub fn process_filters(filters: Vec<String>) -> (r: Vec<String>)
    ensures
        r.deep_view() == spec_process_filters(filters@),
{
    let n = filters.len();
    let mut out: Vec<String> = Vec::new();
    let mut i: usize = 0;
    proof {
        assert(filters@.subrange(0, 0) =~= Seq::<String>::empty());
        assert(out.deep_view() =~= spec_process_filters(filters@.subrange(0, 0)));
    }
    while i < n
        invariant
            i <= n,
            n == filters@.len(),
            out.deep_view() == spec_process_filters(filters@.subrange(0, i as int)),
        decreases n - i,
    {
        let parts = split_char(filters[i].as_str(), ',');
        let m = parts.len();
        let mut j: usize = 0;
        while j < m
            invariant
                j <= m,
                i < n,
                n == filters@.len(),
                m == parts@.len(),
                parts.deep_view() == split_on(filters@[i as int]@, ','),
                out.deep_view() == spec_process_filters(filters@.subrange(0, i as int))
                    + parts.deep_view().subrange(0, j as int),
            decreases m - j,
        {
            let ghost prev = out.deep_view();
            out.push(parts[j].clone());
            proof {
                assert(out.deep_view() =~= prev.push(parts@[j as int]@));
                assert(parts.deep_view().subrange(0, j + 1) =~= parts.deep_view().subrange(
                    0,
                    j as int,
                ).push(parts@[j as int]@));
                assert(prev.push(parts@[j as int]@) =~= prev + seq![parts@[j as int]@]);
                assert(out.deep_view() =~= spec_process_filters(filters@.subrange(0, i as int))
                    + parts.deep_view().subrange(0, j + 1));
            }
            j = j + 1;
        }
        proof {
            let taken = filters@.subrange(0, i + 1);
            assert(taken.drop_last() =~= filters@.subrange(0, i as int));
            assert(taken.last() == filters@[i as int]);
            assert(parts.deep_view().subrange(0, m as int) =~= parts.deep_view());
        }
        i = i + 1;
    }
    proof {
        assert(filters@.subrange(0, n as int) =~= filters@);
    }
    out
}

} // verus!
