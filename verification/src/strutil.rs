//! Character-sequence utilities shared by the name codec and the text codec:
//! substring search, separator scanning, decimal and hexadecimal numerals,
//! and a lexicographic order on strings.

use vstd::prelude::*;
use vstd::string::StrSliceExecFns;
use vstd::string::StringExecFns;

verus! {

broadcast use vstd::string::group_string_axioms;

// ---------------------------------------------------------------------------
// Trusted wrappers over std
// ---------------------------------------------------------------------------
/// Relies on `String::push`: appends exactly the given character.
#[verifier::external_body]
pub fn push_char(s: &mut String, c: char)
    ensures
        final(s)@ == old(s)@.push(c),
{
    s.push(c);
}

/// Relies on `char::from_u32`: returns `Some` exactly for code points below
/// the surrogate range or between it and `0x10FFFF`, and the returned
/// character carries the given code.
#[verifier::external_body]
pub fn char_from_u32(x: u32) -> (r: Option<char>)
    ensures
        r is Some <==> (x < 0xD800 || (0xE000 <= x && x <= 0x10FFFF)),
        r matches Some(c) ==> c as u32 == x,
{
    char::from_u32(x)
}

/// Relies on `String::from_utf8`: succeeds exactly on valid UTF-8 and yields
/// the characters those bytes encode.
#[verifier::external_body]
pub fn utf8_to_string(bytes: Vec<u8>) -> (r: Option<String>)
    ensures
        r is Some <==> vstd::utf8::valid_utf8(bytes@),
        r matches Some(s) ==> s@ == vstd::utf8::decode_utf8(bytes@),
{
    String::from_utf8(bytes).ok()
}

// ---------------------------------------------------------------------------
// Equality and substring search
// ---------------------------------------------------------------------------
/// Character-wise equality of two string slices.
pub fn str_eq(a: &str, b: &str) -> (r: bool)
    ensures
        r == (a@ == b@),
{
    let sa = String::from_str(a);
    let sb = String::from_str(b);
    sa == sb
}

/// The needle occurs in the haystack starting at position `i`.
pub open spec fn match_at(hay: Seq<char>, needle: Seq<char>, i: int) -> bool {
    0 <= i && i + needle.len() <= hay.len() && hay.subrange(i, i + needle.len()) == needle
}

/// The needle occurs somewhere in the haystack.
pub open spec fn contains_seq(hay: Seq<char>, needle: Seq<char>) -> bool {
    exists|i: int| match_at(hay, needle, i)
}

/// Substring search, equivalent to `str::contains`.
pub fn contains_str(hay: &str, needle: &str) -> (r: bool)
    ensures
        r == contains_seq(hay@, needle@),
{
    let n: usize = hay.unicode_len();
    let m: usize = needle.unicode_len();
    if m > n {
        assert(forall|i: int| !match_at(hay@, needle@, i));
        return false;
    }
    let mut i: usize = 0;
    while i <= n - m
        invariant
            m <= n,
            n == hay@.len(),
            m == needle@.len(),
            i as int <= n as int - m as int + 1,
            forall|k: int| 0 <= k < i ==> !match_at(hay@, needle@, k),
        decreases n as int - m as int - i as int + 1,
    {
        let mut j: usize = 0;
        let mut ok: bool = true;
        while j < m
            invariant
                m <= n,
                n == hay@.len(),
                m == needle@.len(),
                i <= n - m,
                j <= m,
                ok ==> forall|t: int| 0 <= t < j ==> hay@[i + t] == needle@[t],
                !ok ==> !match_at(hay@, needle@, i as int),
            decreases m - j,
        {
            if hay.get_char(i + j) != needle.get_char(j) {
                proof {
                    let sub = hay@.subrange(i as int, i + m);
                    assert(sub[j as int] == hay@[i + j]);
                    assert(sub != needle@);
                }
                ok = false;
                j = m;
            } else {
                j = j + 1;
            }
        }
        if ok {
            proof {
                assert(hay@.subrange(i as int, i + m) =~= needle@);
                assert(match_at(hay@, needle@, i as int));
            }
            return true;
        }
        proof {
            if m == 0 {
                assert(hay@.subrange(i as int, i as int) =~= needle@);
                assert(match_at(hay@, needle@, i as int));
            }
        }
        i = i + 1;
    }
    assert forall|k: int| !match_at(hay@, needle@, k) by {
        if 0 <= k < i {
        } else if k >= i {
            assert(k + m > n);
        }
    }
    false
}

// ---------------------------------------------------------------------------
// Separator positions
// ---------------------------------------------------------------------------
/// Index of the last occurrence of `c` in `s`, or `-1` when absent.
pub open spec fn last_idx_of(s: Seq<char>, c: char) -> int
    decreases s.len(),
{
    if s.len() == 0 {
        -1
    } else if s[s.len() - 1] == c {
        s.len() - 1
    } else {
        last_idx_of(s.drop_last(), c)
    }
}

pub proof fn lemma_last_idx_of(s: Seq<char>, c: char)
    ensures
        -1 <= last_idx_of(s, c) < s.len(),
        last_idx_of(s, c) >= 0 ==> s[last_idx_of(s, c)] == c,
        forall|k: int| last_idx_of(s, c) < k < s.len() ==> s[k] != c,
    decreases s.len(),
{
    if s.len() > 0 && s[s.len() - 1] != c {
        lemma_last_idx_of(s.drop_last(), c);
        let r = last_idx_of(s.drop_last(), c);
        if r >= 0 {
            assert(s.drop_last()[r] == s[r]);
        }
        assert forall|k: int| last_idx_of(s, c) < k < s.len() implies s[k] != c by {
            if k < s.len() - 1 {
                assert(s.drop_last()[k] == s[k]);
            }
        }
    }
}

/// A position that carries `c` with no later occurrence is the last index.
pub proof fn lemma_last_idx_is(s: Seq<char>, c: char, p: int)
    requires
        0 <= p < s.len(),
        s[p] == c,
        forall|k: int| p < k < s.len() ==> s[k] != c,
    ensures
        last_idx_of(s, c) == p,
{
    lemma_last_idx_of(s, c);
}

/// Index of the first occurrence of `c` in `s`, or `-1` when absent.
pub open spec fn first_idx_of(s: Seq<char>, c: char) -> int
    decreases s.len(),
{
    if s.len() == 0 {
        -1
    } else if s[0] == c {
        0
    } else {
        let r = first_idx_of(s.drop_first(), c);
        if r == -1 {
            -1
        } else {
            r + 1
        }
    }
}

pub proof fn lemma_first_idx_of(s: Seq<char>, c: char)
    ensures
        -1 <= first_idx_of(s, c) < s.len(),
        first_idx_of(s, c) >= 0 ==> s[first_idx_of(s, c)] == c,
        forall|k: int| 0 <= k < first_idx_of(s, c) ==> s[k] != c,
        first_idx_of(s, c) == -1 ==> forall|k: int| 0 <= k < s.len() ==> s[k] != c,
    decreases s.len(),
{
    if s.len() > 0 && s[0] != c {
        lemma_first_idx_of(s.drop_first(), c);
        let r = first_idx_of(s.drop_first(), c);
        if r >= 0 {
            assert(s.drop_first()[r] == s[r + 1]);
            assert forall|k: int| 0 <= k < r + 1 implies s[k] != c by {
                if k > 0 {
                    assert(s.drop_first()[k - 1] == s[k]);
                }
            }
        } else {
            assert forall|k: int| 0 <= k < s.len() implies s[k] != c by {
                if k > 0 {
                    assert(s.drop_first()[k - 1] == s[k]);
                }
            }
        }
    }
}

/// A position that carries `c` with no earlier occurrence is the first index.
pub proof fn lemma_first_idx_is(s: Seq<char>, c: char, p: int)
    requires
        0 <= p < s.len(),
        s[p] == c,
        forall|k: int| 0 <= k < p ==> s[k] != c,
    ensures
        first_idx_of(s, c) == p,
{
    lemma_first_idx_of(s, c);
}

/// Scan for the last occurrence of `c`.
pub fn find_last(s: &str, c: char) -> (r: Option<usize>)
    ensures
        r matches Some(i) ==> i == last_idx_of(s@, c),
        r is None ==> last_idx_of(s@, c) == -1,
{
    let n: usize = s.unicode_len();
    let mut i: usize = n;
    while i > 0
        invariant
            i <= n,
            n == s@.len(),
            forall|k: int| i <= k < n ==> s@[k] != c,
        decreases i,
    {
        i = i - 1;
        if s.get_char(i) == c {
            proof {
                lemma_last_idx_is(s@, c, i as int);
            }
            return Some(i);
        }
    }
    proof {
        lemma_last_idx_of(s@, c);
    }
    None
}

// ---------------------------------------------------------------------------
// Splitting on a separator character
// ---------------------------------------------------------------------------
/// The tokens of `s` delimited by `c`; an empty input yields one empty token.
pub open spec fn split_on(s: Seq<char>, c: char) -> Seq<Seq<char>>
    decreases s.len(),
{
    let i = first_idx_of(s, c);
    if 0 <= i < s.len() {
        seq![s.subrange(0, i)] + split_on(s.subrange(i + 1, s.len() as int), c)
    } else {
        seq![s]
    }
}

/// Split a string on a separator character, like `str::split`.
pub fn split_char(s: &str, c: char) -> (r: Vec<String>)
    ensures
        r.deep_view() == split_on(s@, c),
{
    let n: usize = s.unicode_len();
    let mut out: Vec<String> = Vec::new();
    let mut start: usize = 0;
    let mut i: usize = 0;
    proof {
        assert(s@.subrange(0, n as int) =~= s@);
        assert(out.deep_view() =~= Seq::<Seq<char>>::empty());
        assert(Seq::<Seq<char>>::empty() + split_on(s@, c) =~= split_on(s@, c));
    }
    while i < n
        invariant
            start <= i <= n,
            n == s@.len(),
            forall|k: int| start <= k < i ==> s@[k] != c,
            out.deep_view() + split_on(s@.subrange(start as int, n as int), c) == split_on(s@, c),
        decreases n - i,
    {
        if s.get_char(i) == c {
            let tok = s.substring_char(start, i);
            let ghost prev = out.deep_view();
            out.push(String::from_str(tok));
            proof {
                let rest = s@.subrange(start as int, n as int);
                lemma_first_idx_is(rest, c, i - start);
                assert(rest.subrange(0, i - start) =~= s@.subrange(start as int, i as int));
                assert(rest.subrange(i - start + 1, rest.len() as int) =~= s@.subrange(
                    i + 1,
                    n as int,
                ));
                assert(out.deep_view() =~= prev.push(tok@));
                assert(prev.push(tok@) + split_on(s@.subrange(i + 1, n as int), c) =~= prev + (seq![
                    tok@,
                ] + split_on(s@.subrange(i + 1, n as int), c)));
            }
            start = i + 1;
        }
        i = i + 1;
    }
    let tok = s.substring_char(start, n);
    let ghost prev = out.deep_view();
    out.push(String::from_str(tok));
    proof {
        let rest = s@.subrange(start as int, n as int);
        lemma_first_idx_of(rest, c);
        assert(first_idx_of(rest, c) == -1);
        assert(out.deep_view() =~= prev.push(tok@));
        assert(prev.push(tok@) =~= prev + seq![tok@]);
    }
    out
}

// ---------------------------------------------------------------------------
// Decimal numerals
// ---------------------------------------------------------------------------
pub open spec fn is_digit(c: char) -> bool {
    '0' as u32 <= c as u32 <= '9' as u32
}

pub open spec fn digit_val(c: char) -> int {
    c as u32 - '0' as u32
}

pub open spec fn digit_char(d: int) -> char {
    if d == 0 {
        '0'
    } else if d == 1 {
        '1'
    } else if d == 2 {
        '2'
    } else if d == 3 {
        '3'
    } else if d == 4 {
        '4'
    } else if d == 5 {
        '5'
    } else if d == 6 {
        '6'
    } else if d == 7 {
        '7'
    } else if d == 8 {
        '8'
    } else {
        '9'
    }
}

/// Decimal numeral of a non-negative integer, most significant digit first.
pub open spec fn dec_text(n: int) -> Seq<char>
    decreases n,
{
    if n <= 9 {
        seq![digit_char(n)]
    } else {
        dec_text(n / 10).push(digit_char(n % 10))
    }
}

/// Decimal numeral of an integer, with a leading minus sign when negative.
pub open spec fn int_text(n: int) -> Seq<char> {
    if n < 0 {
        seq!['-'] + dec_text(-n)
    } else {
        dec_text(n)
    }
}

pub open spec fn all_digits(s: Seq<char>) -> bool {
    forall|k: int| 0 <= k < s.len() ==> is_digit(#[trigger] s[k])
}

/// Value of a digit string, most significant digit first.
pub open spec fn dec_val(s: Seq<char>) -> int
    decreases s.len(),
{
    if s.len() == 0 {
        0
    } else {
        dec_val(s.drop_last()) * 10 + digit_val(s.last())
    }
}

pub proof fn lemma_dec_text_val(n: int)
    requires
        n >= 0,
    ensures
        dec_text(n).len() >= 1,
        all_digits(dec_text(n)),
        dec_val(dec_text(n)) == n,
    decreases n,
{
    if n <= 9 {
        assert(dec_val(dec_text(n)) == dec_val(seq![digit_char(n)]));
        assert(dec_val(seq![digit_char(n)].drop_last()) == 0);
    } else {
        lemma_dec_text_val(n / 10);
        vstd::arithmetic::div_mod::lemma_fundamental_div_mod(n, 10);
        assert(dec_text(n).drop_last() =~= dec_text(n / 10));
    }
}

/// Append the decimal numeral of `u` to `out`.
pub fn fmt_u64(u: u64, out: &mut String)
    ensures
        final(out)@ == old(out)@ + dec_text(u as int),
    decreases u,
{
    if u <= 9 {
        push_char(out, digit_exec(u as u8));
        assert(old(out)@ + dec_text(u as int) =~= old(out)@.push(digit_char(u as int)));
    } else {
        assert(u / 10 < u) by (nonlinear_arith)
            requires
                u >= 10,
        ;
        fmt_u64(u / 10, out);
        push_char(out, digit_exec((u % 10) as u8));
        assert(old(out)@ + dec_text(u as int) =~= (old(out)@ + dec_text(u as int / 10)).push(
            digit_char(u as int % 10),
        ));
    }
}

/// Executable form of `digit_char`.
pub fn digit_exec(d: u8) -> (c: char)
    requires
        d <= 9,
    ensures
        c == digit_char(d as int),
{
    if d == 0 {
        '0'
    } else if d == 1 {
        '1'
    } else if d == 2 {
        '2'
    } else if d == 3 {
        '3'
    } else if d == 4 {
        '4'
    } else if d == 5 {
        '5'
    } else if d == 6 {
        '6'
    } else if d == 7 {
        '7'
    } else if d == 8 {
        '8'
    } else {
        '9'
    }
}

/// Render an integer in decimal, with a minus sign when negative.
pub fn fmt_i64(x: i64) -> (r: String)
    ensures
        r@ == int_text(x as int),
{
    let mut out = String::new();
    if x >= 0 {
        fmt_u64(x as u64, &mut out);
    } else {
        push_char(&mut out, '-');
        let u: u64 = ((-(x + 1)) as u64) + 1;
        assert(u as int == -(x as int));
        fmt_u64(u, &mut out);
        assert(Seq::<char>::empty().push('-') + dec_text(u as int) =~= seq!['-'] + dec_text(
            -(x as int),
        ));
    }
    out
}

/// Value of `s` as a sign-prefixed decimal numeral.
pub open spec fn int_lit_val(s: Seq<char>) -> int {
    if s.len() > 0 && s[0] == '-' {
        -dec_val(s.drop_first())
    } else if s.len() > 0 && s[0] == '+' {
        dec_val(s.drop_first())
    } else {
        dec_val(s)
    }
}

/// `s` is an optional sign followed by at least one decimal digit.
pub open spec fn is_int_lit(s: Seq<char>) -> bool {
    if s.len() > 0 && (s[0] == '-' || s[0] == '+') {
        s.len() > 1 && all_digits(s.drop_first())
    } else {
        s.len() > 0 && all_digits(s)
    }
}

pub proof fn lemma_dec_val_nonneg(s: Seq<char>)
    requires
        all_digits(s),
    ensures
        dec_val(s) >= 0,
    decreases s.len(),
{
    if s.len() > 0 {
        assert(all_digits(s.drop_last())) by {
            assert(forall|k: int| 0 <= k < s.len() - 1 ==> s.drop_last()[k] == s[k]);
        }
        lemma_dec_val_nonneg(s.drop_last());
        assert(dec_val(s.drop_last()) * 10 >= 0) by (nonlinear_arith)
            requires
                dec_val(s.drop_last()) >= 0,
        ;
    }
}

/// A digit string is worth at least as much as any of its prefixes.
pub proof fn lemma_dec_val_prefix(s: Seq<char>, p: int)
    requires
        all_digits(s),
        0 <= p <= s.len(),
    ensures
        dec_val(s) >= dec_val(s.subrange(0, p)),
    decreases s.len() - p,
{
    if p == s.len() {
        assert(s.subrange(0, p) =~= s);
    } else {
        lemma_dec_val_prefix(s, p + 1);
        let a = s.subrange(0, p);
        let b = s.subrange(0, p + 1);
        assert(b.drop_last() =~= a);
        assert(all_digits(a)) by {
            assert(forall|k: int| 0 <= k < p ==> a[k] == s[k]);
        }
        lemma_dec_val_nonneg(a);
        assert(dec_val(b) == dec_val(a) * 10 + digit_val(b.last()));
        assert(dec_val(a) * 10 >= dec_val(a)) by (nonlinear_arith)
            requires
                dec_val(a) >= 0,
        ;
        assert(is_digit(s[p]));
    }
}

/// Parse an optionally signed decimal integer, rejecting values outside the
/// signed 64-bit range.
#[verifier::loop_isolation(false)]
pub fn parse_i64(s: &str) -> (r: Option<i64>)
    ensures
        r matches Some(v) ==> is_int_lit(s@) && v as int == int_lit_val(s@),
        r is None ==> !is_int_lit(s@) || int_lit_val(s@) > i64::MAX || int_lit_val(s@)
            < i64::MIN,
{
    let n: usize = s.unicode_len();
    if n == 0 {
        return None;
    }
    let c0 = s.get_char(0);
    let neg = c0 == '-';
    let off: usize = if c0 == '-' || c0 == '+' {
        1
    } else {
        0
    };
    let ghost digits = s@.subrange(off as int, n as int);
    if off >= n {
        return None;
    }
    proof {
        assert(forall|k: int| 0 <= k < digits.len() ==> #[trigger] digits[k] == s@[k + off]);
        if off == 1 {
            assert(s@.drop_first() =~= digits);
        } else {
            assert(digits =~= s@);
        }
        assert(is_int_lit(s@) <==> all_digits(digits));
        assert(all_digits(digits) ==> int_lit_val(s@) == if neg {
            -dec_val(digits)
        } else {
            dec_val(digits)
        });
    }
    // First pass: every remaining character must be a digit.
    let mut i: usize = off;
    while i < n
        invariant
            off <= i <= n,
            n == s@.len(),
            forall|k: int| off <= k < i ==> is_digit(#[trigger] s@[k]),
        decreases n - i,
    {
        let u = s.get_char(i) as u32;
        if !(48 <= u && u <= 57) {
            proof {
                assert(!is_digit(s@[i as int]));
                assert(digits[i - off] == s@[i as int]);
                assert(!all_digits(digits));
            }
            return None;
        }
        i = i + 1;
    }
    proof {
        assert(all_digits(digits)) by {
            assert(forall|k: int| 0 <= k < digits.len() ==> digits[k] == s@[k + off]);
        }
    }
    // Second pass: accumulate, guarding the signed 64-bit bound.
    let bound: u64 = if neg {
        9223372036854775808
    } else {
        9223372036854775807
    };
    let mut acc: u64 = 0;
    let mut j: usize = off;
    proof {
        assert(digits.subrange(0, 0) =~= Seq::<char>::empty());
    }
    while j < n
        invariant
            off <= j <= n,
            all_digits(digits),
            bound == if neg {
                9223372036854775808u64
            } else {
                9223372036854775807u64
            },
            acc <= bound,
            acc as int == dec_val(digits.subrange(0, j - off)),
        decreases n - j,
    {
        let u = s.get_char(j) as u32;
        assert(is_digit(s@[j as int])) by {
            assert(digits[j - off] == s@[j as int]);
        }
        let d: u64 = (u - 48) as u64;
        let ghost prefix = digits.subrange(0, j - off);
        let ghost prefix1 = digits.subrange(0, j + 1 - off);
        proof {
            assert(prefix1.drop_last() =~= prefix);
            assert(prefix1.last() == s@[j as int]);
            assert(all_digits(prefix1)) by {
                assert(forall|k: int| 0 <= k < prefix1.len() ==> prefix1[k] == digits[k]);
            }
        }
        let mut over: bool = false;
        if acc > bound / 10 {
            over = true;
            proof {
                vstd::arithmetic::div_mod::lemma_fundamental_div_mod(bound as int, 10);
                assert(acc as int * 10 >= (bound / 10 + 1) as int * 10) by (nonlinear_arith)
                    requires
                        acc as int >= bound / 10 + 1,
                ;
            }
        } else {
            proof {
                vstd::arithmetic::div_mod::lemma_fundamental_div_mod(bound as int, 10);
                assert(acc as int * 10 <= (bound / 10) as int * 10) by (nonlinear_arith)
                    requires
                        acc as int <= bound / 10,
                ;
            }
            let t: u64 = acc * 10;
            if t > bound - d {
                over = true;
            } else {
                acc = t + d;
            }
        }
        if over {
            proof {
                assert(dec_val(prefix1) > bound);
                lemma_dec_val_prefix(digits, j + 1 - off);
                assert(digits.subrange(0, digits.len() as int) =~= digits);
                assert(dec_val(digits) >= dec_val(prefix1));
            }
            return None;
        }
        j = j + 1;
    }
    proof {
        assert(digits.subrange(0, n - off) =~= digits);
    }
    if neg {
        if acc == 9223372036854775808 {
            Some(i64::MIN)
        } else {
            Some(-(acc as i64))
        }
    } else {
        Some(acc as i64)
    }
}

/// The decimal text of an integer reads back as exactly that integer: the
/// numeral is a well-formed literal and its value is the number it was made
/// from, for either sign.
pub proof fn lemma_int_text_round_trip(n: int)
    ensures
        is_int_lit(int_text(n)),
        int_lit_val(int_text(n)) == n,
{
    if n >= 0 {
        lemma_dec_text_val(n);
        let s = int_text(n);
        assert(is_digit(s[0]));
        assert(s[0] != '-' && s[0] != '+') by {
            if s[0] == '-' || s[0] == '+' {
                assert(('-' as u32) < 48 && ('+' as u32) < 48);
            }
        }
    } else {
        lemma_dec_text_val(-n);
        let s = int_text(n);
        assert(s[0] == '-');
        assert(s.drop_first() =~= dec_text(-n));
    }
}

// ---------------------------------------------------------------------------
// Hexadecimal numerals
// ---------------------------------------------------------------------------
pub open spec fn is_hex_digit(c: char) -> bool {
    is_digit(c) || ('a' as u32 <= c as u32 <= 'f' as u32) || ('A' as u32 <= c as u32
        <= 'F' as u32)
}

pub open spec fn hex_digit_val(c: char) -> int {
    if is_digit(c) {
        digit_val(c)
    } else if 'a' as u32 <= c as u32 <= 'f' as u32 {
        c as u32 - 'a' as u32 + 10
    } else {
        c as u32 - 'A' as u32 + 10
    }
}

pub open spec fn all_hex_digits(s: Seq<char>) -> bool {
    forall|k: int| 0 <= k < s.len() ==> is_hex_digit(#[trigger] s[k])
}

pub open spec fn hex_val(s: Seq<char>) -> int
    decreases s.len(),
{
    if s.len() == 0 {
        0
    } else {
        hex_val(s.drop_last()) * 16 + hex_digit_val(s.last())
    }
}

/// Lowercase hexadecimal digit for a value below sixteen.
pub open spec fn hex_digit_char(d: int) -> char {
    if d <= 9 {
        digit_char(d)
    } else if d == 10 {
        'a'
    } else if d == 11 {
        'b'
    } else if d == 12 {
        'c'
    } else if d == 13 {
        'd'
    } else if d == 14 {
        'e'
    } else {
        'f'
    }
}

/// Lowercase hexadecimal numeral of a non-negative integer, no leading zeros.
pub open spec fn hex_text(n: int) -> Seq<char>
    decreases n,
{
    if n <= 15 {
        seq![hex_digit_char(n)]
    } else {
        hex_text(n / 16).push(hex_digit_char(n % 16))
    }
}

pub proof fn lemma_hex_text_val(n: int)
    requires
        n >= 0,
    ensures
        hex_text(n).len() >= 1,
        all_hex_digits(hex_text(n)),
        hex_val(hex_text(n)) == n,
    decreases n,
{
    if n <= 15 {
        assert(hex_val(seq![hex_digit_char(n)].drop_last()) == 0);
    } else {
        lemma_hex_text_val(n / 16);
        vstd::arithmetic::div_mod::lemma_fundamental_div_mod(n, 16);
        assert(hex_text(n).drop_last() =~= hex_text(n / 16));
    }
}

/// Executable form of `hex_digit_char`.
pub fn hex_digit_exec(d: u8) -> (c: char)
    requires
        d <= 15,
    ensures
        c == hex_digit_char(d as int),
{
    if d <= 9 {
        digit_exec(d)
    } else if d == 10 {
        'a'
    } else if d == 11 {
        'b'
    } else if d == 12 {
        'c'
    } else if d == 13 {
        'd'
    } else if d == 14 {
        'e'
    } else {
        'f'
    }
}

/// Append the lowercase hexadecimal numeral of `u` to `out`.
pub fn fmt_hex_u32(u: u32, out: &mut String)
    ensures
        final(out)@ == old(out)@ + hex_text(u as int),
    decreases u,
{
    if u <= 15 {
        push_char(out, hex_digit_exec(u as u8));
        assert(old(out)@ + hex_text(u as int) =~= old(out)@.push(hex_digit_char(u as int)));
    } else {
        assert(u / 16 < u) by (nonlinear_arith)
            requires
                u >= 16,
        ;
        fmt_hex_u32(u / 16, out);
        push_char(out, hex_digit_exec((u % 16) as u8));
        assert(old(out)@ + hex_text(u as int) =~= (old(out)@ + hex_text(u as int / 16)).push(
            hex_digit_char(u as int % 16),
        ));
    }
}

pub proof fn lemma_hex_val_nonneg(s: Seq<char>)
    requires
        all_hex_digits(s),
    ensures
        hex_val(s) >= 0,
    decreases s.len(),
{
    if s.len() > 0 {
        assert(all_hex_digits(s.drop_last())) by {
            assert(forall|k: int| 0 <= k < s.len() - 1 ==> s.drop_last()[k] == s[k]);
        }
        lemma_hex_val_nonneg(s.drop_last());
        assert(hex_val(s.drop_last()) * 16 >= 0) by (nonlinear_arith)
            requires
                hex_val(s.drop_last()) >= 0,
        ;
    }
}

pub proof fn lemma_hex_val_prefix(s: Seq<char>, p: int)
    requires
        all_hex_digits(s),
        0 <= p <= s.len(),
    ensures
        hex_val(s) >= hex_val(s.subrange(0, p)),
    decreases s.len() - p,
{
    if p == s.len() {
        assert(s.subrange(0, p) =~= s);
    } else {
        lemma_hex_val_prefix(s, p + 1);
        let a = s.subrange(0, p);
        let b = s.subrange(0, p + 1);
        assert(b.drop_last() =~= a);
        assert(all_hex_digits(a)) by {
            assert(forall|k: int| 0 <= k < p ==> a[k] == s[k]);
        }
        lemma_hex_val_nonneg(a);
        assert(hex_val(b) == hex_val(a) * 16 + hex_digit_val(b.last()));
        assert(hex_val(a) * 16 >= hex_val(a)) by (nonlinear_arith)
            requires
                hex_val(a) >= 0,
        ;
        assert(b.last() == s[p]);
        assert(is_hex_digit(s[p]));
        assert(hex_digit_val(s[p]) >= 0);
        assert(hex_val(s) >= hex_val(b));
    }
}

/// Parse an unsigned hexadecimal numeral, either letter case, rejecting
/// values above the unsigned 32-bit range.
#[verifier::loop_isolation(false)]
pub fn parse_hex_u32(s: &str) -> (r: Option<u32>)
    ensures
        r matches Some(v) ==> s@.len() > 0 && all_hex_digits(s@) && v as int == hex_val(s@),
        r is None ==> s@.len() == 0 || !all_hex_digits(s@) || hex_val(s@) > u32::MAX,
{
    let n: usize = s.unicode_len();
    if n == 0 {
        return None;
    }
    let mut i: usize = 0;
    while i < n
        invariant
            i <= n,
            n == s@.len(),
            forall|k: int| 0 <= k < i ==> is_hex_digit(#[trigger] s@[k]),
        decreases n - i,
    {
        let u = s.get_char(i) as u32;
        if !((48 <= u && u <= 57) || (97 <= u && u <= 102) || (65 <= u && u <= 70)) {
            assert(!is_hex_digit(s@[i as int]));
            return None;
        }
        i = i + 1;
    }
    let mut acc: u32 = 0;
    let mut j: usize = 0;
    proof {
        assert(s@.subrange(0, 0) =~= Seq::<char>::empty());
    }
    while j < n
        invariant
            j <= n,
            n == s@.len(),
            all_hex_digits(s@),
            acc as int == hex_val(s@.subrange(0, j as int)),
        decreases n - j,
    {
        let u = s.get_char(j) as u32;
        let d: u32 = if 48 <= u && u <= 57 {
            u - 48
        } else if 97 <= u && u <= 102 {
            u - 97 + 10
        } else {
            u - 65 + 10
        };
        assert(d as int == hex_digit_val(s@[j as int]));
        let ghost prefix = s@.subrange(0, j as int);
        let ghost prefix1 = s@.subrange(0, j + 1);
        proof {
            assert(prefix1.drop_last() =~= prefix);
            assert(all_hex_digits(prefix1)) by {
                assert(forall|k: int| 0 <= k < prefix1.len() ==> prefix1[k] == s@[k]);
            }
        }
        let mut over: bool = false;
        if acc > 0xFFFF_FFFF / 16 {
            over = true;
            proof {
                assert(acc as int * 16 > 0xFFFF_FFFFint) by (nonlinear_arith)
                    requires
                        acc as int > 0xFFFF_FFFFint / 16,
                ;
            }
        } else {
            proof {
                assert(acc as int * 16 <= (0xFFFF_FFFFint / 16) * 16) by (nonlinear_arith)
                    requires
                        acc as int <= 0xFFFF_FFFFint / 16,
                ;
            }
            let t: u32 = acc * 16;
            if t > 0xFFFF_FFFF - d {
                over = true;
            } else {
                acc = t + d;
            }
        }
        if over {
            proof {
                assert(hex_val(prefix1) > u32::MAX);
                lemma_hex_val_prefix(s@, j + 1);
                assert(s@.subrange(0, s@.len() as int) =~= s@);
            }
            return None;
        }
        j = j + 1;
    }
    proof {
        assert(s@.subrange(0, n as int) =~= s@);
    }
    Some(acc)
}

// ---------------------------------------------------------------------------
// Lexicographic order on strings
// ---------------------------------------------------------------------------
/// Lexicographic "less than or equal" on character sequences, by code point.
pub open spec fn str_le(a: Seq<char>, b: Seq<char>) -> bool
    decreases a.len(),
{
    if a.len() == 0 {
        true
    } else if b.len() == 0 {
        false
    } else if a[0] == b[0] {
        str_le(a.drop_first(), b.drop_first())
    } else {
        (a[0] as u32) < (b[0] as u32)
    }
}

pub proof fn lemma_str_le_total(a: Seq<char>, b: Seq<char>)
    ensures
        str_le(a, b) || str_le(b, a),
    decreases a.len(),
{
    if a.len() > 0 && b.len() > 0 {
        if a[0] == b[0] {
            lemma_str_le_total(a.drop_first(), b.drop_first());
        } else {
            let ua = a[0] as u32;
            let ub = b[0] as u32;
            if ua == ub {
                vstd::utf8::char_u32_cast(a[0], ua);
                vstd::utf8::char_u32_cast(b[0], ub);
            }
            assert(ua != ub);
        }
    }
}

pub proof fn lemma_str_le_antisymmetric(a: Seq<char>, b: Seq<char>)
    requires
        str_le(a, b),
        str_le(b, a),
    ensures
        a == b,
    decreases a.len(),
{
    if a.len() > 0 && b.len() > 0 && a[0] == b[0] {
        lemma_str_le_antisymmetric(a.drop_first(), b.drop_first());
        assert(a =~= seq![a[0]] + a.drop_first());
        assert(b =~= seq![b[0]] + b.drop_first());
    } else {
        assert(a.len() == 0 && b.len() == 0);
        assert(a =~= b);
    }
}

pub proof fn lemma_str_le_transitive(a: Seq<char>, b: Seq<char>, c: Seq<char>)
    requires
        str_le(a, b),
        str_le(b, c),
    ensures
        str_le(a, c),
    decreases a.len(),
{
    if a.len() > 0 && b.len() > 0 && c.len() > 0 {
        if a[0] == b[0] && b[0] == c[0] {
            lemma_str_le_transitive(a.drop_first(), b.drop_first(), c.drop_first());
        }
    }
}

/// Executable lexicographic comparison of two string slices.
pub fn str_le_exec(a: &str, b: &str) -> (r: bool)
    ensures
        r == str_le(a@, b@),
{
    let na: usize = a.unicode_len();
    let nb: usize = b.unicode_len();
    let mut i: usize = 0;
    proof {
        assert(a@.skip(0) =~= a@);
        assert(b@.skip(0) =~= b@);
    }
    while i < na && i < nb
        invariant
            i <= na,
            i <= nb,
            na == a@.len(),
            nb == b@.len(),
            forall|k: int| 0 <= k < i ==> a@[k] == b@[k],
            str_le(a@, b@) == str_le(a@.skip(i as int), b@.skip(i as int)),
        decreases na - i,
    {
        let ca = a.get_char(i);
        let cb = b.get_char(i);
        if ca != cb {
            proof {
                assert(a@.skip(i as int)[0] == ca);
                assert(b@.skip(i as int)[0] == cb);
            }
            return (ca as u32) < (cb as u32);
        }
        proof {
            assert(a@.skip(i as int).drop_first() =~= a@.skip(i + 1));
            assert(b@.skip(i as int).drop_first() =~= b@.skip(i + 1));
            assert(a@.skip(i as int)[0] == ca);
            assert(b@.skip(i as int)[0] == cb);
        }
        i = i + 1;
    }
    proof {
        if i >= na {
            assert(a@.skip(i as int).len() == 0);
        } else {
            assert(b@.skip(i as int).len() == 0);
            assert(a@.skip(i as int).len() > 0);
        }
    }
    na <= nb
}

} // verus!
