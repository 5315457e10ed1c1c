//! Real numbers as they appear in queries and in module outputs.
//!
//! A number is kept as its canonical decimal writing, so that two writings of
//! the same decimal value (`1`, `1.0`, `01.`) are one and the same value.
use vstd::prelude::*;
use crate::text::{chars_of, string_of, is_digit};

verus! {

pub open spec fn lower_char(c: char) -> char {
    if 'A' <= c && c <= 'Z' { (((c as u8) + 32) as u8) as char } else { c }
}

/// `s` equals the lowercase word `w`, ignoring the case of `s`.
pub open spec fn same_word_ci(s: Seq<char>, w: Seq<char>) -> bool {
    s.len() == w.len() && forall|i: int| 0 <= i < s.len() ==> lower_char(#[trigger] s[i]) == w[i]
}

/// The number of decimal digits at the start of `s`.
pub open spec fn digit_run(s: Seq<char>) -> nat
    decreases s.len(),
{
    if s.len() > 0 && is_digit(s[0]) { 1 + digit_run(s.skip(1)) } else { 0 }
}

pub open spec fn strip_leading_zeros(s: Seq<char>) -> Seq<char>
    decreases s.len(),
{
    if s.len() > 0 && s[0] == '0' { strip_leading_zeros(s.skip(1)) } else { s }
}

pub open spec fn strip_trailing_zeros(s: Seq<char>) -> Seq<char>
    decreases s.len(),
{
    if s.len() > 0 && s.last() == '0' { strip_trailing_zeros(s.drop_last()) } else { s }
}

/// The canonical writing of a mantissa: sign, integer part without leading
/// zeros (`0` when empty), and fractional part without trailing zeros.
pub open spec fn canonical_mantissa(neg: bool, ip: Seq<char>, frac: Seq<char>) -> Seq<char> {
    let i = strip_leading_zeros(ip);
    let f = strip_trailing_zeros(frac);
    (if neg { seq!['-'] } else { Seq::empty() })
        + (if i.len() == 0 { seq!['0'] } else { i })
        + (if f.len() == 0 { Seq::empty() } else { seq!['.'] + f })
}

/// The canonical writing of an exponent part (empty for a null exponent).
pub open spec fn canonical_exponent(neg: bool, digits: Seq<char>) -> Seq<char> {
    let e = strip_leading_zeros(digits);
    if e.len() == 0 {
        Seq::empty()
    } else {
        seq!['e'] + (if neg { seq!['-'] } else { Seq::empty() }) + e
    }
}

pub open spec fn word_inf() -> Seq<char> { seq!['i', 'n', 'f'] }
pub open spec fn word_infinity() -> Seq<char> { seq!['i', 'n', 'f', 'i', 'n', 'i', 't', 'y'] }
pub open spec fn word_nan() -> Seq<char> { seq!['n', 'a', 'n'] }

/// The canonical writing of the number written as `s`, following the syntax
/// of real numbers `[+-]? (inf | infinity | nan | digits [. digits] [e [+-] digits])`
/// (the digits before or after the point may be left out, not both),
/// or `None` when `s` is not such a writing.
pub open spec fn canonical_number(s: Seq<char>) -> Option<Seq<char>> {
    let has_sign = s.len() > 0 && (s[0] == '-' || s[0] == '+');
    let neg = s.len() > 0 && s[0] == '-';
    let r = if has_sign { s.skip(1) } else { s };
    if same_word_ci(r, word_inf()) || same_word_ci(r, word_infinity()) {
        Some(if neg { seq!['-', 'i', 'n', 'f'] } else { word_inf() })
    } else if same_word_ci(r, word_nan()) {
        Some(seq!['N', 'a', 'N'])
    } else {
        canonical_decimal(neg, r)
    }
}

/// The exponent part `[+-]? digits` that follows an `e`, canonically written.
pub open spec fn canonical_exponent_part(r3: Seq<char>) -> Option<Seq<char>> {
    let eneg = r3.len() > 0 && r3[0] == '-';
    let esign = r3.len() > 0 && (r3[0] == '-' || r3[0] == '+');
    let r4 = if esign { r3.skip(1) } else { r3 };
    let d3 = digit_run(r4);
    if d3 == 0 || d3 != r4.len() { None } else { Some(canonical_exponent(eneg, r4)) }
}

/// The largest size of an exponent that is written out: a number with a
/// larger exponent keeps it, canonically written, rather than be written
/// with that many digits.
pub const MAX_WRITTEN_EXPONENT: u64 = 400;

/// The value of a decimal digit.
pub open spec fn digit_of(c: char) -> nat {
    (c as int - '0' as int) as nat
}

/// The value of a run of decimal digits.
pub open spec fn digits_value(d: Seq<char>) -> nat
    decreases d.len(),
{
    if d.len() == 0 {
        0
    } else {
        digits_value(d.drop_last()) * 10 + digit_of(d.last())
    }
}

/// `n` zeros.
pub open spec fn zeros(n: int) -> Seq<char> {
    Seq::new(n as nat, |i: int| '0')
}

/// The integer and fractional digits of the number of integer digits `ip`
/// and fractional digits `frac` once multiplied by ten to the power `k`.
pub open spec fn shift_point(ip: Seq<char>, frac: Seq<char>, k: int) -> (Seq<char>, Seq<char>) {
    let d = ip + frac;
    let p = ip.len() + k;
    if p <= 0 {
        (Seq::empty(), zeros(-p) + d)
    } else if p >= d.len() {
        (d + zeros(p - d.len()), Seq::empty())
    } else {
        (d.take(p), d.skip(p))
    }
}

/// The value of the exponent part `[+-]? digits` when its size is at most
/// [`MAX_WRITTEN_EXPONENT`].
pub open spec fn small_exponent(r3: Seq<char>) -> Option<int> {
    let eneg = r3.len() > 0 && r3[0] == '-';
    let esign = r3.len() > 0 && (r3[0] == '-' || r3[0] == '+');
    let r4 = if esign { r3.skip(1) } else { r3 };
    let v = digits_value(r4);
    if v <= MAX_WRITTEN_EXPONENT {
        Some(if eneg { -(v as int) } else { v as int })
    } else {
        None
    }
}

/// The canonical writing of `digits [. digits] [e [+-] digits]`: the
/// exponent, when there is one of size at most [`MAX_WRITTEN_EXPONENT`], is
/// written out by moving the point, so that a number has one writing.
pub open spec fn canonical_decimal(neg: bool, r: Seq<char>) -> Option<Seq<char>> {
    let d1 = digit_run(r);
    let ip = r.take(d1 as int);
    let r1 = r.skip(d1 as int);
    let has_dot = r1.len() > 0 && r1[0] == '.';
    let r1b = if has_dot { r1.skip(1) } else { r1 };
    let d2 = if has_dot { digit_run(r1b) } else { 0 };
    let frac = r1b.take(d2 as int);
    let r2 = r1b.skip(d2 as int);
    if d1 == 0 && d2 == 0 {
        None
    } else if r2.len() == 0 {
        Some(canonical_mantissa(neg, ip, frac))
    } else if r2[0] == 'e' || r2[0] == 'E' {
        match canonical_exponent_part(r2.skip(1)) {
            Some(e) => match small_exponent(r2.skip(1)) {
                Some(k) => {
                    let sh = shift_point(ip, frac, k);
                    Some(canonical_mantissa(neg, sh.0, sh.1))
                },
                None => Some(canonical_mantissa(neg, ip, frac) + e),
            },
            None => None,
        }
    } else {
        None
    }
}

/// A real number, held as its canonical decimal writing.
#[derive(Debug, PartialEq, Eq)]
pub struct Numeric {
    text: String,
}

impl View for Numeric {
    type V = Seq<char>;

    closed spec fn view(&self) -> Seq<char> {
        self.text@
    }
}

proof fn lemma_digit_run_bound(s: Seq<char>)
    ensures
        digit_run(s) <= s.len(),
        forall|i: int| 0 <= i < digit_run(s) ==> is_digit(#[trigger] s[i]),
        digit_run(s) < s.len() ==> !is_digit(s[digit_run(s) as int]),
    decreases s.len(),
{
    if s.len() > 0 && is_digit(s[0]) {
        lemma_digit_run_bound(s.skip(1));
        assert forall|i: int| 0 <= i < digit_run(s) implies is_digit(#[trigger] s[i]) by {
            if i > 0 {
                assert(s[i] == s.skip(1)[i - 1]);
            }
        }
        if digit_run(s) < s.len() {
            assert(s[digit_run(s) as int] == s.skip(1)[digit_run(s.skip(1)) as int]);
        }
    }
}

/// Index of the end of the run of digits that starts at `start`.
fn digit_run_end(v: &Vec<char>, start: usize) -> (end: usize)
    requires
        start <= v@.len(),
    ensures
        start <= end <= v@.len(),
        end - start == digit_run(v@.skip(start as int)),
{
    let mut j = start;
    while j < v.len() && '0' <= v[j] && v[j] <= '9'
        invariant
            start <= j <= v@.len(),
            digit_run(v@.skip(start as int)) == (j - start) + digit_run(v@.skip(j as int)),
        decreases v@.len() - j,
    {
        assert(v@.skip(j as int).skip(1) =~= v@.skip(j + 1));
        j += 1;
    }
    j
}

/// Returns `k` such that `v[k..end]` is `v[start..end]` without its leading zeros.
fn skip_leading_zeros(v: &Vec<char>, start: usize, end: usize) -> (k: usize)
    requires
        start <= end <= v@.len(),
    ensures
        start <= k <= end,
        strip_leading_zeros(v@.subrange(start as int, end as int)) == v@.subrange(k as int, end as int),
{
    let mut k = start;
    while k < end && v[k] == '0'
        invariant
            start <= k <= end,
            end <= v@.len(),
            strip_leading_zeros(v@.subrange(start as int, end as int))
                == strip_leading_zeros(v@.subrange(k as int, end as int)),
        decreases end - k,
    {
        assert(v@.subrange(k as int, end as int).skip(1) =~= v@.subrange(k + 1, end as int));
        k += 1;
    }
    k
}

/// Returns `k` such that `v[start..k]` is `v[start..end]` without its trailing zeros.
fn drop_trailing_zeros(v: &Vec<char>, start: usize, end: usize) -> (k: usize)
    requires
        start <= end <= v@.len(),
    ensures
        start <= k <= end,
        strip_trailing_zeros(v@.subrange(start as int, end as int)) == v@.subrange(start as int, k as int),
{
    let mut k = end;
    while k > start && v[k - 1] == '0'
        invariant
            start <= k <= end,
            end <= v@.len(),
            strip_trailing_zeros(v@.subrange(start as int, end as int))
                == strip_trailing_zeros(v@.subrange(start as int, k as int)),
        decreases k - start,
    {
        assert(v@.subrange(start as int, k as int).drop_last() =~= v@.subrange(start as int, k - 1));
        k -= 1;
    }
    k
}

/// Appends `v[a..b]` to `out`.
fn push_range(out: &mut Vec<char>, v: &Vec<char>, a: usize, b: usize)
    requires
        a <= b <= v@.len(),
    ensures
        final(out)@ == old(out)@ + v@.subrange(a as int, b as int),
{
    let mut i = a;
    while i < b
        invariant
            a <= i <= b,
            b <= v@.len(),
            out@ == old(out)@ + v@.subrange(a as int, i as int),
        decreases b - i,
    {
        out.push(v[i]);
        i += 1;
        assert(v@.subrange(a as int, i as int) =~= v@.subrange(a as int, i - 1).push(v@[i - 1]));
    }
}

/// Checks that `v[a..]` is the lowercase word `w`, ignoring case.
fn matches_word_ci(v: &Vec<char>, a: usize, w: &Vec<char>) -> (r: bool)
    requires
        a <= v@.len(),
        forall|i: int| 0 <= i < w@.len() ==> !('A' <= #[trigger] w@[i] && w@[i] <= 'Z'),
    ensures
        r == same_word_ci(v@.skip(a as int), w@),
{
    if v.len() - a != w.len() {
        return false;
    }
    let mut i: usize = 0;
    while i < w.len()
        invariant
            a <= v@.len(),
            v@.len() - a == w@.len(),
            v@.len() <= usize::MAX,
            i <= w@.len(),
            forall|j: int| 0 <= j < i ==> lower_char(#[trigger] v@.skip(a as int)[j]) == w@[j],
        decreases w.len() - i,
    {
        assert(a + i < v@.len());
        let c = v[a + i];
        let l = if 'A' <= c && c <= 'Z' { ((c as u8) + 32) as char } else { c };
        assert(v@.skip(a as int)[i as int] == c);
        if l != w[i] {
            return false;
        }
        i += 1;
    }
    true
}

fn word(w: &str) -> (r: Vec<char>)
    ensures r@ == w@,
{
    chars_of(w)
}

impl Numeric {
    /// The number zero.
    pub fn zero() -> (r: Numeric)
        ensures
            r@ == seq!['0'],
    {
        let mut v: Vec<char> = Vec::new();
        v.push('0');
        Numeric { text: string_of(&v) }
    }

    /// The number one.
    pub fn one() -> (r: Numeric)
        ensures
            r@ == seq!['1'],
    {
        let mut v: Vec<char> = Vec::new();
        v.push('1');
        Numeric { text: string_of(&v) }
    }

    /// The canonical writing of this number.
    pub fn text(&self) -> (r: String)
        ensures
            r@ == self@,
    {
        self.text.clone()
    }

    /// Same value.
    pub fn same(&self, other: &Numeric) -> (r: bool)
        ensures
            r == (self@ == other@),
    {
        self.text == other.text
    }

    pub fn copy(&self) -> (r: Numeric)
        ensures
            r@ == self@,
            r == *self,
    {
        Numeric { text: self.text.clone() }
    }

    /// Reads a number written as `s` (see [`canonical_number`] for the
    /// accepted syntax), or returns `None`.
    pub fn parse(s: &str) -> (r: Option<Numeric>)
        ensures
            r matches Some(n) ==> canonical_number(s@) == Some(n@),
            r is None ==> canonical_number(s@) is None,
    {
        let v = chars_of(s);
        let ghost sv = v@;
        let has_sign = v.len() > 0 && (v[0] == '-' || v[0] == '+');
        let neg = v.len() > 0 && v[0] == '-';
        let st: usize = if has_sign { 1 } else { 0 };
        let ghost r = sv.skip(st as int);
        assert(r == (if has_sign { sv.skip(1) } else { sv }));
        let w_inf = word("inf");
        let w_infinity = word("infinity");
        let w_nan = word("nan");
        proof {
            reveal_strlit("inf");
            reveal_strlit("infinity");
            reveal_strlit("nan");
            assert(w_inf@ =~= word_inf());
            assert(w_infinity@ =~= word_infinity());
            assert(w_nan@ =~= word_nan());
        }
        if matches_word_ci(&v, st, &w_inf) || matches_word_ci(&v, st, &w_infinity) {
            let mut out: Vec<char> = Vec::new();
            if neg {
                out.push('-');
            }
            out.push('i');
            out.push('n');
            out.push('f');
            let ghost expect: Seq<char> = if neg { seq!['-', 'i', 'n', 'f'] } else { word_inf() };
            assert(out@ =~= expect);
            return Some(Numeric { text: string_of(&out) });
        }
        if matches_word_ci(&v, st, &w_nan) {
            let mut out: Vec<char> = Vec::new();
            out.push('N');
            out.push('a');
            out.push('N');
            assert(out@ =~= seq!['N', 'a', 'N']);
            return Some(Numeric { text: string_of(&out) });
        }
        assert(canonical_number(sv) == canonical_decimal(neg, r));
        match parse_decimal(&v, st, neg) {
            Some(out) => Some(Numeric { text: string_of(&out) }),
            None => None,
        }
    }
}

/// Canonical writing of the exponent part `v[xs..]`.
fn parse_exponent(v: &Vec<char>, xs: usize) -> (r: Option<Vec<char>>)
    requires
        xs <= v@.len(),
    ensures
        r matches Some(o) ==> canonical_exponent_part(v@.skip(xs as int)) == Some(o@),
        r is None ==> canonical_exponent_part(v@.skip(xs as int)) is None,
{
    let ghost sv = v@;
    let eneg = xs < v.len() && v[xs] == '-';
    let esign = xs < v.len() && (v[xs] == '-' || v[xs] == '+');
    let ds: usize = if esign { xs + 1 } else { xs };
    assert(esign ==> sv.skip(xs as int).skip(1) =~= sv.skip(ds as int));
    let de = digit_run_end(v, ds);
    if de == ds || de != v.len() {
        return None;
    }
    let ek = skip_leading_zeros(v, ds, de);
    assert(sv.skip(ds as int) =~= sv.subrange(ds as int, de as int));
    let mut out: Vec<char> = Vec::new();
    if ek < de {
        out.push('e');
        if eneg {
            out.push('-');
        }
        push_range(&mut out, v, ek, de);
        proof {
            let e = sv.subrange(ek as int, de as int);
            let sg: Seq<char> = if eneg { seq!['-'] } else { Seq::empty() };
            assert(out@ =~= seq!['e'] + sg + e);
        }
    } else {
        assert(out@ =~= Seq::<char>::empty());
    }
    Some(out)
}

/// Canonical writing of the decimal number `v[st..]`.
#[verifier::spinoff_prover]
#[verifier::rlimit(60)]
fn parse_decimal(v: &Vec<char>, st: usize, neg: bool) -> (r: Option<Vec<char>>)
    requires
        st <= v@.len(),
    ensures
        r matches Some(o) ==> canonical_decimal(neg, v@.skip(st as int)) == Some(o@),
        r is None ==> canonical_decimal(neg, v@.skip(st as int)) is None,
{
    let ghost sv = v@;
    let ghost r = sv.skip(st as int);
    let e1 = digit_run_end(v, st);
    let ghost d1 = (e1 - st) as nat;
    assert(r.take(d1 as int) =~= sv.subrange(st as int, e1 as int));
    assert(r.skip(d1 as int) =~= sv.skip(e1 as int));
    let has_dot = e1 < v.len() && v[e1] == '.';
    let fs: usize = if has_dot { e1 + 1 } else { e1 };
    let fe = if has_dot { digit_run_end(v, fs) } else { fs };
    proof {
        if has_dot {
            assert(sv.skip(e1 as int).skip(1) =~= sv.skip(fs as int));
        }
        assert(sv.skip(fs as int).take((fe - fs) as int) =~= sv.subrange(fs as int, fe as int));
        assert(sv.skip(fs as int).skip((fe - fs) as int) =~= sv.skip(fe as int));
    }
    if e1 == st && fe == fs {
        return None;
    }
    let out = build_mantissa(v, st, e1, fs, fe, neg);
    let ghost mant = canonical_mantissa(neg, sv.subrange(st as int, e1 as int), sv.subrange(fs as int, fe as int));
    if fe == v.len() {
        return Some(out);
    }
    if v[fe] != 'e' && v[fe] != 'E' {
        return None;
    }
    assert(sv.skip(fe as int).skip(1) =~= sv.skip(fe + 1));
    match parse_exponent(v, fe + 1) {
        Some(e) => match exponent_shift(v, fe + 1) {
            Some(k) => Some(expand(v, st, e1, fs, fe, neg, k)),
            None => {
                let mut o = out;
                push_chars_local(&mut o, &e);
                Some(o)
            },
        },
        None => None,
    }
}

proof fn lemma_digits_value_prefix(d: Seq<char>, k: int)
    requires
        0 <= k <= d.len(),
    ensures
        digits_value(d.take(k)) <= digits_value(d),
    decreases d.len(),
{
    if k < d.len() {
        lemma_digits_value_prefix(d.drop_last(), k);
        assert(d.drop_last().take(k) =~= d.take(k));
    } else {
        assert(d.take(k) =~= d);
    }
}

/// The value of the valid exponent part `v[xs..]`, when its size is at most
/// [`MAX_WRITTEN_EXPONENT`].
fn exponent_shift(v: &Vec<char>, xs: usize) -> (r: Option<i64>)
    requires
        xs <= v@.len(),
        canonical_exponent_part(v@.skip(xs as int)) is Some,
    ensures
        match small_exponent(v@.skip(xs as int)) {
            Some(k) => r == Some(k as i64) && -400 <= k <= 400,
            None => r is None,
        },
{
    let ghost sv = v@;
    let ghost r3 = sv.skip(xs as int);
    let eneg = xs < v.len() && v[xs] == '-';
    let esign = xs < v.len() && (v[xs] == '-' || v[xs] == '+');
    let ds: usize = if esign { xs + 1 } else { xs };
    assert(r3.len() > 0 ==> r3[0] == sv[xs as int]);
    let ghost r4 = if esign { r3.skip(1) } else { r3 };
    assert(r4 =~= sv.subrange(ds as int, sv.len() as int));
    let ghost de = digit_run(r4);
    assert(de == r4.len());
    proof {
        lemma_digit_run_all(r4);
    }
    let mut val: u64 = 0;
    let mut i: usize = ds;
    while i < v.len()
        invariant
            ds <= i <= v@.len(),
            sv == v@,
            r4 == sv.subrange(ds as int, sv.len() as int),
            xs <= sv.len(),
            r3 == sv.skip(xs as int),
            eneg == (r3.len() > 0 && r3[0] == '-'),
            esign == (r3.len() > 0 && (r3[0] == '-' || r3[0] == '+')),
            r4 == if esign { r3.skip(1) } else { r3 },
            forall|q: int| 0 <= q < r4.len() ==> is_digit(#[trigger] r4[q]),
            val == digits_value(r4.take(i - ds)),
            val <= MAX_WRITTEN_EXPONENT,
        decreases v.len() - i,
    {
        let c = v[i];
        assert(r4[i - ds] == c);
        assert(r4.take(i - ds + 1).drop_last() =~= r4.take(i - ds));
        let dig = (c as u32 - '0' as u32) as u64;
        let nv = val * 10 + dig;
        if nv > MAX_WRITTEN_EXPONENT {
            proof {
                assert(is_digit(r4[i - ds]));
                assert(digit_of(c) == dig);
                assert(r4.take(i - ds + 1).last() == c);
                assert(digits_value(r4.take(i - ds + 1)) == nv);
                lemma_digits_value_prefix(r4, i - ds + 1);
                assert(digits_value(r4) > MAX_WRITTEN_EXPONENT);
                assert(small_exponent(r3) is None);
            }
            return None;
        }
        val = nv;
        i += 1;
    }
    assert(r4.take(i - ds) =~= r4);
    if eneg {
        Some(0 - (val as i64))
    } else {
        Some(val as i64)
    }
}

/// A run of digits as long as the text is made of digits only.
proof fn lemma_digit_run_all(r: Seq<char>)
    requires
        digit_run(r) == r.len(),
    ensures
        forall|q: int| 0 <= q < r.len() ==> is_digit(#[trigger] r[q]),
    decreases r.len(),
{
    if r.len() > 0 {
        lemma_digit_run_all(r.skip(1));
        assert forall|q: int| 0 <= q < r.len() implies is_digit(#[trigger] r[q]) by {
            if q > 0 {
                assert(r[q] == r.skip(1)[q - 1]);
            }
        }
    }
}

/// Pushes `n` zeros.
fn push_zeros(out: &mut Vec<char>, n: usize)
    ensures
        final(out)@ == old(out)@ + zeros(n as int),
{
    let mut i: usize = 0;
    while i < n
        invariant
            i <= n,
            out@ == old(out)@ + zeros(i as int),
        decreases n - i,
    {
        out.push('0');
        i += 1;
        assert(out@ =~= old(out)@ + zeros(i as int));
    }
}

/// The canonical mantissa of the integer digits `v[st..e1]` and the
/// fractional digits `v[fs..fe]` multiplied by ten to the power `k`.
fn expand(v: &Vec<char>, st: usize, e1: usize, fs: usize, fe: usize, neg: bool, k: i64) -> (out: Vec<char>)
    requires
        st <= e1 <= v@.len(),
        fs <= fe <= v@.len(),
        -400 <= k <= 400,
    ensures
        ({
            let sh = shift_point(v@.subrange(st as int, e1 as int), v@.subrange(fs as int, fe as int), k as int);
            out@ == canonical_mantissa(neg, sh.0, sh.1)
        }),
{
    let ghost ip = v@.subrange(st as int, e1 as int);
    let ghost frac = v@.subrange(fs as int, fe as int);
    let ghost sh = shift_point(ip, frac, k as int);
    let mut d: Vec<char> = Vec::new();
    push_range(&mut d, v, st, e1);
    push_range(&mut d, v, fs, fe);
    assert(d@ =~= ip + frac);
    let n = d.len();
    let p: i128 = (e1 - st) as i128 + k as i128;
    let mut w: Vec<char> = Vec::new();
    if p <= 0 {
        w.push('.');
        push_zeros(&mut w, (0 - p) as usize);
        push_range(&mut w, &d, 0, n);
        let m = w.len();
        assert(w@.subrange(0, 0) =~= sh.0);
        assert(w@.subrange(1, m as int) =~= sh.1);
        build_mantissa(&w, 0, 0, 1, m, neg)
    } else if p >= n as i128 {
        push_range(&mut w, &d, 0, n);
        push_zeros(&mut w, (p - n as i128) as usize);
        let m = w.len();
        w.push('.');
        let m1 = w.len();
        assert(w@.subrange(0, m as int) =~= sh.0);
        assert(w@.subrange(m1 as int, m1 as int) =~= sh.1);
        build_mantissa(&w, 0, m, m1, m1, neg)
    } else {
        let pu = p as usize;
        push_range(&mut w, &d, 0, pu);
        w.push('.');
        push_range(&mut w, &d, pu, n);
        let m = w.len();
        assert(w@.subrange(0, pu as int) =~= sh.0);
        assert(w@.subrange(pu + 1, m as int) =~= sh.1);
        build_mantissa(&w, 0, pu, pu + 1, m, neg)
    }
}


/// The canonical mantissa made of the integer digits `v[st..e1]` and the
/// fractional digits `v[fs..fe]`.
fn build_mantissa(v: &Vec<char>, st: usize, e1: usize, fs: usize, fe: usize, neg: bool) -> (out: Vec<char>)
    requires
        st <= e1 <= v@.len(),
        fs <= fe <= v@.len(),
    ensures
        out@ == canonical_mantissa(neg, v@.subrange(st as int, e1 as int), v@.subrange(fs as int, fe as int)),
{
    let ghost sv = v@;
    let mut out: Vec<char> = Vec::new();
    if neg {
        out.push('-');
    }
    let ik = skip_leading_zeros(v, st, e1);
    if ik == e1 {
        out.push('0');
    } else {
        push_range(&mut out, v, ik, e1);
    }
    let fk = drop_trailing_zeros(v, fs, fe);
    if fk > fs {
        out.push('.');
        push_range(&mut out, v, fs, fk);
    }
    let ghost mant = canonical_mantissa(neg, sv.subrange(st as int, e1 as int), sv.subrange(fs as int, fe as int));
    proof {
        let i = sv.subrange(ik as int, e1 as int);
        let f = sv.subrange(fs as int, fk as int);
        let sgn: Seq<char> = if neg { seq!['-'] } else { Seq::empty() };
        let ip: Seq<char> = if i.len() == 0 { seq!['0'] } else { i };
        let fp: Seq<char> = if f.len() == 0 { Seq::empty() } else { seq!['.'] + f };
        assert(out@ =~= sgn + ip + fp);
    }
    assert(out@ == mant);
    out
}

fn push_chars_local(out: &mut Vec<char>, s: &Vec<char>)
    ensures
        final(out)@ == old(out)@ + s@,
{
    crate::text::push_chars(out, s);
}

} // verus!
