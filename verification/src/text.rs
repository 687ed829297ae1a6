//! Character-level building blocks shared by the rest of the library:
//! character classes, trimming, decimal rendering and string assembly.
use vstd::prelude::*;

verus! {

broadcast use vstd::string::group_string_axioms;

/// Appends one character to a `String`.
///
/// Trusted: `std::string::String::push`, which the standard library documents as
/// appending the given `char` to the end of the string.
#[verifier::external_body]
pub(crate) fn push_char(s: &mut String, c: char)
    ensures
        final(s)@ == old(s)@.push(c),
{
    s.push(c);
}

/// The Unicode `White_Space` property, which is what `char::is_whitespace` and
/// `str::trim` use.
pub open spec fn is_white_space(c: char) -> bool {
    ||| ('\t' <= c && c <= '\r')
    ||| c == ' '
    ||| c == '\u{85}'
    ||| c == '\u{a0}'
    ||| c == '\u{1680}'
    ||| ('\u{2000}' <= c && c <= '\u{200a}')
    ||| c == '\u{2028}'
    ||| c == '\u{2029}'
    ||| c == '\u{202f}'
    ||| c == '\u{205f}'
    ||| c == '\u{3000}'
}

pub open spec fn is_ascii_digit(c: char) -> bool {
    '0' <= c && c <= '9'
}

pub open spec fn is_ascii_upper(c: char) -> bool {
    'A' <= c && c <= 'Z'
}

pub open spec fn is_ascii_lower(c: char) -> bool {
    'a' <= c && c <= 'z'
}

pub open spec fn is_ascii_alphanumeric(c: char) -> bool {
    is_ascii_digit(c) || is_ascii_upper(c) || is_ascii_lower(c)
}

/// `char::to_ascii_lowercase`: upper-case ASCII letters map to lower case,
/// every other character is unchanged.
pub open spec fn ascii_lower(c: char) -> char {
    if is_ascii_upper(c) {
        ((c as u32) + 32) as char
    } else {
        c
    }
}

/// The classes of characters that the library trims from the ends of a text.
#[derive(Clone, Copy, PartialEq, Eq, Structural)]
pub enum TrimClass {
    WhiteSpace,
    Dash,
}

pub open spec fn in_class(cls: TrimClass, c: char) -> bool {
    match cls {
        TrimClass::WhiteSpace => is_white_space(c),
        TrimClass::Dash => c == '-',
    }
}

/// `s` without its leading characters of class `cls`.
pub open spec fn trim_start_by(s: Seq<char>, cls: TrimClass) -> Seq<char>
    decreases s.len(),
{
    if s.len() > 0 && in_class(cls, s[0]) {
        trim_start_by(s.drop_first(), cls)
    } else {
        s
    }
}

/// `s` without its trailing characters of class `cls`.
pub open spec fn trim_end_by(s: Seq<char>, cls: TrimClass) -> Seq<char>
    decreases s.len(),
{
    if s.len() > 0 && in_class(cls, s.last()) {
        trim_end_by(s.drop_last(), cls)
    } else {
        s
    }
}

/// `s` without leading and trailing characters of class `cls`.
pub open spec fn trim_by(s: Seq<char>, cls: TrimClass) -> Seq<char> {
    trim_end_by(trim_start_by(s, cls), cls)
}

/// What `str::trim` returns.
pub open spec fn trim(s: Seq<char>) -> Seq<char> {
    trim_by(s, TrimClass::WhiteSpace)
}

/// Every character of `s` is of class `cls`.
pub open spec fn all_in_class(s: Seq<char>, cls: TrimClass) -> bool {
    forall|i: int| 0 <= i < s.len() ==> in_class(cls, #[trigger] s[i])
}

proof fn lemma_trim_start_skips(a: Seq<char>, t: Seq<char>, cls: TrimClass)
    requires
        all_in_class(a, cls),
    ensures
        trim_start_by(a + t, cls) == trim_start_by(t, cls),
    decreases a.len(),
{
    if a.len() > 0 {
        assert((a + t)[0] == a[0]);
        assert((a + t).drop_first() == a.drop_first() + t);
        lemma_trim_start_skips(a.drop_first(), t, cls);
    } else {
        assert(a + t == t);
    }
}

proof fn lemma_trim_end_skips(t: Seq<char>, b: Seq<char>, cls: TrimClass)
    requires
        all_in_class(b, cls),
    ensures
        trim_end_by(t + b, cls) == trim_end_by(t, cls),
    decreases b.len(),
{
    if b.len() > 0 {
        assert((t + b).last() == b.last());
        assert((t + b).drop_last() == t + b.drop_last());
        lemma_trim_end_skips(t, b.drop_last(), cls);
    } else {
        assert(t + b == t);
    }
}

proof fn lemma_trim_start_all(s: Seq<char>, cls: TrimClass)
    requires
        all_in_class(s, cls),
    ensures
        trim_start_by(s, cls) == Seq::<char>::empty(),
    decreases s.len(),
{
    if s.len() > 0 {
        lemma_trim_start_all(s.drop_first(), cls);
    }
}

proof fn lemma_trim_start_append(s: Seq<char>, b: Seq<char>, cls: TrimClass)
    requires
        !all_in_class(s, cls),
    ensures
        trim_start_by(s + b, cls) == trim_start_by(s, cls) + b,
    decreases s.len(),
{
    if s.len() > 0 && in_class(cls, s[0]) {
        assert((s + b)[0] == s[0]);
        assert((s + b).drop_first() == s.drop_first() + b);
        assert(!all_in_class(s.drop_first(), cls)) by {
            let i = choose|i: int| 0 <= i < s.len() && !in_class(cls, #[trigger] s[i]);
            assert(s.drop_first()[i - 1] == s[i]);
        }
        lemma_trim_start_append(s.drop_first(), b, cls);
    } else {
        assert(s.len() > 0);
        assert((s + b)[0] == s[0]);
    }
}

/// Characters of class `cls` around a text do not change what trimming gives.
pub proof fn lemma_trim_ignores_surrounding(a: Seq<char>, s: Seq<char>, b: Seq<char>, cls: TrimClass)
    requires
        all_in_class(a, cls),
        all_in_class(b, cls),
    ensures
        trim_by(a + s + b, cls) == trim_by(s, cls),
{
    assert(a + s + b == a + (s + b));
    lemma_trim_start_skips(a, s + b, cls);
    if all_in_class(s, cls) {
        lemma_trim_start_all(s, cls);
        assert(all_in_class(s + b, cls)) by {
            assert forall|i: int| 0 <= i < (s + b).len() implies in_class(cls, #[trigger] (s + b)[i]) by {
                if i < s.len() {
                    assert((s + b)[i] == s[i]);
                } else {
                    assert((s + b)[i] == b[i - s.len()]);
                }
            }
        }
        lemma_trim_start_all(s + b, cls);
    } else {
        lemma_trim_start_append(s, b, cls);
        lemma_trim_end_skips(trim_start_by(s, cls), b, cls);
    }
}

/// The decimal digit for `d < 10`.
pub open spec fn digit_char(d: nat) -> char {
    ((48 + d) as u32) as char
}

/// The decimal rendering of `n`, without sign or leading zeros.
pub open spec fn decimal(n: nat) -> Seq<char>
    decreases n,
{
    if n < 10 {
        seq![digit_char(n)]
    } else {
        decimal(n / 10).push(digit_char(n % 10))
    }
}

/// `decimal(n)` left-padded with zeros to at least `width` characters.
pub open spec fn zero_padded(n: nat, width: nat) -> Seq<char> {
    let d = decimal(n);
    if d.len() >= width {
        d
    } else {
        Seq::new((width - d.len()) as nat, |i: int| '0') + d
    }
}

pub proof fn lemma_decimal_digits(n: nat)
    ensures
        decimal(n).len() >= 1,
        forall|i: int| 0 <= i < decimal(n).len() ==> is_ascii_digit(#[trigger] decimal(n)[i]),
    decreases n,
{
    if n >= 10 {
        lemma_decimal_digits(n / 10);
    }
}

/// The number that a string of decimal digits denotes, most significant digit
/// first.
pub open spec fn decimal_value(s: Seq<char>) -> int
    decreases s.len(),
{
    if s.len() == 0 {
        0
    } else {
        decimal_value(s.drop_last()) * 10 + (s.last() as int - '0' as int)
    }
}

/// Reading the decimal rendering of `n` gives `n` back, and it has no leading
/// zero but for `0` itself.
pub proof fn lemma_decimal_value(n: nat)
    ensures
        decimal_value(decimal(n)) == n,
        decimal(n)[0] == '0' ==> n == 0,
    decreases n,
{
    if n >= 10 {
        lemma_decimal_value(n / 10);
        lemma_decimal_digits(n / 10);
        let p = decimal(n / 10);
        let c = digit_char(n % 10);
        assert(p.push(c).drop_last() == p);
        assert(p.push(c)[0] == p[0]);
        assert(c as int == 48 + n % 10);
        assert(decimal(n) == p.push(c));
        assert(decimal_value(p.push(c)) == decimal_value(p) * 10 + (c as int - 48));
        assert((n / 10) * 10 + n % 10 == n);
    } else {
        let one = seq![digit_char(n)];
        assert(digit_char(n) as int == 48 + n);
        assert(decimal(n) == one);
        assert(one.drop_last() == Seq::<char>::empty());
        assert(one.last() == digit_char(n));
        assert(decimal_value(one) == decimal_value(Seq::<char>::empty()) * 10 + (digit_char(n) as int
            - 48));
    }
}

pub fn is_white_space_char(c: char) -> (r: bool)
    ensures
        r == is_white_space(c),
{
    ('\t' <= c && c <= '\r') || c == ' ' || c == '\u{85}' || c == '\u{a0}' || c == '\u{1680}'
        || ('\u{2000}' <= c && c <= '\u{200a}') || c == '\u{2028}' || c == '\u{2029}' || c
        == '\u{202f}' || c == '\u{205f}' || c == '\u{3000}'
}

pub fn is_ascii_alphanumeric_char(c: char) -> (r: bool)
    ensures
        r == is_ascii_alphanumeric(c),
{
    ('0' <= c && c <= '9') || ('A' <= c && c <= 'Z') || ('a' <= c && c <= 'z')
}

pub fn ascii_lower_char(c: char) -> (r: char)
    ensures
        r == ascii_lower(c),
{
    if 'A' <= c && c <= 'Z' {
        let v: u8 = c as u8;
        (v + 32) as char
    } else {
        c
    }
}

fn in_class_char(cls: TrimClass, c: char) -> (r: bool)
    ensures
        r == in_class(cls, c),
{
    match cls {
        TrimClass::WhiteSpace => is_white_space_char(c),
        TrimClass::Dash => c == '-',
    }
}

/// The characters of `s`, one per element.
pub fn chars_of(s: &str) -> (v: Vec<char>)
    ensures
        v@ == s@,
{
    let mut v: Vec<char> = Vec::new();
    for c in it: s.chars()
        invariant
            it.seq() == s@,
            v@ == it.seq().take(it.index() as int),
    {
        v.push(c);
    }
    v
}

/// Appends `v[from..to]` to `out`.
pub fn push_chars(out: &mut String, v: &Vec<char>, from: usize, to: usize)
    requires
        from <= to <= v@.len(),
    ensures
        final(out)@ == old(out)@ + v@.subrange(from as int, to as int),
{
    let mut i = from;
    while i < to
        invariant
            from <= i <= to <= v@.len(),
            out@ == old(out)@ + v@.subrange(from as int, i as int),
        decreases to - i,
    {
        push_char(out, v[i]);
        i = i + 1;
        assert(v@.subrange(from as int, i as int) == v@.subrange(from as int, (i - 1) as int).push(
            v@[i - 1],
        ));
    }
}

/// A new `String` holding `v[from..to]`.
pub fn string_of(v: &Vec<char>, from: usize, to: usize) -> (s: String)
    requires
        from <= to <= v@.len(),
    ensures
        s@ == v@.subrange(from as int, to as int),
{
    let mut s = String::new();
    push_chars(&mut s, v, from, to);
    s
}

/// The bounds `(a, b)` with `v[a..b] == trim_by(v, cls)`.
pub fn trim_bounds(v: &Vec<char>, cls: TrimClass) -> (r: (usize, usize))
    ensures
        r.0 <= r.1 <= v@.len(),
        v@.subrange(r.0 as int, r.1 as int) == trim_by(v@, cls),
{
    let n = v.len();
    let mut a: usize = 0;
    assert(v@.subrange(0, n as int) == v@);
    while a < n && in_class_char(cls, v[a])
        invariant
            a <= n == v@.len(),
            trim_start_by(v@, cls) == trim_start_by(v@.subrange(a as int, n as int), cls),
        decreases n - a,
    {
        assert(v@.subrange(a as int, n as int).drop_first() == v@.subrange(a + 1, n as int));
        a = a + 1;
    }
    let mut b: usize = n;
    while b > a && in_class_char(cls, v[b - 1])
        invariant
            a <= b <= n == v@.len(),
            trim_start_by(v@, cls) == v@.subrange(a as int, n as int),
            trim_by(v@, cls) == trim_end_by(v@.subrange(a as int, b as int), cls),
        decreases b - a,
    {
        assert(v@.subrange(a as int, b as int).drop_last() == v@.subrange(a as int, b - 1));
        b = b - 1;
    }
    (a, b)
}

/// What `str::trim` returns, as an owned string.
pub fn trim_string(s: &str) -> (r: String)
    ensures
        r@ == trim(s@),
{
    let v = chars_of(s);
    let (a, b) = trim_bounds(&v, TrimClass::WhiteSpace);
    string_of(&v, a, b)
}

/// Appends the decimal rendering of `n` to `out`.
pub fn push_decimal(out: &mut String, n: u64)
    ensures
        final(out)@ == old(out)@ + decimal(n as nat),
    decreases n,
{
    if n >= 10 {
        push_decimal(out, n / 10);
    }
    let d: u8 = (n % 10) as u8;
    push_char(out, (48u8 + d) as char);
}

/// Whether two string slices hold the same characters.
pub fn same_text(a: &str, b: &str) -> (r: bool)
    ensures
        r == (a@ == b@),
{
    let va = chars_of(a);
    let vb = chars_of(b);
    if va.len() != vb.len() {
        return false;
    }
    let mut i: usize = 0;
    while i < va.len()
        invariant
            i <= va@.len() == vb@.len(),
            va@ == a@,
            vb@ == b@,
            forall|k: int| 0 <= k < i ==> va@[k] == vb@[k],
        decreases va@.len() - i,
    {
        if va[i] != vb[i] {
            return false;
        }
        i = i + 1;
    }
    assert(va@ =~= vb@);
    true
}

/// Appends a string slice to `out`.
pub fn push_str(out: &mut String, s: &str)
    ensures
        final(out)@ == old(out)@ + s@,
{
    out.append(s);
}

} // verus!
