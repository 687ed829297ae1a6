//! File-name-safe slugs for meeting titles.
use vstd::prelude::*;
use crate::text::{
    ascii_lower, ascii_lower_char, chars_of, in_class, is_ascii_alphanumeric,
    is_ascii_alphanumeric_char, is_ascii_digit, is_ascii_lower, push_char, string_of, trim_bounds,
    trim_by, trim_end_by, trim_start_by, TrimClass,
};

verus! {

broadcast use vstd::string::group_string_axioms;

/// The slug before its ends are trimmed: each ASCII letter or digit lower-cased,
/// each run of other characters collapsed into one `-`.
pub open spec fn slug_raw(s: Seq<char>) -> Seq<char>
    decreases s.len(),
{
    if s.len() == 0 {
        Seq::empty()
    } else {
        let prev = slug_raw(s.drop_last());
        let c = s.last();
        if is_ascii_alphanumeric(c) {
            prev.push(ascii_lower(c))
        } else if prev.len() > 0 && prev.last() == '-' {
            prev
        } else {
            prev.push('-')
        }
    }
}

/// The slug used when nothing of the title survives.
pub open spec fn fallback_slug() -> Seq<char> {
    seq!['m', 'e', 'e', 't', 'i', 'n', 'g']
}

/// The slug of a title: `slug_raw` with leading and trailing dashes removed,
/// or `meeting` when that leaves nothing.
pub open spec fn slug_of(s: Seq<char>) -> Seq<char> {
    let t = trim_by(slug_raw(s), TrimClass::Dash);
    if t.len() == 0 {
        fallback_slug()
    } else {
        t
    }
}

pub open spec fn is_slug_char(c: char) -> bool {
    is_ascii_lower(c) || is_ascii_digit(c) || c == '-'
}

/// Lower-case ASCII letters, digits and single dashes, without a dash at
/// either end, and not empty.
pub open spec fn is_slug(t: Seq<char>) -> bool {
    &&& t.len() > 0
    &&& forall|i: int| 0 <= i < t.len() ==> is_slug_char(#[trigger] t[i])
    &&& forall|i: int| 0 <= i < t.len() - 1 ==> !(#[trigger] t[i] == '-' && t[i + 1] == '-')
    &&& t[0] != '-'
    &&& t.last() != '-'
}

/// Slug characters, no two dashes in a row.
pub open spec fn is_raw_slug(t: Seq<char>) -> bool {
    &&& forall|i: int| 0 <= i < t.len() ==> is_slug_char(#[trigger] t[i])
    &&& forall|i: int| 0 <= i < t.len() - 1 ==> !(#[trigger] t[i] == '-' && t[i + 1] == '-')
}

proof fn lemma_slug_raw_shape(s: Seq<char>)
    ensures
        is_raw_slug(slug_raw(s)),
    decreases s.len(),
{
    if s.len() > 0 {
        lemma_slug_raw_shape(s.drop_last());
    }
}

proof fn lemma_trim_start_by(s: Seq<char>, cls: TrimClass) -> (k: int)
    ensures
        0 <= k <= s.len(),
        trim_start_by(s, cls) == s.subrange(k, s.len() as int),
        trim_start_by(s, cls).len() > 0 ==> !in_class(cls, trim_start_by(s, cls)[0]),
    decreases s.len(),
{
    if s.len() > 0 && in_class(cls, s[0]) {
        let k = lemma_trim_start_by(s.drop_first(), cls);
        assert(s.drop_first().subrange(k, s.drop_first().len() as int) == s.subrange(
            k + 1,
            s.len() as int,
        ));
        k + 1
    } else {
        assert(s.subrange(0, s.len() as int) == s);
        0
    }
}

proof fn lemma_trim_end_by(s: Seq<char>, cls: TrimClass) -> (k: int)
    ensures
        0 <= k <= s.len(),
        trim_end_by(s, cls) == s.subrange(0, k),
        trim_end_by(s, cls).len() > 0 ==> !in_class(cls, trim_end_by(s, cls).last()),
    decreases s.len(),
{
    if s.len() > 0 && in_class(cls, s.last()) {
        let k = lemma_trim_end_by(s.drop_last(), cls);
        assert(s.drop_last().subrange(0, k) == s.subrange(0, k));
        k
    } else {
        assert(s.subrange(0, s.len() as int) == s);
        s.len() as int
    }
}

/// Every slug is well formed: only lower-case ASCII letters, digits and
/// dashes, no two dashes in a row, no dash at either end, never empty.
pub proof fn lemma_slug_well_formed(s: Seq<char>)
    ensures
        is_slug(slug_of(s)),
{
    let raw = slug_raw(s);
    lemma_slug_raw_shape(s);
    let k1 = lemma_trim_start_by(raw, TrimClass::Dash);
    let u = trim_start_by(raw, TrimClass::Dash);
    let k2 = lemma_trim_end_by(u, TrimClass::Dash);
    let t = trim_by(raw, TrimClass::Dash);
    assert(t == raw.subrange(k1, k1 + k2));
    if t.len() > 0 {
        assert(forall|i: int| 0 <= i < t.len() ==> t[i] == raw[k1 + i]);
        assert(t[0] == u[0]);
        assert forall|i: int| 0 <= i < t.len() - 1 implies !(#[trigger] t[i] == '-' && t[i + 1]
            == '-') by {
            assert(t[i] == raw[k1 + i]);
            assert(t[i + 1] == raw[k1 + i + 1]);
        }
    }
}

proof fn lemma_slug_raw_fixed(t: Seq<char>)
    requires
        is_raw_slug(t),
        t.len() > 0 ==> t[0] != '-',
    ensures
        slug_raw(t) == t,
    decreases t.len(),
{
    if t.len() > 0 {
        let p = t.drop_last();
        assert(is_raw_slug(p)) by {
            assert forall|i: int| 0 <= i < p.len() - 1 implies !(#[trigger] p[i] == '-' && p[i
                + 1] == '-') by {
                assert(p[i] == t[i] && p[i + 1] == t[i + 1]);
            }
        }
        lemma_slug_raw_fixed(p);
        assert(p.push(t.last()) == t);
        let c = t.last();
        assert(is_slug_char(c));
        if c == '-' {
            assert(t.len() >= 2);
            assert(!(t[t.len() - 2] == '-' && t[t.len() - 1] == '-'));
        }
    }
}

/// Slugging a slug changes nothing.
pub proof fn lemma_slug_idempotent(s: Seq<char>)
    ensures
        slug_of(slug_of(s)) == slug_of(s),
{
    let t = slug_of(s);
    lemma_slug_well_formed(s);
    lemma_slug_raw_fixed(t);
    assert(trim_start_by(t, TrimClass::Dash) == t);
    assert(trim_end_by(t, TrimClass::Dash) == t);
}

/// `s` with every dash left out.
pub open spec fn without_dashes(s: Seq<char>) -> Seq<char>
    decreases s.len(),
{
    if s.len() == 0 {
        Seq::empty()
    } else if s.last() == '-' {
        without_dashes(s.drop_last())
    } else {
        without_dashes(s.drop_last()).push(s.last())
    }
}

/// The ASCII letters and digits of `s` in order, letters in lower case
/// (`A`..`Z` shifted by 32 to `a`..`z`); every other character left out.
pub open spec fn ascii_alnums_lowered(s: Seq<char>) -> Seq<char>
    decreases s.len(),
{
    if s.len() == 0 {
        Seq::empty()
    } else {
        let p = ascii_alnums_lowered(s.drop_last());
        let c = s.last();
        if ('0' <= c && c <= '9') || ('a' <= c && c <= 'z') {
            p.push(c)
        } else if 'A' <= c && c <= 'Z' {
            p.push(((c as u32) + 32) as char)
        } else {
            p
        }
    }
}

proof fn lemma_without_dashes_append(a: Seq<char>, b: Seq<char>)
    ensures
        without_dashes(a + b) == without_dashes(a) + without_dashes(b),
    decreases b.len(),
{
    if b.len() == 0 {
        assert(a + b == a);
    } else {
        lemma_without_dashes_append(a, b.drop_last());
        assert((a + b).drop_last() == a + b.drop_last());
        assert((a + b).last() == b.last());
        if b.last() != '-' {
            assert(without_dashes(a) + without_dashes(b.drop_last()).push(b.last()) == (
            without_dashes(a) + without_dashes(b.drop_last())).push(b.last()));
        }
    }
}

proof fn lemma_raw_without_dashes(s: Seq<char>)
    ensures
        without_dashes(slug_raw(s)) == ascii_alnums_lowered(s),
    decreases s.len(),
{
    if s.len() > 0 {
        lemma_raw_without_dashes(s.drop_last());
        let prev = slug_raw(s.drop_last());
        let c = s.last();
        if is_ascii_alphanumeric(c) {
            let x = ascii_lower(c);
            assert(x != '-');
            assert(prev.push(x).drop_last() == prev);
            assert(prev.push(x).last() == x);
        } else if !(prev.len() > 0 && prev.last() == '-') {
            assert(prev.push('-').drop_last() == prev);
            assert(prev.push('-').last() == '-');
        }
    }
}

proof fn lemma_trim_dashes_keeps(t: Seq<char>)
    ensures
        without_dashes(trim_start_by(t, TrimClass::Dash)) == without_dashes(t),
        without_dashes(trim_end_by(t, TrimClass::Dash)) == without_dashes(t),
    decreases t.len(),
{
    if t.len() > 0 {
        lemma_trim_dashes_keeps(t.drop_first());
        lemma_trim_dashes_keeps(t.drop_last());
        if t[0] == '-' {
            assert(seq![t[0]] + t.drop_first() == t);
            lemma_without_dashes_append(seq![t[0]], t.drop_first());
            let h = seq![t[0]];
            assert(h.len() == 1 && h.last() == '-');
            assert(h.drop_last() == Seq::<char>::empty());
            assert(without_dashes(h) == without_dashes(h.drop_last()));
            assert(without_dashes(h) == Seq::<char>::empty());
            assert(Seq::<char>::empty() + without_dashes(t.drop_first()) == without_dashes(
                t.drop_first(),
            ));
        }
    }
}

/// Every ASCII letter and digit of the title appears in its slug, lower-cased
/// and in order, and nothing else but dashes does: the slug without its dashes
/// is the title's ASCII letters and digits in lower case, or `meeting` when the
/// title has none.
pub proof fn lemma_slug_keeps_alnums(s: Seq<char>)
    ensures
        without_dashes(slug_of(s)) == if ascii_alnums_lowered(s).len() == 0 {
            seq!['m', 'e', 'e', 't', 'i', 'n', 'g']
        } else {
            ascii_alnums_lowered(s)
        },
{
    let raw = slug_raw(s);
    lemma_raw_without_dashes(s);
    let u = trim_start_by(raw, TrimClass::Dash);
    let t = trim_by(raw, TrimClass::Dash);
    lemma_trim_dashes_keeps(raw);
    lemma_trim_dashes_keeps(u);
    assert(without_dashes(t) == ascii_alnums_lowered(s));
    if t.len() > 0 {
        lemma_trim_end_by(u, TrimClass::Dash);
        assert(t.last() != '-');
        assert(without_dashes(t) == without_dashes(t.drop_last()).push(t.last()));
    } else {
        assert(without_dashes(t) == Seq::<char>::empty());
        let f = fallback_slug();
        assert(f.last() != '-');
        assert(without_dashes(f) =~= f) by {
            reveal_with_fuel(without_dashes, 8);
            assert(f.drop_last() =~= seq!['m', 'e', 'e', 't', 'i', 'n']);
            assert(f.drop_last().drop_last() =~= seq!['m', 'e', 'e', 't', 'i']);
            assert(f.drop_last().drop_last().drop_last() =~= seq!['m', 'e', 'e', 't']);
            assert(seq!['m', 'e', 'e', 't'].drop_last() =~= seq!['m', 'e', 'e']);
            assert(seq!['m', 'e', 'e'].drop_last() =~= seq!['m', 'e']);
            assert(seq!['m', 'e'].drop_last() =~= seq!['m']);
            assert(seq!['m'].drop_last() =~= Seq::<char>::empty());
        }
    }
}

/// Filename-safe slug: lowercase, non-alphanumeric characters become `-`,
/// runs of them collapse into one, dashes at either end are trimmed, and an
/// empty result becomes `meeting`.
pub fn slugify(input: &str) -> (r: String)
    ensures
        r@ == slug_of(input@),
        is_slug(r@),
{
    let mut s = String::new();
    let mut prev_dash = false;
    for ch in it: input.chars()
        invariant
            it.seq() == input@,
            s@ == slug_raw(it.seq().take(it.index() as int)),
            prev_dash == (s@.len() > 0 && s@.last() == '-'),
    {
        let ghost before = it.seq().take(it.index() as int);
        assert(it.seq().take(it.index() + 1).drop_last() == before);
        if is_ascii_alphanumeric_char(ch) {
            push_char(&mut s, ascii_lower_char(ch));
            prev_dash = false;
        } else if !prev_dash {
            push_char(&mut s, '-');
            prev_dash = true;
        }
    }
    assert(input@.take(input@.len() as int) == input@);
    proof {
        lemma_slug_well_formed(input@);
    }
    let v = chars_of(s.as_str());
    let (a, b) = trim_bounds(&v, TrimClass::Dash);
    if a == b {
        proof {
            reveal_strlit("meeting");
        }
        String::from_str("meeting")
    } else {
        string_of(&v, a, b)
    }
}

} // verus!
