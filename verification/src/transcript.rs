//! Transcript segments and the markdown body rendered from them.
use vstd::prelude::*;
use crate::text::{
    all_in_class, is_ascii_digit, lemma_trim_ignores_surrounding, push_str, trim, trim_end_by,
    trim_start_by, trim_string, TrimClass,
};

verus! {

broadcast use vstd::string::group_string_axioms;

/// One transcribed utterance of a meeting.
pub struct TranscriptSegment {
    /// Position of the utterance in the stream; segments are rendered in this order.
    pub sequence_id: u64,
    /// Speaker label, when the transcription engine told speakers apart.
    pub speaker: Option<String>,
    /// The transcribed text.
    pub text: String,
}

/// The speaker label of a segment, as characters.
pub open spec fn speaker_of(seg: TranscriptSegment) -> Option<Seq<char>> {
    match seg.speaker {
        Some(s) => Some(s@),
        None => None,
    }
}

// ---------------------------------------------------------------------------
// Ordering by sequence id

/// Segment `i` comes before segment `j` when its sequence id is smaller, or when
/// the ids are equal and it came first (a stable sort).
pub open spec fn comes_before(segs: Seq<TranscriptSegment>, i: int, j: int) -> bool {
    ||| segs[i].sequence_id < segs[j].sequence_id
    ||| (segs[i].sequence_id == segs[j].sequence_id && i < j)
}

/// `order` lists each index of `segs` once, in stable sequence-id order.
pub open spec fn is_stable_order(segs: Seq<TranscriptSegment>, order: Seq<usize>) -> bool {
    &&& order.len() == segs.len()
    &&& forall|k: int| 0 <= k < order.len() ==> #[trigger] order[k] < segs.len()
    &&& forall|k: int, l: int|
        0 <= k < l < order.len() ==> comes_before(segs, #[trigger] order[k] as int, #[trigger] order[l] as int)
    &&& forall|j: usize| j < segs.len() ==> #[trigger] order.contains(j)
}

/// The indices of `segments` in the order of a stable sort by sequence id.
pub fn stable_order(segments: &[TranscriptSegment]) -> (order: Vec<usize>)
    ensures
        is_stable_order(segments@, order@),
{
    let n = segments.len();
    let mut order: Vec<usize> = Vec::new();
    let mut i: usize = 0;
    while i < n
        invariant
            i <= n == segments@.len(),
            order@.len() == i,
            forall|k: int| 0 <= k < order@.len() ==> #[trigger] order@[k] < i,
            forall|k: int, l: int|
                0 <= k < l < order@.len() ==> comes_before(
                    segments@,
                    #[trigger] order@[k] as int,
                    #[trigger] order@[l] as int,
                ),
            forall|j: usize| j < i ==> #[trigger] order@.contains(j),
        decreases n - i,
    {
        let key = segments[i].sequence_id;
        let mut p: usize = 0;
        while p < order.len() && segments[order[p]].sequence_id <= key
            invariant
                p <= order@.len() == i,
                i < n == segments@.len(),
                key == segments@[i as int].sequence_id,
                forall|k: int| 0 <= k < order@.len() ==> #[trigger] order@[k] < i,
                forall|k: int| 0 <= k < p ==> segments@[#[trigger] order@[k] as int].sequence_id <= key,
            decreases order@.len() - p,
        {
            p = p + 1;
        }
        let ghost old_order = order@;
        proof {
            if p < old_order.len() {
                assert forall|k: int| p <= k < old_order.len() implies segments@[#[trigger] old_order[k] as int].sequence_id > key by {
                    if k > p {
                        assert(comes_before(segments@, old_order[p as int] as int, old_order[k] as int));
                    }
                }
            }
        }
        order.insert(p, i);
        assert forall|k: int, l: int|
            0 <= k < l < order@.len() implies comes_before(
                segments@,
                #[trigger] order@[k] as int,
                #[trigger] order@[l] as int,
            ) by {
            if k < p && l < p {
                assert(order@[k] == old_order[k] && order@[l] == old_order[l]);
            } else if k < p && l == p {
                assert(order@[k] == old_order[k]);
            } else if k < p {
                assert(order@[k] == old_order[k] && order@[l] == old_order[l - 1]);
            } else if k == p {
                assert(order@[l] == old_order[l - 1]);
            } else {
                assert(order@[k] == old_order[k - 1] && order@[l] == old_order[l - 1]);
            }
        }
        assert forall|j: usize| j < i + 1 implies #[trigger] order@.contains(j) by {
            if j < i {
                assert(old_order.contains(j));
                let k = choose|k: int| 0 <= k < old_order.len() && old_order[k] == j;
                if k < p {
                    assert(order@[k] == old_order[k]);
                } else {
                    assert(order@[k + 1] == old_order[k]);
                }
            } else {
                assert(order@[p as int] == i);
            }
        }
        assert forall|k: int| 0 <= k < order@.len() implies #[trigger] order@[k] < i + 1 by {
            if k < p {
                assert(order@[k] == old_order[k]);
            } else if k > p {
                assert(order@[k] == old_order[k - 1]);
            }
        }
        i = i + 1;
    }
    order
}

// ---------------------------------------------------------------------------
// Speakers

/// The segments name at least two different speakers.
pub open spec fn has_distinct_speakers(segs: Seq<TranscriptSegment>) -> bool {
    exists|i: int, j: int|
        0 <= i < segs.len() && 0 <= j < segs.len() && (#[trigger] speaker_of(segs[i])) is Some
            && (#[trigger] speaker_of(segs[j])) is Some && speaker_of(segs[i])->0 != speaker_of(
            segs[j],
        )->0
}

/// True when more than one distinct speaker label occurs among the segments:
/// only then does the transcript label speakers.
pub fn is_diarized(segments: &[TranscriptSegment]) -> (r: bool)
    ensures
        r == has_distinct_speakers(segments@),
{
    let n = segments.len();
    let mut first: Option<usize> = None;
    let mut i: usize = 0;
    while i < n
        invariant
            i <= n == segments@.len(),
            match first {
                None => forall|k: int| 0 <= k < i ==> (#[trigger] speaker_of(segments@[k])) is None,
                Some(f) => {
                    &&& f < i
                    &&& speaker_of(segments@[f as int]) is Some
                    &&& forall|k: int|
                        0 <= k < i && (#[trigger] speaker_of(segments@[k])) is Some ==> speaker_of(
                            segments@[k],
                        ) == speaker_of(segments@[f as int])
                },
            },
        decreases n - i,
    {
        match &segments[i].speaker {
            Some(s) => {
                assert(speaker_of(segments@[i as int]) == Some(s@));
                match first {
                    None => {
                        first = Some(i);
                    },
                    Some(f) => {
                        let same = match &segments[f].speaker {
                            Some(t) => String::eq(s, t),
                            None => false,
                        };
                        if !same {
                            assert(speaker_of(segments@[i as int])->0 != speaker_of(
                                segments@[f as int],
                            )->0);
                            assert(has_distinct_speakers(segments@));
                            return true;
                        }
                    },
                }
            },
            None => {
                assert(speaker_of(segments@[i as int]) is None);
            },
        }
        i = i + 1;
    }
    assert(!has_distinct_speakers(segments@)) by {
        if has_distinct_speakers(segments@) {
            let (a, b) = choose|a: int, b: int|
                0 <= a < segments@.len() && 0 <= b < segments@.len() && (#[trigger] speaker_of(
                    segments@[a],
                )) is Some && (#[trigger] speaker_of(segments@[b])) is Some && speaker_of(
                    segments@[a],
                )->0 != speaker_of(segments@[b])->0;
            assert(speaker_of(segments@[a]) is Some);
            assert(speaker_of(segments@[b]) is Some);
        }
    }
    false
}

/// No two segments share a sequence id.
pub open spec fn distinct_ids(segs: Seq<TranscriptSegment>) -> bool {
    forall|i: int, j: int|
        0 <= i < segs.len() && 0 <= j < segs.len() && i != j ==> (#[trigger] segs[i]).sequence_id
            != (#[trigger] segs[j]).sequence_id
}

/// `perm` lists each index below `n` exactly once.
pub open spec fn is_permutation(perm: Seq<usize>, n: nat) -> bool {
    &&& perm.len() == n
    &&& forall|i: int| 0 <= i < n ==> #[trigger] perm[i] < n
    &&& forall|i: int, j: int| 0 <= i < n && 0 <= j < n && i != j ==> #[trigger] perm[i] != #[trigger] perm[j]
    &&& forall|k: usize| k < n ==> #[trigger] perm.contains(k)
}

/// `segs2` holds the segments of `segs1` rearranged: `segs2[i] == segs1[perm[i]]`.
pub open spec fn is_rearrangement(
    segs1: Seq<TranscriptSegment>,
    segs2: Seq<TranscriptSegment>,
    perm: Seq<usize>,
) -> bool {
    &&& segs2.len() == segs1.len()
    &&& is_permutation(perm, segs1.len())
    &&& forall|i: int| 0 <= i < segs2.len() ==> #[trigger] segs2[i] == segs1[perm[i] as int]
}

/// Index sequences increasing under `comes_before` with the same elements are equal.
proof fn lemma_sorted_unique(segs: Seq<TranscriptSegment>, a: Seq<usize>, b: Seq<usize>)
    requires
        forall|k: int, l: int| 0 <= k < l < a.len() ==> comes_before(segs, #[trigger] a[k] as int, #[trigger] a[l] as int),
        forall|k: int, l: int| 0 <= k < l < b.len() ==> comes_before(segs, #[trigger] b[k] as int, #[trigger] b[l] as int),
        forall|x: usize| a.contains(x) <==> b.contains(x),
    ensures
        a == b,
    decreases a.len(),
{
    if a.len() == 0 {
        if b.len() > 0 {
            assert(b.contains(b[0]));
        }
        assert(b.len() == 0);
    } else {
        assert(a.contains(a[0]));
        let j = choose|j: int| 0 <= j < b.len() && b[j] == a[0];
        assert(b.contains(b[0]));
        let i = choose|i: int| 0 <= i < a.len() && a[i] == b[0];
        if j > 0 {
            assert(comes_before(segs, b[0] as int, b[j] as int));
            if i > 0 {
                assert(comes_before(segs, a[0] as int, a[i] as int));
            }
        }
        assert(a[0] == b[0]);
        let a1 = a.drop_first();
        let b1 = b.drop_first();
        assert forall|x: usize| a1.contains(x) <==> b1.contains(x) by {
            if a1.contains(x) {
                let k = choose|k: int| 0 <= k < a1.len() && a1[k] == x;
                assert(a[k + 1] == x);
                assert(comes_before(segs, a[0] as int, a[k + 1] as int));
                assert(a.contains(x));
                let m = choose|m: int| 0 <= m < b.len() && b[m] == x;
                assert(m != 0);
                assert(b1[m - 1] == x);
            }
            if b1.contains(x) {
                let k = choose|k: int| 0 <= k < b1.len() && b1[k] == x;
                assert(b[k + 1] == x);
                assert(comes_before(segs, b[0] as int, b[k + 1] as int));
                assert(b.contains(x));
                let m = choose|m: int| 0 <= m < a.len() && a[m] == x;
                assert(m != 0);
                assert(a1[m - 1] == x);
            }
        }
        assert forall|k: int, l: int| 0 <= k < l < a1.len() implies comes_before(segs, #[trigger] a1[k] as int, #[trigger] a1[l] as int) by {
            assert(a1[k] == a[k + 1] && a1[l] == a[l + 1]);
        }
        assert forall|k: int, l: int| 0 <= k < l < b1.len() implies comes_before(segs, #[trigger] b1[k] as int, #[trigger] b1[l] as int) by {
            assert(b1[k] == b[k + 1] && b1[l] == b[l + 1]);
        }
        lemma_sorted_unique(segs, a1, b1);
        assert(a == seq![a[0]] + a1);
        assert(b == seq![b[0]] + b1);
    }
}

/// The stable order of a list of segments is unique.
pub proof fn lemma_stable_order_unique(segs: Seq<TranscriptSegment>, a: Seq<usize>, b: Seq<usize>)
    requires
        is_stable_order(segs, a),
        is_stable_order(segs, b),
    ensures
        a == b,
{
    assert forall|x: usize| a.contains(x) <==> b.contains(x) by {
        if a.contains(x) {
            assert(b.contains(x));
        }
        if b.contains(x) {
            assert(a.contains(x));
        }
    }
    lemma_sorted_unique(segs, a, b);
}

/// When no two segments share a sequence id, the order in which they are
/// given does not matter: a rearrangement of the segments renders the same
/// segments in the same order, and has distinct speakers exactly when the
/// segments as first given do.
pub proof fn lemma_order_independent(
    segs1: Seq<TranscriptSegment>,
    segs2: Seq<TranscriptSegment>,
    perm: Seq<usize>,
    o1: Seq<usize>,
    o2: Seq<usize>,
)
    requires
        segs1.len() <= usize::MAX,
        is_rearrangement(segs1, segs2, perm),
        distinct_ids(segs1),
        is_stable_order(segs1, o1),
        is_stable_order(segs2, o2),
    ensures
        o2.map_values(|k: usize| segs2[k as int]) == o1.map_values(|k: usize| segs1[k as int]),
        has_distinct_speakers(segs1) == has_distinct_speakers(segs2),
{
    let n = segs1.len();
    let o = o2.map_values(|k: usize| perm[k as int]);
    assert forall|k: int, l: int| 0 <= k < l < o.len() implies comes_before(segs1, #[trigger] o[k] as int, #[trigger] o[l] as int) by {
        let a = o2[k] as int;
        let b = o2[l] as int;
        assert(comes_before(segs2, a, b));
        assert(segs2[a] == segs1[perm[a] as int]);
        assert(segs2[b] == segs1[perm[b] as int]);
        if segs1[perm[a] as int].sequence_id == segs1[perm[b] as int].sequence_id {
            assert(perm[a] == perm[b]);
        }
    }
    assert forall|j: usize| j < n implies #[trigger] o.contains(j) by {
        assert(perm.contains(j));
        let i = choose|i: int| 0 <= i < perm.len() && perm[i] == j;
        assert(o2.contains(i as usize));
        let m = choose|m: int| 0 <= m < o2.len() && o2[m] == i as usize;
        assert(o[m] == perm[o2[m] as int]);
        assert(o[m] == j);
    }
    assert(is_stable_order(segs1, o));
    lemma_stable_order_unique(segs1, o, o1);
    let r2 = o2.map_values(|q: usize| segs2[q as int]);
    let r1 = o1.map_values(|q: usize| segs1[q as int]);
    assert forall|k: int| 0 <= k < r2.len() implies #[trigger] r2[k] == r1[k] by {
        assert(o[k] == o1[k]);
        assert(segs2[o2[k] as int] == segs1[perm[o2[k] as int] as int]);
    }
    assert(r2 =~= r1);
    if has_distinct_speakers(segs1) {
        let (a, b) = choose|a: int, b: int|
            0 <= a < segs1.len() && 0 <= b < segs1.len() && (#[trigger] speaker_of(segs1[a])) is Some
                && (#[trigger] speaker_of(segs1[b])) is Some && speaker_of(segs1[a])->0 != speaker_of(
                segs1[b],
            )->0;
        assert(perm.contains(a as usize));
        assert(perm.contains(b as usize));
        let ia = choose|i: int| 0 <= i < perm.len() && perm[i] == a as usize;
        let ib = choose|i: int| 0 <= i < perm.len() && perm[i] == b as usize;
        assert(perm[ia] as int == a);
        assert(perm[ib] as int == b);
        assert(segs2[ia] == segs1[a]);
        assert(segs2[ib] == segs1[b]);
        assert(speaker_of(segs2[ia]) is Some && speaker_of(segs2[ib]) is Some);
    }
    if has_distinct_speakers(segs2) {
        let (a, b) = choose|a: int, b: int|
            0 <= a < segs2.len() && 0 <= b < segs2.len() && (#[trigger] speaker_of(segs2[a])) is Some
                && (#[trigger] speaker_of(segs2[b])) is Some && speaker_of(segs2[a])->0 != speaker_of(
                segs2[b],
            )->0;
        assert(segs2[a] == segs1[perm[a] as int]);
        assert(segs2[b] == segs1[perm[b] as int]);
        assert(speaker_of(segs1[perm[a] as int]) is Some && speaker_of(segs1[perm[b] as int]) is Some);
    }
}

// ---------------------------------------------------------------------------
// Auto-generated names

pub open spec fn auto_name_prefix() -> Seq<char> {
    seq!['M', 'e', 'e', 't', 'i', 'n', 'g', ' ']
}

pub open spec fn count_digits(s: Seq<char>) -> nat
    decreases s.len(),
{
    if s.len() == 0 {
        0
    } else {
        count_digits(s.drop_last()) + if is_ascii_digit(s.last()) {
            1nat
        } else {
            0nat
        }
    }
}

/// The trimmed name starts with `Meeting `, holds a `-` and a `_`, and at least
/// eight ASCII digits.
pub open spec fn looks_auto_named(name: Seq<char>) -> bool {
    let n = trim(name);
    &&& n.len() >= 8
    &&& n.subrange(0, 8) == auto_name_prefix()
    &&& n.contains('-')
    &&& n.contains('_')
    &&& count_digits(n) >= 8
}

/// Whitespace around a meeting name never changes whether it counts as an
/// automatic name.
pub proof fn lemma_auto_name_ignores_surrounding_space(a: Seq<char>, name: Seq<char>, b: Seq<char>)
    requires
        all_in_class(a, TrimClass::WhiteSpace),
        all_in_class(b, TrimClass::WhiteSpace),
    ensures
        looks_auto_named(a + name + b) == looks_auto_named(name),
{
    lemma_trim_ignores_surrounding(a, name, b, TrimClass::WhiteSpace);
}

/// Every character of `d` is an ASCII digit.
pub open spec fn all_digits(d: Seq<char>) -> bool {
    forall|i: int| 0 <= i < d.len() ==> is_ascii_digit(#[trigger] d[i])
}

proof fn lemma_count_digits_append(a: Seq<char>, b: Seq<char>)
    ensures
        count_digits(a + b) == count_digits(a) + count_digits(b),
    decreases b.len(),
{
    if b.len() == 0 {
        assert(a + b == a);
    } else {
        lemma_count_digits_append(a, b.drop_last());
        assert((a + b).drop_last() == a + b.drop_last());
        assert((a + b).last() == b.last());
    }
}

proof fn lemma_count_all_digits(d: Seq<char>)
    requires
        all_digits(d),
    ensures
        count_digits(d) == d.len(),
    decreases d.len(),
{
    if d.len() > 0 {
        let p = d.drop_last();
        assert forall|i: int| 0 <= i < p.len() implies is_ascii_digit(#[trigger] p[i]) by {
            assert(p[i] == d[i]);
        }
        lemma_count_all_digits(p);
        assert(is_ascii_digit(d[d.len() - 1]));
    }
}

/// The names the app gives a meeting, `Meeting ` and then its start as
/// `YYYY-MM-DD_HH-MM-SS` in ASCII digits (e.g. `Meeting 2026-06-30_09-05-39`),
/// always count as automatic.
pub proof fn lemma_generated_name_is_auto(
    year: Seq<char>,
    month: Seq<char>,
    day: Seq<char>,
    hour: Seq<char>,
    minute: Seq<char>,
    second: Seq<char>,
)
    requires
        year.len() == 4 && all_digits(year),
        month.len() == 2 && all_digits(month),
        day.len() == 2 && all_digits(day),
        hour.len() == 2 && all_digits(hour),
        minute.len() == 2 && all_digits(minute),
        second.len() == 2 && all_digits(second),
    ensures
        looks_auto_named(
            seq!['M', 'e', 'e', 't', 'i', 'n', 'g', ' '] + year + seq!['-'] + month + seq!['-'] + day
                + seq!['_'] + hour + seq!['-'] + minute + seq!['-'] + second,
        ),
{
    let pre = seq!['M', 'e', 'e', 't', 'i', 'n', 'g', ' '];
    let dash = seq!['-'];
    let us = seq!['_'];
    let n = pre + year + dash + month + dash + day + us + hour + dash + minute + dash + second;
    assert(n.len() == 27);
    assert(n[0] == 'M');
    assert(n[26] == second[1]);
    assert(is_ascii_digit(second[1]));
    assert(trim_start_by(n, TrimClass::WhiteSpace) == n);
    assert(n.last() == n[26]);
    assert(trim_end_by(n, TrimClass::WhiteSpace) == n);
    assert(trim(n) == n);
    assert(n.subrange(0, 8) =~= auto_name_prefix());
    assert(n[12] == '-');
    assert(n.contains('-'));
    assert(n[18] == '_');
    assert(n.contains('_'));
    assert(count_digits(dash) == 0) by {
        assert(dash.drop_last() =~= Seq::<char>::empty());
        assert(dash.last() == '-');
        assert(count_digits(Seq::<char>::empty()) == 0);
        assert(count_digits(dash) == count_digits(dash.drop_last()));
    }
    assert(count_digits(us) == 0) by {
        assert(us.drop_last() =~= Seq::<char>::empty());
        assert(us.last() == '_');
        assert(count_digits(Seq::<char>::empty()) == 0);
        assert(count_digits(us) == count_digits(us.drop_last()));
    }
    lemma_count_all_digits(year);
    lemma_count_all_digits(month);
    lemma_count_all_digits(day);
    lemma_count_all_digits(hour);
    lemma_count_all_digits(minute);
    lemma_count_all_digits(second);
    lemma_count_digits_append(pre, year);
    lemma_count_digits_append(pre + year, dash);
    lemma_count_digits_append(pre + year + dash, month);
    lemma_count_digits_append(pre + year + dash + month, dash);
    lemma_count_digits_append(pre + year + dash + month + dash, day);
    lemma_count_digits_append(pre + year + dash + month + dash + day, us);
    lemma_count_digits_append(pre + year + dash + month + dash + day + us, hour);
    assert(count_digits(pre + year + dash + month + dash + day + us + hour) >= 8);
    lemma_count_digits_append(pre + year + dash + month + dash + day + us + hour, dash);
    lemma_count_digits_append(pre + year + dash + month + dash + day + us + hour + dash, minute);
    lemma_count_digits_append(pre + year + dash + month + dash + day + us + hour + dash + minute, dash);
    lemma_count_digits_append(
        pre + year + dash + month + dash + day + us + hour + dash + minute + dash,
        second,
    );
}

/// True when the meeting name is the app's auto-generated timestamp form, e.g.
/// "Meeting 2026-06-30_09-05-39". Such names should be replaced by a real title
/// during synthesis.
pub fn is_auto_name(name: &str) -> (r: bool)
    ensures
        r == looks_auto_named(name@),
{
    let t = trim_string(name);
    let ghost n = t@;
    let mut has_dash = false;
    let mut has_underscore = false;
    let mut digits: usize = 0;
    let mut prefix_ok = true;
    let prefix = "Meeting ";
    proof {
        reveal_strlit("Meeting ");
    }
    assert(prefix@ == auto_name_prefix());
    let len = t.as_str().unicode_len();
    let mut j: usize = 0;
    for c in it: t.as_str().chars()
        invariant
            it.seq() == n,
            len == n.len(),
            j == it.index(),
            has_dash == it.seq().take(it.index() as int).contains('-'),
            has_underscore == it.seq().take(it.index() as int).contains('_'),
            digits == count_digits(it.seq().take(it.index() as int)),
            digits <= it.index(),
            prefix_ok == (forall|k: int|
                0 <= k < it.index() && k < 8 ==> #[trigger] n[k] == auto_name_prefix()[k]),
            prefix@ == auto_name_prefix(),
    {
        let ghost before = it.seq().take(it.index() as int);
        let ghost idx = it.index() as int;
        assert(it.seq().take(idx + 1).drop_last() == before);
        assert(it.seq().take(idx + 1).last() == c);
        assert(n[idx] == c);
        if c == '-' {
            has_dash = true;
        }
        if c == '_' {
            has_underscore = true;
        }
        if '0' <= c && c <= '9' {
            digits = digits + 1;
        }
        if j < 8 {
            if c != prefix.get_char(j) {
                prefix_ok = false;
            }
        }
        j = j + 1;
        proof {
            assert(it.seq().take(idx + 1) == before.push(c));
            if it.seq().take(idx + 1).contains('-') && c != '-' {
                let w = choose|w: int| 0 <= w < idx + 1 && #[trigger] it.seq().take(idx + 1)[w] == '-';
                assert(before[w] == '-');
            }
            if it.seq().take(idx + 1).contains('_') && c != '_' {
                let w = choose|w: int| 0 <= w < idx + 1 && #[trigger] it.seq().take(idx + 1)[w] == '_';
                assert(before[w] == '_');
            }
            if before.contains('-') {
                let w = choose|w: int| 0 <= w < idx && #[trigger] before[w] == '-';
                assert(it.seq().take(idx + 1)[w] == '-');
            }
            if before.contains('_') {
                let w = choose|w: int| 0 <= w < idx && #[trigger] before[w] == '_';
                assert(it.seq().take(idx + 1)[w] == '_');
            }
            if c == '-' {
                assert(it.seq().take(idx + 1)[idx] == '-');
            }
            if c == '_' {
                assert(it.seq().take(idx + 1)[idx] == '_');
            }
        }
    }
    assert(n.take(n.len() as int) == n);
    let long_enough = len >= 8;
    let r = long_enough && prefix_ok && has_dash && has_underscore && digits >= 8;
    assert(r == looks_auto_named(name@)) by {
        if n.len() >= 8 {
            assert(prefix_ok == (n.subrange(0, 8) == auto_name_prefix())) by {
                if prefix_ok {
                    assert forall|k: int| 0 <= k < 8 implies n.subrange(0, 8)[k]
                        == auto_name_prefix()[k] by {
                        assert(n[k] == auto_name_prefix()[k]);
                    }
                    assert(n.subrange(0, 8) =~= auto_name_prefix());
                } else {
                    let k = choose|k: int| 0 <= k < n.len() && k < 8 && #[trigger] n[k] != auto_name_prefix()[k];
                    assert(n.subrange(0, 8)[k] == n[k]);
                }
            }
        }
    }
    r
}

// ---------------------------------------------------------------------------
// Markdown body

/// `out` followed by a blank line, unless `out` is still empty.
pub open spec fn paragraph_break(out: Seq<char>) -> Seq<char> {
    if out.len() == 0 {
        out
    } else {
        out + seq!['\n', '\n']
    }
}

/// The bold speaker label `**<speaker>:** ` that opens a speaker's paragraph.
pub open spec fn speaker_label(sp: Seq<char>) -> Seq<char> {
    seq!['*', '*'] + sp + seq![':', '*', '*', ' ']
}

/// One rendering step: the body so far and the speaker whose paragraph is
/// open, after one more segment.
pub open spec fn render_step(
    out: Seq<char>,
    last: Option<Seq<char>>,
    seg: TranscriptSegment,
    diarized: bool,
) -> (Seq<char>, Option<Seq<char>>) {
    let text = trim(seg.text@);
    if text.len() == 0 {
        (out, last)
    } else {
        let speaker = if diarized {
            speaker_of(seg)
        } else {
            None
        };
        match speaker {
            Some(sp) => if last != Some(sp) {
                (paragraph_break(out) + speaker_label(sp) + text, Some(sp))
            } else {
                (out + seq![' '] + text, last)
            },
            None => (paragraph_break(out) + text, None),
        }
    }
}

/// The body and open speaker after rendering all of `segs` in order.
pub open spec fn render_state(segs: Seq<TranscriptSegment>, diarized: bool) -> (
    Seq<char>,
    Option<Seq<char>>,
)
    decreases segs.len(),
{
    if segs.len() == 0 {
        (Seq::empty(), None)
    } else {
        let st = render_state(segs.drop_last(), diarized);
        render_step(st.0, st.1, segs.last(), diarized)
    }
}

/// The markdown body rendered from `segs`.
pub open spec fn rendered_body(segs: Seq<TranscriptSegment>, diarized: bool) -> Seq<char> {
    render_state(segs, diarized).0
}

/// The trimmed texts of the segments whose trimmed text is not empty.
pub open spec fn paragraphs(segs: Seq<TranscriptSegment>) -> Seq<Seq<char>>
    decreases segs.len(),
{
    if segs.len() == 0 {
        Seq::empty()
    } else {
        let t = trim(segs.last().text@);
        if t.len() == 0 {
            paragraphs(segs.drop_last())
        } else {
            paragraphs(segs.drop_last()).push(t)
        }
    }
}

/// The texts joined with a blank line between them.
pub open spec fn join_paragraphs(ps: Seq<Seq<char>>) -> Seq<char>
    decreases ps.len(),
{
    if ps.len() == 0 {
        Seq::empty()
    } else if ps.len() == 1 {
        ps[0]
    } else {
        join_paragraphs(ps.drop_last()) + seq!['\n', '\n'] + ps.last()
    }
}

proof fn lemma_paragraphs_nonempty(segs: Seq<TranscriptSegment>)
    ensures
        forall|i: int| 0 <= i < paragraphs(segs).len() ==> #[trigger] paragraphs(segs)[i].len() > 0,
    decreases segs.len(),
{
    if segs.len() > 0 {
        lemma_paragraphs_nonempty(segs.drop_last());
        let ps = paragraphs(segs.drop_last());
        let t = trim(segs.last().text@);
        if t.len() > 0 {
            assert forall|i: int| 0 <= i < ps.push(t).len() implies #[trigger] ps.push(t)[i].len()
                > 0 by {
                if i < ps.len() {
                    assert(ps.push(t)[i] == ps[i]);
                }
            }
        }
    }
}

proof fn lemma_join_empty(ps: Seq<Seq<char>>)
    requires
        forall|i: int| 0 <= i < ps.len() ==> #[trigger] ps[i].len() > 0,
    ensures
        join_paragraphs(ps).len() == 0 <==> ps.len() == 0,
    decreases ps.len(),
{
    if ps.len() > 1 {
        assert(ps.last().len() > 0);
    } else if ps.len() == 1 {
        assert(ps[0].len() > 0);
    }
}

/// Without speaker labels the body is the segments' trimmed texts, blank
/// texts left out, joined by blank lines: plain paragraphs, no labels.
pub proof fn lemma_plain_body(segs: Seq<TranscriptSegment>)
    ensures
        rendered_body(segs, false) == join_paragraphs(paragraphs(segs)),
        render_state(segs, false).1 is None,
    decreases segs.len(),
{
    if segs.len() > 0 {
        let prev = segs.drop_last();
        lemma_plain_body(prev);
        lemma_paragraphs_nonempty(prev);
        lemma_join_empty(paragraphs(prev));
        let ps = paragraphs(prev);
        let t = trim(segs.last().text@);
        if t.len() > 0 {
            assert(paragraphs(segs) == ps.push(t));
            assert(ps.push(t).drop_last() == ps);
            if ps.len() == 0 {
                assert(ps.push(t)[0] == t);
            }
        }
    }
}

/// A run of consecutive segments by one speaker forms one paragraph: a segment
/// whose speaker is the open paragraph's speaker adds its text after a space.
pub proof fn lemma_same_speaker_merges(
    segs: Seq<TranscriptSegment>,
    seg: TranscriptSegment,
)
    requires
        trim(seg.text@).len() > 0,
        speaker_of(seg) is Some,
        render_state(segs, true).1 == speaker_of(seg),
    ensures
        rendered_body(segs.push(seg), true) == rendered_body(segs, true) + seq![' '] + trim(
            seg.text@,
        ),
{
    assert(segs.push(seg).drop_last() == segs);
}

/// A segment whose speaker is not the open paragraph's starts a new paragraph:
/// a blank line (unless the body is still empty), then `**<speaker>:** ` and
/// the segment's trimmed text.
pub proof fn lemma_new_speaker_paragraph(segs: Seq<TranscriptSegment>, seg: TranscriptSegment)
    requires
        trim(seg.text@).len() > 0,
        speaker_of(seg) is Some,
        render_state(segs, true).1 != speaker_of(seg),
    ensures
        rendered_body(segs.push(seg), true) == (if rendered_body(segs, true).len() == 0 {
            rendered_body(segs, true)
        } else {
            rendered_body(segs, true) + seq!['\n', '\n']
        }) + seq!['*', '*'] + speaker_of(seg)->0 + seq![':', '*', '*', ' '] + trim(seg.text@),
{
    assert(segs.push(seg).drop_last() == segs);
}

/// A segment whose text is blank after trimming adds nothing to the body, with
/// or without speaker labels.
pub proof fn lemma_blank_segment_skipped(
    segs: Seq<TranscriptSegment>,
    seg: TranscriptSegment,
    diarized: bool,
)
    requires
        trim(seg.text@).len() == 0,
    ensures
        render_state(segs.push(seg), diarized) == render_state(segs, diarized),
{
    assert(segs.push(seg).drop_last() == segs);
}

/// Render markdown body. When `diarized`, label by speaker (merging consecutive
/// same-speaker segments); otherwise render plain paragraphs with no speaker labels.
pub fn render_body(segments: &[&TranscriptSegment], diarized: bool) -> (r: String)
    ensures
        r@ == rendered_body(segments@.map_values(|s: &TranscriptSegment| *s), diarized),
{
    let ghost segs = segments@.map_values(|s: &TranscriptSegment| *s);
    let mut out = String::new();
    let mut last_speaker: Option<&String> = None;
    let n = segments.len();
    let mut i: usize = 0;
    while i < n
        invariant
            i <= n == segments@.len(),
            segs == segments@.map_values(|s: &TranscriptSegment| *s),
            out@ == render_state(segs.take(i as int), diarized).0,
            match last_speaker {
                Some(s) => render_state(segs.take(i as int), diarized).1 == Some(s@),
                None => render_state(segs.take(i as int), diarized).1 is None,
            },
        decreases n - i,
    {
        let seg: &TranscriptSegment = segments[i];
        assert(segs.take(i + 1).drop_last() == segs.take(i as int));
        assert(segs.take(i + 1).last() == *seg);
        let text = trim_string(seg.text.as_str());
        if text.as_str().unicode_len() > 0 {
            let speaker: Option<&String> = if diarized {
                match &seg.speaker {
                    Some(s) => Some(s),
                    None => None,
                }
            } else {
                None
            };
            match speaker {
                Some(sp) => {
                    let same = match last_speaker {
                        Some(l) => String::eq(l, sp),
                        None => false,
                    };
                    if !same {
                        let ghost before = out@;
                        if out.as_str().unicode_len() > 0 {
                            proof { reveal_strlit("\n\n"); }
                            push_str(&mut out, "\n\n");
                        }
                        let ghost broken = out@;
                        assert(broken == paragraph_break(before));
                        proof {
                            reveal_strlit("**");
                            reveal_strlit(":** ");
                        }
                        push_str(&mut out, "**");
                        push_str(&mut out, sp.as_str());
                        push_str(&mut out, ":** ");
                        push_str(&mut out, text.as_str());
                        assert(out@ =~= paragraph_break(before) + speaker_label(sp@) + text@);
                        last_speaker = Some(sp);
                    } else {
                        proof { reveal_strlit(" "); }
                        push_str(&mut out, " ");
                        push_str(&mut out, text.as_str());
                    }
                },
                None => {
                    let ghost before = out@;
                    if out.as_str().unicode_len() > 0 {
                        proof { reveal_strlit("\n\n"); }
                        push_str(&mut out, "\n\n");
                    }
                    assert(out@ == paragraph_break(before));
                    push_str(&mut out, text.as_str());
                    last_speaker = None;
                },
            }
        }
        i = i + 1;
    }
    assert(segs.take(n as int) == segs);
    out
}

} // verus!
