//! The transcript file that a finished meeting leaves in the vault Inbox.
use vstd::prelude::*;
use crate::clock::{dotted_date, rfc3339_seconds, chrono_dotted_date, chrono_rfc3339_seconds, LocalTimestamp};
use crate::slug::{slug_of, slugify};
use crate::text::{decimal, digit_char, lemma_decimal_digits, push_decimal, push_str, trim, trim_string};
use crate::transcript::{
    distinct_ids, is_rearrangement, lemma_order_independent, has_distinct_speakers, is_auto_name, is_diarized, is_stable_order, looks_auto_named,
    render_body, rendered_body, stable_order, TranscriptSegment,
};
use crate::yaml::{yaml_escape, yaml_escaped};

verus! {

broadcast use vstd::string::group_string_axioms;

#[verifier::external_type_specification]
#[verifier::external_body]
pub struct ExPathBuf(std::path::PathBuf);

/// Where an exported transcript was written.
pub struct VaultExport {
    pub transcript_path: std::path::PathBuf,
}

/// The attendee listed in every transcript's front matter.
pub const ATTENDEE_NAME: &'static str = "Jake Steffens";

/// A configured value counts when it is not blank; it is used trimmed.
pub open spec fn configured(value: Option<Seq<char>>) -> Option<Seq<char>> {
    match value {
        Some(v) => if trim(v).len() > 0 {
            Some(trim(v))
        } else {
            None
        },
        None => None,
    }
}

/// The trimmed value, or `None` when it is absent or blank.
pub fn nonblank_trimmed(value: Option<&str>) -> (r: Option<String>)
    ensures
        match r {
            Some(s) => configured(match value {
                Some(v) => Some(v@),
                None => None,
            }) == Some(s@),
            None => configured(match value {
                Some(v) => Some(v@),
                None => None,
            }) is None,
        },
{
    match value {
        Some(v) => {
            let t = trim_string(v);
            if t.as_str().unicode_len() > 0 {
                Some(t)
            } else {
                None
            }
        },
        None => None,
    }
}

/// The vault Meetings root: the configured value (`CENTURA_VAULT_ROOT`) trimmed
/// when it is not blank, else the default root.
pub fn vault_root_for(configured_root: Option<&str>, default_root: &str) -> (r: String)
    ensures
        r@ == match configured(
            match configured_root {
                Some(v) => Some(v@),
                None => None,
            },
        ) {
            Some(v) => v,
            None => default_root@,
        },
{
    match nonblank_trimmed(configured_root) {
        Some(v) => v,
        None => String::from_str(default_root),
    }
}

/// `<date> - <slug>`, the file stem of a meeting's transcript.
pub open spec fn transcript_stem(name: Seq<char>, now: LocalTimestamp) -> Seq<char> {
    dotted_date(now) + " - "@ + slug_of(name)
}

/// Whether the title came from the user or is the app's automatic name.
pub open spec fn title_source(name: Seq<char>) -> Seq<char> {
    if looks_auto_named(name) {
        "auto"@
    } else {
        "user"@
    }
}

/// The transcript file: YAML front matter in the vault's convention, a blank
/// line, then the body.
pub open spec fn transcript_markdown(
    name: Seq<char>,
    now: LocalTimestamp,
    body: Seq<char>,
) -> Seq<char> {
    "---\ntype: note\ntitle: \""@ + yaml_escaped(name) + "\"\ndate: "@ + dotted_date(now)
        + "\nattendees:\n- \""@ + ATTENDEE_NAME@ + "\"\ntags: [meeting, transcript]\nsource: centura-capture\ntitle_source: "@
        + title_source(name) + "\nrecorded_at: "@ + rfc3339_seconds(now) + "\n---\n\n"@ + body
        + "\n"@
}

/// A transcript ready to be written: its file stem and its content.
pub struct TranscriptDocument {
    pub stem: String,
    pub markdown: String,
}

/// The segments taken in the order `order` gives.
pub open spec fn reordered(segs: Seq<TranscriptSegment>, order: Seq<usize>) -> Seq<
    TranscriptSegment,
> {
    order.map_values(|k: usize| segs[k as int])
}

/// The transcript of a finished meeting, or `None` when there are no segments.
///
/// The body lists the segments by sequence id (a stable order), with speaker
/// labels only when at least two distinct speakers occur.
pub fn prepare_transcript(
    meeting_name: &str,
    segments: &[TranscriptSegment],
    now: &LocalTimestamp,
) -> (r: Option<TranscriptDocument>)
    requires
        now.is_valid(),
    ensures
        r is None <==> segments@.len() == 0,
        match r {
            Some(doc) => {
                &&& doc.stem@ == transcript_stem(meeting_name@, *now)
                &&& exists|order: Seq<usize>|
                    is_stable_order(segments@, order) && doc.markdown@ == transcript_markdown(
                        meeting_name@,
                        *now,
                        rendered_body(
                            #[trigger] reordered(segments@, order),
                            has_distinct_speakers(segments@),
                        ),
                    )
            },
            None => true,
        },
{
    if segments.len() == 0 {
        return None;
    }
    let order = stable_order(segments);
    let mut ordered: Vec<&TranscriptSegment> = Vec::new();
    let mut i: usize = 0;
    while i < order.len()
        invariant
            i <= order@.len() == segments@.len(),
            is_stable_order(segments@, order@),
            ordered@.len() == i,
            forall|k: int| 0 <= k < i ==> *#[trigger] ordered@[k] == segments@[order@[k] as int],
        decreases order@.len() - i,
    {
        ordered.push(&segments[order[i]]);
        i = i + 1;
    }
    assert(ordered@.map_values(|s: &TranscriptSegment| *s) == reordered(segments@, order@));
    let date = chrono_dotted_date(now);
    let slug = slugify(meeting_name);
    let mut stem = String::new();
    push_str(&mut stem, date.as_str());
    push_str(&mut stem, " - ");
    push_str(&mut stem, slug.as_str());
    let recorded_at = chrono_rfc3339_seconds(now);
    let source = if is_auto_name(meeting_name) {
        "auto"
    } else {
        "user"
    };
    let diarized = is_diarized(segments);
    let title = yaml_escape(meeting_name);
    let body = render_body(&ordered, diarized);
    let mut md = String::new();
    push_str(&mut md, "---\ntype: note\ntitle: \"");
    push_str(&mut md, title.as_str());
    push_str(&mut md, "\"\ndate: ");
    push_str(&mut md, date.as_str());
    push_str(&mut md, "\nattendees:\n- \"");
    push_str(&mut md, ATTENDEE_NAME);
    push_str(
        &mut md,
        "\"\ntags: [meeting, transcript]\nsource: centura-capture\ntitle_source: ",
    );
    push_str(&mut md, source);
    push_str(&mut md, "\nrecorded_at: ");
    push_str(&mut md, recorded_at.as_str());
    push_str(&mut md, "\n---\n\n");
    push_str(&mut md, body.as_str());
    push_str(&mut md, "\n");
    assert(md@ =~= transcript_markdown(
        meeting_name@,
        *now,
        rendered_body(reordered(segments@, order@), has_distinct_speakers(segments@)),
    ));
    Some(TranscriptDocument { stem, markdown: md })
}

/// When no two segments share a sequence id, the transcript does not depend on
/// the order in which the segments are given: a rearrangement of them gives
/// the same content.
pub proof fn lemma_transcript_order_independent(
    name: Seq<char>,
    now: LocalTimestamp,
    segs1: Seq<TranscriptSegment>,
    segs2: Seq<TranscriptSegment>,
    perm: Seq<usize>,
    o1: Seq<usize>,
    o2: Seq<usize>,
)
    requires
        segs1.len() <= usize::MAX,
        is_rearrangement(segs1, segs2, perm),
        distinct_ids(segs1),
        is_stable_order(segs1, o1),
        is_stable_order(segs2, o2),
    ensures
        transcript_markdown(
            name,
            now,
            rendered_body(reordered(segs1, o1), has_distinct_speakers(segs1)),
        ) == transcript_markdown(
            name,
            now,
            rendered_body(reordered(segs2, o2), has_distinct_speakers(segs2)),
        ),
{
    lemma_order_independent(segs1, segs2, perm, o1, o2);
    assert(reordered(segs1, o1) =~= o1.map_values(|q: usize| segs1[q as int]));
    assert(reordered(segs2, o2) =~= o2.map_values(|q: usize| segs2[q as int]));
}

/// The file name for the `attempt`-th try at writing a transcript: `<stem>.md`
/// first, then `<stem> (2).md`, `<stem> (3).md`, … so that an existing
/// transcript is never overwritten.
pub open spec fn transcript_file_name_spec(stem: Seq<char>, attempt: nat) -> Seq<char> {
    if attempt <= 1 {
        stem + ".md"@
    } else {
        stem + " ("@ + decimal(attempt) + ").md"@
    }
}

pub fn transcript_file_name(stem: &str, attempt: u64) -> (r: String)
    ensures
        r@ == transcript_file_name_spec(stem@, attempt as nat),
{
    let mut out = String::new();
    push_str(&mut out, stem);
    if attempt <= 1 {
        push_str(&mut out, ".md");
    } else {
        push_str(&mut out, " (");
        push_decimal(&mut out, attempt);
        push_str(&mut out, ").md");
    }
    out
}

proof fn lemma_digit_char_injective(a: nat, b: nat)
    requires
        a < 10,
        b < 10,
        digit_char(a) == digit_char(b),
    ensures
        a == b,
{
    assert(digit_char(a) as u32 == 48 + a);
    assert(digit_char(b) as u32 == 48 + b);
}

proof fn lemma_decimal_injective(a: nat, b: nat)
    requires
        decimal(a) == decimal(b),
    ensures
        a == b,
    decreases a,
{
    lemma_decimal_digits(a);
    lemma_decimal_digits(b);
    if a < 10 {
        if b >= 10 {
            lemma_decimal_digits(b / 10);
            assert(decimal(b).len() >= 2);
        } else {
            assert(decimal(a) == seq![digit_char(a)]);
            assert(decimal(b) == seq![digit_char(b)]);
            assert(decimal(a)[0] == decimal(b)[0]);
            assert(seq![digit_char(a)][0] == digit_char(a));
            assert(seq![digit_char(b)][0] == digit_char(b));
            assert(digit_char(a) == digit_char(b));
            lemma_digit_char_injective(a, b);
        }
    } else {
        lemma_decimal_digits(a / 10);
        if b < 10 {
            assert(decimal(a).len() >= 2);
        } else {
            assert(decimal(a).drop_last() == decimal(a / 10));
            assert(decimal(b).drop_last() == decimal(b / 10));
            assert(decimal(a) == decimal(a / 10).push(digit_char(a % 10)));
            assert(decimal(b) == decimal(b / 10).push(digit_char(b % 10)));
            assert(decimal(a).last() == decimal(b).last());
            assert(decimal(a / 10).push(digit_char(a % 10)).last() == digit_char(a % 10));
            assert(decimal(b / 10).push(digit_char(b % 10)).last() == digit_char(b % 10));
            assert(digit_char(a % 10) == digit_char(b % 10));
            lemma_digit_char_injective(a % 10, b % 10);
            lemma_decimal_injective(a / 10, b / 10);
        }
    }
}

/// Different attempts give different file names, so the `n`-th candidate never
/// names the file of an earlier one.
pub proof fn lemma_file_names_distinct(stem: Seq<char>, a: nat, b: nat)
    requires
        a != b,
        a >= 1,
        b >= 1,
    ensures
        transcript_file_name_spec(stem, a) != transcript_file_name_spec(stem, b),
{
    reveal_strlit(".md");
    reveal_strlit(" (");
    reveal_strlit(").md");
    let x = transcript_file_name_spec(stem, a);
    let y = transcript_file_name_spec(stem, b);
    if x == y {
        if a == 1 || b == 1 {
            let n = if a == 1 {
                b
            } else {
                a
            };
            lemma_decimal_digits(n);
            let long = stem + " ("@ + decimal(n) + ").md"@;
            let short = stem + ".md"@;
            assert(".md"@.len() == 3);
            assert(" ("@.len() == 2);
            assert(").md"@.len() == 4);
            assert(long.len() > short.len());
        } else {
            lemma_decimal_digits(a);
            lemma_decimal_digits(b);
            let da = decimal(a);
            let db = decimal(b);
            assert(" ("@.len() == 2);
            assert(").md"@.len() == 4);
            assert(x.len() == stem.len() + 2 + da.len() + 4);
            assert(y.len() == stem.len() + 2 + db.len() + 4);
            assert(da.len() == db.len());
            assert forall|i: int| 0 <= i < da.len() implies da[i] == db[i] by {
                assert(x[stem.len() + 2 + i] == da[i]);
                assert(y[stem.len() + 2 + i] == db[i]);
            }
            assert(da =~= db);
            lemma_decimal_injective(a, b);
        }
    }
}

} // verus!
