use centura_capture::clock::LocalTimestamp;
use centura_capture::transcript::{is_diarized, render_body, stable_order, TranscriptSegment};
use centura_capture::vault::prepare_transcript;

fn seg(id: u64, speaker: Option<&str>, text: &str) -> TranscriptSegment {
    TranscriptSegment { sequence_id: id, speaker: speaker.map(|s| s.to_string()), text: text.to_string() }
}

fn ts(year: i32, month: u32, day: u32, h: u32, m: u32, s: u32, nano: u32, off: i32) -> LocalTimestamp {
    LocalTimestamp {
        year,
        month,
        day,
        hour: h,
        minute: m,
        second: s,
        nanosecond: nano,
        utc_offset_seconds: off,
    }
}

#[test]
fn stable_order_sorts_by_sequence_id_keeping_ties() {
    let segs = vec![seg(3, None, "c"), seg(1, None, "a"), seg(3, None, "d"), seg(2, None, "b"), seg(1, None, "a2")];
    assert_eq!(stable_order(&segs), vec![1, 4, 3, 0, 2]);
    assert_eq!(stable_order(&vec![]), Vec::<usize>::new());
}

#[test]
fn diarized_only_with_two_speakers() {
    assert!(!is_diarized(&vec![seg(0, None, "x")]));
    assert!(!is_diarized(&vec![seg(0, Some("Speaker 1"), "x"), seg(1, Some("Speaker 1"), "y"), seg(2, None, "z")]));
    assert!(is_diarized(&vec![seg(0, Some("Speaker 1"), "x"), seg(1, None, "y"), seg(2, Some("Speaker 2"), "z")]));
}

#[test]
fn render_plain_paragraphs() {
    let a = seg(0, Some("Speaker 1"), "  Hello there. ");
    let b = seg(1, None, "   ");
    let c = seg(2, Some("Speaker 2"), "General Kenobi.");
    let body = render_body(&vec![&a, &b, &c], false);
    assert_eq!(body, "Hello there.\n\nGeneral Kenobi.");
}

#[test]
fn render_speaker_paragraphs_merge_runs() {
    let a = seg(0, Some("Speaker 1"), "Hi.");
    let b = seg(1, Some("Speaker 1"), "Still me.");
    let c = seg(2, Some("Speaker 2"), "Hello.");
    let d = seg(3, None, "Unlabelled.");
    let e = seg(4, Some("Speaker 2"), "Back.");
    let body = render_body(&vec![&a, &b, &c, &d, &e], true);
    assert_eq!(
        body,
        "**Speaker 1:** Hi. Still me.\n\n**Speaker 2:** Hello.\n\nUnlabelled.\n\n**Speaker 2:** Back."
    );
    assert_eq!(render_body(&vec![], true), "");
}

#[test]
fn prepare_transcript_none_without_segments() {
    assert!(prepare_transcript("Sync", &vec![], &ts(2026, 6, 30, 9, 5, 39, 0, -5 * 3600)).is_none());
}

#[test]
fn prepare_transcript_full_document() {
    let segs = vec![
        seg(2, Some("Speaker 2"), "Second."),
        seg(1, Some("Speaker 1"), " First. "),
    ];
    let doc = prepare_transcript("Q3 \"Plan\" Review", &segs, &ts(2026, 6, 30, 9, 5, 39, 12, -5 * 3600)).unwrap();
    assert_eq!(doc.stem, "2026.06.30 - q3-plan-review");
    let expected = "---\n\
type: note\n\
title: \"Q3 \\\"Plan\\\" Review\"\n\
date: 2026.06.30\n\
attendees:\n- \"Jake Steffens\"\n\
tags: [meeting, transcript]\n\
source: centura-capture\n\
title_source: user\n\
recorded_at: 2026-06-30T09:05:39-05:00\n\
---\n\n\
**Speaker 1:** First.\n\n**Speaker 2:** Second.\n";
    assert_eq!(doc.markdown, expected);
}

#[test]
fn prepare_transcript_auto_named_single_speaker() {
    let segs = vec![seg(1, Some("Speaker 1"), "Only one."), seg(2, Some("Speaker 1"), "Still one.")];
    let doc = prepare_transcript("Meeting 2026-06-30_09-05-39", &segs, &ts(2026, 1, 2, 23, 59, 59, 1_500_000_000, 0)).unwrap();
    assert_eq!(doc.stem, "2026.01.02 - meeting-2026-06-30-09-05-39");
    assert!(doc.markdown.contains("title_source: auto\n"));
    assert!(doc.markdown.contains("recorded_at: 2026-01-02T23:59:60+00:00\n"));
    assert!(doc.markdown.ends_with("---\n\nOnly one.\n\nStill one.\n"));
}

#[test]
fn dates_outside_four_digits_and_rounded_offsets() {
    let segs = vec![seg(0, None, "x")];
    let doc = prepare_transcript("t", &segs, &ts(10000, 12, 31, 0, 0, 0, 0, 5 * 3600 + 30 * 60 + 30)).unwrap();
    assert_eq!(doc.stem, "+10000.12.31 - t");
    assert!(doc.markdown.contains("recorded_at: +10000-12-31T00:00:00+05:31\n"));
    let doc = prepare_transcript("t", &segs, &ts(-1, 2, 28, 1, 2, 3, 0, -29)).unwrap();
    assert_eq!(doc.stem, "-0001.02.28 - t");
    assert!(doc.markdown.contains("recorded_at: -0001-02-28T01:02:03-00:00\n"));
    let doc = prepare_transcript("t", &segs, &ts(987, 3, 4, 5, 6, 7, 0, -31)).unwrap();
    assert_eq!(doc.stem, "0987.03.04 - t");
    assert!(doc.markdown.contains("recorded_at: 0987-03-04T05:06:07-00:01\n"));
}

#[test]
fn timestamp_validity() {
    assert!(ts(2024, 2, 29, 0, 0, 0, 0, 0).check_valid());
    assert!(!ts(2023, 2, 29, 0, 0, 0, 0, 0).check_valid());
    assert!(!ts(1900, 2, 29, 0, 0, 0, 0, 0).check_valid());
    assert!(ts(2000, 2, 29, 0, 0, 0, 0, 0).check_valid());
    assert!(!ts(2024, 4, 31, 0, 0, 0, 0, 0).check_valid());
    assert!(!ts(2024, 1, 1, 24, 0, 0, 0, 0).check_valid());
    assert!(!ts(2024, 1, 1, 0, 0, 58, 1_000_000_000, 0).check_valid());
    assert!(ts(2024, 1, 1, 0, 0, 59, 1_000_000_000, 0).check_valid());
    assert!(!ts(2024, 1, 1, 0, 0, 0, 0, 86_400).check_valid());
    assert!(!ts(262142, 1, 1, 0, 0, 0, 0, 0).check_valid());
    assert!(ts(-4, 2, 29, 0, 0, 0, 0, 0).check_valid());
}

#[test]
fn transcript_independent_of_input_order() {
    let a = vec![seg(3, Some("Speaker 1"), "three"), seg(1, Some("Speaker 2"), "one"), seg(2, None, "two")];
    let b = vec![seg(1, Some("Speaker 2"), "one"), seg(2, None, "two"), seg(3, Some("Speaker 1"), "three")];
    let t = ts(2026, 6, 30, 9, 5, 39, 0, 0);
    let da = prepare_transcript("Sync", &a, &t).unwrap();
    let db = prepare_transcript("Sync", &b, &t).unwrap();
    assert_eq!(da.markdown, db.markdown);
    assert_eq!(da.stem, db.stem);
}
