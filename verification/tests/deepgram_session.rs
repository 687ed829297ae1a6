use centura_capture::clock::LocalTimestamp;
use centura_capture::deepgram::{
    build_listen_request, listen_url_for, parse_keyterms, plan_session, ConnectError, SessionPlan,
    MISSING_KEY_WARNING,
};
use centura_capture::session::{
    dominant_speaker, handle_result, linear16_bytes, AlternativeSummary, AudioPump, Outgoing,
    PumpEvent, ReaderInput, ReaderSession, ResultSummary, SessionState, CLOSE_STREAM_MESSAGE,
    KEEP_ALIVE_MESSAGE,
};

fn now() -> LocalTimestamp {
    LocalTimestamp {
        year: 2026,
        month: 6,
        day: 30,
        hour: 9,
        minute: 5,
        second: 39,
        nanosecond: 0,
        utc_offset_seconds: 7200,
    }
}

fn result(is_final: bool, text: Option<&str>, speakers: Vec<Option<u32>>) -> ResultSummary {
    ResultSummary {
        is_final,
        first_alternative: text.map(|t| AlternativeSummary { transcript: t.to_string(), word_speakers: speakers }),
    }
}

fn terms(ts: &[&str]) -> Vec<String> {
    ts.iter().map(|t| t.to_string()).collect()
}

const BASE: &str = "wss://api.deepgram.com/v1/listen?model=nova-3&language=en-US&encoding=linear16&sample_rate=16000&channels=1&punctuate=true&smart_format=true&diarize=false&interim_results=false&mip_opt_out=true";

#[test]
fn plan_falls_back_unless_deepgram_with_key() {
    assert!(matches!(plan_session("local", "nova-3", Some("k".to_string())), SessionPlan::NotSelected));
    assert!(matches!(plan_session("", "", None), SessionPlan::NotSelected));
    assert!(matches!(plan_session("deepgram", "nova-3", None), SessionPlan::MissingKey));
    match plan_session("deepgram", "  ", Some("secret".to_string())) {
        SessionPlan::Connect { key, model } => {
            assert_eq!(key, "secret");
            assert_eq!(model, "nova-3");
        }
        _ => panic!("expected connect"),
    }
    match plan_session("deepgram", "nova-2 ", Some("k".to_string())) {
        SessionPlan::Connect { model, .. } => assert_eq!(model, "nova-2 "),
        _ => panic!("expected connect"),
    }
    assert!(MISSING_KEY_WARNING.contains("no API key"));
}

#[test]
fn keyterm_list_parsing() {
    assert_eq!(parse_keyterms(""), Vec::<String>::new());
    assert_eq!(parse_keyterms(" , ,"), Vec::<String>::new());
    assert_eq!(parse_keyterms("Centura, Jake Steffens ,,CenturaOS"), terms(&["Centura", "Jake Steffens", "CenturaOS"]));
    assert_eq!(parse_keyterms("single"), terms(&["single"]));
}

#[test]
fn listen_url_carries_all_options() {
    assert_eq!(listen_url_for("nova-3", &vec![]), BASE);
    assert!(listen_url_for("x", &vec![]).ends_with("&diarize=false&interim_results=false&mip_opt_out=true"));
}

#[test]
fn listen_url_carries_keyterms_encoded() {
    let url = listen_url_for("nova-3", &terms(&["Centura", "Jake Steffens", "a&b=c#d", "Café"]));
    assert_eq!(
        url,
        format!("{BASE}&keyterm=Centura&keyterm=Jake%20Steffens&keyterm=a%26b%3Dc%23d&keyterm=Caf%C3%A9")
    );
}

#[test]
fn request_has_url_and_authorization() {
    let req = build_listen_request("abc123", "nova-3", &terms(&["Jake Steffens"])).ok().unwrap();
    assert_eq!(req.headers().get("Authorization").unwrap(), "Token abc123");
    assert_eq!(req.uri().to_string(), format!("{BASE}&keyterm=Jake%20Steffens"));
    assert_eq!(req.uri().host(), Some("api.deepgram.com"));
}

#[test]
fn request_building_checks_url_and_key() {
    assert!(matches!(build_listen_request("bad\nkey", "nova-3", &vec![]), Err(ConnectError::BadAuthHeader(_))));
    assert!(matches!(build_listen_request("abc", "nova 3", &vec![]), Err(ConnectError::BadRequest(_))));
    assert!(build_listen_request("kéy\twith tab", "nova-3", &vec![]).is_ok());
}

#[test]
fn linear16_little_endian() {
    assert_eq!(
        linear16_bytes(&vec![0, 1, -1, 32767, -32768, 0x1234]),
        vec![0, 0, 1, 0, 0xff, 0xff, 0xff, 0x7f, 0x00, 0x80, 0x34, 0x12]
    );
    let samples: Vec<i16> = vec![-300, 5, 12345];
    let bytes = linear16_bytes(&samples);
    let back: Vec<i16> = bytes.chunks(2).map(|c| i16::from_le_bytes([c[0], c[1]])).collect();
    assert_eq!(back, samples);
}

#[test]
fn pump_sends_until_close() {
    let mut pump = AudioPump::new();
    let m = pump.next_message(PumpEvent::Frame(vec![1, -2])).unwrap();
    assert!(matches!(m, Outgoing::Binary(ref b) if b == &vec![1, 0, 0xfe, 0xff]));
    pump.send_finished(true);
    assert!(pump.running);
    let m = pump.next_message(PumpEvent::KeepAliveDue).unwrap();
    assert!(matches!(m, Outgoing::Text(ref t) if t == "{\"type\":\"KeepAlive\"}"));
    pump.send_finished(true);
    let m = pump.next_message(PumpEvent::RecordingStopped).unwrap();
    assert!(matches!(m, Outgoing::Text(ref t) if t == "{\"type\":\"CloseStream\"}"));
    assert!(!pump.running);
    pump.send_finished(true);
    assert!(!pump.running);
    assert!(pump.next_message(PumpEvent::Frame(vec![3])).is_none());
    assert!(pump.next_message(PumpEvent::KeepAliveDue).is_none());
    assert_eq!(CLOSE_STREAM_MESSAGE, "{\"type\":\"CloseStream\"}");
    assert_eq!(KEEP_ALIVE_MESSAGE, "{\"type\":\"KeepAlive\"}");
}

#[test]
fn pump_stops_after_failed_send() {
    let mut pump = AudioPump::new();
    assert!(pump.next_message(PumpEvent::Frame(vec![1])).is_some());
    pump.send_finished(false);
    assert!(!pump.running);
    assert!(pump.next_message(PumpEvent::Frame(vec![2])).is_none());
    assert!(pump.next_message(PumpEvent::RecordingStopped).is_none());
}

#[test]
fn reader_handles_results_until_close() {
    let mut reader = ReaderSession::new(3);
    assert!(reader.on_input(&ReaderInput::Unparsed, &now()).is_none());
    assert!(reader.on_input(&ReaderInput::Binary, &now()).is_none());
    assert!(reader.on_input(&ReaderInput::Other, &now()).is_none());
    let e = reader.on_input(&ReaderInput::Result(result(true, Some("one"), vec![])), &now()).unwrap();
    assert!(e.announce_speech);
    assert_eq!(e.sequence_id, 3);
    let e = reader.on_input(&ReaderInput::Result(result(true, Some("two"), vec![])), &now()).unwrap();
    assert!(!e.announce_speech);
    assert_eq!(e.sequence_id, 4);
    assert!(reader.open);
    assert!(reader.on_input(&ReaderInput::Close, &now()).is_none());
    assert!(!reader.open);
    assert!(reader.on_input(&ReaderInput::Result(result(true, Some("late"), vec![])), &now()).is_none());
    assert_eq!(reader.session.next_sequence_id, 5);
}

#[test]
fn reader_stops_on_read_error() {
    let mut reader = ReaderSession::new(0);
    assert!(reader.on_input(&ReaderInput::ReadError, &now()).is_none());
    assert!(!reader.open);
    assert!(reader.on_input(&ReaderInput::Result(result(true, Some("x"), vec![])), &now()).is_none());
    assert!(!reader.session.speech_emitted);
}

#[test]
fn dominant_speaker_counts_words() {
    assert_eq!(dominant_speaker(&vec![Some(0), Some(1), Some(1), None]), Some("Speaker 2".to_string()));
    assert_eq!(dominant_speaker(&vec![None, None]), None);
    assert_eq!(dominant_speaker(&vec![]), None);
    assert_eq!(dominant_speaker(&vec![Some(9)]), Some("Speaker 10".to_string()));
    let tie = dominant_speaker(&vec![Some(0), Some(3)]).unwrap();
    assert!(tie == "Speaker 1" || tie == "Speaker 4");
}

#[test]
fn handle_result_emits_final_transcripts_once_announcing() {
    let mut st = SessionState { speech_emitted: false, next_sequence_id: 7 };
    assert!(handle_result(&mut st, &result(false, Some("hi"), vec![]), &now()).is_none());
    assert!(handle_result(&mut st, &result(true, None, vec![]), &now()).is_none());
    assert!(handle_result(&mut st, &result(true, Some("   "), vec![]), &now()).is_none());
    assert!(!st.speech_emitted);
    assert_eq!(st.next_sequence_id, 7);

    let e = handle_result(&mut st, &result(true, Some(" Hello world "), vec![Some(1), Some(1), Some(0)]), &now()).unwrap();
    assert_eq!(e.text, "Hello world");
    assert_eq!(e.speaker, Some("Speaker 2".to_string()));
    assert_eq!(e.sequence_id, 7);
    assert_eq!(e.timestamp, "09:05:39");
    assert!(e.announce_speech);

    let e = handle_result(&mut st, &result(true, Some("Again"), vec![None]), &now()).unwrap();
    assert_eq!(e.sequence_id, 8);
    assert_eq!(e.speaker, None);
    assert!(!e.announce_speech);
    assert_eq!(st.next_sequence_id, 9);
}

#[test]
fn sequence_ids_wrap() {
    let mut st = SessionState { speech_emitted: true, next_sequence_id: u64::MAX };
    let e = handle_result(&mut st, &result(true, Some("x"), vec![]), &now()).unwrap();
    assert_eq!(e.sequence_id, u64::MAX);
    assert_eq!(st.next_sequence_id, 0);
}

#[test]
fn leap_second_time_stamp() {
    let mut st = SessionState { speech_emitted: true, next_sequence_id: 0 };
    let t = LocalTimestamp { second: 59, nanosecond: 1_200_000_000, hour: 23, minute: 59, ..now() };
    let e = handle_result(&mut st, &result(true, Some("x"), vec![]), &t).unwrap();
    assert_eq!(e.timestamp, "23:59:60");
}

#[test]
fn updates_name_their_source_and_are_final() {
    let mut st = SessionState { speech_emitted: false, next_sequence_id: 0 };
    let e = handle_result(&mut st, &result(true, Some("x"), vec![]), &now()).unwrap();
    assert_eq!(e.source, "Deepgram");
    assert!(!e.is_partial);
}

#[test]
fn bad_key_with_plain_model_is_auth_error() {
    assert!(matches!(build_listen_request("bad\u{7f}key", "nova-3", &vec![]), Err(ConnectError::BadAuthHeader(_))));
    assert!(matches!(build_listen_request("k", "nova-3", &vec!["x".repeat(70000)]), Err(ConnectError::BadRequest(_))));
}
