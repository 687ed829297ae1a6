//! The live session: what the audio pump sends, what the reader does with each
//! message, and what a final result emits.
use vstd::prelude::*;
use crate::clock::{chrono_clock_time, clock_time, LocalTimestamp};
use crate::text::{decimal, push_decimal, push_str, trim, trim_string};
use std::collections::HashMap;
use vstd::std_specs::hash::spec_hash_map_iter;
use vstd::std_specs::iter::IteratorSpec;

verus! {

broadcast use vstd::string::group_string_axioms;

// ---------------------------------------------------------------------------
// Audio pump

/// 16-bit PCM samples as little-endian bytes: for each sample its low byte,
/// then its high byte (two's complement).
pub open spec fn linear16(samples: Seq<i16>) -> Seq<u8>
    decreases samples.len(),
{
    if samples.len() == 0 {
        Seq::empty()
    } else {
        let u = samples.last() as u16;
        linear16(samples.drop_last()) + seq![(u % 256) as u8, (u / 256) as u8]
    }
}

proof fn lemma_linear16_len(samples: Seq<i16>)
    ensures
        linear16(samples).len() == 2 * samples.len(),
    decreases samples.len(),
{
    if samples.len() > 0 {
        lemma_linear16_len(samples.drop_last());
    }
}

/// The samples encoded as linear16 (little-endian 16-bit PCM) bytes.
pub fn linear16_bytes(samples: &Vec<i16>) -> (r: Vec<u8>)
    ensures
        r@ == linear16(samples@),
        r@.len() == 2 * samples@.len(),
{
    let mut out: Vec<u8> = Vec::new();
    let mut i: usize = 0;
    while i < samples.len()
        invariant
            i <= samples@.len(),
            out@ == linear16(samples@.take(i as int)),
        decreases samples@.len() - i,
    {
        let u: u16 = samples[i] as u16;
        let lo: u8 = (u & 0xff) as u8;
        let hi: u8 = (u >> 8) as u8;
        assert(lo == (u % 256) as u8 && hi == (u / 256) as u8) by (bit_vector)
            requires
                lo == (u & 0xff) as u8,
                hi == (u >> 8) as u8,
        ;
        out.push(lo);
        out.push(hi);
        assert(samples@.take(i + 1).drop_last() == samples@.take(i as int));
        i = i + 1;
    }
    assert(samples@.take(samples@.len() as int) == samples@);
    proof {
        lemma_linear16_len(samples@);
    }
    out
}

/// Reading each byte pair back as a little-endian `i16` gives the sample.
pub proof fn lemma_linear16_roundtrip(samples: Seq<i16>, k: int)
    requires
        0 <= k < samples.len(),
    ensures
        linear16(samples).len() == 2 * samples.len(),
        ((linear16(samples)[2 * k + 1] as u16) * 256 + linear16(samples)[2 * k] as u16) as u16 as i16
            == samples[k],
    decreases samples.len(),
{
    lemma_linear16_len(samples);
    let p = samples.drop_last();
    lemma_linear16_len(p);
    if k < samples.len() - 1 {
        lemma_linear16_roundtrip(p, k);
        assert(linear16(samples)[2 * k] == linear16(p)[2 * k]);
        assert(linear16(samples)[2 * k + 1] == linear16(p)[2 * k + 1]);
    } else {
        let s = samples.last();
        let u = s as u16;
        assert(linear16(samples)[2 * k] == (u % 256) as u8);
        assert(linear16(samples)[2 * k + 1] == (u / 256) as u8);
        let lo = (u % 256) as u8;
        let hi = (u / 256) as u8;
        assert((((hi as u16) * 256 + lo as u16) as u16) as i16 == s) by (bit_vector)
            requires
                u == s as u16,
                lo == (u % 256) as u8,
                hi == (u / 256) as u8,
        ;
    }
}

/// Sent when the recording stops: Deepgram flushes and finalizes the stream.
pub const CLOSE_STREAM_MESSAGE: &'static str = "{\"type\":\"CloseStream\"}";

/// Sent every few seconds so that silence between speech does not time the
/// stream out.
pub const KEEP_ALIVE_MESSAGE: &'static str = "{\"type\":\"KeepAlive\"}";

/// What the audio pump is woken by.
pub enum PumpEvent {
    /// A chunk of audio, as 16-bit samples at 16 kHz.
    Frame(Vec<i16>),
    /// The recording stopped: no more audio will come.
    RecordingStopped,
    /// The keep-alive interval elapsed.
    KeepAliveDue,
}

/// A WebSocket message to send.
pub enum Outgoing {
    Binary(Vec<u8>),
    Text(String),
}

/// The message that an event calls for.
pub open spec fn step_message(event: PumpEvent, m: Outgoing) -> bool {
    match event {
        PumpEvent::Frame(samples) => m matches Outgoing::Binary(b) && b@ == linear16(samples@),
        PumpEvent::RecordingStopped => m matches Outgoing::Text(t) && t@ == CLOSE_STREAM_MESSAGE@,
        PumpEvent::KeepAliveDue => m matches Outgoing::Text(t) && t@ == KEEP_ALIVE_MESSAGE@,
    }
}

/// Audio frames go up as linear16 binary messages; a keep-alive goes up as a
/// text message; when the recording stops, the close-stream message goes up.
fn message_for(event: PumpEvent) -> (m: Outgoing)
    ensures
        step_message(event, m),
{
    match event {
        PumpEvent::Frame(samples) => Outgoing::Binary(linear16_bytes(&samples)),
        PumpEvent::RecordingStopped => Outgoing::Text(String::from_str(CLOSE_STREAM_MESSAGE)),
        PumpEvent::KeepAliveDue => Outgoing::Text(String::from_str(KEEP_ALIVE_MESSAGE)),
    }
}

// ---------------------------------------------------------------------------
// Pump state

/// The kind of an event that wakes the pump.
pub enum PumpEventKind {
    Frame,
    RecordingStopped,
    KeepAliveDue,
}

pub open spec fn event_kind(event: PumpEvent) -> PumpEventKind {
    match event {
        PumpEvent::Frame(_) => PumpEventKind::Frame,
        PumpEvent::RecordingStopped => PumpEventKind::RecordingStopped,
        PumpEvent::KeepAliveDue => PumpEventKind::KeepAliveDue,
    }
}

/// What happens to the pump: it is woken by an event, or a send it asked for
/// finished, successfully or not.
pub enum PumpInput {
    Woken(PumpEventKind),
    Sent(bool),
}

/// One pump transition: whether the pump runs afterwards, and whether it asks
/// for a message to be sent. A stopped pump sends nothing; the close-stream
/// message and a failed send stop it.
pub open spec fn pump_next(running: bool, input: PumpInput) -> (bool, bool) {
    match input {
        PumpInput::Woken(k) => if running {
            (!(k is RecordingStopped), true)
        } else {
            (false, false)
        },
        PumpInput::Sent(ok) => (running && ok, false),
    }
}

/// Whether the pump runs after a run of inputs, and how many messages it sent.
pub open spec fn pump_run(running: bool, inputs: Seq<PumpInput>) -> (bool, nat)
    decreases inputs.len(),
{
    if inputs.len() == 0 {
        (running, 0)
    } else {
        let first = pump_next(running, inputs[0]);
        let rest = pump_run(first.0, inputs.drop_first());
        (rest.0, rest.1 + if first.1 {
            1nat
        } else {
            0nat
        })
    }
}

/// The audio pump: it runs until the recording stops or a send fails.
pub struct AudioPump {
    pub running: bool,
}

impl AudioPump {
    pub fn new() -> (p: AudioPump)
        ensures
            p.running,
    {
        AudioPump { running: true }
    }

    /// The message to send for an event, or `None` once the pump has stopped.
    pub fn next_message(&mut self, event: PumpEvent) -> (r: Option<Outgoing>)
        ensures
            final(self).running == pump_next(old(self).running, PumpInput::Woken(event_kind(event))).0,
            r is Some == pump_next(old(self).running, PumpInput::Woken(event_kind(event))).1,
            r matches Some(m) ==> step_message(event, m),
    {
        if !self.running {
            return None;
        }
        let stops = match event {
            PumpEvent::RecordingStopped => true,
            _ => false,
        };
        let message = message_for(event);
        if stops {
            self.running = false;
        }
        Some(message)
    }

    /// Records how a send ended: a failed send stops the pump.
    pub fn send_finished(&mut self, ok: bool)
        ensures
            final(self).running == pump_next(old(self).running, PumpInput::Sent(ok)).0,
    {
        self.running = self.running && ok;
    }
}

proof fn lemma_pump_run_split(running: bool, p: Seq<PumpInput>, q: Seq<PumpInput>)
    ensures
        pump_run(running, p + q) == (
            pump_run(pump_run(running, p).0, q).0,
            pump_run(running, p).1 + pump_run(pump_run(running, p).0, q).1,
        ),
    decreases p.len(),
{
    if p.len() > 0 {
        let first = pump_next(running, p[0]);
        assert((p + q).drop_first() == p.drop_first() + q);
        assert((p + q)[0] == p[0]);
        lemma_pump_run_split(first.0, p.drop_first(), q);
    } else {
        assert(p + q == q);
    }
}

/// A stopped pump stays stopped and sends nothing, whatever happens to it.
pub proof fn lemma_pump_stays_stopped(inputs: Seq<PumpInput>)
    ensures
        pump_run(false, inputs) == (false, 0nat),
    decreases inputs.len(),
{
    if inputs.len() > 0 {
        lemma_pump_stays_stopped(inputs.drop_first());
    }
}

/// Once a send has failed, or the close-stream message has been sent, nothing
/// more is sent: the inputs after that add no message.
pub proof fn lemma_nothing_sent_after_stop(running: bool, p: Seq<PumpInput>, rest: Seq<PumpInput>)
    requires
        p.len() > 0,
        p.last() == PumpInput::Sent(false) || p.last() == PumpInput::Woken(
            PumpEventKind::RecordingStopped,
        ),
    ensures
        !pump_run(running, p).0,
        pump_run(running, p + rest).1 == pump_run(running, p).1,
{
    let init = p.drop_last();
    lemma_pump_run_split(running, init, seq![p.last()]);
    assert(init + seq![p.last()] == p);
    let mid = pump_run(running, init).0;
    let one = seq![p.last()];
    assert(one.drop_first() =~= Seq::<PumpInput>::empty());
    assert(one[0] == p.last());
    assert(!pump_next(mid, p.last()).0);
    assert(pump_run(pump_next(mid, one[0]).0, one.drop_first()).0 == pump_next(mid, p.last()).0);
    assert(!pump_run(mid, one).0);
    lemma_pump_run_split(running, p, rest);
    lemma_pump_stays_stopped(rest);
}

// ---------------------------------------------------------------------------
// Results

/// The number of words attributed to speaker `s`.
pub open spec fn speaker_count(words: Seq<Option<u32>>, s: u32) -> nat
    decreases words.len(),
{
    if words.len() == 0 {
        0
    } else {
        speaker_count(words.drop_last(), s) + if words.last() == Some(s) {
            1nat
        } else {
            0nat
        }
    }
}

/// `Speaker <n + 1>`: speakers are numbered from 1 for users.
pub open spec fn speaker_name(s: u32) -> Seq<char> {
    "Speaker "@ + decimal((s + 1) as nat)
}

proof fn lemma_count_bound(words: Seq<Option<u32>>, s: u32)
    ensures
        speaker_count(words, s) <= words.len(),
    decreases words.len(),
{
    if words.len() > 0 {
        lemma_count_bound(words.drop_last(), s);
    }
}

/// The speaker of the most words, as `Speaker <n + 1>`; `None` when no word has
/// a speaker. The words are counted per speaker in a `HashMap`, whose iteration
/// order decides between speakers with equally many words: either may be named.
pub fn dominant_speaker(words: &Vec<Option<u32>>) -> (r: Option<String>)
    ensures
        r is None <==> (forall|i: int| 0 <= i < words@.len() ==> words@[i] is None),
        match r {
            Some(name) => exists|s: u32|
                speaker_count(words@, s) > 0 && (forall|t: u32|
                    speaker_count(words@, t) <= speaker_count(words@, s)) && name@
                    == #[trigger] speaker_name(s),
            None => true,
        },
{
    broadcast use vstd::std_specs::hash::group_hash_axioms;

    let mut counts: HashMap<u32, usize> = HashMap::new();
    let n = words.len();
    let mut i: usize = 0;
    while i < n
        invariant
            i <= n == words@.len(),
            forall|t: u32|
                #![trigger counts@.contains_key(t)]
                #![trigger speaker_count(words@.take(i as int), t)]
                counts@.contains_key(t) <==> speaker_count(words@.take(i as int), t) > 0,
            forall|t: u32|
                #[trigger] counts@.contains_key(t) ==> counts@[t] == speaker_count(
                    words@.take(i as int),
                    t,
                ),
            counts@.dom().len() == 0 <==> (forall|k: int| 0 <= k < i ==> words@[k] is None),
        decreases n - i,
    {
        let ghost prev = words@.take(i as int);
        let ghost next = words@.take(i + 1);
        assert(next.drop_last() == prev);
        assert(next.last() == words@[i as int]);
        match words[i] {
            Some(s) => {
                proof {
                    lemma_count_bound(prev, s);
                }
                let c: usize = match counts.get(&s) {
                    Some(c) => *c,
                    None => 0,
                };
                counts.insert(s, c + 1);
                assert(counts@.contains_key(s));
                assert(counts@.dom().len() > 0);
            },
            None => {
                assert forall|t: u32| speaker_count(next, t) == speaker_count(prev, t) by {}
            },
        }
        i = i + 1;
    }
    assert(words@.take(n as int) == words@);
    let mut best: Option<(u32, usize)> = None;
    for entry in it: counts.iter()
        invariant
            it.seq() == spec_hash_map_iter(&counts).remaining(),
            forall|k: int| 0 <= k < it.index() ==> match best {
                Some(b) => (#[trigger] it.seq()[k]).1 <= b.1,
                None => false,
            },
            match best {
                Some(b) => counts@.contains_key(b.0) && counts@[b.0] == b.1,
                None => it.index() == 0,
            },
    {
        let (k, c) = entry;
        assert(counts@.contains_key(*k) && counts@[*k] == *c);
        let take = match best {
            Some(b) => *c >= b.1,
            None => true,
        };
        if take {
            best = Some((*k, *c));
        }
    }
    match best {
        None => {
            assert(counts@.dom().len() == 0);
            None
        },
        Some((s, c)) => {
            let mut name = String::new();
            push_str(&mut name, "Speaker ");
            push_decimal(&mut name, s as u64 + 1);
            proof {
                assert forall|t: u32| speaker_count(words@, t) <= speaker_count(words@, s) by {
                    if speaker_count(words@, t) > 0 {
                        assert(counts@.contains_key(t));
                        let v = spec_hash_map_iter(&counts).remaining();
                        assert(v.contains((&t, &counts@[t])));
                        let k = choose|k: int| 0 <= k < v.len() && v[k] == (&t, &counts@[t]);
                        assert(v[k].1 <= c);
                    }
                }
                assert(name@ == speaker_name(s));
            }
            Some(name)
        },
    }
}

/// What the reader learned from one Deepgram result message.
pub struct AlternativeSummary {
    /// The transcript of the first alternative.
    pub transcript: String,
    /// The speaker index of each word, where Deepgram gave one.
    pub word_speakers: Vec<Option<u32>>,
}

pub struct ResultSummary {
    pub is_final: bool,
    /// The first alternative of the channel, when there is one.
    pub first_alternative: Option<AlternativeSummary>,
}

/// What a session carries from one result to the next.
pub struct SessionState {
    /// Whether the speech-detected event was already emitted.
    pub speech_emitted: bool,
    /// The sequence id of the next transcript update.
    pub next_sequence_id: u64,
}

/// The session state after one result: an emitting result marks speech as
/// announced and takes the next sequence id (wrapping like `AtomicU64::fetch_add`);
/// any other result changes nothing.
pub open spec fn next_session_state(s: SessionState, r: ResultSummary) -> SessionState {
    if emits(r) {
        SessionState {
            speech_emitted: true,
            next_sequence_id: ((s.next_sequence_id + 1) % 0x1_0000_0000_0000_0000) as u64,
        }
    } else {
        s
    }
}

/// The session state after a run of results.
pub open spec fn session_after(s: SessionState, rs: Seq<ResultSummary>) -> SessionState
    decreases rs.len(),
{
    if rs.len() == 0 {
        s
    } else {
        next_session_state(session_after(s, rs.drop_last()), rs.last())
    }
}

/// How many results of a run emit an update.
pub open spec fn emit_count(rs: Seq<ResultSummary>) -> nat
    decreases rs.len(),
{
    if rs.len() == 0 {
        0
    } else {
        emit_count(rs.drop_last()) + if emits(rs.last()) {
            1nat
        } else {
            0nat
        }
    }
}

/// How many updates of a run announce speech.
pub open spec fn announce_count(s: SessionState, rs: Seq<ResultSummary>) -> nat
    decreases rs.len(),
{
    if rs.len() == 0 {
        0
    } else {
        announce_count(s, rs.drop_last()) + if emits(rs.last()) && !session_after(
            s,
            rs.drop_last(),
        ).speech_emitted {
            1nat
        } else {
            0nat
        }
    }
}

/// Over any run of results, speech is announced at most once: exactly once
/// when the session had not announced it yet and some result emits, never
/// otherwise. The emitted updates take consecutive sequence ids.
pub proof fn lemma_session_run(s: SessionState, rs: Seq<ResultSummary>)
    ensures
        session_after(s, rs).speech_emitted == (s.speech_emitted || emit_count(rs) > 0),
        announce_count(s, rs) == if !s.speech_emitted && emit_count(rs) > 0 {
            1nat
        } else {
            0nat
        },
        session_after(s, rs).next_sequence_id == (s.next_sequence_id + emit_count(rs))
            % 0x1_0000_0000_0000_0000,
    decreases rs.len(),
{
    if rs.len() > 0 {
        lemma_session_run(s, rs.drop_last());
        let k = emit_count(rs.drop_last());
        let m = 0x1_0000_0000_0000_0000int;
        if emits(rs.last()) {
            let a = (s.next_sequence_id + k) % m;
            assert(((a + 1) % m) == (s.next_sequence_id + k + 1) % m) by (nonlinear_arith)
                requires
                    a == (s.next_sequence_id + k) % m,
                    m == 0x1_0000_0000_0000_0000int,
            ;
        }
    }
}

/// A transcript update to emit.
pub struct TranscriptEmit {
    pub text: String,
    pub speaker: Option<String>,
    pub sequence_id: u64,
    /// `HH:MM:SS` of the local time of the update.
    pub timestamp: String,
    /// Emit the speech-detected event first: this is the session's first update.
    pub announce_speech: bool,
    /// The engine that produced the update: `Deepgram`.
    pub source: String,
    /// Whether the update is a partial (interim) result: never, since only
    /// final results are emitted.
    pub is_partial: bool,
}

/// The source named in every Deepgram transcript update.
pub const TRANSCRIPT_SOURCE: &'static str = "Deepgram";

/// The update that a result gives, if any: only final results with a first
/// alternative whose trimmed transcript is not empty.
pub open spec fn emits(result: ResultSummary) -> bool {
    result.is_final && result.first_alternative is Some && trim(
        result.first_alternative->0.transcript@,
    ).len() > 0
}

/// Handle one parsed result. Non-final results, results without an alternative
/// and blank transcripts change nothing and emit nothing. Otherwise the update
/// carries the trimmed transcript, the dominant speaker, the next sequence id
/// and the time of day; the first update of a session also announces speech.
pub fn handle_result(state: &mut SessionState, result: &ResultSummary, now: &LocalTimestamp) -> (r:
    Option<TranscriptEmit>)
    requires
        now.is_valid(),
    ensures
        r is Some <==> emits(*result),
        *final(state) == next_session_state(*old(state), *result),
        match r {
            Some(e) => {
                &&& e.text@ == trim(result.first_alternative->0.transcript@)
                &&& e.sequence_id == old(state).next_sequence_id
                &&& e.announce_speech == !old(state).speech_emitted
                &&& e.timestamp@ == clock_time(*now)
                &&& e.source@ == TRANSCRIPT_SOURCE@
                &&& !e.is_partial
                &&& (e.speaker is None <==> forall|i: int|
                    0 <= i < result.first_alternative->0.word_speakers@.len()
                        ==> result.first_alternative->0.word_speakers@[i] is None)
                &&& e.speaker matches Some(name) ==> exists|s: u32|
                    speaker_count(result.first_alternative->0.word_speakers@, s) > 0 && (forall|t: u32|
                        speaker_count(result.first_alternative->0.word_speakers@, t)
                            <= speaker_count(result.first_alternative->0.word_speakers@, s))
                        && name@ == #[trigger] speaker_name(s)
            },
            None => true,
        },
{
    if !result.is_final {
        return None;
    }
    let alt = match &result.first_alternative {
        Some(a) => a,
        None => return None,
    };
    let text = trim_string(alt.transcript.as_str());
    if text.as_str().unicode_len() == 0 {
        return None;
    }
    let speaker = dominant_speaker(&alt.word_speakers);
    let sequence_id = state.next_sequence_id;
    state.next_sequence_id = sequence_id.wrapping_add(1);
    let announce_speech = !state.speech_emitted;
    state.speech_emitted = true;
    let timestamp = chrono_clock_time(now);
    Some(TranscriptEmit {
        text,
        speaker,
        sequence_id,
        timestamp,
        announce_speech,
        source: String::from_str(TRANSCRIPT_SOURCE),
        is_partial: false,
    })
}

// ---------------------------------------------------------------------------
// Reader

/// What the reader takes from the stream, in arrival order.
pub enum ReaderInput {
    /// A text message that parsed as a Deepgram result.
    Result(ResultSummary),
    /// A text message that is not a result (metadata and the like).
    Unparsed,
    Binary,
    /// Ping, pong or a raw frame.
    Other,
    /// The server closed the stream.
    Close,
    /// Reading from the connection failed.
    ReadError,
}

/// The reader of one session: its result state, and whether it still reads.
pub struct ReaderSession {
    pub session: SessionState,
    pub open: bool,
}

/// One reader transition. Results go through the session state; text that is
/// not a result, binary and control messages change nothing; a close or a
/// read error ends the reading, after which nothing changes.
pub open spec fn reader_next(st: ReaderSession, input: ReaderInput) -> ReaderSession {
    if !st.open {
        st
    } else {
        match input {
            ReaderInput::Result(r) => ReaderSession {
                session: next_session_state(st.session, r),
                open: true,
            },
            ReaderInput::Close | ReaderInput::ReadError => ReaderSession {
                session: st.session,
                open: false,
            },
            _ => st,
        }
    }
}

/// The reader after a run of inputs.
pub open spec fn reader_after(st: ReaderSession, inputs: Seq<ReaderInput>) -> ReaderSession
    decreases inputs.len(),
{
    if inputs.len() == 0 {
        st
    } else {
        reader_next(reader_after(st, inputs.drop_last()), inputs.last())
    }
}

pub open spec fn is_stop(input: ReaderInput) -> bool {
    input is Close || input is ReadError
}

/// Whether a run holds a close or a read error.
pub open spec fn has_stop(inputs: Seq<ReaderInput>) -> bool {
    exists|i: int| 0 <= i < inputs.len() && is_stop(#[trigger] inputs[i])
}

/// The results that the reader handles: those that arrive before the first
/// close or read error, in arrival order.
pub open spec fn results_read(open: bool, inputs: Seq<ReaderInput>) -> Seq<ResultSummary>
    decreases inputs.len(),
{
    if inputs.len() == 0 {
        Seq::empty()
    } else {
        let p = inputs.drop_last();
        let before = results_read(open, p);
        if open && !has_stop(p) && inputs.last() is Result {
            before.push(inputs.last()->Result_0)
        } else {
            before
        }
    }
}

impl ReaderSession {
    /// A reader for a new session: open, speech not yet announced.
    pub fn new(first_sequence_id: u64) -> (r: ReaderSession)
        ensures
            r.open,
            !r.session.speech_emitted,
            r.session.next_sequence_id == first_sequence_id,
    {
        ReaderSession {
            session: SessionState { speech_emitted: false, next_sequence_id: first_sequence_id },
            open: true,
        }
    }

    /// Takes the next input; a result may give a transcript update.
    pub fn on_input(&mut self, input: &ReaderInput, now: &LocalTimestamp) -> (r: Option<TranscriptEmit>)
        requires
            input is Result ==> now.is_valid(),
        ensures
            *final(self) == reader_next(*old(self), *input),
            r is Some <==> old(self).open && input is Result && emits(input->Result_0),
            r matches Some(e) ==> {
                let res = input->Result_0;
                &&& e.text@ == trim(res.first_alternative->0.transcript@)
                &&& e.sequence_id == old(self).session.next_sequence_id
                &&& e.announce_speech == !old(self).session.speech_emitted
                &&& e.timestamp@ == clock_time(*now)
                &&& e.source@ == TRANSCRIPT_SOURCE@
                &&& !e.is_partial
                &&& (e.speaker is None <==> forall|i: int|
                    0 <= i < res.first_alternative->0.word_speakers@.len()
                        ==> res.first_alternative->0.word_speakers@[i] is None)
                &&& e.speaker matches Some(name) ==> exists|s: u32|
                    speaker_count(res.first_alternative->0.word_speakers@, s) > 0 && (forall|t: u32|
                        speaker_count(res.first_alternative->0.word_speakers@, t)
                            <= speaker_count(res.first_alternative->0.word_speakers@, s))
                        && name@ == #[trigger] speaker_name(s)
            },
    {
        if !self.open {
            return None;
        }
        match input {
            ReaderInput::Result(res) => handle_result(&mut self.session, res, now),
            ReaderInput::Close | ReaderInput::ReadError => {
                self.open = false;
                None
            },
            _ => None,
        }
    }
}

/// Over any run of inputs the reader handles, in arrival order and with one
/// session state, exactly the results that arrive before the first close or
/// read error; it reads on exactly while no such input came. So a session
/// that starts without having announced speech announces it at most once.
pub proof fn lemma_reader_run(st: ReaderSession, inputs: Seq<ReaderInput>)
    ensures
        reader_after(st, inputs).session == session_after(st.session, results_read(st.open, inputs)),
        reader_after(st, inputs).open == (st.open && !has_stop(inputs)),
        announce_count(st.session, results_read(st.open, inputs)) <= 1,
        !st.session.speech_emitted ==> announce_count(st.session, results_read(st.open, inputs))
            == if emit_count(results_read(st.open, inputs)) > 0 {
            1nat
        } else {
            0nat
        },
    decreases inputs.len(),
{
    if inputs.len() > 0 {
        let p = inputs.drop_last();
        lemma_reader_run(st, p);
        let x = inputs.last();
        assert(has_stop(inputs) == (has_stop(p) || is_stop(x))) by {
            if has_stop(inputs) && !is_stop(x) {
                let i = choose|i: int| 0 <= i < inputs.len() && is_stop(#[trigger] inputs[i]);
                assert(i < p.len());
                assert(p[i] == inputs[i]);
            }
            if has_stop(p) {
                let i = choose|i: int| 0 <= i < p.len() && is_stop(#[trigger] p[i]);
                assert(inputs[i] == p[i]);
            }
            if is_stop(x) {
                assert(inputs[inputs.len() - 1] == x);
            }
        }
        let rs = results_read(st.open, p);
        if st.open && !has_stop(p) && x is Result {
            assert(results_read(st.open, inputs) == rs.push(x->Result_0));
            assert(rs.push(x->Result_0).drop_last() == rs);
        }
    } else {
        assert(!has_stop(inputs));
    }
    lemma_session_run(st.session, results_read(st.open, inputs));
}

} // verus!
