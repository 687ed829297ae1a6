//! Whether to use Deepgram, and the request that opens its stream.
use vstd::prelude::*;
use crate::text::{chars_of, push_char, push_str, same_text, string_of, trim, trim_string};
use tokio_tungstenite::tungstenite::http::{HeaderValue, Request};
use tokio_tungstenite::tungstenite::http::header::InvalidHeaderValue;
use tokio_tungstenite::tungstenite::client::IntoClientRequest;
use vstd::utf8::encode_utf8;

verus! {

broadcast use vstd::string::group_string_axioms;

// ---------------------------------------------------------------------------
// Outside types

#[verifier::external_type_specification]
#[verifier::external_body]
#[verifier::reject_recursive_types(T)]
pub struct ExHttpRequest<T>(tokio_tungstenite::tungstenite::http::Request<T>);

#[verifier::external_type_specification]
#[verifier::external_body]
pub struct ExHeaderValue(tokio_tungstenite::tungstenite::http::HeaderValue);

#[verifier::external_type_specification]
#[verifier::external_body]
pub struct ExInvalidHeaderValue(tokio_tungstenite::tungstenite::http::header::InvalidHeaderValue);

#[verifier::external_type_specification]
#[verifier::external_body]
pub struct ExWsError(tokio_tungstenite::tungstenite::Error);

// ---------------------------------------------------------------------------
// Choosing Deepgram

/// The model used when none is configured.
pub const DEFAULT_MODEL: &'static str = "nova-3";

/// The language requested from Deepgram.
pub const LANGUAGE: &'static str = "en-US";

/// What the session does, decided before any connection is made.
pub enum SessionPlan {
    /// Deepgram is not the configured provider: run the local engine.
    NotSelected,
    /// Deepgram is selected but no API key is set: warn and run the local engine.
    MissingKey,
    /// Connect to Deepgram with this key and model.
    Connect { key: String, model: String },
}

/// The warning shown when Deepgram is selected but no key is available.
pub const MISSING_KEY_WARNING: &'static str =
    "Deepgram selected but no API key found in .env — using local transcription.";

/// The model to request: the configured one, or the default when it is blank.
pub open spec fn chosen_model(model: Seq<char>) -> Seq<char> {
    if trim(model).len() == 0 {
        DEFAULT_MODEL@
    } else {
        model
    }
}

/// If the configured provider is Deepgram and a key is available, connect with
/// the configured model (or the default one); otherwise fall back to the local
/// engine, warning when only the key is missing.
pub fn plan_session(provider: &str, model: &str, key: Option<String>) -> (r: SessionPlan)
    ensures
        provider@ != "deepgram"@ ==> r is NotSelected,
        provider@ == "deepgram"@ && key is None ==> r is MissingKey,
        provider@ == "deepgram"@ && key is Some ==> (r matches SessionPlan::Connect { key: k, model: m }
            && k == key->0 && m@ == chosen_model(model@)),
{
    if !same_text(provider, "deepgram") {
        return SessionPlan::NotSelected;
    }
    match key {
        None => SessionPlan::MissingKey,
        Some(k) => {
            let t = trim_string(model);
            let m = if t.as_str().unicode_len() == 0 {
                String::from_str(DEFAULT_MODEL)
            } else {
                String::from_str(model)
            };
            SessionPlan::Connect { key: k, model: m }
        },
    }
}

// ---------------------------------------------------------------------------
// Keyterms

/// The fields of `s` between commas: one more field than there are commas.
pub open spec fn comma_fields(s: Seq<char>) -> Seq<Seq<char>>
    decreases s.len(),
{
    if s.len() == 0 {
        seq![Seq::empty()]
    } else {
        let p = comma_fields(s.drop_last());
        if s.last() == ',' {
            p.push(Seq::empty())
        } else {
            p.update(p.len() - 1, p.last().push(s.last()))
        }
    }
}

/// Each field trimmed, blank fields left out.
pub open spec fn nonblank_trimmed_fields(fields: Seq<Seq<char>>) -> Seq<Seq<char>>
    decreases fields.len(),
{
    if fields.len() == 0 {
        Seq::empty()
    } else {
        let p = nonblank_trimmed_fields(fields.drop_last());
        let t = trim(fields.last());
        if t.len() == 0 {
            p
        } else {
            p.push(t)
        }
    }
}

/// The firm-vocabulary terms of a comma-separated list (`DEEPGRAM_KEYTERMS`):
/// each term trimmed, blank terms left out.
pub open spec fn keyterms_of(raw: Seq<char>) -> Seq<Seq<char>> {
    nonblank_trimmed_fields(comma_fields(raw))
}

/// The characters of each string.
pub open spec fn texts(v: Seq<String>) -> Seq<Seq<char>> {
    v.map_values(|t: String| t@)
}

proof fn lemma_comma_fields_len(s: Seq<char>)
    ensures
        comma_fields(s).len() >= 1,
    decreases s.len(),
{
    if s.len() > 0 {
        lemma_comma_fields_len(s.drop_last());
    }
}

/// The fields joined again, a comma between each two.
pub open spec fn comma_joined(fields: Seq<Seq<char>>) -> Seq<char>
    decreases fields.len(),
{
    if fields.len() == 0 {
        Seq::empty()
    } else if fields.len() == 1 {
        fields[0]
    } else {
        comma_joined(fields.drop_last()) + seq![','] + fields.last()
    }
}

/// Splitting at commas loses nothing: no field holds a comma, and joining the
/// fields with commas gives the text back.
pub proof fn lemma_comma_fields_split(s: Seq<char>)
    ensures
        forall|i: int|
            0 <= i < comma_fields(s).len() ==> !(#[trigger] comma_fields(s)[i]).contains(','),
        comma_joined(comma_fields(s)) == s,
    decreases s.len(),
{
    if s.len() > 0 {
        let c = s.last();
        let d = s.drop_last();
        lemma_comma_fields_split(d);
        lemma_comma_fields_len(d);
        let p = comma_fields(d);
        let n = p.len();
        let q = comma_fields(s);
        if c == ',' {
            assert(q == p.push(Seq::<char>::empty()));
            assert(q.drop_last() == p);
            assert(comma_joined(q) == comma_joined(p) + seq![','] + Seq::<char>::empty());
            assert(d.push(',') == s);
            assert forall|i: int| 0 <= i < q.len() implies !(#[trigger] q[i]).contains(',') by {
                if i < n {
                    assert(q[i] == p[i]);
                }
            }
        } else {
            let f = p.last().push(c);
            assert(q == p.update(n - 1, f));
            assert forall|i: int| 0 <= i < q.len() implies !(#[trigger] q[i]).contains(',') by {
                if i < n - 1 {
                    assert(q[i] == p[i]);
                } else {
                    assert(q[i] == f);
                    assert(!p[n - 1].contains(','));
                    if f.contains(',') {
                        let j = choose|j: int| 0 <= j < f.len() && f[j] == ',';
                        if j < f.len() - 1 {
                            assert(f[j] == p.last()[j]);
                        }
                        assert(false);
                    }
                }
            }
            if n == 1 {
                assert(comma_joined(p) == p[0]);
                assert(comma_joined(q) == q[0]);
            } else {
                assert(q.drop_last() == p.drop_last());
                assert(q.last() == f);
                let j = comma_joined(p.drop_last()) + seq![','];
                assert(comma_joined(p) == j + p.last());
                assert(comma_joined(q) == j + f);
                assert(j + p.last().push(c) == (j + p.last()).push(c));
            }
            assert(d.push(c) == s);
        }
    }
}

/// The keyterms are the non-blank fields, each trimmed, in the order given:
/// none is dropped and none is added, so there are exactly as many terms as
/// non-blank fields.
pub proof fn lemma_keyterms_are_nonblank_fields(fields: Seq<Seq<char>>)
    ensures
        nonblank_trimmed_fields(fields) == fields.filter(|f: Seq<char>| trim(f).len() > 0).map_values(
            |f: Seq<char>| trim(f),
        ),
        nonblank_trimmed_fields(fields).len() == fields.filter(|f: Seq<char>| trim(f).len() > 0).len(),
    decreases fields.len(),
{
    reveal(Seq::filter);
    if fields.len() > 0 {
        lemma_keyterms_are_nonblank_fields(fields.drop_last());
        let pred = |f: Seq<char>| trim(f).len() > 0;
        let fm = fields.drop_last().filter(pred);
        if trim(fields.last()).len() > 0 {
            assert(fields.filter(pred) == fm.push(fields.last()));
            assert(fm.push(fields.last()).map_values(|f: Seq<char>| trim(f)) == fm.map_values(
                |f: Seq<char>| trim(f),
            ).push(trim(fields.last())));
        } else {
            assert(fields.filter(pred) == fm);
        }
    }
}

/// The terms of a comma-separated keyterm list.
pub fn parse_keyterms(raw: &str) -> (r: Vec<String>)
    ensures
        texts(r@) == keyterms_of(raw@),
{
    let v = chars_of(raw);
    let n = v.len();
    let mut out: Vec<String> = Vec::new();
    let mut start: usize = 0;
    let mut i: usize = 0;
    assert(v@.take(0) =~= Seq::<char>::empty());
    assert(comma_fields(v@.take(0)).drop_last() =~= Seq::<Seq<char>>::empty());
    while i < n
        invariant
            start <= i <= n == v@.len(),
            v@ == raw@,
            comma_fields(v@.take(i as int)).len() >= 1,
            comma_fields(v@.take(i as int)).last() == v@.subrange(start as int, i as int),
            texts(out@) == nonblank_trimmed_fields(comma_fields(v@.take(i as int)).drop_last()),
        decreases n - i,
    {
        let ghost prev = v@.take(i as int);
        let ghost next = v@.take(i + 1);
        assert(next.drop_last() == prev);
        assert(next.last() == v@[i as int]);
        proof {
            lemma_comma_fields_len(prev);
        }
        let ghost p = comma_fields(prev);
        if v[i] == ',' {
            let field = string_of(&v, start, i);
            let t = trim_string(field.as_str());
            assert(comma_fields(next).drop_last() == p);
            assert(p == p.drop_last().push(p.last()));
            if t.as_str().unicode_len() > 0 {
                let ghost before = out@;
                out.push(t);
                assert(texts(out@) =~= texts(before).push(trim(p.last())));
            }
            start = i + 1;
            assert(v@.subrange(start as int, (i + 1) as int) =~= Seq::<char>::empty());
        } else {
            assert(comma_fields(next).drop_last() =~= p.drop_last());
            assert(v@.subrange(start as int, (i + 1) as int) =~= v@.subrange(start as int, i as int).push(
                v@[i as int],
            ));
        }
        i = i + 1;
    }
    assert(v@.take(n as int) == v@);
    proof {
        lemma_comma_fields_len(v@);
    }
    let ghost p = comma_fields(v@);
    assert(p == p.drop_last().push(p.last()));
    let field = string_of(&v, start, n);
    let t = trim_string(field.as_str());
    if t.as_str().unicode_len() > 0 {
        let ghost before = out@;
        out.push(t);
        assert(texts(out@) =~= texts(before).push(trim(p.last())));
    }
    out
}

/// A byte that stays as it is in a URL query: ASCII letters, digits, `-`, `.`,
/// `_` and `~`.
pub open spec fn is_unreserved_byte(b: u8) -> bool {
    (0x41 <= b <= 0x5a) || (0x61 <= b <= 0x7a) || (0x30 <= b <= 0x39) || b == 0x2d || b == 0x2e
        || b == 0x5f || b == 0x7e
}

/// The upper-case hexadecimal digit for `d < 16`.
pub open spec fn hex_digit(d: nat) -> char {
    if d < 10 {
        ((48 + d) as u32) as char
    } else {
        ((55 + d) as u32) as char
    }
}

pub open spec fn percent_encode_byte(b: u8) -> Seq<char> {
    if is_unreserved_byte(b) {
        seq![b as char]
    } else {
        seq!['%', hex_digit((b / 16) as nat), hex_digit((b % 16) as nat)]
    }
}

/// Percent-encoding of bytes: unreserved bytes stay, every other byte becomes
/// `%XX`.
pub open spec fn percent_encoded(bytes: Seq<u8>) -> Seq<char>
    decreases bytes.len(),
{
    if bytes.len() == 0 {
        Seq::empty()
    } else {
        percent_encoded(bytes.drop_last()) + percent_encode_byte(bytes.last())
    }
}

/// One `&keyterm=<term>` query parameter per term, the term's UTF-8 bytes
/// percent-encoded.
pub open spec fn keyterm_params(terms: Seq<Seq<char>>) -> Seq<char>
    decreases terms.len(),
{
    if terms.len() == 0 {
        Seq::empty()
    } else {
        keyterm_params(terms.drop_last()) + "&keyterm="@ + percent_encoded(encode_utf8(terms.last()))
    }
}

fn hex_digit_char(d: u8) -> (c: char)
    requires
        d < 16,
    ensures
        c == hex_digit(d as nat),
{
    if d < 10 {
        (48u8 + d) as char
    } else {
        (55u8 + d) as char
    }
}

/// Appends the percent-encoding of the UTF-8 bytes of `s` to `out`.
fn push_percent_encoded(out: &mut String, s: &str)
    ensures
        final(out)@ == old(out)@ + percent_encoded(encode_utf8(s@)),
{
    let bytes = s.as_bytes();
    let mut i: usize = 0;
    while i < bytes.len()
        invariant
            i <= bytes@.len(),
            bytes@ == encode_utf8(s@),
            out@ == old(out)@ + percent_encoded(bytes@.take(i as int)),
        decreases bytes@.len() - i,
    {
        let b = bytes[i];
        assert(bytes@.take(i + 1).drop_last() == bytes@.take(i as int));
        if (0x41 <= b && b <= 0x5a) || (0x61 <= b && b <= 0x7a) || (0x30 <= b && b <= 0x39) || b == 0x2d
            || b == 0x2e || b == 0x5f || b == 0x7e {
            push_char(out, b as char);
        } else {
            push_char(out, '%');
            push_char(out, hex_digit_char(b / 16));
            push_char(out, hex_digit_char(b % 16));
        }
        i = i + 1;
    }
    assert(bytes@.take(bytes@.len() as int) == bytes@);
}

/// No percent-encoded text holds `&`, `=` or `#`, so a term can never add a
/// query parameter of its own or cut the query short.
pub proof fn lemma_encoded_term_inert(bytes: Seq<u8>)
    ensures
        !percent_encoded(bytes).contains('&'),
        !percent_encoded(bytes).contains('='),
        !percent_encoded(bytes).contains('#'),
    decreases bytes.len(),
{
    if bytes.len() > 0 {
        lemma_encoded_term_inert(bytes.drop_last());
        let p = percent_encoded(bytes.drop_last());
        let e = percent_encode_byte(bytes.last());
        assert forall|i: int| 0 <= i < (p + e).len() implies (p + e)[i] != '&' && (p + e)[i] != '='
            && (p + e)[i] != '#' by {
            if i < p.len() {
                assert((p + e)[i] == p[i]);
            } else {
                assert((p + e)[i] == e[i - p.len()]);
            }
        }
    }
}

/// The value of a hexadecimal digit, either case.
pub open spec fn hex_value(c: char) -> int {
    if '0' <= c && c <= '9' {
        c as int - 48
    } else if 'A' <= c && c <= 'F' {
        c as int - 55
    } else if 'a' <= c && c <= 'f' {
        c as int - 87
    } else {
        0
    }
}

/// How a server reads a form-encoded query value back into bytes: `%XX` is the
/// byte with hexadecimal value `XX`, `+` is a space, and any other character
/// stands for its own code.
pub open spec fn form_decoded(t: Seq<char>) -> Seq<u8>
    decreases t.len(),
{
    if t.len() == 0 {
        Seq::empty()
    } else if t[0] == '%' && t.len() >= 3 {
        seq![(hex_value(t[1]) * 16 + hex_value(t[2])) as u8] + form_decoded(t.skip(3))
    } else if t[0] == '+' {
        seq![0x20u8] + form_decoded(t.skip(1))
    } else {
        seq![t[0] as u8] + form_decoded(t.skip(1))
    }
}

/// A character that may stand unencoded in a keyterm parameter: an ASCII
/// letter or digit, `-`, `.`, `_` or `~`.
pub open spec fn is_unreserved_char(c: char) -> bool {
    ('A' <= c && c <= 'Z') || ('a' <= c && c <= 'z') || ('0' <= c && c <= '9') || c == '-' || c
        == '.' || c == '_' || c == '~'
}

proof fn lemma_encoded_front(b: u8, rest: Seq<u8>)
    ensures
        percent_encoded(seq![b] + rest) == percent_encode_byte(b) + percent_encoded(rest),
    decreases rest.len(),
{
    if rest.len() == 0 {
        assert(seq![b] + rest == seq![b]);
        assert(seq![b].drop_last() == Seq::<u8>::empty());
        assert(percent_encoded(Seq::<u8>::empty()) == Seq::<char>::empty());
        assert(Seq::<char>::empty() + percent_encode_byte(b) == percent_encode_byte(b));
        assert(percent_encode_byte(b) + Seq::<char>::empty() == percent_encode_byte(b));
    } else {
        lemma_encoded_front(b, rest.drop_last());
        assert((seq![b] + rest).drop_last() == seq![b] + rest.drop_last());
        assert((seq![b] + rest).last() == rest.last());
        let e = percent_encode_byte(b);
        let m = percent_encoded(rest.drop_last());
        let l = percent_encode_byte(rest.last());
        assert(e + m + l == e + (m + l));
    }
}

proof fn lemma_hex_digit_value(d: nat)
    requires
        d < 16,
    ensures
        hex_value(hex_digit(d)) == d,
{
}

/// Decoding a percent-encoded value as a form-encoded query value gives back
/// the bytes exactly: a keyterm reaches the server as it was configured.
pub proof fn lemma_form_decode_encoded(bytes: Seq<u8>)
    ensures
        form_decoded(percent_encoded(bytes)) == bytes,
    decreases bytes.len(),
{
    if bytes.len() > 0 {
        let b = bytes[0];
        let rest = bytes.drop_first();
        assert(seq![b] + rest == bytes);
        lemma_encoded_front(b, rest);
        lemma_form_decode_encoded(rest);
        let e = percent_encode_byte(b);
        let t = e + percent_encoded(rest);
        if is_unreserved_byte(b) {
            assert(t[0] == b as char);
            assert(t.skip(1) == percent_encoded(rest));
            assert((b as char) as u8 == b);
        } else {
            lemma_hex_digit_value((b / 16) as nat);
            lemma_hex_digit_value((b % 16) as nat);
            assert(t[0] == '%');
            assert(t[1] == hex_digit((b / 16) as nat));
            assert(t[2] == hex_digit((b % 16) as nat));
            assert(t.skip(3) == percent_encoded(rest));
            assert((b / 16) * 16 + b % 16 == b);
        }
    }
}

/// How many of the bytes lie outside ASCII letters, digits, `-`, `.`, `_` and
/// `~`.
pub open spec fn escaped_byte_count(bytes: Seq<u8>) -> nat
    decreases bytes.len(),
{
    if bytes.len() == 0 {
        0
    } else {
        let b = bytes.last();
        escaped_byte_count(bytes.drop_last()) + if (0x41 <= b && b <= 0x5a) || (0x61 <= b && b
            <= 0x7a) || (0x30 <= b && b <= 0x39) || b == 0x2d || b == 0x2e || b == 0x5f || b
            == 0x7e {
            0nat
        } else {
            1nat
        }
    }
}

/// Each letter, digit, `-`, `.`, `_` and `~` is written as one character and
/// every other byte as three (`%XX`), so nothing is dropped and nothing else
/// is left as it is.
pub proof fn lemma_encoded_len(bytes: Seq<u8>)
    ensures
        percent_encoded(bytes).len() == bytes.len() + 2 * escaped_byte_count(bytes),
    decreases bytes.len(),
{
    if bytes.len() > 0 {
        lemma_encoded_len(bytes.drop_last());
    }
}

/// Only the unreserved characters stand as they are in percent-encoded text;
/// every other byte, `+` and space among them, appears as `%` and two
/// upper-case hexadecimal digits.
pub proof fn lemma_encoded_chars(bytes: Seq<u8>)
    ensures
        forall|i: int|
            0 <= i < percent_encoded(bytes).len() ==> {
                let c = #[trigger] percent_encoded(bytes)[i];
                is_unreserved_char(c) || c == '%'
            },
        forall|i: int|
            0 <= i < percent_encoded(bytes).len() && percent_encoded(bytes)[i] == '%' ==> {
                &&& i + 2 < percent_encoded(bytes).len()
                &&& ('0' <= percent_encoded(bytes)[i + 1] <= '9' || 'A' <= percent_encoded(bytes)[i
                    + 1] <= 'F')
                &&& ('0' <= percent_encoded(bytes)[i + 2] <= '9' || 'A' <= percent_encoded(bytes)[i
                    + 2] <= 'F')
            },
    decreases bytes.len(),
{
    if bytes.len() > 0 {
        lemma_encoded_chars(bytes.drop_last());
        let p = percent_encoded(bytes.drop_last());
        let e = percent_encode_byte(bytes.last());
        assert(percent_encoded(bytes) == p + e);
        assert forall|i: int| 0 <= i < (p + e).len() implies is_unreserved_char(#[trigger] (p + e)[i])
            || (p + e)[i] == '%' by {
            if i < p.len() {
                assert((p + e)[i] == p[i]);
            } else {
                assert((p + e)[i] == e[i - p.len()]);
            }
        }
        assert forall|i: int| 0 <= i < (p + e).len() && #[trigger] (p + e)[i] == '%' implies {
            &&& i + 2 < (p + e).len()
            &&& ('0' <= (p + e)[i + 1] <= '9' || 'A' <= (p + e)[i + 1] <= 'F')
            &&& ('0' <= (p + e)[i + 2] <= '9' || 'A' <= (p + e)[i + 2] <= 'F')
        } by {
            if i < p.len() {
                assert((p + e)[i] == p[i]);
                assert(p[i] == '%');
                assert((p + e)[i + 1] == p[i + 1]);
                assert((p + e)[i + 2] == p[i + 2]);
            } else {
                assert((p + e)[i] == e[i - p.len()]);
                assert(i == p.len());
                assert((p + e)[i + 1] == e[1]);
                assert((p + e)[i + 2] == e[2]);
            }
        }
    }
}

/// Percent-encoded text is query text.
proof fn lemma_encoded_query_text(bytes: Seq<u8>)
    ensures
        is_query_text(percent_encoded(bytes)),
    decreases bytes.len(),
{
    if bytes.len() > 0 {
        lemma_encoded_query_text(bytes.drop_last());
        let p = percent_encoded(bytes.drop_last());
        let e = percent_encode_byte(bytes.last());
        assert forall|i: int| 0 <= i < (p + e).len() implies is_query_char(#[trigger] (p + e)[i]) by {
            if i < p.len() {
                assert((p + e)[i] == p[i]);
            } else {
                assert((p + e)[i] == e[i - p.len()]);
            }
        }
    }
}

proof fn lemma_concat_query_text(a: Seq<char>, b: Seq<char>)
    requires
        is_query_text(a),
        is_query_text(b),
    ensures
        is_query_text(a + b),
{
    assert forall|i: int| 0 <= i < (a + b).len() implies is_query_char(#[trigger] (a + b)[i]) by {
        if i < a.len() {
            assert((a + b)[i] == a[i]);
        } else {
            assert((a + b)[i] == b[i - a.len()]);
        }
    }
}

proof fn lemma_keyterm_params_query_text(terms: Seq<Seq<char>>)
    ensures
        is_query_text(keyterm_params(terms)),
    decreases terms.len(),
{
    if terms.len() > 0 {
        reveal_strlit("&keyterm=");
        lemma_keyterm_params_query_text(terms.drop_last());
        lemma_encoded_query_text(encode_utf8(terms.last()));
        let sep = "&keyterm="@;
        assert(is_query_text(sep)) by {
            assert forall|i: int| 0 <= i < sep.len() implies is_query_char(#[trigger] sep[i]) by {}
        }
        lemma_concat_query_text(keyterm_params(terms.drop_last()), sep);
        lemma_concat_query_text(
            keyterm_params(terms.drop_last()) + sep,
            percent_encoded(encode_utf8(terms.last())),
        );
    }
}

// ---------------------------------------------------------------------------
// The streaming request

/// The query that follows the model in every request: linear16 mono audio at
/// 16 kHz, punctuation and smart formatting, no diarization, final results
/// only, and no retention for model improvement.
pub const LISTEN_QUERY_TAIL: &'static str =
    "&language=en-US&encoding=linear16&sample_rate=16000&channels=1&punctuate=true&smart_format=true&diarize=false&interim_results=false&mip_opt_out=true";

pub const LISTEN_URL_HEAD: &'static str = "wss://api.deepgram.com/v1/listen?model=";

/// The streaming endpoint for a model, followed by the keyterm parameters.
pub open spec fn listen_url(model: Seq<char>, terms: Seq<Seq<char>>) -> Seq<char> {
    LISTEN_URL_HEAD@ + model + LISTEN_QUERY_TAIL@ + keyterm_params(terms)
}

/// The Authorization header value for a key.
pub open spec fn auth_value(key: Seq<char>) -> Seq<char> {
    "Token "@ + key
}

/// A character that `HeaderValue::from_str` accepts: tab, or any character from
/// space on except DEL (characters beyond ASCII become bytes from 0x80 on,
/// which are accepted).
pub open spec fn header_value_char(c: char) -> bool {
    c == '\t' || (c as u32 >= 32 && c as u32 != 127)
}

pub open spec fn is_header_value(s: Seq<char>) -> bool {
    forall|i: int| 0 <= i < s.len() ==> header_value_char(#[trigger] s[i])
}

/// Whether tungstenite turns this URL into a client request: it must parse as
/// a URI with a non-empty host.
pub uninterp spec fn accepts_client_url(url: Seq<char>) -> bool;

/// An ASCII character that http 1.5 accepts as it is in a URI query:
/// `!`, `$` to `;`, `=`, and `?` to `~` (so not space, `"`, `#`, `<`, `>`,
/// controls or DEL).
pub open spec fn is_query_char(c: char) -> bool {
    c == '!' || ('$' <= c && c <= ';') || c == '=' || ('?' <= c && c <= '~')
}

/// Every character is one that a URI query takes as it is.
pub open spec fn is_query_text(s: Seq<char>) -> bool {
    forall|i: int| 0 <= i < s.len() ==> is_query_char(#[trigger] s[i])
}

/// The longest URI that http 1.5 accepts, in bytes.
pub const MAX_URI_LEN: usize = 65534;

/// The text of a request's URI, as `Uri`'s `Display` writes it.
pub uninterp spec fn request_uri_text(request: Request<()>) -> Seq<char>;

/// The text of a request's `Authorization` header, if it has one.
pub uninterp spec fn request_authorization(request: Request<()>) -> Option<Seq<char>>;

/// The text a header value was made from.
pub uninterp spec fn header_value_text(value: HeaderValue) -> Seq<char>;

/// Trusted: `<String as IntoClientRequest>::into_client_request` of tungstenite
/// 0.30. It parses the URL as an `http::Uri`, fails when that fails or the host
/// is missing or empty, and otherwise builds a GET request for that URI with
/// the upgrade headers and a random `Sec-WebSocket-Key`. Whether it succeeds is
/// stated through `accepts_client_url`. For a URL with the Deepgram prefix
/// (scheme `wss`, host, path `/v1/listen`, then the query) and no `#`, http 1.5
/// keeps scheme, authority, path and query verbatim, so the request's URI
/// writes back the URL itself; the random key is not stated.
#[verifier::external_body]
fn url_into_client_request(url: String) -> (r: Result<Request<()>, tokio_tungstenite::tungstenite::Error>)
    ensures
        r is Ok <==> accepts_client_url(url@),
        LISTEN_URL_HEAD@.is_prefix_of(url@) && !url@.contains('#') ==> (r matches Ok(req)
            ==> request_uri_text(req) == url@),
        LISTEN_URL_HEAD@.is_prefix_of(url@) && url@.len() <= MAX_URI_LEN && is_query_text(
            url@.skip(LISTEN_URL_HEAD@.len() as int),
        ) ==> r is Ok,
{
    url.into_client_request()
}

/// Trusted: `http::HeaderValue::from_str` (http 1.5), which fails exactly when
/// a byte of the text is below 32 (other than tab) or is 127, and otherwise
/// holds the text's bytes.
#[verifier::external_body]
fn header_value_from_str(s: &str) -> (r: Result<HeaderValue, InvalidHeaderValue>)
    ensures
        r is Ok <==> is_header_value(s@),
        r matches Ok(v) ==> header_value_text(v) == s@,
{
    HeaderValue::from_str(s)
}

/// Trusted: `http::HeaderMap::insert` on the request's headers, which replaces
/// any `Authorization` value by `value` and leaves the URI alone.
#[verifier::external_body]
fn set_authorization(request: &mut Request<()>, value: HeaderValue)
    ensures
        request_authorization(*final(request)) == Some(header_value_text(value)),
        request_uri_text(*final(request)) == request_uri_text(*old(request)),
{
    request.headers_mut().insert("Authorization", value);
}

/// Why the streaming request could not be built.
pub enum ConnectError {
    /// The URL was not accepted as a client request.
    BadRequest(tokio_tungstenite::tungstenite::Error),
    /// The key does not make a valid header value.
    BadAuthHeader(InvalidHeaderValue),
}

/// The streaming endpoint for `model`, with one keyterm parameter per term.
pub fn listen_url_for(model: &str, keyterms: &Vec<String>) -> (r: String)
    ensures
        r@ == listen_url(model@, texts(keyterms@)),
{
    let mut url = String::new();
    push_str(&mut url, LISTEN_URL_HEAD);
    push_str(&mut url, model);
    push_str(&mut url, LISTEN_QUERY_TAIL);
    let ghost base = url@;
    let ghost terms = texts(keyterms@);
    let mut i: usize = 0;
    assert(terms.take(0) =~= Seq::<Seq<char>>::empty());
    while i < keyterms.len()
        invariant
            i <= keyterms@.len(),
            terms == texts(keyterms@),
            url@ == base + keyterm_params(terms.take(i as int)),
        decreases keyterms@.len() - i,
    {
        assert(terms.take(i + 1).drop_last() == terms.take(i as int));
        assert(terms.take(i + 1).last() == keyterms@[i as int]@);
        push_str(&mut url, "&keyterm=");
        push_percent_encoded(&mut url, keyterms[i].as_str());
        assert(url@ =~= base + keyterm_params(terms.take(i + 1)));
        i = i + 1;
    }
    assert(terms.take(terms.len() as int) == terms);
    url
}

/// Adds the Authorization header `Token <key>` to the request that tungstenite
/// built (or failed to build) from the streaming URL.
pub fn authorize_request(
    request: Result<Request<()>, tokio_tungstenite::tungstenite::Error>,
    key: &str,
) -> (r: Result<Request<()>, ConnectError>)
    ensures
        r matches Err(ConnectError::BadRequest(_)) <==> request is Err,
        r matches Err(ConnectError::BadAuthHeader(_)) <==> request is Ok && !is_header_value(
            auth_value(key@),
        ),
        r is Ok <==> request is Ok && is_header_value(auth_value(key@)),
        r matches Ok(req) ==> request_authorization(req) == Some(auth_value(key@))
            && request_uri_text(req) == request_uri_text(request->Ok_0),
{
    let mut request = match request {
        Ok(req) => req,
        Err(e) => return Err(ConnectError::BadRequest(e)),
    };
    let mut auth = String::new();
    push_str(&mut auth, "Token ");
    push_str(&mut auth, key);
    let value = match header_value_from_str(auth.as_str()) {
        Ok(v) => v,
        Err(e) => return Err(ConnectError::BadAuthHeader(e)),
    };
    set_authorization(&mut request, value);
    Ok(request)
}

proof fn lemma_concat_lacks(a: Seq<char>, b: Seq<char>, c: char)
    requires
        !a.contains(c),
        !b.contains(c),
    ensures
        !(a + b).contains(c),
{
    assert forall|i: int| 0 <= i < (a + b).len() implies (a + b)[i] != c by {
        if i < a.len() {
            assert((a + b)[i] == a[i]);
        } else {
            assert((a + b)[i] == b[i - a.len()]);
        }
    }
}

proof fn lemma_keyterm_params_no_hash(terms: Seq<Seq<char>>)
    ensures
        !keyterm_params(terms).contains('#'),
    decreases terms.len(),
{
    if terms.len() > 0 {
        reveal_strlit("&keyterm=");
        lemma_keyterm_params_no_hash(terms.drop_last());
        lemma_encoded_term_inert(encode_utf8(terms.last()));
        assert(!"&keyterm="@.contains('#'));
        lemma_concat_lacks(keyterm_params(terms.drop_last()), "&keyterm="@, '#');
        lemma_concat_lacks(
            keyterm_params(terms.drop_last()) + "&keyterm="@,
            percent_encoded(encode_utf8(terms.last())),
            '#',
        );
    }
}

/// The request that opens the Deepgram stream: its URI is the streaming URL
/// for `model` with one keyterm parameter per term (when the model holds no
/// `#`, which would end the URI there), and its Authorization header is
/// `Token <key>`.
pub fn build_listen_request(key: &str, model: &str, keyterms: &Vec<String>) -> (r: Result<
    Request<()>,
    ConnectError,
>)
    ensures
        r matches Err(ConnectError::BadRequest(_)) <==> !accepts_client_url(
            listen_url(model@, texts(keyterms@)),
        ),
        r matches Err(ConnectError::BadAuthHeader(_)) <==> accepts_client_url(
            listen_url(model@, texts(keyterms@)),
        ) && !is_header_value(auth_value(key@)),
        r is Ok <==> accepts_client_url(listen_url(model@, texts(keyterms@))) && is_header_value(
            auth_value(key@),
        ),
        r matches Ok(req) ==> request_authorization(req) == Some(auth_value(key@)),
        !model@.contains('#') ==> (r matches Ok(req) ==> request_uri_text(req) == listen_url(
            model@,
            texts(keyterms@),
        )),
        is_query_text(model@) && listen_url(model@, texts(keyterms@)).len() <= MAX_URI_LEN
            ==> accepts_client_url(listen_url(model@, texts(keyterms@))),
{
    let url = listen_url_for(model, keyterms);
    let ghost u = url@;
    proof {
        let terms = texts(keyterms@);
        assert(LISTEN_URL_HEAD@.is_prefix_of(u)) by {
            assert(u.subrange(0, LISTEN_URL_HEAD@.len() as int) =~= LISTEN_URL_HEAD@);
        }
        if is_query_text(model@) {
            reveal_strlit(
                "&language=en-US&encoding=linear16&sample_rate=16000&channels=1&punctuate=true&smart_format=true&diarize=false&interim_results=false&mip_opt_out=true",
            );
            let tail = LISTEN_QUERY_TAIL@;
            assert(is_query_text(tail)) by {
                assert forall|i: int| 0 <= i < tail.len() implies is_query_char(#[trigger] tail[i]) by {}
            }
            lemma_keyterm_params_query_text(terms);
            lemma_concat_query_text(model@, tail);
            lemma_concat_query_text(model@ + tail, keyterm_params(terms));
            assert(u.skip(LISTEN_URL_HEAD@.len() as int) =~= model@ + tail + keyterm_params(terms));
        }
        if !model@.contains('#') {
            reveal_strlit("wss://api.deepgram.com/v1/listen?model=");
            reveal_strlit(
                "&language=en-US&encoding=linear16&sample_rate=16000&channels=1&punctuate=true&smart_format=true&diarize=false&interim_results=false&mip_opt_out=true",
            );
            assert(!LISTEN_URL_HEAD@.contains('#'));
            assert(!LISTEN_QUERY_TAIL@.contains('#'));
            lemma_keyterm_params_no_hash(terms);
            lemma_concat_lacks(LISTEN_URL_HEAD@, model@, '#');
            lemma_concat_lacks(LISTEN_URL_HEAD@ + model@, LISTEN_QUERY_TAIL@, '#');
            lemma_concat_lacks(
                LISTEN_URL_HEAD@ + model@ + LISTEN_QUERY_TAIL@,
                keyterm_params(terms),
                '#',
            );
        }
    }
    let request = url_into_client_request(url);
    authorize_request(request, key)
}

/// Every request keeps Deepgram's diarization off and opts out of its Model
/// Improvement Program: whatever the model, the fixed query that follows it
/// ends with `&diarize=false&interim_results=false&mip_opt_out=true`, and only
/// keyterm parameters, whose terms are percent-encoded, come after it.
pub proof fn lemma_request_opts_out(model: Seq<char>, terms: Seq<Seq<char>>)
    ensures
        "&diarize=false&interim_results=false&mip_opt_out=true"@.is_suffix_of(
            LISTEN_URL_HEAD@ + model + LISTEN_QUERY_TAIL@,
        ),
        listen_url(model, terms) == LISTEN_URL_HEAD@ + model + LISTEN_QUERY_TAIL@
            + keyterm_params(terms),
{
    reveal_strlit("&diarize=false&interim_results=false&mip_opt_out=true");
    reveal_strlit(
        "&language=en-US&encoding=linear16&sample_rate=16000&channels=1&punctuate=true&smart_format=true&diarize=false&interim_results=false&mip_opt_out=true",
    );
    let tail = LISTEN_QUERY_TAIL@;
    let want = "&diarize=false&interim_results=false&mip_opt_out=true"@;
    let url = LISTEN_URL_HEAD@ + model + tail;
    assert(want.len() <= tail.len());
    assert(tail.subrange(tail.len() - want.len(), tail.len() as int) =~= want);
    assert(url.subrange(url.len() - want.len(), url.len() as int) =~= tail.subrange(
        tail.len() - want.len(),
        tail.len() as int,
    ));
}

} // verus!
