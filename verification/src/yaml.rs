//! Escaping of titles for a YAML double-quoted scalar.
use vstd::prelude::*;
use crate::text::{push_char, push_str};

verus! {

broadcast use vstd::string::group_string_axioms;

/// The escape of one character: backslash, double quote, line feed and
/// carriage return get a backslash form, every other character stays.
pub open spec fn escape_char(c: char) -> Seq<char> {
    if c == '\\' {
        seq!['\\', '\\']
    } else if c == '"' {
        seq!['\\', '"']
    } else if c == '\n' {
        seq!['\\', 'n']
    } else if c == '\r' {
        seq!['\\', 'r']
    } else {
        seq![c]
    }
}

/// The escape of a whole text, character by character.
pub open spec fn yaml_escaped(s: Seq<char>) -> Seq<char>
    decreases s.len(),
{
    if s.len() == 0 {
        Seq::empty()
    } else {
        yaml_escaped(s.drop_last()) + escape_char(s.last())
    }
}

/// The character that a backslash escape stands for in a YAML double-quoted
/// scalar, for the escapes that `yaml_escape` writes.
pub open spec fn unescape_char(c: char) -> char {
    if c == 'n' {
        '\n'
    } else if c == 'r' {
        '\r'
    } else {
        c
    }
}

/// Reads a YAML double-quoted scalar body back into its text.
pub open spec fn yaml_unescaped(t: Seq<char>) -> Seq<char>
    decreases t.len(),
{
    if t.len() == 0 {
        Seq::empty()
    } else if t[0] == '\\' && t.len() >= 2 {
        seq![unescape_char(t[1])] + yaml_unescaped(t.skip(2))
    } else {
        seq![t[0]] + yaml_unescaped(t.skip(1))
    }
}

proof fn lemma_escaped_front(c: char, rest: Seq<char>)
    ensures
        yaml_escaped(seq![c] + rest) == escape_char(c) + yaml_escaped(rest),
    decreases rest.len(),
{
    if rest.len() == 0 {
        assert(seq![c] + rest == seq![c]);
        assert(seq![c].drop_last() == Seq::<char>::empty());
        assert(yaml_escaped(Seq::<char>::empty()) == Seq::<char>::empty());
        assert(escape_char(c) + Seq::<char>::empty() == escape_char(c));
    } else {
        lemma_escaped_front(c, rest.drop_last());
        assert((seq![c] + rest).drop_last() == seq![c] + rest.drop_last());
        assert((seq![c] + rest).last() == rest.last());
    }
}

/// Reading the escaped text back gives the title again: distinct titles
/// never escape to the same text.
pub proof fn lemma_unescape_escape(s: Seq<char>)
    ensures
        yaml_unescaped(yaml_escaped(s)) == s,
    decreases s.len(),
{
    if s.len() > 0 {
        let c = s[0];
        let rest = s.drop_first();
        assert(seq![c] + rest == s);
        lemma_escaped_front(c, rest);
        lemma_unescape_escape(rest);
        let e = escape_char(c);
        let t = e + yaml_escaped(rest);
        if e.len() == 2 {
            assert(t.skip(2) == yaml_escaped(rest));
            assert(t[0] == '\\');
        } else {
            assert(t.skip(1) == yaml_escaped(rest));
        }
    }
}

/// The escaped text never holds a raw line break.
pub proof fn lemma_escaped_single_line(s: Seq<char>)
    ensures
        forall|i: int|
            0 <= i < yaml_escaped(s).len() ==> #[trigger] yaml_escaped(s)[i] != '\n'
                && yaml_escaped(s)[i] != '\r',
    decreases s.len(),
{
    if s.len() > 0 {
        lemma_escaped_single_line(s.drop_last());
        let p = yaml_escaped(s.drop_last());
        let e = escape_char(s.last());
        assert forall|i: int| 0 <= i < (p + e).len() implies #[trigger] (p + e)[i] != '\n' && (p
            + e)[i] != '\r' by {
            if i >= p.len() {
                assert((p + e)[i] == e[i - p.len()]);
            } else {
                assert((p + e)[i] == p[i]);
            }
        }
    }
}

/// A character that the title escaping writes in backslash form.
pub open spec fn needs_escape(c: char) -> bool {
    c == '\\' || c == '"' || c == '\n' || c == '\r'
}

/// How many characters of `s` need a backslash form.
pub open spec fn escape_count(s: Seq<char>) -> nat
    decreases s.len(),
{
    if s.len() == 0 {
        0
    } else {
        escape_count(s.drop_last()) + if needs_escape(s.last()) {
            1nat
        } else {
            0nat
        }
    }
}

/// Read from the front, every backslash in `t` opens one of the escapes that a
/// YAML double-quoted scalar defines and this library writes: `\\`, `\"`,
/// `\n` or `\r`.
pub open spec fn only_defined_escapes(t: Seq<char>) -> bool
    decreases t.len(),
{
    if t.len() == 0 {
        true
    } else if t[0] == '\\' {
        t.len() >= 2 && (t[1] == '\\' || t[1] == '"' || t[1] == 'n' || t[1] == 'r')
            && only_defined_escapes(t.skip(2))
    } else {
        only_defined_escapes(t.skip(1))
    }
}

/// A title with no backslash, double quote, line feed or carriage return is
/// written as it is.
pub proof fn lemma_plain_title_unchanged(s: Seq<char>)
    requires
        forall|i: int| 0 <= i < s.len() ==> !needs_escape(#[trigger] s[i]),
    ensures
        yaml_escaped(s) == s,
    decreases s.len(),
{
    if s.len() > 0 {
        let p = s.drop_last();
        assert forall|i: int| 0 <= i < p.len() implies !needs_escape(#[trigger] p[i]) by {
            assert(p[i] == s[i]);
        }
        lemma_plain_title_unchanged(p);
        assert(!needs_escape(s[s.len() - 1]));
        assert(p + seq![s.last()] == s);
    }
}

/// Escaping adds exactly one character, a backslash, for each character that
/// needs a backslash form, and nothing else.
pub proof fn lemma_escaped_len(s: Seq<char>)
    ensures
        yaml_escaped(s).len() == s.len() + escape_count(s),
    decreases s.len(),
{
    if s.len() > 0 {
        lemma_escaped_len(s.drop_last());
    }
}

/// Every escape in an escaped title is one that YAML defines: `\\`, `\"`,
/// `\n` or `\r`.
pub proof fn lemma_escapes_defined(s: Seq<char>)
    ensures
        only_defined_escapes(yaml_escaped(s)),
    decreases s.len(),
{
    if s.len() > 0 {
        let c = s[0];
        let rest = s.drop_first();
        assert(seq![c] + rest == s);
        lemma_escaped_front(c, rest);
        lemma_escapes_defined(rest);
        let e = escape_char(c);
        let t = e + yaml_escaped(rest);
        if e.len() == 2 {
            assert(t.skip(2) == yaml_escaped(rest));
        } else {
            assert(t.skip(1) == yaml_escaped(rest));
        }
    }
}

/// Minimal YAML double-quoted-string escaping for the title field.
pub fn yaml_escape(s: &str) -> (r: String)
    ensures
        r@ == yaml_escaped(s@),
{
    let mut out = String::new();
    for c in it: s.chars()
        invariant
            it.seq() == s@,
            out@ == yaml_escaped(it.seq().take(it.index() as int)),
    {
        let ghost before = it.seq().take(it.index() as int);
        assert(it.seq().take(it.index() + 1).drop_last() == before);
        if c == '\\' {
            proof {
                reveal_strlit("\\\\");
            }
            push_str(&mut out, "\\\\");
        } else if c == '"' {
            proof {
                reveal_strlit("\\\"");
            }
            push_str(&mut out, "\\\"");
        } else if c == '\n' {
            proof {
                reveal_strlit("\\n");
            }
            push_str(&mut out, "\\n");
        } else if c == '\r' {
            proof {
                reveal_strlit("\\r");
            }
            push_str(&mut out, "\\r");
        } else {
            push_char(&mut out, c);
        }
    }
    assert(s@.take(s@.len() as int) == s@);
    out
}

} // verus!
