use vstd::prelude::*;

use vstd::string::StringSliceAdditionalSpecFns;
use vstd::string::StringExecFns;
use crate::show::{parse_error_text, usize_to_string, write_token};
use crate::text::{byte_chars, byte_to_char, char_is_alphabetic, is_letter, push_char};

verus! {

/// A token of GDB/MI output.
#[derive(Debug, PartialEq, Clone)]
pub enum GDBToken {
    Comma,
    OpenPb,
    ClosePb,
    OpenB,
    CloseB,
    Eq,
    Number(u64),
    Str(String),
}

/// The mathematical value of a token: strings are taken by their characters.
pub enum SpecToken {
    Comma,
    OpenPb,
    ClosePb,
    OpenB,
    CloseB,
    Eq,
    Number(u64),
    Str(Seq<char>),
}

impl DeepView for GDBToken {
    type V = SpecToken;

    open spec fn deep_view(&self) -> SpecToken {
        match self {
            GDBToken::Comma => SpecToken::Comma,
            GDBToken::OpenPb => SpecToken::OpenPb,
            GDBToken::ClosePb => SpecToken::ClosePb,
            GDBToken::OpenB => SpecToken::OpenB,
            GDBToken::CloseB => SpecToken::CloseB,
            GDBToken::Eq => SpecToken::Eq,
            GDBToken::Number(n) => SpecToken::Number(*n),
            GDBToken::Str(s) => SpecToken::Str(s@),
        }
    }
}

/// Characters that end a bare (unquoted) word without being part of it.
pub open spec fn is_word_stop(c: char) -> bool {
    c == '=' || c == ',' || c == ' '
}

/// Whether position `i` of a quoted string holds an escape: a backslash
/// followed by `"` or by another backslash, which stands for that character.
pub open spec fn is_escape(cs: Seq<char>, i: int) -> bool {
    0 <= i && i + 1 < cs.len() && cs[i] == '\\' && (cs[i + 1] == '"' || cs[i + 1] == '\\')
}

/// The characters of the word that starts at `i`: up to the end of input, a
/// closing `"`, or (for a bare word) a stop character. Within a quoted
/// string, an escaped `"` or backslash stands for itself.
pub open spec fn word(cs: Seq<char>, i: int, quoted: bool) -> Seq<char>
    decreases cs.len() - i,
{
    if i < 0 || i >= cs.len() {
        seq![]
    } else if !quoted && is_word_stop(cs[i]) {
        seq![]
    } else if quoted && is_escape(cs, i) {
        seq![cs[i + 1]] + word(cs, i + 2, quoted)
    } else if cs[i] == '"' {
        seq![]
    } else {
        seq![cs[i]] + word(cs, i + 1, quoted)
    }
}

/// Where reading resumes after the word that starts at `i`: a closing `"` is
/// consumed, a stop character is not.
pub open spec fn word_end(cs: Seq<char>, i: int, quoted: bool) -> int
    decreases cs.len() - i,
{
    if i < 0 || i >= cs.len() {
        i
    } else if !quoted && is_word_stop(cs[i]) {
        i
    } else if quoted && is_escape(cs, i) {
        word_end(cs, i + 2, quoted)
    } else if cs[i] == '"' {
        i + 1
    } else {
        word_end(cs, i + 1, quoted)
    }
}

pub proof fn lemma_word_end_bounds(cs: Seq<char>, i: int, quoted: bool)
    requires
        0 <= i,
    ensures
        i <= word_end(cs, i, quoted),
        i <= cs.len() ==> word_end(cs, i, quoted) <= cs.len(),
    decreases cs.len() - i,
{
    if i < cs.len() && !(!quoted && is_word_stop(cs[i])) {
        if quoted && is_escape(cs, i) {
            lemma_word_end_bounds(cs, i + 2, quoted);
        } else if cs[i] != '"' {
            lemma_word_end_bounds(cs, i + 1, quoted);
        }
    }
}

/// The tokens of `cs` from position `i` on; `ignore` is set while skipping
/// a line of console output (from `~` to the end of the line).
pub open spec fn tokens_from(cs: Seq<char>, i: int, ignore: bool) -> Seq<SpecToken>
    decreases cs.len() - i,
{
    if i < 0 || i >= cs.len() {
        seq![]
    } else {
        let c = cs[i];
        if ignore || c == '~' {
            tokens_from(cs, i + 1, c != '\n')
        } else if c == '[' {
            seq![SpecToken::OpenB] + tokens_from(cs, i + 1, false)
        } else if c == ']' {
            seq![SpecToken::CloseB] + tokens_from(cs, i + 1, false)
        } else if c == '{' {
            seq![SpecToken::OpenPb] + tokens_from(cs, i + 1, false)
        } else if c == '}' {
            seq![SpecToken::ClosePb] + tokens_from(cs, i + 1, false)
        } else if c == ',' {
            seq![SpecToken::Comma] + tokens_from(cs, i + 1, false)
        } else if c == '=' {
            seq![SpecToken::Eq] + tokens_from(cs, i + 1, false)
        } else if c == '"' {
            proof {
                lemma_word_end_bounds(cs, i + 1, true);
            }
            seq![SpecToken::Str(word(cs, i + 1, true))] + tokens_from(
                cs,
                word_end(cs, i + 1, true),
                false,
            )
        } else if is_letter(c) {
            proof {
                lemma_word_end_bounds(cs, i + 1, false);
            }
            seq![SpecToken::Str(seq![c] + word(cs, i + 1, false))] + tokens_from(
                cs,
                word_end(cs, i + 1, false),
                false,
            )
        } else {
            tokens_from(cs, i + 1, false)
        }
    }
}

/// The tokens of a GDB/MI line, given as characters: wrapped in an outer
/// `{` ... `}` so that the line reads as one record.
pub open spec fn spec_tokenize(cs: Seq<char>) -> Seq<SpecToken> {
    seq![SpecToken::OpenPb] + tokens_from(cs, 0, false) + seq![SpecToken::ClosePb]
}


/// Reads the word that starts at `pos`: a quoted string (after its opening
/// `"`) when `quoted` holds, else a bare word. Returns the string token and
/// the position after the word.
fn number_or_string(input: &[u8], pos: usize, quoted: bool) -> (res: (GDBToken, usize))
    requires
        pos <= input@.len(),
    ensures
        res.0.deep_view() == SpecToken::Str(word(byte_chars(input@), pos as int, quoted)),
        res.1 == word_end(byte_chars(input@), pos as int, quoted),
        pos <= res.1 <= input@.len(),
{
    let ghost cs = byte_chars(input@);
    let mut s = String::new();
    let mut i = pos;
    let len = input.len();
    while i < len
        invariant
            pos <= i <= len,
            len == input@.len(),
            cs == byte_chars(input@),
            word(cs, pos as int, quoted) == s@ + word(cs, i as int, quoted),
            word_end(cs, pos as int, quoted) == word_end(cs, i as int, quoted),
        decreases len - i,
    {
        let c = byte_to_char(input[i]);
        assert(cs[i as int] == c);
        if !quoted && (c == '=' || c == ',' || c == ' ') {
            return (GDBToken::Str(s), i);
        }
        if quoted && c == '\\' && i + 1 < len {
            let d = byte_to_char(input[i + 1]);
            assert(cs[i + 1] == d);
            if d == '"' || d == '\\' {
                assert(is_escape(cs, i as int));
                let ghost before = s@;
                push_char(&mut s, d);
                i = i + 2;
                assert(s@ + word(cs, i as int, quoted) =~= before + (seq![d] + word(cs, i as int, quoted)));
                continue;
            }
        }
        assert(!(quoted && is_escape(cs, i as int)));
        i = i + 1;
        if c == '"' {
            return (GDBToken::Str(s), i);
        }
        let ghost before = s@;
        push_char(&mut s, c);
        assert(s@ + word(cs, i as int, quoted) =~= before + (seq![c] + word(cs, i as int, quoted)));
    }
    proof {
        lemma_word_end_bounds(cs, pos as int, quoted);
    }
    assert(s@ + word(cs, i as int, quoted) =~= s@);
    (GDBToken::Str(s), i)
}

/// Splits a line of GDB/MI output into tokens. The line is read byte by
/// byte, each byte taken as a character; a console stream line (from `~` to
/// the end of the line) is skipped; bytes that start no token are dropped.
/// A quoted string runs to the next `"` that is not escaped: within it,
/// `\"` and `\\` stand for `"` and `\`. The tokens are wrapped in an outer
/// `{` ... `}`.
pub fn tokenize(input: &str) -> (tokens: Vec<GDBToken>)
    ensures
        tokens.deep_view() == spec_tokenize(byte_chars(input.spec_bytes())),
{
    let bytes = input.as_bytes();
    let ghost cs = byte_chars(bytes@);
    let mut tokens: Vec<GDBToken> = Vec::new();
    tokens.push(GDBToken::OpenPb);
    let mut ignore = false;
    let mut i: usize = 0;
    let len = bytes.len();
    assert(tokens.deep_view() =~= seq![SpecToken::OpenPb]);
    while i < len
        invariant
            i <= len,
            len == bytes@.len(),
            cs == byte_chars(bytes@),
            seq![SpecToken::OpenPb] + tokens_from(cs, 0, false) == tokens.deep_view()
                + tokens_from(cs, i as int, ignore),
        decreases len - i,
    {
        let ghost old_tokens = tokens.deep_view();
        let ghost old_i = i as int;
        let ghost old_ignore = ignore;
        let c = byte_to_char(bytes[i]);
        assert(cs[i as int] == c);
        i = i + 1;
        if c == '~' {
            ignore = true;
        }
        if ignore {
            if c == '\n' {
                ignore = false;
            }
            assert(tokens_from(cs, old_i, old_ignore) == tokens_from(cs, i as int, ignore));
        } else {
            let mut single: Option<GDBToken> = None;
            if c == '[' {
                single = Some(GDBToken::OpenB);
            } else if c == ']' {
                single = Some(GDBToken::CloseB);
            } else if c == '{' {
                single = Some(GDBToken::OpenPb);
            } else if c == '}' {
                single = Some(GDBToken::ClosePb);
            } else if c == ',' {
                single = Some(GDBToken::Comma);
            } else if c == '=' {
                single = Some(GDBToken::Eq);
            }
            match single {
                Some(t) => {
                    tokens.push(t);
                    assert(tokens.deep_view() =~= old_tokens + seq![t.deep_view()]);
                    assert(tokens_from(cs, old_i, old_ignore) == seq![t.deep_view()] + tokens_from(cs, i as int, false));
                    assert(tokens.deep_view() + tokens_from(cs, i as int, ignore) =~= old_tokens + tokens_from(cs, old_i, old_ignore));
                },
                None => {
                    if c == '"' {
                        let (t, next) = number_or_string(bytes, i, true);
                        tokens.push(t);
                        assert(tokens.deep_view() =~= old_tokens + seq![t.deep_view()]);
                        i = next;
                        assert(tokens.deep_view() + tokens_from(cs, i as int, ignore) =~= old_tokens + tokens_from(cs, old_i, old_ignore));
                    } else if char_is_alphabetic(c) {
                        assert(is_letter(c));
                        let (t, next) = number_or_string(bytes, i - 1, false);
                        assert(word(cs, old_i, false) =~= seq![c] + word(cs, i as int, false));
                        assert(word_end(cs, old_i, false) == word_end(cs, i as int, false));
                        tokens.push(t);
                        assert(tokens.deep_view() =~= old_tokens + seq![t.deep_view()]);
                        i = next;
                        assert(tokens.deep_view() + tokens_from(cs, i as int, ignore) =~= old_tokens + tokens_from(cs, old_i, old_ignore));
                    } else {
                        assert(!is_letter(c));
                        assert(tokens_from(cs, old_i, old_ignore) == tokens_from(cs, i as int, ignore));
                    }
                },
            }
        }
    }
    tokens.push(GDBToken::ClosePb);
    assert(tokens.deep_view() =~= spec_tokenize(cs));
    tokens
}


/// A value of GDB/MI output: a record of named values (a tuple), a list, or
/// a string. A record keeps its entries in the order their names first
/// appeared, each name once.
#[derive(Debug, PartialEq)]
pub enum GDBVal {
    Record(Vec<(String, GDBVal)>),
    List(Vec<GDBVal>),
    Number(u64),
    Str(String),
}

/// The mathematical value of a `GDBVal`.
pub enum SpecVal {
    Record(Seq<(Seq<char>, SpecVal)>),
    List(Seq<SpecVal>),
    Number(u64),
    Str(Seq<char>),
}

pub open spec fn val_model(v: GDBVal) -> SpecVal
    decreases v,
{
    match v {
        GDBVal::Record(m) => {
            proof {
                assert(decreases_to!(v => m));
                assert(decreases_to!(m => m@));
            }
            SpecVal::Record(entries_model(m@))
        },
        GDBVal::List(l) => {
            proof {
                assert(decreases_to!(v => l));
                assert(decreases_to!(l => l@));
            }
            SpecVal::List(vals_model(l@))
        },
        GDBVal::Number(n) => SpecVal::Number(n),
        GDBVal::Str(s) => SpecVal::Str(s@),
    }
}

pub open spec fn vals_model(s: Seq<GDBVal>) -> Seq<SpecVal>
    decreases s,
{
    if s.len() == 0 {
        seq![]
    } else {
        proof {
            assert(decreases_to!(s => s[s.len() - 1]));
            assert(decreases_to!(s => s.subrange(0, s.len() - 1)));
        }
        vals_model(s.subrange(0, s.len() - 1)).push(val_model(s[s.len() - 1]))
    }
}

pub open spec fn entries_model(s: Seq<(String, GDBVal)>) -> Seq<(Seq<char>, SpecVal)>
    decreases s,
{
    if s.len() == 0 {
        seq![]
    } else {
        let e = s[s.len() - 1];
        proof {
            assert(decreases_to!(s => s[s.len() - 1]));
            assert(decreases_to!(e => e.1));
            assert(decreases_to!(s => s.subrange(0, s.len() - 1)));
        }
        entries_model(s.subrange(0, s.len() - 1)).push((e.0@, val_model(e.1)))
    }
}

impl DeepView for GDBVal {
    type V = SpecVal;

    open spec fn deep_view(&self) -> SpecVal {
        val_model(*self)
    }
}


pub proof fn lemma_vals_model(s: Seq<GDBVal>)
    ensures
        vals_model(s).len() == s.len(),
        forall|i: int| 0 <= i < s.len() ==> #[trigger] vals_model(s)[i] == val_model(s[i]),
    decreases s.len(),
{
    if s.len() > 0 {
        lemma_vals_model(s.subrange(0, s.len() - 1));
        assert forall|i: int| 0 <= i < s.len() implies #[trigger] vals_model(s)[i] == val_model(s[i]) by {
            if i < s.len() - 1 {
                assert(s.subrange(0, s.len() - 1)[i] == s[i]);
            }
        }
    }
}

pub proof fn lemma_entries_model(s: Seq<(String, GDBVal)>)
    ensures
        entries_model(s).len() == s.len(),
        forall|i: int| 0 <= i < s.len() ==> #[trigger] entries_model(s)[i] == (s[i].0@, val_model(s[i].1)),
    decreases s.len(),
{
    if s.len() > 0 {
        lemma_entries_model(s.subrange(0, s.len() - 1));
        assert forall|i: int| 0 <= i < s.len() implies #[trigger] entries_model(s)[i] == (s[i].0@, val_model(s[i].1)) by {
            if i < s.len() - 1 {
                assert(s.subrange(0, s.len() - 1)[i] == s[i]);
            }
        }
    }
}

pub proof fn lemma_vals_model_push(s: Seq<GDBVal>, v: GDBVal)
    ensures
        vals_model(s.push(v)) == vals_model(s).push(val_model(v)),
{
    assert(s.push(v).subrange(0, s.len() as int) =~= s);
}

pub proof fn lemma_entries_model_push(s: Seq<(String, GDBVal)>, e: (String, GDBVal))
    ensures
        entries_model(s.push(e)) == entries_model(s).push((e.0@, val_model(e.1))),
{
    assert(s.push(e).subrange(0, s.len() as int) =~= s);
}

impl Clone for GDBVal {
    /// A deep copy.
    fn clone(&self) -> (res: Self)
        ensures
            res.deep_view() == self.deep_view(),
        decreases self,
    {
        match self {
            GDBVal::Record(m) => {
                let mut out: Vec<(String, GDBVal)> = Vec::new();
                let mut i: usize = 0;
                while i < m.len()
                    invariant
                        i <= m.len(),
                        *self == GDBVal::Record(*m),
                        entries_model(out@) == entries_model(m@.subrange(0, i as int)),
                    decreases m.len() - i,
                {
                    let k = m[i].0.clone();
                    assert(decreases_to!(*self => self->Record_0));
                    assert(decreases_to!(*m => m@));
                    assert(decreases_to!(m@ => m@[i as int]));
                    let v = m[i].1.clone();
                    proof {
                        lemma_entries_model_push(out@, (k, v));
                        lemma_entries_model_push(m@.subrange(0, i as int), m@[i as int]);
                        assert(m@.subrange(0, i + 1) =~= m@.subrange(0, i as int).push(m@[i as int]));
                    }
                    out.push((k, v));
                    i = i + 1;
                }
                assert(m@.subrange(0, m.len() as int) =~= m@);
                GDBVal::Record(out)
            },
            GDBVal::List(l) => {
                let mut out: Vec<GDBVal> = Vec::new();
                let mut i: usize = 0;
                while i < l.len()
                    invariant
                        i <= l.len(),
                        *self == GDBVal::List(*l),
                        vals_model(out@) == vals_model(l@.subrange(0, i as int)),
                    decreases l.len() - i,
                {
                    assert(decreases_to!(*self => self->List_0));
                    assert(decreases_to!(*l => l@));
                    assert(decreases_to!(l@ => l@[i as int]));
                    let v = l[i].clone();
                    proof {
                        lemma_vals_model_push(out@, v);
                        lemma_vals_model_push(l@.subrange(0, i as int), l@[i as int]);
                        assert(l@.subrange(0, i + 1) =~= l@.subrange(0, i as int).push(l@[i as int]));
                    }
                    out.push(v);
                    i = i + 1;
                }
                assert(l@.subrange(0, l.len() as int) =~= l@);
                GDBVal::List(out)
            },
            GDBVal::Number(n) => GDBVal::Number(*n),
            GDBVal::Str(s) => GDBVal::Str(s.clone()),
        }
    }
}


/// The outcome of parsing a value from a token sequence: the value and the
/// position after it; an error at a position, with the token that was
/// expected there and the one found; or no outcome at all, where the
/// parser has no rule for the token before it or runs past the last token.
pub enum ParseOutcome {
    Parsed(SpecVal, int),
    Failed(int, SpecToken, SpecToken),
    Stuck,
}

/// The entries of a record after binding `k` to `v`: an entry that has the
/// name already gets the new value in its place, else the entry is added
/// at the end.
pub open spec fn record_insert(
    entries: Seq<(Seq<char>, SpecVal)>,
    k: Seq<char>,
    v: SpecVal,
) -> Seq<(Seq<char>, SpecVal)> {
    if exists|i: int| 0 <= i < entries.len() && #[trigger] entries[i].0 == k {
        let i = choose|i: int| 0 <= i < entries.len() && #[trigger] entries[i].0 == k;
        entries.update(i, (k, v))
    } else {
        entries.push((k, v))
    }
}

/// No name occurs twice among the entries.
pub open spec fn distinct_names(entries: Seq<(Seq<char>, SpecVal)>) -> bool {
    forall|i: int, j: int|
        0 <= i < entries.len() && 0 <= j < entries.len() && i != j ==> #[trigger] entries[i].0
            != #[trigger] entries[j].0
}

/// Parses the value that starts at position `p`.
pub open spec fn parse_value(t: Seq<SpecToken>, p: int) -> ParseOutcome
    decreases t.len() - p, 0int,
{
    if p < 0 || p >= t.len() {
        ParseOutcome::Stuck
    } else {
        match t[p] {
            SpecToken::Str(s) => ParseOutcome::Parsed(SpecVal::Str(s), p + 1),
            SpecToken::OpenB => parse_list(t, p + 1, seq![]),
            SpecToken::OpenPb => parse_record(t, p + 1, seq![]),
            _ => ParseOutcome::Stuck,
        }
    }
}

/// Parses the rest of a list from position `p`, `acc` holding the items
/// read so far: items are separated by commas and the list ends at `]`.
pub open spec fn parse_list(t: Seq<SpecToken>, p: int, acc: Seq<SpecVal>) -> ParseOutcome
    decreases t.len() - p, 1int,
{
    if p < 0 || p >= t.len() {
        ParseOutcome::Stuck
    } else if t[p] == SpecToken::CloseB {
        ParseOutcome::Parsed(SpecVal::List(acc), p + 1)
    } else if acc.len() > 0 && t[p] != SpecToken::Comma {
        ParseOutcome::Failed(p, SpecToken::Comma, t[p])
    } else {
        let q = if acc.len() > 0 { p + 1 } else { p };
        match parse_value(t, q) {
            ParseOutcome::Parsed(v, r) => {
                if r <= p || r > t.len() {
                    ParseOutcome::Stuck
                } else {
                    parse_list(t, r, acc.push(v))
                }
            },
            other => other,
        }
    }
}

/// Parses the rest of a record from position `p`, `acc` holding the entries
/// read so far. An entry is a name, `=` and a value, optionally followed by
/// a comma; a name followed by `}` or `,` has no value and is dropped; the
/// record ends at the first token that is not a name, which must be `}`.
pub open spec fn parse_record(
    t: Seq<SpecToken>,
    p: int,
    acc: Seq<(Seq<char>, SpecVal)>,
) -> ParseOutcome
    decreases t.len() - p, 1int,
{
    if p < 0 || p >= t.len() {
        ParseOutcome::Stuck
    } else {
        match t[p] {
            SpecToken::Str(k) => {
                let p1 = p + 1;
                if p1 >= t.len() {
                    ParseOutcome::Stuck
                } else if t[p1] == SpecToken::ClosePb {
                    parse_record(t, p1, acc)
                } else if t[p1] == SpecToken::Comma {
                    parse_record(t, p1 + 1, acc)
                } else if t[p1] != SpecToken::Eq {
                    ParseOutcome::Failed(p1, SpecToken::Eq, t[p1])
                } else {
                    match parse_value(t, p1 + 1) {
                        ParseOutcome::Parsed(v, r) => {
                            if r <= p1 {
                                ParseOutcome::Stuck
                            } else {
                                let acc2 = record_insert(acc, k, v);
                                if r >= t.len() {
                                    ParseOutcome::Stuck
                                } else if t[r] == SpecToken::Comma {
                                    parse_record(t, r + 1, acc2)
                                } else {
                                    parse_record(t, r, acc2)
                                }
                            }
                        },
                        other => other,
                    }
                }
            },
            _ => {
                if t[p] == SpecToken::ClosePb {
                    ParseOutcome::Parsed(SpecVal::Record(acc), p + 1)
                } else {
                    ParseOutcome::Failed(p, SpecToken::ClosePb, t[p])
                }
            },
        }
    }
}


proof fn lemma_parse_value_advances(t: Seq<SpecToken>, p: int)
    ensures
        parse_value(t, p) matches ParseOutcome::Parsed(_, r) ==> p < r <= t.len(),
    decreases t.len() - p, 0int,
{
    if 0 <= p < t.len() {
        match t[p] {
            SpecToken::OpenB => lemma_parse_list_advances(t, p + 1, seq![]),
            SpecToken::OpenPb => lemma_parse_record_advances(t, p + 1, seq![]),
            _ => {},
        }
    }
}

proof fn lemma_parse_list_advances(t: Seq<SpecToken>, p: int, acc: Seq<SpecVal>)
    ensures
        parse_list(t, p, acc) matches ParseOutcome::Parsed(_, r) ==> p < r <= t.len(),
    decreases t.len() - p, 1int,
{
    if 0 <= p < t.len() && t[p] != SpecToken::CloseB && !(acc.len() > 0 && t[p]
        != SpecToken::Comma) {
        let q = if acc.len() > 0 { p + 1 } else { p };
        lemma_parse_value_advances(t, q);
        if let ParseOutcome::Parsed(v, r) = parse_value(t, q) {
            if !(r <= p || r > t.len()) {
                lemma_parse_list_advances(t, r, acc.push(v));
            }
        }
    }
}

proof fn lemma_parse_record_advances(t: Seq<SpecToken>, p: int, acc: Seq<(Seq<char>, SpecVal)>)
    ensures
        parse_record(t, p, acc) matches ParseOutcome::Parsed(_, r) ==> p < r <= t.len(),
    decreases t.len() - p, 1int,
{
    if 0 <= p < t.len() {
        if let SpecToken::Str(k) = t[p] {
            let p1 = p + 1;
            if p1 < t.len() {
                if t[p1] == SpecToken::ClosePb {
                    lemma_parse_record_advances(t, p1, acc);
                } else if t[p1] == SpecToken::Comma {
                    lemma_parse_record_advances(t, p1 + 1, acc);
                } else if t[p1] == SpecToken::Eq {
                    lemma_parse_value_advances(t, p1 + 1);
                    if let ParseOutcome::Parsed(v, r) = parse_value(t, p1 + 1) {
                        if r > p1 && r < t.len() {
                            let acc2 = record_insert(acc, k, v);
                            if t[r] == SpecToken::Comma {
                                lemma_parse_record_advances(t, r + 1, acc2);
                            } else {
                                lemma_parse_record_advances(t, r, acc2);
                            }
                        }
                    }
                }
            }
        }
    }
}

/// A parse error: at token `position`, the token `expected` was expected and
/// `found` was found.
#[derive(Debug, Clone)]
pub struct ParseError {
    pub position: usize,
    pub expected: GDBToken,
    pub found: GDBToken,
}

/// The result of parsing a value, in the three outcomes of `ParseOutcome`.
enum Step {
    Value(GDBVal),
    Failed(ParseError),
    Stuck,
}

/// Whether an executable parse result is the given outcome.
pub open spec fn result_is(res: Result<GDBVal, ParseError>, o: ParseOutcome) -> bool {
    match o {
        ParseOutcome::Parsed(v, _) => res matches Ok(x) && x.deep_view() == v,
        ParseOutcome::Failed(p, e, f) => res matches Err(err) && err.position == p
            && err.expected.deep_view() == e && err.found.deep_view() == f,
        ParseOutcome::Stuck => false,
    }
}

spec fn step_is(res: Step, o: ParseOutcome) -> bool {
    match o {
        ParseOutcome::Parsed(v, _) => res matches Step::Value(x) && x.deep_view() == v,
        ParseOutcome::Failed(p, e, f) => res matches Step::Failed(err) && err.position == p
            && err.expected.deep_view() == e && err.found.deep_view() == f,
        ParseOutcome::Stuck => res is Stuck,
    }
}

/// A copy of a token.
fn copy_token(t: &GDBToken) -> (res: GDBToken)
    ensures
        res.deep_view() == t.deep_view(),
{
    match t {
        GDBToken::Comma => GDBToken::Comma,
        GDBToken::OpenPb => GDBToken::OpenPb,
        GDBToken::ClosePb => GDBToken::ClosePb,
        GDBToken::OpenB => GDBToken::OpenB,
        GDBToken::CloseB => GDBToken::CloseB,
        GDBToken::Eq => GDBToken::Eq,
        GDBToken::Number(n) => GDBToken::Number(*n),
        GDBToken::Str(s) => GDBToken::Str(s.clone()),
    }
}

fn failure(tokens: &Vec<GDBToken>, pos: usize, expected: GDBToken) -> (res: Step)
    requires
        pos < tokens.len(),
    ensures
        res matches Step::Failed(err) && err.position == pos && err.expected.deep_view()
            == expected.deep_view() && err.found.deep_view() == tokens.deep_view()[pos as int],
{
    Step::Failed(ParseError { position: pos, expected, found: copy_token(&tokens[pos]) })
}

/// Binds `k` to `v` in the entries of a record (see `record_insert`).
fn insert_entry(entries: &mut Vec<(String, GDBVal)>, k: String, v: GDBVal)
    requires
        distinct_names(entries_model(old(entries)@)),
    ensures
        entries_model(final(entries)@) == record_insert(
            entries_model(old(entries)@),
            k@,
            v.deep_view(),
        ),
        distinct_names(entries_model(final(entries)@)),
{
    let ghost m = entries_model(entries@);
    proof {
        lemma_entries_model(entries@);
    }
    let mut i: usize = 0;
    while i < entries.len()
        invariant
            i <= entries.len(),
            entries@ == old(entries)@,
            m == entries_model(entries@),
            m.len() == entries@.len(),
            forall|j: int| 0 <= j < m.len() ==> #[trigger] m[j] == (entries@[j].0@, val_model(entries@[j].1)),
            distinct_names(m),
            forall|j: int| 0 <= j < i ==> #[trigger] m[j].0 != k@,
        decreases entries.len() - i,
    {
        if entries[i].0 == k {
            assert(m[i as int].0 == k@);
            let ghost m2 = m.update(i as int, (k@, v.deep_view()));
            proof {
                let j = choose|j: int| 0 <= j < m.len() && #[trigger] m[j].0 == k@;
                assert(j == i);
                assert(record_insert(m, k@, v.deep_view()) == m2);
            }
            entries.set(i, (k, v));
            proof {
                lemma_entries_model(entries@);
                assert(entries_model(entries@) =~= m2);
                assert forall|a: int, b: int|
                    0 <= a < m2.len() && 0 <= b < m2.len() && a != b implies #[trigger] m2[a].0
                    != #[trigger] m2[b].0 by {
                    assert(m[a].0 != m[b].0);
                }
            }
            return ;
        }
        i = i + 1;
    }
    proof {
        lemma_entries_model_push(entries@, (k, v));
    }
    let ghost kv = k@;
    entries.push((k, v));
    proof {
        let m2 = entries_model(entries@);
        assert(m2 == m.push((kv, v.deep_view())));
        assert forall|a: int, b: int|
            0 <= a < m2.len() && 0 <= b < m2.len() && a != b implies #[trigger] m2[a].0
            != #[trigger] m2[b].0 by {
            if a < m.len() && b < m.len() {
                assert(m[a].0 != m[b].0);
            } else if a < m.len() {
                assert(m[a].0 != kv);
            } else {
                assert(m[b].0 != kv);
            }
        }
    }
}


/// Parses the value that starts at `pos`; returns the outcome and the
/// position after the value.
fn parse_at(tokens: &Vec<GDBToken>, pos: usize) -> (res: (Step, usize))
    requires
        pos <= tokens.len(),
    ensures
        step_is(res.0, parse_value(tokens.deep_view(), pos as int)),
        parse_value(tokens.deep_view(), pos as int) matches ParseOutcome::Parsed(_, r) ==> r
            == res.1,
        parse_value(tokens.deep_view(), pos as int) matches ParseOutcome::Failed(e, _, _) ==> e
            == res.1,
        res.0 is Value ==> pos < res.1 <= tokens.len(),
    decreases tokens.len() - pos, 0int,
{
    let ghost td = tokens.deep_view();
    proof {
        lemma_parse_value_advances(td, pos as int);
    }
    if pos >= tokens.len() {
        return (Step::Stuck, pos);
    }
    match &tokens[pos] {
        GDBToken::Str(s) => (Step::Value(GDBVal::Str(s.clone())), pos + 1),
        GDBToken::OpenB => parse_list_at(tokens, pos + 1),
        GDBToken::OpenPb => parse_record_at(tokens, pos + 1),
        _ => (Step::Stuck, pos),
    }
}

/// Parses the rest of a list after its `[`.
fn parse_list_at(tokens: &Vec<GDBToken>, p: usize) -> (res: (Step, usize))
    requires
        p <= tokens.len(),
    ensures
        step_is(res.0, parse_list(tokens.deep_view(), p as int, seq![])),
        parse_list(tokens.deep_view(), p as int, seq![]) matches ParseOutcome::Parsed(_, r) ==> r
            == res.1,
        parse_list(tokens.deep_view(), p as int, seq![]) matches ParseOutcome::Failed(e, _, _) ==> e
            == res.1,
    decreases tokens.len() - p, 1int,
{
    let ghost td = tokens.deep_view();
    let mut acc: Vec<GDBVal> = Vec::new();
    let mut q = p;
    let len = tokens.len();
    assert(vals_model(acc@) =~= seq![]);
    loop
        invariant
            p <= q <= len,
            len == tokens.len(),
            td == tokens.deep_view(),
            parse_list(td, p as int, seq![]) == parse_list(td, q as int, vals_model(acc@)),
        decreases len - q,
    {
        proof {
            lemma_vals_model(acc@);
        }
        if q >= len {
            return (Step::Stuck, q);
        }
        let is_close = match &tokens[q] {
            GDBToken::CloseB => true,
            _ => false,
        };
        if is_close {
            return (Step::Value(GDBVal::List(acc)), q + 1);
        }
        let mut r = q;
        if acc.len() > 0 {
            let is_comma = match &tokens[q] {
                GDBToken::Comma => true,
                _ => false,
            };
            if !is_comma {
                return (failure(tokens, q, GDBToken::Comma), q);
            }
            r = q + 1;
        }
        let (st, next) = parse_at(tokens, r);
        match st {
            Step::Value(v) => {
                proof {
                    lemma_vals_model_push(acc@, v);
                }
                acc.push(v);
                q = next;
            },
            Step::Failed(e) => {
                return (Step::Failed(e), next);
            },
            Step::Stuck => {
                return (Step::Stuck, next);
            },
        }
    }
}

/// Parses the rest of a record after its `{`.
fn parse_record_at(tokens: &Vec<GDBToken>, p: usize) -> (res: (Step, usize))
    requires
        p <= tokens.len(),
    ensures
        step_is(res.0, parse_record(tokens.deep_view(), p as int, seq![])),
        parse_record(tokens.deep_view(), p as int, seq![]) matches ParseOutcome::Parsed(_, r) ==> r
            == res.1,
        parse_record(tokens.deep_view(), p as int, seq![]) matches ParseOutcome::Failed(e, _, _) ==> e
            == res.1,
    decreases tokens.len() - p, 1int,
{
    let ghost td = tokens.deep_view();
    let mut acc: Vec<(String, GDBVal)> = Vec::new();
    let mut q = p;
    let len = tokens.len();
    assert(entries_model(acc@) =~= seq![]);
    loop
        invariant
            p <= q <= len,
            len == tokens.len(),
            td == tokens.deep_view(),
            distinct_names(entries_model(acc@)),
            parse_record(td, p as int, seq![]) == parse_record(
                td,
                q as int,
                entries_model(acc@),
            ),
        decreases len - q,
    {
        if q >= len {
            return (Step::Stuck, q);
        }
        match &tokens[q] {
            GDBToken::Str(k) => {
                let key = k.clone();
                let p1 = q + 1;
                if p1 >= len {
                    return (Step::Stuck, p1);
                }
                match &tokens[p1] {
                    GDBToken::ClosePb => {
                        q = p1;
                    },
                    GDBToken::Comma => {
                        q = p1 + 1;
                    },
                    GDBToken::Eq => {
                        let (st, next) = parse_at(tokens, p1 + 1);
                        match st {
                            Step::Value(v) => {
                                insert_entry(&mut acc, key, v);
                                if next >= len {
                                    return (Step::Stuck, next);
                                }
                                let is_comma = match &tokens[next] {
                                    GDBToken::Comma => true,
                                    _ => false,
                                };
                                if is_comma {
                                    q = next + 1;
                                } else {
                                    q = next;
                                }
                            },
                            Step::Failed(e) => {
                                return (Step::Failed(e), next);
                            },
                            Step::Stuck => {
                                return (Step::Stuck, next);
                            },
                        }
                    },
                    _ => {
                        return (failure(tokens, p1, GDBToken::Eq), p1);
                    },
                }
            },
            GDBToken::ClosePb => {
                return (Step::Value(GDBVal::Record(acc)), q + 1);
            },
            _ => {
                return (failure(tokens, q, GDBToken::ClosePb), q);
            },
        }
    }
}


/// A recursive-descent parser over a token sequence, with the position of
/// the next token to read.
pub struct Parser {
    tokens: Vec<GDBToken>,
    cur: usize,
}

impl Parser {
    /// The tokens the parser reads.
    pub closed spec fn tokens_view(&self) -> Seq<SpecToken> {
        self.tokens.deep_view()
    }

    /// The position of the next token to read.
    pub closed spec fn position(&self) -> int {
        self.cur as int
    }

    /// A parser at the first of `tokens`.
    pub fn new(tokens: Vec<GDBToken>) -> (p: Parser)
        ensures
            p.tokens_view() == tokens.deep_view(),
            p.position() == 0,
    {
        Parser { tokens, cur: 0 }
    }

    /// Parses the value at the current position (a string, a list `[..]` or
    /// a record `{..}`) and moves past it; on an error, stays at the token
    /// where the error is. The tokens must not leave the parser without an
    /// outcome (no rule for a token where a value starts, or reading past
    /// the last token).
    pub fn parse(&mut self) -> (res: Result<GDBVal, ParseError>)
        requires
            !(parse_value(old(self).tokens_view(), old(self).position()) is Stuck),
        ensures
            final(self).tokens_view() == old(self).tokens_view(),
            result_is(res, parse_value(old(self).tokens_view(), old(self).position())),
            parse_value(old(self).tokens_view(), old(self).position()) matches ParseOutcome::Parsed(
                _,
                r,
            ) ==> final(self).position() == r,
            parse_value(old(self).tokens_view(), old(self).position()) matches ParseOutcome::Failed(
                e,
                _,
                _,
            ) ==> final(self).position() == e,
    {
        assert(self.tokens.deep_view().len() == self.tokens@.len());
        let (st, next) = parse_at(&self.tokens, self.cur);
        self.cur = next;
        match st {
            Step::Value(v) => Ok(v),
            Step::Failed(e) => Err(e),
            Step::Stuck => {
                proof {
                    assert(false);
                }
                Err(ParseError { position: next, expected: GDBToken::OpenPb, found: GDBToken::ClosePb })
            },
        }
    }
}

/// The outcome of parsing a line of GDB/MI output, given as characters.
pub open spec fn spec_parse(cs: Seq<char>) -> ParseOutcome {
    parse_value(spec_tokenize(cs), 0)
}

/// Parses a line of GDB/MI output (as a record). The line must not leave the
/// parser without an outcome (see `Parser::parse`); `try_parse` checks that.
pub fn parse(str: &str) -> (res: Result<GDBVal, ParseError>)
    requires
        !(spec_parse(byte_chars(str.spec_bytes())) is Stuck),
    ensures
        result_is(res, spec_parse(byte_chars(str.spec_bytes()))),
{
    let tokens = tokenize(str);
    let mut p = Parser::new(tokens);
    p.parse()
}

/// Parses a line of GDB/MI output as `parse` does; `None` where the line
/// leaves the parser without an outcome.
pub fn try_parse(str: &str) -> (res: Option<Result<GDBVal, ParseError>>)
    ensures
        res is None <==> spec_parse(byte_chars(str.spec_bytes())) is Stuck,
        res matches Some(r) ==> result_is(r, spec_parse(byte_chars(str.spec_bytes()))),
{
    let tokens = tokenize(str);
    let (st, _) = parse_at(&tokens, 0);
    match st {
        Step::Stuck => None,
        _ => Some(parse(str)),
    }
}


/// Whether a token can come out of the tokenizer: any token but a number.
pub open spec fn tokenizer_token(t: SpecToken) -> bool {
    !(t is Number)
}

proof fn lemma_tokens_from_kinds(cs: Seq<char>, i: int, ignore: bool)
    ensures
        forall|k: int|
            0 <= k < tokens_from(cs, i, ignore).len() ==> tokenizer_token(
                #[trigger] tokens_from(cs, i, ignore)[k],
            ),
    decreases cs.len() - i,
{
    if 0 <= i < cs.len() {
        let c = cs[i];
        let ts = tokens_from(cs, i, ignore);
        if ignore || c == '~' {
            lemma_tokens_from_kinds(cs, i + 1, c != '\n');
            assert(ts == tokens_from(cs, i + 1, c != '\n'));
        } else if c == '"' {
            lemma_word_end_bounds(cs, i + 1, true);
            lemma_tokens_from_kinds(cs, word_end(cs, i + 1, true), false);
            let rest = tokens_from(cs, word_end(cs, i + 1, true), false);
            assert(ts == seq![SpecToken::Str(word(cs, i + 1, true))] + rest);
            assert(tokenizer_token(ts[0]));
            assert forall|k: int| 0 <= k < ts.len() implies tokenizer_token(#[trigger] ts[k]) by {
                if k > 0 {
                    assert(ts[k] == rest[k - 1]);
                }
            }
        } else if c == '[' || c == ']' || c == '{' || c == '}' || c == ',' || c == '=' {
            lemma_tokens_from_kinds(cs, i + 1, false);
            let rest = tokens_from(cs, i + 1, false);
            assert(ts.len() == rest.len() + 1);
            assert(tokenizer_token(ts[0]));
            assert forall|k: int| 0 <= k < ts.len() implies tokenizer_token(#[trigger] ts[k]) by {
                if k > 0 {
                    assert(ts[k] == rest[k - 1]);
                }
            }
        } else if is_letter(c) {
            lemma_word_end_bounds(cs, i + 1, false);
            lemma_tokens_from_kinds(cs, word_end(cs, i + 1, false), false);
            let rest = tokens_from(cs, word_end(cs, i + 1, false), false);
            assert(ts == seq![SpecToken::Str(seq![c] + word(cs, i + 1, false))] + rest);
            assert(tokenizer_token(ts[0]));
            assert forall|k: int| 0 <= k < ts.len() implies tokenizer_token(#[trigger] ts[k]) by {
                if k > 0 {
                    assert(ts[k] == rest[k - 1]);
                }
            }
        } else {
            lemma_tokens_from_kinds(cs, i + 1, false);
            assert(ts == tokens_from(cs, i + 1, false));
        }
    }
}

/// The tokens of a line open with `{` and close with `}`; between them
/// there is no number.
pub proof fn law_tokenize_shape(cs: Seq<char>)
    ensures
        spec_tokenize(cs).len() >= 2,
        spec_tokenize(cs)[0] == SpecToken::OpenPb,
        spec_tokenize(cs).last() == SpecToken::ClosePb,
        forall|k: int|
            0 <= k < spec_tokenize(cs).len() ==> tokenizer_token(#[trigger] spec_tokenize(cs)[k]),
{
    lemma_tokens_from_kinds(cs, 0, false);
    let mid = tokens_from(cs, 0, false);
    let t = spec_tokenize(cs);
    assert forall|k: int| 0 <= k < t.len() implies tokenizer_token(#[trigger] t[k]) by {
        if 0 < k < t.len() - 1 {
            assert(t[k] == mid[k - 1]);
        }
    }
}


/// Every record within the value, at any depth, has each name once.
pub open spec fn well_formed_val(v: SpecVal) -> bool
    decreases v,
{
    match v {
        SpecVal::Record(es) => {
            proof {
                assert(decreases_to!(v => es));
            }
            distinct_names(es) && well_formed_entries(es)
        },
        SpecVal::List(l) => {
            proof {
                assert(decreases_to!(v => l));
            }
            well_formed_list(l)
        },
        _ => true,
    }
}

pub open spec fn well_formed_list(l: Seq<SpecVal>) -> bool
    decreases l,
{
    if l.len() == 0 {
        true
    } else {
        proof {
            assert(decreases_to!(l => l[l.len() - 1]));
            assert(decreases_to!(l => l.subrange(0, l.len() - 1)));
        }
        well_formed_list(l.subrange(0, l.len() - 1)) && well_formed_val(l[l.len() - 1])
    }
}

pub open spec fn well_formed_entries(es: Seq<(Seq<char>, SpecVal)>) -> bool
    decreases es,
{
    if es.len() == 0 {
        true
    } else {
        let e = es[es.len() - 1];
        proof {
            assert(decreases_to!(es => es[es.len() - 1]));
            assert(decreases_to!(e => e.1));
            assert(decreases_to!(es => es.subrange(0, es.len() - 1)));
        }
        well_formed_entries(es.subrange(0, es.len() - 1)) && well_formed_val(e.1)
    }
}

proof fn lemma_well_formed_list(l: Seq<SpecVal>)
    ensures
        well_formed_list(l) <==> forall|i: int| 0 <= i < l.len() ==> #[trigger] well_formed_val(l[i]),
    decreases l.len(),
{
    if l.len() > 0 {
        let pre = l.subrange(0, l.len() - 1);
        lemma_well_formed_list(pre);
        if forall|i: int| 0 <= i < l.len() ==> #[trigger] well_formed_val(l[i]) {
            assert forall|i: int| 0 <= i < pre.len() implies #[trigger] well_formed_val(pre[i]) by {
                assert(pre[i] == l[i]);
            }
            assert(well_formed_val(l[l.len() - 1]));
            assert(well_formed_list(l));
        }
        if well_formed_list(l) {
            assert forall|i: int| 0 <= i < l.len() implies #[trigger] well_formed_val(l[i]) by {
                if i < l.len() - 1 {
                    assert(pre[i] == l[i]);
                }
            }
        }
    }
}

proof fn lemma_well_formed_entries(es: Seq<(Seq<char>, SpecVal)>)
    ensures
        well_formed_entries(es) <==> forall|i: int|
            0 <= i < es.len() ==> #[trigger] well_formed_val(es[i].1),
    decreases es.len(),
{
    if es.len() > 0 {
        let pre = es.subrange(0, es.len() - 1);
        lemma_well_formed_entries(pre);
        if forall|i: int| 0 <= i < es.len() ==> #[trigger] well_formed_val(es[i].1) {
            assert forall|i: int| 0 <= i < pre.len() implies #[trigger] well_formed_val(
                pre[i].1,
            ) by {
                assert(pre[i] == es[i]);
            }
            assert(well_formed_val(es[es.len() - 1].1));
            assert(well_formed_entries(es));
        }
        if well_formed_entries(es) {
            assert forall|i: int| 0 <= i < es.len() implies #[trigger] well_formed_val(es[i].1) by {
                if i < es.len() - 1 {
                    assert(pre[i] == es[i]);
                }
            }
        }
    }
}

proof fn lemma_record_insert_wf(es: Seq<(Seq<char>, SpecVal)>, k: Seq<char>, v: SpecVal)
    requires
        distinct_names(es),
        forall|i: int| 0 <= i < es.len() ==> #[trigger] well_formed_val(es[i].1),
        well_formed_val(v),
    ensures
        distinct_names(record_insert(es, k, v)),
        forall|i: int|
            0 <= i < record_insert(es, k, v).len() ==> #[trigger] well_formed_val(
                record_insert(es, k, v)[i].1,
            ),
{
    let r = record_insert(es, k, v);
    if exists|i: int| 0 <= i < es.len() && #[trigger] es[i].0 == k {
        let j = choose|i: int| 0 <= i < es.len() && #[trigger] es[i].0 == k;
        assert(r == es.update(j, (k, v)));
        assert forall|a: int, b: int|
            0 <= a < r.len() && 0 <= b < r.len() && a != b implies #[trigger] r[a].0
            != #[trigger] r[b].0 by {
            assert(es[a].0 != es[b].0);
        }
    } else {
        assert(r == es.push((k, v)));
        assert forall|a: int, b: int|
            0 <= a < r.len() && 0 <= b < r.len() && a != b implies #[trigger] r[a].0
            != #[trigger] r[b].0 by {
            if a < es.len() && b < es.len() {
                assert(es[a].0 != es[b].0);
            } else if a < es.len() {
                assert(es[a].0 != k);
            } else {
                assert(es[b].0 != k);
            }
        }
    }
}

proof fn lemma_parse_value_wf(t: Seq<SpecToken>, p: int)
    ensures
        parse_value(t, p) matches ParseOutcome::Parsed(v, _) ==> well_formed_val(v),
    decreases t.len() - p, 0int,
{
    if 0 <= p < t.len() {
        match t[p] {
            SpecToken::OpenB => lemma_parse_list_wf(t, p + 1, seq![]),
            SpecToken::OpenPb => lemma_parse_record_wf(t, p + 1, seq![]),
            _ => {},
        }
    }
}

proof fn lemma_parse_list_wf(t: Seq<SpecToken>, p: int, acc: Seq<SpecVal>)
    requires
        forall|i: int| 0 <= i < acc.len() ==> #[trigger] well_formed_val(acc[i]),
    ensures
        parse_list(t, p, acc) matches ParseOutcome::Parsed(v, _) ==> well_formed_val(v),
    decreases t.len() - p, 1int,
{
    if 0 <= p < t.len() && t[p] == SpecToken::CloseB {
        lemma_well_formed_list(acc);
        assert(well_formed_val(SpecVal::List(acc)));
    }
    if 0 <= p < t.len() && t[p] != SpecToken::CloseB && !(acc.len() > 0 && t[p]
        != SpecToken::Comma) {
        let q = if acc.len() > 0 { p + 1 } else { p };
        lemma_parse_value_wf(t, q);
        if let ParseOutcome::Parsed(v, r) = parse_value(t, q) {
            if !(r <= p || r > t.len()) {
                let acc2 = acc.push(v);
                assert forall|i: int| 0 <= i < acc2.len() implies #[trigger] well_formed_val(
                    acc2[i],
                ) by {
                    if i < acc.len() {
                        assert(acc2[i] == acc[i]);
                    }
                }
                lemma_parse_list_wf(t, r, acc2);
            }
        }
    }
}

proof fn lemma_parse_record_wf(t: Seq<SpecToken>, p: int, acc: Seq<(Seq<char>, SpecVal)>)
    requires
        distinct_names(acc),
        forall|i: int| 0 <= i < acc.len() ==> #[trigger] well_formed_val(acc[i].1),
    ensures
        parse_record(t, p, acc) matches ParseOutcome::Parsed(v, _) ==> well_formed_val(v)
            && v is Record,
    decreases t.len() - p, 1int,
{
    if 0 <= p < t.len() {
        if t[p] == SpecToken::ClosePb {
            lemma_well_formed_entries(acc);
            assert(well_formed_val(SpecVal::Record(acc)));
        }
        if let SpecToken::Str(k) = t[p] {
            let p1 = p + 1;
            if p1 < t.len() {
                if t[p1] == SpecToken::ClosePb {
                    lemma_parse_record_wf(t, p1, acc);
                } else if t[p1] == SpecToken::Comma {
                    lemma_parse_record_wf(t, p1 + 1, acc);
                } else if t[p1] == SpecToken::Eq {
                    lemma_parse_value_wf(t, p1 + 1);
                    if let ParseOutcome::Parsed(v, r) = parse_value(t, p1 + 1) {
                        if r > p1 && r < t.len() {
                            lemma_record_insert_wf(acc, k, v);
                            let acc2 = record_insert(acc, k, v);
                            if t[r] == SpecToken::Comma {
                                lemma_parse_record_wf(t, r + 1, acc2);
                            } else {
                                lemma_parse_record_wf(t, r, acc2);
                            }
                        }
                    }
                }
            }
        }
    }
}

/// A value parsed from any token sequence has, in every record at any
/// depth, each name once; and parsing consumes at least one token and ends
/// within the sequence.
pub proof fn law_parsed_values_well_formed(t: Seq<SpecToken>, p: int)
    ensures
        parse_value(t, p) matches ParseOutcome::Parsed(v, r) ==> well_formed_val(v) && p < r
            <= t.len(),
{
    lemma_parse_value_wf(t, p);
    lemma_parse_value_advances(t, p);
}

/// Whether a value can start at position `p`: a string, `[` or `{`.
pub open spec fn starts_value(t: Seq<SpecToken>, p: int) -> bool {
    0 <= p < t.len() && (t[p] is Str || t[p] is OpenB || t[p] is OpenPb)
}

/// A value starts with a string, `[` or `{`: where none does (past the last
/// token too) the parser has no outcome; so it is for the first item of a
/// list, for an item after a comma, and for the value after a name and `=`.
pub proof fn law_value_must_start(t: Seq<SpecToken>, p: int, items: Seq<SpecVal>, entries: Seq<(Seq<char>, SpecVal)>)
    requires
        0 <= p,
    ensures
        !starts_value(t, p) ==> parse_value(t, p) is Stuck,
        p < t.len() && t[p] != SpecToken::CloseB && !starts_value(t, p) ==> parse_list(
            t,
            p,
            seq![],
        ) is Stuck,
        items.len() > 0 && p + 1 < t.len() && t[p] == SpecToken::Comma && !starts_value(t, p + 1)
            ==> parse_list(t, p, items) is Stuck,
        p + 1 < t.len() && t[p] is Str && t[p + 1] == SpecToken::Eq && !starts_value(t, p + 2)
            ==> parse_record(t, p, entries) is Stuck,
{
    if items.len() > 0 && p + 1 < t.len() && t[p] == SpecToken::Comma && !starts_value(t, p + 1) {
        assert(parse_value(t, p + 1) is Stuck);
    }
    if p + 1 < t.len() && t[p] is Str && t[p + 1] == SpecToken::Eq && !starts_value(t, p + 2) {
        assert(parse_value(t, p + 2) is Stuck);
    }
}

/// Binding a name in a record's entries: the name then has exactly the new
/// value, each other entry stays where and as it was, a new name is added
/// at the end, and no name occurs twice.
pub proof fn law_record_binding(es: Seq<(Seq<char>, SpecVal)>, k: Seq<char>, v: SpecVal)
    requires
        distinct_names(es),
    ensures
        distinct_names(record_insert(es, k, v)),
        exists|j: int|
            0 <= j < record_insert(es, k, v).len() && #[trigger] record_insert(es, k, v)[j] == (k, v),
        forall|j: int|
            0 <= j < record_insert(es, k, v).len() && #[trigger] record_insert(es, k, v)[j].0 == k
                ==> record_insert(es, k, v)[j].1 == v,
        forall|j: int| 0 <= j < es.len() && es[j].0 != k ==> #[trigger] record_insert(es, k, v)[j] == es[j],
        record_insert(es, k, v).len() == es.len() + (if exists|j: int| 0 <= j < es.len() && #[trigger] es[j].0 == k {
            0int
        } else {
            1int
        }),
{
    let r = record_insert(es, k, v);
    if exists|i: int| 0 <= i < es.len() && #[trigger] es[i].0 == k {
        let j = choose|i: int| 0 <= i < es.len() && #[trigger] es[i].0 == k;
        assert(r == es.update(j, (k, v)));
        assert(r[j] == (k, v));
        assert forall|a: int, b: int|
            0 <= a < r.len() && 0 <= b < r.len() && a != b implies #[trigger] r[a].0
            != #[trigger] r[b].0 by {
            assert(es[a].0 != es[b].0);
        }
        assert forall|a: int| 0 <= a < r.len() && #[trigger] r[a].0 == k implies r[a].1 == v by {
            if a != j {
                assert(es[a].0 != es[j].0);
            }
        }
    } else {
        assert(r == es.push((k, v)));
        assert(r[es.len() as int] == (k, v));
        assert forall|a: int, b: int|
            0 <= a < r.len() && 0 <= b < r.len() && a != b implies #[trigger] r[a].0
            != #[trigger] r[b].0 by {
            if a < es.len() && b < es.len() {
                assert(es[a].0 != es[b].0);
            }
        }
    }
}

/// In a record, a name followed directly by `}` has no value and is
/// skipped: the record closes there, with the entries read so far (as after
/// GDB's `(gdb)` prompt or a bare `^done`); a name followed directly by a
/// comma is skipped too.
pub proof fn law_name_without_value_is_skipped(t: Seq<SpecToken>, p: int, acc: Seq<(Seq<char>, SpecVal)>)
    requires
        0 <= p,
        p + 1 < t.len(),
        t[p] is Str,
    ensures
        t[p + 1] == SpecToken::ClosePb ==> parse_record(t, p, acc) == parse_record(t, p + 1, acc)
            && parse_record(t, p, acc) == ParseOutcome::Parsed(SpecVal::Record(acc), p + 2),
        t[p + 1] == SpecToken::Comma ==> parse_record(t, p, acc) == parse_record(t, p + 2, acc),
{
}

/// What a line of GDB/MI output parses to is a record: the tokenizer wraps
/// every line in `{` ... `}`.
pub proof fn law_line_parses_to_record(cs: Seq<char>)
    ensures
        spec_parse(cs) matches ParseOutcome::Parsed(v, _) ==> v is Record && well_formed_val(v),
{
    law_tokenize_shape(cs);
    lemma_parse_record_wf(spec_tokenize(cs), 1, seq![]);
}


impl ParseError {
    /// The message: where, what was expected and what was found.
    pub fn cause(&self) -> (r: String)
        ensures
            r@ == parse_error_text(self.position, self.expected.deep_view(), self.found.deep_view()),
    {
        let mut out = String::new();
        out.append("[token ");
        let p = usize_to_string(self.position);
        out.append(p.as_str());
        out.append("]: Expected ");
        write_token(&self.expected, &mut out);
        out.append(", found ");
        write_token(&self.found, &mut out);
        out
    }
}

} // verus!
