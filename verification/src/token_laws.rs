use vstd::prelude::*;

use crate::parser::{
    SpecToken, is_escape, is_word_stop, lemma_word_end_bounds, spec_tokenize, tokens_from, word,
    word_end,
};
use crate::text::is_letter;

verus! {

/// A word read after `pre` is the word read at the same place without it.
proof fn lemma_word_shift(pre: Seq<char>, cs: Seq<char>, i: int, quoted: bool)
    requires
        0 <= i,
    ensures
        word(pre + cs, pre.len() + i, quoted) == word(cs, i, quoted),
        word_end(pre + cs, pre.len() + i, quoted) == pre.len() + word_end(cs, i, quoted),
    decreases cs.len() - i,
{
    let x = pre + cs;
    let j = pre.len() + i;
    if i < cs.len() {
        assert(x[j] == cs[i]);
        if i + 1 < cs.len() {
            assert(x[j + 1] == cs[i + 1]);
        }
        assert(is_escape(x, j) == is_escape(cs, i));
        if !(!quoted && is_word_stop(cs[i])) {
            if quoted && is_escape(cs, i) {
                lemma_word_shift(pre, cs, i + 2, quoted);
            } else if cs[i] != '"' {
                lemma_word_shift(pre, cs, i + 1, quoted);
            }
        }
    }
}

/// The tokens read after `pre`, from a place where `pre` has no say, are
/// those read at the same place without it.
proof fn lemma_tokens_shift(pre: Seq<char>, cs: Seq<char>, i: int, ignore: bool)
    requires
        0 <= i,
    ensures
        tokens_from(pre + cs, pre.len() + i, ignore) == tokens_from(cs, i, ignore),
    decreases cs.len() - i,
{
    let x = pre + cs;
    let j = pre.len() + i;
    if i < cs.len() {
        let c = cs[i];
        assert(x[j] == c);
        if ignore || c == '~' {
            lemma_tokens_shift(pre, cs, i + 1, c != '\n');
        } else if c == '"' {
            lemma_word_shift(pre, cs, i + 1, true);
            lemma_word_end_bounds(cs, i + 1, true);
            lemma_tokens_shift(pre, cs, word_end(cs, i + 1, true), false);
        } else if is_letter(c) {
            lemma_word_shift(pre, cs, i + 1, false);
            lemma_word_end_bounds(cs, i + 1, false);
            lemma_tokens_shift(pre, cs, word_end(cs, i + 1, false), false);
        } else {
            lemma_tokens_shift(pre, cs, i + 1, false);
        }
    }
}

/// While skipping a console line, the characters up to its line break add
/// no tokens.
proof fn lemma_skip_line(x: Seq<char>, j: int, end: int)
    requires
        0 <= j <= end < x.len(),
        x[end] == '\n',
        forall|m: int| j <= m < end ==> x[m] != '\n',
    ensures
        tokens_from(x, j, true) == tokens_from(x, end + 1, false),
    decreases end - j,
{
    if j < end {
        lemma_skip_line(x, j + 1, end);
    }
}

/// A console stream line (`~`, then text without a line break, then the
/// line break) before a line adds no tokens to it.
pub proof fn law_console_line_skipped(t: Seq<char>, s: Seq<char>)
    requires
        !t.contains('\n'),
    ensures
        spec_tokenize(seq!['~'] + t + seq!['\n'] + s) == spec_tokenize(s),
{
    let pre = seq!['~'] + t + seq!['\n'];
    let x = pre + s;
    assert(seq!['~'] + t + seq!['\n'] + s == x);
    let end: int = t.len() as int + 1;
    assert(x[0] == '~');
    assert(x[end] == '\n');
    assert forall|m: int| 1 <= m < end implies x[m] != '\n' by {
        assert(x[m] == t[m - 1]);
    }
    lemma_skip_line(x, 1, end);
    lemma_tokens_shift(pre, s, 0, false);
    assert(tokens_from(x, 0, false) == tokens_from(x, 1, true));
}

/// A word that runs over characters that do not end it, up to one that
/// does (or the end of input), is those characters.
proof fn lemma_plain_word(cs: Seq<char>, i: int, j: int, quoted: bool)
    requires
        0 <= i <= j <= cs.len(),
        forall|m: int|
            i <= m < j ==> #[trigger] cs[m] != '"' && (quoted ==> cs[m] != '\\') && !(!quoted
                && is_word_stop(cs[m])),
        j < cs.len() ==> cs[j] == '"' || (!quoted && is_word_stop(cs[j])),
    ensures
        word(cs, i, quoted) == cs.subrange(i, j),
        word_end(cs, i, quoted) == (if j < cs.len() && cs[j] == '"' {
            j + 1
        } else {
            j
        }),
    decreases j - i,
{
    if i < j {
        assert(cs[i] != '"');
        lemma_plain_word(cs, i + 1, j, quoted);
        assert(cs.subrange(i, j) =~= seq![cs[i]] + cs.subrange(i + 1, j));
    } else {
        assert(cs.subrange(i, j) =~= Seq::<char>::empty());
    }
}

/// A line `name="value"` reads as one record with one entry, where the name
/// starts with a letter and holds no stop character and no `"`, and the
/// value holds no `"` and no backslash.
pub proof fn law_key_value_line(k: Seq<char>, v: Seq<char>)
    requires
        k.len() > 0,
        is_letter(k[0]),
        forall|m: int| 0 <= m < k.len() ==> #[trigger] k[m] != '"' && !is_word_stop(k[m]),
        forall|m: int| 0 <= m < v.len() ==> #[trigger] v[m] != '"' && v[m] != '\\',
    ensures
        spec_tokenize(k + seq!['='] + seq!['"'] + v + seq!['"']) == seq![
            SpecToken::OpenPb,
            SpecToken::Str(k),
            SpecToken::Eq,
            SpecToken::Str(v),
            SpecToken::ClosePb,
        ],
{
    let x = k + seq!['='] + seq!['"'] + v + seq!['"'];
    let n: int = k.len() as int;
    let vl: int = v.len() as int;
    assert forall|m: int| 1 <= m < n implies #[trigger] x[m] != '"' && !is_word_stop(x[m]) by {
        assert(x[m] == k[m]);
    }
    assert(x[0] == k[0]);
    assert(x[n] == '=');
    assert(x[n + 1] == '"');
    assert forall|m: int| n + 2 <= m < n + 2 + vl implies #[trigger] x[m] != '"' && x[m]
        != '\\' by {
        assert(x[m] == v[m - n - 2]);
    }
    assert(x[n + 2 + vl] == '"');
    assert(x.len() == n + 3 + vl);
    assert(!(k[0] == '~' || k[0] == '"' || k[0] == '[' || k[0] == ']' || k[0] == '{' || k[0]
        == '}' || k[0] == ',' || k[0] == '=')) by {
        assert(!is_word_stop(k[0]));
    }
    lemma_plain_word(x, 1, n, false);
    assert(seq![x[0]] + x.subrange(1, n) =~= k);
    lemma_plain_word(x, n + 2, n + 2 + vl, true);
    assert(x.subrange(n + 2, n + 2 + vl) =~= v);
    assert(tokens_from(x, n + 3 + vl, false) == Seq::<SpecToken>::empty());
    assert(tokens_from(x, n + 1, false) == seq![SpecToken::Str(v)]);
    assert(tokens_from(x, n, false) == seq![SpecToken::Eq] + seq![SpecToken::Str(v)]);
    assert(tokens_from(x, 0, false) == seq![SpecToken::Str(k)] + tokens_from(x, n, false));
}

/// Within a prefix that holds no `"` and ends with a stop character, a
/// bare word ends before the prefix does, whatever follows it.
proof fn lemma_word_within(a: Seq<char>, b: Seq<char>, j: int)
    requires
        0 <= j < a.len(),
        forall|m: int| 0 <= m < a.len() ==> #[trigger] a[m] != '"',
        is_word_stop(a.last()),
    ensures
        word(a + b, j, false) == word(a, j, false),
        word_end(a + b, j, false) == word_end(a, j, false),
        word_end(a, j, false) < a.len(),
    decreases a.len() - j,
{
    let x = a + b;
    assert(x[j] == a[j]);
    if !is_word_stop(a[j]) {
        assert(j + 1 < a.len());
        lemma_word_within(a, b, j + 1);
    }
}

/// The tokens of `a + b` from a place within `a` are those of `a` from
/// there, then those of `a + b` from the end of `a`.
proof fn lemma_tokens_split(a: Seq<char>, b: Seq<char>, i: int)
    requires
        0 <= i <= a.len(),
        a.len() > 0,
        forall|m: int| 0 <= m < a.len() ==> #[trigger] a[m] != '"' && a[m] != '~',
        is_word_stop(a.last()),
    ensures
        tokens_from(a + b, i, false) == tokens_from(a, i, false) + tokens_from(
            a + b,
            a.len() as int,
            false,
        ),
    decreases a.len() - i,
{
    let x = a + b;
    if i < a.len() {
        let c = a[i];
        assert(x[i] == c);
        let rest = tokens_from(x, a.len() as int, false);
        if c == '[' || c == ']' || c == '{' || c == '}' || c == ',' || c == '=' {
            lemma_tokens_split(a, b, i + 1);
            let t0 = tokens_from(x, i, false);
            assert(t0 == seq![t0[0]] + tokens_from(x, i + 1, false));
            assert(tokens_from(a, i, false) == seq![t0[0]] + tokens_from(a, i + 1, false));
        } else if is_letter(c) {
            assert(i + 1 < a.len()) by {
                if i + 1 == a.len() {
                    assert(c == a.last());
                }
            }
            lemma_word_within(a, b, i + 1);
            let e = word_end(a, i + 1, false);
            lemma_word_end_bounds(a, i + 1, false);
            lemma_tokens_split(a, b, e);
            let tk = SpecToken::Str(seq![c] + word(a, i + 1, false));
            assert(tokens_from(x, i, false) == seq![tk] + tokens_from(x, e, false));
            assert(tokens_from(a, i, false) == seq![tk] + tokens_from(a, e, false));
        } else {
            lemma_tokens_split(a, b, i + 1);
        }
    } else {
        assert(tokens_from(a, i, false) == Seq::<SpecToken>::empty());
    }
}

/// Where a line ends with a stop character and holds no `"` and no `~`,
/// the tokens of it followed by another line are those of the first but
/// for the closing `}`, then those of the second but for the opening `{`.
pub proof fn law_tokens_of_joined_lines(a: Seq<char>, b: Seq<char>)
    requires
        a.len() > 0,
        forall|m: int| 0 <= m < a.len() ==> #[trigger] a[m] != '"' && a[m] != '~',
        is_word_stop(a.last()),
    ensures
        spec_tokenize(a + b) == spec_tokenize(a).drop_last() + spec_tokenize(b).drop_first(),
{
    lemma_tokens_split(a, b, 0);
    lemma_tokens_shift(a, b, 0, false);
    let ta = tokens_from(a, 0, false);
    let tb = tokens_from(b, 0, false);
    assert(spec_tokenize(a).drop_last() =~= seq![SpecToken::OpenPb] + ta);
    assert(spec_tokenize(b).drop_first() =~= tb + seq![SpecToken::ClosePb]);
    assert(spec_tokenize(a + b) =~= seq![SpecToken::OpenPb] + ta + tb + seq![SpecToken::ClosePb]);
}

} // verus!
