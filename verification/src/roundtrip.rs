use vstd::prelude::*;

use crate::parser::{
    ParseOutcome, SpecToken, SpecVal, distinct_names, parse_list, parse_record, parse_value,
    record_insert,
};

verus! {

/// Whether a value can be written as tokens and read back: it holds no
/// number, and each of its records has each name once.
pub open spec fn encodable(v: SpecVal) -> bool
    decreases v,
{
    match v {
        SpecVal::Str(_) => true,
        SpecVal::Number(_) => false,
        SpecVal::List(l) => {
            proof {
                assert(decreases_to!(v => l));
            }
            encodable_items(l, 0)
        },
        SpecVal::Record(es) => {
            proof {
                assert(decreases_to!(v => es));
            }
            distinct_names(es) && encodable_entries(es, 0)
        },
    }
}

/// Whether the items of a list from `i` on are encodable.
pub open spec fn encodable_items(l: Seq<SpecVal>, i: int) -> bool
    decreases l, l.len() - i,
{
    if i < 0 || i >= l.len() {
        true
    } else {
        proof {
            assert(decreases_to!(l => l[i]));
        }
        encodable(l[i]) && encodable_items(l, i + 1)
    }
}

/// Whether the values of a record's entries from `i` on are encodable.
pub open spec fn encodable_entries(es: Seq<(Seq<char>, SpecVal)>, i: int) -> bool
    decreases es, es.len() - i,
{
    if i < 0 || i >= es.len() {
        true
    } else {
        proof {
            assert(decreases_to!(es => es[i]));
            assert(decreases_to!(es[i] => es[i].1));
        }
        encodable(es[i].1) && encodable_entries(es, i + 1)
    }
}

/// The tokens of a value: a string is one token, a list is `[`, its items
/// separated by commas, and `]`; a record is `{`, its entries `name = value`
/// separated by commas, and `}`.
pub open spec fn enc(v: SpecVal) -> Seq<SpecToken>
    decreases v, 0int,
{
    match v {
        SpecVal::Str(s) => seq![SpecToken::Str(s)],
        SpecVal::Number(n) => seq![SpecToken::Number(n)],
        SpecVal::List(l) => {
            proof {
                assert(decreases_to!(v => l));
            }
            seq![SpecToken::OpenB] + enc_items(l, 0) + seq![SpecToken::CloseB]
        },
        SpecVal::Record(es) => {
            proof {
                assert(decreases_to!(v => es));
            }
            seq![SpecToken::OpenPb] + enc_entries(es, 0) + seq![SpecToken::ClosePb]
        },
    }
}

/// The tokens of a list's items from `i` on, each after a comma but the
/// first of the list.
pub open spec fn enc_items(l: Seq<SpecVal>, i: int) -> Seq<SpecToken>
    decreases l, l.len() - i,
{
    if i < 0 || i >= l.len() {
        seq![]
    } else {
        proof {
            assert(decreases_to!(l => l[i]));
        }
        (if i == 0 {
            seq![]
        } else {
            seq![SpecToken::Comma]
        }) + enc(l[i]) + enc_items(l, i + 1)
    }
}

/// The tokens of a record's entries from `i` on, each followed by a comma
/// but the last.
pub open spec fn enc_entries(es: Seq<(Seq<char>, SpecVal)>, i: int) -> Seq<SpecToken>
    decreases es, es.len() - i,
{
    if i < 0 || i >= es.len() {
        seq![]
    } else {
        proof {
            assert(decreases_to!(es => es[i]));
            assert(decreases_to!(es[i] => es[i].1));
        }
        seq![SpecToken::Str(es[i].0), SpecToken::Eq] + enc(es[i].1) + (if i + 1 < es.len() {
            seq![SpecToken::Comma]
        } else {
            seq![]
        }) + enc_entries(es, i + 1)
    }
}

proof fn lemma_enc_nonempty(v: SpecVal)
    ensures
        enc(v).len() >= 1,
        encodable(v) ==> (enc(v)[0] is Str || enc(v)[0] is OpenB || enc(v)[0] is OpenPb),
{
}

proof fn lemma_insert_new(es: Seq<(Seq<char>, SpecVal)>, i: int)
    requires
        0 <= i < es.len(),
        distinct_names(es),
    ensures
        record_insert(es.subrange(0, i), es[i].0, es[i].1) == es.subrange(0, i + 1),
{
    let pre = es.subrange(0, i);
    assert forall|j: int| 0 <= j < pre.len() implies #[trigger] pre[j].0 != es[i].0 by {
        assert(pre[j] == es[j]);
    }
    assert(es.subrange(0, i + 1) =~= pre.push((es[i].0, es[i].1)));
}

/// A value read from its own tokens, whatever comes before and after them,
/// is the value itself, and reading ends right after them.
proof fn lemma_parse_enc(pre: Seq<SpecToken>, v: SpecVal, post: Seq<SpecToken>)
    requires
        encodable(v),
    ensures
        parse_value(pre + enc(v) + post, pre.len() as int) == ParseOutcome::Parsed(
            v,
            pre.len() + enc(v).len() as int,
        ),
    decreases v, 0int,
{
    let t = pre + enc(v) + post;
    let p = pre.len() as int;
    assert(t[p] == enc(v)[0]);
    match v {
        SpecVal::Str(_) => {},
        SpecVal::Number(_) => {},
        SpecVal::List(l) => {
            assert(decreases_to!(v => l));
            let body = enc_items(l, 0);
            if l.len() == 0 {
                assert(body == Seq::<SpecToken>::empty());
                assert(t[p + 1] == SpecToken::CloseB);
                assert(l =~= Seq::<SpecVal>::empty());
            } else {
                assert(decreases_to!(l => l[0]));
                let first = enc(l[0]);
                let rest = enc_items(l, 1);
                assert(body == first + rest);
                let pre1 = pre + seq![SpecToken::OpenB];
                let post1 = rest + seq![SpecToken::CloseB] + post;
                assert(t =~= pre1 + first + post1);
                lemma_parse_enc(pre1, l[0], post1);
                lemma_enc_nonempty(l[0]);
                let pre2 = pre1 + first;
                assert(t =~= pre2 + rest + seq![SpecToken::CloseB] + post);
                assert(t[p + 1] == first[0]);
                assert(Seq::<SpecVal>::empty().push(l[0]) =~= l.subrange(0, 1));
                lemma_parse_items(pre2, l, 1, post);
            }
        },
        SpecVal::Record(es) => {
            assert(decreases_to!(v => es));
            let pre1 = pre + seq![SpecToken::OpenPb];
            assert(t =~= pre1 + enc_entries(es, 0) + seq![SpecToken::ClosePb] + post);
            assert(es.subrange(0, 0) =~= Seq::<(Seq<char>, SpecVal)>::empty());
            lemma_parse_entries(pre1, es, 0, post);
        },
    }
}

/// The rest of a list from its item `i` on (`i` at least one) reads as
/// the whole list.
proof fn lemma_parse_items(pre: Seq<SpecToken>, l: Seq<SpecVal>, i: int, post: Seq<SpecToken>)
    requires
        1 <= i <= l.len(),
        encodable_items(l, i),
    ensures
        parse_list(
            pre + enc_items(l, i) + seq![SpecToken::CloseB] + post,
            pre.len() as int,
            l.subrange(0, i),
        ) == ParseOutcome::Parsed(SpecVal::List(l), pre.len() + enc_items(l, i).len() as int + 1),
    decreases l, l.len() - i,
{
    let t = pre + enc_items(l, i) + seq![SpecToken::CloseB] + post;
    let p = pre.len() as int;
    if i == l.len() {
        assert(enc_items(l, i) == Seq::<SpecToken>::empty());
        assert(t[p] == SpecToken::CloseB);
        assert(l.subrange(0, i) =~= l);
    } else {
        assert(decreases_to!(l => l[i]));
        let item = enc(l[i]);
        let rest = enc_items(l, i + 1);
        assert(enc_items(l, i) == seq![SpecToken::Comma] + item + rest);
        assert(t[p] == SpecToken::Comma);
        let pre1 = pre + seq![SpecToken::Comma];
        let post1 = rest + seq![SpecToken::CloseB] + post;
        assert(t =~= pre1 + item + post1);
        lemma_parse_enc(pre1, l[i], post1);
        lemma_enc_nonempty(l[i]);
        let pre2 = pre1 + item;
        assert(t =~= pre2 + rest + seq![SpecToken::CloseB] + post);
        assert(l.subrange(0, i).push(l[i]) =~= l.subrange(0, i + 1));
        lemma_parse_items(pre2, l, i + 1, post);
    }
}

/// The entries of a record from `i` on read as the whole record.
proof fn lemma_parse_entries(
    pre: Seq<SpecToken>,
    es: Seq<(Seq<char>, SpecVal)>,
    i: int,
    post: Seq<SpecToken>,
)
    requires
        0 <= i <= es.len(),
        distinct_names(es),
        encodable_entries(es, i),
    ensures
        parse_record(
            pre + enc_entries(es, i) + seq![SpecToken::ClosePb] + post,
            pre.len() as int,
            es.subrange(0, i),
        ) == ParseOutcome::Parsed(SpecVal::Record(es), pre.len() + enc_entries(es, i).len() as int + 1),
    decreases es, es.len() - i,
{
    let t = pre + enc_entries(es, i) + seq![SpecToken::ClosePb] + post;
    let p = pre.len() as int;
    if i == es.len() {
        assert(enc_entries(es, i) == Seq::<SpecToken>::empty());
        assert(t[p] == SpecToken::ClosePb);
        assert(es.subrange(0, i) =~= es);
    } else {
        assert(decreases_to!(es => es[i]));
        assert(decreases_to!(es[i] => es[i].1));
        let k = es[i].0;
        let v = es[i].1;
        let item = enc(v);
        let sep: Seq<SpecToken> = if i + 1 < es.len() {
            seq![SpecToken::Comma]
        } else {
            seq![]
        };
        let rest = enc_entries(es, i + 1);
        assert(enc_entries(es, i) == seq![SpecToken::Str(k), SpecToken::Eq] + item + sep + rest);
        assert(t[p] == SpecToken::Str(k));
        assert(t[p + 1] == SpecToken::Eq);
        let pre1 = pre + seq![SpecToken::Str(k), SpecToken::Eq];
        let post1 = sep + rest + seq![SpecToken::ClosePb] + post;
        assert(t =~= pre1 + item + post1);
        lemma_parse_enc(pre1, v, post1);
        lemma_enc_nonempty(v);
        lemma_insert_new(es, i);
        let r: int = pre1.len() + item.len() as int;
        if i + 1 < es.len() {
            assert(t[r] == SpecToken::Comma);
            let pre2 = pre1 + item + sep;
            assert(t =~= pre2 + rest + seq![SpecToken::ClosePb] + post);
            lemma_parse_entries(pre2, es, i + 1, post);
        } else {
            assert(rest == Seq::<SpecToken>::empty());
            assert(t[r] == SpecToken::ClosePb);
            let pre2 = pre1 + item;
            assert(t =~= pre2 + rest + seq![SpecToken::ClosePb] + post);
            lemma_parse_entries(pre2, es, i + 1, post);
        }
    }
}

/// Reading the tokens of a value that holds no number, and whose records
/// have each name once, gives back that value and ends right after its
/// tokens, whatever follows them.
pub proof fn law_parse_reads_back_tokens(v: SpecVal, rest: Seq<SpecToken>)
    requires
        encodable(v),
    ensures
        parse_value(enc(v) + rest, 0) == ParseOutcome::Parsed(v, enc(v).len() as int),
{
    lemma_parse_enc(seq![], v, rest);
    assert(Seq::<SpecToken>::empty() + enc(v) + rest =~= enc(v) + rest);
}

} // verus!
