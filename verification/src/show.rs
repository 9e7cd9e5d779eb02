use vstd::prelude::*;

use vstd::string::StringExecFns;
use crate::parser::{
    GDBToken, GDBVal, SpecToken, SpecVal, entries_model, lemma_entries_model, lemma_vals_model,
    val_model, vals_model,
};
use crate::text::decimal;

verus! {

/// What `{:?}` writes for a string slice: the characters between double
/// quotes, with quotes, backslashes and unprintable characters escaped.
pub uninterp spec fn str_debug(s: Seq<char>) -> Seq<char>;

/// Calls `<str as Debug>::fmt` through `format!("{:?}", s)`. Its text (the
/// escaping rules of `char::escape_debug`, over Unicode tables) is named and
/// not spelled out.
#[verifier::external_body]
fn debug_str(s: &str) -> (r: String)
    ensures
        r@ == str_debug(s@),
{
    format!("{:?}", s)
}

/// Calls `u64::to_string`, which writes the number in decimal (its
/// `Display` form).
#[verifier::external_body]
fn u64_to_string(n: u64) -> (r: String)
    ensures
        r@ == decimal(n as nat),
{
    n.to_string()
}

/// Calls `usize::to_string`, which writes the number in decimal (its
/// `Display` form).
#[verifier::external_body]
pub(crate) fn usize_to_string(n: usize) -> (r: String)
    ensures
        r@ == decimal(n as nat),
{
    n.to_string()
}

/// The `Debug` form of a token: the variant's name, with its content in
/// brackets (a number in decimal, a string as `{:?}` writes it).
pub open spec fn token_text(t: SpecToken) -> Seq<char> {
    match t {
        SpecToken::Comma => "Comma"@,
        SpecToken::OpenPb => "OpenPb"@,
        SpecToken::ClosePb => "ClosePb"@,
        SpecToken::OpenB => "OpenB"@,
        SpecToken::CloseB => "CloseB"@,
        SpecToken::Eq => "Eq"@,
        SpecToken::Number(n) => "Number("@ + decimal(n as nat) + ")"@,
        SpecToken::Str(s) => "Str("@ + str_debug(s) + ")"@,
    }
}

/// The `Debug` form of a value: `Str("..")`, `Number(n)`, `List([a, b])` or
/// `Record({"k": v, "k2": w})`, the entries of a record in their order.
pub open spec fn val_text(v: SpecVal) -> Seq<char>
    decreases v,
{
    match v {
        SpecVal::Record(es) => {
            proof {
                assert(decreases_to!(v => es));
            }
            "Record({"@ + entries_text(es) + "})"@
        },
        SpecVal::List(l) => {
            proof {
                assert(decreases_to!(v => l));
            }
            "List(["@ + items_text(l) + "])"@
        },
        SpecVal::Number(n) => "Number("@ + decimal(n as nat) + ")"@,
        SpecVal::Str(s) => "Str("@ + str_debug(s) + ")"@,
    }
}

/// The items of a list in their `Debug` form, separated by `, `.
pub open spec fn items_text(l: Seq<SpecVal>) -> Seq<char>
    decreases l,
{
    if l.len() == 0 {
        seq![]
    } else {
        proof {
            assert(decreases_to!(l => l[l.len() - 1]));
            assert(decreases_to!(l => l.subrange(0, l.len() - 1)));
        }
        let last = val_text(l[l.len() - 1]);
        if l.len() == 1 {
            last
        } else {
            items_text(l.subrange(0, l.len() - 1)) + ", "@ + last
        }
    }
}

/// The entries of a record, each as `"name": value`, separated by `, `.
pub open spec fn entries_text(es: Seq<(Seq<char>, SpecVal)>) -> Seq<char>
    decreases es,
{
    if es.len() == 0 {
        seq![]
    } else {
        let e = es[es.len() - 1];
        proof {
            assert(decreases_to!(es => es[es.len() - 1]));
            assert(decreases_to!(e => e.1));
            assert(decreases_to!(es => es.subrange(0, es.len() - 1)));
        }
        let last = str_debug(e.0) + ": "@ + val_text(e.1);
        if es.len() == 1 {
            last
        } else {
            entries_text(es.subrange(0, es.len() - 1)) + ", "@ + last
        }
    }
}

/// The message of a parse error at token `position`.
pub open spec fn parse_error_text(position: usize, expected: SpecToken, found: SpecToken) -> Seq<
    char,
> {
    "[token "@ + decimal(position as nat) + "]: Expected "@ + token_text(expected) + ", found "@
        + token_text(found)
}

/// Appends the `Debug` form of a token to `out`.
pub fn write_token(t: &GDBToken, out: &mut String)
    ensures
        final(out)@ == old(out)@ + token_text(t.deep_view()),
{
    match t {
        GDBToken::Comma => out.append("Comma"),
        GDBToken::OpenPb => out.append("OpenPb"),
        GDBToken::ClosePb => out.append("ClosePb"),
        GDBToken::OpenB => out.append("OpenB"),
        GDBToken::CloseB => out.append("CloseB"),
        GDBToken::Eq => out.append("Eq"),
        GDBToken::Number(n) => {
            out.append("Number(");
            let d = u64_to_string(*n);
            out.append(d.as_str());
            out.append(")");
        },
        GDBToken::Str(s) => {
            out.append("Str(");
            let d = debug_str(s.as_str());
            out.append(d.as_str());
            out.append(")");
        },
    }
}

/// Appends the `Debug` form of a value to `out`.
pub fn write_val(v: &GDBVal, out: &mut String)
    ensures
        final(out)@ == old(out)@ + val_text(v.deep_view()),
    decreases v,
{
    let ghost start = out@;
    match v {
        GDBVal::Record(m) => {
            let ghost es = entries_model(m@);
            proof {
                lemma_entries_model(m@);
            }
            out.append("Record({");
            let ghost head = out@;
            let mut i: usize = 0;
            while i < m.len()
                invariant
                    i <= m.len(),
                    *v == GDBVal::Record(*m),
                    es == entries_model(m@),
                    es.len() == m@.len(),
                    forall|j: int| 0 <= j < m@.len() ==> #[trigger] es[j] == (m@[j].0@, val_model(m@[j].1)),
                    out@ == head + entries_text(es.subrange(0, i as int)),
                decreases m.len() - i,
            {
                if i > 0 {
                    out.append(", ");
                }
                let k = debug_str(m[i].0.as_str());
                out.append(k.as_str());
                out.append(": ");
                assert(decreases_to!(*v => v->Record_0));
                assert(decreases_to!(*m => m@));
                assert(decreases_to!(m@ => m@[i as int]));
                assert(decreases_to!(m@[i as int] => m@[i as int].1));
                write_val(&m[i].1, out);
                proof {
                    let pre = es.subrange(0, i + 1);
                    assert(pre.subrange(0, i as int) =~= es.subrange(0, i as int));
                    assert(pre[i as int] == es[i as int]);
                }
                i = i + 1;
            }
            assert(es.subrange(0, m.len() as int) =~= es);
            out.append("})");
        },
        GDBVal::List(l) => {
            let ghost vs = vals_model(l@);
            proof {
                lemma_vals_model(l@);
            }
            out.append("List([");
            let ghost head = out@;
            let mut i: usize = 0;
            while i < l.len()
                invariant
                    i <= l.len(),
                    *v == GDBVal::List(*l),
                    vs == vals_model(l@),
                    vs.len() == l@.len(),
                    forall|j: int| 0 <= j < l@.len() ==> #[trigger] vs[j] == val_model(l@[j]),
                    out@ == head + items_text(vs.subrange(0, i as int)),
                decreases l.len() - i,
            {
                if i > 0 {
                    out.append(", ");
                }
                assert(decreases_to!(*v => v->List_0));
                assert(decreases_to!(*l => l@));
                assert(decreases_to!(l@ => l@[i as int]));
                write_val(&l[i], out);
                proof {
                    let pre = vs.subrange(0, i + 1);
                    assert(pre.subrange(0, i as int) =~= vs.subrange(0, i as int));
                    assert(pre[i as int] == vs[i as int]);
                }
                i = i + 1;
            }
            assert(vs.subrange(0, l.len() as int) =~= vs);
            out.append("])");
        },
        GDBVal::Number(n) => {
            out.append("Number(");
            let d = u64_to_string(*n);
            out.append(d.as_str());
            out.append(")");
        },
        GDBVal::Str(s) => {
            out.append("Str(");
            let d = debug_str(s.as_str());
            out.append(d.as_str());
            out.append(")");
        },
    }
}

/// The `Debug` form of a value, as `format!("{:?}", v)` writes it.
pub fn val_debug(v: &GDBVal) -> (r: String)
    ensures
        r@ == val_text(v.deep_view()),
{
    let mut out = String::new();
    write_val(v, &mut out);
    out
}

} // verus!
