use vstd::prelude::*;

use crate::debugger::{
    DebuggerModel, asm_from, asm_step, grow_code, hex_value, list_field, lowest_pc, spec_update,
    str_field,
};
use crate::parser::SpecVal;
use crate::text::parse_unsigned;

verus! {

/// The offset of a line of disassembly for function `f`: where the line
/// names `f` and has an offset that reads as a `usize`.
pub open spec fn line_offset(line: SpecVal, f: Seq<char>) -> Option<nat> {
    match (str_field(line, "func-name"@), str_field(line, "offset"@)) {
        (Some(g), Some(off)) => if g == f {
            parse_unsigned(off, 10, usize::MAX as nat)
        } else {
            None
        },
        _ => None,
    }
}

/// The address of a line of disassembly, read as hexadecimal.
pub open spec fn line_addr(line: SpecVal) -> Option<usize> {
    match str_field(line, "address"@) {
        Some(a) => Some(hex_value(a).unwrap() as usize),
        None => None,
    }
}

/// Whether a line of `f` at offset `j` has an address and an instruction,
/// and so fills that slot of `f`'s code.
pub open spec fn writes_slot(line: SpecVal, f: Seq<char>, j: int) -> bool {
    &&& line_offset(line, f) matches Some(i) && i == j
    &&& line_addr(line) is Some
    &&& str_field(line, "inst"@) is Some
}

/// Whether a line of `f` has an address.
pub open spec fn has_address(line: SpecVal, f: Seq<char>) -> bool {
    line_offset(line, f) is Some && line_addr(line) is Some
}

/// The code of `f`, empty where it has none.
pub open spec fn code_of(code: Map<Seq<char>, Seq<(usize, Seq<char>)>>, f: Seq<char>) -> Seq<
    (usize, Seq<char>),
> {
    if code.dom().contains(f) {
        code[f]
    } else {
        seq![]
    }
}

/// An empty slot of code.
pub open spec fn empty_slot() -> (usize, Seq<char>) {
    (0usize, Seq::<char>::empty())
}

proof fn lemma_step_other(
    code: Map<Seq<char>, Seq<(usize, Seq<char>)>>,
    pc: Map<Seq<char>, usize>,
    line: SpecVal,
    first: bool,
    f: Seq<char>,
)
    requires
        line_offset(line, f) is None,
    ensures
        asm_step(code, pc, line, first).0.dom().contains(f) == code.dom().contains(f),
        code_of(asm_step(code, pc, line, first).0, f) == code_of(code, f),
        asm_step(code, pc, line, first).1.dom().contains(f) == pc.dom().contains(f),
        pc.dom().contains(f) ==> asm_step(code, pc, line, first).1[f] == pc[f],
{
}

proof fn lemma_step_same(
    code: Map<Seq<char>, Seq<(usize, Seq<char>)>>,
    pc: Map<Seq<char>, usize>,
    line: SpecVal,
    first: bool,
    f: Seq<char>,
    idx: nat,
)
    requires
        line_offset(line, f) == Some(idx),
    ensures
        asm_step(code, pc, line, first).0.dom().contains(f),
        code_of(asm_step(code, pc, line, first).0, f) == (if line_addr(line) is Some && str_field(
            line,
            "inst"@,
        ) is Some {
            grow_code(code_of(code, f), idx).update(
                idx as int,
                (line_addr(line).unwrap(), str_field(line, "inst"@).unwrap()),
            )
        } else {
            grow_code(code_of(code, f), idx)
        }),
        asm_step(code, pc, line, first).1 == (if line_addr(line) is Some {
            pc.insert(f, lowest_pc(pc, f, line_addr(line).unwrap(), first))
        } else {
            pc
        }),
{
}

proof fn lemma_grow(code: Seq<(usize, Seq<char>)>, idx: nat)
    ensures
        grow_code(code, idx).len() == if code.len() <= idx {
            idx + 1
        } else {
            code.len()
        },
        forall|j: int|
            0 <= j < grow_code(code, idx).len() ==> #[trigger] grow_code(code, idx)[j] == if j
                < code.len() {
                code[j]
            } else {
                empty_slot()
            },
{
}

/// What the code of `f` is after the first `n` lines of a listing.
pub open spec fn code_law(
    code: Map<Seq<char>, Seq<(usize, Seq<char>)>>,
    lines: Seq<SpecVal>,
    n: int,
    f: Seq<char>,
    after: Map<Seq<char>, Seq<(usize, Seq<char>)>>,
) -> bool {
    let c0 = code_of(code, f);
    let c = code_of(after, f);
    &&& after.dom().contains(f) == (code.dom().contains(f) || exists|k: int|
        0 <= k < n && #[trigger] line_offset(lines[k], f) is Some)
    &&& c.len() >= c0.len()
    &&& forall|k: int|
        0 <= k < n && #[trigger] line_offset(lines[k], f) is Some ==> line_offset(
            lines[k],
            f,
        ).unwrap() < c.len()
    &&& c.len() == c0.len() || exists|k: int|
        0 <= k < n && #[trigger] line_offset(lines[k], f) is Some && c.len() == line_offset(
            lines[k],
            f,
        ).unwrap() + 1
    &&& forall|j: int|
        0 <= j < c.len() && (forall|k: int| 0 <= k < n ==> !#[trigger] writes_slot(lines[k], f, j))
            ==> #[trigger] c[j] == if j < c0.len() {
            c0[j]
        } else {
            empty_slot()
        }
    &&& forall|k: int, j: int|
        0 <= k < n && #[trigger] writes_slot(lines[k], f, j) && (forall|k2: int|
            k < k2 < n ==> !#[trigger] writes_slot(lines[k2], f, j)) ==> c[j] == (
            line_addr(lines[k]).unwrap(),
            str_field(lines[k], "inst"@).unwrap(),
        )
}

proof fn lemma_code_law(
    code: Map<Seq<char>, Seq<(usize, Seq<char>)>>,
    pc: Map<Seq<char>, usize>,
    lines: Seq<SpecVal>,
    n: int,
    f: Seq<char>,
)
    requires
        0 <= n <= lines.len(),
    ensures
        code_law(code, lines, n, f, asm_from(code, pc, lines, n as nat).0),
    decreases n,
{
    let c0 = code_of(code, f);
    if n == 0 {
        assert(asm_from(code, pc, lines, 0).0 == code);
    } else {
        lemma_code_law(code, pc, lines, n - 1, f);
        let prev = asm_from(code, pc, lines, (n - 1) as nat);
        let line = lines[n - 1];
        let cur = asm_from(code, pc, lines, n as nat);
        assert(cur == asm_step(prev.0, prev.1, line, n == 1));
        let old_c = code_of(prev.0, f);
        let c = code_of(cur.0, f);
        match line_offset(line, f) {
            None => {
                lemma_step_other(prev.0, prev.1, line, n == 1, f);
                assert(c == old_c);
                assert forall|j: int| !writes_slot(line, f, j) by {}
                assert((exists|k: int| 0 <= k < n && #[trigger] line_offset(lines[k], f) is Some)
                    == (exists|k: int| 0 <= k < n - 1 && #[trigger] line_offset(lines[k], f) is Some));
                assert forall|j: int|
                    0 <= j < c.len() && (forall|k: int|
                        0 <= k < n ==> !#[trigger] writes_slot(lines[k], f, j)) implies #[trigger] c[j]
                    == if j < c0.len() {
                    c0[j]
                } else {
                    empty_slot()
                } by {
                    assert forall|k: int| 0 <= k < n - 1 implies !#[trigger] writes_slot(
                        lines[k],
                        f,
                        j,
                    ) by {}
                }
                assert forall|k: int, j: int|
                    0 <= k < n && #[trigger] writes_slot(lines[k], f, j) && (forall|k2: int|
                        k < k2 < n ==> !#[trigger] writes_slot(lines[k2], f, j)) implies c[j] == (
                    line_addr(lines[k]).unwrap(),
                    str_field(lines[k], "inst"@).unwrap(),
                ) by {
                    assert(k != n - 1);
                    assert forall|k2: int| k < k2 < n - 1 implies !#[trigger] writes_slot(
                        lines[k2],
                        f,
                        j,
                    ) by {}
                }
            },
            Some(idx) => {
                lemma_step_same(prev.0, prev.1, line, n == 1, f, idx);
                lemma_grow(old_c, idx);
                let g = grow_code(old_c, idx);
                let writes = line_addr(line) is Some && str_field(line, "inst"@) is Some;
                assert(c.len() == g.len());
                assert(exists|k: int| 0 <= k < n && #[trigger] line_offset(lines[k], f) is Some) by {
                    assert(line_offset(lines[n - 1], f) is Some);
                }
                assert forall|k: int|
                    0 <= k < n && #[trigger] line_offset(lines[k], f) is Some implies line_offset(
                    lines[k],
                    f,
                ).unwrap() < c.len() by {}
                assert(c.len() == c0.len() || exists|k: int|
                    0 <= k < n && #[trigger] line_offset(lines[k], f) is Some && c.len()
                        == line_offset(lines[k], f).unwrap() + 1) by {
                    if old_c.len() <= idx {
                        assert(line_offset(lines[n - 1], f) is Some && c.len() == line_offset(
                            lines[n - 1],
                            f,
                        ).unwrap() + 1);
                    } else if c.len() != c0.len() {
                        assert(old_c.len() != c0.len());
                        let k = choose|k: int|
                            0 <= k < n - 1 && #[trigger] line_offset(lines[k], f) is Some
                                && old_c.len() == line_offset(lines[k], f).unwrap() + 1;
                        assert(0 <= k < n && line_offset(lines[k], f) is Some && c.len()
                            == line_offset(lines[k], f).unwrap() + 1);
                    }
                }
                assert forall|j: int|
                    0 <= j < c.len() && (forall|k: int|
                        0 <= k < n ==> !#[trigger] writes_slot(lines[k], f, j)) implies #[trigger] c[j]
                    == if j < c0.len() {
                    c0[j]
                } else {
                    empty_slot()
                } by {
                    assert(!writes_slot(lines[n - 1], f, j));
                    assert(!(writes && j == idx));
                    assert(c[j] == g[j]);
                    assert forall|k: int| 0 <= k < n - 1 implies !#[trigger] writes_slot(
                        lines[k],
                        f,
                        j,
                    ) by {}
                    if j >= old_c.len() {
                        assert(j >= c0.len());
                    }
                }
                assert forall|k: int, j: int|
                    0 <= k < n && #[trigger] writes_slot(lines[k], f, j) && (forall|k2: int|
                        k < k2 < n ==> !#[trigger] writes_slot(lines[k2], f, j)) implies c[j] == (
                    line_addr(lines[k]).unwrap(),
                    str_field(lines[k], "inst"@).unwrap(),
                ) by {
                    if k == n - 1 {
                        assert(j == idx);
                    } else {
                        assert(!writes_slot(lines[n - 1], f, j));
                        assert(!(writes && j == idx));
                        assert(line_offset(lines[k], f) is Some);
                        assert(j < old_c.len());
                        assert(c[j] == g[j]);
                        assert forall|k2: int| k < k2 < n - 1 implies !#[trigger] writes_slot(
                            lines[k2],
                            f,
                            j,
                        ) by {}
                    }
                }
            },
        }
    }
}

/// A listing of disassembly (`asm_insns`) changes the code of a function
/// only through its own lines, those that name it and have an offset that
/// reads as a `usize`. With such lines, the code has a slot for each of
/// their offsets and is no shorter than before, and its length is either
/// the old one or one past some offset. A slot holds the address and the
/// instruction of the last line that gives both for it; a slot that no
/// line gives both for keeps its old contents, or is empty where it is new.
pub proof fn law_disassembly_code(m: DebuggerModel, q: SpecVal, lines: Seq<SpecVal>, f: Seq<char>)
    requires
        list_field(q, "asm_insns"@) == Some(lines),
    ensures
        code_law(m.asm_code, lines, lines.len() as int, f, spec_update(m, q).asm_code),
{
    lemma_code_law(m.asm_code, m.pc_addr, lines, lines.len() as int, f);
}

/// What the lowest address of `f` is after the first `n` lines of a listing.
pub open spec fn pc_law(
    pc: Map<Seq<char>, usize>,
    lines: Seq<SpecVal>,
    n: int,
    f: Seq<char>,
    after: Map<Seq<char>, usize>,
) -> bool {
    let keep_old = pc.dom().contains(f) && !(n > 0 && has_address(lines[0], f));
    &&& (forall|k: int| 0 <= k < n ==> !#[trigger] has_address(lines[k], f)) ==> {
        &&& after.dom().contains(f) == pc.dom().contains(f)
        &&& pc.dom().contains(f) ==> after[f] == pc[f]
    }
    &&& (exists|k: int| 0 <= k < n && #[trigger] has_address(lines[k], f)) ==> {
        &&& after.dom().contains(f)
        &&& forall|k: int|
            0 <= k < n && #[trigger] has_address(lines[k], f) ==> after[f] <= line_addr(
                lines[k],
            ).unwrap()
        &&& keep_old ==> after[f] <= pc[f]
        &&& (exists|k: int|
            0 <= k < n && #[trigger] has_address(lines[k], f) && after[f] == line_addr(
                lines[k],
            ).unwrap()) || (keep_old && after[f] == pc[f])
    }
}

proof fn lemma_pc_law(
    code: Map<Seq<char>, Seq<(usize, Seq<char>)>>,
    pc: Map<Seq<char>, usize>,
    lines: Seq<SpecVal>,
    n: int,
    f: Seq<char>,
)
    requires
        0 <= n <= lines.len(),
    ensures
        pc_law(pc, lines, n, f, asm_from(code, pc, lines, n as nat).1),
    decreases n,
{
    if n == 0 {
        assert(asm_from(code, pc, lines, 0).1 == pc);
    } else {
        lemma_pc_law(code, pc, lines, n - 1, f);
        let prev = asm_from(code, pc, lines, (n - 1) as nat);
        let line = lines[n - 1];
        let cur = asm_from(code, pc, lines, n as nat);
        assert(cur == asm_step(prev.0, prev.1, line, n == 1));
        let p = prev.1;
        let r = cur.1;
        let keep_old = pc.dom().contains(f) && !has_address(lines[0], f);
        let keep_old_prev = pc.dom().contains(f) && !(n - 1 > 0 && has_address(lines[0], f));
        match line_offset(line, f) {
            None => {
                lemma_step_other(prev.0, prev.1, line, n == 1, f);
                assert(!has_address(line, f));
                assert((exists|k: int| 0 <= k < n && #[trigger] has_address(lines[k], f)) == (
                exists|k: int| 0 <= k < n - 1 && #[trigger] has_address(lines[k], f)));
                if n == 1 {
                    assert(forall|k: int| 0 <= k < n ==> !#[trigger] has_address(lines[k], f));
                }
            },
            Some(idx) => {
                lemma_step_same(prev.0, prev.1, line, n == 1, f, idx);
                match line_addr(line) {
                    None => {
                        assert(!has_address(line, f));
                        assert((exists|k: int| 0 <= k < n && #[trigger] has_address(lines[k], f))
                            == (exists|k: int| 0 <= k < n - 1 && #[trigger] has_address(
                            lines[k],
                            f,
                        )));
                        if n == 1 {
                            assert(forall|k: int| 0 <= k < n ==> !#[trigger] has_address(lines[k], f));
                        }
                    },
                    Some(a) => {
                        assert(has_address(lines[n - 1], f));
                        assert(r == p.insert(f, lowest_pc(p, f, a, n == 1)));
                        if n == 1 {
                            assert(r[f] == a);
                            assert(!keep_old);
                            assert forall|k: int|
                                0 <= k < n && #[trigger] has_address(lines[k], f) implies r[f]
                                <= line_addr(lines[k]).unwrap() by {
                                assert(k == 0);
                            }
                        } else {
                            assert(keep_old == keep_old_prev);
                            if exists|k: int| 0 <= k < n - 1 && #[trigger] has_address(lines[k], f) {
                                assert(p.dom().contains(f));
                                assert forall|k: int|
                                    0 <= k < n && #[trigger] has_address(lines[k], f) implies r[f]
                                    <= line_addr(lines[k]).unwrap() by {
                                    if k < n - 1 {
                                        assert(p[f] <= line_addr(lines[k]).unwrap());
                                    }
                                }
                                if r[f] == a {
                                    assert(has_address(lines[n - 1], f) && r[f] == line_addr(
                                        lines[n - 1],
                                    ).unwrap());
                                }
                            } else {
                                assert forall|k: int|
                                    0 <= k < n && #[trigger] has_address(lines[k], f) implies r[f]
                                    <= line_addr(lines[k]).unwrap() by {
                                    if k < n - 1 {
                                        assert(!has_address(lines[k], f));
                                    }
                                }
                                if p.dom().contains(f) {
                                    assert(p[f] == pc[f]);
                                    assert(!has_address(lines[0], f));
                                }
                                if r[f] == a {
                                    assert(has_address(lines[n - 1], f) && r[f] == line_addr(
                                        lines[n - 1],
                                    ).unwrap());
                                }
                            }
                        }
                    },
                }
            },
        }
    }
}

/// A listing of disassembly (`asm_insns`) changes the lowest address of a
/// function only through its own lines that have an address. With such
/// lines, it is the least of their addresses and, unless the listing's
/// first line is one of them, of the old lowest address.
pub proof fn law_disassembly_lowest_address(
    m: DebuggerModel,
    q: SpecVal,
    lines: Seq<SpecVal>,
    f: Seq<char>,
)
    requires
        list_field(q, "asm_insns"@) == Some(lines),
    ensures
        pc_law(m.pc_addr, lines, lines.len() as int, f, spec_update(m, q).pc_addr),
{
    lemma_pc_law(m.asm_code, m.pc_addr, lines, lines.len() as int, f);
}

} // verus!
