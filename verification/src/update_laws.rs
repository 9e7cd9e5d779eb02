use vstd::prelude::*;

use crate::debugger::{
    DebuggerModel, field, list_field, names_from, next_register_names, next_registers,
    pending_file, record_locals, registers_from, spec_update, str_field,
};
use crate::parser::SpecVal;
use crate::text::{decimal, digit_char, parse_unsigned};

verus! {

/// A record without a frame leaves the current line, the current file and
/// its flag, and the files read as they are; it asks for no file; the
/// variables stay, with the record's locals appended.
pub proof fn law_record_without_frame_keeps_frame_state(m: DebuggerModel, q: SpecVal)
    requires
        field(q, "frame"@) is None,
    ensures
        spec_update(m, q).line == m.line,
        spec_update(m, q).variables == m.variables + record_locals(q),
        spec_update(m, q).current_file == m.current_file,
        spec_update(m, q).new_file == m.new_file,
        spec_update(m, q).files == m.files,
        pending_file(m, q) is None,
{
}

/// A frame without an argument list keeps the variables, with the record's
/// locals appended. A frame's line that reads as a `u32` becomes the
/// current line; a frame without one keeps the current line.
pub proof fn law_frame_without_args_or_line(m: DebuggerModel, q: SpecVal, f: SpecVal)
    requires
        field(q, "frame"@) == Some(f),
    ensures
        list_field(f, "args"@) is None ==> spec_update(m, q).variables == m.variables
            + record_locals(q),
        str_field(f, "line"@) matches Some(l) ==> (parse_unsigned(l, 10, u32::MAX as nat) matches Some(
            n,
        ) ==> spec_update(m, q).line == n),
        (str_field(f, "line"@) matches Some(l) ==> parse_unsigned(l, 10, u32::MAX as nat) is None)
            ==> spec_update(m, q).line == m.line,
{
}

proof fn lemma_digit_char(a: nat, b: nat)
    requires
        a < 10,
        b < 10,
        digit_char(a) == digit_char(b),
    ensures
        a == b,
{
    assert(digit_char(a) as nat == '0' as nat + a);
    assert(digit_char(b) as nat == '0' as nat + b);
}

proof fn lemma_decimal_len(n: nat)
    ensures
        decimal(n).len() >= 1,
        (decimal(n).len() == 1) == (n < 10),
    decreases n,
{
    if n >= 10 {
        lemma_decimal_len(n / 10);
    }
}

/// Distinct numbers have distinct decimal forms.
proof fn lemma_decimal_injective(a: nat, b: nat)
    requires
        decimal(a) == decimal(b),
    ensures
        a == b,
    decreases a,
{
    lemma_decimal_len(a);
    lemma_decimal_len(b);
    if a < 10 {
        assert(decimal(a)[0] == digit_char(a));
        assert(decimal(b)[0] == digit_char(b));
        lemma_digit_char(a, b);
    } else {
        assert(b >= 10);
        let da = decimal(a / 10);
        let db = decimal(b / 10);
        assert(decimal(a) == da.push(digit_char(a % 10)));
        assert(decimal(b) == db.push(digit_char(b % 10)));
        assert(decimal(a).last() == digit_char(a % 10));
        assert(decimal(b).last() == digit_char(b % 10));
        assert(da == decimal(a).drop_last());
        assert(db == decimal(b).drop_last());
        lemma_digit_char(a % 10, b % 10);
        lemma_decimal_injective(a / 10, b / 10);
    }
}

proof fn lemma_names_from(l: Seq<SpecVal>, n: nat, i: int)
    requires
        0 <= i < n <= l.len(),
    ensures
        names_from(l, n).dom().contains(decimal(i as nat)) == (l[i] matches SpecVal::Str(s) && s.len()
            > 0),
        l[i] matches SpecVal::Str(s) ==> (s.len() > 0 ==> names_from(l, n)[decimal(i as nat)] == s),
    decreases n,
{
    if n > i + 1 {
        lemma_names_from(l, (n - 1) as nat, i);
        if decimal((n - 1) as nat) == decimal(i as nat) {
            lemma_decimal_injective((n - 1) as nat, i as nat);
        }
    } else {
        lemma_names_absent(l, i as nat, i as nat);
        let prev = names_from(l, i as nat);
        assert(!prev.dom().contains(decimal(i as nat)));
        assert(names_from(l, n) == match l[i] {
            SpecVal::Str(s) => if s.len() > 0 {
                prev.insert(decimal(i as nat), s)
            } else {
                prev
            },
            _ => prev,
        });
    }
}

proof fn lemma_names_absent(l: Seq<SpecVal>, n: nat, i: nat)
    requires
        n <= i,
        n <= l.len(),
    ensures
        !names_from(l, n).dom().contains(decimal(i)),
    decreases n,
{
    if n > 0 {
        lemma_names_absent(l, (n - 1) as nat, i);
        if decimal((n - 1) as nat) == decimal(i) {
            lemma_decimal_injective((n - 1) as nat, i);
        }
    }
}

/// While no register names are known, a `register-names` list gives them:
/// the register number `i` (in decimal) names the item at index `i`, where
/// that item is a non-empty string, and no other number is named by an
/// index of the list.
pub proof fn law_register_names_by_index(m: DebuggerModel, q: SpecVal, l: Seq<SpecVal>, i: int)
    requires
        m.register_names.dom() == Set::<Seq<char>>::empty(),
        list_field(q, "register-names"@) == Some(l),
        0 <= i < l.len(),
    ensures
        spec_update(m, q).register_names.dom().contains(decimal(i as nat)) == (l[i] matches SpecVal::Str(
            s,
        ) && s.len() > 0),
        l[i] matches SpecVal::Str(s) ==> (s.len() > 0 ==> spec_update(m, q).register_names[decimal(
            i as nat,
        )] == s),
{
    lemma_names_from(l, l.len(), i);
    assert(next_register_names(m, q) == names_from(l, l.len()));
}

/// A record without an `asm_insns` list leaves the disassembly and the
/// lowest addresses as they are.
pub proof fn law_record_without_listing_keeps_disassembly(m: DebuggerModel, q: SpecVal)
    requires
        list_field(q, "asm_insns"@) is None,
    ensures
        spec_update(m, q).asm_code == m.asm_code,
        spec_update(m, q).pc_addr == m.pc_addr,
{
}

/// Register values change only through a `register-values` list read once
/// the register names are known.
pub proof fn law_registers_change_only_by_values(m: DebuggerModel, q: SpecVal)
    requires
        m.register_names.dom() == Set::<Seq<char>>::empty() || list_field(q, "register-values"@)
            is None,
    ensures
        spec_update(m, q).registers == m.registers,
{
}

/// Whether item `j` of a `register-values` list sets the register named
/// `name` (it has a value and a number with that name).
pub open spec fn sets_register(
    names: Map<Seq<char>, Seq<char>>,
    l: Seq<SpecVal>,
    j: int,
    name: Seq<char>,
) -> bool {
    &&& str_field(l[j], "number"@) matches Some(k2)
    &&& str_field(l[j], "value"@) is Some
    &&& names[k2] == name
}

proof fn lemma_last_value_stays(
    regs: Map<Seq<char>, Seq<char>>,
    names: Map<Seq<char>, Seq<char>>,
    l: Seq<SpecVal>,
    i: int,
    n: int,
    name: Seq<char>,
    v: Seq<char>,
)
    requires
        0 <= i < n <= l.len(),
        str_field(l[i], "number"@) matches Some(k) && names[k] == name,
        str_field(l[i], "value"@) == Some(v),
        forall|j: int| i < j < l.len() ==> !#[trigger] sets_register(names, l, j, name),
    ensures
        registers_from(regs, names, l, n as nat).dom().contains(name),
        registers_from(regs, names, l, n as nat)[name] == v,
    decreases n,
{
    if n > i + 1 {
        lemma_last_value_stays(regs, names, l, i, n - 1, name, v);
        assert(!sets_register(names, l, n - 1, name));
    }
}

/// Each reading of register values overwrites what was held: after a
/// `register-values` list (read once names are known), a register named by
/// an item's number has that item's value where no later item names it,
/// whatever value it had before.
pub proof fn law_register_value_overwrites(
    m: DebuggerModel,
    q: SpecVal,
    l: Seq<SpecVal>,
    i: int,
    k: Seq<char>,
    v: Seq<char>,
)
    requires
        m.register_names.dom() != Set::<Seq<char>>::empty(),
        list_field(q, "register-values"@) == Some(l),
        0 <= i < l.len(),
        str_field(l[i], "number"@) == Some(k),
        str_field(l[i], "value"@) == Some(v),
        m.register_names.dom().contains(k),
        forall|j: int|
            i < j < l.len() ==> !#[trigger] sets_register(m.register_names, l, j, m.register_names[k]),
    ensures
        spec_update(m, q).registers.dom().contains(m.register_names[k]),
        spec_update(m, q).registers[m.register_names[k]] == v,
{
    lemma_last_value_stays(m.registers, m.register_names, l, i, l.len() as int, m.register_names[k], v);
    assert(next_registers(m, q) == registers_from(m.registers, m.register_names, l, l.len()));
}

} // verus!
