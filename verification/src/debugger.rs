use vstd::prelude::*;

use crate::parser::{GDBVal, SpecVal, entries_model, vals_model, lemma_entries_model, lemma_vals_model};
use crate::strmap::StrMap;
use crate::order::{key_before, bytes_less, lemma_key_before_order};
use crate::strmap::lemma_entries_map;
use vstd::string::StringExecFns;
use crate::show::{usize_to_string, val_debug, val_text};
use crate::text::{push_char, str_eq, parse_unsigned, decimal, parse_u32, parse_usize, strip_hex_prefix, trim_hex_prefix, usize_from_hex_digits};

verus! {

/// The position of the first entry named `key`.
pub open spec fn first_pos(es: Seq<(Seq<char>, SpecVal)>, key: Seq<char>) -> int {
    choose|i: int|
        0 <= i < es.len() && es[i].0 == key && forall|j: int| 0 <= j < i ==> #[trigger] es[j].0 != key
}

/// The value of the first entry named `key` of a record; `None` where the
/// value is no record or has no such entry.
#[verifier::opaque]
pub open spec fn field(q: SpecVal, key: Seq<char>) -> Option<SpecVal> {
    match q {
        SpecVal::Record(es) => if exists|i: int| 0 <= i < es.len() && #[trigger] es[i].0 == key {
            Some(es[first_pos(es, key)].1)
        } else {
            None
        },
        _ => None,
    }
}

/// The field `key` of `q` where it is a string.
pub open spec fn str_field(q: SpecVal, key: Seq<char>) -> Option<Seq<char>> {
    match field(q, key) {
        Some(SpecVal::Str(s)) => Some(s),
        _ => None,
    }
}

/// The field `key` of `q` where it is a list.
pub open spec fn list_field(q: SpecVal, key: Seq<char>) -> Option<Seq<SpecVal>> {
    match field(q, key) {
        Some(SpecVal::List(l)) => Some(l),
        _ => None,
    }
}

/// Finds the first entry named `key` of a record.
fn find_field(query: &GDBVal, key: &str) -> (r: Option<usize>)
    ensures
        match field(query.deep_view(), key@) {
            Some(v) => r matches Some(i) && query matches GDBVal::Record(es) && i < es@.len()
                && es@[i as int].1.deep_view() == v,
            None => r is None,
        },
{
    proof {
        reveal(field);
    }
    match query {
        GDBVal::Record(es) => {
            let ghost m = entries_model(es@);
            proof {
                lemma_entries_model(es@);
            }
            let mut i: usize = 0;
            while i < es.len()
                invariant
                    i <= es.len(),
                    *query == GDBVal::Record(*es),
                    query.deep_view() == SpecVal::Record(m),
                    m == entries_model(es@),
                    m.len() == es@.len(),
                    forall|j: int| 0 <= j < m.len() ==> #[trigger] m[j] == (es@[j].0@, es@[j].1.deep_view()),
                    forall|j: int| 0 <= j < i ==> #[trigger] m[j].0 != key@,
                decreases es.len() - i,
            {
                if str_eq(es[i].0.as_str(), key) {
                    proof {
                        reveal(field);
                        assert(m[i as int].0 == key@);
                        let p = first_pos(m, key@);
                        assert(0 <= p < m.len() && m[p].0 == key@ && forall|j: int| 0 <= j < p ==> #[trigger] m[j].0 != key@);
                        if p < i {
                            assert(m[p].0 != key@);
                        }
                        if p > i {
                            assert(m[i as int].0 != key@);
                        }
                        assert(p == i);
                        assert(field(query.deep_view(), key@) == Some(m[i as int].1));
                    }
                    return Some(i);
                }
                i = i + 1;
            }
            None
        },
        _ => None,
    }
}


/// The mathematical state of the debugger front end.
pub struct DebuggerModel {
    /// Source files read so far, by path.
    pub files: Map<Seq<char>, Seq<char>>,
    /// Register names by register number (as GDB writes it).
    pub register_names: Map<Seq<char>, Seq<char>>,
    /// Register values by register name.
    pub registers: Map<Seq<char>, Seq<char>>,
    /// The file of the current frame.
    pub current_file: Seq<char>,
    /// Whether the current file changed since it was last handed out.
    pub new_file: bool,
    /// The current source line.
    pub line: u32,
    /// Names and values of the frame's arguments and locals.
    pub variables: Seq<(Seq<char>, Seq<char>)>,
    /// Disassembly per function: at each offset the address and instruction.
    pub asm_code: Map<Seq<char>, Seq<(usize, Seq<char>)>>,
    /// The lowest instruction address seen per function.
    pub pc_addr: Map<Seq<char>, usize>,
    /// The display rank of well-known registers.
    pub register_order: Map<Seq<char>, usize>,
}

/// The invariant of the state: a file flagged as new has been read.
pub open spec fn model_wf(m: DebuggerModel) -> bool {
    m.new_file ==> m.files.dom().contains(m.current_file)
}

/// The source files read so far, the current one, and whether it changed
/// since it was last handed out; a file flagged as new has been read.
struct FileCache {
    files: StrMap<String>,
    current: String,
    new_file: bool,
}

impl FileCache {
    #[verifier::type_invariant]
    spec fn inv(self) -> bool {
        self.new_file ==> self.files@.dom().contains(self.current@)
    }

    closed spec fn files_view(&self) -> Map<Seq<char>, Seq<char>> {
        self.files@
    }

    closed spec fn current_view(&self) -> Seq<char> {
        self.current@
    }

    closed spec fn new_view(&self) -> bool {
        self.new_file
    }

    fn new() -> (c: FileCache)
        ensures
            c.files_view() == Map::<Seq<char>, Seq<char>>::empty(),
            c.current_view() == Seq::<char>::empty(),
            !c.new_view(),
    {
        FileCache { files: StrMap::new(), current: String::new(), new_file: false }
    }

    fn contains(&self, filename: &str) -> (r: bool)
        ensures
            r == self.files_view().dom().contains(filename@),
    {
        self.files.contains_key(filename)
    }

    /// Clears the flag and hands out the current file's contents, where it
    /// is flagged as new.
    fn take_new(&mut self) -> (r: Option<String>)
        ensures
            old(self).new_view() ==> (r matches Some(s) && s@ == old(self).files_view()[old(
                self,
            ).current_view()]),
            !old(self).new_view() ==> r is None,
            final(self).files_view() == old(self).files_view(),
            final(self).current_view() == old(self).current_view(),
            !final(self).new_view(),
    {
        proof {
            use_type_invariant(&*self);
        }
        if self.new_file {
            self.new_file = false;
            match self.files.get(self.current.as_str()) {
                Some(contents) => Some(contents.clone()),
                None => {
                    proof {
                        assert(false);
                    }
                    None
                },
            }
        } else {
            None
        }
    }

    /// Makes a file read before the current one, flagged as new where it
    /// differs from the current one.
    fn select(&mut self, filename: &str)
        requires
            old(self).files_view().dom().contains(filename@),
        ensures
            final(self).files_view() == old(self).files_view(),
            final(self).current_view() == filename@,
            final(self).new_view() == (old(self).new_view() || old(self).current_view() != filename@),
    {
        let changed = !str_eq(self.current.as_str(), filename);
        let flag = self.new_file || changed;
        self.new_file = false;
        self.current = filename.to_owned();
        self.new_file = flag;
    }

    /// Records the contents of `filename`, unless it was read before, and
    /// selects it.
    fn load(&mut self, filename: &str, contents: String)
        ensures
            final(self).files_view() == (if old(self).files_view().dom().contains(filename@) {
                old(self).files_view()
            } else {
                old(self).files_view().insert(filename@, contents@)
            }),
            final(self).current_view() == filename@,
            final(self).new_view() == (old(self).new_view() || old(self).current_view() != filename@),
    {
        if !self.files.contains_key(filename) {
            let flag = self.new_file;
            self.new_file = false;
            let mut files: StrMap<String> = StrMap::new();
            std::mem::swap(&mut files, &mut self.files);
            files.insert(filename.to_owned(), contents);
            self.files = files;
            let changed = !str_eq(self.current.as_str(), filename);
            self.current = filename.to_owned();
            self.new_file = flag || changed;
        } else {
            self.select(filename);
        }
    }
}

/// Stores data about the current GDB execution.
pub struct DebuggerState {
    files: FileCache,
    register_names: StrMap<String>,
    registers: StrMap<String>,
    line: u32,
    variables: Vec<(String, String)>,
    asm_code: StrMap<Vec<(usize, String)>>,
    pc_addr: StrMap<usize>,
    register_order: StrMap<usize>,
}

impl DebuggerState {
    pub closed spec fn files_view(&self) -> Map<Seq<char>, Seq<char>> {
        self.files.files_view()
    }

    pub closed spec fn register_names_view(&self) -> Map<Seq<char>, Seq<char>> {
        self.register_names@
    }

    pub closed spec fn registers_view(&self) -> Map<Seq<char>, Seq<char>> {
        self.registers@
    }

    pub closed spec fn current_file_view(&self) -> Seq<char> {
        self.files.current_view()
    }

    pub closed spec fn new_file_view(&self) -> bool {
        self.files.new_view()
    }

    pub closed spec fn register_order_view(&self) -> Map<Seq<char>, usize> {
        self.register_order@
    }
}

impl View for DebuggerState {
    type V = DebuggerModel;

    closed spec fn view(&self) -> DebuggerModel {
        DebuggerModel {
            files: self.files_view(),
            register_names: self.register_names_view(),
            registers: self.registers_view(),
            current_file: self.current_file_view(),
            new_file: self.new_file_view(),
            line: self.line,
            variables: self.variables.deep_view(),
            asm_code: self.asm_code@,
            pc_addr: self.pc_addr@,
            register_order: self.register_order_view(),
        }
    }
}

impl DebuggerState {
    /// The current source line.
    pub fn line(&self) -> (r: u32)
        ensures
            r == self@.line,
    {
        self.line
    }

    /// Names and values of the frame's arguments and locals.
    pub fn variables(&self) -> (r: &Vec<(String, String)>)
        ensures
            r.deep_view() == self@.variables,
    {
        &self.variables
    }

    /// Disassembly per function.
    pub fn asm_code(&self) -> (r: &StrMap<Vec<(usize, String)>>)
        ensures
            r@ == self@.asm_code,
    {
        &self.asm_code
    }

    /// The lowest instruction address seen per function.
    pub fn pc_addr(&self) -> (r: &StrMap<usize>)
        ensures
            r@ == self@.pc_addr,
    {
        &self.pc_addr
    }
}

/// The registers ranked for display, in rank order.
pub open spec fn ranked_registers() -> Seq<Seq<char>> {
    seq![
        seq!['r', 'a', 'x'],
        seq!['r', 'b', 'x'],
        seq!['r', 'c', 'x'],
        seq!['r', 'd', 'x'],
        seq!['r', 'e', 'x'],
        seq!['r', 'b', 'p'],
        seq!['r', 's', 'p'],
    ]
}

/// The map from the first `n` names to their positions.
pub open spec fn rank_map(names: Seq<Seq<char>>, n: nat) -> Map<Seq<char>, usize>
    decreases n,
{
    if n == 0 || n > names.len() {
        Map::empty()
    } else {
        rank_map(names, (n - 1) as nat).insert(names[n - 1], (n - 1) as usize)
    }
}

/// The display rank of each well-known register.
fn register_ord() -> (h: StrMap<usize>)
    ensures
        h@ == rank_map(ranked_registers(), 7),
{
    let mut h: StrMap<usize> = StrMap::new();
    let v: Vec<&str> = vec!["rax", "rbx", "rcx", "rdx", "rex", "rbp", "rsp"];
    proof {
        reveal_strlit("rax");
        reveal_strlit("rbx");
        reveal_strlit("rcx");
        reveal_strlit("rdx");
        reveal_strlit("rex");
        reveal_strlit("rbp");
        reveal_strlit("rsp");
        assert(v@.len() == 7);
        assert(forall|j: int| 0 <= j < 7 ==> #[trigger] v@[j]@ == ranked_registers()[j]);
    }
    let mut i: usize = 0;
    while i < v.len()
        invariant
            i <= v@.len(),
            v@.len() == 7,
            forall|j: int| 0 <= j < 7 ==> #[trigger] v@[j]@ == ranked_registers()[j],
            h@ == rank_map(ranked_registers(), i as nat),
        decreases v.len() - i,
    {
        let name = v[i].to_owned();
        h.insert(name, i);
        i = i + 1;
    }
    h
}

/// The address that a hexadecimal string (with any leading `0x` prefixes)
/// denotes, where it denotes one that fits in `usize`.
pub open spec fn hex_value(hex: Seq<char>) -> Option<nat> {
    parse_unsigned(strip_hex_prefix(hex), 16, usize::MAX as nat)
}

/// The address that a hexadecimal string denotes (see `hex_value`).
fn parse_hex(hex: &str) -> (r: Option<usize>)
    ensures
        match hex_value(hex@) {
            Some(n) => r == Some(n as usize),
            None => r is None,
        },
{
    let without_prefix = trim_hex_prefix(hex);
    usize_from_hex_digits(without_prefix)
}

/// Reads a hexadecimal address, after any leading `0x` prefixes. The text
/// must denote an address that fits in `usize`.
fn from_hex(hex: &str) -> (r: usize)
    requires
        hex_value(hex@) is Some,
    ensures
        hex_value(hex@) == Some(r as nat),
{
    match parse_hex(hex) {
        Some(n) => n,
        None => {
            proof {
                assert(false);
            }
            0
        },
    }
}

impl DebuggerState {
    /// A fresh state: nothing read, line 1, and the well-known registers
    /// ranked for display.
    pub fn new() -> (s: DebuggerState)
        ensures
            s@.files == Map::<Seq<char>, Seq<char>>::empty(),
            s@.register_names == Map::<Seq<char>, Seq<char>>::empty(),
            s@.registers == Map::<Seq<char>, Seq<char>>::empty(),
            s@.current_file == Seq::<char>::empty(),
            !s@.new_file,
            s@.line == 1,
            s@.variables == Seq::<(Seq<char>, Seq<char>)>::empty(),
            s@.asm_code == Map::<Seq<char>, Seq<(usize, Seq<char>)>>::empty(),
            s@.pc_addr == Map::<Seq<char>, usize>::empty(),
            s@.register_order == rank_map(ranked_registers(), 7),
            model_wf(s@),
    {
        let s = DebuggerState {
            files: FileCache::new(),
            register_names: StrMap::new(),
            registers: StrMap::new(),
            line: 1,
            variables: Vec::new(),
            asm_code: StrMap::new(),
            pc_addr: StrMap::new(),
            register_order: register_ord(),
        };
        assert(s.variables.deep_view() =~= Seq::<(Seq<char>, Seq<char>)>::empty());
        s
    }

    /// Hands out the current file's contents once after it changed.
    pub fn get_file(&mut self) -> (r: Option<String>)
        ensures
            get_file_step(old(self)@, final(self)@, r),
            model_wf(final(self)@),
    {
        let r = self.files.take_new();
        proof {
            use_type_invariant(&self.files);
        }
        r
    }

    /// Records the contents of `filename`, unless it was read before, and
    /// makes it the current file (flagged as new where it differs from the
    /// current one). The contents are read by the caller.
    pub fn load_file(&mut self, filename: &str, contents: String)
        ensures
            final(self)@ == load_model(old(self)@, filename@, contents@),
            model_wf(final(self)@),
    {
        self.files.load(filename, contents);
        proof {
            use_type_invariant(&self.files);
        }
    }

    /// The field `key` of `query`, where `query` is a record that has one.
    pub fn query_val<'a>(query: &'a GDBVal, key: &str) -> (r: Option<&'a GDBVal>)
        ensures
            match field(query.deep_view(), key@) {
                Some(v) => r matches Some(x) && x.deep_view() == v,
                None => r is None,
            },
    {
        match find_field(query, key) {
            Some(i) => match query {
                GDBVal::Record(es) => Some(&es[i].1),
                _ => None,
            },
            None => None,
        }
    }

    /// The field `key` of `query`, where it is a string.
    pub fn query_str<'a>(query: &'a GDBVal, key: &str) -> (r: Option<&'a String>)
        ensures
            match str_field(query.deep_view(), key@) {
                Some(s) => r matches Some(x) && x@ == s,
                None => r is None,
            },
    {
        match DebuggerState::query_val(query, key) {
            Some(GDBVal::Str(s)) => Some(s),
            _ => None,
        }
    }

    /// The field `key` of `query`, where it is a list.
    pub fn query_list<'a>(query: &'a GDBVal, key: &str) -> (r: Option<&'a Vec<GDBVal>>)
        ensures
            match list_field(query.deep_view(), key@) {
                Some(l) => r matches Some(x) && vals_model(x@) == l,
                None => r is None,
            },
    {
        match DebuggerState::query_val(query, key) {
            Some(GDBVal::List(l)) => Some(l),
            _ => None,
        }
    }

}

/// `m` with `filename` as the current file, flagged as new where it differs
/// from the current one (a flag already set stays set).
pub open spec fn select_file(m: DebuggerModel, filename: Seq<char>) -> DebuggerModel {
    DebuggerModel {
        current_file: filename,
        new_file: m.new_file || m.current_file != filename,
        ..m
    }
}

/// One call of `get_file`: where the current file is flagged as new, the
/// flag is cleared and its contents are handed out; else nothing is, and
/// the state stays.
pub open spec fn get_file_step(old: DebuggerModel, new: DebuggerModel, r: Option<String>) -> bool {
    if old.new_file {
        &&& r matches Some(s) && s@ == old.files[old.current_file]
        &&& new == DebuggerModel { new_file: false, ..old }
    } else {
        &&& r is None
        &&& new == old
    }
}


/// Register names from the first `n` items of a `register-names` list: the
/// name at index `i` under the decimal form of `i`; empty names and items
/// that are no strings are skipped.
pub open spec fn names_from(names: Seq<SpecVal>, n: nat) -> Map<Seq<char>, Seq<char>>
    decreases n,
{
    if n == 0 || n > names.len() {
        Map::empty()
    } else {
        let m = names_from(names, (n - 1) as nat);
        match names[n - 1] {
            SpecVal::Str(s) => if s.len() > 0 {
                m.insert(decimal((n - 1) as nat), s)
            } else {
                m
            },
            _ => m,
        }
    }
}

/// Whether a `register-values` item has a number and a value, but the
/// number has no known name.
#[verifier::opaque]
pub open spec fn register_value_unnamed(names: Map<Seq<char>, Seq<char>>, reg: SpecVal) -> bool {
    &&& str_field(reg, "number"@) matches Some(n)
    &&& str_field(reg, "value"@) is Some
    &&& !names.dom().contains(n)
}

/// Register values after the first `n` items of a `register-values` list:
/// an item with a number and a value sets the value of the register named
/// by the number.
pub open spec fn registers_from(
    regs: Map<Seq<char>, Seq<char>>,
    names: Map<Seq<char>, Seq<char>>,
    list: Seq<SpecVal>,
    n: nat,
) -> Map<Seq<char>, Seq<char>>
    decreases n,
{
    if n == 0 || n > list.len() {
        regs
    } else {
        let m = registers_from(regs, names, list, (n - 1) as nat);
        match (str_field(list[n - 1], "number"@), str_field(list[n - 1], "value"@)) {
            (Some(k), Some(v)) => m.insert(names[k], v),
            _ => m,
        }
    }
}

/// Register names after a record: read from `register-names` while none
/// are known.
pub open spec fn next_register_names(m: DebuggerModel, q: SpecVal) -> Map<Seq<char>, Seq<char>> {
    if m.register_names.dom() == Set::<Seq<char>>::empty() {
        match list_field(q, "register-names"@) {
            Some(l) => names_from(l, l.len()),
            None => m.register_names,
        }
    } else {
        m.register_names
    }
}

/// Register values after a record: read from `register-values` once names
/// are known.
pub open spec fn next_registers(m: DebuggerModel, q: SpecVal) -> Map<Seq<char>, Seq<char>> {
    if m.register_names.dom() == Set::<Seq<char>>::empty() {
        m.registers
    } else {
        match list_field(q, "register-values"@) {
            Some(l) => registers_from(m.registers, m.register_names, l, l.len()),
            None => m.registers,
        }
    }
}

/// The current line after a record: the frame's `line`, where it is a
/// number that fits in `u32`.
pub open spec fn next_line(m: DebuggerModel, q: SpecVal) -> u32 {
    match field(q, "frame"@) {
        Some(f) => match str_field(f, "line"@) {
            Some(l) => match parse_unsigned(l, 10, u32::MAX as nat) {
                Some(n) => n as u32,
                None => m.line,
            },
            None => m.line,
        },
        None => m.line,
    }
}

/// The file that a record's frame names.
pub open spec fn frame_file(q: SpecVal) -> Option<Seq<char>> {
    match field(q, "frame"@) {
        Some(f) => str_field(f, "fullname"@),
        None => None,
    }
}

/// An argument of the frame as a variable: name and value in their `Debug`
/// form, or `A` and `B` for an argument that is no record.
pub open spec fn arg_pair(a: SpecVal) -> (Seq<char>, Seq<char>) {
    match a {
        SpecVal::Record(_) => (
            val_text(field(a, "name"@).unwrap()),
            val_text(field(a, "value"@).unwrap()),
        ),
        _ => (seq!['A'], seq!['B']),
    }
}

/// Whether an argument is a record that lacks its name or its value.
pub open spec fn arg_unnamed(a: SpecVal) -> bool {
    a is Record && (field(a, "name"@) is None || field(a, "value"@) is None)
}

/// The variables after the frame of a record: its arguments, where it
/// lists them.
pub open spec fn frame_variables(m: DebuggerModel, q: SpecVal) -> Seq<(Seq<char>, Seq<char>)> {
    match field(q, "frame"@) {
        Some(f) => match list_field(f, "args"@) {
            Some(args) => Seq::new(args.len(), |i: int| arg_pair(args[i])),
            None => m.variables,
        },
        None => m.variables,
    }
}

/// The code of a function grown to hold offset `idx`, with empty slots.
pub open spec fn grow_code(code: Seq<(usize, Seq<char>)>, idx: nat) -> Seq<(usize, Seq<char>)> {
    if code.len() <= idx {
        code + Seq::new((idx + 1 - code.len()) as nat, |j: int| (0usize, Seq::<char>::empty()))
    } else {
        code
    }
}

/// One line of disassembly: at the function's offset, the instruction and
/// its address; the function's lowest address is updated (the first line
/// of a listing sets it afresh).
pub open spec fn asm_step(
    code: Map<Seq<char>, Seq<(usize, Seq<char>)>>,
    pc: Map<Seq<char>, usize>,
    line: SpecVal,
    first: bool,
) -> (Map<Seq<char>, Seq<(usize, Seq<char>)>>, Map<Seq<char>, usize>) {
    match (str_field(line, "func-name"@), str_field(line, "offset"@)) {
        (Some(fname), Some(off)) => match parse_unsigned(off, 10, usize::MAX as nat) {
            Some(idx) => asm_entry(code, pc, line, fname, idx, first),
            None => (code, pc),
        },
        _ => (code, pc),
    }
}

/// The lowest address of a function after seeing address `a`.
pub open spec fn lowest_pc(pc: Map<Seq<char>, usize>, fname: Seq<char>, a: usize, first: bool) -> usize {
    if first || !pc.dom().contains(fname) {
        a
    } else if pc[fname] < a {
        pc[fname]
    } else {
        a
    }
}

/// A line of disassembly for function `fname` at offset `idx`.
pub open spec fn asm_entry(
    code: Map<Seq<char>, Seq<(usize, Seq<char>)>>,
    pc: Map<Seq<char>, usize>,
    line: SpecVal,
    fname: Seq<char>,
    idx: nat,
    first: bool,
) -> (Map<Seq<char>, Seq<(usize, Seq<char>)>>, Map<Seq<char>, usize>) {
    let code0 = if code.dom().contains(fname) {
        code[fname]
    } else {
        Seq::empty()
    };
    let code1 = grow_code(code0, idx);
    match str_field(line, "address"@) {
        Some(addr) => {
            let a = hex_value(addr).unwrap() as usize;
            let code2 = match str_field(line, "inst"@) {
                Some(inst) => code1.update(idx as int, (a, inst)),
                None => code1,
            };
            (code.insert(fname, code2), pc.insert(fname, lowest_pc(pc, fname, a, first)))
        },
        None => (code.insert(fname, code1), pc),
    }
}

/// Whether a line of disassembly has an offset at the end of the address
/// range, or an address that is no hexadecimal number that fits in `usize`.
#[verifier::opaque]
pub open spec fn asm_line_panics(line: SpecVal) -> bool {
    &&& str_field(line, "func-name"@) is Some
    &&& str_field(line, "offset"@) matches Some(off)
    &&& parse_unsigned(off, 10, usize::MAX as nat) matches Some(idx)
    &&& (idx == usize::MAX || (str_field(line, "address"@) matches Some(a) && hex_value(a) is None))
}

/// Disassembly and lowest addresses after the first `n` lines.
pub open spec fn asm_from(
    code: Map<Seq<char>, Seq<(usize, Seq<char>)>>,
    pc: Map<Seq<char>, usize>,
    lines: Seq<SpecVal>,
    n: nat,
) -> (Map<Seq<char>, Seq<(usize, Seq<char>)>>, Map<Seq<char>, usize>)
    decreases n,
{
    if n == 0 || n > lines.len() {
        (code, pc)
    } else {
        let prev = asm_from(code, pc, lines, (n - 1) as nat);
        asm_step(prev.0, prev.1, lines[n - 1], n == 1)
    }
}

/// Disassembly and lowest addresses after a record's `asm_insns` list.
pub open spec fn next_asm(m: DebuggerModel, q: SpecVal) -> (
    Map<Seq<char>, Seq<(usize, Seq<char>)>>,
    Map<Seq<char>, usize>,
) {
    match list_field(q, "asm_insns"@) {
        Some(lines) => asm_from(m.asm_code, m.pc_addr, lines, lines.len()),
        None => (m.asm_code, m.pc_addr),
    }
}

/// The locals of the first `n` items of a `locals` list that have a name
/// and a value.
pub open spec fn locals_from(list: Seq<SpecVal>, n: nat) -> Seq<(Seq<char>, Seq<char>)>
    decreases n,
{
    if n == 0 || n > list.len() {
        seq![]
    } else {
        let pre = locals_from(list, (n - 1) as nat);
        match (str_field(list[n - 1], "name"@), str_field(list[n - 1], "value"@)) {
            (Some(a), Some(b)) => pre.push((a, b)),
            _ => pre,
        }
    }
}

/// The locals that a record lists.
pub open spec fn record_locals(q: SpecVal) -> Seq<(Seq<char>, Seq<char>)> {
    match list_field(q, "locals"@) {
        Some(l) => locals_from(l, l.len()),
        None => seq![],
    }
}

/// The file that must be read for a record: the frame's file, where it has
/// not been read yet.
pub open spec fn pending_file(m: DebuggerModel, q: SpecVal) -> Option<Seq<char>> {
    match frame_file(q) {
        Some(f) => if m.files.dom().contains(f) {
            None
        } else {
            Some(f)
        },
        None => None,
    }
}

/// Whether the state cannot take a record: a register value whose number
/// has no name, an argument record without name or value, or a line of
/// disassembly with an unusable offset or address.
pub open spec fn update_panics(m: DebuggerModel, q: SpecVal) -> bool {
    registers_panic(m, q) || args_panic(q) || asm_panic(q)
}

/// A register value whose number has no name.
pub open spec fn registers_panic(m: DebuggerModel, q: SpecVal) -> bool {
    if m.register_names.dom() != Set::<Seq<char>>::empty() {
        match list_field(q, "register-values"@) {
            Some(l) => exists|i: int|
                0 <= i < l.len() && #[trigger] register_value_unnamed(m.register_names, l[i]),
            None => false,
        }
    } else {
        false
    }
}

/// An argument record of the frame without name or value.
pub open spec fn args_panic(q: SpecVal) -> bool {
    match field(q, "frame"@) {
        Some(f) => match list_field(f, "args"@) {
            Some(args) => exists|i: int| 0 <= i < args.len() && #[trigger] arg_unnamed(args[i]),
            None => false,
        },
        None => false,
    }
}

/// A line of disassembly with an unusable offset or address.
pub open spec fn asm_panic(q: SpecVal) -> bool {
    match list_field(q, "asm_insns"@) {
        Some(lines) => exists|i: int| 0 <= i < lines.len() && #[trigger] asm_line_panics(lines[i]),
        None => false,
    }
}

/// The state after the file of a record's frame: a file read before becomes
/// the current one; a new one is left to be read.
pub open spec fn after_frame_file(m: DebuggerModel, q: SpecVal) -> DebuggerModel {
    match frame_file(q) {
        Some(f) => if m.files.dom().contains(f) {
            select_file(m, f)
        } else {
            m
        },
        None => m,
    }
}

/// The state after a record of GDB output, but for reading a new file (see
/// `pending_file`): a file read before becomes the current one at once.
pub open spec fn spec_update(m: DebuggerModel, q: SpecVal) -> DebuggerModel {
    let files_done = after_frame_file(m, q);
    DebuggerModel {
        register_names: next_register_names(m, q),
        registers: next_registers(m, q),
        line: next_line(m, q),
        variables: frame_variables(m, q) + record_locals(q),
        asm_code: next_asm(m, q).0,
        pc_addr: next_asm(m, q).1,
        ..files_done
    }
}


impl DebuggerState {
    /// Reads register names (while none are known) or register values.
    fn update_registers(&mut self, query: &GDBVal)
        requires
            !registers_panic(old(self)@, query.deep_view()),
        ensures
            final(self)@ == (DebuggerModel {
                register_names: next_register_names(old(self)@, query.deep_view()),
                registers: next_registers(old(self)@, query.deep_view()),
                ..old(self)@
            }),
    {
        let ghost q = query.deep_view();
        let ghost m0 = self@;
        if self.register_names.is_empty() {
            match DebuggerState::query_list(query, "register-names") {
                Some(names) => {
                    let ghost nv = vals_model(names@);
                    proof {
                        lemma_vals_model(names@);
                        assert(self.register_names@ =~= Map::<Seq<char>, Seq<char>>::empty());
                        assert(self@ == DebuggerModel { register_names: names_from(nv, 0), ..m0 });
                    }
                    let mut i: usize = 0;
                    while i < names.len()
                        invariant
                            i <= names@.len(),
                            nv == vals_model(names@),
                            nv.len() == names@.len(),
                            forall|j: int| 0 <= j < nv.len() ==> #[trigger] nv[j] == names@[j].deep_view(),
                            self@ == (DebuggerModel { register_names: names_from(nv, i as nat), ..m0 }),
                        decreases names.len() - i,
                    {
                        match &names[i] {
                            GDBVal::Str(s) => {
                                if !s.as_str().is_empty() {
                                    let k = usize_to_string(i);
                                    self.register_names.insert(k, s.clone());
                                }
                            },
                            _ => {},
                        }
                        i = i + 1;
                    }
                },
                None => {},
            }
        } else {
            match DebuggerState::query_list(query, "register-values") {
                Some(regs) => {
                    let ghost rv = vals_model(regs@);
                    proof {
                        lemma_vals_model(regs@);
                    }
                    let mut i: usize = 0;
                    while i < regs.len()
                        invariant
                            i <= regs@.len(),
                            rv == vals_model(regs@),
                            rv.len() == regs@.len(),
                            forall|j: int| 0 <= j < rv.len() ==> #[trigger] rv[j] == regs@[j].deep_view(),
                            forall|j: int|
                                0 <= j < rv.len() ==> !register_value_unnamed(
                                    m0.register_names,
                                    #[trigger] rv[j],
                                ),
                            self@ == (DebuggerModel {
                                registers: registers_from(
                                    m0.registers,
                                    m0.register_names,
                                    rv,
                                    i as nat,
                                ),
                                ..m0
                            }),
                        decreases regs.len() - i,
                    {
                        let reg = &regs[i];
                        assert(!register_value_unnamed(m0.register_names, rv[i as int]));
                        proof {
                            reveal(register_value_unnamed);
                        }
                        match DebuggerState::query_str(reg, "number") {
                            Some(number) => match DebuggerState::query_str(reg, "value") {
                                Some(value) => match self.register_names.get(number.as_str()) {
                                    Some(name) => {
                                        let n = name.clone();
                                        self.registers.insert(n, value.clone());
                                    },
                                    None => {},
                                },
                                None => {},
                            },
                            None => {},
                        }
                        i = i + 1;
                    }
                },
                None => {},
            }
        }
    }
}


impl DebuggerState {
    /// Reads the current line, file and arguments from the frame.
    fn update_frame(&mut self, query: &GDBVal) -> (pending: Option<String>)
        requires
            !args_panic(query.deep_view()),
        ensures
            final(self)@ == (DebuggerModel {
                line: next_line(old(self)@, query.deep_view()),
                variables: frame_variables(old(self)@, query.deep_view()),
                ..after_frame_file(old(self)@, query.deep_view())
            }),
            match pending_file(old(self)@, query.deep_view()) {
                Some(f) => pending matches Some(x) && x@ == f,
                None => pending is None,
            },
    {
        let ghost q = query.deep_view();
        let ghost m0 = self@;
        match DebuggerState::query_val(query, "frame") {
            Some(val) => {
                match DebuggerState::query_str(val, "line") {
                    Some(line) => match parse_u32(line.as_str()) {
                        Some(n) => {
                            self.line = n;
                        },
                        None => {},
                    },
                    None => {},
                }
                let mut pending: Option<String> = None;
                match DebuggerState::query_str(val, "fullname") {
                    Some(filename) => {
                        if self.files.contains(filename.as_str()) {
                            self.files.select(filename.as_str());
                        } else {
                            pending = Some(filename.clone());
                        }
                    },
                    None => {},
                }
                match DebuggerState::query_list(val, "args") {
                    Some(args) => {
                        self.variables = args_variables(args);
                    },
                    None => {},
                }
                pending
            },
            None => None,
        }
    }
}


/// An argument of the frame as a variable (see `arg_pair`).
fn arg_variable(arg: &GDBVal) -> (r: (String, String))
    requires
        !arg_unnamed(arg.deep_view()),
    ensures
        (r.0@, r.1@) == arg_pair(arg.deep_view()),
{
    proof {
        reveal_strlit("A");
        reveal_strlit("B");
        assert("A"@ =~= seq!['A']);
        assert("B"@ =~= seq!['B']);
    }
    match arg {
        GDBVal::Record(_) => {
            match (DebuggerState::query_val(arg, "name"), DebuggerState::query_val(arg, "value")) {
                (Some(n), Some(v)) => (val_debug(n), val_debug(v)),
                _ => {
                    proof {
                        assert(false);
                    }
                    ("A".to_owned(), "B".to_owned())
                },
            }
        },
        _ => ("A".to_owned(), "B".to_owned()),
    }
}

/// The arguments of the frame as variables.
fn args_variables(args: &Vec<GDBVal>) -> (vars: Vec<(String, String)>)
    requires
        forall|j: int|
            0 <= j < vals_model(args@).len() ==> !arg_unnamed(#[trigger] vals_model(args@)[j]),
    ensures
        vars.deep_view() == Seq::new(
            vals_model(args@).len(),
            |j: int| arg_pair(vals_model(args@)[j]),
        ),
{
    let ghost av = vals_model(args@);
    proof {
        lemma_vals_model(args@);
    }
    let mut vars: Vec<(String, String)> = Vec::new();
    let mut i: usize = 0;
    assert(vars.deep_view() =~= Seq::new(0, |j: int| arg_pair(av[j])));
    while i < args.len()
        invariant
            i <= args@.len(),
            av == vals_model(args@),
            av.len() == args@.len(),
            forall|j: int| 0 <= j < av.len() ==> #[trigger] av[j] == args@[j].deep_view(),
            forall|j: int| 0 <= j < av.len() ==> !#[trigger] arg_unnamed(av[j]),
            vars.deep_view() == Seq::new(i as nat, |j: int| arg_pair(av[j])),
        decreases args.len() - i,
    {
        assert(!arg_unnamed(av[i as int]));
        let pair = arg_variable(&args[i]);
        let ghost old_vars = vars.deep_view();
        let ghost pv = pair.deep_view();
        assert(pv == arg_pair(av[i as int]));
        vars.push(pair);
        assert(vars.deep_view() =~= old_vars.push(pv));
        assert(vars.deep_view() =~= Seq::new((i + 1) as nat, |j: int| arg_pair(av[j])));
        i = i + 1;
    }
    vars
}


impl DebuggerState {
    /// Reads one line of disassembly (see `asm_step`).
    fn asm_line(&mut self, line: &GDBVal, first: bool)
        requires
            !asm_line_panics(line.deep_view()),
        ensures
            (final(self)@.asm_code, final(self)@.pc_addr) == asm_step(
                old(self)@.asm_code,
                old(self)@.pc_addr,
                line.deep_view(),
                first,
            ),
            final(self)@ == (DebuggerModel {
                asm_code: final(self)@.asm_code,
                pc_addr: final(self)@.pc_addr,
                ..old(self)@
            }),
    {
        proof {
            reveal(asm_line_panics);
        }
        match DebuggerState::query_str(line, "func-name") {
            Some(fname) => match DebuggerState::query_str(line, "offset") {
                Some(off) => match parse_usize(off.as_str()) {
                    Some(idx) => {
                        self.asm_entry(line, fname, idx, first);
                    },
                    None => {},
                },
                None => {},
            },
            None => {},
        }
    }

    /// Reads a line of disassembly for function `fname` at offset `idx`.
    fn asm_entry(&mut self, line: &GDBVal, fname: &String, idx: usize, first: bool)
        requires
            idx < usize::MAX,
            str_field(line.deep_view(), "address"@) matches Some(a) ==> hex_value(a) is Some,
        ensures
            (final(self)@.asm_code, final(self)@.pc_addr) == asm_entry(
                old(self)@.asm_code,
                old(self)@.pc_addr,
                line.deep_view(),
                fname@,
                idx as nat,
                first,
            ),
            final(self)@ == (DebuggerModel {
                asm_code: final(self)@.asm_code,
                pc_addr: final(self)@.pc_addr,
                ..old(self)@
            }),
    {
        let ghost m0 = self@;
        let mut code = match self.asm_code.remove(fname.as_str()) {
            Some(c) => c,
            None => Vec::new(),
        };
        let ghost code0 = if m0.asm_code.dom().contains(fname@) {
            m0.asm_code[fname@]
        } else {
            Seq::empty()
        };
        assert(code.deep_view() =~= code0);
        grow_to(&mut code, idx);
        assert(code.deep_view().len() > idx);
        assert(code@.len() == code.deep_view().len());
        match DebuggerState::query_str(line, "address") {
            Some(addr) => {
                let a = from_hex(addr.as_str());
                self.lower_pc(fname, a, first);
                match DebuggerState::query_str(line, "inst") {
                    Some(inst) => {
                        let ghost before = code.deep_view();
                        code.set(idx, (a, inst.clone()));
                        assert(code.deep_view() =~= before.update(idx as int, (a, inst@)));
                    },
                    None => {},
                }
            },
            None => {},
        }
        self.asm_code.insert(fname.clone(), code);
        proof {
            assert(self.asm_code@ =~= m0.asm_code.remove(fname@).insert(fname@, code.deep_view()));
            assert(m0.asm_code.remove(fname@).insert(fname@, code.deep_view()) =~= m0.asm_code.insert(fname@, code.deep_view()));
        }
    }
}

/// Grows `code` with empty slots until it holds offset `idx`.
fn grow_to(code: &mut Vec<(usize, String)>, idx: usize)
    requires
        idx < usize::MAX,
    ensures
        final(code).deep_view() == grow_code(old(code).deep_view(), idx as nat),
{
    let ghost code0 = code.deep_view();
    assert(code.deep_view() =~= code0 + Seq::new(0, |j: int| (0usize, Seq::<char>::empty())));
    while code.len() <= idx
        invariant
            idx < usize::MAX,
            code0.len() <= code.deep_view().len(),
            code.deep_view().len() == code0.len() || code.deep_view().len() <= idx + 1,
            code.deep_view() =~= code0 + Seq::new(
                (code.deep_view().len() - code0.len()) as nat,
                |j: int| (0usize, Seq::<char>::empty()),
            ),
        decreases idx + 1 - code.len(),
    {
        let ghost before = code.deep_view();
        code.push((0, String::new()));
        assert(code.deep_view() =~= before.push((0usize, Seq::<char>::empty())));
        assert(code.deep_view() =~= code0 + Seq::new(
            (code.deep_view().len() - code0.len()) as nat,
            |j: int| (0usize, Seq::<char>::empty()),
        ));
    }
    assert(code.deep_view() =~= grow_code(code0, idx as nat));
}

impl DebuggerState {
    /// Records address `a` for function `fname`: it becomes the lowest
    /// address where `first` holds or none is known, else the lower of the
    /// two.
    fn lower_pc(&mut self, fname: &String, a: usize, first: bool)
        ensures
            final(self)@ == (DebuggerModel {
                pc_addr: old(self)@.pc_addr.insert(
                    fname@,
                    if first || !old(self)@.pc_addr.dom().contains(fname@) {
                        a
                    } else if old(self)@.pc_addr[fname@] < a {
                        old(self)@.pc_addr[fname@]
                    } else {
                        a
                    },
                ),
                ..old(self)@
            }),
    {
        let ghost m0 = self@;
        if !self.pc_addr.contains_key(fname.as_str()) || first {
            self.pc_addr.insert(fname.clone(), a);
        }
        let cur = match self.pc_addr.get(fname.as_str()) {
            Some(c) => *c,
            None => {
                proof {
                    assert(false);
                }
                a
            },
        };
        if !first {
            let lowest = if cur < a {
                cur
            } else {
                a
            };
            self.pc_addr.insert(fname.clone(), lowest);
        }
        proof {
            if first || !m0.pc_addr.dom().contains(fname@) {
                assert(self.pc_addr@ =~= m0.pc_addr.insert(fname@, a));
            }
        }
    }
}


impl DebuggerState {
    /// Reads a listing of disassembly.
    fn update_asm(&mut self, query: &GDBVal)
        requires
            !asm_panic(query.deep_view()),
        ensures
            final(self)@ == (DebuggerModel {
                asm_code: next_asm(old(self)@, query.deep_view()).0,
                pc_addr: next_asm(old(self)@, query.deep_view()).1,
                ..old(self)@
            }),
    {
        let ghost m0 = self@;
        match DebuggerState::query_list(query, "asm_insns") {
            Some(lines) => {
                let ghost lv = vals_model(lines@);
                proof {
                    lemma_vals_model(lines@);
                }
                let mut first = true;
                let mut i: usize = 0;
                while i < lines.len()
                    invariant
                        i <= lines@.len(),
                        lv == vals_model(lines@),
                        lv.len() == lines@.len(),
                        forall|j: int| 0 <= j < lv.len() ==> #[trigger] lv[j] == lines@[j].deep_view(),
                        forall|j: int| 0 <= j < lv.len() ==> !#[trigger] asm_line_panics(lv[j]),
                        first == (i == 0),
                        (self@.asm_code, self@.pc_addr) == asm_from(
                            m0.asm_code,
                            m0.pc_addr,
                            lv,
                            i as nat,
                        ),
                        self@ == (DebuggerModel {
                            asm_code: self@.asm_code,
                            pc_addr: self@.pc_addr,
                            ..m0
                        }),
                    decreases lines.len() - i,
                {
                    assert(!asm_line_panics(lv[i as int]));
                    self.asm_line(&lines[i], first);
                    first = false;
                    i = i + 1;
                }
            },
            None => {},
        }
    }

    /// Appends the locals of a record to the variables.
    fn update_locals(&mut self, query: &GDBVal)
        ensures
            final(self)@ == (DebuggerModel {
                variables: old(self)@.variables + record_locals(query.deep_view()),
                ..old(self)@
            }),
    {
        let ghost m0 = self@;
        match DebuggerState::query_list(query, "locals") {
            Some(list) => {
                let mut extra = locals_of(list);
                let ghost before = self.variables@;
                let ghost ex = extra@;
                proof {
                    lemma_vals_model(list@);
                }
                assert(extra.deep_view() == record_locals(query.deep_view()));
                self.variables.append(&mut extra);
                assert(self.variables@ == before + ex);
                assert(self.variables.deep_view() =~= m0.variables + record_locals(query.deep_view()));
            },
            None => {
                assert(m0.variables + record_locals(query.deep_view()) =~= m0.variables);
            },
        }
    }

    /// Takes a record of GDB output: register names (while none are known)
    /// or register values; the current line, file and arguments of the
    /// frame; a listing of disassembly; and the locals. Returns the file of
    /// the frame where it has not been read yet: the caller reads it and
    /// hands it to `load_file`. The record must be one the state can take
    /// (see `update_panics`; `cannot_update` checks it).
    pub fn update(&mut self, query: &GDBVal) -> (pending: Option<String>)
        requires
            !update_panics(old(self)@, query.deep_view()),
        ensures
            final(self)@ == spec_update(old(self)@, query.deep_view()),
            model_wf(final(self)@),
            match pending_file(old(self)@, query.deep_view()) {
                Some(f) => pending matches Some(x) && x@ == f,
                None => pending is None,
            },
    {
        let ghost m0 = self@;
        let ghost q = query.deep_view();
        self.update_registers(query);
        let pending = self.update_frame(query);
        self.update_asm(query);
        self.update_locals(query);
        assert(self@ =~= spec_update(m0, q));
        proof {
            use_type_invariant(&self.files);
        }
        pending
    }
}


impl DebuggerState {
    /// Whether the state cannot take `query` (see `update_panics`).
    pub fn cannot_update(&self, query: &GDBVal) -> (r: bool)
        ensures
            r == update_panics(self@, query.deep_view()),
    {
        self.unnamed_register_value(query) || unnamed_argument(query) || unusable_asm_line(query)
    }

    /// Whether a register value item has a number without a name.
    fn register_unnamed(names: &StrMap<String>, reg: &GDBVal) -> (r: bool)
        ensures
            r == register_value_unnamed(names@, reg.deep_view()),
    {
        proof {
            reveal(register_value_unnamed);
        }
        match DebuggerState::query_str(reg, "number") {
            Some(number) => match DebuggerState::query_str(reg, "value") {
                Some(_) => !names.contains_key(number.as_str()),
                None => false,
            },
            None => false,
        }
    }

    /// Whether a register value of `query` has a number without a name.
    fn unnamed_register_value(&self, query: &GDBVal) -> (r: bool)
        ensures
            r == registers_panic(self@, query.deep_view()),
    {
        if self.register_names.is_empty() {
            return false;
        }
        match DebuggerState::query_list(query, "register-values") {
            Some(regs) => {
                let ghost rv = vals_model(regs@);
                let names = &self.register_names;
                proof {
                    lemma_vals_model(regs@);
                }
                let mut found = false;
                let mut i: usize = 0;
                while i < regs.len()
                    invariant
                        i <= regs@.len(),
                        rv == vals_model(regs@),
                        rv.len() == regs@.len(),
                        forall|j: int| 0 <= j < rv.len() ==> #[trigger] rv[j] == regs@[j].deep_view(),
                        found == exists|j: int|
                            0 <= j < i && #[trigger] register_value_unnamed(names@, rv[j]),
                    decreases regs.len() - i,
                {
                    if DebuggerState::register_unnamed(names, &regs[i]) {
                        assert(register_value_unnamed(names@, rv[i as int]));
                        found = true;
                    }
                    i = i + 1;
                }
                found
            },
            None => false,
        }
    }
}

/// Whether an argument is a record without a name or a value.
fn argument_unnamed(arg: &GDBVal) -> (r: bool)
    ensures
        r == arg_unnamed(arg.deep_view()),
{
    match arg {
        GDBVal::Record(_) => {
            let has_name = match DebuggerState::query_val(arg, "name") {
                Some(_) => true,
                None => false,
            };
            let has_value = match DebuggerState::query_val(arg, "value") {
                Some(_) => true,
                None => false,
            };
            !has_name || !has_value
        },
        _ => false,
    }
}

/// Whether an argument of the frame of `query` is a record without a name
/// or a value.
fn unnamed_argument(query: &GDBVal) -> (r: bool)
    ensures
        r == args_panic(query.deep_view()),
{
    match DebuggerState::query_val(query, "frame") {
        Some(val) => match DebuggerState::query_list(val, "args") {
            Some(args) => {
                let ghost av = vals_model(args@);
                let ghost target = args_panic(query.deep_view());
                proof {
                    lemma_vals_model(args@);
                    assert(target == exists|j: int| 0 <= j < av.len() && #[trigger] arg_unnamed(av[j]));
                }
                let mut i: usize = 0;
                while i < args.len()
                    invariant
                        i <= args@.len(),
                        av == vals_model(args@),
                        av.len() == args@.len(),
                        target == exists|j: int| 0 <= j < av.len() && #[trigger] arg_unnamed(av[j]),
                        target == args_panic(query.deep_view()),
                        forall|j: int| 0 <= j < av.len() ==> #[trigger] av[j] == args@[j].deep_view(),
                        forall|j: int| 0 <= j < i ==> !#[trigger] arg_unnamed(av[j]),
                    decreases args.len() - i,
                {
                    if argument_unnamed(&args[i]) {
                        assert(arg_unnamed(av[i as int]));
                        return true;
                    }
                    i = i + 1;
                }
                false
            },
            None => false,
        },
        None => false,
    }
}

/// Whether a line of disassembly has an unusable offset or address.
fn line_unusable(line: &GDBVal) -> (r: bool)
    ensures
        r == asm_line_panics(line.deep_view()),
{
    proof {
        reveal(asm_line_panics);
    }
    match DebuggerState::query_str(line, "func-name") {
        Some(_) => match DebuggerState::query_str(line, "offset") {
            Some(off) => match parse_usize(off.as_str()) {
                Some(idx) => {
                    let bad_address = match DebuggerState::query_str(line, "address") {
                        Some(addr) => match parse_hex(addr.as_str()) {
                            Some(_) => false,
                            None => true,
                        },
                        None => false,
                    };
                    idx == usize::MAX || bad_address
                },
                None => false,
            },
            None => false,
        },
        None => false,
    }
}

/// Whether a line of disassembly of `query` has an unusable offset or
/// address.
fn unusable_asm_line(query: &GDBVal) -> (r: bool)
    ensures
        r == asm_panic(query.deep_view()),
{
    match DebuggerState::query_list(query, "asm_insns") {
        Some(lines) => {
            let ghost lv = vals_model(lines@);
            proof {
                lemma_vals_model(lines@);
            }
            let mut found = false;
            let mut i: usize = 0;
            while i < lines.len()
                invariant
                    i <= lines@.len(),
                    lv == vals_model(lines@),
                    lv.len() == lines@.len(),
                    forall|j: int| 0 <= j < lv.len() ==> #[trigger] lv[j] == lines@[j].deep_view(),
                    found == exists|j: int| 0 <= j < i && #[trigger] asm_line_panics(lv[j]),
                decreases lines.len() - i,
            {
                if line_unusable(&lines[i]) {
                    assert(asm_line_panics(lv[i as int]));
                    found = true;
                }
                i = i + 1;
            }
            found
        },
        None => false,
    }
}


/// The items of a `locals` list that have a name and a value, as variables.
fn locals_of(list: &Vec<GDBVal>) -> (vars: Vec<(String, String)>)
    ensures
        vars.deep_view() == locals_from(vals_model(list@), list@.len()),
{
    let ghost lv = vals_model(list@);
    proof {
        lemma_vals_model(list@);
    }
    let mut vars: Vec<(String, String)> = Vec::new();
    let mut i: usize = 0;
    assert(vars.deep_view() =~= locals_from(lv, 0));
    while i < list.len()
        invariant
            i <= list@.len(),
            lv == vals_model(list@),
            lv.len() == list@.len(),
            forall|j: int| 0 <= j < lv.len() ==> #[trigger] lv[j] == list@[j].deep_view(),
            vars.deep_view() == locals_from(lv, i as nat),
        decreases list.len() - i,
    {
        let val = &list[i];
        match DebuggerState::query_str(val, "name") {
            Some(name) => match DebuggerState::query_str(val, "value") {
                Some(value) => {
                    let ghost before = vars.deep_view();
                    let pair = (name.clone(), value.clone());
                    let ghost pv = pair.deep_view();
                    vars.push(pair);
                    assert(vars.deep_view() =~= before.push(pv));
                },
                None => {},
            },
            None => {},
        }
        i = i + 1;
    }
    vars
}

/// A listing of the registers: each register once with its value, in
/// display order.
pub open spec fn registers_listing(m: DebuggerModel, r: Seq<(Seq<char>, Seq<char>)>) -> bool {
    listing_of(m.registers, m.register_order, r)
}

/// `r` lists the entries of `regs`, each once, in display order.
pub open spec fn listing_of(
    regs: Map<Seq<char>, Seq<char>>,
    order: Map<Seq<char>, usize>,
    r: Seq<(Seq<char>, Seq<char>)>,
) -> bool {
    &&& forall|i: int|
        0 <= i < r.len() ==> regs.dom().contains(#[trigger] r[i].0) && r[i].1 == regs[r[i].0]
    &&& forall|k: Seq<char>|
        regs.dom().contains(k) ==> exists|i: int| 0 <= i < r.len() && #[trigger] r[i].0 == k
    &&& forall|i: int, j: int|
        0 <= i < j < r.len() ==> key_before(order, #[trigger] r[i].0, #[trigger] r[j].0)
}

proof fn lemma_listing_unique(
    regs: Map<Seq<char>, Seq<char>>,
    order: Map<Seq<char>, usize>,
    r1: Seq<(Seq<char>, Seq<char>)>,
    r2: Seq<(Seq<char>, Seq<char>)>,
)
    requires
        listing_of(regs, order, r1),
        listing_of(regs, order, r2),
    ensures
        r1 == r2,
    decreases r1.len(),
{
    if r1.len() == 0 {
        if r2.len() > 0 {
            assert(regs.dom().contains(r2[0].0));
        }
        assert(r1 =~= r2);
    } else {
        let k1 = r1[0].0;
        assert(regs.dom().contains(k1));
        let x2 = choose|i: int| 0 <= i < r2.len() && #[trigger] r2[i].0 == k1;
        let k2 = r2[0].0;
        assert(regs.dom().contains(k2));
        let x1 = choose|i: int| 0 <= i < r1.len() && #[trigger] r1[i].0 == k2;
        if x1 != 0 {
            assert(key_before(order, r1[0].0, r1[x1].0));
        }
        if x2 != 0 {
            assert(key_before(order, r2[0].0, r2[x2].0));
        }
        lemma_key_before_order(order, k1, k2, k1);
        assert(k1 == k2);
        let regs2 = regs.remove(k1);
        let t1 = r1.drop_first();
        let t2 = r2.drop_first();
        assert forall|i: int| 0 <= i < t1.len() implies regs2.dom().contains(#[trigger] t1[i].0) && t1[i].1 == regs2[t1[i].0] by {
            assert(t1[i] == r1[i + 1]);
            assert(key_before(order, r1[0].0, r1[i + 1].0));
            lemma_key_before_order(order, k1, k1, k1);
        }
        assert forall|i: int| 0 <= i < t2.len() implies regs2.dom().contains(#[trigger] t2[i].0) && t2[i].1 == regs2[t2[i].0] by {
            assert(t2[i] == r2[i + 1]);
            assert(key_before(order, r2[0].0, r2[i + 1].0));
            lemma_key_before_order(order, k1, k1, k1);
        }
        assert forall|k: Seq<char>| regs2.dom().contains(k) implies exists|i: int| 0 <= i < t1.len() && #[trigger] t1[i].0 == k by {
            let x = choose|i: int| 0 <= i < r1.len() && #[trigger] r1[i].0 == k;
            assert(x != 0);
            assert(t1[x - 1] == r1[x]);
        }
        assert forall|k: Seq<char>| regs2.dom().contains(k) implies exists|i: int| 0 <= i < t2.len() && #[trigger] t2[i].0 == k by {
            let x = choose|i: int| 0 <= i < r2.len() && #[trigger] r2[i].0 == k;
            assert(x != 0);
            assert(t2[x - 1] == r2[x]);
        }
        assert forall|i: int, j: int| 0 <= i < j < t1.len() implies key_before(order, #[trigger] t1[i].0, #[trigger] t1[j].0) by {
            assert(t1[i] == r1[i + 1] && t1[j] == r1[j + 1]);
        }
        assert forall|i: int, j: int| 0 <= i < j < t2.len() implies key_before(order, #[trigger] t2[i].0, #[trigger] t2[j].0) by {
            assert(t2[i] == r2[i + 1] && t2[j] == r2[j + 1]);
        }
        lemma_listing_unique(regs2, order, t1, t2);
        assert(r1[0] == r2[0]);
        assert(r1 =~= seq![r1[0]] + t1);
        assert(r2 =~= seq![r2[0]] + t2);
    }
}

/// The register listing is determined by the state: two listings of the
/// same registers in display order are equal.
pub proof fn law_registers_listing_unique(
    m: DebuggerModel,
    r1: Seq<(Seq<char>, Seq<char>)>,
    r2: Seq<(Seq<char>, Seq<char>)>,
)
    requires
        registers_listing(m, r1),
        registers_listing(m, r2),
    ensures
        r1 == r2,
{
    lemma_listing_unique(m.registers, m.register_order, r1, r2);
}




/// Whether register `a` is listed before register `b`.
fn key_less(order: &StrMap<usize>, a: &String, b: &String) -> (r: bool)
    ensures
        r == key_before(order@, a@, b@),
{
    let ra = match order.get(a.as_str()) {
        Some(r) => *r,
        None => 500,
    };
    let rb = match order.get(b.as_str()) {
        Some(r) => *r,
        None => 500,
    };
    if ra < rb {
        true
    } else if ra == rb {
        bytes_less(a.as_str().as_bytes(), b.as_str().as_bytes())
    } else {
        false
    }
}

/// The entries are in display order.
pub open spec fn sorted_keys(order: Map<Seq<char>, usize>, s: Seq<(Seq<char>, Seq<char>)>) -> bool {
    forall|x: int, y: int|
        0 <= x < y < s.len() ==> key_before(order, #[trigger] s[x].0, #[trigger] s[y].0)
}

/// Whether some entry has key `k`.
pub open spec fn names_key(s: Seq<(Seq<char>, Seq<char>)>, k: Seq<char>) -> bool {
    exists|x: int| 0 <= x < s.len() && s[x].0 == k
}

/// The entries name exactly the keys `ks`.
pub open spec fn same_keys(s: Seq<(Seq<char>, Seq<char>)>, ks: Seq<Seq<char>>) -> bool {
    &&& forall|j: int| 0 <= j < ks.len() ==> #[trigger] names_key(s, ks[j])
    &&& forall|x: int| 0 <= x < s.len() ==> ks.contains(#[trigger] s[x].0)
}

/// Each entry has the value of its key in `regs`.
pub open spec fn values_match(regs: Map<Seq<char>, Seq<char>>, s: Seq<(Seq<char>, Seq<char>)>) -> bool {
    forall|x: int| 0 <= x < s.len() ==> regs.dom().contains(#[trigger] s[x].0) && s[x].1 == regs[s[x].0]
}

proof fn lemma_insert_keys(s: Seq<(Seq<char>, Seq<char>)>, ks: Seq<Seq<char>>, p: int, e: (Seq<char>, Seq<char>))
    requires
        0 <= p <= s.len(),
        same_keys(s, ks),
    ensures
        same_keys(s.insert(p, e), ks.push(e.0)),
{
    let n = s.insert(p, e);
    let ks2 = ks.push(e.0);
    assert forall|j: int| 0 <= j < ks2.len() implies #[trigger] names_key(n, ks2[j]) by {
        if j == ks.len() {
            assert(n[p].0 == ks2[j]);
        } else {
            assert(ks2[j] == ks[j]);
            assert(names_key(s, ks[j]));
            let x = choose|x: int| 0 <= x < s.len() && s[x].0 == ks[j];
            if x < p {
                assert(n[x] == s[x]);
            } else {
                assert(n[x + 1] == s[x]);
            }
        }
    }
    assert forall|x: int| 0 <= x < n.len() implies ks2.contains(#[trigger] n[x].0) by {
        if x == p {
            assert(ks2[ks.len() as int] == n[x].0);
        } else {
            let x2 = if x < p { x } else { x - 1 };
            assert(n[x] == s[x2]);
            assert(ks.contains(s[x2].0));
            let j = choose|j: int| 0 <= j < ks.len() && ks[j] == s[x2].0;
            assert(ks2[j] == ks[j]);
        }
    }
}

proof fn lemma_insert_values(
    s: Seq<(Seq<char>, Seq<char>)>,
    p: int,
    e: (Seq<char>, Seq<char>),
    regs: Map<Seq<char>, Seq<char>>,
)
    requires
        0 <= p <= s.len(),
        values_match(regs, s),
        regs.dom().contains(e.0),
        e.1 == regs[e.0],
    ensures
        values_match(regs, s.insert(p, e)),
{
    let n = s.insert(p, e);
    assert forall|x: int| 0 <= x < n.len() implies regs.dom().contains(#[trigger] n[x].0) && n[x].1
        == regs[n[x].0] by {
        if x > p {
            assert(n[x] == s[x - 1]);
        } else if x < p {
            assert(n[x] == s[x]);
        }
    }
}

proof fn lemma_insert_entry(
    s: Seq<(Seq<char>, Seq<char>)>,
    ks: Seq<Seq<char>>,
    p: int,
    e: (Seq<char>, Seq<char>),
    regs: Map<Seq<char>, Seq<char>>,
)
    requires
        0 <= p <= s.len(),
        same_keys(s, ks),
        values_match(regs, s),
        regs.dom().contains(e.0),
        e.1 == regs[e.0],
    ensures
        same_keys(s.insert(p, e), ks.push(e.0)),
        values_match(regs, s.insert(p, e)),
{
    lemma_insert_keys(s, ks, p, e);
    lemma_insert_values(s, p, e, regs);
}

/// Inserts register `k` with value `v` at its place in a listing in
/// display order that does not name `k`; returns the place.
fn insert_sorted<'a>(
    order: &StrMap<usize>,
    out: &mut Vec<(&'a String, &'a String)>,
    k: &'a String,
    v: &'a String,
) -> (p: usize)
    requires
        sorted_keys(order@, old(out).deep_view()),
        forall|x: int| 0 <= x < old(out).deep_view().len() ==> #[trigger] old(out).deep_view()[x].0 != k@,
    ensures
        p <= old(out).deep_view().len(),
        final(out).deep_view() == old(out).deep_view().insert(p as int, (k@, v@)),
        sorted_keys(order@, final(out).deep_view()),
{
    let ghost ov = out.deep_view();
    let ghost o = order@;
    let mut p: usize = 0;
    while p < out.len() && !key_less(order, k, out[p].0)
        invariant
            p <= out@.len(),
            ov == out.deep_view(),
            ov.len() == out@.len(),
            o == order@,
            forall|x: int| 0 <= x < ov.len() ==> #[trigger] ov[x].0 != k@,
            forall|x: int| 0 <= x < p ==> key_before(o, #[trigger] ov[x].0, k@),
        decreases out.len() - p,
    {
        proof {
            assert(ov[p as int].0 == out@[p as int].0@);
            lemma_key_before_order(o, k@, ov[p as int].0, k@);
        }
        p = p + 1;
    }
    proof {
        if p < ov.len() {
            assert(ov[p as int].0 == out@[p as int].0@);
        }
    }
    out.insert(p, (k, v));
    proof {
        let nv = out.deep_view();
        assert(nv =~= ov.insert(p as int, (k@, v@)));
        assert forall|x: int, y: int| 0 <= x < y < nv.len() implies key_before(
            o,
            #[trigger] nv[x].0,
            #[trigger] nv[y].0,
        ) by {
            if y < p {
                assert(nv[x] == ov[x] && nv[y] == ov[y]);
            } else if y == p {
                assert(nv[x] == ov[x]);
            } else if x == p {
                assert(nv[y] == ov[y - 1]);
                if y - 1 > p {
                    assert(key_before(o, ov[p as int].0, ov[y - 1].0));
                    lemma_key_before_order(o, k@, ov[p as int].0, ov[y - 1].0);
                }
            } else if x < p {
                assert(nv[x] == ov[x] && nv[y] == ov[y - 1]);
                lemma_key_before_order(o, ov[x].0, k@, ov[y - 1].0);
                if p < y - 1 {
                    lemma_key_before_order(o, k@, ov[p as int].0, ov[y - 1].0);
                }
            } else {
                assert(nv[x] == ov[x - 1] && nv[y] == ov[y - 1]);
            }
        }
    }
    p
}

impl DebuggerState {
    /// The registers with their values, in display order: by rank (the
    /// well-known registers first, in their order), then by name.
    pub fn registers_ordered(&self) -> (r: Vec<(&String, &String)>)
        ensures
            registers_listing(self@, r.deep_view()),
    {
        let es = self.registers.entries();
        let order = &self.register_order;
        let ghost regs = self@.registers;
        let mut out: Vec<(&String, &String)> = Vec::new();
        let mut i: usize = 0;
        assert(out.deep_view() =~= Seq::<(Seq<char>, Seq<char>)>::empty());
        while i < es.len()
            invariant
                i <= es@.len(),
                regs == crate::strmap::entries_map(es@),
                crate::strmap::keys_distinct(es@),
                values_match(regs, out.deep_view()),
                same_keys(out.deep_view(), Seq::new(i as nat, |j: int| es@[j].0@)),
                sorted_keys(order@, out.deep_view()),
            decreases es.len() - i,
        {
            let k = &es[i].0;
            let v = &es[i].1;
            let ghost ov = out.deep_view();
            let ghost ks = Seq::new(i as nat, |j: int| es@[j].0@);
            proof {
                lemma_entries_map(es@, i as int);
                assert forall|x: int| 0 <= x < ov.len() implies #[trigger] ov[x].0 != k@ by {
                    assert(ks.contains(ov[x].0));
                    let j = choose|j: int| 0 <= j < ks.len() && ks[j] == ov[x].0;
                    assert(es@[j].0@ != es@[i as int].0@);
                }
            }
            let p = insert_sorted(order, &mut out, k, v);
            proof {
                lemma_insert_entry(ov, ks, p as int, (k@, v@), regs);
                assert(ks.push(k@) =~= Seq::new((i + 1) as nat, |j: int| es@[j].0@));
            }
            i = i + 1;
        }
        proof {
            let ov = out.deep_view();
            let ks = Seq::new(es@.len(), |j: int| es@[j].0@);
            assert forall|key: Seq<char>| regs.dom().contains(key) implies exists|x: int|
                0 <= x < ov.len() && #[trigger] ov[x].0 == key by {
                let j = crate::strmap::key_pos(es@, key);
                assert(ks[j] == key);
                assert(names_key(ov, ks[j]));
            }
        }
        out
    }
}


/// The state after `load_file`: the contents are kept unless the file was
/// read before, and the file becomes the current one.
pub open spec fn load_model(m: DebuggerModel, filename: Seq<char>, contents: Seq<char>) -> DebuggerModel {
    select_file(
        DebuggerModel {
            files: if m.files.dom().contains(filename) {
                m.files
            } else {
                m.files.insert(filename, contents)
            },
            ..m
        },
        filename,
    )
}

/// A file's contents are handed out once: right after `get_file` handed
/// something out or not, a second call hands out nothing and changes
/// nothing.
pub proof fn law_get_file_once(
    s0: DebuggerModel,
    s1: DebuggerModel,
    s2: DebuggerModel,
    r1: Option<String>,
    r2: Option<String>,
)
    requires
        get_file_step(s0, s1, r1),
        get_file_step(s1, s2, r2),
    ensures
        r2 is None,
        s2 == s1,
{
}

/// What `get_file` hands out after `load_file` switched to another file
/// (or while a switch is pending) is that file's contents: the ones just
/// given, unless the file had been read before.
pub proof fn law_load_then_get_file(
    m: DebuggerModel,
    filename: Seq<char>,
    contents: Seq<char>,
    s2: DebuggerModel,
    r: Option<String>,
)
    requires
        m.current_file != filename || m.new_file,
        get_file_step(load_model(m, filename, contents), s2, r),
    ensures
        r matches Some(text) && text@ == (if m.files.dom().contains(filename) {
            m.files[filename]
        } else {
            contents
        }),
        !s2.new_file,
        s2.current_file == filename,
{
}

/// A frame in a file never read, other than the current one, asks for
/// that file; once the caller loads it, `get_file` hands out exactly the
/// contents it loaded.
pub proof fn law_new_frame_file_is_handed_out(
    m: DebuggerModel,
    q: SpecVal,
    f: Seq<char>,
    contents: Seq<char>,
    s: DebuggerModel,
    r: Option<String>,
)
    requires
        pending_file(m, q) == Some(f),
        f != m.current_file,
        get_file_step(load_model(spec_update(m, q), f, contents), s, r),
    ensures
        r matches Some(text) && text@ == contents,
        s.current_file == f,
        !s.new_file,
{
}

/// A frame in the file that is current, after `get_file` cleared its flag,
/// does not flag it as new again: `get_file` then hands out nothing.
pub proof fn law_same_file_not_new_again(m: DebuggerModel, q: SpecVal)
    requires
        !m.new_file,
        frame_file(q) == Some(m.current_file),
        m.files.dom().contains(m.current_file),
    ensures
        pending_file(m, q) is None,
        !spec_update(m, q).new_file,
        spec_update(m, q).current_file == m.current_file,
{
}

/// A frame with an argument list replaces the variables by its arguments,
/// each shown by the `Debug` form of its name and value, followed by the
/// record's locals.
pub proof fn law_arguments_replace_variables(m: DebuggerModel, q: SpecVal, f: SpecVal, xs: Seq<SpecVal>)
    requires
        field(q, "frame"@) == Some(f),
        list_field(f, "args"@) == Some(xs),
    ensures
        spec_update(m, q).variables == Seq::new(xs.len(), |i: int| arg_pair(xs[i])) + record_locals(q),
        forall|i: int|
            0 <= i < xs.len() && #[trigger] xs[i] is Record ==> spec_update(m, q).variables[i] == (
            val_text(field(xs[i], "name"@).unwrap()),
            val_text(field(xs[i], "value"@).unwrap()),
        ),
{
}

/// Taking a record keeps the state's invariant and the files read so far,
/// and once register names are known they stay as they are.
pub proof fn law_update_keeps(m: DebuggerModel, q: SpecVal)
    requires
        model_wf(m),
    ensures
        model_wf(spec_update(m, q)),
        spec_update(m, q).files == m.files,
        m.register_names.dom() != Set::<Seq<char>>::empty() ==> spec_update(m, q).register_names
            == m.register_names,
        spec_update(m, q).register_order == m.register_order,
{
}


/// The text of a disassembly listing: each non-empty line followed by a
/// line break; empty lines are left out.
pub open spec fn instructions_text(lines: Seq<Seq<char>>) -> Seq<char>
    decreases lines.len(),
{
    if lines.len() == 0 {
        seq![]
    } else {
        let pre = instructions_text(lines.drop_last());
        if lines.last().len() == 0 {
            pre
        } else {
            pre + lines.last() + seq!['\n']
        }
    }
}

/// Joins the non-empty lines of a disassembly listing, each followed by a
/// line break.
pub fn instructions(asm_lines: &[String]) -> (text: String)
    ensures
        text@ == instructions_text(asm_lines@.map_values(|l: String| l@)),
{
    let ghost ls = asm_lines@.map_values(|l: String| l@);
    let mut text = String::new();
    let mut i: usize = 0;
    assert(ls.subrange(0, 0) =~= Seq::<Seq<char>>::empty());
    while i < asm_lines.len()
        invariant
            i <= asm_lines@.len(),
            ls == asm_lines@.map_values(|l: String| l@),
            text@ == instructions_text(ls.subrange(0, i as int)),
        decreases asm_lines.len() - i,
    {
        let line = &asm_lines[i];
        assert(ls.subrange(0, i + 1).drop_last() =~= ls.subrange(0, i as int));
        assert(ls.subrange(0, i + 1).last() == line@);
        if !line.as_str().is_empty() {
            text.append(line.as_str());
            push_char(&mut text, '\n');
        }
        i = i + 1;
    }
    assert(ls.subrange(0, asm_lines@.len() as int) =~= ls);
    text
}

} // verus!
