use gdb_funend::debugger::DebuggerState;
use gdb_funend::parser::{parse, GDBVal};

fn vs(x: &str) -> GDBVal {
    GDBVal::Str(x.to_string())
}

#[test]
fn new_state() {
    let mut d = DebuggerState::new();
    assert_eq!(d.line(), 1);
    assert!(d.variables().is_empty());
    assert_eq!(d.asm_code().len(), 0);
    assert_eq!(d.pc_addr().len(), 0);
    assert!(d.registers_ordered().is_empty());
    assert_eq!(d.get_file(), None);
}

#[test]
fn query_functions() {
    let q = parse("a=\"1\",l=[\"x\"],r={b=\"2\"}").unwrap();
    assert_eq!(DebuggerState::query_val(&q, "a"), Some(&vs("1")));
    assert_eq!(DebuggerState::query_str(&q, "a").map(|s| s.as_str()), Some("1"));
    assert_eq!(DebuggerState::query_str(&q, "l"), None);
    assert_eq!(DebuggerState::query_list(&q, "l"), Some(&vec![vs("x")]));
    assert_eq!(DebuggerState::query_list(&q, "zz"), None);
    assert!(DebuggerState::query_val(&vs("x"), "a").is_none());
}

fn update(d: &mut DebuggerState, line: &str) -> Option<String> {
    let q = parse(line).unwrap();
    assert!(!d.cannot_update(&q));
    d.update(&q)
}

#[test]
fn registers_named_then_valued_and_ordered() {
    let mut d = DebuggerState::new();
    update(&mut d, "^done,register-names=[\"rbx\",\"zz\",\"\",\"rax\",\"aa\"]");
    // Names are read once.
    update(&mut d, "^done,register-names=[\"q\"]");
    update(
        &mut d,
        "^done,register-values=[{number=\"0\",value=\"0x1\"},{number=\"1\",value=\"0x2\"},{number=\"3\",value=\"0x3\"},{number=\"4\",value=\"0x4\"},{number=\"4\"}]",
    );
    let regs: Vec<(String, String)> = d
        .registers_ordered()
        .into_iter()
        .map(|(k, v)| (k.clone(), v.clone()))
        .collect();
    assert_eq!(
        regs,
        vec![
            ("rax".to_string(), "0x3".to_string()),
            ("rbx".to_string(), "0x1".to_string()),
            ("aa".to_string(), "0x4".to_string()),
            ("zz".to_string(), "0x2".to_string()),
        ]
    );
}

#[test]
fn register_value_without_name_is_refused() {
    let mut d = DebuggerState::new();
    update(&mut d, "register-names=[\"rax\"]");
    let q = parse("register-values=[{number=\"7\",value=\"0x1\"}]").unwrap();
    assert!(d.cannot_update(&q));
}

#[test]
fn frame_line_file_and_arguments() {
    let mut d = DebuggerState::new();
    let pending = update(
        &mut d,
        "*stopped,frame={line=\"42\",fullname=\"/src/a.c\",args=[{name=\"argc\",value=\"1\"},\"x\"]}",
    );
    assert_eq!(pending, Some("/src/a.c".to_string()));
    assert_eq!(d.line(), 42);
    assert_eq!(
        d.variables(),
        &vec![
            ("Str(\"argc\")".to_string(), "Str(\"1\")".to_string()),
            ("A".to_string(), "B".to_string()),
        ]
    );
    // Nothing to hand out until the file is loaded.
    assert_eq!(d.get_file(), None);
    d.load_file("/src/a.c", "int main;".to_string());
    assert_eq!(d.get_file(), Some("int main;".to_string()));
    assert_eq!(d.get_file(), None);
    // The file is known now: a frame in it needs no read, and changes nothing.
    let pending = update(&mut d, "frame={fullname=\"/src/a.c\",line=\"x\"}");
    assert_eq!(pending, None);
    assert_eq!(d.line(), 42);
    assert_eq!(d.get_file(), None);
}

#[test]
fn switching_back_to_a_known_file_hands_it_out_again() {
    let mut d = DebuggerState::new();
    d.load_file("a.c", "A".to_string());
    d.load_file("b.c", "B".to_string());
    assert_eq!(d.get_file(), Some("B".to_string()));
    // Contents of a file read before are kept.
    d.load_file("a.c", "changed".to_string());
    assert_eq!(d.get_file(), Some("A".to_string()));
    let pending = update(&mut d, "frame={fullname=\"b.c\"}");
    assert_eq!(pending, None);
    assert_eq!(d.get_file(), Some("B".to_string()));
}

#[test]
fn argument_values_are_shown_in_debug_form() {
    let mut d = DebuggerState::new();
    update(
        &mut d,
        "frame={args=[{name=\"p\",value={a=\"1\",b=[\"x\",\"y\"]}},{name=[],value=\"q\\\"r\"}]}",
    );
    assert_eq!(
        d.variables(),
        &vec![
            (
                "Str(\"p\")".to_string(),
                "Record({\"a\": Str(\"1\"), \"b\": List([Str(\"x\"), Str(\"y\")])})".to_string(),
            ),
            ("List([])".to_string(), "Str(\"q\\\"r\")".to_string()),
        ]
    );
}

#[test]
fn argument_without_value_is_refused() {
    let d = DebuggerState::new();
    let q = parse("frame={args=[{name=\"a\"}]}").unwrap();
    assert!(d.cannot_update(&q));
}

#[test]
fn locals_are_appended() {
    let mut d = DebuggerState::new();
    update(&mut d, "frame={args=[]},locals=[{name=\"i\",value=\"3\"},{name=\"j\"},{name=\"k\",value=\"4\"}]");
    assert_eq!(
        d.variables(),
        &vec![("i".to_string(), "3".to_string()), ("k".to_string(), "4".to_string())]
    );
}

#[test]
fn disassembly_lines() {
    let mut d = DebuggerState::new();
    update(
        &mut d,
        "^done,asm_insns=[{address=\"0x0000000000010408\",func-name=\"main\",offset=\"2\",inst=\"mov r0, r1\"},{address=\"0x10400\",func-name=\"main\",offset=\"0\",inst=\"push\"}]",
    );
    let code = d.asm_code().get("main").unwrap();
    assert_eq!(
        code,
        &vec![
            (0x10400, "push".to_string()),
            (0, String::new()),
            (0x10408, "mov r0, r1".to_string()),
        ]
    );
    assert_eq!(d.pc_addr().get("main"), Some(&0x10400));
    // A new listing sets the lowest address afresh with its first line.
    update(&mut d, "asm_insns=[{address=\"0x20000\",func-name=\"main\",offset=\"1\"}]");
    assert_eq!(d.pc_addr().get("main"), Some(&0x20000));
    assert_eq!(d.asm_code().get("main").unwrap().len(), 3);
}

#[test]
fn disassembly_with_bad_address_is_refused() {
    let d = DebuggerState::new();
    let q = parse("asm_insns=[{address=\"zz\",func-name=\"f\",offset=\"0\"}]").unwrap();
    assert!(d.cannot_update(&q));
    let q = parse("asm_insns=[{address=\"0x0x1f\",func-name=\"f\",offset=\"0\"}]").unwrap();
    assert!(!d.cannot_update(&q));
    let mut d2 = DebuggerState::new();
    d2.update(&q);
    assert_eq!(d2.pc_addr().get("f"), Some(&0x1f));
}

#[test]
fn line_numbers_accept_a_plus_sign_only() {
    let mut d = DebuggerState::new();
    update(&mut d, "frame={line=\"+7\"}");
    assert_eq!(d.line(), 7);
    update(&mut d, "frame={line=\"-7\"}");
    assert_eq!(d.line(), 7);
    update(&mut d, "frame={line=\"4294967296\"}");
    assert_eq!(d.line(), 7);
}

#[test]
fn load_file() {
    let mut dbg = DebuggerState::new();
    let path = "C:\\\\Users\\\\gabri\\\\Programming\\\\GDB-FunEnd\\\\examples\\\\a.c";
    dbg.load_file(path, "int main() {}".to_string());
    assert_eq!(dbg.get_file(), Some("int main() {}".to_string()));
}

#[test]
fn instructions_join_non_empty_lines() {
    let lines = vec![
        "mov r0, r1".to_string(),
        String::new(),
        "bx lr".to_string(),
    ];
    assert_eq!(gdb_funend::debugger::instructions(&lines), "mov r0, r1\nbx lr\n");
    assert_eq!(gdb_funend::debugger::instructions(&[]), "");
}

#[test]
fn disassembly_keeps_other_slots_and_lowest_addresses() {
    let mut d = DebuggerState::new();
    update(&mut d, "asm_insns=[{address=\"0x20\",func-name=\"f\",offset=\"1\",inst=\"b\"}]");
    assert_eq!(
        d.asm_code().get("f").unwrap(),
        &vec![(0, "".to_string()), (0x20, "b".to_string())]
    );
    assert_eq!(d.pc_addr().get("f"), Some(&0x20));
    // The first line is another function's: the old lowest address of `f` counts.
    update(
        &mut d,
        "asm_insns=[{address=\"0x100\",func-name=\"g\",offset=\"0\",inst=\"x\"},{address=\"0x10\",func-name=\"f\",offset=\"0\",inst=\"a\"},{address=\"0x30\",func-name=\"f\",offset=\"1\"},{func-name=\"f\",offset=\"3\",inst=\"c\"}]",
    );
    assert_eq!(
        d.asm_code().get("f").unwrap(),
        &vec![
            (0x10, "a".to_string()),
            (0x20, "b".to_string()),
            (0, "".to_string()),
            (0, "".to_string()),
        ]
    );
    assert_eq!(d.pc_addr().get("f"), Some(&0x10));
    assert_eq!(d.pc_addr().get("g"), Some(&0x100));
    assert_eq!(d.asm_code().get("g").unwrap(), &vec![(0x100, "x".to_string())]);
    // The first line is one of `f`: its lowest address starts afresh.
    update(&mut d, "asm_insns=[{address=\"0x40\",func-name=\"f\",offset=\"0\",inst=\"z\"}]");
    assert_eq!(d.pc_addr().get("f"), Some(&0x40));
    assert_eq!(d.pc_addr().get("g"), Some(&0x100));
    assert_eq!(d.asm_code().get("f").unwrap()[0], (0x40, "z".to_string()));
}
