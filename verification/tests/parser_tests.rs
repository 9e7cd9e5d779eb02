use gdb_funend::parser::GDBToken::{CloseB, ClosePb, Comma, OpenB, OpenPb};
use gdb_funend::parser::{parse, tokenize, try_parse, GDBToken, GDBVal, Parser};

fn s(x: &str) -> GDBToken {
    GDBToken::Str(x.to_string())
}

fn vs(x: &str) -> GDBVal {
    GDBVal::Str(x.to_string())
}

#[test]
fn tk_test() {
    let t1 = tokenize("ola=\"voce\",,=");
    println!("{:?}", t1);
    assert_eq!(t1, vec![OpenPb, s("ola"), GDBToken::Eq, s("voce"), Comma, Comma, GDBToken::Eq, ClosePb]);
    let t2 = tokenize("{address=\"0x000107bc\",func-name=\"main\",offset=\"0\", inst=\"save  %sp, -112, %sp\"},");
    println!("{:?}", t2);
    assert_eq!(
        t2,
        vec![
            OpenPb, OpenPb, s("address"), GDBToken::Eq, s("0x000107bc"), Comma, s("func-name"), GDBToken::Eq, s("main"),
            Comma, s("offset"), GDBToken::Eq, s("0"), Comma, s("inst"), GDBToken::Eq, s("save  %sp, -112, %sp"), ClosePb,
            Comma, ClosePb,
        ]
    );
}

#[test]
fn test_parse() {
    let str = r#" registers=["0","1","2","4","5","6","7","8","9", "10","11","13","14","15","16","17","18","19","20","21","22","23", "24","25","26","27","28","30","31","64","65","66","67","69"] "#;
    let r = parse(str);
    println!("{:#?}", r);
    let nums = [
        "0", "1", "2", "4", "5", "6", "7", "8", "9", "10", "11", "13", "14", "15", "16", "17", "18",
        "19", "20", "21", "22", "23", "24", "25", "26", "27", "28", "30", "31", "64", "65", "66",
        "67", "69",
    ];
    let expected = GDBVal::Record(vec![(
        "registers".to_string(),
        GDBVal::List(nums.iter().map(|n| vs(n)).collect()),
    )]);
    assert_eq!(r.unwrap(), expected);

    let str = r#" register-names=["r0","r1","r2","r3","r4","r5","r6","r7",
            "r8","r9","r10","r11","r12","r13","r14","r15","r16","r17","r18",
            "r19","r20","r21","r22","r23","r24","r25","r26","r27","r28","r29",
            "r30","r31","f0","f1","f2","f3","f4","f5","f6","f7","f8","f9",
            "f10","f11","f12","f13","f14","f15","f16","f17","f18","f19","f20",
            "f21","f22","f23","f24","f25","f26","f27","f28","f29","f30","f31",
            "", "pc","ps","cr","lr","ctr","xer"]"#;
    let r = parse(str);
    println!("{:#?}", r);
    let mut names: Vec<String> = Vec::new();
    for i in 0..32 {
        names.push(format!("r{}", i));
    }
    for i in 0..32 {
        names.push(format!("f{}", i));
    }
    for n in ["", "pc", "ps", "cr", "lr", "ctr", "xer"] {
        names.push(n.to_string());
    }
    let expected = GDBVal::Record(vec![(
        "register-names".to_string(),
        GDBVal::List(names.iter().map(|n| vs(n)).collect()),
    )]);
    assert_eq!(r.unwrap(), expected);
}

#[test]
fn tokenize_wraps_every_line_in_braces() {
    assert_eq!(tokenize(""), vec![OpenPb, ClosePb]);
    assert_eq!(tokenize("   "), vec![OpenPb, ClosePb]);
}

#[test]
fn tokenize_skips_console_lines() {
    assert_eq!(tokenize("~\"hello, world\"\na=\"1\""), vec![OpenPb, s("a"), GDBToken::Eq, s("1"), ClosePb]);
    assert_eq!(tokenize("x~rest"), vec![OpenPb, s("x~rest"), ClosePb]);
    assert_eq!(tokenize("~never ends"), vec![OpenPb, ClosePb]);
}

#[test]
fn tokenize_bare_words_end_at_stop_characters() {
    assert_eq!(tokenize("ab cd"), vec![OpenPb, s("ab"), s("cd"), ClosePb]);
    assert_eq!(tokenize("a}"), vec![OpenPb, s("a}"), ClosePb]);
    assert_eq!(tokenize("ab\"cd"), vec![OpenPb, s("ab"), s("cd"), ClosePb]);
    assert_eq!(tokenize("9=1"), vec![OpenPb, GDBToken::Eq, ClosePb]);
    assert_eq!(tokenize("\"unterminated"), vec![OpenPb, s("unterminated"), ClosePb]);
}

#[test]
fn tokenize_keeps_escaped_quotes_in_the_string() {
    assert_eq!(
        tokenize(r#"x="a\"b""#),
        vec![OpenPb, s("x"), GDBToken::Eq, s("a\"b"), ClosePb]
    );
    assert_eq!(
        tokenize(r#"p="c:\\dir",q="1""#),
        vec![OpenPb, s("p"), GDBToken::Eq, s("c:\\dir"), Comma, s("q"), GDBToken::Eq, s("1"), ClosePb]
    );
    // A backslash before any other character stays as it is.
    assert_eq!(tokenize(r#"m="a\nb""#), vec![OpenPb, s("m"), GDBToken::Eq, s("a\\nb"), ClosePb]);
    // A backslash at the very end is kept.
    assert_eq!(tokenize("\"a\\"), vec![OpenPb, s("a\\"), ClosePb]);
}

#[test]
fn parse_string_with_escaped_quote() {
    let r = parse(r#"msg="say \"hi\"""#).unwrap();
    assert_eq!(r, GDBVal::Record(vec![("msg".to_string(), vs("say \"hi\""))]));
}

#[test]
fn tokenize_reads_bytes_as_latin1() {
    // "é" is the bytes C3 A9: 'Ã' starts a word (alphabetic), '©' does not stop it.
    assert_eq!(tokenize("é"), vec![OpenPb, s("\u{c3}\u{a9}"), ClosePb]);
    // U+05C0 is the bytes D7 80: neither '×' nor the control 0x80 starts a token.
    assert_eq!(tokenize("\u{5c0}"), vec![OpenPb, ClosePb]);
}

#[test]
fn parse_nested_records_and_lists() {
    let r = parse("^done,frame={line=\"12\",args=[{name=\"argc\",value=\"1\"}]}").unwrap();
    let expected = GDBVal::Record(vec![
        ("done".to_string(), GDBVal::Record(vec![])),
    ]);
    // `^done,` : the name `done` has no value and is dropped.
    let _ = expected;
    let frame = GDBVal::Record(vec![
        ("line".to_string(), vs("12")),
        (
            "args".to_string(),
            GDBVal::List(vec![GDBVal::Record(vec![
                ("name".to_string(), vs("argc")),
                ("value".to_string(), vs("1")),
            ])]),
        ),
    ]);
    assert_eq!(r, GDBVal::Record(vec![("frame".to_string(), frame)]));
}

#[test]
fn parse_keeps_one_entry_per_name() {
    let r = parse("a=\"1\",b=\"2\",a=\"3\"").unwrap();
    assert_eq!(
        r,
        GDBVal::Record(vec![("a".to_string(), vs("3")), ("b".to_string(), vs("2"))])
    );
}

#[test]
fn parse_error_missing_comma_in_list() {
    let e = parse("a=[\"x\" \"y\"]").unwrap_err();
    assert_eq!(e.position, 5);
    assert_eq!(e.expected, GDBToken::Comma);
    assert_eq!(e.found, s("y"));
    assert_eq!(e.cause(), "[token 5]: Expected Comma, found Str(\"y\")");
}

#[test]
fn parse_error_missing_equals() {
    let e = parse("a b").unwrap_err();
    assert_eq!(e.position, 2);
    assert_eq!(e.expected, GDBToken::Eq);
    assert_eq!(e.found, s("b"));
    assert_eq!(e.cause(), "[token 2]: Expected Eq, found Str(\"b\")");
}

#[test]
fn parse_error_missing_close_brace() {
    let e = parse("]").unwrap_err();
    assert_eq!(e.position, 1);
    assert_eq!(e.expected, GDBToken::ClosePb);
    assert_eq!(e.found, GDBToken::CloseB);
}

#[test]
fn try_parse_reports_lines_without_outcome() {
    // A value may not start with `]`.
    assert!(try_parse("a=]").is_none());
    // Reading past the last token.
    assert!(try_parse("a={").is_none());
    assert!(try_parse("a=[b,").is_none());
    assert_eq!(try_parse("a=\"1\"").unwrap().unwrap(), GDBVal::Record(vec![("a".to_string(), vs("1"))]));
    assert!(try_parse("a b").unwrap().is_err());
}

#[test]
fn parser_parses_from_its_position() {
    let mut p = Parser::new(vec![OpenB, s("x"), Comma, s("y"), CloseB]);
    assert_eq!(p.parse().unwrap(), GDBVal::List(vec![vs("x"), vs("y")]));
}

#[test]
fn clone_is_deep() {
    let v = parse("a=[\"1\",{b=\"2\"}]").unwrap();
    assert_eq!(v.clone(), v);
}

#[test]
fn console_line_before_a_line_adds_no_tokens() {
    let line = "frame={line=\"3\"}";
    let with_console = format!("~{}\n{}", "\"Breakpoint 1, main ()\"", line);
    assert_eq!(tokenize(&with_console), tokenize(line));
}

#[test]
fn name_and_quoted_value_read_as_one_entry() {
    assert_eq!(
        tokenize("func-name=\"main loop, 2\""),
        vec![OpenPb, s("func-name"), GDBToken::Eq, s("main loop, 2"), ClosePb]
    );
}

#[test]
fn joined_lines_tokenize_as_their_parts() {
    let a = "x=1, ";
    let b = "y=\"2\"}";
    let ta = tokenize(a);
    let tb = tokenize(b);
    let mut expected = ta[..ta.len() - 1].to_vec();
    expected.extend_from_slice(&tb[1..]);
    assert_eq!(tokenize(&format!("{}{}", a, b)), expected);
}

#[test]
fn value_must_start_with_string_list_or_record() {
    assert!(try_parse("a=]").is_none());
    assert!(try_parse("a=,b=\"1\"").is_none());
    assert!(try_parse("l=[\"1\",]").is_none());
    assert!(try_parse("l=[=]").is_none());
    assert!(try_parse("l=[]").is_some());
}

#[test]
fn parser_reads_back_the_tokens_of_a_value() {
    // {a=[x,y],b=z} followed by tokens that are not read.
    let tokens = vec![
        OpenPb,
        s("a"),
        GDBToken::Eq,
        OpenB,
        s("x"),
        Comma,
        s("y"),
        CloseB,
        Comma,
        s("b"),
        GDBToken::Eq,
        s("z"),
        ClosePb,
        CloseB,
        Comma,
    ];
    let mut p = Parser::new(tokens);
    let expected = GDBVal::Record(vec![
        ("a".to_string(), GDBVal::List(vec![vs("x"), vs("y")])),
        ("b".to_string(), vs("z")),
    ]);
    assert_eq!(p.parse().unwrap(), expected);
}
