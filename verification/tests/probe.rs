use antinode::probe::{
    advice, parse_args, parse_range, read_params, render_hex_text, render_maybe_hex,
    repair_unquoted_keys, Command, Failure, ParamValue, Params, BLUETOOTH_ADVICE,
    NOT_FOUND_ADVICE, SILENT_TIMEOUT_ADVICE, UNRECOGNISED_REPLY_ADVICE,
};

fn args(list: &[&str]) -> Vec<String> {
    list.iter().map(|s| s.to_string()).collect()
}

#[test]
fn a_range_is_a_number_or_two() {
    assert_eq!(parse_range("3"), Ok((3, 3)));
    assert_eq!(parse_range(" 0 - 7 "), Ok((0, 7)));
    assert_eq!(parse_range("5-5"), Ok((5, 5)));
    assert_eq!(
        parse_range("7-0"),
        Err(String::from("range end is before its start"))
    );
    assert_eq!(
        parse_range("x-1"),
        Err(String::from("range start isn't a number"))
    );
    assert_eq!(
        parse_range("1-"),
        Err(String::from("range end isn't a number"))
    );
    assert_eq!(parse_range("abc"), Err(String::from("--bank isn't a number")));
    // The first '-' splits, so a negative start is not a number.
    assert_eq!(
        parse_range("-1"),
        Err(String::from("range start isn't a number"))
    );
    assert_eq!(
        parse_range("1--2"),
        Err(String::from("range end is before its start"))
    );
    assert_eq!(parse_range("+9223372036854775807"), Ok((i64::MAX, i64::MAX)));
    assert_eq!(parse_range("9223372036854775808"), Err(String::from("--bank isn't a number")));
}

#[test]
fn bare_keys_are_quoted() {
    assert_eq!(repair_unquoted_keys("{bank_num:0}"), r#"{"bank_num":0}"#);
    assert_eq!(
        repair_unquoted_keys("{a:true, b2 :null, c:x}"),
        r#"{"a":true, b2 :null, "c":x}"#
    );
    assert_eq!(
        repair_unquoted_keys(r#"{"already":1,"s":"k:v"}"#),
        r#"{"already":1,"s":"k:v"}"#
    );
    assert_eq!(repair_unquoted_keys("{true:1,null:2}"), "{true:1,null:2}");
    assert_eq!(repair_unquoted_keys("{9x:1}"), r#"{9"x":1}"#);
    assert_eq!(repair_unquoted_keys(""), "");
}

#[test]
fn params_are_json_or_pairs() {
    assert!(matches!(read_params("   "), Ok(Params::Empty)));
    let expected: serde_json::Value = serde_json::from_str(r#"{"bank_num":0}"#).unwrap();
    match read_params(r#" {"bank_num":0} "#) {
        Ok(Params::Json(v)) => assert_eq!(v, expected),
        other => panic!("{other:?}"),
    }
    // What a shell leaves of a quoted object still reads.
    match read_params("{bank_num:0}") {
        Ok(Params::Json(v)) => assert_eq!(v, expected),
        other => panic!("{other:?}"),
    }
    match read_params("{oops") {
        Err(m) => assert!(m.starts_with("not JSON (") && m.ends_with("); try key=value form instead, e.g. bank_num=0")),
        other => panic!("{other:?}"),
    }
    match read_params(" bank_num = 0, on=true,off=false, gain=0.5, name = x y ") {
        Ok(Params::Pairs(p)) => assert_eq!(
            p,
            vec![
                (String::from("bank_num"), ParamValue::Int(0)),
                (String::from("on"), ParamValue::Bool(true)),
                (String::from("off"), ParamValue::Bool(false)),
                (String::from("gain"), ParamValue::Text(String::from("0.5"))),
                (String::from("name"), ParamValue::Text(String::from("x y"))),
            ]
        ),
        other => panic!("{other:?}"),
    }
    match read_params("a=1,b") {
        Err(m) => assert_eq!(m, "`b` is not key=value"),
        other => panic!("{other:?}"),
    }
    match read_params("a=1,,b=2") {
        Err(m) => assert_eq!(m, "`` is not key=value"),
        other => panic!("{other:?}"),
    }
    match read_params("k=a=b") {
        Ok(Params::Pairs(p)) => {
            assert_eq!(p, vec![(String::from("k"), ParamValue::Text(String::from("a=b")))])
        }
        other => panic!("{other:?}"),
    }
}

#[test]
fn the_command_line_reads_options_and_flags() {
    let a = match parse_args(args(&[])) {
        Ok(Command::Run(a)) => a,
        other => panic!("{other:?}"),
    };
    assert_eq!(a.scan_secs, 10);
    assert!(a.write_len.is_none() && a.config_out.is_none() && a.bank.is_none());
    assert!(!a.diagnose && !a.trace && !a.sweep && a.call.is_empty());

    let a = match parse_args(args(&[
        "--scan-secs", "20", "--write-len", "244", "--bank", "0-7", "--config", "out.json",
        "--sweep", "--trace", "--diagnose", "--call", "PrintBank", "bank_num=0", "--call",
        "GetLevels", "--trace",
    ])) {
        Ok(Command::Run(a)) => a,
        other => panic!("{other:?}"),
    };
    assert_eq!(a.scan_secs, 20);
    assert_eq!(a.write_len, Some(244));
    assert_eq!(a.bank, Some((0, 7)));
    assert_eq!(a.config_out.as_deref(), Some("out.json"));
    assert!(a.sweep && a.trace && a.diagnose);
    assert_eq!(
        a.call,
        vec![
            (String::from("PrintBank"), String::from("bank_num=0")),
            (String::from("GetLevels"), String::from("{}")),
        ]
    );
}

#[test]
fn the_command_line_reports_what_is_wrong() {
    let err = |list: &[&str]| match parse_args(args(list)) {
        Err(e) => e,
        other => panic!("{other:?}"),
    };
    assert_eq!(err(&["--scan-secs"]), "--scan-secs needs a value");
    assert_eq!(err(&["--scan-secs", "ten"]), "--scan-secs isn't a number");
    assert_eq!(err(&["--write-len"]), "--write-len needs a value");
    assert_eq!(err(&["--write-len", "-1"]), "--write-len isn't a number");
    assert_eq!(err(&["--bank"]), "--bank needs a number or range like 0-7");
    assert_eq!(err(&["--bank", "3-1"]), "range end is before its start");
    assert_eq!(err(&["--call"]), "--call needs a method name");
    assert_eq!(err(&["--config"]), "--config needs a path");
    assert_eq!(err(&["--verbose"]), "unrecognised argument: --verbose");
    assert!(matches!(parse_args(args(&["--trace", "-h", "--bogus"])), Ok(Command::Help)));
    assert!(matches!(parse_args(args(&["--help"])), Ok(Command::Help)));
    // "-h" does not begin "--", so after --call it is taken as parameters.
    match parse_args(args(&["--call", "X", "-h"])) {
        Ok(Command::Run(a)) => assert_eq!(a.call, vec![(String::from("X"), String::from("-h"))]),
        other => panic!("{other:?}"),
    }
}

#[test]
fn hex_replies_are_dumped_sixteen_bytes_a_row() {
    let text = "52494646545000000057415645FFff00112233445566778899";
    let dump = render_hex_text(text).unwrap();
    let expected = String::from("        decoded 25 bytes:\n")
        + "          0000  52 49 46 46 54 50 00 00 00 57 41 56 45 ff ff 00  |RIFFTP...WAVE...|\n"
        + "          0010  11 22 33 44 55 66 77 88 99                       |.\"3DUfw..|\n";
    assert_eq!(dump, expected);
}

#[test]
fn what_is_not_hex_is_left_alone() {
    assert_eq!(render_hex_text("abcdef0"), None);
    assert_eq!(render_hex_text("abcdef012"), None);
    assert_eq!(render_hex_text("abcdefgh"), None);
    assert_eq!(render_hex_text("abcdef01"), Some(String::from("        decoded 4 bytes:\n          0000  ab cd ef 01                                      |....|\n")));
    assert_eq!(render_maybe_hex(&serde_json::Value::from(12)), None);
    assert_eq!(
        render_maybe_hex(&serde_json::Value::from("4142434445464748")),
        render_hex_text("4142434445464748")
    );
}

#[test]
fn long_dumps_keep_counting_offsets() {
    let text = "00".repeat(16 * 300);
    let dump = render_hex_text(&text).unwrap();
    assert!(dump.contains("\n          0100  00"));
    assert!(dump.contains("\n          12b0  00"));
    assert_eq!(dump.lines().count(), 301);
}

#[test]
fn failures_come_with_advice() {
    assert_eq!(advice(&Failure::NotFound), NOT_FOUND_ADVICE);
    assert_eq!(
        advice(&Failure::NoAdapter),
        "No Bluetooth adapter. Is Bluetooth switched on?"
    );
    assert_eq!(advice(&Failure::Timeout { heard_nothing: true }), SILENT_TIMEOUT_ADVICE);
    assert_eq!(
        advice(&Failure::Timeout { heard_nothing: false }),
        UNRECOGNISED_REPLY_ADVICE
    );
    assert_eq!(advice(&Failure::Bluetooth), BLUETOOTH_ADVICE);
    assert_eq!(
        advice(&Failure::Other),
        "Record what happened in the plan's Findings before changing anything."
    );
    assert!(advice(&Failure::Rpc).starts_with("The device answered and the envelope parsed"));
}

#[test]
fn repairing_twice_is_repairing_once() {
    for text in [
        "{bank_num:0}",
        "{a:true, b2 :null, c:x}",
        r#"{"already":1,"s":"k:v"}"#,
        "{9x:1, _y_:[1,2], z:{w:3}}",
        r#"{"open:1, k:2"#,
    ] {
        let once = repair_unquoted_keys(text);
        assert_eq!(repair_unquoted_keys(&once), once);
    }
}

#[test]
fn repairing_only_inserts_quotes() {
    let text = "{a:1, \"b\":c, d :2}";
    let repaired = repair_unquoted_keys(text);
    assert_eq!(repaired, "{\"a\":1, \"b\":c, d :2}");
    assert_eq!(repaired.replace('"', ""), text.replace('"', ""));
    let mut rest = repaired.chars().peekable();
    for c in text.chars() {
        while rest.peek() != Some(&c) {
            assert_eq!(rest.next(), Some('"'));
        }
        rest.next();
    }
    assert!(rest.all(|c| c == '"'));
}
