use cli_parser::Arg;
use cli_parser::InvalidCommandReasons;
use cli_parser::Parser;

fn tokens_of(s: &str) -> Vec<String> {
    s.split_whitespace().map(String::from).collect()
}

fn full_parser() -> Parser {
    let mut parser = Parser::new();
    parser.add_args(vec![
        Arg::new().input("default"),
        Arg::new().input("short").short('s'),
        Arg::new().flag("flag").short('f'),
        Arg::new().param("file"),
        Arg::new().param("path"),
    ]);
    parser
}

#[test]
fn empty_input_no_definitions() {
    let parser = Parser::new();
    let res = parser.parse(&Vec::new());
    assert!(res.is_ok());
    assert_eq!(res.unwrap().len(), 0);
}

#[test]
fn duplicate_option_invocation() {
    let parser = full_parser();
    let cmd = tokens_of("--short short_inp -s s_inp");
    let err = parser.parse(&cmd).unwrap_err();
    match err.reason {
        InvalidCommandReasons::Duplicate(t) => assert_eq!(t, "s_inp"),
        _ => panic!("expected a duplicate"),
    }
}

#[test]
fn duplicate_flag_invocation() {
    let parser = full_parser();
    let cmd = tokens_of("a b -f --flag");
    let err = parser.parse(&cmd).unwrap_err();
    match err.reason {
        InvalidCommandReasons::Duplicate(t) => assert_eq!(t, "--flag"),
        _ => panic!("expected a duplicate"),
    }
}

#[test]
fn option_interrupted_by_option() {
    let parser = full_parser();
    let cmd = tokens_of("--default -f");
    let err = parser.parse(&cmd).unwrap_err();
    match err.reason {
        InvalidCommandReasons::Unexpected(t) => assert_eq!(t, "-f"),
        _ => panic!("expected an unexpected token"),
    }
}

#[test]
fn bare_token_fills_open_slot() {
    let mut parser = Parser::new();
    parser.add_arg(Arg::new().flag("flag").short('f'));
    parser.add_arg(Arg::new().param("file"));
    let cmd = tokens_of("-f unknownstuff");
    let res = parser.parse(&cmd).unwrap();
    assert_eq!(res.len(), 2);
    assert_eq!(res.get("flag").unwrap(), &None);
    assert_eq!(res.get("file").unwrap(), &Some(String::from("unknownstuff")));
}

#[test]
fn bare_token_without_open_slot() {
    let mut parser = Parser::new();
    parser.add_arg(Arg::new().flag("flag").short('f'));
    let cmd = tokens_of("-f unknownstuff");
    let err = parser.parse(&cmd).unwrap_err();
    match err.reason {
        InvalidCommandReasons::Unexpected(t) => assert_eq!(t, "unknownstuff"),
        _ => panic!("expected an unexpected token"),
    }
}

#[test]
fn value_never_arrives() {
    let parser = full_parser();
    let cmd = tokens_of("--default");
    let err = parser.parse(&cmd).unwrap_err();
    assert!(matches!(err.reason, InvalidCommandReasons::Missing));
}

#[test]
fn param_omitted() {
    let parser = full_parser();
    let cmd = tokens_of("onlyfile");
    let err = parser.parse(&cmd).unwrap_err();
    assert!(matches!(err.reason, InvalidCommandReasons::Missing));
}

#[test]
fn unknown_long_token() {
    let parser = full_parser();
    let cmd = tokens_of("a b --doesntexist");
    let err = parser.parse(&cmd).unwrap_err();
    match err.reason {
        InvalidCommandReasons::Unexpected(t) => assert_eq!(t, "--doesntexist"),
        _ => panic!("expected an unexpected token"),
    }
}

#[test]
fn unknown_short_token() {
    let parser = full_parser();
    let cmd = tokens_of("a b -z");
    let err = parser.parse(&cmd).unwrap_err();
    match err.reason {
        InvalidCommandReasons::Unexpected(t) => assert_eq!(t, "-z"),
        _ => panic!("expected an unexpected token"),
    }
}

#[test]
fn consumed_slots_are_skipped() {
    let mut first = Arg::new().param("a");
    first.set_used(false);
    let mut taken = Arg::new().param("b");
    taken.set_used(true);
    let mut parser = Parser::new();
    parser.add_args(vec![first, taken, Arg::new().param("c")]);
    let cmd = tokens_of("v1 v2");
    let res = parser.parse(&cmd).unwrap();
    assert_eq!(res.len(), 2);
    assert_eq!(res.get("a").unwrap(), &Some(String::from("v1")));
    assert!(!res.contains_key("b"));
    assert_eq!(res.get("c").unwrap(), &Some(String::from("v2")));
}

#[test]
fn all_slots_already_consumed() {
    let mut taken1 = Arg::new().param("a");
    taken1.set_used(true);
    let mut taken2 = Arg::new().param("b");
    taken2.set_used(true);
    let mut parser = Parser::new();
    parser.add_args(vec![taken1, taken2]);
    let cmd = tokens_of("x");
    let err = parser.parse(&cmd).unwrap_err();
    match err.reason {
        InvalidCommandReasons::Unexpected(t) => assert_eq!(t, "x"),
        _ => panic!("expected an unexpected token"),
    }
}

#[test]
fn parser_reusable_across_calls() {
    let mut parser = Parser::new();
    parser.add_arg(Arg::new().param("file"));
    let res1 = parser.parse(&tokens_of("first")).unwrap();
    assert_eq!(res1.get("file").unwrap(), &Some(String::from("first")));
    // The consumed-slot bookkeeping is call-local: a second parse starts
    // with the slot open again.
    let res2 = parser.parse(&tokens_of("second")).unwrap();
    assert_eq!(res2.get("file").unwrap(), &Some(String::from("second")));
}

#[test]
fn builder_order_is_immaterial() {
    let a = Arg::new().input("short").short('s');
    let b = Arg::new().short('s').input("short");
    assert_eq!(a.name, b.name);
    assert_eq!(a.kind, b.kind);
    assert_eq!(a.expecting, b.expecting);
    assert_eq!(a.short, b.short);
}

#[test]
fn role_calls_overwrite_each_other() {
    let a = Arg::new().input("one").flag("two");
    assert_eq!(a.name, "two");
    assert_eq!(a.kind, cli_parser::ArgKind::Flag);
    assert_eq!(a.expecting, false);
}

#[test]
fn message_for_unexpected() {
    let parser = full_parser();
    let err = parser.parse(&tokens_of("a b --doesntexist")).unwrap_err();
    assert_eq!(err.message(), "Invalid command, unexpected token '--doesntexist'");
}

#[test]
fn message_for_duplicate() {
    let parser = full_parser();
    let err = parser.parse(&tokens_of("--short short_inp -s s_inp")).unwrap_err();
    assert_eq!(err.message(), "Invalid command, duplicate token 's_inp'");
}

#[test]
fn message_for_missing() {
    let parser = full_parser();
    let err = parser.parse(&tokens_of("--default")).unwrap_err();
    assert_eq!(err.message(), "Invalid command, missing argument");
}

#[test]
fn absent_key_reads_as_none() {
    let parser = full_parser();
    let res = parser.parse(&tokens_of("f p")).unwrap();
    assert_eq!(res.len(), 2);
    assert!(!res.contains_key("default"));
    assert!(res.get("default").is_none());
    assert!(res.get("flag").is_none());
}
