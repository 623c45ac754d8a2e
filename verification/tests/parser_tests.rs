use cli_parser::Arg;
use cli_parser::ArgKind;
use cli_parser::Parser;

fn toks(s: &str) -> Vec<String> {
    s.split_whitespace().map(String::from).collect()
}

#[test]
fn create_arg() {
    let default = Arg::new().input("default");
    assert_eq!(default.name, "default");
    assert_eq!(default.expecting, true);

    let short = Arg::new().input("short").short('s');
    assert_eq!(short.name, "short");
    assert_eq!(short.short, Some('s'));
    assert_eq!(short.expecting, true);

    let flag = Arg::new().flag("flag").short('f');
    assert_eq!(flag.expecting, false);
    assert_eq!(flag.short, Some('f'));
    assert_eq!(flag.name, "flag");

    let mut param = Arg::new().param("param");
    assert_eq!(param.expecting, false);
    if let ArgKind::Param(used) = param.kind {
        assert!(!used);
    } else {
        assert!(false);
    }
    assert_eq!(param.name, "param");

    param.set_used(true);
    if let ArgKind::Param(used) = param.kind {
        assert!(used);
    } else {
        assert!(false);
    }
}

#[test]
fn append_args() {
    let default = Arg::new().input("default");
    let short = Arg::new().input("short").short('s');
    let flag = Arg::new().flag("flag").short('f');

    let mut parser = Parser::new();
    parser.add_arg(default);
    assert_eq!(parser.len(), 1);
    parser.add_args(vec![short, flag]);
    assert_eq!(parser.len(), 3);
    assert_eq!(parser.args()[2].name, "flag");
}

#[test]
fn test_parse_err() {
    let default = Arg::new().input("default");
    let short = Arg::new().input("short").short('s');
    let flag = Arg::new().flag("flag").short('f');
    let param1 = Arg::new().param("p1");
    let param2 = Arg::new().param("p2");

    let mut parser = Parser::new();
    parser.add_args(vec![default, short, flag, param1, param2]);

    // Err on duplicate value
    let cmd = toks("--short short_inp -s s_inp p1 p2");
    let res = parser.parse(&cmd);
    assert!(res.is_err());

    // Err on invalid command order
    let cmd = toks("--default -f p1 p2");
    let res = parser.parse(&cmd);
    assert!(res.is_err());

    // Err on unexpected token
    let cmd = toks("p1 p2 -f dsjfhkjuh");
    let res = parser.parse(&cmd);
    assert!(res.is_err());

    // Err on missing token
    let cmd = toks("p1 p2 --default");
    let res = parser.parse(&cmd);
    assert!(res.is_err());

    // Err on missing param
    let cmd = toks("p1 -f");
    let res = parser.parse(&cmd);
    assert!(res.is_err());

    // Err on unrecognized arg
    let cmd = toks("p1 p2 --doesntexist");
    let res = parser.parse(&cmd);
    assert!(res.is_err());
}

#[test]
fn test_parse_success() {
    let default = Arg::new().input("default");
    let short = Arg::new().input("short").short('s');
    let flag = Arg::new().flag("flag").short('f');
    let param1 = Arg::new().param("file");
    let param2 = Arg::new().param("path");

    let mut parser = Parser::new();
    parser.add_args(vec![default, short, flag, param1, param2]);

    let cmd = toks("--default def_arg filename -s s_arg -f pathname");
    let res = parser.parse(&cmd);
    assert!(res.is_ok());

    let res = res.unwrap();
    assert_eq!(res.len(), 5);
    assert!(res.contains_key("default"));
    assert_eq!(res.get("default").unwrap(), &Some(String::from("def_arg")));
    assert!(res.contains_key("short"));
    assert_eq!(res.get("short").unwrap(), &Some(String::from("s_arg")));
    assert!(res.contains_key("flag"));
    assert_eq!(res.get("flag").unwrap(), &None);
    assert!(res.contains_key("file"));
    assert_eq!(res.get("file").unwrap(), &Some(String::from("filename")));
    assert!(res.contains_key("path"));
    assert_eq!(res.get("path").unwrap(), &Some(String::from("pathname")));
}
