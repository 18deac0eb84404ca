use ucl::parser::{DEFAULT, LOWERCASE, NO_IMPLICIT_ARRAYS, NO_TIME, STRICT_VARIABLES};
use ucl::{Decimal, Error, Parser, Type};

#[test]
fn string_parsing() {
    let p = Parser::new();
    let s = r#"lol = "lol""#;

    assert!(p.parse(s).is_ok());
}

#[test]
fn empty_string_parsing() {
    let p = Parser::new();
    let s = r#""#;

    assert!(p.parse(s).is_ok());
}

#[test]
fn key_fetching() {
    let p = Parser::new();
    let s = r#"lol = 10"#;
    let res = p.parse(s).unwrap();

    assert_eq!(res.fetch("lol").unwrap().as_int(), Some(10));
}

#[test]
fn flags() {
    let s = r#"LoL = 10"#;
    let p = Parser::with_flags(DEFAULT);
    let res = p.parse(s).unwrap();

    assert!(res.fetch("lol").is_none());

    let p = Parser::with_flags(LOWERCASE);
    let res = p.parse(s).unwrap();

    assert_eq!(res.fetch("lol").unwrap().as_int(), Some(10));
}

#[test]
fn variables() {
    let s = r#"lol = $LOL"#;
    let mut p = Parser::new();
    p.register_var("LOL".to_string(), "test".to_string());
    let res = p.parse(s).unwrap();

    assert_eq!(res.fetch("lol").unwrap().as_string(), Some("test".to_string()));
}

#[test]
fn doc_examples() {
    assert!(Parser::new().parse("a = b").is_ok());
    assert!(Parser::new().parse("a =").is_err());
    let doc = Parser::with_flags(LOWERCASE).parse("A = b").unwrap();
    assert!(doc.fetch("a").is_some());
    let obj = Parser::new().parse("a = b;").unwrap();
    assert_eq!(obj.fetch("a").unwrap().as_string(), Some("b".to_string()));
    let obj = Parser::new().parse("a = { b = c; }").unwrap();
    assert_eq!(obj.fetch_path("a.b").unwrap().as_string(), Some("c".to_string()));
}

#[test]
fn nginx_like_document() {
    let doc = r#"
param = value;
section {
    flag = true;
    number = 10k;
    subsection {
        hosts = {
            host = "localhost";
            port = 9000
        }
        hosts = {
            host = "remotehost"
            port = 9090
        }
    }
}
"#;
    let root = Parser::new().parse(doc).unwrap();
    assert_eq!(root.fetch("param").unwrap().as_string(), Some("value".to_string()));
    assert_eq!(root.fetch_path("section.flag").unwrap().as_bool(), Some(true));
    assert_eq!(root.fetch_path("section.number").unwrap().as_int(), Some(10000));
    let sub = root.fetch_path("section.subsection").unwrap();
    let hosts = sub.fetch_chain("hosts").unwrap();
    assert_eq!(hosts.len(), 2);
    assert_eq!(hosts[0].fetch("port").unwrap().as_int(), Some(9000));
    assert_eq!(hosts[1].fetch("host").unwrap().as_string(), Some("remotehost".to_string()));
    assert_eq!(root.fetch_path("section.subsection.hosts.port").unwrap().as_int(), Some(9000));
}

#[test]
fn json_document() {
    let doc = r#"{"param": "value", "section": {"flag": true, "number": 10000, "list": [1, 2.5, null]}}"#;
    let root = Parser::new().parse(doc).unwrap();
    assert_eq!(root.get_type(), Type::Object);
    assert_eq!(root.fetch_path("section.number").unwrap().as_int(), Some(10000));
    let list = root.fetch_path("section.list").unwrap();
    assert_eq!(list.get_type(), Type::Array);
    match &list.value {
        ucl::Value::Array(a) => {
            assert_eq!(a.len(), 3);
            assert_eq!(a[0].as_int(), Some(1));
            assert_eq!(a[1].as_float(), Some(Decimal::new(25, -1)));
            assert_eq!(a[2].get_type(), Type::Null);
        }
        _ => panic!("not an array"),
    }
}

#[test]
fn duplicate_keys_fold_into_chain() {
    let root = Parser::new().parse("a = 1; a = 2;").unwrap();
    let chain = root.fetch_chain("a").unwrap();
    assert_eq!(chain.len(), 2);
    assert_eq!(chain[0].as_int(), Some(1));
    assert_eq!(chain[1].as_int(), Some(2));
    assert_eq!(root.fetch("a").unwrap().as_int(), Some(1));
}

#[test]
fn duplicate_keys_refused_without_implicit_arrays() {
    let err = Parser::with_flags(NO_IMPLICIT_ARRAYS).parse("a = 1; a = 2;").unwrap_err();
    assert_eq!(err, "line 1, column 8: duplicate key");
    assert!(Parser::with_flags(NO_IMPLICIT_ARRAYS).parse("a = 1; b = 2;").is_ok());
}

#[test]
fn lower_priority_chunk_does_not_override() {
    let mut p = Parser::new();
    assert!(p.add_chunk("a { b = 2 }", 5).is_ok());
    assert!(p.add_chunk("a { b = 1 }", 1).is_ok());
    let root = p.get_object().unwrap();
    assert_eq!(root.fetch_path("a.b").unwrap().as_int(), Some(2));
    assert_eq!(root.fetch_chain("a").unwrap().len(), 1);
}

#[test]
fn higher_priority_chunk_replaces() {
    let mut p = Parser::new();
    assert!(p.add_chunk("a { b = 2 }", 1).is_ok());
    assert!(p.add_chunk("a { b = 1 }", 5).is_ok());
    let root = p.get_object().unwrap();
    assert_eq!(root.fetch_path("a.b").unwrap().as_int(), Some(1));
}

#[test]
fn equal_priority_chunks_chain() {
    let mut p = Parser::new();
    assert!(p.add_chunk("a = 1; c = 3", 2).is_ok());
    assert!(p.add_chunk("a = 2", 2).is_ok());
    let root = p.get_object().unwrap();
    let chain = root.fetch_chain("a").unwrap();
    assert_eq!(chain.len(), 2);
    assert_eq!(chain[1].as_int(), Some(2));
    assert_eq!(root.fetch("c").unwrap().as_int(), Some(3));
}

#[test]
fn failed_chunk_keeps_earlier_document() {
    let mut p = Parser::new();
    assert!(matches!(p.get_object(), Err(Error::State)));
    assert!(p.add_chunk("a = 1", 0).is_ok());
    assert!(p.add_chunk("b = {", 0).is_err());
    let root = p.get_object().unwrap();
    assert_eq!(root.fetch("a").unwrap().as_int(), Some(1));
    assert!(root.fetch("b").is_none());
}

#[test]
fn path_resolution() {
    let root = Parser::new().parse(r#"a = { b = { c = "x" } }"#).unwrap();
    let c = root.fetch_path("a.b.c").unwrap();
    assert_eq!(c.get_type(), Type::String);
    assert_eq!(c.as_string(), Some("x".to_string()));
    assert_eq!(c.key(), Some("c".to_string()));
    assert!(root.fetch_path("a.z").is_none());
    let same = root.fetch_path("").unwrap();
    assert!(same.fetch("a").is_some());
    assert!(root.fetch_path("a..b").unwrap().fetch("c").is_some());
    assert!(root.fetch_path("a.b.c.d").is_none());
}

#[test]
fn numeric_suffixes() {
    let root = Parser::new()
        .parse("a = 10k; b = 1.5m; c = 2kb; d = 3mb; e = 1gb; f = 2g; g = 7")
        .unwrap();
    assert_eq!(root.fetch("a").unwrap().as_int(), Some(10000));
    assert_eq!(root.fetch("b").unwrap().as_float(), Some(Decimal::new(15, 5)));
    assert_eq!(root.fetch("c").unwrap().as_int(), Some(2048));
    assert_eq!(root.fetch("d").unwrap().as_int(), Some(3145728));
    assert_eq!(root.fetch("e").unwrap().as_int(), Some(1073741824));
    assert_eq!(root.fetch("f").unwrap().as_int(), Some(2000000000));
    assert_eq!(root.fetch("g").unwrap().as_int(), Some(7));
    let b = root.fetch("b").unwrap().as_float().unwrap();
    let value = (b.mantissa as f64) * 10f64.powi(b.exponent);
    assert_eq!(value, 1500000.0);
}

#[test]
fn time_suffixes() {
    let root = Parser::new()
        .parse("a = 10ms; b = 5s; c = 2min; d = 1h; e = 1d; f = 1w; g = 1y; h = 1.5s")
        .unwrap();
    assert_eq!(root.fetch("a").unwrap().as_time(), Some(Decimal::new(10, -3)));
    assert_eq!(root.fetch("b").unwrap().as_time(), Some(Decimal::new(5, 0)));
    assert_eq!(root.fetch("c").unwrap().as_time(), Some(Decimal::new(120, 0)));
    assert_eq!(root.fetch("d").unwrap().as_time(), Some(Decimal::new(3600, 0)));
    assert_eq!(root.fetch("e").unwrap().as_time(), Some(Decimal::new(86400, 0)));
    assert_eq!(root.fetch("f").unwrap().as_time(), Some(Decimal::new(604800, 0)));
    assert_eq!(root.fetch("g").unwrap().as_time(), Some(Decimal::new(31536000, 0)));
    assert_eq!(root.fetch("h").unwrap().as_time(), Some(Decimal::new(15, -1)));
    assert_eq!(root.fetch("a").unwrap().get_type(), Type::Time);
}

#[test]
fn no_time_flag_gives_plain_numbers() {
    let root = Parser::with_flags(NO_TIME).parse("a = 2min; b = 10ms").unwrap();
    assert_eq!(root.fetch("a").unwrap().as_int(), Some(120));
    assert_eq!(root.fetch("b").unwrap().as_float(), Some(Decimal::new(10, -3)));
}

#[test]
fn numbers_signs_and_exponents() {
    let root = Parser::new()
        .parse("a = -5; b = +3; c = 1e3; d = -2.25; e = 12abc; f = 99999999999999999999; g = 2.5E-2")
        .unwrap();
    assert_eq!(root.fetch("a").unwrap().as_int(), Some(-5));
    assert_eq!(root.fetch("b").unwrap().as_int(), Some(3));
    assert_eq!(root.fetch("c").unwrap().as_float(), Some(Decimal::new(1, 3)));
    assert_eq!(root.fetch("d").unwrap().as_float(), Some(Decimal::new(-225, -2)));
    assert_eq!(root.fetch("e").unwrap().as_string(), Some("12abc".to_string()));
    assert_eq!(
        root.fetch("f").unwrap().as_string(),
        Some("99999999999999999999".to_string())
    );
    assert_eq!(root.fetch("g").unwrap().as_float(), Some(Decimal::new(25, -3)));
}

#[test]
fn keywords() {
    let root = Parser::new()
        .parse("a = yes; b = off; c = NULL; d = True; e = maybe")
        .unwrap();
    assert_eq!(root.fetch("a").unwrap().as_bool(), Some(true));
    assert_eq!(root.fetch("b").unwrap().as_bool(), Some(false));
    assert_eq!(root.fetch("c").unwrap().get_type(), Type::Null);
    assert_eq!(root.fetch("d").unwrap().as_bool(), Some(true));
    assert_eq!(root.fetch("e").unwrap().as_string(), Some("maybe".to_string()));
}

#[test]
fn lowercase_keys() {
    let root = Parser::with_flags(LOWERCASE).parse("LoL = 10").unwrap();
    assert_eq!(root.fetch("lol").unwrap().as_int(), Some(10));
    assert!(root.fetch("LoL").is_none());
    assert_eq!(root.fetch("lol").unwrap().key(), Some("lol".to_string()));
}

#[test]
fn unresolved_variable_kept() {
    let root = Parser::new().parse("lol = $MISSING").unwrap();
    assert_eq!(root.fetch("lol").unwrap().as_string(), Some("$MISSING".to_string()));
}

#[test]
fn unresolved_variable_strict() {
    assert!(Parser::with_flags(STRICT_VARIABLES).parse("lol = $MISSING").is_err());
}

#[test]
fn variable_forms() {
    let mut p = Parser::new();
    p.register_var("A".to_string(), "x$B".to_string());
    p.register_var("B".to_string(), "y".to_string());
    let root = p
        .parse(r#"a = "${A}-$A-$$A"; b = 'lit $A'; c = "pre${B}post""#)
        .unwrap();
    assert_eq!(root.fetch("a").unwrap().as_string(), Some("x$B-x$B-$A".to_string()));
    assert_eq!(root.fetch("b").unwrap().as_string(), Some("lit $A".to_string()));
    assert_eq!(root.fetch("c").unwrap().as_string(), Some("preypost".to_string()));
}

#[test]
fn later_registration_wins() {
    let mut p = Parser::new();
    p.register_var("V".to_string(), "one".to_string());
    p.register_var("V".to_string(), "two".to_string());
    let root = p.parse("v = $V").unwrap();
    assert_eq!(root.fetch("v").unwrap().as_string(), Some("two".to_string()));
}

#[test]
fn strings_and_escapes() {
    let root = Parser::new()
        .parse(r#"a = "x\ny\t\"q\" \\ \x41 é"; b = 'it\'s \n'; c = some bare words ; d = "http://x/y""#)
        .unwrap();
    assert_eq!(root.fetch("a").unwrap().as_string(), Some("x\ny\t\"q\" \\ A é".to_string()));
    assert_eq!(root.fetch("b").unwrap().as_string(), Some("it's \\n".to_string()));
    assert_eq!(root.fetch("c").unwrap().as_string(), Some("some bare words".to_string()));
    assert_eq!(root.fetch("d").unwrap().as_string(), Some("http://x/y".to_string()));
}

#[test]
fn heredoc_strings() {
    let root = Parser::new().parse("text = <<EOD\nline one\nline two\nEOD\nafter = 1").unwrap();
    assert_eq!(
        root.fetch("text").unwrap().as_string(),
        Some("line one\nline two".to_string())
    );
    assert_eq!(root.fetch("after").unwrap().as_int(), Some(1));
    assert!(Parser::new().parse("text = <<EOD\nno end\n").is_err());
}

#[test]
fn comments_are_skipped() {
    let doc = "# hash\na = 1 // slash\n/* block /* nested */ still */ b = 2\n";
    let root = Parser::new().parse(doc).unwrap();
    assert_eq!(root.fetch("a").unwrap().as_int(), Some(1));
    assert_eq!(root.fetch("b").unwrap().as_int(), Some(2));
    assert!(Parser::new().parse("a = 1 /* open").is_err());
}

#[test]
fn syntax_errors_carry_position() {
    assert_eq!(
        Parser::new().parse("a = 1\nb =").unwrap_err(),
        "line 2, column 4: value expected"
    );
    assert_eq!(
        Parser::new().parse("a = {\n b = 1").unwrap_err(),
        "line 1, column 6: unmatched '{'"
    );
    assert_eq!(
        Parser::new().parse("a = 1 }").unwrap_err(),
        "line 1, column 7: unexpected '}'"
    );
    assert_eq!(
        Parser::new().parse("a b").unwrap_err(),
        "line 1, column 3: ':' or '=' expected after key"
    );
    assert_eq!(
        Parser::new().parse(r#"a = "open"#).unwrap_err(),
        "line 1, column 5: unterminated string"
    );
    assert_eq!(
        Parser::new().parse(r#"a = "\q""#).unwrap_err(),
        "line 1, column 5: invalid escape sequence"
    );
    assert_eq!(
        Parser::new().parse("a = [1, 2").unwrap_err(),
        "line 1, column 6: unmatched '['"
    );
    assert_eq!(
        Parser::new().parse("{ a = 1 } b").unwrap_err(),
        "line 1, column 11: unexpected input after the document"
    );
    assert_eq!(Parser::new().parse("= 1").unwrap_err(), "line 1, column 1: key expected");
}

#[test]
fn macros_and_nesting_errors() {
    let mut p = Parser::new();
    assert!(matches!(p.add_chunk(".include \"x\"", 0), Err(Error::Macro)));
    let deep = "a = ".to_string() + &"[".repeat(200) + &"]".repeat(200);
    let mut p = Parser::new();
    assert!(matches!(p.add_chunk(&deep, 0), Err(Error::Nested)));
}

#[test]
fn top_level_array_and_braces() {
    let root = Parser::new().parse("[1, 2, 3]").unwrap();
    assert_eq!(root.get_type(), Type::Array);
    let root = Parser::new().parse("{ a = 1 }").unwrap();
    assert_eq!(root.fetch("a").unwrap().as_int(), Some(1));
    let root = Parser::new().parse("a = [], b = {}, c = [1,],").unwrap();
    assert_eq!(root.fetch("a").unwrap().get_type(), Type::Array);
    assert_eq!(root.fetch("b").unwrap().get_type(), Type::Object);
}

#[test]
fn integer_limits() {
    let root = Parser::new()
        .parse("max = 9223372036854775807; min = -9223372036854775808; over = 9223372036854775808")
        .unwrap();
    assert_eq!(root.fetch("max").unwrap().as_int(), Some(i64::MAX));
    assert_eq!(root.fetch("min").unwrap().as_int(), Some(i64::MIN));
    assert_eq!(
        root.fetch("over").unwrap().as_string(),
        Some("9223372036854775808".to_string())
    );
}

#[test]
fn unicode_escapes() {
    let root = Parser::new().parse(r#"a = "Aé€"; b = "\x7e""#).unwrap();
    assert_eq!(root.fetch("a").unwrap().as_string(), Some("Aé€".to_string()));
    assert_eq!(root.fetch("b").unwrap().as_string(), Some("~".to_string()));
    assert!(Parser::new().parse(r#"a = "\ud800""#).is_err());
    assert!(Parser::new().parse(r#"a = "\u12""#).is_err());
}

#[test]
fn quoted_keys_and_separators() {
    let root = Parser::with_flags(LOWERCASE)
        .parse(r#""Quoted Key": 1, 'Other' = 2; plain: 3"#)
        .unwrap();
    assert_eq!(root.fetch("quoted key").unwrap().as_int(), Some(1));
    assert_eq!(root.fetch("other").unwrap().as_int(), Some(2));
    assert_eq!(root.fetch("plain").unwrap().as_int(), Some(3));
}

#[test]
fn equal_priority_objects_chain_not_merge() {
    let mut p = Parser::new();
    assert!(p.add_chunk("a { b = 1 }", 3).is_ok());
    assert!(p.add_chunk("a { c = 2 }", 3).is_ok());
    let root = p.get_object().unwrap();
    let chain = root.fetch_chain("a").unwrap();
    assert_eq!(chain.len(), 2);
    assert_eq!(chain[0].fetch("b").unwrap().as_int(), Some(1));
    assert!(chain[0].fetch("c").is_none());
    assert_eq!(chain[1].fetch("c").unwrap().as_int(), Some(2));
}

#[test]
fn missing_value_reports_position() {
    let mut p = Parser::new();
    match p.add_chunk("key =  # nothing", 0) {
        Err(Error::Syntax(m)) => assert_eq!(m, "line 1, column 17: value expected"),
        _ => panic!("expected a syntax error"),
    }
}
