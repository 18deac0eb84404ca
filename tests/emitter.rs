use ucl::emitter::{ucl_emitter, Emitter};
use ucl::types::ucl_type_t;
use ucl::{Decimal, Object, Parser, Type};

fn sample() -> Object {
    Parser::new()
        .parse(
            r#"name = "demo"; count = 3; ratio = 0.25; big = 1.5m; wait = 10ms; on = true;
nothing = null; list = [1, "two", {x = 1}]; inner { k = "a\"b"; }; dup = 1; dup = 2; empty {}"#,
        )
        .unwrap()
}

#[test]
fn json_output() {
    let root = Parser::new().parse(r#"a = 1; b { c = "x"; d = [true, null] }"#).unwrap();
    let out = Emitter::JSON.emit(&root).unwrap();
    assert_eq!(
        out,
        "{\n  \"a\": 1,\n  \"b\": {\n    \"c\": \"x\",\n    \"d\": [\n      true,\n      null\n    ]\n  }\n}"
    );
}

#[test]
fn compact_json_output() {
    let root = Parser::new().parse(r#"a = 1; a = 2; b = "q\n"; c = 2.5; d = {}"#).unwrap();
    let out = Emitter::JSONCompact.emit(&root).unwrap();
    assert_eq!(out, r#"{"a":[1,2],"b":"q\n","c":2.5,"d":{}}"#);
}

#[test]
fn config_output() {
    let root = Parser::new().parse(r#"a = 1; a = 2; "odd key" = x; t = 2min; o { p = [1, 2] }"#).unwrap();
    let out = Emitter::Config.emit(&root).unwrap();
    assert_eq!(
        out,
        "a = 1;\na = 2;\n\"odd key\" = \"x\";\nt = 120e0s;\no {\n    p [\n        1,\n        2,\n    ]\n}\n"
    );
}

#[test]
fn yaml_output() {
    let root = Parser::new().parse(r#"a = 1; b { c = x }; d = [1, 2]; e = []"#).unwrap();
    let out = Emitter::YAML.emit(&root).unwrap();
    assert_eq!(out, "a: 1\nb:\n  c: \"x\"\nd:\n  - 1\n  - 2\ne: []\n");
}

#[test]
fn leaf_output() {
    assert_eq!(Emitter::JSON.emit(&Object::from(-42)).unwrap(), "-42");
    assert_eq!(Emitter::JSON.emit(&Object::from(Decimal::new(5, -3))).unwrap(), "0.005");
    assert_eq!(Emitter::JSON.emit(&Object::from(Decimal::new(-15, 2))).unwrap(), "-15e2");
    assert_eq!(Emitter::JSON.emit(&Object::from("a\u{1}")).unwrap(), "\"a\\u0001\"");
    assert_eq!(Emitter::Config.emit(&Object::from(false)).unwrap(), "false");
}

fn same_tree(a: &Object, b: &Object) -> bool {
    if a.get_type() != b.get_type() {
        return false;
    }
    match (&a.value, &b.value) {
        (ucl::Value::Object(x), ucl::Value::Object(y)) => {
            x.len() == y.len()
                && x.iter().zip(y.iter()).all(|(p, q)| {
                    p.key == q.key
                        && p.values.len() == q.values.len()
                        && p.values.iter().zip(q.values.iter()).all(|(u, v)| same_tree(u, v))
                })
        }
        (ucl::Value::Array(x), ucl::Value::Array(y)) => {
            x.len() == y.len() && x.iter().zip(y.iter()).all(|(u, v)| same_tree(u, v))
        }
        _ => a.as_int() == b.as_int()
            && a.as_float() == b.as_float()
            && a.as_time() == b.as_time()
            && a.as_bool() == b.as_bool()
            && a.as_string() == b.as_string(),
    }
}

#[test]
fn config_round_trip() {
    let root = sample();
    let text = Emitter::Config.emit(&root).unwrap();
    let again = Parser::new().parse(&text).unwrap();
    assert!(same_tree(&root, &again), "{}", text);
}

#[test]
fn json_round_trip() {
    let root = Parser::new()
        .parse(r#"{"a": [1, -2.5, "x\ty"], "b": {"c": null, "d": false}, "e": 1e2}"#)
        .unwrap();
    for fmt in [Emitter::JSON, Emitter::JSONCompact] {
        let text = fmt.emit(&root).unwrap();
        let again = Parser::new().parse(&text).unwrap();
        assert!(same_tree(&root, &again), "{}", text);
    }
}

#[test]
fn code_conversions() {
    assert!(Emitter::from(ucl_emitter::UCL_EMIT_YAML) == Emitter::YAML);
    assert!(ucl_emitter::from(Emitter::JSONCompact) == ucl_emitter::UCL_EMIT_JSON_COMPACT);
    assert_eq!(Type::from(ucl_type_t::UCL_TIME), Type::Time);
    assert_eq!(Type::from(ucl_type_t::UCL_USERDATA), Type::UserData);
}

#[test]
fn leaf_texts_read_back() {
    for v in [0i64, 7, -7, i64::MAX, i64::MIN] {
        let text = Emitter::JSON.emit(&Object::from(v)).unwrap();
        let root = Parser::new().parse(&format!("v = {}", text)).unwrap();
        assert_eq!(root.fetch("v").unwrap().as_int(), Some(v));
    }
    for (m, e) in [(15i64, -1i32), (-3, -7), (42, 0), (1, 9), (-123456789, -3)] {
        let d = Decimal::new(m, e);
        let text = Emitter::JSON.emit(&Object::from(d)).unwrap();
        let root = Parser::new().parse(&format!("v = {}", text)).unwrap();
        assert_eq!(root.fetch("v").unwrap().as_float(), Some(d));
        let text = Emitter::Config.emit(&Parser::new().parse(&format!("t = {}s", text)).unwrap()).unwrap();
        let root = Parser::new().parse(&text).unwrap();
        assert_eq!(root.fetch("t").unwrap().as_time(), Some(d));
    }
    let s = "tab\tquote\"back\\slash\u{7}é".to_string();
    let text = Emitter::JSON.emit(&Object::from(s.clone())).unwrap();
    let root = Parser::new().parse(&format!("v = {}", text)).unwrap();
    assert_eq!(root.fetch("v").unwrap().as_string(), Some(s));
}

#[test]
fn dollars_survive_native_round_trip() {
    let root = Parser::new().parse(r#"price = "cost $$5 and $$$$""#).unwrap();
    assert_eq!(root.fetch("price").unwrap().as_string(), Some("cost $5 and $$".to_string()));
    let text = Emitter::Config.emit(&root).unwrap();
    assert_eq!(text, "price = \"cost $$5 and $$$$\";\n");
    let mut p = Parser::new();
    p.register_var("5".to_string(), "five".to_string());
    let again = p.parse(&text).unwrap();
    assert_eq!(again.fetch("price").unwrap().as_string(), Some("cost $5 and $$".to_string()));
}
