use ucl::object::Builder;
use ucl::{Decimal, Object, Type};

#[test]
fn object_from_int() {
    let obj = Object::from(10);
    assert_eq!(obj.get_type(), Type::Int);
}

#[test]
fn object_from_double() {
    let obj = Object::from(Decimal::new(10, 0));
    assert_eq!(obj.get_type(), Type::Float);
}

#[test]
fn object_from_bool() {
    let obj = Object::from(true);
    assert_eq!(obj.get_type(), Type::Boolean);
}

#[test]
fn object_from_string() {
    let obj = Object::from("lol".to_string());
    assert_eq!(obj.get_type(), Type::String);
}

#[test]
fn object_from_str() {
    let obj = Object::from("lol");
    assert_eq!(obj.get_type(), Type::String);
}

#[test]
fn object_to_int() {
    let obj = Object::from(10);
    assert_eq!(obj.as_int(), Some(10));
}

#[test]
fn object_to_string() {
    let obj = Object::from("lol");
    assert_eq!(obj.as_string(), Some("lol".to_string()));
}

#[test]
fn object_to_int_invalid_type() {
    let obj = Object::from(Decimal::new(10, 0));
    assert_eq!(obj.as_int(), None);
}

#[test]
fn test_from_int() {
    let obj = Builder::from(10).build();
    assert_eq!(obj.get_type(), Type::Int);
}

#[test]
fn test_from_double() {
    let obj = Builder::from(Decimal::new(10, 0)).build();
    assert_eq!(obj.get_type(), Type::Float);
}

#[test]
fn test_from_bool() {
    let obj = Builder::from(true).build();
    assert_eq!(obj.get_type(), Type::Boolean);
}

#[test]
fn test_from_string() {
    let obj = Builder::from("lol".to_string()).build();
    assert_eq!(obj.get_type(), Type::String);
}

#[test]
fn test_from_str() {
    let obj = Builder::from("lol").build();
    assert_eq!(obj.get_type(), Type::String);
}

#[test]
fn test_to_int() {
    let obj = Builder::from(10).build();
    assert_eq!(obj.as_int(), Some(10));
}

#[test]
fn test_to_string() {
    let obj = Builder::from("lol").build();
    assert_eq!(obj.as_string(), Some("lol".to_string()));
}

#[test]
fn test_to_int_invalid_type() {
    let obj = Builder::from(Decimal::new(10, 0)).build();
    assert_eq!(obj.as_int(), None);
}

#[test]
fn builder_into_object() {
    let obj: Object = Builder::from(false).into();
    assert_eq!(obj.as_bool(), Some(false));
    assert_eq!(obj.as_float(), None);
    assert_eq!(obj.key(), None);
}

#[test]
fn accessors_on_other_types() {
    let obj = Object::from("x");
    assert_eq!(obj.as_bool(), None);
    assert_eq!(obj.as_time(), None);
    assert!(obj.fetch("x").is_none());
    assert!(obj.fetch_path("x").is_none());
    assert!(obj.fetch_path("").is_some());
}

#[test]
fn clone_copies_whole_tree() {
    let root = ucl::Parser::new()
        .parse(r#"a = 1; a = 2; b { c = [1, "x", { d = yes }] }"#)
        .unwrap();
    let copy = root.clone();
    let fmt = ucl::Emitter::JSONCompact;
    assert_eq!(fmt.emit(&copy), fmt.emit(&root));
    let mut target = root.clone();
    target.merge(copy);
    assert_eq!(target.fetch_chain("a").unwrap().len(), 4);
    assert_eq!(root.fetch_chain("a").unwrap().len(), 2);
}
