use ucl::error::ucl_error_t;
use ucl::Error;

#[test]
fn error_codes() {
    assert!(matches!(Error::from_code(0, String::new()), Error::NoError));
    match Error::from_code(1, "bad".to_string()) {
        Error::Syntax(d) => assert_eq!(d, "bad"),
        _ => panic!("not a syntax error"),
    }
    assert!(matches!(Error::from_code(4, String::new()), Error::Nested));
    assert!(matches!(Error::from_code(7, String::new()), Error::SSL));
    assert!(matches!(Error::from_code(42, String::new()), Error::Other));
    assert!(Error::Macro.code() == Some(ucl_error_t::UCL_EMACRO));
    assert_eq!(ucl_error_t::UCL_ESTATE.code(), 3);
    assert_eq!(Error::Syntax("x".to_string()).message(), "x");
}
