//! Errors reported by the engine.
use vstd::prelude::*;

verus! {

/// The kinds of failure, with the numeric codes they are reported under.
#[derive(Debug, PartialEq, Eq, Copy, Clone, Structural)]
#[allow(non_camel_case_types)]
pub enum ucl_error_t {
    UCL_EOK,
    UCL_ESYNTAX,
    UCL_EIO,
    UCL_ESTATE,
    UCL_ENESTED,
    UCL_EMACRO,
    UCL_EINTERNAL,
    UCL_ESSL,
}

impl ucl_error_t {
    /// The numeric code: 0 for `UCL_EOK`, then 1 to 7 in declaration order.
    pub fn code(&self) -> (r: i32)
        ensures
            r == error_code(*self),
    {
        match self {
            ucl_error_t::UCL_EOK => 0,
            ucl_error_t::UCL_ESYNTAX => 1,
            ucl_error_t::UCL_EIO => 2,
            ucl_error_t::UCL_ESTATE => 3,
            ucl_error_t::UCL_ENESTED => 4,
            ucl_error_t::UCL_EMACRO => 5,
            ucl_error_t::UCL_EINTERNAL => 6,
            ucl_error_t::UCL_ESSL => 7,
        }
    }
}

pub open spec fn error_code(e: ucl_error_t) -> i32 {
    match e {
        ucl_error_t::UCL_EOK => 0,
        ucl_error_t::UCL_ESYNTAX => 1,
        ucl_error_t::UCL_EIO => 2,
        ucl_error_t::UCL_ESTATE => 3,
        ucl_error_t::UCL_ENESTED => 4,
        ucl_error_t::UCL_EMACRO => 5,
        ucl_error_t::UCL_EINTERNAL => 6,
        ucl_error_t::UCL_ESSL => 7,
    }
}

/// An error of the engine.
///
/// `Syntax` carries a description that includes the line and column of the
/// offending input; `Io` comes from whoever reads sources; `State` is a
/// misuse of the API, such as asking for a document before any chunk was
/// parsed; `Nested` is nesting deeper than allowed; `Macro` is a macro that
/// no handler accepts; `Internal` is a broken invariant.
#[derive(Debug, Clone)]
pub enum Error {
    NoError,
    Syntax(String),
    Io,
    State,
    Nested,
    Macro,
    Internal,
    SSL,
    Other,
}

/// The description of an error: the text of a syntax error, or the name of
/// the kind.
pub open spec fn error_message(e: Error) -> Seq<char> {
    match e {
        Error::Syntax(d) => d@,
        Error::NoError => "no error"@,
        Error::Io => "input/output error"@,
        Error::State => "no document has been parsed"@,
        Error::Nested => "nesting too deep"@,
        Error::Macro => "macro failed"@,
        Error::Internal => "internal error"@,
        Error::SSL => "signature error"@,
        Error::Other => "unknown error"@,
    }
}

impl Error {
    /// The error reported under the numeric code `num`, with `desc` as the
    /// description of a syntax error. Unknown codes give `Other`.
    pub fn from_code(num: i32, desc: String) -> (r: Error)
        ensures
            num == 0 ==> r is NoError,
            num == 1 ==> (r matches Error::Syntax(d) && d@ == desc@),
            num == 2 ==> r is Io,
            num == 3 ==> r is State,
            num == 4 ==> r is Nested,
            num == 5 ==> r is Macro,
            num == 6 ==> r is Internal,
            num == 7 ==> r is SSL,
            !(0 <= num <= 7) ==> r is Other,
    {
        if num == 0 {
            Error::NoError
        } else if num == 1 {
            Error::Syntax(desc)
        } else if num == 2 {
            Error::Io
        } else if num == 3 {
            Error::State
        } else if num == 4 {
            Error::Nested
        } else if num == 5 {
            Error::Macro
        } else if num == 6 {
            Error::Internal
        } else if num == 7 {
            Error::SSL
        } else {
            Error::Other
        }
    }

    /// The numeric code of this error; `Other` has none.
    pub fn code(&self) -> (r: Option<ucl_error_t>)
        ensures
            match self {
                Error::NoError => r == Some(ucl_error_t::UCL_EOK),
                Error::Syntax(_) => r == Some(ucl_error_t::UCL_ESYNTAX),
                Error::Io => r == Some(ucl_error_t::UCL_EIO),
                Error::State => r == Some(ucl_error_t::UCL_ESTATE),
                Error::Nested => r == Some(ucl_error_t::UCL_ENESTED),
                Error::Macro => r == Some(ucl_error_t::UCL_EMACRO),
                Error::Internal => r == Some(ucl_error_t::UCL_EINTERNAL),
                Error::SSL => r == Some(ucl_error_t::UCL_ESSL),
                Error::Other => r is None,
            },
    {
        match self {
            Error::NoError => Some(ucl_error_t::UCL_EOK),
            Error::Syntax(_) => Some(ucl_error_t::UCL_ESYNTAX),
            Error::Io => Some(ucl_error_t::UCL_EIO),
            Error::State => Some(ucl_error_t::UCL_ESTATE),
            Error::Nested => Some(ucl_error_t::UCL_ENESTED),
            Error::Macro => Some(ucl_error_t::UCL_EMACRO),
            Error::Internal => Some(ucl_error_t::UCL_EINTERNAL),
            Error::SSL => Some(ucl_error_t::UCL_ESSL),
            Error::Other => None,
        }
    }

    /// A description of the error: the text of a syntax error, or the name
    /// of the kind.
    pub fn message(&self) -> (r: String)
        ensures
            r@ == error_message(*self),
    {
        match self {
            Error::Syntax(d) => d.clone(),
            Error::NoError => "no error".to_owned(),
            Error::Io => "input/output error".to_owned(),
            Error::State => "no document has been parsed".to_owned(),
            Error::Nested => "nesting too deep".to_owned(),
            Error::Macro => "macro failed".to_owned(),
            Error::Internal => "internal error".to_owned(),
            Error::SSL => "signature error".to_owned(),
            Error::Other => "unknown error".to_owned(),
        }
    }
}

} // verus!
