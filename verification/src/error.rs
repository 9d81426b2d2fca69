use vstd::prelude::*;

verus! {

/// Everything that can go wrong while encoding or decoding a control message.
#[derive(Debug, PartialEq, Eq)]
pub enum ParseError {
    /// The input ended before a field was complete.
    NotEnoughBytes { context: &'static str, needed: usize, available: usize },
    /// A value does not fit in a 62-bit QUIC variable-length integer.
    VarIntOverflow { value: u64 },
    /// A length does not fit the integer type the wire format or the platform uses;
    /// `details` is the conversion error's text.
    CastingError {
        context: &'static str,
        from_type: &'static str,
        to_type: &'static str,
        details: String,
    },
    /// A message parameter type this library does not know.
    UnknownParameter { type_code: u64 },
    /// A subscription filter type outside the four defined ones.
    InvalidFilterType { value: u64 },
    /// A group order code outside the three defined ones.
    InvalidGroupOrder { value: u64 },
    /// A parameter value outside its range (a priority above 255, a forward flag other than 0 or 1).
    InvalidValue { value: u64 },
    /// A length-prefixed parameter whose body did not use exactly the announced length.
    LengthMismatch { expected: u64, actual: u64 },
}

/// The casting error of `context`, from `from_type` to `to_type`. Its `details` are
/// the text of the conversion error and are not fixed here.
pub open spec fn casting_error(
    context: &'static str,
    from_type: &'static str,
    to_type: &'static str,
) -> ParseError {
    ParseError::CastingError { context, from_type, to_type, details: arbitrary() }
}

/// `actual` is the error `expected` describes: the same error, except that the
/// details text of a casting error is left open.
pub open spec fn error_agrees(actual: ParseError, expected: ParseError) -> bool {
    match expected {
        ParseError::CastingError { context, from_type, to_type, .. } => actual matches ParseError::CastingError {
            context: c,
            from_type: f,
            to_type: t,
            ..
        } && c == context && f == from_type && t == to_type,
        _ => actual == expected,
    }
}

} // verus!
