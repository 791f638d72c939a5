//! The mock server's request decisions.
//!
//! The mock answers a fixed script: key 42 succeeds, key 7 reads as
//! having no value, any other key is an internal error, and malformed
//! or unsupported keys are rejected. The transport wrapping around
//! these decisions lives outside the library.

use vstd::prelude::*;

verus! {

/// A request key as carried on the wire: signed or unsigned.
pub enum RequestKey {
    IntKey(i32),
    UintKey(u32),
}

/// The status a reply carries.
#[derive(Debug, Clone, Copy, PartialEq, Eq, Structural)]
pub enum StatusCode {
    Success,
    NoValue,
    InternalError,
}

/// A request the mock refuses to answer.
#[derive(Debug)]
pub enum HandlerError {
    Malformed,
    UnimplementedKeyType,
}

/// The mock request handler.
#[derive(Default)]
pub struct RequestHandler {
}

/// The mock's answer for a get: success on key 42, no value on key 7,
/// an internal error otherwise; an empty key wrapper is malformed and
/// a missing one is unsupported.
pub open spec fn spec_get_status(key: Option<Option<RequestKey>>) -> Result<
    StatusCode,
    HandlerError,
> {
    match key {
        Some(Some(RequestKey::IntKey(x))) => if x == 42 {
            Ok(StatusCode::Success)
        } else if x == 7 {
            Ok(StatusCode::NoValue)
        } else {
            Ok(StatusCode::InternalError)
        },
        Some(Some(RequestKey::UintKey(x))) => if x == 42 {
            Ok(StatusCode::Success)
        } else if x == 7 {
            Ok(StatusCode::NoValue)
        } else {
            Ok(StatusCode::InternalError)
        },
        Some(None) => Err(HandlerError::Malformed),
        None => Err(HandlerError::UnimplementedKeyType),
    }
}

/// The mock's answer for a put: success on key 42 and an internal
/// error otherwise, with the same rejections as a get.
pub open spec fn spec_put_status(key: Option<Option<RequestKey>>) -> Result<
    StatusCode,
    HandlerError,
> {
    match key {
        Some(Some(RequestKey::IntKey(x))) => if x == 42 {
            Ok(StatusCode::Success)
        } else {
            Ok(StatusCode::InternalError)
        },
        Some(Some(RequestKey::UintKey(x))) => if x == 42 {
            Ok(StatusCode::Success)
        } else {
            Ok(StatusCode::InternalError)
        },
        Some(None) => Err(HandlerError::Malformed),
        None => Err(HandlerError::UnimplementedKeyType),
    }
}

impl RequestHandler {
    /// Decides the status of a get request.
    pub fn get_status(&self, key: &Option<Option<RequestKey>>) -> (r: Result<
        StatusCode,
        HandlerError,
    >)
        ensures
            r == spec_get_status(*key),
    {
        match key {
            Some(Some(RequestKey::IntKey(x))) => {
                if *x == 42 {
                    Ok(StatusCode::Success)
                } else if *x == 7 {
                    Ok(StatusCode::NoValue)
                } else {
                    Ok(StatusCode::InternalError)
                }
            },
            Some(Some(RequestKey::UintKey(x))) => {
                if *x == 42 {
                    Ok(StatusCode::Success)
                } else if *x == 7 {
                    Ok(StatusCode::NoValue)
                } else {
                    Ok(StatusCode::InternalError)
                }
            },
            Some(None) => Err(HandlerError::Malformed),
            None => Err(HandlerError::UnimplementedKeyType),
        }
    }

    /// Decides the status of a put request.
    pub fn put_status(&self, key: &Option<Option<RequestKey>>) -> (r: Result<
        StatusCode,
        HandlerError,
    >)
        ensures
            r == spec_put_status(*key),
    {
        match key {
            Some(Some(RequestKey::IntKey(x))) => {
                if *x == 42 {
                    Ok(StatusCode::Success)
                } else {
                    Ok(StatusCode::InternalError)
                }
            },
            Some(Some(RequestKey::UintKey(x))) => {
                if *x == 42 {
                    Ok(StatusCode::Success)
                } else {
                    Ok(StatusCode::InternalError)
                }
            },
            Some(None) => Err(HandlerError::Malformed),
            None => Err(HandlerError::UnimplementedKeyType),
        }
    }
}

} // verus!
