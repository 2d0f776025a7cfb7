//! The GABP message envelope: requests, responses and error objects.

use crate::gabp::json::{JsonData, JsonValue};
use vstd::prelude::*;

verus! {

/// The protocol version that every GABP message carries in `v`.
pub const GABP_VERSION: &'static str = "gabp/1";

/// A GABP request (its `type` field is `message_type`).
#[derive(Debug, PartialEq)]
pub struct GabpRequest {
    pub v: String,
    pub id: String,
    pub message_type: String,
    pub method: String,
    pub params: JsonValue,
}

/// The error object of a failed request.
#[derive(Debug, PartialEq)]
pub struct GabpError {
    pub code: i32,
    pub message: String,
    pub data: Option<JsonValue>,
}

/// A GABP response: exactly one of `result` and `error` is present in the
/// responses this library builds.
#[derive(Debug, PartialEq)]
pub struct GabpResponse {
    pub v: String,
    pub id: String,
    pub message_type: String,
    pub result: Option<JsonValue>,
    pub error: Option<GabpError>,
}

/// The view of an optional JSON value.
pub open spec fn opt_data(o: Option<JsonValue>) -> Option<JsonData> {
    match o {
        Some(v) => Some(v@),
        None => None,
    }
}

/// The view of a [`GabpRequest`].
pub struct RequestData {
    pub v: Seq<char>,
    pub id: Seq<char>,
    pub message_type: Seq<char>,
    pub method: Seq<char>,
    pub params: JsonData,
}

/// The view of a [`GabpError`].
pub struct ErrorData {
    pub code: i32,
    pub message: Seq<char>,
    pub data: Option<JsonData>,
}

/// The view of a [`GabpResponse`].
pub struct ResponseData {
    pub v: Seq<char>,
    pub id: Seq<char>,
    pub message_type: Seq<char>,
    pub result: Option<JsonData>,
    pub error: Option<ErrorData>,
}

impl View for GabpRequest {
    type V = RequestData;

    open spec fn view(&self) -> RequestData {
        RequestData {
            v: self.v@,
            id: self.id@,
            message_type: self.message_type@,
            method: self.method@,
            params: self.params@,
        }
    }
}

impl View for GabpError {
    type V = ErrorData;

    open spec fn view(&self) -> ErrorData {
        ErrorData { code: self.code, message: self.message@, data: opt_data(self.data) }
    }
}

/// The view of an optional error object.
pub open spec fn opt_error(o: Option<GabpError>) -> Option<ErrorData> {
    match o {
        Some(e) => Some(e@),
        None => None,
    }
}

impl View for GabpResponse {
    type V = ResponseData;

    open spec fn view(&self) -> ResponseData {
        ResponseData {
            v: self.v@,
            id: self.id@,
            message_type: self.message_type@,
            result: opt_data(self.result),
            error: opt_error(self.error),
        }
    }
}

/// The successful response to request `id`.
pub open spec fn success_data(id: Seq<char>, result: JsonData) -> ResponseData {
    ResponseData {
        v: GABP_VERSION@,
        id,
        message_type: "response"@,
        result: Some(result),
        error: None,
    }
}

/// The failed response to request `id`.
pub open spec fn failure_data(id: Seq<char>, code: i32, message: Seq<char>, data: Option<JsonData>) -> ResponseData {
    ResponseData {
        v: GABP_VERSION@,
        id,
        message_type: "response"@,
        result: None,
        error: Some(ErrorData { code, message, data }),
    }
}

impl GabpResponse {
    /// A successful response carrying `result`.
    pub fn success(id: String, result: JsonValue) -> (r: Self)
        ensures
            r@ == success_data(id@, result@),
    {
        GabpResponse {
            v: GABP_VERSION.to_owned(),
            id,
            message_type: "response".to_owned(),
            result: Some(result),
            error: None,
        }
    }

    /// A failed response with the given error code, message and data.
    pub fn failure(id: String, code: i32, message: String, data: Option<JsonValue>) -> (r: Self)
        ensures
            r@ == failure_data(id@, code, message@, opt_data(data)),
    {
        GabpResponse {
            v: GABP_VERSION.to_owned(),
            id,
            message_type: "response".to_owned(),
            result: None,
            error: Some(GabpError { code, message, data }),
        }
    }
}

} // verus!
