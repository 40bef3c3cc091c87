//! Error kinds surfaced by the catalog, and the protocol-level error
//! payloads that the dispatch layer serialises.

use vstd::prelude::*;
use vstd::string::StrSliceExecFns;
use vstd::string::StringExecFns;

verus! {

/// The error taxonomy of the repository layer.
///
/// `NotFound` — a referenced namespace, table, or record family is absent.
/// `AlreadyExists` — a create or rename destination collides with an
/// existing identity.  `Serialization` — a stored byte sequence cannot be
/// decoded as the expected record type (a data-integrity fault, not a
/// normal miss).  `Storage` — the underlying engine failed.
/// `DataInvalid` — an identifier was built from invalid input.
#[derive(Debug, PartialEq, Eq, Structural)]
pub enum CatalogError {
    NotFound,
    AlreadyExists,
    Serialization,
    Storage,
    DataInvalid,
}

pub struct NamespaceNotFoundError {
    pub message: String,
}

pub struct ErrorModel {
    pub message: String,
    pub error_type: String,
    pub code: u16,
    pub stack: Option<Vec<String>>,
}

pub struct IcebergErrorResponse {
    pub error: ErrorModel,
}

impl IcebergErrorResponse {
    /// The protocol payload for a missing namespace.
    pub fn from(err: NamespaceNotFoundError) -> (r: IcebergErrorResponse)
        ensures
            r.error.message == err.message,
            r.error.error_type@ == "NamespaceNotFound"@,
            r.error.code == 404,
            r.error.stack is None,
    {
        IcebergErrorResponse {
            error: ErrorModel {
                message: err.message,
                error_type: "NamespaceNotFound".to_owned(),
                code: 404,
                stack: None,
            },
        }
    }
}

pub struct CommonResponse {
    pub error: Option<IcebergErrorResponse>,
}

pub struct BadRequestErrorResponse(pub CommonResponse);

pub struct UnsupportedOperationResponse(pub CommonResponse);

pub struct ServiceUnavailableResponse(pub CommonResponse);

pub struct ServerErrorResponse(pub CommonResponse);

pub enum ErrorTypes {
    BadRequest(String),
    Unauthorized(String),
    ServiceUnavailable(String),
    ServerError(String),
    NamespaceNotFound(String),
}

impl ErrorTypes {
    /// The user-facing message for this error.
    pub fn to_string(&self) -> (r: String)
        ensures
            match self {
                ErrorTypes::BadRequest(m) => r@ == "Bad Request: "@ + m@,
                ErrorTypes::Unauthorized(m) => r@ == "Unauthorized: "@ + m@,
                ErrorTypes::ServiceUnavailable(m) => r@ == "Service Unavailable: "@ + m@,
                ErrorTypes::ServerError(m) => r@ == "Internal Server Error: "@ + m@,
                ErrorTypes::NamespaceNotFound(m) => r@ == "Namespace Not Found: "@ + m@,
            },
    {
        match self {
            ErrorTypes::BadRequest(m) => {
                let mut s = "Bad Request: ".to_owned();
                s.append(m.as_str());
                s
            },
            ErrorTypes::Unauthorized(m) => {
                let mut s = "Unauthorized: ".to_owned();
                s.append(m.as_str());
                s
            },
            ErrorTypes::ServiceUnavailable(m) => {
                let mut s = "Service Unavailable: ".to_owned();
                s.append(m.as_str());
                s
            },
            ErrorTypes::ServerError(m) => {
                let mut s = "Internal Server Error: ".to_owned();
                s.append(m.as_str());
                s
            },
            ErrorTypes::NamespaceNotFound(m) => {
                let mut s = "Namespace Not Found: ".to_owned();
                s.append(m.as_str());
                s
            },
        }
    }
}

} // verus!
