//! What can go wrong when talking to the Hub and to storage.
use crate::text;
use crate::text::decimal_text;
use vstd::prelude::*;
use vstd::string::*;

verus! {

/// An error, with the text that describes it.
#[derive(Debug)]
pub enum Error {
    Hub { message: String, status: Option<u16> },
    Xet(String),
    Io(String),
    Json(String),
    Http(String),
}

pub type Result<T> = std::result::Result<T, Error>;

/// What an `Error` holds.
pub enum ErrorModel {
    Hub { message: Seq<char>, status: Option<u16> },
    Xet(Seq<char>),
    Io(Seq<char>),
    Json(Seq<char>),
    Http(Seq<char>),
}

impl View for Error {
    type V = ErrorModel;

    open spec fn view(&self) -> ErrorModel {
        match self {
            Error::Hub { message, status } => ErrorModel::Hub {
                message: message@,
                status: *status,
            },
            Error::Xet(m) => ErrorModel::Xet(m@),
            Error::Io(m) => ErrorModel::Io(m@),
            Error::Json(m) => ErrorModel::Json(m@),
            Error::Http(m) => ErrorModel::Http(m@),
        }
    }
}

impl ErrorModel {
    /// The text of an error.
    pub open spec fn described(self) -> Seq<char> {
        match self {
            ErrorModel::Hub { message, status: Some(s) } => "Hub API error ("@ + text::decimal(
                s as nat,
            ) + "): "@ + message,
            ErrorModel::Hub { message, status: None } => "Hub API error: "@ + message,
            ErrorModel::Xet(m) => "Xet error: "@ + m,
            ErrorModel::Io(m) => "IO error: "@ + m,
            ErrorModel::Json(m) => "JSON error: "@ + m,
            ErrorModel::Http(m) => "HTTP error: "@ + m,
        }
    }
}

impl Error {
    /// A Hub error without an HTTP status.
    pub fn hub(msg: &str) -> (r: Self)
        ensures
            r@ == (ErrorModel::Hub { message: msg@, status: None }),
    {
        Error::Hub { message: msg.to_owned(), status: None }
    }

    /// A Hub error with an HTTP status.
    pub fn hub_status(status: u16, msg: &str) -> (r: Self)
        ensures
            r@ == (ErrorModel::Hub { message: msg@, status: Some(status) }),
    {
        Error::Hub { message: msg.to_owned(), status: Some(status) }
    }

    /// The text of the error.
    pub fn to_string(&self) -> (r: String)
        ensures
            r@ == self@.described(),
    {
        match self {
            Error::Hub { message, status: Some(s) } => {
                let mut out = "Hub API error (".to_owned();
                out.append(decimal_text(*s as u64).as_str());
                out.append("): ");
                out.append(message.as_str());
                out
            },
            Error::Hub { message, status: None } => text::concat(
                "Hub API error: ",
                message.as_str(),
            ),
            Error::Xet(m) => text::concat("Xet error: ", m.as_str()),
            Error::Io(m) => text::concat("IO error: ", m.as_str()),
            Error::Json(m) => text::concat("JSON error: ", m.as_str()),
            Error::Http(m) => text::concat("HTTP error: ", m.as_str()),
        }
    }

    /// Whether the Hub answered with this HTTP status.
    pub fn has_status(&self, expected: u16) -> (r: bool)
        ensures
            r == (self@ is Hub && self@->Hub_status == Some(expected)),
    {
        match self {
            Error::Hub { status: Some(s), .. } => *s == expected,
            _ => false,
        }
    }
}

/// The HTTP statuses after which a request is worth repeating.
pub open spec fn retryable(status: u16) -> bool {
    status == 408 || status == 429 || status == 500 || status == 502 || status == 503 || status
        == 504
}

/// Whether a request is worth repeating after this HTTP status.
pub fn is_retryable_status(status: u16) -> (r: bool)
    ensures
        r == retryable(status),
{
    status == 408 || status == 429 || status == 500 || status == 502 || status == 503 || status
        == 504
}

/// A request is worth repeating after a timeout, an overload and the passing failures of a server, but
/// never after a success, nor after a refusal that would come again.
pub proof fn law_refusals_are_final(status: u16)
    ensures
        retryable(408),
        retryable(429),
        retryable(500),
        retryable(502),
        retryable(503),
        retryable(504),
        status < 400 ==> !retryable(status),
        400 <= status < 500 && status != 408 && status != 429 ==> !retryable(status),
        status >= 600 ==> !retryable(status),
{
}

} // verus!
