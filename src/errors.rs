//! The error taxonomy of the engine.
use vstd::prelude::*;

verus! {

/// The outcome of an order or IPO purchase, as reported to a client; an
/// `Insufficient` refusal carries one with the deficit in `lack`.
#[derive(Debug)]
pub struct OrderResult {
    pub succeed: bool,
    pub message: Option<String>,
    pub error: Option<String>,
    pub deal_amount: Option<i64>,
    pub lack: Option<i64>,
}

/// Why a request was refused. A refused request changes nothing.
#[derive(Debug)]
pub enum EngineError {
    InternalError(String),
    BadRequest(String),
    Insufficient(OrderResult),
    Unauthorized(String),
    MethodNotAllowed(String),
    NotFound(String),
}

/// The body of an error response: an HTTP status and a message.
#[derive(Debug)]
pub struct EngineErrorModel {
    pub status: u16,
    pub error: String,
}

/// The kind of a refusal, with the deficit of an `Insufficient` one.
pub enum Refusal {
    Internal,
    BadRequest,
    Insufficient(int),
    Unauthorized,
    MethodNotAllowed,
    NotFound,
    /// An `Insufficient` error whose report does not describe a failure.
    MalformedReport,
}

impl EngineError {
    /// The kind of a refusal. An `Insufficient` error counts as one only when
    /// its report says the request failed, traded nothing and names the
    /// deficit; any other report is malformed.
    pub open spec fn refusal(&self) -> Refusal {
        match self {
            EngineError::InternalError(_) => Refusal::Internal,
            EngineError::BadRequest(_) => Refusal::BadRequest,
            EngineError::Insufficient(r) => match r.lack {
                Some(l) => if !r.succeed && r.deal_amount is None {
                    Refusal::Insufficient(l as int)
                } else {
                    Refusal::MalformedReport
                },
                None => Refusal::MalformedReport,
            },
            EngineError::Unauthorized(_) => Refusal::Unauthorized,
            EngineError::MethodNotAllowed(_) => Refusal::MethodNotAllowed,
            EngineError::NotFound(_) => Refusal::NotFound,
        }
    }

    /// The HTTP status of each kind of refusal.
    pub open spec fn status_of(&self) -> u16 {
        match self {
            EngineError::InternalError(_) => 500u16,
            EngineError::BadRequest(_) => 400u16,
            EngineError::Insufficient(_) => 406u16,
            EngineError::Unauthorized(_) => 401u16,
            EngineError::MethodNotAllowed(_) => 405u16,
            EngineError::NotFound(_) => 404u16,
        }
    }

    /// The message of every kind but `Insufficient`.
    pub open spec fn message(&self) -> Seq<char> {
        match self {
            EngineError::InternalError(m) => m@,
            EngineError::BadRequest(m) => m@,
            EngineError::Insufficient(_) => Seq::empty(),
            EngineError::Unauthorized(m) => m@,
            EngineError::MethodNotAllowed(m) => m@,
            EngineError::NotFound(m) => m@,
        }
    }

    /// The HTTP status this error is answered with.
    pub fn status(&self) -> (r: u16)
        ensures
            r == self.status_of(),
    {
        match self {
            EngineError::InternalError(_) => 500,
            EngineError::BadRequest(_) => 400,
            EngineError::Insufficient(_) => 406,
            EngineError::Unauthorized(_) => 401,
            EngineError::MethodNotAllowed(_) => 405,
            EngineError::NotFound(_) => 404,
        }
    }
}

impl EngineError {
    /// The body of the error response: the status and the message, for every
    /// kind but `Insufficient`, whose body is its `OrderResult`.
    pub fn error_model(&self) -> (r: Option<EngineErrorModel>)
        ensures
            match r {
                Some(m) => !(self is Insufficient) && m.status == self.status_of()
                    && m.error@ == self.message(),
                None => self is Insufficient,
            },
    {
        let status = self.status();
        match self {
            EngineError::InternalError(m) => Some(EngineErrorModel { status, error: m.clone() }),
            EngineError::BadRequest(m) => Some(EngineErrorModel { status, error: m.clone() }),
            EngineError::Insufficient(_) => None,
            EngineError::Unauthorized(m) => Some(EngineErrorModel { status, error: m.clone() }),
            EngineError::MethodNotAllowed(m) => Some(EngineErrorModel { status, error: m.clone() }),
            EngineError::NotFound(m) => Some(EngineErrorModel { status, error: m.clone() }),
        }
    }
}

/// A refusal for want of cash or shares, `lack` being the positive deficit.
pub fn insufficient(lack: i64, msg: &str) -> (e: EngineError)
    ensures
        e.refusal() == Refusal::Insufficient(lack as int),
        e matches EngineError::Insufficient(o) && !o.succeed && o.deal_amount is None && o.lack == Some(lack),
{
    EngineError::Insufficient(
        OrderResult {
            succeed: false,
            message: Some(msg.to_owned()),
            error: Some(msg.to_owned()),
            deal_amount: None,
            lack: Some(lack),
        },
    )
}

} // verus!
