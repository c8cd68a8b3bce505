//! What can go wrong on an ISO transport connection, other than the socket
//! underneath it.

use vstd::prelude::*;

verus! {

/// Why a frame, a TPDU, a handshake, a message or a target was refused.
#[derive(Clone, Debug, PartialEq, Eq)]
pub enum Error {
    /// A TPDU over what a TPKT frame carries.
    FrameTooLong,
    /// A TPKT version where only 3 exists.
    Version(u8),
    /// A TPKT frame shorter than its own header and one byte of TPDU.
    FrameTooShort,
    /// The peer closed inside a TPKT header.
    HeaderCutShort,
    /// The peer closed inside a TPDU.
    TpduCutShort,
    /// A TPDU of no bytes.
    EmptyTpdu,
    /// A TPDU length indicator that is zero or past the end.
    LengthIndicator,
    /// A class 0 DT whose header is not two bytes.
    DataHeader,
    /// A TPDU code that class 0 does not use, its low four bits cleared.
    Code(u8),
    /// A connect TPDU shorter than its fixed part.
    ConnectTooShort,
    /// A connect for a class other than 0.
    Class,
    /// A parameter without its length.
    ParameterLength,
    /// A parameter that runs off the header.
    ParameterValue,
    /// The peer refused the connection with this reason.
    Refused(u8),
    /// The peer did not answer CR with CC.
    NotConfirmed,
    /// The caller did not open with CR.
    NotRequested,
    /// The peer closed inside a message.
    ClosedMidMessage,
    /// A connect TPDU on an open connection.
    UnexpectedConnect,
    /// The caller disconnected without a message.
    NoMessage,
    /// This TSAP in a target's query is not hex.
    NotHex(String),
}

impl Error {
    /// The peer's connection ended inside a frame, which is the socket's
    /// failure and not something the peer said.
    pub open spec fn cut_short(self) -> bool {
        self is HeaderCutShort || self is TpduCutShort
    }

    /// Whether what the peer or the caller said is at fault, so that saying
    /// it again cannot help.
    pub fn is_protocol(&self) -> (protocol: bool)
        ensures
            protocol == !self.cut_short(),
            !protocol <==> *self == Error::HeaderCutShort || *self == Error::TpduCutShort,
    {
        match self {
            Error::HeaderCutShort | Error::TpduCutShort => false,
            _ => true,
        }
    }
}

/// A result over the view of its value.
pub open spec fn result_view<T: View>(result: Result<T, Error>) -> Result<T::V, Error> {
    match result {
        Ok(value) => Ok(value.view()),
        Err(error) => Err(error),
    }
}

/// A result's view is the view of its value, or its error.
pub proof fn lemma_result_view<T: View>(result: Result<T, Error>)
    ensures
        match result {
            Ok(value) => result_view(result) == Ok::<_, Error>(value.view()),
            Err(error) => result_view(result) == Err::<T::V, _>(error),
        },
{
}

} // verus!
