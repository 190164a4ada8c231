//! Dialling resolvers and relays: which failure ends a dial, and which
//! lets the caller move on to the next candidate.

use vstd::prelude::*;

use crate::handshake::client_auth_message;
use crate::handshake::client_auth_message_spec;

verus! {

/// Why dialling the resolver seeds failed.
#[derive(Clone, Debug, PartialEq, Eq)]
pub enum DialerError {
    /// The QUIC endpoint refused to start the connection.
    Quinn(String),
    /// The connection failed; the message of the last seed's failure.
    Error(String),
}

impl DialerError {
    /// The error's text: the kind of failure, then its cause.
    pub fn message(&self) -> (m: String)
        ensures
            match self {
                DialerError::Quinn(c) => m@ == "quinn failure: "@ + c@,
                DialerError::Error(c) => m@ == "failed to connect: "@ + c@,
            },
    {
        match self {
            DialerError::Quinn(c) => String::from_str("quinn failure: ").concat(c.as_str()),
            DialerError::Error(c) => String::from_str("failed to connect: ").concat(c.as_str()),
        }
    }

    /// The underlying failure's own text, without the kind in front.
    pub fn cause(&self) -> (m: &String)
        ensures
            match self {
                DialerError::Quinn(c) => *m == *c,
                DialerError::Error(c) => *m == *c,
            },
    {
        match self {
            DialerError::Quinn(c) => c,
            DialerError::Error(c) => c,
        }
    }
}

/// A QUIC endpoint failure as a dial error.
pub fn quinn_err(message: String) -> (e: DialerError)
    ensures
        e == DialerError::Quinn(message),
{
    DialerError::Quinn(message)
}

/// Seeds are tried in order; the first connection wins, and when none does
/// the last failure is reported.
pub struct SeedDialer {
    pub last_err: Option<String>,
}

impl SeedDialer {
    pub fn new() -> (d: SeedDialer)
        ensures
            d.last_err is None,
    {
        SeedDialer { last_err: None }
    }

    /// A seed's connection failed with `message`.
    pub fn record_failure(&mut self, message: String)
        ensures
            final(self).last_err == Some(message),
    {
        self.last_err = Some(message);
    }

    /// Every seed was tried and none connected.
    pub fn exhausted(self) -> (e: DialerError)
        ensures
            match self.last_err {
                Some(m) => e == DialerError::Error(m),
                None => e matches DialerError::Error(m) && m@ == "no resolver seed succeeded"@,
            },
    {
        match self.last_err {
            Some(m) => DialerError::Error(m),
            None => DialerError::Error(String::from_str("no resolver seed succeeded")),
        }
    }
}

/// Why connecting to one relay failed.
#[derive(Clone, Debug, PartialEq, Eq)]
pub enum RelayConnError {
    /// Move on to the next relay: this one timed out or refused the handshake.
    Continue,
    /// Give up with this error.
    Error(String),
}

/// A relay connection attempt that failed before the handshake: a timeout
/// lets the caller try another relay, anything else is an error.
pub fn connect_failure(timed_out: bool, message: String) -> (e: RelayConnError)
    ensures
        timed_out ==> e == RelayConnError::Continue,
        !timed_out ==> e == RelayConnError::Error(message),
{
    if timed_out {
        RelayConnError::Continue
    } else {
        RelayConnError::Error(message)
    }
}

/// A relay that rejected the handshake is skipped rather than reported.
pub fn handshake_rejected() -> (e: RelayConnError)
    ensures
        e == RelayConnError::Continue,
{
    RelayConnError::Continue
}

/// What the relay sent on the handshake stream.
pub enum RelayHandshakePacket {
    Challenge { nonce: [u8; 32] },
    Accept { timestamp: u64 },
    Reject,
}

/// Where a client stands in its handshake with a relay (its `Hello` sent).
#[derive(PartialEq, Eq, Structural, Debug, Clone, Copy)]
pub enum ClientHandshake {
    AwaitChallenge,
    AwaitResult,
    Connected,
}

/// What the client does after a step.
pub enum ClientHandshakeAction {
    /// Sign `message` with the identity key and send it as the proof.
    SendProof { message: Vec<u8> },
    /// The relay accepted us at its `timestamp` (seconds).
    Connected { timestamp: u64 },
}

/// One step of the client's handshake: answer the challenge with the
/// transcript to sign, then take the verdict. A rejection moves on to
/// another relay; a packet out of order is an error.
pub fn client_handshake_step(state: ClientHandshake, packet: RelayHandshakePacket) -> (r: Result<
    (ClientHandshake, ClientHandshakeAction),
    RelayConnError,
>)
    ensures
        match (state, packet) {
            (ClientHandshake::AwaitChallenge, RelayHandshakePacket::Challenge { nonce }) => r matches Ok(
                (next, ClientHandshakeAction::SendProof { message }),
            ) && next == ClientHandshake::AwaitResult && message@ == client_auth_message_spec(nonce@),
            (ClientHandshake::AwaitResult, RelayHandshakePacket::Accept { timestamp }) => r matches Ok(
                (next, ClientHandshakeAction::Connected { timestamp: t }),
            ) && next == ClientHandshake::Connected && t == timestamp,
            (ClientHandshake::AwaitResult, RelayHandshakePacket::Reject) => r == Err::<
                (ClientHandshake, ClientHandshakeAction),
                RelayConnError,
            >(RelayConnError::Continue),
            _ => r matches Err(RelayConnError::Error(m)) && m@ == "Handshake Packet Order Mismatch"@,
        },
{
    match (state, packet) {
        (ClientHandshake::AwaitChallenge, RelayHandshakePacket::Challenge { nonce }) => {
            let message = client_auth_message(&nonce);
            Ok((ClientHandshake::AwaitResult, ClientHandshakeAction::SendProof { message }))
        },
        (ClientHandshake::AwaitResult, RelayHandshakePacket::Accept { timestamp }) => {
            Ok((ClientHandshake::Connected, ClientHandshakeAction::Connected { timestamp }))
        },
        (ClientHandshake::AwaitResult, RelayHandshakePacket::Reject) => Err(RelayConnError::Continue),
        _ => Err(RelayConnError::Error(String::from_str("Handshake Packet Order Mismatch"))),
    }
}

} // verus!
