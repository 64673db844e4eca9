//! What participants send each other.

use crate::dicemix::Cloak;
use crate::hashing::Digest;
use crate::participant::ParticipantID;
use crate::scalar::Scalar;
use vstd::prelude::*;

verus! {

/// The kind of payload that the session is collecting, if any.
#[derive(Debug, Copy, Clone, PartialEq, Eq)]
pub enum MessageState {
    /// Nothing is being collected.
    Idle,
    SharedKeying,
    Commitment,
    CloakedVals,
    Signature,
    SecretKeying,
}

impl MessageState {
    /// The place of a kind in a round: kinds are exchanged in this order.
    pub open spec fn rank(self) -> int {
        match self {
            MessageState::Idle => 0,
            MessageState::SharedKeying => 1,
            MessageState::Commitment => 2,
            MessageState::CloakedVals => 3,
            MessageState::Signature => 4,
            MessageState::SecretKeying => 5,
        }
    }

    /// The place of a kind in a round.
    pub fn order(&self) -> (r: u8)
        ensures
            r == self.rank(),
    {
        match self {
            MessageState::Idle => 0,
            MessageState::SharedKeying => 1,
            MessageState::Commitment => 2,
            MessageState::CloakedVals => 3,
            MessageState::Signature => 4,
            MessageState::SecretKeying => 5,
        }
    }

    /// Whether the two kinds are the same.
    pub fn same(&self, other: &MessageState) -> (r: bool)
        ensures
            r == (*self == *other),
    {
        self.order() == other.order()
    }
}

/// A Schnorr signature, or one participant's part of one: the scalar `u`
/// and the point `K`.
#[derive(Debug, Copy, Clone, PartialEq, Eq)]
pub struct SchnorrSig {
    pub u: Scalar,
    pub k: [u8; 32],
}

/// What one message carries.
#[derive(Debug, Clone, PartialEq, Eq)]
pub enum SnowballPayload {
    /// The session public key of the sender and the point of its nonce.
    SharedKeying { pkey: [u8; 32], ksig: [u8; 32] },
    /// The commitment of the sender to what it will open.
    Commitment { cmt: Digest },
    /// What the sender committed to, and the cloaks that it shared with the
    /// participants who have left.
    CloakedVals { matrix: Vec<u8>, gamma_sum: Scalar, fee_sum: Scalar, cloaks: Vec<Cloak> },
    /// The sender's part of the signature.
    Signature { sig: SchnorrSig },
    /// The session secret key of the sender.
    SecretKeying { skey: [u8; 32] },
}

/// A payload as plain values.
#[verifier::ext_equal]
pub enum PayloadView {
    SharedKeying { pkey: [u8; 32], ksig: [u8; 32] },
    Commitment { cmt: Digest },
    CloakedVals { matrix: Seq<u8>, gamma_sum: Scalar, fee_sum: Scalar, cloaks: Seq<Cloak> },
    Signature { sig: SchnorrSig },
    SecretKeying { skey: [u8; 32] },
}

impl PayloadView {
    /// The kind of the payload.
    pub open spec fn kind(self) -> MessageState {
        match self {
            PayloadView::SharedKeying { .. } => MessageState::SharedKeying,
            PayloadView::Commitment { .. } => MessageState::Commitment,
            PayloadView::CloakedVals { .. } => MessageState::CloakedVals,
            PayloadView::Signature { .. } => MessageState::Signature,
            PayloadView::SecretKeying { .. } => MessageState::SecretKeying,
        }
    }
}

impl View for SnowballPayload {
    type V = PayloadView;

    open spec fn view(&self) -> PayloadView {
        match *self {
            SnowballPayload::SharedKeying { pkey, ksig } => PayloadView::SharedKeying {
                pkey,
                ksig,
            },
            SnowballPayload::Commitment { cmt } => PayloadView::Commitment { cmt },
            SnowballPayload::CloakedVals {
                matrix,
                gamma_sum,
                fee_sum,
                cloaks,
            } => PayloadView::CloakedVals {
                matrix: matrix@,
                gamma_sum,
                fee_sum,
                cloaks: cloaks@,
            },
            SnowballPayload::Signature { sig } => PayloadView::Signature { sig },
            SnowballPayload::SecretKeying { skey } => PayloadView::SecretKeying { skey },
        }
    }
}

impl SnowballPayload {
    /// The kind of the payload.
    pub fn kind(&self) -> (k: MessageState)
        ensures
            k == self@.kind(),
    {
        match self {
            SnowballPayload::SharedKeying { .. } => MessageState::SharedKeying,
            SnowballPayload::Commitment { .. } => MessageState::Commitment,
            SnowballPayload::CloakedVals { .. } => MessageState::CloakedVals,
            SnowballPayload::Signature { .. } => MessageState::Signature,
            SnowballPayload::SecretKeying { .. } => MessageState::SecretKeying,
        }
    }
}

/// A message between two participants of a session.
#[derive(Debug, Clone, PartialEq, Eq)]
pub struct SnowballMessage {
    pub sid: Digest,
    pub source: ParticipantID,
    pub destination: ParticipantID,
    pub payload: SnowballPayload,
}

/// A message as plain values.
#[verifier::ext_equal]
pub struct MessageView {
    pub sid: Digest,
    pub source: ParticipantID,
    pub destination: ParticipantID,
    pub payload: PayloadView,
}

impl View for SnowballMessage {
    type V = MessageView;

    open spec fn view(&self) -> MessageView {
        MessageView {
            sid: self.sid,
            source: self.source,
            destination: self.destination,
            payload: self.payload@,
        }
    }
}

} // verus!
