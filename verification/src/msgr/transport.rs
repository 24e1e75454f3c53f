//! The codecs of a connection, and what a connection reports.

use super::frame::{crc_encoding, CrcCodec, Frame, FrameError, FrameView, Limits};
use super::secure::{
    advanced_by, frame_records, secure_encoding, SecureCodec, SecureDecoder, SecureEncoder,
};
use super::session::SessionError;
use vstd::prelude::*;

verus! {

/// How the frames of a connection are protected.
pub enum Codec {
    Crc(CrcCodec),
    Secure(Box<SecureCodec>),
}

/// The sending half of a codec.
pub enum Encoder {
    Crc(CrcCodec),
    Secure(Box<SecureEncoder>),
}

/// The receiving half of a codec.
pub enum Decoder {
    Crc(CrcCodec),
    Secure(Box<SecureDecoder>),
}

impl Codec {
    pub open spec fn wf(&self) -> bool {
        self matches Codec::Secure(codec) ==> codec.wf()
    }

    /// A half that sends and a half that receives.
    pub fn split(self) -> (r: (Encoder, Decoder))
        ensures
            match self {
                Codec::Crc(codec) => r.0 == Encoder::Crc(codec) && r.1 == Decoder::Crc(codec),
                Codec::Secure(codec) => {
                    &&& r.0 matches Encoder::Secure(encoder) && encoder.0.tx@ == codec.tx@
                        && encoder.0.rx@ == codec.rx@
                    &&& r.1 matches Decoder::Secure(decoder) && decoder.0.tx@ == codec.tx@
                        && decoder.0.rx@ == codec.rx@
                },
            },
            self.wf() ==> r.0.wf() && r.1.wf(),
    {
        match self {
            Codec::Crc(codec) => (Encoder::Crc(codec), Decoder::Crc(codec)),
            Codec::Secure(codec) => {
                let (encoder, decoder) = (*codec).split();
                (Encoder::Secure(Box::new(encoder)), Decoder::Secure(Box::new(decoder)))
            },
        }
    }
}

impl Decoder {
    pub open spec fn wf(&self) -> bool {
        self matches Decoder::Secure(codec) ==> codec.0.wf()
    }
}

/// An error of framing as an error of a session.
pub open spec fn session_result(r: Result<Seq<u8>, FrameError>) -> Result<Seq<u8>, SessionError> {
    match r {
        Ok(wire) => Ok(wire),
        Err(error) => Err(SessionError::Frame(error)),
    }
}

/// What `Encoder::encode` yields.
pub open spec fn encoding(encoder: Encoder, frame: FrameView, limits: Limits) -> Result<
    Seq<u8>,
    SessionError,
> {
    match encoder {
        Encoder::Crc(codec) => session_result(crc_encoding(codec.with_data_crc, frame, limits)),
        Encoder::Secure(codec) => session_result(secure_encoding(codec.0.tx@, frame, limits)),
    }
}

impl Encoder {
    pub open spec fn wf(&self) -> bool {
        self matches Encoder::Secure(codec) ==> codec.0.wf()
    }

    /// The frame on the wire. Sealing a frame uses up its nonces, and failing to uses none.
    pub fn encode(&mut self, frame: &Frame, limits: Limits) -> (r: Result<Vec<u8>, SessionError>)
        requires
            old(self).wf(),
        ensures
            final(self).wf(),
            crate::wire::bytes_result(r) == encoding(*old(self), frame@, limits),
            match *old(self) {
                Encoder::Crc(codec) => *final(self) == Encoder::Crc(codec),
                Encoder::Secure(before) => {
                    &&& *final(self) matches Encoder::Secure(after)
                    &&& after.0.rx@ == before.0.rx@
                    &&& after.0.tx@ == if r is Ok {
                        advanced_by(before.0.tx@, frame_records(frame@))
                    } else {
                        before.0.tx@
                    }
                },
            },
    {
        let result = match self {
            Encoder::Crc(codec) => codec.encode(frame, limits),
            Encoder::Secure(codec) => codec.encode(frame, limits),
        };
        match result {
            Ok(wire) => Ok(wire),
            Err(error) => Err(SessionError::Frame(error)),
        }
    }
}

/// What a connection reports.
#[derive(Debug)]
pub enum Event {
    Frame { generation: u64, frame: Frame },
    WriteComplete { generation: u64, request_id: Option<u64>, result: Result<(), SessionError> },
    Fault { generation: u64, error: SessionError },
    RenewalDue { generation: u64 },
}

} // verus!
