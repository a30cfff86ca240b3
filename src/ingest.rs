//! The decisions of the ingestors. Each stream connection owns a
//! [`Connection`]: the bytes that it has read and not yet decoded. The
//! transport hands it what each read gave, takes the records that have fully
//! arrived, forwards them one at a time, and closes the connection when the
//! decisions here say so.

use vstd::prelude::*;
use crate::data::Status;
use crate::dispatch::CqrsError;
use crate::storage::StorageError;
use crate::wire::{parse_status, CborDecoder, DecodeError, Parsed};

verus! {

/// Declares `std::io::Error` so that [`IngestError::Io`] can carry it; the
/// library never looks inside one.
#[verifier::external_type_specification]
#[verifier::external_body]
pub struct ExIoError(std::io::Error);

/// Why ingestion from a connection or a socket stopped.
#[derive(Debug)]
pub enum IngestError {
    /// The bytes did not hold a record.
    Deserialize(DecodeError),
    /// The dispatch actor could not be reached.
    Internal(CqrsError),
    /// The transport failed.
    Io(std::io::Error),
    /// The store refused a record.
    Storage(StorageError),
    /// No complete record arrived within the read timeout.
    Timeout,
}

/// The largest datagram read: a record with every field set takes about a
/// hundred bytes.
pub const MAX_DATAGRAM: usize = 128;

/// What a read from a stream connection gave.
pub enum ReadEvent {
    /// These bytes arrived.
    Data(Vec<u8>),
    /// The peer closed the stream.
    End,
    /// Nothing arrived within the read timeout.
    TimedOut,
}

/// What a connection does after a read.
pub enum Flow {
    /// Go on decoding and reading.
    Continue,
    /// Close the connection with this outcome.
    Close(Result<(), IngestError>),
}

/// The state of one stream connection: the bytes read and not yet decoded.
pub struct Connection {
    buffer: Vec<u8>,
    decoder: CborDecoder,
}

impl Connection {
    /// The bytes read and not yet decoded.
    pub closed spec fn buffered(&self) -> Seq<u8> {
        self.buffer@
    }

    pub fn new() -> (r: Self)
        ensures
            r.buffered() == Seq::<u8>::empty(),
    {
        Connection { buffer: Vec::new(), decoder: CborDecoder::new() }
    }

    /// Takes the next record that has fully arrived. `Ok(None)` asks for
    /// another read; an error closes the connection.
    pub fn next_record(&mut self) -> (r: Result<Option<Status>, IngestError>)
        ensures
            match parse_status(old(self).buffered()) {
                Parsed::Done(st, n) => {
                    &&& r matches Ok(Some(x)) && x == st
                    &&& final(self).buffered() == old(self).buffered().subrange(
                        n,
                        old(self).buffered().len() as int,
                    )
                },
                Parsed::Incomplete => {
                    &&& r matches Ok(None)
                    &&& final(self).buffered() == old(self).buffered()
                },
                Parsed::Invalid => {
                    &&& r matches Err(IngestError::Deserialize(DecodeError::Malformed))
                    &&& final(self).buffered() == old(self).buffered()
                },
            },
    {
        match self.decoder.decode(&mut self.buffer) {
            Ok(found) => Ok(found),
            Err(e) => Err(IngestError::Deserialize(e)),
        }
    }

    /// Takes in what a read gave. Bytes are kept for decoding; the end of
    /// the stream closes the connection cleanly only between records; a
    /// timeout closes it.
    pub fn on_read(&mut self, event: ReadEvent) -> (r: Flow)
        ensures
            match event {
                ReadEvent::Data(bytes) => {
                    &&& r is Continue
                    &&& final(self).buffered() == old(self).buffered() + bytes@
                },
                ReadEvent::End => {
                    &&& final(self).buffered() == old(self).buffered()
                    &&& old(self).buffered().len() == 0 ==> (r matches Flow::Close(Ok(())))
                    &&& old(self).buffered().len() > 0 ==> (r matches Flow::Close(
                        Err(IngestError::Deserialize(DecodeError::Truncated)),
                    ))
                },
                ReadEvent::TimedOut => {
                    &&& final(self).buffered() == old(self).buffered()
                    &&& r matches Flow::Close(Err(IngestError::Timeout))
                },
            },
    {
        match event {
            ReadEvent::Data(bytes) => {
                self.buffer.extend_from_slice(bytes.as_slice());
                Flow::Continue
            },
            ReadEvent::End => {
                if self.buffer.len() == 0 {
                    Flow::Close(Ok(()))
                } else {
                    Flow::Close(Err(IngestError::Deserialize(DecodeError::Truncated)))
                }
            },
            ReadEvent::TimedOut => Flow::Close(Err(IngestError::Timeout)),
        }
    }
}

/// What follows the forwarding of a record: the connection goes on only
/// where the dispatch actor was reached and the store took the record.
pub fn after_forward(outcome: Result<Result<(), StorageError>, CqrsError>) -> (r: Result<
    (),
    IngestError,
>)
    ensures
        match outcome {
            Ok(Ok(())) => r is Ok,
            Ok(Err(e)) => r matches Err(IngestError::Storage(x)) && x == e,
            Err(e) => r matches Err(IngestError::Internal(x)) && x == e,
        },
{
    match outcome {
        Ok(Ok(())) => Ok(()),
        Ok(Err(e)) => Err(IngestError::Storage(e)),
        Err(e) => Err(IngestError::Internal(e)),
    }
}

} // verus!
