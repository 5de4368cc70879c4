//! Typed failures of the protocol engine.

use vstd::prelude::*;
use crate::cid::Cid;
use crate::incremental_verification::BlockState;

verus! {

/// Failures of a block store lookup.
#[derive(Debug)]
pub enum BlockStoreError {
    /// The store holds no block under this CID.
    CIDNotFound(Cid),
}

/// Failures of incremental verification.
#[derive(Debug)]
pub enum IncrementalVerificationError {
    /// A block arrived whose CID the receiver did not expect next: it is
    /// either already stored or not known to be connected to the root.
    ExpectedWantedBlock {
        /// The CID of the arriving block.
        cid: Cid,
        /// The state it has during incremental verification.
        block_state: BlockState,
    },
    /// The block's bytes hash to a different digest than its CID carries.
    DigestMismatch {
        /// The expected CID.
        cid: Cid,
        /// The CID the bytes actually hash to.
        actual_cid: Cid,
    },
}

/// Failures of the protocol engine.
#[derive(Debug)]
pub enum Error {
    /// More bytes arrived in one round than the configured maximum.
    TooManyBytes {
        /// The configured maximum for one round.
        receive_maximum: usize,
        /// How many bytes arrived.
        bytes_read: usize,
    },
    /// One block exceeds the configured maximum block size.
    BlockSizeExceeded {
        /// The CID of the oversized block.
        cid: Cid,
        /// The size of the arriving block.
        block_bytes: usize,
        /// The configured maximum block size.
        max_block_size: usize,
    },
    /// The CID names a codec the reference extractor does not know.
    UnsupportedCodec {
        /// The CID with the unsupported codec.
        cid: Cid,
    },
    /// The CID names a hash algorithm the verifier does not know.
    UnsupportedHashCode {
        /// The CID with the unsupported hash code.
        cid: Cid,
    },
    /// A block store lookup failed.
    BlockStoreError(BlockStoreError),
    /// A block could not be parsed while looking for its links.
    ParsingError,
    /// Incremental verification refused a block.
    IncrementalVerificationError(IncrementalVerificationError),
    /// The byte stream is not a well-formed CAR file.
    CarFileError,
}

} // verus!
