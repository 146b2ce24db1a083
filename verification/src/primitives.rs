//! The parts of blocks, transactions and receipts that the relational index reads.

use vstd::prelude::*;
use crate::decimal::U256;
use crate::hex::hex_0x;
use crate::hex::to_hex_0x;

verus! {

/// A 32-byte hash.
#[derive(Clone, Copy, Debug)]
pub struct H256 {
    pub bytes: [u8; 32],
}

/// A 20-byte account address.
#[derive(Clone, Copy, Debug)]
pub struct Address {
    pub bytes: [u8; 20],
}

impl H256 {
    /// The hash as `0x` and 64 lower-case hexadecimal digits.
    pub open spec fn hex(&self) -> Seq<char> {
        hex_0x(self.bytes@)
    }

    pub fn to_hex(&self) -> (s: String)
        ensures
            s@ == self.hex(),
    {
        to_hex_0x(self.bytes.as_slice())
    }
}

impl Address {
    /// The address as `0x` and 40 lower-case hexadecimal digits.
    pub open spec fn hex(&self) -> Seq<char> {
        hex_0x(self.bytes@)
    }

    pub fn to_hex(&self) -> (s: String)
        ensures
            s@ == self.hex(),
    {
        to_hex_0x(self.bytes.as_slice())
    }
}

/// How the execution of a transaction ended.
#[derive(Clone, Copy, Debug, PartialEq, Eq, Structural)]
pub enum TransactionOutcome {
    Success,
    Failure,
    Skipped,
}

impl TransactionOutcome {
    /// The number under which the outcome is stored.
    pub open spec fn spec_code(&self) -> u8 {
        match self {
            TransactionOutcome::Success => 0,
            TransactionOutcome::Failure => 1,
            TransactionOutcome::Skipped => 2,
        }
    }

    #[verifier::when_used_as_spec(spec_code)]
    pub fn code(&self) -> (c: u8)
        ensures
            c == self.spec_code(),
    {
        match self {
            TransactionOutcome::Success => 0,
            TransactionOutcome::Failure => 1,
            TransactionOutcome::Skipped => 2,
        }
    }

    /// Only transactions that were executed, with success or failure, are mirrored.
    pub open spec fn spec_is_recorded(&self) -> bool {
        *self == TransactionOutcome::Success || *self == TransactionOutcome::Failure
    }

    #[verifier::when_used_as_spec(spec_is_recorded)]
    pub fn is_recorded(&self) -> (b: bool)
        ensures
            b == self.spec_is_recorded(),
    {
        match self {
            TransactionOutcome::Success => true,
            TransactionOutcome::Failure => true,
            TransactionOutcome::Skipped => false,
        }
    }
}

/// What a transaction does: call an account, or create a contract.
#[derive(Clone, Copy, Debug)]
pub enum Action {
    Create,
    Call(Address),
}

/// One log entry of a receipt.
#[derive(Clone, Debug)]
pub struct LogEntry {
    pub address: Address,
    pub topics: Vec<H256>,
    pub data: Vec<u8>,
}

/// The receipt of one transaction.
#[derive(Clone, Debug)]
pub struct Receipt {
    pub outcome_status: TransactionOutcome,
    pub logs: Vec<LogEntry>,
}

/// The receipts of a block, one per transaction, in the block's order.
#[derive(Clone, Debug)]
pub struct BlockReceipts {
    pub receipts: Vec<Receipt>,
}

/// A signed transaction.
#[derive(Clone, Copy, Debug)]
pub struct SignedTransaction {
    pub hash: H256,
    pub sender: Address,
    pub action: Action,
    pub value: U256,
}

#[derive(Clone, Copy, Debug)]
pub struct BlockHeader {
    pub hash: H256,
    pub timestamp: u64,
}

#[derive(Clone, Debug)]
pub struct Block {
    pub block_header: BlockHeader,
    pub transactions: Vec<SignedTransaction>,
}

} // verus!
