//! The rows that mirror committed blocks, transactions and logs into a
//! relational index, and the rules by which they are built.
//!
//! The index itself is a database behind the caller. This module decides what
//! is written: it names the addresses and topics whose row numbers are needed,
//! and builds the rows once the caller has looked those numbers up.

use vstd::prelude::*;
use vstd::string::StringExecFns;
use chrono::NaiveDateTime;
use crate::block_time::build_block_timestamp;
use crate::block_time::block_seconds;
use crate::block_time::block_time_of;
use crate::block_time::BlockTimestamp;
use crate::block_time::MAX_BLOCK_TIMESTAMP;
use crate::decimal::decimal_digits;
use crate::decimal::parse_u64;
use crate::decimal::parse_u64_spec;
use crate::decimal::u64_to_decimal;
use crate::primitives::Action;
use crate::primitives::Address;
use crate::primitives::Block;
use crate::primitives::BlockReceipts;
use crate::primitives::H256;
use crate::primitives::LogEntry;
use crate::primitives::Receipt;
use crate::primitives::SignedTransaction;
use crate::primitives::TransactionOutcome;

verus! {

/// A stored configuration entry.
pub struct ConfigPO {
    pub name: String,
    pub content: String,
}

/// A configuration entry to store.
pub struct NewConfig {
    pub name: String,
    pub content: String,
}

/// A stored block.
pub struct BlockPO {
    pub epoch: u64,
    pub block_index: u8,
    pub hash: String,
    pub timestamp: NaiveDateTime,
}

/// A block to store.
pub struct NewBlock {
    pub epoch: u64,
    pub block_index: u8,
    pub hash: String,
    pub timestamp: BlockTimestamp,
}

/// The stored payload of a log entry.
pub struct LogDataPO<'a> {
    pub epoch: u64,
    pub block_index: u8,
    pub tx_index: u16,
    pub log_index: u16,
    pub bytes: &'a Vec<u8>,
}

/// The payload of a log entry, to store.
pub struct NewLogData {
    pub epoch: u64,
    pub block_index: u8,
    pub tx_index: u16,
    pub log_index: u16,
    pub bytes: Vec<u8>,
}

/// A stored log entry.
#[derive(Clone, Copy, Debug, PartialEq, Eq, Structural)]
pub struct LogPO {
    pub epoch: u64,
    pub block_index: u8,
    pub tx_index: u16,
    pub log_index: u16,
    pub address_id: u64,
    pub topic0_id: u64,
    pub topic1_id: u64,
    pub topic2_id: u64,
    pub topic3_id: u64,
}

/// A log entry to store: where it stands, and the row numbers of its address
/// and of up to four topics (zero where it has none).
#[derive(Clone, Copy, Debug, PartialEq, Eq, Structural)]
pub struct NewLog {
    pub epoch: u64,
    pub block_index: u8,
    pub tx_index: u16,
    pub log_index: u16,
    pub address_id: u64,
    pub topic0_id: u64,
    pub topic1_id: u64,
    pub topic2_id: u64,
    pub topic3_id: u64,
}

/// A transaction to store.
pub struct NewTx {
    pub epoch: u64,
    pub block_index: u8,
    pub tx_index: u16,
    pub hash: String,
    pub timestamp: BlockTimestamp,
    pub from_id: u64,
    pub to_id: u64,
    pub value: String,
    pub status: u8,
}

/// A stored transaction.
pub struct TxPO {
    pub epoch: u64,
    pub block_index: u8,
    pub index_in_block: u16,
    pub hash: String,
    pub timestamp: NaiveDateTime,
    pub from_id: u64,
    pub to_id: u64,
    pub value: String,
    pub status: u8,
}

/// A stored address.
pub struct AddressPO {
    pub id: u64,
    pub hex: String,
    pub timestamp: NaiveDateTime,
}

/// An address to store.
pub struct NewAddress {
    pub hex: String,
    pub timestamp: BlockTimestamp,
}

/// A stored 32-byte value.
pub struct Bytes32PO {
    pub id: u64,
    pub hex: String,
    pub timestamp: NaiveDateTime,
}

/// A 32-byte value to store.
pub struct NewBytes32 {
    pub hex: String,
    pub timestamp: BlockTimestamp,
}

/// The table that gives a hexadecimal text its row number.
#[derive(Clone, Copy, Debug, PartialEq, Eq, Structural)]
pub enum KeyTable {
    Addresses,
    Bytes32s,
}

/// A text whose row number the caller looks up, saving it first if it is new.
pub struct HexKey {
    pub table: KeyTable,
    pub hex: String,
}

impl View for HexKey {
    type V = (KeyTable, Seq<char>);

    open spec fn view(&self) -> (KeyTable, Seq<char>) {
        (self.table, self.hex@)
    }
}

/// The tables of the index that hold rows by epoch.
#[derive(Clone, Copy, Debug, PartialEq, Eq, Structural)]
pub enum EpochTable {
    LogData,
    Logs,
    Txs,
    Blocks,
}

/// The name under which the last mirrored epoch is kept.
pub open spec fn epoch_config_name() -> Seq<char> {
    seq!['e', 'p', 'o', 'c', 'h']
}

/// The number that a configuration entry holds, if the entry exists and its
/// content reads as an unsigned 64-bit number.
pub fn find_config_u64(found: Option<ConfigPO>) -> (n: Option<u64>)
    ensures
        n == match found {
            Some(cfg) => parse_u64_spec(cfg.content@),
            None => None,
        },
{
    match found {
        Some(cfg) => parse_u64(cfg.content.as_str()),
        None => None,
    }
}

/// The tables to clear from `epoch_n` upwards before that epoch is mirrored,
/// in the order in which they are cleared: all four where the epoch was
/// mirrored before, none where it is new.
pub open spec fn tables_to_pop(epoch_n: u64, previous_saved_epoch: u64) -> Seq<EpochTable> {
    if epoch_n <= previous_saved_epoch {
        seq![EpochTable::LogData, EpochTable::Logs, EpochTable::Txs, EpochTable::Blocks]
    } else {
        Seq::empty()
    }
}

/// Says which tables hold rows of `epoch_n` or later that have to go before
/// the epoch is mirrored again.
pub fn prepare_epoch_relation(epoch_n: u64, previous_saved_epoch: u64) -> (tables: Vec<EpochTable>)
    ensures
        tables@ == tables_to_pop(epoch_n, previous_saved_epoch),
{
    let mut tables: Vec<EpochTable> = Vec::new();
    if epoch_n <= previous_saved_epoch {
        tables.push(EpochTable::LogData);
        tables.push(EpochTable::Logs);
        tables.push(EpochTable::Txs);
        tables.push(EpochTable::Blocks);
    }
    assert(tables@ =~= tables_to_pop(epoch_n, previous_saved_epoch));
    tables
}

/// Records `epoch_n` as the last mirrored epoch and gives the configuration
/// entry that stores it.
pub fn finish_epoch_relation(previous_saved_epoch: &mut u64, epoch_n: u64) -> (entry: NewConfig)
    ensures
        *final(previous_saved_epoch) == epoch_n,
        entry.name@ == epoch_config_name(),
        entry.content@ == decimal_digits(epoch_n as nat),
{
    *previous_saved_epoch = epoch_n;
    proof {
        reveal_strlit("epoch");
    }
    let name = String::from_str("epoch");
    assert(name@ =~= epoch_config_name());
    NewConfig { name, content: u64_to_decimal(epoch_n) }
}

/// The row of an address: the one found, or else the row to insert, after
/// which the caller looks the address up again.
pub fn save_address(addr: &Address, timestamp: &BlockTimestamp, found: Option<AddressPO>) -> (r:
    Result<AddressPO, NewAddress>)
    ensures
        match found {
            Some(bean) => r == Ok::<AddressPO, NewAddress>(bean),
            None => r matches Err(row) && row.hex@ == addr.hex() && row.timestamp == *timestamp,
        },
{
    match found {
        Some(bean) => Ok(bean),
        None => Err(NewAddress { hex: addr.to_hex(), timestamp: *timestamp }),
    }
}

/// The row of a 32-byte value: the one found, or else the row to insert,
/// after which the caller looks the value up again.
pub fn save_bytes32(bytes32: &H256, timestamp: &BlockTimestamp, found: Option<Bytes32PO>) -> (r:
    Result<Bytes32PO, NewBytes32>)
    ensures
        match found {
            Some(bean) => r == Ok::<Bytes32PO, NewBytes32>(bean),
            None => r matches Err(row) && row.hex@ == bytes32.hex() && row.timestamp == *timestamp,
        },
{
    match found {
        Some(bean) => Ok(bean),
        None => Err(NewBytes32 { hex: bytes32.to_hex(), timestamp: *timestamp }),
    }
}

/// A text to store in the table that numbers it.
pub struct NewHexRow {
    pub table: KeyTable,
    pub hex: String,
    pub timestamp: BlockTimestamp,
}

/// The row number of a text: the one found, or else the row to insert,
/// after which the caller looks the text up again.
pub fn save_hex_key(key: &HexKey, timestamp: &BlockTimestamp, found: Option<u64>) -> (r: Result<
    u64,
    NewHexRow,
>)
    ensures
        match found {
            Some(id) => r == Ok::<u64, NewHexRow>(id),
            None => r matches Err(row) && row.table == key.table && row.hex@ == key.hex@
                && row.timestamp == *timestamp,
        },
{
    match found {
        Some(id) => Ok(id),
        None => Err(NewHexRow { table: key.table, hex: key.hex.clone(), timestamp: *timestamp }),
    }
}

/// The text by which a transaction is found and removed.
pub fn remove_tx_relation(hash: &H256) -> (hex: String)
    ensures
        hex@ == hash.hex(),
{
    hash.to_hex()
}

/// The row of a block.
pub fn insert_block_relation(block: &Block, epoch: u64, block_index: u8) -> (row: NewBlock)
    requires
        block.block_header.timestamp <= MAX_BLOCK_TIMESTAMP,
    ensures
        row.epoch == epoch,
        row.block_index == block_index,
        row.hash@ == block.block_header.hash.hex(),
        row.timestamp == block_time_of(block.block_header.timestamp),
        row.timestamp.seconds() == block_seconds(block.block_header.timestamp),
{
    NewBlock {
        block_index,
        epoch,
        hash: block.block_header.hash.to_hex(),
        timestamp: build_block_timestamp(block.block_header.timestamp),
    }
}

} // verus!
