//! The rows of one block: which row numbers they need, and what they hold.

use vstd::prelude::*;
use crate::block_time::block_seconds;
use crate::block_time::block_time_of;
use crate::block_time::build_block_timestamp;
use crate::block_time::BlockTimestamp;
use crate::block_time::MAX_BLOCK_TIMESTAMP;
use crate::decimal::decimal_digits;
use crate::primitives::Action;
use crate::primitives::Block;
use crate::primitives::BlockReceipts;
use crate::primitives::LogEntry;
use crate::primitives::Receipt;
use crate::primitives::SignedTransaction;
use crate::primitives::TransactionOutcome;
use crate::relational_db::insert_block_relation;
use crate::relational_db::HexKey;
use crate::relational_db::KeyTable;
use crate::relational_db::NewBlock;
use crate::relational_db::NewLog;
use crate::relational_db::NewLogData;
use crate::relational_db::NewTx;

verus! {

/// A text and the table that numbers it.
pub type KeyView = (KeyTable, Seq<char>);

pub open spec fn keys_view(keys: Seq<HexKey>) -> Seq<KeyView> {
    keys.map_values(|k: HexKey| k@)
}

/// What a log-payload row holds.
pub struct NewLogDataView {
    pub epoch: u64,
    pub block_index: u8,
    pub tx_index: u16,
    pub log_index: u16,
    pub bytes: Seq<u8>,
}

impl View for NewLogData {
    type V = NewLogDataView;

    open spec fn view(&self) -> NewLogDataView {
        NewLogDataView {
            epoch: self.epoch,
            block_index: self.block_index,
            tx_index: self.tx_index,
            log_index: self.log_index,
            bytes: self.bytes@,
        }
    }
}

pub open spec fn log_data_view(rows: Seq<NewLogData>) -> Seq<NewLogDataView> {
    rows.map_values(|r: NewLogData| r@)
}

/// What a transaction row holds.
pub struct NewTxView {
    pub epoch: u64,
    pub block_index: u8,
    pub tx_index: u16,
    pub hash: Seq<char>,
    pub timestamp: BlockTimestamp,
    pub from_id: u64,
    pub to_id: u64,
    pub value: Seq<char>,
    pub status: u8,
}

impl View for NewTx {
    type V = NewTxView;

    open spec fn view(&self) -> NewTxView {
        NewTxView {
            epoch: self.epoch,
            block_index: self.block_index,
            tx_index: self.tx_index,
            hash: self.hash@,
            timestamp: self.timestamp,
            from_id: self.from_id,
            to_id: self.to_id,
            value: self.value@,
            status: self.status,
        }
    }
}

pub open spec fn txs_view(rows: Seq<NewTx>) -> Seq<NewTxView> {
    rows.map_values(|r: NewTx| r@)
}

/// A position within a block as the index stores it: its low 16 bits.
pub open spec fn stored_index(i: int) -> u16 {
    (i % 0x1_0000) as u16
}

// ---------------------------------------------------------------------------
// Row numbers that are needed
// ---------------------------------------------------------------------------

/// The texts of one log entry: its address, then its topics in order.
pub open spec fn log_keys(log: LogEntry) -> Seq<KeyView> {
    seq![(KeyTable::Addresses, log.address.hex())] + topic_keys(log, log.topics@.len())
}

/// The texts of the first `n` topics of a log entry.
pub open spec fn topic_keys(log: LogEntry, n: nat) -> Seq<KeyView> {
    Seq::new(n, |k: int| (KeyTable::Bytes32s, log.topics@[k].hex()))
}

/// The texts of a run of log entries, entry by entry.
pub open spec fn logs_keys(logs: Seq<LogEntry>) -> Seq<KeyView>
    decreases logs.len(),
{
    if logs.len() == 0 {
        Seq::empty()
    } else {
        logs_keys(logs.drop_last()) + log_keys(logs.last())
    }
}

/// The texts of one receipt: those of its log entries where the transaction
/// was executed, none where it was skipped.
pub open spec fn receipt_keys(receipt: Receipt) -> Seq<KeyView> {
    if receipt.outcome_status.is_recorded() {
        logs_keys(receipt.logs@)
    } else {
        Seq::empty()
    }
}

/// The texts of a run of receipts, receipt by receipt.
pub open spec fn receipts_keys(receipts: Seq<Receipt>) -> Seq<KeyView>
    decreases receipts.len(),
{
    if receipts.len() == 0 {
        Seq::empty()
    } else {
        receipts_keys(receipts.drop_last()) + receipt_keys(receipts.last())
    }
}

/// The texts of one transaction: its sender, then the account it calls.
pub open spec fn tx_keys(tx: SignedTransaction) -> Seq<KeyView> {
    match tx.action {
        Action::Call(to) => seq![
            (KeyTable::Addresses, tx.sender.hex()),
            (KeyTable::Addresses, to.hex()),
        ],
        Action::Create => seq![(KeyTable::Addresses, tx.sender.hex())],
    }
}

/// The texts of a run of transactions: those of each executed one, in order.
pub open spec fn txs_keys(txs: Seq<SignedTransaction>, status: Seq<TransactionOutcome>) -> Seq<
    KeyView,
>
    decreases txs.len(),
{
    if txs.len() == 0 {
        Seq::empty()
    } else if status[txs.len() - 1].is_recorded() {
        txs_keys(txs.drop_last(), status) + tx_keys(txs.last())
    } else {
        txs_keys(txs.drop_last(), status)
    }
}

/// The outcome of each receipt.
pub open spec fn outcomes(receipts: Seq<Receipt>) -> Seq<TransactionOutcome> {
    receipts.map_values(|r: Receipt| r.outcome_status)
}

/// Every text whose row number the rows of a block need, in the order in
/// which they are looked up: those of the logs, then those of the
/// transactions. A block without receipts needs none.
pub open spec fn block_keys(block: Block, receipts: Seq<Receipt>) -> Seq<KeyView> {
    if receipts.len() == 0 {
        Seq::empty()
    } else {
        receipts_keys(receipts) + txs_keys(block.transactions@, outcomes(receipts))
    }
}

fn push_log_keys(keys: &mut Vec<HexKey>, log: &LogEntry)
    ensures
        keys_view(final(keys)@) == keys_view(old(keys)@) + log_keys(*log),
{
    keys.push(HexKey { table: KeyTable::Addresses, hex: log.address.to_hex() });
    let ghost base = keys_view(old(keys)@) + seq![(KeyTable::Addresses, log.address.hex())];
    assert(keys_view(keys@) =~= base);
    assert(base =~= base + topic_keys(*log, 0));
    let mut k: usize = 0;
    while k < log.topics.len()
        invariant
            k <= log.topics@.len(),
            keys_view(keys@) == base + topic_keys(*log, k as nat),
        decreases log.topics@.len() - k,
    {
        let ghost before = keys@;
        let key = HexKey { table: KeyTable::Bytes32s, hex: log.topics[k].to_hex() };
        let ghost added = key@;
        keys.push(key);
        assert(keys_view(keys@) =~= keys_view(before).push(added));
        assert(topic_keys(*log, (k + 1) as nat) =~= topic_keys(*log, k as nat).push(added));
        assert(keys_view(keys@) =~= base + topic_keys(*log, (k + 1) as nat));
        k = k + 1;
    }
    assert(keys_view(keys@) =~= keys_view(old(keys)@) + log_keys(*log));
}

fn push_receipt_keys(keys: &mut Vec<HexKey>, receipt: &Receipt)
    ensures
        keys_view(final(keys)@) == keys_view(old(keys)@) + receipt_keys(*receipt),
{
    if !receipt.outcome_status.is_recorded() {
        assert(keys_view(keys@) =~= keys_view(old(keys)@) + receipt_keys(*receipt));
        return ;
    }
    let mut j: usize = 0;
    assert(keys_view(keys@) =~= keys_view(old(keys)@) + logs_keys(
        receipt.logs@.subrange(0, 0),
    ));
    while j < receipt.logs.len()
        invariant
            j <= receipt.logs@.len(),
            keys_view(keys@) == keys_view(old(keys)@) + logs_keys(
                receipt.logs@.subrange(0, j as int),
            ),
        decreases receipt.logs@.len() - j,
    {
        push_log_keys(keys, &receipt.logs[j]);
        proof {
            let longer = receipt.logs@.subrange(0, j + 1);
            assert(longer.drop_last() =~= receipt.logs@.subrange(0, j as int));
            assert(longer.last() == receipt.logs@[j as int]);
            assert(keys_view(keys@) =~= keys_view(old(keys)@) + logs_keys(longer));
        }
        j = j + 1;
    }
    assert(receipt.logs@.subrange(0, j as int) =~= receipt.logs@);
}

fn push_tx_keys(keys: &mut Vec<HexKey>, tx: &SignedTransaction)
    ensures
        keys_view(final(keys)@) == keys_view(old(keys)@) + tx_keys(*tx),
{
    keys.push(HexKey { table: KeyTable::Addresses, hex: tx.sender.to_hex() });
    match tx.action {
        Action::Call(to) => {
            keys.push(HexKey { table: KeyTable::Addresses, hex: to.to_hex() });
        },
        Action::Create => {},
    }
    assert(keys_view(keys@) =~= keys_view(old(keys)@) + tx_keys(*tx));
}

fn push_txs_keys(
    keys: &mut Vec<HexKey>,
    txs: &Vec<SignedTransaction>,
    tx_status: &Vec<TransactionOutcome>,
)
    requires
        txs@.len() <= tx_status@.len(),
    ensures
        keys_view(final(keys)@) == keys_view(old(keys)@) + txs_keys(txs@, tx_status@),
{
    let mut i: usize = 0;
    assert(keys_view(keys@) =~= keys_view(old(keys)@) + txs_keys(
        txs@.subrange(0, 0),
        tx_status@,
    ));
    while i < txs.len()
        invariant
            i <= txs@.len(),
            txs@.len() <= tx_status@.len(),
            keys_view(keys@) == keys_view(old(keys)@) + txs_keys(
                txs@.subrange(0, i as int),
                tx_status@,
            ),
        decreases txs@.len() - i,
    {
        proof {
            let longer = txs@.subrange(0, i + 1);
            assert(longer.drop_last() =~= txs@.subrange(0, i as int));
            assert(longer.last() == txs@[i as int]);
        }
        if tx_status[i].is_recorded() {
            push_tx_keys(keys, &txs[i]);
        }
        assert(keys_view(keys@) =~= keys_view(old(keys)@) + txs_keys(
            txs@.subrange(0, i + 1),
            tx_status@,
        ));
        i = i + 1;
    }
    assert(txs@.subrange(0, i as int) =~= txs@);
}

/// The outcome of each receipt, in order.
pub fn receipt_outcomes(block_receipts: &BlockReceipts) -> (status: Vec<TransactionOutcome>)
    ensures
        status@ == outcomes(block_receipts.receipts@),
{
    let mut status: Vec<TransactionOutcome> = Vec::new();
    let mut i: usize = 0;
    while i < block_receipts.receipts.len()
        invariant
            i <= block_receipts.receipts@.len(),
            status@ == outcomes(block_receipts.receipts@.subrange(0, i as int)),
        decreases block_receipts.receipts@.len() - i,
    {
        status.push(block_receipts.receipts[i].outcome_status);
        assert(status@ =~= outcomes(block_receipts.receipts@.subrange(0, i + 1)));
        i = i + 1;
    }
    assert(block_receipts.receipts@.subrange(0, i as int) =~= block_receipts.receipts@);
    status
}

/// The texts whose row numbers the transaction rows of a block need: for each
/// executed transaction its sender, then the account it calls.
pub fn tx_hex_keys(block: &Block, tx_status: &Vec<TransactionOutcome>) -> (keys: Vec<HexKey>)
    requires
        block.transactions@.len() <= tx_status@.len(),
    ensures
        keys_view(keys@) == txs_keys(block.transactions@, tx_status@),
{
    let mut keys: Vec<HexKey> = Vec::new();
    assert(keys_view(keys@) =~= Seq::<KeyView>::empty());
    push_txs_keys(&mut keys, &block.transactions, tx_status);
    keys
}

/// The texts whose row numbers the rows of a block need, in the order in which
/// the caller looks them up and, where one is new, saves it.
pub fn block_hex_keys(block: &Block, block_receipts: &BlockReceipts) -> (keys: Vec<HexKey>)
    requires
        block_receipts.receipts@.len() > 0 ==> block.transactions@.len()
            <= block_receipts.receipts@.len(),
    ensures
        keys_view(keys@) == block_keys(*block, block_receipts.receipts@),
{
    let mut keys: Vec<HexKey> = Vec::new();
    assert(keys_view(keys@) =~= Seq::<KeyView>::empty());
    if block_receipts.receipts.len() == 0 {
        return keys;
    }
    let mut i: usize = 0;
    assert(keys_view(keys@) =~= receipts_keys(block_receipts.receipts@.subrange(0, 0)));
    while i < block_receipts.receipts.len()
        invariant
            i <= block_receipts.receipts@.len(),
            keys_view(keys@) == receipts_keys(block_receipts.receipts@.subrange(0, i as int)),
        decreases block_receipts.receipts@.len() - i,
    {
        push_receipt_keys(&mut keys, &block_receipts.receipts[i]);
        proof {
            let longer = block_receipts.receipts@.subrange(0, i + 1);
            assert(longer.drop_last() =~= block_receipts.receipts@.subrange(0, i as int));
            assert(longer.last() == block_receipts.receipts@[i as int]);
        }
        i = i + 1;
    }
    assert(block_receipts.receipts@.subrange(0, i as int) =~= block_receipts.receipts@);
    let tx_status = receipt_outcomes(block_receipts);
    push_txs_keys(&mut keys, &block.transactions, &tx_status);
    keys
}

// ---------------------------------------------------------------------------
// Rows
// ---------------------------------------------------------------------------

/// The row number of topic `k` of a log entry whose row numbers start at `at`:
/// zero where the entry has no such topic.
pub open spec fn topic_id(log: LogEntry, ids: Seq<u64>, at: int, k: int) -> u64 {
    if k < log.topics@.len() {
        ids[at + 1 + k]
    } else {
        0
    }
}

/// The row of log entry `log_index` of transaction `tx_index`.
pub open spec fn log_row(
    epoch: u64,
    block_index: u8,
    tx_index: int,
    log_index: int,
    log: LogEntry,
    ids: Seq<u64>,
    at: int,
) -> NewLog {
    NewLog {
        epoch,
        block_index,
        tx_index: stored_index(tx_index),
        log_index: stored_index(log_index),
        address_id: ids[at],
        topic0_id: topic_id(log, ids, at, 0),
        topic1_id: topic_id(log, ids, at, 1),
        topic2_id: topic_id(log, ids, at, 2),
        topic3_id: topic_id(log, ids, at, 3),
    }
}

/// The rows of the log entries of one transaction, whose row numbers start at `at`.
pub open spec fn logs_rows(
    epoch: u64,
    block_index: u8,
    tx_index: int,
    logs: Seq<LogEntry>,
    ids: Seq<u64>,
    at: int,
) -> Seq<NewLog>
    decreases logs.len(),
{
    if logs.len() == 0 {
        Seq::empty()
    } else {
        logs_rows(epoch, block_index, tx_index, logs.drop_last(), ids, at).push(
            log_row(
                epoch,
                block_index,
                tx_index,
                logs.len() - 1,
                logs.last(),
                ids,
                at + logs_keys(logs.drop_last()).len(),
            ),
        )
    }
}

/// The log rows of a run of receipts: those of each executed transaction.
pub open spec fn receipts_log_rows(
    epoch: u64,
    block_index: u8,
    receipts: Seq<Receipt>,
    ids: Seq<u64>,
) -> Seq<NewLog>
    decreases receipts.len(),
{
    if receipts.len() == 0 {
        Seq::empty()
    } else if receipts.last().outcome_status.is_recorded() {
        receipts_log_rows(epoch, block_index, receipts.drop_last(), ids) + logs_rows(
            epoch,
            block_index,
            receipts.len() - 1,
            receipts.last().logs@,
            ids,
            receipts_keys(receipts.drop_last()).len() as int,
        )
    } else {
        receipts_log_rows(epoch, block_index, receipts.drop_last(), ids)
    }
}

/// The payload rows of the log entries of one transaction: one for each entry
/// that has a payload.
pub open spec fn logs_data_rows(
    epoch: u64,
    block_index: u8,
    tx_index: int,
    logs: Seq<LogEntry>,
) -> Seq<NewLogDataView>
    decreases logs.len(),
{
    if logs.len() == 0 {
        Seq::empty()
    } else if logs.last().data@.len() > 0 {
        logs_data_rows(epoch, block_index, tx_index, logs.drop_last()).push(
            NewLogDataView {
                epoch,
                block_index,
                tx_index: stored_index(tx_index),
                log_index: stored_index(logs.len() - 1),
                bytes: logs.last().data@,
            },
        )
    } else {
        logs_data_rows(epoch, block_index, tx_index, logs.drop_last())
    }
}

/// The payload rows of a run of receipts: those of each executed transaction.
pub open spec fn receipts_data_rows(epoch: u64, block_index: u8, receipts: Seq<Receipt>) -> Seq<
    NewLogDataView,
>
    decreases receipts.len(),
{
    if receipts.len() == 0 {
        Seq::empty()
    } else if receipts.last().outcome_status.is_recorded() {
        receipts_data_rows(epoch, block_index, receipts.drop_last()) + logs_data_rows(
            epoch,
            block_index,
            receipts.len() - 1,
            receipts.last().logs@,
        )
    } else {
        receipts_data_rows(epoch, block_index, receipts.drop_last())
    }
}

/// The row of transaction `tx_index`, whose row numbers start at `at`: the
/// sender's, and the called account's or, for a creation, zero.
pub open spec fn tx_row(
    epoch: u64,
    block_index: u8,
    time: BlockTimestamp,
    tx_index: int,
    tx: SignedTransaction,
    status: TransactionOutcome,
    ids: Seq<u64>,
    at: int,
) -> NewTxView {
    NewTxView {
        epoch,
        block_index,
        tx_index: stored_index(tx_index),
        hash: tx.hash.hex(),
        timestamp: time,
        from_id: ids[at],
        to_id: match tx.action {
            Action::Call(_) => ids[at + 1],
            Action::Create => 0,
        },
        value: decimal_digits(tx.value@),
        status: status.code(),
    }
}

/// The rows of a run of transactions: one for each executed transaction. The
/// row numbers of the run start at `base`.
pub open spec fn txs_rows(
    epoch: u64,
    block_index: u8,
    time: BlockTimestamp,
    txs: Seq<SignedTransaction>,
    status: Seq<TransactionOutcome>,
    ids: Seq<u64>,
    base: int,
) -> Seq<NewTxView>
    decreases txs.len(),
{
    if txs.len() == 0 {
        Seq::empty()
    } else if status[txs.len() - 1].is_recorded() {
        txs_rows(epoch, block_index, time, txs.drop_last(), status, ids, base).push(
            tx_row(
                epoch,
                block_index,
                time,
                txs.len() - 1,
                txs.last(),
                status[txs.len() - 1],
                ids,
                base + txs_keys(txs.drop_last(), status).len(),
            ),
        )
    } else {
        txs_rows(epoch, block_index, time, txs.drop_last(), status, ids, base)
    }
}

/// No log entry of an executed transaction has more than four topics.
pub open spec fn topics_fit(receipts: Seq<Receipt>) -> bool {
    forall|i: int, j: int|
        0 <= i < receipts.len() && receipts[i].outcome_status.is_recorded() && 0 <= j
            < receipts[i].logs@.len() ==> (#[trigger] receipts[i].logs@[j]).topics@.len() <= 4
}

fn stored_position(i: usize) -> (r: u16)
    ensures
        r == stored_index(i as int),
{
    (i % 0x1_0000) as u16
}

fn build_log_row(
    epoch: u64,
    block_index: u8,
    tx_index: usize,
    log_index: usize,
    log: &LogEntry,
    ids: &Vec<u64>,
    at: usize,
) -> (row: NewLog)
    requires
        log.topics@.len() <= 4,
        at + log_keys(*log).len() <= ids.len(),
    ensures
        row == log_row(epoch, block_index, tx_index as int, log_index as int, *log, ids@, at as int),
{
    let n = log.topics.len();
    assert(log_keys(*log).len() == 1 + n);
    NewLog {
        epoch,
        block_index,
        tx_index: stored_position(tx_index),
        log_index: stored_position(log_index),
        address_id: ids[at],
        topic0_id: if 0 < n {
            ids[at + 1]
        } else {
            0
        },
        topic1_id: if 1 < n {
            ids[at + 2]
        } else {
            0
        },
        topic2_id: if 2 < n {
            ids[at + 3]
        } else {
            0
        },
        topic3_id: if 3 < n {
            ids[at + 4]
        } else {
            0
        },
    }
}

fn copy_bytes(bytes: &Vec<u8>) -> (out: Vec<u8>)
    ensures
        out@ == bytes@,
{
    let mut out: Vec<u8> = Vec::new();
    let mut i: usize = 0;
    while i < bytes.len()
        invariant
            i <= bytes@.len(),
            out@ == bytes@.subrange(0, i as int),
        decreases bytes@.len() - i,
    {
        out.push(bytes[i]);
        assert(out@ =~= bytes@.subrange(0, i + 1));
        i = i + 1;
    }
    assert(bytes@.subrange(0, i as int) =~= bytes@);
    out
}

proof fn lemma_logs_keys_prefix(logs: Seq<LogEntry>, n: int)
    requires
        0 <= n <= logs.len(),
    ensures
        logs_keys(logs.subrange(0, n)).len() <= logs_keys(logs).len(),
    decreases logs.len() - n,
{
    if n == logs.len() {
        assert(logs.subrange(0, n) =~= logs);
    } else {
        lemma_logs_keys_prefix(logs, n + 1);
        assert(logs.subrange(0, n + 1).drop_last() =~= logs.subrange(0, n));
    }
}

proof fn lemma_receipts_keys_prefix(receipts: Seq<Receipt>, n: int)
    requires
        0 <= n <= receipts.len(),
    ensures
        receipts_keys(receipts.subrange(0, n)).len() <= receipts_keys(receipts).len(),
    decreases receipts.len() - n,
{
    if n == receipts.len() {
        assert(receipts.subrange(0, n) =~= receipts);
    } else {
        lemma_receipts_keys_prefix(receipts, n + 1);
        assert(receipts.subrange(0, n + 1).drop_last() =~= receipts.subrange(0, n));
    }
}

proof fn lemma_txs_keys_prefix(
    txs: Seq<SignedTransaction>,
    status: Seq<TransactionOutcome>,
    n: int,
)
    requires
        0 <= n <= txs.len(),
    ensures
        txs_keys(txs.subrange(0, n), status).len() <= txs_keys(txs, status).len(),
    decreases txs.len() - n,
{
    if n == txs.len() {
        assert(txs.subrange(0, n) =~= txs);
    } else {
        lemma_txs_keys_prefix(txs, status, n + 1);
        assert(txs.subrange(0, n + 1).drop_last() =~= txs.subrange(0, n));
    }
}

fn push_logs_rows(
    logs_out: &mut Vec<NewLog>,
    data_out: &mut Vec<NewLogData>,
    epoch: u64,
    block_index: u8,
    tx_index: usize,
    logs: &Vec<LogEntry>,
    ids: &Vec<u64>,
    at: usize,
)
    requires
        forall|j: int| 0 <= j < logs@.len() ==> (#[trigger] logs@[j]).topics@.len() <= 4,
        at + logs_keys(logs@).len() <= ids.len(),
    ensures
        final(logs_out)@ == old(logs_out)@ + logs_rows(
            epoch,
            block_index,
            tx_index as int,
            logs@,
            ids@,
            at as int,
        ),
        log_data_view(final(data_out)@) == log_data_view(old(data_out)@) + logs_data_rows(
            epoch,
            block_index,
            tx_index as int,
            logs@,
        ),
{
    let mut j: usize = 0;
    let mut next: usize = at;
    assert(logs_out@ =~= old(logs_out)@ + logs_rows(
        epoch,
        block_index,
        tx_index as int,
        logs@.subrange(0, 0),
        ids@,
        at as int,
    ));
    assert(log_data_view(data_out@) =~= log_data_view(old(data_out)@) + logs_data_rows(
        epoch,
        block_index,
        tx_index as int,
        logs@.subrange(0, 0),
    ));
    while j < logs.len()
        invariant
            j <= logs@.len(),
            forall|j: int| 0 <= j < logs@.len() ==> (#[trigger] logs@[j]).topics@.len() <= 4,
            at + logs_keys(logs@).len() <= ids.len(),
            next == at + logs_keys(logs@.subrange(0, j as int)).len(),
            logs_out@ == old(logs_out)@ + logs_rows(
                epoch,
                block_index,
                tx_index as int,
                logs@.subrange(0, j as int),
                ids@,
                at as int,
            ),
            log_data_view(data_out@) == log_data_view(old(data_out)@) + logs_data_rows(
                epoch,
                block_index,
                tx_index as int,
                logs@.subrange(0, j as int),
            ),
        decreases logs@.len() - j,
    {
        let log = &logs[j];
        proof {
            let longer = logs@.subrange(0, j + 1);
            assert(longer.drop_last() =~= logs@.subrange(0, j as int));
            assert(longer.last() == logs@[j as int]);
            lemma_logs_keys_prefix(logs@, j + 1);
            assert(log_keys(*log).len() == 1 + log.topics@.len());
        }
        let row = build_log_row(epoch, block_index, tx_index, j, log, ids, next);
        logs_out.push(row);
        if log.data.len() > 0 {
            let ghost before = data_out@;
            let data = NewLogData {
                epoch,
                block_index,
                tx_index: stored_position(tx_index),
                log_index: stored_position(j),
                bytes: copy_bytes(&log.data),
            };
            let ghost added = data@;
            data_out.push(data);
            assert(log_data_view(data_out@) =~= log_data_view(before).push(added));
        }
        assert(logs_out@ =~= old(logs_out)@ + logs_rows(
            epoch,
            block_index,
            tx_index as int,
            logs@.subrange(0, j + 1),
            ids@,
            at as int,
        ));
        assert(log_data_view(data_out@) =~= log_data_view(old(data_out)@) + logs_data_rows(
            epoch,
            block_index,
            tx_index as int,
            logs@.subrange(0, j + 1),
        ));
        next = next + 1 + log.topics.len();
        j = j + 1;
    }
    assert(logs@.subrange(0, j as int) =~= logs@);
}

fn push_txs_rows(
    rows: &mut Vec<NewTx>,
    epoch: u64,
    block_index: u8,
    timestamp: BlockTimestamp,
    txs: &Vec<SignedTransaction>,
    tx_status: &Vec<TransactionOutcome>,
    ids: &Vec<u64>,
    base: usize,
)
    requires
        txs@.len() <= tx_status@.len(),
        base + txs_keys(txs@, tx_status@).len() <= ids.len(),
    ensures
        txs_view(final(rows)@) == txs_view(old(rows)@) + txs_rows(
            epoch,
            block_index,
            timestamp,
            txs@,
            tx_status@,
            ids@,
            base as int,
        ),
{
    let mut i: usize = 0;
    let mut next: usize = base;
    assert(txs_view(rows@) =~= txs_view(old(rows)@) + txs_rows(
        epoch,
        block_index,
        timestamp,
        txs@.subrange(0, 0),
        tx_status@,
        ids@,
        base as int,
    ));
    while i < txs.len()
        invariant
            i <= txs@.len(),
            txs@.len() <= tx_status@.len(),
            base + txs_keys(txs@, tx_status@).len() <= ids.len(),
            next == base + txs_keys(txs@.subrange(0, i as int), tx_status@).len(),
            txs_view(rows@) == txs_view(old(rows)@) + txs_rows(
                epoch,
                block_index,
                timestamp,
                txs@.subrange(0, i as int),
                tx_status@,
                ids@,
                base as int,
            ),
        decreases txs@.len() - i,
    {
        let tx = &txs[i];
        let status = tx_status[i];
        proof {
            let longer = txs@.subrange(0, i + 1);
            assert(longer.drop_last() =~= txs@.subrange(0, i as int));
            assert(longer.last() == txs@[i as int]);
            lemma_txs_keys_prefix(txs@, tx_status@, i + 1);
            assert(tx_keys(*tx).len() == match tx.action {
                Action::Call(_) => 2nat,
                Action::Create => 1nat,
            });
        }
        if status.is_recorded() {
            let from_id = ids[next];
            let to_id = match tx.action {
                Action::Call(_) => ids[next + 1],
                Action::Create => 0,
            };
            let row = NewTx {
                epoch,
                block_index,
                tx_index: stored_position(i),
                hash: tx.hash.to_hex(),
                timestamp,
                from_id,
                to_id,
                value: tx.value.to_decimal(),
                status: status.code(),
            };
            let ghost before = rows@;
            let ghost added = row@;
            rows.push(row);
            assert(txs_view(rows@) =~= txs_view(before).push(added));
            next = match tx.action {
                Action::Call(_) => next + 2,
                Action::Create => next + 1,
            };
        }
        assert(txs_view(rows@) =~= txs_view(old(rows)@) + txs_rows(
            epoch,
            block_index,
            timestamp,
            txs@.subrange(0, i + 1),
            tx_status@,
            ids@,
            base as int,
        ));
        i = i + 1;
    }
    assert(txs@.subrange(0, i as int) =~= txs@);
}

/// The transaction rows of a block, one for each executed transaction, built
/// from the row numbers that the caller looked up for `tx_hex_keys`.
pub fn insert_block_tx_relation(
    block: &Block,
    tx_status: &Vec<TransactionOutcome>,
    epoch: u64,
    block_index: u8,
    address_ids: &Vec<u64>,
) -> (rows: Vec<NewTx>)
    requires
        block.transactions@.len() <= tx_status@.len(),
        block.transactions@.len() > 0 ==> block.block_header.timestamp <= MAX_BLOCK_TIMESTAMP,
        address_ids.len() == txs_keys(block.transactions@, tx_status@).len(),
    ensures
        txs_view(rows@) == txs_rows(
            epoch,
            block_index,
            block_time_of(block.block_header.timestamp),
            block.transactions@,
            tx_status@,
            address_ids@,
            0,
        ),
{
    let mut rows: Vec<NewTx> = Vec::new();
    assert(txs_view(rows@) =~= Seq::<NewTxView>::empty());
    if block.transactions.len() == 0 {
        return rows;
    }
    let block_time = build_block_timestamp(block.block_header.timestamp);
    push_txs_rows(
        &mut rows,
        epoch,
        block_index,
        block_time,
        &block.transactions,
        tx_status,
        address_ids,
        0,
    );
    rows
}

/// Everything that mirrors one block: its own row, the rows of its executed
/// transactions, and the rows of their log entries and payloads.
///
/// The caller inserts `block`. It then replaces `txs`, unless there are none,
/// and last replaces `logs` and `log_data` together, unless `logs` is empty.
pub struct BlockRelations {
    pub block: NewBlock,
    pub txs: Vec<NewTx>,
    pub logs: Vec<NewLog>,
    pub log_data: Vec<NewLogData>,
}

/// The transaction rows of a block with receipts: none where it has no
/// receipts. Their row numbers follow those of the logs.
pub open spec fn block_tx_rows(
    block: Block,
    receipts: Seq<Receipt>,
    epoch: u64,
    block_index: u8,
    ids: Seq<u64>,
) -> Seq<NewTxView> {
    if receipts.len() == 0 {
        Seq::empty()
    } else {
        txs_rows(
            epoch,
            block_index,
            block_time_of(block.block_header.timestamp),
            block.transactions@,
            outcomes(receipts),
            ids,
            receipts_keys(receipts).len() as int,
        )
    }
}

/// Builds what mirrors one block from the block, its receipts and the row
/// numbers that the caller looked up for `block_hex_keys`, in that order.
pub fn insert_block_receipts(
    block: &Block,
    block_receipts: &BlockReceipts,
    epoch: u64,
    block_index: u8,
    ids: &Vec<u64>,
) -> (out: BlockRelations)
    requires
        block.block_header.timestamp <= MAX_BLOCK_TIMESTAMP,
        topics_fit(block_receipts.receipts@),
        block_receipts.receipts@.len() > 0 ==> block.transactions@.len()
            <= block_receipts.receipts@.len(),
        ids.len() == block_keys(*block, block_receipts.receipts@).len(),
    ensures
        out.block.epoch == epoch,
        out.block.block_index == block_index,
        out.block.hash@ == block.block_header.hash.hex(),
        out.block.timestamp == block_time_of(block.block_header.timestamp),
        out.block.timestamp.seconds() == block_seconds(block.block_header.timestamp),
        out.logs@ == receipts_log_rows(epoch, block_index, block_receipts.receipts@, ids@),
        log_data_view(out.log_data@) == receipts_data_rows(
            epoch,
            block_index,
            block_receipts.receipts@,
        ),
        txs_view(out.txs@) == block_tx_rows(
            *block,
            block_receipts.receipts@,
            epoch,
            block_index,
            ids@,
        ),
{
    let block_row = insert_block_relation(block, epoch, block_index);
    let mut logs: Vec<NewLog> = Vec::new();
    let mut log_data: Vec<NewLogData> = Vec::new();
    let mut txs: Vec<NewTx> = Vec::new();
    let receipts = &block_receipts.receipts;
    assert(log_data_view(log_data@) =~= Seq::<NewLogDataView>::empty());
    assert(txs_view(txs@) =~= Seq::<NewTxView>::empty());
    if receipts.len() == 0 {
        return BlockRelations { block: block_row, txs, logs, log_data };
    }
    let mut i: usize = 0;
    let mut next: usize = 0;
    assert(logs@ =~= receipts_log_rows(epoch, block_index, receipts@.subrange(0, 0), ids@));
    assert(log_data_view(log_data@) =~= receipts_data_rows(
        epoch,
        block_index,
        receipts@.subrange(0, 0),
    ));
    while i < receipts.len()
        invariant
            i <= receipts@.len(),
            topics_fit(receipts@),
            receipts_keys(receipts@).len() <= ids.len(),
            next == receipts_keys(receipts@.subrange(0, i as int)).len(),
            logs@ == receipts_log_rows(epoch, block_index, receipts@.subrange(0, i as int), ids@),
            log_data_view(log_data@) == receipts_data_rows(
                epoch,
                block_index,
                receipts@.subrange(0, i as int),
            ),
        decreases receipts@.len() - i,
    {
        let receipt = &receipts[i];
        proof {
            let longer = receipts@.subrange(0, i + 1);
            assert(longer.drop_last() =~= receipts@.subrange(0, i as int));
            assert(longer.last() == receipts@[i as int]);
            lemma_receipts_keys_prefix(receipts@, i + 1);
        }
        if receipt.outcome_status.is_recorded() {
            assert forall|j: int| 0 <= j < receipt.logs@.len() implies (
            #[trigger] receipt.logs@[j]).topics@.len() <= 4 by {
                assert(receipts@[i as int].logs@[j].topics@.len() <= 4);
            }
            push_logs_rows(
                &mut logs,
                &mut log_data,
                epoch,
                block_index,
                i,
                &receipt.logs,
                ids,
                next,
            );
            next = next + count_log_keys(&receipt.logs, ids.len() - next);
        }
        i = i + 1;
    }
    assert(receipts@.subrange(0, i as int) =~= receipts@);
    let tx_status = receipt_outcomes(block_receipts);
    if block.transactions.len() > 0 {
        let block_time = build_block_timestamp(block.block_header.timestamp);
        push_txs_rows(
            &mut txs,
            epoch,
            block_index,
            block_time,
            &block.transactions,
            &tx_status,
            ids,
            next,
        );
    }
    BlockRelations { block: block_row, txs, logs, log_data }
}

/// How many row numbers a run of log entries needs.
fn count_log_keys(logs: &Vec<LogEntry>, limit: usize) -> (n: usize)
    requires
        logs_keys(logs@).len() <= limit,
    ensures
        n == logs_keys(logs@).len(),
{
    let mut n: usize = 0;
    let mut j: usize = 0;
    assert(logs_keys(logs@.subrange(0, 0)).len() == 0);
    while j < logs.len()
        invariant
            j <= logs@.len(),
            logs_keys(logs@).len() <= limit,
            n == logs_keys(logs@.subrange(0, j as int)).len(),
        decreases logs@.len() - j,
    {
        proof {
            let longer = logs@.subrange(0, j + 1);
            assert(longer.drop_last() =~= logs@.subrange(0, j as int));
            assert(longer.last() == logs@[j as int]);
            lemma_logs_keys_prefix(logs@, j + 1);
            assert(log_keys(logs@[j as int]).len() == 1 + logs@[j as int].topics@.len());
        }
        n = n + 1 + logs[j].topics.len();
        j = j + 1;
    }
    assert(logs@.subrange(0, j as int) =~= logs@);
    n
}

} // verus!
