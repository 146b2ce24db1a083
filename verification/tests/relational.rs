use mpt_storage::block_time::build_block_timestamp;
use mpt_storage::decimal::{parse_u64, u64_to_decimal, U256};
use mpt_storage::hex::to_hex_0x;

#[test]
fn genesis_timestamp_counts_as_one_second() {
    let t = build_block_timestamp(0);
    assert_eq!(t.seconds(), 1);
    assert_eq!(t.date_time().and_utc().timestamp(), 1);
}

#[test]
fn timestamp_is_kept() {
    let t = build_block_timestamp(1_431_648_000);
    assert_eq!(t.seconds(), 1_431_648_000);
    assert_eq!(format!("{}", t.date_time()), "2015-05-15 00:00:00");
}

#[test]
fn hex_has_prefix_and_two_digits_per_byte() {
    assert_eq!(to_hex_0x(&[0x00, 0x0f, 0xa5, 0xff]), "0x000fa5ff");
    assert_eq!(to_hex_0x(&[]), "0x");
}

#[test]
fn decimal_round_trip() {
    assert_eq!(u64_to_decimal(0), "0");
    assert_eq!(u64_to_decimal(18_446_744_073_709_551_615), "18446744073709551615");
    assert_eq!(parse_u64("18446744073709551615"), Some(u64::MAX));
    assert_eq!(parse_u64("18446744073709551616"), None);
    assert_eq!(parse_u64("+42"), Some(42));
    assert_eq!(parse_u64("007"), Some(7));
    assert_eq!(parse_u64(""), None);
    assert_eq!(parse_u64("+"), None);
    assert_eq!(parse_u64("-1"), None);
    assert_eq!(parse_u64("12a"), None);
}

#[test]
fn u256_decimal() {
    let max = U256 { limbs: [u64::MAX, u64::MAX, u64::MAX, u64::MAX] };
    assert_eq!(
        max.to_decimal(),
        "115792089237316195423570985008687907853269984665640564039457584007913129639935"
    );
    let two_64 = U256 { limbs: [0, 1, 0, 0] };
    assert_eq!(two_64.to_decimal(), "18446744073709551616");
}

use mpt_storage::block_rows::{
    block_hex_keys, insert_block_receipts, insert_block_tx_relation, receipt_outcomes, tx_hex_keys,
};
use mpt_storage::block_time::MAX_BLOCK_TIMESTAMP;
use mpt_storage::primitives::{
    Action, Address, Block, BlockHeader, BlockReceipts, LogEntry, Receipt, SignedTransaction,
    TransactionOutcome, H256,
};
use mpt_storage::relational_db::{
    find_config_u64, finish_epoch_relation, insert_block_relation, prepare_epoch_relation,
    remove_tx_relation, save_address, save_bytes32, AddressPO, Bytes32PO, ConfigPO, EpochTable,
    KeyTable, NewLog,
};

fn address(b: u8) -> Address {
    Address { bytes: [b; 20] }
}

fn hash(b: u8) -> H256 {
    H256 { bytes: [b; 32] }
}

fn hex_of(b: u8, n: usize) -> String {
    format!("0x{}", format!("{:02x}", b).repeat(n))
}

fn tx(h: u8, sender: u8, action: Action, value: u64) -> SignedTransaction {
    SignedTransaction { hash: hash(h), sender: address(sender), action, value: U256::from_u64(value) }
}

fn log(addr: u8, topics: &[u8], data: &[u8]) -> LogEntry {
    LogEntry {
        address: address(addr),
        topics: topics.iter().map(|t| hash(*t)).collect(),
        data: data.to_vec(),
    }
}

fn sample_block() -> (Block, BlockReceipts) {
    let block = Block {
        block_header: BlockHeader { hash: hash(0xb1), timestamp: 1_600_000_000 },
        transactions: vec![
            tx(0x01, 0xa1, Action::Call(address(0xa2)), 1_000),
            tx(0x02, 0xa3, Action::Create, 0),
            tx(0x03, 0xa4, Action::Call(address(0xa5)), 7),
        ],
    };
    let receipts = BlockReceipts {
        receipts: vec![
            Receipt {
                outcome_status: TransactionOutcome::Success,
                logs: vec![log(0xc1, &[0xd1, 0xd2], b"payload"), log(0xc2, &[], b"")],
            },
            Receipt {
                outcome_status: TransactionOutcome::Skipped,
                logs: vec![log(0xc3, &[0xd3], b"never")],
            },
            Receipt {
                outcome_status: TransactionOutcome::Failure,
                logs: vec![log(0xc4, &[0xd4, 0xd5, 0xd6, 0xd7], b"x")],
            },
        ],
    };
    (block, receipts)
}

#[test]
fn hashes_and_addresses_as_hex() {
    assert_eq!(hash(0xab).to_hex(), hex_of(0xab, 32));
    assert_eq!(address(0x0f).to_hex(), hex_of(0x0f, 20));
    assert_eq!(remove_tx_relation(&hash(0x01)), hex_of(0x01, 32));
    assert_eq!(hash(0).to_hex().len(), 66);
    assert_eq!(address(0).to_hex().len(), 42);
}

#[test]
fn outcome_codes() {
    assert_eq!(TransactionOutcome::Success.code(), 0);
    assert_eq!(TransactionOutcome::Failure.code(), 1);
    assert_eq!(TransactionOutcome::Skipped.code(), 2);
    assert!(TransactionOutcome::Success.is_recorded());
    assert!(TransactionOutcome::Failure.is_recorded());
    assert!(!TransactionOutcome::Skipped.is_recorded());
}

#[test]
fn keys_of_a_block_in_lookup_order() {
    let (block, receipts) = sample_block();
    let keys = block_hex_keys(&block, &receipts);
    let got: Vec<(KeyTable, String)> = keys.into_iter().map(|k| (k.table, k.hex)).collect();
    let expected = vec![
        (KeyTable::Addresses, hex_of(0xc1, 20)),
        (KeyTable::Bytes32s, hex_of(0xd1, 32)),
        (KeyTable::Bytes32s, hex_of(0xd2, 32)),
        (KeyTable::Addresses, hex_of(0xc2, 20)),
        (KeyTable::Addresses, hex_of(0xc4, 20)),
        (KeyTable::Bytes32s, hex_of(0xd4, 32)),
        (KeyTable::Bytes32s, hex_of(0xd5, 32)),
        (KeyTable::Bytes32s, hex_of(0xd6, 32)),
        (KeyTable::Bytes32s, hex_of(0xd7, 32)),
        (KeyTable::Addresses, hex_of(0xa1, 20)),
        (KeyTable::Addresses, hex_of(0xa2, 20)),
        (KeyTable::Addresses, hex_of(0xa4, 20)),
        (KeyTable::Addresses, hex_of(0xa5, 20)),
    ];
    assert_eq!(got, expected);
}

#[test]
fn rows_of_a_block() {
    let (block, receipts) = sample_block();
    let keys = block_hex_keys(&block, &receipts);
    let ids: Vec<u64> = (0..keys.len() as u64).map(|i| 100 + i).collect();
    let out = insert_block_receipts(&block, &receipts, 42, 3, &ids);

    assert_eq!(out.block.epoch, 42);
    assert_eq!(out.block.block_index, 3);
    assert_eq!(out.block.hash, hex_of(0xb1, 32));
    assert_eq!(out.block.timestamp.seconds(), 1_600_000_000);

    assert_eq!(
        out.logs,
        vec![
            NewLog {
                epoch: 42,
                block_index: 3,
                tx_index: 0,
                log_index: 0,
                address_id: 100,
                topic0_id: 101,
                topic1_id: 102,
                topic2_id: 0,
                topic3_id: 0,
            },
            NewLog {
                epoch: 42,
                block_index: 3,
                tx_index: 0,
                log_index: 1,
                address_id: 103,
                topic0_id: 0,
                topic1_id: 0,
                topic2_id: 0,
                topic3_id: 0,
            },
            NewLog {
                epoch: 42,
                block_index: 3,
                tx_index: 2,
                log_index: 0,
                address_id: 104,
                topic0_id: 105,
                topic1_id: 106,
                topic2_id: 107,
                topic3_id: 108,
            },
        ]
    );

    assert_eq!(out.log_data.len(), 2);
    assert_eq!((out.log_data[0].tx_index, out.log_data[0].log_index), (0, 0));
    assert_eq!(out.log_data[0].bytes, b"payload".to_vec());
    assert_eq!((out.log_data[1].tx_index, out.log_data[1].log_index), (2, 0));
    assert_eq!(out.log_data[1].bytes, b"x".to_vec());
    assert_eq!(out.log_data[1].epoch, 42);
    assert_eq!(out.log_data[1].block_index, 3);

    assert_eq!(out.txs.len(), 2);
    let first = &out.txs[0];
    assert_eq!((first.epoch, first.block_index, first.tx_index), (42, 3, 0));
    assert_eq!(first.hash, hex_of(0x01, 32));
    assert_eq!((first.from_id, first.to_id), (109, 110));
    assert_eq!(first.value, "1000");
    assert_eq!(first.status, 0);
    assert_eq!(first.timestamp.seconds(), 1_600_000_000);
    let second = &out.txs[1];
    assert_eq!(second.tx_index, 2);
    assert_eq!(second.hash, hex_of(0x03, 32));
    assert_eq!((second.from_id, second.to_id), (111, 112));
    assert_eq!(second.value, "7");
    assert_eq!(second.status, 1);
}

#[test]
fn block_without_receipts_has_its_own_row_only() {
    let (block, _) = sample_block();
    let receipts = BlockReceipts { receipts: Vec::new() };
    assert!(block_hex_keys(&block, &receipts).is_empty());
    let out = insert_block_receipts(&block, &receipts, 1, 0, &Vec::new());
    assert_eq!(out.block.hash, hex_of(0xb1, 32));
    assert!(out.txs.is_empty());
    assert!(out.logs.is_empty());
    assert!(out.log_data.is_empty());
}

#[test]
fn genesis_block_row_has_second_one() {
    let block = Block {
        block_header: BlockHeader { hash: hash(0), timestamp: 0 },
        transactions: Vec::new(),
    };
    let row = insert_block_relation(&block, 0, 0);
    assert_eq!(row.timestamp.seconds(), 1);
    assert_eq!(row.epoch, 0);
    let last = build_block_timestamp(MAX_BLOCK_TIMESTAMP);
    assert_eq!(format!("{}", last.date_time()), "+262142-12-31 23:59:59");
}

#[test]
fn transaction_rows_alone() {
    let (block, receipts) = sample_block();
    let status = receipt_outcomes(&receipts);
    assert_eq!(
        status,
        vec![TransactionOutcome::Success, TransactionOutcome::Skipped, TransactionOutcome::Failure]
    );
    let keys = tx_hex_keys(&block, &status);
    assert_eq!(keys.len(), 4);
    let rows = insert_block_tx_relation(&block, &status, 9, 1, &vec![1, 2, 3, 4]);
    assert_eq!(rows.len(), 2);
    assert_eq!((rows[0].from_id, rows[0].to_id), (1, 2));
    assert_eq!((rows[1].from_id, rows[1].to_id), (3, 4));
    // a creation has no recipient: its row number is zero
    let all_ok = vec![TransactionOutcome::Success; 3];
    let keys = tx_hex_keys(&block, &all_ok);
    assert_eq!(keys.len(), 5);
    let rows = insert_block_tx_relation(&block, &all_ok, 9, 1, &vec![1, 2, 3, 4, 5]);
    assert_eq!(rows.len(), 3);
    assert_eq!((rows[1].from_id, rows[1].to_id), (3, 0));
    assert_eq!(rows[1].value, "0");
    assert_eq!((rows[2].from_id, rows[2].to_id), (4, 5));
    // a block without transactions has no rows
    let empty = Block { block_header: block.block_header, transactions: Vec::new() };
    assert!(insert_block_tx_relation(&empty, &status, 9, 1, &Vec::new()).is_empty());
}

#[test]
fn epochs_are_popped_when_mirrored_again() {
    let all = vec![EpochTable::LogData, EpochTable::Logs, EpochTable::Txs, EpochTable::Blocks];
    assert_eq!(prepare_epoch_relation(5, 5), all);
    assert_eq!(prepare_epoch_relation(3, 5), all);
    assert_eq!(prepare_epoch_relation(0, 0), all);
    assert!(prepare_epoch_relation(6, 5).is_empty());
    let mut previous = 5u64;
    let entry = finish_epoch_relation(&mut previous, 6);
    assert_eq!(previous, 6);
    assert_eq!(entry.name, "epoch");
    assert_eq!(entry.content, "6");
    let read = find_config_u64(Some(ConfigPO { name: entry.name, content: entry.content }));
    assert_eq!(read, Some(6));
    assert_eq!(find_config_u64(None), None);
    assert_eq!(
        find_config_u64(Some(ConfigPO { name: "epoch".to_string(), content: "x".to_string() })),
        None
    );
}

#[test]
fn saving_finds_or_inserts() {
    let time = build_block_timestamp(10);
    let stored = chrono::DateTime::from_timestamp(5, 0).unwrap().naive_utc();
    let found = AddressPO { id: 7, hex: hex_of(1, 20), timestamp: stored };
    match save_address(&address(1), &time, Some(found)) {
        Ok(bean) => {
            assert_eq!(bean.id, 7);
            assert_eq!(bean.hex, hex_of(1, 20));
            assert_eq!(bean.timestamp, stored);
        }
        Err(_) => panic!("a row that was found is handed back"),
    }
    match save_address(&address(1), &time, None) {
        Ok(_) => panic!("nothing was found"),
        Err(row) => {
            assert_eq!(row.hex, hex_of(1, 20));
            assert_eq!(row.timestamp.seconds(), 10);
        }
    }
    let found = Bytes32PO { id: 8, hex: hex_of(2, 32), timestamp: stored };
    assert!(matches!(save_bytes32(&hash(2), &time, Some(found)), Ok(bean) if bean.id == 8));
    match save_bytes32(&hash(2), &time, None) {
        Ok(_) => panic!("nothing was found"),
        Err(row) => {
            assert_eq!(row.hex, hex_of(2, 32));
            assert_eq!(row.timestamp.seconds(), 10);
        }
    }
}

#[test]
fn positions_are_stored_in_sixteen_bits() {
    let mut transactions = Vec::new();
    let mut receipts = Vec::new();
    for _ in 0..65_537 {
        transactions.push(tx(1, 2, Action::Create, 1));
        receipts.push(Receipt { outcome_status: TransactionOutcome::Skipped, logs: Vec::new() });
    }
    receipts[65_536] = Receipt {
        outcome_status: TransactionOutcome::Success,
        logs: vec![log(1, &[], b"d")],
    };
    let block = Block { block_header: BlockHeader { hash: hash(1), timestamp: 5 }, transactions };
    let receipts = BlockReceipts { receipts };
    let keys = block_hex_keys(&block, &receipts);
    assert_eq!(keys.len(), 2);
    let out = insert_block_receipts(&block, &receipts, 1, 0, &vec![11, 12]);
    assert_eq!(out.logs.len(), 1);
    assert_eq!(out.logs[0].tx_index, 0);
    assert_eq!(out.logs[0].address_id, 11);
    assert_eq!(out.txs.len(), 1);
    assert_eq!(out.txs[0].tx_index, 0);
    assert_eq!(out.txs[0].from_id, 12);
    assert_eq!(out.log_data[0].tx_index, 0);
}
