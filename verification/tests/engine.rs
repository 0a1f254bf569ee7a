use crank_confirm::dispatch::{register_dispatch, send_transaction_batch, TpuManager};
use crank_confirm::normalize::normalize_error;
use crank_confirm::reaper::reap;
use crank_confirm::records::TransactionSendRecord;
use crank_confirm::registry::PendingRegistry;
use crank_confirm::scanner::{
    process_blocks, scan_pass, BlockInfo, RetryBudget, RewardInfo, ScannerCursor, TransactionInfo,
    TxMeta,
};
use crank_confirm::stats::CrankStats;

fn record(sig: &str, sent_at: u64, sent_slot: u64) -> TransactionSendRecord {
    TransactionSendRecord {
        signature: sig.as_bytes().to_vec(),
        sent_at,
        sent_slot,
        market: Some(b"MKT".to_vec()),
        user: Some(b"USR".to_vec()),
        priority_fees: Some(7),
    }
}

fn tx(sig: &str, status_ok: bool, error: Option<&str>, cu: Option<u64>) -> TransactionInfo {
    TransactionInfo {
        decoded: true,
        signatures: vec![sig.as_bytes().to_vec()],
        meta: Some(TxMeta {
            status_ok,
            error: error.map(|e| e.as_bytes().to_vec()),
            compute_units: cu,
        }),
    }
}

fn block(slot_hash: &str, txs: Vec<TransactionInfo>) -> BlockInfo {
    BlockInfo {
        block_hash: slot_hash.as_bytes().to_vec(),
        rewards: vec![],
        transactions: Some(txs),
        block_time: Some(1_700_000_000),
    }
}

#[test]
fn scenario_confirmed_in_block() {
    // Submit "S1" at slot 100; a block at slot 105 carries "S1" without error.
    let mut registry = PendingRegistry::new();
    registry.insert(record("S1", 1_000, 100), 0);
    let b = block("HASH1", vec![tx("S1", true, None, Some(50))]);
    let (outcomes, summary) = process_blocks(&b, &mut registry, 105, 2_000);
    assert_eq!(outcomes.len(), 1);
    let o = &outcomes[0];
    assert_eq!(o.signature, b"S1".to_vec());
    assert_eq!(o.confirmed_slot, Some(105));
    assert!(o.successful);
    assert!(!o.timed_out);
    assert_eq!(o.error, None);
    assert_eq!(o.sent_slot, 100);
    assert_eq!(o.sent_at, 1_000);
    assert_eq!(o.block_hash, Some(b"HASH1".to_vec()));
    assert_eq!(o.market, Some(b"MKT".to_vec()));
    assert_eq!(o.priority_fees, Some(7));
    let s = summary.unwrap();
    assert_eq!(s.number_of_mm_transactions, 1);
    assert_eq!(s.total_transactions, 1);
    // The record is gone: a later take finds nothing.
    assert!(registry.take_if_present(&b"S1".to_vec()).is_none());
}

#[test]
fn scenario_timed_out() {
    // Submit "S2"; no block ever carries it; after 120s a sweep reaps it.
    let mut registry = PendingRegistry::new();
    registry.insert(record("S2", 1_000, 100), 0);
    // Not yet expired at 120_000 (age must exceed the timeout).
    let early = reap(&mut registry, 120_000, 120_000);
    assert_eq!(early.len(), 0);
    let outcomes = reap(&mut registry, 120_001, 120_000);
    assert_eq!(outcomes.len(), 1);
    let o = &outcomes[0];
    assert_eq!(o.signature, b"S2".to_vec());
    assert!(o.timed_out);
    assert_eq!(o.error, Some(b"timeout".to_vec()));
    assert_eq!(o.confirmed_slot, None);
    assert_eq!(o.confirmed_at, None);
    assert_eq!(o.block_hash, None);
    assert_eq!(o.slot_leader, None);
    assert!(!o.successful);
    // Reaped exactly once: a second sweep yields nothing.
    let again = reap(&mut registry, 240_002, 120_000);
    assert_eq!(again.len(), 0);
}

#[test]
fn scenario_error_normalization() {
    let text = b"Error processing Instruction 3: custom program error: 0x1".to_vec();
    let normalized = normalize_error(&text);
    assert_eq!(normalized, b"custom program error: 0x1".to_vec());
}

#[test]
fn normalization_collapses_instruction_variants() {
    let mut stats = CrankStats::new();
    for text in [
        "Error processing Instruction 3: custom program error: 0x1",
        "Error processing Instruction 12: custom program error: 0x1",
    ] {
        let mut rec = crank_confirm::reaper::make_timeout_outcome(record("X", 0, 0));
        rec.confirmed_at = Some(5);
        rec.error = Some(text.as_bytes().to_vec());
        stats.apply_confirmation(&rec);
    }
    let count = stats
        .report()
        .totals
        .get_error_count(&b"custom program error: 0x1".to_vec());
    assert_eq!(count, Some(2));
}

#[test]
fn normalization_leaves_plain_text_alone() {
    let text = b"custom program error: 0x1".to_vec();
    assert_eq!(normalize_error(&text), text);
    // A marker without digits or without the colon-space suffix stays.
    let no_digits = b"Error processing Instruction : oops".to_vec();
    assert_eq!(normalize_error(&no_digits), no_digits);
    let no_colon = b"Error processing Instruction 3 oops".to_vec();
    assert_eq!(normalize_error(&no_colon), no_colon);
}

#[test]
fn normalization_strips_every_occurrence() {
    let text = b"Error processing Instruction 1: a; Error processing Instruction 2: b".to_vec();
    assert_eq!(normalize_error(&text), b"a; b".to_vec());
}

#[test]
fn registry_take_removes_exactly_once() {
    let mut registry = PendingRegistry::new();
    registry.insert(record("A", 1, 10), 100);
    let first = registry.take_if_present(&b"A".to_vec());
    assert!(first.is_some());
    assert_eq!(first.unwrap().sent_slot, 10);
    assert!(registry.take_if_present(&b"A".to_vec()).is_none());
    assert_eq!(registry.len(), 0);
}

#[test]
fn registry_insert_overwrites_same_signature() {
    let mut registry = PendingRegistry::new();
    registry.insert(record("A", 1, 10), 100);
    registry.insert(record("A", 2, 20), 200);
    assert_eq!(registry.len(), 1);
    let taken = registry.take_if_present(&b"A".to_vec()).unwrap();
    assert_eq!(taken.sent_slot, 20);
}

#[test]
fn registry_sweep_takes_only_expired() {
    let mut registry = PendingRegistry::new();
    registry.insert(record("OLD", 1, 10), 0);
    registry.insert(record("NEW", 2, 20), 50_000);
    let swept = registry.sweep(130_000, 120_000);
    assert_eq!(swept.len(), 1);
    assert_eq!(swept[0].signature, b"OLD".to_vec());
    assert_eq!(registry.len(), 1);
    assert!(registry.take_if_present(&b"NEW".to_vec()).is_some());
}

#[test]
fn scanner_matches_and_reaper_cannot_follow() {
    let mut registry = PendingRegistry::new();
    registry.insert(record("S", 1, 10), 0);
    let b = block("H", vec![tx("S", false, Some("boom"), Some(10))]);
    let (outcomes, _) = process_blocks(&b, &mut registry, 11, 5);
    assert_eq!(outcomes.len(), 1);
    assert!(!outcomes[0].successful);
    assert_eq!(outcomes[0].error, Some(b"boom".to_vec()));
    // Even far past the timeout there is nothing left to reap.
    let reaped = reap(&mut registry, 1_000_000, 120_000);
    assert_eq!(reaped.len(), 0);
}

#[test]
fn scanner_skips_undecodable_and_foreign_transactions() {
    let mut registry = PendingRegistry::new();
    registry.insert(record("MINE", 1, 10), 0);
    let undecodable = TransactionInfo {
        decoded: false,
        signatures: vec![b"MINE".to_vec()],
        meta: Some(TxMeta { status_ok: true, error: None, compute_units: Some(99) }),
    };
    let foreign = tx("OTHER", true, None, Some(40));
    let b = block("H", vec![undecodable, foreign]);
    let (outcomes, summary) = process_blocks(&b, &mut registry, 12, 5);
    // The undecodable transaction is skipped whole, so "MINE" stays pending.
    assert_eq!(outcomes.len(), 0);
    let s = summary.unwrap();
    assert_eq!(s.total_transactions, 2);
    assert_eq!(s.number_of_mm_transactions, 0);
    assert_eq!(s.cu_consumed, 40);
    assert_eq!(s.cu_consumed_matched, 0);
    assert!(registry.take_if_present(&b"MINE".to_vec()).is_some());
}

#[test]
fn scanner_duplicate_signature_confirms_once() {
    let mut registry = PendingRegistry::new();
    registry.insert(record("DUP", 1, 10), 0);
    let b = block("H", vec![tx("DUP", true, None, Some(5)), tx("DUP", true, None, Some(5))]);
    let (outcomes, _) = process_blocks(&b, &mut registry, 12, 5);
    assert_eq!(outcomes.len(), 1);
    assert_eq!(outcomes[0].signature, b"DUP".to_vec());
}

#[test]
fn block_leader_comes_from_fee_reward() {
    let mut registry = PendingRegistry::new();
    registry.insert(record("S", 1, 10), 0);
    let b = BlockInfo {
        block_hash: b"H".to_vec(),
        rewards: vec![
            RewardInfo { pubkey: b"STAKER".to_vec(), is_fee: false },
            RewardInfo { pubkey: b"LEADER".to_vec(), is_fee: true },
        ],
        transactions: Some(vec![tx("S", true, None, None)]),
        block_time: None,
    };
    let (outcomes, summary) = process_blocks(&b, &mut registry, 9, 5);
    assert_eq!(outcomes[0].slot_leader, Some(b"LEADER".to_vec()));
    let s = summary.unwrap();
    assert_eq!(s.block_leader, b"LEADER".to_vec());
    assert_eq!(s.block_time, 0);
}

#[test]
fn matched_fraction_is_zero_without_compute_units() {
    let b = block("H", vec![]);
    let mut registry = PendingRegistry::new();
    let (_, summary) = process_blocks(&b, &mut registry, 1, 1);
    let s = summary.unwrap();
    assert_eq!(s.cu_consumed, 0);
    assert_eq!(s.percentage_filled_by_openbook(), 0);
}

#[test]
fn matched_fraction_stays_within_bounds() {
    let mut registry = PendingRegistry::new();
    registry.insert(record("S", 1, 10), 0);
    let b = block("H", vec![tx("S", true, None, Some(30)), tx("OTHER", true, None, Some(70))]);
    let (_, summary) = process_blocks(&b, &mut registry, 2, 1);
    let s = summary.unwrap();
    assert_eq!(s.cu_consumed, 100);
    assert_eq!(s.cu_consumed_matched, 30);
    assert_eq!(s.percentage_filled_by_openbook(), 30);
}

#[test]
fn block_without_transaction_details_yields_nothing() {
    let mut registry = PendingRegistry::new();
    registry.insert(record("S", 1, 10), 0);
    let b = BlockInfo {
        block_hash: b"H".to_vec(),
        rewards: vec![],
        transactions: None,
        block_time: None,
    };
    let (outcomes, summary) = process_blocks(&b, &mut registry, 2, 1);
    assert_eq!(outcomes.len(), 0);
    assert!(summary.is_none());
    assert_eq!(registry.len(), 1);
}

#[test]
fn dispatch_records_regardless_of_transport() {
    let mut registry = PendingRegistry::new();
    let mut stats = CrankStats::new();
    let ok = register_dispatch(&mut registry, &mut stats, record("T1", 1, 10), 0, false);
    assert!(!ok);
    // The failed send still left the record tracked and counted.
    assert_eq!(registry.len(), 1);
    assert!(registry.take_if_present(&b"T1".to_vec()).is_some());
    let report = stats.report();
    assert_eq!(report.totals.num_sent, 1);
}

#[test]
fn reconnect_resets_error_counter_to_zero() {
    let mut tpu = TpuManager::new(16);
    for _ in 0..5 {
        assert!(!tpu.reset());
    }
    assert_eq!(tpu.error_count, 5);
    assert_eq!(tpu.generation, 0);
    // The sixth consecutive error crosses the threshold.
    assert!(tpu.reset());
    assert_eq!(tpu.error_count, 0);
    assert_eq!(tpu.generation, 1);
    assert_eq!(tpu.fanout_slots, 16);
}

#[test]
fn forced_reconnect_is_exact_reset() {
    let mut tpu = TpuManager::new(8);
    assert!(!tpu.reset());
    tpu.reset_tpu_client();
    assert_eq!(tpu.error_count, 0);
    assert_eq!(tpu.generation, 1);
}

#[test]
fn stats_counts_and_rates() {
    let mut stats = CrankStats::new();
    for _ in 0..4 {
        stats.inc_send();
    }
    // One success, one failure, one timeout.
    let base = record("A", 0, 0);
    let mut ok = crank_confirm::reaper::make_timeout_outcome(base);
    ok.confirmed_at = Some(5);
    ok.error = None;
    stats.apply_confirmation(&ok);
    let mut bad = crank_confirm::reaper::make_timeout_outcome(record("B", 0, 0));
    bad.confirmed_at = Some(6);
    bad.error = Some(b"boom".to_vec());
    stats.apply_confirmation(&bad);
    let timed = crank_confirm::reaper::make_timeout_outcome(record("C", 0, 0));
    stats.apply_confirmation(&timed);
    let report = stats.report();
    assert_eq!(report.totals.num_sent, 4);
    assert_eq!(report.totals.num_confirmed_txs, 2);
    assert_eq!(report.totals.num_successful, 1);
    assert_eq!(report.totals.num_error_txs, 1);
    assert_eq!(report.totals.num_timeout_txs, 1);
    assert_eq!(report.percent_confirmed, 50);
    assert_eq!(report.percent_successful, 25);
    assert_eq!(report.percent_timed_out, 25);
    assert_eq!(report.totals.get_error_count(&b"boom".to_vec()), Some(1));
}

#[test]
fn stats_rates_are_zero_when_nothing_sent() {
    let mut stats = CrankStats::new();
    let report = stats.report();
    assert_eq!(report.percent_confirmed, 0);
    assert_eq!(report.percent_successful, 0);
    assert_eq!(report.percent_timed_out, 0);
}

#[test]
fn stats_diff_is_against_previous_report() {
    let mut stats = CrankStats::new();
    stats.inc_send();
    stats.inc_send();
    let first = stats.report();
    assert_eq!(first.diff.num_sent, 2);
    stats.inc_send();
    let second = stats.report();
    assert_eq!(second.totals.num_sent, 3);
    assert_eq!(second.diff.num_sent, 1);
}

#[test]
fn stats_ranked_errors_descend() {
    let mut stats = CrankStats::new();
    let texts = ["one", "two", "two", "three", "three", "three"];
    for t in texts {
        let mut rec = crank_confirm::reaper::make_timeout_outcome(record("X", 0, 0));
        rec.confirmed_at = Some(1);
        rec.error = Some(t.as_bytes().to_vec());
        stats.apply_confirmation(&rec);
    }
    let report = stats.report();
    let ranked = report.ranked_errors;
    assert_eq!(ranked.len(), 3);
    assert_eq!(ranked[0], (b"three".to_vec(), 3));
    assert_eq!(ranked[1], (b"two".to_vec(), 2));
    assert_eq!(ranked[2], (b"one".to_vec(), 1));
}

#[test]
fn cursor_advances_past_listed_slots() {
    let mut cursor = ScannerCursor::new(100);
    cursor.advance(&vec![]);
    assert_eq!(cursor.next_slot, 100);
    cursor.advance(&vec![100, 101, 104]);
    assert_eq!(cursor.next_slot, 105);
    cursor.advance(&vec![105]);
    assert_eq!(cursor.next_slot, 106);
}

#[test]
fn scan_pass_processes_in_slot_order_and_skips_failed_fetches() {
    let mut registry = PendingRegistry::new();
    let mut stats = CrankStats::new();
    register_dispatch(&mut registry, &mut stats, record("S1", 1, 100), 0, true);
    register_dispatch(&mut registry, &mut stats, record("S2", 1, 100), 0, true);
    let mut cursor = ScannerCursor::new(100);
    let slots = vec![101, 103];
    let blocks = vec![Some(block("B101", vec![tx("S1", true, None, Some(9))])), None];
    let (outcomes, summaries) = scan_pass(&mut registry, &mut cursor, &slots, &blocks, 50);
    // The cursor passed both slots, the failed fetch included.
    assert_eq!(cursor.next_slot, 104);
    assert_eq!(outcomes.len(), 1);
    assert_eq!(outcomes[0].signature, b"S1".to_vec());
    assert_eq!(outcomes[0].confirmed_slot, Some(101));
    assert_eq!(summaries.len(), 1);
    assert_eq!(summaries[0].block_slot, 101);
    // "S2" sat in the failed block; the reaper is its fallback.
    assert_eq!(registry.len(), 1);
    let reaped = reap(&mut registry, 130_000, 120_000);
    assert_eq!(reaped.len(), 1);
    assert_eq!(reaped[0].signature, b"S2".to_vec());
}

#[test]
fn batch_dispatch_tracks_every_record() {
    let mut registry = PendingRegistry::new();
    let mut stats = CrankStats::new();
    let mut tpu = TpuManager::new(16);
    let batch = vec![record("B1", 1, 10), record("B2", 2, 10)];
    let ok = send_transaction_batch(&mut registry, &mut stats, &mut tpu, batch, 5, false);
    assert!(!ok);
    // Both records are tracked and counted though the transport failed.
    assert_eq!(registry.len(), 2);
    assert_eq!(stats.report().totals.num_sent, 2);
    assert_eq!(tpu.error_count, 1);
}

#[test]
fn retry_budget_is_bounded() {
    let mut budget = RetryBudget::new(4);
    for _ in 0..4 {
        assert!(budget.try_attempt());
    }
    assert!(!budget.try_attempt());
    assert!(!budget.try_attempt());
}
