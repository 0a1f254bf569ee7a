//! The block confirmation scanner.  Given the contents of one newly produced
//! block, it matches every transaction signature against the pending
//! registry, removes each matched record atomically, and produces one
//! confirmation outcome per matched record plus one summary of the block.
//! The scan of a block is specified as a fold (`scan_txs`) over the block's
//! transactions in ledger order, acting on the registry's map.

use vstd::prelude::*;
use crate::records::{
    copy_bytes, copy_opt_bytes, opt_bytes_view, ConfirmRecordV, SendRecordV,
    TransactionConfirmRecord,
};
use crate::registry::{PendingEntryV, PendingRegistry};

verus! {

/// Ghost image of a [`RewardInfo`].
pub ghost struct RewardInfoV {
    pub pubkey: Seq<u8>,
    pub is_fee: bool,
}

/// One reward entry of a block.  The receiver of the fee reward is the
/// block's leader.
pub struct RewardInfo {
    pub pubkey: Vec<u8>,
    pub is_fee: bool,
}

impl View for RewardInfo {
    type V = RewardInfoV;

    open spec fn view(&self) -> RewardInfoV {
        RewardInfoV { pubkey: self.pubkey@, is_fee: self.is_fee }
    }
}

/// Ghost image of a [`TxMeta`].
pub ghost struct TxMetaV {
    pub status_ok: bool,
    pub error: Option<Seq<u8>>,
    pub compute_units: Option<u64>,
}

/// Execution metadata of one transaction in a block.
pub struct TxMeta {
    /// Whether the transaction executed without error.
    pub status_ok: bool,
    /// The rendering of the execution error, if there was one.
    pub error: Option<Vec<u8>>,
    /// Compute units the transaction consumed, when reported.
    pub compute_units: Option<u64>,
}

impl View for TxMeta {
    type V = TxMetaV;

    open spec fn view(&self) -> TxMetaV {
        TxMetaV {
            status_ok: self.status_ok,
            error: opt_bytes_view(self.error),
            compute_units: self.compute_units,
        }
    }
}

/// Ghost image of a [`TransactionInfo`].
pub ghost struct TransactionInfoV {
    pub decoded: bool,
    pub signatures: Seq<Seq<u8>>,
    pub meta: Option<TxMetaV>,
}

/// One transaction of a block, as far as the scanner reads it.
pub struct TransactionInfo {
    /// Whether the transaction's contents could be decoded.  An undecodable
    /// transaction is skipped entirely.
    pub decoded: bool,
    /// The transaction's signatures, in order.
    pub signatures: Vec<Vec<u8>>,
    /// The transaction's metadata, when the block carries it.
    pub meta: Option<TxMeta>,
}

pub open spec fn sig_views(s: Seq<Vec<u8>>) -> Seq<Seq<u8>> {
    Seq::new(s.len(), |i: int| s[i]@)
}

impl View for TransactionInfo {
    type V = TransactionInfoV;

    open spec fn view(&self) -> TransactionInfoV {
        TransactionInfoV {
            decoded: self.decoded,
            signatures: sig_views(self.signatures@),
            meta: match self.meta {
                Some(m) => Some(m@),
                None => None,
            },
        }
    }
}

pub open spec fn tx_views(s: Seq<TransactionInfo>) -> Seq<TransactionInfoV> {
    Seq::new(s.len(), |i: int| s[i]@)
}

pub open spec fn reward_views(s: Seq<RewardInfo>) -> Seq<RewardInfoV> {
    Seq::new(s.len(), |i: int| s[i]@)
}

/// Ghost image of a [`BlockInfo`].
pub ghost struct BlockInfoV {
    pub block_hash: Seq<u8>,
    pub rewards: Seq<RewardInfoV>,
    pub transactions: Option<Seq<TransactionInfoV>>,
    pub block_time: Option<u64>,
}

/// The contents of one block, as far as the scanner reads them.
pub struct BlockInfo {
    pub block_hash: Vec<u8>,
    /// The block's reward list; empty when the source reported none.
    pub rewards: Vec<RewardInfo>,
    /// The block's transactions; a block served without transaction details
    /// carries `None` and yields neither outcomes nor a summary.
    pub transactions: Option<Vec<TransactionInfo>>,
    /// Seconds since epoch, when known.
    pub block_time: Option<u64>,
}

impl View for BlockInfo {
    type V = BlockInfoV;

    open spec fn view(&self) -> BlockInfoV {
        BlockInfoV {
            block_hash: self.block_hash@,
            rewards: reward_views(self.rewards@),
            transactions: match self.transactions {
                Some(ref txs) => Some(tx_views(txs@)),
                None => None,
            },
            block_time: self.block_time,
        }
    }
}

/// Ghost image of a [`BlockData`].
pub ghost struct BlockDataV {
    pub block_hash: Seq<u8>,
    pub block_leader: Seq<u8>,
    pub block_slot: u64,
    pub block_time: u64,
    pub number_of_mm_transactions: u64,
    pub total_transactions: u64,
    pub cu_consumed: u64,
    pub cu_consumed_matched: u64,
}

/// The summary of one scanned block: how much of it the engine's own
/// transactions filled.  The matched fraction is carried exactly, as the
/// pair `cu_consumed_matched / cu_consumed`.
pub struct BlockData {
    pub block_hash: Vec<u8>,
    pub block_leader: Vec<u8>,
    pub block_slot: u64,
    /// Seconds since epoch; 0 when the source did not know.
    pub block_time: u64,
    /// Count of transactions matched against the registry.
    pub number_of_mm_transactions: u64,
    /// Count of all transactions in the block.
    pub total_transactions: u64,
    /// Compute units consumed by the whole block.
    pub cu_consumed: u64,
    /// Compute units consumed by the matched transactions.
    pub cu_consumed_matched: u64,
}

impl View for BlockData {
    type V = BlockDataV;

    open spec fn view(&self) -> BlockDataV {
        BlockDataV {
            block_hash: self.block_hash@,
            block_leader: self.block_leader@,
            block_slot: self.block_slot,
            block_time: self.block_time,
            number_of_mm_transactions: self.number_of_mm_transactions,
            total_transactions: self.total_transactions,
            cu_consumed: self.cu_consumed,
            cu_consumed_matched: self.cu_consumed_matched,
        }
    }
}

impl BlockDataV {
    /// The matched subtotal never exceeds the block total.
    pub open spec fn wf(self) -> bool {
        self.cu_consumed_matched <= self.cu_consumed
    }
}

/// Addition on u64 that sticks at the maximum instead of wrapping.
pub open spec fn sat_add(a: u64, b: u64) -> u64 {
    if a + b > u64::MAX {
        u64::MAX
    } else {
        (a + b) as u64
    }
}

/// Executable saturating addition.
pub fn sat_add_u64(a: u64, b: u64) -> (r: u64)
    ensures
        r == sat_add(a, b),
{
    if a > u64::MAX - b {
        u64::MAX
    } else {
        a + b
    }
}

/// The block's leader: the receiver of the first fee reward, or empty.
pub open spec fn leader_of(rewards: Seq<RewardInfoV>) -> Seq<u8>
    decreases rewards.len(),
{
    if rewards.len() == 0 {
        Seq::empty()
    } else if rewards.first().is_fee {
        rewards.first().pubkey
    } else {
        leader_of(rewards.drop_first())
    }
}

/// Executable leader lookup.
pub fn find_leader(rewards: &Vec<RewardInfo>) -> (r: Vec<u8>)
    ensures
        r@ == leader_of(reward_views(rewards@)),
{
    let n: usize = rewards.len();
    let mut i: usize = 0;
    proof {
        assert(reward_views(rewards@).skip(0) =~= reward_views(rewards@));
    }
    while i < n
        invariant
            n == rewards@.len(),
            i <= n,
            leader_of(reward_views(rewards@)) == leader_of(
                reward_views(rewards@).skip(i as int),
            ),
        decreases n - i,
    {
        proof {
            assert(reward_views(rewards@).skip(i as int).first() == reward_views(rewards@)[i as int]);
            assert(reward_views(rewards@).skip(i as int).drop_first() =~= reward_views(
                rewards@,
            ).skip(i as int + 1));
        }
        if rewards[i].is_fee {
            return copy_bytes(&rewards[i].pubkey);
        }
        i += 1;
    }
    proof {
        assert(reward_views(rewards@).skip(n as int) =~= Seq::<RewardInfoV>::empty());
    }
    Vec::new()
}

/// The compute units a transaction's metadata reports, 0 when absent.
pub open spec fn meta_cu(meta: Option<TxMetaV>) -> u64 {
    match meta {
        Some(m) => match m.compute_units {
            Some(x) => x,
            None => 0,
        },
        None => 0,
    }
}

/// Whether the metadata reports error-free execution; absent metadata
/// counts as failure.
pub open spec fn meta_ok(meta: Option<TxMetaV>) -> bool {
    match meta {
        Some(m) => m.status_ok,
        None => false,
    }
}

/// The metadata's error rendering, if any.
pub open spec fn meta_err(meta: Option<TxMetaV>) -> Option<Seq<u8>> {
    match meta {
        Some(m) => m.error,
        None => None,
    }
}

/// The block-wide inputs of one scan.
pub ghost struct ScanCtx {
    pub slot: u64,
    pub now: u64,
    pub block_hash: Seq<u8>,
    pub leader: Seq<u8>,
}

/// The scanner's running state over one block: the registry map so far,
/// the outcomes produced so far, and the block-wide counters.
pub ghost struct ScanState {
    pub map: Map<Seq<u8>, PendingEntryV>,
    pub outcomes: Seq<ConfirmRecordV>,
    pub matched: u64,
    pub cu_total: u64,
    pub cu_matched: u64,
}

/// The scanner's state before any transaction of the block is looked at.
pub open spec fn init_scan(m: Map<Seq<u8>, PendingEntryV>) -> ScanState {
    ScanState { map: m, outcomes: Seq::empty(), matched: 0, cu_total: 0, cu_matched: 0 }
}

/// The outcome reported for a matched record.
pub open spec fn confirm_of(
    record: SendRecordV,
    meta: Option<TxMetaV>,
    ctx: ScanCtx,
) -> ConfirmRecordV {
    ConfirmRecordV {
        signature: record.signature,
        confirmed_slot: Some(ctx.slot),
        confirmed_at: Some(ctx.now),
        sent_at: record.sent_at,
        sent_slot: record.sent_slot,
        successful: meta_ok(meta),
        error: meta_err(meta),
        block_hash: Some(ctx.block_hash),
        market: record.market,
        user: record.user,
        slot_processed: Some(ctx.slot),
        slot_leader: Some(ctx.leader),
        timed_out: false,
        priority_fees: record.priority_fees,
    }
}

/// One signature of one transaction: its compute units enter the block
/// total; a signature present in the registry is taken out of it, its
/// outcome is appended, and its compute units enter the matched subtotal.
pub open spec fn scan_sig_step(
    st: ScanState,
    sig: Seq<u8>,
    meta: Option<TxMetaV>,
    ctx: ScanCtx,
) -> ScanState {
    let cu = meta_cu(meta);
    let total2 = sat_add(st.cu_total, cu);
    if st.map.contains_key(sig) {
        ScanState {
            map: st.map.remove(sig),
            outcomes: st.outcomes.push(confirm_of(st.map[sig].record, meta, ctx)),
            matched: sat_add(st.matched, 1),
            cu_total: total2,
            cu_matched: sat_add(st.cu_matched, cu),
        }
    } else {
        ScanState {
            map: st.map,
            outcomes: st.outcomes,
            matched: st.matched,
            cu_total: total2,
            cu_matched: st.cu_matched,
        }
    }
}

/// All signatures of one transaction, in order.
pub open spec fn scan_sigs(
    st: ScanState,
    sigs: Seq<Seq<u8>>,
    meta: Option<TxMetaV>,
    ctx: ScanCtx,
) -> ScanState
    decreases sigs.len(),
{
    if sigs.len() == 0 {
        st
    } else {
        scan_sig_step(scan_sigs(st, sigs.drop_last(), meta, ctx), sigs.last(), meta, ctx)
    }
}

/// One transaction: an undecodable one is skipped whole.
pub open spec fn scan_tx(st: ScanState, tx: TransactionInfoV, ctx: ScanCtx) -> ScanState {
    if tx.decoded {
        scan_sigs(st, tx.signatures, tx.meta, ctx)
    } else {
        st
    }
}

/// All transactions of one block, in ledger order.
pub open spec fn scan_txs(st: ScanState, txs: Seq<TransactionInfoV>, ctx: ScanCtx) -> ScanState
    decreases txs.len(),
{
    if txs.len() == 0 {
        st
    } else {
        scan_tx(scan_txs(st, txs.drop_last(), ctx), txs.last(), ctx)
    }
}

pub open spec fn outcome_views(s: Seq<TransactionConfirmRecord>) -> Seq<ConfirmRecordV> {
    Seq::new(s.len(), |i: int| s[i]@)
}

/// The summary reported for one scanned block.
pub open spec fn block_data_of(
    b: BlockInfoV,
    txs: Seq<TransactionInfoV>,
    slot: u64,
    st: ScanState,
) -> BlockDataV {
    BlockDataV {
        block_hash: b.block_hash,
        block_leader: leader_of(b.rewards),
        block_slot: slot,
        block_time: match b.block_time {
            Some(t) => t,
            None => 0,
        },
        number_of_mm_transactions: st.matched,
        total_transactions: txs.len() as u64,
        cu_consumed: st.cu_total,
        cu_consumed_matched: st.cu_matched,
    }
}

/// Scans one block against the registry: removes every matched record,
/// returns their outcomes in ledger order and the block's summary.  `slot`
/// is the block's slot, `now` the wall-clock instant of the scan.  A block
/// served without transaction details leaves the registry untouched and
/// yields nothing.
pub fn process_blocks(
    block: &BlockInfo,
    registry: &mut PendingRegistry,
    slot: u64,
    now: u64,
) -> (res: (Vec<TransactionConfirmRecord>, Option<BlockData>))
    requires
        old(registry).wf(),
    ensures
        final(registry).wf(),
        match block@.transactions {
            None => final(registry)@ == old(registry)@ && res.0@.len() == 0 && res.1 is None,
            Some(txs) => {
                let ctx = ScanCtx {
                    slot,
                    now,
                    block_hash: block@.block_hash,
                    leader: leader_of(block@.rewards),
                };
                let stf = scan_txs(init_scan(old(registry)@), txs, ctx);
                &&& final(registry)@ == stf.map
                &&& outcome_views(res.0@) == stf.outcomes
                &&& match res.1 {
                    Some(bd) => bd@ == block_data_of(block@, txs, slot, stf) && bd@.wf(),
                    None => false,
                }
            },
        },
{
    let leader = find_leader(&block.rewards);
    let ghost ctx = ScanCtx {
        slot,
        now,
        block_hash: block@.block_hash,
        leader: leader_of(block@.rewards),
    };
    let mut outcomes: Vec<TransactionConfirmRecord> = Vec::new();
    match &block.transactions {
        None => (outcomes, None),
        Some(txs) => {
            let ghost tv = tx_views(txs@);
            let ghost st0 = init_scan(old(registry)@);
            let mut matched: u64 = 0;
            let mut cu_total: u64 = 0;
            let mut cu_matched: u64 = 0;
            let ntx: usize = txs.len();
            let mut ti: usize = 0;
            proof {
                assert(tv.take(0) =~= Seq::<TransactionInfoV>::empty());
                assert(outcome_views(outcomes@) =~= Seq::<ConfirmRecordV>::empty());
                assert(scan_txs(st0, tv.take(0), ctx) == st0);
            }
            while ti < ntx
                invariant
                    registry.wf(),
                    ntx == txs@.len(),
                    ti <= ntx,
                    tv == tx_views(txs@),
                    st0 == init_scan(old(registry)@),
                    leader@ == ctx.leader,
                    ctx == (ScanCtx {
                        slot,
                        now,
                        block_hash: block@.block_hash,
                        leader: leader_of(block@.rewards),
                    }),
                    scan_txs(st0, tv.take(ti as int), ctx) == (ScanState {
                        map: registry@,
                        outcomes: outcome_views(outcomes@),
                        matched: matched,
                        cu_total: cu_total,
                        cu_matched: cu_matched,
                    }),
                decreases ntx - ti,
            {
                let ghost st_tx = scan_txs(st0, tv.take(ti as int), ctx);
                let tx = &txs[ti];
                if tx.decoded {
                    let ghost sv = tx@.signatures;
                    let nsig: usize = tx.signatures.len();
                    let mut si: usize = 0;
                    proof {
                        assert(sv.take(0) =~= Seq::<Seq<u8>>::empty());
                        assert(scan_sigs(st_tx, sv.take(0), tx@.meta, ctx) == st_tx);
                    }
                    while si < nsig
                        invariant
                            registry.wf(),
                            nsig == tx.signatures@.len(),
                            si <= nsig,
                            sv == tx@.signatures,
                            tx == &txs@[ti as int],
                            ti < txs@.len(),
                            tv == tx_views(txs@),
                            leader@ == ctx.leader,
                            ctx == (ScanCtx {
                                slot,
                                now,
                                block_hash: block@.block_hash,
                                leader: leader_of(block@.rewards),
                            }),
                            scan_sigs(st_tx, sv.take(si as int), tx@.meta, ctx) == (ScanState {
                                map: registry@,
                                outcomes: outcome_views(outcomes@),
                                matched: matched,
                                cu_total: cu_total,
                                cu_matched: cu_matched,
                            }),
                        decreases nsig - si,
                    {
                        let ghost st_sig = scan_sigs(st_tx, sv.take(si as int), tx@.meta, ctx);
                        let cu: u64 = match &tx.meta {
                            Some(m) => match m.compute_units {
                                Some(x) => x,
                                None => 0,
                            },
                            None => 0,
                        };
                        assert(cu == meta_cu(tx@.meta));
                        cu_total = sat_add_u64(cu_total, cu);
                        let taken = registry.take_if_present(&tx.signatures[si]);
                        match taken {
                            Some(rec) => {
                                matched = sat_add_u64(matched, 1);
                                cu_matched = sat_add_u64(cu_matched, cu);
                                let successful: bool = match &tx.meta {
                                    Some(m) => m.status_ok,
                                    None => false,
                                };
                                let error: Option<Vec<u8>> = match &tx.meta {
                                    Some(m) => copy_opt_bytes(&m.error),
                                    None => None,
                                };
                                let outcome = TransactionConfirmRecord {
                                    signature: rec.signature,
                                    confirmed_slot: Some(slot),
                                    confirmed_at: Some(now),
                                    sent_at: rec.sent_at,
                                    sent_slot: rec.sent_slot,
                                    successful,
                                    error,
                                    block_hash: Some(copy_bytes(&block.block_hash)),
                                    market: rec.market,
                                    user: rec.user,
                                    slot_processed: Some(slot),
                                    slot_leader: Some(copy_bytes(&leader)),
                                    timed_out: false,
                                    priority_fees: rec.priority_fees,
                                };
                                proof {
                                    assert(outcome@ == confirm_of(
                                        st_sig.map[sv[si as int]].record,
                                        tx@.meta,
                                        ctx,
                                    ));
                                }
                                outcomes.push(outcome);
                            },
                            None => {},
                        }
                        proof {
                            assert(sv.take(si as int + 1).drop_last() =~= sv.take(si as int));
                            assert(sv.take(si as int + 1).last() == sv[si as int]);
                            assert(outcome_views(outcomes@) =~= scan_sig_step(
                                st_sig,
                                sv[si as int],
                                tx@.meta,
                                ctx,
                            ).outcomes);
                        }
                        si += 1;
                    }
                    proof {
                        assert(sv.take(nsig as int) =~= sv);
                    }
                }
                proof {
                    assert(tv.take(ti as int + 1).drop_last() =~= tv.take(ti as int));
                    assert(tv.take(ti as int + 1).last() == tv[ti as int]);
                }
                ti += 1;
            }
            proof {
                assert(tv.take(ntx as int) =~= tv);
                lemma_scan_cu_bound(st0, tv, ctx);
            }
            let bd = BlockData {
                block_hash: copy_bytes(&block.block_hash),
                block_leader: leader,
                block_slot: slot,
                block_time: match block.block_time {
                    Some(t) => t,
                    None => 0,
                },
                number_of_mm_transactions: matched,
                total_transactions: txs.len() as u64,
                cu_consumed: cu_total,
                cu_consumed_matched: cu_matched,
            };
            (outcomes, Some(bd))
        },
    }
}

impl BlockData {
    /// The percentage of the block's compute units consumed by matched
    /// transactions, rounded down; 0 when the block consumed none.
    pub fn percentage_filled_by_openbook(&self) -> (r: u64)
        requires
            self@.wf(),
        ensures
            self.cu_consumed == 0 ==> r == 0,
            self.cu_consumed > 0 ==> r == (self.cu_consumed_matched * 100) as int
                / (self.cu_consumed as int),
            r <= 100,
    {
        if self.cu_consumed == 0 {
            0
        } else {
            let num: u128 = (self.cu_consumed_matched as u128) * 100;
            let q: u128 = num / (self.cu_consumed as u128);
            proof {
                let m = self.cu_consumed_matched as int;
                let t = self.cu_consumed as int;
                vstd::arithmetic::mul::lemma_mul_inequality(m, t, 100);
                vstd::arithmetic::div_mod::lemma_div_is_ordered(m * 100, t * 100, t);
                vstd::arithmetic::div_mod::lemma_div_multiples_vanish(100, t);
                assert(t * 100 == 100 * t) by (nonlinear_arith);
                assert(q <= 100);
            }
            q as u64
        }
    }
}

/// One signature step keeps the matched subtotal within the block total.
proof fn lemma_step_cu_bound(st: ScanState, sig: Seq<u8>, meta: Option<TxMetaV>, ctx: ScanCtx)
    requires
        st.cu_matched <= st.cu_total,
    ensures
        scan_sig_step(st, sig, meta, ctx).cu_matched <= scan_sig_step(st, sig, meta, ctx).cu_total,
{
}

proof fn lemma_sigs_cu_bound(st: ScanState, sigs: Seq<Seq<u8>>, meta: Option<TxMetaV>, ctx: ScanCtx)
    requires
        st.cu_matched <= st.cu_total,
    ensures
        scan_sigs(st, sigs, meta, ctx).cu_matched <= scan_sigs(st, sigs, meta, ctx).cu_total,
    decreases sigs.len(),
{
    if sigs.len() > 0 {
        lemma_sigs_cu_bound(st, sigs.drop_last(), meta, ctx);
        lemma_step_cu_bound(scan_sigs(st, sigs.drop_last(), meta, ctx), sigs.last(), meta, ctx);
    }
}

/// Law: over a whole block, the compute units attributed to matched
/// transactions never exceed the block's total, so the matched fraction
/// lies in [0, 1].
pub proof fn lemma_scan_cu_bound(st: ScanState, txs: Seq<TransactionInfoV>, ctx: ScanCtx)
    requires
        st.cu_matched <= st.cu_total,
    ensures
        scan_txs(st, txs, ctx).cu_matched <= scan_txs(st, txs, ctx).cu_total,
    decreases txs.len(),
{
    if txs.len() > 0 {
        lemma_scan_cu_bound(st, txs.drop_last(), ctx);
        let mid = scan_txs(st, txs.drop_last(), ctx);
        if txs.last().decoded {
            lemma_sigs_cu_bound(mid, txs.last().signatures, txs.last().meta, ctx);
        }
    }
}

/// Some decoded transaction of the block carries the signature `k`.
pub open spec fn sig_in_txs(txs: Seq<TransactionInfoV>, k: Seq<u8>) -> bool {
    exists|t: int|
        0 <= t < txs.len() && (#[trigger] txs[t]).decoded && txs[t].signatures.contains(k)
}

/// How many of the outcomes carry the signature `k`.
pub open spec fn count_sig(outs: Seq<ConfirmRecordV>, k: Seq<u8>) -> int
    decreases outs.len(),
{
    if outs.len() == 0 {
        0
    } else {
        count_sig(outs.drop_last(), k) + if outs.last().signature == k {
            1int
        } else {
            0int
        }
    }
}

/// What holds of the one confirmation produced for a matched record: not
/// timed out, confirmed in this block, and carrying the record's own
/// submission metadata.
pub open spec fn is_confirmation_for(
    o: ConfirmRecordV,
    k: Seq<u8>,
    record: SendRecordV,
    ctx: ScanCtx,
) -> bool {
    &&& o.signature == k
    &&& o.timed_out == false
    &&& o.confirmed_slot == Some(ctx.slot)
    &&& o.confirmed_at == Some(ctx.now)
    &&& o.block_hash == Some(ctx.block_hash)
    &&& o.slot_leader == Some(ctx.leader)
    &&& o.sent_at == record.sent_at
    &&& o.sent_slot == record.sent_slot
    &&& o.market == record.market
    &&& o.user == record.user
    &&& o.priority_fees == record.priority_fees
}

proof fn lemma_sigs_absent(
    st: ScanState,
    sigs: Seq<Seq<u8>>,
    meta: Option<TxMetaV>,
    ctx: ScanCtx,
    k: Seq<u8>,
)
    requires
        crate::registry::sig_keyed(st.map),
        !st.map.contains_key(k),
    ensures
        ({
            let r = scan_sigs(st, sigs, meta, ctx);
            &&& !r.map.contains_key(k)
            &&& crate::registry::sig_keyed(r.map)
            &&& count_sig(r.outcomes, k) == count_sig(st.outcomes, k)
            &&& r.outcomes.len() >= st.outcomes.len()
            &&& forall|i: int| 0 <= i < st.outcomes.len() ==> r.outcomes[i] == st.outcomes[i]
        }),
    decreases sigs.len(),
{
    if sigs.len() > 0 {
        lemma_sigs_absent(st, sigs.drop_last(), meta, ctx, k);
        let mid = scan_sigs(st, sigs.drop_last(), meta, ctx);
        let r = scan_sig_step(mid, sigs.last(), meta, ctx);
        if mid.map.contains_key(sigs.last()) {
            assert(mid.map[sigs.last()].record.signature == sigs.last());
            assert(r.outcomes.drop_last() =~= mid.outcomes);
        }
    }
}

proof fn lemma_sigs_other(
    st: ScanState,
    sigs: Seq<Seq<u8>>,
    meta: Option<TxMetaV>,
    ctx: ScanCtx,
    k: Seq<u8>,
)
    requires
        crate::registry::sig_keyed(st.map),
        !sigs.contains(k),
    ensures
        ({
            let r = scan_sigs(st, sigs, meta, ctx);
            &&& r.map.contains_key(k) <==> st.map.contains_key(k)
            &&& st.map.contains_key(k) ==> r.map[k] == st.map[k]
            &&& crate::registry::sig_keyed(r.map)
            &&& count_sig(r.outcomes, k) == count_sig(st.outcomes, k)
            &&& r.outcomes.len() >= st.outcomes.len()
            &&& forall|i: int| 0 <= i < st.outcomes.len() ==> r.outcomes[i] == st.outcomes[i]
        }),
    decreases sigs.len(),
{
    if sigs.len() > 0 {
        assert(!sigs.drop_last().contains(k)) by {
            if sigs.drop_last().contains(k) {
                let i = choose|i: int|
                    0 <= i < sigs.drop_last().len() && sigs.drop_last()[i] == k;
                assert(sigs[i] == k);
            }
        }
        assert(sigs.last() != k) by {
            assert(sigs[sigs.len() - 1] == sigs.last());
        }
        lemma_sigs_other(st, sigs.drop_last(), meta, ctx, k);
        let mid = scan_sigs(st, sigs.drop_last(), meta, ctx);
        let r = scan_sig_step(mid, sigs.last(), meta, ctx);
        if mid.map.contains_key(sigs.last()) {
            assert(mid.map[sigs.last()].record.signature == sigs.last());
            assert(r.outcomes.drop_last() =~= mid.outcomes);
        }
    }
}

proof fn lemma_sigs_match(
    st: ScanState,
    sigs: Seq<Seq<u8>>,
    meta: Option<TxMetaV>,
    ctx: ScanCtx,
    k: Seq<u8>,
)
    requires
        crate::registry::sig_keyed(st.map),
        st.map.contains_key(k),
        sigs.contains(k),
    ensures
        ({
            let r = scan_sigs(st, sigs, meta, ctx);
            &&& !r.map.contains_key(k)
            &&& crate::registry::sig_keyed(r.map)
            &&& count_sig(r.outcomes, k) == count_sig(st.outcomes, k) + 1
            &&& r.outcomes.len() >= st.outcomes.len()
            &&& forall|i: int| 0 <= i < st.outcomes.len() ==> r.outcomes[i] == st.outcomes[i]
            &&& exists|i: int|
                st.outcomes.len() <= i < r.outcomes.len() && #[trigger] r.outcomes[i] == confirm_of(
                    st.map[k].record,
                    meta,
                    ctx,
                )
        }),
    decreases sigs.len(),
{
    let mid = scan_sigs(st, sigs.drop_last(), meta, ctx);
    let r = scan_sig_step(mid, sigs.last(), meta, ctx);
    assert(sigs.len() > 0);
    if sigs.drop_last().contains(k) {
        lemma_sigs_match(st, sigs.drop_last(), meta, ctx, k);
        let i = choose|i: int|
            st.outcomes.len() <= i < mid.outcomes.len() && #[trigger] mid.outcomes[i] == confirm_of(
                st.map[k].record,
                meta,
                ctx,
            );
        if mid.map.contains_key(sigs.last()) {
            assert(mid.map[sigs.last()].record.signature == sigs.last());
            assert(sigs.last() != k);
            assert(r.outcomes.drop_last() =~= mid.outcomes);
            assert(r.outcomes[i] == confirm_of(st.map[k].record, meta, ctx));
        } else {
            assert(r.outcomes[i] == confirm_of(st.map[k].record, meta, ctx));
        }
    } else {
        assert(sigs.last() == k) by {
            let i = choose|i: int| 0 <= i < sigs.len() && sigs[i] == k;
            if i < sigs.len() - 1 {
                assert(sigs.drop_last()[i] == k);
            }
        }
        lemma_sigs_other(st, sigs.drop_last(), meta, ctx, k);
        assert(mid.map.contains_key(k) && mid.map[k] == st.map[k]);
        assert(r.outcomes =~= mid.outcomes.push(confirm_of(st.map[k].record, meta, ctx)));
        assert(r.outcomes.drop_last() =~= mid.outcomes);
        assert(r.outcomes[r.outcomes.len() - 1] == confirm_of(st.map[k].record, meta, ctx));
    }
}

proof fn lemma_txs_other(st: ScanState, txs: Seq<TransactionInfoV>, ctx: ScanCtx, k: Seq<u8>)
    requires
        crate::registry::sig_keyed(st.map),
        !sig_in_txs(txs, k),
    ensures
        ({
            let r = scan_txs(st, txs, ctx);
            &&& r.map.contains_key(k) <==> st.map.contains_key(k)
            &&& st.map.contains_key(k) ==> r.map[k] == st.map[k]
            &&& crate::registry::sig_keyed(r.map)
            &&& count_sig(r.outcomes, k) == count_sig(st.outcomes, k)
            &&& r.outcomes.len() >= st.outcomes.len()
            &&& forall|i: int| 0 <= i < st.outcomes.len() ==> r.outcomes[i] == st.outcomes[i]
        }),
    decreases txs.len(),
{
    if txs.len() > 0 {
        assert(!sig_in_txs(txs.drop_last(), k)) by {
            if sig_in_txs(txs.drop_last(), k) {
                let t = choose|t: int|
                    0 <= t < txs.drop_last().len() && (#[trigger] txs.drop_last()[t]).decoded
                        && txs.drop_last()[t].signatures.contains(k);
                assert(txs[t].decoded && txs[t].signatures.contains(k));
            }
        }
        lemma_txs_other(st, txs.drop_last(), ctx, k);
        let mid = scan_txs(st, txs.drop_last(), ctx);
        if txs.last().decoded {
            assert(!txs.last().signatures.contains(k)) by {
                assert(txs[txs.len() - 1] == txs.last());
            }
            lemma_sigs_other(mid, txs.last().signatures, txs.last().meta, ctx, k);
        }
    }
}

proof fn lemma_txs_match(st: ScanState, txs: Seq<TransactionInfoV>, ctx: ScanCtx, k: Seq<u8>)
    requires
        crate::registry::sig_keyed(st.map),
        st.map.contains_key(k),
        sig_in_txs(txs, k),
    ensures
        ({
            let r = scan_txs(st, txs, ctx);
            &&& !r.map.contains_key(k)
            &&& crate::registry::sig_keyed(r.map)
            &&& count_sig(r.outcomes, k) == count_sig(st.outcomes, k) + 1
            &&& r.outcomes.len() >= st.outcomes.len()
            &&& forall|i: int| 0 <= i < st.outcomes.len() ==> r.outcomes[i] == st.outcomes[i]
            &&& exists|i: int|
                st.outcomes.len() <= i < r.outcomes.len() && is_confirmation_for(
                    #[trigger] r.outcomes[i],
                    k,
                    st.map[k].record,
                    ctx,
                )
        }),
    decreases txs.len(),
{
    assert(txs.len() > 0);
    let mid = scan_txs(st, txs.drop_last(), ctx);
    let r = scan_tx(mid, txs.last(), ctx);
    if sig_in_txs(txs.drop_last(), k) {
        lemma_txs_match(st, txs.drop_last(), ctx, k);
        let i = choose|i: int|
            st.outcomes.len() <= i < mid.outcomes.len() && is_confirmation_for(
                #[trigger] mid.outcomes[i],
                k,
                st.map[k].record,
                ctx,
            );
        if txs.last().decoded {
            lemma_sigs_absent(mid, txs.last().signatures, txs.last().meta, ctx, k);
        }
        assert(r.outcomes[i] == mid.outcomes[i]);
        assert(is_confirmation_for(r.outcomes[i], k, st.map[k].record, ctx));
    } else {
        let t = choose|t: int|
            0 <= t < txs.len() && (#[trigger] txs[t]).decoded && txs[t].signatures.contains(k);
        assert(t == txs.len() - 1) by {
            if t < txs.len() - 1 {
                assert(txs.drop_last()[t].decoded && txs.drop_last()[t].signatures.contains(k));
            }
        }
        assert(txs.last().decoded && txs.last().signatures.contains(k)) by {
            assert(txs[txs.len() - 1] == txs.last());
        }
        lemma_txs_other(st, txs.drop_last(), ctx, k);
        assert(mid.map.contains_key(k) && mid.map[k] == st.map[k]);
        lemma_sigs_match(mid, txs.last().signatures, txs.last().meta, ctx, k);
        let i = choose|i: int|
            mid.outcomes.len() <= i < r.outcomes.len() && #[trigger] r.outcomes[i] == confirm_of(
                mid.map[k].record,
                txs.last().meta,
                ctx,
            );
        assert(is_confirmation_for(r.outcomes[i], k, st.map[k].record, ctx));
    }
}

/// Law: for a block containing a transaction whose signature matches a
/// pending record, the scan produces exactly one outcome for that
/// signature; the outcome is not timed out, names this block's slot, and
/// carries the record's own submission metadata; and the record is out of
/// the registry map as soon as the scan's map is in place — so no later
/// sweep can reap it.
pub proof fn lemma_block_match_exactly_once(
    m: Map<Seq<u8>, PendingEntryV>,
    txs: Seq<TransactionInfoV>,
    ctx: ScanCtx,
    k: Seq<u8>,
)
    requires
        crate::registry::sig_keyed(m),
        m.contains_key(k),
        sig_in_txs(txs, k),
    ensures
        ({
            let r = scan_txs(init_scan(m), txs, ctx);
            &&& !r.map.contains_key(k)
            &&& count_sig(r.outcomes, k) == 1
            &&& exists|i: int|
                0 <= i < r.outcomes.len() && is_confirmation_for(
                    #[trigger] r.outcomes[i],
                    k,
                    m[k].record,
                    ctx,
                )
        }),
{
    lemma_txs_match(init_scan(m), txs, ctx, k);
}

pub open spec fn opt_block_views(s: Seq<Option<BlockInfo>>) -> Seq<Option<BlockInfoV>> {
    Seq::new(
        s.len(),
        |i: int|
            match s[i] {
                Some(b) => Some(b@),
                None => None,
            },
    )
}

/// The scan context of one block of a pass.
pub open spec fn pass_ctx(b: BlockInfoV, slot: u64, now: u64) -> ScanCtx {
    ScanCtx { slot, now, block_hash: b.block_hash, leader: leader_of(b.rewards) }
}

/// The registry map after one whole scanner pass: each fetched block is
/// scanned in slot order; a block whose fetch failed, or that came without
/// transaction details, is skipped whole.
pub open spec fn pass_map(
    m: Map<Seq<u8>, PendingEntryV>,
    blocks: Seq<Option<BlockInfoV>>,
    slots: Seq<u64>,
    now: u64,
) -> Map<Seq<u8>, PendingEntryV>
    decreases blocks.len(),
{
    if blocks.len() == 0 {
        m
    } else {
        let m2 = pass_map(m, blocks.drop_last(), slots.drop_last(), now);
        match blocks.last() {
            Some(b) => match b.transactions {
                Some(txs) => scan_txs(init_scan(m2), txs, pass_ctx(b, slots.last(), now)).map,
                None => m2,
            },
            None => m2,
        }
    }
}

/// The outcomes one whole scanner pass publishes, in slot order.
pub open spec fn pass_outcomes(
    m: Map<Seq<u8>, PendingEntryV>,
    blocks: Seq<Option<BlockInfoV>>,
    slots: Seq<u64>,
    now: u64,
) -> Seq<ConfirmRecordV>
    decreases blocks.len(),
{
    if blocks.len() == 0 {
        Seq::empty()
    } else {
        let prefix = pass_outcomes(m, blocks.drop_last(), slots.drop_last(), now);
        let m2 = pass_map(m, blocks.drop_last(), slots.drop_last(), now);
        match blocks.last() {
            Some(b) => match b.transactions {
                Some(txs) => prefix + scan_txs(
                    init_scan(m2),
                    txs,
                    pass_ctx(b, slots.last(), now),
                ).outcomes,
                None => prefix,
            },
            None => prefix,
        }
    }
}

/// The block summaries one whole scanner pass publishes, in slot order.
pub open spec fn pass_summaries(
    m: Map<Seq<u8>, PendingEntryV>,
    blocks: Seq<Option<BlockInfoV>>,
    slots: Seq<u64>,
    now: u64,
) -> Seq<BlockDataV>
    decreases blocks.len(),
{
    if blocks.len() == 0 {
        Seq::empty()
    } else {
        let prefix = pass_summaries(m, blocks.drop_last(), slots.drop_last(), now);
        let m2 = pass_map(m, blocks.drop_last(), slots.drop_last(), now);
        match blocks.last() {
            Some(b) => match b.transactions {
                Some(txs) => prefix.push(
                    block_data_of(
                        b,
                        txs,
                        slots.last(),
                        scan_txs(init_scan(m2), txs, pass_ctx(b, slots.last(), now)),
                    ),
                ),
                None => prefix,
            },
            None => prefix,
        }
    }
}

pub open spec fn summary_views(s: Seq<BlockData>) -> Seq<BlockDataV> {
    Seq::new(s.len(), |i: int| s[i]@)
}

/// One whole scanner pass: the cursor first advances past the listed
/// slots — monotonically, so no slot is ever scanned twice, even when a
/// block fetch failed — and every fetched block is then scanned against
/// the registry in slot order.  Returns the outcomes and block summaries
/// to publish, in order.
pub fn scan_pass(
    registry: &mut PendingRegistry,
    cursor: &mut ScannerCursor,
    slots: &Vec<u64>,
    blocks: &Vec<Option<BlockInfo>>,
    now: u64,
) -> (res: (Vec<TransactionConfirmRecord>, Vec<BlockData>))
    requires
        old(registry).wf(),
        blocks@.len() == slots@.len(),
        forall|i: int| 0 <= i < slots@.len() ==> #[trigger] slots@[i] >= old(cursor).next_slot,
        forall|i: int| 0 <= i < slots@.len() ==> #[trigger] slots@[i] < u64::MAX,
    ensures
        final(registry).wf(),
        slots@.len() == 0 ==> final(cursor).next_slot == old(cursor).next_slot,
        slots@.len() > 0 ==> final(cursor).next_slot == slots@.last() + 1,
        final(cursor).next_slot >= old(cursor).next_slot,
        final(registry)@ == pass_map(old(registry)@, opt_block_views(blocks@), slots@, now),
        outcome_views(res.0@) == pass_outcomes(
            old(registry)@,
            opt_block_views(blocks@),
            slots@,
            now,
        ),
        summary_views(res.1@) == pass_summaries(
            old(registry)@,
            opt_block_views(blocks@),
            slots@,
            now,
        ),
{
    cursor.advance(slots);
    let ghost bv = opt_block_views(blocks@);
    let ghost sv = slots@;
    let mut outcomes: Vec<TransactionConfirmRecord> = Vec::new();
    let mut summaries: Vec<BlockData> = Vec::new();
    let n: usize = blocks.len();
    let mut bi: usize = 0;
    proof {
        assert(bv.take(0) =~= Seq::<Option<BlockInfoV>>::empty());
        assert(outcome_views(outcomes@) =~= Seq::<ConfirmRecordV>::empty());
        assert(summary_views(summaries@) =~= Seq::<BlockDataV>::empty());
        assert(pass_outcomes(old(registry)@, bv.take(0), sv.take(0), now) =~= Seq::<
            ConfirmRecordV,
        >::empty());
        assert(pass_summaries(old(registry)@, bv.take(0), sv.take(0), now) =~= Seq::<
            BlockDataV,
        >::empty());
    }
    while bi < n
        invariant
            registry.wf(),
            n == blocks@.len(),
            blocks@.len() == slots@.len(),
            bi <= n,
            bv == opt_block_views(blocks@),
            sv == slots@,
            registry@ == pass_map(old(registry)@, bv.take(bi as int), sv.take(bi as int), now),
            outcome_views(outcomes@) == pass_outcomes(
                old(registry)@,
                bv.take(bi as int),
                sv.take(bi as int),
                now,
            ),
            summary_views(summaries@) == pass_summaries(
                old(registry)@,
                bv.take(bi as int),
                sv.take(bi as int),
                now,
            ),
        decreases n - bi,
    {
        let ghost out0 = outcomes@;
        let ghost sum0 = summaries@;
        match &blocks[bi] {
            Some(b) => {
                let (mut os, sm) = process_blocks(b, registry, slots[bi], now);
                let ghost osv = outcome_views(os@);
                outcomes.append(&mut os);
                proof {
                    assert(outcome_views(outcomes@) =~= outcome_views(out0) + osv);
                }
                match sm {
                    Some(bd) => {
                        summaries.push(bd);
                        proof {
                            assert(summary_views(summaries@).drop_last() =~= summary_views(sum0));
                        }
                    },
                    None => {},
                }
            },
            None => {},
        }
        proof {
            broadcast use vstd::seq::group_seq_axioms;

            assert(bv.take(bi as int + 1).drop_last() =~= bv.take(bi as int));
            assert(sv.take(bi as int + 1).drop_last() =~= sv.take(bi as int));
            assert(bv.take(bi as int + 1).last() == bv[bi as int]);
            assert(sv.take(bi as int + 1).last() == sv[bi as int]);
        }
        bi += 1;
    }
    proof {
        assert(bv.take(n as int) =~= bv);
        assert(sv.take(n as int) =~= sv);
    }
    (outcomes, summaries)
}

/// Law: when a pending signature stands in exactly one decoded transaction
/// of the block, its one confirmation is that transaction's verdict
/// verbatim — success exactly when the metadata reports error-free
/// execution, and the metadata's error rendering carried over.
pub proof fn lemma_block_match_reports_tx_status(
    m: Map<Seq<u8>, PendingEntryV>,
    txs: Seq<TransactionInfoV>,
    ctx: ScanCtx,
    k: Seq<u8>,
    t: int,
)
    requires
        crate::registry::sig_keyed(m),
        m.contains_key(k),
        0 <= t < txs.len(),
        txs[t].decoded,
        txs[t].signatures.contains(k),
        forall|u: int|
            0 <= u < txs.len() && u != t ==> !((#[trigger] txs[u]).decoded
                && txs[u].signatures.contains(k)),
    ensures
        ({
            let r = scan_txs(init_scan(m), txs, ctx);
            exists|i: int|
                0 <= i < r.outcomes.len() && #[trigger] r.outcomes[i] == confirm_of(
                    m[k].record,
                    txs[t].meta,
                    ctx,
                )
        }),
{
    lemma_txs_status(init_scan(m), txs, ctx, k, t);
}

proof fn lemma_txs_status(st: ScanState, txs: Seq<TransactionInfoV>, ctx: ScanCtx, k: Seq<u8>, t: int)
    requires
        crate::registry::sig_keyed(st.map),
        st.map.contains_key(k),
        0 <= t < txs.len(),
        txs[t].decoded,
        txs[t].signatures.contains(k),
        forall|u: int|
            0 <= u < txs.len() && u != t ==> !((#[trigger] txs[u]).decoded
                && txs[u].signatures.contains(k)),
    ensures
        ({
            let r = scan_txs(st, txs, ctx);
            exists|i: int|
                st.outcomes.len() <= i < r.outcomes.len() && #[trigger] r.outcomes[i] == confirm_of(
                    st.map[k].record,
                    txs[t].meta,
                    ctx,
                )
        }),
    decreases txs.len(),
{
    let mid = scan_txs(st, txs.drop_last(), ctx);
    let r = scan_tx(mid, txs.last(), ctx);
    if t == txs.len() - 1 {
        assert(!sig_in_txs(txs.drop_last(), k)) by {
            if sig_in_txs(txs.drop_last(), k) {
                let u = choose|u: int|
                    0 <= u < txs.drop_last().len() && (#[trigger] txs.drop_last()[u]).decoded
                        && txs.drop_last()[u].signatures.contains(k);
                assert(txs[u].decoded && txs[u].signatures.contains(k));
            }
        }
        lemma_txs_other(st, txs.drop_last(), ctx, k);
        assert(txs.last() == txs[t]);
        lemma_sigs_match(mid, txs.last().signatures, txs.last().meta, ctx, k);
        let i = choose|i: int|
            mid.outcomes.len() <= i < r.outcomes.len() && #[trigger] r.outcomes[i] == confirm_of(
                mid.map[k].record,
                txs.last().meta,
                ctx,
            );
        assert(st.outcomes.len() <= i < r.outcomes.len());
        assert(scan_txs(st, txs, ctx).outcomes[i] == confirm_of(st.map[k].record, txs[t].meta, ctx));
    } else {
        assert(forall|u: int|
            0 <= u < txs.drop_last().len() && u != t ==> !((#[trigger] txs.drop_last()[u]).decoded
                && txs.drop_last()[u].signatures.contains(k))) by {
            assert(forall|u: int|
                0 <= u < txs.drop_last().len() ==> #[trigger] txs.drop_last()[u] == txs[u]);
        }
        assert(txs.drop_last()[t] == txs[t]);
        lemma_txs_status(st, txs.drop_last(), ctx, k, t);
        let i = choose|i: int|
            st.outcomes.len() <= i < mid.outcomes.len() && #[trigger] mid.outcomes[i] == confirm_of(
                st.map[k].record,
                txs.drop_last()[t].meta,
                ctx,
            );
        assert(sig_in_txs(txs.drop_last(), k)) by {
            assert(txs.drop_last()[t].decoded && txs.drop_last()[t].signatures.contains(k));
        }
        lemma_txs_match(st, txs.drop_last(), ctx, k);
        if txs.last().decoded {
            lemma_sigs_absent(mid, txs.last().signatures, txs.last().meta, ctx, k);
        }
        assert(r.outcomes[i] == confirm_of(st.map[k].record, txs[t].meta, ctx));
    }
}

/// The scanner's block cursor.  It only ever moves forward: a slot once
/// passed is never scanned again.
pub struct ScannerCursor {
    pub next_slot: u64,
}

impl ScannerCursor {
    /// A cursor that will scan from `from_slot` on.
    pub fn new(from_slot: u64) -> (r: Self)
        ensures
            r.next_slot == from_slot,
    {
        ScannerCursor { next_slot: from_slot }
    }

    /// Advances one past the last slot of a freshly listed batch.  An empty
    /// batch leaves the cursor in place; the cursor never moves backwards.
    pub fn advance(&mut self, slots: &Vec<u64>)
        requires
            forall|i: int| 0 <= i < slots@.len() ==> #[trigger] slots@[i] >= old(self).next_slot,
            forall|i: int| 0 <= i < slots@.len() ==> #[trigger] slots@[i] < u64::MAX,
        ensures
            slots@.len() == 0 ==> final(self).next_slot == old(self).next_slot,
            slots@.len() > 0 ==> final(self).next_slot == slots@.last() + 1,
            final(self).next_slot >= old(self).next_slot,
    {
        if slots.len() > 0 {
            let last = slots[slots.len() - 1];
            self.next_slot = last + 1;
        }
    }
}

/// How often a block listing is attempted before the scanner gives up.
pub const LIST_RETRY_ATTEMPTS: u64 = 4;

/// The scanner's bounded retry budget for one block listing.  When the
/// budget is spent, a persistent listing failure is fatal to the scanner.
pub struct RetryBudget {
    pub attempts_left: u64,
}

impl RetryBudget {
    /// A fresh budget of `attempts` tries.
    pub fn new(attempts: u64) -> (r: Self)
        ensures
            r.attempts_left == attempts,
    {
        RetryBudget { attempts_left: attempts }
    }

    /// Consumes one attempt.  Yields whether an attempt may be made at all;
    /// once it yields false, the caller must treat the listing as failed.
    pub fn try_attempt(&mut self) -> (r: bool)
        ensures
            r == (old(self).attempts_left > 0),
            r ==> final(self).attempts_left == old(self).attempts_left - 1,
            !r ==> final(self).attempts_left == old(self).attempts_left,
    {
        if self.attempts_left > 0 {
            self.attempts_left = self.attempts_left - 1;
            true
        } else {
            false
        }
    }
}

} // verus!
