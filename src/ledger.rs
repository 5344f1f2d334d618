use vstd::prelude::*;

use bitcoin::hashes::Hash as _;

use crate::chain::Location;
use crate::history::ascending;
use crate::hash::{bytes_eq, Hash32};

verus! {

/// A reference to one output of an earlier transaction.
#[derive(Clone, Copy, Debug)]
pub struct OutPoint {
    pub txid: Hash32,
    pub vout: u32,
}

/// One output of a transaction: its script and its amount in satoshis.
#[derive(Clone, Debug)]
pub struct TxOut {
    pub script: Vec<u8>,
    pub value: u64,
}

/// What replay reads of a transaction: its id, what it spends, what it pays.
#[derive(Clone, Debug)]
pub struct Tx {
    pub txid: Hash32,
    pub inputs: Vec<OutPoint>,
    pub outputs: Vec<TxOut>,
}

/// An unspent output of a watched script.
#[derive(Clone, Copy, Debug)]
pub struct Utxo {
    pub point: OutPoint,
    pub value: u64,
}

/// One replayed transaction, oldest first.
#[derive(Clone, Copy, Debug)]
pub struct ReplayRow {
    pub txid: Hash32,
    pub time: u32,
    pub height: usize,
    pub offset: u64,
    pub delta: i64,
    pub balance: i64,
}

/// Why a replay step was refused.
#[derive(Clone, Copy, Debug, PartialEq, Eq, Structural)]
pub enum LedgerError {
    /// An amount or a running sum left the signed 64-bit range, or an output
    /// index left the 32-bit range.
    Overflow,
    /// The transaction bytes could not be decoded.
    Parse,
}

pub type OutPointView = (Seq<u8>, u32);

pub type TxView = (Seq<u8>, Seq<OutPointView>, Seq<(Seq<u8>, u64)>);

impl View for Tx {
    type V = TxView;

    open spec fn view(&self) -> TxView {
        (
            self.txid@,
            self.inputs@.map_values(|p: OutPoint| point_key(p)),
            self.outputs@.map_values(|o: TxOut| (o.script@, o.value)),
        )
    }
}

/// What a transaction decodes to, as id, spent outputs and paid outputs.
pub uninterp spec fn decoded_tx(b: Seq<u8>) -> Option<TxView>;

/// Relies on bitcoin::consensus::deserialize of a Transaction and
/// Transaction::compute_txid: the result depends on the bytes alone.
#[verifier::external_body]
fn decode_tx(b: &[u8]) -> (r: Option<Tx>)
    ensures
        r is Some <==> decoded_tx(b@) is Some,
        r matches Some(t) ==> decoded_tx(b@) == Some(t@),
{
    let tx: bitcoin::Transaction = bitcoin::consensus::deserialize(b).ok()?;
    let txid = Hash32 { bytes: tx.compute_txid().to_byte_array() };
    let inputs = tx.input.iter().map(|i| OutPoint {
        txid: Hash32 { bytes: i.previous_output.txid.to_byte_array() },
        vout: i.previous_output.vout,
    }).collect();
    let outputs = tx.output.iter().map(|o| TxOut {
        script: o.script_pubkey.to_bytes(),
        value: o.value.to_sat(),
    }).collect();
    Some(Tx { txid, inputs, outputs })
}

/// Decodes a transaction's bytes.
pub fn parse_tx(bytes: &[u8]) -> (r: Result<Tx, LedgerError>)
    ensures
        r is Ok <==> decoded_tx(bytes@) is Some,
        r matches Ok(t) ==> decoded_tx(bytes@) == Some(t@),
        r is Err ==> r == Err::<Tx, LedgerError>(LedgerError::Parse),
{
    match decode_tx(bytes) {
        Some(t) => Ok(t),
        None => Err(LedgerError::Parse),
    }
}

pub open spec fn point_key(p: OutPoint) -> OutPointView {
    (p.txid@, p.vout)
}

/// The sum of the amounts held.
pub open spec fn total(s: Seq<Utxo>) -> int
    decreases s.len(),
{
    if s.len() == 0 {
        0
    } else {
        total(s.drop_last()) + s.last().value
    }
}

/// The index of the first entry for `k`, or -1.
pub open spec fn find_key(s: Seq<Utxo>, k: OutPointView) -> int
    decreases s.len(),
{
    if s.len() == 0 {
        -1
    } else if point_key(s[0].point) == k {
        0
    } else {
        let r = find_key(s.drop_first(), k);
        if r < 0 {
            -1
        } else {
            r + 1
        }
    }
}

pub open spec fn fits(x: int) -> bool {
    i64::MIN <= x <= i64::MAX
}

pub open spec fn watched_in(ws: Seq<Vec<u8>>, script: Seq<u8>) -> bool {
    exists|i: int| 0 <= i < ws.len() && ws[i]@ == script
}

/// Spending `p`: the entry for it, if held, leaves the set and is debited.
pub open spec fn spend_step(s: Seq<Utxo>, d: int, p: OutPoint) -> Option<(Seq<Utxo>, int)> {
    let i = find_key(s, point_key(p));
    if i < 0 {
        Some((s, d))
    } else if s[i].value > i64::MAX || !fits(d - s[i].value) {
        None
    } else {
        Some((s.remove(i), d - s[i].value))
    }
}

/// The effect of the inputs, in order, starting from a zero delta.
pub open spec fn after_inputs(s: Seq<Utxo>, ins: Seq<OutPoint>) -> Option<(Seq<Utxo>, int)>
    decreases ins.len(),
{
    if ins.len() == 0 {
        Some((s, 0))
    } else {
        match after_inputs(s, ins.drop_last()) {
            None => None,
            Some(st) => spend_step(st.0, st.1, ins.last()),
        }
    }
}

/// Output `n` of `txid`: credited and kept when its script is watched.
pub open spec fn credit_step(
    s: Seq<Utxo>,
    d: int,
    txid: Hash32,
    n: int,
    o: TxOut,
    ws: Seq<Vec<u8>>,
) -> Option<(Seq<Utxo>, int)> {
    if !watched_in(ws, o.script@) {
        Some((s, d))
    } else if o.value > i64::MAX || !fits(d + o.value) || n > u32::MAX {
        None
    } else {
        Some(
            (
                s.push(Utxo { point: OutPoint { txid: txid, vout: n as u32 }, value: o.value }),
                d + o.value,
            ),
        )
    }
}

/// The effect of the outputs, in order, starting from delta `d`.
pub open spec fn after_outputs(
    s: Seq<Utxo>,
    d: int,
    txid: Hash32,
    outs: Seq<TxOut>,
    ws: Seq<Vec<u8>>,
) -> Option<(Seq<Utxo>, int)>
    decreases outs.len(),
{
    if outs.len() == 0 {
        Some((s, d))
    } else {
        match after_outputs(s, d, txid, outs.drop_last(), ws) {
            None => None,
            Some(st) => credit_step(st.0, st.1, txid, outs.len() - 1, outs.last(), ws),
        }
    }
}

/// The working set after `tx` and its signed delta; `None` where an amount
/// overflows.
pub open spec fn tx_effect(s: Seq<Utxo>, balance: int, tx: Tx, ws: Seq<Vec<u8>>) -> Option<
    (Seq<Utxo>, int),
> {
    match after_inputs(s, tx.inputs@) {
        None => None,
        Some(a) => match after_outputs(a.0, a.1, tx.txid, tx.outputs@, ws) {
            None => None,
            Some(b) => if fits(balance + b.1) {
                Some(b)
            } else {
                None
            },
        },
    }
}

/// The working set and balance after replaying `txs` from an empty set.
pub open spec fn replay_state(txs: Seq<Tx>, ws: Seq<Vec<u8>>) -> Option<(Seq<Utxo>, int)>
    decreases txs.len(),
{
    if txs.len() == 0 {
        Some((Seq::empty(), 0))
    } else {
        match replay_state(txs.drop_last(), ws) {
            None => None,
            Some(st) => match tx_effect(st.0, st.1, txs.last(), ws) {
                None => None,
                Some(e) => Some((e.0, st.1 + e.1)),
            },
        }
    }
}

proof fn lemma_total_concat(a: Seq<Utxo>, b: Seq<Utxo>)
    ensures
        total(a + b) == total(a) + total(b),
    decreases b.len(),
{
    if b.len() > 0 {
        lemma_total_concat(a, b.drop_last());
        assert((a + b).drop_last() =~= a + b.drop_last());
    } else {
        assert(a + b =~= a);
    }
}

proof fn lemma_total_remove(s: Seq<Utxo>, i: int)
    requires
        0 <= i < s.len(),
    ensures
        total(s.remove(i)) == total(s) - s[i].value,
{
    let pre = s.take(i);
    let post = s.skip(i + 1);
    assert(s.remove(i) =~= pre + post);
    assert(s =~= pre.push(s[i]) + post);
    lemma_total_concat(pre, post);
    lemma_total_concat(pre.push(s[i]), post);
    assert(pre.push(s[i]).drop_last() =~= pre);
}

proof fn lemma_find_key_first(s: Seq<Utxo>, k: OutPointView, i: int)
    requires
        0 <= i < s.len(),
        point_key(s[i].point) == k,
        forall|j: int| 0 <= j < i ==> point_key(#[trigger] s[j].point) != k,
    ensures
        find_key(s, k) == i,
    decreases i,
{
    if i > 0 {
        let t = s.drop_first();
        assert forall|j: int| 0 <= j < i - 1 implies point_key(#[trigger] t[j].point) != k by {
            assert(t[j] == s[j + 1]);
        }
        lemma_find_key_first(t, k, i - 1);
    }
}

proof fn lemma_find_key_absent(s: Seq<Utxo>, k: OutPointView)
    requires
        forall|j: int| 0 <= j < s.len() ==> point_key(#[trigger] s[j].point) != k,
    ensures
        find_key(s, k) == -1,
    decreases s.len(),
{
    if s.len() > 0 {
        let t = s.drop_first();
        assert forall|j: int| 0 <= j < t.len() implies point_key(#[trigger] t[j].point) != k by {
            assert(t[j] == s[j + 1]);
        }
        lemma_find_key_absent(t, k);
    }
}

proof fn lemma_find_key_range(s: Seq<Utxo>, k: OutPointView)
    ensures
        -1 <= find_key(s, k) < s.len(),
    decreases s.len(),
{
    if s.len() > 0 {
        lemma_find_key_range(s.drop_first(), k);
    }
}

proof fn lemma_inputs_total(s: Seq<Utxo>, ins: Seq<OutPoint>)
    ensures
        after_inputs(s, ins) matches Some(st) ==> total(st.0) == total(s) + st.1,
    decreases ins.len(),
{
    if ins.len() > 0 {
        lemma_inputs_total(s, ins.drop_last());
        if let Some(st) = after_inputs(s, ins.drop_last()) {
            let i = find_key(st.0, point_key(ins.last()));
            lemma_find_key_range(st.0, point_key(ins.last()));
            if i >= 0 {
                lemma_total_remove(st.0, i);
            }
        }
    }
}

proof fn lemma_outputs_total(s: Seq<Utxo>, d: int, txid: Hash32, outs: Seq<TxOut>, ws: Seq<Vec<u8>>)
    ensures
        after_outputs(s, d, txid, outs, ws) matches Some(st) ==> total(st.0) - st.1 == total(s) - d,
    decreases outs.len(),
{
    if outs.len() > 0 {
        lemma_outputs_total(s, d, txid, outs.drop_last(), ws);
        if let Some(st) = after_outputs(s, d, txid, outs.drop_last(), ws) {
            let n = outs.len() - 1;
            let o = outs.last();
            if watched_in(ws, o.script@) && o.value <= i64::MAX && fits(st.1 + o.value) && n
                <= u32::MAX {
                let u = Utxo { point: OutPoint { txid: txid, vout: n as u32 }, value: o.value };
                assert(st.0.push(u).drop_last() =~= st.0);
            }
        }
    }
}

proof fn lemma_inputs_stay_none(s: Seq<Utxo>, ins: Seq<OutPoint>, k: int)
    requires
        0 <= k <= ins.len(),
        after_inputs(s, ins.take(k)) is None,
    ensures
        after_inputs(s, ins) is None,
    decreases ins.len() - k,
{
    if k < ins.len() {
        assert(ins.take(k + 1).drop_last() =~= ins.take(k));
        lemma_inputs_stay_none(s, ins, k + 1);
    } else {
        assert(ins.take(k) =~= ins);
    }
}

proof fn lemma_outputs_stay_none(
    s: Seq<Utxo>,
    d: int,
    txid: Hash32,
    outs: Seq<TxOut>,
    ws: Seq<Vec<u8>>,
    k: int,
)
    requires
        0 <= k <= outs.len(),
        after_outputs(s, d, txid, outs.take(k), ws) is None,
    ensures
        after_outputs(s, d, txid, outs, ws) is None,
    decreases outs.len() - k,
{
    if k < outs.len() {
        assert(outs.take(k + 1).drop_last() =~= outs.take(k));
        lemma_outputs_stay_none(s, d, txid, outs, ws, k + 1);
    } else {
        assert(outs.take(k) =~= outs);
    }
}

/// Whether `script` is one of the watched scripts.
pub fn is_watched(watched: &Vec<Vec<u8>>, script: &Vec<u8>) -> (r: bool)
    ensures
        r == watched_in(watched@, script@),
{
    let mut i: usize = 0;
    while i < watched.len()
        invariant
            i <= watched@.len(),
            forall|j: int| 0 <= j < i ==> watched@[j]@ != script@,
        decreases watched@.len() - i,
    {
        if bytes_eq(watched[i].as_slice(), script.as_slice()) {
            return true;
        }
        i = i + 1;
    }
    false
}

/// The index of the first unspent entry for `p`, if any.
fn find_point(s: &Vec<Utxo>, p: &OutPoint) -> (r: Option<usize>)
    ensures
        r is None ==> find_key(s@, point_key(*p)) == -1,
        r matches Some(i) ==> find_key(s@, point_key(*p)) == i as int && i < s@.len(),
{
    let mut i: usize = 0;
    while i < s.len()
        invariant
            i <= s@.len(),
            forall|j: int| 0 <= j < i ==> point_key(#[trigger] s@[j].point) != point_key(*p),
        decreases s@.len() - i,
    {
        let u = &s[i];
        if u.point.vout == p.vout && u.point.txid.same_as(&p.txid) {
            proof {
                lemma_find_key_first(s@, point_key(*p), i as int);
            }
            return Some(i);
        }
        i = i + 1;
    }
    proof {
        lemma_find_key_absent(s@, point_key(*p));
    }
    None
}

/// The replay state: the unspent outputs of watched scripts and the running
/// balance, which always equals their sum.
pub struct Ledger {
    unspent: Vec<Utxo>,
    balance: i64,
}

impl View for Ledger {
    type V = (Seq<Utxo>, int);

    closed spec fn view(&self) -> (Seq<Utxo>, int) {
        (self.unspent@, self.balance as int)
    }
}

impl Ledger {
    pub open spec fn wf(&self) -> bool {
        self@.1 == total(self@.0) && fits(self@.1)
    }

    /// An empty working set with a zero balance.
    pub fn new() -> (r: Ledger)
        ensures
            r.wf(),
            r@ == (Seq::<Utxo>::empty(), 0int),
    {
        let r = Ledger { unspent: Vec::new(), balance: 0 };
        assert(r@.0 =~= Seq::<Utxo>::empty());
        r
    }

    /// The running balance.
    pub fn balance(&self) -> (r: i64)
        ensures
            r as int == self@.1,
    {
        self.balance
    }

    /// How many watched outputs are unspent.
    pub fn unspent_count(&self) -> (r: usize)
        ensures
            r == self@.0.len(),
    {
        self.unspent.len()
    }

    /// Applies one transaction: spent watched outputs leave the set and are
    /// debited, outputs to watched scripts join it and are credited. Returns
    /// the signed delta, or `Overflow` where an amount leaves the signed range.
    pub fn apply(&mut self, tx: &Tx, watched: &Vec<Vec<u8>>) -> (r: Result<i64, LedgerError>)
        requires
            old(self).wf(),
        ensures
            r is Ok <==> tx_effect(old(self)@.0, old(self)@.1, *tx, watched@) is Some,
            r is Err ==> r == Err::<i64, LedgerError>(LedgerError::Overflow),
            r matches Ok(d) ==> tx_effect(old(self)@.0, old(self)@.1, *tx, watched@) == Some(
                (final(self)@.0, d as int),
            ) && final(self)@.1 == old(self)@.1 + d && final(self).wf(),
    {
        let ghost s0 = self@.0;
        let ghost ins = tx.inputs@;
        let mut delta: i64 = 0;
        let mut k: usize = 0;
        assert(ins.take(0) =~= Seq::<OutPoint>::empty());
        while k < tx.inputs.len()
            invariant
                k <= ins.len(),
                ins == tx.inputs@,
                s0 == old(self)@.0,
                self.balance == old(self)@.1,
                old(self).wf(),
                after_inputs(s0, ins.take(k as int)) == Some((self.unspent@, delta as int)),
            decreases ins.len() - k,
        {
            let p = tx.inputs[k];
            assert(ins.take(k + 1).drop_last() =~= ins.take(k as int));
            assert(ins.take(k + 1).last() == p);
            match find_point(&self.unspent, &p) {
                Some(i) => {
                    let v = self.unspent[i].value;
                    if v > 9223372036854775807u64 {
                        proof { lemma_inputs_stay_none(s0, ins, k + 1); }
                        return Err(LedgerError::Overflow);
                    }
                    let sv = v as i64;
                    if delta < i64::MIN + sv {
                        proof { lemma_inputs_stay_none(s0, ins, k + 1); }
                        return Err(LedgerError::Overflow);
                    }
                    delta = delta - sv;
                    self.unspent.remove(i);
                },
                None => {},
            }
            k = k + 1;
        }
        assert(ins.take(k as int) =~= ins);
        let ghost s1 = self@.0;
        let ghost d1 = delta as int;
        let ghost outs = tx.outputs@;
        let mut n: usize = 0;
        assert(outs.take(0) =~= Seq::<TxOut>::empty());
        while n < tx.outputs.len()
            invariant
                n <= outs.len(),
                outs == tx.outputs@,
                after_outputs(s1, d1, tx.txid, outs.take(n as int), watched@) == Some(
                    (self.unspent@, delta as int),
                ),
                after_inputs(s0, ins) == Some((s1, d1)),
                ins == tx.inputs@,
                s0 == old(self)@.0,
                self.balance == old(self)@.1,
                old(self).wf(),
            decreases outs.len() - n,
        {
            let o = &tx.outputs[n];
            assert(outs.take(n + 1).drop_last() =~= outs.take(n as int));
            assert(outs.take(n + 1).last() == *o);
            if is_watched(watched, &o.script) {
                let v = o.value;
                if v > 9223372036854775807u64 || n > 4294967295usize {
                    proof { lemma_outputs_stay_none(s1, d1, tx.txid, outs, watched@, n + 1); }
                    return Err(LedgerError::Overflow);
                }
                let sv = v as i64;
                if delta > i64::MAX - sv {
                    proof { lemma_outputs_stay_none(s1, d1, tx.txid, outs, watched@, n + 1); }
                    return Err(LedgerError::Overflow);
                }
                delta = delta + sv;
                self.unspent.push(Utxo { point: OutPoint { txid: tx.txid, vout: n as u32 }, value: v });
            }
            n = n + 1;
        }
        assert(outs.take(n as int) =~= outs);
        if (delta > 0 && self.balance > i64::MAX - delta) || (delta < 0 && self.balance < i64::MIN
            - delta) {
            return Err(LedgerError::Overflow);
        }
        proof {
            lemma_inputs_total(s0, ins);
            lemma_outputs_total(s1, d1, tx.txid, outs, watched@);
        }
        self.balance = self.balance + delta;
        Ok(delta)
    }
}

proof fn lemma_effect_total(s: Seq<Utxo>, balance: int, tx: Tx, ws: Seq<Vec<u8>>)
    ensures
        tx_effect(s, balance, tx, ws) matches Some(e) ==> total(e.0) == total(s) + e.1,
{
    lemma_inputs_total(s, tx.inputs@);
    if let Some(a) = after_inputs(s, tx.inputs@) {
        lemma_outputs_total(a.0, a.1, tx.txid, tx.outputs@, ws);
    }
}

/// After replaying any sequence of transactions from an empty working set,
/// the running balance equals the sum of the amounts still unspent.
pub proof fn lemma_running_balance_is_unspent_sum(txs: Seq<Tx>, ws: Seq<Vec<u8>>)
    ensures
        replay_state(txs, ws) matches Some(st) ==> st.1 == total(st.0),
    decreases txs.len(),
{
    if txs.len() > 0 {
        lemma_running_balance_is_unspent_sum(txs.drop_last(), ws);
        if let Some(st) = replay_state(txs.drop_last(), ws) {
            lemma_effect_total(st.0, st.1, txs.last(), ws);
        }
    } else {
        assert(total(Seq::<Utxo>::empty()) == 0);
    }
}

proof fn lemma_replay_stays_none(txs: Seq<Tx>, ws: Seq<Vec<u8>>, k: int)
    requires
        0 <= k <= txs.len(),
        replay_state(txs.take(k), ws) is None,
    ensures
        replay_state(txs, ws) is None,
    decreases txs.len() - k,
{
    if k < txs.len() {
        assert(txs.take(k + 1).drop_last() =~= txs.take(k));
        lemma_replay_stays_none(txs, ws, k + 1);
    } else {
        assert(txs.take(k) =~= txs);
    }
}

/// The running balance after the first `k` transactions (zero before any).
pub open spec fn balance_after(txs: Seq<Tx>, ws: Seq<Vec<u8>>, k: int) -> int {
    match replay_state(txs.take(k), ws) {
        Some(st) => st.1,
        None => 0,
    }
}

/// Rows in the chronological order of their locations, strictly ascending by
/// (height, offset).
pub open spec fn rows_ascending(rows: Seq<ReplayRow>) -> bool {
    forall|i: int, j: int|
        0 <= i < j < rows.len() ==> (rows[i].height < rows[j].height || (rows[i].height
            == rows[j].height && rows[i].offset < rows[j].offset))
}

/// Replays the transactions at `locs`, oldest first, and returns one row per
/// transaction with its delta and the running balance after it.
pub fn replay(locs: &Vec<Location>, txs: &Vec<Tx>, watched: &Vec<Vec<u8>>) -> (r: Result<
    Vec<ReplayRow>,
    LedgerError,
>)
    requires
        locs@.len() == txs@.len(),
    ensures
        r is Ok <==> replay_state(txs@, watched@) is Some,
        r is Err ==> r == Err::<Vec<ReplayRow>, LedgerError>(LedgerError::Overflow),
        r matches Ok(rows) ==> {
            &&& rows@.len() == txs@.len()
            &&& forall|k: int|
                0 <= k < rows@.len() ==> {
                    &&& (#[trigger] rows@[k]).txid == txs@[k].txid
                    &&& rows@[k].height == locs@[k].height
                    &&& rows@[k].offset == locs@[k].offset
                    &&& rows@[k].time == locs@[k].indexed_header.time
                    &&& rows@[k].balance == balance_after(txs@, watched@, k + 1)
                    &&& rows@[k].delta == balance_after(txs@, watched@, k + 1) - balance_after(
                        txs@,
                        watched@,
                        k,
                    )
                }
            &&& ascending(locs@) ==> rows_ascending(rows@)
        },
{
    let mut ledger = Ledger::new();
    let mut rows: Vec<ReplayRow> = Vec::new();
    let mut k: usize = 0;
    assert(txs@.take(0) =~= Seq::<Tx>::empty());
    while k < txs.len()
        invariant
            k <= txs@.len(),
            locs@.len() == txs@.len(),
            ledger.wf(),
            replay_state(txs@.take(k as int), watched@) == Some(ledger@),
            rows@.len() == k,
            forall|j: int|
                0 <= j < k ==> {
                    &&& (#[trigger] rows@[j]).txid == txs@[j].txid
                    &&& rows@[j].height == locs@[j].height
                    &&& rows@[j].offset == locs@[j].offset
                    &&& rows@[j].time == locs@[j].indexed_header.time
                    &&& rows@[j].balance == balance_after(txs@, watched@, j + 1)
                    &&& rows@[j].delta == balance_after(txs@, watched@, j + 1) - balance_after(
                        txs@,
                        watched@,
                        j,
                    )
                },
        decreases txs@.len() - k,
    {
        let ghost before = ledger@;
        assert(txs@.take(k + 1).drop_last() =~= txs@.take(k as int));
        assert(txs@.take(k + 1).last() == txs@[k as int]);
        let delta = match ledger.apply(&txs[k], watched) {
            Ok(d) => d,
            Err(e) => {
                proof {
                    lemma_replay_stays_none(txs@, watched@, k + 1);
                }
                return Err(e);
            },
        };
        let loc = &locs[k];
        rows.push(
            ReplayRow {
                txid: txs[k].txid,
                time: loc.indexed_header.time,
                height: loc.height,
                offset: loc.offset,
                delta,
                balance: ledger.balance(),
            },
        );
        k = k + 1;
    }
    assert(txs@.take(k as int) =~= txs@);
    proof {
        if ascending(locs@) {
            assert forall|i: int, j: int| 0 <= i < j < rows@.len() implies (rows@[i].height
                < rows@[j].height || (rows@[i].height == rows@[j].height && rows@[i].offset
                < rows@[j].offset)) by {
                assert(rows@[i].height == locs@[i].height);
                assert(rows@[j].height == locs@[j].height);
            }
        }
    }
    Ok(rows)
}

/// Newest-first presentation of the oldest-first `rows`, cut to `limit`
/// rows; the flag tells whether any row was cut.
pub fn display_order(rows: &Vec<ReplayRow>, limit: usize) -> (r: (Vec<ReplayRow>, bool))
    ensures
        r.1 == (rows@.len() > limit),
        r.0@.len() == if rows@.len() > limit {
            limit as int
        } else {
            rows@.len() as int
        },
        forall|i: int| 0 <= i < r.0@.len() ==> #[trigger] r.0@[i] == rows@[rows@.len() - 1 - i],
{
    let n = rows.len();
    let count = if n > limit {
        limit
    } else {
        n
    };
    let mut out: Vec<ReplayRow> = Vec::new();
    let mut i: usize = 0;
    while i < count
        invariant
            n == rows@.len(),
            count <= n,
            i <= count,
            out@.len() == i,
            forall|j: int| 0 <= j < i ==> #[trigger] out@[j] == rows@[n - 1 - j],
        decreases count - i,
    {
        out.push(rows[n - 1 - i]);
        i = i + 1;
    }
    (out, n > limit)
}

} // verus!
