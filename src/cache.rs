use vstd::prelude::*;

use bitcoin::hashes::Hash as _;
use bitcoin_slices::Parse as _;
use vstd::pervasive::VecAdditionalExecFns;

use crate::chain::Location;
use crate::hash::{bytes_eq, Hash32};

verus! {

/// One history row: a watched script seen in a transaction of a block.
#[derive(Clone, Debug)]
pub struct HistoryRow {
    pub script: Vec<u8>,
    pub block_hash: Hash32,
    pub block_offset: u64,
    pub block_height: usize,
}

/// One transaction cache row; id and bytes are filled once, after a fetch.
#[derive(Clone, Debug)]
pub struct TxCacheRow {
    pub block_hash: Hash32,
    pub block_offset: u64,
    pub tx_id: Option<Hash32>,
    pub tx_bytes: Option<Vec<u8>>,
}

/// Why a cache fill was refused.
#[derive(Clone, Copy, Debug, PartialEq, Eq, Structural)]
pub enum CacheError {
    /// The fetched bytes do not parse as a transaction.
    Parse,
}

pub type HistoryKey = (Seq<u8>, Seq<u8>, u64);

pub type TxKey = (Seq<u8>, u64);

pub open spec fn history_key(r: HistoryRow) -> HistoryKey {
    (r.script@, r.block_hash@, r.block_offset)
}

pub open spec fn tx_key(r: TxCacheRow) -> TxKey {
    (r.block_hash@, r.block_offset)
}

pub open spec fn loc_tx_key(loc: Location) -> TxKey {
    (loc.indexed_header.hash@, loc.offset)
}

pub open spec fn has_history(s: Seq<HistoryRow>, k: HistoryKey) -> bool {
    exists|j: int| 0 <= j < s.len() && history_key(#[trigger] s[j]) == k
}

pub open spec fn has_tx(t: Seq<TxCacheRow>, k: TxKey) -> bool {
    exists|j: int| 0 <= j < t.len() && tx_key(#[trigger] t[j]) == k
}

/// The history table after inserting `rows` in order, each ignored where its
/// key is already present.
pub open spec fn after_history(s: Seq<HistoryRow>, rows: Seq<HistoryRow>) -> Seq<HistoryRow>
    decreases rows.len(),
{
    if rows.len() == 0 {
        s
    } else {
        let prev = after_history(s, rows.drop_last());
        if has_history(prev, history_key(rows.last())) {
            prev
        } else {
            prev.push(rows.last())
        }
    }
}

/// An empty placeholder row for a location.
pub open spec fn placeholder(loc: Location) -> TxCacheRow {
    TxCacheRow {
        block_hash: loc.indexed_header.hash,
        block_offset: loc.offset,
        tx_id: None,
        tx_bytes: None,
    }
}

/// The cache table after inserting a placeholder for each of `locs` in order,
/// each ignored where its key is already present.
pub open spec fn after_placeholders(t: Seq<TxCacheRow>, locs: Seq<Location>) -> Seq<TxCacheRow>
    decreases locs.len(),
{
    if locs.len() == 0 {
        t
    } else {
        let prev = after_placeholders(t, locs.drop_last());
        if has_tx(prev, loc_tx_key(locs.last())) {
            prev
        } else {
            prev.push(placeholder(locs.last()))
        }
    }
}

/// The locations among `locs` whose placeholder was new, in order: those
/// whose bytes must be fetched.
pub open spec fn claimed(t: Seq<TxCacheRow>, locs: Seq<Location>) -> Seq<Location>
    decreases locs.len(),
{
    if locs.len() == 0 {
        Seq::empty()
    } else {
        let prev = claimed(t, locs.drop_last());
        if has_tx(after_placeholders(t, locs.drop_last()), loc_tx_key(locs.last())) {
            prev
        } else {
            prev.push(locs.last())
        }
    }
}

/// The cache row after filling: set where it matches `k` and holds no bytes yet.
pub open spec fn filled(r: TxCacheRow, k: TxKey, id: Hash32, bytes: Vec<u8>) -> TxCacheRow {
    if tx_key(r) == k && r.tx_bytes is None {
        TxCacheRow { tx_id: Some(id), tx_bytes: Some(bytes), ..r }
    } else {
        r
    }
}

pub open spec fn history_unique(s: Seq<HistoryRow>) -> bool {
    forall|i: int, j: int|
        0 <= i < j < s.len() ==> history_key(#[trigger] s[i]) != history_key(#[trigger] s[j])
}

pub open spec fn tx_unique(t: Seq<TxCacheRow>) -> bool {
    forall|i: int, j: int| 0 <= i < j < t.len() ==> tx_key(#[trigger] t[i]) != tx_key(#[trigger] t[j])
}

proof fn lemma_history_one(s: Seq<HistoryRow>, row: HistoryRow)
    ensures
        after_history(s, seq![row]) == if has_history(s, history_key(row)) {
            s
        } else {
            s.push(row)
        },
{
    let one = seq![row];
    assert(one.len() == 1);
    assert(one.drop_last() =~= Seq::<HistoryRow>::empty());
    assert(one.last() == row);
    assert(after_history(s, one.drop_last()) == s);
}

proof fn lemma_placeholder_one(t: Seq<TxCacheRow>, loc: Location)
    ensures
        after_placeholders(t, seq![loc]) == if has_tx(t, loc_tx_key(loc)) {
            t
        } else {
            t.push(placeholder(loc))
        },
{
    let one = seq![loc];
    assert(one.len() == 1);
    assert(one.drop_last() =~= Seq::<Location>::empty());
    assert(one.last() == loc);
    assert(after_placeholders(t, one.drop_last()) == t);
}

proof fn lemma_history_grows(s: Seq<HistoryRow>, rows: Seq<HistoryRow>)
    ensures
        after_history(s, rows).len() >= s.len(),
        forall|j: int| 0 <= j < s.len() ==> #[trigger] after_history(s, rows)[j] == s[j],
        forall|i: int|
            0 <= i < rows.len() ==> has_history(after_history(s, rows), history_key(#[trigger] rows[i])),
    decreases rows.len(),
{
    if rows.len() > 0 {
        let prev = after_history(s, rows.drop_last());
        lemma_history_grows(s, rows.drop_last());
        let cur = after_history(s, rows);
        assert forall|i: int| 0 <= i < rows.len() implies has_history(
            cur,
            history_key(#[trigger] rows[i]),
        ) by {
            if i < rows.len() - 1 {
                assert(rows.drop_last()[i] == rows[i]);
                let j = choose|j: int| 0 <= j < prev.len() && history_key(#[trigger] prev[j]) == history_key(rows[i]);
                assert(cur[j] == prev[j]);
            } else if !has_history(prev, history_key(rows.last())) {
                assert(cur[prev.len() as int] == rows.last());
            }
        }
    }
}

proof fn lemma_history_settled(s: Seq<HistoryRow>, rows: Seq<HistoryRow>)
    requires
        forall|i: int| 0 <= i < rows.len() ==> has_history(s, history_key(#[trigger] rows[i])),
    ensures
        after_history(s, rows) == s,
    decreases rows.len(),
{
    if rows.len() > 0 {
        assert forall|i: int| 0 <= i < rows.drop_last().len() implies has_history(
            s,
            history_key(#[trigger] rows.drop_last()[i]),
        ) by {
            assert(rows.drop_last()[i] == rows[i]);
        }
        lemma_history_settled(s, rows.drop_last());
        assert(has_history(s, history_key(rows[rows.len() - 1])));
    }
}

proof fn lemma_placeholders_grow(t: Seq<TxCacheRow>, locs: Seq<Location>)
    ensures
        after_placeholders(t, locs).len() >= t.len(),
        forall|j: int| 0 <= j < t.len() ==> #[trigger] after_placeholders(t, locs)[j] == t[j],
        forall|i: int|
            0 <= i < locs.len() ==> has_tx(after_placeholders(t, locs), loc_tx_key(#[trigger] locs[i])),
    decreases locs.len(),
{
    if locs.len() > 0 {
        let prev = after_placeholders(t, locs.drop_last());
        lemma_placeholders_grow(t, locs.drop_last());
        let cur = after_placeholders(t, locs);
        assert forall|i: int| 0 <= i < locs.len() implies has_tx(
            cur,
            loc_tx_key(#[trigger] locs[i]),
        ) by {
            if i < locs.len() - 1 {
                assert(locs.drop_last()[i] == locs[i]);
                let j = choose|j: int| 0 <= j < prev.len() && tx_key(#[trigger] prev[j]) == loc_tx_key(locs[i]);
                assert(cur[j] == prev[j]);
            } else if !has_tx(prev, loc_tx_key(locs.last())) {
                assert(cur[prev.len() as int] == placeholder(locs.last()));
            }
        }
    }
}

proof fn lemma_placeholders_settled(t: Seq<TxCacheRow>, locs: Seq<Location>)
    requires
        forall|i: int| 0 <= i < locs.len() ==> has_tx(t, loc_tx_key(#[trigger] locs[i])),
    ensures
        after_placeholders(t, locs) == t,
        claimed(t, locs).len() == 0,
    decreases locs.len(),
{
    if locs.len() > 0 {
        assert forall|i: int| 0 <= i < locs.drop_last().len() implies has_tx(
            t,
            loc_tx_key(#[trigger] locs.drop_last()[i]),
        ) by {
            assert(locs.drop_last()[i] == locs[i]);
        }
        lemma_placeholders_settled(t, locs.drop_last());
        assert(has_tx(t, loc_tx_key(locs[locs.len() - 1])));
    }
}

/// Running a cache pass a second time on the same input adds no history row,
/// no cache row and claims no location for fetching; rows already present
/// are kept as they were, and filling never replaces bytes already stored.
pub proof fn lemma_second_pass_adds_nothing(
    s: Seq<HistoryRow>,
    t: Seq<TxCacheRow>,
    rows: Seq<HistoryRow>,
    locs: Seq<Location>,
)
    ensures
        after_history(after_history(s, rows), rows) == after_history(s, rows),
        after_placeholders(after_placeholders(t, locs), locs) == after_placeholders(t, locs),
        claimed(after_placeholders(t, locs), locs).len() == 0,
        forall|j: int| 0 <= j < t.len() ==> #[trigger] after_placeholders(t, locs)[j] == t[j],
        forall|r: TxCacheRow, k: TxKey, id: Hash32, b: Vec<u8>|
            r.tx_bytes is Some ==> #[trigger] filled(r, k, id, b) == r,
{
    lemma_history_grows(s, rows);
    lemma_history_settled(after_history(s, rows), rows);
    lemma_placeholders_grow(t, locs);
    lemma_placeholders_settled(after_placeholders(t, locs), locs);
}

/// A name for the transaction id that bitcoin_slices computes from bytes.
pub uninterp spec fn sliced_txid(b: Seq<u8>) -> Option<Seq<u8>>;

/// Relies on bitcoin_slices::bsl::Transaction::parse and its txid: the
/// result depends on the bytes alone.
#[verifier::external_body]
fn slices_txid(b: &[u8]) -> (r: Option<Hash32>)
    ensures
        r is Some <==> sliced_txid(b@) is Some,
        r matches Some(h) ==> sliced_txid(b@) == Some(h@),
{
    let parsed = bitcoin_slices::bsl::Transaction::parse(b).ok()?;
    Some(Hash32 { bytes: parsed.parsed_owned().txid().to_byte_array() })
}

/// The id of the transaction in `bytes`, as stored in the cache.
pub fn cache_txid(bytes: &[u8]) -> (r: Result<Hash32, CacheError>)
    ensures
        r is Ok <==> sliced_txid(bytes@) is Some,
        r matches Ok(h) ==> sliced_txid(bytes@) == Some(h@),
        r is Err ==> r == Err::<Hash32, CacheError>(CacheError::Parse),
{
    match slices_txid(bytes) {
        Some(h) => Ok(h),
        None => Err(CacheError::Parse),
    }
}

/// The history rows of one watched script: one per location, in order.
pub fn history_rows(script: &Vec<u8>, locs: &Vec<Location>) -> (r: Vec<HistoryRow>)
    ensures
        r@.len() == locs@.len(),
        forall|k: int|
            0 <= k < r@.len() ==> {
                &&& (#[trigger] r@[k]).script@ == script@
                &&& r@[k].block_hash == locs@[k].indexed_header.hash
                &&& r@[k].block_offset == locs@[k].offset
                &&& r@[k].block_height == locs@[k].height
            },
{
    let mut r: Vec<HistoryRow> = Vec::new();
    let mut k: usize = 0;
    while k < locs.len()
        invariant
            k <= locs@.len(),
            r@.len() == k,
            forall|j: int|
                0 <= j < k ==> {
                    &&& (#[trigger] r@[j]).script@ == script@
                    &&& r@[j].block_hash == locs@[j].indexed_header.hash
                    &&& r@[j].block_offset == locs@[j].offset
                    &&& r@[j].block_height == locs@[j].height
                },
        decreases locs@.len() - k,
    {
        let loc = &locs[k];
        r.push(
            HistoryRow {
                script: script.clone(),
                block_hash: loc.indexed_header.hash,
                block_offset: loc.offset,
                block_height: loc.height,
            },
        );
        k = k + 1;
    }
    r
}

/// Whether a placeholder insert that reports `inserted` new rows calls for
/// fetching the transaction's bytes: only on first sight.
pub fn needs_fetch(inserted: usize) -> (r: bool)
    ensures
        r == (inserted > 0),
{
    inserted > 0
}

/// The two cache tables kept in memory, with insert-or-ignore semantics and
/// unique keys.
pub struct CacheTables {
    history: Vec<HistoryRow>,
    txcache: Vec<TxCacheRow>,
}

impl View for CacheTables {
    type V = (Seq<HistoryRow>, Seq<TxCacheRow>);

    closed spec fn view(&self) -> (Seq<HistoryRow>, Seq<TxCacheRow>) {
        (self.history@, self.txcache@)
    }
}

impl CacheTables {
    pub open spec fn wf(&self) -> bool {
        history_unique(self@.0) && tx_unique(self@.1)
    }

    /// Two empty tables.
    pub fn new() -> (r: CacheTables)
        ensures
            r.wf(),
            r@.0.len() == 0,
            r@.1.len() == 0,
    {
        CacheTables { history: Vec::new(), txcache: Vec::new() }
    }

    /// The number of history rows.
    pub fn history_len(&self) -> (r: usize)
        ensures
            r == self@.0.len(),
    {
        self.history.len()
    }

    /// The number of cache rows.
    pub fn txcache_len(&self) -> (r: usize)
        ensures
            r == self@.1.len(),
    {
        self.txcache.len()
    }

    /// The cached bytes at `(block_hash, block_offset)`, if filled.
    pub fn cached_bytes(&self, block_hash: &Hash32, block_offset: u64) -> (r: Option<&Vec<u8>>)
        ensures
            r matches Some(b) ==> exists|j: int|
                0 <= j < self@.1.len() && tx_key(#[trigger] self@.1[j]) == (block_hash@, block_offset)
                    && self@.1[j].tx_bytes == Some(*b),
            r is None ==> forall|j: int|
                0 <= j < self@.1.len() && tx_key(#[trigger] self@.1[j]) == (block_hash@, block_offset)
                    ==> self@.1[j].tx_bytes is None,
    {
        let mut j: usize = 0;
        while j < self.txcache.len()
            invariant
                j <= self@.1.len(),
                forall|i: int|
                    0 <= i < j && tx_key(#[trigger] self@.1[i]) == (block_hash@, block_offset)
                        ==> self@.1[i].tx_bytes is None,
            decreases self@.1.len() - j,
        {
            let row = &self.txcache[j];
            if row.block_offset == block_offset && row.block_hash.same_as(block_hash) {
                match &row.tx_bytes {
                    Some(b) => {
                        return Some(b);
                    },
                    None => {},
                }
            }
            j = j + 1;
        }
        None
    }

    /// Inserts a history row unless its key is present; returns the number of
    /// rows added (0 or 1).
    pub fn insert_history(&mut self, row: HistoryRow) -> (r: usize)
        requires
            old(self).wf(),
        ensures
            final(self).wf(),
            final(self)@.1 == old(self)@.1,
            final(self)@.0 == after_history(old(self)@.0, seq![row]),
            r == final(self)@.0.len() - old(self)@.0.len(),
    {
        proof {
            lemma_history_one(old(self)@.0, row);
        }
        let mut j: usize = 0;
        while j < self.history.len()
            invariant
                j <= self@.0.len(),
                self@ == old(self)@,
                old(self).wf(),
                forall|i: int| 0 <= i < j ==> history_key(#[trigger] self@.0[i]) != history_key(row),
            decreases self@.0.len() - j,
        {
            let h = &self.history[j];
            if h.block_offset == row.block_offset && h.block_hash.same_as(&row.block_hash)
                && bytes_eq(h.script.as_slice(), row.script.as_slice()) {
                assert(history_key(self@.0[j as int]) == history_key(row));
                assert(has_history(old(self)@.0, history_key(row)));
                proof {
                    lemma_history_one(old(self)@.0, row);
                }
                assert(after_history(old(self)@.0, seq![row]) == old(self)@.0);
                return 0;
            }
            j = j + 1;
        }
        let ghost before = self@.0;
        self.history.push(row);
        proof {
            assert forall|a: int, b: int| 0 <= a < b < self@.0.len() implies history_key(
                #[trigger] self@.0[a],
            ) != history_key(#[trigger] self@.0[b]) by {
                assert(self@.0[a] == before[a]);
                if b < before.len() {
                    assert(self@.0[b] == before[b]);
                }
            }
        }
        1
    }

    /// Inserts an empty cache row for `loc` unless its key is present;
    /// returns the number of rows added (0 or 1).
    pub fn insert_placeholder(&mut self, loc: &Location) -> (r: usize)
        requires
            old(self).wf(),
        ensures
            final(self).wf(),
            final(self)@.0 == old(self)@.0,
            final(self)@.1 == after_placeholders(old(self)@.1, seq![*loc]),
            r == final(self)@.1.len() - old(self)@.1.len(),
    {
        proof {
            lemma_placeholder_one(old(self)@.1, *loc);
        }
        let hash = loc.indexed_header.hash;
        let mut j: usize = 0;
        while j < self.txcache.len()
            invariant
                j <= self@.1.len(),
                self@ == old(self)@,
                old(self).wf(),
                hash == loc.indexed_header.hash,
                forall|i: int| 0 <= i < j ==> tx_key(#[trigger] self@.1[i]) != loc_tx_key(*loc),
            decreases self@.1.len() - j,
        {
            let t = &self.txcache[j];
            if t.block_offset == loc.offset && t.block_hash.same_as(&hash) {
                assert(tx_key(self@.1[j as int]) == loc_tx_key(*loc));
                assert(has_tx(old(self)@.1, loc_tx_key(*loc)));
                proof {
                    lemma_placeholder_one(old(self)@.1, *loc);
                }
                assert(after_placeholders(old(self)@.1, seq![*loc]) == old(self)@.1);
                return 0;
            }
            j = j + 1;
        }
        let ghost before = self@.1;
        self.txcache.push(TxCacheRow { block_hash: hash, block_offset: loc.offset, tx_id: None, tx_bytes: None });
        proof {
            assert(self@.1 == before.push(placeholder(*loc)));
            assert forall|a: int, b: int| 0 <= a < b < self@.1.len() implies tx_key(
                #[trigger] self@.1[a],
            ) != tx_key(#[trigger] self@.1[b]) by {
                assert(self@.1[a] == before[a]);
                if b < before.len() {
                    assert(self@.1[b] == before[b]);
                }
            }
        }
        1
    }

    /// Inserts the history rows in order, each ignored where its key is
    /// present; returns the number of rows added.
    pub fn sync_history(&mut self, rows: Vec<HistoryRow>) -> (r: usize)
        requires
            old(self).wf(),
        ensures
            final(self).wf(),
            final(self)@.1 == old(self)@.1,
            final(self)@.0 == after_history(old(self)@.0, rows@),
            r == final(self)@.0.len() - old(self)@.0.len(),
    {
        let ghost all = rows@;
        let mut rows = rows;
        let start = self.history.len();
        let ghost mut k: int = 0;
        assert(all.take(0) =~= Seq::<HistoryRow>::empty());
        assert(all.skip(0) =~= all);
        while rows.len() > 0
            invariant
                self.wf(),
                self@.1 == old(self)@.1,
                0 <= k <= all.len(),
                rows@ == all.skip(k),
                self@.0 == after_history(old(self)@.0, all.take(k)),
                start == old(self)@.0.len(),
                self@.0.len() >= old(self)@.0.len(),
            decreases rows@.len(),
        {
            let row = rows.remove(0);
            assert(row == all[k]);
            assert(all.take(k + 1).drop_last() =~= all.take(k));
            assert(all.skip(k + 1) =~= all.skip(k).drop_first());
            proof {
                lemma_history_one(self@.0, row);
            }
            self.insert_history(row);
            proof {
                k = k + 1;
            }
        }
        assert(all.take(k) =~= all);
        self.history.len() - start
    }

    /// Inserts a placeholder for each location in order, each ignored where
    /// its key is present; returns the locations whose placeholder was new,
    /// which are the only ones whose bytes must be fetched.
    pub fn claim(&mut self, locs: &Vec<Location>) -> (r: Vec<Location>)
        requires
            old(self).wf(),
        ensures
            final(self).wf(),
            final(self)@.0 == old(self)@.0,
            final(self)@.1 == after_placeholders(old(self)@.1, locs@),
            r@ == claimed(old(self)@.1, locs@),
    {
        let mut r: Vec<Location> = Vec::new();
        let mut k: usize = 0;
        assert(locs@.take(0) =~= Seq::<Location>::empty());
        while k < locs.len()
            invariant
                self.wf(),
                self@.0 == old(self)@.0,
                k <= locs@.len(),
                self@.1 == after_placeholders(old(self)@.1, locs@.take(k as int)),
                r@ == claimed(old(self)@.1, locs@.take(k as int)),
            decreases locs@.len() - k,
        {
            let loc = &locs[k];
            let ghost cur = self@.1;
            assert(locs@.take(k + 1).drop_last() =~= locs@.take(k as int));
            assert(locs@.take(k + 1).last() == *loc);
            proof {
                lemma_placeholder_one(cur, *loc);
            }
            let n = self.insert_placeholder(loc);
            if needs_fetch(n) {
                r.push(*loc);
            }
            k = k + 1;
        }
        assert(locs@.take(k as int) =~= locs@);
        r
    }

    /// Stores the id and bytes of the transaction at `(block_hash,
    /// block_offset)` where its row holds no bytes yet; bytes already present
    /// are never overwritten. Returns the number of rows changed.
    pub fn fill(&mut self, block_hash: &Hash32, block_offset: u64, tx_id: Hash32, tx_bytes: Vec<u8>) -> (r: usize)
        requires
            old(self).wf(),
        ensures
            final(self).wf(),
            final(self)@.0 == old(self)@.0,
            final(self)@.1.len() == old(self)@.1.len(),
            forall|j: int|
                0 <= j < old(self)@.1.len() ==> #[trigger] final(self)@.1[j] == filled(
                    old(self)@.1[j],
                    (block_hash@, block_offset),
                    tx_id,
                    tx_bytes,
                ),
            r <= 1,
    {
        let ghost k: TxKey = (block_hash.bytes@, block_offset);
        let mut j: usize = 0;
        while j < self.txcache.len()
            invariant
                j <= self@.1.len(),
                self@ == old(self)@,
                old(self).wf(),
                k == (block_hash@, block_offset),
                forall|i: int| 0 <= i < j ==> tx_key(#[trigger] self@.1[i]) != k,
            decreases self@.1.len() - j,
        {
            let t = &self.txcache[j];
            if t.block_offset == block_offset && t.block_hash.same_as(block_hash) {
                let ghost before = self@.1;
                assert(tx_key(before[j as int]) == k);
                if t.tx_bytes.is_some() {
                    assert(before[j as int].tx_bytes is Some);
                    assert(filled(before[j as int], k, tx_id, tx_bytes) == before[j as int]);
                    assert forall|i: int| 0 <= i < before.len() implies #[trigger] before[i] == filled(
                        before[i],
                        k,
                        tx_id,
                        tx_bytes,
                    ) by {
                        if i != j {
                            if i < j {
                                assert(tx_key(before[i]) != tx_key(before[j as int]));
                            } else {
                                assert(tx_key(before[j as int]) != tx_key(before[i]));
                            }
                        }
                    }
                    return 0;
                }
                let row = TxCacheRow {
                    block_hash: t.block_hash,
                    block_offset: t.block_offset,
                    tx_id: Some(tx_id),
                    tx_bytes: Some(tx_bytes),
                };
                self.txcache.set(j, row);
                proof {
                    assert forall|i: int| 0 <= i < before.len() implies #[trigger] self@.1[i] == filled(
                        before[i],
                        k,
                        tx_id,
                        tx_bytes,
                    ) by {
                        if i != j {
                            if i < j {
                                assert(tx_key(before[i]) != tx_key(before[j as int]));
                            } else {
                                assert(tx_key(before[j as int]) != tx_key(before[i]));
                            }
                        }
                    }
                    assert forall|a: int, b: int| 0 <= a < b < self@.1.len() implies tx_key(
                        #[trigger] self@.1[a],
                    ) != tx_key(#[trigger] self@.1[b]) by {
                        assert(tx_key(self@.1[a]) == tx_key(before[a]));
                        assert(tx_key(self@.1[b]) == tx_key(before[b]));
                    }
                }
                return 1;
            }
            j = j + 1;
        }
        assert forall|i: int| 0 <= i < self@.1.len() implies #[trigger] self@.1[i] == filled(
            self@.1[i],
            k,
            tx_id,
            tx_bytes,
        ) by {}
        0
    }
}

} // verus!
