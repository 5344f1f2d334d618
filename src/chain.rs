use vstd::prelude::*;

use crate::hash::{zero_hash, Hash32};

verus! {

/// A global transaction position: the number of transactions before it in
/// the whole chain.
#[derive(Clone, Copy, Debug, PartialEq, Eq, Structural)]
pub struct TxPos {
    pub value: u64,
}

impl TxPos {
    /// The position of the very first transaction.
    pub fn zero() -> (r: TxPos)
        ensures
            r.value == 0,
    {
        TxPos { value: 0 }
    }

    /// The distance from `prev` up to `self`, if `prev` does not lie after it.
    pub fn offset_from(&self, prev: TxPos) -> (r: Option<u64>)
        ensures
            r == (if prev.value <= self.value {
                Some((self.value - prev.value) as u64)
            } else {
                None::<u64>
            }),
    {
        if prev.value <= self.value {
            Some(self.value - prev.value)
        } else {
            None
        }
    }
}

/// The metadata of one connected block.
#[derive(Clone, Copy, Debug)]
pub struct Header {
    pub hash: Hash32,
    pub prev_hash: Hash32,
    /// Block time, in seconds since the Unix epoch.
    pub time: u32,
    /// The position just past this block's last transaction.
    pub next_txpos: TxPos,
}

/// One transaction, resolved to its block and its offset inside it.
#[derive(Clone, Copy, Debug)]
pub struct Location {
    pub height: usize,
    pub offset: u64,
    pub indexed_header: Header,
}

/// Why a chain operation was refused.
#[derive(Clone, Copy, Debug, PartialEq, Eq, Structural)]
pub enum ChainError {
    /// The header's parent is not the current tip.
    BrokenLink,
    /// The header ends before the current tip does.
    PositionOutOfOrder,
}

/// The hash a header at `i` must name as its parent.
pub open spec fn parent_at(rows: Seq<Header>, i: int) -> Seq<u8> {
    if i == 0 {
        zero_hash()
    } else {
        rows[i - 1].hash@
    }
}

/// The position where block `i` starts.
pub open spec fn start_at(rows: Seq<Header>, i: int) -> int {
    if i == 0 {
        0
    } else {
        rows[i - 1].next_txpos.value as int
    }
}

/// Each header names its predecessor's hash as parent (the zero hash for the first).
pub open spec fn linked(rows: Seq<Header>) -> bool {
    forall|i: int| 0 <= i < rows.len() ==> #[trigger] rows[i].prev_hash@ == parent_at(rows, i)
}

/// End positions never decrease along the chain.
pub open spec fn ordered(rows: Seq<Header>) -> bool {
    forall|i: int, j: int|
        0 <= i <= j < rows.len() ==> rows[i].next_txpos.value <= rows[j].next_txpos.value
}

pub open spec fn chain_ok(rows: Seq<Header>) -> bool {
    linked(rows) && ordered(rows)
}

/// The hash the next header must name as its parent.
pub open spec fn tip_parent(rows: Seq<Header>) -> Seq<u8> {
    parent_at(rows, rows.len() as int)
}

/// The position just past the last block.
pub open spec fn end_of(rows: Seq<Header>) -> int {
    start_at(rows, rows.len() as int)
}

/// Whether `h` may be appended to `rows`.
pub open spec fn accepts(rows: Seq<Header>, h: Header) -> bool {
    h.prev_hash@ == tip_parent(rows) && end_of(rows) <= h.next_txpos.value
}

/// The height of the block holding position `p`: the first whose end lies past `p`.
pub open spec fn holds(rows: Seq<Header>, height: int, p: int) -> bool {
    0 <= height < rows.len() && start_at(rows, height) <= p < rows[height].next_txpos.value
}

/// An ordered, hash-linked sequence of block headers; its last one is the tip.
pub struct Chain {
    rows: Vec<Header>,
}

impl View for Chain {
    type V = Seq<Header>;

    closed spec fn view(&self) -> Seq<Header> {
        self.rows@
    }
}

impl Chain {
    pub open spec fn wf(&self) -> bool {
        chain_ok(self@)
    }

    /// Builds a chain from stored headers, checking the hash links and positions.
    pub fn new(rows: Vec<Header>) -> (r: Result<Chain, ChainError>)
        ensures
            r is Ok <==> chain_ok(rows@),
            r matches Ok(c) ==> c@ == rows@,
    {
        let mut c = Chain { rows: Vec::new() };
        let mut i: usize = 0;
        while i < rows.len()
            invariant
                i <= rows@.len(),
                c@ == rows@.take(i as int),
                chain_ok(c@),
            decreases rows@.len() - i,
        {
            let h = rows[i];
            let added = c.add(h);
            if added.is_err() {
                proof {
                    if chain_ok(rows@) {
                        assert(rows@[i as int].prev_hash@ == parent_at(rows@, i as int));
                        if i > 0 {
                            assert(rows@[i - 1].next_txpos.value <= rows@[i as int].next_txpos.value);
                        }
                    }
                }
                return Err(added.unwrap_err());
            }
            assert(rows@.take(i as int).push(h) =~= rows@.take(i + 1));
            i = i + 1;
        }
        assert(rows@.take(i as int) =~= rows@);
        Ok(c)
    }

    /// The hash of the tip, if any block is connected.
    pub fn tip_hash(&self) -> (r: Option<Hash32>)
        ensures
            r is Some <==> self@.len() > 0,
            r matches Some(h) ==> h == self@.last().hash,
    {
        if self.rows.len() == 0 {
            None
        } else {
            Some(self.rows[self.rows.len() - 1].hash)
        }
    }

    /// The height of the tip, if any block is connected.
    pub fn tip_height(&self) -> (r: Option<usize>)
        ensures
            r == (if self@.len() == 0 {
                None::<usize>
            } else {
                Some((self@.len() - 1) as usize)
            }),
    {
        if self.rows.len() == 0 {
            None
        } else {
            Some(self.rows.len() - 1)
        }
    }

    /// The position just past the tip's last transaction.
    pub fn next_txpos(&self) -> (r: TxPos)
        ensures
            r.value == end_of(self@),
    {
        if self.rows.len() == 0 {
            TxPos::zero()
        } else {
            self.rows[self.rows.len() - 1].next_txpos
        }
    }

    /// Appends `row` as the new tip, if it names the current tip as its parent
    /// and does not end before it.
    pub fn add(&mut self, row: Header) -> (r: Result<(), ChainError>)
        requires
            old(self).wf(),
        ensures
            final(self).wf(),
            r is Ok <==> accepts(old(self)@, row),
            r is Ok ==> final(self)@ == old(self)@.push(row),
            r is Err ==> final(self)@ == old(self)@,
            r == Err::<(), ChainError>(ChainError::BrokenLink) <==> row.prev_hash@ != tip_parent(
                old(self)@,
            ),
    {
        let parent = match self.tip_hash() {
            Some(h) => h,
            None => Hash32::zero(),
        };
        if !row.prev_hash.same_as(&parent) {
            return Err(ChainError::BrokenLink);
        }
        let end = self.next_txpos();
        if row.next_txpos.value < end.value {
            return Err(ChainError::PositionOutOfOrder);
        }
        let ghost before = self@;
        self.rows.push(row);
        proof {
            let rows = self@;
            assert(rows =~= before.push(row));
            assert forall|i: int| 0 <= i < rows.len() implies #[trigger] rows[i].prev_hash@
                == parent_at(rows, i) by {
                if i < before.len() {
                    assert(rows[i] == before[i]);
                    assert(before[i].prev_hash@ == parent_at(before, i));
                }
            }
            assert forall|i: int, j: int| 0 <= i <= j < rows.len() implies rows[i].next_txpos.value
                <= rows[j].next_txpos.value by {
                if j == before.len() && i < j {
                    assert(before[i].next_txpos.value <= before[before.len() - 1].next_txpos.value);
                }
            }
        }
        Ok(())
    }

    /// Removes and returns the tip, if any (used on a reorganisation).
    pub fn pop(&mut self) -> (r: Option<Header>)
        requires
            old(self).wf(),
        ensures
            final(self).wf(),
            r is Some <==> old(self)@.len() > 0,
            r matches Some(h) ==> h == old(self)@.last() && final(self)@ == old(self)@.drop_last(),
            r is None ==> final(self)@ == old(self)@,
    {
        let r = self.rows.pop();
        proof {
            if r is Some {
                let rows = self@;
                assert forall|i: int| 0 <= i < rows.len() implies #[trigger] rows[i].prev_hash@
                    == parent_at(rows, i) by {
                    assert(rows[i] == old(self)@[i]);
                    assert(old(self)@[i].prev_hash@ == parent_at(old(self)@, i));
                }
                assert forall|i: int, j: int| 0 <= i <= j < rows.len() implies rows[i].next_txpos.value
                    <= rows[j].next_txpos.value by {
                    assert(rows[i] == old(self)@[i] && rows[j] == old(self)@[j]);
                }
            }
        }
        r
    }

    /// The header at `height`, if there is one.
    pub fn get_by_height(&self, height: usize) -> (r: Option<&Header>)
        ensures
            r is Some <==> height < self@.len(),
            r matches Some(h) ==> *h == self@[height as int],
    {
        if height < self.rows.len() {
            Some(&self.rows[height])
        } else {
            None
        }
    }

    /// Resolves a global position to the block holding it and the offset inside
    /// that block. A position equal to a block's end belongs to the next block.
    /// Returns `None` for a position at or past the end of the chain.
    pub fn find_by_txpos(&self, txpos: &TxPos) -> (r: Option<Location>)
        requires
            self.wf(),
        ensures
            r is Some <==> (txpos.value as int) < end_of(self@),
            r matches Some(loc) ==> holds(self@, loc.height as int, txpos.value as int)
                && loc.offset == txpos.value - start_at(self@, loc.height as int)
                && loc.indexed_header == self@[loc.height as int],
    {
        let p = txpos.value;
        // find the first header whose end position lies past `p`
        let mut lo: usize = 0;
        let mut hi: usize = self.rows.len();
        while lo < hi
            invariant
                self.wf(),
                lo <= hi <= self@.len(),
                forall|i: int| 0 <= i < lo ==> self@[i].next_txpos.value <= p,
                forall|i: int| hi <= i < self@.len() ==> self@[i].next_txpos.value > p,
            decreases hi - lo,
        {
            let mid = lo + (hi - lo) / 2;
            if self.rows[mid].next_txpos.value <= p {
                proof {
                    assert forall|i: int| 0 <= i < mid + 1 implies self@[i].next_txpos.value <= p by {
                        assert(self@[i].next_txpos.value <= self@[mid as int].next_txpos.value);
                    }
                }
                lo = mid + 1;
            } else {
                proof {
                    assert forall|i: int| mid <= i < self@.len() implies self@[i].next_txpos.value > p by {
                        assert(self@[mid as int].next_txpos.value <= self@[i].next_txpos.value);
                    }
                }
                hi = mid;
            }
        }
        let height = lo;
        if height >= self.rows.len() {
            proof {
                if self@.len() > 0 {
                    assert(self@[self@.len() - 1].next_txpos.value <= p);
                }
            }
            return None;
        }
        let prev_pos = if height == 0 {
            TxPos::zero()
        } else {
            self.rows[height - 1].next_txpos
        };
        let indexed_header = self.rows[height];
        proof {
            assert(self@[height as int].next_txpos.value <= self@[self@.len() - 1].next_txpos.value);
        }
        let offset = match txpos.offset_from(prev_pos) {
            Some(o) => o,
            None => {
                return None;
            },
        };
        Some(Location { height, offset, indexed_header })
    }
}

/// At most one block holds a given position in a well-formed chain.
pub proof fn lemma_holder_unique(rows: Seq<Header>, h1: int, h2: int, p: int)
    requires
        chain_ok(rows),
        holds(rows, h1, p),
        holds(rows, h2, p),
    ensures
        h1 == h2,
{
    if h1 < h2 {
        assert(rows[h1].next_txpos.value <= rows[h2 - 1].next_txpos.value);
    } else if h2 < h1 {
        assert(rows[h2].next_txpos.value <= rows[h1 - 1].next_txpos.value);
    }
}

/// A position equal to the end of block `i` is held by block `i + 1` at its
/// first offset, never by block `i`, provided block `i + 1` holds any transaction.
pub proof fn lemma_boundary_goes_to_next(rows: Seq<Header>, i: int, height: int)
    requires
        chain_ok(rows),
        0 <= i,
        i + 1 < rows.len(),
        rows[i].next_txpos.value < rows[i + 1].next_txpos.value,
        holds(rows, height, rows[i].next_txpos.value as int),
    ensures
        height == i + 1,
        start_at(rows, height) == rows[i].next_txpos.value,
{
    let p = rows[i].next_txpos.value as int;
    assert(holds(rows, i + 1, p));
    lemma_holder_unique(rows, height, i + 1, p);
}

/// Dropping the tip and appending a header that the shortened chain accepts
/// gives a well-formed chain whose tip is that header.
pub proof fn lemma_reorg_replaces_tip(rows: Seq<Header>, other: Header)
    requires
        chain_ok(rows),
        rows.len() > 0,
        accepts(rows.drop_last(), other),
    ensures
        chain_ok(rows.drop_last().push(other)),
        rows.drop_last().push(other).last().hash == other.hash,
        tip_parent(rows.drop_last().push(other)) == other.hash@,
{
    let base = rows.drop_last();
    let next = base.push(other);
    assert forall|i: int| 0 <= i < next.len() implies #[trigger] next[i].prev_hash@ == parent_at(
        next,
        i,
    ) by {
        if i < base.len() {
            assert(next[i] == rows[i]);
            assert(rows[i].prev_hash@ == parent_at(rows, i));
        }
    }
    assert forall|i: int, j: int| 0 <= i <= j < next.len() implies next[i].next_txpos.value
        <= next[j].next_txpos.value by {
        if j == base.len() && i < j {
            assert(rows[i].next_txpos.value <= rows[base.len() - 1].next_txpos.value);
        } else if j < base.len() {
            assert(next[i] == rows[i] && next[j] == rows[j]);
        }
    }
}

} // verus!
