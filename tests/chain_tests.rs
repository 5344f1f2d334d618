use bindex::chain::{Chain, ChainError, Header, TxPos};
use bindex::hash::Hash32;

fn h(n: u8) -> Hash32 {
    Hash32 { bytes: [n; 32] }
}

fn header(hash: u8, prev: u8, end: u64) -> Header {
    Header { hash: h(hash), prev_hash: h(prev), time: 1_600_000_000 + hash as u32, next_txpos: TxPos { value: end } }
}

/// Blocks 1, 2, 3 ending at positions 3, 5 and 9.
fn three_blocks() -> Chain {
    Chain::new(vec![header(1, 0, 3), header(2, 1, 5), header(3, 2, 9)]).unwrap()
}

#[test]
fn new_accepts_linked_headers() {
    let c = three_blocks();
    assert_eq!(c.tip_height(), Some(2));
    assert_eq!(c.tip_hash().unwrap().bytes, [3u8; 32]);
    assert_eq!(c.next_txpos().value, 9);
}

#[test]
fn new_rejects_broken_link() {
    let r = Chain::new(vec![header(1, 0, 3), header(2, 7, 5)]);
    assert!(matches!(r, Err(ChainError::BrokenLink)));
    let r = Chain::new(vec![header(1, 9, 3)]);
    assert!(matches!(r, Err(ChainError::BrokenLink)));
}

#[test]
fn empty_chain_accessors() {
    let mut c = Chain::new(vec![]).unwrap();
    assert_eq!(c.tip_height(), None);
    assert!(c.tip_hash().is_none());
    assert_eq!(c.next_txpos().value, 0);
    assert!(c.pop().is_none());
    assert!(c.find_by_txpos(&TxPos { value: 0 }).is_none());
}

#[test]
fn add_rejects_wrong_parent() {
    let mut c = three_blocks();
    assert_eq!(c.add(header(4, 2, 12)), Err(ChainError::BrokenLink));
    assert_eq!(c.tip_height(), Some(2));
    assert_eq!(c.add(header(4, 3, 12)), Ok(()));
    assert_eq!(c.tip_height(), Some(3));
}

#[test]
fn add_to_empty_needs_zero_parent() {
    let mut c = Chain::new(vec![]).unwrap();
    assert_eq!(c.add(header(1, 5, 1)), Err(ChainError::BrokenLink));
    assert_eq!(c.add(header(1, 0, 1)), Ok(()));
    assert_eq!(c.tip_height(), Some(0));
}

#[test]
fn add_rejects_position_going_back() {
    let mut c = three_blocks();
    assert_eq!(c.add(header(4, 3, 8)), Err(ChainError::PositionOutOfOrder));
    assert_eq!(c.next_txpos().value, 9);
}

#[test]
fn resolves_every_position_inside_the_chain() {
    let c = three_blocks();
    let ends = [3u64, 5, 9];
    for p in 0..9u64 {
        let loc = c.find_by_txpos(&TxPos { value: p }).unwrap();
        let start = if loc.height == 0 { 0 } else { ends[loc.height - 1] };
        assert!(start <= p && p < ends[loc.height]);
        assert_eq!(loc.offset, p - start);
        assert_eq!(loc.indexed_header.next_txpos.value, ends[loc.height]);
    }
    assert!(c.find_by_txpos(&TxPos { value: 9 }).is_none());
    assert!(c.find_by_txpos(&TxPos { value: 100 }).is_none());
}

#[test]
fn block_boundary_goes_to_next_block() {
    let c = three_blocks();
    let loc = c.find_by_txpos(&TxPos { value: 3 }).unwrap();
    assert_eq!((loc.height, loc.offset), (1, 0));
    let loc = c.find_by_txpos(&TxPos { value: 5 }).unwrap();
    assert_eq!((loc.height, loc.offset), (2, 0));
    let loc = c.find_by_txpos(&TxPos { value: 0 }).unwrap();
    assert_eq!((loc.height, loc.offset), (0, 0));
    let loc = c.find_by_txpos(&TxPos { value: 4 }).unwrap();
    assert_eq!((loc.height, loc.offset), (1, 1));
}

#[test]
fn rollback_then_append_replaces_tip() {
    let mut c = three_blocks();
    let old_tip = c.pop().unwrap();
    assert_eq!(old_tip.hash.bytes, [3u8; 32]);
    assert_eq!(c.tip_hash().unwrap().bytes, [2u8; 32]);
    assert_eq!(c.add(header(33, 2, 7)), Ok(()));
    assert_eq!(c.tip_hash().unwrap().bytes, [33u8; 32]);
    assert_eq!(c.next_txpos().value, 7);
    let loc = c.find_by_txpos(&TxPos { value: 6 }).unwrap();
    assert_eq!((loc.height, loc.offset), (2, 1));
    assert_eq!(loc.indexed_header.hash.bytes, [33u8; 32]);
}

#[test]
fn get_by_height_returns_stored_header() {
    let c = three_blocks();
    assert_eq!(c.get_by_height(1).unwrap().hash.bytes, [2u8; 32]);
    assert_eq!(c.get_by_height(1).unwrap().time, 1_600_000_002);
    assert!(c.get_by_height(3).is_none());
}

#[test]
fn offset_from_is_a_checked_difference() {
    assert_eq!(TxPos { value: 7 }.offset_from(TxPos { value: 3 }), Some(4));
    assert_eq!(TxPos { value: 3 }.offset_from(TxPos { value: 7 }), None);
    assert_eq!(TxPos::zero().value, 0);
}
