use bindex::cache::{cache_txid, history_rows, needs_fetch, CacheError, CacheTables};
use bindex::chain::{Chain, Header, Location, TxPos};
use bindex::hash::Hash32;
use bindex::network::Network;

use bitcoin::hashes::Hash as _;

fn chain_of(n: u8) -> Chain {
    let mut rows = Vec::new();
    for i in 0..n {
        rows.push(Header {
            hash: Hash32 { bytes: [i + 1; 32] },
            prev_hash: Hash32 { bytes: [i; 32] },
            time: 1_700_000_000,
            next_txpos: TxPos { value: (i as u64 + 1) * 2 },
        });
    }
    Chain::new(rows).unwrap()
}

fn loc(c: &Chain, p: u64) -> Location {
    c.find_by_txpos(&TxPos { value: p }).unwrap()
}

#[test]
fn second_pass_adds_nothing() {
    let c = chain_of(2);
    let locs = vec![loc(&c, 0), loc(&c, 1), loc(&c, 3)];
    let mut t = CacheTables::new();
    let added = t.sync_history(history_rows(&vec![1, 2], &locs));
    assert_eq!(added, 3);
    assert_eq!(t.sync_history(history_rows(&vec![3], &locs[..1].to_vec())), 1);
    let claimed = t.claim(&locs);
    assert_eq!(claimed.len(), 3);
    for l in &claimed {
        assert_eq!(t.fill(&l.indexed_header.hash, l.offset, Hash32 { bytes: [9; 32] }, vec![l.offset as u8]), 1);
    }
    assert_eq!((t.history_len(), t.txcache_len()), (4, 3));

    assert_eq!(t.sync_history(history_rows(&vec![1, 2], &locs)), 0);
    assert!(t.claim(&locs).is_empty());
    assert_eq!((t.history_len(), t.txcache_len()), (4, 3));
}

#[test]
fn filled_bytes_are_never_overwritten() {
    let c = chain_of(1);
    let l = loc(&c, 1);
    let mut t = CacheTables::new();
    assert!(t.cached_bytes(&l.indexed_header.hash, 1).is_none());
    assert_eq!(t.claim(&vec![l]).len(), 1);
    assert!(t.cached_bytes(&l.indexed_header.hash, 1).is_none());
    assert_eq!(t.fill(&l.indexed_header.hash, 1, Hash32 { bytes: [1; 32] }, vec![1, 2, 3]), 1);
    assert_eq!(t.fill(&l.indexed_header.hash, 1, Hash32 { bytes: [2; 32] }, vec![4, 5]), 0);
    assert_eq!(t.cached_bytes(&l.indexed_header.hash, 1), Some(&vec![1, 2, 3]));
    assert_eq!(t.fill(&Hash32 { bytes: [8; 32] }, 1, Hash32 { bytes: [2; 32] }, vec![4, 5]), 0);
}

#[test]
fn fetch_only_on_first_sight() {
    assert!(needs_fetch(1));
    assert!(!needs_fetch(0));
}

#[test]
fn history_rows_copy_location_fields() {
    let c = chain_of(2);
    let rows = history_rows(&vec![7, 7], &vec![loc(&c, 3)]);
    assert_eq!(rows.len(), 1);
    assert_eq!(rows[0].script, vec![7, 7]);
    assert_eq!(rows[0].block_hash.bytes, [2; 32]);
    assert_eq!((rows[0].block_offset, rows[0].block_height), (1, 1));
}

#[test]
fn cache_txid_matches_transaction_id() {
    let t = bitcoin::Transaction {
        version: bitcoin::transaction::Version::ONE,
        lock_time: bitcoin::absolute::LockTime::ZERO,
        input: vec![bitcoin::TxIn {
            previous_output: bitcoin::OutPoint::null(),
            script_sig: bitcoin::ScriptBuf::from_bytes(vec![0x04, 0x01]),
            sequence: bitcoin::Sequence::MAX,
            witness: bitcoin::Witness::new(),
        }],
        output: vec![bitcoin::TxOut { value: bitcoin::Amount::from_sat(42), script_pubkey: bitcoin::ScriptBuf::from_bytes(vec![0x51]) }],
    };
    let bytes = bitcoin::consensus::serialize(&t);
    let id = cache_txid(&bytes).unwrap();
    assert_eq!(id.bytes, t.compute_txid().to_byte_array());
    assert_ne!(id.bytes, [0u8; 32]);
    assert!(matches!(cache_txid(&[0xff]), Err(CacheError::Parse)));
}

#[test]
fn network_defaults() {
    assert_eq!(Network::Bitcoin.default_rpc_port(), 8332);
    assert_eq!(Network::Testnet.default_rpc_port(), 18332);
    assert_eq!(Network::Testnet4.default_rpc_port(), 48332);
    assert_eq!(Network::Regtest.default_rpc_port(), 18443);
    assert_eq!(Network::Signet.default_rpc_port(), 38332);
    assert_eq!(Network::Testnet4.default_index_dir(), "testnet4");
    assert_eq!(Network::Bitcoin.default_index_dir(), "bitcoin");
}
