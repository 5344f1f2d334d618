use bindex::chain::{Chain, Header, Location, TxPos};
use bindex::hash::Hash32;
use bindex::history::gather;
use bindex::ledger::{display_order, is_watched, parse_tx, replay, Ledger, LedgerError, OutPoint, Tx, TxOut};

use bitcoin::hashes::Hash as _;

const SCRIPT_A: [u8; 3] = [0x51, 0x52, 0x53];
const SCRIPT_B: [u8; 2] = [0x6a, 0x01];

fn btc_tx(prev: bitcoin::OutPoint, outs: Vec<(u64, Vec<u8>)>) -> bitcoin::Transaction {
    bitcoin::Transaction {
        version: bitcoin::transaction::Version::TWO,
        lock_time: bitcoin::absolute::LockTime::ZERO,
        input: vec![bitcoin::TxIn {
            previous_output: prev,
            script_sig: bitcoin::ScriptBuf::from_bytes(vec![0x01, 0x02]),
            sequence: bitcoin::Sequence::MAX,
            witness: bitcoin::Witness::new(),
        }],
        output: outs
            .into_iter()
            .map(|(v, s)| bitcoin::TxOut { value: bitcoin::Amount::from_sat(v), script_pubkey: bitcoin::ScriptBuf::from_bytes(s) })
            .collect(),
    }
}

fn chain_of(n: u8) -> Chain {
    let mut rows = Vec::new();
    for i in 0..n {
        rows.push(Header {
            hash: Hash32 { bytes: [i + 1; 32] },
            prev_hash: Hash32 { bytes: [i; 32] },
            time: 1_700_000_000 + i as u32,
            next_txpos: TxPos { value: (i as u64 + 1) * 2 },
        });
    }
    Chain::new(rows).unwrap()
}

fn loc(c: &Chain, p: u64) -> Location {
    c.find_by_txpos(&TxPos { value: p }).unwrap()
}

#[test]
fn three_block_history_gives_running_balances() {
    let a = SCRIPT_A.to_vec();
    let tx0 = btc_tx(bitcoin::OutPoint::null(), vec![(100_000_000, a.clone())]);
    let tx1 = btc_tx(bitcoin::OutPoint { txid: tx0.compute_txid(), vout: 0 }, vec![(100_000_000, SCRIPT_B.to_vec())]);
    let tx2 = btc_tx(bitcoin::OutPoint::null(), vec![(50_000_000, a.clone())]);
    let txs: Vec<Tx> = [tx0, tx1, tx2]
        .iter()
        .map(|t| parse_tx(&bitcoin::consensus::serialize(t)).unwrap())
        .collect();
    let c = chain_of(3);
    let locs = vec![loc(&c, 0), loc(&c, 2), loc(&c, 4)];
    let rows = replay(&locs, &txs, &vec![a]).unwrap();
    let balances: Vec<i64> = rows.iter().map(|r| r.balance).collect();
    let deltas: Vec<i64> = rows.iter().map(|r| r.delta).collect();
    assert_eq!(balances, vec![100_000_000, 0, 50_000_000]);
    assert_eq!(deltas, vec![100_000_000, -100_000_000, 50_000_000]);
    assert_eq!(rows[1].height, 1);
    assert_eq!(rows[2].time, 1_700_000_002);
}

#[test]
fn parse_tx_reads_ids_inputs_and_outputs() {
    let prev = bitcoin::OutPoint { txid: bitcoin::Txid::from_byte_array([7u8; 32]), vout: 3 };
    let t = btc_tx(prev, vec![(5, SCRIPT_A.to_vec()), (6, SCRIPT_B.to_vec())]);
    let tx = parse_tx(&bitcoin::consensus::serialize(&t)).unwrap();
    assert_eq!(tx.txid.bytes, t.compute_txid().to_byte_array());
    assert_eq!(tx.inputs.len(), 1);
    assert_eq!(tx.inputs[0].txid.bytes, [7u8; 32]);
    assert_eq!(tx.inputs[0].vout, 3);
    assert_eq!(tx.outputs.len(), 2);
    assert_eq!(tx.outputs[1].script, SCRIPT_B.to_vec());
    assert_eq!(tx.outputs[1].value, 6);
}

#[test]
fn parse_tx_rejects_garbage() {
    assert!(matches!(parse_tx(&[1, 2, 3]), Err(LedgerError::Parse)));
    assert!(matches!(parse_tx(&[]), Err(LedgerError::Parse)));
}

fn plain_tx(id: u8, spends: Vec<(u8, u32)>, pays: Vec<(u64, Vec<u8>)>) -> Tx {
    Tx {
        txid: Hash32 { bytes: [id; 32] },
        inputs: spends.into_iter().map(|(t, v)| OutPoint { txid: Hash32 { bytes: [t; 32] }, vout: v }).collect(),
        outputs: pays.into_iter().map(|(value, script)| TxOut { script, value }).collect(),
    }
}

#[test]
fn balance_tracks_unspent_outputs_after_each_step() {
    let w = vec![SCRIPT_A.to_vec()];
    let mut l = Ledger::new();
    // pays 10 and 20 to A, 5 elsewhere
    let d = l.apply(&plain_tx(1, vec![], vec![(10, SCRIPT_A.to_vec()), (5, SCRIPT_B.to_vec()), (20, SCRIPT_A.to_vec())]), &w).unwrap();
    assert_eq!((d, l.balance(), l.unspent_count()), (30, 30, 2));
    // spends the 20 and pays 7 back to A: an internal transfer is not double-counted
    let d = l.apply(&plain_tx(2, vec![(1, 2)], vec![(7, SCRIPT_A.to_vec()), (13, SCRIPT_B.to_vec())]), &w).unwrap();
    assert_eq!((d, l.balance(), l.unspent_count()), (-13, 17, 2));
    // spends an unknown output and the unwatched one: nothing changes
    let d = l.apply(&plain_tx(3, vec![(9, 0), (1, 1)], vec![]), &w).unwrap();
    assert_eq!((d, l.balance(), l.unspent_count()), (0, 17, 2));
    // spends the same output twice: only the first spend counts
    let d = l.apply(&plain_tx(4, vec![(1, 0), (1, 0)], vec![]), &w).unwrap();
    assert_eq!((d, l.balance(), l.unspent_count()), (-10, 7, 1));
}

#[test]
fn oversized_amount_is_an_overflow() {
    let w = vec![SCRIPT_A.to_vec()];
    let mut l = Ledger::new();
    let r = l.apply(&plain_tx(1, vec![], vec![(u64::MAX, SCRIPT_A.to_vec())]), &w);
    assert_eq!(r, Err(LedgerError::Overflow));
    let mut l = Ledger::new();
    let half = i64::MAX as u64 / 2 + 1;
    let r = l.apply(&plain_tx(1, vec![], vec![(half, SCRIPT_A.to_vec()), (half, SCRIPT_A.to_vec())]), &w);
    assert_eq!(r, Err(LedgerError::Overflow));
}

#[test]
fn replay_reports_overflow() {
    let c = chain_of(1);
    let locs = vec![loc(&c, 0)];
    let txs = vec![plain_tx(1, vec![], vec![(u64::MAX, SCRIPT_A.to_vec())])];
    assert!(matches!(replay(&locs, &txs, &vec![SCRIPT_A.to_vec()]), Err(LedgerError::Overflow)));
}

#[test]
fn watched_scripts_match_exactly() {
    let w = vec![SCRIPT_A.to_vec(), SCRIPT_B.to_vec()];
    assert!(is_watched(&w, &SCRIPT_B.to_vec()));
    assert!(!is_watched(&w, &vec![0x51, 0x52]));
    assert!(!is_watched(&vec![], &SCRIPT_A.to_vec()));
}

#[test]
fn rows_are_chronological_and_display_is_newest_first() {
    let c = chain_of(3);
    let found = vec![vec![loc(&c, 5), loc(&c, 0), loc(&c, 3)], vec![loc(&c, 3), loc(&c, 2)]];
    let locs = gather(&found);
    let keys: Vec<(usize, u64)> = locs.iter().map(|l| (l.height, l.offset)).collect();
    assert_eq!(keys, vec![(0, 0), (1, 0), (1, 1), (2, 1)]);
    let txs: Vec<Tx> = (0..4u8).map(|i| plain_tx(i + 1, vec![], vec![(10, SCRIPT_A.to_vec())])).collect();
    let rows = replay(&locs, &txs, &vec![SCRIPT_A.to_vec()]).unwrap();
    for w in rows.windows(2) {
        assert!((w[0].height, w[0].offset) < (w[1].height, w[1].offset));
    }
    let (shown, cut) = display_order(&rows, 3);
    assert!(cut);
    let shown_balances: Vec<i64> = shown.iter().map(|r| r.balance).collect();
    assert_eq!(shown_balances, vec![40, 30, 20]);
    let (shown, cut) = display_order(&rows, 10);
    assert!(!cut);
    assert_eq!(shown.len(), 4);
    assert_eq!(shown[0].balance, 40);
    let (shown, cut) = display_order(&rows, 4);
    assert!(!cut);
    assert_eq!(shown.len(), 4);
}

#[test]
fn gather_of_nothing_is_empty() {
    assert!(gather(&vec![]).is_empty());
    assert!(gather(&vec![vec![], vec![]]).is_empty());
}
