use bitcoin::blockdata::script::Script;
use bitcoin::blockdata::transaction::{OutPoint, Transaction, TxOut};
use bitcoin::util::psbt::PartiallySignedTransaction as Psbt;

use lnp_channel::graph::TxGraph;
use lnp_channel::omap::OrderedMap;

fn psbt(version: i32) -> Psbt {
    let tx = Transaction { version, lock_time: 0, input: Vec::new(), output: Vec::new() };
    Psbt::from_unsigned_tx(tx).unwrap()
}

fn outpoint(vout: u32) -> OutPoint {
    let txid = "1111111111111111111111111111111111111111111111111111111111111111".parse().unwrap();
    OutPoint { txid, vout }
}

fn tx_out(value: u64) -> TxOut {
    TxOut { value, script_pubkey: Script::new() }
}

#[test]
fn empty_graph_len_and_render() {
    let g = TxGraph::default();
    assert_eq!(g.len(), 0);
    let rendered = g.render();
    assert_eq!(rendered.len(), 1);
    assert_eq!(rendered[0], g.render_cmt());
}

#[test]
fn default_graph_parameters() {
    let g = TxGraph::default();
    assert_eq!(g.funding_parties(), 0);
    assert_eq!(g.funding_threshold(), 0);
    assert_eq!(g.cmt_version(), 2);
    assert_eq!(g.cmt_locktime(), 0);
    assert_eq!(g.cmt_sequence(), 0);
    assert!(g.cmt_outs().is_empty());
    assert_eq!(*g.funding_outpoint(), OutPoint::null());
    assert_eq!(*g.commitment_outpoint(), OutPoint::null());
    let funding = g.funding_tx();
    assert_eq!(funding.unsigned_tx.version, 2);
    assert!(funding.unsigned_tx.input.is_empty());
    assert!(funding.unsigned_tx.output.is_empty());
}

#[test]
fn two_default_graphs_agree() {
    let a = TxGraph::default();
    let b = TxGraph::default();
    assert_eq!(*a.funding_tx(), *b.funding_tx());
    assert_eq!(*a.funding_outpoint(), *b.funding_outpoint());
    assert_eq!(*a.commitment_outpoint(), *b.commitment_outpoint());
    assert_eq!(a.render(), b.render());
}

#[test]
fn insert_then_lookup_returns_inserted() {
    let mut g = TxGraph::default();
    let a = psbt(10);
    assert_eq!(g.insert_tx(3u16, 4u64, a.clone()), None);
    assert_eq!(g.tx(3u16, 4u64), Some(&a));
    assert_eq!(g.tx(3u16, 5u64), None);
    assert_eq!(g.tx(2u16, 4u64), None);
    assert_eq!(g.len(), 1);
}

#[test]
fn reinsert_returns_prior_and_overwrites() {
    let mut g = TxGraph::default();
    let a = psbt(10);
    let b = psbt(11);
    assert_eq!(g.insert_tx(3u16, 4u64, a.clone()), None);
    assert_eq!(g.insert_tx(3u16, 4u64, b.clone()), Some(a));
    assert_eq!(g.tx(3u16, 4u64), Some(&b));
    assert_eq!(g.len(), 1);
}

#[test]
fn render_orders_by_role_then_index() {
    let mut g = TxGraph::default();
    let p05 = psbt(5);
    let p01 = psbt(1);
    let p10 = psbt(100);
    g.insert_tx(0u16, 5u64, p05.clone());
    g.insert_tx(0u16, 1u64, p01.clone());
    g.insert_tx(1u16, 0u64, p10.clone());
    let rendered = g.render();
    assert_eq!(rendered.len(), 4);
    assert_eq!(rendered[0], g.render_cmt());
    assert_eq!(rendered[1], p01);
    assert_eq!(rendered[2], p05);
    assert_eq!(rendered[3], p10);
}

#[test]
fn render_cmt_derives_from_parameters() {
    let mut g = TxGraph::default();
    let o = outpoint(7);
    let a = tx_out(1000);
    let b = tx_out(2500);
    g.set_cmt_params(2, 0, 0xFFFF_FFFF);
    g.set_funding_outpoint(o);
    g.set_cmt_outs(vec![a.clone(), b.clone()]);
    let cmt = g.render_cmt();
    let tx = &cmt.unsigned_tx;
    assert_eq!(tx.version, 2);
    assert_eq!(tx.lock_time, 0);
    assert_eq!(tx.input.len(), 1);
    assert_eq!(tx.input[0].previous_output, o);
    assert!(tx.input[0].script_sig.is_empty());
    assert!(tx.input[0].witness.is_empty());
    assert_eq!(tx.input[0].sequence, 0xFFFF_FFFF);
    assert_eq!(tx.output, vec![a, b]);
}

#[test]
fn render_recomputes_commitment_after_parameter_change() {
    let mut g = TxGraph::default();
    g.set_cmt_outs(vec![tx_out(1)]);
    let first = g.render();
    g.set_cmt_outs(vec![tx_out(2)]);
    let second = g.render();
    assert_ne!(first[0], second[0]);
    assert_eq!(second[0].unsigned_tx.output[0].value, 2);
}

#[test]
fn last_index_counts_entries_even_with_sparse_indices() {
    let mut g = TxGraph::default();
    g.insert_tx(7u16, 0u64, psbt(1));
    g.insert_tx(7u16, 10u64, psbt(2));
    assert_eq!(g.last_index(7u16), 2);
    assert_eq!(g.last_index(3u16), 0);
    assert_eq!(g.len(), 2);
}

#[test]
fn iter_reports_index_one_past_lookup() {
    let mut g = TxGraph::default();
    let p00 = psbt(1);
    let p01 = psbt(2);
    let p10 = psbt(3);
    g.insert_tx(0u16, 0u64, p00.clone());
    g.insert_tx(0u16, 1u64, p01.clone());
    g.insert_tx(1u16, 0u64, p10.clone());
    let mut it = g.iter();
    assert_eq!(it.next(), Some((0u16, 1u64, &p00)));
    assert_eq!(it.next(), Some((0u16, 2u64, &p01)));
    assert_eq!(it.next(), Some((1u16, 1u64, &p10)));
    assert_eq!(it.next(), None);
}

#[test]
fn iter_stops_at_first_gap_within_a_role() {
    let mut g = TxGraph::default();
    let p00 = psbt(1);
    g.insert_tx(0u16, 0u64, p00.clone());
    g.insert_tx(0u16, 2u64, psbt(2));
    let mut it = g.iter();
    assert_eq!(it.next(), Some((0u16, 1u64, &p00)));
    // index 1 of role 0 is vacant and only index 0 of role 1 is probed, so
    // the entry at index 2 is never reached
    assert_eq!(it.next(), None);
}

#[test]
fn iter_does_not_scan_past_an_empty_role() {
    let mut g = TxGraph::default();
    let p00 = psbt(1);
    g.insert_tx(0u16, 0u64, p00.clone());
    g.insert_tx(2u16, 0u64, psbt(2));
    let mut it = g.iter();
    assert_eq!(it.next(), Some((0u16, 1u64, &p00)));
    // role 1 is empty; the walk does not reach role 2
    assert_eq!(it.next(), None);
}

#[test]
fn iter_is_deterministic_across_repetitions() {
    let mut g = TxGraph::default();
    g.insert_tx(0u16, 0u64, psbt(1));
    g.insert_tx(0u16, 1u64, psbt(2));
    g.insert_tx(4u16, 0u64, psbt(3));
    let collect = |g: &TxGraph| {
        let mut out = Vec::new();
        let mut it = g.iter();
        while let Some((role, index, tx)) = it.next() {
            out.push((role, index, tx.clone()));
        }
        out
    };
    let first = collect(&g);
    let second = collect(&g);
    assert_eq!(first, second);
    assert_eq!(first.len(), 2);
}

#[test]
fn setters_and_getters_round_trip() {
    let mut g = TxGraph::default();
    g.set_funding_params(3, 2);
    assert_eq!(g.funding_parties(), 3);
    assert_eq!(g.funding_threshold(), 2);
    let f = psbt(9);
    g.set_funding_tx(f.clone());
    assert_eq!(*g.funding_tx(), f);
    let o = outpoint(1);
    g.set_commitment_outpoint(o);
    assert_eq!(*g.commitment_outpoint(), o);
    g.set_cmt_params(1, 500_000, 42);
    assert_eq!(g.cmt_version(), 1);
    assert_eq!(g.cmt_locktime(), 500_000);
    assert_eq!(g.cmt_sequence(), 42);
}

#[test]
fn tx_mut_edits_one_slot_in_place() {
    let mut g = TxGraph::default();
    g.insert_tx(2u16, 0u64, psbt(1));
    g.insert_tx(2u16, 1u64, psbt(2));
    {
        let slot = g.tx_mut(2u16, 0u64).unwrap();
        slot.unsigned_tx.version = 77;
    }
    assert_eq!(g.tx(2u16, 0u64).unwrap().unsigned_tx.version, 77);
    assert_eq!(g.tx(2u16, 1u64).unwrap().unsigned_tx.version, 2);
    assert!(g.tx_mut(3u16, 0u64).is_none());
    assert_eq!(g.len(), 2);
}

#[test]
fn ordered_map_insert_get_and_count() {
    let mut m: OrderedMap<u32> = OrderedMap::new();
    assert_eq!(m.len(), 0);
    assert_eq!(m.insert(20, 200), None);
    assert_eq!(m.insert(10, 100), None);
    assert_eq!(m.insert(30, 300), None);
    assert_eq!(m.insert(20, 201), Some(200));
    assert_eq!(m.len(), 3);
    assert_eq!(m.get(20), Some(&201));
    assert_eq!(m.get(15), None);
    // storage order is ascending by key
    assert_eq!(*m.at(0), (10, 100));
    assert_eq!(*m.at(1), (20, 201));
    assert_eq!(*m.at(2), (30, 300));
    assert_eq!(m.count_range(10, 30), 2);
    assert_eq!(m.count_range(0, 100), 3);
    assert_eq!(m.count_range(11, 20), 0);
}
