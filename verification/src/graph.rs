//! The transaction graph: funding and commitment parameters plus a two-level
//! index, role then index within the role, of partially signed transactions.
//! Every extension of a channel cooperates on one such graph, and both channel
//! parties must derive the same flattened transaction list from it.

use vstd::prelude::*;

use bitcoin::blockdata::transaction::{OutPoint, TxOut};
use bitcoin::util::psbt::PartiallySignedTransaction as Psbt;

use crate::btc::{assemble_cmt_psbt, cmt_psbt_of, empty_psbt_of, empty_unsigned_psbt, outpoint_from_parts, outpoint_of};
use crate::omap::{
    lemma_update_value_get, seq_get, seq_has_key, seq_index_of, seq_keys_below, seq_wf,
    seq_count_range, OrderedMap,
};

verus! {

/// A transaction class within the graph, reported as a small integer.
pub trait TxRole: Sized {
    spec fn as_u16_spec(&self) -> u16;

    fn as_u16(&self) -> (r: u16)
        ensures
            r == self.as_u16_spec(),
    ;
}

/// An ordinal within a transaction role, reported as an integer.
pub trait TxIndex: Sized {
    spec fn as_u64_spec(&self) -> u64;

    fn as_u64(&self) -> (r: u64)
        ensures
            r == self.as_u64_spec(),
    ;
}

impl TxRole for u16 {
    open spec fn as_u16_spec(&self) -> u16 {
        *self
    }

    fn as_u16(&self) -> (r: u16) {
        *self
    }
}

impl TxIndex for u64 {
    open spec fn as_u64_spec(&self) -> u64 {
        *self
    }

    fn as_u64(&self) -> (r: u64) {
        *self
    }
}

/// A (role, index) pair packed into one key that orders pairs
/// lexicographically: role first, then index.
pub open spec fn pack_key_spec(role: u16, index: u64) -> u128 {
    ((role as u128) * 0x1_0000_0000_0000_0000 + (index as u128)) as u128
}

pub open spec fn unpack_role(key: u128) -> u16 {
    (key / 0x1_0000_0000_0000_0000) as u16
}

pub open spec fn unpack_index(key: u128) -> u64 {
    (key % 0x1_0000_0000_0000_0000) as u64
}

fn pack_key(role: u16, index: u64) -> (k: u128)
    ensures
        k == pack_key_spec(role, index),
{
    (role as u128) * 0x1_0000_0000_0000_0000 + (index as u128)
}

/// Packing is injective and order-preserving: packed keys compare the way
/// (role, index) pairs compare lexicographically.
pub proof fn lemma_pack_order(r1: u16, i1: u64, r2: u16, i2: u64)
    ensures
        pack_key_spec(r1, i1) == pack_key_spec(r2, i2) <==> (r1 == r2 && i1 == i2),
        pack_key_spec(r1, i1) < pack_key_spec(r2, i2) <==> (r1 < r2 || (r1 == r2 && i1 < i2)),
{
    assert(pack_key_spec(r1, i1) == pack_key_spec(r2, i2) <==> (r1 == r2 && i1 == i2)) by (nonlinear_arith);
    assert(pack_key_spec(r1, i1) < pack_key_spec(r2, i2) <==> (r1 < r2 || (r1 == r2 && i1 < i2)))
        by (nonlinear_arith);
}

/// A packed key unpacks to the pair it was packed from.
pub proof fn lemma_pack_unpack(role: u16, index: u64)
    ensures
        unpack_role(pack_key_spec(role, index)) == role,
        unpack_index(pack_key_spec(role, index)) == index,
        pack_key_spec(role, index) < 0x1_0000_0000_0000_0000_0000,
{
    assert(unpack_role(pack_key_spec(role, index)) == role) by (nonlinear_arith);
    assert(unpack_index(pack_key_spec(role, index)) == index) by (nonlinear_arith);
    assert(pack_key_spec(role, index) < 0x1_0000_0000_0000_0000_0000) by (nonlinear_arith);
}

/// The shared mutable target of channel construction: funding parameters,
/// commitment-transaction parameters and the role/index transaction store.
pub struct TxGraph {
    funding_parties: u8,
    funding_threshold: u8,
    funding_tx: Psbt,
    funding_outpoint: OutPoint,
    commitment_outpoint: OutPoint,
    cmt_version: i32,
    cmt_locktime: u32,
    cmt_sequence: u32,
    cmt_outs: Vec<TxOut>,
    graph: OrderedMap<Psbt>,
}

impl TxGraph {
    /// The stored transactions as (packed key, psbt) pairs in ascending key
    /// order.
    pub closed spec fn entries(&self) -> Seq<(u128, Psbt)> {
        self.graph.entries()
    }

    /// The stored transactions as (role, index, psbt) triples, ascending by
    /// role, then by index within a role.
    pub open spec fn txs(&self) -> Seq<(u16, u64, Psbt)> {
        self.entries().map_values(|e: (u128, Psbt)| (unpack_role(e.0), unpack_index(e.0), e.1))
    }

    /// Well-formed: keys strictly ascending and every key the packing of a
    /// (role, index) pair.
    #[verifier::type_invariant]
    pub open spec fn wf(&self) -> bool {
        seq_wf(self.entries()) && seq_keys_below(self.entries(), 0x1_0000_0000_0000_0000_0000)
    }

    /// The transaction stored under a role and an index, if any: the entry
    /// whose key is the packing of (role, index).
    pub open spec fn tx_spec(&self, role: u16, index: u64) -> Option<Psbt> {
        seq_get(self.entries(), pack_key_spec(role, index))
    }

    pub open spec fn has_tx(&self, role: u16, index: u64) -> bool {
        self.tx_spec(role, index) is Some
    }

    pub closed spec fn funding_parties_spec(&self) -> u8 {
        self.funding_parties
    }

    pub closed spec fn funding_threshold_spec(&self) -> u8 {
        self.funding_threshold
    }

    pub closed spec fn funding_tx_spec(&self) -> Psbt {
        self.funding_tx
    }

    pub closed spec fn funding_outpoint_spec(&self) -> OutPoint {
        self.funding_outpoint
    }

    pub closed spec fn commitment_outpoint_spec(&self) -> OutPoint {
        self.commitment_outpoint
    }

    pub closed spec fn cmt_version_spec(&self) -> i32 {
        self.cmt_version
    }

    pub closed spec fn cmt_locktime_spec(&self) -> u32 {
        self.cmt_locktime
    }

    pub closed spec fn cmt_sequence_spec(&self) -> u32 {
        self.cmt_sequence
    }

    pub closed spec fn cmt_outs_spec(&self) -> Seq<TxOut> {
        self.cmt_outs@
    }

    /// The funding and commitment parameters of `self` and `other` agree.
    pub open spec fn same_params(&self, other: &TxGraph) -> bool {
        &&& self.funding_parties_spec() == other.funding_parties_spec()
        &&& self.funding_threshold_spec() == other.funding_threshold_spec()
        &&& self.funding_tx_spec() == other.funding_tx_spec()
        &&& self.funding_outpoint_spec() == other.funding_outpoint_spec()
        &&& self.commitment_outpoint_spec() == other.commitment_outpoint_spec()
        &&& self.cmt_version_spec() == other.cmt_version_spec()
        &&& self.cmt_locktime_spec() == other.cmt_locktime_spec()
        &&& self.cmt_sequence_spec() == other.cmt_sequence_spec()
        &&& self.cmt_outs_spec() == other.cmt_outs_spec()
    }

    pub fn funding_parties(&self) -> (r: u8)
        ensures
            r == self.funding_parties_spec(),
    {
        self.funding_parties
    }

    pub fn funding_threshold(&self) -> (r: u8)
        ensures
            r == self.funding_threshold_spec(),
    {
        self.funding_threshold
    }

    pub fn funding_tx(&self) -> (r: &Psbt)
        ensures
            *r == self.funding_tx_spec(),
    {
        &self.funding_tx
    }

    pub fn funding_outpoint(&self) -> (r: &OutPoint)
        ensures
            *r == self.funding_outpoint_spec(),
    {
        &self.funding_outpoint
    }

    pub fn commitment_outpoint(&self) -> (r: &OutPoint)
        ensures
            *r == self.commitment_outpoint_spec(),
    {
        &self.commitment_outpoint
    }

    pub fn cmt_version(&self) -> (r: i32)
        ensures
            r == self.cmt_version_spec(),
    {
        self.cmt_version
    }

    pub fn cmt_locktime(&self) -> (r: u32)
        ensures
            r == self.cmt_locktime_spec(),
    {
        self.cmt_locktime
    }

    pub fn cmt_sequence(&self) -> (r: u32)
        ensures
            r == self.cmt_sequence_spec(),
    {
        self.cmt_sequence
    }

    pub fn cmt_outs(&self) -> (r: &Vec<TxOut>)
        ensures
            r@ == self.cmt_outs_spec(),
    {
        &self.cmt_outs
    }

    /// Record the version, lock time and input sequence from which the
    /// commitment transaction is derived.
    pub fn set_cmt_params(&mut self, version: i32, locktime: u32, sequence: u32)
        ensures
            final(self).cmt_version_spec() == version,
            final(self).cmt_locktime_spec() == locktime,
            final(self).cmt_sequence_spec() == sequence,
            final(self).cmt_outs_spec() == old(self).cmt_outs_spec(),
            final(self).funding_parties_spec() == old(self).funding_parties_spec(),
            final(self).funding_threshold_spec() == old(self).funding_threshold_spec(),
            final(self).funding_tx_spec() == old(self).funding_tx_spec(),
            final(self).funding_outpoint_spec() == old(self).funding_outpoint_spec(),
            final(self).commitment_outpoint_spec() == old(self).commitment_outpoint_spec(),
            final(self).entries() == old(self).entries(),
    {
        proof {
            use_type_invariant(&*self);
        }
        self.cmt_version = version;
        self.cmt_locktime = locktime;
        self.cmt_sequence = sequence;
    }

    /// Record the ordered output list of the commitment transaction.
    pub fn set_cmt_outs(&mut self, outs: Vec<TxOut>)
        ensures
            final(self).cmt_outs_spec() == outs@,
            final(self).cmt_version_spec() == old(self).cmt_version_spec(),
            final(self).cmt_locktime_spec() == old(self).cmt_locktime_spec(),
            final(self).cmt_sequence_spec() == old(self).cmt_sequence_spec(),
            final(self).funding_parties_spec() == old(self).funding_parties_spec(),
            final(self).funding_threshold_spec() == old(self).funding_threshold_spec(),
            final(self).funding_tx_spec() == old(self).funding_tx_spec(),
            final(self).funding_outpoint_spec() == old(self).funding_outpoint_spec(),
            final(self).commitment_outpoint_spec() == old(self).commitment_outpoint_spec(),
            final(self).entries() == old(self).entries(),
    {
        proof {
            use_type_invariant(&*self);
        }
        self.cmt_outs = outs;
    }

    /// Record the funding arrangement: number of parties and threshold.
    pub fn set_funding_params(&mut self, parties: u8, threshold: u8)
        ensures
            final(self).funding_parties_spec() == parties,
            final(self).funding_threshold_spec() == threshold,
            final(self).funding_tx_spec() == old(self).funding_tx_spec(),
            final(self).funding_outpoint_spec() == old(self).funding_outpoint_spec(),
            final(self).commitment_outpoint_spec() == old(self).commitment_outpoint_spec(),
            final(self).cmt_version_spec() == old(self).cmt_version_spec(),
            final(self).cmt_locktime_spec() == old(self).cmt_locktime_spec(),
            final(self).cmt_sequence_spec() == old(self).cmt_sequence_spec(),
            final(self).cmt_outs_spec() == old(self).cmt_outs_spec(),
            final(self).entries() == old(self).entries(),
    {
        proof {
            use_type_invariant(&*self);
        }
        self.funding_parties = parties;
        self.funding_threshold = threshold;
    }

    /// Record the funding transaction.
    pub fn set_funding_tx(&mut self, psbt: Psbt)
        ensures
            final(self).funding_tx_spec() == psbt,
            final(self).funding_parties_spec() == old(self).funding_parties_spec(),
            final(self).funding_threshold_spec() == old(self).funding_threshold_spec(),
            final(self).funding_outpoint_spec() == old(self).funding_outpoint_spec(),
            final(self).commitment_outpoint_spec() == old(self).commitment_outpoint_spec(),
            final(self).cmt_version_spec() == old(self).cmt_version_spec(),
            final(self).cmt_locktime_spec() == old(self).cmt_locktime_spec(),
            final(self).cmt_sequence_spec() == old(self).cmt_sequence_spec(),
            final(self).cmt_outs_spec() == old(self).cmt_outs_spec(),
            final(self).entries() == old(self).entries(),
    {
        proof {
            use_type_invariant(&*self);
        }
        self.funding_tx = psbt;
    }

    /// Record the outpoint the commitment transaction spends from.
    pub fn set_funding_outpoint(&mut self, outpoint: OutPoint)
        ensures
            final(self).funding_outpoint_spec() == outpoint,
            final(self).funding_parties_spec() == old(self).funding_parties_spec(),
            final(self).funding_threshold_spec() == old(self).funding_threshold_spec(),
            final(self).funding_tx_spec() == old(self).funding_tx_spec(),
            final(self).commitment_outpoint_spec() == old(self).commitment_outpoint_spec(),
            final(self).cmt_version_spec() == old(self).cmt_version_spec(),
            final(self).cmt_locktime_spec() == old(self).cmt_locktime_spec(),
            final(self).cmt_sequence_spec() == old(self).cmt_sequence_spec(),
            final(self).cmt_outs_spec() == old(self).cmt_outs_spec(),
            final(self).entries() == old(self).entries(),
    {
        proof {
            use_type_invariant(&*self);
        }
        self.funding_outpoint = outpoint;
    }

    /// Record the outpoint reserved for transactions spending the commitment.
    pub fn set_commitment_outpoint(&mut self, outpoint: OutPoint)
        ensures
            final(self).commitment_outpoint_spec() == outpoint,
            final(self).funding_parties_spec() == old(self).funding_parties_spec(),
            final(self).funding_threshold_spec() == old(self).funding_threshold_spec(),
            final(self).funding_tx_spec() == old(self).funding_tx_spec(),
            final(self).funding_outpoint_spec() == old(self).funding_outpoint_spec(),
            final(self).cmt_version_spec() == old(self).cmt_version_spec(),
            final(self).cmt_locktime_spec() == old(self).cmt_locktime_spec(),
            final(self).cmt_sequence_spec() == old(self).cmt_sequence_spec(),
            final(self).cmt_outs_spec() == old(self).cmt_outs_spec(),
            final(self).entries() == old(self).entries(),
    {
        proof {
            use_type_invariant(&*self);
        }
        self.commitment_outpoint = outpoint;
    }

    /// Look a transaction up by role and index; absence is the only "not
    /// found" signal.
    pub fn tx<R: TxRole, I: TxIndex>(&self, role: R, index: I) -> (r: Option<&Psbt>)
        ensures
            match r {
                Some(p) => self.tx_spec(role.as_u16_spec(), index.as_u64_spec()) == Some(*p),
                None => self.tx_spec(role.as_u16_spec(), index.as_u64_spec()) is None,
            },
    {
        proof {
            use_type_invariant(&*self);
        }
        let key = pack_key(role.as_u16(), index.as_u64());
        self.graph.get(key)
    }

    /// Mutable lookup by role and index: the stored transaction can be
    /// edited in place, and the edit is what every later lookup and rendering
    /// sees; the slot's key, and every other slot, stays where it is.
    pub fn tx_mut<R: TxRole, I: TxIndex>(&mut self, role: R, index: I) -> (r: Option<&mut Psbt>)
        ensures
            match r {
                Some(p) => {
                    &&& old(self).tx_spec(role.as_u16_spec(), index.as_u64_spec()) == Some(*p)
                    &&& final(self).tx_spec(role.as_u16_spec(), index.as_u64_spec()) == Some(
                        *final(p),
                    )
                    &&& forall|r2: u16, i2: u64|
                        !(r2 == role.as_u16_spec() && i2 == index.as_u64_spec())
                            ==> #[trigger] final(self).tx_spec(r2, i2) == old(self).tx_spec(r2, i2)
                    &&& final(self).entries().len() == old(self).entries().len()
                    &&& final(self).entries() == old(self).entries().update(
                        seq_index_of(old(self).entries(), pack_key_spec(role.as_u16_spec(), index.as_u64_spec())),
                        (pack_key_spec(role.as_u16_spec(), index.as_u64_spec()), *final(p)),
                    )
                    &&& final(self).same_params(old(self))
                },
                None => {
                    &&& old(self).tx_spec(role.as_u16_spec(), index.as_u64_spec()) is None
                    &&& *final(self) == *old(self)
                },
            },
    {
        proof {
            use_type_invariant(&*self);
        }
        let key = pack_key(role.as_u16(), index.as_u64());
        let r = self.graph.get_mut(key);
        proof {
            let oe = old(self).entries();
            let ghost r16 = role.as_u16_spec();
            let ghost i64 = index.as_u64_spec();
            assert forall|r2: u16, i2: u64| !(r2 == r16 && i2 == i64) implies #[trigger] pack_key_spec(
                r2,
                i2,
            ) != key by {
                lemma_pack_order(r2, i2, r16, i64);
            }
            if seq_has_key(oe, key) {
                let m = seq_index_of(oe, key);
                assert forall|v: Psbt|
                    {
                        &&& seq_get(#[trigger] oe.update(m, (key, v)), key) == Some(v)
                        &&& forall|k2: u128|
                            k2 != key ==> #[trigger] seq_get(oe.update(m, (key, v)), k2) == seq_get(
                                oe,
                                k2,
                            )
                    } by {
                    lemma_update_value_get(oe, m, key, v);
                }
            }
        }
        r
    }

    /// Insert or overwrite the transaction under (role, index); the previous
    /// holder of the slot, if any, is returned so that callers can detect an
    /// overwrite.
    pub fn insert_tx<R: TxRole, I: TxIndex>(&mut self, role: R, index: I, psbt: Psbt) -> (prev: Option<
        Psbt,
    >)
        ensures
            prev == old(self).tx_spec(role.as_u16_spec(), index.as_u64_spec()),
            final(self).tx_spec(role.as_u16_spec(), index.as_u64_spec()) == Some(psbt),
            forall|r2: u16, i2: u64|
                !(r2 == role.as_u16_spec() && i2 == index.as_u64_spec()) ==> #[trigger] final(self).tx_spec(
                    r2,
                    i2,
                ) == old(self).tx_spec(r2, i2),
            final(self).entries().len() == old(self).entries().len() + (if old(self).has_tx(
                role.as_u16_spec(),
                index.as_u64_spec(),
            ) {
                0int
            } else {
                1int
            }),
            final(self).same_params(old(self)),
    {
        proof {
            use_type_invariant(&*self);
        }
        let r = role.as_u16();
        let i = index.as_u64();
        let key = pack_key(r, i);
        proof {
            lemma_pack_unpack(r, i);
        }
        let mut store = OrderedMap::<Psbt>::new();
        core::mem::swap(&mut self.graph, &mut store);
        let ghost store0 = store;
        let prev = store.insert(key, psbt);
        proof {
            // every key of the new entry sequence was there before or is the
            // packed key just inserted, so the key bound of `wf` is kept
            let oe = store0.entries();
            let se = store.entries();
            assert forall|j2: int| 0 <= j2 < se.len() implies #[trigger] se[j2].0 < 0x1_0000_0000_0000_0000_0000 by {
                if store0.contains_key_spec(key) {
                    let m = store0.spec_index_of(key);
                    assert(se == oe.update(m, (key, psbt)));
                } else {
                    let m = choose|m: int| 0 <= m <= oe.len() && se == oe.insert(m, (key, psbt));
                    assert(se == oe.insert(m, (key, psbt)));
                    assert(j2 < m ==> se[j2] == oe[j2]);
                    assert(j2 > m ==> se[j2] == oe[j2 - 1]);
                }
            }
            assert(seq_keys_below(se, 0x1_0000_0000_0000_0000_0000));
        }
        let ghost store1 = store;
        core::mem::swap(&mut self.graph, &mut store);
        proof {
            assert forall|r2: u16, i2: u64| !(r2 == r && i2 == i) implies #[trigger] self.tx_spec(r2, i2)
                == old(self).tx_spec(r2, i2) by {
                lemma_pack_order(r2, i2, r, i);
                assert(store1.spec_get(pack_key_spec(r2, i2)) == store0.spec_get(
                    pack_key_spec(r2, i2),
                ));
            }
        }
        prev
    }

    /// Total number of stored transactions, over all roles; the funding
    /// transaction and the derived commitment transaction do not count.
    pub fn len(&self) -> (r: usize)
        ensures
            r == self.txs().len(),
    {
        self.graph.len()
    }

    /// The number of stored entries under a role; indices may be sparse, so
    /// this is a count, not a maximal index.
    pub fn last_index<R: TxRole>(&self, role: R) -> (r: usize)
        ensures
            r == count_role(self.txs(), role.as_u16_spec()),
    {
        proof {
            use_type_invariant(&*self);
        }
        let r16 = role.as_u16();
        let lo = pack_key(r16, 0);
        let hi = lo + 0x1_0000_0000_0000_0000;
        proof {
            lemma_pack_unpack(r16, 0);
            lemma_count_range_is_count_role(self.entries(), r16);
        }
        self.graph.count_range(lo, hi)
    }
}

impl TxGraph {
    /// The unsigned commitment transaction derived from the current
    /// parameters, wrapped as a PSBT: never stored, always derived afresh.
    pub open spec fn render_cmt_spec(&self) -> Psbt {
        cmt_psbt_of(
            self.cmt_version_spec(),
            self.cmt_locktime_spec(),
            self.cmt_sequence_spec(),
            self.funding_outpoint_spec(),
            self.cmt_outs_spec(),
        )
    }

    /// Derive the commitment transaction: one input spending the funding
    /// outpoint with empty script sig and witness and the configured
    /// sequence, plus the configured version, lock time and outputs.
    pub fn render_cmt(&self) -> (r: Psbt)
        ensures
            r == self.render_cmt_spec(),
    {
        assemble_cmt_psbt(
            self.cmt_version,
            self.cmt_locktime,
            self.cmt_sequence,
            &self.funding_outpoint,
            &self.cmt_outs,
        )
    }

    /// The canonical flattened view: the freshly derived commitment
    /// transaction first, then every stored transaction ascending by role and
    /// by index within a role.
    pub fn render(&self) -> (r: Vec<Psbt>)
        ensures
            r@.len() == self.txs().len() + 1,
            r@[0] == self.render_cmt_spec(),
            forall|m: int| 0 <= m < self.txs().len() ==> r@[m + 1] == #[trigger] self.txs()[m].2,
    {
        let n = self.graph.len();
        let mut txes: Vec<Psbt> = Vec::with_capacity(n);
        txes.push(self.render_cmt());
        let mut j: usize = 0;
        while j < n
            invariant
                n == self.entries().len(),
                j <= n,
                txes@.len() == j + 1,
                txes@[0] == self.render_cmt_spec(),
                forall|m: int| 0 <= m < j ==> txes@[m + 1] == #[trigger] self.txs()[m].2,
            decreases n - j,
        {
            let e = self.graph.at(j);
            txes.push(e.1.clone());
            j += 1;
        }
        txes
    }

    /// A fresh forward cursor over the stored transactions, starting at role
    /// 0, index 0.
    pub fn iter(&self) -> (r: GraphIter<'_>)
        ensures
            r.graph_spec() == *self,
            r.role_spec() == 0,
            r.index_spec() == 0,
    {
        GraphIter::with(self)
    }
}

impl Default for TxGraph {
    /// A graph with zeroed funding arrangement, the empty version-2 unsigned
    /// transaction as funding transaction, null outpoints, version-2
    /// commitment parameters, no commitment outputs and no stored
    /// transactions.
    fn default() -> (r: Self)
        ensures
            r.entries() == Seq::<(u128, Psbt)>::empty(),
            r.txs().len() == 0,
            forall|role: u16, index: u64| #[trigger] r.tx_spec(role, index) is None,
            r.funding_parties_spec() == 0,
            r.funding_threshold_spec() == 0,
            r.funding_tx_spec() == empty_psbt_of(2),
            r.funding_outpoint_spec() == outpoint_of(Seq::new(32, |i: int| 0u8), u32::MAX),
            r.commitment_outpoint_spec() == outpoint_of(Seq::new(32, |i: int| 0u8), u32::MAX),
            r.cmt_version_spec() == 2,
            r.cmt_locktime_spec() == 0,
            r.cmt_sequence_spec() == 0,
            r.cmt_outs_spec() == Seq::<TxOut>::empty(),
    {
        let zero_txid: [u8; 32] = [0u8; 32];
        proof {
            assert(zero_txid@ =~= Seq::new(32, |i: int| 0u8));
        }
        TxGraph {
            funding_parties: 0,
            funding_threshold: 0,
            funding_tx: empty_unsigned_psbt(2),
            funding_outpoint: outpoint_from_parts(&zero_txid, u32::MAX),
            commitment_outpoint: outpoint_from_parts(&zero_txid, u32::MAX),
            cmt_version: 2,
            cmt_locktime: 0,
            cmt_sequence: 0,
            cmt_outs: Vec::new(),
            graph: OrderedMap::new(),
        }
    }
}

/// A well-formed graph's entry sequence is determined by its per-slot
/// lookups: a sorted candidate sequence of packed keys that agrees with
/// `tx_spec` under every (role, index) pair is the entry sequence itself.
pub proof fn lemma_entries_determined(g: &TxGraph, s: Seq<(u128, Psbt)>)
    requires
        g.wf(),
        seq_wf(s),
        seq_keys_below(s, 0x1_0000_0000_0000_0000_0000),
        forall|role: u16, index: u64| #[trigger] seq_get(s, pack_key_spec(role, index)) == g.tx_spec(
            role,
            index,
        ),
    ensures
        g.entries() == s,
{
    assert forall|k: u128| #[trigger] seq_get(s, k) == seq_get(g.entries(), k) by {
        if k < 0x1_0000_0000_0000_0000_0000 {
            let role = unpack_role(k);
            let index = unpack_index(k);
            assert(pack_key_spec(role, index) == k) by (nonlinear_arith)
                requires
                    k < 0x1_0000_0000_0000_0000_0000,
                    role == unpack_role(k),
                    index == unpack_index(k),
            ;
            assert(seq_get(s, pack_key_spec(role, index)) == g.tx_spec(role, index));
        } else {
            if seq_has_key(s, k) {
                let j = seq_index_of(s, k);
                assert(s[j].0 < 0x1_0000_0000_0000_0000_0000);
            }
            if seq_has_key(g.entries(), k) {
                let j = seq_index_of(g.entries(), k);
                assert(g.entries()[j].0 < 0x1_0000_0000_0000_0000_0000);
            }
        }
    }
    crate::omap::lemma_canonical_form(s, g.entries());
}

/// Two well-formed graphs that store the same transaction under every
/// (role, index) pair and agree on their parameters store their entries in
/// the same order and render the same flattened list: the rendered view is
/// determined by the graph's content alone, as both channel parties require.
pub proof fn lemma_render_deterministic(a: &TxGraph, b: &TxGraph)
    requires
        a.wf(),
        b.wf(),
        forall|r: u16, i: u64| #[trigger] a.tx_spec(r, i) == b.tx_spec(r, i),
        a.same_params(b),
    ensures
        a.entries() == b.entries(),
        a.txs() == b.txs(),
        a.render_cmt_spec() == b.render_cmt_spec(),
{
    assert forall|k: u128| #[trigger] crate::omap::seq_get(a.entries(), k) == crate::omap::seq_get(
        b.entries(),
        k,
    ) by {
        if k < 0x1_0000_0000_0000_0000_0000 {
            let r = unpack_role(k);
            let i = unpack_index(k);
            assert(pack_key_spec(r, i) == k) by (nonlinear_arith)
                requires
                    k < 0x1_0000_0000_0000_0000_0000,
                    r == unpack_role(k),
                    i == unpack_index(k),
            ;
            assert(a.tx_spec(r, i) == b.tx_spec(r, i));
        } else {
            if crate::omap::seq_has_key(a.entries(), k) {
                let j = crate::omap::seq_index_of(a.entries(), k);
                assert(a.entries()[j].0 < 0x1_0000_0000_0000_0000_0000);
            }
            if crate::omap::seq_has_key(b.entries(), k) {
                let j = crate::omap::seq_index_of(b.entries(), k);
                assert(b.entries()[j].0 < 0x1_0000_0000_0000_0000_0000);
            }
        }
    }
    crate::omap::lemma_canonical_form(a.entries(), b.entries());
}

/// The bridge between the per-slot and the flattened model: a graph holds a
/// transaction under (role, index) exactly when some position of `txs()`
/// carries that role and index, and such a position carries the looked-up
/// transaction itself.
pub proof fn lemma_tx_spec_txs(g: &TxGraph, role: u16, index: u64)
    requires
        g.wf(),
    ensures
        g.has_tx(role, index) <==> exists|j: int|
            0 <= j < g.txs().len() && (#[trigger] g.txs()[j]).0 == role && g.txs()[j].1 == index,
        forall|j: int|
            0 <= j < g.txs().len() && (#[trigger] g.txs()[j]).0 == role && g.txs()[j].1 == index
                ==> g.tx_spec(role, index) == Some(g.txs()[j].2),
{
    let e = g.entries();
    let key = pack_key_spec(role, index);
    lemma_pack_unpack(role, index);
    if g.has_tx(role, index) {
        let m = seq_index_of(e, key);
        assert(0 <= m < e.len() && e[m].0 == key);
        assert(g.txs()[m] == (role, index, e[m].1));
    }
    assert forall|j: int|
        0 <= j < g.txs().len() && (#[trigger] g.txs()[j]).0 == role && g.txs()[j].1 == index implies (
    g.has_tx(role, index) && g.tx_spec(role, index) == Some(g.txs()[j].2)) by {
        assert(g.txs()[j] == (unpack_role(e[j].0), unpack_index(e[j].0), e[j].1));
        assert(e[j].0 == key) by (nonlinear_arith)
            requires
                e[j].0 < 0x1_0000_0000_0000_0000_0000,
                unpack_role(e[j].0) == role,
                unpack_index(e[j].0) == index,
                key == pack_key_spec(role, index),
        ;
        assert(seq_has_key(e, key));
        let m = seq_index_of(e, key);
        assert(0 <= m < e.len() && e[m].0 == key);
        if m != j {
            assert(false);
        }
    }
}

/// The flattened view of a graph lists its transactions in strictly
/// ascending (role, index) order: earlier triples carry a smaller role, or
/// the same role and a smaller index.
pub proof fn lemma_txs_ordered(g: &TxGraph)
    requires
        g.wf(),
    ensures
        forall|a: int, b: int|
            0 <= a < b < g.txs().len() ==> (#[trigger] g.txs()[a]).0 < (#[trigger] g.txs()[b]).0 || (
            g.txs()[a].0 == g.txs()[b].0 && g.txs()[a].1 < g.txs()[b].1),
{
    assert forall|a: int, b: int|
        0 <= a < b < g.txs().len() implies (#[trigger] g.txs()[a]).0 < (#[trigger] g.txs()[b]).0 || (
    g.txs()[a].0 == g.txs()[b].0 && g.txs()[a].1 < g.txs()[b].1) by {
        let ka = g.entries()[a].0;
        let kb = g.entries()[b].0;
        assert(ka < kb);
        assert(ka < 0x1_0000_0000_0000_0000_0000);
        assert(kb < 0x1_0000_0000_0000_0000_0000);
        assert(unpack_role(ka) < unpack_role(kb) || (unpack_role(ka) == unpack_role(kb)
            && unpack_index(ka) < unpack_index(kb))) by (nonlinear_arith)
            requires
                ka < kb,
                ka < 0x1_0000_0000_0000_0000_0000,
                kb < 0x1_0000_0000_0000_0000_0000,
        ;
        assert(g.txs()[a] == (unpack_role(ka), unpack_index(ka), g.entries()[a].1));
        assert(g.txs()[b] == (unpack_role(kb), unpack_index(kb), g.entries()[b].1));
    }
}

/// One step of the graph cursor, as a function of the graph and the cursor
/// position alone. Two quirks of the cursor are part of its contract: the
/// index reported in a yielded triple is one past the index that was looked
/// up, and after advancing to the next role only index 0 is probed, so the
/// step after a miss at a fresh role reports nothing even when later indices
/// of that role are occupied.
pub open spec fn iter_step(g: TxGraph, role: u16, index: u64) -> (u16, u64, Option<(u16, u64, Psbt)>) {
    if g.has_tx(role, index) {
        if index == u64::MAX {
            (role, index, None::<(u16, u64, Psbt)>)
        } else {
            (role, (index + 1) as u64, Some((role, (index + 1) as u64, g.tx_spec(role, index)->Some_0)))
        }
    } else if role == u16::MAX {
        (role, index, None)
    } else {
        let r2 = (role + 1) as u16;
        if g.has_tx(r2, 0) {
            (r2, 1u64, Some((r2, 1u64, g.tx_spec(r2, 0)->Some_0)))
        } else {
            (r2, 1u64, None)
        }
    }
}

/// A restartable, forward-only cursor over a transaction graph in ascending
/// (role, index) order. Each step is `iter_step` of the unchanged graph and
/// the current position; see there for the two reported-position quirks kept
/// for compatibility. A step that reports nothing still advances the cursor
/// past the role it probed, so a later call can resume and yield again when
/// a following call's position hits an occupied slot; only a caller that
/// stops at the first `None`, as iteration normally does, sees the walk end
/// at the first gap. Where the position counters would wrap around, the
/// cursor reports nothing and stays put.
pub struct GraphIter<'a> {
    graph: &'a TxGraph,
    curr_role: u16,
    curr_index: u64,
}

impl<'a> GraphIter<'a> {
    pub closed spec fn graph_spec(&self) -> TxGraph {
        *self.graph
    }

    pub closed spec fn role_spec(&self) -> u16 {
        self.curr_role
    }

    pub closed spec fn index_spec(&self) -> u64 {
        self.curr_index
    }

    fn with(graph: &'a TxGraph) -> (r: GraphIter<'a>)
        ensures
            r.graph_spec() == *graph,
            r.role_spec() == 0,
            r.index_spec() == 0,
    {
        GraphIter { graph, curr_role: 0, curr_index: 0 }
    }

    /// Yield the triple `iter_step` reports at the current position and move
    /// to the position it reports.
    pub fn next(&mut self) -> (r: Option<(u16, u64, &'a Psbt)>)
        ensures
            final(self).graph_spec() == old(self).graph_spec(),
            ({
                let s = iter_step(old(self).graph_spec(), old(self).role_spec(), old(self).index_spec());
                &&& final(self).role_spec() == s.0
                &&& final(self).index_spec() == s.1
                &&& (match r {
                    Some(t) => s.2 == Some((t.0, t.1, *t.2)),
                    None => s.2 is None,
                })
            }),
    {
        let g = self.graph;
        match g.tx(self.curr_role, self.curr_index) {
            Some(p) => {
                if self.curr_index == u64::MAX {
                    return None;
                }
                self.curr_index = self.curr_index + 1;
                Some((self.curr_role, self.curr_index, p))
            },
            None => {
                if self.curr_role == u16::MAX {
                    return None;
                }
                self.curr_role = self.curr_role + 1;
                let hit = g.tx(self.curr_role, 0u64);
                self.curr_index = 1;
                match hit {
                    Some(p) => Some((self.curr_role, 1, p)),
                    None => None,
                }
            },
        }
    }
}

/// How many triples of `s` carry the given role.
pub open spec fn count_role(s: Seq<(u16, u64, Psbt)>, role: u16) -> nat
    decreases s.len(),
{
    if s.len() == 0 {
        0
    } else {
        count_role(s.drop_last(), role) + (if s.last().0 == role {
            1nat
        } else {
            0nat
        })
    }
}

/// Counting packed keys in a role's key range counts exactly the triples
/// carrying that role.
proof fn lemma_count_range_is_count_role(s: Seq<(u128, Psbt)>, role: u16)
    requires
        seq_keys_below(s, 0x1_0000_0000_0000_0000_0000),
    ensures
        seq_count_range(s, pack_key_spec(role, 0), (pack_key_spec(role, 0) + 0x1_0000_0000_0000_0000) as u128)
            == count_role(
            s.map_values(|e: (u128, Psbt)| (unpack_role(e.0), unpack_index(e.0), e.1)),
            role,
        ),
    decreases s.len(),
{
    let t = s.map_values(|e: (u128, Psbt)| (unpack_role(e.0), unpack_index(e.0), e.1));
    if s.len() == 0 {
    } else {
        let lo = pack_key_spec(role, 0);
        let hi = (pack_key_spec(role, 0) + 0x1_0000_0000_0000_0000) as u128;
        assert(seq_keys_below(s.drop_last(), 0x1_0000_0000_0000_0000_0000)) by {
            assert forall|j: int| 0 <= j < s.drop_last().len() implies #[trigger] s.drop_last()[j].0
                < 0x1_0000_0000_0000_0000_0000 by {
                assert(s.drop_last()[j] == s[j]);
                assert(s[j].0 < 0x1_0000_0000_0000_0000_0000);
            }
        }
        lemma_count_range_is_count_role(s.drop_last(), role);
        assert(s.drop_last().map_values(|e: (u128, Psbt)| (unpack_role(e.0), unpack_index(e.0), e.1))
            =~= t.drop_last());
        let k = s.last().0;
        assert(s[s.len() - 1].0 < 0x1_0000_0000_0000_0000_0000);
        assert(t.last() == (unpack_role(k), unpack_index(k), s.last().1));
        assert((lo <= k < hi) <==> unpack_role(k) == role) by (nonlinear_arith)
            requires
                k < 0x1_0000_0000_0000_0000_0000,
                lo == pack_key_spec(role, 0),
                hi == (pack_key_spec(role, 0) + 0x1_0000_0000_0000_0000) as u128,
        ;
    }
}

} // verus!
