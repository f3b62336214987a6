//! The channel: one constructor extension plus two ordered collections of
//! extension objects (extenders, then modifiers), driven in a fixed order —
//! constructor first, then every extender in ascending identity order, then
//! every modifier in ascending identity order. The first error aborts the
//! remaining phases; side effects already applied are not rolled back.

use vstd::prelude::*;

use lnp2p::bolt::Messages;

use crate::extension::{ChannelExtension, Extension, Nomenclature, StateOf};
use crate::graph::TxGraph;
use crate::omap::{
    lemma_same_keys_wf, lemma_snoc_get, seq_get, seq_keys_below, seq_wf, OrderedMap,
};

verus! {

/// The uniform failure signal of every channel operation: a coarse, human
/// readable message, not a recovery mechanism.
#[derive(Clone, Debug, PartialEq, Eq, Hash)]
pub enum Error {
    /// A failure some extension reports.
    Extension(String),
    /// A failure of the HTLC subsystem.
    Htlc(String),
}

/// Marker capability for any data that can be used as a part of the channel
/// state.
pub trait State {}

impl State for () {

}

/// What a pair sequence of extensions holds under an identity rank: the
/// extension's own state, if an extension with that rank is stored.
pub open spec fn entry_state_get<N: Nomenclature>(s: Seq<(u128, N::Ext)>, k: u64) -> Option<
    StateOf<N>,
> {
    match seq_get(s, k as u128) {
        Some(e) => Some(e.state_spec()),
        None => None,
    }
}

/// The extension that survives a left-to-right fold of `s` into an
/// identity-keyed collection: the last entry whose identity rank is `k`.
pub open spec fn queue_fold<N: Nomenclature>(s: Seq<N::Ext>, k: u64) -> Option<N::Ext>
    decreases s.len(),
{
    if s.len() == 0 {
        None
    } else if s.last().identity_spec().key_spec() == k {
        Some(s.last())
    } else {
        queue_fold::<N>(s.drop_last(), k)
    }
}

/// An ordered collection of extension objects keyed by identity rank; at most
/// one extension per distinct identity, insertion replaces (last write wins).
pub struct ExtensionQueue<N: Nomenclature> {
    exts: OrderedMap<N::Ext>,
}

impl<N: Nomenclature> ExtensionQueue<N> {
    pub closed spec fn entries(&self) -> Seq<(u128, N::Ext)> {
        self.exts.entries()
    }

    /// Well-formed: keys strictly ascending, every key an identity rank.
    #[verifier::type_invariant]
    pub open spec fn wf(&self) -> bool {
        seq_wf(self.entries()) && seq_keys_below(self.entries(), 0x1_0000_0000_0000_0000)
    }

    /// The extension stored under an identity rank, if any.
    pub open spec fn spec_get(&self, k: u64) -> Option<N::Ext> {
        seq_get(self.entries(), k as u128)
    }

    /// The stored identity ranks, in storage order.
    pub open spec fn keys(&self) -> Seq<u64> {
        self.entries().map_values(|e: (u128, N::Ext)| e.0 as u64)
    }

    pub fn new() -> (r: Self)
        ensures
            r.entries() == Seq::<(u128, N::Ext)>::empty(),
    {
        ExtensionQueue { exts: OrderedMap::new() }
    }

    pub fn len(&self) -> (r: usize)
        ensures
            r == self.entries().len(),
    {
        self.exts.len()
    }

    /// Look an extension up by the rank of its identity.
    pub fn get(&self, key: u64) -> (r: Option<&N::Ext>)
        ensures
            match r {
                Some(e) => self.spec_get(key) == Some(*e),
                None => self.spec_get(key) is None,
            },
    {
        proof {
            use_type_invariant(&*self);
        }
        self.exts.get(key as u128)
    }

    /// Insert an extension under the rank of its identity, replacing and
    /// returning the previous holder of that identity, if any.
    pub fn insert(&mut self, ext: N::Ext) -> (prev: Option<N::Ext>)
        ensures
            prev == old(self).spec_get(ext.identity_spec().key_spec()),
            final(self).spec_get(ext.identity_spec().key_spec()) == Some(ext),
            forall|k2: u64|
                k2 != ext.identity_spec().key_spec() ==> #[trigger] final(self).spec_get(k2) == old(
                    self,
                ).spec_get(k2),
            final(self).entries().len() == old(self).entries().len() + (if old(self).spec_get(
                ext.identity_spec().key_spec(),
            ) is Some {
                0int
            } else {
                1int
            }),
    {
        proof {
            use_type_invariant(&*self);
        }
        let key = ext.identity().key() as u128;
        let mut store = OrderedMap::<N::Ext>::new();
        core::mem::swap(&mut self.exts, &mut store);
        let ghost store0 = store;
        let prev = store.insert(key, ext);
        proof {
            let oe = store0.entries();
            let se = store.entries();
            assert forall|j: int| 0 <= j < se.len() implies #[trigger] se[j].0 < 0x1_0000_0000_0000_0000 by {
                if store0.contains_key_spec(key) {
                    let m = store0.spec_index_of(key);
                    assert(se == oe.update(m, (key, ext)));
                } else {
                    let m = choose|m: int| 0 <= m <= oe.len() && se == oe.insert(m, (key, ext));
                    assert(se == oe.insert(m, (key, ext)));
                    assert(j < m ==> se[j] == oe[j]);
                    assert(j > m ==> se[j] == oe[j - 1]);
                }
            }
            assert(seq_keys_below(se, 0x1_0000_0000_0000_0000));
        }
        let ghost store1 = store;
        core::mem::swap(&mut self.exts, &mut store);
        proof {
            assert forall|k2: u64| k2 != ext.identity_spec().key_spec() implies #[trigger] self.spec_get(
                k2,
            ) == old(self).spec_get(k2) by {
                assert((k2 as u128) != key);
                assert(store1.spec_get(k2 as u128) == store0.spec_get(k2 as u128));
            }
        }
        prev
    }

    /// Hand the peer message to every stored extension, front to back, so in
    /// ascending identity order; the first error aborts the walk. The set and
    /// order of stored identities is unchanged.
    pub(crate) fn update_all(&mut self, message: &Messages) -> (r: Result<(), Error>)
        ensures
            final(self).entries().len() == old(self).entries().len(),
            forall|m: int|
                0 <= m < old(self).entries().len() ==> #[trigger] final(self).entries()[m].0 == old(
                    self,
                ).entries()[m].0,
    {
        proof {
            use_type_invariant(&*self);
        }
        let mut store = OrderedMap::<N::Ext>::new();
        core::mem::swap(&mut self.exts, &mut store);
        let n = store.len();
        let mut j: usize = 0;
        while j < n
            invariant
                n == store.entries().len(),
                j <= n,
                store.entries().len() == old(self).entries().len(),
                forall|m: int|
                    0 <= m < n ==> #[trigger] store.entries()[m].0 == old(self).entries()[m].0,
                seq_wf(store.entries()),
                seq_keys_below(store.entries(), 0x1_0000_0000_0000_0000),
            decreases n - j,
        {
            let ghost snap = store.entries();
            let pair = store.remove_at(j);
            let k = pair.0;
            let mut e = pair.1;
            let res = e.update_from_peer(message);
            store.insert_at(j, (k, e));
            proof {
                assert(store.entries() =~= snap.update(j as int, store.entries()[j as int]));
                lemma_same_keys_wf(snap, store.entries());
                assert forall|m: int|
                    0 <= m < store.entries().len() implies #[trigger] store.entries()[m].0
                    < 0x1_0000_0000_0000_0000 by {
                    assert(snap[m].0 < 0x1_0000_0000_0000_0000);
                }
                assert(seq_keys_below(store.entries(), 0x1_0000_0000_0000_0000));
            }
            if let Err(err) = res {
                core::mem::swap(&mut self.exts, &mut store);
                return Err(err);
            }
            j += 1;
        }
        core::mem::swap(&mut self.exts, &mut store);
        Ok(())
    }

    /// Let every stored extension mutate the shared graph, front to back, so
    /// in ascending identity order; the first error aborts the walk. The set
    /// and order of stored identities is unchanged and the graph stays
    /// well-formed.
    pub(crate) fn apply_all(&mut self, tx_graph: &mut TxGraph) -> (r: Result<(), Error>)
        ensures
            final(self).entries().len() == old(self).entries().len(),
            forall|m: int|
                0 <= m < old(self).entries().len() ==> #[trigger] final(self).entries()[m].0 == old(
                    self,
                ).entries()[m].0,
    {
        proof {
            use_type_invariant(&*self);
        }
        let mut store = OrderedMap::<N::Ext>::new();
        core::mem::swap(&mut self.exts, &mut store);
        let n = store.len();
        let mut j: usize = 0;
        while j < n
            invariant
                n == store.entries().len(),
                j <= n,
                store.entries().len() == old(self).entries().len(),
                forall|m: int|
                    0 <= m < n ==> #[trigger] store.entries()[m].0 == old(self).entries()[m].0,
                seq_wf(store.entries()),
                seq_keys_below(store.entries(), 0x1_0000_0000_0000_0000),
            decreases n - j,
        {
            let ghost snap = store.entries();
            let pair = store.remove_at(j);
            let k = pair.0;
            let mut e = pair.1;
            let res = e.apply(tx_graph);
            store.insert_at(j, (k, e));
            proof {
                assert(store.entries() =~= snap.update(j as int, store.entries()[j as int]));
                lemma_same_keys_wf(snap, store.entries());
                assert forall|m: int|
                    0 <= m < store.entries().len() implies #[trigger] store.entries()[m].0
                    < 0x1_0000_0000_0000_0000 by {
                    assert(snap[m].0 < 0x1_0000_0000_0000_0000);
                }
                assert(seq_keys_below(store.entries(), 0x1_0000_0000_0000_0000));
            }
            if let Err(err) = res {
                core::mem::swap(&mut self.exts, &mut store);
                return Err(err);
            }
            j += 1;
        }
        core::mem::swap(&mut self.exts, &mut store);
        Ok(())
    }

    /// Put every stored extension's own state into the snapshot under the
    /// extension's stored rank, front to back: an entry of the queue
    /// overrides what the snapshot held under the same rank before.
    pub(crate) fn collect_states(&self, data: &mut IntegralState<N>)
        ensures
            forall|k: u64|
                #[trigger] final(data).spec_get(k) == (match entry_state_get::<N>(self.entries(), k) {
                    Some(st) => Some(st),
                    None => old(data).spec_get(k),
                }),
    {
        proof {
            use_type_invariant(&*self);
        }
        let n = self.exts.len();
        let mut j: usize = 0;
        while j < n
            invariant
                self.wf(),
                n == self.entries().len(),
                j <= n,
                forall|k: u64|
                    #[trigger] data.spec_get(k) == (match entry_state_get::<N>(
                        self.entries().take(j as int),
                        k,
                    ) {
                        Some(st) => Some(st),
                        None => old(data).spec_get(k),
                    }),
            decreases n - j,
        {
            let pair = self.exts.at(j);
            proof {
                assert(self.entries()[j as int].0 < 0x1_0000_0000_0000_0000);
            }
            let k64 = pair.0 as u64;
            let st = pair.1.extension_state();
            data.insert(k64, st);
            proof {
                let prefix = self.entries().take(j as int);
                let e = self.entries()[j as int];
                assert(self.entries().take(j + 1) =~= prefix.push(e));
                assert(seq_wf(prefix.push(e)));
                assert forall|k: u64|
                    #[trigger] data.spec_get(k) == (match entry_state_get::<N>(
                        self.entries().take(j + 1),
                        k,
                    ) {
                        Some(st2) => Some(st2),
                        None => old(data).spec_get(k),
                    }) by {
                    lemma_snoc_get(prefix, e, k as u128);
                }
            }
            j += 1;
        }
        proof {
            assert(self.entries().take(n as int) =~= self.entries());
        }
    }
}

/// A point-in-time snapshot of the union of all extension states: an ordered
/// mapping from identity rank to one opaque, owned state value. Built fresh
/// on every query, never mutated in place by the framework.
pub struct IntegralState<N: Nomenclature> {
    states: OrderedMap<StateOf<N>>,
}

impl<N: Nomenclature> IntegralState<N> {
    pub closed spec fn entries(&self) -> Seq<(u128, StateOf<N>)> {
        self.states.entries()
    }

    #[verifier::type_invariant]
    pub open spec fn wf(&self) -> bool {
        seq_wf(self.entries())
    }

    /// The state recorded under an identity rank, if any.
    pub open spec fn spec_get(&self, k: u64) -> Option<StateOf<N>> {
        seq_get(self.entries(), k as u128)
    }

    pub fn new() -> (r: Self)
        ensures
            forall|k: u64| #[trigger] r.spec_get(k) is None,
    {
        IntegralState { states: OrderedMap::new() }
    }

    pub fn len(&self) -> (r: usize)
        ensures
            r == self.entries().len(),
    {
        self.states.len()
    }

    /// Record a state under an identity rank, replacing what the rank held.
    pub fn insert(&mut self, key: u64, state: StateOf<N>) -> (prev: Option<
        StateOf<N>,
    >)
        ensures
            prev == old(self).spec_get(key),
            final(self).spec_get(key) == Some(state),
            forall|k2: u64| k2 != key ==> #[trigger] final(self).spec_get(k2) == old(self).spec_get(k2),
    {
        proof {
            use_type_invariant(&*self);
        }
        let mut store = OrderedMap::<StateOf<N>>::new();
        core::mem::swap(&mut self.states, &mut store);
        let ghost store0 = store;
        let prev = store.insert(key as u128, state);
        let ghost store1 = store;
        core::mem::swap(&mut self.states, &mut store);
        proof {
            assert forall|k2: u64| k2 != key implies #[trigger] self.spec_get(k2) == old(self).spec_get(
                k2,
            ) by {
                assert((k2 as u128) != (key as u128));
                assert(store1.spec_get(k2 as u128) == store0.spec_get(k2 as u128));
            }
        }
        prev
    }

    /// Look a state up by identity rank.
    pub fn get(&self, key: u64) -> (r: Option<&StateOf<N>>)
        ensures
            match r {
                Some(st) => self.spec_get(key) == Some(*st),
                None => self.spec_get(key) is None,
            },
    {
        proof {
            use_type_invariant(&*self);
        }
        self.states.get(key as u128)
    }
}

impl<N: Nomenclature> State for IntegralState<N> {

}

/// The composite: a channel drives one constructor and two ordered queues of
/// extensions and is itself built and queried through the same protocol.
pub struct Channel<N: Nomenclature> {
    constructor: N::Ext,
    extenders: ExtensionQueue<N>,
    modifiers: ExtensionQueue<N>,
}

impl<N: Nomenclature> Channel<N> {
    pub closed spec fn constructor_spec(&self) -> N::Ext {
        self.constructor
    }

    pub closed spec fn extenders_spec(&self) -> ExtensionQueue<N> {
        self.extenders
    }

    pub closed spec fn modifiers_spec(&self) -> ExtensionQueue<N> {
        self.modifiers
    }

    pub open spec fn wf(&self) -> bool {
        self.extenders_spec().wf() && self.modifiers_spec().wf()
    }

    pub open spec fn extender_get(&self, k: u64) -> Option<N::Ext> {
        self.extenders_spec().spec_get(k)
    }

    pub open spec fn modifier_get(&self, k: u64) -> Option<N::Ext> {
        self.modifiers_spec().spec_get(k)
    }

    /// What a state snapshot of this channel holds under rank `k`: the
    /// modifier of that rank wins over the extender of that rank, which wins
    /// over the constructor — later insertions into the snapshot overwrite.
    pub open spec fn integral_state_at(&self, k: u64) -> Option<StateOf<N>> {
        match entry_state_get::<N>(self.modifiers_spec().entries(), k) {
            Some(st) => Some(st),
            None => match entry_state_get::<N>(self.extenders_spec().entries(), k) {
                Some(st) => Some(st),
                None => if k == self.constructor_spec().identity_spec().key_spec() {
                    Some(self.constructor_spec().state_spec())
                } else {
                    None
                },
            },
        }
    }

    /// Compose a channel from one constructor and two extension lists; each
    /// list is folded into an identity-keyed collection, later entries
    /// overwriting earlier entries that share an identity.
    pub fn with(constructor: N::Ext, extenders: Vec<N::Ext>, modifiers: Vec<N::Ext>) -> (r: Self)
        ensures
            r.constructor_spec() == constructor,
            forall|k: u64| #[trigger] r.extender_get(k) == queue_fold::<N>(extenders@, k),
            forall|k: u64| #[trigger] r.modifier_get(k) == queue_fold::<N>(modifiers@, k),
    {
        let ext_queue = Self::fold_queue(extenders);
        let mod_queue = Self::fold_queue(modifiers);
        Channel { constructor, extenders: ext_queue, modifiers: mod_queue }
    }

    /// Fold a list of extensions into an identity-keyed queue, last write
    /// winning per identity.
    fn fold_queue(exts: Vec<N::Ext>) -> (r: ExtensionQueue<N>)
        ensures
            forall|k: u64| #[trigger] r.spec_get(k) == queue_fold::<N>(exts@, k),
    {
        let ghost orig = exts@;
        let mut remaining = exts;
        let mut queue = ExtensionQueue::<N>::new();
        while remaining.len() > 0
            invariant
                remaining@.len() <= orig.len(),
                remaining@ == orig.subrange(
                    orig.len() - remaining@.len(),
                    orig.len() as int,
                ),
                forall|k: u64|
                    #[trigger] queue.spec_get(k) == queue_fold::<N>(
                        orig.take(orig.len() - remaining@.len()),
                        k,
                    ),
            decreases remaining@.len(),
        {
            let ghost processed = orig.len() - remaining@.len();
            let e = remaining.remove(0);
            proof {
                assert(e == orig[processed]);
                assert(remaining@ =~= orig.subrange(processed + 1, orig.len() as int));
            }
            queue.insert(e);
            proof {
                let prefix1 = orig.take(processed + 1);
                assert(prefix1.drop_last() =~= orig.take(processed));
                assert(prefix1.last() == orig[processed]);
            }
        }
        proof {
            assert(orig.take(orig.len() as int) =~= orig);
        }
        queue
    }

    /// Insert or replace an extender by its identity.
    pub fn add_extension(&mut self, extension: N::Ext)
        ensures
            final(self).extender_get(extension.identity_spec().key_spec()) == Some(extension),
            forall|k2: u64|
                k2 != extension.identity_spec().key_spec() ==> #[trigger] final(self).extender_get(k2)
                    == old(self).extender_get(k2),
            final(self).modifiers_spec() == old(self).modifiers_spec(),
            final(self).constructor_spec() == old(self).constructor_spec(),
    {
        self.extenders.insert(extension);
    }

    /// Insert or replace a modifier by its identity.
    pub fn add_modifier(&mut self, modifier: N::Ext)
        ensures
            final(self).modifier_get(modifier.identity_spec().key_spec()) == Some(modifier),
            forall|k2: u64|
                k2 != modifier.identity_spec().key_spec() ==> #[trigger] final(self).modifier_get(k2)
                    == old(self).modifier_get(k2),
            final(self).extenders_spec() == old(self).extenders_spec(),
            final(self).constructor_spec() == old(self).constructor_spec(),
    {
        self.modifiers.insert(modifier);
    }

    pub fn constructor(&self) -> (r: &N::Ext)
        ensures
            *r == self.constructor_spec(),
    {
        &self.constructor
    }

    pub fn extenders(&self) -> (r: &ExtensionQueue<N>)
        ensures
            *r == self.extenders_spec(),
    {
        &self.extenders
    }

    pub fn modifiers(&self) -> (r: &ExtensionQueue<N>)
        ensures
            *r == self.modifiers_spec(),
    {
        &self.modifiers
    }

    /// The identity under which the channel, itself an extension of sorts,
    /// reports: the nomenclature's default identity.
    pub fn identity(&self) -> (r: N)
        ensures
            r == N::default_id_spec(),
    {
        N::default_id()
    }

    /// Feed a peer message through the channel: first the nomenclature-level
    /// reaction, then the constructor, then every extender in ascending
    /// identity order, then every modifier in ascending identity order. The
    /// first error aborts the sequence; earlier side effects stay in place.
    ///
    /// No postcondition is stated: the first call hands the whole channel to
    /// the nomenclature's reaction, whose semantics are deliberately left to
    /// the implementor, so no state fact survives it. Well-formedness of the
    /// queues is carried by their type invariants, and the visiting order is
    /// fixed by this body together with `lemma_visit_order`.
    pub fn update_from_peer(&mut self, message: &Messages) -> Result<(), Error> {
        N::update_from_peer(self, message)?;
        self.constructor.update_from_peer(message)?;
        self.extenders.update_all(message)?;
        self.modifiers.update_all(message)?;
        Ok(())
    }

    /// A fresh snapshot of the union of all children's states: constructor
    /// first, then extenders, then modifiers, later insertions overwriting a
    /// shared identity rank.
    pub fn extension_state(&self) -> (r: IntegralState<N>)
        ensures
            forall|k: u64| #[trigger] r.spec_get(k) == self.integral_state_at(k),
    {
        let mut data = IntegralState::<N>::new();
        let cid = self.constructor.identity();
        data.insert(cid.key(), self.constructor.extension_state());
        self.extenders.collect_states(&mut data);
        self.modifiers.collect_states(&mut data);
        data
    }

    /// Identical to `extension_state`: the channel-level snapshot aggregates
    /// the children's own states the same way.
    pub fn channel_state(&self) -> (r: IntegralState<N>)
        ensures
            forall|k: u64| #[trigger] r.spec_get(k) == self.integral_state_at(k),
    {
        let mut data = IntegralState::<N>::new();
        let cid = self.constructor.identity();
        data.insert(cid.key(), self.constructor.extension_state());
        self.extenders.collect_states(&mut data);
        self.modifiers.collect_states(&mut data);
        data
    }

    /// Drive construction of the shared transaction graph in the same three
    /// phases as `update_from_peer`: constructor, extenders ascending,
    /// modifiers ascending; the first error aborts and is propagated, with no
    /// rollback of partial graph mutation.
    pub fn apply(&mut self, tx_graph: &mut TxGraph) -> (r: Result<(), Error>)
        ensures
            final(self).extenders_spec().entries().len() == old(self).extenders_spec().entries().len(),
            forall|m: int|
                0 <= m < old(self).extenders_spec().entries().len()
                    ==> #[trigger] final(self).extenders_spec().entries()[m].0 == old(
                    self,
                ).extenders_spec().entries()[m].0,
            final(self).modifiers_spec().entries().len() == old(self).modifiers_spec().entries().len(),
            forall|m: int|
                0 <= m < old(self).modifiers_spec().entries().len()
                    ==> #[trigger] final(self).modifiers_spec().entries()[m].0 == old(
                    self,
                ).modifiers_spec().entries()[m].0,
    {
        self.constructor.apply(tx_graph)?;
        self.extenders.apply_all(tx_graph)?;
        self.modifiers.apply_all(tx_graph)?;
        Ok(())
    }
}

impl<N: Nomenclature> Default for Channel<N> {
    /// A channel composed of the nomenclature's default constructor,
    /// extenders and modifiers.
    fn default() -> (r: Self)
        ensures
            r.constructor_spec() == N::default_constructor_spec(),
            forall|k: u64|
                #[trigger] r.extender_get(k) == queue_fold::<N>(N::default_extenders_spec()@, k),
            forall|k: u64|
                #[trigger] r.modifier_get(k) == queue_fold::<N>(N::default_modifiers_spec()@, k),
    {
        Channel::with(N::default_constructor(), N::default_extenders(), N::default_modifiers())
    }
}

/// Driving order of a well-formed channel: within each class the queue is
/// walked front to back, and its identity ranks ascend strictly — so one
/// call of `update_from_peer` or `apply` visits each extender exactly once in
/// ascending identity order, then each modifier exactly once in ascending
/// identity order, after the single constructor.
pub proof fn lemma_visit_order<N: Nomenclature>(channel: &Channel<N>)
    requires
        channel.wf(),
    ensures
        forall|a: int, b: int|
            0 <= a < b < channel.extenders_spec().keys().len() ==> #[trigger] channel.extenders_spec().keys()[a]
                < #[trigger] channel.extenders_spec().keys()[b],
        forall|a: int, b: int|
            0 <= a < b < channel.modifiers_spec().keys().len() ==> #[trigger] channel.modifiers_spec().keys()[a]
                < #[trigger] channel.modifiers_spec().keys()[b],
{
    let ee = channel.extenders_spec().entries();
    let me = channel.modifiers_spec().entries();
    assert forall|a: int, b: int|
        0 <= a < b < channel.extenders_spec().keys().len() implies #[trigger] channel.extenders_spec().keys()[a]
        < #[trigger] channel.extenders_spec().keys()[b] by {
        assert(ee[a].0 < ee[b].0);
        assert(ee[a].0 < 0x1_0000_0000_0000_0000);
        assert(ee[b].0 < 0x1_0000_0000_0000_0000);
    }
    assert forall|a: int, b: int|
        0 <= a < b < channel.modifiers_spec().keys().len() implies #[trigger] channel.modifiers_spec().keys()[a]
        < #[trigger] channel.modifiers_spec().keys()[b] by {
        assert(me[a].0 < me[b].0);
        assert(me[a].0 < 0x1_0000_0000_0000_0000);
    }
}

/// The aggregated snapshot reflects only the latest holder of an identity:
/// under a rank that no modifier occupies, the snapshot carries exactly the
/// state of the extender stored under that rank, which insertion ensures is
/// the last one added. (A modifier sharing an extender's rank overwrites its
/// entry in the snapshot; keeping ranks distinct across the two classes is
/// the caller's responsibility.)
pub proof fn lemma_snapshot_reflects_latest<N: Nomenclature>(channel: &Channel<N>, k: u64)
    requires
        channel.modifier_get(k) is None,
        channel.extender_get(k) is Some,
    ensures
        channel.integral_state_at(k) == Some(channel.extender_get(k)->Some_0.state_spec()),
{
}

/// Folding two extensions that share an identity: the later one overwrites
/// the earlier one, under every rank the fold behaves as if only the later
/// had been appended.
pub proof fn lemma_later_entry_overwrites<N: Nomenclature>(s: Seq<N::Ext>, e1: N::Ext, e2: N::Ext)
    requires
        e1.identity_spec().key_spec() == e2.identity_spec().key_spec(),
    ensures
        forall|k: u64|
            #[trigger] queue_fold::<N>(s.push(e1).push(e2), k) == queue_fold::<N>(s.push(e2), k),
{
    assert forall|k: u64|
        #[trigger] queue_fold::<N>(s.push(e1).push(e2), k) == queue_fold::<N>(s.push(e2), k) by {
        let s12 = s.push(e1).push(e2);
        let s2 = s.push(e2);
        assert(s12.last() == e2);
        assert(s2.last() == e2);
        if e2.identity_spec().key_spec() != k {
            assert(s12.drop_last() =~= s.push(e1));
            assert(s2.drop_last() =~= s);
            assert(s.push(e1).last() == e1);
            assert(s.push(e1).drop_last() =~= s);
            assert(queue_fold::<N>(s12, k) == queue_fold::<N>(s.push(e1), k));
            assert(queue_fold::<N>(s.push(e1), k) == queue_fold::<N>(s, k));
            assert(queue_fold::<N>(s2, k) == queue_fold::<N>(s, k));
        } else {
            assert(queue_fold::<N>(s12, k) == Some(e2));
            assert(queue_fold::<N>(s2, k) == Some(e2));
        }
    }
}

} // verus!
