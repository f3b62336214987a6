//! The extension composition protocol: the capabilities every pluggable unit
//! of channel behaviour must offer, and the identity ("nomenclature") type
//! that names extensions, orders them and supplies a channel's defaults.
//!
//! An extension is one of three semantic classes: a constructor builds the
//! base transaction graph, extenders add outputs and transactions, modifiers
//! reorder or tweak what exists without changing any count. The classes are a
//! convention between extensions; the framework only fixes the order in which
//! they are driven.

use vstd::prelude::*;

use lnp2p::bolt::Messages;

use crate::channel::{Channel, Error, State};
use crate::graph::TxGraph;

verus! {

#[verifier::external_type_specification]
#[verifier::external_body]
pub struct ExMessages(Messages);

/// The capability set of every pluggable behaviour unit.
pub trait Extension: Sized {
    /// The identity type naming this extension within a channel.
    type Identity;

    /// The opaque state value this extension owns.
    type State: State;

    spec fn identity_spec(&self) -> Self::Identity;

    /// Pure: report the extension's identity.
    fn identity(&self) -> (id: Self::Identity)
        ensures
            id == self.identity_spec(),
    ;

    /// Absorb a peer protocol message, mutating only the extension's own
    /// state; an error is fatal to the current batch of processing.
    fn update_from_peer(&mut self, message: &Messages) -> Result<(), Error>;

    spec fn state_spec(&self) -> Self::State;

    /// Pure: report exactly the extension's own state, no children's.
    fn extension_state(&self) -> (s: Self::State)
        ensures
            s == self.state_spec(),
    ;
}

/// The capability set of extensions that take part in building the shared
/// transaction graph.
pub trait ChannelExtension: Extension {
    /// The extension's contribution to the channel-level state.
    fn channel_state(&self) -> Self::State;

    /// Mutate the shared transaction graph. Re-applying with unchanged
    /// internal state must not duplicate committed outputs; that idempotence
    /// is the concrete extension's responsibility.
    fn apply(&mut self, tx_graph: &mut TxGraph) -> Result<(), Error>;
}

/// The identity type of extensions: it names every extension instance of a
/// channel, defines the ascending order in which same-class extensions are
/// driven (the order of their `key` ranks, which must agree on both channel
/// parties), and supplies the extension sets of a freshly created channel.
pub trait Nomenclature: Sized {
    /// The closed extension type of channels named by this nomenclature,
    /// typically a tagged variant over the known extension kinds.
    type Ext: ChannelExtension<Identity = Self>;

    /// The rank deciding this identity's place in the total order. Distinct
    /// identities must report distinct ranks — the collections of a channel
    /// are keyed by rank — and the rank order is the driving order that both
    /// channel parties must share.
    spec fn key_spec(&self) -> u64;

    /// Pure: report the identity's rank.
    fn key(&self) -> (k: u64)
        ensures
            k == self.key_spec(),
    ;

    spec fn default_id_spec() -> Self;


    /// The identity under which a whole channel reports itself.
    fn default_id() -> (r: Self)
        ensures
            r == Self::default_id_spec(),
    ;

    spec fn default_constructor_spec() -> Self::Ext;

    /// The constructor extension of a freshly created channel.
    fn default_constructor() -> (r: Self::Ext)
        ensures
            r == Self::default_constructor_spec(),
    ;

    spec fn default_extenders_spec() -> Vec<Self::Ext>;

    /// The extender extensions of a freshly created channel.
    fn default_extenders() -> (r: Vec<Self::Ext>)
        ensures
            r@ == Self::default_extenders_spec()@,
    ;

    spec fn default_modifiers_spec() -> Vec<Self::Ext>;

    /// The modifier extensions of a freshly created channel.
    fn default_modifiers() -> (r: Vec<Self::Ext>)
        ensures
            r@ == Self::default_modifiers_spec()@,
    ;

    /// Channel-level reaction to a peer message, run before any extension
    /// sees the message. A reaction is meant to respond to the message, not
    /// to restructure the channel; that expectation stays informal, since a
    /// contract on this method cannot mention the channel's spec functions
    /// (the channel type is bounded by this very trait, which the verifier
    /// rejects as a definitional cycle).
    fn update_from_peer(channel: &mut Channel<Self>, message: &Messages) -> Result<(), Error>;
}

/// The state type of the extensions a nomenclature names.
pub type StateOf<N> = <<N as Nomenclature>::Ext as Extension>::State;

} // verus!
