use std::cell::RefCell;
use std::rc::Rc;

use bitcoin::blockdata::transaction::Transaction;
use bitcoin::util::psbt::PartiallySignedTransaction as Psbt;
use lnp2p::bolt::Messages;

use lnp_channel::channel::{Channel, Error, State};
use lnp_channel::extension::{ChannelExtension, Extension, Nomenclature};
use lnp_channel::graph::TxGraph;
use lnp_channel::history::History;

#[derive(Clone, Copy, PartialEq, Eq, Debug)]
struct Id(u64);

#[derive(Clone, PartialEq, Eq, Debug)]
struct Payload(u64);

impl State for Payload {}

/// A test extension that records the order in which it is driven, carries a
/// numbered payload as its state, and can be told to fail or to write into
/// the graph.
struct TestExt {
    id: Id,
    payload: u64,
    log: Option<Rc<RefCell<Vec<u64>>>>,
    fail_update: bool,
    insert_on_apply: Option<(u16, u64)>,
    updates_seen: u64,
}

impl TestExt {
    fn new(id: u64) -> Self {
        TestExt {
            id: Id(id),
            payload: id * 100,
            log: None,
            fail_update: false,
            insert_on_apply: None,
            updates_seen: 0,
        }
    }

    fn with_log(mut self, log: &Rc<RefCell<Vec<u64>>>) -> Self {
        self.log = Some(Rc::clone(log));
        self
    }

    fn with_payload(mut self, payload: u64) -> Self {
        self.payload = payload;
        self
    }

    fn failing(mut self) -> Self {
        self.fail_update = true;
        self
    }

    fn inserting(mut self, role: u16, index: u64) -> Self {
        self.insert_on_apply = Some((role, index));
        self
    }
}

fn some_psbt(version: i32) -> Psbt {
    let tx = Transaction { version, lock_time: 0, input: Vec::new(), output: Vec::new() };
    Psbt::from_unsigned_tx(tx).unwrap()
}

impl Extension for TestExt {
    type Identity = Id;
    type State = Payload;

    fn identity_spec(&self) -> Id {
        self.id
    }

    fn identity(&self) -> Id {
        self.id
    }

    fn state_spec(&self) -> Payload {
        Payload(self.payload + self.updates_seen)
    }

    fn update_from_peer(&mut self, _message: &Messages) -> Result<(), Error> {
        if let Some(log) = &self.log {
            log.borrow_mut().push(self.id.0);
        }
        if self.fail_update {
            return Err(Error::Extension(String::from("refused")));
        }
        self.updates_seen += 1;
        Ok(())
    }

    fn extension_state(&self) -> Payload {
        Payload(self.payload + self.updates_seen)
    }
}

impl ChannelExtension for TestExt {
    fn channel_state(&self) -> Payload {
        Payload(self.payload + self.updates_seen)
    }

    fn apply(&mut self, tx_graph: &mut TxGraph) -> Result<(), Error> {
        if let Some(log) = &self.log {
            log.borrow_mut().push(self.id.0);
        }
        if let Some((role, index)) = self.insert_on_apply {
            tx_graph.insert_tx(role, index, some_psbt(self.id.0 as i32));
        }
        Ok(())
    }
}

impl Nomenclature for Id {
    type Ext = TestExt;

    fn key_spec(&self) -> u64 {
        self.0
    }

    fn key(&self) -> u64 {
        self.0
    }

    fn default_id_spec() -> Id {
        Id(0)
    }

    fn default_id() -> Id {
        Id(0)
    }

    fn default_constructor_spec() -> TestExt {
        TestExt::new(0)
    }

    fn default_constructor() -> TestExt {
        TestExt::new(0)
    }

    fn default_extenders_spec() -> Vec<TestExt> {
        Vec::new()
    }

    fn default_extenders() -> Vec<TestExt> {
        Vec::new()
    }

    fn default_modifiers_spec() -> Vec<TestExt> {
        Vec::new()
    }

    fn default_modifiers() -> Vec<TestExt> {
        Vec::new()
    }

    fn update_from_peer(_channel: &mut Channel<Id>, _message: &Messages) -> Result<(), Error> {
        Ok(())
    }
}

fn message() -> Messages {
    Messages::Pong(vec![0u8; 4])
}

#[test]
fn update_visits_constructor_then_extenders_then_modifiers_ascending() {
    let log = Rc::new(RefCell::new(Vec::new()));
    let mut channel = Channel::<Id>::with(
        TestExt::new(1).with_log(&log),
        vec![
            TestExt::new(50).with_log(&log),
            TestExt::new(30).with_log(&log),
            TestExt::new(70).with_log(&log),
        ],
        vec![TestExt::new(40).with_log(&log), TestExt::new(20).with_log(&log)],
    );
    assert_eq!(channel.update_from_peer(&message()), Ok(()));
    // constructor once, then extenders ascending, then modifiers ascending
    assert_eq!(*log.borrow(), vec![1, 30, 50, 70, 20, 40]);
}

#[test]
fn apply_drives_the_same_three_phase_order() {
    let log = Rc::new(RefCell::new(Vec::new()));
    let mut channel = Channel::<Id>::with(
        TestExt::new(1).with_log(&log).inserting(0, 0),
        vec![TestExt::new(9).with_log(&log).inserting(1, 0), TestExt::new(5).with_log(&log).inserting(1, 1)],
        vec![TestExt::new(3).with_log(&log)],
    );
    let mut graph = TxGraph::default();
    assert_eq!(channel.apply(&mut graph), Ok(()));
    assert_eq!(*log.borrow(), vec![1, 5, 9, 3]);
    assert_eq!(graph.len(), 3);
    assert!(graph.tx(0u16, 0u64).is_some());
    assert!(graph.tx(1u16, 0u64).is_some());
    assert!(graph.tx(1u16, 1u64).is_some());
}

#[test]
fn first_error_aborts_without_rollback() {
    let log = Rc::new(RefCell::new(Vec::new()));
    let mut channel = Channel::<Id>::with(
        TestExt::new(1).with_log(&log),
        vec![
            TestExt::new(10).with_log(&log),
            TestExt::new(20).with_log(&log).failing(),
            TestExt::new(30).with_log(&log),
        ],
        vec![TestExt::new(5).with_log(&log)],
    );
    let r = channel.update_from_peer(&message());
    assert_eq!(r, Err(Error::Extension(String::from("refused"))));
    // the failing extender stops the walk: the later extender and every
    // modifier are never visited
    assert_eq!(*log.borrow(), vec![1, 10, 20]);
    // the earlier extender's side effect stays in place
    let snapshot = channel.extension_state();
    assert_eq!(snapshot.get(10), Some(&Payload(1001)));
    assert_eq!(snapshot.get(30), Some(&Payload(3000)));
}

#[test]
fn inserting_same_identity_replaces_previous_entry() {
    let mut channel = Channel::<Id>::with(TestExt::new(1), Vec::new(), Vec::new());
    channel.add_extension(TestExt::new(7).with_payload(700));
    channel.add_extension(TestExt::new(7).with_payload(900));
    let snapshot = channel.extension_state();
    assert_eq!(snapshot.len(), 2);
    assert_eq!(snapshot.get(7), Some(&Payload(900)));
}

#[test]
fn with_folds_duplicate_identities_last_write_wins() {
    let channel = Channel::<Id>::with(
        TestExt::new(1),
        vec![TestExt::new(4).with_payload(41), TestExt::new(4).with_payload(42)],
        Vec::new(),
    );
    let snapshot = channel.extension_state();
    assert_eq!(snapshot.len(), 2);
    assert_eq!(snapshot.get(4), Some(&Payload(42)));
}

#[test]
fn state_snapshot_aggregates_constructor_extenders_modifiers() {
    let channel = Channel::<Id>::with(
        TestExt::new(1),
        vec![TestExt::new(10)],
        vec![TestExt::new(20)],
    );
    let snapshot = channel.extension_state();
    assert_eq!(snapshot.len(), 3);
    assert_eq!(snapshot.get(1), Some(&Payload(100)));
    assert_eq!(snapshot.get(10), Some(&Payload(1000)));
    assert_eq!(snapshot.get(20), Some(&Payload(2000)));
    assert_eq!(snapshot.get(2), None);
    // channel-level snapshot aggregates the same way
    let channel_snapshot = channel.channel_state();
    assert_eq!(channel_snapshot.len(), 3);
    assert_eq!(channel_snapshot.get(1), Some(&Payload(100)));
}

#[test]
fn modifier_sharing_an_extender_identity_overwrites_in_snapshot() {
    let channel = Channel::<Id>::with(
        TestExt::new(1),
        vec![TestExt::new(10).with_payload(111)],
        vec![TestExt::new(10).with_payload(222)],
    );
    let snapshot = channel.extension_state();
    assert_eq!(snapshot.len(), 2);
    assert_eq!(snapshot.get(10), Some(&Payload(222)));
}

#[test]
fn default_channel_uses_nomenclature_defaults() {
    let mut channel = Channel::<Id>::default();
    assert_eq!(channel.identity(), Id(0));
    assert_eq!(channel.extenders().len(), 0);
    assert_eq!(channel.modifiers().len(), 0);
    let snapshot = channel.extension_state();
    assert_eq!(snapshot.len(), 1);
    assert_eq!(snapshot.get(0), Some(&Payload(0)));
    assert_eq!(channel.update_from_peer(&message()), Ok(()));
}

#[test]
fn error_variants_compare_by_content() {
    let a = Error::Extension(String::from("fee shortfall"));
    let b = Error::Extension(String::from("fee shortfall"));
    let c = Error::Htlc(String::from("fee shortfall"));
    assert_eq!(a, b);
    assert_ne!(a, c);
    assert_ne!(Error::Htlc(String::from("x")), Error::Htlc(String::from("y")));
}

#[test]
fn queue_lookup_by_identity_rank() {
    let mut channel = Channel::<Id>::with(TestExt::new(1), Vec::new(), Vec::new());
    channel.add_extension(TestExt::new(6).with_payload(60));
    channel.add_modifier(TestExt::new(8).with_payload(80));
    assert_eq!(channel.extenders().len(), 1);
    assert_eq!(channel.modifiers().len(), 1);
    let ext = channel.extenders().get(6).unwrap();
    assert_eq!(ext.extension_state(), Payload(60));
    assert!(channel.extenders().get(8).is_none());
    let modifier = channel.modifiers().get(8).unwrap();
    assert_eq!(modifier.channel_state(), Payload(80));
    assert_eq!(channel.constructor().identity(), Id(1));
}

/// An in-memory, height-indexed store of channel payloads.
struct VecHistory {
    states: Vec<Payload>,
}

impl History for VecHistory {
    type State = Payload;
    type Error = Error;

    fn height(&self) -> usize {
        self.states.len()
    }

    fn get(&self, height: usize) -> Result<Payload, Error> {
        self.states.get(height).cloned().ok_or(Error::Extension(String::from("no such height")))
    }

    fn top(&self) -> Result<Payload, Error> {
        self.states.last().cloned().ok_or(Error::Extension(String::from("empty")))
    }

    fn bottom(&self) -> Result<Payload, Error> {
        self.states.first().cloned().ok_or(Error::Extension(String::from("empty")))
    }

    fn dig(&self) -> Result<Payload, Error> {
        self.bottom()
    }

    fn push(&mut self, state: Payload) -> Result<(), Error> {
        self.states.push(state);
        Ok(())
    }
}

#[test]
fn history_interface_is_implementable() {
    let mut h = VecHistory { states: Vec::new() };
    assert_eq!(h.height(), 0);
    assert!(h.top().is_err());
    assert_eq!(h.push(Payload(1)), Ok(()));
    assert_eq!(h.push(Payload(2)), Ok(()));
    assert_eq!(h.height(), 2);
    assert_eq!(h.top(), Ok(Payload(2)));
    assert_eq!(h.bottom(), Ok(Payload(1)));
    assert_eq!(h.get(1), Ok(Payload(2)));
    assert!(h.get(5).is_err());
}
