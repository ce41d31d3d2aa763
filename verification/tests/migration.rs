//! End-to-end scenarios for routing, installation and state migration.

use dynamic_scaling_mechanism::antichain::Antichain;
use dynamic_scaling_mechanism::distribution::{Bin, Control, ControlInst};
use dynamic_scaling_mechanism::stateful::{apply_state_msgs, Router, State, StateProtocol};
use dynamic_scaling_mechanism::{Key, BINS};

fn remap_all(worker: usize) -> Vec<usize> {
    let mut m = Vec::new();
    for _ in 0..BINS {
        m.push(worker);
    }
    m
}

/// Static routing: with the initial all-zero map, every record goes to
/// worker 0 and worker 1 processes none.
#[test]
fn static_routing() {
    let router: Router<u64> = Router::new();
    let batch = vec![(Key(0), 1u64), (Key(0x8000_0000_0000_0000), 2u64)];
    let routed = router.route_batch(0, batch);
    assert_eq!(routed.len(), 2);
    for (target, _key, _v) in &routed {
        assert_eq!(*target, 0);
    }
}

/// One-shot bulk remap: after installing `Map([1, 1, ...])` at time 1,
/// worker 1 owns every bin, worker 0 none, and later records route to
/// worker 1 carrying the shipped state.
#[test]
fn bulk_remap() {
    let mut router: Router<u64> = Router::new();
    let mut st0: State<u64, u64> = State::init(0);
    let mut st1: State<u64, u64> = State::init(1);

    // Give worker 0 some state in the bin of key 0.
    st0.get_state(Key(0)).push(42);

    router.stash_control(1, vec![Control::new(1, 1, ControlInst::Remap(remap_all(1)))]);
    let msgs = router.take_control(1);
    router.compile_at(1, msgs);
    assert_eq!(router.pending_count(), 1);

    let probe = Antichain::from_elem(1);
    assert!(router.installable(&probe));
    let shed = router
        .install_next(&mut st0, 0, 2, &probe)
        .expect("installable head must produce messages");
    assert_eq!(router.active().sequence, 1);
    assert_eq!(router.pending_count(), 0);

    // Worker 0 shed everything: one Prepare per bin, plus the one chunk.
    let mut prepares = 0;
    let mut chunks = 0;
    for (target, msg) in &shed {
        assert_eq!(*target, 1);
        match msg {
            StateProtocol::Prepare(_) => prepares += 1,
            StateProtocol::State(b, w) => {
                assert_eq!(b.0, 0);
                assert_eq!(*w, 42);
                chunks += 1;
            }
            StateProtocol::Pending(_, _) => panic!("no notifications were pending"),
        }
    }
    assert_eq!(prepares, BINS);
    assert_eq!(chunks, 1);

    apply_state_msgs(&mut st1, 1, shed, 1, 2);

    // Unique ownership: for every bin, exactly one of the two workers holds it.
    for b in 0..BINS {
        assert!(st0.bins[b].is_none());
        assert!(st1.bins[b].is_some());
    }
    assert_eq!(st1.bins[0].as_ref().unwrap(), &vec![42]);

    let routed = router.route_batch(2, vec![(Key(0), 3u64)]);
    assert_eq!(routed[0].0, 1);
}

/// Incremental move: `Move(bin, 1)` sends only that bin's keys to worker 1.
#[test]
fn incremental_move() {
    let mut router: Router<u64> = Router::new();
    let mut st0: State<u64, u64> = State::init(0);
    let mut st1: State<u64, u64> = State::init(1);

    // Key with the top bit set lands in bin 128.
    let high = Key(0x8000_0000_0000_0000);
    router.stash_control(1, vec![Control::new(1, 1, ControlInst::Move(Bin(128), 1))]);
    let msgs = router.take_control(1);
    router.compile_at(1, msgs);
    let probe = Antichain::from_elem(1);
    let shed = router.install_next(&mut st0, 0, 2, &probe).unwrap();
    apply_state_msgs(&mut st1, 1, shed, 1, 2);

    for b in 0..BINS {
        let w0 = st0.bins[b].is_some();
        let w1 = st1.bins[b].is_some();
        assert!(w0 != w1, "exactly one worker must own bin {}", b);
        assert_eq!(w1, b == 128);
    }

    let routed = router.route_batch(2, vec![(Key(0), 1u64), (high, 2u64)]);
    assert_eq!(routed[0].0, 0);
    assert_eq!(routed[1].0, 1);
}

/// Notification replay: a per-key notification requested before the
/// migration fires on the new owner, at the same logical time, exactly
/// once.
#[test]
fn notification_replay() {
    let mut router: Router<u64> = Router::new();
    let mut st0: State<u64, u64> = State::init(0);
    let mut st1: State<u64, u64> = State::init(1);

    let k = Key(0x8000_0000_0000_0000);  // bin 128
    st0.notificator().notify_at(5, vec![(k, 7u64)]);

    router.stash_control(3, vec![Control::new(1, 1, ControlInst::Move(Bin(128), 1))]);
    let msgs = router.take_control(3);
    router.compile_at(3, msgs);
    let probe = Antichain::from_elem(3);
    let shed = router.install_next(&mut st0, 0, 2, &probe).unwrap();

    let pending_msgs: Vec<_> = shed
        .iter()
        .filter(|(_, m)| matches!(m, StateProtocol::Pending(_, _)))
        .collect();
    assert_eq!(pending_msgs.len(), 1);
    match pending_msgs[0] {
        (target, StateProtocol::Pending(t, (key, meta))) => {
            assert_eq!(*target, 1);
            assert_eq!(*t, 5);
            assert_eq!(*key, k);
            assert_eq!(*meta, 7);
        }
        _ => unreachable!(),
    }

    apply_state_msgs(&mut st1, 3, shed, 1, 2);

    // Once the frontier passes 5, the notification fires on worker 1 ...
    let frontiers = vec![Antichain::from_elem(6)];
    let fired = st1.notificator().next(&frontiers);
    match fired {
        Some((t, payload)) => {
            assert_eq!(t, 5);
            assert_eq!(payload, vec![(k, 7u64)]);
        }
        None => panic!("the relocated notification must fire on worker 1"),
    }
    // ... and not on worker 0.
    assert!(st0.notificator().next(&frontiers).is_none());
}

/// Late control: a record whose time the control frontier has not passed is
/// stashed, and later routed under the snapshot whose frontier covers it.
#[test]
fn late_control() {
    let mut router: Router<u64> = Router::new();
    // Control input may still send messages for time 2: stash the batch.
    let control_frontier = Antichain::from_elem(1);
    let out = router.handle_data(2, vec![(Key(0), 9u64)], &control_frontier);
    assert!(out.is_none());

    // The control message for time 1 arrives and compiles.
    router.stash_control(1, vec![Control::new(1, 1, ControlInst::Remap(remap_all(1)))]);
    let msgs = router.take_control(1);
    router.compile_at(1, msgs);

    // The control frontier passed 2: drain the stash and route.
    let batch = router.take_data(2);
    assert_eq!(batch.len(), 1);
    let routed = router.route_batch(2, batch);
    assert_eq!(routed[0].0, 1, "the stashed record routes under the new map");

    // A record at time 0 still routes under the old map.
    let early = router.route_batch(0, vec![(Key(0), 1u64)]);
    assert_eq!(early[0].0, 0);
}

/// Probe gate: a pending snapshot with frontier 10 does not install while
/// the probe is behind 10, and installs once the probe reaches it.
#[test]
fn probe_gate() {
    let mut router: Router<u64> = Router::new();
    router.stash_control(10, vec![Control::new(1, 1, ControlInst::Remap(remap_all(1)))]);
    let msgs = router.take_control(10);
    router.compile_at(10, msgs);

    assert!(!router.installable(&Antichain::from_elem(5)));
    assert_eq!(router.active().sequence, 0);

    assert!(router.installable(&Antichain::from_elem(10)));
    let mut st0: State<u64, u64> = State::init(0);
    let behind = Antichain::from_elem(5);
    assert!(router.install_next(&mut st0, 0, 2, &behind).is_none());
    let caught_up = Antichain::from_elem(10);
    assert!(router.install_next(&mut st0, 0, 2, &caught_up).is_some());
    assert_eq!(router.active().sequence, 1);
}

/// Every record of a batch is observed by exactly one worker: the one the
/// applicable map assigns to its key's bin.
#[test]
fn routed_batch_partitions() {
    let mut router: Router<u64> = Router::new();
    router.stash_control(1, vec![Control::new(1, 1, ControlInst::Move(Bin(128), 1))]);
    let msgs = router.take_control(1);
    router.compile_at(1, msgs);

    let batch = vec![
        (Key(0), 1u64),
        (Key(0x8000_0000_0000_0000), 2u64),
        (Key(0x0100_0000_0000_0000), 3u64),
    ];
    let routed = router.route_batch(2, batch.clone());
    assert_eq!(routed.len(), batch.len());
    for (i, (key, v)) in batch.iter().enumerate() {
        let copies = routed
            .iter()
            .filter(|(_, k2, v2)| k2 == key && v2 == v)
            .count();
        assert_eq!(copies, 1, "record {} must appear exactly once", i);
        assert!(routed[i].0 < 2);
    }
    assert_eq!(routed[0].0, 0);
    assert_eq!(routed[1].0, 1);
    assert_eq!(routed[2].0, 0);
}

/// Installations strictly increase the active sequence number.
#[test]
fn snapshot_monotonicity() {
    let mut router: Router<u64> = Router::new();
    let mut st0: State<u64, u64> = State::init(0);
    let probe = Antichain::from_elem(10);
    let mut last_seq = router.active().sequence;
    for (seq, time) in [(1u64, 1u64), (2, 2), (3, 3)] {
        router.stash_control(time, vec![Control::new(seq, 1, ControlInst::Nop)]);
        let msgs = router.take_control(time);
        router.compile_at(time, msgs);
        router.install_next(&mut st0, 0, 1, &probe).unwrap();
        assert!(router.active().sequence > last_seq);
        last_seq = router.active().sequence;
    }
    assert_eq!(last_seq, 3);
}
