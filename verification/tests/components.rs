//! Unit tests for the compiler, the notificator, frontiers, key hashing and
//! the keyed state machine.

use dynamic_scaling_mechanism::antichain::Antichain;
use dynamic_scaling_mechanism::distribution::{
    Bin, Control, ControlInst, ControlSet, ControlSetBuilder,
};
use dynamic_scaling_mechanism::notificator::FrontierNotificator;
use dynamic_scaling_mechanism::state_machine::{state_machine_batch, IdentityFold};
use dynamic_scaling_mechanism::stateful::{should_forward, State};
use dynamic_scaling_mechanism::{key_to_bin, Key, BINS};

fn zero_set() -> ControlSet {
    ControlSet { sequence: 0, frontier: Antichain::from_elem(0), map: vec![0; BINS] }
}

#[test]
fn key_bins() {
    assert_eq!(key_to_bin(Key(0)), 0);
    assert_eq!(key_to_bin(Key(0xFF00_0000_0000_0000)), 255);
    assert_eq!(key_to_bin(Key(0x0100_0000_0000_0000)), 1);
    assert_eq!(key_to_bin(Key(0x01FF_FFFF_FFFF_FFFF)), 1);
    assert!(key_to_bin(Key(u64::MAX)) < BINS);
}

#[test]
fn antichain_keeps_the_minimum() {
    let mut a = Antichain::new();
    assert!(a.is_empty());
    assert_eq!(a.frontier_time(), None);
    a.insert(5);
    a.insert(9);
    a.insert(3);
    assert_eq!(a.frontier_time(), Some(3));
    assert!(a.less_equal(3));
    assert!(!a.less_than(3));
    assert!(a.less_than(4));
    assert!(!a.less_equal(2));
}

#[test]
fn antichain_dominance() {
    let empty = Antichain::new();
    let two = Antichain::from_elem(2);
    let five = Antichain::from_elem(5);
    assert!(two.dominates(&five));
    assert!(!five.dominates(&two));
    assert!(two.dominates(&two));
    // Every antichain dominates the empty one; the empty one dominates only it.
    assert!(five.dominates(&empty));
    assert!(!empty.dominates(&five));
    assert!(empty.dominates(&empty));
}

#[test]
fn builder_compiles_instructions_in_order() {
    let mut builder = ControlSetBuilder::new();
    builder.apply(Control::new(4, 3, ControlInst::Remap(vec![2; BINS])));
    builder.apply(Control::new(4, 3, ControlInst::Move(Bin(3), 5)));
    builder.apply(Control::new(4, 3, ControlInst::Nop));
    builder.frontier(vec![7]);
    let cs = builder.build(&zero_set());
    assert_eq!(cs.sequence, 4);
    assert_eq!(cs.frontier.frontier_time(), Some(7));
    assert_eq!(cs.map.len(), BINS);
    for (b, w) in cs.map.iter().enumerate() {
        assert_eq!(*w, if b == 3 { 5 } else { 2 });
    }
}

#[test]
fn builder_whole_map_replaces() {
    let mut builder = ControlSetBuilder::new();
    builder.apply(Control::new(1, 2, ControlInst::Move(Bin(0), 9)));
    builder.apply(Control::new(1, 2, ControlInst::Remap(vec![4; BINS])));
    builder.frontier(vec![1]);
    let cs = builder.build(&zero_set());
    // The later whole-map instruction wins over the earlier move.
    assert!(cs.map.iter().all(|w| *w == 4));
}

#[test]
fn notificator_coalesces_and_orders() {
    let mut n: FrontierNotificator<u32> = FrontierNotificator::new();
    n.notify_at(3, vec![1]);
    n.notify_at(1, vec![2]);
    n.notify_at(3, vec![3]);
    let frontiers: Vec<Antichain> = Vec::new();
    let delivered = n.drain(&frontiers);
    assert_eq!(delivered.len(), 2);
    assert_eq!(delivered[0], (1, vec![2]));
    assert_eq!(delivered[1], (3, vec![1, 3]));
}

#[test]
fn notificator_respects_frontiers() {
    let mut n: FrontierNotificator<u32> = FrontierNotificator::new();
    n.notify_at(1, vec![10]);
    n.notify_at(3, vec![30]);
    let frontiers = vec![Antichain::from_elem(2)];
    let delivered = n.drain(&frontiers);
    assert_eq!(delivered, vec![(1, vec![10])]);
    assert_eq!(n.pending().len(), 1);
    assert_eq!(n.pending()[0].0, 3);

    // Once the frontier passes, the held-back notification fires.
    let later = vec![Antichain::from_elem(4)];
    let rest = n.drain(&later);
    assert_eq!(rest, vec![(3, vec![30])]);
}

#[test]
fn notificator_fast_path() {
    let mut n: FrontierNotificator<u32> = FrontierNotificator::new();
    let frontiers = vec![Antichain::from_elem(5)];
    // Time 3 is behind every frontier element: deliverable at once.
    n.notify_at_frontiered(3, 7, &frontiers);
    // Time 6 is not: it stays pending.
    n.notify_at_frontiered(6, 8, &frontiers);
    let got = n.next(&frontiers);
    assert_eq!(got, Some((3, vec![7])));
    assert_eq!(n.next(&frontiers), None);
    assert_eq!(n.pending().len(), 1);
}

#[test]
fn notificator_enqueue_through_capability() {
    let mut n: FrontierNotificator<u32> = FrontierNotificator::new();
    n.init_cap(2);
    n.enqueue(4, vec![9]);
    let frontiers: Vec<Antichain> = Vec::new();
    n.make_available(&frontiers);
    assert_eq!(n.next(&frontiers), Some((4, vec![9])));
}

#[test]
fn notificator_session_times_non_decreasing() {
    let mut n: FrontierNotificator<u32> = FrontierNotificator::new();
    for (t, v) in [(9u64, 1u32), (2, 2), (7, 3), (2, 4), (11, 5)] {
        n.notify_at(t, vec![v]);
    }
    let frontiers: Vec<Antichain> = Vec::new();
    let delivered = n.drain(&frontiers);
    let times: Vec<u64> = delivered.iter().map(|e| e.0).collect();
    let mut sorted = times.clone();
    sorted.sort();
    assert_eq!(times, sorted);
    assert_eq!(times, vec![2, 7, 9, 11]);
    assert_eq!(delivered[0].1, vec![2, 4]);
}

/// A whole-map command followed by the moves that turn its map into another
/// compiles to the same snapshot as the single whole-map command carrying
/// the final map.
#[test]
fn bulk_remap_round_trip() {
    let mut incremental = ControlSetBuilder::new();
    incremental.apply(Control::new(1, 3, ControlInst::Remap(vec![0; BINS])));
    incremental.apply(Control::new(1, 3, ControlInst::Move(Bin(10), 1)));
    incremental.apply(Control::new(1, 3, ControlInst::Move(Bin(20), 1)));
    incremental.frontier(vec![4]);
    let from_moves = incremental.build(&zero_set());

    let mut target_map = vec![0; BINS];
    target_map[10] = 1;
    target_map[20] = 1;
    let mut single = ControlSetBuilder::new();
    single.apply(Control::new(1, 1, ControlInst::Remap(target_map)));
    single.frontier(vec![4]);
    let from_map = single.build(&zero_set());

    assert_eq!(from_moves.map, from_map.map);
}

#[test]
fn fast_path_needs_both_frontiers_past() {
    let behind = Antichain::from_elem(2);
    let ahead = Antichain::from_elem(7);
    assert!(!should_forward(5, &behind, &ahead));
    assert!(!should_forward(5, &ahead, &behind));
    assert!(should_forward(5, &ahead, &ahead));
    assert!(should_forward(6, &ahead, &ahead));
    assert!(!should_forward(7, &ahead, &ahead));
}

#[test]
fn state_with_notificator_access() {
    let mut st: State<u64, u64> = State::init(0);
    let k = Key(5);
    {
        let (container, notificator) = st.state_and_notificator(k);
        container.push(17);
        notificator.notify_at(2, vec![(k, 1u64)]);
    }
    assert_eq!(st.get_state(k), &vec![17]);
    assert_eq!(st.notificator().pending().len(), 1);
}

#[test]
fn identity_fold_passes_records_through() {
    let mut st: State<(Key, u64), u64> = State::init(0);
    let records = vec![(Key(1), 10u64), (Key(2), 20u64), (Key(1), 30u64)];
    let outs = state_machine_batch(&mut st, &IdentityFold, 0, records);
    assert_eq!(outs, vec![10, 20, 30]);
    // The touched keys now have entries in bin 0's container.
    let container = st.get_state(Key(1));
    assert_eq!(container.len(), 2);
    assert_eq!(container[0].0, Key(1));
    assert_eq!(container[1].0, Key(2));
}
