//! The migration protocol: routing operator state and the per-worker state
//! store.
//!
//! The routing operator [`Router`] holds the active bin-to-worker snapshot,
//! the queue of pending snapshots, and the stashes for data and control
//! messages whose times the control frontier has not yet passed.  The state
//! operator's side is the per-worker [`State`]: one optional container per
//! bin plus a shared notificator.  Installation of a snapshot sheds bin
//! contents and pending notifications as [`StateProtocol`] messages, which
//! the new owner absorbs.

use vstd::prelude::*;

use crate::antichain::{spec_dominates, spec_le, spec_lt, Antichain};
use crate::distribution::{
    spec_apply_insts, spec_inst_wf, Bin, Control, ControlSet, ControlSetBuilder,
};
use crate::notificator::{content_at, FrontierNotificator};
use crate::{key_to_bin, spec_key_to_bin, Key, BINS};

verus! {

/// Multiplexes state transfer and outstanding timestamps on the state update
/// channel.
pub enum StateProtocol<W, M> {
    /// Provide a piece of state for a bin.
    State(Bin, W),
    /// Announce an outstanding timestamp for a key, with its payload.
    Pending(u64, (Key, M)),
    /// Prepare for receiving state into a bin.
    Prepare(Bin),
}

/// Per-worker state: one optional container of wire chunks per bin, plus the
/// shared notificator.  `bins[b]` is occupied exactly when this worker
/// currently owns bin `b`.
pub struct State<W, M> {
    /// One optional container per bin.
    pub bins: Vec<Option<Vec<W>>>,
    /// The shared notificator; payloads carry a key and user metadata.
    pub notificator: FrontierNotificator<(Key, M)>,
}

impl<W, M> State<W, M> {
    /// The state covers every bin.
    pub open spec fn wf(&self) -> bool {
        self.bins@.len() == BINS
    }

    /// Whether this worker currently owns bin `b`.
    pub open spec fn owns(&self, b: int) -> bool {
        self.bins@[b] is Some
    }

    /// Construct a `State` with the provided bins and a fresh notificator.
    pub fn new(bins: Vec<Option<Vec<W>>>) -> (r: Self)
        ensures
            r.bins == bins,
            r.notificator.spec_pending().len() == 0,
            r.notificator.spec_enqueued().len() == 0,
            r.notificator.spec_available().len() == 0,
            r.notificator.spec_capability() is None,
            r.notificator.wf(),
    {
        State { bins, notificator: FrontierNotificator::new() }
    }

    /// The initial per-worker state: worker 0 owns every bin (matching the
    /// initial all-zero map), every other worker none.
    pub fn init(index: usize) -> (r: Self)
        ensures
            r.wf(),
            forall|b: int| 0 <= b < BINS ==> (r.owns(b) <==> index == 0),
            r.notificator.spec_pending().len() == 0,
            r.notificator.spec_enqueued().len() == 0,
            r.notificator.spec_available().len() == 0,
            r.notificator.spec_capability() is None,
            r.notificator.wf(),
    {
        let mut bins: Vec<Option<Vec<W>>> = Vec::new();
        let mut b: usize = 0;
        while b < BINS
            invariant
                b <= BINS,
                bins@.len() == b,
                forall|i: int| 0 <= i < b as int ==> ((#[trigger] bins@[i]) is Some <==> index == 0),
            decreases BINS - b,
        {
            if index == 0 {
                bins.push(Some(Vec::new()));
            } else {
                bins.push(None);
            }
            b += 1;
        }
        State::new(bins)
    }

    /// Obtain a mutable reference to the container of the bin that owns
    /// `key`.  The design invariant is that downstream logic only ever sees
    /// records routed to this worker, so the bin must be occupied.
    pub fn get_state(&mut self, key: Key) -> (s: &mut Vec<W>)
        requires
            old(self).wf(),
            old(self).owns(spec_key_to_bin(key)),
        ensures
            (*s)@ == old(self).bins@[spec_key_to_bin(key)].unwrap()@,
            final(self).bins@ == old(self).bins@.update(
                spec_key_to_bin(key),
                Some(*final(s)),
            ),
            final(self).notificator == old(self).notificator,
    {
        let b = key_to_bin(key);
        let slot = &mut self.bins[b];
        match slot {
            Some(container) => container,
            None => vstd::pervasive::unreached(),
        }
    }

    /// The indices of the bins this worker currently owns, in increasing
    /// order.
    pub fn owned_bins(&self) -> (r: Vec<usize>)
        requires
            self.wf(),
        ensures
            forall|i: int| 0 <= i < r@.len() ==> self.owns(#[trigger] r@[i] as int),
            forall|b: int| 0 <= b < BINS && self.owns(b) ==> r@.contains(b as usize),
            forall|i: int, j: int| 0 <= i < j < r@.len() ==> r@[i] < r@[j],
    {
        let mut r: Vec<usize> = Vec::new();
        let mut b: usize = 0;
        while b < BINS
            invariant
                self.wf(),
                b <= BINS,
                forall|i: int| 0 <= i < r@.len() ==> self.owns(#[trigger] r@[i] as int) && r@[i]
                    < b,
                forall|c: int| 0 <= c < b as int && self.owns(c) ==> r@.contains(c as usize),
                forall|i: int, j: int| 0 <= i < j < r@.len() ==> r@[i] < r@[j],
            decreases BINS - b,
        {
            if self.bins[b].is_some() {
                let ghost pre = r@;
                r.push(b);
                proof {
                    assert forall|c: int| 0 <= c < b as int + 1 && self.owns(c) implies r@.contains(
                        c as usize,
                    ) by {
                        if c == b as int {
                            assert(r@[r@.len() - 1] == c as usize);
                        } else {
                            let i = choose|i: int| 0 <= i < pre.len() && pre[i] == c as usize;
                            assert(r@[i] == c as usize);
                        }
                    }
                }
            }
            b += 1;
        }
        r
    }

    /// Obtain, together, the container of the bin that owns `key` and the
    /// shared notificator, for transition logic that registers per-key
    /// notifications while it updates state.
    pub fn state_and_notificator(&mut self, key: Key) -> (r: (
        &mut Vec<W>,
        &mut FrontierNotificator<(Key, M)>,
    ))
        requires
            old(self).wf(),
            old(self).owns(spec_key_to_bin(key)),
        ensures
            (*r.0)@ == old(self).bins@[spec_key_to_bin(key)].unwrap()@,
            *r.1 == old(self).notificator,
            final(self).bins@ == old(self).bins@.update(spec_key_to_bin(key), Some(*final(r.0))),
            final(self).notificator == *final(r.1),
    {
        let b = key_to_bin(key);
        let slot = &mut self.bins[b];
        let container = match slot {
            Some(container) => container,
            None => vstd::pervasive::unreached(),
        };
        (container, &mut self.notificator)
    }

    /// Direct access to the shared notificator.
    pub fn notificator(&mut self) -> (r: &mut FrontierNotificator<(Key, M)>)
        ensures
            *r == old(self).notificator,
            final(self).notificator == *final(r),
            final(self).bins == old(self).bins,
    {
        &mut self.notificator
    }
}

/// The state operator's fast-path decision for a data batch at `time`: the
/// batch may be forwarded downstream directly only when neither the data
/// frontier nor the state-transfer frontier can still produce work at or
/// before `time` — otherwise state updates for `time` may still arrive and
/// the batch must be stashed until the frontiers pass.
pub fn should_forward(time: u64, data_frontier: &Antichain, state_frontier: &Antichain) -> (r:
    bool)
    ensures
        r == !(spec_le(data_frontier@, time) || spec_le(state_frontier@, time)),
{
    !(data_frontier.less_equal(time) || state_frontier.less_equal(time))
}

/// Append a batch under `time` to a stash.  The stash is an association list
/// from times to batches; several entries may share a time, and the content
/// at a time is their concatenation in arrival order.
pub fn stash_push<T>(stash: &mut Vec<(u64, Vec<T>)>, time: u64, items: Vec<T>)
    ensures
        final(stash)@ == old(stash)@.push((time, items)),
        forall|u: u64|
            #[trigger] content_at(final(stash)@, u) == (if u == time {
                content_at(old(stash)@, u) + items@
            } else {
                content_at(old(stash)@, u)
            }),
{
    let ghost pre = stash@;
    let ghost e = (time, items);
    proof {
        crate::notificator::lemma_content_at_push(pre, e);
    }
    stash.push((time, items));
}

/// Remove and return everything stashed under `time`, in arrival order;
/// entries under other times keep their content.
pub fn stash_take<T>(stash: &mut Vec<(u64, Vec<T>)>, time: u64) -> (r: Vec<T>)
    ensures
        r@ == content_at(old(stash)@, time),
        content_at(final(stash)@, time) == Seq::<T>::empty(),
        forall|u: u64|
            u != time ==> #[trigger] content_at(final(stash)@, u) == content_at(old(stash)@, u),
{
    let ghost orig = stash@;
    let mut work: Vec<(u64, Vec<T>)> = Vec::new();
    core::mem::swap(stash, &mut work);
    let mut r: Vec<T> = Vec::new();
    while work.len() > 0
        invariant
            work@.len() <= orig.len(),
            work@ == orig.skip(orig.len() - work@.len()),
            r@ == content_at(orig.take(orig.len() - work@.len()), time),
            content_at(stash@, time) == Seq::<T>::empty(),
            forall|u: u64|
                u != time ==> #[trigger] content_at(stash@, u) == content_at(
                    orig.take(orig.len() - work@.len()),
                    u,
                ),
        decreases work@.len(),
    {
        let ghost k = orig.len() - work@.len();
        let ghost pre_stash = stash@;
        let e = work.remove(0);
        proof {
            assert(orig.skip(k) =~= seq![orig[k]] + orig.skip(k + 1));
            assert(e == orig[k]);
            assert(work@ =~= orig.skip(k + 1));
            assert(orig.take(k + 1) =~= orig.take(k).push(e));
            crate::notificator::lemma_content_at_push(orig.take(k), e);
        }
        if e.0 == time {
            let (_, mut items) = e;
            r.append(&mut items);
            proof {
                assert forall|u: u64| u != time implies #[trigger] content_at(stash@, u)
                    == content_at(orig.take(k + 1), u) by {
                    assert(content_at(orig.take(k + 1), u) == content_at(orig.take(k), u));
                }
            }
        } else {
            proof {
                crate::notificator::lemma_content_at_push(pre_stash, e);
            }
            stash.push(e);
            proof {
                assert(content_at(stash@, time) == content_at(pre_stash, time));
                assert(r@ == content_at(orig.take(k + 1), time));
            }
        }
    }
    proof {
        assert(orig.take(orig.len() - work@.len()) =~= orig);
    }
    r
}

/// The worker a key's record is routed to under `map`.
pub open spec fn spec_route(map: Seq<usize>, k: Key) -> usize {
    map[spec_key_to_bin(k)]
}

/// The instructions carried by a sequence of control messages, in order.
pub open spec fn spec_insts_of(msgs: Seq<Control>) -> Seq<crate::distribution::ControlInst> {
    msgs.map_values(|c: Control| c.spec_inst())
}

/// A vector holding the single time `t`.
fn vec_of_one(t: u64) -> (r: Vec<u64>)
    ensures
        r@ == seq![t],
{
    let mut v: Vec<u64> = Vec::new();
    v.push(t);
    proof {
        assert(v@ =~= seq![t]);
    }
    v
}

/// Whether bin `b` leaves worker `index` under the transition from `old_map`
/// to `new_map`: the worker owns it and the owner changes.
pub open spec fn spec_moved(old_map: Seq<usize>, new_map: Seq<usize>, index: usize, b: int) -> bool {
    old_map[b] == index && old_map[b] != new_map[b]
}

/// The bins a worker keeps after shedding: every bin that leaves it becomes
/// empty, every other bin is untouched.
pub open spec fn spec_shed_bins<W>(
    bins: Seq<Option<Vec<W>>>,
    old_map: Seq<usize>,
    new_map: Seq<usize>,
    index: usize,
) -> Seq<Option<Vec<W>>> {
    Seq::new(
        bins.len(),
        |b: int|
            if spec_moved(old_map, new_map, index, b) {
                None
            } else {
                bins[b]
            },
    )
}

/// The wire messages that transfer one bin: a `Prepare` for the bin followed
/// by one `State` per contained chunk, in order, all addressed to the new
/// owner.
pub open spec fn spec_bin_transfer<W, M>(target: usize, b: usize, chunks: Seq<W>) -> Seq<
    (usize, StateProtocol<W, M>),
> {
    seq![(target, StateProtocol::Prepare(Bin(b)))] + chunks.map_values(
        |w: W| (target, StateProtocol::State(Bin(b), w)),
    )
}

/// The wire messages a worker emits for the first `n` bins when installing
/// `new_map` over `old_map`: the transfers of every moved bin, in bin order.
pub open spec fn spec_shed_msgs<W, M>(
    bins: Seq<Option<Vec<W>>>,
    old_map: Seq<usize>,
    new_map: Seq<usize>,
    index: usize,
    n: int,
) -> Seq<(usize, StateProtocol<W, M>)>
    decreases n,
{
    if n <= 0 {
        Seq::empty()
    } else {
        spec_shed_msgs(bins, old_map, new_map, index, n - 1) + (if spec_moved(
            old_map,
            new_map,
            index,
            n - 1,
        ) {
            spec_bin_transfer(new_map[n - 1], (n - 1) as usize, bins[n - 1].unwrap()@)
        } else {
            Seq::empty()
        })
    }
}

/// Whether `k`'s bin keeps its owner under the transition.
pub open spec fn spec_stays(old_map: Seq<usize>, new_map: Seq<usize>, k: Key) -> bool {
    old_map[spec_key_to_bin(k)] == new_map[spec_key_to_bin(k)]
}

/// The notification payload a worker keeps locally: the items whose bin
/// keeps its owner, in order.
pub open spec fn spec_kept_payload<M>(
    payload: Seq<(Key, M)>,
    old_map: Seq<usize>,
    new_map: Seq<usize>,
) -> Seq<(Key, M)>
    decreases payload.len(),
{
    if payload.len() == 0 {
        Seq::empty()
    } else {
        spec_kept_payload(payload.drop_last(), old_map, new_map) + (if spec_stays(
            old_map,
            new_map,
            payload.last().0,
        ) {
            seq![payload.last()]
        } else {
            Seq::empty()
        })
    }
}

/// The `Pending` messages replayed to new owners out of one notification
/// payload registered at time `t`: one message per item whose bin changes
/// owner, in order.
pub open spec fn spec_replayed_payload<W, M>(
    t: u64,
    payload: Seq<(Key, M)>,
    old_map: Seq<usize>,
    new_map: Seq<usize>,
) -> Seq<(usize, StateProtocol<W, M>)>
    decreases payload.len(),
{
    if payload.len() == 0 {
        Seq::empty()
    } else {
        spec_replayed_payload(t, payload.drop_last(), old_map, new_map) + (if !spec_stays(
            old_map,
            new_map,
            payload.last().0,
        ) {
            seq![
                (
                    new_map[spec_key_to_bin(payload.last().0)],
                    StateProtocol::Pending(t, payload.last()),
                ),
            ]
        } else {
            Seq::empty()
        })
    }
}

/// The `Pending` messages replayed out of the first `n` pending notification
/// entries.
pub open spec fn spec_replay_msgs<W, M>(
    entries: Seq<(u64, Vec<(Key, M)>)>,
    old_map: Seq<usize>,
    new_map: Seq<usize>,
    n: int,
) -> Seq<(usize, StateProtocol<W, M>)>
    decreases n,
{
    if n <= 0 {
        Seq::empty()
    } else {
        spec_replay_msgs(entries, old_map, new_map, n - 1) + spec_replayed_payload(
            entries[n - 1].0,
            entries[n - 1].1@,
            old_map,
            new_map,
        )
    }
}

/// The bins with each container replaced by its chunk sequence.
pub open spec fn spec_bins_view<W>(bins: Seq<Option<Vec<W>>>) -> Seq<Option<Seq<W>>> {
    bins.map_values(
        |o: Option<Vec<W>>|
            match o {
                Option::Some(v) => Some(v@),
                Option::None => None,
            },
    )
}

/// The pending notification entries with each payload replaced by its
/// sequence.
pub open spec fn spec_pend_view<M>(entries: Seq<(u64, Vec<(Key, M)>)>) -> Seq<(u64, Seq<(Key, M)>)> {
    entries.map_values(|e: (u64, Vec<(Key, M)>)| (e.0, e.1@))
}

/// The effect of absorbing the first `n` state-protocol messages, received
/// at `time`, on a worker's bins and pending notifications; `None` marks a
/// protocol violation: a `Prepare` for an occupied or unknown bin, a `State`
/// for an unknown bin, or a `Pending` behind the received time.
pub open spec fn spec_absorb<W, M>(
    bins: Seq<Option<Seq<W>>>,
    pend: Seq<(u64, Seq<(Key, M)>)>,
    time: u64,
    msgs: Seq<(usize, StateProtocol<W, M>)>,
    n: int,
) -> Option<(Seq<Option<Seq<W>>>, Seq<(u64, Seq<(Key, M)>)>)>
    decreases n,
{
    if n <= 0 {
        Some((bins, pend))
    } else {
        match spec_absorb(bins, pend, time, msgs, n - 1) {
            Option::None => None,
            Option::Some(sp) => {
                match msgs[n - 1].1 {
                    StateProtocol::Prepare(bin) => if bin.0 < sp.0.len() && sp.0[bin.0 as int] is None {
                        Some((sp.0.update(bin.0 as int, Some(Seq::empty())), sp.1))
                    } else {
                        None
                    },
                    StateProtocol::State(bin, w) => if bin.0 < sp.0.len() {
                        Some(
                            (
                                (if sp.0[bin.0 as int] is Some {
                                    sp.0.update(
                                        bin.0 as int,
                                        Some(sp.0[bin.0 as int].unwrap().push(w)),
                                    )
                                } else {
                                    sp.0
                                }),
                                sp.1,
                            ),
                        )
                    } else {
                        None
                    },
                    StateProtocol::Pending(t, d) => if t >= time {
                        Some((sp.0, sp.1.push((t, seq![d]))))
                    } else {
                        None
                    },
                }
            },
        }
    }
}

/// A well-formed absorption stays well-formed over any prefix of the
/// messages.
pub proof fn lemma_absorb_prefix<W, M>(
    bins: Seq<Option<Seq<W>>>,
    pend: Seq<(u64, Seq<(Key, M)>)>,
    time: u64,
    msgs: Seq<(usize, StateProtocol<W, M>)>,
    k: int,
    n: int,
)
    requires
        0 <= k <= n,
        spec_absorb(bins, pend, time, msgs, n) is Some,
    ensures
        spec_absorb(bins, pend, time, msgs, k) is Some,
    decreases n,
{
    if k < n {
        lemma_absorb_prefix(bins, pend, time, msgs, k, n - 1);
    }
}

/// Absorb a batch of state-protocol messages received at `time`, in order:
/// `Prepare(b)` allocates an empty container for a bin this worker does not
/// yet own, `State(b, chunk)` appends the chunk to the bin's container, and
/// `Pending(t, d)` re-registers a notification at `t` carrying `d`.  The
/// precondition excludes the protocol violations the sender never produces:
/// a `Prepare` for an occupied bin, a message for a foreign worker, or a
/// `Pending` behind the received time.
pub fn apply_state_msgs<W, M>(
    state: &mut State<W, M>,
    time: u64,
    msgs: Vec<(usize, StateProtocol<W, M>)>,
    index: usize,
    peers: usize,
)
    requires
        old(state).wf(),
        index < peers,
        forall|i: int| 0 <= i < msgs@.len() ==> (#[trigger] msgs@[i]).0 == index,
        spec_absorb(
            spec_bins_view(old(state).bins@),
            spec_pend_view(old(state).notificator.spec_pending()),
            time,
            msgs@,
            msgs@.len() as int,
        ) is Some,
    ensures
        final(state).wf(),
        ({
            let out = spec_absorb(
                spec_bins_view(old(state).bins@),
                spec_pend_view(old(state).notificator.spec_pending()),
                time,
                msgs@,
                msgs@.len() as int,
            ).unwrap();
            &&& spec_bins_view(final(state).bins@) == out.0
            &&& spec_pend_view(final(state).notificator.spec_pending()) == out.1
        }),
        final(state).notificator.spec_enqueued() == old(state).notificator.spec_enqueued(),
        final(state).notificator.spec_available() == old(state).notificator.spec_available(),
        final(state).notificator.spec_capability() == old(state).notificator.spec_capability(),
        old(state).notificator.wf() ==> final(state).notificator.wf(),
{
    let ghost bins_v = spec_bins_view(old(state).bins@);
    let ghost pend_v = spec_pend_view(old(state).notificator.spec_pending());
    let ghost msgs0 = msgs@;
    let mut rest = msgs;
    while rest.len() > 0
        invariant
            rest@.len() <= msgs0.len(),
            rest@ == msgs0.skip(msgs0.len() - rest@.len()),
            spec_absorb(bins_v, pend_v, time, msgs0, msgs0.len() as int) is Some,
            state.wf(),
            spec_absorb(bins_v, pend_v, time, msgs0, msgs0.len() - rest@.len()) == Some(
                (
                    spec_bins_view(state.bins@),
                    spec_pend_view(state.notificator.spec_pending()),
                ),
            ),
            state.notificator.spec_enqueued() == old(state).notificator.spec_enqueued(),
            state.notificator.spec_available() == old(state).notificator.spec_available(),
            state.notificator.spec_capability() == old(state).notificator.spec_capability(),
            old(state).notificator.wf() ==> state.notificator.wf(),
        decreases rest@.len(),
    {
        let ghost n = msgs0.len() - rest@.len();
        let ghost pre_bins = state.bins@;
        let ghost pre_pend = state.notificator.spec_pending();
        proof {
            lemma_absorb_prefix(bins_v, pend_v, time, msgs0, n + 1, msgs0.len() as int);
        }
        let msg = rest.remove(0);
        proof {
            assert(msgs0.skip(n) =~= seq![msgs0[n]] + msgs0.skip(n + 1));
            assert(msg == msgs0[n]);
            assert(rest@ =~= msgs0.skip(n + 1));
        }
        let (_target, proto) = msg;
        match proto {
            StateProtocol::Prepare(bin) => {
                proof {
                    assert(spec_bins_view(pre_bins).len() == pre_bins.len());
                    assert(spec_bins_view(pre_bins)[bin.0 as int] is None);
                }
                let slot = &mut state.bins[bin.0];
                *slot = Some(Vec::new());
                proof {
                    assert(spec_bins_view(state.bins@) =~= spec_bins_view(pre_bins).update(
                        bin.0 as int,
                        Some(Seq::<W>::empty()),
                    ));
                }
            },
            StateProtocol::State(bin, w) => {
                proof {
                    assert(spec_bins_view(pre_bins).len() == pre_bins.len());
                }
                let slot = &mut state.bins[bin.0];
                match slot {
                    Some(container) => {
                        let ghost c0 = container@;
                        container.push(w);
                        proof {
                            assert(spec_bins_view(state.bins@) =~= spec_bins_view(
                                pre_bins,
                            ).update(bin.0 as int, Some(c0.push(w))));
                            assert(spec_bins_view(pre_bins)[bin.0 as int] == Some(c0));
                        }
                    },
                    None => {
                        proof {
                            assert(spec_bins_view(pre_bins)[bin.0 as int] is None);
                        }
                    },
                }
                proof {
                    if !(pre_bins[bin.0 as int] is Some) {
                        assert(state.bins@ =~= pre_bins);
                    }
                }
            },
            StateProtocol::Pending(t, d) => {
                let mut single: Vec<(Key, M)> = Vec::new();
                single.push(d);
                state.notificator.notify_at(t, single);
                proof {
                    assert(spec_pend_view(state.notificator.spec_pending()) =~= spec_pend_view(
                        pre_pend,
                    ).push((t, seq![d])));
                }
            },
        }
    }
}

/// The routing operator's state on one worker: the active snapshot, the
/// queue of pending snapshots in increasing sequence order, and the stashes
/// for control messages and data batches whose times the control frontier
/// has not yet passed.
pub struct Router<V> {
    pending_configurations: Vec<ControlSet>,
    active_configuration: ControlSet,
    pending_control: Vec<(u64, Vec<Control>)>,
    data_stash: Vec<(u64, Vec<(Key, V)>)>,
}

impl<V> Router<V> {
    /// The active snapshot.
    pub closed spec fn spec_active(&self) -> ControlSet {
        self.active_configuration
    }

    /// The pending snapshots, in increasing sequence order.
    pub closed spec fn spec_pending(&self) -> Seq<ControlSet> {
        self.pending_configurations@
    }

    /// The stashed control messages.
    pub closed spec fn spec_control_stash(&self) -> Seq<(u64, Vec<Control>)> {
        self.pending_control@
    }

    /// The stashed data batches.
    pub closed spec fn spec_data_stash(&self) -> Seq<(u64, Vec<(Key, V)>)> {
        self.data_stash@
    }

    /// Structural invariant: every map covers all bins; pending snapshots
    /// carry strictly increasing sequence numbers, all above the active one;
    /// and every snapshot's frontier dominates the frontiers of the
    /// snapshots after it, the active one dominating them all.
    pub open spec fn wf(&self) -> bool {
        &&& self.spec_active().map@.len() == BINS
        &&& forall|i: int|
            0 <= i < self.spec_pending().len() ==> (#[trigger] self.spec_pending()[i]).map@.len()
                == BINS
        &&& forall|i: int|
            0 <= i < self.spec_pending().len() ==> self.spec_active().sequence < (
            #[trigger] self.spec_pending()[i]).sequence
        &&& forall|i: int, j: int|
            0 <= i < j < self.spec_pending().len() ==> (#[trigger] self.spec_pending()[i]).sequence
                < (#[trigger] self.spec_pending()[j]).sequence
        &&& forall|i: int, j: int|
            0 <= i < j < self.spec_pending().len() ==> spec_dominates(
                (#[trigger] self.spec_pending()[i]).frontier@,
                (#[trigger] self.spec_pending()[j]).frontier@,
            )
        &&& forall|i: int|
            0 <= i < self.spec_pending().len() ==> spec_dominates(
                self.spec_active().frontier@,
                (#[trigger] self.spec_pending()[i]).frontier@,
            )
    }

    /// Every map in play names only workers below `peers`.
    pub open spec fn maps_valid(&self, peers: int) -> bool {
        &&& self.spec_active().map_valid(peers)
        &&& forall|i: int|
            0 <= i < self.spec_pending().len() ==> (#[trigger] self.spec_pending()[i]).map_valid(
                peers,
            )
    }

    /// The active snapshot.
    pub fn active(&self) -> (r: &ControlSet)
        ensures
            *r == self.spec_active(),
    {
        &self.active_configuration
    }

    /// How many snapshots are pending installation.
    pub fn pending_count(&self) -> (r: usize)
        ensures
            r == self.spec_pending().len(),
    {
        self.pending_configurations.len()
    }

    /// A fresh router: the active snapshot is sequence 0 with frontier at
    /// time 0 and the all-zero map, so worker 0 initially owns every bin.
    pub fn new() -> (r: Self)
        ensures
            r.wf(),
            r.spec_active().sequence == 0,
            r.spec_active().frontier@ == Some(0u64),
            r.spec_active().map@ == Seq::new(BINS as nat, |b: int| 0usize),
            r.spec_pending().len() == 0,
            r.spec_control_stash().len() == 0,
            r.spec_data_stash().len() == 0,
    {
        let mut map: Vec<usize> = Vec::new();
        let mut b: usize = 0;
        while b < BINS
            invariant
                b <= BINS,
                map@.len() == b,
                forall|i: int| 0 <= i < b as int ==> #[trigger] map@[i] == 0,
            decreases BINS - b,
        {
            map.push(0);
            b += 1;
        }
        proof {
            assert(map@ =~= Seq::new(BINS as nat, |b: int| 0usize));
        }
        Router {
            pending_configurations: Vec::new(),
            active_configuration: ControlSet {
                sequence: 0,
                frontier: Antichain::from_elem(0),
                map,
            },
            pending_control: Vec::new(),
            data_stash: Vec::new(),
        }
    }

    /// Stash control messages arriving at `time` until the control frontier
    /// passes it.
    pub fn stash_control(&mut self, time: u64, msgs: Vec<Control>)
        ensures
            final(self).spec_active() == old(self).spec_active(),
            final(self).spec_pending() == old(self).spec_pending(),
            final(self).spec_data_stash() == old(self).spec_data_stash(),
            forall|u: u64|
                #[trigger] content_at(final(self).spec_control_stash(), u) == (if u == time {
                    content_at(old(self).spec_control_stash(), u) + msgs@
                } else {
                    content_at(old(self).spec_control_stash(), u)
                }),
            old(self).wf() ==> final(self).wf(),
    {
        let ghost pre = self.spec_control_stash();
        stash_push(&mut self.pending_control, time, msgs);
        proof {
            assert(self.spec_pending() == old(self).spec_pending());
            assert(self.spec_active() == old(self).spec_active());
            assert forall|u: u64|
                #[trigger] content_at(self.spec_control_stash(), u) == (if u == time {
                    content_at(pre, u) + msgs@
                } else {
                    content_at(pre, u)
                }) by {
                assert(content_at(self.pending_control@, u) == (if u == time {
                    content_at(pre, u) + msgs@
                } else {
                    content_at(pre, u)
                }));
            }
        }
    }

    /// Remove and return the control messages stashed under `time`.
    pub fn take_control(&mut self, time: u64) -> (r: Vec<Control>)
        ensures
            final(self).spec_active() == old(self).spec_active(),
            final(self).spec_pending() == old(self).spec_pending(),
            final(self).spec_data_stash() == old(self).spec_data_stash(),
            r@ == content_at(old(self).spec_control_stash(), time),
            content_at(final(self).spec_control_stash(), time) == Seq::<Control>::empty(),
            forall|u: u64|
                u != time ==> #[trigger] content_at(final(self).spec_control_stash(), u)
                    == content_at(old(self).spec_control_stash(), u),
            old(self).wf() ==> final(self).wf(),
    {
        let r = stash_take(&mut self.pending_control, time);
        proof {
            assert(self.spec_pending() == old(self).spec_pending());
            assert(self.spec_active() == old(self).spec_active());
        }
        r
    }

    /// Stash a data batch arriving at `time` while the applicable snapshot
    /// may still change.
    pub fn stash_data(&mut self, time: u64, records: Vec<(Key, V)>)
        ensures
            final(self).spec_active() == old(self).spec_active(),
            final(self).spec_pending() == old(self).spec_pending(),
            final(self).spec_control_stash() == old(self).spec_control_stash(),
            forall|u: u64|
                #[trigger] content_at(final(self).spec_data_stash(), u) == (if u == time {
                    content_at(old(self).spec_data_stash(), u) + records@
                } else {
                    content_at(old(self).spec_data_stash(), u)
                }),
            old(self).wf() ==> final(self).wf(),
    {
        stash_push(&mut self.data_stash, time, records);
        proof {
            assert(self.spec_pending() == old(self).spec_pending());
            assert(self.spec_active() == old(self).spec_active());
        }
    }

    /// Remove and return the data records stashed under `time`.
    pub fn take_data(&mut self, time: u64) -> (r: Vec<(Key, V)>)
        ensures
            final(self).spec_active() == old(self).spec_active(),
            final(self).spec_pending() == old(self).spec_pending(),
            final(self).spec_control_stash() == old(self).spec_control_stash(),
            r@ == content_at(old(self).spec_data_stash(), time),
            content_at(final(self).spec_data_stash(), time) == Seq::<(Key, V)>::empty(),
            forall|u: u64|
                u != time ==> #[trigger] content_at(final(self).spec_data_stash(), u)
                    == content_at(old(self).spec_data_stash(), u),
            old(self).wf() ==> final(self).wf(),
    {
        let r = stash_take(&mut self.data_stash, time);
        proof {
            assert(self.spec_pending() == old(self).spec_pending());
            assert(self.spec_active() == old(self).spec_active());
        }
        r
    }

    /// The index of the snapshot that applies to time `t`: the latest
    /// pending snapshot whose frontier is less than or equal to `t`, or `-1`
    /// when none is and the active snapshot applies.
    pub open spec fn spec_applicable_index(pending: Seq<ControlSet>, t: u64) -> int
        decreases pending.len(),
    {
        if pending.len() == 0 {
            -1
        } else if spec_le(pending.last().frontier@, t) {
            pending.len() - 1
        } else {
            Self::spec_applicable_index(pending.drop_last(), t)
        }
    }

    /// The bin-to-worker map that applies to time `t`.
    pub open spec fn spec_applicable_map(&self, t: u64) -> Seq<usize> {
        let i = Self::spec_applicable_index(self.spec_pending(), t);
        if i >= 0 {
            self.spec_pending()[i].map@
        } else {
            self.spec_active().map@
        }
    }

    /// Find the map that applies to time `t`: the latest pending snapshot
    /// whose frontier is less than or equal to `t`, falling back to the
    /// active snapshot.
    pub fn applicable_map(&self, t: u64) -> (r: &Vec<usize>)
        requires
            self.wf(),
        ensures
            r@ == self.spec_applicable_map(t),
            r@.len() == BINS,
    {
        let mut i: usize = self.pending_configurations.len();
        proof {
            assert(self.spec_pending().take(self.spec_pending().len() as int) =~= self.spec_pending());
        }
        while i > 0
            invariant
                self.wf(),
                i <= self.spec_pending().len(),
                Self::spec_applicable_index(self.spec_pending(), t)
                    == Self::spec_applicable_index(self.spec_pending().take(i as int), t),
            decreases i,
        {
            let ghost pre = self.spec_pending().take(i as int);
            if self.pending_configurations[i - 1].frontier.less_equal(t) {
                proof {
                    assert(pre.last() == self.spec_pending()[i - 1]);
                }
                return &self.pending_configurations[i - 1].map;
            }
            proof {
                assert(pre.drop_last() =~= self.spec_pending().take(i as int - 1));
                assert(pre.last() == self.spec_pending()[i - 1]);
            }
            i -= 1;
        }
        proof {
            assert(self.spec_pending().take(0) =~= Seq::<ControlSet>::empty());
        }
        &self.active_configuration.map
    }

    /// Route a batch of keyed records at time `t`: each record goes to the
    /// worker that the applicable snapshot assigns to its key's bin.
    pub fn route_batch(&self, t: u64, records: Vec<(Key, V)>) -> (r: Vec<(usize, Key, V)>)
        requires
            self.wf(),
        ensures
            r@.len() == records@.len(),
            forall|i: int|
                0 <= i < records@.len() ==> #[trigger] r@[i] == (
                    spec_route(self.spec_applicable_map(t), records@[i].0),
                    records@[i].0,
                    records@[i].1,
                ),
    {
        let map = self.applicable_map(t);
        let ghost orig = records@;
        let mut rest = records;
        let mut r: Vec<(usize, Key, V)> = Vec::new();
        while rest.len() > 0
            invariant
                self.wf(),
                map@ == self.spec_applicable_map(t),
                map@.len() == BINS,
                rest@.len() <= orig.len(),
                rest@ == orig.skip(orig.len() - rest@.len()),
                r@.len() == orig.len() - rest@.len(),
                forall|i: int|
                    0 <= i < r@.len() ==> #[trigger] r@[i] == (
                        spec_route(self.spec_applicable_map(t), orig[i].0),
                        orig[i].0,
                        orig[i].1,
                    ),
            decreases rest@.len(),
        {
            let ghost k = orig.len() - rest@.len();
            let e = rest.remove(0);
            proof {
                assert(orig.skip(k) =~= seq![orig[k]] + orig.skip(k + 1));
                assert(e == orig[k]);
                assert(rest@ =~= orig.skip(k + 1));
            }
            let (key, value) = e;
            let b = key_to_bin(key);
            r.push((map[b], key, value));
        }
        r
    }

    /// Act on a data batch at `time`: while the control frontier has not yet
    /// passed `time` the applicable snapshot may still change, so the batch
    /// is stashed and nothing is returned; otherwise the batch is routed
    /// under the applicable snapshot.
    pub fn handle_data(
        &mut self,
        time: u64,
        records: Vec<(Key, V)>,
        control_frontier: &Antichain,
    ) -> (r: Option<Vec<(usize, Key, V)>>)
        requires
            old(self).wf(),
        ensures
            final(self).wf(),
            final(self).spec_active() == old(self).spec_active(),
            final(self).spec_pending() == old(self).spec_pending(),
            final(self).spec_control_stash() == old(self).spec_control_stash(),
            spec_le(control_frontier@, time) ==> {
                &&& r is None
                &&& forall|u: u64|
                    #[trigger] content_at(final(self).spec_data_stash(), u) == (if u == time {
                        content_at(old(self).spec_data_stash(), u) + records@
                    } else {
                        content_at(old(self).spec_data_stash(), u)
                    })
            },
            !spec_le(control_frontier@, time) ==> {
                &&& final(self).spec_data_stash() == old(self).spec_data_stash()
                &&& r is Some
                &&& r.unwrap()@.len() == records@.len()
                &&& forall|i: int|
                    0 <= i < records@.len() ==> #[trigger] r.unwrap()@[i] == (
                        spec_route(old(self).spec_applicable_map(time), records@[i].0),
                        records@[i].0,
                        records@[i].1,
                    )
            },
    {
        if control_frontier.less_equal(time) {
            self.stash_data(time, records);
            None
        } else {
            Some(self.route_batch(time, records))
        }
    }

    /// Compile the control messages drained for `time` into a new pending
    /// snapshot.  The messages must form one complete command: all with one
    /// sequence number, the first declaring the batch size, the sequence
    /// above every sequence already in play (commands are ingested in
    /// increasing order), and `time` not ahead of the previous snapshot's
    /// frontier, so that frontiers stay ordered along the queue.
    pub fn compile_at(&mut self, time: u64, msgs: Vec<Control>)
        requires
            old(self).wf(),
            msgs@.len() > 0,
            forall|i: int|
                0 <= i < msgs@.len() ==> (#[trigger] msgs@[i]).spec_sequence()
                    == msgs@[0].spec_sequence(),
            msgs@[0].spec_count() == msgs@.len(),
            forall|i: int|
                0 <= i < msgs@.len() ==> spec_inst_wf((#[trigger] msgs@[i]).spec_inst()),
            msgs@[0].spec_sequence() > (if old(self).spec_pending().len() > 0 {
                old(self).spec_pending().last().sequence
            } else {
                old(self).spec_active().sequence
            }),
            spec_le(
                (if old(self).spec_pending().len() > 0 {
                    old(self).spec_pending().last().frontier@
                } else {
                    old(self).spec_active().frontier@
                }),
                time,
            ),
        ensures
            final(self).wf(),
            final(self).spec_active() == old(self).spec_active(),
            final(self).spec_control_stash() == old(self).spec_control_stash(),
            final(self).spec_data_stash() == old(self).spec_data_stash(),
            final(self).spec_pending().len() == old(self).spec_pending().len() + 1,
            final(self).spec_pending().drop_last() == old(self).spec_pending(),
            final(self).spec_pending().last().sequence == msgs@[0].spec_sequence(),
            final(self).spec_pending().last().frontier@ == Some(time),
            final(self).spec_pending().last().map@ == spec_apply_insts(
                (if old(self).spec_pending().len() > 0 {
                    old(self).spec_pending().last().map@
                } else {
                    old(self).spec_active().map@
                }),
                spec_insts_of(msgs@),
            ),
    {
        let ghost all = msgs@;
        let mut builder = ControlSetBuilder::new();
        let mut rest = msgs;
        proof {
            assert(spec_insts_of(all.take(0)) =~= Seq::<crate::distribution::ControlInst>::empty());
            reveal(Seq::filter);
        }
        while rest.len() > 0
            invariant
                all.len() > 0,
                rest@.len() <= all.len(),
                rest@ == all.skip(all.len() - rest@.len()),
                forall|i: int|
                    0 <= i < all.len() ==> (#[trigger] all[i]).spec_sequence()
                        == all[0].spec_sequence(),
                all[0].spec_count() == all.len(),
                forall|i: int| 0 <= i < all.len() ==> spec_inst_wf((#[trigger] all[i]).spec_inst()),
                builder.spec_frontier().len() == 0,
                rest@.len() == all.len() ==> builder.spec_sequence() is None
                    && builder.spec_count() is None,
                rest@.len() < all.len() ==> builder.spec_sequence() == Some(
                    all[0].spec_sequence(),
                ) && builder.spec_count() == Some((rest@.len()) as usize),
                builder.spec_instructions() == spec_insts_of(
                    all.take(all.len() - rest@.len()),
                ).filter(|i: crate::distribution::ControlInst| !(i is Nop)),
                forall|i: int|
                    0 <= i < builder.spec_instructions().len() ==> spec_inst_wf(
                        #[trigger] builder.spec_instructions()[i],
                    ),
            decreases rest@.len(),
        {
            let ghost k = all.len() - rest@.len();
            let ghost pre_insts = builder.spec_instructions();
            proof {
                assert(pre_insts == spec_insts_of(all.take(k)).filter(|i: crate::distribution::ControlInst| !(i is Nop)));
            }
            let c = rest.remove(0);
            proof {
                assert(all.skip(k) =~= seq![all[k]] + all.skip(k + 1));
                assert(c == all[k]);
                assert(rest@ =~= all.skip(k + 1));
            }
            builder.apply(c);
            proof {
                reveal(Seq::filter);
                let pre = spec_insts_of(all.take(k));
                let post = spec_insts_of(all.take(k + 1));
                assert(post.drop_last() =~= pre);
                assert(post.last() == all[k].spec_inst());
                if !(all[k].spec_inst() is Nop) {
                    assert(post.filter(|i: crate::distribution::ControlInst| !(i is Nop)) == pre.filter(|i: crate::distribution::ControlInst| !(i is Nop)).push(all[k].spec_inst()));
                } else {
                    assert(post.filter(|i: crate::distribution::ControlInst| !(i is Nop)) == pre.filter(|i: crate::distribution::ControlInst| !(i is Nop)));
                }
                assert(all.len() - rest@.len() == k + 1);
                assert(spec_insts_of(all.take(all.len() - rest@.len())).filter(|i: crate::distribution::ControlInst| !(i is Nop))
                    == post.filter(|i: crate::distribution::ControlInst| !(i is Nop)));
                if !(all[k].spec_inst() is Nop) {
                    assert(builder.spec_instructions() == pre_insts.push(all[k].spec_inst()));
                } else {
                    assert(builder.spec_instructions() == pre_insts);
                }
                assert(builder.spec_instructions() == spec_insts_of(
                    all.take(all.len() - rest@.len()),
                ).filter(|i: crate::distribution::ControlInst| !(i is Nop)));
            }
        }
        proof {
            assert(all.take(all.len() - rest@.len()) =~= all);
        }
        builder.frontier(vec_of_one(time));
        proof {
            assert(builder.spec_frontier() =~= seq![time]);
        }
        let ghost prev_map = if self.spec_pending().len() > 0 {
            self.spec_pending().last().map@
        } else {
            self.spec_active().map@
        };
        let cfg = if self.pending_configurations.len() > 0 {
            let idx = self.pending_configurations.len() - 1;
            builder.build(&self.pending_configurations[idx])
        } else {
            builder.build(&self.active_configuration)
        };
        proof {
            crate::distribution::lemma_apply_insts_skip_nop(prev_map, spec_insts_of(all));
            assert(cfg.frontier@ == crate::distribution::spec_seq_min(seq![time]));
            assert(seq![time].drop_last() =~= Seq::<u64>::empty());
            assert(crate::distribution::spec_seq_min(Seq::<u64>::empty()) == None::<u64>);
            assert(seq![time].last() == time);
            assert(crate::distribution::spec_seq_min(seq![time]) == Some(time));
            assert(cfg.frontier@ == Some(time));
        }
        let ghost pre_pending = self.spec_pending();
        let ghost pre_active = self.spec_active();
        self.pending_configurations.push(cfg);
        proof {
            assert(self.spec_pending().drop_last() =~= pre_pending);
            let n = self.spec_pending().len() as int;
            assert forall|i: int| 0 <= i < n - 1 implies #[trigger] self.spec_pending()[i]
                == pre_pending[i] by {}
            assert forall|i: int, j: int|
                0 <= i < j < n implies spec_dominates(
                (#[trigger] self.spec_pending()[i]).frontier@,
                (#[trigger] self.spec_pending()[j]).frontier@,
            ) by {
                if j == n - 1 {
                    assert(self.spec_pending()[j] == cfg);
                    assert(cfg.frontier@ == Some(time));
                    assert(pre_pending == old(self).spec_pending());
                    assert(spec_le(pre_pending[pre_pending.len() - 1].frontier@, time));
                    if i < pre_pending.len() - 1 {
                        assert(spec_dominates(
                            pre_pending[i].frontier@,
                            pre_pending[pre_pending.len() - 1].frontier@,
                        ));
                    }
                } else {
                    assert(spec_dominates(pre_pending[i].frontier@, pre_pending[j].frontier@));
                }
            }
            assert forall|i: int, j: int|
                0 <= i < j < n implies (#[trigger] self.spec_pending()[i]).sequence < (
            #[trigger] self.spec_pending()[j]).sequence by {
                if j == n - 1 {
                    if i < pre_pending.len() - 1 {
                        assert(pre_pending[i].sequence
                            < pre_pending[pre_pending.len() - 1].sequence);
                    }
                } else {
                    assert(pre_pending[i].sequence < pre_pending[j].sequence);
                }
            }
            assert forall|i: int| 0 <= i < n implies pre_active.sequence < (
            #[trigger] self.spec_pending()[i]).sequence by {
                if i == n - 1 && pre_pending.len() > 0 {
                    assert(pre_active.sequence < pre_pending[pre_pending.len() - 1].sequence);
                }
            }
            assert forall|i: int| 0 <= i < n implies spec_dominates(
                pre_active.frontier@,
                (#[trigger] self.spec_pending()[i]).frontier@,
            ) by {
                if i == n - 1 && pre_pending.len() > 0 {
                    assert(spec_dominates(
                        pre_active.frontier@,
                        pre_pending[pre_pending.len() - 1].frontier@,
                    ));
                }
            }
        }
    }

    /// Whether the head of the pending queue may be installed: some snapshot
    /// is pending and the downstream probe is no longer strictly behind any
    /// element of its frontier, so no record routed under an earlier
    /// snapshot is still in flight.
    pub open spec fn spec_installable(&self, probe: Option<u64>) -> bool {
        &&& self.spec_pending().len() > 0
        &&& match self.spec_pending()[0].frontier@ {
            Option::None => true,
            Option::Some(f) => !spec_lt(probe, f),
        }
    }

    /// Decide whether the head pending snapshot can be installed, from the
    /// downstream probe's frontier.
    pub fn installable(&self, probe: &Antichain) -> (r: bool)
        ensures
            r == self.spec_installable(probe@),
    {
        if self.pending_configurations.len() == 0 {
            return false;
        }
        match self.pending_configurations[0].frontier.frontier_time() {
            Some(f) => !probe.less_than(f),
            None => true,
        }
    }

    /// Install the head pending snapshot if the probe allows it.
    ///
    /// When nothing is installable, nothing changes and no messages are
    /// returned.  Otherwise the head snapshot becomes active and the worker
    /// sheds, as messages for the exchange channel: a `Prepare` and the
    /// `State` chunks of every bin it owns whose owner changes, and a
    /// `Pending` for every locally pending notification whose key's bin
    /// changes owner, which is dropped locally.  The active sequence number
    /// strictly increases on every installation.
    pub fn install_next<W, M>(
        &mut self,
        state: &mut State<W, M>,
        index: usize,
        peers: usize,
        probe: &Antichain,
    ) -> (r: Option<Vec<(usize, StateProtocol<W, M>)>>)
        requires
            old(self).wf(),
            old(state).wf(),
            old(self).maps_valid(peers as int),
            index < peers,
            old(self).spec_installable(probe@) ==> forall|b: int|
                0 <= b < BINS ==> (old(state).owns(b) <==> old(self).spec_active().map@[b]
                    == index),
        ensures
            !old(self).spec_installable(probe@) ==> {
                &&& r is None
                &&& *final(self) == *old(self)
                &&& *final(state) == *old(state)
            },
            old(self).spec_installable(probe@) ==> ({
                let next = old(self).spec_pending()[0];
                let old_map = old(self).spec_active().map@;
                &&& r is Some
                &&& final(self).wf()
                &&& final(self).maps_valid(peers as int)
                &&& final(state).wf()
                &&& final(self).spec_active() == next
                &&& final(self).spec_active().sequence > old(self).spec_active().sequence
                &&& final(self).spec_pending() == old(self).spec_pending().drop_first()
                &&& final(self).spec_control_stash() == old(self).spec_control_stash()
                &&& final(self).spec_data_stash() == old(self).spec_data_stash()
                &&& final(state).bins@ == spec_shed_bins(
                    old(state).bins@,
                    old_map,
                    next.map@,
                    index,
                )
                &&& r.unwrap()@ == spec_shed_msgs::<W, M>(
                    old(state).bins@,
                    old_map,
                    next.map@,
                    index,
                    BINS as int,
                ) + spec_replay_msgs(
                    old(state).notificator.spec_pending(),
                    old_map,
                    next.map@,
                    old(state).notificator.spec_pending().len() as int,
                )
                &&& final(state).notificator.spec_pending().len() == old(
                    state,
                ).notificator.spec_pending().len()
                &&& forall|i: int|
                    0 <= i < old(state).notificator.spec_pending().len() ==> (
                    #[trigger] final(state).notificator.spec_pending()[i]).0 == old(
                        state,
                    ).notificator.spec_pending()[i].0 && final(state).notificator.spec_pending()[i].1@
                        == spec_kept_payload(
                        old(state).notificator.spec_pending()[i].1@,
                        old_map,
                        next.map@,
                    )
                &&& final(state).notificator.spec_enqueued() == old(
                    state,
                ).notificator.spec_enqueued()
                &&& final(state).notificator.spec_available() == old(
                    state,
                ).notificator.spec_available()
                &&& final(state).notificator.spec_capability() == old(
                    state,
                ).notificator.spec_capability()
                &&& (old(state).notificator.wf() ==> final(state).notificator.wf())
            }),
    {
        if !self.installable(probe) {
            return None;
        }
        let next = self.pending_configurations.remove(0);
        let ghost old_map = self.spec_active().map@;
        let ghost new_map = next.map@;
        let ghost bins0 = state.bins@;
        let ghost pre_pending_cfgs = old(self).spec_pending();
        proof {
            assert(self.spec_active() == old(self).spec_active());
            assert forall|c: int| 0 <= c < BINS implies ((#[trigger] bins0[c]) is Some
                <==> old_map[c] == index) by {
                assert(old(state).owns(c) <==> old(self).spec_active().map@[c] == index);
            }
        }

        let mut msgs: Vec<(usize, StateProtocol<W, M>)> = Vec::new();
        let mut b: usize = 0;
        while b < BINS
            invariant
                b <= BINS,
                self.active_configuration == old(self).spec_active(),
                self.active_configuration.map@ == old_map,
                next.map@ == new_map,
                old_map.len() == BINS,
                new_map.len() == BINS,
                bins0.len() == BINS,
                state.bins@.len() == BINS,
                forall|c: int| 0 <= c < BINS ==> ((#[trigger] bins0[c]) is Some <==> old_map[c]
                    == index),
                forall|c: int| b as int <= c < BINS ==> #[trigger] state.bins@[c] == bins0[c],
                forall|c: int|
                    0 <= c < b as int ==> #[trigger] state.bins@[c] == (if spec_moved(
                        old_map,
                        new_map,
                        index,
                        c,
                    ) {
                        None::<Vec<W>>
                    } else {
                        bins0[c]
                    }),
                msgs@ == spec_shed_msgs::<W, M>(bins0, old_map, new_map, index, b as int),
                state.notificator == old(state).notificator,
            decreases BINS - b,
        {
            let ghost msgs_base = msgs@;
            let old_w = self.active_configuration.map[b];
            let new_w = next.map[b];
            if old_w == index && old_w != new_w {
                let slot = &mut state.bins[b];
                let taken = slot.take();
                let chunks = taken.unwrap();
                let ghost chunks0 = chunks@;
                proof {
                    crate::notificator::lemma_content_at_push(
                        Seq::<(u64, Vec<W>)>::empty(),
                        (0u64, chunks),
                    );
                }
                msgs.push((new_w, StateProtocol::Prepare(Bin(b))));
                let ghost prep = (new_w, StateProtocol::<W, M>::Prepare(Bin(b)));
                proof {
                    assert(msgs@ =~= msgs_base + seq![prep]);
                }
                let mut rest = chunks;
                while rest.len() > 0
                    invariant
                        rest@.len() <= chunks0.len(),
                        rest@ == chunks0.skip(chunks0.len() - rest@.len()),
                        msgs@ == msgs_base + seq![prep] + chunks0.take(
                            chunks0.len() - rest@.len(),
                        ).map_values(
                            |w: W| (new_w, StateProtocol::<W, M>::State(Bin(b), w)),
                        ),
                    decreases rest@.len(),
                {
                    let ghost j = chunks0.len() - rest@.len();
                    let ghost pre_msgs = msgs@;
                    let w = rest.remove(0);
                    proof {
                        assert(chunks0.skip(j) =~= seq![chunks0[j]] + chunks0.skip(j + 1));
                        assert(w == chunks0[j]);
                        assert(rest@ =~= chunks0.skip(j + 1));
                        assert(chunks0.take(j + 1) =~= chunks0.take(j).push(w));
                    }
                    msgs.push((new_w, StateProtocol::State(Bin(b), w)));
                    proof {
                        let f = |w: W| (new_w, StateProtocol::<W, M>::State(Bin(b), w));
                        assert(chunks0.take(j + 1).map_values(f) =~= chunks0.take(j).map_values(
                            f,
                        ).push((new_w, StateProtocol::State(Bin(b), w))));
                        assert(msgs@ =~= (msgs_base + seq![prep] + chunks0.take(j).map_values(f)).push(
                            (new_w, StateProtocol::State(Bin(b), w)),
                        ));
                        assert(msgs@ =~= msgs_base + seq![prep] + chunks0.take(j + 1).map_values(
                            f,
                        ));
                    }
                }
                proof {
                    let f = |w: W| (new_w, StateProtocol::<W, M>::State(Bin(b), w));
                    assert(chunks0.take(chunks0.len() as int) =~= chunks0);
                    assert(msgs@ =~= msgs_base + (seq![prep] + chunks0.map_values(f)));
                    assert(seq![prep] + chunks0.map_values(f) == spec_bin_transfer::<W, M>(
                        new_w,
                        b,
                        chunks0,
                    ));
                    assert(bins0[b as int].unwrap()@ == chunks0);
                    assert(msgs@ == spec_shed_msgs::<W, M>(
                        bins0,
                        old_map,
                        new_map,
                        index,
                        b as int + 1,
                    ));
                }
            } else {
                proof {
                    assert(msgs@ + Seq::<(usize, StateProtocol<W, M>)>::empty() =~= msgs@);
                    assert(msgs@ == spec_shed_msgs::<W, M>(
                        bins0,
                        old_map,
                        new_map,
                        index,
                        b as int + 1,
                    ));
                }
            }
            b += 1;
        }

        // Walk the pending notifications: items whose bin changes owner are
        // replayed to the new owner and dropped locally.
        let ghost entries0 = state.notificator.spec_pending();
        let ghost shed_all = msgs@;
        let mut work: Vec<(u64, Vec<(Key, M)>)> = Vec::new();
        let pend = state.notificator.pending_mut();
        core::mem::swap(pend, &mut work);
        let mut new_pend: Vec<(u64, Vec<(Key, M)>)> = Vec::new();
        while work.len() > 0
            invariant
                self.active_configuration.map@ == old_map,
                next.map@ == new_map,
                old_map.len() == BINS,
                new_map.len() == BINS,
                work@.len() <= entries0.len(),
                work@ == entries0.skip(entries0.len() - work@.len()),
                new_pend@.len() == entries0.len() - work@.len(),
                forall|i: int|
                    0 <= i < new_pend@.len() ==> (#[trigger] new_pend@[i]).0 == entries0[i].0
                        && new_pend@[i].1@ == spec_kept_payload(entries0[i].1@, old_map, new_map),
                msgs@ == shed_all + spec_replay_msgs::<W, M>(
                    entries0,
                    old_map,
                    new_map,
                    entries0.len() - work@.len(),
                ),
            decreases work@.len(),
        {
            let ghost n = entries0.len() - work@.len();
            let ghost entry_base = msgs@;
            let e = work.remove(0);
            proof {
                assert(entries0.skip(n) =~= seq![entries0[n]] + entries0.skip(n + 1));
                assert(e == entries0[n]);
                assert(work@ =~= entries0.skip(n + 1));
            }
            let (t, payload) = e;
            let ghost pay0 = payload@;
            let mut rest_p = payload;
            let mut kept: Vec<(Key, M)> = Vec::new();
            while rest_p.len() > 0
                invariant
                    self.active_configuration.map@ == old_map,
                    next.map@ == new_map,
                    old_map.len() == BINS,
                    new_map.len() == BINS,
                    rest_p@.len() <= pay0.len(),
                    rest_p@ == pay0.skip(pay0.len() - rest_p@.len()),
                    kept@ == spec_kept_payload(pay0.take(pay0.len() - rest_p@.len()), old_map, new_map),
                    msgs@ == entry_base + spec_replayed_payload::<W, M>(
                        t,
                        pay0.take(pay0.len() - rest_p@.len()),
                        old_map,
                        new_map,
                    ),
                decreases rest_p@.len(),
            {
                let ghost j = pay0.len() - rest_p@.len();
                let ghost pre_kept = kept@;
                let ghost pre_msgs = msgs@;
                let item = rest_p.remove(0);
                proof {
                    assert(pay0.skip(j) =~= seq![pay0[j]] + pay0.skip(j + 1));
                    assert(item == pay0[j]);
                    assert(rest_p@ =~= pay0.skip(j + 1));
                    assert(pay0.take(j + 1) =~= pay0.take(j).push(item));
                    assert(pay0.take(j + 1).drop_last() =~= pay0.take(j));
                }
                let bin = key_to_bin(item.0);
                let ow = self.active_configuration.map[bin];
                let nw = next.map[bin];
                if ow != nw {
                    msgs.push((nw, StateProtocol::Pending(t, item)));
                    proof {
                        assert(!spec_stays(old_map, new_map, item.0));
                        assert(spec_replayed_payload::<W, M>(t, pay0.take(j + 1), old_map, new_map)
                            =~= spec_replayed_payload::<W, M>(t, pay0.take(j), old_map, new_map).push(
                            (nw, StateProtocol::Pending(t, item)),
                        ));
                        assert(msgs@ =~= entry_base + spec_replayed_payload::<W, M>(
                            t,
                            pay0.take(j + 1),
                            old_map,
                            new_map,
                        ));
                        assert(spec_kept_payload(pay0.take(j + 1), old_map, new_map) =~= pre_kept);
                    }
                } else {
                    kept.push(item);
                    proof {
                        assert(spec_stays(old_map, new_map, item.0));
                        assert(spec_kept_payload(pay0.take(j + 1), old_map, new_map) =~= pre_kept.push(
                            item,
                        ));
                        assert(spec_replayed_payload::<W, M>(t, pay0.take(j + 1), old_map, new_map)
                            =~= spec_replayed_payload::<W, M>(t, pay0.take(j), old_map, new_map));
                        assert(msgs@ =~= entry_base + spec_replayed_payload::<W, M>(
                            t,
                            pay0.take(j + 1),
                            old_map,
                            new_map,
                        ));
                    }
                }
            }
            proof {
                assert(pay0.take(pay0.len() as int) =~= pay0);
            }
            new_pend.push((t, kept));
            proof {
                assert(msgs@ =~= shed_all + (spec_replay_msgs::<W, M>(
                    entries0,
                    old_map,
                    new_map,
                    n,
                ) + spec_replayed_payload::<W, M>(t, pay0, old_map, new_map)));
                assert(msgs@ =~= shed_all + spec_replay_msgs::<W, M>(
                    entries0,
                    old_map,
                    new_map,
                    n + 1,
                ));
            }
        }
        let pend2 = state.notificator.pending_mut();
        core::mem::swap(pend2, &mut new_pend);

        let ghost pre_active = self.spec_active();
        self.active_configuration = next;
        proof {
            assert(self.spec_pending() == pre_pending_cfgs.drop_first());
            assert(state.bins@ =~= spec_shed_bins(bins0, old_map, new_map, index));
            let tail = self.spec_pending();
            assert forall|i: int| 0 <= i < tail.len() implies #[trigger] tail[i]
                == pre_pending_cfgs[i + 1] by {}
            assert forall|i: int, j: int|
                0 <= i < j < tail.len() implies (#[trigger] tail[i]).sequence < (
            #[trigger] tail[j]).sequence by {
                assert(pre_pending_cfgs[i + 1].sequence < pre_pending_cfgs[j + 1].sequence);
            }
            assert forall|i: int, j: int|
                0 <= i < j < tail.len() implies spec_dominates(
                (#[trigger] tail[i]).frontier@,
                (#[trigger] tail[j]).frontier@,
            ) by {
                assert(spec_dominates(
                    pre_pending_cfgs[i + 1].frontier@,
                    pre_pending_cfgs[j + 1].frontier@,
                ));
            }
            assert forall|i: int| 0 <= i < tail.len() implies self.spec_active().sequence < (
            #[trigger] tail[i]).sequence by {
                assert(pre_pending_cfgs[0].sequence < pre_pending_cfgs[i + 1].sequence);
            }
            assert forall|i: int| 0 <= i < tail.len() implies spec_dominates(
                self.spec_active().frontier@,
                (#[trigger] tail[i]).frontier@,
            ) by {
                assert(spec_dominates(
                    pre_pending_cfgs[0].frontier@,
                    pre_pending_cfgs[i + 1].frontier@,
                ));
            }
        }
        Some(msgs)
    }
}

} // verus!
