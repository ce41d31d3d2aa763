//! Cluster-level laws of the migration protocol.
//!
//! The exec functions in [`crate::stateful`] describe what one worker does;
//! the lemmas here state what follows for the cluster as a whole: routing
//! loses no record and delivers each to exactly one worker, an installation
//! moves every bin to exactly one new owner with its contents intact, the
//! snapshot that applies to a time flips from the old map to the new map
//! exactly at the installation frontier, and pending notifications are
//! relocated exactly once, at their original time, to their bin's new owner.

use vstd::prelude::*;

use crate::stateful::{
    spec_absorb, spec_bin_transfer, spec_kept_payload, spec_moved, spec_replayed_payload,
    spec_route, spec_stays, StateProtocol,
};
use crate::{spec_key_to_bin, Key, BINS};

verus! {

/// The records of `routed` addressed to worker `w`, stripped of the address.
pub open spec fn spec_delivered<V>(routed: Seq<(usize, Key, V)>, w: usize) -> Seq<(Key, V)> {
    routed.filter(|r: (usize, Key, V)| r.0 == w).map_values(|r: (usize, Key, V)| (r.1, r.2))
}

/// A batch routed under `map`: every record tagged with its key's owner.
pub open spec fn spec_routed<V>(records: Seq<(Key, V)>, map: Seq<usize>) -> Seq<(usize, Key, V)> {
    records.map_values(|r: (Key, V)| (spec_route(map, r.0), r.0, r.1))
}

/// No lost keys: routing a batch under a total map delivers every record to
/// the worker owning its key's bin, in batch order, and to no other worker.
/// Every submitted record is therefore observed by exactly one worker, and
/// equal keys always route identically.
pub proof fn lemma_no_lost_keys<V>(records: Seq<(Key, V)>, map: Seq<usize>, peers: usize)
    requires
        map.len() == BINS,
        forall|b: int| 0 <= b < BINS ==> map[b] < peers,
    ensures
        forall|w: usize|
            #[trigger] spec_delivered(spec_routed(records, map), w) == records.filter(
                |r: (Key, V)| spec_route(map, r.0) == w,
            ),
        forall|i: int|
            0 <= i < records.len() ==> spec_route(map, (#[trigger] records[i]).0) < peers,
    decreases records.len(),
{
    reveal(Seq::filter);
    assert forall|i: int| 0 <= i < records.len() implies spec_route(
        map,
        (#[trigger] records[i]).0,
    ) < peers by {
        crate::lemma_key_to_bin_in_range(records[i].0);
    }
    if records.len() == 0 {
        assert forall|w: usize|
            #[trigger] spec_delivered(spec_routed(records, map), w) == records.filter(
            |r: (Key, V)| spec_route(map, r.0) == w,
        ) by {
            assert(spec_routed(records, map) =~= Seq::<(usize, Key, V)>::empty());
            assert(spec_delivered(spec_routed(records, map), w) =~= Seq::<(Key, V)>::empty());
            assert(records.filter(|r: (Key, V)| spec_route(map, r.0) == w) =~= Seq::<
                (Key, V),
            >::empty());
        }
    } else {
        let head = records.drop_last();
        let last = records.last();
        lemma_no_lost_keys(head, map, peers);
        assert forall|w: usize|
            #[trigger] spec_delivered(spec_routed(records, map), w) == records.filter(
            |r: (Key, V)| spec_route(map, r.0) == w,
        ) by {
            let tag = |r: (usize, Key, V)| r.0 == w;
            let untag = |r: (usize, Key, V)| (r.1, r.2);
            let sel = |r: (Key, V)| spec_route(map, r.0) == w;
            let rlast = (spec_route(map, last.0), last.0, last.1);
            assert(spec_routed(records, map) =~= spec_routed(head, map).push(rlast));
            assert(spec_routed(records, map).drop_last() =~= spec_routed(head, map));
            assert(records.filter(sel) == (if sel(last) {
                head.filter(sel).push(last)
            } else {
                head.filter(sel)
            }));
            assert(spec_routed(records, map).filter(tag) == (if tag(rlast) {
                spec_routed(head, map).filter(tag).push(rlast)
            } else {
                spec_routed(head, map).filter(tag)
            }));
            if tag(rlast) {
                assert(spec_delivered(spec_routed(records, map), w) =~= spec_delivered(
                    spec_routed(head, map),
                    w,
                ).push(last));
            } else {
                assert(spec_delivered(spec_routed(records, map), w) =~= spec_delivered(
                    spec_routed(head, map),
                    w,
                ));
            }
            assert(spec_delivered(spec_routed(head, map), w) == head.filter(sel));
        }
    }
}

/// Migration atomicity.  While exactly one snapshot is pending, with
/// installation frontier `f`, a record at time `t` routes under the old
/// (active) map when `t < f` and under the new (pending) map when `t >= f`.
/// For a bin whose owner changes from `w_old` to `w_new` at `f`, no record
/// for a key of that bin is routed to `w_old` at a time at or after `f`, nor
/// to `w_new` at a time before `f`.
pub proof fn lemma_migration_atomicity<V>(r: crate::stateful::Router<V>, t: u64, k: Key)
    requires
        r.wf(),
        r.spec_pending().len() == 1,
        r.spec_pending()[0].frontier@ is Some,
    ensures
        ({
            let f = r.spec_pending()[0].frontier@.unwrap();
            &&& (t < f ==> r.spec_applicable_map(t) == r.spec_active().map@)
            &&& (t >= f ==> r.spec_applicable_map(t) == r.spec_pending()[0].map@)
            &&& (t < f ==> spec_route(r.spec_applicable_map(t), k) == spec_route(
                r.spec_active().map@,
                k,
            ))
            &&& (t >= f ==> spec_route(r.spec_applicable_map(t), k) == spec_route(
                r.spec_pending()[0].map@,
                k,
            ))
        }),
{
    let pending = r.spec_pending();
    let f = pending[0].frontier@.unwrap();
    assert(pending.last() == pending[0]);
    assert(pending.drop_last() =~= Seq::<crate::distribution::ControlSet>::empty());
    assert(crate::stateful::Router::<V>::spec_applicable_index(
        Seq::<crate::distribution::ControlSet>::empty(),
        t,
    ) == -1);
    if t >= f {
        assert(crate::antichain::spec_le(pending[0].frontier@, t));
        assert(crate::stateful::Router::<V>::spec_applicable_index(pending, t) == 0);
    } else {
        assert(!crate::antichain::spec_le(pending[0].frontier@, t));
        assert(crate::stateful::Router::<V>::spec_applicable_index(pending, t) == -1);
    }
}

/// Whether, for every bin, exactly the worker the map names holds that bin's
/// state.
pub open spec fn spec_ownership_matches<W>(
    cluster: Seq<Seq<Option<Seq<W>>>>,
    map: Seq<usize>,
) -> bool {
    forall|w: int, b: int|
        0 <= w < cluster.len() && 0 <= b < BINS ==> ((#[trigger] cluster[w][b]) is Some <==> map[b]
            == w)
}

/// Unique ownership through an installation.  Before the installation every
/// bin is held exactly by the worker the old map names.  Each worker sheds
/// the moved bins it owned and absorbs the moved bins it now owns, leaving
/// every other slot untouched; afterwards every bin is held exactly by the
/// worker the new map names — at every instant exactly one worker holds each
/// bin — and a moved bin's contents arrive at the new owner exactly as they
/// left the old one.
pub proof fn lemma_unique_ownership<W>(
    old_cluster: Seq<Seq<Option<Seq<W>>>>,
    new_cluster: Seq<Seq<Option<Seq<W>>>>,
    old_map: Seq<usize>,
    new_map: Seq<usize>,
    peers: usize,
)
    requires
        old_cluster.len() == peers,
        new_cluster.len() == peers,
        old_map.len() == BINS,
        new_map.len() == BINS,
        forall|b: int| 0 <= b < BINS ==> old_map[b] < peers,
        forall|b: int| 0 <= b < BINS ==> new_map[b] < peers,
        spec_ownership_matches(old_cluster, old_map),
        forall|w: int| 0 <= w < peers ==> (#[trigger] new_cluster[w]).len() == BINS,
        forall|w: int| 0 <= w < peers ==> (#[trigger] old_cluster[w]).len() == BINS,
        forall|w: int, b: int|
            0 <= w < peers && 0 <= b < BINS ==> (#[trigger] new_cluster[w][b]) == (if old_map[b]
                != new_map[b] && new_map[b] == w {
                old_cluster[old_map[b] as int][b]
            } else if old_map[b] != new_map[b] && old_map[b] == w {
                None
            } else {
                old_cluster[w][b]
            }),
    ensures
        spec_ownership_matches(new_cluster, new_map),
        // exactly one holder per bin
        forall|b: int|
            0 <= b < BINS ==> (#[trigger] new_cluster[new_map[b] as int][b]) is Some,
        forall|b: int, w1: int, w2: int|
            0 <= b < BINS && 0 <= w1 < peers && 0 <= w2 < peers && (#[trigger] new_cluster[w1][b]) is Some
                && (#[trigger] new_cluster[w2][b]) is Some ==> w1 == w2,
        // contents preserved
        forall|b: int|
            0 <= b < BINS ==> #[trigger] new_cluster[new_map[b] as int][b] == old_cluster[old_map[b] as int][b],
{
    assert forall|w: int, b: int|
        0 <= w < new_cluster.len() && 0 <= b < BINS implies ((#[trigger] new_cluster[w][b]) is Some
        <==> new_map[b] == w) by {
        assert(old_cluster[old_map[b] as int][b] is Some);
    }
    assert forall|b: int| 0 <= b < BINS implies #[trigger] new_cluster[new_map[b] as int][b]
        == old_cluster[old_map[b] as int][b] by {
        assert(old_cluster[old_map[b] as int][b] is Some);
    }
}

/// Composing absorption: absorbing `a + b` is absorbing `b` from wherever
/// absorbing `a` left off.
pub proof fn lemma_absorb_concat<W, M>(
    bins: Seq<Option<Seq<W>>>,
    pend: Seq<(u64, Seq<(Key, M)>)>,
    time: u64,
    a: Seq<(usize, StateProtocol<W, M>)>,
    b: Seq<(usize, StateProtocol<W, M>)>,
)
    requires
        spec_absorb(bins, pend, time, a, a.len() as int) is Some,
    ensures
        ({
            let mid = spec_absorb(bins, pend, time, a, a.len() as int).unwrap();
            spec_absorb(bins, pend, time, a + b, (a.len() + b.len()) as int) == spec_absorb(
                mid.0,
                mid.1,
                time,
                b,
                b.len() as int,
            )
        }),
    decreases b.len(),
{
    let mid = spec_absorb(bins, pend, time, a, a.len() as int).unwrap();
    if b.len() == 0 {
        assert(a + b =~= a);
        assert(spec_absorb(mid.0, mid.1, time, b, 0int) == Some((mid.0, mid.1)));
        assert((mid.0, mid.1) == mid);
    } else {
        lemma_absorb_concat(bins, pend, time, a, b.drop_last());
        assert((a + b.drop_last()) =~= (a + b).take(a.len() + b.len() - 1));
        lemma_absorb_take(bins, pend, time, a + b.drop_last(), a + b, a.len() + b.len() - 1);
        assert((a + b)[a.len() + b.len() - 1] == b.last());
        assert(b.drop_last().len() as int == b.len() - 1);
        let n = a.len() + b.len();
        let pre_l = spec_absorb(bins, pend, time, a + b, n - 1);
        let pre_r = spec_absorb(mid.0, mid.1, time, b, b.len() - 1);
        assert(pre_l == spec_absorb(
            bins,
            pend,
            time,
            a + b.drop_last(),
            (a.len() + b.drop_last().len()) as int,
        ));
        lemma_absorb_take(mid.0, mid.1, time, b.drop_last(), b, b.len() - 1);
        assert(pre_l == pre_r);
        assert(b[b.len() - 1] == b.last());
        assert(spec_absorb(bins, pend, time, a + b, n as int) == spec_absorb(
            mid.0,
            mid.1,
            time,
            b,
            b.len() as int,
        ));
    }
}

/// Absorbing a prefix only looks at the prefix: two message sequences that
/// agree on the first `n` messages absorb alike over them.
proof fn lemma_absorb_take<W, M>(
    bins: Seq<Option<Seq<W>>>,
    pend: Seq<(u64, Seq<(Key, M)>)>,
    time: u64,
    a: Seq<(usize, StateProtocol<W, M>)>,
    b: Seq<(usize, StateProtocol<W, M>)>,
    n: int,
)
    requires
        0 <= n <= a.len(),
        n <= b.len(),
        forall|i: int| 0 <= i < n ==> a[i] == b[i],
    ensures
        spec_absorb(bins, pend, time, a, n) == spec_absorb(bins, pend, time, b, n),
    decreases n,
{
    if n > 0 {
        lemma_absorb_take(bins, pend, time, a, b, n - 1);
    }
}

/// Absorbing one bin's transfer — its `Prepare` followed by its `State`
/// chunks — fills exactly that bin with exactly those chunks and touches
/// nothing else.
pub proof fn lemma_absorb_transfer<W, M>(
    bins: Seq<Option<Seq<W>>>,
    pend: Seq<(u64, Seq<(Key, M)>)>,
    time: u64,
    target: usize,
    b: usize,
    chunks: Seq<W>,
)
    requires
        b < bins.len(),
        bins[b as int] is None,
    ensures
        ({
            let msgs = spec_bin_transfer::<W, M>(target, b, chunks);
            spec_absorb(bins, pend, time, msgs, msgs.len() as int) == Some(
                (bins.update(b as int, Some(chunks)), pend),
            )
        }),
{
    let msgs = spec_bin_transfer::<W, M>(target, b, chunks);
    let prep = seq![(target, StateProtocol::<W, M>::Prepare(crate::distribution::Bin(b)))];
    assert(spec_absorb(bins, pend, time, prep, 0int) == Some((bins, pend)));
    assert(prep[0].1 == StateProtocol::<W, M>::Prepare(crate::distribution::Bin(b)));
    assert(spec_absorb(bins, pend, time, prep, 1) == Some(
        (bins.update(b as int, Some(Seq::<W>::empty())), pend),
    ));
    lemma_absorb_states(
        bins.update(b as int, Some(Seq::<W>::empty())),
        pend,
        time,
        target,
        b,
        Seq::<W>::empty(),
        chunks,
    );
    let states = chunks.map_values(
        |w: W| (target, StateProtocol::<W, M>::State(crate::distribution::Bin(b), w)),
    );
    lemma_absorb_concat(bins, pend, time, prep, states);
    assert(prep + states =~= msgs);
    assert(Seq::<W>::empty() + chunks =~= chunks);
}

/// Absorbing a run of `State` chunks for one occupied bin appends them to
/// its container in order.
proof fn lemma_absorb_states<W, M>(
    bins: Seq<Option<Seq<W>>>,
    pend: Seq<(u64, Seq<(Key, M)>)>,
    time: u64,
    target: usize,
    b: usize,
    have: Seq<W>,
    chunks: Seq<W>,
)
    requires
        b < bins.len(),
        bins[b as int] == Some(have),
    ensures
        ({
            let states = chunks.map_values(
                |w: W| (target, StateProtocol::<W, M>::State(crate::distribution::Bin(b), w)),
            );
            spec_absorb(bins, pend, time, states, states.len() as int) == Some(
                (bins.update(b as int, Some(have + chunks)), pend),
            )
        }),
    decreases chunks.len(),
{
    let f = |w: W| (target, StateProtocol::<W, M>::State(crate::distribution::Bin(b), w));
    let states = chunks.map_values(f);
    if chunks.len() == 0 {
        assert(have + chunks =~= have);
        assert(bins.update(b as int, Some(have)) =~= bins);
    } else {
        lemma_absorb_states(bins, pend, time, target, b, have, chunks.drop_last());
        let shorter = chunks.drop_last().map_values(f);
        assert(shorter =~= states.take(states.len() - 1));
        lemma_absorb_take(bins, pend, time, shorter, states, states.len() - 1);
        assert(states[states.len() - 1] == f(chunks.last()));
        let mid_bins = bins.update(b as int, Some(have + chunks.drop_last()));
        assert(spec_absorb(bins, pend, time, states, states.len() - 1) == Some((mid_bins, pend)));
        assert((have + chunks.drop_last()).push(chunks.last()) =~= have + chunks);
        assert(mid_bins.update(b as int, Some(have + chunks)) =~= bins.update(
            b as int,
            Some(have + chunks),
        ));
    }
}

/// Absorbing a worker's whole shed output at its destination: when every
/// bin a worker loses goes to one new owner, absorbing the shed messages in
/// order fills exactly the moved bins at the receiver with exactly the
/// contents they had at the sender, touches no other slot, and registers no
/// notification.  Together with [`lemma_unique_ownership`] this closes the
/// loop from [`crate::stateful::Router::install_next`] through
/// [`crate::stateful::apply_state_msgs`].
pub proof fn lemma_absorb_shed<W, M>(
    src_bins: Seq<Option<Vec<W>>>,
    dst_bins: Seq<Option<Seq<W>>>,
    dst_pend: Seq<(u64, Seq<(Key, M)>)>,
    old_map: Seq<usize>,
    new_map: Seq<usize>,
    src: usize,
    dst: usize,
    time: u64,
    n: int,
)
    requires
        0 <= n <= BINS,
        src_bins.len() == BINS,
        dst_bins.len() == BINS,
        old_map.len() == BINS,
        new_map.len() == BINS,
        forall|b: int|
            0 <= b < BINS && spec_moved(old_map, new_map, src, b) ==> #[trigger] new_map[b] == dst,
        forall|b: int|
            0 <= b < BINS && spec_moved(old_map, new_map, src, b) ==> (#[trigger] dst_bins[b]) is None,
        forall|b: int|
            0 <= b < BINS && spec_moved(old_map, new_map, src, b) ==> (#[trigger] src_bins[b]) is Some,
    ensures
        ({
            let msgs = crate::stateful::spec_shed_msgs::<W, M>(src_bins, old_map, new_map, src, n);
            spec_absorb(dst_bins, dst_pend, time, msgs, msgs.len() as int) == Some(
                (
                    Seq::new(
                        BINS as nat,
                        |b: int|
                            if b < n && spec_moved(old_map, new_map, src, b) {
                                Some(src_bins[b].unwrap()@)
                            } else {
                                dst_bins[b]
                            },
                    ),
                    dst_pend,
                ),
            )
        }),
    decreases n,
{
    let msgs = crate::stateful::spec_shed_msgs::<W, M>(src_bins, old_map, new_map, src, n);
    if n == 0 {
        assert(msgs =~= Seq::<(usize, StateProtocol<W, M>)>::empty());
        assert(spec_absorb(dst_bins, dst_pend, time, msgs, 0int) == Some((dst_bins, dst_pend)));
        assert(Seq::new(
            BINS as nat,
            |b: int|
                if b < 0 && spec_moved(old_map, new_map, src, b) {
                    Some(src_bins[b].unwrap()@)
                } else {
                    dst_bins[b]
                },
        ) =~= dst_bins);
    } else {
        lemma_absorb_shed::<W, M>(
            src_bins,
            dst_bins,
            dst_pend,
            old_map,
            new_map,
            src,
            dst,
            time,
            n - 1,
        );
        let prev = crate::stateful::spec_shed_msgs::<W, M>(src_bins, old_map, new_map, src, n - 1);
        let mid_bins = Seq::new(
            BINS as nat,
            |b: int|
                if b < n - 1 && spec_moved(old_map, new_map, src, b) {
                    Some(src_bins[b].unwrap()@)
                } else {
                    dst_bins[b]
                },
        );
        let want = Seq::new(
            BINS as nat,
            |b: int|
                if b < n && spec_moved(old_map, new_map, src, b) {
                    Some(src_bins[b].unwrap()@)
                } else {
                    dst_bins[b]
                },
        );
        if spec_moved(old_map, new_map, src, n - 1) {
            let chunks = src_bins[n - 1].unwrap()@;
            let seg = crate::stateful::spec_bin_transfer::<W, M>(
                new_map[n - 1],
                (n - 1) as usize,
                chunks,
            );
            assert(msgs == prev + seg);
            lemma_absorb_concat(dst_bins, dst_pend, time, prev, seg);
            assert(new_map[n - 1] == dst);
            assert(mid_bins[n - 1] is None);
            lemma_absorb_transfer::<W, M>(
                mid_bins,
                dst_pend,
                time,
                dst,
                (n - 1) as usize,
                chunks,
            );
            assert(mid_bins.update(n - 1, Some(chunks)) =~= want);
            assert(msgs.len() as int == prev.len() + seg.len());
        } else {
            assert(msgs == prev + Seq::<(usize, StateProtocol<W, M>)>::empty());
            assert(msgs =~= prev);
            assert(mid_bins =~= want);
        }
    }
}

/// Absorbing a run of `Pending` messages — a worker's replayed
/// notifications — touches no bin and registers each notification once, at
/// its original time, in message order.
pub proof fn lemma_absorb_pendings<W, M>(
    bins: Seq<Option<Seq<W>>>,
    pend: Seq<(u64, Seq<(Key, M)>)>,
    time: u64,
    msgs: Seq<(usize, StateProtocol<W, M>)>,
    n: int,
)
    requires
        0 <= n <= msgs.len(),
        forall|i: int|
            0 <= i < msgs.len() ==> ((#[trigger] msgs[i]).1 matches StateProtocol::Pending(
                t,
                d,
            ) && t >= time),
    ensures
        spec_absorb(bins, pend, time, msgs, n) == Some(
            (
                bins,
                pend + Seq::new(
                    n as nat,
                    |i: int|
                        match msgs[i].1 {
                            StateProtocol::Pending(t, d) => (t, seq![d]),
                            _ => (0u64, Seq::empty()),
                        },
                ),
            ),
        ),
    decreases n,
{
    let added = |m: int|
        Seq::new(
            m as nat,
            |i: int|
                match msgs[i].1 {
                    StateProtocol::Pending(t, d) => (t, seq![d]),
                    _ => (0u64, Seq::<(Key, M)>::empty()),
                },
        );
    if n == 0 {
        assert(pend + added(0) =~= pend);
    } else {
        lemma_absorb_pendings(bins, pend, time, msgs, n - 1);
        assert(msgs[n - 1].1 matches StateProtocol::Pending(t, d) && t >= time);
        match msgs[n - 1].1 {
            StateProtocol::Pending(t, d) => {
                assert((pend + added(n - 1)).push((t, seq![d])) =~= pend + added(n));
            },
            _ => {},
        }
    }
}

/// Migration relocates each pending notification exactly once.  Splitting a
/// payload under a map transition keeps exactly the items whose bin keeps
/// its owner and replays exactly the items whose bin changes owner, each as
/// one `Pending` message to the bin's new owner at the original time;
/// together they are a permutation of the original payload.
pub proof fn lemma_notification_equivalence<W, M>(
    t: u64,
    payload: Seq<(Key, M)>,
    old_map: Seq<usize>,
    new_map: Seq<usize>,
)
    ensures
        spec_kept_payload(payload, old_map, new_map) == payload.filter(
            |km: (Key, M)| spec_stays(old_map, new_map, km.0),
        ),
        spec_replayed_payload::<W, M>(t, payload, old_map, new_map) == payload.filter(
            |km: (Key, M)| !spec_stays(old_map, new_map, km.0),
        ).map_values(
            |km: (Key, M)|
                (new_map[spec_key_to_bin(km.0)], StateProtocol::<W, M>::Pending(t, km)),
        ),
        spec_kept_payload(payload, old_map, new_map).to_multiset().add(
            payload.filter(|km: (Key, M)| !spec_stays(old_map, new_map, km.0)).to_multiset(),
        ) =~= payload.to_multiset(),
    decreases payload.len(),
{
    reveal(Seq::filter);
    let stays = |km: (Key, M)| spec_stays(old_map, new_map, km.0);
    let goes = |km: (Key, M)| !spec_stays(old_map, new_map, km.0);
    let to_msg = |km: (Key, M)|
        (new_map[spec_key_to_bin(km.0)], StateProtocol::<W, M>::Pending(t, km));
    if payload.len() == 0 {
        assert(spec_kept_payload(payload, old_map, new_map) =~= payload.filter(stays));
        assert(spec_replayed_payload::<W, M>(t, payload, old_map, new_map) =~= payload.filter(
            goes,
        ).map_values(to_msg));
        payload.to_multiset_ensures();
        payload.filter(goes).to_multiset_ensures();
        assert(payload.filter(goes) =~= payload);
        assert(spec_kept_payload(payload, old_map, new_map).to_multiset().add(
            payload.filter(goes).to_multiset(),
        ) =~= payload.to_multiset());
    } else {
        let head = payload.drop_last();
        let last = payload.last();
        lemma_notification_equivalence::<W, M>(t, head, old_map, new_map);
        if stays(last) {
            assert(spec_kept_payload(payload, old_map, new_map) =~= spec_kept_payload(
                head,
                old_map,
                new_map,
            ).push(last));
            assert(payload.filter(stays) == head.filter(stays).push(last));
            assert(payload.filter(goes) == head.filter(goes));
            assert(spec_replayed_payload::<W, M>(t, payload, old_map, new_map) =~= spec_replayed_payload::<
                W,
                M,
            >(t, head, old_map, new_map));
        } else {
            assert(spec_kept_payload(payload, old_map, new_map) =~= spec_kept_payload(
                head,
                old_map,
                new_map,
            ));
            assert(payload.filter(stays) == head.filter(stays));
            assert(payload.filter(goes) == head.filter(goes).push(last));
            assert(spec_replayed_payload::<W, M>(t, payload, old_map, new_map) =~= spec_replayed_payload::<
                W,
                M,
            >(t, head, old_map, new_map).push(to_msg(last)));
            assert(head.filter(goes).push(last).map_values(to_msg) =~= head.filter(
                goes,
            ).map_values(to_msg).push(to_msg(last)));
        }
        lemma_multiset_split(payload, head, last, old_map, new_map);
    }
}

/// The kept and moved parts of a payload together form the whole payload,
/// as multisets.
proof fn lemma_multiset_split<M>(
    payload: Seq<(Key, M)>,
    head: Seq<(Key, M)>,
    last: (Key, M),
    old_map: Seq<usize>,
    new_map: Seq<usize>,
)
    requires
        payload.len() > 0,
        head == payload.drop_last(),
        last == payload.last(),
        spec_kept_payload(head, old_map, new_map).to_multiset().add(
            head.filter(|km: (Key, M)| !spec_stays(old_map, new_map, km.0)).to_multiset(),
        ) =~= head.to_multiset(),
    ensures
        spec_kept_payload(payload, old_map, new_map).to_multiset().add(
            payload.filter(|km: (Key, M)| !spec_stays(old_map, new_map, km.0)).to_multiset(),
        ) =~= payload.to_multiset(),
{
    reveal(Seq::filter);
    let stays = |km: (Key, M)| spec_stays(old_map, new_map, km.0);
    let goes = |km: (Key, M)| !spec_stays(old_map, new_map, km.0);
    payload.to_multiset_ensures();
    head.to_multiset_ensures();
    assert(head.push(last) =~= payload);
    head.push(last).to_multiset_ensures();
    if stays(last) {
        assert(spec_kept_payload(payload, old_map, new_map) =~= spec_kept_payload(
            head,
            old_map,
            new_map,
        ).push(last));
        spec_kept_payload(head, old_map, new_map).to_multiset_ensures();
        spec_kept_payload(head, old_map, new_map).push(last).to_multiset_ensures();
        assert(payload.filter(goes) == head.filter(goes));
    } else {
        assert(spec_kept_payload(payload, old_map, new_map) =~= spec_kept_payload(
            head,
            old_map,
            new_map,
        ));
        assert(payload.filter(goes) == head.filter(goes).push(last));
        head.filter(goes).to_multiset_ensures();
        head.filter(goes).push(last).to_multiset_ensures();
    }
}

} // verus!
