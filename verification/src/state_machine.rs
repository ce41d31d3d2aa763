//! Keyed state machines over the routed stream.
//!
//! A [`Fold`] is user-supplied transition logic: each key has a state, each
//! record drives one transition, and a transition may emit output records
//! and ask for its key's state to be dropped.  The per-bin containers of a
//! worker's [`State`] hold the key-to-state pairs as association lists, and
//! [`state_machine_batch`] applies one routed batch in order.

use vstd::prelude::*;

use crate::stateful::State;
use crate::{key_to_bin, spec_key_to_bin, Key};

verus! {

/// User-supplied state-transition logic: an initial per-key state, and a
/// transition from a timestamped keyed record that may update the state,
/// emit outputs, and request removal of the key's entry.
pub trait Fold<V, D, R>: Sized {
    /// The state a key starts from.
    spec fn spec_init(&self) -> D;

    /// The transition: remove flag, next state, and emitted outputs.
    spec fn spec_fold(&self, t: u64, k: Key, v: V, d: D) -> (bool, D, Seq<R>);

    /// Produce the initial per-key state.
    fn init(&self) -> (d: D)
        ensures
            d == self.spec_init(),
    ;

    /// Apply one transition in place.
    fn fold(&self, t: u64, k: Key, v: V, d: &mut D) -> (out: (bool, Vec<R>))
        ensures
            ({
                let (remove, nd, outs) = self.spec_fold(t, k, v, *old(d));
                &&& out.0 == remove
                &&& *final(d) == nd
                &&& out.1@ == outs
            }),
    ;
}

/// The first position of `k` in an association list, if any.
pub open spec fn spec_assoc_find<D>(c: Seq<(Key, D)>, k: Key) -> Option<int>
    decreases c.len(),
{
    if c.len() == 0 {
        None
    } else if c[0].0 == k {
        Some(0)
    } else {
        match spec_assoc_find(c.drop_first(), k) {
            Option::Some(i) => Some(i + 1),
            Option::None => None,
        }
    }
}

/// The containers and outputs after one record drives its key's transition:
/// the key's bin is looked up, the key's state (or the initial state) is
/// folded, and the entry is written back, dropped, or created.
pub open spec fn spec_sm_step<V, D, R, F: Fold<V, D, R>>(
    bins: Seq<Option<Seq<(Key, D)>>>,
    f: F,
    t: u64,
    k: Key,
    v: V,
) -> (Seq<Option<Seq<(Key, D)>>>, Seq<R>) {
    let b = spec_key_to_bin(k);
    let c = bins[b].unwrap();
    let found = spec_assoc_find(c, k);
    let d0 = match found {
        Option::Some(i) => c[i].1,
        Option::None => f.spec_init(),
    };
    let step = f.spec_fold(t, k, v, d0);
    let c2 = match found {
        Option::Some(i) => if step.0 {
            c.remove(i)
        } else {
            c.update(i, (k, step.1))
        },
        Option::None => if step.0 {
            c
        } else {
            c.push((k, step.1))
        },
    };
    (bins.update(b, Some(c2)), step.2)
}

/// The containers and outputs after the first `n` records of a batch.
pub open spec fn spec_sm_batch<V, D, R, F: Fold<V, D, R>>(
    bins: Seq<Option<Seq<(Key, D)>>>,
    f: F,
    t: u64,
    records: Seq<(Key, V)>,
    n: int,
) -> (Seq<Option<Seq<(Key, D)>>>, Seq<R>)
    decreases n,
{
    if n <= 0 {
        (bins, Seq::empty())
    } else {
        let prev = spec_sm_batch(bins, f, t, records, n - 1);
        let step = spec_sm_step(prev.0, f, t, records[n - 1].0, records[n - 1].1);
        (step.0, prev.1 + step.1)
    }
}

/// Find the first position of `k` in an association list.
fn assoc_find<D>(c: &Vec<(Key, D)>, k: Key) -> (r: Option<usize>)
    ensures
        (match r {
            Option::Some(i) => spec_assoc_find(c@, k) == Some(i as int) && i < c@.len()
                && c@[i as int].0 == k,
            Option::None => spec_assoc_find(c@, k) is None,
        }),
{
    let mut i: usize = 0;
    proof {
        assert(c@.skip(0) =~= c@);
    }
    while i < c.len()
        invariant
            i <= c@.len(),
            forall|j: int| 0 <= j < i as int ==> (#[trigger] c@[j]).0 != k,
            spec_assoc_find(c@, k) == (match spec_assoc_find(c@.skip(i as int), k) {
                Option::Some(x) => Some(x + i as int),
                Option::None => None::<int>,
            }),
        decreases c@.len() - i,
    {
        let ghost pre = c@.skip(i as int);
        if c[i].0 == k {
            proof {
                assert(pre[0] == c@[i as int]);
                assert(spec_assoc_find(pre, k) == Some(0int));
            }
            return Some(i);
        }
        proof {
            assert(pre[0] == c@[i as int]);
            assert(pre.drop_first() =~= c@.skip(i as int + 1));
        }
        i += 1;
    }
    proof {
        assert(c@.skip(i as int) =~= Seq::<(Key, D)>::empty());
    }
    None
}

/// Apply one routed batch at time `t` to the per-key states, in record
/// order, returning every emitted output in order.  Every record must be
/// addressed to this worker: its key's bin must be locally owned.
pub fn state_machine_batch<V, D, R, M, F: Fold<V, D, R>>(
    state: &mut State<(Key, D), M>,
    f: &F,
    t: u64,
    records: Vec<(Key, V)>,
) -> (outs: Vec<R>)
    requires
        old(state).wf(),
        forall|i: int|
            0 <= i < records@.len() ==> old(state).owns(
                spec_key_to_bin((#[trigger] records@[i]).0),
            ),
    ensures
        final(state).wf(),
        ({
            let full = spec_sm_batch(
                crate::stateful::spec_bins_view(old(state).bins@),
                *f,
                t,
                records@,
                records@.len() as int,
            );
            &&& crate::stateful::spec_bins_view(final(state).bins@) == full.0
            &&& outs@ == full.1
        }),
        final(state).notificator == old(state).notificator,
{
    let ghost bins0 = crate::stateful::spec_bins_view(old(state).bins@);
    let ghost all = records@;
    proof {
        assert forall|i: int|
            0 <= i < all.len() implies bins0[spec_key_to_bin((#[trigger] all[i]).0)] is Some by {
            crate::lemma_key_to_bin_in_range(all[i].0);
            assert(old(state).owns(spec_key_to_bin(all[i].0)));
        }
    }
    let mut rest = records;
    let mut outs: Vec<R> = Vec::new();
    while rest.len() > 0
        invariant
            state.wf(),
            bins0.len() == crate::BINS,
            rest@.len() <= all.len(),
            rest@ == all.skip(all.len() - rest@.len()),
            forall|i: int|
                0 <= i < all.len() ==> bins0[spec_key_to_bin((#[trigger] all[i]).0)] is Some,
            ({
                let sofar = spec_sm_batch(bins0, *f, t, all, all.len() - rest@.len());
                &&& crate::stateful::spec_bins_view(state.bins@) == sofar.0
                &&& outs@ == sofar.1
            }),
            state.notificator == old(state).notificator,
        decreases rest@.len(),
    {
        let ghost n = all.len() - rest@.len();
        let ghost pre_view = crate::stateful::spec_bins_view(state.bins@);
        let ghost pre_outs = outs@;
        let e = rest.remove(0);
        proof {
            assert(all.skip(n) =~= seq![all[n]] + all.skip(n + 1));
            assert(e == all[n]);
            assert(rest@ =~= all.skip(n + 1));
            lemma_sm_batch_owns(bins0, *f, t, all, n);
        }
        let (k, v) = e;
        proof {
            crate::lemma_key_to_bin_in_range(k);
            assert(bins0[spec_key_to_bin(k)] is Some);
            assert(spec_sm_batch(bins0, *f, t, all, n).0[spec_key_to_bin(k)] is Some);
            assert(crate::stateful::spec_bins_view(state.bins@)[spec_key_to_bin(k)] == (
            match state.bins@[spec_key_to_bin(k)] {
                Option::Some(v) => Some(v@),
                Option::None => None,
            }));
            assert(state.owns(spec_key_to_bin(k)));
        }
        let b = key_to_bin(k);
        let ghost pre_bins = state.bins@;
        let container = state.get_state(k);
        let ghost c0 = container@;
        proof {
            assert(pre_view[spec_key_to_bin(k)] == Some(c0));
        }
        let found = assoc_find(container, k);
        match found {
            Some(i) => {
                let mut entry = container.remove(i);
                let (remove, mut out) = f.fold(t, k, v, &mut entry.1);
                if !remove {
                    container.insert(i, entry);
                    proof {
                        assert(container@ =~= c0.update(
                            i as int,
                            (k, f.spec_fold(t, k, v, c0[i as int].1).1),
                        ));
                    }
                } else {
                    proof {
                        assert(container@ =~= c0.remove(i as int));
                    }
                }
                outs.append(&mut out);
            },
            None => {
                let mut d = f.init();
                let (remove, mut out) = f.fold(t, k, v, &mut d);
                if !remove {
                    container.push((k, d));
                    proof {
                        assert(container@ =~= c0.push(
                            (k, f.spec_fold(t, k, v, f.spec_init()).1),
                        ));
                    }
                }
                outs.append(&mut out);
            },
        }
        proof {
            assert(state.bins@ =~= pre_bins.update(
                spec_key_to_bin(k),
                Some(*final(container)),
            ));
        }
        proof {
            let step = spec_sm_step(pre_view, *f, t, k, v);
            assert(crate::stateful::spec_bins_view(state.bins@) =~= step.0);
            assert(outs@ =~= pre_outs + step.1);
            assert(all.len() - rest@.len() == n + 1);
        }
    }
    outs
}

/// Processing a batch never revokes ownership of a bin it touches: bins
/// owned before remain owned at every prefix of the batch.
proof fn lemma_sm_batch_owns<V, D, R, F: Fold<V, D, R>>(
    bins: Seq<Option<Seq<(Key, D)>>>,
    f: F,
    t: u64,
    records: Seq<(Key, V)>,
    n: int,
)
    requires
        0 <= n <= records.len(),
        bins.len() == crate::BINS,
    ensures
        spec_sm_batch(bins, f, t, records, n).0.len() == bins.len(),
        forall|b: int|
            0 <= b < bins.len() && bins[b] is Some ==> (#[trigger] spec_sm_batch(
                bins,
                f,
                t,
                records,
                n,
            ).0[b]) is Some,
    decreases n,
{
    if n > 0 {
        lemma_sm_batch_owns(bins, f, t, records, n - 1);
        let prev = spec_sm_batch(bins, f, t, records, n - 1);
        let k = records[n - 1].0;
        crate::lemma_key_to_bin_in_range(k);
    }
}

/// The identity fold: every record is passed through unchanged, no per-key
/// state is kept beyond a placeholder, and no entry is ever removed.
pub struct IdentityFold;

impl<V> Fold<V, u64, V> for IdentityFold {
    open spec fn spec_init(&self) -> u64 {
        0
    }

    open spec fn spec_fold(&self, t: u64, k: Key, v: V, d: u64) -> (bool, u64, Seq<V>) {
        (false, d, seq![v])
    }

    fn init(&self) -> (d: u64) {
        0
    }

    fn fold(&self, t: u64, k: Key, v: V, d: &mut u64) -> (out: (bool, Vec<V>)) {
        let mut single: Vec<V> = Vec::new();
        single.push(v);
        proof {
            assert(single@ =~= seq![v]);
        }
        (false, single)
    }
}

/// With the identity fold, a state machine emits, within each timestamp,
/// exactly the values it was fed, in order: the output stream is a
/// permutation of the input stream within each timestamp.
pub proof fn lemma_identity_fold_passthrough<V>(
    bins: Seq<Option<Seq<(Key, u64)>>>,
    t: u64,
    records: Seq<(Key, V)>,
    n: int,
)
    requires
        0 <= n <= records.len(),
    ensures
        spec_sm_batch(bins, IdentityFold, t, records, n).1 =~= records.take(n).map_values(
            |r: (Key, V)| r.1,
        ),
    decreases n,
{
    if n == 0 {
        assert(records.take(0).map_values(|r: (Key, V)| r.1) =~= Seq::<V>::empty());
    } else {
        lemma_identity_fold_passthrough(bins, t, records, n - 1);
        let prev = spec_sm_batch(bins, IdentityFold, t, records, n - 1);
        let step = spec_sm_step(prev.0, IdentityFold, t, records[n - 1].0, records[n - 1].1);
        assert(step.1 =~= seq![records[n - 1].1]);
        assert(records.take(n).map_values(|r: (Key, V)| r.1) =~= records.take(n - 1).map_values(
            |r: (Key, V)| r.1,
        ).push(records[n - 1].1));
        assert(prev.1 + step.1 =~= prev.1.push(records[n - 1].1));
    }
}

} // verus!
