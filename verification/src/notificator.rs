//! A frontier notificator that carries a payload per pending notification.
//!
//! Notifications are requested at a time together with payload data, and are
//! delivered once no frontier element is less than or equal to their time.
//! Registrations at equal times are merged by concatenating their payloads.
//! Delivery within one session (one [`FrontierNotificator::drain`]) is in
//! strictly increasing time order.
//!
//! The notificator also accepts raw `(time, payload)` pairs through
//! [`FrontierNotificator::enqueue`] for state-transfer code that holds no
//! capability at message-arrival time; a held capability, populated by
//! [`FrontierNotificator::init_cap`], converts them into ordinary pending
//! notifications on the next [`FrontierNotificator::make_available`].
//!
//! Times are totally ordered, and the held capability is downgraded to the
//! least frontier element; both are sound only for a totally ordered
//! timestamp domain.

use vstd::prelude::*;

use crate::antichain::{spec_le, Antichain};

verus! {

/// The payloads registered at time `u` across `s`, concatenated in sequence
/// order.
pub open spec fn content_at<D>(s: Seq<(u64, Vec<D>)>, u: u64) -> Seq<D>
    decreases s.len(),
{
    if s.len() == 0 {
        Seq::empty()
    } else {
        content_at(s.drop_last(), u) + (if s.last().0 == u {
            s.last().1@
        } else {
            Seq::empty()
        })
    }
}

/// Entry times are strictly increasing.
pub open spec fn times_sorted<D>(s: Seq<(u64, Vec<D>)>) -> bool {
    forall|i: int, j: int| 0 <= i < j < s.len() ==> s[i].0 < s[j].0
}

/// No entry carries an empty payload.
pub open spec fn entries_nonempty<D>(s: Seq<(u64, Vec<D>)>) -> bool {
    forall|i: int| 0 <= i < s.len() ==> (#[trigger] s[i].1)@.len() > 0
}

/// Whether some frontier has an element less than or equal to `t`: a
/// notification at `t` is then not yet deliverable.
pub open spec fn frontiers_le(fs: Seq<Antichain>, t: u64) -> bool {
    exists|i: int| 0 <= i < fs.len() && spec_le(#[trigger] fs[i]@, t)
}

/// The least element over all the frontiers, if any frontier is non-empty.
pub open spec fn spec_frontiers_min(fs: Seq<Antichain>) -> Option<u64>
    decreases fs.len(),
{
    if fs.len() == 0 {
        None
    } else {
        let rest = spec_frontiers_min(fs.drop_last());
        match fs.last()@ {
            Option::None => rest,
            Option::Some(x) => match rest {
                Option::None => Some(x),
                Option::Some(m) => if x < m {
                    Some(x)
                } else {
                    Some(m)
                },
            },
        }
    }
}

/// The held capability after inspecting the frontiers: dropped when every
/// frontier is empty, otherwise raised to the least frontier element when
/// that lies above it.
pub open spec fn spec_cap_after(cap: Option<u64>, fs: Seq<Antichain>) -> Option<u64> {
    match spec_frontiers_min(fs) {
        Option::None => None,
        Option::Some(m) => match cap {
            Option::None => None,
            Option::Some(c) => if c < m {
                Some(m)
            } else {
                Some(c)
            },
        },
    }
}

/// Appending an entry appends its payload to its time's content and leaves
/// every other time's content unchanged.
pub proof fn lemma_content_at_push<D>(s: Seq<(u64, Vec<D>)>, e: (u64, Vec<D>))
    ensures
        forall|u: u64|
            #[trigger] content_at(s.push(e), u) == (if e.0 == u {
                content_at(s, u) + e.1@
            } else {
                content_at(s, u)
            }),
{
    assert forall|u: u64|
        #[trigger] content_at(s.push(e), u) == (if e.0 == u {
            content_at(s, u) + e.1@
        } else {
            content_at(s, u)
        }) by {
        assert(s.push(e).drop_last() =~= s);
        assert(s.push(e).last() == e);
        if e.0 != u {
            assert(content_at(s, u) + Seq::<D>::empty() =~= content_at(s, u));
        }
    }
}

/// Content distributes over concatenation of entry sequences.
pub proof fn lemma_content_at_concat<D>(a: Seq<(u64, Vec<D>)>, b: Seq<(u64, Vec<D>)>)
    ensures
        forall|u: u64|
            #[trigger] content_at(a + b, u) == content_at(a, u) + content_at(b, u),
    decreases b.len(),
{
    if b.len() == 0 {
        assert(a + b =~= a);
        assert forall|u: u64|
            #[trigger] content_at(a + b, u) == content_at(a, u) + content_at(b, u) by {
            assert(content_at(a, u) + Seq::<D>::empty() =~= content_at(a, u));
        }
    } else {
        lemma_content_at_concat(a, b.drop_last());
        assert forall|u: u64|
            #[trigger] content_at(a + b, u) == content_at(a, u) + content_at(b, u) by {
            assert((a + b).drop_last() =~= a + b.drop_last());
            assert((a + b).last() == b.last());
            assert(content_at(a + b.drop_last(), u) == content_at(a, u) + content_at(
                b.drop_last(),
                u,
            ));
            if b.last().0 == u {
                assert(content_at(a, u) + content_at(b.drop_last(), u) + b.last().1@
                    =~= content_at(a, u) + (content_at(b.drop_last(), u) + b.last().1@));
                assert(content_at(b, u) == content_at(b.drop_last(), u) + b.last().1@);
            } else {
                assert(content_at(b, u) == content_at(b.drop_last(), u) + Seq::<D>::empty());
                assert(content_at(b.drop_last(), u) + Seq::<D>::empty() =~= content_at(
                    b.drop_last(),
                    u,
                ));
                assert((content_at(a, u) + content_at(b.drop_last(), u)) + Seq::<D>::empty()
                    =~= content_at(a, u) + content_at(b.drop_last(), u));
            }
        }
    }
}

/// The content of a single entry: its payload at its own time, nothing at
/// any other.
pub proof fn lemma_content_at_single<D>(e: (u64, Vec<D>))
    ensures
        forall|u: u64|
            #[trigger] content_at(seq![e], u) == (if e.0 == u {
                e.1@
            } else {
                Seq::<D>::empty()
            }),
{
    assert forall|u: u64|
        #[trigger] content_at(seq![e], u) == (if e.0 == u {
            e.1@
        } else {
            Seq::<D>::empty()
        }) by {
        assert(seq![e].drop_last() =~= Seq::<(u64, Vec<D>)>::empty());
        assert(content_at(Seq::<(u64, Vec<D>)>::empty(), u) == Seq::<D>::empty());
        if e.0 == u {
            assert(Seq::<D>::empty() + e.1@ =~= e.1@);
        } else {
            assert(Seq::<D>::empty() + Seq::<D>::empty() =~= Seq::<D>::empty());
        }
    }
}

/// For a sorted entry sequence, the head entry is the whole content at its
/// time, nothing registers at earlier times, and the tail carries every other
/// time's content.
pub proof fn lemma_content_at_head<D>(s: Seq<(u64, Vec<D>)>)
    requires
        times_sorted(s),
        s.len() > 0,
    ensures
        content_at(s, s[0].0) == s[0].1@,
        forall|u: u64| u != s[0].0 ==> #[trigger] content_at(s.drop_first(), u) == content_at(s, u),
        content_at(s.drop_first(), s[0].0) == Seq::<D>::empty(),
        forall|u: u64| u < s[0].0 ==> #[trigger] content_at(s, u) == Seq::<D>::empty(),
{
    assert(s =~= seq![s[0]] + s.drop_first());
    lemma_content_at_concat(seq![s[0]], s.drop_first());
    lemma_content_at_single(s[0]);
    lemma_content_at_tail_empty(s.drop_first(), s[0].0);
    assert forall|u: u64| u < s[0].0 implies #[trigger] content_at(s, u) == Seq::<D>::empty() by {
        lemma_content_at_tail_empty(s.drop_first(), u);
        assert(content_at(s, u) == content_at(seq![s[0]], u) + content_at(s.drop_first(), u));
        assert(Seq::<D>::empty() + Seq::<D>::empty() =~= Seq::<D>::empty());
    }
    assert(content_at(s, s[0].0) == content_at(seq![s[0]], s[0].0) + content_at(
        s.drop_first(),
        s[0].0,
    ));
    assert(s[0].1@ + Seq::<D>::empty() =~= s[0].1@);
    assert forall|u: u64| u != s[0].0 implies #[trigger] content_at(s.drop_first(), u)
        == content_at(s, u) by {
        assert(content_at(s, u) == content_at(seq![s[0]], u) + content_at(s.drop_first(), u));
        assert(Seq::<D>::empty() + content_at(s.drop_first(), u) =~= content_at(
            s.drop_first(),
            u,
        ));
    }
}

/// No content registers in a sequence whose times all exceed `u`.
proof fn lemma_content_at_tail_empty<D>(s: Seq<(u64, Vec<D>)>, u: u64)
    requires
        forall|i: int| 0 <= i < s.len() ==> u < #[trigger] s[i].0,
    ensures
        content_at(s, u) == Seq::<D>::empty(),
    decreases s.len(),
{
    if s.len() > 0 {
        lemma_content_at_tail_empty(s.drop_last(), u);
        assert(content_at(s.drop_last(), u) + Seq::<D>::empty() =~= Seq::<D>::empty());
    }
}

/// Tracks requests for notification and delivers available notifications.
///
/// Requested notifications are served only once no frontier element is
/// less-or-equal to them.  `pending` holds requests not yet deliverable,
/// `enqueued` holds raw requests awaiting conversion through the held
/// capability, and `available` holds deliverable notifications sorted by
/// time.
pub struct FrontierNotificator<D> {
    pending: Vec<(u64, Vec<D>)>,
    enqueued: Vec<(u64, Vec<D>)>,
    available: Vec<(u64, Vec<D>)>,
    capability: Option<u64>,
}

impl<D> FrontierNotificator<D> {
    /// The pending requests: `(time, payloads)` pairs awaiting their
    /// frontier.
    pub closed spec fn spec_pending(&self) -> Seq<(u64, Vec<D>)> {
        self.pending@
    }

    /// The raw enqueued requests awaiting a capability.
    pub closed spec fn spec_enqueued(&self) -> Seq<(u64, Vec<D>)> {
        self.enqueued@
    }

    /// The deliverable notifications, sorted by time.
    pub closed spec fn spec_available(&self) -> Seq<(u64, Vec<D>)> {
        self.available@
    }

    /// The held capability's time, if one is held.
    pub closed spec fn spec_capability(&self) -> Option<u64> {
        self.capability
    }

    /// Structural invariant: deliverable notifications are sorted by strictly
    /// increasing time and none carries an empty payload.
    pub open spec fn wf(&self) -> bool {
        &&& times_sorted(self.spec_available())
        &&& entries_nonempty(self.spec_available())
    }

    /// What the deliverable content at time `u` becomes once the frontiers
    /// `fs` have been inspected: pending and enqueued requests not blocked by
    /// a frontier join the already available content.
    pub open spec fn refreshed_at(&self, fs: Seq<Antichain>, u: u64) -> Seq<D> {
        if frontiers_le(fs, u) {
            content_at(self.spec_available(), u)
        } else {
            content_at(self.spec_available(), u) + content_at(
                self.spec_pending() + self.spec_enqueued(),
                u,
            )
        }
    }

    /// Preconditions of [`Self::make_available`]: raw enqueued requests can
    /// only be converted through an initialized held capability that is no
    /// later than any of them.
    pub open spec fn can_refresh(&self) -> bool {
        self.spec_enqueued().len() > 0 ==> {
            &&& self.spec_capability() is Some
            &&& forall|i: int|
                0 <= i < self.spec_enqueued().len() ==> self.spec_capability().unwrap()
                    <= (#[trigger] self.spec_enqueued()[i]).0
        }
    }

    /// Allocates a new `FrontierNotificator`.
    pub fn new() -> (r: Self)
        ensures
            r.spec_pending() == Seq::<(u64, Vec<D>)>::empty(),
            r.spec_enqueued() == Seq::<(u64, Vec<D>)>::empty(),
            r.spec_available() == Seq::<(u64, Vec<D>)>::empty(),
            r.spec_capability() is None,
            r.wf(),
    {
        FrontierNotificator {
            pending: Vec::new(),
            enqueued: Vec::new(),
            available: Vec::new(),
            capability: None,
        }
    }

    /// Allocates a new `FrontierNotificator` with initial empty-payload
    /// requests at the given times.
    pub fn from(times: Vec<u64>) -> (r: Self)
        ensures
            r.spec_pending().len() == times@.len(),
            forall|i: int|
                0 <= i < times@.len() ==> (#[trigger] r.spec_pending()[i]).0 == times@[i]
                    && r.spec_pending()[i].1@.len() == 0,
            r.spec_enqueued().len() == 0,
            r.spec_available().len() == 0,
            r.spec_capability() is None,
            r.wf(),
    {
        let mut pending: Vec<(u64, Vec<D>)> = Vec::new();
        let mut i: usize = 0;
        while i < times.len()
            invariant
                i <= times.len(),
                pending@.len() == i,
                forall|j: int|
                    0 <= j < i as int ==> (#[trigger] pending@[j]).0 == times@[j]
                        && pending@[j].1@.len() == 0,
            decreases times.len() - i,
        {
            pending.push((times[i], Vec::new()));
            i += 1;
        }
        FrontierNotificator { pending, enqueued: Vec::new(), available: Vec::new(), capability: None }
    }

    /// Requests a notification at time `t` carrying `meta`.  Registrations at
    /// equal times are merged when they are next made available.
    pub fn notify_at(&mut self, t: u64, meta: Vec<D>)
        ensures
            final(self).spec_pending() == old(self).spec_pending().push((t, meta)),
            final(self).spec_enqueued() == old(self).spec_enqueued(),
            final(self).spec_available() == old(self).spec_available(),
            final(self).spec_capability() == old(self).spec_capability(),
            old(self).wf() ==> final(self).wf(),
    {
        self.pending.push((t, meta));
    }

    /// Requests a notification at time `t` carrying `data`, delivering it
    /// directly when no frontier blocks `t` and stashing it as pending
    /// otherwise.
    pub fn notify_at_frontiered(&mut self, t: u64, data: D, frontiers: &Vec<Antichain>)
        requires
            old(self).wf(),
        ensures
            final(self).wf(),
            final(self).spec_enqueued() == old(self).spec_enqueued(),
            final(self).spec_capability() == old(self).spec_capability(),
            frontiers_le(frontiers@, t) ==> {
                &&& final(self).spec_available() == old(self).spec_available()
                &&& final(self).spec_pending().len() == old(self).spec_pending().len() + 1
                &&& final(self).spec_pending().drop_last() == old(self).spec_pending()
                &&& final(self).spec_pending().last().0 == t
                &&& final(self).spec_pending().last().1@ == seq![data]
            },
            !frontiers_le(frontiers@, t) ==> {
                &&& final(self).spec_pending() == old(self).spec_pending()
                &&& content_at(final(self).spec_available(), t) == content_at(
                    old(self).spec_available(),
                    t,
                ) + seq![data]
                &&& forall|u: u64|
                    u != t ==> #[trigger] content_at(final(self).spec_available(), u)
                        == content_at(old(self).spec_available(), u)
            },
    {
        let blocked = any_less_equal(frontiers, t);
        let mut single: Vec<D> = Vec::new();
        single.push(data);
        if blocked {
            self.pending.push((t, single));
        } else {
            let mut avail = Vec::new();
            core::mem::swap(&mut self.available, &mut avail);
            let avail = insert_merge(avail, t, single);
            self.available = avail;
        }
    }

    /// Registers a raw `(time, payloads)` request without a capability; the
    /// held capability converts it on the next refresh.
    pub fn enqueue(&mut self, t: u64, data: Vec<D>)
        ensures
            final(self).spec_enqueued() == old(self).spec_enqueued().push((t, data)),
            final(self).spec_pending() == old(self).spec_pending(),
            final(self).spec_available() == old(self).spec_available(),
            final(self).spec_capability() == old(self).spec_capability(),
            old(self).wf() ==> final(self).wf(),
    {
        self.enqueued.push((t, data));
    }

    /// Populates the held capability if none is held.
    pub fn init_cap(&mut self, cap: u64)
        ensures
            final(self).spec_capability() == (match old(self).spec_capability() {
                Option::None => Some(cap),
                Option::Some(c) => Some(c),
            }),
            final(self).spec_pending() == old(self).spec_pending(),
            final(self).spec_enqueued() == old(self).spec_enqueued(),
            final(self).spec_available() == old(self).spec_available(),
            old(self).wf() ==> final(self).wf(),
    {
        if self.capability.is_none() {
            self.capability = Some(cap);
        }
    }

    /// Enables pending notifications not in advance of any element of the
    /// frontiers: raw enqueued requests become pending through the held
    /// capability, pending requests at equal times are merged, every request
    /// no frontier blocks moves to the deliverable set, and the held
    /// capability is downgraded to the least frontier element (dropped when
    /// every frontier is empty).
    pub fn make_available(&mut self, frontiers: &Vec<Antichain>)
        requires
            old(self).wf(),
            old(self).can_refresh(),
        ensures
            final(self).wf(),
            final(self).spec_enqueued().len() == 0,
            final(self).spec_capability() == spec_cap_after(
                old(self).spec_capability(),
                frontiers@,
            ),
            forall|u: u64|
                #[trigger] content_at(final(self).spec_available(), u) == old(self).refreshed_at(
                    frontiers@,
                    u,
                ),
            forall|u: u64|
                #[trigger] content_at(final(self).spec_pending(), u) == (if frontiers_le(
                    frontiers@,
                    u,
                ) {
                    content_at(old(self).spec_pending() + old(self).spec_enqueued(), u)
                } else {
                    Seq::<D>::empty()
                }),
    {
        let ghost p0 = self.pending@;
        let ghost q0 = self.enqueued@;

        // Convert the raw enqueued requests through the held capability.
        let mut q: Vec<(u64, Vec<D>)> = Vec::new();
        core::mem::swap(&mut self.enqueued, &mut q);
        self.pending.append(&mut q);

        // Downgrade or drop the held capability.
        let mut mn: Option<u64> = None;
        let mut i: usize = 0;
        while i < frontiers.len()
            invariant
                i <= frontiers.len(),
                mn == spec_frontiers_min(frontiers@.take(i as int)),
            decreases frontiers.len() - i,
        {
            let ghost pre = frontiers@.take(i as int);
            match frontiers[i].frontier_time() {
                Some(x) => {
                    mn = Some(
                        match mn {
                            Some(m) => if x < m {
                                x
                            } else {
                                m
                            },
                            None => x,
                        },
                    );
                },
                None => {},
            }
            proof {
                assert(frontiers@.take(i as int + 1).drop_last() =~= pre);
                assert(frontiers@.take(i as int + 1).last() == frontiers@[i as int]);
            }
            i += 1;
        }
        proof {
            assert(frontiers@.take(frontiers@.len() as int) =~= frontiers@);
        }
        match mn {
            None => {
                self.capability = None;
            },
            Some(m) => {
                match self.capability {
                    Some(c) => {
                        if c < m {
                            self.capability = Some(m);
                        }
                    },
                    None => {},
                }
            },
        }

        // Coalesce the pending requests by time.
        let mut work: Vec<(u64, Vec<D>)> = Vec::new();
        core::mem::swap(&mut self.pending, &mut work);
        let ghost w0 = work@;
        proof {
            assert(w0 == p0 + q0);
        }
        let mut merged: Vec<(u64, Vec<D>)> = Vec::new();
        while work.len() > 0
            invariant
                work@.len() <= w0.len(),
                work@ == w0.skip(w0.len() - work@.len()),
                times_sorted(merged@),
                entries_nonempty(merged@),
                forall|u: u64|
                    #[trigger] content_at(merged@, u) == content_at(
                        w0.take(w0.len() - work@.len()),
                        u,
                    ),
            decreases work@.len(),
        {
            let ghost k = w0.len() - work@.len();
            let ghost pre_merged = merged@;
            let e = work.remove(0);
            proof {
                assert(w0.skip(k) =~= seq![w0[k]] + w0.skip(k + 1));
                assert(e == w0[k]);
                assert(work@ =~= w0.skip(k + 1));
                assert(w0.take(k + 1) =~= w0.take(k).push(e));
                lemma_content_at_push(w0.take(k), e);
            }
            let (te, pe) = e;
            if pe.len() > 0 {
                merged = insert_merge(merged, te, pe);
            } else {
                proof {
                    assert forall|u: u64|
                        #[trigger] content_at(w0.take(k + 1), u) == content_at(
                            w0.take(k),
                            u,
                        ) by {
                        if te == u {
                            assert(content_at(w0.take(k), u) + Seq::<D>::empty() =~= content_at(
                                w0.take(k),
                                u,
                            ));
                        }
                    }
                }
            }
        }
        proof {
            assert(w0.take(w0.len() - work@.len()) =~= w0);
        }

        // Promote every request that no frontier blocks.
        let mut avail: Vec<(u64, Vec<D>)> = Vec::new();
        core::mem::swap(&mut self.available, &mut avail);
        let ghost a0 = avail@;
        let ghost m0 = merged@;
        while merged.len() > 0
            invariant
                merged@.len() <= m0.len(),
                merged@ == m0.skip(m0.len() - merged@.len()),
                times_sorted(avail@),
                entries_nonempty(avail@),
                entries_nonempty(m0),
                self.spec_enqueued().len() == 0,
                self.spec_capability() == spec_cap_after(old(self).spec_capability(), frontiers@),
                forall|u: u64|
                    frontiers_le(frontiers@, u) ==> #[trigger] content_at(self.spec_pending(), u)
                        == content_at(m0.take(m0.len() - merged@.len()), u),
                forall|u: u64|
                    !frontiers_le(frontiers@, u) ==> #[trigger] content_at(self.spec_pending(), u)
                        == Seq::<D>::empty(),
                forall|u: u64|
                    frontiers_le(frontiers@, u) ==> #[trigger] content_at(avail@, u) == content_at(
                        a0,
                        u,
                    ),
                forall|u: u64|
                    !frontiers_le(frontiers@, u) ==> #[trigger] content_at(avail@, u) == content_at(
                        a0,
                        u,
                    ) + content_at(m0.take(m0.len() - merged@.len()), u),
            decreases merged@.len(),
        {
            let ghost k = m0.len() - merged@.len();
            let ghost pre_pending = self.spec_pending();
            let ghost pre_avail = avail@;
            proof {
                assert forall|u: u64| frontiers_le(frontiers@, u) implies content_at(
                    pre_pending,
                    u,
                ) == content_at(m0.take(k), u) by {
                    assert(content_at(self.spec_pending(), u) == content_at(m0.take(k), u));
                }
                assert forall|u: u64| !frontiers_le(frontiers@, u) implies content_at(
                    pre_pending,
                    u,
                ) == Seq::<D>::empty() by {
                    assert(content_at(self.spec_pending(), u) == Seq::<D>::empty());
                }
            }
            let e = merged.remove(0);
            proof {
                assert(m0.skip(k) =~= seq![m0[k]] + m0.skip(k + 1));
                assert(e == m0[k]);
                assert(merged@ =~= m0.skip(k + 1));
                assert(m0.take(k + 1) =~= m0.take(k).push(e));
                lemma_content_at_push(m0.take(k), e);
            }
            let blocked = any_less_equal(frontiers, e.0);
            if blocked {
                proof {
                    lemma_content_at_push(pre_pending, e);
                }
                self.pending.push(e);
            } else {
                let (te, pe) = e;
                proof {
                    assert(pe@.len() > 0);
                }
                avail = insert_merge(avail, te, pe);
                proof {
                    assert forall|u: u64| !frontiers_le(frontiers@, u) implies #[trigger]
                        content_at(avail@, u) == content_at(a0, u) + content_at(
                        m0.take(k + 1),
                        u,
                    ) by {
                        if u == te {
                            assert(content_at(a0, u) + content_at(m0.take(k), u) + pe@
                                =~= content_at(a0, u) + (content_at(m0.take(k), u) + pe@));
                        }
                    }
                }
            }
            proof {
                assert(m0.len() - merged@.len() == k + 1);
                assert(m0.take(m0.len() - merged@.len()) == m0.take(k + 1));
                assert forall|u: u64| frontiers_le(frontiers@, u) implies #[trigger] content_at(
                    self.spec_pending(),
                    u,
                ) == content_at(m0.take(k + 1), u) by {
                    assert(content_at(m0.take(k).push(e), u) == (if e.0 == u {
                        content_at(m0.take(k), u) + e.1@
                    } else {
                        content_at(m0.take(k), u)
                    }));
                    assert(content_at(pre_pending, u) == content_at(m0.take(k), u));
                    if blocked {
                        assert(self.spec_pending() == pre_pending.push(e));
                        assert(content_at(pre_pending.push(e), u) == (if e.0 == u {
                            content_at(pre_pending, u) + e.1@
                        } else {
                            content_at(pre_pending, u)
                        }));
                    } else {
                        assert(u != e.0);
                        assert(self.spec_pending() == pre_pending);
                        assert(content_at(m0.take(k + 1), u) == content_at(m0.take(k), u));
                    }
                }
                assert forall|u: u64| !frontiers_le(frontiers@, u) implies #[trigger] content_at(
                    self.spec_pending(),
                    u,
                ) == Seq::<D>::empty() by {
                    if blocked {
                        assert(u != e.0);
                        assert(self.spec_pending() == pre_pending.push(e));
                        assert(content_at(pre_pending.push(e), u) == content_at(pre_pending, u));
                    }
                }
            }
        }
        proof {
            assert(m0.take(m0.len() - merged@.len()) =~= m0);
            assert(w0.take(w0.len() - 0) =~= w0);
            assert forall|u: u64| #[trigger] content_at(avail@, u) == old(self).refreshed_at(
                frontiers@,
                u,
            ) by {
                assert(content_at(m0, u) == content_at(w0, u));
                assert(content_at(old(self).spec_available(), u) == content_at(a0, u));
                assert(content_at(old(self).spec_pending() + old(self).spec_enqueued(), u)
                    == content_at(w0, u));
                if frontiers_le(frontiers@, u) {
                    assert(content_at(avail@, u) == content_at(a0, u));
                } else {
                    assert(content_at(avail@, u) == content_at(a0, u) + content_at(m0, u));
                }
            }
            assert forall|u: u64|
                #[trigger] content_at(self.spec_pending(), u) == (if frontiers_le(
                    frontiers@,
                    u,
                ) {
                    content_at(old(self).spec_pending() + old(self).spec_enqueued(), u)
                } else {
                    Seq::<D>::empty()
                }) by {
                assert(content_at(m0, u) == content_at(w0, u));
                if frontiers_le(frontiers@, u) {
                    assert(content_at(self.spec_pending(), u) == content_at(m0, u));
                } else {
                    assert(content_at(self.spec_pending(), u) == Seq::<D>::empty());
                }
            }
        }
        let ghost exit_pending = self.spec_pending();
        self.available = avail;
        proof {
            assert(self.spec_pending() == exit_pending);
            assert(self.spec_available() == avail@);
        }
    }

    /// Returns the next available notification, refreshing the deliverable
    /// set from the frontiers first: the least deliverable time together with
    /// every payload registered at it.
    pub fn next(&mut self, frontiers: &Vec<Antichain>) -> (r: Option<(u64, Vec<D>)>)
        requires
            old(self).wf(),
            old(self).can_refresh(),
        ensures
            final(self).wf(),
            final(self).spec_enqueued().len() == 0,
            final(self).spec_capability() == spec_cap_after(
                old(self).spec_capability(),
                frontiers@,
            ),
            forall|u: u64|
                #[trigger] content_at(final(self).spec_pending(), u) == (if frontiers_le(
                    frontiers@,
                    u,
                ) {
                    content_at(old(self).spec_pending() + old(self).spec_enqueued(), u)
                } else {
                    Seq::<D>::empty()
                }),
            r is None ==> final(self).spec_available().len() == 0 && forall|u: u64|
                #[trigger] old(self).refreshed_at(frontiers@, u) == Seq::<D>::empty(),
            r is Some ==> ({
                let (t, ds) = r.unwrap();
                &&& ds@ == old(self).refreshed_at(frontiers@, t)
                &&& ds@.len() > 0
                &&& forall|u: u64|
                    u < t ==> #[trigger] old(self).refreshed_at(frontiers@, u)
                        == Seq::<D>::empty()
                &&& content_at(final(self).spec_available(), t) == Seq::<D>::empty()
                &&& forall|u: u64|
                    u != t ==> #[trigger] content_at(final(self).spec_available(), u) == old(
                        self,
                    ).refreshed_at(frontiers@, u)
            }),
    {
        self.make_available(frontiers);
        let ghost mid_pending = self.spec_pending();
        let ghost refreshed = self.spec_available();
        if self.available.len() == 0 {
            proof {
                assert forall|u: u64|
                    #[trigger] old(self).refreshed_at(frontiers@, u) == Seq::<D>::empty() by {
                    assert(content_at(refreshed, u) == old(self).refreshed_at(frontiers@, u));
                    assert(content_at(refreshed, u) == Seq::<D>::empty());
                }
            }
            None
        } else {
            let e = self.available.remove(0);
            proof {
                assert(self.spec_pending() == mid_pending);
                assert(refreshed.len() > 0);
                lemma_content_at_head(refreshed);
                assert(self.spec_available() =~= refreshed.drop_first());
                assert(e == refreshed[0]);
                assert(content_at(refreshed, e.0) == old(self).refreshed_at(frontiers@, e.0));
                assert(e.1@.len() > 0);
                assert forall|u: u64| u < e.0 implies #[trigger] old(self).refreshed_at(
                    frontiers@,
                    u,
                ) == Seq::<D>::empty() by {
                    assert(content_at(refreshed, u) == old(self).refreshed_at(frontiers@, u));
                }
                assert forall|u: u64| u != e.0 implies #[trigger] content_at(
                    self.spec_available(),
                    u,
                ) == old(self).refreshed_at(frontiers@, u) by {
                    assert(content_at(refreshed, u) == old(self).refreshed_at(frontiers@, u));
                    assert(content_at(refreshed.drop_first(), u) == content_at(refreshed, u));
                }
                assert forall|u: u64|
                    frontiers_le(frontiers@, u) implies #[trigger] content_at(
                    self.spec_pending(),
                    u,
                ) == content_at(old(self).spec_pending() + old(self).spec_enqueued(), u) by {
                    assert(content_at(mid_pending, u) == content_at(
                        old(self).spec_pending() + old(self).spec_enqueued(),
                        u,
                    ));
                }
                assert forall|u: u64|
                    !frontiers_le(frontiers@, u) implies #[trigger] content_at(
                    self.spec_pending(),
                    u,
                ) == Seq::<D>::empty() by {
                    assert(content_at(mid_pending, u) == Seq::<D>::empty());
                }
                assert forall|i: int, j: int|
                    0 <= i < j < self.spec_available().len() implies (#[trigger] self.spec_available()[i]).0
                    < (#[trigger] self.spec_available()[j]).0 by {
                    assert(self.spec_available()[i] == refreshed[i + 1]);
                    assert(self.spec_available()[j] == refreshed[j + 1]);
                }
            }
            Some(e)
        }
    }

    /// Delivers every available notification in one session: the returned
    /// entries carry strictly increasing times, so deliveries within one
    /// session are in time order.
    pub fn drain(&mut self, frontiers: &Vec<Antichain>) -> (r: Vec<(u64, Vec<D>)>)
        requires
            old(self).wf(),
            old(self).can_refresh(),
        ensures
            final(self).wf(),
            final(self).spec_enqueued().len() == 0,
            final(self).spec_available().len() == 0,
            final(self).spec_capability() == spec_cap_after(
                old(self).spec_capability(),
                frontiers@,
            ),
            forall|u: u64|
                #[trigger] content_at(final(self).spec_pending(), u) == (if frontiers_le(
                    frontiers@,
                    u,
                ) {
                    content_at(old(self).spec_pending() + old(self).spec_enqueued(), u)
                } else {
                    Seq::<D>::empty()
                }),
            times_sorted(r@),
            entries_nonempty(r@),
            forall|u: u64|
                #[trigger] content_at(r@, u) == old(self).refreshed_at(frontiers@, u),
    {
        self.make_available(frontiers);
        let ghost mid_pending = self.spec_pending();
        let ghost mid_avail = self.spec_available();
        let mut r: Vec<(u64, Vec<D>)> = Vec::new();
        core::mem::swap(&mut self.available, &mut r);
        proof {
            assert(self.spec_pending() == mid_pending);
            assert(self.spec_available().len() == 0);
            assert(r@ == mid_avail);
            assert forall|u: u64| #[trigger] content_at(r@, u) == old(self).refreshed_at(
                frontiers@,
                u,
            ) by {
                assert(content_at(mid_avail, u) == old(self).refreshed_at(frontiers@, u));
            }
            assert forall|u: u64|
                frontiers_le(frontiers@, u) implies #[trigger] content_at(self.spec_pending(), u)
                == content_at(old(self).spec_pending() + old(self).spec_enqueued(), u) by {
                assert(content_at(mid_pending, u) == content_at(
                    old(self).spec_pending() + old(self).spec_enqueued(),
                    u,
                ));
            }
            assert forall|u: u64|
                !frontiers_le(frontiers@, u) implies #[trigger] content_at(self.spec_pending(), u)
                == Seq::<D>::empty() by {
                assert(content_at(mid_pending, u) == Seq::<D>::empty());
            }
        }
        r
    }

    /// Read access to the pending requests, for the migration walk.
    pub fn pending(&self) -> (r: &Vec<(u64, Vec<D>)>)
        ensures
            r@ == self.spec_pending(),
    {
        &self.pending
    }

    /// Mutable access to the pending requests, for the migration walk.
    pub fn pending_mut(&mut self) -> (r: &mut Vec<(u64, Vec<D>)>)
        ensures
            (*r)@ == old(self).spec_pending(),
            final(self).spec_pending() == final(r)@,
            final(self).spec_enqueued() == old(self).spec_enqueued(),
            final(self).spec_available() == old(self).spec_available(),
            final(self).spec_capability() == old(self).spec_capability(),
            old(self).wf() ==> final(self).wf(),
    {
        &mut self.pending
    }
}

/// Whether some frontier in `frontiers` has an element less than or equal to
/// `t`.
pub fn any_less_equal(frontiers: &Vec<Antichain>, t: u64) -> (r: bool)
    ensures
        r == frontiers_le(frontiers@, t),
{
    let mut i: usize = 0;
    while i < frontiers.len()
        invariant
            i <= frontiers.len(),
            forall|j: int| 0 <= j < i as int ==> !spec_le(#[trigger] frontiers@[j]@, t),
        decreases frontiers.len() - i,
    {
        if frontiers[i].less_equal(t) {
            assert(frontiers_le(frontiers@, t));
            return true;
        }
        i += 1;
    }
    false
}

/// Merge the payload `ds` into the entry for time `t` of a sorted entry
/// vector, inserting a new entry at the sorted position when the time is not
/// yet present.
fn insert_merge<D>(entries: Vec<(u64, Vec<D>)>, t: u64, ds: Vec<D>) -> (r: Vec<(u64, Vec<D>)>)
    requires
        times_sorted(entries@),
        entries_nonempty(entries@),
        ds@.len() > 0,
    ensures
        times_sorted(r@),
        entries_nonempty(r@),
        content_at(r@, t) == content_at(entries@, t) + ds@,
        forall|u: u64| u != t ==> #[trigger] content_at(r@, u) == content_at(entries@, u),
{
    let ghost orig = entries@;
    let mut rest = entries;
    let mut out: Vec<(u64, Vec<D>)> = Vec::new();
    let mut hold = ds;
    let mut placed = false;

    while rest.len() > 0
        invariant
            times_sorted(orig),
            entries_nonempty(orig),
            rest@.len() <= orig.len(),
            rest@ == orig.skip(orig.len() - rest@.len()),
            times_sorted(out@),
            entries_nonempty(out@),
            !placed ==> hold@ == ds@ && ds@.len() > 0,
            !placed ==> forall|i: int| 0 <= i < out@.len() ==> (#[trigger] out@[i]).0 < t,
            placed && rest@.len() > 0 ==> t < rest@[0].0,
            rest@.len() > 0 ==> forall|i: int|
                0 <= i < out@.len() ==> (#[trigger] out@[i]).0 < rest@[0].0,
            placed ==> content_at(out@, t) == content_at(
                orig.take(orig.len() - rest@.len()),
                t,
            ) + ds@,
            !placed ==> content_at(out@, t) == content_at(orig.take(orig.len() - rest@.len()), t),
            forall|u: u64|
                u != t ==> #[trigger] content_at(out@, u) == content_at(
                    orig.take(orig.len() - rest@.len()),
                    u,
                ),
        decreases rest@.len(),
    {
        let ghost k = orig.len() - rest@.len();
        let ghost pre_out = out@;
        let e = rest.remove(0);
        proof {
            assert(orig.skip(k) =~= seq![orig[k]] + orig.skip(k + 1));
            assert(e == orig[k]);
            assert(rest@ =~= orig.skip(k + 1));
            assert(orig.take(k + 1) =~= orig.take(k).push(e));
        }
        if !placed && e.0 == t {
            let mut p = e.1;
            let mut tail = hold;
            hold = Vec::new();
            let ghost p0 = p@;
            p.append(&mut tail);
            proof {
                lemma_content_at_push(pre_out, (t, p));
                lemma_content_at_push(orig.take(k), e);
                let xk = content_at(orig.take(k), t);
                assert(xk + (p0 + ds@) =~= (xk + p0) + ds@);
            }
            out.push((t, p));
            placed = true;
        } else if !placed && e.0 > t {
            let tmp = hold;
            hold = Vec::new();
            proof {
                lemma_content_at_push(pre_out, (t, tmp));
                lemma_content_at_push(pre_out.push((t, tmp)), e);
                lemma_content_at_push(orig.take(k), e);
            }
            out.push((t, tmp));
            out.push(e);
            placed = true;
        } else {
            proof {
                lemma_content_at_push(pre_out, e);
                lemma_content_at_push(orig.take(k), e);
            }
            out.push(e);
        }
        proof {
            if rest.len() > 0 {
                assert(rest@[0] == orig[k + 1]);
                assert(orig[k].0 < orig[k + 1].0);
                assert forall|i: int| 0 <= i < out@.len() implies (#[trigger] out@[i]).0
                    < rest@[0].0 by {
                    if i < pre_out.len() {
                        assert(out@[i] == pre_out[i]);
                        assert(pre_out[i].0 < e.0);
                    }
                }
            }
        }
    }
    proof {
        assert(orig.take(orig.len() - rest@.len()) =~= orig);
    }
    if !placed {
        let ghost pre_out = out@;
        proof {
            lemma_content_at_push(pre_out, (t, hold));
        }
        out.push((t, hold));
    }
    proof {
        if placed {
            assert(content_at(out@, t) == content_at(orig, t) + ds@);
        }
    }
    out
}

} // verus!
