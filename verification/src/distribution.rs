//! Control messages and the control-set compiler.
//!
//! A control plane issues reconfiguration commands as [`Control`] messages: a
//! sequence number, the number of messages sharing that sequence, and an
//! instruction.  The [`ControlSetBuilder`] groups the messages of one sequence
//! and compiles them, on top of the previously compiled snapshot, into a
//! [`ControlSet`]: a complete bin-to-worker map together with the frontier at
//! which it becomes eligible for installation.

use vstd::prelude::*;

use crate::antichain::Antichain;
use crate::BINS;

verus! {

/// A bin identifier: an index below [`BINS`].
#[derive(Clone, Copy, PartialEq, Eq, Structural, Debug)]
pub struct Bin(pub usize);

/// A control instruction.
#[derive(Clone, Debug)]
pub enum ControlInst {
    /// Provide a whole new bin-to-worker map.
    Remap(Vec<usize>),
    /// Move one bin to the named worker.
    Move(Bin, usize),
    /// No-op padding.
    Nop,
}

/// A control message: a sequence number, the total count of messages that
/// share this sequence, and an instruction.
#[derive(Clone, Debug)]
pub struct Control {
    sequence: u64,
    count: usize,
    inst: ControlInst,
}

/// The map an instruction leaves behind when applied to `map`.
pub open spec fn spec_apply_one(map: Seq<usize>, inst: ControlInst) -> Seq<usize> {
    match inst {
        ControlInst::Remap(m) => m@,
        ControlInst::Move(b, w) => map.update(b.0 as int, w),
        ControlInst::Nop => map,
    }
}

/// The map a sequence of instructions leaves behind when applied to `map`
/// left to right.
pub open spec fn spec_apply_insts(map: Seq<usize>, insts: Seq<ControlInst>) -> Seq<usize>
    decreases insts.len(),
{
    if insts.len() == 0 {
        map
    } else {
        spec_apply_one(spec_apply_insts(map, insts.drop_last()), insts.last())
    }
}

/// Whether an instruction may be applied to a map of length `BINS`: a new map
/// must again cover every bin, and a move must name an existing bin.
pub open spec fn spec_inst_wf(inst: ControlInst) -> bool {
    match inst {
        ControlInst::Remap(m) => m@.len() == BINS,
        ControlInst::Move(b, w) => b.0 < BINS,
        ControlInst::Nop => true,
    }
}

/// Replaying further instructions on top of a whole-map instruction gives the
/// same snapshot as a single whole-map instruction carrying the final map: a
/// `Remap(m)` followed by the moves that turn `m` into `m'` compiles to the
/// same map as `Remap(m')` alone.
pub proof fn lemma_remap_then_insts(prev: Seq<usize>, m: Vec<usize>, rest: Seq<ControlInst>)
    ensures
        spec_apply_insts(prev, seq![ControlInst::Remap(m)] + rest) == spec_apply_insts(m@, rest),
    decreases rest.len(),
{
    let whole = seq![ControlInst::Remap(m)] + rest;
    if rest.len() == 0 {
        assert(whole.len() == 1);
        assert(whole.drop_last() =~= Seq::<ControlInst>::empty());
        assert(whole.last() == ControlInst::Remap(m));
    } else {
        lemma_remap_then_insts(prev, m, rest.drop_last());
        assert(whole.drop_last() =~= seq![ControlInst::Remap(m)] + rest.drop_last());
        assert(whole.last() == rest.last());
    }
}

/// Applying a whole-map instruction and then replaying moves that turn its
/// map `m` into `m2` compiles to the same snapshot as the single whole-map
/// instruction carrying `m2`, whatever either compilation started from.
pub proof fn lemma_bulk_remap_equivalence(
    prev1: Seq<usize>,
    prev2: Seq<usize>,
    m: Vec<usize>,
    m2: Vec<usize>,
    rest: Seq<ControlInst>,
)
    requires
        m2@ == spec_apply_insts(m@, rest),
    ensures
        spec_apply_insts(prev1, seq![ControlInst::Remap(m)] + rest) == spec_apply_insts(
            prev2,
            seq![ControlInst::Remap(m2)],
        ),
{
    lemma_remap_then_insts(prev1, m, rest);
    lemma_remap_then_insts(prev2, m2, Seq::<ControlInst>::empty());
    assert(seq![ControlInst::Remap(m2)] + Seq::<ControlInst>::empty() =~= seq![
        ControlInst::Remap(m2),
    ]);
    assert(spec_apply_insts(m2@, Seq::<ControlInst>::empty()) == m2@);
}

/// No-op instructions do not change the compiled map: a sequence of
/// instructions compiles to the same map as that sequence with its no-ops
/// removed.
pub proof fn lemma_apply_insts_skip_nop(map: Seq<usize>, insts: Seq<ControlInst>)
    ensures
        spec_apply_insts(map, insts) == spec_apply_insts(
            map,
            insts.filter(|i: ControlInst| !(i is Nop)),
        ),
    decreases insts.len(),
{
    reveal(Seq::filter);
    let keep = |i: ControlInst| !(i is Nop);
    if insts.len() > 0 {
        lemma_apply_insts_skip_nop(map, insts.drop_last());
        if keep(insts.last()) {
            assert(insts.filter(keep).drop_last() =~= insts.drop_last().filter(keep));
        }
    }
}

impl Control {
    /// Construct a new `Control`.
    pub fn new(sequence: u64, count: usize, inst: ControlInst) -> (r: Self)
        ensures
            r.spec_sequence() == sequence,
            r.spec_count() == count,
            r.spec_inst() == inst,
    {
        Control { sequence, count, inst }
    }

    /// The sequence number of the command this message belongs to.
    pub closed spec fn spec_sequence(&self) -> u64 {
        self.sequence
    }

    /// How many messages share this message's sequence number.
    pub closed spec fn spec_count(&self) -> usize {
        self.count
    }

    /// The instruction the message carries.
    pub closed spec fn spec_inst(&self) -> ControlInst {
        self.inst
    }
}

/// A compiled set of control instructions: a snapshot of the bin-to-worker
/// map, tagged with the frontier at which it may be installed.
#[derive(Clone, Debug)]
pub struct ControlSet {
    /// The snapshot's sequence number.
    pub sequence: u64,
    /// The frontier at which the snapshot becomes eligible for installation.
    pub frontier: Antichain,
    /// The complete bin-to-worker map, of length [`BINS`].
    pub map: Vec<usize>,
}

impl ControlSet {
    /// Obtain the current bin-to-destination mapping.
    pub fn map(&self) -> (r: &Vec<usize>)
        ensures
            r == &self.map,
    {
        &self.map
    }

    /// Whether the map covers every bin and names only workers below `peers`.
    pub open spec fn map_valid(&self, peers: int) -> bool {
        &&& self.map@.len() == BINS
        &&& forall|b: int| 0 <= b < BINS ==> self.map@[b] < peers
    }
}

/// Accumulates the control messages of one sequence number and compiles them
/// into a [`ControlSet`] on top of the previous snapshot.
pub struct ControlSetBuilder {
    sequence: Option<u64>,
    frontier: Vec<u64>,
    instructions: Vec<ControlInst>,
    count: Option<usize>,
}

impl ControlSetBuilder {
    /// The sequence number recorded so far, if any message has arrived.
    pub closed spec fn spec_sequence(&self) -> Option<u64> {
        self.sequence
    }

    /// How many messages of the recorded sequence are still outstanding.
    pub closed spec fn spec_count(&self) -> Option<usize> {
        self.count
    }

    /// The instructions accumulated so far, no-ops dropped.
    pub closed spec fn spec_instructions(&self) -> Seq<ControlInst> {
        self.instructions@
    }

    /// The times accumulated for the snapshot's frontier.
    pub closed spec fn spec_frontier(&self) -> Seq<u64> {
        self.frontier@
    }

    /// An empty builder.
    pub fn new() -> (r: Self)
        ensures
            r.spec_sequence() is None,
            r.spec_count() is None,
            r.spec_instructions() == Seq::<ControlInst>::empty(),
            r.spec_frontier() == Seq::<u64>::empty(),
    {
        ControlSetBuilder {
            sequence: None,
            frontier: Vec::new(),
            instructions: Vec::new(),
            count: None,
        }
    }

    /// Account one control message: on the first call records the declared
    /// count and the sequence number; each call consumes one unit of the
    /// count and stashes the instruction, dropping no-ops.
    ///
    /// More messages than the declared count, or a message whose sequence
    /// differs from the recorded one, is a protocol violation and is excluded
    /// by the precondition.
    pub fn apply(&mut self, control: Control)
        requires
            (match old(self).spec_count() {
                Option::Some(c) => c > 0,
                Option::None => control.spec_count() > 0,
            }),
            (match old(self).spec_sequence() {
                Option::Some(s) => s == control.spec_sequence(),
                Option::None => true,
            }),
        ensures
            final(self).spec_sequence() == Some(control.spec_sequence()),
            final(self).spec_count() == Some(
                ((match old(self).spec_count() {
                    Option::Some(c) => c,
                    Option::None => control.spec_count(),
                }) - 1) as usize,
            ),
            final(self).spec_instructions() == (if control.spec_inst() is Nop {
                old(self).spec_instructions()
            } else {
                old(self).spec_instructions().push(control.spec_inst())
            }),
            final(self).spec_frontier() == old(self).spec_frontier(),
    {
        if self.count.is_none() {
            self.count = Some(control.count);
        }
        match self.count {
            Some(count) => {
                self.count = Some(count - 1);
            },
            None => {},
        }
        match self.sequence {
            Some(_) => {},
            None => {
                self.sequence = Some(control.sequence);
            },
        }
        match control.inst {
            ControlInst::Nop => {},
            inst => self.instructions.push(inst),
        }
    }

    /// Extend the snapshot's frontier with the given times.
    pub fn frontier(&mut self, caps: Vec<u64>)
        ensures
            final(self).spec_frontier() == old(self).spec_frontier() + caps@,
            final(self).spec_sequence() == old(self).spec_sequence(),
            final(self).spec_count() == old(self).spec_count(),
            final(self).spec_instructions() == old(self).spec_instructions(),
    {
        let mut caps = caps;
        let ghost orig = self.frontier@;
        let ghost all = caps@;
        let mut i: usize = 0;
        while i < caps.len()
            invariant
                i <= caps.len(),
                caps@ == all,
                self.frontier@ == orig + all.take(i as int),
                self.sequence == old(self).sequence,
                self.count == old(self).count,
                self.instructions == old(self).instructions,
            decreases caps.len() - i,
        {
            let t = caps[i];
            self.frontier.push(t);
            proof {
                assert(orig + all.take(i as int + 1) =~= (orig + all.take(i as int)).push(t));
            }
            i += 1;
        }
        proof {
            assert(orig + all.take(all.len() as int) =~= orig + all);
        }
    }

    /// Compile the accumulated instructions on top of `previous` into a new
    /// snapshot.  Requires that every declared message has arrived, that at
    /// least one did, and that the instructions fit a map over [`BINS`] bins.
    pub fn build(self, previous: &ControlSet) -> (r: ControlSet)
        requires
            (match self.spec_count() {
                Option::Some(c) => c == 0,
                Option::None => true,
            }),
            self.spec_sequence() is Some,
            previous.map@.len() == BINS,
            forall|i: int|
                0 <= i < self.spec_instructions().len() ==> spec_inst_wf(
                    #[trigger] self.spec_instructions()[i],
                ),
        ensures
            r.sequence == self.spec_sequence().unwrap(),
            r.map@ == spec_apply_insts(previous.map@, self.spec_instructions()),
            r.map@.len() == BINS,
            r.frontier@ == spec_seq_min(self.spec_frontier()),
    {
        let ControlSetBuilder { sequence, frontier: times, instructions, count: _ } = self;
        let mut frontier = Antichain::new();
        let ghost all_times = times@;
        let mut i: usize = 0;
        while i < times.len()
            invariant
                i <= times.len(),
                times@ == all_times,
                frontier@ == spec_seq_min(all_times.take(i as int)),
            decreases times.len() - i,
        {
            frontier.insert(times[i]);
            proof {
                assert(all_times.take(i as int + 1).drop_last() =~= all_times.take(i as int));
            }
            i += 1;
        }
        proof {
            assert(all_times.take(all_times.len() as int) =~= all_times);
        }

        let mut map = previous.map().clone();
        let ghost insts = instructions@;
        proof {
            assert(insts == self.spec_instructions());
            assert(map@ == previous.map@);
        }
        let mut j: usize = 0;
        while j < instructions.len()
            invariant
                j <= instructions.len(),
                instructions@ == insts,
                forall|i: int| 0 <= i < insts.len() ==> spec_inst_wf(#[trigger] insts[i]),
                map@ == spec_apply_insts(previous.map@, insts.take(j as int)),
                map@.len() == BINS,
            decreases instructions.len() - j,
        {
            let ghost prefix = insts.take(j as int);
            match &instructions[j] {
                ControlInst::Remap(new_map) => {
                    map = new_map.clone();
                },
                ControlInst::Move(b, target) => {
                    let bin: usize = b.0;
                    map[bin] = *target;
                },
                ControlInst::Nop => {},
            }
            proof {
                assert(insts.take(j as int + 1).drop_last() =~= prefix);
                assert(insts.take(j as int + 1).last() == insts[j as int]);
            }
            j += 1;
        }
        proof {
            assert(insts.take(insts.len() as int) =~= insts);
        }

        ControlSet { sequence: sequence.unwrap(), frontier, map }
    }
}

/// The least element of a sequence of times, if the sequence is non-empty.
pub open spec fn spec_seq_min(times: Seq<u64>) -> Option<u64>
    decreases times.len(),
{
    if times.len() == 0 {
        None
    } else {
        match spec_seq_min(times.drop_last()) {
            Option::None => Some(times.last()),
            Option::Some(m) => if times.last() < m {
                Some(times.last())
            } else {
                Some(m)
            },
        }
    }
}

} // verus!
