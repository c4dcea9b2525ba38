//! The decisions of a simulation run: replay each instruction through the
//! hierarchy, reset the counters once warmup ends, take a heartbeat snapshot
//! every million instructions, and stop after warmup plus measurement.
//!
//! Reading the trace and reporting progress are left to the caller, which
//! hands each instruction to [`SimulationRun::step`] and acts on the
//! [`RunStep`] it gets back.

use vstd::prelude::*;
use crate::cache::{CacheHierarchy, HierarchyView};
use crate::stats::{SimStats, stats_of};
use crate::trace_reader::{InputInstruction, MemAccess, accesses_of};

verus! {

/// Instructions between two heartbeats.
pub const HEARTBEAT_INTERVAL: u64 = 1_000_000;

/// Serves every access of `accs` in order through the data path.
pub open spec fn data_all(h: HierarchyView, accs: Seq<MemAccess>) -> Option<HierarchyView>
    decreases accs.len(),
{
    if accs.len() == 0 {
        Some(h)
    } else {
        match h.data(accs[0]) {
            Some((h2, _)) => data_all(h2, accs.drop_first()),
            None => None,
        }
    }
}

/// Replays one instruction: fetch it, then serve its loads and stores.
pub open spec fn replay(h: HierarchyView, i: InputInstruction) -> Option<HierarchyView> {
    match h.fetch(i.ip) {
        None => None,
        Some(h1) => data_all(h1, accesses_of(i)),
    }
}

/// `a - b`, or zero where `b` is larger.
pub open spec fn saturating_sub(a: nat, b: nat) -> nat {
    if a >= b {
        (a - b) as nat
    } else {
        0
    }
}

/// What the caller does after one instruction: report a heartbeat snapshot
/// (when there is one) and stop (when done).
#[derive(Clone, Copy, Debug, PartialEq, Eq)]
pub struct RunStep {
    pub heartbeat: Option<SimStats>,
    pub done: bool,
}

/// The decisions of a simulation run over a hierarchy.
pub struct SimulationRun {
    hierarchy: CacheHierarchy,
    warmup_inst: usize,
    simulation_inst: usize,
    instr_count: u64,
    next_heartbeat: u64,
}

/// The state of a [`SimulationRun`].
pub struct RunView {
    pub hierarchy: HierarchyView,
    pub warmup_inst: nat,
    pub simulation_inst: nat,
    pub instr_count: nat,
    pub next_heartbeat: nat,
}

impl RunView {
    /// The hierarchy is well formed and the window fits a `usize`.
    pub open spec fn wf(self) -> bool {
        &&& self.hierarchy.wf()
        &&& self.warmup_inst + self.simulation_inst <= usize::MAX
        &&& self.instr_count <= u64::MAX
        &&& self.next_heartbeat <= u64::MAX
    }

    /// The run has replayed its whole window of warmup plus measurement
    /// instructions (at once for an empty window).
    pub open spec fn done(self) -> bool {
        self.instr_count >= self.warmup_inst + self.simulation_inst
    }

    /// The run after one more instruction, and what to do: the hierarchy
    /// replays it; when the count reaches the warmup length every counter is
    /// reset; once the count reaches the next heartbeat a snapshot of the
    /// measured instructions is taken and the next heartbeat moves a
    /// heartbeat interval on; the run is done once the count reaches warmup
    /// plus measurement (see [`RunView::done`]). `None` where a count would
    /// overflow or the replay cannot be served.
    pub open spec fn step(self, i: InputInstruction) -> Option<(RunView, RunStep)> {
        let count = self.instr_count + 1;
        if count > u64::MAX {
            None
        } else {
            match replay(self.hierarchy, i) {
                None => None,
                Some(h1) => {
                    let h2 = if count == self.warmup_inst {
                        h1.reset()
                    } else {
                        h1
                    };
                    let beat = count >= self.next_heartbeat;
                    if beat && self.next_heartbeat + HEARTBEAT_INTERVAL > u64::MAX {
                        None
                    } else {
                        Some(
                            (
                                RunView {
                                    hierarchy: h2,
                                    instr_count: count,
                                    next_heartbeat: if beat {
                                        self.next_heartbeat + HEARTBEAT_INTERVAL as nat
                                    } else {
                                        self.next_heartbeat
                                    },
                                    ..self
                                },
                                RunStep {
                                    heartbeat: if beat {
                                        Some(
                                            stats_of(
                                                h2,
                                                saturating_sub(count, self.warmup_inst) as u64,
                                            ),
                                        )
                                    } else {
                                        None
                                    },
                                    done: count >= self.warmup_inst + self.simulation_inst,
                                },
                            ),
                        )
                    }
                },
            }
        }
    }

    /// The final stats: every level's counters, covering the instructions
    /// replayed after warmup.
    pub open spec fn final_stats(self) -> SimStats {
        stats_of(self.hierarchy, saturating_sub(self.instr_count, self.warmup_inst) as u64)
    }
}

/// A run starts done exactly when its window is empty, and once done every
/// further step says it is done.
pub proof fn lemma_done_stays_done(r: RunView, i: InputInstruction)
    requires
        r.wf(),
        r.done(),
        r.step(i) is Some,
    ensures
        (r.step(i)->0).1.done,
        (r.step(i)->0).0.done(),
{
}

/// A run over an empty window (no warmup and no measurement) is done before
/// it replays any instruction.
pub proof fn lemma_empty_window_starts_done(h: HierarchyView)
    ensures
        (RunView {
            hierarchy: h,
            warmup_inst: 0,
            simulation_inst: 0,
            instr_count: 0,
            next_heartbeat: HEARTBEAT_INTERVAL as nat,
        }).done(),
{
}

/// The step that ends warmup leaves every level's hit, miss and access
/// counters at zero, so the run's final stats count only measured
/// instructions; the levels keep what they hold.
pub proof fn lemma_warmup_step_resets_every_level(r: RunView, i: InputInstruction)
    requires
        r.wf(),
        r.step(i) is Some,
        r.instr_count + 1 == r.warmup_inst,
    ensures
        ({
            let h = (r.step(i)->0).0.hierarchy;
            &&& h.l1i.hits == 0 && h.l1i.misses == 0 && h.l1i.accesses == 0
            &&& h.l1d.hits == 0 && h.l1d.misses == 0 && h.l1d.accesses == 0
            &&& h.l2.hits == 0 && h.l2.misses == 0 && h.l2.accesses == 0
            &&& h.llc.hits == 0 && h.llc.misses == 0 && h.llc.accesses == 0
            &&& h.l1i.sets == (replay(r.hierarchy, i)->0).l1i.sets
            &&& h.l2.sets == (replay(r.hierarchy, i)->0).l2.sets
            &&& h.llc.sets == (replay(r.hierarchy, i)->0).llc.sets
        }),
{
}

impl View for SimulationRun {
    type V = RunView;

    closed spec fn view(&self) -> RunView {
        RunView {
            hierarchy: self.hierarchy@,
            warmup_inst: self.warmup_inst as nat,
            simulation_inst: self.simulation_inst as nat,
            instr_count: self.instr_count as nat,
            next_heartbeat: self.next_heartbeat as nat,
        }
    }
}

impl SimulationRun {
    /// Starts a run of `warmup_inst` warmup instructions followed by
    /// `simulation_inst` measured ones.
    pub fn new(hierarchy: CacheHierarchy, warmup_inst: usize, simulation_inst: usize) -> (r: Self)
        requires
            hierarchy.wf(),
            warmup_inst + simulation_inst <= usize::MAX,
        ensures
            r@ == (RunView {
                hierarchy: hierarchy@,
                warmup_inst: warmup_inst as nat,
                simulation_inst: simulation_inst as nat,
                instr_count: 0,
                next_heartbeat: HEARTBEAT_INTERVAL as nat,
            }),
            r@.wf(),
    {
        SimulationRun {
            hierarchy,
            warmup_inst,
            simulation_inst,
            instr_count: 0,
            next_heartbeat: HEARTBEAT_INTERVAL,
        }
    }

    /// Warmup plus measurement instructions.
    pub fn total_instructions(&self) -> (r: u64)
        requires
            self@.wf(),
        ensures
            r == self@.warmup_inst + self@.simulation_inst,
    {
        (self.warmup_inst + self.simulation_inst) as u64
    }

    /// Whether the run has replayed its whole window (see
    /// [`RunView::done`]); a run over an empty window is done before any
    /// instruction.
    pub fn is_done(&self) -> (r: bool)
        requires
            self@.wf(),
        ensures
            r == self@.done(),
    {
        self.instr_count >= (self.warmup_inst + self.simulation_inst) as u64
    }

    /// Ends the run and hands back the hierarchy it drove.
    pub fn into_hierarchy(self) -> (r: CacheHierarchy)
        ensures
            r@ == self@.hierarchy,
    {
        self.hierarchy
    }

    /// Instructions replayed so far.
    pub fn instructions_done(&self) -> (r: u64)
        ensures
            r == self@.instr_count,
    {
        self.instr_count
    }

    /// The hierarchy being driven.
    pub fn hierarchy(&self) -> (r: &CacheHierarchy)
        ensures
            r@ == self@.hierarchy,
    {
        &self.hierarchy
    }

    /// Replays one instruction and says what to do next (see
    /// [`RunView::step`]).
    pub fn step(&mut self, instr: &InputInstruction) -> (r: RunStep)
        requires
            old(self)@.wf(),
            old(self)@.step(*instr) is Some,
        ensures
            final(self)@.wf(),
            old(self)@.step(*instr) == Some((final(self)@, r)),
    {
        let ghost start = self@;
        self.instr_count = self.instr_count + 1;

        self.hierarchy.access_instruction(instr.ip());

        let accesses = instr.mem_access();
        let ghost h1 = self.hierarchy@;
        let ghost target = replay(start.hierarchy, *instr);
        let n = accesses.len();
        let mut k: usize = 0;
        proof {
            assert(accesses@.subrange(0, n as int) =~= accesses@);
        }
        while k < n
            invariant
                k <= n,
                n == accesses@.len(),
                accesses@ == accesses_of(*instr),
                self.hierarchy.wf(),
                data_all(self.hierarchy@, accesses@.subrange(k as int, n as int)) == target,
                target is Some,
                self.instr_count == start.instr_count + 1,
                self.warmup_inst == start.warmup_inst,
                self.simulation_inst == start.simulation_inst,
                self.next_heartbeat == start.next_heartbeat,
            decreases n - k,
        {
            let ghost rest = accesses@.subrange(k as int, n as int);
            proof {
                assert(rest[0] == accesses@[k as int]);
                assert(rest.drop_first() =~= accesses@.subrange(k as int + 1, n as int));
            }
            let mut access = accesses[k];
            self.hierarchy.access_data(&mut access);
            k = k + 1;
        }
        proof {
            assert(accesses@.subrange(n as int, n as int) =~= Seq::<MemAccess>::empty());
        }

        if self.instr_count == self.warmup_inst as u64 {
            self.hierarchy.reset_stats();
        }

        let mut heartbeat: Option<SimStats> = None;
        if self.instr_count >= self.next_heartbeat {
            let measured = self.instr_count.saturating_sub(self.warmup_inst as u64);
            heartbeat = Some(SimStats::collect(&self.hierarchy, measured));
            self.next_heartbeat = self.next_heartbeat + HEARTBEAT_INTERVAL;
        }

        let done = self.instr_count >= self.simulation_inst as u64 + self.warmup_inst as u64;
        RunStep { heartbeat, done }
    }

    /// Replays one instruction where that is defined (see
    /// [`RunView::step`]) and says what to do next; `None` exactly where the
    /// step is not defined (a counter or clock would overflow, a victim
    /// search would not end, or a prediction would not fit 64 bits). The run
    /// stays well formed either way, though after `None` the hierarchy may
    /// have served part of the instruction.
    pub fn try_step(&mut self, instr: &InputInstruction) -> (r: Option<RunStep>)
        requires
            old(self)@.wf(),
        ensures
            final(self)@.wf(),
            r is None <==> old(self)@.step(*instr) is None,
            r matches Some(x) ==> old(self)@.step(*instr) == Some((final(self)@, x)),
    {
        let ghost start = self@;
        if self.instr_count == u64::MAX {
            return None;
        }
        let count = self.instr_count + 1;
        if count >= self.next_heartbeat && self.next_heartbeat > u64::MAX - HEARTBEAT_INTERVAL {
            return None;
        }
        if !self.hierarchy.try_access_instruction(instr.ip()) {
            return None;
        }
        let accesses = instr.mem_access();
        let ghost target = replay(start.hierarchy, *instr);
        let n = accesses.len();
        let mut k: usize = 0;
        proof {
            assert(accesses@.subrange(0, n as int) =~= accesses@);
        }
        while k < n
            invariant
                k <= n,
                n == accesses@.len(),
                accesses@ == accesses_of(*instr),
                self.hierarchy.wf(),
                data_all(self.hierarchy@, accesses@.subrange(k as int, n as int)) == target,
                target == replay(start.hierarchy, *instr),
                start == old(self)@,
                start.wf(),
                self.instr_count == start.instr_count,
                count == start.instr_count + 1,
                self.warmup_inst == start.warmup_inst,
                self.simulation_inst == start.simulation_inst,
                self.next_heartbeat == start.next_heartbeat,
            decreases n - k,
        {
            let ghost rest = accesses@.subrange(k as int, n as int);
            proof {
                assert(rest[0] == accesses@[k as int]);
                assert(rest.drop_first() =~= accesses@.subrange(k as int + 1, n as int));
            }
            let ghost before = self.hierarchy@;
            let mut access = accesses[k];
            if !self.hierarchy.try_access_data(&mut access) {
                proof {
                    assert(data_all(before, rest) is None);
                }
                return None;
            }
            k = k + 1;
        }
        proof {
            assert(accesses@.subrange(n as int, n as int) =~= Seq::<MemAccess>::empty());
        }
        self.instr_count = count;
        if self.instr_count == self.warmup_inst as u64 {
            self.hierarchy.reset_stats();
        }
        let mut heartbeat: Option<SimStats> = None;
        if self.instr_count >= self.next_heartbeat {
            let measured = self.instr_count.saturating_sub(self.warmup_inst as u64);
            heartbeat = Some(SimStats::collect(&self.hierarchy, measured));
            self.next_heartbeat = self.next_heartbeat + HEARTBEAT_INTERVAL;
        }
        let done = self.instr_count >= self.simulation_inst as u64 + self.warmup_inst as u64;
        Some(RunStep { heartbeat, done })
    }

    /// The final stats of the run so far (see [`RunView::final_stats`]).
    pub fn finish(&self) -> (r: SimStats)
        ensures
            r == self@.final_stats(),
    {
        SimStats::collect(&self.hierarchy, self.instr_count.saturating_sub(self.warmup_inst as u64))
    }
}

} // verus!
