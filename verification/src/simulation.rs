use vstd::prelude::*;
use vstd::string::StringSliceAdditionalSpecFns;
use crate::error::SimulationError;
use crate::mmu::tlb::{tlb_init, TlbState};
use crate::mmu::{in_range, table_generable, translate_hits, translate_tlb, valid_config,
    AddressTranslationResult, Mmu};
use crate::trace::{line_value, split_lines, trace_ok, Trace};

verus! {

/// The translation state and the hit/miss counters after replaying a whole
/// address sequence through a translation unit, or `None` when some address
/// decomposes to a page number outside the table and the run aborts.
pub open spec fn run_model(
    table: Seq<usize>,
    offset_bits: nat,
    tlb: TlbState,
    addrs: Seq<usize>,
) -> Option<(TlbState, nat, nat)>
    decreases addrs.len(),
{
    if addrs.len() == 0 {
        Some((tlb, 0, 0))
    } else {
        match run_model(table, offset_bits, tlb, addrs.drop_last()) {
            None => None,
            Some(st) => {
                let a = addrs.last();
                if !in_range(table, offset_bits, a) {
                    None
                } else {
                    let hit = translate_hits(st.0, offset_bits, a);
                    Some(
                        (
                            translate_tlb(table, offset_bits, st.0, a),
                            st.1 + (if hit {
                                1nat
                            } else {
                                0nat
                            }),
                            st.2 + (if hit {
                                0nat
                            } else {
                                1nat
                            }),
                        ),
                    )
                }
            },
        }
    }
}

/// Once a prefix of the trace has aborted, the whole trace aborts.
proof fn lemma_run_model_none_prefix(
    table: Seq<usize>,
    offset_bits: nat,
    tlb: TlbState,
    addrs: Seq<usize>,
    j: int,
)
    requires
        0 <= j <= addrs.len(),
        run_model(table, offset_bits, tlb, addrs.take(j)) is None,
    ensures
        run_model(table, offset_bits, tlb, addrs) is None,
    decreases addrs.len(),
{
    if addrs.len() > j {
        assert(addrs.drop_last().take(j) =~= addrs.take(j));
        lemma_run_model_none_prefix(table, offset_bits, tlb, addrs.drop_last(), j);
    } else {
        assert(addrs.take(j) =~= addrs);
    }
}

/// The rate identity: over any completed run the two counters partition the
/// trace, so the exact rates `hits/total` and `misses/total` sum to one
/// whenever `total > 0`.
pub proof fn lemma_rate_identity(
    table: Seq<usize>,
    offset_bits: nat,
    tlb: TlbState,
    addrs: Seq<usize>,
)
    ensures
        run_model(table, offset_bits, tlb, addrs) matches Some(st) ==> st.1 + st.2
            == addrs.len(),
    decreases addrs.len(),
{
    if addrs.len() > 0 {
        lemma_rate_identity(table, offset_bits, tlb, addrs.drop_last());
    }
}

/// Immutable snapshot of one finished run: the raw counters from which every
/// rate is derived. `total` is always the sum of `hits` and `misses`.
#[derive(Debug, PartialEq, Eq, Structural, Clone, Copy)]
pub struct SimulationResult {
    pub hits: usize,
    pub misses: usize,
    pub total: usize,
}

impl SimulationResult {
    pub open spec fn wf(self) -> bool {
        self.total == self.hits + self.misses
    }

    pub fn new(hits: usize, misses: usize, total: usize) -> (r: SimulationResult)
        requires
            total == hits + misses,
        ensures
            r == (SimulationResult { hits, misses, total }),
            r.wf(),
    {
        SimulationResult { hits, misses, total }
    }

    /// The average-memory-access-time formula `m + (1 - p)·h + p·m`, with
    /// `p = misses/total` the miss rate, `m` the cycles of a memory read and
    /// `h` the cycles of a TLB hit, returned as the exact rational
    /// `(m·total + h·hits + m·misses) / total` so callers can evaluate it
    /// under any cost assumptions without rerunning the simulation.
    pub fn effective_memory_cycle_rate(&self, mem_read_cycles: u32, hit_cycles: u32) -> (r: (
        u128,
        u128,
    ))
        requires
            self.wf(),
            self.total > 0,
        ensures
            r.0 == mem_read_cycles as int * self.total as int + hit_cycles as int
                * self.hits as int + mem_read_cycles as int * self.misses as int,
            r.1 == self.total as int,
            r.1 > 0,
    {
        let m = mem_read_cycles as u128;
        let h = hit_cycles as u128;
        let t = self.total as u128;
        let hits = self.hits as u128;
        let misses = self.misses as u128;
        proof {
            assert(usize::MAX <= u64::MAX);
            assert(m * t <= (u32::MAX as u128) * (u64::MAX as u128)) by (nonlinear_arith)
                requires
                    m <= u32::MAX as u128,
                    t <= u64::MAX as u128,
            ;
            assert(h * hits <= (u32::MAX as u128) * (u64::MAX as u128)) by (nonlinear_arith)
                requires
                    h <= u32::MAX as u128,
                    hits <= u64::MAX as u128,
            ;
            assert(m * misses <= (u32::MAX as u128) * (u64::MAX as u128)) by (nonlinear_arith)
                requires
                    m <= u32::MAX as u128,
                    misses <= u64::MAX as u128,
            ;
        }
        (m * t + h * hits + m * misses, t)
    }
}

/// One simulation run: a translation unit and the trace to replay through it.
pub struct Simulation {
    pub mmu: Mmu,
    pub trace: Trace,
}

impl Simulation {
    /// A simulation over an already-built translation unit and an
    /// already-parsed trace.
    pub fn from_parts(mmu: Mmu, trace: Trace) -> (s: Simulation)
        ensures
            s.mmu == mmu,
            s.trace == trace,
    {
        Simulation { mmu, trace }
    }

    /// A run over a freshly generated translation unit and the trace parsed
    /// from text: bad address-space parameters surface as `Configuration`,
    /// a malformed trace line as `InvalidTraceLine`.
    pub fn new(
        address_bits: usize,
        page_offset_bits: usize,
        tlb_capacity: usize,
        input: &str,
    ) -> (r: Result<Simulation, SimulationError>)
        ensures
            ({
                let cfg = valid_config(address_bits, page_offset_bits, tlb_capacity as nat)
                    && table_generable(address_bits, page_offset_bits);
                let tok = trace_ok(input.spec_bytes());
                &&& !cfg ==> r == Err::<Simulation, SimulationError>(SimulationError::Configuration)
                &&& cfg && !tok ==> r == Err::<Simulation, SimulationError>(
                    SimulationError::InvalidTraceLine,
                )
                &&& cfg && tok ==> {
                    &&& r matches Ok(sim)
                    &&& r matches Ok(sim) ==> {
                        &&& sim.mmu.wf()
                        &&& sim.mmu.address_bits == address_bits
                        &&& sim.mmu.page_offset_bits == page_offset_bits
                        &&& sim.mmu.tlb@ == tlb_init(tlb_capacity as nat)
                        &&& sim.trace@.len() == split_lines(input.spec_bytes()).len()
                        &&& forall|k: int|
                            0 <= k < sim.trace@.len() ==> (#[trigger] sim.trace@[k]) as nat
                                == line_value(split_lines(input.spec_bytes())[k])
                    }
                }
            }),
    {
        let mmu = match Mmu::new(address_bits, page_offset_bits, tlb_capacity) {
            Ok(m) => m,
            Err(e) => {
                return Err(e);
            },
        };
        let trace = match Trace::from_str(input) {
            Ok(t) => t,
            Err(e) => {
                return Err(e);
            },
        };
        Ok(Simulation { mmu, trace })
    }

    /// Replay every trace entry in order, classify each translation as hit
    /// or miss, and snapshot the counters. An empty trace leaves the rates
    /// undefined and is reported as an explicit `EmptyTrace` error; an
    /// out-of-range address aborts the run with no partial result.
    pub fn run(&mut self) -> (r: Result<SimulationResult, SimulationError>)
        requires
            old(self).mmu.wf(),
        ensures
            final(self).mmu.wf(),
            final(self).trace == old(self).trace,
            final(self).mmu.page_table == old(self).mmu.page_table,
            final(self).mmu.address_bits == old(self).mmu.address_bits,
            final(self).mmu.page_offset_bits == old(self).mmu.page_offset_bits,
            ({
                let table = old(self).mmu.page_table@;
                let obits = old(self).mmu.page_offset_bits as nat;
                let tlb0 = old(self).mmu.tlb@;
                let addrs = old(self).trace@;
                match run_model(table, obits, tlb0, addrs) {
                    Some(st) => if addrs.len() == 0 {
                        r == Err::<SimulationResult, SimulationError>(SimulationError::EmptyTrace)
                            && final(self).mmu.tlb@ == tlb0
                    } else {
                        &&& r matches Ok(res)
                        &&& r matches Ok(res) ==> {
                            &&& res.wf()
                            &&& res.hits as nat == st.1
                            &&& res.misses as nat == st.2
                            &&& res.total as nat == addrs.len()
                        }
                        &&& final(self).mmu.tlb@ == st.0
                    },
                    None => r == Err::<SimulationResult, SimulationError>(
                        SimulationError::OutOfRangeAddress,
                    ),
                }
            }),
    {
        let ghost table = self.mmu.page_table@;
        let ghost obits = self.mmu.page_offset_bits as nat;
        let ghost tlb0 = self.mmu.tlb@;
        let ghost addrs = self.trace@;
        let n = self.trace.operations().len();
        if n == 0 {
            return Err(SimulationError::EmptyTrace);
        }
        let mut hits: usize = 0;
        let mut misses: usize = 0;
        let mut i: usize = 0;
        while i < n
            invariant
                self.mmu.wf(),
                table == old(self).mmu.page_table@,
                obits == old(self).mmu.page_offset_bits as nat,
                tlb0 == old(self).mmu.tlb@,
                addrs == old(self).trace@,
                self.mmu.page_table@ == table,
                self.mmu.page_table == old(self).mmu.page_table,
                self.mmu.address_bits == old(self).mmu.address_bits,
                self.mmu.page_offset_bits == old(self).mmu.page_offset_bits,
                self.mmu.page_offset_bits as nat == obits,
                self.trace == old(self).trace,
                self.trace@ == addrs,
                n == addrs.len(),
                i <= n,
                hits + misses == i,
                run_model(table, obits, tlb0, addrs.take(i as int)) == Some(
                    (self.mmu.tlb@, hits as nat, misses as nat),
                ),
            decreases n - i,
        {
            let address = self.trace.operations[i];
            proof {
                assert(addrs.take(i as int + 1).drop_last() =~= addrs.take(i as int));
                assert(addrs.take(i as int + 1).last() == addrs[i as int]);
            }
            match self.mmu.translate(address) {
                Ok(AddressTranslationResult::Hit(_)) => {
                    hits = hits + 1;
                },
                Ok(AddressTranslationResult::Miss(_)) => {
                    misses = misses + 1;
                },
                Err(_) => {
                    proof {
                        lemma_run_model_none_prefix(table, obits, tlb0, addrs, i as int + 1);
                    }
                    return Err(SimulationError::OutOfRangeAddress);
                },
            }
            i = i + 1;
        }
        proof {
            assert(addrs.take(n as int) =~= addrs);
        }
        Ok(SimulationResult { hits, misses, total: hits + misses })
    }
}

} // verus!
