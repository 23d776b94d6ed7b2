pub mod tlb;

use vstd::prelude::*;
use vstd::arithmetic::power2::{
    lemma_pow2_adds,
    lemma_pow2_pos,
    lemma_pow2_strictly_increases,
    lemma_pow2_subtracts,
    lemma_pow2_unfold,
    pow2,
};
use vstd::arithmetic::div_mod::{
    lemma_div_nonincreasing,
    lemma_fundamental_div_mod,
    lemma_mod_division_less_than_divisor,
    lemma_small_mod,
};
use vstd::arithmetic::mul::{lemma_mul_inequality, lemma_mul_is_distributive_sub_other_way};
use vstd::bits::{
    lemma_usize_low_bits_mask_is_mod,
    lemma_usize_shl_is_mul,
    lemma_usize_shr_is_div,
    low_bits_mask,
};
use vstd::layout::unsigned_int_max_values;
use crate::error::SimulationError;
use crate::mmu::tlb::{
    lemma_spec_lookup_some,
    spec_lookup,
    tlb_init,
    tlb_step,
    Tlb,
    TlbEntry,
    TlbState,
};

verus! {

/// The outcome of one translation: whether the TLB already held the mapping,
/// carrying the physical address in either case.
#[derive(Debug, PartialEq, Eq, Structural, Clone, Copy)]
pub enum AddressTranslationResult {
    Hit(usize),
    Miss(usize),
}

/// Power-of-two monotonicity, in its non-strict form.
proof fn lemma_pow2_le(e1: nat, e2: nat)
    requires
        e1 <= e2,
    ensures
        pow2(e1) <= pow2(e2),
{
    if e1 < e2 {
        lemma_pow2_strictly_increases(e1, e2);
    }
}

/// An exponent whose power of two fits in a machine word is smaller than the
/// word width.
proof fn lemma_exp_within_word(e: nat)
    requires
        pow2(e) <= usize::MAX as nat,
    ensures
        e < usize::BITS as nat,
{
    unsigned_int_max_values();
    if e >= usize::BITS as nat {
        lemma_pow2_le(usize::BITS as nat, e);
    }
}

/// `2^(a + b)` as a machine word, or `None` exactly when it does not fit.
fn checked_pow2_sum(a: usize, b: usize) -> (r: Option<usize>)
    ensures
        match r {
            Some(v) => v as nat == pow2(a as nat + b as nat),
            None => pow2(a as nat + b as nat) > usize::MAX as nat,
        },
{
    proof {
        vstd::arithmetic::power2::lemma2_to64();
    }
    let mut acc: usize = 1;
    let mut i: usize = 0;
    while i < a
        invariant
            i <= a,
            acc as nat == pow2(i as nat),
        decreases a - i,
    {
        proof {
            lemma_pow2_unfold(i as nat + 1);
            lemma_pow2_le(i as nat + 1, a as nat + b as nat);
            lemma_fundamental_div_mod(usize::MAX as int, 2);
            lemma_mod_division_less_than_divisor(usize::MAX as int, 2);
        }
        if acc > usize::MAX / 2 {
            return None;
        }
        acc = acc * 2;
        i = i + 1;
    }
    let mut j: usize = 0;
    while j < b
        invariant
            j <= b,
            acc as nat == pow2(a as nat + j as nat),
        decreases b - j,
    {
        proof {
            lemma_pow2_unfold(a as nat + j as nat + 1);
            lemma_pow2_le(a as nat + j as nat + 1, a as nat + b as nat);
            lemma_fundamental_div_mod(usize::MAX as int, 2);
            lemma_mod_division_less_than_divisor(usize::MAX as int, 2);
        }
        if acc > usize::MAX / 2 {
            return None;
        }
        acc = acc * 2;
        j = j + 1;
    }
    Some(acc)
}

/// The address-space parameters a translation unit can work with: at least
/// one TLB slot, a page offset no wider than the address, and a physical
/// address range `2^(M+N)` that the machine word can hold (which also bounds
/// the `2^M` frame-number range and the `2^(M-N)` page-table length).
pub open spec fn valid_config(address_bits: usize, page_offset_bits: usize, tlb_capacity: nat) -> bool {
    &&& tlb_capacity > 0
    &&& page_offset_bits <= address_bits
    &&& pow2(address_bits as nat + page_offset_bits as nat) <= usize::MAX as nat
}

/// Whether a page table for this geometry can be drawn by sampling without
/// replacement: a zero page offset makes the table cover the whole `2^M`
/// universe, a full-range draw that the sampler supports only within the
/// 32-bit index range.
pub open spec fn table_generable(address_bits: usize, page_offset_bits: usize) -> bool {
    page_offset_bits > 0 || pow2(address_bits as nat) <= u32::MAX as nat
}

/// The page number of an address: its high bits, above the page offset.
pub open spec fn page_of(address: usize, offset_bits: nat) -> usize {
    (address as nat / pow2(offset_bits)) as usize
}

/// The offset of an address within its page: its low `offset_bits` bits.
pub open spec fn offset_of(address: usize, offset_bits: nat) -> usize {
    (address as nat % pow2(offset_bits)) as usize
}

/// The division and remainder behind `page_of` and `offset_of` stay within
/// the machine word, so the two spec functions mean exactly quotient and
/// remainder by `2^offset_bits`.
pub proof fn lemma_split(address: usize, offset_bits: nat)
    ensures
        page_of(address, offset_bits) as nat == address as nat / pow2(offset_bits),
        offset_of(address, offset_bits) as nat == address as nat % pow2(offset_bits),
        (offset_of(address, offset_bits) as nat) < pow2(offset_bits),
{
    lemma_pow2_pos(offset_bits);
    lemma_div_nonincreasing(address as int, pow2(offset_bits) as int);
    lemma_mod_division_less_than_divisor(address as int, pow2(offset_bits) as int);
    if (address as nat) < pow2(offset_bits) {
        lemma_small_mod(address as nat, pow2(offset_bits));
    }
}

/// Splitting an address at the page-offset boundary loses nothing:
/// `page * 2^N + offset` reconstructs the address. Translation swaps the
/// page number for a frame number and recombines with the same formula, on
/// the hit path and on the miss path alike.
pub proof fn lemma_decompose_recompose(address: usize, offset_bits: nat)
    ensures
        page_of(address, offset_bits) as nat * pow2(offset_bits) + offset_of(
            address,
            offset_bits,
        ) as nat == address as nat,
{
    lemma_split(address, offset_bits);
    lemma_pow2_pos(offset_bits);
    lemma_fundamental_div_mod(address as int, pow2(offset_bits) as int);
}

/// Whether an address decomposes to a page number the page table covers.
pub open spec fn in_range(table: Seq<usize>, offset_bits: nat, address: usize) -> bool {
    page_of(address, offset_bits) < table.len()
}

/// Whether a translation of `address` finds its page in the TLB.
pub open spec fn translate_hits(tlb: TlbState, offset_bits: nat, address: usize) -> bool {
    spec_lookup(tlb.entries, page_of(address, offset_bits)) is Some
}

/// The TLB state after translating one in-range address: unchanged on a hit,
/// one FIFO insert of the resolved mapping on a miss.
pub open spec fn translate_tlb(
    table: Seq<usize>,
    offset_bits: nat,
    tlb: TlbState,
    address: usize,
) -> TlbState {
    if !in_range(table, offset_bits, address) || translate_hits(tlb, offset_bits, address) {
        tlb
    } else {
        tlb_step(
            tlb,
            page_of(address, offset_bits),
            table[page_of(address, offset_bits) as int],
        )
    }
}

/// The physical address an in-range translation produces: the frame the page
/// table assigns to the page, recombined with the page offset.
pub open spec fn physical_of(table: Seq<usize>, offset_bits: nat, address: usize) -> nat {
    table[page_of(address, offset_bits) as int] as nat * pow2(offset_bits) + offset_of(
        address,
        offset_bits,
    ) as nat
}

/// Every occupied TLB slot caches exactly what the page table says.
pub open spec fn tlb_coherent(table: Seq<usize>, entries: Seq<TlbEntry>) -> bool {
    forall|k: int|
        0 <= k < entries.len() ==> match #[trigger] entries[k] {
            Some(pf) => pf.0 < table.len() && pf.1 == table[pf.0 as int],
            None => true,
        }
}

/// The translation unit: one immutable page table, one FIFO TLB consulted
/// first, and the address-space parameters they were built for.
pub struct Mmu {
    pub page_table: Vec<usize>,
    pub tlb: Tlb,
    pub address_bits: usize,
    pub page_offset_bits: usize,
}

impl Mmu {
    /// Established by both constructors and preserved by `translate`: a
    /// usable configuration, a page table of length `2^(M-N)` holding
    /// pairwise-distinct frame numbers below `2^M`, and a TLB that only
    /// caches what the table says.
    pub open spec fn wf(self) -> bool {
        &&& valid_config(self.address_bits, self.page_offset_bits, self.tlb.spec_capacity())
        &&& self.tlb.wf()
        &&& self.page_table@.len() == pow2(
            (self.address_bits - self.page_offset_bits) as nat,
        )
        &&& forall|i: int|
            0 <= i < self.page_table@.len() ==> ((#[trigger] self.page_table@[i]) as nat) < pow2(
                self.address_bits as nat,
            )
        &&& forall|i: int, j: int|
            0 <= i < j < self.page_table@.len() ==> self.page_table@[i] != self.page_table@[j]
        &&& tlb_coherent(self.page_table@, self.tlb@.entries)
    }

    /// A translation unit with a randomly generated page table: `2^(M-N)`
    /// frame numbers drawn without replacement from `[0, 2^M)`, and an empty
    /// TLB. Rejects exactly the parameter triples `valid_config` rejects.
    pub fn new(address_bits: usize, page_offset_bits: usize, tlb_capacity: usize) -> (r: Result<
        Mmu,
        SimulationError,
    >)
        ensures
            r is Ok <==> valid_config(address_bits, page_offset_bits, tlb_capacity as nat)
                && table_generable(address_bits, page_offset_bits),
            r is Err ==> r == Err::<Mmu, SimulationError>(SimulationError::Configuration),
            r matches Ok(mmu) ==> {
                &&& mmu.wf()
                &&& mmu.address_bits == address_bits
                &&& mmu.page_offset_bits == page_offset_bits
                &&& mmu.tlb@ == tlb_init(tlb_capacity as nat)
            },
    {
        if tlb_capacity == 0 || page_offset_bits > address_bits {
            return Err(SimulationError::Configuration);
        }
        let total = match checked_pow2_sum(address_bits, page_offset_bits) {
            Some(v) => v,
            None => {
                return Err(SimulationError::Configuration);
            },
        };
        proof {
            lemma_pow2_le(page_offset_bits as nat, address_bits as nat + page_offset_bits as nat);
            lemma_exp_within_word(page_offset_bits as nat);
            lemma_usize_shr_is_div(total, page_offset_bits);
            lemma_pow2_subtracts(page_offset_bits as nat, address_bits as nat + page_offset_bits as nat);
        }
        let universe = total >> page_offset_bits;
        proof {
            assert(universe as nat == pow2(address_bits as nat));
            lemma_usize_shr_is_div(universe, page_offset_bits);
            lemma_pow2_subtracts(page_offset_bits as nat, address_bits as nat);
        }
        let table_len = universe >> page_offset_bits;
        proof {
            assert(table_len as nat == pow2((address_bits - page_offset_bits) as nat));
            lemma_pow2_le((address_bits - page_offset_bits) as nat, address_bits as nat);
        }
        if page_offset_bits == 0 && universe > u32::MAX as usize {
            return Err(SimulationError::Configuration);
        }
        proof {
            if page_offset_bits > 0 {
                lemma_pow2_strictly_increases(
                    (address_bits - page_offset_bits) as nat,
                    address_bits as nat,
                );
            }
        }
        let page_table = sample_distinct_indices(universe, table_len);
        let tlb = Tlb::new(tlb_capacity);
        Ok(Mmu { page_table, tlb, address_bits, page_offset_bits })
    }

    /// A translation unit over a caller-chosen page table, for deterministic
    /// runs; the table must look exactly like a generated one. Returns the
    /// same `Configuration` error as `new` for bad parameters, and also when
    /// the table's length is not `2^(M-N)` or its values are not distinct
    /// frame numbers below `2^M`.
    pub fn from_page_table(
        address_bits: usize,
        page_offset_bits: usize,
        tlb_capacity: usize,
        page_table: Vec<usize>,
    ) -> (r: Result<Mmu, SimulationError>)
        ensures
            r is Ok <==> {
                &&& valid_config(address_bits, page_offset_bits, tlb_capacity as nat)
                &&& page_table@.len() == pow2((address_bits - page_offset_bits) as nat)
                &&& forall|i: int|
                    0 <= i < page_table@.len() ==> ((#[trigger] page_table@[i]) as nat) < pow2(
                        address_bits as nat,
                    )
                &&& forall|i: int, j: int|
                    0 <= i < j < page_table@.len() ==> page_table@[i] != page_table@[j]
            },
            r is Err ==> r == Err::<Mmu, SimulationError>(SimulationError::Configuration),
            r matches Ok(mmu) ==> {
                &&& mmu.wf()
                &&& mmu.address_bits == address_bits
                &&& mmu.page_offset_bits == page_offset_bits
                &&& mmu.page_table@ == page_table@
                &&& mmu.tlb@ == tlb_init(tlb_capacity as nat)
            },
    {
        if tlb_capacity == 0 || page_offset_bits > address_bits {
            return Err(SimulationError::Configuration);
        }
        let total = match checked_pow2_sum(address_bits, page_offset_bits) {
            Some(v) => v,
            None => {
                return Err(SimulationError::Configuration);
            },
        };
        proof {
            lemma_pow2_le(page_offset_bits as nat, address_bits as nat + page_offset_bits as nat);
            lemma_exp_within_word(page_offset_bits as nat);
            lemma_usize_shr_is_div(total, page_offset_bits);
            lemma_pow2_subtracts(page_offset_bits as nat, address_bits as nat + page_offset_bits as nat);
            lemma_usize_shr_is_div(total >> page_offset_bits, page_offset_bits);
            lemma_pow2_subtracts(page_offset_bits as nat, address_bits as nat);
        }
        let universe = total >> page_offset_bits;
        let table_len = universe >> page_offset_bits;
        if page_table.len() != table_len {
            return Err(SimulationError::Configuration);
        }
        let n_entries = page_table.len();
        let mut i: usize = 0;
        while i < n_entries
            invariant
                n_entries == page_table@.len(),
                i <= n_entries,
                universe as nat == pow2(address_bits as nat),
                forall|k: int|
                    0 <= k < i ==> ((#[trigger] page_table@[k]) as nat) < pow2(
                        address_bits as nat,
                    ),
                forall|k: int, l: int|
                    0 <= k < i && k < l < n_entries ==> page_table@[k] != page_table@[l],
            decreases n_entries - i,
        {
            if page_table[i] >= universe {
                return Err(SimulationError::Configuration);
            }
            let mut j: usize = i + 1;
            while j < n_entries
                invariant
                    n_entries == page_table@.len(),
                    i < j <= n_entries,
                    forall|l: int| i < l < j ==> page_table@[i as int] != page_table@[l],
                decreases n_entries - j,
            {
                if page_table[i] == page_table[j] {
                    return Err(SimulationError::Configuration);
                }
                j = j + 1;
            }
            i = i + 1;
        }
        let tlb = Tlb::new(tlb_capacity);
        Ok(Mmu { page_table, tlb, address_bits, page_offset_bits })
    }

    /// Translate one virtual address. The page number is looked up in the
    /// TLB first; on a miss the page table resolves it and the mapping is
    /// inserted into the TLB, evicting whatever the FIFO cursor points at.
    /// The TLB is not touched on a hit. An address whose page number lies
    /// outside the page table is a configuration-level fault and is
    /// rejected without touching any state.
    pub fn translate(&mut self, address: usize) -> (r: Result<
        AddressTranslationResult,
        SimulationError,
    >)
        requires
            old(self).wf(),
        ensures
            final(self).wf(),
            final(self).page_table == old(self).page_table,
            final(self).address_bits == old(self).address_bits,
            final(self).page_offset_bits == old(self).page_offset_bits,
            final(self).tlb@ == translate_tlb(
                old(self).page_table@,
                old(self).page_offset_bits as nat,
                old(self).tlb@,
                address,
            ),
            ({
                let table = old(self).page_table@;
                let n = old(self).page_offset_bits as nat;
                if in_range(table, n, address) {
                    let pa = physical_of(table, n, address) as usize;
                    r == Ok::<AddressTranslationResult, SimulationError>(
                        if translate_hits(old(self).tlb@, n, address) {
                            AddressTranslationResult::Hit(pa)
                        } else {
                            AddressTranslationResult::Miss(pa)
                        },
                    )
                } else {
                    r == Err::<AddressTranslationResult, SimulationError>(
                        SimulationError::OutOfRangeAddress,
                    )
                }
            }),
    {
        let n = self.page_offset_bits;
        let ghost m_plus_n = self.address_bits as nat + n as nat;
        proof {
            lemma_pow2_le(n as nat, m_plus_n);
            lemma_exp_within_word(n as nat);
            lemma_usize_shr_is_div(address, n);
            lemma_split(address, n as nat);
        }
        let page_number = address >> n;
        proof {
            assert(page_number == page_of(address, n as nat));
        }
        proof {
            lemma_pow2_pos(n as nat);
            lemma_usize_shl_is_mul(1, n);
        }
        let mask = (1usize << n) - 1;
        proof {
            assert(mask as nat == low_bits_mask(n as nat));
            lemma_usize_low_bits_mask_is_mod(address, n as nat);
        }
        let offset = address & mask;
        proof {
            assert(offset == offset_of(address, n as nat));
        }
        if page_number >= self.page_table.len() {
            return Err(SimulationError::OutOfRangeAddress);
        }
        match self.tlb.lookup(page_number) {
            Some(frame_number) => {
                proof {
                    lemma_spec_lookup_some(self.tlb@.entries, page_number);
                    assert(frame_number == self.page_table@[page_number as int]);
                    lemma_physical_fits(
                        self.page_table@,
                        self.address_bits as nat,
                        n as nat,
                        address,
                    );
                    lemma_usize_shl_is_mul(frame_number, n);
                }
                Ok(AddressTranslationResult::Hit((frame_number << n) + offset))
            },
            None => {
                let frame_number = self.page_table[page_number];
                proof {
                    lemma_physical_fits(
                        self.page_table@,
                        self.address_bits as nat,
                        n as nat,
                        address,
                    );
                    lemma_usize_shl_is_mul(frame_number, n);
                }
                self.tlb.update(page_number, frame_number);
                Ok(AddressTranslationResult::Miss((frame_number << n) + offset))
            },
        }
    }
}

/// For an in-range address over a well-formed table, the recombined physical
/// address stays below `2^(M+N)` and so fits the machine word.
proof fn lemma_physical_fits(table: Seq<usize>, address_bits: nat, offset_bits: nat, address: usize)
    requires
        in_range(table, offset_bits, address),
        forall|i: int| 0 <= i < table.len() ==> ((#[trigger] table[i]) as nat) < pow2(address_bits),
        pow2(address_bits + offset_bits) <= usize::MAX as nat,
    ensures
        physical_of(table, offset_bits, address) <= usize::MAX as nat,
        table[page_of(address, offset_bits) as int] as nat * pow2(offset_bits) + offset_of(
            address,
            offset_bits,
        ) as nat == physical_of(table, offset_bits, address),
{
    let frame = table[page_of(address, offset_bits) as int] as nat;
    lemma_split(address, offset_bits);
    lemma_pow2_pos(offset_bits);
    lemma_pow2_adds(address_bits, offset_bits);
    lemma_mul_inequality(frame as int, pow2(address_bits) as int - 1, pow2(offset_bits) as int);
    lemma_mul_is_distributive_sub_other_way(
        pow2(offset_bits) as int,
        pow2(address_bits) as int,
        1,
    );
}

/// Relies on `rand::seq::index::sample` (seeded from `rand::rng`'s
/// thread-local generator): it returns exactly `amount` distinct indices
/// drawn from `0..length`. It panics when `amount > length`, and on a draw
/// of the whole range beyond the 32-bit index limit (`amount == length`
/// with `length > u32::MAX`) its debug-assertion builds panic too; the
/// precondition excludes both.
#[verifier::external_body]
fn sample_distinct_indices(length: usize, amount: usize) -> (r: Vec<usize>)
    requires
        amount <= length,
        amount < length || length <= u32::MAX as usize,
    ensures
        r@.len() == amount as nat,
        forall|i: int| 0 <= i < r@.len() ==> (#[trigger] r@[i]) < length,
        forall|i: int, j: int| 0 <= i < j < r@.len() ==> r@[i] != r@[j],
{
    let mut rng = rand::rng();
    rand::seq::index::sample(&mut rng, length, amount).into_vec()
}

} // verus!
