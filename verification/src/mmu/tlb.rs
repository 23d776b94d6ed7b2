use vstd::prelude::*;
use vstd::arithmetic::div_mod::{
    lemma_fundamental_div_mod,
    lemma_mod_division_less_than_divisor,
    lemma_mod_multiples_vanish,
    lemma_mod_self_0,
    lemma_small_mod,
};

verus! {

/// One TLB slot: empty, or a cached (page number, frame number) pair.
pub type TlbEntry = Option<(usize, usize)>;

/// Mathematical model of a TLB: the slot contents and the FIFO cursor.
#[verifier::ext_equal]
pub ghost struct TlbState {
    pub entries: Seq<TlbEntry>,
    pub next_victim: nat,
}

impl TlbState {
    /// The fixed number of slots.
    pub open spec fn capacity(self) -> nat {
        self.entries.len()
    }

    /// The cursor always points at a slot, which also forces a capacity of
    /// at least one.
    pub open spec fn wf(self) -> bool {
        self.next_victim < self.entries.len()
    }
}

/// An empty TLB of the given capacity: every slot unwritten, cursor at zero.
pub open spec fn tlb_init(capacity: nat) -> TlbState {
    TlbState { entries: Seq::new(capacity, |i: int| None), next_victim: 0 }
}

/// The state after one unconditional FIFO insert: the slot under the cursor
/// is overwritten, whatever it held, and the cursor advances cyclically.
pub open spec fn tlb_step(s: TlbState, page_number: usize, frame_number: usize) -> TlbState
    recommends
        s.wf(),
{
    TlbState {
        entries: s.entries.update(s.next_victim as int, Some((page_number, frame_number))),
        next_victim: (s.next_victim + 1) % s.entries.len(),
    }
}

/// The frame cached for `page_number`: the first occupied slot, in index
/// order, whose page matches, or `None` when no slot matches.
pub open spec fn spec_lookup(entries: Seq<TlbEntry>, page_number: usize) -> Option<usize>
    decreases entries.len(),
{
    if entries.len() == 0 {
        None
    } else {
        match entries[0] {
            Some(pf) => if pf.0 == page_number {
                Some(pf.1)
            } else {
                spec_lookup(entries.drop_first(), page_number)
            },
            None => spec_lookup(entries.drop_first(), page_number),
        }
    }
}

/// A successful lookup always comes from some slot that holds exactly the
/// returned mapping.
pub proof fn lemma_spec_lookup_some(entries: Seq<TlbEntry>, page_number: usize)
    ensures
        spec_lookup(entries, page_number) matches Some(f) ==> exists|k: int|
            0 <= k < entries.len() && entries[k] == Some((page_number, f)),
    decreases entries.len(),
{
    if entries.len() > 0 {
        let hit_here = match entries[0] {
            Some(pf) => pf.0 == page_number,
            None => false,
        };
        if hit_here {
            assert(entries[0] matches Some(pf) && pf.0 == page_number);
        } else {
            lemma_spec_lookup_some(entries.drop_first(), page_number);
            match spec_lookup(entries, page_number) {
                Some(f) => {
                    let k = choose|k: int|
                        0 <= k < entries.drop_first().len() && entries.drop_first()[k] == Some(
                            (page_number, f),
                        );
                    assert(entries[k + 1] == Some((page_number, f)));
                },
                None => {},
            }
        }
    }
}

/// A failed lookup means no slot holds the page.
pub proof fn lemma_spec_lookup_none(entries: Seq<TlbEntry>, page_number: usize)
    ensures
        spec_lookup(entries, page_number) is None <==> (forall|k: int|
            0 <= k < entries.len() ==> match #[trigger] entries[k] {
                Some(pf) => pf.0 != page_number,
                None => true,
            }),
    decreases entries.len(),
{
    if entries.len() > 0 {
        lemma_spec_lookup_none(entries.drop_first(), page_number);
        assert(forall|k: int|
            1 <= k < entries.len() ==> entries[k] == entries.drop_first()[k - 1]);
    }
}

/// A fixed-capacity cache of page-to-frame mappings with strictly FIFO
/// replacement: inserts overwrite the slots in cyclic index order, and
/// lookups never change the replacement order.
#[derive(Debug)]
pub struct Tlb {
    pub entries: Vec<TlbEntry>,
    pub next_victim: usize,
}

impl View for Tlb {
    type V = TlbState;

    open spec fn view(&self) -> TlbState {
        TlbState { entries: self.entries@, next_victim: self.next_victim as nat }
    }
}

impl Tlb {
    /// The slot count chosen at construction.
    pub open spec fn spec_capacity(self) -> nat {
        self@.capacity()
    }

    pub open spec fn wf(self) -> bool {
        self@.wf()
    }

    /// An empty TLB. A capacity of zero is an invalid configuration
    /// (the cyclic cursor would have no slot to point at) and is rejected
    /// by the callers that surface a `Configuration` error.
    pub fn new(capacity: usize) -> (r: Tlb)
        requires
            capacity > 0,
        ensures
            r@ == tlb_init(capacity as nat),
            r.wf(),
    {
        let mut entries: Vec<TlbEntry> = Vec::new();
        let mut i: usize = 0;
        while i < capacity
            invariant
                i <= capacity,
                entries@.len() == i as nat,
                forall|k: int| 0 <= k < i ==> entries@[k] is None,
            decreases capacity - i,
        {
            entries.push(None);
            i = i + 1;
        }
        let r = Tlb { entries, next_victim: 0 };
        proof {
            assert(r@.entries =~= tlb_init(capacity as nat).entries);
            assert(r@ =~= tlb_init(capacity as nat));
        }
        r
    }

    /// Number of slots.
    pub fn capacity(&self) -> (r: usize)
        ensures
            r as nat == self.spec_capacity(),
    {
        self.entries.len()
    }

    /// Linear scan over all slots in index order; returns the frame of the
    /// first occupied slot whose page matches.
    pub fn lookup(&self, page_number: usize) -> (r: Option<usize>)
        ensures
            r == spec_lookup(self@.entries, page_number),
    {
        let n = self.entries.len();
        proof {
            assert(self.entries@.subrange(0, n as int) =~= self.entries@);
        }
        let mut i: usize = 0;
        while i < n
            invariant
                n == self.entries@.len(),
                i <= n,
                spec_lookup(self.entries@, page_number) == spec_lookup(
                    self.entries@.subrange(i as int, n as int),
                    page_number,
                ),
            decreases n - i,
        {
            let ghost pre = self.entries@.subrange(i as int, n as int);
            proof {
                assert(pre[0] == self.entries@[i as int]);
                assert(pre.drop_first() =~= self.entries@.subrange(i as int + 1, n as int));
            }
            match self.entries[i] {
                Some(pf) => {
                    if pf.0 == page_number {
                        return Some(pf.1);
                    }
                },
                None => {},
            }
            i = i + 1;
        }
        proof {
            assert(self.entries@.subrange(n as int, n as int).len() == 0);
        }
        None
    }

    /// Unconditional insert-or-replace: overwrites the slot under the
    /// cursor, whether it was empty or still held a live mapping, then
    /// advances the cursor cyclically. It never checks whether the page is
    /// already cached, so a page can transiently occupy two slots until the
    /// older copy cycles out; that behaviour is deliberate.
    pub fn update(&mut self, page_number: usize, frame_number: usize)
        requires
            old(self).wf(),
        ensures
            final(self)@ == tlb_step(old(self)@, page_number, frame_number),
            final(self).wf(),
            final(self).spec_capacity() == old(self).spec_capacity(),
    {
        let victim = self.next_victim;
        self.entries.set(victim, Some((page_number, frame_number)));
        let len = self.entries.len();
        self.next_victim = (victim + 1) % len;
        proof {
            assert(self@ =~= tlb_step(old(self)@, page_number, frame_number));
        }
    }
}

impl PartialEq for Tlb {
    fn eq(&self, other: &Tlb) -> (r: bool) {
        if self.next_victim != other.next_victim {
            return false;
        }
        let n = self.entries.len();
        if n != other.entries.len() {
            proof {
                assert(self@.entries.len() != other@.entries.len());
            }
            return false;
        }
        let mut i: usize = 0;
        while i < n
            invariant
                n == self.entries@.len(),
                n == other.entries@.len(),
                i <= n,
                self.next_victim == other.next_victim,
                forall|k: int| 0 <= k < i ==> self.entries@[k] == other.entries@[k],
            decreases n - i,
        {
            let same = match (self.entries[i], other.entries[i]) {
                (None, None) => true,
                (Some(a), Some(b)) => a.0 == b.0 && a.1 == b.1,
                _ => false,
            };
            if !same {
                proof {
                    assert(self@.entries[i as int] != other@.entries[i as int]);
                }
                return false;
            }
            i = i + 1;
        }
        proof {
            assert(self@.entries =~= other@.entries);
            assert(self@ =~= other@);
        }
        true
    }
}

impl vstd::std_specs::cmp::PartialEqSpecImpl for Tlb {
    open spec fn obeys_eq_spec() -> bool {
        true
    }

    open spec fn eq_spec(&self, other: &Tlb) -> bool {
        self@ == other@
    }
}

/// How many slots hold a mapping.
pub open spec fn occupied_count(entries: Seq<TlbEntry>) -> nat
    decreases entries.len(),
{
    if entries.len() == 0 {
        0
    } else {
        occupied_count(entries.drop_last()) + (if entries.last() is Some {
            1nat
        } else {
            0nat
        })
    }
}

/// The state a fresh TLB of the given capacity reaches after a sequence of
/// inserts. `Tlb::new` ensures exactly `tlb_init` and `Tlb::update` ensures
/// exactly one `tlb_step`, so this folds any sequence of `update` calls;
/// `lookup` takes the TLB by shared reference and can change nothing.
pub open spec fn fifo_run(capacity: nat, inserts: Seq<(usize, usize)>) -> TlbState
    decreases inserts.len(),
{
    if inserts.len() == 0 {
        tlb_init(capacity)
    } else {
        tlb_step(fifo_run(capacity, inserts.drop_last()), inserts.last().0, inserts.last().1)
    }
}

proof fn lemma_occupied_count_le_len(entries: Seq<TlbEntry>)
    ensures
        occupied_count(entries) <= entries.len(),
    decreases entries.len(),
{
    if entries.len() > 0 {
        lemma_occupied_count_le_len(entries.drop_last());
    }
}

/// The capacity invariant: whatever sequence of inserts a TLB of capacity
/// `capacity` has seen, it still has exactly `capacity` slots, and so holds
/// at most `capacity` simultaneously valid mappings.
pub proof fn lemma_capacity_invariant(capacity: nat, inserts: Seq<(usize, usize)>)
    requires
        capacity > 0,
    ensures
        fifo_run(capacity, inserts).entries.len() == capacity,
        occupied_count(fifo_run(capacity, inserts).entries) <= capacity,
{
    lemma_fifo_run_slots(capacity, inserts);
    lemma_occupied_count_le_len(fifo_run(capacity, inserts).entries);
}

/// The insert that last wrote slot `s` after `len` inserts into an empty
/// TLB of capacity `c`, assuming `0 <= s < c` and `s < len`: the largest
/// index below `len` congruent to `s` modulo `c`.
pub open spec fn slot_source(len: int, c: int, s: int) -> int {
    len - 1 - ((len - 1 - s) % c)
}

/// What every slot holds after a sequence of inserts into a fresh TLB: the
/// cursor has gone around cyclically, so slot `s` holds the latest insert
/// whose index is congruent to `s` modulo the capacity, and slots no insert
/// has reached yet are still empty.
pub proof fn lemma_fifo_run_slots(capacity: nat, inserts: Seq<(usize, usize)>)
    requires
        capacity > 0,
    ensures
        fifo_run(capacity, inserts).entries.len() == capacity,
        fifo_run(capacity, inserts).next_victim == inserts.len() % capacity,
        forall|s: int|
            0 <= s < capacity ==> fifo_run(capacity, inserts).entries[s] == (if s
                < inserts.len() {
                Some(inserts[slot_source(inserts.len() as int, capacity as int, s)])
            } else {
                None::<(usize, usize)>
            }),
    decreases inserts.len(),
{
    let c = capacity as int;
    let st = fifo_run(capacity, inserts);
    if inserts.len() == 0 {
        lemma_small_mod(0, capacity);
    } else {
        let prev_inserts = inserts.drop_last();
        lemma_fifo_run_slots(capacity, prev_inserts);
        let prev = fifo_run(capacity, prev_inserts);
        let big_l = prev_inserts.len() as int;
        let i0 = big_l % c;
        let q0 = big_l / c;
        lemma_mod_division_less_than_divisor(big_l, c);
        lemma_fundamental_div_mod(big_l, c);
        assert(big_l == c * q0 + i0);
        assert(st.entries == prev.entries.update(i0, Some(inserts.last())));
        assert(st.next_victim == ((i0 + 1) % c) as nat);
        assert((big_l + 1) % c == (i0 + 1) % c) by {
            lemma_mod_multiples_vanish(q0, i0 + 1, c);
        };
        assert forall|s: int| 0 <= s < capacity implies st.entries[s] == (if s < inserts.len() {
            Some(inserts[slot_source(inserts.len() as int, capacity as int, s)])
        } else {
            None::<(usize, usize)>
        }) by {
            if s == i0 {
                assert(st.entries[s] == Some(inserts.last()));
                assert(inserts.last() == inserts[big_l]);
                assert((big_l - s) % c == 0) by {
                    lemma_mod_multiples_vanish(q0, 0, c);
                    lemma_small_mod(0, capacity);
                };
                assert(slot_source(big_l + 1, c, s) == big_l);
            } else {
                assert(st.entries[s] == prev.entries[s]);
                if s < big_l {
                    let a = big_l - 1 - s;
                    let q = a / c;
                    let r = a % c;
                    lemma_mod_division_less_than_divisor(a, c);
                    lemma_fundamental_div_mod(a, c);
                    assert(a == c * q + r);
                    assert((a + 1) % c == (r + 1) % c) by {
                        lemma_mod_multiples_vanish(q, r + 1, c);
                    };
                    if r == c - 1 {
                        assert((r + 1) % c == 0) by {
                            lemma_mod_self_0(c);
                        };
                        let q2 = (a + 1) / c;
                        lemma_fundamental_div_mod(a + 1, c);
                        assert(a + 1 == c * q2);
                        assert(big_l == c * q2 + s);
                        assert(big_l % c == s) by {
                            lemma_mod_multiples_vanish(q2, s, c);
                            lemma_small_mod(s as nat, capacity);
                        };
                        assert(false);
                    }
                    assert((r + 1) % c == r + 1) by {
                        lemma_small_mod((r + 1) as nat, capacity);
                    };
                    assert(slot_source(big_l + 1, c, s) == slot_source(big_l, c, s));
                    assert(prev_inserts[slot_source(big_l, c, s)] == inserts[slot_source(
                        big_l + 1,
                        c,
                        s,
                    )]);
                } else {
                    if s == big_l {
                        lemma_small_mod(s as nat, capacity);
                        assert(i0 == s);
                        assert(false);
                    }
                }
            }
        }
    }
}

/// A lookup that has exactly one matching slot returns its frame.
proof fn lemma_spec_lookup_unique(
    entries: Seq<TlbEntry>,
    page_number: usize,
    idx: int,
    frame_number: usize,
)
    requires
        0 <= idx < entries.len(),
        entries[idx] == Some((page_number, frame_number)),
        forall|k: int|
            0 <= k < entries.len() && k != idx ==> match #[trigger] entries[k] {
                Some(pf) => pf.0 != page_number,
                None => true,
            },
    ensures
        spec_lookup(entries, page_number) == Some(frame_number),
    decreases entries.len(),
{
    if idx > 0 {
        assert(forall|k: int|
            1 <= k < entries.len() ==> entries.drop_first()[k - 1] == entries[k]);
        lemma_spec_lookup_unique(entries.drop_first(), page_number, idx - 1, frame_number);
    }
}

/// The FIFO order law: insert pairwise-distinct pages into a fresh TLB of
/// capacity `c`. The first page stays cached while at most `c` inserts have
/// happened, and is evicted at exactly the `c`-th insert after it — whatever
/// lookups happen in between, since `lookup` borrows the TLB immutably and
/// can never refresh recency.
pub proof fn lemma_fifo_eviction(capacity: nat, inserts: Seq<(usize, usize)>)
    requires
        capacity > 0,
        inserts.len() > 0,
        forall|i: int, j: int| 0 <= i < j < inserts.len() ==> inserts[i].0 != inserts[j].0,
    ensures
        spec_lookup(fifo_run(capacity, inserts).entries, inserts[0].0) == (if inserts.len()
            <= capacity {
            Some(inserts[0].1)
        } else {
            None::<usize>
        }),
{
    lemma_fifo_run_slots(capacity, inserts);
    let st = fifo_run(capacity, inserts);
    let big_l = inserts.len() as int;
    let c = capacity as int;
    assert forall|s: int| 0 <= s < c && s < big_l implies {
        &&& 0 <= slot_source(big_l, c, s) < big_l
        &&& (big_l <= c ==> slot_source(big_l, c, s) == s)
        &&& (big_l > c ==> slot_source(big_l, c, s) >= 1)
    } by {
        lemma_mod_division_less_than_divisor(big_l - 1 - s, c);
        if big_l <= c {
            lemma_small_mod((big_l - 1 - s) as nat, capacity);
        }
    }
    if big_l <= c {
        assert(st.entries[0] == Some(inserts[0]));
        lemma_spec_lookup_unique(st.entries, inserts[0].0, 0, inserts[0].1);
    } else {
        assert(forall|k: int|
            0 <= k < st.entries.len() ==> match #[trigger] st.entries[k] {
                Some(pf) => pf.0 != inserts[0].0,
                None => true,
            });
        lemma_spec_lookup_none(st.entries, inserts[0].0);
    }
}

} // verus!
