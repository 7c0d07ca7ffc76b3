//! Linear-scan register allocation over MIR live intervals.
//!
//! The allocator is target-independent: it is told how many registers exist and
//! which locals are ineligible, and it answers with a location for every local.
//! Naming those registers and honouring the answer is the backend's job.
//!
//! Allocation is whole-interval: a local either lives in one register for the
//! entire function or lives in its frame slot for the entire function. Nothing
//! is split, and no reload is inserted mid-interval. A local that loses the
//! scan is simply left in memory - the spill is the frame slot it would have
//! had anyway, so spilling can never fail or cost extra instructions.
use crate::cfg::{lemma_live_intervals_unique, live_intervals, live_intervals_of, mentioned_at, position_count, Cfg, Interval};
use crate::mir::{LocalId, MirFunction};
use vstd::prelude::*;

verus! {

/// Where a local lives for the whole of its function.
#[derive(Clone, Copy, Debug, Eq, PartialEq, Structural)]
pub enum Location {
    /// Index into the backend's list of allocatable registers.
    Register(usize),
    /// Index of an 8-byte frame slot.
    Memory(usize),
}

/// Where every local of one function lives.
pub struct Allocation {
    locations: Vec<Location>,
    used_registers: Vec<usize>,
    memory_slots: usize,
}

/// How many of `places[..l]` are in memory.
pub open spec fn memory_before(places: Seq<Location>, l: int) -> nat
    decreases l,
{
    if l <= 0 {
        0
    } else {
        memory_before(places, l - 1) + if places[l - 1] is Memory {
            1nat
        } else {
            0nat
        }
    }
}

/// The frame slots are numbered in the order of the locals that hold them,
/// from zero and without gaps, and `slots` is how many there are.
pub open spec fn slots_without_gaps(places: Seq<Location>, slots: nat) -> bool {
    &&& forall|l: int|
        0 <= l < places.len() && (#[trigger] places[l]) is Memory ==> places[l]->Memory_0
            == memory_before(places, l)
    &&& slots == memory_before(places, places.len() as int)
}

/// `used` is every register some local lives in, ascending, each once.
pub open spec fn registers_listed(places: Seq<Location>, used: Seq<usize>) -> bool {
    &&& forall|i: int, j: int| 0 <= i < j < used.len() ==> used[i] < used[j]
    &&& forall|r: usize|
        used.contains(r) <==> exists|l: int| 0 <= l < places.len() && places[l] == Location::Register(r)
}

impl Allocation {
    /// Where each local lives.
    pub closed spec fn places(&self) -> Seq<Location> {
        self.locations@
    }

    /// The registers the function uses, ascending.
    pub closed spec fn registers(&self) -> Seq<usize> {
        self.used_registers@
    }

    /// How many frame slots the locals need.
    pub closed spec fn slots(&self) -> nat {
        self.memory_slots as nat
    }

    /// Every local in its frame slot. The fallback for code generated without
    /// a MIR function behind it.
    pub fn stack_only(locals: usize) -> (a: Allocation)
        ensures
            a.places().len() == locals,
            forall|l: int| 0 <= l < locals ==> #[trigger] a.places()[l] == Location::Memory(l as usize),
            a.registers().len() == 0,
            a.slots() == locals,
            slots_without_gaps(a.places(), a.slots()),
    {
        let mut locations: Vec<Location> = Vec::new();
        let mut l: usize = 0;
        while l < locals
            invariant
                l <= locals,
                locations@.len() == l,
                forall|m: int| 0 <= m < l ==> #[trigger] locations@[m] == Location::Memory(m as usize),
                memory_before(locations@, l as int) == l,
            decreases locals - l,
        {
            let ghost before = locations@;
            locations.push(Location::Memory(l));
            proof {
                lemma_memory_before_prefix(before, locations@, l as int);
            }
            l += 1;
        }
        proof {
            assert forall|m: int| 0 <= m < locals && (#[trigger] locations@[m]) is Memory implies locations@[m]->Memory_0
                == memory_before(locations@, m) by {
                lemma_memory_before_all(locations@, m);
            }
        }
        Allocation { locations, used_registers: Vec::new(), memory_slots: locals }
    }

    /// Where `local` lives. A local past the end of the function has no
    /// place; it is answered with a slot rather than a panic.
    pub fn location(&self, local: LocalId) -> (l: Location)
        ensures
            local < self.places().len() ==> l == self.places()[local as int],
            local >= self.places().len() ==> l == Location::Memory(local),
    {
        if local < self.locations.len() {
            self.locations[local]
        } else {
            Location::Memory(local)
        }
    }

    /// Allocatable-register indices this function actually uses, ascending.
    /// The backend saves and restores exactly these.
    pub fn used_registers(&self) -> (r: &[usize])
        ensures
            r@ == self.registers(),
    {
        self.used_registers.as_slice()
    }

    /// Number of 8-byte frame slots the locals need.
    pub fn memory_slots(&self) -> (n: usize)
        ensures
            n == self.slots(),
    {
        self.memory_slots
    }
}

/// Counting memory places is the same over a prefix of a sequence.
proof fn lemma_memory_before_prefix(a: Seq<Location>, b: Seq<Location>, l: int)
    requires
        0 <= l <= a.len(),
        l <= b.len(),
        forall|m: int| 0 <= m < l ==> a[m] == b[m],
    ensures
        memory_before(a, l) == memory_before(b, l),
    decreases l,
{
    if l > 0 {
        lemma_memory_before_prefix(a, b, l - 1);
    }
}

/// Where every local is a slot numbered by its position, each is numbered by
/// the memory places before it.
proof fn lemma_memory_before_all(places: Seq<Location>, l: int)
    requires
        0 <= l <= places.len(),
        forall|m: int| 0 <= m < places.len() ==> #[trigger] places[m] == Location::Memory(m as usize),
    ensures
        memory_before(places, l) == l,
    decreases l,
{
    if l > 0 {
        lemma_memory_before_all(places, l - 1);
    }
}

/// `a` comes before `b` in the order the scan visits intervals: by start,
/// then by end, then by local.
pub open spec fn visits_before(a: Interval, b: Interval) -> bool {
    a.start < b.start || (a.start == b.start && (a.end < b.end || (a.end == b.end && a.local
        < b.local)))
}

fn before(a: &Interval, b: &Interval) -> (r: bool)
    ensures
        r == visits_before(*a, *b),
{
    a.start < b.start || (a.start == b.start && (a.end < b.end || (a.end == b.end && a.local
        < b.local)))
}

/// Two intervals share no position.
pub open spec fn disjoint(a: Interval, b: Interval) -> bool {
    a.end < b.start || b.end < a.start
}

/// No two intervals of `s` are for the same local.
pub open spec fn distinct_locals(s: Seq<Interval>) -> bool {
    forall|i: int, j: int| 0 <= i < s.len() && 0 <= j < s.len() && i != j ==> s[i].local != s[j].local
}

/// What the scan keeps true once it has visited the intervals marked `done`.
spec fn scan_inv(
    s: Seq<Interval>,
    done: Seq<bool>,
    assigned: Seq<Option<usize>>,
    active: Seq<Interval>,
    count: nat,
    registers: nat,
) -> bool {
    &&& done.len() == s.len()
    &&& assigned.len() == count
    &&& forall|l: int| 0 <= l < count && (#[trigger] assigned[l]) is Some ==> {
        &&& assigned[l]->Some_0 < registers
        &&& exists|i: int| 0 <= i < s.len() && done[i] && s[i].local == l
    }
    &&& forall|i: int| 0 <= i < s.len() && !(#[trigger] done[i]) ==> assigned[s[i].local as int] is None
    &&& forall|i: int, j: int|
        0 <= i < s.len() && 0 <= j < s.len() && i != j && #[trigger] done[i] && #[trigger] done[j]
            && assigned[s[i].local as int] is Some && assigned[s[i].local as int]
            == assigned[s[j].local as int] ==> disjoint(s[i], s[j])
    &&& forall|i: int, j: int|
        0 <= i < s.len() && 0 <= j < s.len() && #[trigger] done[i] && !#[trigger] done[j] ==> s[i].start <= s[j].start
    &&& forall|i: int, j: int|
        0 <= i < s.len() && 0 <= j < s.len() && #[trigger] done[i] && !#[trigger] done[j]
            && assigned[s[i].local as int] is Some && !active.contains(s[i]) ==> s[i].end < s[j].start
    &&& forall|a: int|
        0 <= a < active.len() ==> {
            &&& exists|i: int| 0 <= i < s.len() && done[i] && s[i] == #[trigger] active[a]
            &&& assigned[active[a].local as int] is Some
        }
    &&& forall|a: int, b: int|
        0 <= a < active.len() && 0 <= b < active.len() && a != b ==> assigned[(#[trigger] active[a]).local as int]
            != assigned[(#[trigger] active[b]).local as int]
}

/// How many of `d` are still `false`.
spec fn undone(d: Seq<bool>) -> nat
    decreases d.len(),
{
    if d.len() == 0 {
        0
    } else {
        undone(d.drop_last()) + if d.last() {
            0nat
        } else {
            1nat
        }
    }
}

proof fn lemma_undone(d: Seq<bool>)
    ensures
        undone(d) <= d.len(),
        undone(d) == 0 ==> forall|i: int| 0 <= i < d.len() ==> d[i],
        undone(d) > 0 ==> exists|i: int| 0 <= i < d.len() && !d[i],
    decreases d.len(),
{
    if d.len() > 0 {
        lemma_undone(d.drop_last());
        if undone(d) == 0 {
            assert forall|i: int| 0 <= i < d.len() implies d[i] by {
                if i < d.len() - 1 {
                    assert(d.drop_last()[i] == d[i]);
                }
            }
        }
        if undone(d) > 0 && d.last() {
            let i = choose|i: int| 0 <= i < d.drop_last().len() && !d.drop_last()[i];
            assert(d[i] == d.drop_last()[i]);
        }
    }
}

proof fn lemma_undone_update(d: Seq<bool>, m: int)
    requires
        0 <= m < d.len(),
        !d[m],
    ensures
        undone(d.update(m, true)) + 1 == undone(d),
    decreases d.len(),
{
    if m < d.len() - 1 {
        assert(d.update(m, true).drop_last() =~= d.drop_last().update(m, true));
        lemma_undone_update(d.drop_last(), m);
    } else {
        assert(d.update(m, true).drop_last() =~= d.drop_last());
    }
}

proof fn lemma_undone_all_false(d: Seq<bool>)
    requires
        forall|i: int| 0 <= i < d.len() ==> !d[i],
    ensures
        undone(d) == d.len(),
    decreases d.len(),
{
    if d.len() > 0 {
        lemma_undone_all_false(d.drop_last());
    }
}

/// The intervals of `s` that hold position `p`.
pub open spec fn live_at(s: Seq<Interval>, p: int) -> Set<Interval> {
    Set::new(|iv: Interval| s.contains(iv) && iv.start <= p <= iv.end)
}

/// At some position of `s[i]`, more intervals of `s` are live than there are
/// registers.
pub open spec fn crowded(s: Seq<Interval>, i: int, registers: nat) -> bool {
    exists|p: int| s[i].start <= p <= s[i].end && #[trigger] live_at(s, p).len() > registers
}

/// Every interval visited and left without a register was crowded.
spec fn spill_inv(s: Seq<Interval>, done: Seq<bool>, assigned: Seq<Option<usize>>, registers: nat) -> bool {
    forall|i: int|
        0 <= i < s.len() && #[trigger] done[i] && assigned[s[i].local as int] is None ==> crowded(s, i, registers)
}

/// Some live interval holds register `q`.
spec fn held(assigned: Seq<Option<usize>>, active: Seq<Interval>, q: int) -> bool {
    exists|y: int| 0 <= y < active.len() && assigned[(#[trigger] active[y]).local as int] == Some(q as usize)
}

/// When every register is held by an interval still live where `s[m]`
/// starts, more intervals are live there than there are registers.
proof fn lemma_full(
    s: Seq<Interval>,
    d: Seq<bool>,
    asg: Seq<Option<usize>>,
    act: Seq<Interval>,
    count: nat,
    regs: nat,
    m: int,
)
    requires
        distinct_locals(s),
        forall|i: int| 0 <= i < s.len() ==> (#[trigger] s[i]).start <= s[i].end,
        regs <= usize::MAX,
        scan_inv(s, d, asg, act, count, regs),
        visits_next(s, d, m),
        forall|q: int| 0 <= q < regs ==> #[trigger] held(asg, act, q),
        forall|a: int| 0 <= a < act.len() ==> (#[trigger] act[a]).end >= s[m].start,
    ensures
        live_at(s, s[m].start as int).len() > regs,
{
    broadcast use vstd::seq_lib::seq_to_set_is_finite;

    let p = s[m].start as int;
    let live = live_at(s, p);
    assert(live.subset_of(s.to_set()));
    vstd::set_lib::lemma_len_subset(live, s.to_set());
    assert forall|a: int, b: int| 0 <= a < act.len() && 0 <= b < act.len() && a != b implies act[a] != act[b] by {
        assert(asg[act[a].local as int] != asg[act[b].local as int]);
    }
    assert(act.no_duplicates());
    act.unique_seq_to_set();
    assert forall|iv: Interval| act.to_set().contains(iv) implies live.contains(iv) by {
        let a = choose|a: int| 0 <= a < act.len() && act[a] == iv;
        let i = choose|i: int| 0 <= i < s.len() && d[i] && s[i] == #[trigger] act[a];
        assert(s[i].start <= s[m].start);
        assert(s.contains(iv));
    }
    assert(!act.to_set().contains(s[m])) by {
        if act.to_set().contains(s[m]) {
            let a = choose|a: int| 0 <= a < act.len() && act[a] == s[m];
            let i = choose|i: int| 0 <= i < s.len() && d[i] && s[i] == #[trigger] act[a];
            assert(i != m);
        }
    }
    let both = act.to_set().insert(s[m]);
    assert(live.contains(s[m])) by {
        assert(s[m] == s[m]);
    }
    assert(both.subset_of(live));
    vstd::set_lib::lemma_len_subset(both, live);
    let g = act.map_values(|iv: Interval| asg[iv.local as int]->Some_0 as int);
    vstd::set_lib::lemma_int_range(0, regs as int);
    assert forall|q: int| vstd::set_lib::set_int_range(0, regs as int).contains(q) implies g.to_set().contains(q) by {
        assert(held(asg, act, q));
        let y = choose|y: int| 0 <= y < act.len() && asg[(#[trigger] act[y]).local as int] == Some(q as usize);
        assert(g[y] == q);
    }
    vstd::set_lib::lemma_len_subset(vstd::set_lib::set_int_range(0, regs as int), g.to_set());
    g.lemma_cardinality_of_set();
}

/// Visiting `m` and giving it a register keeps every spill crowded.
proof fn lemma_spill_assign(s: Seq<Interval>, d: Seq<bool>, asg: Seq<Option<usize>>, regs: nat, m: int, reg: usize)
    requires
        distinct_locals(s),
        forall|i: int| 0 <= i < s.len() ==> (#[trigger] s[i]).local < asg.len(),
        0 <= m < s.len(),
        d.len() == s.len(),
        spill_inv(s, d, asg, regs),
    ensures
        spill_inv(s, d.update(m, true), asg.update(s[m].local as int, Some(reg)), regs),
{
    let nd = d.update(m, true);
    let na = asg.update(s[m].local as int, Some(reg));
    assert forall|i: int| 0 <= i < s.len() && #[trigger] nd[i] && na[s[i].local as int] is None implies crowded(s, i, regs) by {
        assert(i != m);
        assert(s[i].local != s[m].local);
        assert(d[i]);
    }
}

/// Visiting a crowded `m` and leaving it in memory keeps every spill crowded.
proof fn lemma_spill_skip(s: Seq<Interval>, d: Seq<bool>, asg: Seq<Option<usize>>, regs: nat, m: int)
    requires
        0 <= m < s.len(),
        d.len() == s.len(),
        spill_inv(s, d, asg, regs),
        crowded(s, m, regs),
    ensures
        spill_inv(s, d.update(m, true), asg, regs),
{
    let nd = d.update(m, true);
    assert forall|i: int| 0 <= i < s.len() && #[trigger] nd[i] && asg[s[i].local as int] is None implies crowded(s, i, regs) by {
        if i != m {
            assert(d[i]);
        }
    }
}

/// Visiting `m`, handing it the register of the crowded interval `s[v]`,
/// keeps every spill crowded.
proof fn lemma_spill_evict(
    s: Seq<Interval>,
    d: Seq<bool>,
    asg: Seq<Option<usize>>,
    regs: nat,
    m: int,
    v: int,
    reg: usize,
)
    requires
        distinct_locals(s),
        forall|i: int| 0 <= i < s.len() ==> (#[trigger] s[i]).local < asg.len(),
        0 <= m < s.len(),
        0 <= v < s.len(),
        v != m,
        d.len() == s.len(),
        d[v],
        spill_inv(s, d, asg, regs),
        crowded(s, v, regs),
    ensures
        spill_inv(
            s,
            d.update(m, true),
            asg.update(s[v].local as int, None).update(s[m].local as int, Some(reg)),
            regs,
        ),
{
    let nd = d.update(m, true);
    let na = asg.update(s[v].local as int, None).update(s[m].local as int, Some(reg));
    assert forall|i: int| 0 <= i < s.len() && #[trigger] nd[i] && na[s[i].local as int] is None implies crowded(s, i, regs) by {
        assert(i != m);
        assert(s[i].local != s[m].local);
        if i != v {
            assert(s[i].local != s[v].local);
            assert(d[i]);
        }
    }
}

/// `m` is the next interval to visit.
spec fn visits_next(s: Seq<Interval>, done: Seq<bool>, m: int) -> bool {
    &&& 0 <= m < s.len()
    &&& !done[m]
    &&& forall|j: int| 0 <= j < s.len() && !done[j] && j != m ==> visits_before(s[m], s[j])
}

/// Visiting `m` without giving it a register keeps the scan's invariant.
proof fn lemma_step_skip(
    s: Seq<Interval>,
    d: Seq<bool>,
    asg: Seq<Option<usize>>,
    act: Seq<Interval>,
    count: nat,
    regs: nat,
    m: int,
)
    requires
        distinct_locals(s),
        forall|i: int| 0 <= i < s.len() ==> (#[trigger] s[i]).local < count,
        scan_inv(s, d, asg, act, count, regs),
        visits_next(s, d, m),
    ensures
        scan_inv(s, d.update(m, true), asg, act, count, regs),
{
    let nd = d.update(m, true);
    assert forall|l: int| 0 <= l < count && (#[trigger] asg[l]) is Some implies exists|i: int| 0 <= i < s.len() && nd[i] && s[i].local == l by {
        let i = choose|i: int| 0 <= i < s.len() && d[i] && s[i].local == l;
        assert(nd[i]);
    }
    assert forall|i: int, j: int|
        0 <= i < s.len() && 0 <= j < s.len() && i != j && #[trigger] nd[i] && #[trigger] nd[j]
            && asg[s[i].local as int] is Some && asg[s[i].local as int] == asg[s[j].local as int] implies disjoint(s[i], s[j]) by {
        assert(d[i] && d[j]);
    }
    assert forall|i: int, j: int| 0 <= i < s.len() && 0 <= j < s.len() && #[trigger] nd[i] && !#[trigger] nd[j] implies s[i].start <= s[j].start by {
        if i != m {
            assert(d[i] && !d[j]);
        } else {
            assert(visits_before(s[m], s[j]));
        }
    }
    assert forall|i: int, j: int|
        0 <= i < s.len() && 0 <= j < s.len() && #[trigger] nd[i] && !#[trigger] nd[j]
            && asg[s[i].local as int] is Some && !act.contains(s[i]) implies s[i].end < s[j].start by {
        assert(d[i] && !d[j]);
    }
    assert forall|a: int| 0 <= a < act.len() implies exists|i: int| 0 <= i < s.len() && nd[i] && s[i] == #[trigger] act[a] by {
        let i = choose|i: int| 0 <= i < s.len() && d[i] && s[i] == act[a];
        assert(nd[i]);
    }
}

/// Visiting `m` and giving it a register no live interval holds keeps the
/// scan's invariant.
proof fn lemma_step_assign(
    s: Seq<Interval>,
    d: Seq<bool>,
    asg: Seq<Option<usize>>,
    act: Seq<Interval>,
    count: nat,
    regs: nat,
    m: int,
    reg: usize,
)
    requires
        distinct_locals(s),
        forall|i: int| 0 <= i < s.len() ==> (#[trigger] s[i]).local < count,
        scan_inv(s, d, asg, act, count, regs),
        visits_next(s, d, m),
        reg < regs,
        forall|x: int| 0 <= x < act.len() ==> asg[(#[trigger] act[x]).local as int] != Some(reg),
    ensures
        scan_inv(s, d.update(m, true), asg.update(s[m].local as int, Some(reg)), act.push(s[m]), count, regs),
{
    let nd = d.update(m, true);
    let c = s[m].local as int;
    let na = asg.update(c, Some(reg));
    let nact = act.push(s[m]);
    assert(asg[c] is None);
    assert forall|l: int| 0 <= l < count && (#[trigger] na[l]) is Some implies na[l]->Some_0 < regs && exists|i: int| 0 <= i < s.len() && nd[i] && s[i].local == l by {
        if l == c {
            assert(nd[m] && s[m].local == l);
        } else {
            let i = choose|i: int| 0 <= i < s.len() && d[i] && s[i].local == l;
            assert(nd[i]);
        }
    }
    assert forall|i: int| 0 <= i < s.len() && !(#[trigger] nd[i]) implies na[s[i].local as int] is None by {
        assert(s[i].local != s[m].local);
    }
    assert forall|i: int, j: int|
        0 <= i < s.len() && 0 <= j < s.len() && i != j && #[trigger] nd[i] && #[trigger] nd[j]
            && na[s[i].local as int] is Some && na[s[i].local as int] == na[s[j].local as int] implies disjoint(s[i], s[j]) by {
        if i == m {
            assert(s[j].local != s[m].local);
            assert(d[j] && asg[s[j].local as int] == Some(reg));
            if act.contains(s[j]) {
                let x = choose|x: int| 0 <= x < act.len() && act[x] == s[j];
                assert(asg[act[x].local as int] != Some(reg));
            }
            assert(s[j].end < s[m].start);
        } else if j == m {
            assert(s[i].local != s[m].local);
            assert(d[i] && asg[s[i].local as int] == Some(reg));
            if act.contains(s[i]) {
                let x = choose|x: int| 0 <= x < act.len() && act[x] == s[i];
                assert(asg[act[x].local as int] != Some(reg));
            }
            assert(s[i].end < s[m].start);
        } else {
            assert(s[i].local != s[m].local && s[j].local != s[m].local);
            assert(d[i] && d[j]);
        }
    }
    assert forall|i: int, j: int| 0 <= i < s.len() && 0 <= j < s.len() && #[trigger] nd[i] && !#[trigger] nd[j] implies s[i].start <= s[j].start by {
        if i != m {
            assert(d[i] && !d[j]);
        } else {
            assert(visits_before(s[m], s[j]));
        }
    }
    assert forall|i: int, j: int|
        0 <= i < s.len() && 0 <= j < s.len() && #[trigger] nd[i] && !#[trigger] nd[j]
            && na[s[i].local as int] is Some && !nact.contains(s[i]) implies s[i].end < s[j].start by {
        if i == m {
            assert(nact[act.len() as int] == s[m]);
        } else {
            assert(s[i].local != s[m].local);
            assert(d[i] && !d[j]);
            if act.contains(s[i]) {
                let x = choose|x: int| 0 <= x < act.len() && act[x] == s[i];
                assert(nact[x] == s[i]);
            }
        }
    }
    assert forall|a: int| 0 <= a < nact.len() implies (exists|i: int| 0 <= i < s.len() && nd[i] && s[i] == #[trigger] nact[a]) && na[nact[a].local as int] is Some by {
        if a < act.len() {
            let i = choose|i: int| 0 <= i < s.len() && d[i] && s[i] == act[a];
            assert(nd[i] && nact[a] == act[a]);
            assert(s[i].local != s[m].local || i == m);
        } else {
            assert(nd[m] && nact[a] == s[m]);
        }
    }
    assert forall|a: int, b: int| 0 <= a < nact.len() && 0 <= b < nact.len() && a != b implies na[(#[trigger] nact[a]).local as int]
        != na[(#[trigger] nact[b]).local as int] by {
        if a < act.len() && b < act.len() {
            let i = choose|i: int| 0 <= i < s.len() && d[i] && s[i] == act[a];
            let k = choose|k: int| 0 <= k < s.len() && d[k] && s[k] == act[b];
            assert(i != m && k != m);
            assert(s[i].local != c && s[k].local != c);
        } else if a < act.len() {
            let i = choose|i: int| 0 <= i < s.len() && d[i] && s[i] == act[a];
            assert(i != m);
            assert(s[i].local != c);
            assert(asg[act[a].local as int] != Some(reg));
        } else {
            let k = choose|k: int| 0 <= k < s.len() && d[k] && s[k] == act[b];
            assert(k != m);
            assert(s[k].local != c);
            assert(asg[act[b].local as int] != Some(reg));
        }
    }
}

/// Visiting `m` and handing it the register of the live interval `act[v]`,
/// which goes to memory, keeps the scan's invariant.
proof fn lemma_step_evict(
    s: Seq<Interval>,
    d: Seq<bool>,
    asg: Seq<Option<usize>>,
    act: Seq<Interval>,
    count: nat,
    regs: nat,
    m: int,
    v: int,
    reg: usize,
)
    requires
        distinct_locals(s),
        forall|i: int| 0 <= i < s.len() ==> (#[trigger] s[i]).local < count,
        scan_inv(s, d, asg, act, count, regs),
        visits_next(s, d, m),
        0 <= v < act.len(),
        asg[act[v].local as int] == Some(reg),
    ensures
        scan_inv(
            s,
            d.update(m, true),
            asg.update(act[v].local as int, None).update(s[m].local as int, Some(reg)),
            act.remove(v).push(s[m]),
            count,
            regs,
        ),
{
    let nd = d.update(m, true);
    let c = s[m].local as int;
    let vl = act[v].local as int;
    let na = asg.update(vl, None).update(c, Some(reg));
    let rest = act.remove(v);
    let nact = rest.push(s[m]);
    assert(asg[c] is None);
    let iv = choose|i: int| 0 <= i < s.len() && d[i] && s[i] == act[v];
    assert(iv != m);
    assert(vl != c);
    assert(asg[vl] == Some(reg));
    assert(reg < regs);
    // The live intervals other than the victim keep their registers, which
    // are not the victim's.
    assert forall|a: int| 0 <= a < rest.len() implies {
        &&& (#[trigger] rest[a]).local as int != vl
        &&& rest[a].local as int != c
        &&& (exists|i: int| 0 <= i < s.len() && d[i] && s[i] == rest[a])
        &&& asg[rest[a].local as int] is Some
        &&& asg[rest[a].local as int] != Some(reg)
    } by {
        let a2 = if a < v { a } else { a + 1 };
        assert(rest[a] == act[a2]);
        assert(a2 != v);
        assert(asg[act[a2].local as int] != asg[act[v].local as int]);
        let i = choose|i: int| 0 <= i < s.len() && d[i] && s[i] == act[a2];
        assert(i != m);
    }
    assert forall|l: int| 0 <= l < count && (#[trigger] na[l]) is Some implies na[l]->Some_0 < regs && exists|i: int| 0 <= i < s.len() && nd[i] && s[i].local == l by {
        if l == c {
            assert(nd[m] && s[m].local == l);
        } else {
            assert(l != vl);
            let i = choose|i: int| 0 <= i < s.len() && d[i] && s[i].local == l;
            assert(nd[i]);
        }
    }
    assert forall|i: int| 0 <= i < s.len() && !(#[trigger] nd[i]) implies na[s[i].local as int] is None by {
        assert(s[i].local != s[m].local);
    }
    assert forall|i: int, j: int|
        0 <= i < s.len() && 0 <= j < s.len() && i != j && #[trigger] nd[i] && #[trigger] nd[j]
            && na[s[i].local as int] is Some && na[s[i].local as int] == na[s[j].local as int] implies disjoint(s[i], s[j]) by {
        if i == m || j == m {
            let o = if i == m { j } else { i };
            assert(s[o].local != s[m].local);
            assert(s[o].local as int != vl);
            assert(d[o] && asg[s[o].local as int] == Some(reg));
            if act.contains(s[o]) {
                let x = choose|x: int| 0 <= x < act.len() && act[x] == s[o];
                if x != v {
                    assert(asg[act[x].local as int] != asg[act[v].local as int]);
                }
            }
            assert(s[o].end < s[m].start);
        } else {
            assert(s[i].local != s[m].local && s[j].local != s[m].local);
            assert(s[i].local as int != vl);
            assert(d[i] && d[j]);
        }
    }
    assert forall|i: int, j: int| 0 <= i < s.len() && 0 <= j < s.len() && #[trigger] nd[i] && !#[trigger] nd[j] implies s[i].start <= s[j].start by {
        if i != m {
            assert(d[i] && !d[j]);
        } else {
            assert(visits_before(s[m], s[j]));
        }
    }
    assert forall|i: int, j: int|
        0 <= i < s.len() && 0 <= j < s.len() && #[trigger] nd[i] && !#[trigger] nd[j]
            && na[s[i].local as int] is Some && !nact.contains(s[i]) implies s[i].end < s[j].start by {
        if i == m {
            assert(nact[rest.len() as int] == s[m]);
        } else {
            assert(s[i].local != s[m].local);
            assert(s[i].local as int != vl);
            assert(d[i] && !d[j]);
            if act.contains(s[i]) {
                let x = choose|x: int| 0 <= x < act.len() && act[x] == s[i];
                assert(x != v);
                let a = if x < v { x } else { x - 1 };
                assert(rest[a] == act[x]);
                assert(nact[a] == s[i]);
            }
        }
    }
    assert forall|a: int| 0 <= a < nact.len() implies (exists|i: int| 0 <= i < s.len() && nd[i] && s[i] == #[trigger] nact[a]) && na[nact[a].local as int] is Some by {
        if a < rest.len() {
            let i = choose|i: int| 0 <= i < s.len() && d[i] && s[i] == rest[a];
            assert(nd[i] && nact[a] == rest[a]);
        } else {
            assert(nd[m] && nact[a] == s[m]);
        }
    }
    assert forall|a: int, b: int| 0 <= a < nact.len() && 0 <= b < nact.len() && a != b implies na[(#[trigger] nact[a]).local as int]
        != na[(#[trigger] nact[b]).local as int] by {
        if a < rest.len() && b < rest.len() {
            let a2 = if a < v { a } else { a + 1 };
            let b2 = if b < v { b } else { b + 1 };
            assert(rest[a] == act[a2] && rest[b] == act[b2]);
            assert(asg[act[a2].local as int] != asg[act[b2].local as int]);
        } else if a < rest.len() {
            assert(nact[a] == rest[a]);
        } else {
            assert(nact[b] == rest[b]);
        }
    }
}

/// The first interval, in visiting order, of those not yet visited.
fn next_to_visit(s: &Vec<Interval>, done: &Vec<bool>) -> (m: usize)
    requires
        done@.len() == s@.len(),
        distinct_locals(s@),
        exists|i: int| 0 <= i < s@.len() && !done@[i],
    ensures
        m < s@.len(),
        !done@[m as int],
        forall|j: int| 0 <= j < s@.len() && !done@[j] && j != m ==> visits_before(s@[m as int], s@[j]),
{
    let n = s.len();
    let mut m: usize = 0;
    while m < n && done[m]
        invariant
            m <= n == s@.len() == done@.len(),
            forall|i: int| 0 <= i < m ==> done@[i],
            exists|i: int| 0 <= i < n && !done@[i],
        decreases n - m,
    {
        m += 1;
    }
    let mut i: usize = m + 1;
    while i < n
        invariant
            m < n == s@.len() == done@.len(),
            distinct_locals(s@),
            !done@[m as int],
            m < i <= n,
            forall|j: int| 0 <= j < i && !done@[j] && j != m ==> visits_before(s@[m as int], s@[j]),
        decreases n - i,
    {
        if !done[i] && before(&s[i], &s[m]) {
            proof {
                assert forall|j: int| 0 <= j < i + 1 && !done@[j] && j != i implies visits_before(s@[i as int], s@[j]) by {
                    if j != m {
                        assert(visits_before(s@[m as int], s@[j]));
                    }
                }
            }
            m = i;
        } else {
            proof {
                if !done@[i as int] {
                    assert(s@[i as int].local != s@[m as int].local);
                }
            }
        }
        i += 1;
    }
    m
}

/// Assigns registers to the intervals of `s` by a linear scan in the order
/// `visits_before`, and answers with the register of each local, if any.
///
/// Two locals given the same register have intervals that share no position.
fn scan(s: &Vec<Interval>, count: usize, registers: usize) -> (assigned: Vec<Option<usize>>)
    requires
        distinct_locals(s@),
        forall|i: int| 0 <= i < s@.len() ==> (#[trigger] s@[i]).local < count && s@[i].start <= s@[i].end,
    ensures
        assigned@.len() == count,
        forall|l: int| 0 <= l < count && (#[trigger] assigned@[l]) is Some ==> {
            &&& assigned@[l]->Some_0 < registers
            &&& exists|i: int| 0 <= i < s@.len() && s@[i].local == l
        },
        forall|i: int, j: int|
            0 <= i < s@.len() && 0 <= j < s@.len() && i != j && assigned@[(#[trigger] s@[i]).local as int] is Some
                && assigned@[s@[i].local as int] == assigned@[(#[trigger] s@[j]).local as int] ==> disjoint(s@[i], s@[j]),
        forall|i: int| 0 <= i < s@.len() && assigned@[(#[trigger] s@[i]).local as int] is None ==> crowded(s@, i, registers as nat),
{
    let n = s.len();
    let mut assigned: Vec<Option<usize>> = Vec::new();
    let mut l: usize = 0;
    while l < count
        invariant
            l <= count,
            assigned@.len() == l,
            forall|m: int| 0 <= m < l ==> assigned@[m] is None,
        decreases count - l,
    {
        assigned.push(None);
        l += 1;
    }
    let mut done: Vec<bool> = Vec::new();
    let mut k: usize = 0;
    while k < n
        invariant
            k <= n == s@.len(),
            done@.len() == k,
            forall|m: int| 0 <= m < k ==> !done@[m],
        decreases n - k,
    {
        done.push(false);
        k += 1;
    }
    let mut active: Vec<Interval> = Vec::new();
    let mut remaining = n;
    proof {
        lemma_undone_all_false(done@);
    }
    while remaining > 0
        invariant
            n == s@.len(),
            distinct_locals(s@),
            forall|i: int| 0 <= i < s@.len() ==> (#[trigger] s@[i]).local < count && s@[i].start <= s@[i].end,
            scan_inv(s@, done@, assigned@, active@, count as nat, registers as nat),
            spill_inv(s@, done@, assigned@, registers as nat),
            remaining == undone(done@),
        decreases remaining,
    {
        proof {
            lemma_undone(done@);
        }
        let m = next_to_visit(s, &done);
        let current = s[m];
        // Expire what ended before this interval starts. Endpoints are
        // inclusive and an instruction reads before it writes, so an interval
        // ending exactly where the next begins could in fact share its
        // register; expiring strictly is the conservative reading.
        let mut kept: Vec<Interval> = Vec::new();
        let ghost mut from: Seq<int> = Seq::empty();
        let mut a: usize = 0;
        while a < active.len()
            invariant
                a <= active@.len(),
                from.len() == kept@.len(),
                forall|x: int| 0 <= x < kept@.len() ==> 0 <= #[trigger] from[x] < a && kept@[x] == active@[from[x]] && active@[from[x]].end >= current.start,
                forall|x: int, z: int| 0 <= x < z < kept@.len() ==> #[trigger] from[x] < #[trigger] from[z],
                forall|y: int| 0 <= y < a && (#[trigger] active@[y]).end >= current.start ==> kept@.contains(active@[y]),
                forall|x: int| 0 <= x < kept@.len() ==> (#[trigger] kept@[x]).end >= current.start,
            decreases active@.len() - a,
        {
            let other = active[a];
            let ghost before = kept@;
            if other.end >= current.start {
                kept.push(other);
                proof {
                    from = from.push(a as int);
                }
            }
            proof {
                assert forall|y: int| 0 <= y < a + 1 && (#[trigger] active@[y]).end >= current.start implies kept@.contains(active@[y]) by {
                    if y < a {
                        let x = choose|x: int| 0 <= x < before.len() && before[x] == active@[y];
                        assert(kept@[x] == active@[y]);
                    } else {
                        assert(kept@[before.len() as int] == active@[y]);
                    }
                }
            }
            a += 1;
        }
        let ghost old_active = active@;
        let ghost old_assigned = assigned@;
        let ghost old_done = done@;
        proof {
            assert forall|x: int| 0 <= x < kept@.len() implies (exists|i: int| 0 <= i < s@.len() && old_done[i] && s@[i] == #[trigger] kept@[x]) && old_assigned[kept@[x].local as int] is Some by {
                assert(old_active[from[x]] == kept@[x]);
            }
            assert forall|x: int, z: int| 0 <= x < kept@.len() && 0 <= z < kept@.len() && x != z implies old_assigned[(#[trigger] kept@[x]).local as int]
                != old_assigned[(#[trigger] kept@[z]).local as int] by {
                if x < z {
                    assert(from[x] < from[z]);
                } else {
                    assert(from[z] < from[x]);
                }
                assert(old_active[from[x]] == kept@[x] && old_active[from[z]] == kept@[z]);
            }
            // An interval that expired ended before this one starts, and so
            // before every interval not yet visited.
            assert forall|i: int, j: int|
                0 <= i < s@.len() && 0 <= j < s@.len() && #[trigger] old_done[i] && !#[trigger] old_done[j]
                    && old_assigned[s@[i].local as int] is Some && !kept@.contains(s@[i]) implies s@[i].end < s@[j].start by {
                if old_active.contains(s@[i]) {
                    let y = choose|y: int| 0 <= y < old_active.len() && old_active[y] == s@[i];
                    assert(old_active[y].end < current.start);
                    if j != m {
                        assert(visits_before(s@[m as int], s@[j]));
                    }
                }
            }
        }
        assert(scan_inv(s@, done@, assigned@, kept@, count as nat, registers as nat));
        active = kept;
        // A free register: one no interval still live holds.
        let mut free: Option<usize> = None;
        let mut r: usize = 0;
        proof {
            assert forall|y: int| 0 <= y < active@.len() implies (#[trigger] active@[y]).local < assigned@.len() by {
                let i = choose|i: int| 0 <= i < s@.len() && done@[i] && s@[i] == active@[y];
                assert(s@[i].local < count);
            }
        }
        while r < registers && free.is_none()
            invariant
                r <= registers,
                forall|y: int| 0 <= y < active@.len() ==> (#[trigger] active@[y]).local < assigned@.len(),
                free matches Some(f) ==> f < registers && forall|x: int| 0 <= x < active@.len() ==> assigned@[(#[trigger] active@[x]).local as int] != Some(f),
                free is None ==> forall|q: int| 0 <= q < r ==> #[trigger] held(assigned@, active@, q),
            decreases registers - r,
        {
            let mut taken = false;
            let mut x: usize = 0;
            while x < active.len()
                invariant
                    x <= active@.len(),
                    forall|y: int| 0 <= y < active@.len() ==> (#[trigger] active@[y]).local < assigned@.len(),
                    !taken ==> forall|y: int| 0 <= y < x ==> assigned@[(#[trigger] active@[y]).local as int] != Some(r),
                    taken ==> held(assigned@, active@, r as int),
                decreases active@.len() - x,
            {
                if assigned[active[x].local] == Some(r) {
                    taken = true;
                }
                x += 1;
            }
            if !taken {
                free = Some(r);
            }
            r += 1;
        }
        match free {
            Some(reg) => {
                proof {
                    lemma_step_assign(s@, done@, assigned@, active@, count as nat, registers as nat, m as int, reg);
                    lemma_spill_assign(s@, done@, assigned@, registers as nat, m as int, reg);
                }
                assigned.set(current.local, Some(reg));
                active.push(current);
            },
            None => {
                // Every register is taken. The interval that ends last is the
                // one whose register is doing the least work per instruction it
                // occupies, so it yields - unless the newcomer ends even later,
                // in which case the newcomer is the cheaper thing to leave in
                // memory.
                proof {
                    lemma_full(s@, done@, assigned@, active@, count as nat, registers as nat, m as int);
                    assert(crowded(s@, m as int, registers as nat));
                }
                let mut evicted = false;
                if active.len() > 0 {
                    let mut v: usize = 0;
                    let mut x: usize = 1;
                    while x < active.len()
                        invariant
                            v < active@.len(),
                            1 <= x <= active@.len(),
                        decreases active@.len() - x,
                    {
                        if active[x].end > active[v].end || (active[x].end == active[v].end
                            && active[x].local > active[v].local) {
                            v = x;
                        }
                        x += 1;
                    }
                    if active[v].end > current.end {
                        match assigned[active[v].local] {
                            Some(reg) => {
                                proof {
                                    let iv = choose|i: int| 0 <= i < s@.len() && done@[i] && s@[i] == active@[v as int];
                                    assert(s@[iv].start <= s@[m as int].start);
                                    assert(crowded(s@, iv, registers as nat));
                                    lemma_spill_evict(s@, done@, assigned@, registers as nat, m as int, iv, reg);
                                    lemma_step_evict(
                                        s@,
                                        done@,
                                        assigned@,
                                        active@,
                                        count as nat,
                                        registers as nat,
                                        m as int,
                                        v as int,
                                        reg,
                                    );
                                }
                                let victim = active[v].local;
                                assigned.set(victim, None);
                                assigned.set(current.local, Some(reg));
                                active.remove(v);
                                active.push(current);
                                evicted = true;
                            },
                            None => {},
                        }
                    }
                }
                if !evicted {
                    proof {
                        lemma_step_skip(s@, done@, assigned@, active@, count as nat, registers as nat, m as int);
                        lemma_spill_skip(s@, done@, assigned@, registers as nat, m as int);
                    }
                }
            },
        }
        done.set(m, true);
        proof {
            lemma_undone_update(old_done, m as int);
        }
        remaining -= 1;
    }
    proof {
        lemma_undone(done@);
        assert forall|i: int| 0 <= i < s@.len() && assigned@[(#[trigger] s@[i]).local as int] is None implies crowded(s@, i, registers as nat) by {
            assert(done@[i]);
        }
    }
    assigned
}


/// Every mention of local `a` comes before every mention of local `b`: some
/// position separates the two.
pub open spec fn apart(f: MirFunction, cfg: Cfg, a: LocalId, b: LocalId) -> bool {
    exists|x: int| #[trigger] separates(f, cfg, a, b, x)
}

/// Every mention of `a` is at or before position `x`, and every mention of
/// `b` after it.
pub open spec fn separates(f: MirFunction, cfg: Cfg, a: LocalId, b: LocalId, x: int) -> bool {
    &&& forall|p: int| #[trigger] mentioned_at(f, cfg, a, p) ==> p <= x
    &&& forall|q: int| #[trigger] mentioned_at(f, cfg, b, q) ==> x < q
}

/// What an interval of `f` promises: its local is one of the function's, and
/// every mention of it lies inside.
pub open spec fn covers(f: MirFunction, cfg: Cfg, iv: Interval) -> bool {
    &&& iv.local < f.locals@.len()
    &&& iv.start <= iv.end
    &&& forall|p: int| #[trigger] mentioned_at(f, cfg, iv.local, p) ==> iv.start <= p <= iv.end
}

/// `ivs` are live ranges of `f`: in local order, one for each local that is
/// mentioned at all, each holding every mention of its local.
pub open spec fn live_ranges(f: MirFunction, cfg: Cfg, ivs: Seq<Interval>) -> bool {
    &&& forall|j: int| 0 <= j < ivs.len() ==> covers(f, cfg, #[trigger] ivs[j])
    &&& forall|j: int, k: int| 0 <= j < k < ivs.len() ==> ivs[j].local < ivs[k].local
    &&& forall|l: LocalId, p: int|
        l < f.locals@.len() && #[trigger] mentioned_at(f, cfg, l, p) ==> exists|j: int|
            0 <= j < ivs.len() && ivs[j].local == l
}

/// Crowding in some of the intervals is crowding in all of them.
proof fn lemma_crowded_within(sub: Seq<Interval>, sup: Seq<Interval>, i: int, k: int, regs: nat)
    requires
        0 <= i < sub.len(),
        0 <= k < sup.len(),
        sub[i] == sup[k],
        forall|x: int| 0 <= x < sub.len() ==> sup.contains(#[trigger] sub[x]),
        crowded(sub, i, regs),
    ensures
        crowded(sup, k, regs),
{
    broadcast use vstd::seq_lib::seq_to_set_is_finite;

    let p = choose|p: int| sub[i].start <= p <= sub[i].end && #[trigger] live_at(sub, p).len() > regs;
    assert(live_at(sup, p).subset_of(sup.to_set()));
    vstd::set_lib::lemma_len_subset(live_at(sup, p), sup.to_set());
    assert forall|iv: Interval| live_at(sub, p).contains(iv) implies live_at(sup, p).contains(iv) by {
        let x = choose|x: int| 0 <= x < sub.len() && sub[x] == iv;
        assert(sup.contains(sub[x]));
    }
    vstd::set_lib::lemma_len_subset(live_at(sub, p), live_at(sup, p));
    assert(live_at(sup, p).len() > regs);
}

/// Assigns each local of `function` a register or a frame slot.
///
/// `registers` is how many allocatable registers the backend offers. `pinned`
/// marks locals the backend requires in memory - because it takes their
/// address, say - and is indexed by local id.
///
/// Two locals share a register only when every mention of one comes before
/// every mention of the other, so neither can overwrite the other's value. A
/// pinned local is always in memory, and the frame slots are numbered in
/// local order without gaps. Ties in the scan are broken by local id, so the
/// assignment is a function of the MIR alone. A local that is neither pinned
/// nor unmentioned is left in memory only where, at some position of its live
/// range, more values are live than there are registers.
pub fn allocate(function: &MirFunction, cfg: &Cfg, registers: usize, pinned: &[bool]) -> (a: Allocation)
    requires
        cfg.wf(),
        cfg.blocks() == function.blocks@,
        position_count(*function, *cfg) < usize::MAX,
    ensures
        a.places().len() == function.locals@.len(),
        forall|l: int|
            0 <= l < a.places().len() && (#[trigger] a.places()[l]) is Register ==> a.places()[l]->Register_0
                < registers,
        forall|l: int|
            0 <= l < a.places().len() && l < pinned@.len() && pinned@[l] ==> (#[trigger] a.places()[l]) is Memory,
        slots_without_gaps(a.places(), a.slots()),
        registers_listed(a.places(), a.registers()),
        forall|x: int, y: int|
            0 <= x < a.places().len() && 0 <= y < a.places().len() && x != y && (#[trigger] a.places()[x]) is Register
                && a.places()[x] == #[trigger] a.places()[y] ==> apart(*function, *cfg, x as LocalId, y as LocalId)
                || apart(*function, *cfg, y as LocalId, x as LocalId),
        exists|ivs: Seq<Interval>|
            #[trigger] live_ranges(*function, *cfg, ivs) && (forall|j: int|
                0 <= j < ivs.len() && (#[trigger] a.places()[ivs[j].local as int]) is Memory && !(ivs[j].local
                    < pinned@.len() && pinned@[ivs[j].local as int]) ==> crowded(ivs, j, registers as nat)) && (
            forall|j: int, k: int|
                0 <= j < ivs.len() && 0 <= k < ivs.len() && j != k && (#[trigger] a.places()[ivs[j].local as int]) is Register
                    && a.places()[ivs[j].local as int] == #[trigger] a.places()[ivs[k].local as int] ==> disjoint(ivs[j], ivs[k])),
        forall|ivs: Seq<Interval>|
            #[trigger] live_intervals_of(*function, *cfg, ivs) ==> forall|j: int, k: int|
                0 <= j < ivs.len() && 0 <= k < ivs.len() && j != k && (#[trigger] a.places()[ivs[j].local as int]) is Register
                    && a.places()[ivs[j].local as int] == #[trigger] a.places()[ivs[k].local as int] ==> disjoint(ivs[j], ivs[k]),
{
    let intervals = live_intervals(function, cfg);
    let count = function.locals.len();
    let mut eligible: Vec<Interval> = Vec::new();
    let ghost mut origin: Seq<int> = Seq::empty();
    let mut k: usize = 0;
    while k < intervals.len()
        invariant
            k <= intervals@.len(),
            count == function.locals@.len(),
            forall|j: int| 0 <= j < intervals@.len() ==> covers(*function, *cfg, #[trigger] intervals@[j]),
            forall|j: int, i: int| 0 <= j < i < intervals@.len() ==> intervals@[j].local < intervals@[i].local,
            forall|j: int| 0 <= j < eligible@.len() ==> covers(*function, *cfg, #[trigger] eligible@[j]),
            forall|j: int|
                0 <= j < eligible@.len() ==> !((#[trigger] eligible@[j]).local < pinned@.len() && pinned@[eligible@[j].local as int]),
            origin.len() == eligible@.len(),
            forall|j: int| 0 <= j < eligible@.len() ==> 0 <= #[trigger] origin[j] < k && intervals@[origin[j]] == eligible@[j],
            forall|j: int, i: int| 0 <= j < i < eligible@.len() ==> eligible@[j].local < eligible@[i].local,
            forall|j: int, i: int| 0 <= j < eligible@.len() && k <= i < intervals@.len() ==> eligible@[j].local < intervals@[i].local,
            forall|j: int|
                0 <= j < k && !((#[trigger] intervals@[j]).local < pinned@.len() && pinned@[intervals@[j].local as int])
                    ==> exists|e: int| 0 <= e < eligible@.len() && eligible@[e] == intervals@[j],
        decreases intervals@.len() - k,
    {
        let iv = intervals[k];
        let skip = iv.local < pinned.len() && pinned[iv.local];
        let ghost before = eligible@;
        if !skip {
            eligible.push(iv);
            proof {
                origin = origin.push(k as int);
            }
        }
        proof {
            assert forall|j: int|
                0 <= j < k + 1 && !((#[trigger] intervals@[j]).local < pinned@.len() && pinned@[intervals@[j].local as int])
                    implies exists|e: int| 0 <= e < eligible@.len() && eligible@[e] == intervals@[j] by {
                if j < k {
                    let e = choose|e: int| 0 <= e < before.len() && before[e] == intervals@[j];
                    assert(eligible@[e] == before[e]);
                } else {
                    assert(eligible@[before.len() as int] == intervals@[j]);
                }
            }
        }
        k += 1;
    }
    proof {
        assert forall|i: int| 0 <= i < eligible@.len() implies (#[trigger] eligible@[i]).local < count && eligible@[i].start <= eligible@[i].end by {
            assert(covers(*function, *cfg, eligible@[i]));
        }
        assert forall|i: int, j: int| 0 <= i < eligible@.len() && 0 <= j < eligible@.len() && i != j implies eligible@[i].local != eligible@[j].local by {
            if i < j {
                assert(eligible@[i].local < eligible@[j].local);
            } else {
                assert(eligible@[j].local < eligible@[i].local);
            }
        }
    }
    let assigned = scan(&eligible, count, registers);
    let mut locations: Vec<Location> = Vec::new();
    let mut slots: usize = 0;
    let mut l: usize = 0;
    while l < count
        invariant
            l <= count == assigned@.len(),
            locations@.len() == l,
            slots == memory_before(locations@, l as int),
            slots <= l,
            forall|m: int| 0 <= m < l ==> (#[trigger] locations@[m] is Register) == (assigned@[m] is Some),
            forall|m: int| 0 <= m < l && (#[trigger] assigned@[m]) is Some ==> locations@[m] == Location::Register(assigned@[m]->Some_0),
            forall|m: int| 0 <= m < l && (#[trigger] locations@[m]) is Memory ==> locations@[m]->Memory_0 == memory_before(locations@, m),
        decreases count - l,
    {
        let ghost before = locations@;
        match assigned[l] {
            Some(register) => {
                locations.push(Location::Register(register));
            },
            None => {
                locations.push(Location::Memory(slots));
            },
        }
        proof {
            lemma_memory_before_prefix(before, locations@, l as int);
            assert forall|m: int| 0 <= m < l + 1 && (#[trigger] locations@[m]) is Memory implies locations@[m]->Memory_0 == memory_before(locations@, m) by {
                lemma_memory_before_prefix(before, locations@, m);
            }
        }
        if assigned[l].is_none() {
            slots += 1;
        }
        l += 1;
    }
    let mut used: Vec<bool> = Vec::new();
    let mut r: usize = 0;
    while r < registers
        invariant
            r <= registers,
            used@.len() == r,
            forall|x: int| 0 <= x < r ==> !used@[x],
        decreases registers - r,
    {
        used.push(false);
        r += 1;
    }
    let mut l: usize = 0;
    while l < count
        invariant
            l <= count == assigned@.len() == locations@.len(),
            used@.len() == registers,
            forall|m: int| 0 <= m < count && (#[trigger] assigned@[m]) is Some ==> assigned@[m]->Some_0 < registers,
            forall|x: int| 0 <= x < registers ==> (#[trigger] used@[x] <==> exists|m: int| 0 <= m < l && assigned@[m] == Some(x as usize)),
        decreases count - l,
    {
        match assigned[l] {
            Some(register) => {
                used.set(register, true);
            },
            None => {},
        }
        proof {
            assert forall|x: int| 0 <= x < registers implies (#[trigger] used@[x] <==> exists|m: int| 0 <= m < l + 1 && assigned@[m] == Some(x as usize)) by {
                if used@[x] && !(assigned@[l as int] == Some(x as usize)) {
                    let m = choose|m: int| 0 <= m < l && assigned@[m] == Some(x as usize);
                }
            }
        }
        l += 1;
    }
    let mut used_registers: Vec<usize> = Vec::new();
    let mut r: usize = 0;
    while r < registers
        invariant
            r <= registers == used@.len(),
            forall|i: int, j: int| 0 <= i < j < used_registers@.len() ==> used_registers@[i] < used_registers@[j],
            forall|i: int| 0 <= i < used_registers@.len() ==> used_registers@[i] < r,
            forall|x: usize| (#[trigger] used_registers@.contains(x)) <==> (x < r && used@[x as int]),
        decreases registers - r,
    {
        let ghost before = used_registers@;
        if used[r] {
            used_registers.push(r);
        }
        proof {
            assert forall|x: usize| (#[trigger] used_registers@.contains(x)) <==> (x < r + 1 && used@[x as int]) by {
                if used_registers@.contains(x) {
                    let i = choose|i: int| 0 <= i < used_registers@.len() && used_registers@[i] == x;
                    if i < before.len() {
                        assert(before[i] == x);
                        assert(before.contains(x));
                    }
                }
                if x < r && used@[x as int] {
                    assert(before.contains(x));
                    let i = choose|i: int| 0 <= i < before.len() && before[i] == x;
                    assert(used_registers@[i] == x);
                }
                if x == r && used@[x as int] {
                    assert(used_registers@[used_registers@.len() - 1] == x);
                }
            }
        }
        r += 1;
    }
    let allocation = Allocation { locations, used_registers, memory_slots: slots };
    proof {
        let places = allocation.places();
        assert forall|x: usize| allocation.registers().contains(x) <==> exists|m: int| 0 <= m < places.len() && places[m] == Location::Register(x) by {
            if allocation.registers().contains(x) {
                let m = choose|m: int| 0 <= m < count && assigned@[m] == Some(x);
                assert(places[m] == Location::Register(x));
            }
            if exists|m: int| 0 <= m < places.len() && places[m] == Location::Register(x) {
                let m = choose|m: int| 0 <= m < places.len() && places[m] == Location::Register(x);
                assert(assigned@[m] is Some);
                assert(used@[x as int]);
            }
        }
        assert forall|l: int| 0 <= l < places.len() && l < pinned@.len() && pinned@[l] implies (#[trigger] places[l]) is Memory by {
            if assigned@[l] is Some {
                let i = choose|i: int| 0 <= i < eligible@.len() && eligible@[i].local == l;
            }
        }
        assert forall|x: int, y: int|
            0 <= x < places.len() && 0 <= y < places.len() && x != y && (#[trigger] places[x]) is Register
                && places[x] == #[trigger] places[y] implies apart(*function, *cfg, x as LocalId, y as LocalId)
                || apart(*function, *cfg, y as LocalId, x as LocalId) by {
            assert(assigned@[x] is Some && assigned@[y] is Some);
            assert(assigned@[x] == assigned@[y]);
            let i = choose|i: int| 0 <= i < eligible@.len() && eligible@[i].local == x;
            let j = choose|j: int| 0 <= j < eligible@.len() && eligible@[j].local == y;
            assert(disjoint(eligible@[i], eligible@[j]));
            assert(covers(*function, *cfg, eligible@[i]));
            assert(covers(*function, *cfg, eligible@[j]));
            if eligible@[i].end < eligible@[j].start {
                let sep = eligible@[i].end as int;
                assert(separates(*function, *cfg, x as LocalId, y as LocalId, sep));
            } else {
                let sep = eligible@[j].end as int;
                assert(separates(*function, *cfg, y as LocalId, x as LocalId, sep));
            }
        }
        assert forall|e: int| 0 <= e < eligible@.len() implies intervals@.contains(#[trigger] eligible@[e]) by {
            assert(intervals@[origin[e]] == eligible@[e]);
        }
        assert forall|j: int|
            0 <= j < intervals@.len() && (#[trigger] places[intervals@[j].local as int]) is Memory && !(intervals@[j].local
                < pinned@.len() && pinned@[intervals@[j].local as int]) implies crowded(intervals@, j, registers as nat) by {
            let e = choose|e: int| 0 <= e < eligible@.len() && eligible@[e] == intervals@[j];
            assert(covers(*function, *cfg, intervals@[j]));
            assert(assigned@[eligible@[e].local as int] is None);
            lemma_crowded_within(eligible@, intervals@, e, j, registers as nat);
        }
        assert(live_ranges(*function, *cfg, intervals@));
        assert forall|j: int, k: int|
            0 <= j < intervals@.len() && 0 <= k < intervals@.len() && j != k && (#[trigger] places[intervals@[j].local as int]) is Register
                && places[intervals@[j].local as int] == #[trigger] places[intervals@[k].local as int] implies disjoint(intervals@[j], intervals@[k]) by {
            let x = intervals@[j].local as int;
            let y = intervals@[k].local as int;
            assert(x != y) by {
                if j < k {
                    assert(intervals@[j].local < intervals@[k].local);
                } else {
                    assert(intervals@[k].local < intervals@[j].local);
                }
            }
            assert(assigned@[x] is Some && assigned@[y] is Some);
            assert(assigned@[x] == assigned@[y]);
            let i = choose|i: int| 0 <= i < eligible@.len() && eligible@[i].local == x;
            let i2 = choose|i2: int| 0 <= i2 < eligible@.len() && eligible@[i2].local == y;
            assert(disjoint(eligible@[i], eligible@[i2]));
            let oi = origin[i];
            let oi2 = origin[i2];
            assert(intervals@[oi] == eligible@[i]);
            assert(intervals@[oi2] == eligible@[i2]);
            assert(oi == j) by {
                if oi < j {
                    assert(intervals@[oi].local < intervals@[j].local);
                } else if j < oi {
                    assert(intervals@[j].local < intervals@[oi].local);
                }
            }
            assert(oi2 == k) by {
                if oi2 < k {
                    assert(intervals@[oi2].local < intervals@[k].local);
                } else if k < oi2 {
                    assert(intervals@[k].local < intervals@[oi2].local);
                }
            }
        }
        assert forall|ivs: Seq<Interval>| #[trigger] live_intervals_of(*function, *cfg, ivs) implies ivs == intervals@ by {
            lemma_live_intervals_unique(*function, *cfg, ivs, intervals@);
        }
    }
    allocation
}

} // verus!
