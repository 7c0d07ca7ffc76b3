//! The control-flow facts every pass over MIR shares: what an instruction
//! reads and writes, where a terminator goes, and which blocks the entry
//! reaches.
use crate::mir::{BasicBlock, BlockId, Instruction, LocalId, MirFunction, Terminator};
use vstd::prelude::*;

verus! {

/// The blocks a terminator may transfer control to, in order.
pub open spec fn spec_successors(t: Terminator) -> Seq<BlockId> {
    match t {
        Terminator::Goto(b) => seq![b],
        Terminator::Branch { then_block, else_block, .. } => seq![then_block, else_block],
        _ => Seq::empty(),
    }
}

/// The locals a terminator reads.
pub open spec fn spec_terminator_uses(t: Terminator) -> Seq<LocalId> {
    match t {
        Terminator::Return(Some(l)) => seq![l],
        Terminator::Branch { condition, .. } => seq![condition],
        _ => Seq::empty(),
    }
}

/// The local an instruction defines, if it defines one.
pub open spec fn spec_defs(i: Instruction) -> Option<LocalId> {
    match i {
        Instruction::ConstInt { dst, .. } => Some(dst),
        Instruction::ConstFloat { dst, .. } => Some(dst),
        Instruction::ConstBool { dst, .. } => Some(dst),
        Instruction::StringNew { dst, .. } => Some(dst),
        Instruction::Assign { dst, .. } => Some(dst),
        Instruction::AddressOf { dst, .. } => Some(dst),
        Instruction::Binary { dst, .. } => Some(dst),
        Instruction::Call { dst, .. } => Some(dst),
        Instruction::FnAddr { dst, .. } => Some(dst),
        Instruction::CallValue { dst, .. } => Some(dst),
        Instruction::StructNew { dst, .. } => Some(dst),
        Instruction::FieldLoad { dst, .. } => Some(dst),
        Instruction::Load { dst, .. } => Some(dst),
        Instruction::FieldAddr { dst, .. } => Some(dst),
        Instruction::EnumNew { dst, .. } => Some(dst),
        Instruction::EnumTag { dst, .. } => Some(dst),
        Instruction::EnumFieldLoad { dst, .. } => Some(dst),
        Instruction::EnumFieldAddr { dst, .. } => Some(dst),
        Instruction::VolatileLoad { dst, .. } => Some(dst),
        Instruction::Drop { .. } => None,
        Instruction::FieldStore { .. } => None,
        Instruction::EnumFieldStore { .. } => None,
        Instruction::Free { .. } => None,
        Instruction::VolatileStore { .. } => None,
    }
}

/// The locals an instruction reads, in operand order.
pub open spec fn spec_uses(i: Instruction) -> Seq<LocalId> {
    match i {
        Instruction::Assign { src, .. } => seq![src],
        Instruction::AddressOf { src, .. } => seq![src],
        Instruction::Binary { lhs, rhs, .. } => seq![lhs, rhs],
        Instruction::Call { args, .. } => args@,
        Instruction::CallValue { callee, args, .. } => seq![callee] + args@,
        Instruction::Drop { local, .. } => seq![local],
        Instruction::StructNew { fields, .. } => fields@,
        Instruction::FieldLoad { base, .. } => seq![base],
        Instruction::Load { src, .. } => seq![src],
        Instruction::FieldAddr { base, .. } => seq![base],
        Instruction::EnumNew { fields, .. } => fields@,
        Instruction::EnumTag { base, .. } => seq![base],
        Instruction::EnumFieldLoad { base, .. } => seq![base],
        Instruction::EnumFieldAddr { base, .. } => seq![base],
        Instruction::FieldStore { base, src, .. } => seq![base, src],
        Instruction::EnumFieldStore { base, src, .. } => seq![base, src],
        Instruction::Free { local } => seq![local],
        Instruction::VolatileLoad { addr, .. } => seq![addr],
        Instruction::VolatileStore { addr, src, .. } => seq![addr, src],
        _ => Seq::empty(),
    }
}

/// The blocks a terminator may transfer control to.
pub fn successors(t: &Terminator) -> (r: Vec<BlockId>)
    ensures
        r@ == spec_successors(*t),
{
    match t {
        Terminator::Goto(b) => vec![*b],
        Terminator::Branch { then_block, else_block, .. } => vec![*then_block, *else_block],
        _ => Vec::new(),
    }
}

/// The locals a terminator reads.
pub fn terminator_uses(t: &Terminator) -> (r: Vec<LocalId>)
    ensures
        r@ == spec_terminator_uses(*t),
{
    match t {
        Terminator::Return(Some(l)) => vec![*l],
        Terminator::Branch { condition, .. } => vec![*condition],
        _ => Vec::new(),
    }
}

/// The local an instruction defines, if any.
pub fn defs(i: &Instruction) -> (r: Option<LocalId>)
    ensures
        r == spec_defs(*i),
{
    match i {
        Instruction::ConstInt { dst, .. } => Some(*dst),
        Instruction::ConstFloat { dst, .. } => Some(*dst),
        Instruction::ConstBool { dst, .. } => Some(*dst),
        Instruction::StringNew { dst, .. } => Some(*dst),
        Instruction::Assign { dst, .. } => Some(*dst),
        Instruction::AddressOf { dst, .. } => Some(*dst),
        Instruction::Binary { dst, .. } => Some(*dst),
        Instruction::Call { dst, .. } => Some(*dst),
        Instruction::FnAddr { dst, .. } => Some(*dst),
        Instruction::CallValue { dst, .. } => Some(*dst),
        Instruction::StructNew { dst, .. } => Some(*dst),
        Instruction::FieldLoad { dst, .. } => Some(*dst),
        Instruction::Load { dst, .. } => Some(*dst),
        Instruction::FieldAddr { dst, .. } => Some(*dst),
        Instruction::EnumNew { dst, .. } => Some(*dst),
        Instruction::EnumTag { dst, .. } => Some(*dst),
        Instruction::EnumFieldLoad { dst, .. } => Some(*dst),
        Instruction::EnumFieldAddr { dst, .. } => Some(*dst),
        Instruction::VolatileLoad { dst, .. } => Some(*dst),
        Instruction::Drop { .. } => None,
        Instruction::FieldStore { .. } => None,
        Instruction::EnumFieldStore { .. } => None,
        Instruction::Free { .. } => None,
        Instruction::VolatileStore { .. } => None,
    }
}

fn append_all(out: &mut Vec<LocalId>, items: &Vec<LocalId>)
    ensures
        final(out)@ == old(out)@ + items@,
{
    let mut i: usize = 0;
    while i < items.len()
        invariant
            i <= items@.len(),
            out@ == old(out)@ + items@.subrange(0, i as int),
        decreases items@.len() - i,
    {
        out.push(items[i]);
        i += 1;
        assert(items@.subrange(0, i as int) =~= items@.subrange(0, i - 1).push(items@[i - 1]));
    }
    assert(items@.subrange(0, items@.len() as int) =~= items@);
}

/// Appends the locals an instruction reads to `out`.
pub fn uses(i: &Instruction, out: &mut Vec<LocalId>)
    ensures
        final(out)@ == old(out)@ + spec_uses(*i),
{
    match i {
        Instruction::Assign { src, .. } => out.push(*src),
        Instruction::AddressOf { src, .. } => out.push(*src),
        Instruction::Binary { lhs, rhs, .. } => {
            out.push(*lhs);
            out.push(*rhs);
        },
        Instruction::Call { args, .. } => append_all(out, args),
        Instruction::CallValue { callee, args, .. } => {
            out.push(*callee);
            append_all(out, args);
        },
        Instruction::Drop { local, .. } => out.push(*local),
        Instruction::StructNew { fields, .. } => append_all(out, fields),
        Instruction::FieldLoad { base, .. } => out.push(*base),
        Instruction::Load { src, .. } => out.push(*src),
        Instruction::FieldAddr { base, .. } => out.push(*base),
        Instruction::EnumNew { fields, .. } => append_all(out, fields),
        Instruction::EnumTag { base, .. } => out.push(*base),
        Instruction::EnumFieldLoad { base, .. } => out.push(*base),
        Instruction::EnumFieldAddr { base, .. } => out.push(*base),
        Instruction::FieldStore { base, src, .. } => {
            out.push(*base);
            out.push(*src);
        },
        Instruction::EnumFieldStore { base, src, .. } => {
            out.push(*base);
            out.push(*src);
        },
        Instruction::Free { local } => out.push(*local),
        Instruction::VolatileLoad { addr, .. } => out.push(*addr),
        Instruction::VolatileStore { addr, src, .. } => {
            out.push(*addr);
            out.push(*src);
        },
        _ => {},
    }
    assert(final(out)@ =~= old(out)@ + spec_uses(*i));
}

/// `path` walks the control-flow graph of `blocks` from `entry`: it starts
/// there, stays in range, and each step follows an edge.
pub open spec fn is_path(blocks: Seq<BasicBlock>, entry: int, path: Seq<int>) -> bool {
    &&& path.len() > 0
    &&& path[0] == entry
    &&& forall|k: int| 0 <= k < path.len() ==> 0 <= #[trigger] path[k] < blocks.len()
    &&& forall|k: int|
        0 <= k < path.len() - 1 ==> spec_successors(blocks[#[trigger] path[k]].terminator).contains(
            path[k + 1] as BlockId,
        )
}

/// Block `b` is reachable from `entry`.
pub open spec fn reaches(blocks: Seq<BasicBlock>, entry: int, b: int) -> bool {
    exists|path: Seq<int>| is_path(blocks, entry, path) && path.last() == b
}

/// The control-flow graph of a function: which blocks its entry reaches, the
/// order a forward analysis visits them in, and each block's reachable
/// predecessors.
pub struct Cfg {
    reachable: Vec<bool>,
    order: Vec<BlockId>,
    predecessors: Vec<Vec<BlockId>>,
    ghost_blocks: Ghost<Seq<BasicBlock>>,
    ghost_entry: Ghost<int>,
}

impl Cfg {
    /// The blocks this graph was built from.
    pub closed spec fn blocks(&self) -> Seq<BasicBlock> {
        self.ghost_blocks@
    }

    /// The entry this graph was built from.
    pub closed spec fn entry(&self) -> int {
        self.ghost_entry@
    }

    /// The order a forward analysis visits blocks in.
    pub closed spec fn visit_order(&self) -> Seq<BlockId> {
        self.order@
    }

    /// Each block's reachable predecessors.
    pub closed spec fn preds(&self, b: int) -> Seq<BlockId> {
        self.predecessors@[b]@
    }

    /// How many predecessor lists the graph holds.
    pub closed spec fn pred_count(&self) -> nat {
        self.predecessors@.len()
    }

    /// What every graph says of itself: the order holds each reachable block
    /// exactly once and nothing else, and the predecessor lists are exactly
    /// the reachable blocks with an edge to the block, ascending.
    pub open spec fn wf(&self) -> bool {
        let blocks = self.blocks();
        let entry = self.entry();
        let order = self.visit_order();
        &&& self.pred_count() == blocks.len()
        &&& forall|k: int| 0 <= k < order.len() ==> (#[trigger] order[k]) < blocks.len()
        &&& forall|k: int| 0 <= k < order.len() ==> reaches(blocks, entry, #[trigger] order[k] as int)
        &&& forall|b: int| 0 <= b < blocks.len() && reaches(blocks, entry, b) ==> order.contains(b as BlockId)
        &&& forall|j: int, k: int| 0 <= j < k < order.len() ==> order[j] != order[k]
        &&& forall|b: int, k: int|
            0 <= b < blocks.len() && 0 <= k < self.preds(b).len() ==> {
                let p = #[trigger] self.preds(b)[k] as int;
                &&& 0 <= p < blocks.len()
                &&& reaches(blocks, entry, p)
                &&& spec_successors(blocks[p].terminator).contains(b as BlockId)
            }
        &&& forall|b: int, j: int, k: int|
            0 <= b < blocks.len() && 0 <= j < k < self.preds(b).len() ==> self.preds(b)[j]
                < self.preds(b)[k]
        &&& forall|b: int, p: int|
            0 <= b < blocks.len() && 0 <= p < blocks.len() && reaches(blocks, entry, p)
                && #[trigger] spec_successors(blocks[p].terminator).contains(b as BlockId)
                ==> #[trigger] self.preds(b).contains(p as BlockId)
    }

    /// Builds the graph of `function`.
    pub fn new(function: &MirFunction) -> (cfg: Cfg)
        ensures
            cfg.blocks() == function.blocks@,
            cfg.entry() == function.entry as int,
            cfg.wf(),
    {
        let blocks = &function.blocks;
        let n = blocks.len();
        let entry = function.entry;
        let ghost bs = blocks@;
        let mut reachable: Vec<bool> = Vec::new();
        while reachable.len() < n
            invariant
                reachable@.len() <= n,
                forall|b: int| 0 <= b < reachable@.len() ==> !reachable@[b],
            decreases n - reachable@.len(),
        {
            reachable.push(false);
        }
        let mut order: Vec<BlockId> = Vec::new();
        if entry < n {
            reachable.set(entry, true);
            order.push(entry);
            proof {
                let path = seq![entry as int];
                assert(is_path(bs, entry as int, path));
                assert(path.last() == entry as int);
                assert(reaches(bs, entry as int, entry as int));
                assert(order@[0] == entry);
                assert forall|c: int| 0 <= c < n && reachable@[c] implies order@.contains(c as BlockId) by {
                    assert(c == entry);
                }
            }
        }
        let mut head: usize = 0;
        while head < order.len()
            invariant
                n == bs.len(),
                bs == blocks@,
                bfs_inv(bs, entry as int, reachable@, order@),
                head <= order@.len(),
                forall|k: int, t: int|
                    0 <= k < head && 0 <= t < n && spec_successors(
                        bs[#[trigger] order@[k] as int].terminator,
                    ).contains(t as BlockId) ==> #[trigger] reachable@[t],
                entry < n ==> reachable@[entry as int],
            decreases n - head,
        {
            proof {
                lemma_distinct_below(order@, n as nat);
            }
            let b = order[head];
            let targets = successors(&blocks[b].terminator);
            let mut i: usize = 0;
            while i < targets.len()
                invariant
                    n == bs.len(),
                    bs == blocks@,
                    bfs_inv(bs, entry as int, reachable@, order@),
                    head < order@.len(),
                    b == order@[head as int],
                    targets@ == spec_successors(bs[b as int].terminator),
                    i <= targets@.len(),
                    forall|k: int, t: int|
                        0 <= k < head && 0 <= t < n && spec_successors(
                            bs[#[trigger] order@[k] as int].terminator,
                        ).contains(t as BlockId) ==> #[trigger] reachable@[t],
                    forall|j: int|
                        0 <= j < i && targets@[j] < n ==> reachable@[#[trigger] targets@[j] as int],
                    entry < n ==> reachable@[entry as int],
                decreases targets@.len() - i,
            {
                let t = targets[i];
                assert(targets@.contains(t));
                mark(Ghost(bs), Ghost(entry as int), &mut reachable, &mut order, b, t);
                i += 1;
            }
            proof {
                assert forall|k: int, t: int|
                    0 <= k < head + 1 && 0 <= t < n && spec_successors(
                        bs[#[trigger] order@[k] as int].terminator,
                    ).contains(t as BlockId) implies #[trigger] reachable@[t] by {
                    if k == head {
                        let j = choose|j: int| 0 <= j < targets@.len() && targets@[j] == t;
                        assert(targets@[j] < n);
                    }
                }
            }
            head += 1;
        }
        // Every reachable block was marked: the marked set contains the entry
        // and is closed under edges.
        proof {
            assert forall|b: int| 0 <= b < n && reaches(bs, entry as int, b) implies order@.contains(
                b as BlockId,
            ) by {
                let path = choose|path: Seq<int>| is_path(bs, entry as int, path) && path.last() == b;
                lemma_closed_marks_path(bs, entry as int, reachable@, order@, path);
            }
        }
        let mut predecessors: Vec<Vec<BlockId>> = Vec::new();
        while predecessors.len() < n
            invariant
                n == bs.len(),
                bs == blocks@,
                reachable@.len() == n,
                predecessors@.len() <= n,
                forall|b: int, k: int|
                    0 <= b < predecessors@.len() && 0 <= k < predecessors@[b]@.len() ==> {
                        let q = #[trigger] predecessors@[b]@[k] as int;
                        &&& 0 <= q < n
                        &&& reachable@[q]
                        &&& spec_successors(bs[q].terminator).contains(b as BlockId)
                    },
                forall|b: int, j: int, k: int|
                    0 <= b < predecessors@.len() && 0 <= j < k < predecessors@[b]@.len()
                        ==> predecessors@[b]@[j] < predecessors@[b]@[k],
                forall|b: int, q: int|
                    0 <= b < predecessors@.len() && 0 <= q < n && reachable@[q]
                        && #[trigger] spec_successors(bs[q].terminator).contains(b as BlockId)
                        ==> #[trigger] predecessors@[b]@.contains(q as BlockId),
            decreases n - predecessors@.len(),
        {
            let b = predecessors.len();
            let list = Self::predecessors_of(blocks, &reachable, b);
            predecessors.push(list);
        }
        Cfg {
            reachable,
            order,
            predecessors,
            ghost_blocks: Ghost(bs),
            ghost_entry: Ghost(entry as int),
        }
    }

    fn predecessors_of(blocks: &Vec<BasicBlock>, reachable: &Vec<bool>, b: BlockId) -> (list: Vec<
        BlockId,
    >)
        requires
            reachable@.len() == blocks@.len(),
        ensures
            forall|k: int|
                0 <= k < list@.len() ==> {
                    let q = #[trigger] list@[k] as int;
                    &&& 0 <= q < blocks@.len()
                    &&& reachable@[q]
                    &&& spec_successors(blocks@[q].terminator).contains(b)
                },
            forall|j: int, k: int| 0 <= j < k < list@.len() ==> list@[j] < list@[k],
            forall|q: int|
                0 <= q < blocks@.len() && reachable@[q] && spec_successors(
                    blocks@[q].terminator,
                ).contains(b) ==> list@.contains(q as BlockId),
    {
        let mut list: Vec<BlockId> = Vec::new();
        let mut q: usize = 0;
        while q < blocks.len()
            invariant
                reachable@.len() == blocks@.len(),
                q <= blocks@.len(),
                forall|k: int|
                    0 <= k < list@.len() ==> {
                        let r = #[trigger] list@[k] as int;
                        &&& 0 <= r < q
                        &&& reachable@[r]
                        &&& spec_successors(blocks@[r].terminator).contains(b)
                    },
                forall|j: int, k: int| 0 <= j < k < list@.len() ==> list@[j] < list@[k],
                forall|r: int|
                    0 <= r < q && reachable@[r] && spec_successors(blocks@[r].terminator).contains(b)
                        ==> list@.contains(r as BlockId),
            decreases blocks@.len() - q,
        {
            if reachable[q] {
                let targets = successors(&blocks[q].terminator);
                let mut edge = false;
                let mut i: usize = 0;
                while i < targets.len()
                    invariant
                        i <= targets@.len(),
                        edge <==> exists|j: int| 0 <= j < i && targets@[j] == b,
                    decreases targets@.len() - i,
                {
                    if targets[i] == b {
                        edge = true;
                    }
                    i += 1;
                }
                assert(edge <==> targets@.contains(b));
                if edge {
                    let ghost before = list@;
                    list.push(q);
                    proof {
                        assert forall|r: int|
                            0 <= r < q + 1 && reachable@[r] && spec_successors(
                                blocks@[r].terminator,
                            ).contains(b) implies list@.contains(r as BlockId) by {
                            if r < q {
                                let k = choose|k: int| 0 <= k < before.len() && before[k] == r;
                                assert(list@[k] == r);
                            } else {
                                assert(list@[list@.len() - 1] == r);
                            }
                        }
                    }
                }
            }
            q += 1;
        }
        list
    }

    /// The order a forward analysis visits the reachable blocks in.
    pub fn order(&self) -> (r: &Vec<BlockId>)
        ensures
            r@ == self.visit_order(),
    {
        &self.order
    }

    /// Whether the entry reaches `block`.
    pub fn is_reachable(&self, block: BlockId) -> (r: bool)
        requires
            self.wf(),
            block < self.blocks().len(),
        ensures
            r == reaches(self.blocks(), self.entry(), block as int),
    {
        let r = self.reachable_in_order(block);
        proof {
            if r {
                let k = choose|k: int| 0 <= k < self.order@.len() && self.order@[k] == block;
                assert(self.visit_order()[k] == block);
                assert(reaches(self.blocks(), self.entry(), self.visit_order()[k] as int));
            }
        }
        r
    }

    fn reachable_in_order(&self, block: BlockId) -> (r: bool)
        requires
            self.wf(),
            block < self.blocks().len(),
        ensures
            r == self.order@.contains(block),
    {
        let mut i: usize = 0;
        while i < self.order.len()
            invariant
                i <= self.order@.len(),
                forall|k: int| 0 <= k < i ==> self.order@[k] != block,
            decreases self.order@.len() - i,
        {
            if self.order[i] == block {
                return true;
            }
            i += 1;
        }
        false
    }

    /// The reachable blocks with an edge to `block`, ascending.
    pub fn predecessors(&self, block: BlockId) -> (r: &Vec<BlockId>)
        requires
            self.wf(),
            block < self.blocks().len(),
        ensures
            r@ == self.preds(block as int),
    {
        &self.predecessors[block]
    }
}

/// What a breadth-first walk keeps true of the blocks it has marked and the
/// order it marked them in.
pub open spec fn bfs_inv(bs: Seq<BasicBlock>, entry: int, reachable: Seq<bool>, order: Seq<BlockId>) -> bool {
    &&& reachable.len() == bs.len()
    &&& forall|k: int| 0 <= k < order.len() ==> (#[trigger] order[k]) < bs.len()
    &&& forall|k: int| 0 <= k < order.len() ==> reachable[#[trigger] order[k] as int]
    &&& forall|k: int| 0 <= k < order.len() ==> reaches(bs, entry, #[trigger] order[k] as int)
    &&& forall|c: int| 0 <= c < bs.len() && reachable[c] ==> order.contains(c as BlockId)
    &&& forall|j: int, k: int| 0 <= j < k < order.len() ==> order[j] != order[k]
}

/// Marks `t`, a successor of the reachable block `b`, if it is in range and
/// not marked yet.
fn mark(
    Ghost(bs): Ghost<Seq<BasicBlock>>,
    Ghost(entry): Ghost<int>,
    reachable: &mut Vec<bool>,
    order: &mut Vec<BlockId>,
    b: BlockId,
    t: BlockId,
)
    requires
        bfs_inv(bs, entry, old(reachable)@, old(order)@),
        (b as int) < bs.len(),
        reaches(bs, entry, b as int),
        spec_successors(bs[b as int].terminator).contains(t),
    ensures
        bfs_inv(bs, entry, final(reachable)@, final(order)@),
        forall|c: int| 0 <= c < bs.len() && old(reachable)@[c] ==> final(reachable)@[c],
        (t as int) < bs.len() ==> final(reachable)@[t as int],
        final(order)@.len() >= old(order)@.len(),
        forall|k: int| 0 <= k < old(order)@.len() ==> final(order)@[k] == old(order)@[k],
{
    if t < reachable.len() && !reachable[t] {
        let ghost before = order@;
        proof {
            let path = choose|path: Seq<int>| is_path(bs, entry, path) && path.last() == b as int;
            let longer = path.push(t as int);
            assert(longer[longer.len() - 2] == b as int);
            assert(is_path(bs, entry, longer));
            assert(longer.last() == t as int);
            assert forall|k: int| 0 <= k < before.len() implies before[k] != t by {
                if before[k] == t {
                    assert(reachable@[before[k] as int]);
                }
            }
        }
        reachable.set(t, true);
        order.push(t);
        proof {
            assert(order@[order@.len() - 1] == t);
            assert forall|c: int| 0 <= c < bs.len() && reachable@[c] implies order@.contains(
                c as BlockId,
            ) by {
                if c != t as int {
                    assert(before.contains(c as BlockId));
                    let k = choose|k: int| 0 <= k < before.len() && before[k] == c;
                    assert(order@[k] == c);
                }
            }
            assert forall|k: int| 0 <= k < order@.len() implies reaches(bs, entry, #[trigger] order@[k] as int) by {
                if k < before.len() {
                    assert(order@[k] == before[k]);
                }
            }
        }
    }
}

/// A sequence of distinct numbers below `n` has at most `n` of them.
proof fn lemma_distinct_below(s: Seq<BlockId>, n: nat)
    requires
        forall|k: int| 0 <= k < s.len() ==> (#[trigger] s[k]) < n,
        forall|j: int, k: int| 0 <= j < k < s.len() ==> s[j] != s[k],
    ensures
        s.len() <= n,
{
    let ints = s.map_values(|x: BlockId| x as int);
    assert(ints.no_duplicates()) by {
        assert forall|j: int, k: int| 0 <= j < ints.len() && 0 <= k < ints.len() && j != k implies ints[j] != ints[k] by {
            if j < k {
                assert(s[j] != s[k]);
            } else {
                assert(s[k] != s[j]);
            }
        }
    }
    ints.unique_seq_to_set();
    vstd::set_lib::lemma_int_range(0, n as int);
    assert(ints.to_set().subset_of(vstd::set_lib::set_int_range(0, n as int)));
    vstd::set_lib::lemma_len_subset(ints.to_set(), vstd::set_lib::set_int_range(0, n as int));
}

proof fn lemma_closed_marks_path(
    bs: Seq<BasicBlock>,
    entry: int,
    reachable: Seq<bool>,
    order: Seq<BlockId>,
    path: Seq<int>,
)
    requires
        is_path(bs, entry, path),
        bs.len() <= usize::MAX,
        reachable.len() == bs.len(),
        reachable[entry],
        forall|b: int| 0 <= b < bs.len() && reachable[b] ==> order.contains(b as BlockId),
        forall|k: int, t: int|
            0 <= k < order.len() && 0 <= t < bs.len() && spec_successors(
                bs[#[trigger] order[k] as int].terminator,
            ).contains(t as BlockId) ==> #[trigger] reachable[t],
    ensures
        order.contains(path.last() as BlockId),
    decreases path.len(),
{
    if path.len() == 1 {
        assert(reachable[path[0]]);
    } else {
        let prefix = path.drop_last();
        assert(is_path(bs, entry, prefix));
        lemma_closed_marks_path(bs, entry, reachable, order, prefix);
        let b = prefix.last();
        let k = choose|k: int| 0 <= k < order.len() && order[k] == b as BlockId;
        assert(path[path.len() - 2] == b);
        assert(spec_successors(bs[path[path.len() - 2]].terminator).contains(
            path[path.len() - 1] as BlockId,
        ));
        assert(prefix[prefix.len() - 1] == b);
        assert(0 <= b < bs.len());
        assert(order[k] as int == b);
        assert(0 <= path.last() < bs.len());
        assert(reachable[path.last()]);
    }
}


// ---------------------------------------------------------------- liveness

/// A local's live range: the first and the last position at which it holds
/// a value, both inclusive.
#[derive(Clone, Copy, Debug, PartialEq, Eq, Structural)]
pub struct Interval {
    pub local: LocalId,
    pub start: usize,
    pub end: usize,
}

/// The locals an instruction reads or writes.
pub open spec fn spec_mentions(i: Instruction) -> Seq<LocalId> {
    spec_uses(i) + match spec_defs(i) {
        Some(d) => seq![d],
        None => Seq::empty(),
    }
}

/// What each position of a block mentions: one position per statement, then
/// one for the terminator.
pub open spec fn block_mentions(b: BasicBlock) -> Seq<Seq<LocalId>> {
    Seq::new(
        (b.statements@.len() + 1) as nat,
        |i: int|
            if i < b.statements@.len() {
                spec_mentions(b.statements@[i].instruction)
            } else {
                spec_terminator_uses(b.terminator)
            },
    )
}

/// What each position mentions, numbering the blocks `order[..k]` one after
/// another.
pub open spec fn positions(blocks: Seq<BasicBlock>, order: Seq<BlockId>, k: int) -> Seq<Seq<LocalId>>
    decreases k,
{
    if k <= 0 {
        Seq::empty()
    } else {
        positions(blocks, order, k - 1) + block_mentions(blocks[order[k - 1] as int])
    }
}

/// Local `l` is read or written at position `p` of `f`, its reachable
/// blocks numbered in the order `cfg` visits them.
pub open spec fn mentioned_at(f: MirFunction, cfg: Cfg, l: LocalId, p: int) -> bool {
    let ps = positions(f.blocks@, cfg.visit_order(), cfg.visit_order().len() as int);
    0 <= p < ps.len() && ps[p].contains(l)
}

/// How many positions `f` has.
pub open spec fn position_count(f: MirFunction, cfg: Cfg) -> nat {
    positions(f.blocks@, cfg.visit_order(), cfg.visit_order().len() as int).len()
}

/// A prefix of the numbering is the numbering of fewer blocks.
proof fn lemma_positions_prefix(blocks: Seq<BasicBlock>, order: Seq<BlockId>, j: int, k: int)
    requires
        0 <= j <= k,
    ensures
        positions(blocks, order, j).len() <= positions(blocks, order, k).len(),
        positions(blocks, order, k).subrange(0, positions(blocks, order, j).len() as int)
            == positions(blocks, order, j),
    decreases k,
{
    if j < k {
        lemma_positions_prefix(blocks, order, j, k - 1);
        let a = positions(blocks, order, k - 1);
        let b = block_mentions(blocks[order[k - 1] as int]);
        assert((a + b).subrange(0, a.len() as int) =~= a);
        assert((a + b).subrange(0, positions(blocks, order, j).len() as int) =~= a.subrange(
            0,
            positions(blocks, order, j).len() as int,
        ));
    } else {
        assert(positions(blocks, order, k).subrange(0, positions(blocks, order, k).len() as int)
            =~= positions(blocks, order, k));
    }
}

/// What the scan over positions knows of local `l` once it has passed the
/// positions `seen`.
spec fn scanned(seen: Seq<Seq<LocalId>>, l: LocalId, first: Option<usize>, last: usize) -> bool {
    match first {
        None => forall|p: int| 0 <= p < seen.len() ==> !(#[trigger] seen[p]).contains(l),
        Some(s) => {
            &&& s <= last < seen.len()
            &&& seen[s as int].contains(l)
            &&& seen[last as int].contains(l)
            &&& forall|p: int| 0 <= p < seen.len() && (#[trigger] seen[p]).contains(l) ==> s <= p <= last
        },
    }
}

/// Notes every local of `mentioned` at position `pos`.
#[verifier::spinoff_prover]
#[verifier::rlimit(30)]
fn record(
    first: &mut Vec<Option<usize>>,
    last: &mut Vec<usize>,
    mentioned: &Vec<LocalId>,
    pos: usize,
    Ghost(seen): Ghost<Seq<Seq<LocalId>>>,
)
    requires
        old(first)@.len() == old(last)@.len(),
        pos == seen.len(),
        forall|l: int| 0 <= l < old(first)@.len() ==> scanned(seen, l as LocalId, old(first)@[l], old(last)@[l]),
    ensures
        final(first)@.len() == old(first)@.len(),
        final(last)@.len() == old(last)@.len(),
        forall|l: int|
            0 <= l < final(first)@.len() ==> scanned(seen.push(mentioned@), l as LocalId, final(first)@[l], final(last)@[l]),
{
    let ghost next = seen.push(mentioned@);
    let count = first.len();
    let mut j: usize = 0;
    while j < mentioned.len()
        invariant
            first@.len() == count == last@.len(),
            count == old(first)@.len(),
            count == old(last)@.len(),
            pos == seen.len(),
            next == seen.push(mentioned@),
            j <= mentioned@.len(),
            forall|l: LocalId|
                l < count && !mentioned@.subrange(0, j as int).contains(l) ==> {
                    &&& #[trigger] first@[l as int] == old(first)@[l as int]
                    &&& last@[l as int] == old(last)@[l as int]
                },
            forall|l: LocalId|
                l < count && #[trigger] mentioned@.subrange(0, j as int).contains(l) ==> {
                    &&& first@[l as int] is Some
                    &&& last@[l as int] == pos
                    &&& first@[l as int]->Some_0 <= pos
                    &&& next[first@[l as int]->Some_0 as int].contains(l)
                    &&& forall|p: int| 0 <= p < seen.len() && (#[trigger] seen[p]).contains(l) ==> first@[l as int]->Some_0 <= p
                },
            forall|l: int| 0 <= l < count ==> scanned(seen, l as LocalId, old(first)@[l], old(last)@[l]),
        decreases mentioned@.len() - j,
    {
        let l = mentioned[j];
        let ghost before_first = first@;
        let ghost before_last = last@;
        if l < count {
            match first[l] {
                None => {
                    first.set(l, Some(pos));
                },
                Some(_) => {},
            }
            last.set(l, pos);
            proof {
                assert(scanned(seen, l, old(first)@[l as int], old(last)@[l as int]));
                assert(next[pos as int] == mentioned@);
                assert(mentioned@[j as int] == l);
                assert(next[pos as int].contains(l));
                match old(first)@[l as int] {
                    Some(s0) => {
                        if before_first[l as int] == old(first)@[l as int] {
                            assert(next[s0 as int] == seen[s0 as int]);
                        }
                    },
                    None => {},
                }
            }
        }
        proof {
            assert(mentioned@.subrange(0, j + 1) =~= mentioned@.subrange(0, j as int).push(l));
            assert forall|m: LocalId| m < count && !#[trigger] mentioned@.subrange(0, j + 1).contains(m) implies !mentioned@.subrange(0, j as int).contains(m) && m != l by {
                if mentioned@.subrange(0, j as int).contains(m) {
                    let w = choose|w: int| 0 <= w < j && #[trigger] mentioned@.subrange(0, j as int)[w] == m;
                    assert(mentioned@.subrange(0, j + 1)[w] == m);
                }
                if m == l {
                    assert(mentioned@.subrange(0, j + 1)[j as int] == m);
                }
            }
            assert forall|m: LocalId| m < count && !mentioned@.subrange(0, j + 1).contains(m) implies #[trigger] first@[m as int] == old(first)@[m as int] && last@[m as int] == old(last)@[m as int] by {
                assert(!mentioned@.subrange(0, j as int).contains(m) && m != l);
                assert(before_first[m as int] == old(first)@[m as int]);
                assert(before_last[m as int] == old(last)@[m as int]);
            }
            assert forall|m: LocalId| m < count && #[trigger] mentioned@.subrange(0, j + 1).contains(m) implies mentioned@.subrange(0, j as int).contains(m) || m == l by {
                let w = choose|w: int| 0 <= w < j + 1 && #[trigger] mentioned@.subrange(0, j + 1)[w] == m;
                if w < j {
                    assert(mentioned@.subrange(0, j as int)[w] == m);
                }
            }
        }
        j += 1;
    }
    proof {
        assert(mentioned@.subrange(0, mentioned@.len() as int) =~= mentioned@);
        assert(next[seen.len() as int] == mentioned@);
        assert forall|l: int| 0 <= l < count implies scanned(next, l as LocalId, first@[l], last@[l]) by {
            let m = l as LocalId;
            if mentioned@.contains(m) {
                assert(mentioned@.subrange(0, mentioned@.len() as int).contains(m));
                assert(next[pos as int] == mentioned@);
                assert forall|p: int| 0 <= p < next.len() && (#[trigger] next[p]).contains(m) implies first@[l]->Some_0 <= p <= last@[l] by {
                    if p < seen.len() {
                        assert(next[p] == seen[p]);
                    }
                }
            } else {
                assert(!mentioned@.subrange(0, mentioned@.len() as int).contains(m));
                assert(first@[l] == old(first)@[l]);
                match old(first)@[l] {
                    None => {
                        assert forall|p: int| 0 <= p < next.len() implies !(#[trigger] next[p]).contains(m) by {
                            if p < seen.len() {
                                assert(next[p] == seen[p]);
                            }
                        }
                    },
                    Some(s) => {
                        assert(next[s as int] == seen[s as int]);
                        assert(next[last@[l] as int] == seen[last@[l] as int]);
                        assert forall|p: int| 0 <= p < next.len() && (#[trigger] next[p]).contains(m) implies s <= p <= last@[l] by {
                            if p < seen.len() {
                                assert(next[p] == seen[p]);
                            }
                        }
                    },
                }
            }
        }
    }
}

/// Where block `h` of the visit order starts among the positions.
pub open spec fn block_start(f: MirFunction, cfg: Cfg, h: int) -> int {
    positions(f.blocks@, cfg.visit_order(), h).len() as int
}

/// The last position of block `k` of the visit order.
pub open spec fn block_tail(f: MirFunction, cfg: Cfg, k: int) -> int {
    if block_start(f, cfg, k + 1) > 0 {
        block_start(f, cfg, k + 1) - 1
    } else {
        0
    }
}

/// Block `k` of the visit order jumps back to block `h`, which comes no
/// later in the order: `h` heads a loop whose last block is `k`.
pub open spec fn back_edge(f: MirFunction, cfg: Cfg, k: int, h: int) -> bool {
    &&& 0 <= h <= k < cfg.visit_order().len()
    &&& spec_successors(f.blocks@[cfg.visit_order()[k] as int].terminator).contains(cfg.visit_order()[h])
}

/// A live range from `s` to `e` respects loops: where it holds the start of
/// a loop's header, it reaches the end of the loop's last block.
pub open spec fn loop_closed(f: MirFunction, cfg: Cfg, s: int, e: int) -> bool {
    forall|k: int, h: int|
        #[trigger] back_edge(f, cfg, k, h) ==> !(s <= block_start(f, cfg, h) <= e && e < block_tail(f, cfg, k))
}

/// The live range of `l` that starts at `s` may end at `e`: no mention of
/// `l` comes after it, and the range respects loops.
pub open spec fn can_end(f: MirFunction, cfg: Cfg, l: LocalId, s: int, e: int) -> bool {
    &&& forall|p: int| #[trigger] mentioned_at(f, cfg, l, p) ==> p <= e
    &&& loop_closed(f, cfg, s, e)
}

/// `iv` is the live interval of its local: it starts at the local's first
/// mention and ends at the earliest position that can end it.
pub open spec fn live_interval_of(f: MirFunction, cfg: Cfg, iv: Interval) -> bool {
    &&& iv.local < f.locals@.len()
    &&& mentioned_at(f, cfg, iv.local, iv.start as int)
    &&& forall|p: int| #[trigger] mentioned_at(f, cfg, iv.local, p) ==> iv.start <= p
    &&& can_end(f, cfg, iv.local, iv.start as int, iv.end as int)
    &&& forall|e: int| #[trigger] can_end(f, cfg, iv.local, iv.start as int, e) ==> iv.end <= e
}

/// `ivs` are the live intervals of `f`: one for each local mentioned, in
/// local order.
pub open spec fn live_intervals_of(f: MirFunction, cfg: Cfg, ivs: Seq<Interval>) -> bool {
    &&& forall|j: int| 0 <= j < ivs.len() ==> live_interval_of(f, cfg, #[trigger] ivs[j])
    &&& forall|j: int, k: int| 0 <= j < k < ivs.len() ==> ivs[j].local < ivs[k].local
    &&& forall|l: LocalId, p: int|
        l < f.locals@.len() && #[trigger] mentioned_at(f, cfg, l, p) ==> exists|j: int| 0 <= j < ivs.len() && ivs[j].local == l
}

/// Strictly increasing lists holding the same values are the same list.
proof fn lemma_sorted_same(x: Seq<LocalId>, y: Seq<LocalId>)
    requires
        forall|i: int, j: int| 0 <= i < j < x.len() ==> x[i] < x[j],
        forall|i: int, j: int| 0 <= i < j < y.len() ==> y[i] < y[j],
        forall|i: int| 0 <= i < x.len() ==> y.contains(#[trigger] x[i]),
        forall|i: int| 0 <= i < y.len() ==> x.contains(#[trigger] y[i]),
    ensures
        x == y,
    decreases x.len() + y.len(),
{
    if x.len() == 0 {
        if y.len() > 0 {
            assert(x.contains(y[0]));
        }
        assert(x =~= y);
    } else if y.len() == 0 {
        assert(y.contains(x[0]));
    } else {
        assert(y.contains(x[0]));
        let a = choose|a: int| 0 <= a < y.len() && y[a] == x[0];
        assert(x.contains(y[0]));
        let b = choose|b: int| 0 <= b < x.len() && x[b] == y[0];
        if a > 0 {
            assert(y[0] < y[a]);
            if b > 0 {
                assert(x[0] < x[b]);
            }
        }
        if b > 0 {
            assert(x[0] < x[b]);
        }
        assert(x[0] == y[0]);
        let xs = x.skip(1);
        let ys = y.skip(1);
        assert forall|i: int| 0 <= i < xs.len() implies ys.contains(#[trigger] xs[i]) by {
            assert(xs[i] == x[i + 1]);
            assert(y.contains(x[i + 1]));
            let c = choose|c: int| 0 <= c < y.len() && y[c] == x[i + 1];
            assert(x[0] < x[i + 1]);
            assert(c > 0);
            assert(ys[c - 1] == y[c]);
        }
        assert forall|i: int| 0 <= i < ys.len() implies xs.contains(#[trigger] ys[i]) by {
            assert(ys[i] == y[i + 1]);
            assert(x.contains(y[i + 1]));
            let c = choose|c: int| 0 <= c < x.len() && x[c] == y[i + 1];
            assert(y[0] < y[i + 1]);
            assert(c > 0);
            assert(xs[c - 1] == x[c]);
        }
        lemma_sorted_same(xs, ys);
        assert(x =~= seq![x[0]] + xs);
        assert(y =~= seq![y[0]] + ys);
    }
}

/// A function has one list of live intervals: whatever satisfies the
/// description is the same list.
pub proof fn lemma_live_intervals_unique(f: MirFunction, cfg: Cfg, a: Seq<Interval>, b: Seq<Interval>)
    requires
        live_intervals_of(f, cfg, a),
        live_intervals_of(f, cfg, b),
    ensures
        a == b,
{
    let la = a.map_values(|iv: Interval| iv.local);
    let lb = b.map_values(|iv: Interval| iv.local);
    assert forall|i: int| 0 <= i < la.len() implies lb.contains(#[trigger] la[i]) by {
        assert(live_interval_of(f, cfg, a[i]));
        assert(mentioned_at(f, cfg, a[i].local, a[i].start as int));
        let j = choose|j: int| 0 <= j < b.len() && b[j].local == a[i].local;
        assert(lb[j] == la[i]);
    }
    assert forall|i: int| 0 <= i < lb.len() implies la.contains(#[trigger] lb[i]) by {
        assert(live_interval_of(f, cfg, b[i]));
        assert(mentioned_at(f, cfg, b[i].local, b[i].start as int));
        let j = choose|j: int| 0 <= j < a.len() && a[j].local == b[i].local;
        assert(la[j] == lb[i]);
    }
    lemma_sorted_same(la, lb);
    assert forall|i: int| 0 <= i < a.len() implies a[i] == b[i] by {
        assert(la[i] == lb[i]);
        let x = a[i];
        let y = b[i];
        assert(live_interval_of(f, cfg, x));
        assert(live_interval_of(f, cfg, y));
        assert(x.start <= y.start);
        assert(y.start <= x.start);
        assert(can_end(f, cfg, x.local, x.start as int, y.end as int));
        assert(can_end(f, cfg, y.local, y.start as int, x.end as int));
        assert(x.end <= y.end);
        assert(y.end <= x.end);
    }
    assert(a =~= b);
}

/// `pairs` lists the pair (start of the header, end of the last block) of
/// some loop.
spec fn listed(pairs: Seq<(usize, usize)>, a: int, b: int) -> bool {
    exists|i: int| 0 <= i < pairs.len() && pairs[i].0 == a && pairs[i].1 == b
}

/// `pair` is a loop of `f`: the start of its header and the end of its last
/// block.
spec fn pair_sound(f: MirFunction, cfg: Cfg, pair: (usize, usize)) -> bool {
    exists|k: int, h: int|
        #[trigger] back_edge(f, cfg, k, h) && pair.0 == block_start(f, cfg, h) && pair.1 == block_tail(f, cfg, k)
}

/// `pairs` are exactly the loops of `f`, each as the start of its header
/// and the end of its last block.
spec fn loops_listed(f: MirFunction, cfg: Cfg, pairs: Seq<(usize, usize)>) -> bool {
    &&& forall|i: int| 0 <= i < pairs.len() ==> pair_sound(f, cfg, #[trigger] pairs[i])
    &&& forall|k: int, h: int| #[trigger] back_edge(f, cfg, k, h) ==> listed(pairs, block_start(f, cfg, h), block_tail(f, cfg, k))
}

/// A range from `s` to `e` respects the loops `pairs`.
spec fn pairs_closed(pairs: Seq<(usize, usize)>, s: int, e: int) -> bool {
    forall|i: int| 0 <= i < pairs.len() ==> !(s <= (#[trigger] pairs[i]).0 <= e && e < pairs[i].1)
}

proof fn lemma_closed_iff(f: MirFunction, cfg: Cfg, pairs: Seq<(usize, usize)>, s: int, e: int)
    requires
        loops_listed(f, cfg, pairs),
    ensures
        pairs_closed(pairs, s, e) <==> loop_closed(f, cfg, s, e),
{
    if pairs_closed(pairs, s, e) {
        assert forall|k: int, h: int| #[trigger] back_edge(f, cfg, k, h) implies !(s <= block_start(f, cfg, h) <= e && e < block_tail(f, cfg, k)) by {
            assert(listed(pairs, block_start(f, cfg, h), block_tail(f, cfg, k)));
            let i = choose|i: int| 0 <= i < pairs.len() && pairs[i].0 == block_start(f, cfg, h) && pairs[i].1 == block_tail(f, cfg, k);
            assert(!(s <= pairs[i].0 <= e && e < pairs[i].1));
        }
    }
    if loop_closed(f, cfg, s, e) {
        assert forall|i: int| 0 <= i < pairs.len() implies !(s <= (#[trigger] pairs[i]).0 <= e && e < pairs[i].1) by {
            assert(pair_sound(f, cfg, pairs[i]));
            let (k, h) = choose|k: int, h: int|
                #[trigger] back_edge(f, cfg, k, h) && pairs[i].0 == block_start(f, cfg, h) && pairs[i].1 == block_tail(f, cfg, k);
            assert(back_edge(f, cfg, k, h));
        }
    }
}

fn holds(v: &Vec<BlockId>, x: BlockId) -> (r: bool)
    ensures
        r == v@.contains(x),
{
    let mut i: usize = 0;
    while i < v.len()
        invariant
            i <= v@.len(),
            forall|j: int| 0 <= j < i ==> v@[j] != x,
        decreases v@.len() - i,
    {
        if v[i] == x {
            return true;
        }
        i += 1;
    }
    false
}

/// The loops of `function`, each as the start of its header and the end of
/// its last block.
fn loops_of(function: &MirFunction, cfg: &Cfg, order: &Vec<BlockId>, starts: &Vec<usize>, pos: usize) -> (pairs: Vec<(usize, usize)>)
    requires
        cfg.wf(),
        cfg.blocks() == function.blocks@,
        order@ == cfg.visit_order(),
        starts@.len() == order@.len(),
        forall|j: int| 0 <= j < starts@.len() ==> #[trigger] starts@[j] == block_start(*function, *cfg, j),
        pos == block_start(*function, *cfg, order@.len() as int),
    ensures
        loops_listed(*function, *cfg, pairs@),
        forall|i: int| 0 <= i < pairs@.len() ==> (#[trigger] pairs@[i]).1 <= pos,
{
    let n = order.len();
    let mut pairs: Vec<(usize, usize)> = Vec::new();
    let mut k: usize = 0;
    while k < n
        invariant
            cfg.wf(),
            cfg.blocks() == function.blocks@,
            order@ == cfg.visit_order(),
            n == order@.len() == starts@.len(),
            forall|j: int| 0 <= j < starts@.len() ==> #[trigger] starts@[j] == block_start(*function, *cfg, j),
            pos == block_start(*function, *cfg, n as int),
            k <= n,
            forall|i: int| 0 <= i < pairs@.len() ==> pair_sound(*function, *cfg, #[trigger] pairs@[i]),
            forall|kk: int, hh: int|
                #[trigger] back_edge(*function, *cfg, kk, hh) && kk < k ==> listed(
                    pairs@,
                    block_start(*function, *cfg, hh),
                    block_tail(*function, *cfg, kk),
                ),
            forall|i: int| 0 <= i < pairs@.len() ==> (#[trigger] pairs@[i]).1 <= pos,
        decreases n - k,
    {
        proof {
            lemma_positions_prefix(function.blocks@, order@, k + 1, n as int);
        }
        let next = if k + 1 < n {
            starts[k + 1]
        } else {
            pos
        };
        let tail = if next > 0 {
            next - 1
        } else {
            0
        };
        assert(tail == block_tail(*function, *cfg, k as int));
        let targets = successors(&function.blocks[order[k]].terminator);
        let mut h: usize = 0;
        while h <= k
            invariant
                k < n == order@.len() == starts@.len(),
                order@ == cfg.visit_order(),
                forall|j: int| 0 <= j < starts@.len() ==> #[trigger] starts@[j] == block_start(*function, *cfg, j),
                tail == block_tail(*function, *cfg, k as int),
                tail <= pos,
                targets@ == spec_successors(function.blocks@[order@[k as int] as int].terminator),
                h <= k + 1,
                forall|i: int| 0 <= i < pairs@.len() ==> pair_sound(*function, *cfg, #[trigger] pairs@[i]),
                forall|kk: int, hh: int|
                    #[trigger] back_edge(*function, *cfg, kk, hh) && (kk < k || (kk == k && hh < h)) ==> listed(
                        pairs@,
                        block_start(*function, *cfg, hh),
                        block_tail(*function, *cfg, kk),
                    ),
                forall|i: int| 0 <= i < pairs@.len() ==> (#[trigger] pairs@[i]).1 <= pos,
            decreases k + 1 - h,
        {
            let ghost before = pairs@;
            if holds(&targets, order[h]) {
                pairs.push((starts[h], tail));
                proof {
                    assert(back_edge(*function, *cfg, k as int, h as int));
                    assert forall|i: int| 0 <= i < pairs@.len() implies pair_sound(*function, *cfg, #[trigger] pairs@[i]) by {
                        if i < before.len() {
                            assert(pairs@[i] == before[i]);
                        } else {
                            assert(back_edge(*function, *cfg, k as int, h as int));
                            assert(pairs@[i].0 == block_start(*function, *cfg, h as int));
                        }
                    }
                    assert forall|kk: int, hh: int|
                        #[trigger] back_edge(*function, *cfg, kk, hh) && (kk < k || (kk == k && hh < h + 1)) implies listed(
                            pairs@,
                            block_start(*function, *cfg, hh),
                            block_tail(*function, *cfg, kk),
                        ) by {
                        if kk < k || (kk == k && hh < h) {
                            let i = choose|i: int| 0 <= i < before.len() && before[i].0 == block_start(*function, *cfg, hh) && before[i].1 == block_tail(*function, *cfg, kk);
                            assert(pairs@[i] == before[i]);
                        } else {
                            assert(pairs@[before.len() as int].0 == block_start(*function, *cfg, hh));
                        }
                    }
                }
            } else {
                proof {
                    assert forall|kk: int, hh: int|
                        #[trigger] back_edge(*function, *cfg, kk, hh) && (kk < k || (kk == k && hh < h + 1)) implies listed(
                            pairs@,
                            block_start(*function, *cfg, hh),
                            block_tail(*function, *cfg, kk),
                        ) by {
                        if kk == k && hh == h {
                            assert(!back_edge(*function, *cfg, kk, hh));
                        }
                    }
                }
            }
            h += 1;
        }
        k += 1;
    }
    pairs
}

/// The earliest end at or after `e` of a range from `s` that respects the
/// loops `pairs`.
fn extend(s: usize, e: usize, pairs: &Vec<(usize, usize)>, pos: usize) -> (r: usize)
    requires
        e <= pos,
        forall|i: int| 0 <= i < pairs@.len() ==> (#[trigger] pairs@[i]).1 <= pos,
    ensures
        e <= r <= pos,
        pairs_closed(pairs@, s as int, r as int),
        forall|x: int| x >= e && #[trigger] pairs_closed(pairs@, s as int, x) ==> r <= x,
{
    let mut r = e;
    let mut done = false;
    while !done
        invariant
            e <= r <= pos,
            forall|i: int| 0 <= i < pairs@.len() ==> (#[trigger] pairs@[i]).1 <= pos,
            forall|x: int| x >= e && #[trigger] pairs_closed(pairs@, s as int, x) ==> r <= x,
            done ==> pairs_closed(pairs@, s as int, r as int),
        decreases pos - r + if done { 0int } else { 1int },
    {
        let r0 = r;
        let mut changed = false;
        let mut i: usize = 0;
        while i < pairs.len()
            invariant
                e <= r0 <= r <= pos,
                i <= pairs@.len(),
                forall|j: int| 0 <= j < pairs@.len() ==> (#[trigger] pairs@[j]).1 <= pos,
                forall|x: int| x >= e && #[trigger] pairs_closed(pairs@, s as int, x) ==> r <= x,
                changed ==> r > r0,
                !changed ==> r == r0,
                !changed ==> forall|j: int| 0 <= j < i ==> !(s <= (#[trigger] pairs@[j]).0 <= r && r < pairs@[j].1),
            decreases pairs@.len() - i,
        {
            let (a, b) = pairs[i];
            if s <= a && a <= r && r < b {
                proof {
                    assert forall|x: int| x >= e && #[trigger] pairs_closed(pairs@, s as int, x) implies b <= x by {
                        assert(r <= x);
                        assert(!(s <= pairs@[i as int].0 <= x && x < pairs@[i as int].1));
                    }
                }
                r = b;
                changed = true;
            }
            i += 1;
        }
        if !changed {
            done = true;
        }
    }
    r
}

/// The live interval of every local the reachable blocks mention.
///
/// Positions number every statement and every terminator of the reachable
/// blocks, in the order the graph visits them. An interval starts where its
/// local is first mentioned and ends no earlier than where it is last
/// mentioned; a local live into a loop is kept live to the end of the loop's
/// last block, so that a value carried round a back edge keeps its place.
pub fn live_intervals(function: &MirFunction, cfg: &Cfg) -> (intervals: Vec<Interval>)
    requires
        cfg.wf(),
        cfg.blocks() == function.blocks@,
        position_count(*function, *cfg) < usize::MAX,
    ensures
        forall|j: int|
            0 <= j < intervals@.len() ==> {
                &&& (#[trigger] intervals@[j]).local < function.locals@.len()
                &&& intervals@[j].start <= intervals@[j].end
                &&& forall|p: int| #[trigger] mentioned_at(*function, *cfg, intervals@[j].local, p) ==> intervals@[j].start <= p <= intervals@[j].end
            },
        forall|j: int, k: int| 0 <= j < k < intervals@.len() ==> intervals@[j].local < intervals@[k].local,
        forall|l: LocalId, p: int|
            l < function.locals@.len() && #[trigger] mentioned_at(*function, *cfg, l, p) ==> exists|j: int|
                0 <= j < intervals@.len() && intervals@[j].local == l,
        live_intervals_of(*function, *cfg, intervals@),
{
    let order = cfg.order();
    let ghost blocks = function.blocks@;
    let ghost all = positions(blocks, order@, order@.len() as int);
    let count = function.locals.len();
    let mut first: Vec<Option<usize>> = Vec::new();
    let mut last: Vec<usize> = Vec::new();
    let mut l: usize = 0;
    while l < count
        invariant
            l <= count == function.locals@.len(),
            first@.len() == l,
            last@.len() == l,
            forall|m: int| 0 <= m < l ==> first@[m] is None,
        decreases count - l,
    {
        first.push(None);
        last.push(0);
        l += 1;
    }
    let mut pos: usize = 0;
    let mut starts: Vec<usize> = Vec::new();
    let mut k: usize = 0;
    proof {
        lemma_positions_prefix(blocks, order@, 0, order@.len() as int);
    }
    while k < order.len()
        invariant
            cfg.wf(),
            cfg.blocks() == blocks,
            blocks == function.blocks@,
            order@ == cfg.visit_order(),
            all == positions(blocks, order@, order@.len() as int),
            all.len() < usize::MAX,
            k <= order@.len(),
            pos == positions(blocks, order@, k as int).len(),
            starts@.len() == k,
            forall|j: int| 0 <= j < k ==> #[trigger] starts@[j] < pos,
            forall|j: int| 0 <= j < k ==> #[trigger] starts@[j] == positions(blocks, order@, j).len(),
            first@.len() == count == last@.len(),
            forall|m: int| 0 <= m < count ==> scanned(positions(blocks, order@, k as int), m as LocalId, first@[m], last@[m]),
        decreases order@.len() - k,
    {
        proof {
            lemma_positions_prefix(blocks, order@, k + 1, order@.len() as int);
        }
        let b = order[k];
        let block = &function.blocks[b];
        let ghost before = positions(blocks, order@, k as int);
        let ghost bm = block_mentions(blocks[b as int]);
        starts.push(pos);
        let mut i: usize = 0;
        while i < block.statements.len()
            invariant
                block == &function.blocks@[b as int],
                blocks == function.blocks@,
                bm == block_mentions(blocks[b as int]),
                before.len() + bm.len() <= all.len() < usize::MAX,
                i <= block.statements@.len(),
                pos == before.len() + i,
                first@.len() == count == last@.len(),
                forall|m: int| 0 <= m < count ==> scanned(before + bm.take(i as int), m as LocalId, first@[m], last@[m]),
            decreases block.statements@.len() - i,
        {
            let mut mentioned: Vec<LocalId> = Vec::new();
            let instruction = &block.statements[i].instruction;
            uses(instruction, &mut mentioned);
            match defs(instruction) {
                Some(d) => mentioned.push(d),
                None => {},
            }
            assert(mentioned@ =~= bm[i as int]);
            assert(before + bm.take(i + 1) =~= (before + bm.take(i as int)).push(mentioned@));
            record(&mut first, &mut last, &mentioned, pos, Ghost(before + bm.take(i as int)));
            pos += 1;
            i += 1;
        }
        let mentioned = terminator_uses(&block.terminator);
        assert(mentioned@ =~= bm[i as int]);
        assert(before + bm.take(i + 1) =~= (before + bm.take(i as int)).push(mentioned@));
        record(&mut first, &mut last, &mentioned, pos, Ghost(before + bm.take(i as int)));
        pos += 1;
        assert(bm.take(i + 1) =~= bm);
        k += 1;
    }
    // A local live into a loop stays live to the end of the loop's last
    // block, which is where control goes back to its header.
    let pairs = loops_of(function, cfg, &order, &starts, pos);
    let mut intervals: Vec<Interval> = Vec::new();
    let mut m: usize = 0;
    while m < count
        invariant
            m <= count == function.locals@.len(),
            first@.len() == count == last@.len(),
            all == positions(function.blocks@, cfg.visit_order(), cfg.visit_order().len() as int),
            forall|x: int| 0 <= x < count ==> scanned(all, x as LocalId, first@[x], last@[x]),
            forall|j: int|
                0 <= j < intervals@.len() ==> {
                    &&& (#[trigger] intervals@[j]).local < m
                    &&& intervals@[j].start <= intervals@[j].end
                    &&& forall|p: int| #[trigger] mentioned_at(*function, *cfg, intervals@[j].local, p) ==> intervals@[j].start <= p <= intervals@[j].end
                },
            forall|j: int, k: int| 0 <= j < k < intervals@.len() ==> intervals@[j].local < intervals@[k].local,
            forall|x: LocalId, p: int|
                x < m && #[trigger] mentioned_at(*function, *cfg, x, p) ==> exists|j: int|
                    0 <= j < intervals@.len() && intervals@[j].local == x,
            forall|j: int| 0 <= j < intervals@.len() ==> live_interval_of(*function, *cfg, #[trigger] intervals@[j]),
            loops_listed(*function, *cfg, pairs@),
            forall|i: int| 0 <= i < pairs@.len() ==> (#[trigger] pairs@[i]).1 <= pos,
            pos == all.len(),
        decreases count - m,
    {
        let ghost before = intervals@;
        match first[m] {
            Some(s) => {
                proof {
                    assert(scanned(all, m as LocalId, first@[m as int], last@[m as int]));
                }
                let end = extend(s, last[m], &pairs, pos);
                let interval = Interval { local: m, start: s, end };
                proof {
                    assert forall|p: int| #[trigger] mentioned_at(*function, *cfg, m, p) implies s <= p <= end by {
                        assert(all[p].contains(m));
                    }
                    assert(mentioned_at(*function, *cfg, m, s as int));
                    assert(mentioned_at(*function, *cfg, m, last@[m as int] as int));
                    lemma_closed_iff(*function, *cfg, pairs@, s as int, end as int);
                    assert(can_end(*function, *cfg, m, s as int, end as int));
                    assert forall|x: int| #[trigger] can_end(*function, *cfg, m, s as int, x) implies end <= x by {
                        lemma_closed_iff(*function, *cfg, pairs@, s as int, x);
                        assert(last@[m as int] <= x);
                        assert(pairs_closed(pairs@, s as int, x));
                    }
                    assert(live_interval_of(*function, *cfg, interval));
                }
                intervals.push(interval);
            },
            None => {},
        }
        proof {
            assert forall|x: LocalId, p: int|
                x < m + 1 && #[trigger] mentioned_at(*function, *cfg, x, p) implies exists|j: int|
                    0 <= j < intervals@.len() && intervals@[j].local == x by {
                if x < m {
                    let j = choose|j: int| 0 <= j < before.len() && before[j].local == x;
                    assert(intervals@[j] == before[j]);
                } else {
                    assert(all[p].contains(m));
                    assert(first@[m as int] is Some);
                    assert(intervals@[before.len() as int].local == x);
                }
            }
        }
        m += 1;
    }
    proof {
        assert forall|j: int, k: int| 0 <= j < k < intervals@.len() implies intervals@[j].local < intervals@[k].local by {}
    }
    intervals
}

} // verus!
