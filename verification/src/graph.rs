use vstd::prelude::*;
use crate::api::KindHelper;
use crate::bitset::BitSet;
use crate::ids::{BlockId, InstrId, IntervalId, StackId};

verus! {

/// Where a value lives: not yet decided, a register of a group, or a stack
/// slot of a group.
#[derive(Clone, Copy, Debug, PartialEq, Eq, Structural)]
pub enum Value {
    VirtualVal(usize),
    RegisterVal(usize, usize),
    StackVal(usize, StackId),
}

/// What an instruction asks of one of its operands.
#[derive(Clone, Copy, Debug, PartialEq, Eq, Structural)]
pub enum UseKind {
    /// Register or stack slot of the group.
    UseAny(usize),
    /// Some register of the group.
    UseRegister(usize),
    /// The given register of the group.
    UseFixed(usize, usize),
}

/// One use of an interval at a position.
#[derive(Clone, Copy, Debug, PartialEq, Eq, Structural)]
pub struct Use {
    pub kind: UseKind,
    pub pos: InstrId,
}

/// The positions `start <= p < end`.
#[derive(Clone, Copy, Debug, PartialEq, Eq, Structural)]
pub struct LiveRange {
    pub start: InstrId,
    pub end: InstrId,
}

#[derive(Clone, Copy, Debug, PartialEq, Eq, Structural)]
pub enum GapActionKind {
    Move,
    Swap,
}

/// A move or a swap between the locations of two intervals.
#[derive(Clone, Copy, Debug, PartialEq, Eq, Structural)]
pub struct GapAction {
    pub kind: GapActionKind,
    pub from: IntervalId,
    pub to: IntervalId,
}

/// The actions to perform at one position.
pub struct GapState {
    pub actions: Vec<GapAction>,
}

/// Instruction kinds: the user's own, and the allocator's internal ones.
#[derive(Clone, Debug)]
pub enum InstrKind<K> {
    User(K),
    Gap,
    Phi(usize),
    ToPhi(usize),
}

pub struct Instruction<K> {
    pub id: InstrId,
    pub block: BlockId,
    pub kind: InstrKind<K>,
    pub output: Option<IntervalId>,
    pub inputs: Vec<InstrId>,
    pub temporary: Vec<IntervalId>,
    pub added: bool,
}

pub struct Block {
    pub id: BlockId,
    pub instructions: Vec<InstrId>,
    pub successors: Vec<BlockId>,
    pub predecessors: Vec<BlockId>,
    pub loop_index: usize,
    pub loop_depth: usize,
    pub incoming_forward_branches: usize,
    pub live_gen: BitSet,
    pub live_kill: BitSet,
    pub live_in: BitSet,
    pub live_out: BitSet,
    pub ended: bool,
}

pub struct Interval {
    pub id: IntervalId,
    pub value: Value,
    pub hint: Option<IntervalId>,
    pub ranges: Vec<LiveRange>,
    pub parent: Option<IntervalId>,
    pub uses: Vec<Use>,
    pub children: Vec<IntervalId>,
    pub fixed: bool,
}

/// The control flow graph, its instructions and their live intervals.
pub struct Graph<K> {
    pub root: Option<BlockId>,
    pub block_id: usize,
    pub instr_id: usize,
    pub interval_id: usize,
    pub intervals: Vec<Interval>,
    pub blocks: Vec<Block>,
    pub instructions: Vec<Instruction<K>>,
    pub phis: Vec<InstrId>,
    /// Gap actions by position; a position past the end has none.
    pub gaps: Vec<GapState>,
    pub prepared: bool,
    /// `physical[g][r]` is the fixed interval of register `r` of group `g`.
    pub physical: Vec<Vec<IntervalId>>,
}

pub open spec fn blocks_below(s: Seq<BlockId>, n: nat) -> bool {
    forall|k: int| 0 <= k < s.len() ==> (#[trigger] s[k]).0 < n
}

pub open spec fn instrs_below(s: Seq<InstrId>, n: nat) -> bool {
    forall|k: int| 0 <= k < s.len() ==> (#[trigger] s[k]).0 < n
}

pub open spec fn intervals_below(s: Seq<IntervalId>, n: nat) -> bool {
    forall|k: int| 0 <= k < s.len() ==> (#[trigger] s[k]).0 < n
}

pub open spec fn opt_below(o: Option<IntervalId>, n: nat) -> bool {
    o matches Some(i) ==> i.0 < n
}

pub open spec fn block_ok(b: Block, nb: nat, ni: nat, nv: nat) -> bool {
    &&& instrs_below(b.instructions@, ni)
    &&& blocks_below(b.successors@, nb)
    &&& blocks_below(b.predecessors@, nb)
    &&& b.live_gen.bound() <= nv
    &&& b.live_kill.bound() <= nv
    &&& b.live_in.bound() <= nv
    &&& b.live_out.bound() <= nv
}

pub open spec fn instr_ok<K>(ins: Instruction<K>, ni: nat, nv: nat) -> bool {
    &&& instrs_below(ins.inputs@, ni)
    &&& opt_below(ins.output, nv)
    &&& intervals_below(ins.temporary@, nv)
}

pub open spec fn interval_ok(iv: Interval, nv: nat) -> bool {
    &&& opt_below(iv.hint, nv)
    &&& opt_below(iv.parent, nv)
    &&& intervals_below(iv.children@, nv)
}

pub open spec fn gap_ok(st: GapState, nv: nat) -> bool {
    forall|k: int| 0 <= k < st.actions@.len() ==> (#[trigger] st.actions@[k]).from.0 < nv
        && st.actions@[k].to.0 < nv
}

impl Value {
    pub open spec fn spec_group(self) -> usize {
        match self {
            Value::VirtualVal(g) => g,
            Value::RegisterVal(g, _) => g,
            Value::StackVal(g, _) => g,
        }
    }

    pub fn is_virtual(&self) -> (r: bool)
        ensures
            r == (*self is VirtualVal),
    {
        match self {
            Value::VirtualVal(_) => true,
            _ => false,
        }
    }

    pub fn group(&self) -> (r: usize)
        ensures
            r == self.spec_group(),
    {
        match self {
            Value::VirtualVal(g) => *g,
            Value::RegisterVal(g, _) => *g,
            Value::StackVal(g, _) => *g,
        }
    }
}

impl UseKind {
    pub open spec fn spec_group(self) -> usize {
        match self {
            UseKind::UseAny(g) => g,
            UseKind::UseRegister(g) => g,
            UseKind::UseFixed(g, _) => g,
        }
    }

    pub fn is_fixed(&self) -> (r: bool)
        ensures
            r == (*self is UseFixed),
    {
        match self {
            UseKind::UseFixed(_, _) => true,
            _ => false,
        }
    }

    pub fn is_any(&self) -> (r: bool)
        ensures
            r == (*self is UseAny),
    {
        match self {
            UseKind::UseAny(_) => true,
            _ => false,
        }
    }

    pub fn group(&self) -> (r: usize)
        ensures
            r == self.spec_group(),
    {
        match self {
            UseKind::UseAny(g) => *g,
            UseKind::UseRegister(g) => *g,
            UseKind::UseFixed(g, _) => *g,
        }
    }
}

impl GapState {
    pub fn add_move(&mut self, from: &IntervalId, to: &IntervalId)
        ensures
            final(self).actions@ == old(self).actions@.push(
                GapAction { kind: GapActionKind::Move, from: *from, to: *to },
            ),
    {
        self.actions.push(GapAction { kind: GapActionKind::Move, from: *from, to: *to });
    }
}

impl<K: KindHelper> KindHelper for InstrKind<K> {
    /// Only a user's instruction may clobber registers.
    fn clobbers(&self, group: usize) -> (r: bool)
        ensures
            !(*self is User) ==> !r,
    {
        match self {
            InstrKind::User(k) => k.clobbers(group),
            InstrKind::Gap => false,
            InstrKind::ToPhi(_) => false,
            InstrKind::Phi(_) => false,
        }
    }

    /// Only a user's instruction may need temporaries.
    fn temporary(&self) -> (r: Vec<usize>)
        ensures
            !(*self is User) ==> r@.len() == 0,
    {
        match self {
            InstrKind::User(k) => k.temporary(),
            InstrKind::Gap => Vec::new(),
            InstrKind::Phi(_) => Vec::new(),
            InstrKind::ToPhi(_) => Vec::new(),
        }
    }

    /// Phi moves take anything of their group.
    fn use_kind(&self, i: usize) -> (r: UseKind)
        ensures
            *self is Gap ==> r == UseKind::UseAny(0),
            *self matches InstrKind::Phi(g) ==> r == UseKind::UseAny(g),
            *self matches InstrKind::ToPhi(g) ==> r == UseKind::UseAny(g),
    {
        match self {
            InstrKind::User(k) => k.use_kind(i),
            InstrKind::Gap => UseKind::UseAny(0),
            InstrKind::Phi(g) => UseKind::UseAny(*g),
            InstrKind::ToPhi(g) => UseKind::UseAny(*g),
        }
    }

    /// Gaps have no result; phi values may live anywhere in their group.
    fn result_kind(&self) -> (r: Option<UseKind>)
        ensures
            *self is Gap ==> r is None,
            *self matches InstrKind::Phi(g) ==> r == Some(UseKind::UseAny(g)),
            *self matches InstrKind::ToPhi(g) ==> r == Some(UseKind::UseAny(g)),
    {
        match self {
            InstrKind::User(k) => k.result_kind(),
            InstrKind::Gap => None,
            InstrKind::Phi(g) => Some(UseKind::UseAny(*g)),
            InstrKind::ToPhi(g) => Some(UseKind::UseAny(*g)),
        }
    }
}

impl<K> Graph<K> {
    pub open spec fn nb(&self) -> nat {
        self.blocks@.len()
    }

    pub open spec fn ni(&self) -> nat {
        self.instructions@.len()
    }

    pub open spec fn nv(&self) -> nat {
        self.intervals@.len()
    }

    pub open spec fn blocks_wf(&self) -> bool {
        &&& self.block_id == self.nb()
        &&& forall|b: int| 0 <= b < self.nb() ==> (#[trigger] self.blocks@[b]).id.0 == b
            && block_ok(self.blocks@[b], self.nb(), self.ni(), self.nv())
    }

    pub open spec fn instrs_wf(&self) -> bool {
        &&& self.instr_id == self.ni()
        &&& forall|i: int| 0 <= i < self.ni() ==> (#[trigger] self.instructions@[i]).id.0 == i
            && instr_ok(self.instructions@[i], self.ni(), self.nv())
    }

    pub open spec fn intervals_wf(&self) -> bool {
        &&& self.interval_id == self.nv()
        &&& forall|v: int| 0 <= v < self.nv() ==> (#[trigger] self.intervals@[v]).id.0 == v
            && interval_ok(self.intervals@[v], self.nv())
    }

    pub open spec fn others_wf(&self) -> bool {
        &&& self.root matches Some(r) ==> r.0 < self.nb()
        &&& instrs_below(self.phis@, self.ni())
        &&& forall|p: int| 0 <= p < self.gaps@.len() ==> gap_ok(#[trigger] self.gaps@[p], self.nv())
        &&& forall|g: int| 0 <= g < self.physical@.len() ==> intervals_below(
            #[trigger] self.physical@[g]@,
            self.nv(),
        )
    }

    /// Every identifier stored anywhere in the graph names an existing
    /// block, instruction or interval, and each of them sits at the index of
    /// its own identifier.
    pub open spec fn wf(&self) -> bool {
        &&& self.blocks_wf()
        &&& self.instrs_wf()
        &&& self.intervals_wf()
        &&& self.others_wf()
    }

    pub open spec fn instr(&self, i: InstrId) -> Instruction<K> {
        self.instructions@[i.0 as int]
    }

    pub open spec fn interval(&self, v: IntervalId) -> Interval {
        self.intervals@[v.0 as int]
    }

    /// The actions recorded at position `p`.
    pub open spec fn gap_actions(&self, p: int) -> Seq<GapAction> {
        if 0 <= p < self.gaps@.len() {
            self.gaps@[p].actions@
        } else {
            Seq::empty()
        }
    }
}

} // verus!

verus! {

impl<K> Graph<K> {
    /// Only the intervals may differ.
    pub open spec fn same_but_intervals(&self, other: &Graph<K>) -> bool {
        &&& self.root == other.root
        &&& self.block_id == other.block_id
        &&& self.instr_id == other.instr_id
        &&& self.blocks@ == other.blocks@
        &&& self.instructions@ == other.instructions@
        &&& self.phis@ == other.phis@
        &&& self.gaps@ == other.gaps@
        &&& self.prepared == other.prepared
        &&& self.physical@ == other.physical@
    }

    /// Only the blocks and the instructions may differ.
    pub open spec fn same_rest(&self, other: &Graph<K>) -> bool {
        &&& self.root == other.root
        &&& self.instr_id == other.instr_id
        &&& self.interval_id == other.interval_id
        &&& self.intervals@ == other.intervals@
        &&& self.phis@ == other.phis@
        &&& self.gaps@ == other.gaps@
        &&& self.prepared == other.prepared
        &&& self.physical@ == other.physical@
    }

    /// Only the instructions may differ.
    pub open spec fn same_but_instrs(&self, other: &Graph<K>) -> bool {
        &&& self.root == other.root
        &&& self.block_id == other.block_id
        &&& self.interval_id == other.interval_id
        &&& self.blocks@ == other.blocks@
        &&& self.intervals@ == other.intervals@
        &&& self.phis@ == other.phis@
        &&& self.gaps@ == other.gaps@
        &&& self.prepared == other.prepared
        &&& self.physical@ == other.physical@
    }

    /// Only the blocks may differ.
    pub open spec fn same_but_blocks(&self, other: &Graph<K>) -> bool {
        &&& self.root == other.root
        &&& self.instr_id == other.instr_id
        &&& self.interval_id == other.interval_id
        &&& self.instructions@ == other.instructions@
        &&& self.intervals@ == other.intervals@
        &&& self.phis@ == other.phis@
        &&& self.gaps@ == other.gaps@
        &&& self.prepared == other.prepared
        &&& self.physical@ == other.physical@
    }
}

impl<K: KindHelper> Graph<K> {
    /// An empty graph.
    pub fn new() -> (g: Graph<K>)
        ensures
            g.wf(),
            g.nb() == 0,
            g.ni() == 0,
            g.nv() == 0,
            g.root is None,
            g.phis@.len() == 0,
            g.gaps@.len() == 0,
            g.physical@.len() == 0,
            !g.prepared,
    {
        Graph {
            root: None,
            block_id: 0,
            instr_id: 0,
            interval_id: 0,
            intervals: Vec::new(),
            blocks: Vec::new(),
            instructions: Vec::new(),
            phis: Vec::new(),
            gaps: Vec::new(),
            prepared: false,
            physical: Vec::new(),
        }
    }

    fn block_id(&mut self) -> (r: BlockId)
        requires
            old(self).block_id < usize::MAX,
        ensures
            r.0 == old(self).block_id,
            final(self).block_id == old(self).block_id + 1,
            final(self).same_but_blocks(old(self)),
            final(self).blocks@ == old(self).blocks@,
    {
        let r = self.block_id;
        self.block_id = self.block_id + 1;
        BlockId(r)
    }

    /// Take the next instruction id.
    pub fn instr_id(&mut self) -> (r: InstrId)
        requires
            old(self).instr_id < usize::MAX,
        ensures
            r.0 == old(self).instr_id,
            final(self).instr_id == old(self).instr_id + 1,
            final(self).same_but_instrs(old(self)),
            final(self).instructions@ == old(self).instructions@,
    {
        let r = self.instr_id;
        self.instr_id = self.instr_id + 1;
        InstrId(r)
    }

    fn interval_id(&mut self) -> (r: IntervalId)
        requires
            old(self).interval_id < usize::MAX,
        ensures
            r.0 == old(self).interval_id,
            final(self).interval_id == old(self).interval_id + 1,
            final(self).same_but_intervals(old(self)),
            final(self).intervals@ == old(self).intervals@,
    {
        let r = self.interval_id;
        self.interval_id = self.interval_id + 1;
        IntervalId(r)
    }

    /// A gap instruction for `block`, with the next instruction id.
    pub fn create_gap(&mut self, block: &BlockId) -> (r: Instruction<K>)
        requires
            old(self).instr_id < usize::MAX,
        ensures
            r.id.0 == old(self).instr_id,
            r.block == *block,
            r.kind is Gap,
            r.output is None,
            r.inputs@.len() == 0,
            r.temporary@.len() == 0,
            r.added,
            final(self).instr_id == old(self).instr_id + 1,
            final(self).same_but_instrs(old(self)),
            final(self).instructions@ == old(self).instructions@,
    {
        let id = self.instr_id();
        Instruction {
            id,
            block: *block,
            kind: InstrKind::Gap,
            output: None,
            inputs: Vec::new(),
            temporary: Vec::new(),
            added: true,
        }
    }

    pub fn get_block(&self, id: &BlockId) -> (r: &Block)
        requires
            id.0 < self.nb(),
        ensures
            *r == self.blocks@[id.0 as int],
    {
        &self.blocks[id.0]
    }

    pub fn get_mut_block(&mut self, id: &BlockId) -> (r: &mut Block)
        requires
            id.0 < old(self).nb(),
        ensures
            *r == old(self).blocks@[id.0 as int],
            final(self).blocks@ == old(self).blocks@.update(id.0 as int, *final(r)),
            final(self).same_but_blocks(old(self)),
            final(self).block_id == old(self).block_id,
    {
        &mut self.blocks[id.0]
    }

    /// Identifiers of all blocks, in increasing order.
    pub fn get_block_list(&self) -> (r: Vec<BlockId>)
        ensures
            r@.len() == self.nb(),
            forall|k: int| 0 <= k < r@.len() ==> #[trigger] r@[k] == self.blocks@[k].id,
    {
        let mut r: Vec<BlockId> = Vec::new();
        let n = self.blocks.len();
        let mut k: usize = 0;
        while k < n
            invariant
                n == self.nb(),
                k <= n,
                r@.len() == k,
                forall|j: int| 0 <= j < k ==> #[trigger] r@[j] == self.blocks@[j].id,
            decreases n - k,
        {
            r.push(self.blocks[k].id);
            k = k + 1;
        }
        r
    }

    pub fn get_instr(&self, id: &InstrId) -> (r: &Instruction<K>)
        requires
            id.0 < self.ni(),
        ensures
            *r == self.instructions@[id.0 as int],
    {
        &self.instructions[id.0]
    }

    pub fn get_mut_instr(&mut self, id: &InstrId) -> (r: &mut Instruction<K>)
        requires
            id.0 < old(self).ni(),
        ensures
            *r == old(self).instructions@[id.0 as int],
            final(self).instructions@ == old(self).instructions@.update(id.0 as int, *final(r)),
            final(self).same_but_instrs(old(self)),
            final(self).instr_id == old(self).instr_id,
    {
        &mut self.instructions[id.0]
    }

    /// The interval that an instruction defines.
    pub fn get_output(&self, id: &InstrId) -> (r: IntervalId)
        requires
            id.0 < self.ni(),
            self.instructions@[id.0 as int].output is Some,
        ensures
            self.instructions@[id.0 as int].output == Some(r),
    {
        match self.instructions[id.0].output {
            Some(o) => o,
            None => IntervalId(0),
        }
    }

    pub fn get_interval(&self, id: &IntervalId) -> (r: &Interval)
        requires
            id.0 < self.nv(),
        ensures
            *r == self.intervals@[id.0 as int],
    {
        &self.intervals[id.0]
    }

    pub fn get_mut_interval(&mut self, id: &IntervalId) -> (r: &mut Interval)
        requires
            id.0 < old(self).nv(),
        ensures
            *r == old(self).intervals@[id.0 as int],
            final(self).intervals@ == old(self).intervals@.update(id.0 as int, *final(r)),
            final(self).same_but_intervals(old(self)),
            final(self).interval_id == old(self).interval_id,
    {
        &mut self.intervals[id.0]
    }

    /// The gap actions at `id`; positions past the end are created empty.
    pub fn get_mut_gap(&mut self, id: &InstrId) -> (r: &mut GapState)
        requires
            id.0 < usize::MAX,
        ensures
            r.actions@ == old(self).gap_actions(id.0 as int),
            final(self).gaps@.len() == if old(self).gaps@.len() > id.0 { old(self).gaps@.len() } else { (id.0 + 1) as nat },
            forall|p: int| 0 <= p < final(self).gaps@.len() && p != id.0 ==> final(self).gap_actions(p) == old(self).gap_actions(p),
            final(self).gap_actions(id.0 as int) == final(r).actions@,
            final(self).root == old(self).root,
            final(self).block_id == old(self).block_id,
            final(self).instr_id == old(self).instr_id,
            final(self).interval_id == old(self).interval_id,
            final(self).blocks@ == old(self).blocks@,
            final(self).instructions@ == old(self).instructions@,
            final(self).intervals@ == old(self).intervals@,
            final(self).phis@ == old(self).phis@,
            final(self).prepared == old(self).prepared,
            final(self).physical@ == old(self).physical@,
    {
        let mut gaps: Vec<GapState> = Vec::new();
        std::mem::swap(&mut gaps, &mut self.gaps);
        let ghost old_gaps = gaps@;
        while gaps.len() <= id.0
            invariant
                old_gaps.len() <= gaps@.len(),
                gaps@.len() <= if old_gaps.len() > id.0 { old_gaps.len() } else { (id.0 + 1) as nat },
                forall|p: int| 0 <= p < old_gaps.len() ==> #[trigger] gaps@[p] == old_gaps[p],
                forall|p: int| old_gaps.len() <= p < gaps@.len() ==> (#[trigger] gaps@[p]).actions@.len() == 0,
            decreases id.0 + 1 - gaps.len(),
        {
            gaps.push(GapState { actions: Vec::new() });
        }
        self.gaps = gaps;
        &mut self.gaps[id.0]
    }
}

impl Block {
    /// A fresh block with the next block id of `graph`.
    pub fn new<K: KindHelper>(graph: &mut Graph<K>) -> (r: Block)
        requires
            old(graph).block_id < usize::MAX,
        ensures
            r.id.0 == old(graph).block_id,
            r.instructions@.len() == 0,
            r.successors@.len() == 0,
            r.predecessors@.len() == 0,
            r.loop_index == 0,
            r.loop_depth == 0,
            r.incoming_forward_branches == 0,
            r.live_gen.bound() == 0,
            r.live_kill.bound() == 0,
            r.live_in.bound() == 0,
            r.live_out.bound() == 0,
            !r.ended,
            final(graph).block_id == old(graph).block_id + 1,
            final(graph).same_but_blocks(old(graph)),
            final(graph).blocks@ == old(graph).blocks@,
    {
        Block {
            id: graph.block_id(),
            instructions: Vec::new(),
            successors: Vec::new(),
            predecessors: Vec::new(),
            loop_index: 0,
            loop_depth: 0,
            incoming_forward_branches: 0,
            live_gen: BitSet::new(),
            live_kill: BitSet::new(),
            live_in: BitSet::new(),
            live_out: BitSet::new(),
            ended: false,
        }
    }

    /// Append a successor.
    pub fn add_successor(&mut self, succ: BlockId) -> (r: &mut Block)
        requires
            old(self).successors@.len() <= 2,
        ensures
            *r == (Block { successors: r.successors, ..*old(self) }),
            r.successors@ == old(self).successors@.push(succ),
            *final(self) == *final(r),
    {
        self.successors.push(succ);
        self
    }

    /// Append a predecessor and count one more incoming forward branch.
    pub fn add_predecessor(&mut self, pred: BlockId)
        requires
            old(self).predecessors@.len() <= 2,
            old(self).incoming_forward_branches < usize::MAX,
        ensures
            *final(self) == (Block {
                predecessors: final(self).predecessors,
                incoming_forward_branches: (old(self).incoming_forward_branches + 1) as usize,
                ..*old(self)
            }),
            final(self).predecessors@ == old(self).predecessors@.push(pred),
    {
        self.predecessors.push(pred);
        self.incoming_forward_branches = self.incoming_forward_branches + 1;
    }

    /// First position of the block.
    pub fn start(&self) -> (r: InstrId)
        requires
            self.instructions@.len() != 0,
        ensures
            r == self.instructions@[0],
    {
        self.instructions[0]
    }

    /// The position right after the block's last instruction.
    pub fn end(&self) -> (r: InstrId)
        requires
            self.instructions@.len() != 0,
            self.instructions@.last().0 < usize::MAX,
        ensures
            r.0 == self.instructions@.last().0 + 1,
    {
        let last = self.instructions[self.instructions.len() - 1];
        InstrId(last.0 + 1)
    }
}

} // verus!

verus! {

impl Interval {
    /// A fresh virtual interval of `group`, added to `graph`.
    pub fn new<K: KindHelper>(graph: &mut Graph<K>, group: usize) -> (r: IntervalId)
        requires
            old(graph).wf(),
            old(graph).nv() < usize::MAX,
        ensures
            final(graph).wf(),
            r.0 == old(graph).nv(),
            final(graph).intervals@ == old(graph).intervals@.push(
                Interval {
                    id: r,
                    value: Value::VirtualVal(group),
                    hint: None,
                    ranges: final(graph).intervals@[r.0 as int].ranges,
                    parent: None,
                    uses: final(graph).intervals@[r.0 as int].uses,
                    children: final(graph).intervals@[r.0 as int].children,
                    fixed: false,
                },
            ),
            final(graph).intervals@[r.0 as int].ranges@.len() == 0,
            final(graph).intervals@[r.0 as int].uses@.len() == 0,
            final(graph).intervals@[r.0 as int].children@.len() == 0,
            final(graph).same_but_intervals(old(graph)),
    {
        let id = graph.interval_id();
        let r = Interval {
            id,
            value: Value::VirtualVal(group),
            hint: None,
            ranges: Vec::new(),
            parent: None,
            uses: Vec::new(),
            children: Vec::new(),
            fixed: false,
        };
        graph.intervals.push(r);
        id
    }
}

impl<K: KindHelper> Instruction<K> {
    /// A fresh instruction without output, with one fresh interval for each
    /// temporary that its kind asks for; not yet in any block.
    pub fn new_empty(graph: &mut Graph<K>, kind: InstrKind<K>, args: Vec<InstrId>) -> (r: InstrId)
        requires
            old(graph).wf(),
            old(graph).ni() < usize::MAX,
            instrs_below(args@, old(graph).ni()),
        ensures
            final(graph).wf(),
            r.0 == old(graph).ni(),
            final(graph).ni() == old(graph).ni() + 1,
            final(graph).instructions@.drop_last() == old(graph).instructions@,
            final(graph).instructions@[r.0 as int].kind == kind,
            final(graph).instructions@[r.0 as int].output is None,
            final(graph).instructions@[r.0 as int].inputs@ == args@,
            !final(graph).instructions@[r.0 as int].added,
            final(graph).instructions@[r.0 as int].id == r,
            final(graph).instructions@[r.0 as int].block == BlockId(0),
            final(graph).nv() == old(graph).nv() + final(graph).instructions@[r.0 as int].temporary@.len(),
            forall|k: int| 0 <= k < final(graph).instructions@[r.0 as int].temporary@.len()
                ==> (#[trigger] final(graph).instructions@[r.0 as int].temporary@[k]).0 == old(graph).nv() + k,
            old(graph).nv() <= final(graph).nv(),
            final(graph).intervals@.subrange(0, old(graph).nv() as int) == old(graph).intervals@,
            forall|k: int| 0 <= k < final(graph).instructions@[r.0 as int].temporary@.len()
                ==> old(graph).nv() <= (#[trigger] final(graph).instructions@[r.0 as int].temporary@[k]).0,
            forall|v: int| old(graph).nv() <= v < final(graph).nv()
                ==> (#[trigger] final(graph).intervals@[v]).ranges@.len() == 0
                && final(graph).intervals@[v].uses@.len() == 0
                && final(graph).intervals@[v].children@.len() == 0
                && final(graph).intervals@[v].parent is None
                && final(graph).intervals@[v].value is VirtualVal,
            final(graph).root == old(graph).root,
            final(graph).blocks@ == old(graph).blocks@,
            final(graph).block_id == old(graph).block_id,
            final(graph).phis@ == old(graph).phis@,
            final(graph).gaps@ == old(graph).gaps@,
            final(graph).physical@ == old(graph).physical@,
            final(graph).prepared == old(graph).prepared,
    {
        let groups = kind.temporary();
        Self::new_empty_with(graph, kind, args, groups)
    }

    /// A fresh instruction without output, with one fresh interval for each
    /// group of `groups` (the temporaries that its kind asks for), in order,
    /// as long as interval numbers last; not yet in any block.
    pub fn new_empty_with(graph: &mut Graph<K>, kind: InstrKind<K>, args: Vec<InstrId>, groups: Vec<usize>) -> (r: InstrId)
        requires
            old(graph).wf(),
            old(graph).ni() < usize::MAX,
            instrs_below(args@, old(graph).ni()),
        ensures
            final(graph).instructions@[r.0 as int].temporary@.len() <= groups@.len(),
            old(graph).nv() + groups@.len() <= usize::MAX ==> final(graph).instructions@[r.0 as int].temporary@.len() == groups@.len(),
            forall|k: int| 0 <= k < final(graph).instructions@[r.0 as int].temporary@.len()
                ==> final(graph).intervals@[(#[trigger] final(graph).instructions@[r.0 as int].temporary@[k]).0 as int].value
                == Value::VirtualVal(groups@[k]),
            final(graph).wf(),
            r.0 == old(graph).ni(),
            final(graph).ni() == old(graph).ni() + 1,
            final(graph).instructions@.drop_last() == old(graph).instructions@,
            final(graph).instructions@[r.0 as int].kind == kind,
            final(graph).instructions@[r.0 as int].output is None,
            final(graph).instructions@[r.0 as int].inputs@ == args@,
            !final(graph).instructions@[r.0 as int].added,
            final(graph).instructions@[r.0 as int].id == r,
            final(graph).instructions@[r.0 as int].block == BlockId(0),
            final(graph).nv() == old(graph).nv() + final(graph).instructions@[r.0 as int].temporary@.len(),
            forall|k: int| 0 <= k < final(graph).instructions@[r.0 as int].temporary@.len()
                ==> (#[trigger] final(graph).instructions@[r.0 as int].temporary@[k]).0 == old(graph).nv() + k,
            old(graph).nv() <= final(graph).nv(),
            final(graph).intervals@.subrange(0, old(graph).nv() as int) == old(graph).intervals@,
            forall|k: int| 0 <= k < final(graph).instructions@[r.0 as int].temporary@.len()
                ==> old(graph).nv() <= (#[trigger] final(graph).instructions@[r.0 as int].temporary@[k]).0,
            forall|v: int| old(graph).nv() <= v < final(graph).nv()
                ==> (#[trigger] final(graph).intervals@[v]).ranges@.len() == 0
                && final(graph).intervals@[v].uses@.len() == 0
                && final(graph).intervals@[v].children@.len() == 0
                && final(graph).intervals@[v].parent is None
                && final(graph).intervals@[v].value is VirtualVal,
            final(graph).root == old(graph).root,
            final(graph).blocks@ == old(graph).blocks@,
            final(graph).block_id == old(graph).block_id,
            final(graph).phis@ == old(graph).phis@,
            final(graph).gaps@ == old(graph).gaps@,
            final(graph).physical@ == old(graph).physical@,
            final(graph).prepared == old(graph).prepared,
    {
        let mut temporary: Vec<IntervalId> = Vec::new();
        let ghost g0 = *graph;
        let mut k: usize = 0;
        while k < groups.len()
            invariant
                graph.wf(),
                graph.ni() == g0.ni(),
                graph.instructions@ == g0.instructions@,
                graph.root == g0.root,
                graph.blocks@ == g0.blocks@,
                graph.block_id == g0.block_id,
                graph.phis@ == g0.phis@,
                graph.gaps@ == g0.gaps@,
                graph.physical@ == g0.physical@,
                graph.prepared == g0.prepared,
                g0.nv() <= graph.nv(),
                graph.intervals@.subrange(0, g0.nv() as int) == g0.intervals@,
                intervals_below(temporary@, graph.nv()),
                forall|j: int| 0 <= j < temporary@.len() ==> g0.nv() <= (#[trigger] temporary@[j]).0,
                graph.nv() == g0.nv() + temporary@.len(),
                forall|j: int| 0 <= j < temporary@.len() ==> (#[trigger] temporary@[j]).0 == g0.nv() + j,
                temporary@.len() <= k,
                temporary@.len() < k ==> graph.nv() == usize::MAX,
                k <= groups@.len(),
                forall|j: int| 0 <= j < temporary@.len() ==> graph.intervals@[(#[trigger] temporary@[j]).0 as int].value
                    == Value::VirtualVal(groups@[j]),
                forall|v: int| g0.nv() <= v < graph.nv()
                    ==> (#[trigger] graph.intervals@[v]).ranges@.len() == 0
                    && graph.intervals@[v].uses@.len() == 0
                    && graph.intervals@[v].children@.len() == 0
                    && graph.intervals@[v].parent is None
                    && graph.intervals@[v].value is VirtualVal,
            decreases groups.len() - k,
        {
            if graph.interval_id < usize::MAX {
                let ghost before = graph.intervals@;
                let t = Interval::new(graph, groups[k]);
                assert(graph.intervals@.subrange(0, g0.nv() as int) =~= before.subrange(0, g0.nv() as int));
                temporary.push(t);
            }
            k = k + 1;
        }
        let id = graph.instr_id();
        let r = Instruction {
            id,
            block: BlockId(0),
            kind,
            output: None,
            inputs: args,
            temporary,
            added: false,
        };
        graph.instructions.push(r);
        assert(graph.instructions@.drop_last() =~= g0.instructions@);
        id
    }

    /// A fresh instruction whose output (if its kind has a result) is a fresh
    /// interval of the result's group.
    pub fn new(graph: &mut Graph<K>, kind: InstrKind<K>, args: Vec<InstrId>) -> (r: InstrId)
        requires
            old(graph).wf(),
            old(graph).ni() < usize::MAX,
            old(graph).nv() < usize::MAX,
            instrs_below(args@, old(graph).ni()),
        ensures
            final(graph).wf(),
            r.0 == old(graph).ni(),
            final(graph).ni() == old(graph).ni() + 1,
            final(graph).instructions@.drop_last() == old(graph).instructions@,
            final(graph).instructions@[r.0 as int].kind == kind,
            final(graph).instructions@[r.0 as int].inputs@ == args@,
            !final(graph).instructions@[r.0 as int].added,
            final(graph).instructions@[r.0 as int].output matches Some(o) ==> old(graph).nv() == o.0,
            final(graph).instructions@[r.0 as int].id == r,
            final(graph).instructions@[r.0 as int].block == BlockId(0),
            ({
                let ins = final(graph).instructions@[r.0 as int];
                let first = old(graph).nv() + if ins.output is Some { 1int } else { 0int };
                &&& final(graph).nv() == first + ins.temporary@.len()
                &&& forall|k: int| 0 <= k < ins.temporary@.len() ==> (#[trigger] ins.temporary@[k]).0 == first + k
            }),
            kind is Gap ==> final(graph).instructions@[r.0 as int].output is None,
            kind matches InstrKind::Phi(g) ==> (final(graph).instructions@[r.0 as int].output matches Some(o)
                && final(graph).intervals@[o.0 as int].value == Value::VirtualVal(g)),
            kind matches InstrKind::ToPhi(g) ==> (final(graph).instructions@[r.0 as int].output matches Some(o)
                && final(graph).intervals@[o.0 as int].value == Value::VirtualVal(g)),
            old(graph).nv() <= final(graph).nv(),
            final(graph).intervals@.subrange(0, old(graph).nv() as int) == old(graph).intervals@,
            forall|v: int| old(graph).nv() <= v < final(graph).nv()
                ==> (#[trigger] final(graph).intervals@[v]).ranges@.len() == 0
                && final(graph).intervals@[v].uses@.len() == 0
                && final(graph).intervals@[v].children@.len() == 0
                && final(graph).intervals@[v].parent is None
                && final(graph).intervals@[v].value is VirtualVal,
            final(graph).root == old(graph).root,
            final(graph).blocks@ == old(graph).blocks@,
            final(graph).block_id == old(graph).block_id,
            final(graph).phis@ == old(graph).phis@,
            final(graph).gaps@ == old(graph).gaps@,
            final(graph).physical@ == old(graph).physical@,
            final(graph).prepared == old(graph).prepared,
    {
        let ghost g0 = *graph;
        let output = match kind.result_kind() {
            Some(k) => Some(Interval::new(graph, k.group())),
            None => None,
        };
        assert(graph.intervals@.subrange(0, g0.nv() as int) =~= g0.intervals@);
        let ghost g1 = *graph;
        let instr = Instruction::new_empty(graph, kind, args);
        assert(graph.intervals@.subrange(0, g0.nv() as int) =~= g1.intervals@.subrange(0, g1.nv() as int).subrange(0, g0.nv() as int));
        graph.instructions[instr.0].output = output;
        assert(graph.instructions@.drop_last() =~= g0.instructions@);
        instr
    }
}

} // verus!
