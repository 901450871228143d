use vstd::prelude::*;
use crate::graph::UseKind;

verus! {

/// Conversion between a user's register group type and the group numbers
/// that the allocator works with.
pub trait GroupHelper: Clone + Eq {
    fn any() -> Self;

    fn to_uint(&self) -> usize;

    fn from_uint(i: usize) -> Self;
}

/// Conversion between a user's register type and the register numbers
/// (within a group) that the allocator works with.
pub trait RegisterHelper<Group>: Clone + Eq {
    fn group(&self) -> Group;

    fn to_uint(&self) -> usize;

    fn from_uint(g: &Group, i: usize) -> Self;
}

/// What the allocator needs to know of a user's instruction kind.
pub trait KindHelper: Clone {
    /// Whether the instruction destroys every register of `group` (a call).
    fn clobbers(&self, group: usize) -> bool;

    /// Groups of the temporary registers the instruction needs.
    fn temporary(&self) -> Vec<usize>;

    /// How the instruction uses its `i`th input.
    fn use_kind(&self, i: usize) -> UseKind;

    /// How the instruction produces its result, if it has one.
    fn result_kind(&self) -> Option<UseKind>;
}

} // verus!

use crate::graph::{Graph, Block, Instruction, InstrKind, Interval, Value, instrs_below};
use crate::ids::{BlockId, InstrId};

verus! {

/// Adds instructions to one block of a graph.
pub struct BlockBuilder<'a, K> {
    pub graph: &'a mut Graph<K>,
    pub block: BlockId,
}

impl<K: KindHelper> Graph<K> {
    /// Room for one more instruction with its intervals.
    pub open spec fn has_room(&self) -> bool {
        &&& self.ni() < usize::MAX
        &&& self.nv() < usize::MAX
        &&& self.nb() < usize::MAX
    }

    /// Create an empty block.
    pub fn empty_block(&mut self) -> (r: BlockId)
        requires
            old(self).wf(),
            old(self).nb() < usize::MAX,
        ensures
            final(self).wf(),
            r.0 == old(self).nb(),
            final(self).blocks@.drop_last() == old(self).blocks@,
            final(self).nb() == old(self).nb() + 1,
            final(self).blocks@[r.0 as int].instructions@.len() == 0,
            final(self).blocks@[r.0 as int].successors@.len() == 0,
            final(self).blocks@[r.0 as int].predecessors@.len() == 0,
            final(self).blocks@[r.0 as int].incoming_forward_branches == 0,
            final(self).blocks@[r.0 as int].loop_depth == 0,
            final(self).blocks@[r.0 as int].loop_index == 0,
            final(self).blocks@[r.0 as int].id == r,
            final(self).blocks@[r.0 as int].live_gen.bound() == 0,
            final(self).blocks@[r.0 as int].live_kill.bound() == 0,
            final(self).blocks@[r.0 as int].live_in.bound() == 0,
            final(self).blocks@[r.0 as int].live_out.bound() == 0,
            !final(self).blocks@[r.0 as int].ended,
            final(self).block_id == old(self).block_id + 1,
            final(self).same_but_blocks(old(self)),
    {
        let block = Block::new(self);
        let id = block.id;
        self.blocks.push(block);
        assert(self.blocks@.drop_last() =~= old(self).blocks@);
        id
    }

    /// Create a block and fill it with `body`.
    pub fn block<F: FnOnce(&mut BlockBuilder<K>)>(&mut self, body: F) -> (r: BlockId)
        requires
            old(self).wf(),
            old(self).nb() < usize::MAX,
            forall|b: &mut BlockBuilder<K>| body.requires((b,)),
        ensures
            r.0 == old(self).nb(),
    {
        let id = self.empty_block();
        self.with_block(id, body);
        id
    }

    /// Create a phi value of `group`: it takes one value from each
    /// predecessor through `BlockBuilder::to_phi`, and stays out of blocks.
    pub fn phi(&mut self, group: usize) -> (r: InstrId)
        requires
            old(self).wf(),
            old(self).has_room(),
        ensures
            final(self).wf(),
            r.0 == old(self).ni(),
            final(self).ni() == old(self).ni() + 1,
            final(self).instructions@.drop_last() == old(self).instructions@,
            final(self).instructions@[r.0 as int].kind == InstrKind::<K>::Phi(group),
            final(self).instructions@[r.0 as int].output matches Some(o)
                && final(self).intervals@[o.0 as int].value == Value::VirtualVal(group),
            final(self).instructions@[r.0 as int].inputs@.len() == 0,
            final(self).instructions@[r.0 as int].added,
            final(self).phis@ == old(self).phis@.push(r),
            final(self).blocks@ == old(self).blocks@,
            final(self).root == old(self).root,
    {
        let res = Instruction::new(self, InstrKind::Phi(group), Vec::new());
        self.instructions[res.0].added = true;
        self.phis.push(res);
        assert(self.instructions@.drop_last() =~= old(self).instructions@);
        res
    }

    /// Run `body` on a builder for block `id`.
    pub fn with_block<F: FnOnce(&mut BlockBuilder<K>)>(&mut self, id: BlockId, body: F)
        requires
            forall|b: &mut BlockBuilder<K>| body.requires((b,)),
    {
        let mut b = BlockBuilder { graph: self, block: id };
        body(&mut b);
    }

    /// Create an instruction of a user's kind outside any block.
    pub fn new_instr(&mut self, kind: K, args: Vec<InstrId>) -> (r: InstrId)
        requires
            old(self).wf(),
            old(self).has_room(),
            instrs_below(args@, old(self).ni()),
        ensures
            final(self).wf(),
            r.0 == old(self).ni(),
            final(self).ni() == old(self).ni() + 1,
            final(self).instructions@.drop_last() == old(self).instructions@,
            final(self).instructions@[r.0 as int].kind == InstrKind::User(kind),
            final(self).instructions@[r.0 as int].inputs@ == args@,
            !final(self).instructions@[r.0 as int].added,
            final(self).blocks@ == old(self).blocks@,
            final(self).block_id == old(self).block_id,
            final(self).root == old(self).root,
            final(self).phis@ == old(self).phis@,
    {
        Instruction::new(self, InstrKind::User(kind), args)
    }

    /// Make `id` the entry block.
    pub fn set_root(&mut self, id: BlockId)
        ensures
            final(self).root == Some(id),
            *final(self) == (Graph { root: Some(id), ..*old(self) }),
    {
        self.root = Some(id);
    }
}

} // verus!

verus! {

impl<'a, K: KindHelper> BlockBuilder<'a, K> {
    /// A builder for block `block` of `graph`.
    pub fn new(graph: &'a mut Graph<K>, block: BlockId) -> (r: BlockBuilder<'a, K>)
        ensures
            r.block == block,
            *r.graph == *old(graph),
            *final(r.graph) == *final(graph),
    {
        BlockBuilder { graph, block }
    }

    /// The builder's graph is well formed and its block exists.
    pub open spec fn ready(&self) -> bool {
        &&& self.graph.wf()
        &&& self.block.0 < self.graph.nb()
    }

    /// Add an instruction of a user's kind at the end of the block.
    pub fn add(&mut self, kind: K, args: Vec<InstrId>) -> (r: InstrId)
        requires
            old(self).ready(),
            old(self).graph.has_room(),
            instrs_below(args@, old(self).graph.ni()),
            !old(self).graph.blocks@[old(self).block.0 as int].ended,
        ensures
            final(self).ready(),
            final(self).block == old(self).block,
            *final(final(self).graph) == *final(old(self).graph),
            r.0 == old(self).graph.ni(),
            final(self).graph.instructions@[r.0 as int].kind == InstrKind::User(kind),
            final(self).graph.instructions@[r.0 as int].inputs@ == args@,
            final(self).graph.instructions@[r.0 as int].block == old(self).block,
            final(self).graph.instructions@[r.0 as int].added,
            final(self).graph.blocks@[old(self).block.0 as int].instructions@
                == old(self).graph.blocks@[old(self).block.0 as int].instructions@.push(r),
    {
        let instr_id = self.graph.new_instr(kind, args);
        self.add_existing(instr_id);
        instr_id
    }

    /// Add an instruction made outside any block at the end of the block.
    pub fn add_existing(&mut self, instr_id: InstrId)
        requires
            old(self).ready(),
            instr_id.0 < old(self).graph.ni(),
            !old(self).graph.instructions@[instr_id.0 as int].added,
            !old(self).graph.blocks@[old(self).block.0 as int].ended,
        ensures
            final(self).ready(),
            final(self).block == old(self).block,
            *final(final(self).graph) == *final(old(self).graph),
            final(self).graph.ni() == old(self).graph.ni(),
            final(self).graph.nv() == old(self).graph.nv(),
            final(self).graph.nb() == old(self).graph.nb(),
            final(self).graph.instructions@ == old(self).graph.instructions@.update(
                instr_id.0 as int,
                Instruction {
                    added: true,
                    block: old(self).block,
                    ..old(self).graph.instructions@[instr_id.0 as int]
                },
            ),
            final(self).graph.blocks@ == old(self).graph.blocks@.update(
                old(self).block.0 as int,
                Block {
                    instructions: final(self).graph.blocks@[old(self).block.0 as int].instructions,
                    ..old(self).graph.blocks@[old(self).block.0 as int]
                },
            ),
            final(self).graph.blocks@[old(self).block.0 as int].instructions@
                == old(self).graph.blocks@[old(self).block.0 as int].instructions@.push(instr_id),
            final(self).graph.intervals@ == old(self).graph.intervals@,
            final(self).graph.root == old(self).graph.root,
            final(self).graph.phis@ == old(self).graph.phis@,
    {
        let b = self.block;
        self.graph.instructions[instr_id.0].added = true;
        self.graph.instructions[instr_id.0].block = b;
        self.graph.blocks[b.0].instructions.push(instr_id);
    }

    /// Add an input to an instruction of the block.
    pub fn add_arg(&mut self, id: InstrId, arg: InstrId)
        requires
            old(self).ready(),
            id.0 < old(self).graph.ni(),
            arg.0 < old(self).graph.ni(),
            old(self).graph.instructions@[id.0 as int].block == old(self).block,
        ensures
            final(self).ready(),
            final(self).block == old(self).block,
            *final(final(self).graph) == *final(old(self).graph),
            final(self).graph.instructions@ == old(self).graph.instructions@.update(
                id.0 as int,
                Instruction {
                    inputs: final(self).graph.instructions@[id.0 as int].inputs,
                    ..old(self).graph.instructions@[id.0 as int]
                },
            ),
            final(self).graph.instructions@[id.0 as int].inputs@
                == old(self).graph.instructions@[id.0 as int].inputs@.push(arg),
            final(self).graph.blocks@ == old(self).graph.blocks@,
            final(self).graph.intervals@ == old(self).graph.intervals@,
    {
        self.graph.instructions[id.0].inputs.push(arg);
    }

    /// Pass `input` to `phi` from this block: a phi move is added at the
    /// end of the block and becomes one of the phi's inputs; the first value
    /// passed to a phi is its register hint.
    pub fn to_phi(&mut self, input: InstrId, phi: InstrId)
        requires
            old(self).ready(),
            old(self).graph.has_room(),
            input.0 < old(self).graph.ni(),
            phi.0 < old(self).graph.ni(),
            old(self).graph.instructions@[phi.0 as int].kind is Phi,
            old(self).graph.instructions@[phi.0 as int].output is Some,
            old(self).graph.instructions@[input.0 as int].output is Some,
            old(self).graph.instructions@[phi.0 as int].inputs@.len() < 2,
            !old(self).graph.blocks@[old(self).block.0 as int].ended,
        ensures
            final(self).ready(),
            final(self).block == old(self).block,
            *final(final(self).graph) == *final(old(self).graph),
            ({
                let g0 = *old(self).graph;
                let g1 = *final(self).graph;
                let r = g0.ni();
                let out = g0.instructions@[phi.0 as int].output->0;
                &&& g1.ni() == r + 1
                &&& g1.instructions@[r as int].kind == InstrKind::<K>::ToPhi(
                    g0.instructions@[phi.0 as int].kind->Phi_0,
                )
                &&& g1.instructions@[r as int].output == Some(out)
                &&& g1.instructions@[r as int].inputs@ == seq![input]
                &&& g1.instructions@[r as int].block == old(self).block
                &&& g1.instructions@[phi.0 as int].inputs@ == g0.instructions@[phi.0 as int].inputs@.push(
                    InstrId(r as usize),
                )
                &&& g1.blocks@[old(self).block.0 as int].instructions@ == g0.blocks@[old(
                    self,
                ).block.0 as int].instructions@.push(InstrId(r as usize))
                &&& g1.intervals@[out.0 as int].hint == if g0.intervals@[out.0 as int].hint is None {
                    g0.instructions@[input.0 as int].output
                } else {
                    g0.intervals@[out.0 as int].hint
                }
            }),
    {
        let group = match self.graph.instructions[phi.0].kind {
            InstrKind::Phi(g) => g,
            _ => 0,
        };
        let out = self.graph.get_output(&phi);
        let inp = self.graph.get_output(&input);

        // Insert one hint
        if self.graph.intervals[out.0].hint.is_none() {
            self.graph.intervals[out.0].hint = Some(inp);
        }
        let ghost g0 = *self.graph;
        let res = Instruction::new_empty(self.graph, InstrKind::ToPhi(group), vec![input]);
        assert(self.graph.intervals@[out.0 as int] == g0.intervals@[out.0 as int]);
        self.graph.instructions[res.0].output = Some(out);
        self.add_existing(res);
        self.graph.instructions[phi.0].inputs.push(res);
    }

    /// Close the block.
    pub fn end(&mut self)
        requires
            old(self).ready(),
            !old(self).graph.blocks@[old(self).block.0 as int].ended,
            old(self).graph.blocks@[old(self).block.0 as int].instructions@.len() > 0,
        ensures
            final(self).ready(),
            final(self).block == old(self).block,
            *final(final(self).graph) == *final(old(self).graph),
            *final(self).graph == (Graph {
                blocks: final(self).graph.blocks,
                ..*old(self).graph
            }),
            final(self).graph.blocks@ == old(self).graph.blocks@.update(
                old(self).block.0 as int,
                Block { ended: true, ..old(self).graph.blocks@[old(self).block.0 as int] },
            ),
    {
        let b = self.block;
        self.graph.blocks[b.0].ended = true;
    }

    /// Jump to `target_id` and close the block.
    pub fn goto(&mut self, target_id: BlockId)
        requires
            old(self).ready(),
            target_id.0 < old(self).graph.nb(),
            !old(self).graph.blocks@[old(self).block.0 as int].ended,
            old(self).graph.blocks@[old(self).block.0 as int].instructions@.len() > 0,
            old(self).graph.blocks@[old(self).block.0 as int].successors@.len() <= 2,
            old(self).graph.blocks@[target_id.0 as int].predecessors@.len() <= 2,
            old(self).graph.blocks@[target_id.0 as int].incoming_forward_branches < usize::MAX,
        ensures
            final(self).ready(),
            final(self).block == old(self).block,
            *final(final(self).graph) == *final(old(self).graph),
            ({
                let b = old(self).block.0 as int;
                let t = target_id.0 as int;
                let g0 = *old(self).graph;
                let g1 = *final(self).graph;
                &&& g1.blocks@[b].successors@ == g0.blocks@[b].successors@.push(target_id)
                &&& g1.blocks@[t].predecessors@ == g0.blocks@[t].predecessors@.push(old(self).block)
                &&& g1.blocks@[t].incoming_forward_branches == g0.blocks@[t].incoming_forward_branches + 1
                &&& g1.blocks@[b].ended
                &&& g1.instructions@ == g0.instructions@
                &&& g1.intervals@ == g0.intervals@
                &&& g1.nb() == g0.nb()
                &&& g1.blocks@[b] == (Block {
                    successors: g1.blocks@[b].successors,
                    predecessors: g1.blocks@[b].predecessors,
                    incoming_forward_branches: g1.blocks@[b].incoming_forward_branches,
                    ended: true,
                    ..g0.blocks@[b]
                })
                &&& b != t ==> g1.blocks@[t] == (Block {
                    predecessors: g1.blocks@[t].predecessors,
                    incoming_forward_branches: g1.blocks@[t].incoming_forward_branches,
                    ..g0.blocks@[t]
                })
                &&& b != t ==> g1.blocks@[b].predecessors == g0.blocks@[b].predecessors
                    && g1.blocks@[b].incoming_forward_branches == g0.blocks@[b].incoming_forward_branches
                &&& forall|c: int| 0 <= c < g0.nb() && c != b && c != t ==> #[trigger] g1.blocks@[c] == g0.blocks@[c]
                &&& g1 == (Graph { blocks: g1.blocks, ..g0 })
            }),
    {
        let b = self.block;
        self.graph.blocks[b.0].successors.push(target_id);
        self.graph.blocks[target_id.0].predecessors.push(b);
        self.graph.blocks[target_id.0].incoming_forward_branches =
            self.graph.blocks[target_id.0].incoming_forward_branches + 1;
        self.end();
    }

    /// Branch to `left` or `right` and close the block.
    pub fn branch(&mut self, left: BlockId, right: BlockId)
        requires
            old(self).ready(),
            left.0 < old(self).graph.nb(),
            right.0 < old(self).graph.nb(),
            !old(self).graph.blocks@[old(self).block.0 as int].ended,
            old(self).graph.blocks@[old(self).block.0 as int].instructions@.len() > 0,
            old(self).graph.blocks@[old(self).block.0 as int].successors@.len() <= 1,
            old(self).graph.blocks@[left.0 as int].predecessors@.len() <= 2,
            old(self).graph.blocks@[right.0 as int].predecessors@.len() <= 2,
            old(self).graph.blocks@[left.0 as int].incoming_forward_branches < usize::MAX,
            old(self).graph.blocks@[right.0 as int].incoming_forward_branches < usize::MAX,
            left == right ==> old(self).graph.blocks@[left.0 as int].predecessors@.len() <= 1
                && old(self).graph.blocks@[left.0 as int].incoming_forward_branches < usize::MAX - 1,
        ensures
            final(self).ready(),
            final(self).block == old(self).block,
            *final(final(self).graph) == *final(old(self).graph),
            ({
                let b = old(self).block.0 as int;
                let g0 = *old(self).graph;
                let g1 = *final(self).graph;
                &&& g1.blocks@[b].successors@ == g0.blocks@[b].successors@.push(left).push(right)
                &&& g1.blocks@[b].ended
                &&& g1.instructions@ == g0.instructions@
                &&& g1.intervals@ == g0.intervals@
                &&& g1.nb() == g0.nb()
                &&& left != right ==> {
                    &&& g1.blocks@[left.0 as int].predecessors@ == g0.blocks@[left.0 as int].predecessors@.push(old(self).block)
                    &&& g1.blocks@[right.0 as int].predecessors@ == g0.blocks@[right.0 as int].predecessors@.push(old(self).block)
                    &&& g1.blocks@[left.0 as int].incoming_forward_branches == g0.blocks@[left.0 as int].incoming_forward_branches + 1
                    &&& g1.blocks@[right.0 as int].incoming_forward_branches == g0.blocks@[right.0 as int].incoming_forward_branches + 1
                }
                &&& left == right ==> {
                    &&& g1.blocks@[left.0 as int].predecessors@ == g0.blocks@[left.0 as int].predecessors@.push(old(self).block).push(old(self).block)
                    &&& g1.blocks@[left.0 as int].incoming_forward_branches == g0.blocks@[left.0 as int].incoming_forward_branches + 2
                }
                &&& forall|c: int| 0 <= c < g0.nb() && c != b && c != left.0 && c != right.0 ==> #[trigger] g1.blocks@[c] == g0.blocks@[c]
                &&& g1 == (Graph { blocks: g1.blocks, ..g0 })
            }),
    {
        let b = self.block;
        self.graph.blocks[b.0].successors.push(left);
        self.graph.blocks[b.0].successors.push(right);
        self.graph.blocks[left.0].predecessors.push(b);
        self.graph.blocks[left.0].incoming_forward_branches =
            self.graph.blocks[left.0].incoming_forward_branches + 1;
        self.graph.blocks[right.0].predecessors.push(b);
        self.graph.blocks[right.0].incoming_forward_branches =
            self.graph.blocks[right.0].incoming_forward_branches + 1;
        self.end();
    }

    /// Make the block the graph's entry block.
    pub fn make_root(&mut self)
        requires
            old(self).ready(),
        ensures
            final(self).ready(),
            final(self).block == old(self).block,
            *final(final(self).graph) == *final(old(self).graph),
            *final(self).graph == (Graph { root: Some(old(self).block), ..*old(self).graph }),
    {
        let b = self.block;
        self.graph.set_root(b);
    }
}

} // verus!
