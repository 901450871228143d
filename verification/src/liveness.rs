use vstd::prelude::*;
use crate::api::KindHelper;
use crate::bitset::{BitSet, lemma_size_below, lemma_size_grows};
use crate::graph::{Graph, Block};
use crate::ids::{BlockId, IntervalId};

verus! {

impl<K> Graph<K> {
    /// Instruction number `j` of block `b` defines interval `x`.
    pub open spec fn defines(&self, b: int, j: int, x: int) -> bool {
        let id = self.blocks@[b].instructions@[j];
        0 <= id.0 < self.ni() && out_is(self.instructions@[id.0 as int].output, x)
    }

    /// Instruction number `j` of block `b` reads interval `x` (through the
    /// output of one of its inputs).
    pub open spec fn reads(&self, b: int, j: int, x: int) -> bool {
        let id = self.blocks@[b].instructions@[j];
        &&& 0 <= id.0 < self.ni()
        &&& exists|k: int| 0 <= k < self.instructions@[id.0 as int].inputs@.len() && {
            let input = #[trigger] self.instructions@[id.0 as int].inputs@[k];
            0 <= input.0 < self.ni() && out_is(self.instructions@[input.0 as int].output, x)
        }
    }

    /// Some instruction of block `b` before number `j` (or `j` itself)
    /// defines `x`.
    pub open spec fn defined_upto(&self, b: int, j: int, x: int) -> bool {
        exists|k: int| 0 <= k <= j && #[trigger] self.defines(b, k, x)
    }

    /// What flows out of block `b` is what flows into its successors.
    pub open spec fn live_out_eq(&self, b: int) -> bool {
        forall|x: int| #[trigger] self.blocks@[b].live_out.has(x) == exists|s: int|
            0 <= s < self.blocks@[b].successors@.len() && self.blocks@[(#[trigger] self.blocks@[b].successors@[s]).0 as int].live_in.has(x)
    }

    /// What flows into block `b` is what flows out of it and is not
    /// defined there, and what it reads before defining.
    pub open spec fn live_in_eq(&self, b: int) -> bool {
        forall|x: int| #[trigger] self.blocks@[b].live_in.has(x) == ((self.blocks@[b].live_out.has(x)
            && !self.blocks@[b].live_kill.has(x)) || self.blocks@[b].live_gen.has(x))
    }

    /// The live sets of all blocks are a fixpoint of the dataflow equations.
    pub open spec fn liveness_fixpoint(&self) -> bool {
        forall|b: int| 0 <= b < self.nb() ==> #[trigger] self.live_out_eq(b) && self.live_in_eq(b)
    }

    /// Only the live sets of the blocks differ.
    pub open spec fn same_but_live(&self, g0: &Graph<K>) -> bool {
        &&& self.wf()
        &&& self.same_but_blocks(g0)
        &&& self.block_id == g0.block_id
        &&& self.nb() == g0.nb()
        &&& forall|b: int| 0 <= b < self.nb() ==> same_frame(#[trigger] self.blocks@[b], g0.blocks@[b])
    }
}

/// The optional interval is `x`.
pub open spec fn out_is(o: Option<IntervalId>, x: int) -> bool {
    o is Some && (o->0).0 == x
}

/// `x` is in `kill0` or defined by one of the first `j` instructions of
/// block `b`.
pub open spec fn kill_prefix<K>(g: Graph<K>, b: int, j: int, kill0: BitSet, x: int) -> bool {
    kill0.has(x) || exists|jj: int| 0 <= jj < j && #[trigger] g.defines(b, jj, x)
}

/// `x` is in `gen0`, or (not being in `kill0`) read by one of the first `j`
/// instructions of block `b` before the block defines it.
pub open spec fn gen_prefix<K>(g: Graph<K>, b: int, j: int, kill0: BitSet, gen0: BitSet, x: int) -> bool {
    gen0.has(x) || (!kill0.has(x) && exists|jj: int| 0 <= jj < j && #[trigger] g.reads(b, jj, x)
        && !g.defined_upto(b, jj, x))
}

/// Two blocks that differ at most in their live sets.
pub open spec fn same_frame(a: Block, b: Block) -> bool {
    &&& a.id == b.id
    &&& a.instructions == b.instructions
    &&& a.successors == b.successors
    &&& a.predecessors == b.predecessors
    &&& a.loop_index == b.loop_index
    &&& a.loop_depth == b.loop_depth
    &&& a.incoming_forward_branches == b.incoming_forward_branches
    &&& a.ended == b.ended
}

/// Block `s[i]` occurs only once in `s`.
pub open spec fn unique_at(s: Seq<BlockId>, i: int) -> bool {
    forall|i2: int| 0 <= i2 < s.len() && i2 != i ==> s[i2] != s[i]
}

/// Some input of instruction `id` has no output.
pub open spec fn lacks_input<K>(g: Graph<K>, id: int) -> bool {
    exists|k: int| 0 <= k < g.instructions@[id].inputs@.len()
        && g.instructions@[(#[trigger] g.instructions@[id].inputs@[k]).0 as int].output is None
}

/// Some instruction of block `b` has an input without an output.
pub open spec fn block_lacks<K>(g: Graph<K>, b: int) -> bool {
    exists|j: int| 0 <= j < g.blocks@[b].instructions@.len() && lacks_input(g, (#[trigger] g.blocks@[b].instructions@[j]).0 as int)
}

/// Some block of `blocks` has an instruction with an input without an
/// output.
pub open spec fn blocks_lack<K>(g: Graph<K>, blocks: Seq<BlockId>) -> bool {
    exists|i: int| 0 <= i < blocks.len() && block_lacks(g, (#[trigger] blocks[i]).0 as int)
}

/// Live variable analysis over intervals.
pub trait Liveness {
    fn liveness_analysis(&mut self) -> Result<(), String>;
}

impl<K: KindHelper> Graph<K> {
    /// For each block: `live_kill` gains the intervals its instructions
    /// define, `live_gen` those they read before any instruction of the
    /// block (the reading one included) defines them. Fails when an input
    /// has no output.
    pub fn build_local(&mut self, blocks: &Vec<BlockId>) -> (r: Result<(), String>)
        requires
            old(self).wf(),
            crate::graph::blocks_below(blocks@, old(self).nb()),
        ensures
            r is Err <==> blocks_lack(*old(self), blocks@),
            r is Ok ==> final(self).same_but_live(old(self)),
            r is Ok ==> forall|b: int| 0 <= b < final(self).nb() && !(exists|ii: int| 0 <= ii < blocks@.len() && blocks@[ii].0 == b)
                ==> #[trigger] final(self).blocks@[b] == old(self).blocks@[b],
            r is Ok ==> forall|i: int| 0 <= i < blocks@.len() && unique_at(blocks@, i) ==> {
                let b = (#[trigger] blocks@[i]).0 as int;
                let g0 = *old(self);
                let g1 = *final(self);
                let n = g0.blocks@[b].instructions@.len() as int;
                &&& forall|x: int| #[trigger] g1.blocks@[b].live_kill.has(x) == kill_prefix(g0, b, n, g0.blocks@[b].live_kill, x)
                &&& forall|x: int| #[trigger] g1.blocks@[b].live_gen.has(x) == gen_prefix(g0, b, n, g0.blocks@[b].live_kill, g0.blocks@[b].live_gen, x)
            },
    {
        let ghost g0 = *self;
        let nl = blocks.len();
        let mut i: usize = 0;
        while i < nl
            invariant
                g0 == *old(self),
                g0.wf(),
                nl == blocks@.len(),
                forall|ii: int| 0 <= ii < i ==> !block_lacks(g0, (#[trigger] blocks@[ii]).0 as int),
                crate::graph::blocks_below(blocks@, g0.nb()),
                i <= nl,
                self.same_but_live(&g0),
                forall|c: int| 0 <= c < g0.nb() && !(exists|ii: int| 0 <= ii < i && blocks@[ii].0 == c)
                    ==> #[trigger] self.blocks@[c] == g0.blocks@[c],
                forall|ii: int| 0 <= ii < i && unique_at(blocks@, ii) ==> {
                    let c = (#[trigger] blocks@[ii]).0 as int;
                    let n = g0.blocks@[c].instructions@.len() as int;
                    &&& forall|x: int| #[trigger] self.blocks@[c].live_kill.has(x) == kill_prefix(g0, c, n, g0.blocks@[c].live_kill, x)
                    &&& forall|x: int| #[trigger] self.blocks@[c].live_gen.has(x) == gen_prefix(g0, c, n, g0.blocks@[c].live_kill, g0.blocks@[c].live_gen, x)
                },
            decreases nl - i,
        {
            let b = blocks[i].0;
            let instructions = self.blocks[b].instructions.clone();
            let m = instructions.len();
            let mut kill = self.blocks[b].live_kill.copy();
            let mut gen = self.blocks[b].live_gen.copy();
            let ghost kill0 = kill;
            let ghost gen0 = gen;
            let ghost gs = *self;
            let mut j: usize = 0;
            while j < m
                invariant
                    g0 == *old(self),
                    g0.wf(),
                    i < nl,
                    nl == blocks@.len(),
                    b == blocks@[i as int].0,
                    forall|jj: int| 0 <= jj < j ==> !lacks_input(g0, (#[trigger] instructions@[jj]).0 as int),
                    self.same_but_live(&g0),
                    *self == gs,
                    b < g0.nb(),
                    instructions@ == g0.blocks@[b as int].instructions@,
                    m == instructions@.len(),
                    j <= m,
                    kill.bound() <= g0.nv(),
                    gen.bound() <= g0.nv(),
                    forall|x: int| #[trigger] kill.has(x) == kill_prefix(g0, b as int, j as int, kill0, x),
                    forall|x: int| #[trigger] gen.has(x) == gen_prefix(g0, b as int, j as int, kill0, gen0, x),
                decreases m - j,
            {
                let instr = instructions[j];
                let ghost kill_j = kill;
                match self.instructions[instr.0].output {
                    Some(output) => {
                        kill.insert(output.0);
                    },
                    None => {},
                }
                proof {
                    assert forall|x: int| #[trigger] kill.has(x) == kill_prefix(g0, b as int, j + 1, kill0, x) by {
                        if kill_prefix(g0, b as int, j + 1, kill0, x) && !kill0.has(x) {
                            let jj = choose|jj: int| 0 <= jj < j + 1 && #[trigger] g0.defines(b as int, jj, x);
                            if jj < j {
                                assert(kill_prefix(g0, b as int, j as int, kill0, x));
                            }
                        }
                        if kill_j.has(x) {
                            assert(kill_prefix(g0, b as int, j as int, kill0, x));
                            if !kill0.has(x) {
                                let jj = choose|jj: int| 0 <= jj < j && #[trigger] g0.defines(b as int, jj, x);
                                assert(0 <= jj < j + 1 && g0.defines(b as int, jj, x));
                            }
                        }
                        if kill.has(x) && !kill_j.has(x) {
                            assert(g0.defines(b as int, j as int, x));
                        }
                    }
                }
                let inputs = self.instructions[instr.0].inputs.clone();
                let ni = inputs.len();
                let mut k: usize = 0;
                while k < ni
                    invariant
                        g0 == *old(self),
                        g0.wf(),
                        i < nl,
                        nl == blocks@.len(),
                        b == blocks@[i as int].0,
                        forall|jj: int| 0 <= jj < j ==> !lacks_input(g0, (#[trigger] instructions@[jj]).0 as int),
                        forall|kk: int| 0 <= kk < k ==> g0.instructions@[(#[trigger] inputs@[kk]).0 as int].output is Some,
                        self.same_but_live(&g0),
                        *self == gs,
                        b < g0.nb(),
                        instructions@ == g0.blocks@[b as int].instructions@,
                        m == instructions@.len(),
                        j < m,
                        instr == instructions@[j as int],
                        inputs@ == g0.instructions@[instr.0 as int].inputs@,
                        ni == inputs@.len(),
                        crate::graph::instrs_below(inputs@, g0.ni()),
                        k <= ni,
                        kill.bound() <= g0.nv(),
                        gen.bound() <= g0.nv(),
                        forall|x: int| #[trigger] kill.has(x) == kill_prefix(g0, b as int, j + 1, kill0, x),
                        forall|x: int| #[trigger] gen.has(x) == (gen_prefix(g0, b as int, j as int, kill0, gen0, x)
                            || (!kill.has(x) && exists|kk: int| 0 <= kk < k && out_is(g0.instructions@[(#[trigger] inputs@[kk]).0 as int].output, x))),
                    decreases ni - k,
                {
                    let input = match self.instructions[inputs[k].0].output {
                        Some(o) => o,
                        None => {
                            proof {
                                assert(g0.instructions@[instr.0 as int].inputs@[k as int] == inputs@[k as int]);
                                assert(lacks_input(g0, instructions@[j as int].0 as int));
                                assert(block_lacks(g0, blocks@[i as int].0 as int));
                                assert(blocks_lack(g0, blocks@));
                            }
                            return Err("Instruction output".to_owned());
                        },
                    };
                    let ghost gen_k = gen;
                    if !kill.contains(input.0) {
                        gen.insert(input.0);
                    }
                    proof {
                        assert forall|x: int| #[trigger] gen.has(x) == (gen_prefix(g0, b as int, j as int, kill0, gen0, x)
                            || (!kill.has(x) && exists|kk: int| 0 <= kk < k + 1 && out_is(g0.instructions@[(#[trigger] inputs@[kk]).0 as int].output, x))) by {
                            if x == input.0 && !kill.has(x) {
                                assert(out_is(g0.instructions@[inputs@[k as int].0 as int].output, x));
                            }
                            if !kill.has(x) && exists|kk: int| 0 <= kk < k + 1 && out_is(g0.instructions@[(#[trigger] inputs@[kk]).0 as int].output, x) {
                                let kk = choose|kk: int| 0 <= kk < k + 1 && out_is(g0.instructions@[(#[trigger] inputs@[kk]).0 as int].output, x);
                                if kk < k {
                                    assert(gen_k.has(x));
                                } else {
                                    assert(x == input.0);
                                }
                            }
                        }
                    }
                    k = k + 1;
                }
                proof {
                    assert(!lacks_input(g0, instructions@[j as int].0 as int)) by {
                        if lacks_input(g0, instr.0 as int) {
                            let kk = choose|kk: int| 0 <= kk < g0.instructions@[instr.0 as int].inputs@.len()
                                && g0.instructions@[(#[trigger] g0.instructions@[instr.0 as int].inputs@[kk]).0 as int].output is None;
                            assert(inputs@[kk] == g0.instructions@[instr.0 as int].inputs@[kk]);
                        }
                    }
                    assert forall|jj: int| 0 <= jj < j + 1 implies !lacks_input(g0, (#[trigger] instructions@[jj]).0 as int) by {
                        if jj == j {
                            assert(instructions@[jj] == instr);
                        }
                    }
                }
                proof {
                    assert forall|x: int| #[trigger] gen.has(x) == gen_prefix(g0, b as int, j + 1, kill0, gen0, x) by {
                        let reads_j = exists|kk: int| 0 <= kk < ni && out_is(g0.instructions@[(#[trigger] inputs@[kk]).0 as int].output, x);
                        assert(reads_j == g0.reads(b as int, j as int, x)) by {
                            if g0.reads(b as int, j as int, x) {
                                let kk = choose|kk: int| 0 <= kk < g0.instructions@[instr.0 as int].inputs@.len() && {
                                    let input = #[trigger] g0.instructions@[instr.0 as int].inputs@[kk];
                                    0 <= input.0 < g0.ni() && out_is(g0.instructions@[input.0 as int].output, x)
                                };
                                assert(out_is(g0.instructions@[inputs@[kk].0 as int].output, x));
                            }
                            if reads_j {
                                let kk = choose|kk: int| 0 <= kk < ni && out_is(g0.instructions@[(#[trigger] inputs@[kk]).0 as int].output, x);
                                assert(inputs@[kk].0 < g0.ni());
                                assert(g0.instructions@[instr.0 as int].inputs@[kk] == inputs@[kk]);
                            }
                        }
                        assert(kill.has(x) == (kill0.has(x) || g0.defined_upto(b as int, j as int, x))) by {
                            if kill.has(x) && !kill0.has(x) {
                                let jj = choose|jj: int| 0 <= jj < j + 1 && #[trigger] g0.defines(b as int, jj, x);
                                assert(g0.defined_upto(b as int, j as int, x));
                            }
                            if g0.defined_upto(b as int, j as int, x) {
                                let jj = choose|jj: int| 0 <= jj <= j && #[trigger] g0.defines(b as int, jj, x);
                                assert(kill_prefix(g0, b as int, j + 1, kill0, x));
                            }
                        }
                        if gen_prefix(g0, b as int, j + 1, kill0, gen0, x) && !gen0.has(x) {
                            let jj = choose|jj: int| 0 <= jj < j + 1 && #[trigger] g0.reads(b as int, jj, x)
                                && !g0.defined_upto(b as int, jj, x);
                            if jj < j {
                                assert(gen_prefix(g0, b as int, j as int, kill0, gen0, x));
                            }
                        }
                        if gen_prefix(g0, b as int, j as int, kill0, gen0, x) && !gen0.has(x) {
                            let jj = choose|jj: int| 0 <= jj < j && #[trigger] g0.reads(b as int, jj, x)
                                && !g0.defined_upto(b as int, jj, x);
                            assert(0 <= jj < j + 1);
                        }
                    }
                }
                j = j + 1;
            }
            proof {
                assert(!block_lacks(g0, blocks@[i as int].0 as int)) by {
                    if block_lacks(g0, b as int) {
                        let jj = choose|jj: int| 0 <= jj < g0.blocks@[b as int].instructions@.len()
                            && lacks_input(g0, (#[trigger] g0.blocks@[b as int].instructions@[jj]).0 as int);
                        assert(instructions@[jj] == g0.blocks@[b as int].instructions@[jj]);
                    }
                }
                assert forall|ii: int| 0 <= ii < i + 1 implies !block_lacks(g0, (#[trigger] blocks@[ii]).0 as int) by {
                    if ii == i {
                        assert(blocks@[ii].0 == b);
                    }
                }
            }
            let ghost g1 = *self;
            self.blocks[b].live_kill = kill;
            self.blocks[b].live_gen = gen;
            proof {
                assert(same_frame(self.blocks@[b as int], g1.blocks@[b as int]));
                assert forall|c: int| 0 <= c < g0.nb() && !(exists|ii: int| 0 <= ii < i + 1 && blocks@[ii].0 == c)
                    implies #[trigger] self.blocks@[c] == g0.blocks@[c] by {
                    assert(!(exists|ii: int| 0 <= ii < i && blocks@[ii].0 == c)) by {
                        if exists|ii: int| 0 <= ii < i && blocks@[ii].0 == c {
                            let ii = choose|ii: int| 0 <= ii < i && blocks@[ii].0 == c;
                            assert(0 <= ii < i + 1 && blocks@[ii].0 == c);
                        }
                    }
                    assert(c != b);
                }
                if unique_at(blocks@, i as int) {
                    assert(!(exists|ii: int| 0 <= ii < i && blocks@[ii].0 == b)) by {
                        if exists|ii: int| 0 <= ii < i && blocks@[ii].0 == b {
                            let ii = choose|ii: int| 0 <= ii < i && blocks@[ii].0 == b;
                            assert(blocks@[ii] == blocks@[i as int]);
                        }
                    }
                    assert(g1.blocks@[b as int] == g0.blocks@[b as int]);
                }
                assert forall|ii: int| 0 <= ii < i + 1 && unique_at(blocks@, ii) implies {
                    let c = (#[trigger] blocks@[ii]).0 as int;
                    let n = g0.blocks@[c].instructions@.len() as int;
                    &&& forall|x: int| #[trigger] self.blocks@[c].live_kill.has(x) == kill_prefix(g0, c, n, g0.blocks@[c].live_kill, x)
                    &&& forall|x: int| #[trigger] self.blocks@[c].live_gen.has(x) == gen_prefix(g0, c, n, g0.blocks@[c].live_kill, g0.blocks@[c].live_gen, x)
                } by {
                    if ii < i {
                        assert(blocks@[ii] != blocks@[i as int]);
                        assert(self.blocks@[blocks@[ii].0 as int] == g1.blocks@[blocks@[ii].0 as int]);
                    }
                }
            }
            i = i + 1;
        }
        proof {
            if blocks_lack(g0, blocks@) {
                let ii = choose|ii: int| 0 <= ii < blocks@.len() && block_lacks(g0, (#[trigger] blocks@[ii]).0 as int);
            }
        }
        Ok(())
    }
}


proof fn lemma_eqs_transfer<K>(g1: Graph<K>, g2: Graph<K>, lo: int, hi: int)
    requires
        g1.blocks@ == g2.blocks@,
        forall|c: int| lo <= c < hi ==> #[trigger] g1.live_out_eq(c) && g1.live_in_eq(c),
    ensures
        forall|c: int| #![trigger g2.live_out_eq(c)] lo <= c < hi ==> g2.live_out_eq(c),
        forall|c: int| #![trigger g2.live_in_eq(c)] lo <= c < hi ==> g2.live_in_eq(c),
{
    assert forall|c: int| #![trigger g2.live_out_eq(c)] lo <= c < hi implies g2.live_out_eq(c) by {
        assert(g1.live_out_eq(c));
    }
    assert forall|c: int| #![trigger g2.live_in_eq(c)] lo <= c < hi implies g2.live_in_eq(c) by {
        assert(g1.live_out_eq(c));
        assert(g1.live_in_eq(c));
    }
}

impl<K> Graph<K> {
    /// The live sets of block `b` hold no more than the equations give from
    /// the current sets: `live_out` only what some successor's `live_in`
    /// holds, `live_in` only what `live_out` holds outside `live_kill`, or
    /// what `live_gen` holds.
    pub open spec fn below_equations(&self, b: int) -> bool {
        &&& forall|x: int| #[trigger] self.blocks@[b].live_out.has(x) ==> exists|s: int|
            0 <= s < self.blocks@[b].successors@.len() && self.blocks@[(#[trigger] self.blocks@[b].successors@[s]).0 as int].live_in.has(x)
        &&& forall|x: int| #[trigger] self.blocks@[b].live_in.has(x) ==> ((self.blocks@[b].live_out.has(x)
            && !self.blocks@[b].live_kill.has(x)) || self.blocks@[b].live_gen.has(x))
    }

    /// Every block's live sets are below the equations.
    pub open spec fn all_below_equations(&self) -> bool {
        forall|b: int| 0 <= b < self.nb() ==> #[trigger] self.below_equations(b)
    }

    /// The sets `ins` and `outs` (one of each for each block) are closed
    /// under the equations: `outs[b]` holds what the `ins` of the
    /// successors of `b` hold, and `ins[b]` what `outs[b]` holds outside
    /// `live_kill`, and what `live_gen` holds.
    pub open spec fn closed_sets(&self, ins: Seq<Set<int>>, outs: Seq<Set<int>>) -> bool {
        &&& ins.len() == self.nb()
        &&& outs.len() == self.nb()
        &&& forall|b: int, s: int, x: int| #![trigger outs[b].contains(x), self.blocks@[b].successors@[s]]
            0 <= b < self.nb() && 0 <= s < self.blocks@[b].successors@.len()
            && ins[self.blocks@[b].successors@[s].0 as int].contains(x) ==> outs[b].contains(x)
        &&& forall|b: int, x: int| #![trigger ins[b].contains(x)] 0 <= b < self.nb()
            && ((outs[b].contains(x) && !self.blocks@[b].live_kill.has(x)) || self.blocks@[b].live_gen.has(x))
            ==> ins[b].contains(x)
    }

    /// The live sets of each block lie within `ins` and `outs`.
    pub open spec fn live_within(&self, ins: Seq<Set<int>>, outs: Seq<Set<int>>) -> bool {
        &&& forall|b: int, x: int| 0 <= b < self.nb() && #[trigger] self.blocks@[b].live_in.has(x) ==> ins[b].contains(x)
        &&& forall|b: int, x: int| 0 <= b < self.nb() && #[trigger] self.blocks@[b].live_out.has(x) ==> outs[b].contains(x)
    }

    /// The live sets lie within every family of sets closed under the
    /// equations: they are the least solution.
    pub open spec fn live_least(&self) -> bool {
        forall|ins: Seq<Set<int>>, outs: Seq<Set<int>>| #[trigger] self.closed_sets(ins, outs) ==> self.live_within(ins, outs)
    }
}

/// How many members the live-in and live-out sets of the first `k` blocks
/// hold together.
pub open spec fn live_total(blocks: Seq<Block>, k: int) -> int
    decreases k,
{
    if k <= 0 {
        0
    } else {
        live_total(blocks, k - 1) + blocks[k - 1].live_in.size() + blocks[k - 1].live_out.size()
    }
}

proof fn lemma_live_total_update(blocks: Seq<Block>, b: int, nb: Block, k: int)
    requires
        0 <= b < blocks.len(),
        0 <= k <= blocks.len(),
    ensures
        live_total(blocks.update(b, nb), k) == live_total(blocks, k) + if b < k {
            nb.live_in.size() + nb.live_out.size() - blocks[b].live_in.size() - blocks[b].live_out.size()
        } else {
            0
        },
    decreases k,
{
    if k > 0 {
        lemma_live_total_update(blocks, b, nb, k - 1);
    }
}

proof fn lemma_live_total_bound(blocks: Seq<Block>, k: int, n: nat)
    requires
        0 <= k <= blocks.len(),
        forall|c: int| 0 <= c < blocks.len() ==> (#[trigger] blocks[c]).live_in.bound() <= n && blocks[c].live_out.bound() <= n,
    ensures
        0 <= live_total(blocks, k) <= 2 * k * n,
    decreases k,
{
    if k > 0 {
        lemma_live_total_bound(blocks, k - 1, n);
        lemma_size_below(blocks[k - 1].live_in, n);
        lemma_size_below(blocks[k - 1].live_out, n);
        assert(2 * (k - 1) * n + 2 * n == 2 * k * n) by (nonlinear_arith);
    }
}

/// The live sets of all blocks lie below `n`.
pub open spec fn live_bounded(blocks: Seq<Block>, n: nat) -> bool {
    forall|c: int| 0 <= c < blocks.len() ==> (#[trigger] blocks[c]).live_in.bound() <= n && blocks[c].live_out.bound() <= n
}

/// Setting `live_out` of block `b` to the union of its successors'
/// `live_in` keeps every block below the equations, and only adds members.
proof fn lemma_out_grows<K>(g1: Graph<K>, g2: Graph<K>, b: int, n: nat)
    requires
        0 <= b < g1.nb(),
        g2.blocks@ == g1.blocks@.update(b, g2.blocks@[b]),
        g2.blocks@[b] == (Block { live_out: g2.blocks@[b].live_out, ..g1.blocks@[b] }),
        forall|x: int| #[trigger] g2.blocks@[b].live_out.has(x) == exists|s: int| 0 <= s < g1.blocks@[b].successors@.len()
            && g1.blocks@[(#[trigger] g1.blocks@[b].successors@[s]).0 as int].live_in.has(x),
        live_bounded(g1.blocks@, n),
        live_bounded(g2.blocks@, n),
        g1.all_below_equations(),
        g1.live_least(),
        forall|c: int| 0 <= c < g1.nb() ==> crate::graph::blocks_below((#[trigger] g1.blocks@[c]).successors@, g1.nb()),
    ensures
        g2.all_below_equations(),
        g2.live_least(),
        live_total(g2.blocks@, g2.nb() as int) >= live_total(g1.blocks@, g1.nb() as int),
        !g2.blocks@[b].live_out.same_as(&g1.blocks@[b].live_out)
            ==> live_total(g2.blocks@, g2.nb() as int) > live_total(g1.blocks@, g1.nb() as int),
{
    let o1 = g1.blocks@[b].live_out;
    let o2 = g2.blocks@[b].live_out;
    assert(g1.below_equations(b));
    assert forall|ins: Seq<Set<int>>, outs: Seq<Set<int>>| #[trigger] g2.closed_sets(ins, outs) implies g2.live_within(ins, outs) by {
        assert forall|c: int| 0 <= c < g2.nb() implies (#[trigger] g2.blocks@[c]).successors == g1.blocks@[c].successors
            && g2.blocks@[c].live_gen == g1.blocks@[c].live_gen && g2.blocks@[c].live_kill == g1.blocks@[c].live_kill
            && g2.blocks@[c].live_in == g1.blocks@[c].live_in by {}
        assert(g1.closed_sets(ins, outs)) by {
            assert forall|c: int, t: int, x: int| #![trigger outs[c].contains(x), g1.blocks@[c].successors@[t]]
                0 <= c < g1.nb() && 0 <= t < g1.blocks@[c].successors@.len()
                && ins[g1.blocks@[c].successors@[t].0 as int].contains(x) implies outs[c].contains(x) by {
                assert(g2.blocks@[c].successors@[t] == g1.blocks@[c].successors@[t]);
            }
            assert forall|c: int, x: int| #![trigger ins[c].contains(x)] 0 <= c < g1.nb()
                && ((outs[c].contains(x) && !g1.blocks@[c].live_kill.has(x)) || g1.blocks@[c].live_gen.has(x))
                implies ins[c].contains(x) by {
                assert(g2.blocks@[c].live_kill == g1.blocks@[c].live_kill);
            }
        }
        assert(g1.live_within(ins, outs));
        assert forall|c: int, x: int| 0 <= c < g2.nb() && #[trigger] g2.blocks@[c].live_out.has(x) implies outs[c].contains(x) by {
            if c == b {
                let s = choose|s: int| 0 <= s < g1.blocks@[b].successors@.len()
                    && g1.blocks@[(#[trigger] g1.blocks@[b].successors@[s]).0 as int].live_in.has(x);
                let t = g1.blocks@[b].successors@[s].0 as int;
                assert(ins[t].contains(x));
                assert(g2.blocks@[b].successors@[s] == g1.blocks@[b].successors@[s]);
            } else {
                assert(g1.blocks@[c].live_out.has(x));
            }
        }
        assert forall|c: int, x: int| 0 <= c < g2.nb() && #[trigger] g2.blocks@[c].live_in.has(x) implies ins[c].contains(x) by {
            assert(g1.blocks@[c].live_in.has(x));
        }
    }
    assert forall|i: int| #[trigger] o1.has(i) implies o2.has(i) by {
        let s = choose|s: int| 0 <= s < g1.blocks@[b].successors@.len()
            && g1.blocks@[(#[trigger] g1.blocks@[b].successors@[s]).0 as int].live_in.has(i);
    }
    assert(g1.blocks@[b].live_out.bound() <= n);
    assert(g2.blocks@[b].live_out.bound() <= n);
    lemma_size_grows(o1, o2, n);
    lemma_live_total_update(g1.blocks@, b, g2.blocks@[b], g1.nb() as int);
    assert forall|c: int| 0 <= c < g2.nb() implies #[trigger] g2.blocks@[c].live_in == g1.blocks@[c].live_in by {
        if c == b {
        }
    }
    assert forall|c: int| 0 <= c < g2.nb() implies #[trigger] g2.below_equations(c) by {
        assert(g1.below_equations(c));
        let sc = g1.blocks@[c].successors@;
        assert(g2.blocks@[c].successors@ == sc);
        assert forall|x: int| #[trigger] g2.blocks@[c].live_out.has(x) implies exists|s: int|
            0 <= s < g2.blocks@[c].successors@.len() && g2.blocks@[(#[trigger] g2.blocks@[c].successors@[s]).0 as int].live_in.has(x) by {
            if c == b {
                let s = choose|s: int| 0 <= s < g1.blocks@[b].successors@.len()
                    && g1.blocks@[(#[trigger] g1.blocks@[b].successors@[s]).0 as int].live_in.has(x);
                assert(g2.blocks@[sc[s].0 as int].live_in == g1.blocks@[sc[s].0 as int].live_in);
            } else {
                let s = choose|s: int| 0 <= s < sc.len() && g1.blocks@[(#[trigger] sc[s]).0 as int].live_in.has(x);
                assert(g2.blocks@[sc[s].0 as int].live_in == g1.blocks@[sc[s].0 as int].live_in);
            }
        }
        assert forall|x: int| #[trigger] g2.blocks@[c].live_in.has(x) implies ((g2.blocks@[c].live_out.has(x)
            && !g2.blocks@[c].live_kill.has(x)) || g2.blocks@[c].live_gen.has(x)) by {
            assert(g1.blocks@[c].live_in.has(x));
            if c == b && o1.has(x) {
                assert(o2.has(x));
            }
        }
    }
}

/// Setting `live_in` of block `b` to its `live_out` without `live_kill`,
/// plus `live_gen`, keeps every block below the equations, and only adds
/// members.
proof fn lemma_in_grows<K>(g1: Graph<K>, g2: Graph<K>, b: int, n: nat)
    requires
        0 <= b < g1.nb(),
        g2.blocks@ == g1.blocks@.update(b, g2.blocks@[b]),
        g2.blocks@[b] == (Block { live_in: g2.blocks@[b].live_in, ..g1.blocks@[b] }),
        forall|x: int| #[trigger] g2.blocks@[b].live_in.has(x) == ((g1.blocks@[b].live_out.has(x)
            && !g1.blocks@[b].live_kill.has(x)) || g1.blocks@[b].live_gen.has(x)),
        live_bounded(g1.blocks@, n),
        live_bounded(g2.blocks@, n),
        g1.all_below_equations(),
        g1.live_least(),
        forall|c: int| 0 <= c < g1.nb() ==> crate::graph::blocks_below((#[trigger] g1.blocks@[c]).successors@, g1.nb()),
    ensures
        g2.all_below_equations(),
        g2.live_least(),
        live_total(g2.blocks@, g2.nb() as int) >= live_total(g1.blocks@, g1.nb() as int),
        !g2.blocks@[b].live_in.same_as(&g1.blocks@[b].live_in)
            ==> live_total(g2.blocks@, g2.nb() as int) > live_total(g1.blocks@, g1.nb() as int),
{
    let i1 = g1.blocks@[b].live_in;
    let i2 = g2.blocks@[b].live_in;
    assert(g1.below_equations(b));
    assert forall|ins: Seq<Set<int>>, outs: Seq<Set<int>>| #[trigger] g2.closed_sets(ins, outs) implies g2.live_within(ins, outs) by {
        assert forall|c: int| 0 <= c < g2.nb() implies (#[trigger] g2.blocks@[c]).successors == g1.blocks@[c].successors
            && g2.blocks@[c].live_gen == g1.blocks@[c].live_gen && g2.blocks@[c].live_kill == g1.blocks@[c].live_kill
            && g2.blocks@[c].live_out == g1.blocks@[c].live_out by {}
        assert(g1.closed_sets(ins, outs)) by {
            assert forall|c: int, t: int, x: int| #![trigger outs[c].contains(x), g1.blocks@[c].successors@[t]]
                0 <= c < g1.nb() && 0 <= t < g1.blocks@[c].successors@.len()
                && ins[g1.blocks@[c].successors@[t].0 as int].contains(x) implies outs[c].contains(x) by {
                assert(g2.blocks@[c].successors@[t] == g1.blocks@[c].successors@[t]);
            }
            assert forall|c: int, x: int| #![trigger ins[c].contains(x)] 0 <= c < g1.nb()
                && ((outs[c].contains(x) && !g1.blocks@[c].live_kill.has(x)) || g1.blocks@[c].live_gen.has(x))
                implies ins[c].contains(x) by {
                assert(g2.blocks@[c].live_kill == g1.blocks@[c].live_kill);
            }
        }
        assert(g1.live_within(ins, outs));
        assert forall|c: int, x: int| 0 <= c < g2.nb() && #[trigger] g2.blocks@[c].live_in.has(x) implies ins[c].contains(x) by {
            if c == b {
                if g1.blocks@[b].live_out.has(x) {
                    assert(outs[b].contains(x));
                }
            } else {
                assert(g1.blocks@[c].live_in.has(x));
            }
        }
        assert forall|c: int, x: int| 0 <= c < g2.nb() && #[trigger] g2.blocks@[c].live_out.has(x) implies outs[c].contains(x) by {
            assert(g1.blocks@[c].live_out.has(x));
        }
    }
    assert forall|x: int| #[trigger] i1.has(x) implies i2.has(x) by {}
    assert(g1.blocks@[b].live_in.bound() <= n);
    assert(g2.blocks@[b].live_in.bound() <= n);
    lemma_size_grows(i1, i2, n);
    lemma_live_total_update(g1.blocks@, b, g2.blocks@[b], g1.nb() as int);
    assert forall|c: int| 0 <= c < g2.nb() implies #[trigger] g2.below_equations(c) by {
        assert(g1.below_equations(c));
        let sc = g1.blocks@[c].successors@;
        assert(g2.blocks@[c].successors@ == sc);
        assert forall|x: int| #[trigger] g2.blocks@[c].live_out.has(x) implies exists|s: int|
            0 <= s < g2.blocks@[c].successors@.len() && g2.blocks@[(#[trigger] g2.blocks@[c].successors@[s]).0 as int].live_in.has(x) by {
            assert(g1.blocks@[c].live_out.has(x));
            let s = choose|s: int| 0 <= s < sc.len() && g1.blocks@[(#[trigger] sc[s]).0 as int].live_in.has(x);
            let t = sc[s].0 as int;
            if t == b {
                assert(i2.has(x));
            } else {
                assert(g2.blocks@[t] == g1.blocks@[t]);
            }
        }
    }
}

impl<K: KindHelper> Graph<K> {
    /// Iterate the dataflow equations from empty live-in and live-out sets,
    /// blocks in reverse order, until a whole pass changes nothing:
    /// `live_out` becomes the union of the successors' `live_in`, and
    /// `live_in` becomes `live_out` without `live_kill`, plus `live_gen`.
    /// The sets only grow and are bounded, so this comes to an end, with
    /// the live sets a fixpoint of the equations.
    pub fn build_global(&mut self, blocks: &Vec<BlockId>) -> (r: Result<(), String>)
        requires
            old(self).wf(),
            blocks@.len() == old(self).nb(),
            forall|k: int| 0 <= k < blocks@.len() ==> (#[trigger] blocks@[k]).0 == k,
        ensures
            r is Ok,
            final(self).same_but_live(old(self)),
            final(self).liveness_fixpoint(),
            final(self).live_least(),
            forall|b: int| 0 <= b < final(self).nb() ==> (#[trigger] final(self).blocks@[b]).live_gen
                == old(self).blocks@[b].live_gen && final(self).blocks@[b].live_kill == old(self).blocks@[b].live_kill,
    {
        let ghost g0 = *self;
        let n = blocks.len();
        let ghost nv: nat = g0.nv();
        // Start from empty live-in and live-out sets
        let mut c: usize = 0;
        while c < n
            invariant
                g0.wf(),
                n == g0.nb(),
                c <= n,
                self.same_but_live(&g0),
                forall|b: int| 0 <= b < self.nb() ==> (#[trigger] self.blocks@[b]).live_gen == g0.blocks@[b].live_gen
                    && self.blocks@[b].live_kill == g0.blocks@[b].live_kill,
                forall|b: int, x: int| 0 <= b < c ==> !#[trigger] self.blocks@[b].live_in.has(x),
                forall|b: int, x: int| 0 <= b < c ==> !#[trigger] self.blocks@[b].live_out.has(x),
            decreases n - c,
        {
            let ghost before = *self;
            self.blocks[c].live_in = BitSet::new();
            self.blocks[c].live_out = BitSet::new();
            proof {
                assert(same_frame(self.blocks@[c as int], before.blocks@[c as int]));
                assert forall|b: int, x: int| 0 <= b < c + 1 implies !#[trigger] self.blocks@[b].live_in.has(x) by {
                    if b < c {
                        assert(self.blocks@[b] == before.blocks@[b]);
                    }
                }
                assert forall|b: int, x: int| 0 <= b < c + 1 implies !#[trigger] self.blocks@[b].live_out.has(x) by {
                    if b < c {
                        assert(self.blocks@[b] == before.blocks@[b]);
                    }
                }
            }
            c = c + 1;
        }
        proof {
            assert forall|b: int| 0 <= b < self.nb() implies #[trigger] self.below_equations(b) by {
                assert forall|x: int| !(#[trigger] self.blocks@[b].live_out.has(x)) by {}
                assert forall|x: int| !(#[trigger] self.blocks@[b].live_in.has(x)) by {}
            }
            assert forall|ins: Seq<Set<int>>, outs: Seq<Set<int>>| #[trigger] self.closed_sets(ins, outs)
                implies self.live_within(ins, outs) by {}
            assert(live_bounded(self.blocks@, nv)) by {
                assert forall|b: int| 0 <= b < self.nb() implies (#[trigger] self.blocks@[b]).live_in.bound() <= nv
                    && self.blocks@[b].live_out.bound() <= nv by {
                    assert(crate::graph::block_ok(self.blocks@[b], self.nb(), self.ni(), self.nv()));
                }
            }
            lemma_live_total_bound(self.blocks@, n as int, nv);
        }
        let ghost bound: int = 2 * (n as int) * (nv as int);
        let mut change = true;
        while change
            invariant
                g0.wf(),
                n == g0.nb(),
                nv == g0.nv(),
                bound == 2 * (n as int) * (nv as int),
                self.same_but_live(&g0),
                forall|b: int| 0 <= b < self.nb() ==> (#[trigger] self.blocks@[b]).live_gen == g0.blocks@[b].live_gen
                    && self.blocks@[b].live_kill == g0.blocks@[b].live_kill,
                !change ==> self.liveness_fixpoint(),
                self.all_below_equations(),
                self.live_least(),
                0 <= live_total(self.blocks@, n as int) <= bound,
            decreases 2 * (bound - live_total(self.blocks@, n as int)) + if change { 1int } else { 0int },
        {
            change = false;
            let ghost start = *self;
            let ghost t0 = live_total(self.blocks@, n as int);
            let mut k: usize = n;
            while k > 0
                invariant
                    g0.wf(),
                    n == g0.nb(),
                    nv == g0.nv(),
                    k <= n,
                    self.same_but_live(&g0),
                    forall|b: int| 0 <= b < self.nb() ==> (#[trigger] self.blocks@[b]).live_gen == g0.blocks@[b].live_gen
                        && self.blocks@[b].live_kill == g0.blocks@[b].live_kill,
                    !change ==> self.blocks@ == start.blocks@,
                    !change ==> forall|c: int| k <= c < n ==> #[trigger] self.live_out_eq(c) && self.live_in_eq(c),
                    self.all_below_equations(),
                    self.live_least(),
                    live_total(self.blocks@, n as int) >= t0,
                    change ==> live_total(self.blocks@, n as int) > t0,
                decreases k,
            {
                let b = k - 1;
                let succs = self.blocks[b].successors.clone();
                assert(succs@ =~= self.blocks@[b as int].successors@);
                let m = succs.len();
                let mut tmp = BitSet::new();
                let mut j: usize = 0;
                while j < m
                    invariant
                        g0.wf(),
                        self.same_but_live(&g0),
                        b < n,
                        n == g0.nb(),
                        m == succs@.len(),
                        succs@ == self.blocks@[b as int].successors@,
                        j <= m,
                        tmp.bound() <= g0.nv(),
                        forall|x: int| #[trigger] tmp.has(x) == exists|s: int| 0 <= s < j
                            && self.blocks@[(#[trigger] succs@[s]).0 as int].live_in.has(x),
                    decreases m - j,
                {
                    let ghost t0 = tmp;
                    tmp.union_with(&self.blocks[succs[j].0].live_in);
                    proof {
                        assert forall|x: int| #[trigger] tmp.has(x) == exists|s: int| 0 <= s < j + 1
                            && self.blocks@[(#[trigger] succs@[s]).0 as int].live_in.has(x) by {
                            if tmp.has(x) && !t0.has(x) {
                                assert(self.blocks@[succs@[j as int].0 as int].live_in.has(x));
                            }
                            if exists|s: int| 0 <= s < j + 1 && self.blocks@[(#[trigger] succs@[s]).0 as int].live_in.has(x) {
                                let s = choose|s: int| 0 <= s < j + 1 && self.blocks@[(#[trigger] succs@[s]).0 as int].live_in.has(x);
                                if s < j {
                                    assert(t0.has(x));
                                }
                            }
                        }
                    }
                    j = j + 1;
                }
                let ghost before = *self;
                // Propagate succ.live_in to block.live_out
                if !self.blocks[b].live_out.same(&tmp) {
                    self.blocks[b].live_out = tmp;
                    change = true;
                    proof {
                        assert(same_frame(self.blocks@[b as int], before.blocks@[b as int]));
                        lemma_out_grows(before, *self, b as int, nv);
                    }
                }
                // Propagate union(diff(live_out, live_kill), live_gen) to live_in
                let mut new_in = self.blocks[b].live_out.difference(&self.blocks[b].live_kill);
                new_in.union_with(&self.blocks[b].live_gen);
                let ghost mid = *self;
                if !new_in.same(&self.blocks[b].live_in) {
                    self.blocks[b].live_in = new_in;
                    change = true;
                    proof {
                        assert(same_frame(self.blocks@[b as int], mid.blocks@[b as int]));
                        lemma_in_grows(mid, *self, b as int, nv);
                    }
                }
                proof {
                    if !change {
                        assert(self.blocks@ == before.blocks@);
                        lemma_eqs_transfer(before, *self, k as int, n as int);
                        assert(self.live_out_eq(b as int));
                        assert(self.live_in_eq(b as int));
                    }
                }
                k = k - 1;
            }
            proof {
                lemma_live_total_bound(self.blocks@, n as int, nv);
            }
        }
        Ok(())
    }

    /// Compute `live_gen`, `live_kill`, `live_in` and `live_out` of every
    /// block.
    pub fn analyze_liveness(&mut self) -> (r: Result<(), String>)
        requires
            old(self).wf(),
        ensures
            r is Err <==> exists|b: int| 0 <= b < old(self).nb() && #[trigger] block_lacks(*old(self), b),
            r is Ok ==> final(self).same_but_live(old(self)),
            r is Ok ==> final(self).live_least(),
            r is Ok ==> final(self).liveness_fixpoint(),
            r is Ok ==> forall|b: int| #![trigger final(self).blocks@[b]] 0 <= b < final(self).nb() ==> {
                let g0 = *old(self);
                let g1 = *final(self);
                let n = g0.blocks@[b].instructions@.len() as int;
                &&& forall|x: int| #[trigger] g1.blocks@[b].live_kill.has(x) == kill_prefix(g0, b, n, g0.blocks@[b].live_kill, x)
                &&& forall|x: int| #[trigger] g1.blocks@[b].live_gen.has(x) == gen_prefix(g0, b, n, g0.blocks@[b].live_kill, g0.blocks@[b].live_gen, x)
            },
    {
        let blocks = self.get_block_list();
        let ghost g0 = *self;
        proof {
            if exists|b: int| 0 <= b < g0.nb() && #[trigger] block_lacks(g0, b) {
                let b = choose|b: int| 0 <= b < g0.nb() && #[trigger] block_lacks(g0, b);
                assert(blocks@[b].0 == b);
                assert(blocks_lack(g0, blocks@));
            }
        }
        match self.build_local(&blocks) {
            Ok(()) => {},
            Err(e) => {
                proof {
                    let i = choose|i: int| 0 <= i < blocks@.len() && block_lacks(g0, (#[trigger] blocks@[i]).0 as int);
                    assert(blocks@[i].0 == i);
                    assert(block_lacks(g0, i));
                }
                return Err(e);
            },
        }
        let ghost g1 = *self;
        self.build_global(&blocks)?;
        proof {
            assert forall|b: int| #![trigger self.blocks@[b]] 0 <= b < self.nb() implies {
                let n = g0.blocks@[b].instructions@.len() as int;
                &&& forall|x: int| #[trigger] self.blocks@[b].live_kill.has(x) == kill_prefix(g0, b, n, g0.blocks@[b].live_kill, x)
                &&& forall|x: int| #[trigger] self.blocks@[b].live_gen.has(x) == gen_prefix(g0, b, n, g0.blocks@[b].live_kill, g0.blocks@[b].live_gen, x)
            } by {
                assert(blocks@[b].0 == b);
                assert(unique_at(blocks@, b)) by {
                    assert forall|i2: int| 0 <= i2 < blocks@.len() && i2 != b implies blocks@[i2] != blocks@[b] by {
                        assert(blocks@[i2].0 == i2);
                    }
                }
                assert(g1.blocks@[b].live_kill == self.blocks@[b].live_kill);
            }
            assert forall|b: int| 0 <= b < self.nb() implies same_frame(#[trigger] self.blocks@[b], g0.blocks@[b]) by {
                assert(same_frame(self.blocks@[b], g1.blocks@[b]));
                assert(same_frame(g1.blocks@[b], g0.blocks@[b]));
            }
        }
        Ok(())
    }
}

} // verus!

verus! {

impl<K: KindHelper> Liveness for Graph<K> {
    fn liveness_analysis(&mut self) -> (r: Result<(), String>)
        ensures
            r is Err <==> !old(self).wf() || exists|b: int| 0 <= b < old(self).nb() && #[trigger] block_lacks(*old(self), b),
            r is Ok ==> final(self).same_but_live(old(self)) && final(self).liveness_fixpoint(),
            r is Ok ==> final(self).live_least(),
    {
        if !self.check_wf() {
            return Err("malformed graph".to_owned());
        }
        self.analyze_liveness()
    }
}

} // verus!
