use vstd::prelude::*;
use crate::allocator::Config;
use crate::api::KindHelper;
use crate::graph::{Graph, Interval, LiveRange, Use, UseKind};
use crate::ids::{BlockId, InstrId, IntervalId};
use crate::split::interval_evolves;

verus! {

/// How many of the uses ask for a fixed register.
pub open spec fn fixed_count(us: Seq<Use>) -> nat
    decreases us.len(),
{
    if us.len() == 0 {
        0
    } else {
        fixed_count(us.drop_last()) + if us.last().kind is UseFixed { 1nat } else { 0nat }
    }
}

impl<K> Graph<K> {
    /// Only the ranges and the uses of the intervals may differ.
    pub open spec fn same_but_ranges(&self, g0: &Graph<K>) -> bool {
        &&& self.same_but_intervals(g0)
        &&& self.interval_id == g0.interval_id
        &&& self.nv() == g0.nv()
        &&& forall|v: int| 0 <= v < g0.nv() ==> (#[trigger] self.intervals@[v]).id == g0.intervals@[v].id
            && self.intervals@[v].value == g0.intervals@[v].value
            && self.intervals@[v].hint == g0.intervals@[v].hint
            && self.intervals@[v].parent == g0.intervals@[v].parent
            && self.intervals@[v].children@ == g0.intervals@[v].children@
            && self.intervals@[v].fixed == g0.intervals@[v].fixed
    }
}

pub proof fn lemma_same_but_ranges_wf<K>(g1: Graph<K>, g0: Graph<K>)
    requires
        g0.wf(),
        g1.same_but_ranges(&g0),
    ensures
        g1.wf(),
{
    assert forall|v: int| 0 <= v < g1.nv() implies (#[trigger] g1.intervals@[v]).id.0 == v
        && crate::graph::interval_ok(g1.intervals@[v], g1.nv()) by {
        assert(crate::graph::interval_ok(g0.intervals@[v], g0.nv()));
    }
}

pub proof fn lemma_same_but_ranges_trans<K>(g2: Graph<K>, g1: Graph<K>, g0: Graph<K>)
    requires
        g1.same_but_ranges(&g0),
        g2.same_but_ranges(&g1),
    ensures
        g2.same_but_ranges(&g0),
{
    assert forall|v: int| 0 <= v < g0.nv() implies (#[trigger] g2.intervals@[v]).id == g0.intervals@[v].id
        && g2.intervals@[v].value == g0.intervals@[v].value
        && g2.intervals@[v].hint == g0.intervals@[v].hint
        && g2.intervals@[v].parent == g0.intervals@[v].parent
        && g2.intervals@[v].children@ == g0.intervals@[v].children@
        && g2.intervals@[v].fixed == g0.intervals@[v].fixed by {
        assert(g1.intervals@[v].id == g0.intervals@[v].id);
    }
}

/// The interval has a use at `pos`.
pub open spec fn has_use_at(iv: Interval, pos: int) -> bool {
    exists|k: int| 0 <= k < iv.uses@.len() && (#[trigger] iv.uses@[k]).pos.0 == pos
}

impl<K> Graph<K> {
    /// Interval `v` has ranges and a use at `pos`.
    pub open spec fn used_at(&self, v: IntervalId, pos: int) -> bool {
        self.intervals@[v.0 as int].ranges@.len() > 0 && has_use_at(self.intervals@[v.0 as int], pos)
    }

    /// No interval loses its ranges or any of its uses.
    pub open spec fn grows(&self, g0: &Graph<K>) -> bool {
        &&& self.nv() == g0.nv()
        &&& forall|v: int| 0 <= v < g0.nv() && g0.intervals@[v].ranges@.len() > 0
            ==> #[trigger] self.intervals@[v].ranges@.len() > 0
        &&& forall|v: int, pos: int| 0 <= v < g0.nv() && #[trigger] has_use_at(g0.intervals@[v], pos)
            ==> has_use_at(self.intervals@[v], pos)
    }

    /// The output of instruction `i` has ranges and a use where it is
    /// defined: at `i`, or right after a call.
    pub open spec fn output_ranged(&self, i: int) -> bool {
        self.instructions@[i].output matches Some(o) ==> self.used_at(o, i) || self.used_at(o, i + 1)
    }

    /// The value read by input `j` of instruction `i` has ranges and a use
    /// at `i`.
    pub open spec fn input_ranged(&self, i: int, j: int) -> bool {
        self.instructions@[self.instructions@[i].inputs@[j].0 as int].output matches Some(o) ==> self.used_at(o, i)
    }

    /// Temporary `t` of instruction `i` has ranges and a use at `i`.
    pub open spec fn temp_ranged(&self, i: int, t: int) -> bool {
        self.used_at(self.instructions@[i].temporary@[t], i)
    }

    /// Every value instruction `i` defines, reads or needs has ranges and a
    /// use there.
    pub open spec fn instr_ranged(&self, i: int) -> bool {
        &&& self.output_ranged(i)
        &&& forall|j: int| 0 <= j < self.instructions@[i].inputs@.len() ==> #[trigger] self.input_ranged(i, j)
        &&& forall|t: int| 0 <= t < self.instructions@[i].temporary@.len() ==> #[trigger] self.temp_ranged(i, t)
    }

    /// Every value live at the end of block `b` has ranges.
    pub open spec fn live_out_ranged(&self, b: int) -> bool {
        forall|x: int| #[trigger] self.blocks@[b].live_out.has(x) ==> self.intervals@[x].ranges@.len() > 0
    }

    /// The values of block `b` have their ranges and uses.
    pub open spec fn block_ranged(&self, b: int) -> bool {
        &&& self.live_out_ranged(b)
        &&& forall|k: int| 0 <= k < self.blocks@[b].instructions@.len()
            ==> #[trigger] self.instr_ranged(self.blocks@[b].instructions@[k].0 as int)
    }
}

proof fn lemma_grows_refl<K>(g: Graph<K>)
    ensures
        g.grows(&g),
{
}

proof fn lemma_grows_trans<K>(g2: Graph<K>, g1: Graph<K>, g0: Graph<K>)
    requires
        g2.grows(&g1),
        g1.grows(&g0),
    ensures
        g2.grows(&g0),
{
    assert forall|v: int, pos: int| 0 <= v < g0.nv() && #[trigger] has_use_at(g0.intervals@[v], pos)
        implies has_use_at(g2.intervals@[v], pos) by {
        assert(has_use_at(g1.intervals@[v], pos));
    }
    assert forall|v: int| 0 <= v < g0.nv() && g0.intervals@[v].ranges@.len() > 0
        implies #[trigger] g2.intervals@[v].ranges@.len() > 0 by {
        assert(g1.intervals@[v].ranges@.len() > 0);
    }
}

proof fn lemma_used_at_grows<K>(g1: Graph<K>, g0: Graph<K>, v: IntervalId, pos: int)
    requires
        g1.grows(&g0),
        v.0 < g0.nv(),
        g0.used_at(v, pos),
    ensures
        g1.used_at(v, pos),
{
    assert(g0.intervals@[v.0 as int].ranges@.len() > 0);
    assert(has_use_at(g0.intervals@[v.0 as int], pos));
}

/// The claims made so far for instruction `i` (its output, its first `t`
/// temporaries and first `j` inputs) survive growth.
proof fn lemma_partial_grows<K>(g1: Graph<K>, g0: Graph<K>, i: int, t: int, j: int)
    requires
        g0.wf(),
        g1.grows(&g0),
        g1.instructions@ == g0.instructions@,
        0 <= i < g0.ni(),
        t <= g0.instructions@[i].temporary@.len(),
        j <= g0.instructions@[i].inputs@.len(),
        g0.output_ranged(i),
        forall|tt: int| 0 <= tt < t ==> #[trigger] g0.temp_ranged(i, tt),
        forall|jj: int| 0 <= jj < j ==> #[trigger] g0.input_ranged(i, jj),
    ensures
        g1.output_ranged(i),
        forall|tt: int| 0 <= tt < t ==> #[trigger] g1.temp_ranged(i, tt),
        forall|jj: int| 0 <= jj < j ==> #[trigger] g1.input_ranged(i, jj),
{
    let ins = g0.instructions@[i];
    assert(crate::graph::instr_ok(ins, g0.ni(), g0.nv()));
    if let Some(o) = ins.output {
        if g0.used_at(o, i) {
            lemma_used_at_grows(g1, g0, o, i);
        } else {
            lemma_used_at_grows(g1, g0, o, i + 1);
        }
    }
    assert forall|tt: int| 0 <= tt < t implies #[trigger] g1.temp_ranged(i, tt) by {
        assert(g0.temp_ranged(i, tt));
        lemma_used_at_grows(g1, g0, ins.temporary@[tt], i);
    }
    assert forall|jj: int| 0 <= jj < j implies #[trigger] g1.input_ranged(i, jj) by {
        assert(g0.input_ranged(i, jj));
        let x = ins.inputs@[jj].0 as int;
        assert(crate::graph::instr_ok(g0.instructions@[x], g0.ni(), g0.nv()));
        if let Some(o) = g0.instructions@[x].output {
            lemma_used_at_grows(g1, g0, o, i);
        }
    }
}

proof fn lemma_instr_ranged_grows<K>(g1: Graph<K>, g0: Graph<K>, i: int)
    requires
        g0.wf(),
        g1.grows(&g0),
        g1.instructions@ == g0.instructions@,
        0 <= i < g0.ni(),
        g0.instr_ranged(i),
    ensures
        g1.instr_ranged(i),
{
    let ins = g0.instructions@[i];
    assert forall|tt: int| 0 <= tt < ins.temporary@.len() implies #[trigger] g0.temp_ranged(i, tt) by {}
    assert forall|jj: int| 0 <= jj < ins.inputs@.len() implies #[trigger] g0.input_ranged(i, jj) by {}
    lemma_partial_grows(g1, g0, i, ins.temporary@.len() as int, ins.inputs@.len() as int);
}

proof fn lemma_block_ranged_grows<K>(g1: Graph<K>, g0: Graph<K>, b: int)
    requires
        g0.wf(),
        g1.grows(&g0),
        g1.instructions@ == g0.instructions@,
        g1.blocks@ == g0.blocks@,
        0 <= b < g0.nb(),
        g0.block_ranged(b),
    ensures
        g1.block_ranged(b),
{
    assert(crate::graph::block_ok(g0.blocks@[b], g0.nb(), g0.ni(), g0.nv()));
    assert forall|x: int| #[trigger] g1.blocks@[b].live_out.has(x) implies g1.intervals@[x].ranges@.len() > 0 by {
        assert(g0.blocks@[b].live_out.has(x));
        assert(g0.intervals@[x].ranges@.len() > 0);
    }
    assert forall|k: int| 0 <= k < g1.blocks@[b].instructions@.len()
        implies #[trigger] g1.instr_ranged(g1.blocks@[b].instructions@[k].0 as int) by {
        assert(g0.instr_ranged(g0.blocks@[b].instructions@[k].0 as int));
        lemma_instr_ranged_grows(g1, g0, g0.blocks@[b].instructions@[k].0 as int);
    }
}

/// The claims for the block being built (its live-out values and its
/// instructions from `i - 1` on) survive from `g0`, where they hold from `i`
/// on, to `g1`, which adds instruction `i - 1`.
proof fn lemma_block_claims_grow<K>(g1: Graph<K>, g0: Graph<K>, b: int, i: int)
    requires
        g0.wf(),
        g1.grows(&g0),
        g1.instructions@ == g0.instructions@,
        g1.blocks@ == g0.blocks@,
        0 <= b < g0.nb(),
        1 <= i <= g0.blocks@[b].instructions@.len(),
        g0.live_out_ranged(b),
        forall|k: int| i <= k < g0.blocks@[b].instructions@.len() ==> #[trigger] g0.instr_ranged(
            g0.blocks@[b].instructions@[k].0 as int),
        g1.instr_ranged(g1.blocks@[b].instructions@[i - 1].0 as int),
    ensures
        g1.live_out_ranged(b),
        forall|k: int| i - 1 <= k < g1.blocks@[b].instructions@.len() ==> #[trigger] g1.instr_ranged(
            g1.blocks@[b].instructions@[k].0 as int),
{
    assert(crate::graph::block_ok(g0.blocks@[b], g0.nb(), g0.ni(), g0.nv()));
    assert forall|x: int| #[trigger] g1.blocks@[b].live_out.has(x) implies g1.intervals@[x].ranges@.len() > 0 by {
        assert(g0.blocks@[b].live_out.has(x));
        assert(g0.intervals@[x].ranges@.len() > 0);
    }
    assert forall|k: int| i - 1 <= k < g1.blocks@[b].instructions@.len()
        implies #[trigger] g1.instr_ranged(g1.blocks@[b].instructions@[k].0 as int) by {
        if k >= i {
            assert(g0.instr_ranged(g0.blocks@[b].instructions@[k].0 as int));
            lemma_instr_ranged_grows(g1, g0, g0.blocks@[b].instructions@[k].0 as int);
        }
    }
}

impl<K: KindHelper> Graph<K> {
    /// Add a range in front of the ranges of interval `id`; fails, changing
    /// nothing, where the range does not come before them.
    fn add_range_to(&mut self, id: IntervalId, start: InstrId, end: InstrId) -> (r: Result<(), String>)
        requires
            old(self).wf(),
            id.0 < old(self).nv(),
        ensures
            final(self).wf(),
            final(self).same_but_ranges(old(self)),
            final(self).grows(old(self)),
            r is Err ==> *final(self) == *old(self),
            r is Ok ==> final(self).intervals@[id.0 as int].ranges@.len() > 0,
            r is Ok <==> (old(self).intervals@[id.0 as int].ranges@.len() == 0
                || old(self).intervals@[id.0 as int].ranges@[0].start.0 >= end.0),
            r is Ok ==> final(self).intervals@ == old(self).intervals@.update(id.0 as int, (Interval {
                ranges: final(self).intervals@[id.0 as int].ranges,
                ..old(self).intervals@[id.0 as int]
            })),
            r is Ok && old(self).intervals@[id.0 as int].ranges@.len() > 0
                && old(self).intervals@[id.0 as int].ranges@[0].start == end ==> final(self).intervals@[id.0 as int].ranges@
                == old(self).intervals@[id.0 as int].ranges@.update(0, LiveRange {
                    start,
                    end: old(self).intervals@[id.0 as int].ranges@[0].end,
                }),
            r is Ok && !(old(self).intervals@[id.0 as int].ranges@.len() > 0
                && old(self).intervals@[id.0 as int].ranges@[0].start == end) ==> final(self).intervals@[id.0 as int].ranges@
                == seq![LiveRange { start, end }] + old(self).intervals@[id.0 as int].ranges@,
    {
        let iv = &self.intervals[id.0];
        if !(iv.ranges.len() == 0 || iv.ranges[0].start.0 >= end.0) {
            return Err("live ranges out of order".to_owned());
        }
        self.get_mut_interval(&id).add_range(start, end);
        proof {
            lemma_same_but_ranges_wf(*self, *old(self));
            let g0 = *old(self);
            assert forall|v: int, pos: int| 0 <= v < g0.nv() && #[trigger] has_use_at(g0.intervals@[v], pos)
                implies has_use_at(self.intervals@[v], pos) by {
                assert(self.intervals@[v].uses == g0.intervals@[v].uses);
            }
        }
        Ok(())
    }

    /// Add a use in front of the uses of interval `id`; fails, changing
    /// nothing, where an earlier use of another group is there already.
    fn add_use_to(&mut self, id: IntervalId, kind: UseKind, pos: InstrId) -> (r: Result<(), String>)
        requires
            old(self).wf(),
            id.0 < old(self).nv(),
        ensures
            final(self).wf(),
            final(self).same_but_ranges(old(self)),
            final(self).grows(old(self)),
            r is Err ==> *final(self) == *old(self),
            r is Ok ==> has_use_at(final(self).intervals@[id.0 as int], pos.0 as int),
            r is Ok <==> (old(self).intervals@[id.0 as int].uses@.len() == 0
                || old(self).intervals@[id.0 as int].uses@[0].pos.0 > pos.0
                || old(self).intervals@[id.0 as int].uses@[0].kind.spec_group() == kind.spec_group()),
            r is Ok ==> final(self).intervals@ == old(self).intervals@.update(id.0 as int, (Interval {
                uses: final(self).intervals@[id.0 as int].uses,
                ..old(self).intervals@[id.0 as int]
            })),
            r is Ok ==> final(self).intervals@[id.0 as int].uses@ == seq![Use { kind, pos }]
                + old(self).intervals@[id.0 as int].uses@,
    {
        let iv = &self.intervals[id.0];
        if !(iv.uses.len() == 0 || iv.uses[0].pos.0 > pos.0 || iv.uses[0].kind.group() == kind.group()) {
            return Err("uses of different groups at one position".to_owned());
        }
        self.get_mut_interval(&id).add_use(kind, pos);
        proof {
            lemma_same_but_ranges_wf(*self, *old(self));
            let g0 = *old(self);
            assert(self.intervals@[id.0 as int].uses@[0].pos == pos);
            assert forall|v: int, p: int| 0 <= v < g0.nv() && #[trigger] has_use_at(g0.intervals@[v], p)
                implies has_use_at(self.intervals@[v], p) by {
                if v == id.0 {
                    let k = choose|k: int| 0 <= k < g0.intervals@[v].uses@.len() && (#[trigger] g0.intervals@[v].uses@[k]).pos.0 == p;
                    assert(self.intervals@[v].uses@[k + 1] == g0.intervals@[v].uses@[k]);
                } else {
                    assert(self.intervals@[v] == g0.intervals@[v]);
                }
            }
        }
        Ok(())
    }

    /// Move the start of the first range of interval `id` to `pos`.
    fn set_first_start(&mut self, id: IntervalId, pos: InstrId)
        requires
            old(self).wf(),
            id.0 < old(self).nv(),
            old(self).intervals@[id.0 as int].ranges@.len() > 0,
        ensures
            final(self).wf(),
            final(self).same_but_ranges(old(self)),
            final(self).grows(old(self)),
            final(self).intervals@[id.0 as int].ranges@.len() > 0,
            final(self).intervals@[id.0 as int].uses == old(self).intervals@[id.0 as int].uses,
            final(self).intervals@ == old(self).intervals@.update(id.0 as int, (Interval {
                ranges: final(self).intervals@[id.0 as int].ranges,
                ..old(self).intervals@[id.0 as int]
            })),
            final(self).intervals@[id.0 as int].ranges@ == old(self).intervals@[id.0 as int].ranges@.update(0, LiveRange {
                start: pos,
                end: old(self).intervals@[id.0 as int].ranges@[0].end,
            }),
    {
        self.get_mut_interval(&id).first_range().start = pos;
        proof {
            lemma_same_but_ranges_wf(*self, *old(self));
            let g0 = *old(self);
            assert forall|v: int, p: int| 0 <= v < g0.nv() && #[trigger] has_use_at(g0.intervals@[v], p)
                implies has_use_at(self.intervals@[v], p) by {
                assert(self.intervals@[v].uses == g0.intervals@[v].uses);
            }
        }
    }

    /// Build the live ranges and uses of the intervals of `blocks`, last
    /// block first and each block from its last instruction back: values
    /// live at the end of a block live through all of it; an output starts
    /// its interval (right after a call, for a group the call clobbers); a
    /// temporary lives at its instruction; an input lives from the block's
    /// start (or an earlier range) up to its use; and a call holds every
    /// register of the groups it clobbers. On success every value of the
    /// listed blocks (live at a block's end, defined, read or needed as a
    /// temporary) has ranges, with a use at each of its instructions.
    pub fn build_live_ranges(&mut self, blocks: &Vec<BlockId>, config: &Config) -> (r: Result<(), String>)
        requires
            old(self).wf(),
        ensures
            final(self).wf(),
            final(self).same_but_ranges(old(self)),
            r is Ok ==> final(self).grows(old(self)),
            r is Ok ==> forall|bb: int| 0 <= bb < blocks@.len() ==> (#[trigger] blocks@[bb]).0 < final(self).nb()
                && final(self).block_ranged(blocks@[bb].0 as int),
    {
        let ghost g0 = *self;
        proof {
            lemma_grows_refl(g0);
        }
        let mut b: usize = blocks.len();
        while b > 0
            invariant
                b <= blocks@.len(),
                self.wf(),
                self.same_but_ranges(&g0),
                self.grows(&g0),
                g0.wf(),
                g0 == *old(self),
                forall|bb: int| b <= bb < blocks@.len() ==> (#[trigger] blocks@[bb]).0 < self.nb()
                    && self.block_ranged(blocks@[bb].0 as int),
            decreases b,
        {
            let block_id = blocks[b - 1];
            if block_id.0 >= self.blocks.len() {
                return Err("unknown block".to_owned());
            }
            let n_instr = self.blocks[block_id.0].instructions.len();
            if n_instr == 0 {
                return Err("block without instructions".to_owned());
            }
            let block_from = self.blocks[block_id.0].instructions[0];
            let last = self.blocks[block_id.0].instructions[n_instr - 1];
            let block_to = InstrId(last.0 + 1);
            assert(last.0 < self.ni());
            let ghost gb = *self;

            // Values live at the block's end live through all of it
            let live_out = self.blocks[block_id.0].live_out.to_vec();
            let mut k: usize = 0;
            while k < live_out.len()
                invariant
                    self.wf(),
                    self.same_but_ranges(&g0),
                    self.grows(&gb),
                    gb.grows(&g0),
                    g0.wf(),
                    g0 == *old(self),
                    block_id.0 < self.nb(),
                    k <= live_out@.len(),
                    forall|j: int| 0 <= j < live_out@.len() ==> (#[trigger] live_out@[j]) < self.nv(),
                    forall|j: int| 0 <= j < k ==> self.intervals@[(#[trigger] live_out@[j]) as int].ranges@.len() > 0,
                decreases live_out.len() - k,
            {
                let ghost gp = *self;
                self.add_range_to(IntervalId(live_out[k]), block_from, block_to)?;
                proof {
                    lemma_same_but_ranges_trans(*self, gp, g0);
                    lemma_grows_trans(*self, gp, gb);
                    assert forall|j: int| 0 <= j < k + 1 implies self.intervals@[(#[trigger] live_out@[j]) as int].ranges@.len() > 0 by {
                        if j < k {
                            assert(gp.intervals@[live_out@[j] as int].ranges@.len() > 0);
                        }
                    }
                }
                k = k + 1;
            }
            proof {
                let blk = block_id.0 as int;
                assert(crate::graph::block_ok(self.blocks@[blk], self.nb(), self.ni(), self.nv()));
                assert forall|x: int| #[trigger] self.blocks@[blk].live_out.has(x) implies self.intervals@[x].ranges@.len() > 0 by {
                    assert(self.blocks@[blk] == gb.blocks@[blk]);
                    assert(live_out@.contains(x as usize));
                    let a = choose|a: int| 0 <= a < live_out@.len() && live_out@[a] == x as usize;
                    assert(self.intervals@[live_out@[a] as int].ranges@.len() > 0);
                }
                assert(self.live_out_ranged(blk));
            }

            let mut i: usize = n_instr;
            while i > 0
                invariant
                    i <= n_instr,
                    self.wf(),
                    self.same_but_ranges(&g0),
                    self.grows(&gb),
                    gb.grows(&g0),
                    g0.wf(),
                    gb.wf(),
                    g0 == *old(self),
                    block_id.0 < self.nb(),
                    n_instr == self.blocks@[block_id.0 as int].instructions@.len(),
                    block_from == self.blocks@[block_id.0 as int].instructions@[0],
                    self.live_out_ranged(block_id.0 as int),
                    forall|k: int| i <= k < n_instr ==> #[trigger] self.instr_ranged(
                        self.blocks@[block_id.0 as int].instructions@[k].0 as int),
                    forall|bb: int| b <= bb < blocks@.len() ==> (#[trigger] blocks@[bb]).0 < gb.nb()
                        && gb.block_ranged(blocks@[bb].0 as int),
                decreases i,
            {
                let instr_id = self.blocks[block_id.0].instructions[i - 1];
                assert(crate::graph::block_ok(self.blocks@[block_id.0 as int], self.nb(), self.ni(), self.nv()));
                assert(instr_id.0 < self.ni());
                let output = self.instructions[instr_id.0].output;
                let ghost gi = *self;

                // Calls hold every register of the groups they clobber
                let mut group: usize = 0;
                while group < config.register_groups.len()
                    invariant
                        self.wf(),
                        self.same_but_ranges(&g0),
                        self.grows(&gi),
                        g0.wf(),
                        g0 == *old(self),
                        block_id.0 < self.nb(),
                        n_instr == self.blocks@[block_id.0 as int].instructions@.len(),
                        instr_id.0 < self.ni(),
                    decreases config.register_groups.len() - group,
                {
                    if self.instructions[instr_id.0].kind.clobbers(group) {
                        let count = config.register_groups[group];
                        if group >= self.physical.len() || self.physical[group].len() < count {
                            return Err("missing physical intervals".to_owned());
                        }
                        let mut reg: usize = 0;
                        while reg < count
                            invariant
                                self.wf(),
                                self.same_but_ranges(&g0),
                                self.grows(&gi),
                                g0.wf(),
                                g0 == *old(self),
                                group < self.physical@.len(),
                                count <= self.physical@[group as int]@.len(),
                                instr_id.0 < self.ni(),
                            decreases count - reg,
                        {
                            let phys = self.physical[group][reg];
                            assert(crate::graph::intervals_below(self.physical@[group as int]@, self.nv()));
                            let ghost gp = *self;
                            self.add_range_to(phys, instr_id, InstrId(instr_id.0 + 1))?;
                            proof {
                                lemma_same_but_ranges_trans(*self, gp, g0);
                                lemma_grows_trans(*self, gp, gi);
                            }
                            reg = reg + 1;
                        }
                    }
                    group = group + 1;
                }
                assert(crate::graph::instr_ok(self.instructions@[instr_id.0 as int], self.ni(), self.nv()));

                // The output is defined here (right after a call)
                if let Some(out) = output {
                    assert(out.0 < self.nv());
                    let group = self.intervals[out.0].value.group();
                    let clobbers = self.instructions[instr_id.0].kind.clobbers(group);
                    if instr_id.0 >= usize::MAX - 1 {
                        return Err("too many instructions".to_owned());
                    }
                    let pos = if clobbers {
                        InstrId(instr_id.0 + 1)
                    } else {
                        instr_id
                    };
                    let ghost gp = *self;
                    if self.intervals[out.0].ranges.len() != 0 {
                        // Shorten the range: the value is born here
                        self.set_first_start(out, pos);
                    } else {
                        // A short range for a value that is never read
                        self.add_range_to(out, pos, InstrId(pos.0 + 1))?;
                    }
                    proof {
                        lemma_same_but_ranges_trans(*self, gp, g0);
                        lemma_grows_trans(*self, gp, gi);
                    }
                    let out_kind = match self.instructions[instr_id.0].kind.result_kind() {
                        Some(k) => k,
                        None => {
                            return Err("output of an instruction without result".to_owned());
                        },
                    };
                    let ghost gp = *self;
                    self.add_use_to(out, out_kind, pos)?;
                    proof {
                        lemma_same_but_ranges_trans(*self, gp, g0);
                        lemma_grows_trans(*self, gp, gi);
                        assert(self.used_at(out, pos.0 as int));
                    }
                }
                assert(self.output_ranged(instr_id.0 as int));

                // Temporaries live at their instruction
                let n_tmp = self.instructions[instr_id.0].temporary.len();
                let mut t: usize = 0;
                while t < n_tmp
                    invariant
                        self.wf(),
                        self.same_but_ranges(&g0),
                        self.grows(&gi),
                        g0.wf(),
                        g0 == *old(self),
                        block_id.0 < self.nb(),
                        n_instr == self.blocks@[block_id.0 as int].instructions@.len(),
                        instr_id.0 < self.ni(),
                        n_tmp == self.instructions@[instr_id.0 as int].temporary@.len(),
                        t <= n_tmp,
                        self.output_ranged(instr_id.0 as int),
                        forall|tt: int| 0 <= tt < t ==> #[trigger] self.temp_ranged(instr_id.0 as int, tt),
                    decreases n_tmp - t,
                {
                    let tmp = self.instructions[instr_id.0].temporary[t];
                    assert(crate::graph::instr_ok(self.instructions@[instr_id.0 as int], self.ni(), self.nv()));
                    let group = self.intervals[tmp.0].value.group();
                    if self.instructions[instr_id.0].kind.clobbers(group) {
                        return Err("Call instruction can't have temporary registers".to_owned());
                    }
                    let ghost gp = *self;
                    self.add_range_to(tmp, instr_id, InstrId(instr_id.0 + 1))?;
                    let ghost gq = *self;
                    self.add_use_to(tmp, UseKind::UseRegister(group), instr_id)?;
                    proof {
                        lemma_same_but_ranges_trans(gq, gp, g0);
                        lemma_same_but_ranges_trans(*self, gq, g0);
                        lemma_grows_trans(gq, gp, gi);
                        lemma_grows_trans(*self, gq, gi);
                        lemma_grows_trans(*self, gq, gp);
                        lemma_partial_grows(*self, gp, instr_id.0 as int, t as int, 0);
                        assert(self.temp_ranged(instr_id.0 as int, t as int));
                    }
                    t = t + 1;
                }

                // Inputs live from the block's start up to here
                let n_in = self.instructions[instr_id.0].inputs.len();
                let mut j: usize = 0;
                while j < n_in
                    invariant
                        self.wf(),
                        self.same_but_ranges(&g0),
                        self.grows(&gi),
                        g0.wf(),
                        g0 == *old(self),
                        block_id.0 < self.nb(),
                        n_instr == self.blocks@[block_id.0 as int].instructions@.len(),
                        instr_id.0 < self.ni(),
                        n_in == self.instructions@[instr_id.0 as int].inputs@.len(),
                        n_tmp == self.instructions@[instr_id.0 as int].temporary@.len(),
                        j <= n_in,
                        self.output_ranged(instr_id.0 as int),
                        forall|tt: int| 0 <= tt < n_tmp ==> #[trigger] self.temp_ranged(instr_id.0 as int, tt),
                        forall|jj: int| 0 <= jj < j ==> #[trigger] self.input_ranged(instr_id.0 as int, jj),
                    decreases n_in - j,
                {
                    let input_instr = self.instructions[instr_id.0].inputs[j];
                    assert(crate::graph::instr_ok(self.instructions@[instr_id.0 as int], self.ni(), self.nv()));
                    assert(input_instr.0 < self.ni());
                    let input = match self.instructions[input_instr.0].output {
                        Some(o) => o,
                        None => {
                            return Err("input without a value".to_owned());
                        },
                    };
                    assert(crate::graph::instr_ok(self.instructions@[input_instr.0 as int], self.ni(), self.nv()));
                    let ghost gp = *self;
                    if !self.intervals[input.0].covers(instr_id) {
                        self.add_range_to(input, block_from, instr_id)?;
                    } else {
                        proof {
                            lemma_grows_refl(*self);
                            let r = choose|r: int| 0 <= r < self.intervals@[input.0 as int].ranges@.len()
                                && (#[trigger] self.intervals@[input.0 as int].ranges@[r]).spec_covers(instr_id.0 as int);
                        }
                    }
                    let ghost gq = *self;
                    let kind = self.instructions[instr_id.0].kind.use_kind(j);
                    self.add_use_to(input, kind, instr_id)?;
                    proof {
                        lemma_same_but_ranges_trans(gq, gp, g0);
                        lemma_same_but_ranges_trans(*self, gq, g0);
                        lemma_grows_trans(gq, gp, gi);
                        lemma_grows_trans(*self, gq, gi);
                        lemma_grows_trans(*self, gq, gp);
                        lemma_partial_grows(*self, gp, instr_id.0 as int, n_tmp as int, j as int);
                        assert(self.input_ranged(instr_id.0 as int, j as int));
                    }
                    j = j + 1;
                }
                proof {
                    assert(self.instr_ranged(instr_id.0 as int));
                    lemma_block_claims_grow(*self, gi, block_id.0 as int, i as int);
                    assert forall|bb: int| b <= bb < blocks@.len() implies (#[trigger] blocks@[bb]).0 < gb.nb()
                        && gb.block_ranged(blocks@[bb].0 as int) by {}
                }
                i = i - 1;
            }
            proof {
                assert forall|bb: int| b - 1 <= bb < blocks@.len() implies (#[trigger] blocks@[bb]).0 < self.nb()
                    && self.block_ranged(blocks@[bb].0 as int) by {
                    if bb >= b {
                        lemma_block_ranged_grows(*self, gb, blocks@[bb].0 as int);
                    }
                }
                lemma_grows_trans(*self, gb, g0);
            }
            b = b - 1;
        }
        Ok(())
    }

    /// Build the live ranges and uses of the intervals of `blocks` (see
    /// `build_live_ranges`), then split the intervals with several fixed
    /// uses between them.
    pub fn build_ranges(&mut self, blocks: &Vec<BlockId>, config: &Config) -> (r: Result<(), String>)
        requires
            old(self).wf(),
        ensures
            final(self).wf(),
            final(self).frame_unchanged(old(self)),
            old(self).nv() <= final(self).nv(),
            forall|v: int| 0 <= v < old(self).nv() ==> (#[trigger] final(self).intervals@[v]).value
                == old(self).intervals@[v].value && final(self).intervals@[v].fixed == old(self).intervals@[v].fixed,
            forall|v: int| old(self).nv() <= v < final(self).nv() ==> !(#[trigger] final(self).intervals@[v]).fixed
                && final(self).intervals@[v].value is VirtualVal,
            r is Ok ==> exists|mid: Graph<K>| {
                &&& mid.same_but_ranges(old(self))
                &&& forall|bb: int| 0 <= bb < blocks@.len() ==> (#[trigger] blocks@[bb]).0 < mid.nb()
                    && mid.block_ranged(blocks@[bb].0 as int)
                &&& final(self).frame_unchanged(&mid)
                &&& mid.nv() <= final(self).nv()
            },
    {
        let ghost g0 = *self;
        self.build_live_ranges(blocks, config)?;
        let ghost g1 = *self;
        // Now split all intervals with fixed uses
        let res = self.split_fixed();
        proof {
            assert forall|v: int| 0 <= v < g0.nv() implies (#[trigger] self.intervals@[v]).value
                == g0.intervals@[v].value && self.intervals@[v].fixed == g0.intervals@[v].fixed by {
                assert(g1.intervals@[v].value == g0.intervals@[v].value);
            }
            if res is Ok {
                assert(g1.same_but_ranges(&g0));
            }
        }
        res
    }

    /// Split every interval between each two of its uses with fixed
    /// registers, at the best position between them.
    pub fn split_fixed(&mut self) -> (r: Result<(), String>)
        requires
            old(self).wf(),
        ensures
            (forall|v: int| 0 <= v < old(self).nv() ==> fixed_count(#[trigger] old(self).intervals@[v].uses@) <= 1)
                ==> r is Ok && *final(self) == *old(self),
            final(self).wf(),
            final(self).frame_unchanged(old(self)),
            old(self).nv() <= final(self).nv(),
            forall|v: int| 0 <= v < old(self).nv() ==> (#[trigger] final(self).intervals@[v]).value
                == old(self).intervals@[v].value && final(self).intervals@[v].fixed == old(self).intervals@[v].fixed,
            forall|v: int| old(self).nv() <= v < final(self).nv() ==> !(#[trigger] final(self).intervals@[v]).fixed
                && final(self).intervals@[v].value is VirtualVal,
    {
        let ghost g0 = *self;
        let mut list: Vec<IntervalId> = Vec::new();
        let nv = self.intervals.len();
        let mut v: usize = 0;
        while v < nv
            invariant
                v <= nv,
                nv == self.nv(),
                forall|j: int| 0 <= j < list@.len() ==> (#[trigger] list@[j]).0 < nv,
            decreases nv - v,
        {
            let n_uses = self.intervals[v].uses.len();
            let mut u: usize = 0;
            let mut any = false;
            while u < n_uses
                invariant
                    u <= n_uses,
                    v < nv,
                    nv == self.nv(),
                    n_uses == self.intervals@[v as int].uses@.len(),
                decreases n_uses - u,
            {
                if self.intervals[v].uses[u].kind.is_fixed() {
                    any = true;
                }
                u = u + 1;
            }
            if any {
                list.push(IntervalId(v));
            }
            v = v + 1;
        }

        let mut k: usize = 0;
        while k < list.len()
            invariant
                self.wf(),
                g0.wf(),
                g0 == *old(self),
                nv == g0.nv(),
                forall|j: int| 0 <= j < list@.len() ==> (#[trigger] list@[j]).0 < nv,
                self.frame_unchanged(&g0),
                g0.nv() <= self.nv(),
                forall|w: int| 0 <= w < g0.nv() ==> (#[trigger] self.intervals@[w]).value
                    == g0.intervals@[w].value && self.intervals@[w].fixed == g0.intervals@[w].fixed,
                forall|w: int| g0.nv() <= w < self.nv() ==> !(#[trigger] self.intervals@[w]).fixed
                    && self.intervals@[w].value is VirtualVal,
                (forall|w: int| 0 <= w < g0.nv() ==> fixed_count(#[trigger] g0.intervals@[w].uses@) <= 1) ==> *self == g0,
            decreases list.len() - k,
        {
            let cur = list[k];
            // The fixed uses of the interval
            let mut fixed_uses: Vec<crate::graph::Use> = Vec::new();
            let n_uses = self.intervals[cur.0].uses.len();
            let mut u: usize = 0;
            while u < n_uses
                invariant
                    u <= n_uses,
                    cur.0 < self.nv(),
                    n_uses == self.intervals@[cur.0 as int].uses@.len(),
                    fixed_uses@.len() == fixed_count(self.intervals@[cur.0 as int].uses@.take(u as int)),
                decreases n_uses - u,
            {
                let x = self.intervals[cur.0].uses[u];
                proof {
                    let us = self.intervals@[cur.0 as int].uses@;
                    assert(us.take(u + 1).drop_last() =~= us.take(u as int));
                }
                if x.kind.is_fixed() {
                    fixed_uses.push(x);
                }
                u = u + 1;
            }
            proof {
                let us = self.intervals@[cur.0 as int].uses@;
                assert(us.take(n_uses as int) =~= us);
            }
            let m = if fixed_uses.len() > 0 { fixed_uses.len() - 1 } else { 0 };
            let mut i: usize = 0;
            while i < m
                invariant
                    m < fixed_uses@.len() || m == 0,
                    self.wf(),
                    g0.wf(),
                    g0 == *old(self),
                    cur.0 < g0.nv(),
                    self.frame_unchanged(&g0),
                    g0.nv() <= self.nv(),
                    forall|w: int| 0 <= w < g0.nv() ==> (#[trigger] self.intervals@[w]).value
                        == g0.intervals@[w].value && self.intervals@[w].fixed == g0.intervals@[w].fixed,
                    forall|w: int| g0.nv() <= w < self.nv() ==> !(#[trigger] self.intervals@[w]).fixed
                    && self.intervals@[w].value is VirtualVal,
                    (forall|w: int| 0 <= w < g0.nv() ==> fixed_count(#[trigger] g0.intervals@[w].uses@) <= 1) ==> m == 0,
                    (forall|w: int| 0 <= w < g0.nv() ==> fixed_count(#[trigger] g0.intervals@[w].uses@) <= 1) ==> *self == g0,
                decreases m - i,
            {
                // Split between each pair of fixed uses
                let split_pos = self.optimal_split_pos(
                    fixed_uses[i].kind.group(),
                    fixed_uses[i].pos,
                    fixed_uses[i + 1].pos,
                )?;
                if self.interval_id >= usize::MAX - 1 || split_pos.0 == usize::MAX {
                    return Err("too many intervals".to_owned());
                }
                let ghost gp = *self;
                self.split_at(&cur, split_pos)?;
                proof {
                    let group = gp.intervals@[cur.0 as int].value.spec_group();
                    assert forall|w: int| 0 <= w < g0.nv() implies (#[trigger] self.intervals@[w]).value
                        == g0.intervals@[w].value && self.intervals@[w].fixed == g0.intervals@[w].fixed by {
                        assert(interval_evolves(gp.intervals@[w], self.intervals@[w], group));
                    }
                    assert forall|w: int| g0.nv() <= w < self.nv() implies !(#[trigger] self.intervals@[w]).fixed
                        && self.intervals@[w].value is VirtualVal by {
                        if w < gp.nv() {
                            assert(interval_evolves(gp.intervals@[w], self.intervals@[w], group));
                            assert(self.intervals@[w].value == gp.intervals@[w].value);
                        }
                    }
                }
                i = i + 1;
            }
            k = k + 1;
        }
        Ok(())
    }
}

} // verus!
