use vstd::prelude::*;
use crate::graph::{
    Graph, Block, Instruction, Interval, GapState, blocks_below, instrs_below, intervals_below, opt_below,
    block_ok, instr_ok, interval_ok, gap_ok,
};
use crate::ids::{BlockId, InstrId, IntervalId};

verus! {

fn check_blocks_below(s: &Vec<BlockId>, n: usize) -> (r: bool)
    ensures
        r == blocks_below(s@, n as nat),
{
    let mut k: usize = 0;
    while k < s.len()
        invariant
            k <= s@.len(),
            forall|j: int| 0 <= j < k ==> (#[trigger] s@[j]).0 < n,
        decreases s.len() - k,
    {
        if s[k].0 >= n {
            return false;
        }
        k = k + 1;
    }
    true
}

fn check_instrs_below(s: &Vec<InstrId>, n: usize) -> (r: bool)
    ensures
        r == instrs_below(s@, n as nat),
{
    let mut k: usize = 0;
    while k < s.len()
        invariant
            k <= s@.len(),
            forall|j: int| 0 <= j < k ==> (#[trigger] s@[j]).0 < n,
        decreases s.len() - k,
    {
        if s[k].0 >= n {
            return false;
        }
        k = k + 1;
    }
    true
}

fn check_intervals_below(s: &Vec<IntervalId>, n: usize) -> (r: bool)
    ensures
        r == intervals_below(s@, n as nat),
{
    let mut k: usize = 0;
    while k < s.len()
        invariant
            k <= s@.len(),
            forall|j: int| 0 <= j < k ==> (#[trigger] s@[j]).0 < n,
        decreases s.len() - k,
    {
        if s[k].0 >= n {
            return false;
        }
        k = k + 1;
    }
    true
}

fn check_opt_below(o: Option<IntervalId>, n: usize) -> (r: bool)
    ensures
        r == opt_below(o, n as nat),
{
    match o {
        Some(i) => i.0 < n,
        None => true,
    }
}

fn check_block(b: &Block, nb: usize, ni: usize, nv: usize) -> (r: bool)
    ensures
        r == block_ok(*b, nb as nat, ni as nat, nv as nat),
{
    check_instrs_below(&b.instructions, ni) && check_blocks_below(&b.successors, nb)
        && check_blocks_below(&b.predecessors, nb) && b.live_gen.bits.len() <= nv
        && b.live_kill.bits.len() <= nv && b.live_in.bits.len() <= nv && b.live_out.bits.len() <= nv
}

fn check_instr<K>(i: &Instruction<K>, ni: usize, nv: usize) -> (r: bool)
    ensures
        r == instr_ok(*i, ni as nat, nv as nat),
{
    check_instrs_below(&i.inputs, ni) && check_opt_below(i.output, nv) && check_intervals_below(&i.temporary, nv)
}

fn check_interval(iv: &Interval, nv: usize) -> (r: bool)
    ensures
        r == interval_ok(*iv, nv as nat),
{
    check_opt_below(iv.hint, nv) && check_opt_below(iv.parent, nv) && check_intervals_below(&iv.children, nv)
}

fn check_gap(st: &GapState, nv: usize) -> (r: bool)
    ensures
        r == gap_ok(*st, nv as nat),
{
    let mut k: usize = 0;
    while k < st.actions.len()
        invariant
            k <= st.actions@.len(),
            forall|j: int| 0 <= j < k ==> (#[trigger] st.actions@[j]).from.0 < nv && st.actions@[j].to.0 < nv,
        decreases st.actions.len() - k,
    {
        if st.actions[k].from.0 >= nv || st.actions[k].to.0 >= nv {
            return false;
        }
        k = k + 1;
    }
    true
}

impl<K> Graph<K> {
    /// Whether the graph is well formed: every stored identifier names an
    /// existing item, and each item sits at the index of its identifier.
    pub fn check_wf(&self) -> (r: bool)
        ensures
            r == self.wf(),
    {
        let nb = self.blocks.len();
        let ni = self.instructions.len();
        let nv = self.intervals.len();
        if self.block_id != nb || self.instr_id != ni || self.interval_id != nv {
            return false;
        }
        let mut b: usize = 0;
        while b < nb
            invariant
                nb == self.nb(),
                ni == self.ni(),
                nv == self.nv(),
                b <= nb,
                forall|j: int| 0 <= j < b ==> (#[trigger] self.blocks@[j]).id.0 == j
                    && block_ok(self.blocks@[j], nb as nat, ni as nat, nv as nat),
            decreases nb - b,
        {
            if self.blocks[b].id.0 != b || !check_block(&self.blocks[b], nb, ni, nv) {
                return false;
            }
            b = b + 1;
        }
        let mut i: usize = 0;
        while i < ni
            invariant
                ni == self.ni(),
                nv == self.nv(),
                i <= ni,
                forall|j: int| 0 <= j < i ==> (#[trigger] self.instructions@[j]).id.0 == j
                    && instr_ok(self.instructions@[j], ni as nat, nv as nat),
            decreases ni - i,
        {
            if self.instructions[i].id.0 != i || !check_instr(&self.instructions[i], ni, nv) {
                return false;
            }
            i = i + 1;
        }
        let mut v: usize = 0;
        while v < nv
            invariant
                nv == self.nv(),
                v <= nv,
                forall|j: int| 0 <= j < v ==> (#[trigger] self.intervals@[j]).id.0 == j
                    && interval_ok(self.intervals@[j], nv as nat),
            decreases nv - v,
        {
            if self.intervals[v].id.0 != v || !check_interval(&self.intervals[v], nv) {
                return false;
            }
            v = v + 1;
        }
        match self.root {
            Some(r) => {
                if r.0 >= nb {
                    return false;
                }
            },
            None => {},
        }
        if !check_instrs_below(&self.phis, ni) {
            return false;
        }
        let mut p: usize = 0;
        while p < self.gaps.len()
            invariant
                nv == self.nv(),
                p <= self.gaps@.len(),
                forall|j: int| 0 <= j < p ==> gap_ok(#[trigger] self.gaps@[j], nv as nat),
            decreases self.gaps.len() - p,
        {
            if !check_gap(&self.gaps[p], nv) {
                return false;
            }
            p = p + 1;
        }
        let mut g: usize = 0;
        while g < self.physical.len()
            invariant
                nv == self.nv(),
                g <= self.physical@.len(),
                forall|j: int| 0 <= j < g ==> intervals_below(#[trigger] self.physical@[j]@, nv as nat),
            decreases self.physical.len() - g,
        {
            if !check_intervals_below(&self.physical[g], nv) {
                return false;
            }
            g = g + 1;
        }
        true
    }
}

} // verus!
