use vstd::prelude::*;
use crate::api::KindHelper;
use crate::counting::{count_unset, lemma_count_unset_set};
use crate::graph::{Graph, InstrKind};
use crate::ids::InstrId;

verus! {

/// Dead code elimination: drop the instructions whose values nothing with
/// side effects needs.
pub trait DCE<K> {
    fn eliminate_dead_code(&mut self) -> Result<(), String>;
}

/// Instruction kinds tell whether they have effects besides their value.
pub trait DCEKindHelper {
    fn has_sideeffects(&self) -> bool;
}

impl<K: DCEKindHelper> DCEKindHelper for InstrKind<K> {
    /// Phis, phi moves and gaps have no side effects.
    fn has_sideeffects(&self) -> (r: bool)
        ensures
            !(*self is User) ==> !r,
    {
        match self {
            InstrKind::User(k) => k.has_sideeffects(),
            InstrKind::Phi(_) => false,
            InstrKind::ToPhi(_) => false,
            InstrKind::Gap => false,
        }
    }
}

/// Every input of a live instruction is live.
pub open spec fn closed_under_inputs<K>(g: &Graph<K>, alive: Seq<bool>) -> bool {
    forall|i: int, j: int| 0 <= i < alive.len() && alive[i] && 0 <= j < g.instructions@[i].inputs@.len()
        ==> alive[#[trigger] g.instructions@[i].inputs@[j].0 as int]
}

/// Instruction `x` is marked in `seeds`, or read by an instruction that
/// reaches a marked one in `d - 1` steps.
pub open spec fn reaches<K>(g: &Graph<K>, seeds: Seq<bool>, x: int, d: nat) -> bool
    decreases d,
{
    seeds[x] || (d > 0 && exists|i: int, j: int| 0 <= i < seeds.len() && 0 <= j < g.instructions@[i].inputs@.len()
        && #[trigger] g.instructions@[i].inputs@[j].0 == x && reaches(g, seeds, i, (d - 1) as nat))
}

/// The identifiers of `s` whose flag is set, in order.
pub open spec fn keep(s: Seq<InstrId>, alive: Seq<bool>) -> Seq<InstrId>
    decreases s.len(),
{
    if s.len() == 0 {
        seq![]
    } else if alive[s.last().0 as int] {
        keep(s.drop_last(), alive).push(s.last())
    } else {
        keep(s.drop_last(), alive)
    }
}

proof fn lemma_keep_below(s: Seq<InstrId>, alive: Seq<bool>, n: nat)
    requires
        crate::graph::instrs_below(s, n),
    ensures
        crate::graph::instrs_below(keep(s, alive), n),
    decreases s.len(),
{
    if s.len() > 0 {
        lemma_keep_below(s.drop_last(), alive, n);
    }
}

/// Keep the identifiers of `s` whose flag is set.
fn filter_alive(s: &Vec<InstrId>, alive: &Vec<bool>) -> (r: Vec<InstrId>)
    requires
        crate::graph::instrs_below(s@, alive@.len()),
    ensures
        r@ == keep(s@, alive@),
{
    let mut r: Vec<InstrId> = Vec::new();
    let mut k: usize = 0;
    while k < s.len()
        invariant
            k <= s@.len(),
            crate::graph::instrs_below(s@, alive@.len()),
            r@ == keep(s@.take(k as int), alive@),
        decreases s.len() - k,
    {
        assert(s@.take(k + 1).drop_last() =~= s@.take(k as int));
        if alive[s[k].0] {
            r.push(s[k]);
        }
        k = k + 1;
    }
    assert(s@.take(s@.len() as int) =~= s@);
    r
}

impl<K: KindHelper> Graph<K> {
    /// The instructions that `seeds` marks and, transitively, those whose
    /// values they read: every marked instruction is live, every input of a
    /// live instruction is live, and every live instruction is marked or
    /// read, some steps back, by a marked one.
    pub fn live_closure(&self, seeds: &Vec<bool>) -> (alive: Vec<bool>)
        requires
            self.wf(),
            seeds@.len() == self.ni(),
        ensures
            alive@.len() == self.ni(),
            forall|i: int| 0 <= i < self.ni() && #[trigger] seeds@[i] ==> alive@[i],
            closed_under_inputs(self, alive@),
            forall|i: int| 0 <= i < self.ni() && #[trigger] alive@[i] ==> exists|d: nat| reaches(self, seeds@, i, d),
    {
        let n = self.instructions.len();
        let mut alive: Vec<bool> = Vec::new();
        let mut work: Vec<usize> = Vec::new();
        let ghost mut wdepth: Seq<nat> = seq![];
        let mut i: usize = 0;
        while i < n
            invariant
                n == self.ni(),
                seeds@.len() == n,
                i <= n,
                alive@.len() == i,
                wdepth.len() == work@.len(),
                forall|k: int| 0 <= k < i ==> !(#[trigger] alive@[k]),
                forall|k: int| 0 <= k < work@.len() ==> (#[trigger] work@[k]) < n && seeds@[work@[k] as int],
                forall|k: int| 0 <= k < work@.len() ==> #[trigger] wdepth[k] == 0,
                forall|k: int| 0 <= k < i && #[trigger] seeds@[k] ==> work@.contains(k as usize),
            decreases n - i,
        {
            alive.push(false);
            let ghost w0 = work@;
            if seeds[i] {
                work.push(i);
                proof {
                    wdepth = wdepth.push(0);
                }
            }
            proof {
                assert forall|k: int| 0 <= k < i + 1 && #[trigger] seeds@[k] implies work@.contains(k as usize) by {
                    if k < i {
                        let kk = choose|kk: int| 0 <= kk < w0.len() && w0[kk] == k as usize;
                        assert(work@[kk] == w0[kk]);
                    } else {
                        assert(work@[work@.len() - 1] == i);
                    }
                }
            }
            i = i + 1;
        }
        let ghost mut depth: Seq<nat> = Seq::new(n as nat, |k: int| 0nat);
        while work.len() > 0
            invariant
                self.wf(),
                n == self.ni(),
                seeds@.len() == n,
                alive@.len() == n,
                depth.len() == n,
                wdepth.len() == work@.len(),
                forall|k: int| 0 <= k < work@.len() ==> (#[trigger] work@[k]) < n,
                forall|k: int| 0 <= k < n && #[trigger] seeds@[k] ==> alive@[k] || work@.contains(k as usize),
                forall|i: int, j: int| 0 <= i < n && alive@[i] && 0 <= j < self.instructions@[i].inputs@.len()
                    ==> alive@[#[trigger] self.instructions@[i].inputs@[j].0 as int]
                    || work@.contains(self.instructions@[i].inputs@[j].0),
                forall|k: int| 0 <= k < work@.len() ==> reaches(self, seeds@, #[trigger] work@[k] as int, wdepth[k]),
                forall|i: int| 0 <= i < n && #[trigger] alive@[i] ==> reaches(self, seeds@, i, depth[i]),
            decreases count_unset(alive@), work@.len(),
        {
            let ghost w0 = work@;
            let ghost a0 = alive@;
            let ghost wd0 = wdepth;
            let cur = work.remove(0);
            proof {
                wdepth = wdepth.drop_first();
            }
            assert(cur == w0[0]);
            assert forall|x: usize| #[trigger] w0.contains(x) && x != cur implies work@.contains(x) by {
                let k = choose|k: int| 0 <= k < w0.len() && w0[k] == x;
                assert(k != 0);
                assert(work@[k - 1] == x);
            }
            proof {
                assert forall|k: int| 0 <= k < work@.len() implies reaches(self, seeds@, #[trigger] work@[k] as int, wdepth[k]) by {
                    assert(work@[k] == w0[k + 1]);
                    assert(wdepth[k] == wd0[k + 1]);
                }
            }
            if alive[cur] {
                continue;
            }
            let ghost dcur = wd0[0];
            assert(reaches(self, seeds@, cur as int, dcur));
            proof {
                lemma_count_unset_set(alive@, cur as int);
            }
            alive.set(cur, true);
            proof {
                depth = depth.update(cur as int, dcur);
                assert forall|i: int| 0 <= i < n && #[trigger] alive@[i] implies reaches(self, seeds@, i, depth[i]) by {
                    if i != cur {
                        assert(a0[i]);
                    }
                }
            }
            assert(crate::graph::instr_ok(self.instructions@[cur as int], self.ni(), self.nv()));
            let n_in = self.instructions[cur].inputs.len();
            let ghost w1 = work@;
            let ghost wd1 = wdepth;
            let mut j: usize = 0;
            while j < n_in
                invariant
                    self.wf(),
                    n == self.ni(),
                    cur < n,
                    seeds@.len() == n,
                    alive@.len() == n,
                    alive@[cur as int],
                    reaches(self, seeds@, cur as int, dcur),
                    n_in == self.instructions@[cur as int].inputs@.len(),
                    j <= n_in,
                    crate::graph::instr_ok(self.instructions@[cur as int], self.ni(), self.nv()),
                    forall|k: int| 0 <= k < work@.len() ==> (#[trigger] work@[k]) < n,
                    work@.len() == w1.len() + j,
                    wdepth.len() == work@.len(),
                    work@.subrange(0, w1.len() as int) == w1,
                    wdepth.subrange(0, w1.len() as int) == wd1,
                    forall|k: int| 0 <= k < j ==> #[trigger] work@[w1.len() + k] == self.instructions@[cur as int].inputs@[k].0,
                    forall|k: int| 0 <= k < j ==> #[trigger] wdepth[w1.len() + k] == dcur + 1,
                decreases n_in - j,
            {
                work.push(self.instructions[cur].inputs[j].0);
                proof {
                    wdepth = wdepth.push((dcur + 1) as nat);
                }
                assert(work@.subrange(0, w1.len() as int) =~= w1);
                assert(wdepth.subrange(0, w1.len() as int) =~= wd1);
                j = j + 1;
            }
            proof {
                assert forall|x: usize| #[trigger] w1.contains(x) implies work@.contains(x) by {
                    let k = choose|k: int| 0 <= k < w1.len() && w1[k] == x;
                    assert(work@.subrange(0, w1.len() as int)[k] == work@[k]);
                    assert(work@[k] == w1[k]);
                }
                assert forall|k: int| 0 <= k < n && #[trigger] seeds@[k] implies alive@[k] || work@.contains(k as usize) by {
                    if !alive@[k] {
                        assert(!a0[k]);
                        assert(w0.contains(k as usize));
                        assert(k as usize != cur);
                        assert(w1.contains(k as usize));
                    }
                }
                assert forall|i: int, j2: int| 0 <= i < n && alive@[i] && 0 <= j2 < self.instructions@[i].inputs@.len()
                    implies alive@[#[trigger] self.instructions@[i].inputs@[j2].0 as int]
                    || work@.contains(self.instructions@[i].inputs@[j2].0) by {
                    let x = self.instructions@[i].inputs@[j2].0;
                    if i == cur {
                        assert(work@[w1.len() + j2] == x);
                    } else if !alive@[x as int] {
                        assert(a0[i]);
                        assert(!a0[x as int]);
                        assert(w0.contains(x));
                        if x == cur {
                            assert(alive@[cur as int]);
                        }
                        assert(w1.contains(x));
                    }
                }
                assert forall|k: int| 0 <= k < work@.len() implies reaches(self, seeds@, #[trigger] work@[k] as int, wdepth[k]) by {
                    if k < w1.len() {
                        assert(work@.subrange(0, w1.len() as int)[k] == work@[k]);
                        assert(wdepth.subrange(0, w1.len() as int)[k] == wdepth[k]);
                        assert(work@[k] == w1[k]);
                        assert(wdepth[k] == wd1[k]);
                    } else {
                        let j2 = k - w1.len();
                        assert(work@[w1.len() + j2] == self.instructions@[cur as int].inputs@[j2].0);
                        assert(wdepth[w1.len() + j2] == dcur + 1);
                        let x = work@[k] as int;
                        assert(self.instructions@[cur as int].inputs@[j2].0 == x);
                        assert(reaches(self, seeds@, x, (dcur + 1) as nat));
                    }
                }
            }
        }
        proof {
            assert forall|i: int| 0 <= i < n && #[trigger] alive@[i] implies exists|d: nat| reaches(self, seeds@, i, d) by {
                assert(reaches(self, seeds@, i, depth[i]));
            }
        }
        alive
    }

    /// Drop from the blocks and from the phis every instruction that
    /// `alive` does not mark.
    pub fn remove_dead(&mut self, alive: &Vec<bool>)
        requires
            old(self).wf(),
            alive@.len() == old(self).ni(),
        ensures
            final(self).wf(),
            final(self).root == old(self).root,
            final(self).instr_id == old(self).instr_id,
            final(self).interval_id == old(self).interval_id,
            final(self).instructions@ == old(self).instructions@,
            final(self).intervals@ == old(self).intervals@,
            final(self).gaps@ == old(self).gaps@,
            final(self).prepared == old(self).prepared,
            final(self).physical@ == old(self).physical@,
            final(self).nb() == old(self).nb(),
            final(self).block_id == old(self).block_id,
            forall|b: int| 0 <= b < final(self).nb() ==> (#[trigger] final(self).blocks@[b]).instructions@
                == keep(old(self).blocks@[b].instructions@, alive@),
            forall|b: int| 0 <= b < final(self).nb() ==> (#[trigger] final(self).blocks@[b]).successors
                == old(self).blocks@[b].successors && final(self).blocks@[b].id == old(self).blocks@[b].id,
            final(self).phis@ == keep(old(self).phis@, alive@),
    {
        let ghost g0 = *self;
        let nb = self.blocks.len();
        let mut b: usize = 0;
        while b < nb
            invariant
                nb == self.nb(),
                nb == g0.nb(),
                b <= nb,
                self.wf(),
                g0.wf(),
                self.same_but_blocks(&g0),
                self.block_id == g0.block_id,
                alive@.len() == g0.ni(),
                forall|k: int| 0 <= k < b ==> (#[trigger] self.blocks@[k]).instructions@
                    == keep(g0.blocks@[k].instructions@, alive@),
                forall|k: int| b <= k < nb ==> #[trigger] self.blocks@[k] == g0.blocks@[k],
                forall|k: int| 0 <= k < nb ==> (#[trigger] self.blocks@[k]).successors == g0.blocks@[k].successors
                    && self.blocks@[k].id == g0.blocks@[k].id,
            decreases nb - b,
        {
            assert(crate::graph::block_ok(self.blocks@[b as int], self.nb(), self.ni(), self.nv()));
            let kept = filter_alive(&self.blocks[b].instructions, alive);
            proof {
                lemma_keep_below(self.blocks@[b as int].instructions@, alive@, self.ni());
            }
            let ghost before = *self;
            self.blocks[b].instructions = kept;
            proof {
                assert forall|k: int| 0 <= k < self.nb() implies (#[trigger] self.blocks@[k]).id.0 == k
                    && crate::graph::block_ok(self.blocks@[k], self.nb(), self.ni(), self.nv()) by {
                    assert(crate::graph::block_ok(before.blocks@[k], self.nb(), self.ni(), self.nv()));
                }
            }
            b = b + 1;
        }
        let phis = filter_alive(&self.phis, alive);
        proof {
            lemma_keep_below(self.phis@, alive@, self.ni());
        }
        self.phis = phis;
    }
}

/// The answers that instruction kinds gave, in order, when asked whether
/// they have side effects.
pub struct EffectLog {
    pub answers: Ghost<Seq<bool>>,
}

impl EffectLog {
    /// Ask `kind` whether it has side effects, and record the answer.
    pub fn ask<K: DCEKindHelper>(&mut self, kind: &InstrKind<K>) -> (r: bool)
        ensures
            final(self).answers@ == old(self).answers@.push(r),
            !(*kind is User) ==> !r,
    {
        let r = kind.has_sideeffects();
        self.answers = Ghost(self.answers@.push(r));
        r
    }
}

impl<K: KindHelper + DCEKindHelper> Graph<K> {
    /// Ask the kind of every instruction, in order, whether it has side
    /// effects; keep those that have and, transitively, those whose values
    /// they read; drop the others from the blocks and the phis. The answers
    /// are recorded in `log`, and the kept instructions are exactly those
    /// that the instructions answered for need. Runs before allocation: a
    /// graph with gaps is refused.
    pub fn eliminate_dead_code_logged(&mut self, log: &mut EffectLog) -> (r: Result<(), String>)
        ensures
            r is Ok <==> old(self).wf() && forall|i: int| 0 <= i < old(self).ni() ==> !(#[trigger] old(self).instructions@[i].kind is Gap),
            r is Ok ==> final(log).answers@.len() == old(log).answers@.len() + old(self).ni()
                && final(log).answers@.subrange(0, old(log).answers@.len() as int) == old(log).answers@,
            r is Ok ==> final(self).wf() && final(self).instructions@ == old(self).instructions@
                && exists|alive: Seq<bool>| {
                let seeds = final(log).answers@.subrange(old(log).answers@.len() as int, final(log).answers@.len() as int);
                &&& forall|i: int| 0 <= i < old(self).ni() && #[trigger] seeds[i] ==> old(self).instructions@[i].kind is User
                &&& alive.len() == old(self).ni()
                &&& forall|i: int| 0 <= i < old(self).ni() && #[trigger] seeds[i] ==> alive[i]
                &&& #[trigger] closed_under_inputs(old(self), alive)
                &&& forall|i: int| 0 <= i < old(self).ni() && #[trigger] alive[i] ==> exists|d: nat| reaches(old(self), seeds, i, d)
                &&& forall|b: int| 0 <= b < final(self).nb() ==> (#[trigger] final(self).blocks@[b]).instructions@
                    == keep(old(self).blocks@[b].instructions@, alive)
                &&& final(self).phis@ == keep(old(self).phis@, alive)
            },
    {
        if !self.check_wf() {
            return Err("malformed graph".to_owned());
        }
        let ghost a0 = log.answers@;
        let n = self.instructions.len();
        let mut seeds: Vec<bool> = Vec::new();
        let mut i: usize = 0;
        while i < n
            invariant
                self.wf(),
                n == self.ni(),
                i <= n,
                seeds@.len() == i,
                log.answers@ == a0 + seeds@,
                forall|j: int| 0 <= j < i ==> !(#[trigger] self.instructions@[j].kind is Gap),
                forall|j: int| 0 <= j < i && #[trigger] seeds@[j] ==> self.instructions@[j].kind is User,
            decreases n - i,
        {
            if let InstrKind::Gap = self.instructions[i].kind {
                return Err("DCE should run before allocation".to_owned());
            }
            let e = log.ask(&self.instructions[i].kind);
            seeds.push(e);
            assert(log.answers@ =~= a0 + seeds@);
            i = i + 1;
        }
        let ghost g0 = *self;
        let alive = self.live_closure(&seeds);
        self.remove_dead(&alive);
        proof {
            assert(seeds@.len() == g0.ni());
            assert(log.answers@.subrange(a0.len() as int, log.answers@.len() as int) =~= seeds@);
            assert(log.answers@.subrange(0, a0.len() as int) =~= a0);
        }
        Ok(())
    }
}

impl<K: KindHelper + DCEKindHelper> DCE<K> for Graph<K> {
    /// Keep the instructions with side effects and, transitively, those
    /// whose values they read; drop the others from the blocks and the
    /// phis. Runs before allocation: a graph with gaps is refused.
    fn eliminate_dead_code(&mut self) -> (r: Result<(), String>)
        ensures
            r is Ok <==> old(self).wf() && forall|i: int| 0 <= i < old(self).ni() ==> !(#[trigger] old(self).instructions@[i].kind is Gap),
            r is Ok ==> final(self).wf() && final(self).instructions@ == old(self).instructions@
                && exists|seeds: Seq<bool>, alive: Seq<bool>| {
                &&& seeds.len() == old(self).ni()
                &&& forall|i: int| 0 <= i < old(self).ni() && #[trigger] seeds[i] ==> old(self).instructions@[i].kind is User
                &&& alive.len() == old(self).ni()
                &&& forall|i: int| 0 <= i < old(self).ni() && #[trigger] seeds[i] ==> alive[i]
                &&& closed_under_inputs(old(self), alive)
                &&& forall|i: int| 0 <= i < old(self).ni() && #[trigger] alive[i] ==> exists|d: nat| reaches(old(self), seeds, i, d)
                &&& forall|b: int| 0 <= b < final(self).nb() ==> (#[trigger] final(self).blocks@[b]).instructions@
                    == keep(old(self).blocks@[b].instructions@, alive)
                &&& final(self).phis@ == keep(old(self).phis@, alive)
            },
    {
        let mut log = EffectLog { answers: Ghost(Seq::empty()) };
        let r = self.eliminate_dead_code_logged(&mut log);
        proof {
            if r is Ok {
                let seeds = log.answers@.subrange(0, log.answers@.len() as int);
                assert(seeds.len() == old(self).ni());
            }
        }
        r
    }
}

} // verus!
