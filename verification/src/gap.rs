use vstd::prelude::*;
use crate::api::KindHelper;
use crate::graph::{Graph, GapAction, GapActionKind, GapState, Value};
use crate::ids::IntervalId;

verus! {

/// Where a move of a gap stands while the gap is resolved.
#[derive(Clone, Copy, Debug, PartialEq, Eq, Structural)]
pub enum MoveStatus {
    ToMove,
    Moving,
    Moved,
}

pub open spec fn rank(m: MoveStatus) -> int {
    match m {
        MoveStatus::ToMove => 0,
        MoveStatus::Moving => 1,
        MoveStatus::Moved => 2,
    }
}

/// How many moves are still to be done.
pub open spec fn count_to_move(s: Seq<MoveStatus>) -> nat
    decreases s.len(),
{
    if s.len() == 0 {
        0
    } else {
        count_to_move(s.drop_last()) + if s.last() == MoveStatus::ToMove { 1nat } else { 0nat }
    }
}

/// Statuses only move forward: nothing returns to be moved again.
pub proof fn lemma_count_mono(a: Seq<MoveStatus>, b: Seq<MoveStatus>)
    requires
        a.len() == b.len(),
        forall|k: int| 0 <= k < a.len() ==> rank(#[trigger] a[k]) <= rank(b[k]),
    ensures
        count_to_move(b) <= count_to_move(a),
    decreases a.len(),
{
    if a.len() > 0 {
        assert(rank(a[a.len() - 1]) <= rank(b[b.len() - 1]));
        lemma_count_mono(a.drop_last(), b.drop_last());
    }
}

/// Starting a move that was still to be done leaves one move fewer.
pub proof fn lemma_count_start(a: Seq<MoveStatus>, i: int)
    requires
        0 <= i < a.len(),
        a[i] == MoveStatus::ToMove,
    ensures
        count_to_move(a.update(i, MoveStatus::Moving)) + 1 == count_to_move(a),
    decreases a.len(),
{
    let b = a.update(i, MoveStatus::Moving);
    if i == a.len() - 1 {
        assert(b.drop_last() =~= a.drop_last());
    } else {
        lemma_count_start(a.drop_last(), i);
        assert(b.drop_last() =~= a.drop_last().update(i, MoveStatus::Moving));
    }
}

/// `e` is the action `a` itself, a move, or the swap of its two intervals.
pub open spec fn derived(e: GapAction, a: GapAction) -> bool {
    ||| (e == a && a.kind is Move)
    ||| e == (GapAction { kind: GapActionKind::Swap, from: a.from, to: a.to })
}

impl<K> Graph<K> {
    /// The action moves a value to a different location.
    pub open spec fn effective(&self, a: GapAction) -> bool {
        self.intervals@[a.from.0 as int].value != self.intervals@[a.to.0 as int].value
    }

    /// `x` comes from an effective action of `actions`.
    pub open spec fn comes_from(&self, x: GapAction, actions: Seq<GapAction>) -> bool {
        exists|k: int| 0 <= k < actions.len() && #[trigger] derived(x, actions[k]) && self.effective(actions[k])
    }

    /// Each action of `res` comes from an effective action of `actions`.
    pub open spec fn resolved_from(&self, res: Seq<GapAction>, actions: Seq<GapAction>) -> bool {
        forall|e: int| 0 <= e < res.len() ==> #[trigger] self.comes_from(res[e], actions)
    }
}

pub proof fn lemma_resolved_same<K>(g1: Graph<K>, g0: Graph<K>, res: Seq<GapAction>, actions: Seq<GapAction>)
    requires
        g1.intervals@ == g0.intervals@,
        g1.resolved_from(res, actions),
    ensures
        g0.resolved_from(res, actions),
{
    assert forall|e: int| 0 <= e < res.len() implies #[trigger] g0.comes_from(res[e], actions) by {
        assert(g1.comes_from(res[e], actions));
        let k = choose|k: int| 0 <= k < actions.len() && #[trigger] derived(res[e], actions[k]) && g1.effective(actions[k]);
        assert(g0.effective(actions[k]));
    }
}

pub open spec fn actions_below(s: Seq<GapAction>, n: nat) -> bool {
    forall|k: int| 0 <= k < s.len() ==> (#[trigger] s[k]).from.0 < n && s[k].to.0 < n
}

impl<K> Graph<K> {
    /// The location that interval `v` stands for.
    pub open spec fn loc(&self, v: IntervalId) -> Value {
        self.intervals@[v.0 as int].value
    }

    /// The contents of every location after action `a` runs on `st`: a
    /// move copies the contents of its source to its target, a swap
    /// exchanges them.
    pub open spec fn run_action(&self, a: GapAction, st: spec_fn(Value) -> int) -> spec_fn(Value) -> int {
        let f = self.loc(a.from);
        let t = self.loc(a.to);
        match a.kind {
            GapActionKind::Move => |l: Value| if l == t { st(f) } else { st(l) },
            GapActionKind::Swap => |l: Value| if l == t { st(f) } else if l == f { st(t) } else { st(l) },
        }
    }

    /// The contents of every location after the actions `s` run in order.
    pub open spec fn run_actions(&self, s: Seq<GapAction>, st: spec_fn(Value) -> int) -> spec_fn(Value) -> int
        decreases s.len(),
    {
        if s.len() == 0 {
            st
        } else {
            self.run_action(s.last(), self.run_actions(s.drop_last(), st))
        }
    }

    /// `actions[k]` is an effective action whose target is `l`.
    pub open spec fn writes(&self, actions: Seq<GapAction>, k: int, l: Value) -> bool {
        0 <= k < actions.len() && self.effective(actions[k]) && self.loc(actions[k].to) == l
    }

    /// The contents of location `l` after the moves `actions` all run at
    /// once on `st`.
    pub open spec fn run_parallel(&self, actions: Seq<GapAction>, st: spec_fn(Value) -> int, l: Value) -> int {
        if exists|k: int| #[trigger] self.writes(actions, k, l) {
            st(self.loc(actions[choose|k: int| #[trigger] self.writes(actions, k, l)].from))
        } else {
            st(l)
        }
    }

    /// Running `res` in order has the effect of running the moves
    /// `actions` at once, whatever the locations hold.
    pub open spec fn same_effect(&self, res: Seq<GapAction>, actions: Seq<GapAction>) -> bool {
        forall|st: spec_fn(Value) -> int, l: Value| #[trigger] self.run_actions(res, st)(l) == self.run_parallel(actions, st, l)
    }

    /// The target of move `path[t]` is the source of move `path[t + 1]`.
    pub open spec fn linked(&self, actions: Seq<GapAction>, path: Seq<int>, t: int) -> bool {
        self.loc(actions[path[t]].to) == self.loc(actions[path[t + 1]].from)
    }

    /// The actions close a chain of effective moves: each one's target is
    /// the next one's source, the last one's target the first one's source.
    pub open spec fn move_cycle(&self, actions: Seq<GapAction>, path: Seq<int>) -> bool {
        &&& path.len() > 0
        &&& forall|t: int| 0 <= t < path.len() ==> 0 <= #[trigger] path[t] < actions.len() && self.effective(actions[path[t]])
        &&& forall|t: int| 0 <= t < path.len() - 1 ==> #[trigger] self.linked(actions, path, t)
        &&& self.loc(actions[path.last()].to) == self.loc(actions[path[0]].from)
    }

    /// Parallel moves that the resolution handles: moves only, no two
    /// effective ones with the same target, and the target of each move of
    /// a cycle read by no effective move but the next one of the cycle.
    pub open spec fn simple_moves(&self, actions: Seq<GapAction>) -> bool {
        &&& forall|k: int| 0 <= k < actions.len() ==> (#[trigger] actions[k]).kind is Move
        &&& forall|k1: int, k2: int| 0 <= k1 < k2 < actions.len() && self.effective(actions[k1]) && self.effective(actions[k2])
            ==> self.loc(#[trigger] actions[k1].to) != self.loc(#[trigger] actions[k2].to)
        &&& forall|path: Seq<int>, t: int, j: int| #[trigger] self.move_cycle(actions, path) && 0 <= t < path.len()
            && #[trigger] self.reads_target(actions, j, path[t]) ==> j == next_in(path, t)
    }

    /// Move `k` of `actions` is effective and done.
    pub open spec fn done_move(&self, actions: Seq<GapAction>, s: Seq<MoveStatus>, k: int) -> bool {
        0 <= k < actions.len() && self.effective(actions[k]) && s[k] == MoveStatus::Moved
    }

    /// Move `j` of `actions` is effective and reads the target of move `k`.
    pub open spec fn reads_target(&self, actions: Seq<GapAction>, j: int, k: int) -> bool {
        0 <= j < actions.len() && self.effective(actions[j]) && self.loc(actions[j].from) == self.loc(actions[k].to)
    }

    /// Move `k` is done and writes `l`.
    pub open spec fn done_writes(&self, actions: Seq<GapAction>, s: Seq<MoveStatus>, k: int, l: Value) -> bool {
        self.done_move(actions, s, k) && self.loc(actions[k].to) == l
    }

    /// The contents of location `l` once the done moves of `actions` have
    /// run at once on `st`.
    pub open spec fn run_done(&self, actions: Seq<GapAction>, s: Seq<MoveStatus>, st: spec_fn(Value) -> int, l: Value) -> int {
        if exists|k: int| #[trigger] self.done_writes(actions, s, k, l) {
            st(self.loc(actions[choose|k: int| #[trigger] self.done_writes(actions, s, k, l)].from))
        } else {
            st(l)
        }
    }

    /// Running `res` in order has the effect of running the done moves at
    /// once.
    pub open spec fn runs_as_done(&self, actions: Seq<GapAction>, s: Seq<MoveStatus>, res: Seq<GapAction>) -> bool {
        forall|st: spec_fn(Value) -> int, l: Value| #[trigger] self.run_actions(res, st)(l) == self.run_done(actions, s, st, l)
    }

    /// The effective readers of the target of each done move are done, but
    /// for move `x`.
    pub open spec fn readers_done_but(&self, actions: Seq<GapAction>, s: Seq<MoveStatus>, x: int) -> bool {
        forall|k: int, j: int| #[trigger] self.done_move(actions, s, k) && #[trigger] self.reads_target(actions, j, k)
            ==> s[j] == MoveStatus::Moved || j == x
    }

    /// The statuses `s` mark as being moved exactly the moves of `stack`,
    /// distinct effective moves each of whose targets is the next one's
    /// source, the last one's target the source of `actions[i]`.
    #[verifier::opaque]
    pub open spec fn stack_ok(&self, actions: Seq<GapAction>, s: Seq<MoveStatus>, stack: Seq<int>, i: int) -> bool {
        &&& forall|k: int| 0 <= k < s.len() ==> (#[trigger] s[k] == MoveStatus::Moving <==> stack.contains(k))
        &&& forall|t: int| 0 <= t < stack.len() ==> 0 <= #[trigger] stack[t] < actions.len() && self.effective(actions[stack[t]])
        &&& forall|t: int| 0 <= t < stack.len() - 1 ==> #[trigger] self.linked(actions, stack, t)
        &&& forall|t1: int, t2: int| 0 <= t1 < t2 < stack.len() ==> #[trigger] stack[t1] != #[trigger] stack[t2]
        &&& stack.len() > 0 ==> self.loc(actions[stack.last()].to) == self.loc(actions[i].from)
    }

    /// `cyc` is a cycle of distinct moves with distinct sources that goes
    /// on from `stack` with move `i`.
    pub open spec fn cycle_through(&self, actions: Seq<GapAction>, cyc: Seq<int>, stack: Seq<int>, i: int) -> bool {
        &&& self.move_cycle(actions, cyc)
        &&& stack.len() < cyc.len()
        &&& forall|u: int| 0 <= u < stack.len() ==> #[trigger] cyc[u] == stack[u]
        &&& cyc[stack.len() as int] == i
        &&& forall|u: int, v: int| 0 <= u < v < cyc.len() ==> #[trigger] cyc[u] != #[trigger] cyc[v]
        &&& forall|u: int, v: int| 0 <= u < v < cyc.len()
            ==> self.loc(actions[#[trigger] cyc[u]].from) != self.loc(actions[#[trigger] cyc[v]].from)
    }

    /// Move `cyc[u]`, at position `d` of the cycle or later but not the
    /// last, writes `l`.
    pub open spec fn cycle_writes(&self, actions: Seq<GapAction>, cyc: Seq<int>, d: int, u: int, l: Value) -> bool {
        d <= u < cyc.len() - 1 && self.loc(actions[cyc[u]].to) == l
    }

    /// The contents of `l` once the moves of the cycle `cyc` from position
    /// `d` on have run at once on `f`, the last one writing the source of
    /// move `cyc[d]`.
    pub open spec fn rotated(&self, actions: Seq<GapAction>, cyc: Seq<int>, d: int, f: spec_fn(Value) -> int, l: Value) -> int {
        if l == self.loc(actions[cyc[d]].from) {
            f(self.loc(actions[cyc.last()].from))
        } else if exists|u: int| #[trigger] self.cycle_writes(actions, cyc, d, u, l) {
            f(self.loc(actions[cyc[choose|u: int| #[trigger] self.cycle_writes(actions, cyc, d, u, l)]].from))
        } else {
            f(l)
        }
    }

    /// From `s0` to `s1`, emitting `r1` after `r0`, the move `i` and the
    /// moves that read its target, directly or not, were done: statuses
    /// only went from to-move to done, each newly done move's readers are
    /// done, and what was emitted runs as the done moves.
    pub open spec fn tree_done(&self, actions: Seq<GapAction>, s0: Seq<MoveStatus>, s1: Seq<MoveStatus>, r1: Seq<GapAction>, i: int) -> bool {
        &&& s1[i] == MoveStatus::Moved
        &&& self.runs_as_done(actions, s1, r1)
        &&& forall|k: int| 0 <= k < s0.len() && #[trigger] s1[k] != s0[k]
            ==> s0[k] == MoveStatus::ToMove && s1[k] == MoveStatus::Moved
        &&& forall|k: int, j: int| #[trigger] self.done_move(actions, s1, k) && s0[k] != MoveStatus::Moved
            && #[trigger] self.reads_target(actions, j, k) ==> s1[j] == MoveStatus::Moved
    }

    /// From `s0` to `s1`, emitting `r1` after `r0`, the moves of the cycle
    /// `cyc` from the place of `i` on were done, and nothing else: what was
    /// emitted runs them at once after `r0`.
    pub open spec fn cycle_done(
        &self,
        actions: Seq<GapAction>,
        cyc: Seq<int>,
        stack: Seq<int>,
        i: int,
        s0: Seq<MoveStatus>,
        s1: Seq<MoveStatus>,
        r0: Seq<GapAction>,
        r1: Seq<GapAction>,
    ) -> bool {
        &&& self.cycle_through(actions, cyc, stack, i)
        &&& forall|u: int| stack.len() <= u < cyc.len() ==> s0[#[trigger] cyc[u]] == MoveStatus::ToMove
            && s1[cyc[u]] == MoveStatus::Moved
        &&& forall|k: int| 0 <= k < s0.len() && !cyc.subrange(stack.len() as int, cyc.len() as int).contains(k)
            ==> #[trigger] s1[k] == s0[k]
        &&& forall|st: spec_fn(Value) -> int, l: Value|
            #[trigger] self.run_actions(r1, st)(l) == self.rotated(actions, cyc, stack.len() as int, self.run_actions(r0, st), l)
    }
}

/// The move after position `t` of the cycle `path`.
pub open spec fn next_in(path: Seq<int>, t: int) -> int {
    if t + 1 < path.len() {
        path[t + 1]
    } else {
        path[0]
    }
}

/// The first move of the stack; -1 when it is empty.
pub open spec fn bottom(stack: Seq<int>) -> int {
    if stack.len() > 0 {
        stack[0]
    } else {
        -1
    }
}

/// With no move being emitted, the stack is empty.
proof fn lemma_stack_empty<K>(g: Graph<K>, actions: Seq<GapAction>, s: Seq<MoveStatus>, i: int)
    requires
        forall|k: int| 0 <= k < s.len() ==> #[trigger] s[k] != MoveStatus::Moving,
    ensures
        g.stack_ok(actions, s, Seq::empty(), i),
{
    reveal(Graph::stack_ok);
}

/// The moves being emitted are those of the stack, and they are effective.
proof fn lemma_stack_moving<K>(g: Graph<K>, actions: Seq<GapAction>, s: Seq<MoveStatus>, stack: Seq<int>, i: int)
    requires
        g.stack_ok(actions, s, stack, i),
    ensures
        forall|k: int| 0 <= k < s.len() ==> (#[trigger] s[k] == MoveStatus::Moving <==> stack.contains(k)),
        forall|t: int| 0 <= t < stack.len() ==> 0 <= #[trigger] stack[t] < actions.len() && g.effective(actions[stack[t]]),
{
    reveal(Graph::stack_ok);
}

/// Pushing the move being emitted onto the stack keeps the stack a chain
/// that leads to the next move `j`, which reads the target of `i`.
proof fn lemma_stack_push<K>(g: Graph<K>, actions: Seq<GapAction>, s0: Seq<MoveStatus>, s: Seq<MoveStatus>, stack: Seq<int>, i: int, j: int)
    requires
        g.stack_ok(actions, s0, stack, i),
        !stack.contains(i),
        s.len() == s0.len(),
        s0.len() == actions.len(),
        0 <= i < actions.len(),
        0 <= j < actions.len(),
        g.effective(actions[i]),
        forall|k: int| 0 <= k < actions.len() ==> (#[trigger] s[k] == MoveStatus::Moving <==> (stack.contains(k) || k == i)),
        g.loc(actions[j].from) == g.loc(actions[i].to),
    ensures
        g.stack_ok(actions, s, stack.push(i), j),
{
    reveal(Graph::stack_ok);
    let st = stack.push(i);
    assert forall|k: int| 0 <= k < s.len() implies (#[trigger] s[k] == MoveStatus::Moving <==> st.contains(k)) by {
        if stack.contains(k) {
            let t = choose|t: int| 0 <= t < stack.len() && stack[t] == k;
            assert(st[t] == k);
        }
        if k == i {
            assert(st[stack.len() as int] == k);
        }
        if st.contains(k) {
            let t = choose|t: int| 0 <= t < st.len() && st[t] == k;
            if t < stack.len() {
                assert(stack[t] == k);
            }
        }
    }
    assert forall|t: int| 0 <= t < st.len() implies 0 <= #[trigger] st[t] < actions.len() && g.effective(actions[st[t]]) by {
        if t < stack.len() {
            assert(st[t] == stack[t]);
        }
    }
    assert forall|t: int| 0 <= t < st.len() - 1 implies #[trigger] g.linked(actions, st, t) by {
        assert(st[t] == stack[t]);
        if t < stack.len() - 1 {
            assert(st[t + 1] == stack[t + 1]);
            assert(g.linked(actions, stack, t));
        } else {
            assert(stack[t] == stack.last());
            assert(st[t + 1] == i);
        }
    }
    assert forall|t1: int, t2: int| 0 <= t1 < t2 < st.len() implies #[trigger] st[t1] != #[trigger] st[t2] by {
        assert(st[t1] == stack[t1]);
        if t2 < stack.len() {
            assert(st[t2] == stack[t2]);
        } else {
            assert(st[t2] == i);
        }
    }
}

/// The sources of a cycle of distinct effective moves with distinct
/// targets are distinct.
proof fn lemma_cycle_sources<K>(g: Graph<K>, actions: Seq<GapAction>, cyc: Seq<int>)
    requires
        g.simple_moves(actions),
        g.move_cycle(actions, cyc),
        forall|u: int, v: int| 0 <= u < v < cyc.len() ==> #[trigger] cyc[u] != #[trigger] cyc[v],
    ensures
        forall|u: int, v: int| 0 <= u < v < cyc.len()
            ==> g.loc(actions[#[trigger] cyc[u]].from) != g.loc(actions[#[trigger] cyc[v]].from),
{
    let m = cyc.len() as int;
    assert forall|u: int, v: int| 0 <= u < v < cyc.len()
        implies g.loc(actions[#[trigger] cyc[u]].from) != g.loc(actions[#[trigger] cyc[v]].from) by {
        // the source of each move is the target of the one before it
        let pu = if u == 0 { m - 1 } else { u - 1 };
        let pv = v - 1;
        if u == 0 {
            assert(g.loc(actions[cyc.last()].to) == g.loc(actions[cyc[0]].from));
            assert(cyc.last() == cyc[m - 1]);
        } else {
            assert(g.linked(actions, cyc, u - 1));
        }
        assert(g.linked(actions, cyc, v - 1));
        assert(cyc[pu] != cyc[pv]);
        assert(0 <= cyc[pu] < actions.len() && g.effective(actions[cyc[pu]]));
        assert(0 <= cyc[pv] < actions.len() && g.effective(actions[cyc[pv]]));
        if cyc[pu] < cyc[pv] {
            assert(g.loc(actions[cyc[pu]].to) != g.loc(actions[cyc[pv]].to));
        } else {
            assert(g.loc(actions[cyc[pv]].to) != g.loc(actions[cyc[pu]].to));
        }
    }
}

/// A move being emitted reads the target of `i` only where it starts the
/// stack, which `i` closes into a cycle.
proof fn lemma_sentinel<K>(g: Graph<K>, actions: Seq<GapAction>, s0: Seq<MoveStatus>, stack: Seq<int>, i: int, j: int)
    requires
        g.simple_moves(actions),
        g.stack_ok(actions, s0, stack, i),
        !stack.contains(i),
        0 <= i < actions.len(),
        g.effective(actions[i]),
        g.reads_target(actions, j, i),
        stack.contains(j) || j == i,
    ensures
        stack.len() > 0,
        j == stack[0],
        g.cycle_through(actions, stack.push(i), stack, i),
{
    reveal(Graph::stack_ok);
    let t = choose|t: int| 0 <= t < stack.len() && stack[t] == j;
    if t > 0 {
        // `stack[t - 1]` and `i` would both write the source of `j`
        assert(g.linked(actions, stack, t - 1));
        assert(stack[t - 1] != i);
        if stack[t - 1] < i {
            assert(g.loc(actions[stack[t - 1]].to) != g.loc(actions[i].to));
        } else {
            assert(g.loc(actions[i].to) != g.loc(actions[stack[t - 1]].to));
        }
    }
    let cyc = stack.push(i);
    assert forall|u: int| 0 <= u < cyc.len() implies 0 <= #[trigger] cyc[u] < actions.len() && g.effective(actions[cyc[u]]) by {
        if u < stack.len() {
            assert(cyc[u] == stack[u]);
        }
    }
    assert forall|u: int| 0 <= u < cyc.len() - 1 implies #[trigger] g.linked(actions, cyc, u) by {
        assert(cyc[u] == stack[u]);
        if u < stack.len() - 1 {
            assert(cyc[u + 1] == stack[u + 1]);
            assert(g.linked(actions, stack, u));
        } else {
            assert(stack[u] == stack.last());
            assert(cyc[u + 1] == i);
        }
    }
    assert(cyc.last() == i);
    assert(cyc[0] == stack[0]);
    assert(g.move_cycle(actions, cyc));
    assert forall|u: int, v: int| 0 <= u < v < cyc.len() implies #[trigger] cyc[u] != #[trigger] cyc[v] by {
        assert(cyc[u] == stack[u]);
        if v < stack.len() {
            assert(cyc[v] == stack[v]);
        } else {
            assert(cyc[v] == i);
        }
    }
    lemma_cycle_sources(g, actions, cyc);
    assert forall|u: int| 0 <= u < stack.len() implies #[trigger] cyc[u] == stack[u] by {}
}

/// The moves of a cycle from its last position on change nothing.
proof fn lemma_rotated_last<K>(g: Graph<K>, actions: Seq<GapAction>, cyc: Seq<int>, f: spec_fn(Value) -> int, l: Value)
    requires
        cyc.len() > 0,
    ensures
        g.rotated(actions, cyc, cyc.len() - 1, f, l) == f(l),
{
    assert(cyc.last() == cyc[cyc.len() - 1]);
    assert(!exists|u: int| #[trigger] g.cycle_writes(actions, cyc, cyc.len() - 1, u, l));
}

/// Two moves of a cycle with distinct sources that write the same
/// location are the same.
proof fn lemma_cycle_writer_unique<K>(g: Graph<K>, actions: Seq<GapAction>, cyc: Seq<int>, stack: Seq<int>, i: int, u1: int, u2: int)
    requires
        g.cycle_through(actions, cyc, stack, i),
        0 <= u1 < cyc.len() - 1,
        0 <= u2 < cyc.len() - 1,
        g.loc(actions[cyc[u1]].to) == g.loc(actions[cyc[u2]].to),
    ensures
        u1 == u2,
{
    assert(g.linked(actions, cyc, u1));
    assert(g.linked(actions, cyc, u2));
    if u1 < u2 {
        assert(g.loc(actions[cyc[u1 + 1]].from) != g.loc(actions[cyc[u2 + 1]].from));
    } else if u2 < u1 {
        assert(g.loc(actions[cyc[u2 + 1]].from) != g.loc(actions[cyc[u1 + 1]].from));
    }
}

/// Swapping the source and target of move `cyc[d - 1]` after the moves of
/// the cycle from `d` on gives the moves from `d - 1` on.
proof fn lemma_rotated_swap<K>(
    g: Graph<K>,
    actions: Seq<GapAction>,
    cyc: Seq<int>,
    stack: Seq<int>,
    i: int,
    d: int,
    f: spec_fn(Value) -> int,
    h: spec_fn(Value) -> int,
    l: Value,
)
    requires
        g.cycle_through(actions, cyc, stack, i),
        1 <= d < cyc.len(),
        forall|x: Value| #[trigger] h(x) == g.rotated(actions, cyc, d, f, x),
    ensures
        g.run_action(
            GapAction { kind: GapActionKind::Swap, from: actions[cyc[d - 1]].from, to: actions[cyc[d - 1]].to },
            h,
        )(l) == g.rotated(actions, cyc, d - 1, f, l),
{
    let a = GapAction { kind: GapActionKind::Swap, from: actions[cyc[d - 1]].from, to: actions[cyc[d - 1]].to };
    let lf = g.loc(actions[cyc[d - 1]].from);
    let lt = g.loc(actions[cyc[d - 1]].to);
    let m = cyc.len() as int;
    assert(g.linked(actions, cyc, d - 1));
    assert(lt == g.loc(actions[cyc[d]].from));
    assert(lf != lt);
    assert(cyc.last() == cyc[m - 1]);
    // no later move of the cycle writes the source of `cyc[d - 1]`
    assert forall|u: int| !#[trigger] g.cycle_writes(actions, cyc, d, u, lf) by {
        if g.cycle_writes(actions, cyc, d, u, lf) {
            assert(g.linked(actions, cyc, u));
        }
    }
    assert(g.cycle_writes(actions, cyc, d - 1, d - 1, lt));
    if l == lt {
        assert(h(lf) == f(lf));
        let u = choose|u: int| #[trigger] g.cycle_writes(actions, cyc, d - 1, u, lt);
        lemma_cycle_writer_unique(g, actions, cyc, stack, i, u, d - 1);
    } else if l == lf {
        assert(h(lt) == f(g.loc(actions[cyc.last()].from)));
    } else {
        assert(h(l) == g.rotated(actions, cyc, d, f, l));
        if exists|u: int| #[trigger] g.cycle_writes(actions, cyc, d - 1, u, l) {
            let u1 = choose|u: int| #[trigger] g.cycle_writes(actions, cyc, d - 1, u, l);
            assert(u1 != d - 1);
            assert(g.cycle_writes(actions, cyc, d, u1, l));
            let u2 = choose|u: int| #[trigger] g.cycle_writes(actions, cyc, d, u, l);
            lemma_cycle_writer_unique(g, actions, cyc, stack, i, u1, u2);
        } else {
            assert forall|u: int| !#[trigger] g.cycle_writes(actions, cyc, d, u, l) by {
                if g.cycle_writes(actions, cyc, d, u, l) {
                    assert(g.cycle_writes(actions, cyc, d - 1, u, l));
                }
            }
        }
    }
}

/// Two done moves that write the same location are the same.
proof fn lemma_done_writer_unique<K>(g: Graph<K>, actions: Seq<GapAction>, s: Seq<MoveStatus>, k1: int, k2: int, l: Value)
    requires
        g.simple_moves(actions),
        g.done_writes(actions, s, k1, l),
        g.done_writes(actions, s, k2, l),
    ensures
        k1 == k2,
{
    if k1 < k2 {
        assert(g.loc(actions[k1].to) != g.loc(actions[k2].to));
    } else if k2 < k1 {
        assert(g.loc(actions[k2].to) != g.loc(actions[k1].to));
    }
}

/// A location with the same done writers in `s1` as in `s0` holds the same
/// after the done moves.
proof fn lemma_run_done_same<K>(g: Graph<K>, actions: Seq<GapAction>, s0: Seq<MoveStatus>, s1: Seq<MoveStatus>, st: spec_fn(Value) -> int, l: Value)
    requires
        g.simple_moves(actions),
        forall|k: int| #[trigger] g.done_writes(actions, s1, k, l) <==> g.done_writes(actions, s0, k, l),
    ensures
        g.run_done(actions, s1, st, l) == g.run_done(actions, s0, st, l),
{
    if exists|k: int| #[trigger] g.done_writes(actions, s0, k, l) {
        let k0 = choose|k: int| #[trigger] g.done_writes(actions, s0, k, l);
        assert(g.done_writes(actions, s1, k0, l));
        let k1 = choose|k: int| #[trigger] g.done_writes(actions, s1, k, l);
        assert(g.done_writes(actions, s0, k1, l));
        lemma_done_writer_unique(g, actions, s0, k0, k1, l);
    } else {
        assert forall|k: int| !#[trigger] g.done_writes(actions, s1, k, l) by {
            assert(!g.done_writes(actions, s0, k, l));
        }
    }
}

/// Emitting move `i`, whose source no done move writes, after moves that
/// run as the done ones, runs as the done ones with `i`.
proof fn lemma_tree_emit<K>(g: Graph<K>, actions: Seq<GapAction>, s: Seq<MoveStatus>, res: Seq<GapAction>, i: int)
    requires
        g.simple_moves(actions),
        g.runs_as_done(actions, s, res),
        s.len() == actions.len(),
        0 <= i < actions.len(),
        s[i] != MoveStatus::Moved,
        g.effective(actions[i]),
        forall|k: int| !#[trigger] g.done_writes(actions, s, k, g.loc(actions[i].from)),
    ensures
        g.runs_as_done(actions, s.update(i, MoveStatus::Moved), res.push(actions[i])),
{
    let s1 = s.update(i, MoveStatus::Moved);
    let r1 = res.push(actions[i]);
    assert forall|st: spec_fn(Value) -> int, l: Value| #[trigger] g.run_actions(r1, st)(l) == g.run_done(actions, s1, st, l) by {
        assert(r1.drop_last() == res);
        assert(r1.last() == actions[i]);
        assert(actions[i].kind is Move);
        let prev = g.run_actions(res, st);
        assert(prev(l) == g.run_done(actions, s, st, l));
        let src = g.loc(actions[i].from);
        assert(prev(src) == g.run_done(actions, s, st, src));
        if l == g.loc(actions[i].to) {
            assert(g.done_writes(actions, s1, i, l));
            let k = choose|k: int| #[trigger] g.done_writes(actions, s1, k, l);
            lemma_done_writer_unique(g, actions, s1, k, i, l);
        } else {
            assert forall|k: int| #[trigger] g.done_writes(actions, s1, k, l) <==> g.done_writes(actions, s, k, l) by {
                if k == i {
                    assert(!g.done_writes(actions, s1, k, l));
                }
            }
            lemma_run_done_same(g, actions, s, s1, st, l);
        }
    }
}

/// At the end of a whole cycle, what ran as the done moves runs as the
/// done moves with the cycle's.
proof fn lemma_cycle_emit<K>(
    g: Graph<K>,
    actions: Seq<GapAction>,
    cyc: Seq<int>,
    i: int,
    s0: Seq<MoveStatus>,
    s1: Seq<MoveStatus>,
    r0: Seq<GapAction>,
    r1: Seq<GapAction>,
)
    requires
        g.simple_moves(actions),
        s0.len() == actions.len(),
        s1.len() == s0.len(),
        g.runs_as_done(actions, s0, r0),
        g.cycle_done(actions, cyc, Seq::empty(), i, s0, s1, r0, r1),
    ensures
        g.runs_as_done(actions, s1, r1),
{
    let m = cyc.len() as int;
    assert(cyc.subrange(0, m) =~= cyc);
    assert(cyc.last() == cyc[m - 1]);
    assert(m > 1) by {
        if m == 1 {
            assert(g.effective(actions[cyc[0]]));
        }
    }
    // the writer of a source of the cycle is the move before it, not done before
    assert forall|u: int, k: int| 0 <= u < m implies !#[trigger] g.done_writes(actions, s0, k, g.loc(actions[cyc[u]].from)) by {
        let p = if u == 0 { m - 1 } else { u - 1 };
        if g.done_writes(actions, s0, k, g.loc(actions[cyc[u]].from)) {
            if u == 0 {
                assert(g.loc(actions[cyc[m - 1]].to) == g.loc(actions[cyc[0]].from));
            } else {
                assert(g.linked(actions, cyc, u - 1));
            }
            assert(s0[cyc[p]] == MoveStatus::ToMove);
            assert(g.effective(actions[cyc[p]]));
            if k < cyc[p] {
                assert(g.loc(actions[k].to) != g.loc(actions[cyc[p]].to));
            } else if cyc[p] < k {
                assert(g.loc(actions[cyc[p]].to) != g.loc(actions[k].to));
            }
        }
    }
    assert forall|st: spec_fn(Value) -> int, l: Value| #[trigger] g.run_actions(r1, st)(l) == g.run_done(actions, s1, st, l) by {
        let f = g.run_actions(r0, st);
        assert(g.run_actions(r1, st)(l) == g.rotated(actions, cyc, 0, f, l));
        let l0 = g.loc(actions[cyc[0]].from);
        if l == l0 {
            let src = g.loc(actions[cyc[m - 1]].from);
            assert(f(src) == g.run_done(actions, s0, st, src));
            assert forall|k: int| !#[trigger] g.done_writes(actions, s0, k, src) by {
                if g.done_writes(actions, s0, k, src) {
                    assert(g.done_writes(actions, s0, k, g.loc(actions[cyc[m - 1]].from)));
                }
            }
            assert(g.done_writes(actions, s1, cyc[m - 1], l));
            let k = choose|k: int| #[trigger] g.done_writes(actions, s1, k, l);
            lemma_done_writer_unique(g, actions, s1, k, cyc[m - 1], l);
        } else if exists|u: int| #[trigger] g.cycle_writes(actions, cyc, 0, u, l) {
            let u = choose|u: int| #[trigger] g.cycle_writes(actions, cyc, 0, u, l);
            let src = g.loc(actions[cyc[u]].from);
            assert(f(src) == g.run_done(actions, s0, st, src));
            assert forall|k: int| !#[trigger] g.done_writes(actions, s0, k, src) by {
                if g.done_writes(actions, s0, k, src) {
                    assert(g.done_writes(actions, s0, k, g.loc(actions[cyc[u]].from)));
                }
            }
            assert(g.done_writes(actions, s1, cyc[u], l));
            let k = choose|k: int| #[trigger] g.done_writes(actions, s1, k, l);
            lemma_done_writer_unique(g, actions, s1, k, cyc[u], l);
        } else {
            assert(f(l) == g.run_done(actions, s0, st, l));
            // no move of the cycle writes `l`
            assert forall|k: int| #[trigger] g.done_writes(actions, s1, k, l) <==> g.done_writes(actions, s0, k, l) by {
                if cyc.contains(k) {
                    let u = choose|u: int| 0 <= u < m && cyc[u] == k;
                    if g.loc(actions[k].to) == l {
                        if u < m - 1 {
                            assert(g.cycle_writes(actions, cyc, 0, u, l));
                        } else {
                            assert(g.loc(actions[cyc[m - 1]].to) == l0);
                        }
                    }
                } else {
                    assert(!cyc.subrange(0, m).contains(k));
                    if 0 <= k < s0.len() {
                        assert(s1[k] == s0[k]);
                    }
                }
            }
            lemma_run_done_same(g, actions, s0, s1, st, l);
        }
    }
}

/// With every effective move done, the done moves are all the moves.
proof fn lemma_done_parallel<K>(g: Graph<K>, actions: Seq<GapAction>, s: Seq<MoveStatus>, st: spec_fn(Value) -> int, l: Value)
    requires
        g.simple_moves(actions),
        s.len() == actions.len(),
        forall|k: int| 0 <= k < actions.len() && g.effective(actions[k]) ==> #[trigger] s[k] == MoveStatus::Moved,
    ensures
        g.run_done(actions, s, st, l) == g.run_parallel(actions, st, l),
{
    assert forall|k: int| #[trigger] g.done_writes(actions, s, k, l) <==> g.writes(actions, k, l) by {
        if g.writes(actions, k, l) {
            assert(s[k] == MoveStatus::Moved);
        }
    }
    if exists|k: int| #[trigger] g.writes(actions, k, l) {
        let k0 = choose|k: int| #[trigger] g.writes(actions, k, l);
        assert(g.done_writes(actions, s, k0, l));
        let k1 = choose|k: int| #[trigger] g.done_writes(actions, s, k, l);
        lemma_done_writer_unique(g, actions, s, k0, k1, l);
    } else {
        assert forall|k: int| !#[trigger] g.done_writes(actions, s, k, l) by {
            assert(!g.writes(actions, k, l));
        }
    }
}

/// What a sequence of actions does depends on the intervals alone.
proof fn lemma_run_same<K>(g1: Graph<K>, g0: Graph<K>, res: Seq<GapAction>, st: spec_fn(Value) -> int)
    requires
        g1.intervals@ == g0.intervals@,
    ensures
        forall|l: Value| #[trigger] g1.run_actions(res, st)(l) == g0.run_actions(res, st)(l),
    decreases res.len(),
{
    if res.len() > 0 {
        lemma_run_same(g1, g0, res.drop_last(), st);
        let p1 = g1.run_actions(res.drop_last(), st);
        let p0 = g0.run_actions(res.drop_last(), st);
        let a = res.last();
        assert(g1.loc(a.from) == g0.loc(a.from) && g1.loc(a.to) == g0.loc(a.to));
        assert forall|l: Value| #[trigger] g1.run_actions(res, st)(l) == g0.run_actions(res, st)(l) by {
            assert(p1(l) == p0(l));
            assert(p1(g1.loc(a.from)) == p0(g0.loc(a.from)));
            assert(p1(g1.loc(a.to)) == p0(g0.loc(a.to)));
        }
    }
}

/// The law of a resolved gap carries over to a graph with the same
/// intervals.
proof fn lemma_law_transfer<K>(g1: Graph<K>, g0: Graph<K>, res: Seq<GapAction>, actions: Seq<GapAction>)
    requires
        g1.intervals@ == g0.intervals@,
        g0.simple_moves(actions),
    ensures
        g1.simple_moves(actions),
        g1.same_effect(res, actions) ==> g0.same_effect(res, actions),
{
    assert forall|v: IntervalId| #[trigger] g1.loc(v) == g0.loc(v) by {}
    assert forall|path: Seq<int>, t: int, j: int| #[trigger] g1.move_cycle(actions, path) && 0 <= t < path.len()
        && #[trigger] g1.reads_target(actions, j, path[t]) implies j == next_in(path, t) by {
        assert forall|u: int| 0 <= u < path.len() - 1 implies #[trigger] g0.linked(actions, path, u) by {
            assert(g1.linked(actions, path, u));
        }
        assert(g0.move_cycle(actions, path));
        assert(g0.reads_target(actions, j, path[t]));
    }
    if g1.same_effect(res, actions) {
        assert forall|st: spec_fn(Value) -> int, l: Value| #[trigger] g0.run_actions(res, st)(l) == g0.run_parallel(actions, st, l) by {
            lemma_run_same(g1, g0, res, st);
            assert(g1.run_actions(res, st)(l) == g1.run_parallel(actions, st, l));
            assert forall|k: int| #[trigger] g1.writes(actions, k, l) <==> g0.writes(actions, k, l) by {}
            if exists|k: int| #[trigger] g0.writes(actions, k, l) {
                let k0 = choose|k: int| #[trigger] g0.writes(actions, k, l);
                assert(g1.writes(actions, k0, l));
                let k1 = choose|k: int| #[trigger] g1.writes(actions, k, l);
                assert(g0.writes(actions, k1, l));
                if k1 < k0 {
                    assert(g0.loc(actions[k1].to) != g0.loc(actions[k0].to));
                } else if k0 < k1 {
                    assert(g0.loc(actions[k0].to) != g0.loc(actions[k1].to));
                }
            }
        }
    }
}

/// Resolving the parallel moves of the gaps into sequences of moves and
/// swaps.
pub trait GapResolver {
    fn resolve_gaps(&mut self) -> Result<(), String>;
}

impl<K: KindHelper> Graph<K> {
    /// Emit the move `actions[i]` after every move that reads the location
    /// it writes: such moves are emitted first; where one of them is already
    /// being emitted (a cycle), the values are swapped instead, or the move
    /// is left to the one that closes the cycle. Moves within one location
    /// are dropped. Answers whether `actions[i]` took part in a cycle.
    /// `stack` lists the moves being emitted, each one's target the next
    /// one's source.
    pub fn move_one(
        &self,
        actions: &Vec<GapAction>,
        i: usize,
        s: &mut Vec<MoveStatus>,
        result: &mut Vec<GapAction>,
        Ghost(stack): Ghost<Seq<int>>,
    ) -> (r: Result<bool, String>)
        requires
            i < actions@.len(),
            old(s)@.len() == actions@.len(),
            old(s)@[i as int] == MoveStatus::ToMove,
            actions_below(actions@, self.nv()),
            self.simple_moves(actions@) && self.effective(actions@[i as int]) ==> {
                &&& self.stack_ok(actions@, old(s)@, stack, i as int)
                &&& self.runs_as_done(actions@, old(s)@, old(result)@)
                &&& self.readers_done_but(actions@, old(s)@, bottom(stack))
            },
        ensures
            final(s)@.len() == old(s)@.len(),
            forall|k: int| 0 <= k < old(s)@.len() ==> rank(#[trigger] old(s)@[k]) <= rank(final(s)@[k]),
            forall|k: int| 0 <= k < old(s)@.len() && old(s)@[k] != MoveStatus::ToMove
                ==> #[trigger] final(s)@[k] == old(s)@[k],
            count_to_move(final(s)@) <= count_to_move(old(s)@),
            old(result)@.len() <= final(result)@.len(),
            final(result)@.subrange(0, old(result)@.len() as int) == old(result)@,
            self.resolved_from(final(result)@.subrange(old(result)@.len() as int, final(result)@.len() as int), actions@),
            actions@[i as int].kind is Move && !self.effective(actions@[i as int])
                ==> (r matches Ok(b) && !b) && final(s)@ == old(s)@ && final(result)@ == old(result)@,
            self.simple_moves(actions@) && self.effective(actions@[i as int]) ==> {
                &&& r is Ok
                &&& forall|k: int| 0 <= k < old(s)@.len()
                    ==> (#[trigger] final(s)@[k] == MoveStatus::Moving <==> old(s)@[k] == MoveStatus::Moving)
                &&& self.readers_done_but(actions@, final(s)@, bottom(stack))
                &&& r matches Ok(b) ==> if b {
                    exists|cyc: Seq<int>| self.cycle_done(actions@, cyc, stack, i as int, old(s)@, final(s)@, old(result)@, final(result)@)
                } else {
                    self.tree_done(actions@, old(s)@, final(s)@, final(result)@, i as int)
                }
            },
        decreases count_to_move(old(s)@),
    {
        let a = actions[i];
        match a.kind {
            GapActionKind::Move => {},
            GapActionKind::Swap => {
                return Err("Expected move".to_owned());
            },
        }
        let from = self.intervals[a.from.0].value;
        let to = self.intervals[a.to.0].value;

        // Ignore nop moves
        if from == to {
            assert(result@.subrange(0, result@.len() as int) =~= result@);
            assert(result@.subrange(result@.len() as int, result@.len() as int) =~= Seq::<GapAction>::empty());
            return Ok(false);
        }

        let ghost s0 = s@;
        let ghost res0 = result@;
        let ghost simple = self.simple_moves(actions@);
        let ghost d = stack.len() as int;
        proof {
            lemma_count_start(s@, i as int);
        }
        s.set(i, MoveStatus::Moving);
        proof {
            if simple {
                lemma_stack_moving(*self, actions@, s0, stack, i as int);
                assert(!stack.contains(i as int));
                assert forall|k: int| 0 <= k < s0.len() implies (#[trigger] s@[k] == MoveStatus::Moving
                    <==> (stack.contains(k) || k == i)) by {
                    if k != i {
                        assert(s@[k] == s0[k]);
                    }
                }
                assert forall|st: spec_fn(Value) -> int, l: Value| #[trigger] self.run_actions(result@, st)(l)
                    == self.run_done(actions@, s@, st, l) by {
                    assert(self.run_actions(res0, st)(l) == self.run_done(actions@, s0, st, l));
                    assert forall|k: int| #[trigger] self.done_writes(actions@, s@, k, l) <==> self.done_writes(actions@, s0, k, l) by {
                        if 0 <= k < s0.len() && k != i {
                            assert(s@[k] == s0[k]);
                        }
                    }
                    lemma_run_done_same(*self, actions@, s0, s@, st, l);
                }
            }
        }
        let mut j: usize = 0;
        let mut circular = false;
        let mut sentinel = false;
        let ghost mut seen = false;
        let ghost mut cyc: Seq<int> = Seq::empty();
        let n = actions.len();
        while j < n
            invariant
                n == actions@.len(),
                i < n,
                j <= n,
                s@.len() == s0.len(),
                s0.len() == n,
                s@[i as int] == MoveStatus::Moving,
                forall|k: int| 0 <= k < s0.len() ==> rank(#[trigger] s0[k]) <= rank(s@[k]),
                forall|k: int| 0 <= k < s0.len() && s0[k] != MoveStatus::ToMove ==> #[trigger] s@[k] == s0[k],
                count_to_move(s@) < count_to_move(s0),
                s0 == old(s)@,
                res0 == old(result)@,
                res0.len() <= result@.len(),
                result@.subrange(0, res0.len() as int) == res0,
                self.resolved_from(result@.subrange(res0.len() as int, result@.len() as int), actions@),
                actions_below(actions@, self.nv()),
                a == actions@[i as int],
                from == self.loc(a.from),
                to == self.loc(a.to),
                from != to,
                d == stack.len(),
                simple == self.simple_moves(actions@),
                simple ==> self.stack_ok(actions@, s0, stack, i as int),
                simple ==> !stack.contains(i as int),
                simple ==> self.readers_done_but(actions@, s0, bottom(stack)),
                simple ==> forall|k: int| 0 <= k < n
                    ==> (#[trigger] s@[k] == MoveStatus::Moving <==> (stack.contains(k) || k == i)),
                simple ==> !(circular && sentinel),
                simple && !circular && !sentinel ==> {
                    &&& self.runs_as_done(actions@, s@, result@)
                    &&& forall|k: int| 0 <= k < n && k != i && #[trigger] s@[k] != s0[k]
                        ==> s0[k] == MoveStatus::ToMove && s@[k] == MoveStatus::Moved
                    &&& forall|k: int, jj: int| #[trigger] self.done_move(actions@, s@, k) && s0[k] != MoveStatus::Moved
                        && #[trigger] self.reads_target(actions@, jj, k) ==> s@[jj] == MoveStatus::Moved
                    &&& forall|jj: int| 0 <= jj < j && #[trigger] self.reads_target(actions@, jj, i as int)
                        ==> s@[jj] == MoveStatus::Moved
                    &&& !seen ==> s@ == s0.update(i as int, MoveStatus::Moving) && result@ == res0
                    &&& seen ==> exists|jj: int| 0 <= jj < j && #[trigger] self.reads_target(actions@, jj, i as int)
                },
                simple && sentinel ==> {
                    &&& s@ == s0.update(i as int, MoveStatus::Moving)
                    &&& result@ == res0
                    &&& d > 0
                    &&& self.cycle_through(actions@, stack.push(i as int), stack, i as int)
                },
                simple && circular ==> {
                    &&& self.cycle_done(actions@, cyc, stack.push(i as int), cyc[d + 1], s0.update(i as int, MoveStatus::Moving), s@, res0, result@)
                    &&& self.readers_done_but(actions@, s@, bottom(stack.push(i as int)))
                    &&& self.cycle_through(actions@, cyc, stack, i as int)
                },
            decreases n - j,
        {
            let other = actions[j];
            match other.kind {
                GapActionKind::Move => {},
                GapActionKind::Swap => {
                    return Err("Expected move".to_owned());
                },
            }
            let other_from = self.intervals[other.from.0].value;
            if other_from == to {
                match s[j] {
                    MoveStatus::ToMove => {
                        let ghost s1 = s@;
                        let ghost res1 = result@;
                        let ghost eff = self.effective(actions@[j as int]);
                        proof {
                            if simple && eff {
                                lemma_stack_push(*self, actions@, s0, s@, stack, i as int, j as int);
                                assert(self.reads_target(actions@, j as int, i as int));
                                if circular {
                                    // the only reader of the target of `i` is the next move of its cycle
                                    assert(cyc[d] == i);
                                    assert(self.reads_target(actions@, j as int, cyc[d]));
                                    assert(j == next_in(cyc, d));
                                    assert(cyc[d + 1] == j as int);
                                    assert(s1[cyc[d + 1]] == MoveStatus::Moved);
                                }
                                if sentinel {
                                    let c = stack.push(i as int);
                                    assert(c[d] == i);
                                    assert(self.reads_target(actions@, j as int, c[d]));
                                    assert(j == next_in(c, d));
                                    assert(c[0] == stack[0]);
                                    assert(s1[stack[0]] == MoveStatus::Moving) by {
                                        assert(stack.contains(stack[0]));
                                    }
                                }
                                assert(self.readers_done_but(actions@, s@, bottom(stack.push(i as int)))) by {
                                    assert forall|k: int, jj: int| #[trigger] self.done_move(actions@, s@, k)
                                        && #[trigger] self.reads_target(actions@, jj, k)
                                        implies s@[jj] == MoveStatus::Moved || jj == bottom(stack.push(i as int)) by {
                                        if s0[k] == MoveStatus::Moved {
                                            assert(self.done_move(actions@, s0, k));
                                            if s0[jj] == MoveStatus::Moved {
                                                assert(s@[jj] == s0[jj]);
                                            } else {
                                                assert(jj == bottom(stack));
                                                assert(stack.push(i as int)[0] == stack[0]);
                                            }
                                        }
                                    }
                                }
                            }
                        }
                        let r = self.move_one(actions, j, s, result, Ghost(stack.push(i as int)));
                        proof {
                            assert(s@[i as int] == s1[i as int]);
                            assert forall|k: int| 0 <= k < s0.len() implies rank(#[trigger] s0[k]) <= rank(s@[k]) by {
                                assert(rank(s1[k]) <= rank(s@[k]));
                            }
                            assert forall|k: int| 0 <= k < s0.len() && s0[k] != MoveStatus::ToMove
                                implies #[trigger] s@[k] == s0[k] by {
                                assert(s1[k] == s0[k]);
                            }
                            let mid = result@.subrange(res0.len() as int, res1.len() as int);
                            let tail = result@.subrange(res1.len() as int, result@.len() as int);
                            assert(mid =~= res1.subrange(res0.len() as int, res1.len() as int));
                            assert(result@.subrange(0, res0.len() as int) =~= res1.subrange(0, res0.len() as int));
                            let all = result@.subrange(res0.len() as int, result@.len() as int);
                            assert forall|e: int| 0 <= e < all.len() implies #[trigger] self.comes_from(all[e], actions@) by {
                                if e < mid.len() {
                                    assert(all[e] == res1.subrange(res0.len() as int, res1.len() as int)[e]);
                                } else {
                                    assert(all[e] == tail[e - mid.len()]);
                                }
                            }
                            if simple {
                                if eff {
                                    assert forall|k: int| 0 <= k < n implies (#[trigger] s@[k] == MoveStatus::Moving
                                        <==> (stack.contains(k) || k == i)) by {
                                        assert(s@[k] == MoveStatus::Moving <==> s1[k] == MoveStatus::Moving);
                                    }
                                } else {
                                    assert(s@ == s1 && result@ == res1);
                                }
                            }
                        }
                        match r {
                            Ok(true) => {
                                if circular {
                                    return Err("Two cycles through one move".to_owned());
                                }
                                proof {
                                    if simple {
                                        assert(eff);
                                        let c = choose|c: Seq<int>| self.cycle_done(actions@, c, stack.push(i as int), j as int, s1, s@, res1, result@);
                                        cyc = c;
                                        // no reader of the target of `i` came before: it is on the cycle
                                        assert(cyc[d] == i) by {
                                            assert(cyc[d] == stack.push(i as int)[d]);
                                        }
                                        if seen {
                                            let jj = choose|jj: int| 0 <= jj < j && #[trigger] self.reads_target(actions@, jj, i as int);
                                            assert(self.reads_target(actions@, jj, cyc[d]));
                                            assert(self.reads_target(actions@, j as int, cyc[d]));
                                            assert(jj == next_in(cyc, d));
                                            assert(j == next_in(cyc, d));
                                        }
                                        assert(s1 == s0.update(i as int, MoveStatus::Moving));
                                        assert(res1 == res0);
                                        assert(cyc[d + 1] == j as int);
                                        assert(self.cycle_through(actions@, cyc, stack, i as int)) by {
                                            assert forall|u: int| 0 <= u < stack.len() implies #[trigger] cyc[u] == stack[u] by {
                                                assert(cyc[u] == stack.push(i as int)[u]);
                                            }
                                        }
                                    }
                                }
                                circular = true;
                            },
                            Ok(false) => {
                                proof {
                                    if simple && eff {
                                        seen = true;
                                        assert(self.tree_done(actions@, s1, s@, result@, j as int));
                                        assert forall|k: int, jj: int| #[trigger] self.done_move(actions@, s@, k) && s0[k] != MoveStatus::Moved
                                            && #[trigger] self.reads_target(actions@, jj, k) implies s@[jj] == MoveStatus::Moved by {
                                            if s1[k] != MoveStatus::Moved {
                                            } else {
                                                assert(self.done_move(actions@, s1, k));
                                                assert(s1[jj] == MoveStatus::Moved);
                                            }
                                        }
                                        assert forall|k: int| 0 <= k < n && k != i && #[trigger] s@[k] != s0[k]
                                            implies s0[k] == MoveStatus::ToMove && s@[k] == MoveStatus::Moved by {
                                            if s@[k] == s1[k] {
                                            } else {
                                                assert(s1[k] == MoveStatus::ToMove);
                                            }
                                        }
                                        assert forall|jj: int| 0 <= jj < j + 1 && #[trigger] self.reads_target(actions@, jj, i as int)
                                            implies s@[jj] == MoveStatus::Moved by {
                                            if jj < j {
                                                assert(s1[jj] == MoveStatus::Moved);
                                            }
                                        }
                                        assert(self.reads_target(actions@, j as int, i as int));
                                    }
                                }
                            },
                            Err(e) => {
                                return Err(e);
                            },
                        }
                    },
                    MoveStatus::Moving => {
                        proof {
                            if simple {
                                assert(s@[j as int] == MoveStatus::Moving);
                                lemma_stack_moving(*self, actions@, s0, stack, i as int);
                                if j != i {
                                    assert(stack.contains(j as int));
                                    let t = choose|t: int| 0 <= t < stack.len() && stack[t] == j;
                                    assert(self.effective(actions@[stack[t]]));
                                }
                                assert(self.reads_target(actions@, j as int, i as int));
                                lemma_sentinel(*self, actions@, s0, stack, i as int, j as int);
                                let c = stack.push(i as int);
                                if circular {
                                    assert(cyc[d] == i);
                                    assert(self.reads_target(actions@, j as int, cyc[d]));
                                    assert(j == next_in(cyc, d));
                                    assert(cyc[d + 1] == j as int);
                                    assert(s@[cyc[d + 1]] == MoveStatus::Moved);
                                }
                                if !circular && !sentinel && seen {
                                    let jj = choose|jj: int| 0 <= jj < j && #[trigger] self.reads_target(actions@, jj, i as int);
                                    assert(c[d] == i);
                                    assert(self.reads_target(actions@, jj, c[d]));
                                    assert(self.reads_target(actions@, j as int, c[d]));
                                    assert(jj == next_in(c, d));
                                    assert(j == next_in(c, d));
                                    assert(s@[jj] == MoveStatus::Moved);
                                }
                            }
                        }
                        sentinel = true;
                    },
                    MoveStatus::Moved => {
                        proof {
                            if simple && circular && self.effective(actions@[j as int]) {
                                assert(cyc[d] == i);
                                assert(self.reads_target(actions@, j as int, cyc[d]));
                                assert(j == next_in(cyc, d));
                            }
                            if simple && sentinel && self.effective(actions@[j as int]) {
                                let c = stack.push(i as int);
                                assert(c[d] == i);
                                assert(self.reads_target(actions@, j as int, c[d]));
                                assert(j == next_in(c, d));
                                assert(c[0] == stack[0]);
                                assert(stack.contains(stack[0]));
                            }
                        }
                    },
                }
            }
            j = j + 1;
        }

        let ghost res1 = result@;
        let ghost s2 = s@;
        if circular {
            result.push(GapAction { kind: GapActionKind::Swap, from: a.from, to: a.to });
        } else if !sentinel {
            result.push(a);
        }
        proof {
            let all = result@.subrange(res0.len() as int, result@.len() as int);
            assert(result@.subrange(0, res0.len() as int) =~= res1.subrange(0, res0.len() as int));
            assert forall|e: int| 0 <= e < all.len() implies #[trigger] self.comes_from(all[e], actions@) by {
                if res0.len() + e < res1.len() {
                    assert(all[e] == res1.subrange(res0.len() as int, res1.len() as int)[e]);
                } else {
                    assert(all[e] == result@[result@.len() - 1]);
                    assert(derived(all[e], actions@[i as int]) && self.effective(actions@[i as int]));
                }
            }
        }
        s.set(i, MoveStatus::Moved);
        proof {
            assert forall|k: int| 0 <= k < s0.len() implies rank(#[trigger] s0[k]) <= rank(s@[k]) by {
                assert(rank(s0[k]) <= rank(s2[k]));
            }
            lemma_count_mono(s0, s@);
            if simple {
                assert(s@ == s2.update(i as int, MoveStatus::Moved));
                assert forall|k: int| 0 <= k < s0.len()
                    implies (#[trigger] s@[k] == MoveStatus::Moving <==> s0[k] == MoveStatus::Moving) by {
                    if k != i {
                        assert(s@[k] == s2[k]);
                    }
                }
                if circular {
                    // one more swap turns the moves of the cycle from the next
                    // position on into those from the place of `i` on
                    let c0 = stack.push(i as int);
                    assert(cyc[d] == i);
                    assert forall|st: spec_fn(Value) -> int, l: Value| #[trigger] self.run_actions(result@, st)(l)
                        == self.rotated(actions@, cyc, d, self.run_actions(res0, st), l) by {
                        let h = self.run_actions(res1, st);
                        assert forall|x: Value| #[trigger] h(x) == self.rotated(actions@, cyc, d + 1, self.run_actions(res0, st), x) by {
                            assert(c0.len() == d + 1);
                        }
                        assert(result@.drop_last() == res1);
                        lemma_rotated_swap(*self, actions@, cyc, stack, i as int, d + 1, self.run_actions(res0, st), h, l);
                    }
                    assert forall|u: int| d <= u < cyc.len() implies s0[#[trigger] cyc[u]] == MoveStatus::ToMove
                        && s@[cyc[u]] == MoveStatus::Moved by {
                        if u > d {
                            assert(c0.len() <= u);
                        }
                    }
                    assert forall|k: int| 0 <= k < s0.len() && !cyc.subrange(d, cyc.len() as int).contains(k)
                        implies #[trigger] s@[k] == s0[k] by {
                        assert(k != i) by {
                            assert(cyc.subrange(d, cyc.len() as int)[0] == i);
                        }
                        assert(!cyc.subrange(d + 1, cyc.len() as int).contains(k)) by {
                            if cyc.subrange(d + 1, cyc.len() as int).contains(k) {
                                let sub = cyc.subrange(d + 1, cyc.len() as int);
                                let w = choose|w: int| 0 <= w < sub.len() && #[trigger] sub[w] == k;
                                assert(cyc.subrange(d, cyc.len() as int)[w + 1] == k);
                            }
                        }
                        assert(s2[k] == s0.update(i as int, MoveStatus::Moving)[k]);
                    }
                    assert(self.cycle_done(actions@, cyc, stack, i as int, s0, s@, res0, result@));
                    assert(self.readers_done_but(actions@, s@, bottom(stack))) by {
                        assert forall|k: int, jj: int| #[trigger] self.done_move(actions@, s@, k)
                            && #[trigger] self.reads_target(actions@, jj, k)
                            implies s@[jj] == MoveStatus::Moved || jj == bottom(stack) by {
                            if k == i {
                                assert(self.reads_target(actions@, jj, cyc[d]));
                                assert(jj == next_in(cyc, d));
                            } else {
                                assert(self.done_move(actions@, s2, k));
                                if jj != i {
                                    assert(s@[jj] == s2[jj]);
                                }
                                if d == 0 {
                                    assert(bottom(c0) == i);
                                } else {
                                    assert(bottom(c0) == bottom(stack));
                                }
                            }
                        }
                    }
                } else if sentinel {
                    let c0 = stack.push(i as int);
                    assert(c0.len() - 1 == d);
                    assert forall|st: spec_fn(Value) -> int, l: Value| #[trigger] self.run_actions(result@, st)(l)
                        == self.rotated(actions@, c0, d, self.run_actions(res0, st), l) by {
                        lemma_rotated_last(*self, actions@, c0, self.run_actions(res0, st), l);
                    }
                    assert forall|u: int| d <= u < c0.len() implies s0[#[trigger] c0[u]] == MoveStatus::ToMove
                        && s@[c0[u]] == MoveStatus::Moved by {
                        assert(u == d);
                    }
                    assert forall|k: int| 0 <= k < s0.len() && !c0.subrange(d, c0.len() as int).contains(k)
                        implies #[trigger] s@[k] == s0[k] by {
                        assert(c0.subrange(d, c0.len() as int)[0] == i);
                    }
                    assert(self.cycle_done(actions@, c0, stack, i as int, s0, s@, res0, result@));
                    assert(self.readers_done_but(actions@, s@, bottom(stack))) by {
                        assert forall|k: int, jj: int| #[trigger] self.done_move(actions@, s@, k)
                            && #[trigger] self.reads_target(actions@, jj, k)
                            implies s@[jj] == MoveStatus::Moved || jj == bottom(stack) by {
                            if k == i {
                                assert(c0[d] == i);
                                assert(self.reads_target(actions@, jj, c0[d]));
                                assert(jj == next_in(c0, d));
                                assert(c0[0] == stack[0]);
                            } else {
                                assert(self.done_move(actions@, s0, k));
                                if s0[jj] == MoveStatus::Moved {
                                    assert(s@[jj] == s0[jj]);
                                }
                            }
                        }
                    }
                } else {
                    // the source of `i` is written by no done move: its
                    // readers, `i` among them, would be done
                    assert forall|k: int| !#[trigger] self.done_writes(actions@, s2, k, from) by {
                        if self.done_writes(actions@, s2, k, from) {
                            assert(self.reads_target(actions@, i as int, k));
                            if s0[k] == MoveStatus::Moved {
                                assert(self.done_move(actions@, s0, k));
                                assert(s0[i as int] == MoveStatus::ToMove);
                                if d > 0 {
                                    assert(stack.contains(stack[0]));
                                }
                            }
                        }
                    }
                    lemma_tree_emit(*self, actions@, s2, res1, i as int);
                    assert(result@ == res1.push(actions@[i as int]));
                    assert forall|k: int| 0 <= k < s0.len() && #[trigger] s@[k] != s0[k]
                        implies s0[k] == MoveStatus::ToMove && s@[k] == MoveStatus::Moved by {
                        if k != i {
                            assert(s@[k] == s2[k]);
                        }
                    }
                    assert forall|k: int, jj: int| #[trigger] self.done_move(actions@, s@, k) && s0[k] != MoveStatus::Moved
                        && #[trigger] self.reads_target(actions@, jj, k) implies s@[jj] == MoveStatus::Moved by {
                        if k == i {
                            assert(s2[jj] == MoveStatus::Moved);
                            assert(jj != i);
                        } else {
                            assert(self.done_move(actions@, s2, k));
                            assert(s2[jj] == MoveStatus::Moved);
                            if jj == i {
                                assert(s2[i as int] == MoveStatus::Moving);
                            }
                        }
                    }
                    assert(self.tree_done(actions@, s0, s@, result@, i as int));
                    assert(self.readers_done_but(actions@, s@, bottom(stack))) by {
                        assert forall|k: int, jj: int| #[trigger] self.done_move(actions@, s@, k)
                            && #[trigger] self.reads_target(actions@, jj, k)
                            implies s@[jj] == MoveStatus::Moved || jj == bottom(stack) by {
                            if s0[k] == MoveStatus::Moved {
                                assert(self.done_move(actions@, s0, k));
                                if s0[jj] == MoveStatus::Moved {
                                    assert(s@[jj] == s0[jj]);
                                }
                            }
                        }
                    }
                }
            }
        }
        Ok(circular || sentinel)
    }

    /// Turn the parallel moves `actions` into a sequence of moves and swaps.
    /// When the moves are simple (see `simple_moves`), this succeeds and
    /// running the sequence in order has the effect of running the moves at
    /// once.
    pub fn resolve_gap(&self, actions: &Vec<GapAction>) -> (r: Result<Vec<GapAction>, String>)
        requires
            actions_below(actions@, self.nv()),
        ensures
            r matches Ok(res) ==> self.resolved_from(res@, actions@),
            self.simple_moves(actions@) ==> r is Ok,
            r matches Ok(res) ==> (self.simple_moves(actions@) ==> self.same_effect(res@, actions@)),
    {
        let n = actions.len();
        let mut status: Vec<MoveStatus> = Vec::new();
        let mut k: usize = 0;
        while k < n
            invariant
                k <= n,
                status@.len() == k,
                forall|q: int| 0 <= q < k ==> #[trigger] status@[q] == MoveStatus::ToMove,
            decreases n - k,
        {
            status.push(MoveStatus::ToMove);
            k = k + 1;
        }
        let ghost simple = self.simple_moves(actions@);
        let mut result: Vec<GapAction> = Vec::new();
        proof {
            assert forall|st: spec_fn(Value) -> int, l: Value| #[trigger] self.run_actions(result@, st)(l)
                == self.run_done(actions@, status@, st, l) by {
                assert forall|k: int| !#[trigger] self.done_writes(actions@, status@, k, l) by {}
            }
        }
        let mut i: usize = 0;
        while i < n
            invariant
                n == actions@.len(),
                i <= n,
                status@.len() == n,
                self.resolved_from(result@, actions@),
                actions_below(actions@, self.nv()),
                simple == self.simple_moves(actions@),
                simple ==> self.runs_as_done(actions@, status@, result@),
                simple ==> self.readers_done_but(actions@, status@, -1),
                simple ==> forall|q: int| 0 <= q < n ==> #[trigger] status@[q] != MoveStatus::Moving,
                simple ==> forall|q: int| 0 <= q < i && self.effective(actions@[q]) ==> #[trigger] status@[q] == MoveStatus::Moved,
            decreases n - i,
        {
            if status[i] == MoveStatus::ToMove {
                let ghost res0 = result@;
                let ghost st0 = status@;
                proof {
                    if simple {
                        lemma_stack_empty(*self, actions@, status@, i as int);
                    }
                }
                let r = self.move_one(actions, i, &mut status, &mut result, Ghost(Seq::empty()))?;
                proof {
                    let tail = result@.subrange(res0.len() as int, result@.len() as int);
                    assert forall|e: int| 0 <= e < result@.len() implies #[trigger] self.comes_from(result@[e], actions@) by {
                        if e < res0.len() {
                            assert(result@[e] == result@.subrange(0, res0.len() as int)[e]);
                            assert(res0[e] == result@[e]);
                            assert(self.comes_from(res0[e], actions@));
                        } else {
                            assert(result@[e] == tail[e - res0.len()]);
                            assert(self.comes_from(tail[e - res0.len()], actions@));
                        }
                    }
                    if simple {
                        if self.effective(actions@[i as int]) {
                            assert forall|q: int| 0 <= q < n implies #[trigger] status@[q] != MoveStatus::Moving by {
                                assert(st0[q] != MoveStatus::Moving);
                            }
                            if r {
                                let c = choose|c: Seq<int>| self.cycle_done(actions@, c, Seq::empty(), i as int, st0, status@, res0, result@);
                                lemma_cycle_emit(*self, actions@, c, i as int, st0, status@, res0, result@);
                                assert(c[0] == i);
                                assert(c.subrange(0, c.len() as int)[0] == i);
                                assert(status@[i as int] == MoveStatus::Moved);
                            }
                        } else {
                            assert(status@ == st0);
                        }
                        assert forall|q: int| 0 <= q < i + 1 && self.effective(actions@[q])
                            implies #[trigger] status@[q] == MoveStatus::Moved by {
                            if q < i {
                                assert(st0[q] == MoveStatus::Moved);
                            }
                        }
                    }
                }
            }
            i = i + 1;
        }
        proof {
            if simple {
                assert forall|st: spec_fn(Value) -> int, l: Value|
                    #[trigger] self.run_actions(result@, st)(l) == self.run_parallel(actions@, st, l) by {
                    lemma_done_parallel(*self, actions@, status@, st, l);
                }
            }
        }
        Ok(result)
    }

    /// Resolve the actions of every gap. The sequence of each gap with
    /// simple moves runs as its moves at once; when every gap's moves are
    /// simple, this succeeds.
    pub fn resolve_all_gaps(&mut self) -> (r: Result<(), String>)
        requires
            old(self).wf(),
        ensures
            final(self).wf(),
            final(self).frame_unchanged(old(self)),
            final(self).intervals@ == old(self).intervals@,
            final(self).interval_id == old(self).interval_id,
            final(self).gaps@.len() == old(self).gaps@.len(),
            r is Ok ==> forall|p: int| 0 <= p < old(self).gaps@.len()
                ==> old(self).resolved_from(#[trigger] final(self).gap_actions(p), old(self).gap_actions(p)),
            r is Ok ==> forall|p: int| 0 <= p < old(self).gaps@.len() && old(self).simple_moves(old(self).gap_actions(p))
                ==> old(self).same_effect(#[trigger] final(self).gap_actions(p), old(self).gap_actions(p)),
            (forall|p: int| 0 <= p < old(self).gaps@.len() ==> old(self).simple_moves(#[trigger] old(self).gap_actions(p)))
                ==> r is Ok,
    {
        let ghost g0 = *self;
        let ghost all_simple = forall|q: int| 0 <= q < g0.gaps@.len() ==> g0.simple_moves(#[trigger] g0.gap_actions(q));
        let n = self.gaps.len();
        let mut p: usize = 0;
        while p < n
            invariant
                p <= n,
                n == self.gaps@.len(),
                n == g0.gaps@.len(),
                self.wf(),
                self.frame_unchanged(&g0),
                self.intervals@ == g0.intervals@,
                self.interval_id == g0.interval_id,
                g0 == *old(self),
                forall|q: int| p <= q < n ==> #[trigger] self.gaps@[q] == g0.gaps@[q],
                forall|q: int| 0 <= q < p ==> g0.resolved_from(#[trigger] self.gap_actions(q), g0.gap_actions(q)),
                forall|q: int| 0 <= q < p && g0.simple_moves(g0.gap_actions(q))
                    ==> g0.same_effect(#[trigger] self.gap_actions(q), g0.gap_actions(q)),
                all_simple == (forall|q: int| 0 <= q < g0.gaps@.len() ==> g0.simple_moves(#[trigger] g0.gap_actions(q))),
            decreases n - p,
        {
            assert(crate::graph::gap_ok(self.gaps@[p as int], self.nv()));
            proof {
                assert(self.gaps@[p as int] == g0.gaps@[p as int]);
                assert(self.gap_actions(p as int) == g0.gap_actions(p as int));
                if g0.simple_moves(g0.gap_actions(p as int)) {
                    lemma_law_transfer(*self, g0, Seq::empty(), g0.gap_actions(p as int));
                }
                if all_simple {
                    assert(g0.simple_moves(g0.gap_actions(p as int)));
                }
            }
            let res = self.resolve_gap(&self.gaps[p].actions)?;
            let ghost before = *self;
            self.gaps.set(p, GapState { actions: res });
            proof {
                assert forall|q: int| 0 <= q < self.gaps@.len() implies crate::graph::gap_ok(#[trigger] self.gaps@[q], self.nv()) by {
                    if q == p {
                        assert forall|k: int| 0 <= k < res@.len() implies (#[trigger] res@[k]).from.0 < self.nv()
                            && res@[k].to.0 < self.nv() by {
                            assert(before.comes_from(res@[k], g0.gaps@[p as int].actions@));
                            let kk = choose|kk: int| 0 <= kk < g0.gaps@[p as int].actions@.len()
                                && #[trigger] derived(res@[k], g0.gaps@[p as int].actions@[kk])
                                && before.effective(g0.gaps@[p as int].actions@[kk]);
                            assert(crate::graph::gap_ok(g0.gaps@[p as int], g0.nv()));
                        }
                    } else {
                        assert(self.gaps@[q] == before.gaps@[q]);
                    }
                }
                assert forall|q: int| 0 <= q < p + 1 implies g0.resolved_from(#[trigger] self.gap_actions(q), g0.gap_actions(q)) by {
                    if q < p {
                        assert(self.gap_actions(q) == before.gap_actions(q));
                    } else {
                        assert(self.gap_actions(q) == res@);
                        assert(before.gaps@[q] == g0.gaps@[q]);
                        lemma_resolved_same(before, g0, res@, g0.gap_actions(q));
                    }
                }
                assert forall|q: int| 0 <= q < p + 1 && g0.simple_moves(g0.gap_actions(q))
                    implies g0.same_effect(#[trigger] self.gap_actions(q), g0.gap_actions(q)) by {
                    if q < p {
                        assert(self.gap_actions(q) == before.gap_actions(q));
                    } else {
                        assert(self.gap_actions(q) == res@);
                        assert(before.gaps@[q] == g0.gaps@[q]);
                        lemma_law_transfer(before, g0, res@, g0.gap_actions(q));
                    }
                }
            }
            p = p + 1;
        }
        Ok(())
    }
}

} // verus!

verus! {

impl<K: KindHelper> GapResolver for Graph<K> {
    fn resolve_gaps(&mut self) -> (r: Result<(), String>)
        ensures
            r is Ok ==> final(self).wf() && final(self).intervals@ == old(self).intervals@
                && forall|p: int| 0 <= p < old(self).gaps@.len()
                ==> old(self).resolved_from(#[trigger] final(self).gap_actions(p), old(self).gap_actions(p)),
            r is Ok ==> forall|p: int| 0 <= p < old(self).gaps@.len() && old(self).simple_moves(old(self).gap_actions(p))
                ==> old(self).same_effect(#[trigger] final(self).gap_actions(p), old(self).gap_actions(p)),
            old(self).wf() && (forall|p: int| 0 <= p < old(self).gaps@.len() ==> old(self).simple_moves(#[trigger] old(self).gap_actions(p)))
                ==> r is Ok,
    {
        if !self.check_wf() {
            return Err("malformed graph".to_owned());
        }
        self.resolve_all_gaps()
    }
}

} // verus!
