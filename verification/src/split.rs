use vstd::prelude::*;
use crate::api::KindHelper;
use crate::graph::{Graph, Interval, LiveRange, Use, Value, GapAction, GapActionKind};
use crate::ids::{InstrId, IntervalId};

verus! {

/// The part of a range before `pos`.
pub open spec fn range_head(r: LiveRange, pos: InstrId) -> Seq<LiveRange> {
    if r.end.0 <= pos.0 {
        seq![r]
    } else if r.start.0 < pos.0 {
        seq![LiveRange { start: r.start, end: pos }]
    } else {
        seq![]
    }
}

/// The part of a range from `pos` on.
pub open spec fn range_tail(r: LiveRange, pos: InstrId) -> Seq<LiveRange> {
    if r.end.0 <= pos.0 {
        seq![]
    } else if r.start.0 < pos.0 {
        seq![LiveRange { start: pos, end: r.end }]
    } else {
        seq![r]
    }
}

/// The parts of the ranges before `pos`, in order.
pub open spec fn ranges_head(rs: Seq<LiveRange>, pos: InstrId) -> Seq<LiveRange>
    decreases rs.len(),
{
    if rs.len() == 0 {
        seq![]
    } else {
        ranges_head(rs.drop_last(), pos) + range_head(rs.last(), pos)
    }
}

/// Every range kept before `pos` ends at or before it.
pub proof fn lemma_ranges_head_end(rs: Seq<LiveRange>, pos: InstrId)
    ensures
        forall|i: int| 0 <= i < ranges_head(rs, pos).len() ==> (#[trigger] ranges_head(rs, pos)[i]).end.0 <= pos.0,
    decreases rs.len(),
{
    if rs.len() > 0 {
        lemma_ranges_head_end(rs.drop_last(), pos);
        let a = ranges_head(rs.drop_last(), pos);
        let h = range_head(rs.last(), pos);
        assert forall|i: int| 0 <= i < ranges_head(rs, pos).len() implies (#[trigger] ranges_head(rs, pos)[i]).end.0 <= pos.0 by {
            if i < a.len() {
                assert(ranges_head(rs, pos)[i] == a[i]);
            } else {
                assert(ranges_head(rs, pos)[i] == h[i - a.len()]);
            }
        }
    }
}

/// The parts of the ranges from `pos` on, in order.
pub open spec fn ranges_tail(rs: Seq<LiveRange>, pos: InstrId) -> Seq<LiveRange>
    decreases rs.len(),
{
    if rs.len() == 0 {
        seq![]
    } else {
        ranges_tail(rs.drop_last(), pos) + range_tail(rs.last(), pos)
    }
}

/// A use stays with the first part of a split at `pos`: before it, or at it
/// when `pos` is a call.
pub open spec fn use_stays(u: Use, pos: InstrId, call: bool) -> bool {
    if call {
        u.pos.0 <= pos.0
    } else {
        u.pos.0 < pos.0
    }
}

/// The uses that stay, in order.
pub open spec fn uses_head(us: Seq<Use>, pos: InstrId, call: bool) -> Seq<Use>
    decreases us.len(),
{
    if us.len() == 0 {
        seq![]
    } else if use_stays(us.last(), pos, call) {
        uses_head(us.drop_last(), pos, call).push(us.last())
    } else {
        uses_head(us.drop_last(), pos, call)
    }
}

/// The uses that move to the split child, in order.
pub open spec fn uses_tail(us: Seq<Use>, pos: InstrId, call: bool) -> Seq<Use>
    decreases us.len(),
{
    if us.len() == 0 {
        seq![]
    } else if !use_stays(us.last(), pos, call) {
        uses_tail(us.drop_last(), pos, call).push(us.last())
    } else {
        uses_tail(us.drop_last(), pos, call)
    }
}

fn split_ranges(rs: &Vec<LiveRange>, pos: InstrId) -> (r: (Vec<LiveRange>, Vec<LiveRange>))
    ensures
        r.0@ == ranges_head(rs@, pos),
        r.1@ == ranges_tail(rs@, pos),
{
    let mut head: Vec<LiveRange> = Vec::new();
    let mut tail: Vec<LiveRange> = Vec::new();
    let n = rs.len();
    let mut k: usize = 0;
    while k < n
        invariant
            n == rs@.len(),
            k <= n,
            head@ == ranges_head(rs@.take(k as int), pos),
            tail@ == ranges_tail(rs@.take(k as int), pos),
        decreases n - k,
    {
        let r = rs[k];
        assert(rs@.take(k + 1).drop_last() =~= rs@.take(k as int));
        assert(rs@.take(k + 1).last() == r);
        if r.end.0 <= pos.0 {
            head.push(r);
            assert(head@ =~= ranges_head(rs@.take(k as int), pos) + range_head(r, pos));
            assert(tail@ =~= ranges_tail(rs@.take(k as int), pos) + range_tail(r, pos));
        } else if r.start.0 < pos.0 {
            tail.push(LiveRange { start: pos, end: r.end });
            head.push(LiveRange { start: r.start, end: pos });
            assert(head@ =~= ranges_head(rs@.take(k as int), pos) + range_head(r, pos));
            assert(tail@ =~= ranges_tail(rs@.take(k as int), pos) + range_tail(r, pos));
        } else {
            tail.push(r);
            assert(head@ =~= ranges_head(rs@.take(k as int), pos) + range_head(r, pos));
            assert(tail@ =~= ranges_tail(rs@.take(k as int), pos) + range_tail(r, pos));
        }
        k = k + 1;
    }
    assert(rs@.take(n as int) =~= rs@);
    (head, tail)
}

fn split_uses(us: &Vec<Use>, pos: InstrId, call: bool) -> (r: (Vec<Use>, Vec<Use>))
    ensures
        r.0@ == uses_head(us@, pos, call),
        r.1@ == uses_tail(us@, pos, call),
{
    let mut head: Vec<Use> = Vec::new();
    let mut tail: Vec<Use> = Vec::new();
    let n = us.len();
    let mut k: usize = 0;
    while k < n
        invariant
            n == us@.len(),
            k <= n,
            head@ == uses_head(us@.take(k as int), pos, call),
            tail@ == uses_tail(us@.take(k as int), pos, call),
        decreases n - k,
    {
        let u = us[k];
        assert(us@.take(k + 1).drop_last() =~= us@.take(k as int));
        assert(us@.take(k + 1).last() == u);
        if (call && u.pos.0 <= pos.0) || (!call && u.pos.0 < pos.0) {
            head.push(u);
        } else {
            tail.push(u);
        }
        k = k + 1;
    }
    assert(us@.take(n as int) =~= us@);
    (head, tail)
}

/// The parent of a split family that `v` belongs to.
pub open spec fn family_root(iv: Interval, v: IntervalId) -> IntervalId {
    match iv.parent {
        Some(p) => p,
        None => v,
    }
}

impl<K> Graph<K> {
    /// Only interval `a` and `b` differ (besides new intervals).
    pub open spec fn others_unchanged(&self, old_g: &Graph<K>, a: IntervalId, b: IntervalId) -> bool {
        forall|v: int| 0 <= v < old_g.nv() && v != a.0 && v != b.0 ==> #[trigger] self.intervals@[v]
            == old_g.intervals@[v]
    }

    /// The fields of the graph other than intervals and gaps are unchanged.
    pub open spec fn frame_unchanged(&self, old_g: &Graph<K>) -> bool {
        &&& self.root == old_g.root
        &&& self.block_id == old_g.block_id
        &&& self.instr_id == old_g.instr_id
        &&& self.blocks@ == old_g.blocks@
        &&& self.instructions@ == old_g.instructions@
        &&& self.phis@ == old_g.phis@
        &&& self.prepared == old_g.prepared
        &&& self.physical@ == old_g.physical@
    }
}

/// A location can only go from undecided to decided, within `group`.
pub open spec fn value_evolves(a: Value, b: Value, group: usize) -> bool {
    a == b || (a is VirtualVal && a.spec_group() == group && !(b is VirtualVal) && b.spec_group() == group)
}

/// How an existing interval may change while the allocator works on
/// `group`: it keeps having ranges (or not), keeps its fixed flag, and its
/// location only goes from undecided to decided within `group`.
pub open spec fn interval_evolves(a: Interval, b: Interval, group: usize) -> bool {
    &&& (a.ranges@.len() > 0) == (b.ranges@.len() > 0)
    &&& value_evolves(a.value, b.value, group)
    &&& a.fixed == b.fixed
}

impl<K> Graph<K> {
    /// The graph is `g0` after some allocation work on `group`: blocks and
    /// instructions are unchanged, existing intervals evolve as
    /// `interval_evolves` allows, and new intervals belong to `group`.
    pub open spec fn evolves(&self, g0: &Graph<K>, group: usize) -> bool {
        &&& self.wf()
        &&& g0.nv() <= self.nv()
        &&& self.frame_unchanged(g0)
        &&& forall|v: int| 0 <= v < g0.nv() ==> interval_evolves(g0.intervals@[v], #[trigger] self.intervals@[v], group)
        &&& forall|v: int| g0.nv() <= v < self.nv() ==> (#[trigger] self.intervals@[v]).value.spec_group() == group
            && !self.intervals@[v].fixed
    }
}

pub proof fn lemma_evolves_trans<K>(g2: Graph<K>, g1: Graph<K>, g0: Graph<K>, group: usize)
    requires
        g2.evolves(&g1, group),
        g1.evolves(&g0, group),
    ensures
        g2.evolves(&g0, group),
{
    assert forall|v: int| 0 <= v < g0.nv() implies interval_evolves(g0.intervals@[v], #[trigger] g2.intervals@[v], group) by {
        assert(interval_evolves(g0.intervals@[v], g1.intervals@[v], group));
        assert(interval_evolves(g1.intervals@[v], g2.intervals@[v], group));
    }
    assert forall|v: int| g0.nv() <= v < g2.nv() implies (#[trigger] g2.intervals@[v]).value.spec_group() == group
        && !g2.intervals@[v].fixed by {
        if v < g1.nv() {
            assert(interval_evolves(g1.intervals@[v], g2.intervals@[v], group));
        }
    }
}

/// Member `sp` of the family rooted at `p` covers `pos`.
pub open spec fn member_covers<K>(g: &Graph<K>, p: IntervalId, sp: IntervalId, pos: InstrId) -> bool {
    &&& (sp == p || g.intervals@[p.0 as int].children@.contains(sp))
    &&& sp.0 < g.nv()
    &&& g.intervals@[sp.0 as int].spec_covers(pos.0 as int)
}

/// The inputs on which splitting `id` at `pos` may be refused: `id` has no
/// range or does not start before `pos`; `pos` is not a gap (then only a
/// call, as the user's kind tells, is accepted); the family's root is
/// unknown; no member of the family covers `pos`, or one that does would
/// keep no range on one side; `pos` lies in no block with instructions; or
/// a child of the family has no range.
pub open spec fn split_may_fail<K>(g: &Graph<K>, id: IntervalId, pos: InstrId) -> bool {
    let iv = g.intervals@[id.0 as int];
    let p = family_root(iv, id);
    let b = g.instructions@[pos.0 as int].block.0 as int;
    ||| iv.ranges@.len() == 0
    ||| iv.ranges@[0].start.0 >= pos.0
    ||| !g.gap_at(pos.0 as int)
    ||| p.0 >= g.nv()
    ||| !(exists|sp: IntervalId| #[trigger] member_covers(g, p, sp, pos))
    ||| (exists|sp: IntervalId| #[trigger] member_covers(g, p, sp, pos)
        && (ranges_head(g.intervals@[sp.0 as int].ranges@, pos).len() == 0
            || ranges_tail(g.intervals@[sp.0 as int].ranges@, pos).len() == 0))
    ||| b >= g.nb()
    ||| g.blocks@[b].instructions@.len() == 0
    ||| exists|k: int| 0 <= k < g.intervals@[p.0 as int].children@.len()
        && g.intervals@[(#[trigger] g.intervals@[p.0 as int].children@[k]).0 as int].ranges@.len() == 0
}

/// `pos` is the first position of its block or the one right after its
/// last.
pub open spec fn boundary_at<K>(g: &Graph<K>, pos: InstrId) -> bool {
    let b = g.instructions@[pos.0 as int].block.0 as int;
    g.blocks@[b].instructions@[0] == pos || g.block_end(b) == pos.0
}

/// Splitting member `sp` at `pos` would leave one side without ranges.
pub open spec fn one_side_empty<K>(g: &Graph<K>, sp: IntervalId, pos: InstrId) -> bool {
    ranges_head(g.intervals@[sp.0 as int].ranges@, pos).len() == 0
        || ranges_tail(g.intervals@[sp.0 as int].ranges@, pos).len() == 0
}

/// The inputs on which splitting `id` at `pos` is refused, where `call`
/// tells whether the instruction at `pos` clobbers the group: `id` has no
/// range or does not start before `pos`; `pos` is neither a gap nor such a
/// call; the family's root is unknown; no member of the family covers
/// `pos`, or every member that does would keep no range on one side; or,
/// away from a call, `pos` lies in no block with instructions.
pub open spec fn split_refused_with<K>(g: &Graph<K>, id: IntervalId, pos: InstrId, call: bool) -> bool {
    let iv = g.intervals@[id.0 as int];
    let p = family_root(iv, id);
    let b = g.instructions@[pos.0 as int].block.0 as int;
    ||| iv.ranges@.len() == 0
    ||| iv.ranges@[0].start.0 >= pos.0
    ||| !(g.gap_at(pos.0 as int) || call)
    ||| p.0 >= g.nv()
    ||| !(exists|sp: IntervalId| #[trigger] member_covers(g, p, sp, pos))
    ||| (forall|sp: IntervalId| #[trigger] member_covers(g, p, sp, pos) ==> one_side_empty(g, sp, pos))
    ||| (!call && (b >= g.nb() || g.blocks@[b].instructions@.len() == 0))
}

/// Where splitting may be refused beyond `split_refused_with`: one member
/// covering `pos` would keep no range on one side, or a child of the family
/// has no range at all.
pub open spec fn split_fails_with<K>(g: &Graph<K>, id: IntervalId, pos: InstrId, call: bool) -> bool {
    let p = family_root(g.intervals@[id.0 as int], id);
    ||| split_refused_with(g, id, pos, call)
    ||| (exists|sp: IntervalId| #[trigger] member_covers(g, p, sp, pos) && one_side_empty(g, sp, pos))
    ||| exists|k: int| 0 <= k < g.intervals@[p.0 as int].children@.len()
        && g.intervals@[(#[trigger] g.intervals@[p.0 as int].children@[k]).0 as int].ranges@.len() == 0
}

/// Where a new child goes among the children `ch` of a family when member
/// `sp` is split at `pos` and now ends at `sp_end`: the children are
/// scanned from the last one (`i` counting from there), and the child goes
/// at one more than the count of the first that ends at or before `pos`,
/// or first when none does.
pub open spec fn child_slot<K>(g: &Graph<K>, ch: Seq<IntervalId>, sp: IntervalId, sp_end: int, pos: int, i: int) -> int
    decreases ch.len() - i,
{
    if i < 0 || i >= ch.len() {
        0
    } else {
        let c = ch[ch.len() - 1 - i];
        let e = if c == sp { sp_end } else { g.intervals@[c.0 as int].ranges@.last().end.0 as int };
        if e <= pos { i + 1 } else { child_slot(g, ch, sp, sp_end, pos, i + 1) }
    }
}

/// `g1` is `g0` after splitting `id` at `pos` into the new interval
/// `child`, where `call` tells whether `pos` is a call that clobbers the
/// group: the member `sp` of the family that covers `pos` keeps its ranges
/// and uses before `pos` (at a call, the uses at `pos` too), the child
/// takes the rest, is hinted to `sp` and joins the family's children; a
/// move from `sp` to the child is recorded at `pos` at a call or away from
/// a block boundary.
pub open spec fn split_result<K>(g1: Graph<K>, g0: Graph<K>, id: IntervalId, pos: InstrId, call: bool, child: IntervalId) -> bool {
    let iv = g0.intervals@[id.0 as int];
    let p = family_root(iv, id);
    &&& g1.wf()
    &&& child.0 == g0.nv()
    &&& g1.nv() == g0.nv() + 1
    &&& g1.frame_unchanged(&g0)
    &&& iv.ranges@.len() > 0
    &&& iv.ranges@[0].start.0 < pos.0
    &&& exists|sp: IntervalId| {
        &&& (sp == p || g0.intervals@[p.0 as int].children@.contains(sp))
        &&& #[trigger] g0.intervals@[sp.0 as int].spec_covers(pos.0 as int)
        &&& sp.0 < g0.nv()
        &&& g1.intervals@[sp.0 as int].ranges@ == ranges_head(g0.intervals@[sp.0 as int].ranges@, pos)
        &&& g1.intervals@[child.0 as int].ranges@ == ranges_tail(g0.intervals@[sp.0 as int].ranges@, pos)
        &&& g1.intervals@[sp.0 as int].uses@ == uses_head(g0.intervals@[sp.0 as int].uses@, pos, call)
        &&& g1.intervals@[child.0 as int].uses@ == uses_tail(g0.intervals@[sp.0 as int].uses@, pos, call)
        &&& g1.intervals@[sp.0 as int].ranges@.len() > 0
        &&& g1.intervals@[child.0 as int].ranges@.len() > 0
        &&& g1.intervals@[sp.0 as int].value == g0.intervals@[sp.0 as int].value
        &&& g1.intervals@[sp.0 as int].fixed == g0.intervals@[sp.0 as int].fixed
        &&& g1.intervals@[sp.0 as int].hint == g0.intervals@[sp.0 as int].hint
        &&& g1.intervals@[child.0 as int].hint == Some(sp)
        &&& g1.intervals@[p.0 as int].children@ == g0.intervals@[p.0 as int].children@.insert(
            child_slot(&g0, g0.intervals@[p.0 as int].children@, sp,
                ranges_head(g0.intervals@[sp.0 as int].ranges@, pos).last().end.0 as int, pos.0 as int, 0),
            child,
        )
        &&& g1.others_unchanged(&g0, sp, p)
        &&& (p != sp ==> g1.intervals@[p.0 as int].ranges == g0.intervals@[p.0 as int].ranges)
        &&& if call || !boundary_at(&g0, pos) {
            g1.gap_actions(pos.0 as int) == g0.gap_actions(pos.0 as int).push(
                GapAction { kind: GapActionKind::Move, from: sp, to: child },
            )
        } else {
            g1.gaps@ == g0.gaps@
        }
    }
    &&& forall|v: int| 0 <= v < g0.nv() ==> (#[trigger] g1.intervals@[v]).parent == g0.intervals@[v].parent
    &&& g1.intervals@[child.0 as int].id == child
    &&& g1.intervals@[child.0 as int].value == Value::VirtualVal(iv.value.spec_group())
    &&& g1.intervals@[child.0 as int].parent == Some(p)
    &&& g1.intervals@[child.0 as int].children@.len() == 0
    &&& !g1.intervals@[child.0 as int].fixed
    &&& g1.intervals@[p.0 as int].value == g0.intervals@[p.0 as int].value
    &&& g1.intervals@[p.0 as int].fixed == g0.intervals@[p.0 as int].fixed
    &&& g1.intervals@[p.0 as int].parent == g0.intervals@[p.0 as int].parent
    &&& exists|idx: int| 0 <= idx <= g0.intervals@[p.0 as int].children@.len()
        && g1.intervals@[p.0 as int].children@ == g0.intervals@[p.0 as int].children@.insert(idx, child)
    &&& forall|p2: int| 0 <= p2 < g1.gaps@.len() && p2 != pos.0 ==> #[trigger] g1.gap_actions(p2) == g0.gap_actions(p2)
    &&& forall|p2: int| p2 != pos.0 ==> #[trigger] g1.gap_actions(p2) == g0.gap_actions(p2)
}

/// What splitting `id` at `pos` gives, `call` telling whether `pos` is a
/// call that clobbers the group: refused, changing nothing, only where
/// `split_fails_with` holds and always where `split_refused_with` does;
/// otherwise the split that `split_result` describes.
pub open spec fn split_done<K>(g1: Graph<K>, g0: Graph<K>, id: IntervalId, pos: InstrId, call: bool, r: Result<IntervalId, String>) -> bool {
    &&& (r is Err ==> g1 == g0 && split_fails_with(&g0, id, pos, call))
    &&& (split_refused_with(&g0, id, pos, call) ==> r is Err)
    &&& (r matches Ok(child) ==> split_result(g1, g0, id, pos, call, child))
}

impl<K: KindHelper> Graph<K> {
    /// Split `id` at `pos` as `split_at_with` does, asking the instruction's
    /// kind whether `pos` is a call that clobbers the interval's group.
    pub fn split_at(&mut self, id: &IntervalId, pos: InstrId) -> (r: Result<IntervalId, String>)
        requires
            old(self).wf(),
            id.0 < old(self).nv(),
            old(self).nv() < usize::MAX,
            pos.0 < usize::MAX,
        ensures
            exists|call: bool| {
                &&& (call ==> pos.0 < old(self).ni() && old(self).instructions@[pos.0 as int].kind is User)
                &&& #[trigger] split_done(*final(self), *old(self), *id, pos, call, r)
            },
            r is Err ==> *final(self) == *old(self),
            r is Err ==> split_may_fail(old(self), *id, pos),
            r is Ok ==> final(self).evolves(old(self), old(self).intervals@[id.0 as int].value.spec_group()),
            r is Ok ==> forall|v: int| 0 <= v < old(self).nv() ==> (#[trigger] final(self).intervals@[v]).value
                == old(self).intervals@[v].value,
            r is Ok ==> forall|v: int| 0 <= v < old(self).nv() ==> (#[trigger] final(self).intervals@[v]).parent
                == old(self).intervals@[v].parent,
            r matches Ok(child) ==> {
                let g0 = *old(self);
                let g1 = *final(self);
                let iv = g0.intervals@[id.0 as int];
                let p = family_root(iv, *id);
                &&& g1.wf()
                &&& child.0 == g0.nv()
                &&& g1.nv() == g0.nv() + 1
                &&& g1.frame_unchanged(&g0)
                &&& iv.ranges@.len() > 0
                &&& iv.ranges@[0].start.0 < pos.0
                &&& exists|sp: IntervalId| {
                    &&& (sp == p || g0.intervals@[p.0 as int].children@.contains(sp))
                    &&& #[trigger] g0.intervals@[sp.0 as int].spec_covers(pos.0 as int)
                    &&& sp.0 < g0.nv()
                    &&& exists|call: bool| {
                        &&& g1.intervals@[sp.0 as int].ranges@ == ranges_head(g0.intervals@[sp.0 as int].ranges@, pos)
                        &&& g1.intervals@[child.0 as int].ranges@ == ranges_tail(g0.intervals@[sp.0 as int].ranges@, pos)
                        &&& g1.intervals@[sp.0 as int].uses@ == uses_head(g0.intervals@[sp.0 as int].uses@, pos, call)
                        &&& g1.intervals@[child.0 as int].uses@ == uses_tail(g0.intervals@[sp.0 as int].uses@, pos, call)
                        &&& call ==> pos.0 < g0.ni() && g0.instructions@[pos.0 as int].kind is User
                    }
                    &&& g1.intervals@[sp.0 as int].ranges@.len() > 0
                    &&& g1.intervals@[child.0 as int].ranges@.len() > 0
                    &&& g1.intervals@[sp.0 as int].value == g0.intervals@[sp.0 as int].value
                    &&& g1.intervals@[sp.0 as int].fixed == g0.intervals@[sp.0 as int].fixed
                    &&& g1.intervals@[sp.0 as int].hint == g0.intervals@[sp.0 as int].hint
                    &&& g1.intervals@[child.0 as int].hint == Some(sp)
                    &&& g1.others_unchanged(&g0, sp, p)
                    &&& (p != sp ==> g1.intervals@[p.0 as int].ranges == g0.intervals@[p.0 as int].ranges)
                    &&& (g1.gaps@ == g0.gaps@ || g1.gap_actions(pos.0 as int) == g0.gap_actions(pos.0 as int).push(
                        GapAction { kind: GapActionKind::Move, from: sp, to: child },
                    ))
                }
                &&& g1.intervals@[child.0 as int].id == child
                &&& g1.intervals@[child.0 as int].value == Value::VirtualVal(iv.value.spec_group())
                &&& g1.intervals@[child.0 as int].parent == Some(p)
                &&& g1.intervals@[child.0 as int].children@.len() == 0
                &&& !g1.intervals@[child.0 as int].fixed
                &&& g1.intervals@[p.0 as int].value == g0.intervals@[p.0 as int].value
                &&& g1.intervals@[p.0 as int].fixed == g0.intervals@[p.0 as int].fixed
                &&& g1.intervals@[p.0 as int].parent == g0.intervals@[p.0 as int].parent
                &&& exists|idx: int| 0 <= idx <= g0.intervals@[p.0 as int].children@.len()
                    && g1.intervals@[p.0 as int].children@ == g0.intervals@[p.0 as int].children@.insert(idx, child)
                &&& forall|p2: int| 0 <= p2 < g1.gaps@.len() && p2 != pos.0 ==> #[trigger] g1.gap_actions(p2) == g0.gap_actions(p2)
                &&& forall|p2: int| p2 != pos.0 ==> #[trigger] g1.gap_actions(p2) == g0.gap_actions(p2)
            },
    {
        let group = self.intervals[id.0].value.group();
        let call = self.clobbers(group, &pos);
        let r = self.split_at_with(id, pos, call);
        proof {
            assert(split_done(*self, *old(self), *id, pos, call, r));
        }
        r
    }

    /// Split interval `id` (or the one of its family that covers `pos`) at
    /// `pos`: the ranges and uses from `pos` on move to a new child interval
    /// of the family's parent, hinted to the interval it came from; a move
    /// into the child is recorded at `pos` unless `pos` is a block boundary
    /// that is not a call. Fails, changing nothing, where the split would
    /// make no progress, is not at a gap or call, finds no family member
    /// covering `pos`, or would leave one side without ranges.
    #[verifier::rlimit(40)]
    pub fn split_at_with(&mut self, id: &IntervalId, pos: InstrId, call: bool) -> (r: Result<IntervalId, String>)
        requires
            old(self).wf(),
            id.0 < old(self).nv(),
            old(self).nv() < usize::MAX,
            pos.0 < usize::MAX,
        ensures
            r is Ok ==> final(self).evolves(old(self), old(self).intervals@[id.0 as int].value.spec_group()),
            r is Ok ==> forall|v: int| 0 <= v < old(self).nv() ==> (#[trigger] final(self).intervals@[v]).value
                == old(self).intervals@[v].value,
            split_done(*final(self), *old(self), *id, pos, call, r),
    {
        let iv = &self.intervals[id.0];
        // We should always make progress
        if iv.ranges.len() == 0 || !(iv.start().0 < pos.0) {
            return Err("split would make no progress".to_owned());
        }
        // Split could be either at gap or at call
        let group = iv.value.group();
        let split_at_call = call;
        if !(self.is_gap(&pos) || split_at_call) {
            return Err("split must be at a gap or a call".to_owned());
        }
        let parent = match iv.parent {
            Some(p) => p,
            None => *id,
        };
        if parent.0 >= self.intervals.len() {
            return Err("split of an unknown interval".to_owned());
        }

        // Find appropriate child interval
        let mut split_parent = parent;
        if !self.intervals[split_parent.0].covers(pos) {
            let n = self.intervals[parent.0].children.len();
            let mut k: usize = 0;
            while k < n
                invariant
                    self.wf(),
                    parent.0 < self.nv(),
                    n == self.intervals@[parent.0 as int].children@.len(),
                    k <= n,
                    split_parent == parent || self.intervals@[parent.0 as int].children@.contains(split_parent),
                    split_parent.0 < self.nv(),
                    self.intervals@[split_parent.0 as int].spec_covers(pos.0 as int) || (split_parent == parent
                        && forall|j: int| 0 <= j < k ==> !self.intervals@[(#[trigger] self.intervals@[parent.0 as int].children@[j]).0 as int].spec_covers(pos.0 as int)),
                decreases n - k,
            {
                let c = self.intervals[parent.0].children[k];
                if self.intervals[c.0].covers(pos) {
                    split_parent = c;
                }
                k = k + 1;
            }
            if !self.intervals[split_parent.0].covers(pos) {
                proof {
                    let g = *self;
                    let p = family_root(g.intervals@[id.0 as int], *id);
                    assert(p == parent);
                    assert forall|sp: IntervalId| !#[trigger] member_covers(&g, p, sp, pos) by {
                        if member_covers(&g, p, sp, pos) && sp != p {
                            let j = choose|j: int| 0 <= j < g.intervals@[p.0 as int].children@.len()
                                && g.intervals@[p.0 as int].children@[j] == sp;
                        }
                    }
                }
                return Err("no interval covers the split position".to_owned());
            }
        }
        let sp = split_parent;

        // Move out ranges
        let (parent_ranges, child_ranges) = split_ranges(&self.intervals[sp.0].ranges, pos);
        // Ensure that at least one range is always present
        if child_ranges.len() == 0 || parent_ranges.len() == 0 {
            proof {
                let g = *self;
                assert(member_covers(&g, family_root(g.intervals@[id.0 as int], *id), sp, pos));
            }
            return Err("split would leave an interval without ranges".to_owned());
        }

        // Insert movement
        let mut need_move = split_at_call;
        if !split_at_call {
            let b = self.instructions[pos.0].block;
            if b.0 >= self.blocks.len() || self.blocks[b.0].instructions.len() == 0 {
                return Err("split position outside of any block".to_owned());
            }
            need_move = !self.block_boundary(pos);
        }
        assert(need_move == (call || !boundary_at(&*self, pos)));

        // Where the child goes among its siblings
        let mut index: usize = 0;
        let n = self.intervals[parent.0].children.len();
        let mut i: usize = 0;
        while i < n
            invariant_except_break
                index == 0,
                child_slot(&*self, self.intervals@[parent.0 as int].children@, sp, parent_ranges@.last().end.0 as int, pos.0 as int, 0)
                    == child_slot(&*self, self.intervals@[parent.0 as int].children@, sp, parent_ranges@.last().end.0 as int, pos.0 as int, i as int),
            invariant
                self.wf(),
                parent.0 < self.nv(),
                n == self.intervals@[parent.0 as int].children@.len(),
                i <= n,
                index <= n,
                *self == *old(self),
                id.0 < self.nv(),
                parent == family_root(self.intervals@[id.0 as int], *id),
                parent_ranges@.len() > 0,
            ensures
                index == child_slot(&*self, self.intervals@[parent.0 as int].children@, sp, parent_ranges@.last().end.0 as int, pos.0 as int, 0),
            decreases n - i,
        {
            let c = self.intervals[parent.0].children[n - 1 - i];
            let civ = &self.intervals[c.0];
            if civ.ranges.len() == 0 {
                proof {
                    let g = *self;
                    assert(g.intervals@[(g.intervals@[parent.0 as int].children@[n - 1 - i]).0 as int].ranges@.len() == 0);
                }
                return Err("split child without ranges".to_owned());
            }
            // The member being split ends where its kept ranges end
            let c_end = if c.0 == sp.0 {
                parent_ranges[parent_ranges.len() - 1].end
            } else {
                civ.end()
            };
            if c_end.0 <= pos.0 {
                index = i + 1;
                break;
            }
            i = i + 1;
        }

        let (parent_uses, child_uses) = split_uses(&self.intervals[sp.0].uses, pos, split_at_call);
        let ghost g0 = *self;

        let child = Interval::new(self, group);
        let ghost gm = *self;
        if need_move {
            self.get_mut_gap(&pos).add_move(&sp, &child);
        }
        let ghost g1 = *self;
        proof {
            assert forall|p2: int| p2 != pos.0 implies #[trigger] g1.gap_actions(p2) == gm.gap_actions(p2) by {
                if 0 <= p2 < g1.gaps@.len() {
                } else {
                }
            }
            assert forall|p2: int| 0 <= p2 < g1.gaps@.len() implies crate::graph::gap_ok(#[trigger] g1.gaps@[p2], g1.nv()) by {
                assert(g1.gaps@[p2].actions@ == g1.gap_actions(p2));
                if p2 != pos.0 {
                    assert(g1.gap_actions(p2) == gm.gap_actions(p2));
                    if p2 < gm.gaps@.len() {
                        assert(crate::graph::gap_ok(gm.gaps@[p2], gm.nv()));
                    }
                } else if need_move {
                    assert(g1.gap_actions(p2) == gm.gap_actions(p2).push(
                        GapAction { kind: GapActionKind::Move, from: sp, to: child }));
                    if p2 < gm.gaps@.len() {
                        assert(crate::graph::gap_ok(gm.gaps@[p2], gm.nv()));
                    }
                }
            }
        }
        self.intervals[child.0].ranges = child_ranges;
        self.intervals[sp.0].ranges = parent_ranges;
        // Insert register hint
        self.intervals[child.0].hint = Some(sp);
        self.intervals[child.0].uses = child_uses;
        self.intervals[sp.0].uses = parent_uses;
        // Add child
        self.intervals[parent.0].children.insert(index, child);
        self.intervals[child.0].parent = Some(parent);
        proof {
            let gf = *self;
            assert(gf.intervals@[sp.0 as int].value == g0.intervals@[sp.0 as int].value);
            assert forall|v: int| 0 <= v < gf.nv() implies (#[trigger] gf.intervals@[v]).id.0 == v
                && crate::graph::interval_ok(gf.intervals@[v], gf.nv()) by {
                if v == parent.0 {
                    let ch = gf.intervals@[v].children@;
                    assert forall|k: int| 0 <= k < ch.len() implies (#[trigger] ch[k]).0 < gf.nv() by {
                        let old_ch = g0.intervals@[v].children@;
                        if k < index {
                            assert(ch[k] == old_ch[k]);
                        } else if k > index {
                            assert(ch[k] == old_ch[k - 1]);
                        }
                    }
                }
            }
            assert(gf.intervals@[parent.0 as int].children@ == g0.intervals@[parent.0 as int].children@.insert(
                index as int,
                child,
            ));
            assert(g0.intervals@[sp.0 as int].spec_covers(pos.0 as int));
            assert(gf.gaps@ == g1.gaps@);
            assert(gm.gaps@ == g0.gaps@);
            assert forall|p2: int| p2 != pos.0 implies #[trigger] gf.gap_actions(p2) == g0.gap_actions(p2) by {
                assert(g1.gap_actions(p2) == gm.gap_actions(p2));
            }
            assert forall|v: int| 0 <= v < g0.nv() implies (#[trigger] gf.intervals@[v]).value == g0.intervals@[v].value by {
                if v == sp.0 || v == parent.0 {
                } else {
                    assert(gf.intervals@[v] == g0.intervals@[v]);
                }
            }
            assert forall|v: int| 0 <= v < g0.nv() implies interval_evolves(g0.intervals@[v], #[trigger] gf.intervals@[v], group) by {
                if v == sp.0 {
                    assert(g0.intervals@[v].ranges@.len() > 0);
                }
            }
        }
        proof {
            let gf = *self;
            assert(g0 == *old(self));
            assert(member_covers(&g0, parent, sp, pos));
            assert(!one_side_empty(&g0, sp, pos));
            if need_move {
                assert(gf.gap_actions(pos.0 as int) == g0.gap_actions(pos.0 as int).push(
                    GapAction { kind: GapActionKind::Move, from: sp, to: child }));
            } else {
                assert(gf.gaps@ == g0.gaps@);
            }
            assert forall|v: int| 0 <= v < g0.nv() implies (#[trigger] gf.intervals@[v]).parent == g0.intervals@[v].parent by {
                if v != sp.0 && v != parent.0 {
                    assert(gf.intervals@[v] == g0.intervals@[v]);
                }
            }
            assert(split_result(gf, g0, *id, pos, call, child));
        }
        Ok(child)
    }
}

} // verus!
