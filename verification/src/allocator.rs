use vstd::prelude::*;
use crate::api::KindHelper;
use crate::graph::{Graph, Interval, Use, Value, UseKind, GapAction, GapActionKind, LiveRange, block_ok};
use crate::ids::{BlockId, InstrId, IntervalId, StackId};
use crate::split::{lemma_evolves_trans, interval_evolves, value_evolves};
use crate::interval::{fixed_after, register_after, first_reg_use};

verus! {

/// The number of registers of each register group.
pub struct Config {
    pub register_groups: Vec<usize>,
}

/// The number of stack slots used by each register group.
pub struct AllocatorResult {
    pub spill_count: Vec<usize>,
}

pub struct GroupResult {
    pub spill_count: usize,
}

/// What the allocator keeps while it walks the intervals of one group.
pub struct AllocatorState {
    pub group: usize,
    pub register_count: usize,
    pub spill_count: usize,
    pub spills: Vec<Value>,
    pub unhandled: Vec<IntervalId>,
    pub active: Vec<IntervalId>,
    pub inactive: Vec<IntervalId>,
}

/// Where to split: somewhere in a span of positions, or at a position.
pub enum SplitConf {
    Between(InstrId, InstrId),
    At(InstrId),
}

/// The inputs on which splitting `current` as `conf` says may be refused:
/// no room for a new interval; for a given position, that position is the
/// last one or splitting there may be refused; between two positions, the
/// best position cannot be sought there, or some position in that span is
/// the last one or one where splitting may be refused.
pub open spec fn split_conf_may_fail<K>(g: &Graph<K>, current: IntervalId, conf: SplitConf) -> bool {
    ||| g.nv() >= usize::MAX - 1
    ||| match conf {
        SplitConf::At(pos) => split_refused_at(g, current, pos),
        SplitConf::Between(start, end) => {
            ||| start.0 > end.0
            ||| (start.0 < end.0 && !g.gap_at(start.0 + 1))
            ||| exists|p: InstrId| start.0 <= p.0 <= end.0 && #[trigger] split_refused_at(g, current, p)
        },
    }
}

/// No register is free long enough for `current`: `m` bounds (and is
/// reached by) how long the registers stay free, or is how long its fixed
/// register stays free; and either none is free at all, or the free stretch
/// ends before `current` does and leaves no room for a split after its
/// start, or ends at a user instruction (a call, where splitting right
/// before it is pointless).
pub open spec fn free_refused_at<K>(g: &Graph<K>, st: &AllocatorState, current: IntervalId, m: int) -> bool {
    let iv = g.intervals@[current.0 as int];
    &&& (no_fixed_use(iv.uses@) ==> forall|r2: usize| r2 < st.register_count
        ==> #[trigger] g.free_until(st, current, r2) <= m)
    &&& (no_fixed_use(iv.uses@) && m > 0 ==> exists|r0: usize| r0 < st.register_count
        && #[trigger] g.free_until(st, current, r0) == m)
    &&& (forall|i: int| #[trigger] is_first_fixed(iv.uses@, i)
        ==> g.free_until(st, current, fixed_register(iv.uses@[i].kind)) == m)
    &&& (m <= 0 || (m < iv.spec_end() && (iv.ranges@[0].start.0 + 1 >= m
        || (m < g.ni() && g.instructions@[m].kind is User))))
}

/// The register that interval `current` holds (0 where it holds none).
pub open spec fn held_register<K>(g: &Graph<K>, current: IntervalId) -> usize {
    match g.intervals@[current.0 as int].value {
        Value::RegisterVal(_, r) => r,
        _ => 0,
    }
}

/// Interval `a` holds the register of `current` and has to give it up: it
/// is active, or it is inactive and meets `current`.
pub open spec fn displaced<K>(g: &Graph<K>, st: &AllocatorState, current: IntervalId, a: IntervalId) -> bool {
    let reg = held_register(g, current);
    let inter = intersecting(g, st.inactive@, current);
    ||| st.active@.contains(a) && g.intervals@[a.0 as int].value == Value::RegisterVal(st.group, reg)
    ||| exists|k: int| 0 <= k < inter.len() && (#[trigger] inter[k]).0 == a && inter[k].1 == reg
}

/// A new interval of `g1` (beyond those of `g0`), split off the family of
/// `a`, holds a stack slot.
pub open spec fn spilled_part<K>(g1: &Graph<K>, g0: &Graph<K>, a: IntervalId) -> bool {
    exists|v: int| g0.nv() <= v < g1.nv() && (#[trigger] g1.intervals@[v]).value is StackVal
        && g1.intervals@[v].parent == Some(crate::split::family_root(g0.intervals@[a.0 as int], a))
}

proof fn lemma_spilled_keep<K>(g2: &Graph<K>, g1: &Graph<K>, g0: &Graph<K>, a: IntervalId)
    requires
        spilled_part(g1, g0, a),
        g1.nv() <= g2.nv(),
        forall|v: int| 0 <= v < g1.nv() ==> (#[trigger] g2.intervals@[v]).value == g1.intervals@[v].value
            && g2.intervals@[v].parent == g1.intervals@[v].parent,
    ensures
        spilled_part(g2, g0, a),
{
    let v = choose|v: int| g0.nv() <= v < g1.nv() && (#[trigger] g1.intervals@[v]).value is StackVal
        && g1.intervals@[v].parent == Some(crate::split::family_root(g0.intervals@[a.0 as int], a));
    assert(g2.intervals@[v].value == g1.intervals@[v].value);
}

/// Some fixed interval of `group` with ranges holds no register of the
/// group below `count`.
pub open spec fn fixed_malformed<K>(g: &Graph<K>, group: usize, count: usize) -> bool {
    exists|v: int| 0 <= v < g.nv() && (#[trigger] g.intervals@[v]).fixed
        && g.intervals@[v].value.spec_group() == group && g.intervals@[v].ranges@.len() > 0
        && !(g.intervals@[v].value matches Value::RegisterVal(_, r) && r < count)
}

/// Every interval of `group` with ranges is fixed: the walk has nothing to
/// decide.
pub open spec fn nothing_to_walk<K>(g: &Graph<K>, group: usize) -> bool {
    forall|v: int| 0 <= v < g.nv() && (#[trigger] g.intervals@[v]).value.spec_group() == group
        && g.intervals@[v].ranges@.len() > 0 ==> g.intervals@[v].fixed
}

/// No register can be had for `current`, which needs one at its very
/// start: every register (its fixed one, where it has a fixed use) is
/// needed again by others before that start.
pub open spec fn blocked_impossible<K>(g: &Graph<K>, st: &AllocatorState, current: IntervalId) -> bool {
    let iv = g.intervals@[current.0 as int];
    let start = iv.ranges@[0].start.0 as int;
    &&& first_reg_use(iv.uses@, 0) == Some(start)
    &&& (no_fixed_use(iv.uses@) ==> forall|r2: usize| r2 < st.register_count
        ==> #[trigger] g.use_until(st, current, r2) < start)
    &&& (forall|i: int| #[trigger] is_first_fixed(iv.uses@, i)
        ==> g.use_until(st, current, fixed_register(iv.uses@[i].kind)) < start)
}

/// A use that asks for a register is found by `first_reg_use`.
proof fn lemma_first_reg_use_some(us: Seq<Use>, after: int, i: int)
    requires
        0 <= i < us.len(),
        crate::interval::register_after(us[i], after),
    ensures
        first_reg_use(us, after) is Some,
    decreases us.len(),
{
    if i > 0 && !crate::interval::register_after(us[0], after) {
        lemma_first_reg_use_some(us.drop_first(), after, i - 1);
    }
}

/// `current` is hinted to an interval that holds a register of another
/// group.
pub open spec fn hint_conflict<K>(g: &Graph<K>, current: IntervalId) -> bool {
    let cur = g.intervals@[current.0 as int];
    cur.hint matches Some(h) && g.intervals@[h.0 as int].value matches Value::RegisterVal(gg, _)
        && gg != cur.value.spec_group()
}

/// The inputs on which looking for a free register for `current` may be
/// refused: no stack slot can be numbered any more; its hint holds a
/// register of another group; its first fixed use names a register beyond
/// those of the group; or it may have to be split, and the best position
/// cannot be sought after its start, or there is no room for a new
/// interval, or splitting at some position inside it may be refused, or
/// another part of its family covers a position inside it.
pub open spec fn free_reg_may_fail<K>(g: &Graph<K>, st: &AllocatorState, current: IntervalId) -> bool {
    let iv = g.intervals@[current.0 as int];
    ||| st.spill_count == usize::MAX
    ||| hint_conflict(g, current)
    ||| (exists|i: int| #[trigger] is_first_fixed(iv.uses@, i) && fixed_register(iv.uses@[i].kind) >= st.register_count)
    ||| !g.gap_at(iv.ranges@[0].start.0 + 1)
    ||| g.nv() >= usize::MAX - 1
    ||| exists|p: InstrId| iv.ranges@[0].start.0 < p.0 < iv.ranges@.last().end.0 && #[trigger] split_refused_at(g, current, p)
    ||| exists|m: IntervalId, q: InstrId| iv.ranges@[0].start.0 < q.0 < iv.ranges@.last().end.0 && m != current
        && #[trigger] crate::split::member_covers(g, crate::split::family_root(iv, current), m, q)
}

/// After a split at `pos`, `current` keeps just its ranges before `pos`,
/// or, where another member of its family covered `pos`, all its ranges.
pub open spec fn current_cut<K>(g1: &Graph<K>, g0: &Graph<K>, current: IntervalId, pos: InstrId) -> bool {
    let rs0 = g0.intervals@[current.0 as int].ranges@;
    let root = crate::split::family_root(g0.intervals@[current.0 as int], current);
    ||| (g1.intervals@[current.0 as int].ranges@ == crate::split::ranges_head(rs0, pos)
        && g1.intervals@[current.0 as int].ranges@.len() > 0)
    ||| (g1.intervals@[current.0 as int].ranges@ == rs0
        && exists|m: IntervalId| m != current && #[trigger] crate::split::member_covers(g0, root, m, pos))
}

/// Splitting `current` at `p` may be refused: `p` is the last position, or
/// see `split_may_fail`.
pub open spec fn split_refused_at<K>(g: &Graph<K>, current: IntervalId, p: InstrId) -> bool {
    p.0 == usize::MAX || crate::split::split_may_fail(g, current, p)
}

/// Register allocation over a graph.
pub trait Allocator {
    /// Flatten the graph and compute liveness, once.
    fn prepare(&mut self) -> Result<(), String>;

    /// Assign a register or a stack slot to every value.
    fn allocate(&mut self, config: Config) -> Result<AllocatorResult, String>;
}

impl AllocatorState {
    /// A stack slot of the state's group: a returned one when there is
    /// one, otherwise the next fresh slot.
    pub fn get_spill(&mut self) -> (r: Value)
        requires
            old(self).spill_count < usize::MAX,
            forall|k: int| 0 <= k < old(self).spills@.len() ==> #[trigger] old(self).spills@[k] is StackVal
                && old(self).spills@[k].spec_group() == old(self).group,
        ensures
            r is StackVal,
            r.spec_group() == old(self).group,
            old(self).spills@.len() > 0 ==> r == old(self).spills@[0] && final(self).spills@ == old(self).spills@.drop_first()
                && final(self).spill_count == old(self).spill_count,
            old(self).spills@.len() == 0 ==> r == Value::StackVal(old(self).group, StackId(old(self).spill_count))
                && final(self).spill_count == old(self).spill_count + 1 && final(self).spills@.len() == 0,
            forall|k: int| 0 <= k < final(self).spills@.len() ==> #[trigger] final(self).spills@[k] is StackVal
                && final(self).spills@[k].spec_group() == final(self).group,
            final(self).group == old(self).group,
            final(self).register_count == old(self).register_count,
            final(self).unhandled == old(self).unhandled,
            final(self).active == old(self).active,
            final(self).inactive == old(self).inactive,
    {
        if self.spills.len() > 0 {
            let r = self.spills.remove(0);
            assert(old(self).spills@.remove(0) =~= old(self).spills@.drop_first());
            assert forall|k: int| 0 <= k < self.spills@.len() implies #[trigger] self.spills@[k] is StackVal
                && self.spills@[k].spec_group() == self.group by {
                assert(self.spills@[k] == old(self).spills@[k + 1]);
            }
            r
        } else {
            let slot = self.spill_count;
            self.spill_count = self.spill_count + 1;
            Value::StackVal(self.group, StackId(slot))
        }
    }

    /// Return the stack slot of a value that is no longer live.
    pub fn to_handled(&mut self, value: Value)
        requires
            value is StackVal ==> value.spec_group() == old(self).group,
            forall|k: int| 0 <= k < old(self).spills@.len() ==> #[trigger] old(self).spills@[k] is StackVal
                && old(self).spills@[k].spec_group() == old(self).group,
        ensures
            value is StackVal ==> final(self).spills@ == old(self).spills@.push(value),
            !(value is StackVal) ==> final(self).spills@ == old(self).spills@,
            forall|k: int| 0 <= k < final(self).spills@.len() ==> #[trigger] final(self).spills@[k] is StackVal
                && final(self).spills@[k].spec_group() == final(self).group,
            final(self).group == old(self).group,
            final(self).register_count == old(self).register_count,
            final(self).spill_count == old(self).spill_count,
            final(self).unhandled == old(self).unhandled,
            final(self).active == old(self).active,
            final(self).inactive == old(self).inactive,
    {
        match value {
            Value::StackVal(group, slot) => self.spills.push(Value::StackVal(group, slot)),
            _ => {},
        }
    }
}


impl<K> Graph<K> {
    /// The allocator's lists name intervals that have ranges; active and
    /// inactive ones hold a register of the group; returned stack slots
    /// belong to the group.
    pub open spec fn state_ok(&self, st: &AllocatorState) -> bool {
        &&& forall|k: int| 0 <= k < st.unhandled@.len() ==> (#[trigger] st.unhandled@[k]).0 < self.nv()
            && self.intervals@[st.unhandled@[k].0 as int].ranges@.len() > 0
        &&& forall|k: int| 0 <= k < st.active@.len() ==> (#[trigger] st.active@[k]).0 < self.nv()
            && self.intervals@[st.active@[k].0 as int].ranges@.len() > 0
            && holds_register(self.intervals@[st.active@[k].0 as int].value, st)
        &&& forall|k: int| 0 <= k < st.inactive@.len() ==> (#[trigger] st.inactive@[k]).0 < self.nv()
            && self.intervals@[st.inactive@[k].0 as int].ranges@.len() > 0
            && holds_register(self.intervals@[st.inactive@[k].0 as int].value, st)
        &&& forall|k: int| 0 <= k < st.spills@.len() ==> #[trigger] st.spills@[k] is StackVal
            && st.spills@[k].spec_group() == st.group
    }

    /// Every undecided interval of the group with ranges, other than `cur`,
    /// waits in the unhandled list.
    pub open spec fn handles_all_except(&self, st: &AllocatorState, cur: int) -> bool {
        forall|v: int| 0 <= v < self.nv() && v != cur && (#[trigger] self.intervals@[v]).value is VirtualVal
            && self.intervals@[v].value.spec_group() == st.group && self.intervals@[v].ranges@.len() > 0
            ==> st.unhandled@.contains(IntervalId(v as usize))
    }
}

/// The register of a location that holds one.
pub open spec fn register_of(v: Value) -> usize {
    match v {
        Value::RegisterVal(_, r) => r,
        _ => 0,
    }
}

/// The intervals of `ids` that meet `cur`, in order, with their registers
/// and the first positions where they meet it.
pub open spec fn intersecting<K>(g: &Graph<K>, ids: Seq<IntervalId>, cur: IntervalId) -> Seq<(IntervalId, usize, InstrId)>
    decreases ids.len(),
{
    if ids.len() == 0 {
        seq![]
    } else {
        let rest = intersecting(g, ids.drop_last(), cur);
        let id = ids.last();
        match g.intersection(id, cur) {
            Some(p) => rest.push((id, register_of(g.intervals@[id.0 as int].value), p)),
            None => rest,
        }
    }
}

/// The earliest position at which one of `entries` takes register `reg`
/// again, or the largest position when none does.
pub open spec fn first_taken(entries: Seq<(IntervalId, usize, InstrId)>, reg: usize) -> int
    decreases entries.len(),
{
    if entries.len() == 0 {
        usize::MAX as int
    } else {
        let rest = first_taken(entries.drop_last(), reg);
        let e = entries.last();
        if e.1 == reg && (e.2.0 as int) < rest {
            e.2.0 as int
        } else {
            rest
        }
    }
}

/// One of the first `k` entries names register `reg`.
pub open spec fn names_register(entries: Seq<(IntervalId, usize)>, k: int, reg: int) -> bool {
    exists|j: int| 0 <= j < k && entries[j].1 == reg
}

impl<K> Graph<K> {
    /// An active interval holds register `reg` of the state's group.
    pub open spec fn held_by_active(&self, st: &AllocatorState, reg: usize) -> bool {
        exists|k: int| 0 <= k < st.active@.len()
            && self.intervals@[(#[trigger] st.active@[k]).0 as int].value == Value::RegisterVal(st.group, reg)
    }

    /// Until where register `reg` is free for `cur`: not at all when an
    /// active interval holds it, otherwise up to the first position where an
    /// inactive interval holding it meets `cur`.
    pub open spec fn free_until(&self, st: &AllocatorState, cur: IntervalId, reg: usize) -> int {
        if self.held_by_active(st, reg) {
            0
        } else {
            first_taken(intersecting(self, st.inactive@, cur), reg)
        }
    }

    /// Register `reg` stays free longest for `cur`; among the registers that
    /// stay free as long, it is the hinted one where that is among them, the
    /// first one otherwise.
    pub open spec fn best_free(&self, st: &AllocatorState, cur: IntervalId, reg: usize) -> bool {
        let best = self.free_until(st, cur, reg);
        let hinted = self.spec_hint(cur) matches Some(h) && h < st.register_count
            && self.free_until(st, cur, h) == best;
        &&& forall|r2: usize| r2 < st.register_count ==> #[trigger] self.free_until(st, cur, r2) <= best
        &&& hinted ==> Some(reg) == self.spec_hint(cur)
        &&& !hinted ==> forall|r2: usize| r2 < reg ==> #[trigger] self.free_until(st, cur, r2) < best
    }

    /// The register of the interval that `cur` is hinted to, when that one
    /// holds a register of the same group.
    pub open spec fn spec_hint(&self, cur: IntervalId) -> Option<usize> {
        match self.intervals@[cur.0 as int].hint {
            Some(h) => match self.intervals@[h.0 as int].value {
                Value::RegisterVal(g, reg) => if g == self.intervals@[cur.0 as int].value.spec_group() {
                    Some(reg)
                } else {
                    None
                },
                _ => None,
            },
            None => None,
        }
    }
}

pub open spec fn min_int(a: int, b: int) -> int {
    if a <= b {
        a
    } else {
        b
    }
}

/// Where interval `iv` next needs a register from `start` on; the largest
/// position when it does not.
pub open spec fn needs_register_at(iv: Interval, start: int) -> int {
    match first_reg_use(iv.uses@, start) {
        Some(p) => p,
        None => usize::MAX as int,
    }
}

/// The earliest position from `start` on at which one of the intervals of
/// `act` that are not fixed needs register `reg`.
pub open spec fn active_need<K>(g: &Graph<K>, act: Seq<(IntervalId, usize)>, start: int, reg: usize) -> int
    decreases act.len(),
{
    if act.len() == 0 {
        usize::MAX as int
    } else {
        let rest = active_need(g, act.drop_last(), start, reg);
        let e = act.last();
        let iv = g.intervals@[e.0.0 as int];
        if e.1 == reg && !iv.fixed {
            min_int(rest, needs_register_at(iv, start))
        } else {
            rest
        }
    }
}

/// The same for the entries of `inter`.
pub open spec fn inactive_need<K>(g: &Graph<K>, inter: Seq<(IntervalId, usize, InstrId)>, start: int, reg: usize) -> int
    decreases inter.len(),
{
    if inter.len() == 0 {
        usize::MAX as int
    } else {
        let rest = inactive_need(g, inter.drop_last(), start, reg);
        let e = inter.last();
        let iv = g.intervals@[e.0.0 as int];
        if e.1 == reg && !iv.fixed {
            min_int(rest, needs_register_at(iv, start))
        } else {
            rest
        }
    }
}

/// The earliest position where a fixed interval of `inter` holding `reg`
/// meets the current one.
pub open spec fn fixed_meet<K>(g: &Graph<K>, inter: Seq<(IntervalId, usize, InstrId)>, reg: usize) -> int
    decreases inter.len(),
{
    if inter.len() == 0 {
        usize::MAX as int
    } else {
        let rest = fixed_meet(g, inter.drop_last(), reg);
        let e = inter.last();
        if e.1 == reg && g.intervals@[e.0.0 as int].fixed {
            min_int(rest, e.2.0 as int)
        } else {
            rest
        }
    }
}

/// Where the last fixed interval of `inter` holding `reg` meets the
/// current one.
pub open spec fn last_fixed_meet<K>(g: &Graph<K>, inter: Seq<(IntervalId, usize, InstrId)>, reg: usize) -> Option<int>
    decreases inter.len(),
{
    if inter.len() == 0 {
        None
    } else {
        let e = inter.last();
        if e.1 == reg && g.intervals@[e.0.0 as int].fixed {
            Some(e.2.0 as int)
        } else {
            last_fixed_meet(g, inter.drop_last(), reg)
        }
    }
}

/// A fixed interval among the first `k` of `act` holds `reg`.
pub open spec fn fixed_holds<K>(g: &Graph<K>, act: Seq<(IntervalId, usize)>, k: int, reg: usize) -> bool {
    exists|j: int| 0 <= j < k && act[j].1 == reg && #[trigger] g.intervals@[act[j].0.0 as int].fixed
}

/// The active intervals with their registers.
pub open spec fn active_regs<K>(g: &Graph<K>, st: &AllocatorState) -> Seq<(IntervalId, usize)> {
    Seq::new(st.active@.len(), |k: int| (st.active@[k], register_of(g.intervals@[st.active@[k].0 as int].value)))
}

impl<K> Graph<K> {
    /// From where register `reg` is needed by others than `cur`: at once
    /// when a fixed interval holds it, otherwise at the first register use
    /// (from the start of `cur` on) of an interval holding it, or where a
    /// fixed interval holding it meets `cur`.
    pub open spec fn use_until(&self, st: &AllocatorState, cur: IntervalId, reg: usize) -> int {
        let act = active_regs(self, st);
        let inter = intersecting(self, st.inactive@, cur);
        let start = self.intervals@[cur.0 as int].spec_start();
        if fixed_holds(self, act, act.len() as int, reg) {
            0
        } else {
            min_int(active_need(self, act, start, reg), min_int(inactive_need(self, inter, start, reg), fixed_meet(self, inter, reg)))
        }
    }

    /// Where a fixed interval takes register `reg` from `cur`.
    pub open spec fn block_until(&self, st: &AllocatorState, cur: IntervalId, reg: usize) -> int {
        let act = active_regs(self, st);
        match last_fixed_meet(self, intersecting(self, st.inactive@, cur), reg) {
            Some(p) => p,
            None => if fixed_holds(self, act, act.len() as int, reg) {
                0
            } else {
                usize::MAX as int
            },
        }
    }

    /// Register `reg` is needed by others latest; among those needed as
    /// late, it is the hinted one where that is among them, the first one
    /// otherwise.
    pub open spec fn best_use(&self, st: &AllocatorState, cur: IntervalId, reg: usize) -> bool {
        let best = self.use_until(st, cur, reg);
        let hinted = self.spec_hint(cur) matches Some(h) && h < st.register_count
            && self.use_until(st, cur, h) == best;
        &&& forall|r2: usize| r2 < st.register_count ==> #[trigger] self.use_until(st, cur, r2) <= best
        &&& hinted ==> Some(reg) == self.spec_hint(cur)
        &&& !hinted ==> forall|r2: usize| r2 < reg ==> #[trigger] self.use_until(st, cur, r2) < best
    }
}

/// Interval `v` waits in the unhandled list.
pub open spec fn waiting(st: &AllocatorState, v: int) -> bool {
    st.unhandled@.contains(IntervalId(v as usize))
}

/// A register of the state's group.
pub open spec fn holds_register(v: Value, st: &AllocatorState) -> bool {
    v matches Value::RegisterVal(g, r) && g == st.group && r < st.register_count
}

/// The state `b` follows `a`: same group and registers, same active and
/// inactive lists, and no unhandled interval lost.
pub open spec fn state_follows(b: &AllocatorState, a: &AllocatorState) -> bool {
    &&& b.group == a.group
    &&& b.register_count == a.register_count
    &&& b.active == a.active
    &&& b.inactive == a.inactive
    &&& forall|x: IntervalId| #[trigger] a.unhandled@.contains(x) ==> b.unhandled@.contains(x)
}

pub proof fn lemma_state_ok_evolves<K>(g1: Graph<K>, g0: Graph<K>, st: &AllocatorState)
    requires
        g1.evolves(&g0, st.group),
        g0.state_ok(st),
    ensures
        g1.state_ok(st),
{
    assert forall|k: int| 0 <= k < st.unhandled@.len() implies (#[trigger] st.unhandled@[k]).0 < g1.nv()
        && g1.intervals@[st.unhandled@[k].0 as int].ranges@.len() > 0 by {
        assert(interval_evolves(g0.intervals@[st.unhandled@[k].0 as int], g1.intervals@[st.unhandled@[k].0 as int], st.group));
    }
    assert forall|k: int| 0 <= k < st.active@.len() implies (#[trigger] st.active@[k]).0 < g1.nv()
        && g1.intervals@[st.active@[k].0 as int].ranges@.len() > 0
        && holds_register(g1.intervals@[st.active@[k].0 as int].value, st) by {
        assert(interval_evolves(g0.intervals@[st.active@[k].0 as int], g1.intervals@[st.active@[k].0 as int], st.group));
    }
    assert forall|k: int| 0 <= k < st.inactive@.len() implies (#[trigger] st.inactive@[k]).0 < g1.nv()
        && g1.intervals@[st.inactive@[k].0 as int].ranges@.len() > 0
        && holds_register(g1.intervals@[st.inactive@[k].0 as int].value, st) by {
        assert(interval_evolves(g0.intervals@[st.inactive@[k].0 as int], g1.intervals@[st.inactive@[k].0 as int], st.group));
    }
}

/// The undecided intervals of the group with ranges that `g1` has beyond
/// `g0` wait in `st1`'s unhandled list, and so do those of `g0` (but `cur`).
pub proof fn lemma_handles_evolves<K>(g1: Graph<K>, g0: Graph<K>, st1: &AllocatorState, st0: &AllocatorState, cur: int)
    requires
        g1.evolves(&g0, st0.group),
        g0.handles_all_except(st0, cur),
        state_follows(st1, st0),
        forall|v: int| g0.nv() <= v < g1.nv() ==> #[trigger] waiting(st1, v),
    ensures
        g1.handles_all_except(st1, cur),
{
    assert forall|v: int| 0 <= v < g1.nv() && v != cur && (#[trigger] g1.intervals@[v]).value is VirtualVal
        && g1.intervals@[v].value.spec_group() == st1.group && g1.intervals@[v].ranges@.len() > 0
        implies st1.unhandled@.contains(IntervalId(v as usize)) by {
        if v < g0.nv() {
            assert(interval_evolves(g0.intervals@[v], g1.intervals@[v], st0.group));
            assert(st0.unhandled@.contains(IntervalId(v as usize)));
        } else {
            assert(waiting(st1, v));
        }
    }
}

/// The register whose position is largest: the hinted one among equals
/// when it is one of them, the first one otherwise.
fn choose_register(pos: &Vec<usize>, hint: Option<usize>) -> (r: (usize, usize))
    ensures
        forall|i: int| 0 <= i < pos@.len() ==> #[trigger] pos@[i] <= r.1,
        r.1 == 0 || (r.0 < pos@.len() && pos@[r.0 as int] == r.1),
        pos@.len() > 0 ==> r.0 < pos@.len() && pos@[r.0 as int] == r.1,
        hint is Some && hint->0 < pos@.len() && pos@[hint->0 as int] == r.1 ==> r.0 == hint->0,
        !(hint is Some && hint->0 < pos@.len() && pos@[hint->0 as int] == r.1) ==> forall|i: int| 0 <= i < r.0 ==> #[trigger] pos@[i] < r.1,
{
    let mut reg: usize = 0;
    let mut max_pos: usize = 0;
    let n = pos.len();
    let mut i: usize = 0;
    while i < n
        invariant
            n == pos@.len(),
            i <= n,
            forall|j: int| 0 <= j < i ==> #[trigger] pos@[j] <= max_pos,
            i > 0 ==> reg < i && pos@[reg as int] == max_pos,
            i == 0 ==> reg == 0 && max_pos == 0,
            hint is Some && hint->0 < i && pos@[hint->0 as int] == max_pos ==> reg == hint->0,
            !(hint is Some && hint->0 < i && pos@[hint->0 as int] == max_pos) ==> forall|j: int| 0 <= j < reg ==> #[trigger] pos@[j] < max_pos,
        decreases n - i,
    {
        let p = pos[i];
        let is_hint = match hint {
            Some(h) => h == i,
            None => false,
        };
        if p > max_pos || (is_hint && p == max_pos) {
            max_pos = p;
            reg = i;
        }
        i = i + 1;
    }
    (reg, max_pos)
}


impl<K: KindHelper> Graph<K> {
    /// Put `id` into `list` (ordered by start position) after every
    /// interval that starts no later than it.
    pub fn insert_sorted(&self, list: &mut Vec<IntervalId>, id: IntervalId)
        requires
            id.0 < self.nv(),
            self.intervals@[id.0 as int].ranges@.len() > 0,
            forall|k: int| 0 <= k < old(list)@.len() ==> (#[trigger] old(list)@[k]).0 < self.nv()
                && self.intervals@[old(list)@[k].0 as int].ranges@.len() > 0,
        ensures
            exists|idx: int| {
                &&& 0 <= idx <= old(list)@.len()
                &&& final(list)@ == old(list)@.insert(idx, id)
                &&& forall|k: int| 0 <= k < idx ==> self.intervals@[(#[trigger] old(list)@[k]).0 as int].spec_start()
                    <= self.intervals@[id.0 as int].spec_start()
                &&& idx < old(list)@.len() ==> self.intervals@[old(list)@[idx].0 as int].spec_start()
                    > self.intervals@[id.0 as int].spec_start()
            },
            forall|x: IntervalId| #[trigger] final(list)@.contains(x) <==> (old(list)@.contains(x) || x == id),
            forall|k: int| 0 <= k < final(list)@.len() ==> (#[trigger] final(list)@[k]).0 < self.nv()
                && self.intervals@[final(list)@[k].0 as int].ranges@.len() > 0,
    {
        let start = self.intervals[id.0].start().0;
        let n = list.len();
        let mut idx: usize = 0;
        while idx < n
            invariant
                n == list@.len(),
                idx <= n,
                start == self.intervals@[id.0 as int].spec_start(),
                forall|k: int| 0 <= k < list@.len() ==> (#[trigger] list@[k]).0 < self.nv()
                    && self.intervals@[list@[k].0 as int].ranges@.len() > 0,
                forall|k: int| 0 <= k < idx ==> self.intervals@[(#[trigger] list@[k]).0 as int].spec_start() <= start,
            ensures
                idx <= n,
                forall|k: int| 0 <= k < idx ==> self.intervals@[(#[trigger] list@[k]).0 as int].spec_start() <= start,
                idx < n ==> self.intervals@[list@[idx as int].0 as int].spec_start() > start,
            decreases n - idx,
        {
            if self.intervals[list[idx].0].start().0 > start {
                break;
            }
            idx = idx + 1;
        }
        let ghost l0 = list@;
        list.insert(idx, id);
        proof {
            assert forall|x: IntervalId| #[trigger] list@.contains(x) <==> (l0.contains(x) || x == id) by {
                if list@.contains(x) {
                    let k = choose|k: int| 0 <= k < list@.len() && list@[k] == x;
                    if k < idx {
                        assert(l0[k] == x);
                    } else if k > idx {
                        assert(l0[k - 1] == x);
                    }
                }
                if l0.contains(x) {
                    let k = choose|k: int| 0 <= k < l0.len() && l0[k] == x;
                    if k < idx {
                        assert(list@[k] == x);
                    } else {
                        assert(list@[k + 1] == x);
                    }
                }
                if x == id {
                    assert(list@[idx as int] == id);
                }
            }
            assert forall|k: int| 0 <= k < list@.len() implies (#[trigger] list@[k]).0 < self.nv()
                && self.intervals@[list@[k].0 as int].ranges@.len() > 0 by {
                if k < idx {
                    assert(list@[k] == l0[k]);
                } else if k > idx {
                    assert(list@[k] == l0[k - 1]);
                }
            }
        }
    }

    /// The registers held by the active intervals, in order.
    pub fn each_active(&self, st: &AllocatorState) -> (r: Vec<(IntervalId, usize)>)
        requires
            self.state_ok(st),
        ensures
            r@.len() == st.active@.len(),
            forall|k: int| 0 <= k < r@.len() ==> (#[trigger] r@[k]).0 == st.active@[k]
                && self.intervals@[st.active@[k].0 as int].value == Value::RegisterVal(st.group, r@[k].1)
                && r@[k].1 < st.register_count,
    {
        let mut r: Vec<(IntervalId, usize)> = Vec::new();
        let n = st.active.len();
        let mut k: usize = 0;
        while k < n
            invariant
                self.state_ok(st),
                n == st.active@.len(),
                k <= n,
                r@.len() == k,
                forall|j: int| 0 <= j < k ==> (#[trigger] r@[j]).0 == st.active@[j]
                    && self.intervals@[st.active@[j].0 as int].value == Value::RegisterVal(st.group, r@[j].1)
                    && r@[j].1 < st.register_count,
            decreases n - k,
        {
            let id = st.active[k];
            match self.intervals[id.0].value {
                Value::RegisterVal(_, reg) => {
                    r.push((id, reg));
                },
                _ => {
                    assert(false);
                },
            }
            k = k + 1;
        }
        r
    }

    /// The registers held by the inactive intervals that meet `current`,
    /// with the first position where they meet.
    pub fn each_intersecting(&self, current: IntervalId, st: &AllocatorState) -> (r: Vec<(IntervalId, usize, InstrId)>)
        requires
            self.wf(),
            current.0 < self.nv(),
            self.state_ok(st),
        ensures
            r@ == intersecting(self, st.inactive@, current),
            forall|k: int| 0 <= k < r@.len() ==> st.inactive@.contains((#[trigger] r@[k]).0)
                && self.intervals@[r@[k].0.0 as int].value == Value::RegisterVal(st.group, r@[k].1)
                && r@[k].1 < st.register_count,
    {
        let mut r: Vec<(IntervalId, usize, InstrId)> = Vec::new();
        let n = st.inactive.len();
        let mut k: usize = 0;
        while k < n
            invariant
                self.wf(),
                current.0 < self.nv(),
                self.state_ok(st),
                n == st.inactive@.len(),
                k <= n,
                forall|j: int| 0 <= j < r@.len() ==> st.inactive@.contains((#[trigger] r@[j]).0)
                    && self.intervals@[r@[j].0.0 as int].value == Value::RegisterVal(st.group, r@[j].1)
                    && r@[j].1 < st.register_count,
                r@ == intersecting(self, st.inactive@.take(k as int), current),
            decreases n - k,
        {
            let id = st.inactive[k];
            assert(st.inactive@.take(k + 1).drop_last() =~= st.inactive@.take(k as int));
            assert(st.inactive@.take(k + 1).last() == id);
            match self.get_intersection(&id, &current) {
                Some(pos) => {
                    match self.intervals[id.0].value {
                        Value::RegisterVal(_, reg) => {
                            assert(st.inactive@[k as int] == id);
                            r.push((id, reg, pos));
                        },
                        _ => {
                            assert(false);
                        },
                    }
                },
                None => {},
            }
            k = k + 1;
        }
        assert(st.inactive@.take(n as int) =~= st.inactive@);
        r
    }

    /// The register of the interval that `current` is hinted to, if that
    /// interval holds one.
    pub fn get_hint(&self, current: IntervalId) -> (r: Result<Option<usize>, String>)
        requires
            self.wf(),
            current.0 < self.nv(),
        ensures
            ({
                let cur = self.intervals@[current.0 as int];
                match cur.hint {
                    Some(h) => match self.intervals@[h.0 as int].value {
                        Value::RegisterVal(g, reg) => if g == cur.value.spec_group() {
                            r == Ok::<Option<usize>, String>(Some(reg))
                        } else {
                            r is Err
                        },
                        _ => r == Ok::<Option<usize>, String>(None),
                    },
                    None => r == Ok::<Option<usize>, String>(None),
                }
            }),
    {
        match self.intervals[current.0].hint {
            Some(id) => match self.intervals[id.0].value {
                Value::RegisterVal(g, reg) => {
                    if g != self.intervals[current.0].value.group() {
                        return Err("hint of another register group".to_owned());
                    }
                    Ok(Some(reg))
                },
                _ => Ok(None),
            },
            None => Ok(None),
        }
    }

    /// Split `current` (of the state's group) at the given position, or at
    /// the best position between the given ones; the new child waits in the
    /// unhandled list.
    pub fn split(&mut self, current: IntervalId, conf: SplitConf, st: &mut AllocatorState) -> (r: Result<IntervalId, String>)
        requires
            old(self).wf(),
            current.0 < old(self).nv(),
            old(self).intervals@[current.0 as int].value.spec_group() == old(st).group,
            old(self).state_ok(old(st)),
        ensures
            step(final(self), final(st), old(self), old(st)),
            keeps_values(final(self), old(self)),
            r is Err ==> *final(self) == *old(self) && *final(st) == *old(st),
            r is Err ==> split_conf_may_fail(old(self), current, conf),
            register_only_to(final(self), old(self), -1),
            r matches Ok(child) ==> {
                &&& final(self).evolves(old(self), old(st).group)
                &&& final(self).state_ok(final(st))
                &&& state_follows(final(st), old(st))
                &&& final(st).spill_count == old(st).spill_count
                &&& final(st).spills == old(st).spills
                &&& child.0 == old(self).nv()
                &&& final(self).nv() == old(self).nv() + 1
                &&& final(self).intervals@[child.0 as int].value == Value::VirtualVal(old(st).group)
                &&& final(st).unhandled@.contains(child)
                &&& forall|v: int| 0 <= v < old(self).nv() ==> (#[trigger] final(self).intervals@[v]).value
                    == old(self).intervals@[v].value
                &&& forall|x: IntervalId| #[trigger] final(st).unhandled@.contains(x) ==> old(st).unhandled@.contains(x) || x == child
                &&& final(self).intervals@[child.0 as int].parent
                    == Some(crate::split::family_root(old(self).intervals@[current.0 as int], current))
                &&& (conf matches SplitConf::At(pos) ==> current_cut(final(self), old(self), current, pos))
                &&& forall|v: int| 0 <= v < old(self).nv() ==> (#[trigger] final(self).intervals@[v]).parent
                    == old(self).intervals@[v].parent
            },
    {
        if self.interval_id >= usize::MAX - 1 {
            return Err("too many intervals".to_owned());
        }
        let split_pos = match conf {
            SplitConf::Between(start, end) => self.optimal_split_pos(st.group, start, end)?,
            SplitConf::At(pos) => pos,
        };
        proof {
            match conf {
                SplitConf::Between(start, end) => {
                    assert(start.0 <= split_pos.0 <= end.0);
                },
                SplitConf::At(_) => {},
            }
        }
        if split_pos.0 == usize::MAX {
            proof {
                match conf {
                    SplitConf::Between(start, end) => {
                        assert(start.0 <= split_pos.0 <= end.0);
                        assert(split_refused_at(&*self, current, split_pos));
                    },
                    SplitConf::At(_) => {},
                }
                assert(split_conf_may_fail(&*self, current, conf));
            }
            return Err("split position out of range".to_owned());
        }
        let ghost g0 = *self;
        let res = match self.split_at(&current, split_pos) {
            Ok(c) => c,
            Err(e) => {
                assert(split_refused_at(&g0, current, split_pos));
                return Err(e);
            },
        };
        proof {
            lemma_state_ok_evolves(*self, g0, st);
            let g1 = *self;
            let iv = g0.intervals@[current.0 as int];
            let p = crate::split::family_root(iv, current);
            let sp = choose|sp: IntervalId| {
                &&& (sp == p || g0.intervals@[p.0 as int].children@.contains(sp))
                &&& #[trigger] g0.intervals@[sp.0 as int].spec_covers(split_pos.0 as int)
                &&& sp.0 < g0.nv()
                &&& exists|call: bool| {
                    &&& g1.intervals@[sp.0 as int].ranges@ == crate::split::ranges_head(g0.intervals@[sp.0 as int].ranges@, split_pos)
                    &&& g1.intervals@[res.0 as int].ranges@ == crate::split::ranges_tail(g0.intervals@[sp.0 as int].ranges@, split_pos)
                    &&& g1.intervals@[sp.0 as int].uses@ == crate::split::uses_head(g0.intervals@[sp.0 as int].uses@, split_pos, call)
                    &&& g1.intervals@[res.0 as int].uses@ == crate::split::uses_tail(g0.intervals@[sp.0 as int].uses@, split_pos, call)
                    &&& call ==> split_pos.0 < g0.ni() && g0.instructions@[split_pos.0 as int].kind is User
                }
                &&& g1.intervals@[sp.0 as int].ranges@.len() > 0
                &&& g1.intervals@[res.0 as int].ranges@.len() > 0
                &&& g1.intervals@[sp.0 as int].value == g0.intervals@[sp.0 as int].value
                &&& g1.intervals@[sp.0 as int].fixed == g0.intervals@[sp.0 as int].fixed
                &&& g1.intervals@[sp.0 as int].hint == g0.intervals@[sp.0 as int].hint
                &&& g1.intervals@[res.0 as int].hint == Some(sp)
                &&& g1.others_unchanged(&g0, sp, p)
                &&& (p != sp ==> g1.intervals@[p.0 as int].ranges == g0.intervals@[p.0 as int].ranges)
                &&& (g1.gaps@ == g0.gaps@ || g1.gap_actions(split_pos.0 as int) == g0.gap_actions(split_pos.0 as int).push(
                    GapAction { kind: GapActionKind::Move, from: sp, to: res },
                ))
            };
            if sp != current {
                assert(crate::split::member_covers(&g0, p, sp, split_pos));
                if current != p {
                    assert(g1.intervals@[current.0 as int] == g0.intervals@[current.0 as int]);
                }
            }
            assert(current_cut(&g1, &g0, current, split_pos));
        }
        self.insert_sorted(&mut st.unhandled, res);
        proof {
            assert forall|v: int| g0.nv() <= v < self.nv() implies #[trigger] waiting(&*st, v) by {
                assert(IntervalId(v as usize) == res);
            }
        }
        Ok(res)
    }
}

} // verus!

verus! {

/// `us[i]` is the first use with a fixed register.
pub open spec fn is_first_fixed(us: Seq<Use>, i: int) -> bool {
    &&& 0 <= i < us.len()
    &&& us[i].kind is UseFixed
    &&& forall|j: int| 0 <= j < i ==> !((#[trigger] us[j]).kind is UseFixed)
}

/// None of the uses asks for a fixed register.
pub open spec fn no_fixed_use(us: Seq<Use>) -> bool {
    forall|i: int| 0 <= i < us.len() ==> !((#[trigger] us[i]).kind is UseFixed)
}

/// The register that a fixed use names.
pub open spec fn fixed_register(k: UseKind) -> usize {
    match k {
        UseKind::UseFixed(_, r) => r,
        _ => 0,
    }
}

/// Changing intervals in place, without touching the ranges of any and
/// without taking a register from an interval that had one of the state's
/// group, keeps the state's lists in order.
proof fn lemma_state_ok_update<K>(g1: Graph<K>, g0: Graph<K>, st: &AllocatorState)
    requires
        g0.state_ok(st),
        g1.nv() == g0.nv(),
        forall|v: int| 0 <= v < g0.nv() ==> (#[trigger] g1.intervals@[v]).ranges@.len() == g0.intervals@[v].ranges@.len()
            && (holds_register(g0.intervals@[v].value, st) ==> holds_register(g1.intervals@[v].value, st)),
    ensures
        g1.state_ok(st),
{
    assert forall|k: int| 0 <= k < st.active@.len() implies (#[trigger] st.active@[k]).0 < g1.nv()
        && g1.intervals@[st.active@[k].0 as int].ranges@.len() > 0
        && holds_register(g1.intervals@[st.active@[k].0 as int].value, st) by {
        assert(g1.intervals@[st.active@[k].0 as int].ranges@.len() == g0.intervals@[st.active@[k].0 as int].ranges@.len());
    }
    assert forall|k: int| 0 <= k < st.inactive@.len() implies (#[trigger] st.inactive@[k]).0 < g1.nv()
        && g1.intervals@[st.inactive@[k].0 as int].ranges@.len() > 0
        && holds_register(g1.intervals@[st.inactive@[k].0 as int].value, st) by {
        assert(g1.intervals@[st.inactive@[k].0 as int].ranges@.len() == g0.intervals@[st.inactive@[k].0 as int].ranges@.len());
    }
    assert forall|k: int| 0 <= k < st.unhandled@.len() implies (#[trigger] st.unhandled@[k]).0 < g1.nv()
        && g1.intervals@[st.unhandled@[k].0 as int].ranges@.len() > 0 by {
        assert(g1.intervals@[st.unhandled@[k].0 as int].ranges@.len() == g0.intervals@[st.unhandled@[k].0 as int].ranges@.len());
    }
}

impl<K: KindHelper> Graph<K> {
    /// Give interval `id` the location `v`.
    fn set_value(&mut self, id: IntervalId, v: Value)
        requires
            old(self).wf(),
            id.0 < old(self).nv(),
        ensures
            final(self).wf(),
            final(self).intervals@ == old(self).intervals@.update(
                id.0 as int,
                (Interval { value: v, ..old(self).intervals@[id.0 as int] }),
            ),
            final(self).frame_unchanged(old(self)),
            final(self).gaps@ == old(self).gaps@,
            final(self).interval_id == old(self).interval_id,
            forall|g: usize| value_evolves(old(self).intervals@[id.0 as int].value, v, g)
                ==> #[trigger] final(self).evolves(old(self), g),
    {
        self.intervals[id.0].value = v;
        proof {
            let g0 = *old(self);
            let g1 = *self;
            assert forall|g: usize| value_evolves(g0.intervals@[id.0 as int].value, v, g)
                implies #[trigger] g1.evolves(&g0, g) by {
                assert forall|w: int| 0 <= w < g0.nv()
                    implies interval_evolves(g0.intervals@[w], #[trigger] g1.intervals@[w], g) by {}
            }
        }
    }

    /// Give `current` the register that stays free longest from its start
    /// (its fixed register when it has a fixed use, the hinted one among
    /// equals). Where that register is taken again before `current` ends,
    /// `current` is split so that it keeps the register up to there; a
    /// split child without register uses is spilled right away. Answers
    /// `false`, changing nothing, when no register is free at the start of
    /// `current` or the free stretch is too short to be worth a split.
    pub fn allocate_free_reg(&mut self, current: IntervalId, st: &mut AllocatorState) -> (r: Result<bool, String>)
        requires
            old(self).wf(),
            current.0 < old(self).nv(),
            old(self).intervals@[current.0 as int].ranges@.len() > 0,
            old(self).intervals@[current.0 as int].value == Value::VirtualVal(old(st).group),
            old(self).state_ok(old(st)),
        ensures
            final(self).evolves(old(self), old(st).group),
            final(self).state_ok(final(st)),
            state_follows(final(st), old(st)),
            forall|v: int| old(self).nv() <= v < final(self).nv() ==> #[trigger] waiting(final(st), v),
            r == Ok::<bool, String>(false) ==> *final(self) == *old(self) && *final(st) == *old(st),
            r == Ok::<bool, String>(true) ==> (final(self).intervals@[current.0 as int].value matches Value::RegisterVal(g, reg)
                && g == old(st).group
                && reg < old(st).register_count
                && (forall|k: int| 0 <= k < old(st).active@.len()
                    ==> old(self).intervals@[(#[trigger] old(st).active@[k]).0 as int].value != Value::RegisterVal(g, reg))
                && (forall|i: int| #[trigger] is_first_fixed(old(self).intervals@[current.0 as int].uses@, i)
                    ==> old(self).intervals@[current.0 as int].uses@[i].kind == UseKind::UseFixed(
                        old(self).intervals@[current.0 as int].uses@[i].kind.spec_group(), reg))
                && old(self).free_until(old(st), current, reg) > 0
                && (no_fixed_use(old(self).intervals@[current.0 as int].uses@) ==> old(self).best_free(old(st), current, reg))
                && final(self).intervals@[current.0 as int].ranges@.len() > 0
                && final(self).intervals@[current.0 as int].spec_end() <= old(self).free_until(old(st), current, reg)
                && (old(self).free_until(old(st), current, reg) >= old(self).intervals@[current.0 as int].spec_end()
                    ==> final(self).nv() == old(self).nv())
                && (old(self).free_until(old(st), current, reg) < old(self).intervals@[current.0 as int].spec_end()
                    ==> final(self).nv() == old(self).nv() + 1
                    && final(st).unhandled@.contains(IntervalId(old(self).nv() as usize)))),
            r == Ok::<bool, String>(false) ==> exists|m: int| #[trigger] free_refused_at(old(self), old(st), current, m),
            r == Ok::<bool, String>(false) && no_fixed_use(old(self).intervals@[current.0 as int].uses@)
                ==> forall|r2: usize| r2 < old(st).register_count ==> #[trigger] old(self).free_until(old(st), current, r2) <= 0
                || old(self).free_until(old(st), current, r2) < old(self).intervals@[current.0 as int].spec_end(),
            r == Ok::<bool, String>(false) ==> forall|i: int| #[trigger] is_first_fixed(old(self).intervals@[current.0 as int].uses@, i)
                ==> old(self).free_until(old(st), current, fixed_register(old(self).intervals@[current.0 as int].uses@[i].kind)) <= 0
                || old(self).free_until(old(st), current, fixed_register(old(self).intervals@[current.0 as int].uses@[i].kind))
                < old(self).intervals@[current.0 as int].spec_end(),
            spills_below(old(st)) ==> slots_step(final(self), final(st), old(self), old(st)),
            register_only_to(final(self), old(self), current.0 as int),
            r is Err ==> free_reg_may_fail(old(self), old(st), current),
    {
        let group = st.group;
        let n = st.register_count;
        let ghost gs = *self;
        let ghost sts = *st;
        proof {
            if spills_below(&sts) {
                lemma_slots_none(gs, sts, gs, sts);
            }
        }
        let ghost uses0 = self.intervals@[current.0 as int].uses@;
        if st.spill_count == usize::MAX {
            return Err("too many stack slots".to_owned());
        }
        let hint = self.get_hint(current)?;
        let mut free_pos: Vec<usize> = Vec::new();
        let mut i: usize = 0;
        while i < n
            invariant
                i <= n,
                free_pos@.len() == i,
                forall|j: int| 0 <= j < i ==> #[trigger] free_pos@[j] == usize::MAX,
            decreases n - i,
        {
            free_pos.push(usize::MAX);
            i = i + 1;
        }

        // All active intervals use registers
        let active = self.each_active(st);
        let mut k: usize = 0;
        while k < active.len()
            invariant
                free_pos@.len() == n,
                n == st.register_count,
                k <= active@.len(),
                forall|j: int| 0 <= j < active@.len() ==> (#[trigger] active@[j]).1 < n,
                forall|j: int| 0 <= j < k ==> free_pos@[(#[trigger] active@[j]).1 as int] == 0,
                forall|r: int| 0 <= r < n ==> #[trigger] free_pos@[r] == if names_register(active@, k as int, r) {
                    0
                } else {
                    usize::MAX
                },
            decreases active.len() - k,
        {
            let ghost fp = free_pos@;
            free_pos.set(active[k].1, 0);
            proof {
                assert forall|r: int| 0 <= r < n implies #[trigger] free_pos@[r] == if names_register(active@, k + 1, r) {
                    0
                } else {
                    usize::MAX
                } by {
                    if r == active@[k as int].1 {
                        assert(names_register(active@, k + 1, r));
                    } else {
                        assert(fp[r] == free_pos@[r]);
                        if names_register(active@, k + 1, r) {
                            let j = choose|j: int| 0 <= j < k + 1 && active@[j].1 == r;
                            assert(names_register(active@, k as int, r));
                        }
                    }
                }
            }
            k = k + 1;
        }

        // All inactive ones will take their registers again
        let inter = self.each_intersecting(current, st);
        let mut k: usize = 0;
        while k < inter.len()
            invariant
                free_pos@.len() == n,
                n == st.register_count,
                k <= inter@.len(),
                forall|j: int| 0 <= j < inter@.len() ==> (#[trigger] inter@[j]).1 < n,
                forall|j: int| 0 <= j < active@.len() ==> (#[trigger] active@[j]).1 < n,
                forall|j: int| 0 <= j < active@.len() ==> free_pos@[(#[trigger] active@[j]).1 as int] == 0,
                forall|r: int| 0 <= r < n ==> #[trigger] free_pos@[r] == if names_register(active@, active@.len() as int, r) {
                    0
                } else {
                    first_taken(inter@.take(k as int), r as usize)
                },
            decreases inter.len() - k,
        {
            let reg = inter[k].1;
            let pos = inter[k].2;
            let ghost fp = free_pos@;
            if free_pos[reg] > pos.0 {
                free_pos.set(reg, pos.0);
            }
            assert forall|j: int| 0 <= j < active@.len() implies free_pos@[(#[trigger] active@[j]).1 as int] == 0 by {
                assert(fp[active@[j].1 as int] == 0);
            }
            proof {
                assert(inter@.take(k + 1).drop_last() =~= inter@.take(k as int));
                assert(inter@.take(k + 1).last() == inter@[k as int]);
                assert forall|r: int| 0 <= r < n implies #[trigger] free_pos@[r] == if names_register(active@, active@.len() as int, r) {
                    0
                } else {
                    first_taken(inter@.take(k + 1), r as usize)
                } by {
                    assert(fp[r] == if names_register(active@, active@.len() as int, r) {
                        0
                    } else {
                        first_taken(inter@.take(k as int), r as usize)
                    });
                    if names_register(active@, active@.len() as int, r) {
                        let j = choose|j: int| 0 <= j < active@.len() && active@[j].1 == r;
                        assert(fp[active@[j].1 as int] == 0);
                    }
                }
            }
            k = k + 1;
        }
        proof {
            assert(inter@.take(inter@.len() as int) =~= inter@);
            assert forall|r: usize| r < n implies #[trigger] free_pos@[r as int] == gs.free_until(&sts, current, r) by {
                if names_register(active@, active@.len() as int, r as int) {
                    let j = choose|j: int| 0 <= j < active@.len() && active@[j].1 == r as int;
                    assert(sts.active@[j] == active@[j].0);
                    assert(gs.held_by_active(&sts, r));
                } else {
                    if gs.held_by_active(&sts, r) {
                        let j = choose|j: int| 0 <= j < sts.active@.len()
                            && gs.intervals@[(#[trigger] sts.active@[j]).0 as int].value == Value::RegisterVal(sts.group, r);
                        assert(active@[j].0 == sts.active@[j]);
                        assert(names_register(active@, active@.len() as int, r as int));
                    }
                }
            }
        }

        // The register that is free for the longest time
        let (reg, max_pos) = match self.intervals[current.0].next_fixed_use(InstrId(0)) {
            Some(u) => match u.kind {
                UseKind::UseFixed(_, r) => {
                    if r >= n {
                        proof {
                            let i0 = choose|i0: int| 0 <= i0 < uses0.len() && uses0[i0] == u
                                && fixed_after(u, 0)
                                && forall|j: int| 0 <= j < i0 ==> !fixed_after(#[trigger] uses0[j], 0);
                            assert forall|j: int| 0 <= j < i0 implies !((#[trigger] uses0[j]).kind is UseFixed) by {
                                assert(!fixed_after(uses0[j], 0));
                            }
                            assert(is_first_fixed(uses0, i0));
                            assert(fixed_register(uses0[i0].kind) >= sts.register_count);
                        }
                        return Err("fixed register out of range".to_owned());
                    }
                    proof {
                        assert forall|i: int| #[trigger] is_first_fixed(uses0, i)
                            implies uses0[i].kind == UseKind::UseFixed(uses0[i].kind.spec_group(), r) by {
                            let i0 = choose|i0: int| 0 <= i0 < uses0.len() && uses0[i0] == u
                                && fixed_after(u, 0)
                                && forall|j: int| 0 <= j < i0 ==> !fixed_after(#[trigger] uses0[j], 0);
                            if i < i0 {
                                assert(fixed_after(uses0[i], 0));
                            } else if i > i0 {
                                assert(!(uses0[i0].kind is UseFixed));
                            }
                        }
                        let i0 = choose|i0: int| 0 <= i0 < uses0.len() && uses0[i0] == u
                            && fixed_after(u, 0)
                            && forall|j: int| 0 <= j < i0 ==> !fixed_after(#[trigger] uses0[j], 0);
                        assert(uses0[i0].kind is UseFixed);
                    }
                    (r, free_pos[r])
                },
                _ => {
                    proof {
                        let i0 = choose|i0: int| 0 <= i0 < uses0.len() && uses0[i0] == u
                            && fixed_after(u, 0)
                            && forall|j: int| 0 <= j < i0 ==> !fixed_after(#[trigger] uses0[j], 0);
                        assert(false);
                    }
                    return Err("fixed use expected".to_owned());
                },
            },
            None => {
                proof {
                    assert forall|i: int| #[trigger] is_first_fixed(uses0, i)
                        implies uses0[i].kind == UseKind::UseFixed(uses0[i].kind.spec_group(), 0) by {
                        assert(!fixed_after(uses0[i], 0));
                    }
                }
                let (rg, mp) = choose_register(&free_pos, hint);
                proof {
                    if mp > 0 {
                        assert(hint == gs.spec_hint(current));
                        assert(free_pos@[rg as int] == mp);
                        assert(gs.free_until(&sts, current, rg) == mp);
                        assert forall|r2: usize| r2 < n implies #[trigger] gs.free_until(&sts, current, r2) <= mp by {
                            assert(free_pos@[r2 as int] <= mp);
                        }
                        let hinted = gs.spec_hint(current) matches Some(h) && h < n
                            && gs.free_until(&sts, current, h) == mp;
                        if !hinted {
                            assert forall|r2: usize| r2 < rg implies #[trigger] gs.free_until(&sts, current, r2) < mp by {
                                assert(free_pos@[r2 as int] < mp);
                            }
                        }
                        assert(gs.best_free(&sts, current, rg));
                    }
                }
                (rg, mp)
            },
        };
        proof {
            if no_fixed_use(uses0) {
                assert forall|r2: usize| r2 < n implies #[trigger] gs.free_until(&sts, current, r2) <= max_pos by {
                    assert(free_pos@[r2 as int] <= max_pos);
                }
            }
            assert forall|i: int| #[trigger] is_first_fixed(uses0, i)
                implies gs.free_until(&sts, current, fixed_register(uses0[i].kind)) == max_pos by {
                assert(uses0[i].kind == UseKind::UseFixed(uses0[i].kind.spec_group(), reg));
                assert(free_pos@[reg as int] == max_pos);
            }
        }
        proof {
            if no_fixed_use(uses0) && max_pos > 0 {
                assert(gs.free_until(&sts, current, reg) == max_pos);
            }
        }
        if max_pos == 0 {
            // All registers are blocked
            assert(free_refused_at(&gs, &sts, current, max_pos as int));
            return Ok(false);
        }
        proof {
            assert(gs.free_until(&sts, current, reg) == max_pos);
        }
        assert(reg < n && free_pos@[reg as int] == max_pos);

        let ghost g0 = *self;
        let ghost st0 = *st;
        let start = self.intervals[current.0].start();
        let end = self.intervals[current.0].end();
        if max_pos >= end.0 {
            // The register is free for the whole lifetime of current
        } else if start.0 >= max_pos - 1 {
            // Splitting is impossible
            assert(free_refused_at(&gs, &sts, current, max_pos as int));
            return Ok(false);
        } else {
            // The register is free for a part of the lifetime of current
            let mut split_pos = match self.optimal_split_pos(group, start, InstrId(max_pos)) {
                Ok(p) => p,
                Err(e) => {
                    assert(!gs.gap_at(start.0 + 1));
                    return Err(e);
                },
            };
            if split_pos.0 == max_pos - 1 && self.clobbers(group, &InstrId(max_pos)) {
                // Splitting right before a call is pointless unless there is
                // a register use at the call; spill current instead
                match self.intervals[current.0].next_use(InstrId(max_pos)) {
                    Some(u) => {
                        if u.pos.0 == max_pos {
                            split_pos = InstrId(max_pos);
                        } else {
                            assert(free_refused_at(&gs, &sts, current, max_pos as int));
                            return Ok(false);
                        }
                    },
                    None => {
                        assert(free_refused_at(&gs, &sts, current, max_pos as int));
                        return Ok(false);
                    },
                }
            }
            assert(start.0 < split_pos.0 < end.0);
            let child = match self.split(current, SplitConf::At(split_pos), st) {
                Ok(c) => c,
                Err(e) => {
                    assert(gs.nv() >= usize::MAX - 1 || split_refused_at(&gs, current, split_pos));
                    return Err(e);
                },
            };
            let ghost g1 = *self;
            let ghost st1 = *st;
            proof {
                if spills_below(&sts) {
                    lemma_slots_none(g1, st1, g0, st0);
                }
                crate::split::lemma_ranges_head_end(g0.intervals@[current.0 as int].ranges@, split_pos);
            }
            // The part kept must end where the register is taken again
            if self.intervals[current.0].ranges.len() == 0 || self.intervals[current.0].end().0 > max_pos {
                proof {
                    let rs = self.intervals@[current.0 as int].ranges@;
                    if rs != g0.intervals@[current.0 as int].ranges@ {
                        assert(rs.last().end.0 <= split_pos.0);
                    }
                    let m = choose|m: IntervalId| m != current && #[trigger] crate::split::member_covers(&g0,
                        crate::split::family_root(g0.intervals@[current.0 as int], current), m, split_pos);
                    assert(crate::split::member_covers(&gs, crate::split::family_root(gs.intervals@[current.0 as int], current), m, split_pos));
                }
                return Err("another part of the value covers the split position".to_owned());
            }
            // Spill the child at once when it has no register uses
            if self.intervals[child.0].next_use(InstrId(0)).is_none() {
                let s = st.get_spill();
                self.set_value(child, s);
                proof {
                    lemma_evolves_trans(*self, g1, g0, group);
                    lemma_state_ok_update(*self, g1, &*st);
                    if spills_below(&sts) {
                        lemma_slots_spill(*self, *st, g1, st1, child.0 as int);
                        lemma_slots_trans(*self, *st, g1, st1, g0, st0);
                    }
                }
            }
        }
        let ghost g2 = *self;
        self.set_value(current, Value::RegisterVal(group, reg));
        proof {
            lemma_evolves_trans(*self, g2, g0, group);
            lemma_state_ok_update(*self, g2, &*st);
            if spills_below(&sts) {
                assert(slots_step(&g2, &*st, &g0, &st0));
                lemma_slots_register(*self, g2, *st, current.0 as int);
                lemma_slots_trans(*self, *st, g2, *st, g0, st0);
            }
            assert forall|k: int| 0 <= k < sts.active@.len()
                implies gs.intervals@[(#[trigger] sts.active@[k]).0 as int].value != Value::RegisterVal(group, reg) by {
                assert(active@[k].0 == sts.active@[k]);
            }
            assert(self.intervals@[current.0 as int].value == Value::RegisterVal(group, reg));
        }
        Ok(true)
    }
}

} // verus!

verus! {

/// The new intervals of `g1` beyond `g0` all wait in the unhandled list.
pub open spec fn new_waiting<K>(g1: &Graph<K>, g0: &Graph<K>, st: &AllocatorState) -> bool {
    forall|v: int| g0.nv() <= v < g1.nv() ==> #[trigger] waiting(st, v)
}

/// The intervals that `g0` has keep their locations in `g1`.
pub open spec fn keeps_values<K>(g1: &Graph<K>, g0: &Graph<K>) -> bool {
    forall|v: int| 0 <= v < g0.nv() ==> (#[trigger] g1.intervals@[v]).value == g0.intervals@[v].value
}

/// Allocation work on the state's group leads from `(g0, st0)` to
/// `(g1, st1)`: the graph evolves, the lists stay in order, no unhandled
/// interval is lost and every new interval waits in the unhandled list.
pub open spec fn step<K>(g1: &Graph<K>, st1: &AllocatorState, g0: &Graph<K>, st0: &AllocatorState) -> bool {
    &&& g1.evolves(g0, st0.group)
    &&& g1.state_ok(st1)
    &&& state_follows(st1, st0)
    &&& new_waiting(g1, g0, st1)
}

pub proof fn lemma_step_trans<K>(
    g2: Graph<K>,
    st2: AllocatorState,
    g1: Graph<K>,
    st1: AllocatorState,
    g0: Graph<K>,
    st0: AllocatorState,
)
    requires
        step(&g2, &st2, &g1, &st1),
        step(&g1, &st1, &g0, &st0),
    ensures
        step(&g2, &st2, &g0, &st0),
{
    lemma_evolves_trans(g2, g1, g0, st0.group);
    assert forall|x: IntervalId| #[trigger] st0.unhandled@.contains(x) implies st2.unhandled@.contains(x) by {
        assert(st1.unhandled@.contains(x));
    }
    assert forall|v: int| g0.nv() <= v < g2.nv() implies #[trigger] waiting(&st2, v) by {
        if v < g1.nv() {
            assert(waiting(&st1, v));
            assert(st1.unhandled@.contains(IntervalId(v as usize)));
        } else {
            assert(waiting(&st2, v));
        }
    }
}

pub proof fn lemma_keeps_trans<K>(g2: Graph<K>, g1: Graph<K>, g0: Graph<K>)
    requires
        keeps_values(&g2, &g1),
        keeps_values(&g1, &g0),
        g0.nv() <= g1.nv(),
    ensures
        keeps_values(&g2, &g0),
{
    assert forall|v: int| 0 <= v < g0.nv() implies (#[trigger] g2.intervals@[v]).value == g0.intervals@[v].value by {
        assert(g1.intervals@[v].value == g0.intervals@[v].value);
    }
}

impl<K: KindHelper> Graph<K> {
    /// Take the register of `current` away from the active intervals that
    /// hold it and from the inactive ones that meet `current`: each is
    /// split before `current` starts (at the best position after its last
    /// register use), the split child is spilled, and the child is split
    /// again before its next register use, so that the part with that use
    /// waits for a register of its own.
    pub fn split_and_spill(&mut self, current: IntervalId, st: &mut AllocatorState) -> (r: Result<(), String>)
        requires
            old(self).wf(),
            current.0 < old(self).nv(),
            old(self).intervals@[current.0 as int].ranges@.len() > 0,
            old(self).intervals@[current.0 as int].value matches Value::RegisterVal(g, _) && g == old(st).group,
            old(self).state_ok(old(st)),
        ensures
            step(final(self), final(st), old(self), old(st)),
            keeps_values(final(self), old(self)),
            spills_below(old(st)) ==> slots_step(final(self), final(st), old(self), old(st)),
            register_only_to(final(self), old(self), -1),
            r is Ok ==> forall|a: IntervalId| #[trigger] displaced(old(self), old(st), current, a)
                ==> spilled_part(final(self), old(self), a),
            (forall|a: IntervalId| !#[trigger] displaced(old(self), old(st), current, a))
                ==> r is Ok && *final(self) == *old(self) && *final(st) == *old(st),
    {
        let group = st.group;
        let ghost g0 = *self;
        let ghost st0 = *st;
        proof {
            if spills_below(&st0) {
                lemma_slots_none(g0, st0, g0, st0);
            }
        }
        let reg = match self.intervals[current.0].value {
            Value::RegisterVal(_, r) => r,
            _ => 0,
        };
        let start = self.intervals[current.0].start();

        // The intervals that hold the register
        let mut to_split: Vec<IntervalId> = Vec::new();
        let active = self.each_active(st);
        let mut k: usize = 0;
        while k < active.len()
            invariant
                k <= active@.len(),
                active@.len() == st.active@.len(),
                forall|j: int| 0 <= j < active@.len() ==> (#[trigger] active@[j]).0 == st.active@[j],
                forall|j: int| 0 <= j < to_split@.len() ==> st.active@.contains(#[trigger] to_split@[j])
                    || st.inactive@.contains(to_split@[j]),
                forall|j: int| 0 <= j < k && (#[trigger] active@[j]).1 == reg ==> to_split@.contains(active@[j].0),
                forall|j: int| 0 <= j < to_split@.len() ==> #[trigger] displaced(&g0, &st0, current, to_split@[j]),
                *self == g0,
                *st == st0,
                reg == held_register(&g0, current),
                forall|j: int| 0 <= j < active@.len() ==> g0.intervals@[(#[trigger] active@[j]).0.0 as int].value
                    == Value::RegisterVal(st0.group, active@[j].1),
            decreases active.len() - k,
        {
            let ghost ts0 = to_split@;
            if active[k].1 == reg {
                assert(st.active@[k as int] == active@[k as int].0);
                to_split.push(active[k].0);
                proof {
                    assert(st0.active@.contains(active@[k as int].0));
                    assert(displaced(&g0, &st0, current, active@[k as int].0));
                    assert forall|j: int| 0 <= j < to_split@.len() implies #[trigger] displaced(&g0, &st0, current, to_split@[j]) by {
                        if j < ts0.len() {
                            assert(to_split@[j] == ts0[j]);
                        }
                    }
                }
            }
            proof {
                assert forall|j: int| 0 <= j < k + 1 && (#[trigger] active@[j]).1 == reg implies to_split@.contains(active@[j].0) by {
                    if j < k {
                        let q = choose|q: int| 0 <= q < ts0.len() && ts0[q] == active@[j].0;
                        assert(to_split@[q] == ts0[q]);
                    } else {
                        assert(to_split@[to_split@.len() - 1] == active@[j].0);
                    }
                }
            }
            k = k + 1;
        }
        let ghost after_active = to_split@;
        let inter = self.each_intersecting(current, st);
        let mut k: usize = 0;
        while k < inter.len()
            invariant
                k <= inter@.len(),
                forall|j: int| 0 <= j < inter@.len() ==> st.inactive@.contains((#[trigger] inter@[j]).0),
                forall|j: int| 0 <= j < to_split@.len() ==> st.active@.contains(#[trigger] to_split@[j])
                    || st.inactive@.contains(to_split@[j]),
                forall|j: int| 0 <= j < k && (#[trigger] inter@[j]).1 == reg ==> to_split@.contains(inter@[j].0),
                after_active.len() <= to_split@.len(),
                forall|q: int| 0 <= q < after_active.len() ==> to_split@[q] == #[trigger] after_active[q],
                forall|j: int| 0 <= j < to_split@.len() ==> #[trigger] displaced(&g0, &st0, current, to_split@[j]),
                *self == g0,
                *st == st0,
                reg == held_register(&g0, current),
                inter@ == intersecting(&g0, st0.inactive@, current),
            decreases inter.len() - k,
        {
            let ghost ts0 = to_split@;
            if inter[k].1 == reg {
                to_split.push(inter[k].0);
                proof {
                    assert(displaced(&g0, &st0, current, inter@[k as int].0));
                    assert forall|j: int| 0 <= j < to_split@.len() implies #[trigger] displaced(&g0, &st0, current, to_split@[j]) by {
                        if j < ts0.len() {
                            assert(to_split@[j] == ts0[j]);
                        }
                    }
                }
            }
            proof {
                assert forall|j: int| 0 <= j < k + 1 && (#[trigger] inter@[j]).1 == reg implies to_split@.contains(inter@[j].0) by {
                    if j < k {
                        let q = choose|q: int| 0 <= q < ts0.len() && ts0[q] == inter@[j].0;
                        assert(to_split@[q] == ts0[q]);
                    } else {
                        assert(to_split@[to_split@.len() - 1] == inter@[j].0);
                    }
                }
            }
            k = k + 1;
        }
        proof {
            assert(reg == held_register(&g0, current));
            assert forall|a: IntervalId| #[trigger] displaced(&g0, &st0, current, a) implies to_split@.contains(a) by {
                let interg = intersecting(&g0, st0.inactive@, current);
                if st0.active@.contains(a) && g0.intervals@[a.0 as int].value == Value::RegisterVal(st0.group, reg) {
                    let j = choose|j: int| 0 <= j < st0.active@.len() && st0.active@[j] == a;
                    assert(active@[j].0 == a);
                    assert(active@[j].1 == reg);
                    let q = choose|q: int| 0 <= q < after_active.len() && after_active[q] == a;
                    assert(to_split@[q] == after_active[q]);
                } else {
                    let j = choose|j: int| 0 <= j < interg.len() && (#[trigger] interg[j]).0 == a && interg[j].1 == reg;
                    assert(inter@[j] == interg[j]);
                }
            }
        }

        // Split and spill them
        let mut k: usize = 0;
        while k < to_split.len()
            invariant
                k <= to_split@.len(),
                group == st0.group,
                forall|j: int| 0 <= j < to_split@.len() ==> st0.active@.contains(#[trigger] to_split@[j])
                    || st0.inactive@.contains(to_split@[j]),
                step(self, st, &g0, &st0),
                keeps_values(self, &g0),
                g0 == *old(self),
                st0 == *old(st),
                spills_below(&st0) ==> slots_step(self, st, &g0, &st0),
                register_only_to(self, &g0, -1),
                forall|a: IntervalId| #[trigger] displaced(&g0, &st0, current, a) ==> to_split@.contains(a),
                forall|j: int| 0 <= j < k ==> #[trigger] spilled_part(self, &g0, to_split@[j]),
                forall|v: int| 0 <= v < g0.nv() ==> (#[trigger] self.intervals@[v]).parent == g0.intervals@[v].parent,
                g0.nv() <= self.nv(),
                forall|j: int| 0 <= j < to_split@.len() ==> #[trigger] displaced(&g0, &st0, current, to_split@[j]),
                k == 0 ==> *self == g0 && *st == st0,
            decreases to_split.len() - k,
        {
            let id = to_split[k];
            proof {
                assert(displaced(&g0, &st0, current, id));
                if st0.active@.contains(id) {
                    let kk = choose|kk: int| 0 <= kk < st0.active@.len() && st0.active@[kk] == id;
                    assert(st.active@[kk] == id);
                } else {
                    let kk = choose|kk: int| 0 <= kk < st0.inactive@.len() && st0.inactive@[kk] == id;
                    assert(st.inactive@[kk] == id);
                }
            }
            if st.spill_count == usize::MAX {
                return Err("too many stack slots".to_owned());
            }
            // Spill before or at the start of current
            let spill_pos = if self.clobbers(group, &start) || self.is_gap(&start) {
                start
            } else {
                if start.0 == 0 {
                    return Err("no position before the first one".to_owned());
                }
                InstrId(start.0 - 1)
            };
            let last_use = match self.intervals[id.0].last_use(spill_pos) {
                Some(u) => u.pos,
                None => self.intervals[id.0].start(),
            };
            let ghost g1 = *self;
            let ghost st1 = *st;
            let spill_child = self.split(id, SplitConf::Between(last_use, spill_pos), st)?;
            let ghost g2 = *self;
            let ghost st2 = *st;
            proof {
                lemma_step_trans(g2, st2, g1, st1, g0, st0);
                lemma_keeps_trans(g2, g1, g0);
                if spills_below(&st0) {
                    lemma_slots_none(g2, st2, g1, st1);
                    lemma_slots_trans(g2, st2, g1, st1, g0, st0);
                }
                lemma_register_only_trans(g2, g1, g0, -1, group);
            }
            let s = st.get_spill();
            self.set_value(spill_child, s);
            let ghost g3 = *self;
            proof {
                lemma_state_ok_update(g3, g2, &*st);
                lemma_evolves_trans(g3, g2, g0, group);
                assert(keeps_values(&g3, &g0));
                assert forall|v: int| g0.nv() <= v < g3.nv() implies #[trigger] waiting(&*st, v) by {
                    assert(waiting(&st2, v));
                }
                if spills_below(&st0) {
                    lemma_slots_spill(g3, *st, g2, st2, spill_child.0 as int);
                    lemma_slots_trans(g3, *st, g2, st2, g0, st0);
                }
                assert(register_only_to(&g3, &g2, -1));
                lemma_register_only_trans(g3, g2, g0, -1, group);
            }
            // Split before the next register use
            match self.intervals[spill_child.0].next_use(spill_pos) {
                Some(u) => {
                    let ghost st3 = *st;
                    self.split(id, SplitConf::Between(spill_pos, u.pos), st)?;
                    proof {
                        lemma_step_trans(*self, *st, g3, st3, g0, st0);
                        lemma_keeps_trans(*self, g3, g0);
                        if spills_below(&st0) {
                            lemma_slots_none(*self, *st, g3, st3);
                            lemma_slots_trans(*self, *st, g3, st3, g0, st0);
                        }
                        lemma_register_only_trans(*self, g3, g0, -1, group);
                    }
                },
                None => {},
            }
            proof {
                assert(id.0 < g0.nv());
                assert forall|v: int| 0 <= v < g1.nv() implies (#[trigger] self.intervals@[v]).value == g1.intervals@[v].value
                    && self.intervals@[v].parent == g1.intervals@[v].parent by {
                    assert(g2.intervals@[v].value == g1.intervals@[v].value);
                    assert(g2.intervals@[v].parent == g1.intervals@[v].parent);
                    assert(g3.intervals@[v] == g2.intervals@[v]);
                }
                assert forall|j: int| 0 <= j < k + 1 implies #[trigger] spilled_part(self, &g0, to_split@[j]) by {
                    if j < k {
                        assert(spilled_part(&g1, &g0, to_split@[j]));
                        lemma_spilled_keep(self, &g1, &g0, to_split@[j]);
                    } else {
                        let v = spill_child.0 as int;
                        assert(g3.intervals@[v].value is StackVal);
                        assert(self.intervals@[v].value == g3.intervals@[v].value);
                        assert(self.intervals@[v].parent == g3.intervals@[v].parent);
                        assert(g1.intervals@[id.0 as int].parent == g0.intervals@[id.0 as int].parent);
                        assert(g0.nv() <= v < self.nv());
                    }
                }
            }
            k = k + 1;
        }
        proof {
            if to_split@.len() > 0 {
                assert(displaced(&g0, &st0, current, to_split@[0]));
            }
            assert forall|a: IntervalId| #[trigger] displaced(&g0, &st0, current, a) implies spilled_part(self, &g0, a) by {
                let q = choose|q: int| 0 <= q < to_split@.len() && to_split@[q] == a;
                assert(spilled_part(self, &g0, to_split@[q]));
            }
        }
        Ok(())
    }
}

} // verus!

verus! {

/// No interval of `g1` holds a stack slot that it did not hold in `g0`.
/// The sum of `s`.
pub open spec fn total(s: Seq<usize>) -> int
    decreases s.len(),
{
    if s.len() == 0 {
        0
    } else {
        total(s.drop_last()) + s.last()
    }
}

proof fn lemma_total_take(s: Seq<usize>, i: int)
    requires
        0 <= i < s.len(),
    ensures
        total(s.take(i + 1)) == total(s.take(i)) + s[i],
        total(s.take(i + 1)) <= total(s),
        total(s.take(0)) == 0,
{
    assert(s.take(i + 1).drop_last() =~= s.take(i));
    assert(s.take(0) =~= Seq::<usize>::empty());
    lemma_total_take_mono(s, i + 1, s.len() as int);
    assert(s.take(s.len() as int) =~= s);
}

proof fn lemma_total_take_mono(s: Seq<usize>, i: int, j: int)
    requires
        0 <= i <= j <= s.len(),
    ensures
        total(s.take(i)) <= total(s.take(j)),
    decreases j - i,
{
    if i < j {
        lemma_total_take_mono(s, i, j - 1);
        assert(s.take(j).drop_last() =~= s.take(j - 1));
    }
}

/// `row` holds, for each of the `count` registers of `group`, a fixed
/// interval of `g` at that register, numbered in order from `first`.
pub open spec fn physical_row<K>(g: &Graph<K>, row: Seq<IntervalId>, group: int, count: int, first: int) -> bool {
    &&& row.len() == count
    &&& forall|k: int| 0 <= k < count ==> (#[trigger] row[k]).0 == first + k
        && g.intervals@[first + k].value == Value::RegisterVal(group as usize, k as usize)
        && g.intervals@[first + k].fixed
}

pub open spec fn no_new_slots<K>(g1: &Graph<K>, g0: &Graph<K>) -> bool {
    forall|v: int| 0 <= v < g1.nv() && (#[trigger] g1.intervals@[v]).value is StackVal
        ==> v < g0.nv() && g1.intervals@[v].value == g0.intervals@[v].value
}

/// Each interval of `g1` holding stack slot `slot` of group `g` held it in
/// `g0`, or the slot is below `counts[g]` for the groups walked (`g` below
/// `walked`); each slot below the count of a walked group is held.
pub open spec fn slots_counted<K>(g1: &Graph<K>, g0: &Graph<K>, counts: Seq<usize>, walked: int) -> bool {
    &&& forall|v: int| 0 <= v < g1.nv() ==> ((#[trigger] g1.intervals@[v]).value matches Value::StackVal(g, slot)
        ==> (g < walked && slot.0 < counts[g as int]) || (v < g0.nv() && g0.intervals@[v].value == g1.intervals@[v].value))
    &&& forall|g: int, slot: usize| 0 <= g < walked && slot < counts[g] ==> #[trigger] slot_held(g1, g as usize, slot)
}

/// Some interval of `g` holds stack slot `slot` of group `group`.
pub open spec fn slot_held<K>(g: &Graph<K>, group: usize, slot: usize) -> bool {
    exists|v: int| 0 <= v < g.nv() && #[trigger] g.intervals@[v].value == Value::StackVal(group, StackId(slot))
}

/// Walking group `group` keeps the slots of the groups walked before
/// counted and counts the slots of `group` by `count`.
proof fn lemma_slots_walk<K>(ga: Graph<K>, gb: Graph<K>, o: Graph<K>, counts: Seq<usize>, group: usize, count: usize)
    requires
        slots_counted(&gb, &o, counts, group as int),
        counts.len() == group,
        ga.evolves(&gb, group),
        forall|v: int, slot: usize| #[trigger] spilled_since(&ga, &gb, v, group, slot) ==> slot < count,
        forall|slot: usize| slot < count ==> #[trigger] slot_taken(&ga, &gb, group, slot),
    ensures
        slots_counted(&ga, &o, counts.push(count), group + 1),
{
    let c2 = counts.push(count);
    assert forall|v: int| 0 <= v < ga.nv() implies ((#[trigger] ga.intervals@[v]).value matches Value::StackVal(g, slot)
        ==> (g < group + 1 && slot.0 < c2[g as int]) || (v < o.nv() && o.intervals@[v].value == ga.intervals@[v].value)) by {
        if let Value::StackVal(g, slot) = ga.intervals@[v].value {
            if v < gb.nv() && !(gb.intervals@[v].value is VirtualVal) {
                assert(interval_evolves(gb.intervals@[v], ga.intervals@[v], group));
                assert(gb.intervals@[v].value == ga.intervals@[v].value);
                if g < group {
                    assert(c2[g as int] == counts[g as int]);
                }
            } else {
                if v < gb.nv() {
                    assert(interval_evolves(gb.intervals@[v], ga.intervals@[v], group));
                }
                assert(g == group);
                assert(spilled_since(&ga, &gb, v, group, slot.0));
                assert(c2[group as int] == count);
            }
        }
    }
    assert forall|g: int, slot: usize| 0 <= g < group + 1 && slot < c2[g] implies #[trigger] slot_held(&ga, g as usize, slot) by {
        if g < group {
            assert(c2[g] == counts[g]);
            assert(slot_held(&gb, g as usize, slot));
            let v = choose|v: int| 0 <= v < gb.nv() && #[trigger] gb.intervals@[v].value == Value::StackVal(g as usize, StackId(slot));
            assert(interval_evolves(gb.intervals@[v], ga.intervals@[v], group));
            assert(ga.intervals@[v].value == Value::StackVal(g as usize, StackId(slot)));
        } else {
            assert(c2[g] == count);
            assert(slot_taken(&ga, &gb, group, slot));
            let v = choose|v: int| #[trigger] spilled_since(&ga, &gb, v, group, slot);
            assert(ga.intervals@[v].value == Value::StackVal(g as usize, StackId(slot)));
        }
    }
}

/// Interval `id` is the only one of `g1`, undecided in `g0` or new, that
/// holds a register.
pub open spec fn register_only_to<K>(g1: &Graph<K>, g0: &Graph<K>, id: int) -> bool {
    forall|v: int| 0 <= v < g1.nv() && (v >= g0.nv() || g0.intervals@[v].value is VirtualVal)
        && (#[trigger] g1.intervals@[v]).value is RegisterVal ==> v == id
}

pub proof fn lemma_register_only_trans<K>(g2: Graph<K>, g1: Graph<K>, g0: Graph<K>, id: int, group: usize)
    requires
        register_only_to(&g2, &g1, id),
        register_only_to(&g1, &g0, id),
        g2.evolves(&g1, group),
        g1.evolves(&g0, group),
    ensures
        register_only_to(&g2, &g0, id),
{
    assert forall|v: int| 0 <= v < g2.nv() && (v >= g0.nv() || g0.intervals@[v].value is VirtualVal)
        && (#[trigger] g2.intervals@[v]).value is RegisterVal implies v == id by {
        if v < g1.nv() && !(g1.intervals@[v].value is VirtualVal) {
            assert(interval_evolves(g1.intervals@[v], g2.intervals@[v], group));
        }
    }
}

/// Each interval of `g1` holding a register either held it in `g0` or
/// holds one of the registers that `groups` gives its group.
pub open spec fn regs_within<K>(g1: &Graph<K>, g0: &Graph<K>, groups: Seq<usize>) -> bool {
    forall|v: int| 0 <= v < g1.nv() ==> ((#[trigger] g1.intervals@[v]).value matches Value::RegisterVal(g, reg)
        ==> (g < groups.len() && reg < groups[g as int]) || (v < g0.nv() && g0.intervals@[v].value == g1.intervals@[v].value))
}

/// The returned stack slots of the state are below its slot count.
pub open spec fn spills_below(st: &AllocatorState) -> bool {
    forall|k: int| 0 <= k < st.spills@.len() ==> (#[trigger] st.spills@[k] matches Value::StackVal(_, s) && s.0 < st.spill_count)
}

/// Interval `v` of `g1`, undecided in `g0` or new, holds stack slot `slot`
/// of `group`.
pub open spec fn spilled_since<K>(g1: &Graph<K>, g0: &Graph<K>, v: int, group: usize, slot: usize) -> bool {
    &&& 0 <= v < g1.nv()
    &&& (v >= g0.nv() || g0.intervals@[v].value is VirtualVal)
    &&& g1.intervals@[v].value == Value::StackVal(group, StackId(slot))
}

/// From `(g0, st0)` to `(g1, st1)` the intervals that were spilled got
/// slots below the new slot count, each fresh slot went to one of them, and
/// the returned slots stay below the count.
pub open spec fn slots_step<K>(g1: &Graph<K>, st1: &AllocatorState, g0: &Graph<K>, st0: &AllocatorState) -> bool {
    &&& st0.spill_count <= st1.spill_count
    &&& spills_below(st1)
    &&& forall|v: int, slot: usize| #[trigger] spilled_since(g1, g0, v, st0.group, slot) ==> slot < st1.spill_count
    &&& forall|slot: usize| st0.spill_count <= slot < st1.spill_count ==> #[trigger] slot_taken(g1, g0, st0.group, slot)
}

/// Some interval of `g1`, undecided in `g0` or new, holds stack slot `slot`
/// of `group`.
pub open spec fn slot_taken<K>(g1: &Graph<K>, g0: &Graph<K>, group: usize, slot: usize) -> bool {
    exists|v: int| #[trigger] spilled_since(g1, g0, v, group, slot)
}

pub proof fn lemma_slots_trans<K>(
    g2: Graph<K>,
    st2: AllocatorState,
    g1: Graph<K>,
    st1: AllocatorState,
    g0: Graph<K>,
    st0: AllocatorState,
)
    requires
        slots_step(&g2, &st2, &g1, &st1),
        slots_step(&g1, &st1, &g0, &st0),
        g2.evolves(&g1, st0.group),
        g1.evolves(&g0, st0.group),
        st1.group == st0.group,
    ensures
        slots_step(&g2, &st2, &g0, &st0),
{
    assert forall|v: int, slot: usize| #[trigger] spilled_since(&g2, &g0, v, st0.group, slot) implies slot < st2.spill_count by {
        if v < g1.nv() && !(g1.intervals@[v].value is VirtualVal) {
            assert(interval_evolves(g1.intervals@[v], g2.intervals@[v], st0.group));
            assert(spilled_since(&g1, &g0, v, st0.group, slot));
        } else {
            assert(spilled_since(&g2, &g1, v, st0.group, slot));
        }
    }
    assert forall|slot: usize| st0.spill_count <= slot < st2.spill_count
        implies #[trigger] slot_taken(&g2, &g0, st0.group, slot) by {
        if slot < st1.spill_count {
            assert(slot_taken(&g1, &g0, st0.group, slot));
            let v = choose|v: int| #[trigger] spilled_since(&g1, &g0, v, st0.group, slot);
            assert(interval_evolves(g1.intervals@[v], g2.intervals@[v], st0.group));
            assert(spilled_since(&g2, &g0, v, st0.group, slot));
        } else {
            assert(slot_taken(&g2, &g1, st0.group, slot));
            let v = choose|v: int| #[trigger] spilled_since(&g2, &g1, v, st0.group, slot);
            if v < g0.nv() {
                assert(interval_evolves(g0.intervals@[v], g1.intervals@[v], st0.group));
            }
            assert(spilled_since(&g2, &g0, v, st0.group, slot));
        }
    }
}

/// Work that spills nothing: the same slots, old intervals keep their
/// locations and new ones are undecided.
pub proof fn lemma_slots_none<K>(g1: Graph<K>, st1: AllocatorState, g0: Graph<K>, st0: AllocatorState)
    requires
        spills_below(&st0),
        st1.spill_count == st0.spill_count,
        st1.spills == st0.spills,
        g0.nv() <= g1.nv(),
        forall|v: int| 0 <= v < g0.nv() ==> (#[trigger] g1.intervals@[v]).value == g0.intervals@[v].value,
        forall|v: int| g0.nv() <= v < g1.nv() ==> (#[trigger] g1.intervals@[v]).value is VirtualVal,
    ensures
        slots_step(&g1, &st1, &g0, &st0),
{
    assert forall|v: int, slot: usize| #[trigger] spilled_since(&g1, &g0, v, st0.group, slot) implies slot < st1.spill_count by {
        if v < g0.nv() {
            assert(g1.intervals@[v].value == g0.intervals@[v].value);
        }
    }
}

/// Putting an undecided interval into a register spills nothing.
pub proof fn lemma_slots_register<K>(g1: Graph<K>, g0: Graph<K>, st: AllocatorState, id: int)
    requires
        spills_below(&st),
        0 <= id < g0.nv(),
        g1.nv() == g0.nv(),
        forall|v: int| 0 <= v < g0.nv() && v != id ==> (#[trigger] g1.intervals@[v]).value == g0.intervals@[v].value,
        g1.intervals@[id].value is RegisterVal,
    ensures
        slots_step(&g1, &st, &g0, &st),
{
    assert forall|v: int, slot: usize| #[trigger] spilled_since(&g1, &g0, v, st.group, slot) implies slot < st.spill_count by {
        assert(v != id);
        assert(g1.intervals@[v].value == g0.intervals@[v].value);
    }
}

/// Giving an undecided interval the stack slot that `get_spill` handed
/// out keeps the slots accounted for.
pub proof fn lemma_slots_spill<K>(g1: Graph<K>, st1: AllocatorState, g0: Graph<K>, st0: AllocatorState, id: int)
    requires
        spills_below(&st0),
        0 <= id < g0.nv(),
        g0.intervals@[id].value is VirtualVal,
        g1.nv() == g0.nv(),
        forall|v: int| 0 <= v < g0.nv() && v != id ==> (#[trigger] g1.intervals@[v]).value == g0.intervals@[v].value,
        st1.group == st0.group,
        st0.spills@.len() > 0 ==> g1.intervals@[id].value == st0.spills@[0] && st1.spills@ == st0.spills@.drop_first()
            && st1.spill_count == st0.spill_count,
        st0.spills@.len() == 0 ==> g1.intervals@[id].value == Value::StackVal(st0.group, StackId(st0.spill_count))
            && st1.spill_count == st0.spill_count + 1 && st1.spills@.len() == 0,
    ensures
        slots_step(&g1, &st1, &g0, &st0),
{
    assert(spills_below(&st1)) by {
        if st0.spills@.len() > 0 {
            assert forall|k: int| 0 <= k < st1.spills@.len()
                implies (#[trigger] st1.spills@[k] matches Value::StackVal(_, s) && s.0 < st1.spill_count) by {
                assert(st1.spills@[k] == st0.spills@[k + 1]);
            }
        }
    }
    assert forall|v: int, slot: usize| #[trigger] spilled_since(&g1, &g0, v, st0.group, slot) implies slot < st1.spill_count by {
        if v == id {
            if st0.spills@.len() > 0 {
                assert(st0.spills@[0] matches Value::StackVal(_, s) && s.0 < st0.spill_count);
            }
        } else {
            assert(g1.intervals@[v].value == g0.intervals@[v].value);
        }
    }
    assert forall|slot: usize| st0.spill_count <= slot < st1.spill_count
        implies #[trigger] slot_taken(&g1, &g0, st0.group, slot) by {
        assert(spilled_since(&g1, &g0, id, st0.group, slot));
    }
}

/// Setting the location of an undecided interval of the state's group to a
/// decided one of that group, with a state that differs at most in its
/// returned stack slots and slot count, is a step.
proof fn lemma_decide_step<K>(g1: Graph<K>, st1: AllocatorState, g0: Graph<K>, st0: AllocatorState, id: int)
    requires
        g0.wf(),
        g0.state_ok(&st0),
        0 <= id < g0.nv(),
        g0.intervals@[id].value == Value::VirtualVal(st0.group),
        g1.evolves(&g0, st0.group),
        g1.nv() == g0.nv(),
        forall|v: int| 0 <= v < g0.nv() && v != id ==> #[trigger] g1.intervals@[v] == g0.intervals@[v],
        g1.intervals@[id].ranges == g0.intervals@[id].ranges,
        g1.intervals@[id].value is RegisterVal ==> holds_register(g1.intervals@[id].value, &st1),
        st1.group == st0.group,
        st1.register_count == st0.register_count,
        st1.unhandled == st0.unhandled,
        st1.active == st0.active,
        st1.inactive == st0.inactive,
        forall|k: int| 0 <= k < st1.spills@.len() ==> #[trigger] st1.spills@[k] is StackVal
            && st1.spills@[k].spec_group() == st1.group,
    ensures
        step(&g1, &st1, &g0, &st0),
{
    assert(g0.state_ok(&st1));
    lemma_state_ok_update(g1, g0, &st1);
}

impl<K: KindHelper> Graph<K> {
    /// Give `current` the register whose next use by another interval is
    /// farthest away (its fixed register when it has a fixed use), and take
    /// that register from the intervals that hold it, splitting `current`
    /// where a fixed interval takes the register again; or, when every
    /// register is needed before `current` needs one, spill `current` and
    /// split it before its first register use. An interval without
    /// register uses is spilled. Fails where `current` needs a register at
    /// its very start and none can be had.
    #[verifier::rlimit(40)]
    pub fn allocate_blocked_reg(&mut self, current: IntervalId, st: &mut AllocatorState) -> (r: Result<(), String>)
        requires
            old(self).wf(),
            current.0 < old(self).nv(),
            old(self).intervals@[current.0 as int].ranges@.len() > 0,
            old(self).intervals@[current.0 as int].value == Value::VirtualVal(old(st).group),
            old(self).state_ok(old(st)),
        ensures
            step(final(self), final(st), old(self), old(st)),
            r is Ok ==> !(final(self).intervals@[current.0 as int].value is VirtualVal),
            r is Ok ==> final(self).intervals@[current.0 as int].value.spec_group() == old(st).group,
            r is Ok && final(self).intervals@[current.0 as int].value is RegisterVal
                ==> holds_register(final(self).intervals@[current.0 as int].value, old(st)),
            r is Ok && first_reg_use(old(self).intervals@[current.0 as int].uses@, 0) is None
                ==> final(self).intervals@[current.0 as int].value is StackVal,
            r is Ok ==> (final(self).intervals@[current.0 as int].value matches Value::RegisterVal(_, reg) ==> {
                &&& first_reg_use(old(self).intervals@[current.0 as int].uses@, 0) matches Some(p)
                    && old(self).use_until(old(st), current, reg) >= p
                &&& no_fixed_use(old(self).intervals@[current.0 as int].uses@) ==> old(self).best_use(old(st), current, reg)
                &&& forall|i: int| #[trigger] is_first_fixed(old(self).intervals@[current.0 as int].uses@, i)
                    ==> reg == fixed_register(old(self).intervals@[current.0 as int].uses@[i].kind)
            }),
            r is Ok && final(self).intervals@[current.0 as int].value is StackVal ==> (first_reg_use(
                old(self).intervals@[current.0 as int].uses@,
                0,
            ) matches Some(p) ==> {
                &&& no_fixed_use(old(self).intervals@[current.0 as int].uses@) ==> forall|r2: usize|
                    r2 < old(st).register_count ==> #[trigger] old(self).use_until(old(st), current, r2) < p
                &&& forall|i: int| #[trigger] is_first_fixed(old(self).intervals@[current.0 as int].uses@, i)
                    ==> old(self).use_until(old(st), current, fixed_register(old(self).intervals@[current.0 as int].uses@[i].kind)) < p
            }),
            spills_below(old(st)) ==> slots_step(final(self), final(st), old(self), old(st)),
            register_only_to(final(self), old(self), current.0 as int),
            first_reg_use(old(self).intervals@[current.0 as int].uses@, 0) is None && old(st).spill_count < usize::MAX
                && !hint_conflict(old(self), current) ==> r is Ok,
            r is Ok && first_reg_use(old(self).intervals@[current.0 as int].uses@, 0) is None
                ==> final(self).nv() == old(self).nv() && final(self).intervals@[current.0 as int].ranges
                    == old(self).intervals@[current.0 as int].ranges,
            blocked_impossible(old(self), old(st), current) ==> r is Err && *final(self) == *old(self) && *final(st) == *old(st),
    {
        let group = st.group;
        let n = st.register_count;
        let ghost g0 = *self;
        let ghost st0 = *st;
        let ghost uses0 = self.intervals@[current.0 as int].uses@;
        proof {
            if spills_below(&st0) {
                lemma_slots_none(g0, st0, g0, st0);
            }
        }
        if st.spill_count == usize::MAX {
            return Err("too many stack slots".to_owned());
        }
        let start = self.intervals[current.0].start();
        let ghost start_i = start.0 as int;
        let hint = self.get_hint(current)?;
        let mut use_pos: Vec<usize> = Vec::new();
        let mut block_pos: Vec<usize> = Vec::new();
        let mut i: usize = 0;
        while i < n
            invariant
                i <= n,
                use_pos@.len() == i,
                block_pos@.len() == i,
                forall|j: int| 0 <= j < i ==> #[trigger] use_pos@[j] == usize::MAX,
                forall|j: int| 0 <= j < i ==> #[trigger] block_pos@[j] == usize::MAX,
            decreases n - i,
        {
            use_pos.push(usize::MAX);
            block_pos.push(usize::MAX);
            i = i + 1;
        }

        let active = self.each_active(st);
        let inter = self.each_intersecting(current, st);
        let ghost act = active_regs(&g0, &st0);
        proof {
            assert forall|k: int| 0 <= k < act.len() implies act[k] == active@[k] by {
                assert(active@[k].0 == st0.active@[k]);
            }
            assert(act =~= active@);
        }

        // Next uses of the intervals that are not fixed
        let mut k: usize = 0;
        while k < active.len()
            invariant
                *self == g0,
                self.wf(),
                use_pos@.len() == n,
                block_pos@.len() == n,
                n == st.register_count,
                k <= active@.len(),
                act == active@,
                start_i == start.0,
                forall|j: int| 0 <= j < active@.len() ==> (#[trigger] active@[j]).1 < n && active@[j].0.0 < self.nv(),
                forall|r: int| 0 <= r < n ==> #[trigger] use_pos@[r] == active_need(&g0, act.take(k as int), start_i, r as usize),
                forall|r: int| 0 <= r < n ==> #[trigger] block_pos@[r] == usize::MAX,
            decreases active.len() - k,
        {
            let id = active[k].0;
            let reg = active[k].1;
            let ghost up = use_pos@;
            proof {
                assert(act.take(k + 1).drop_last() =~= act.take(k as int));
                assert(act.take(k + 1).last() == act[k as int]);
            }
            if !self.intervals[id.0].fixed {
                match self.intervals[id.0].next_use(start) {
                    Some(u) => {
                        if use_pos[reg] > u.pos.0 {
                            use_pos.set(reg, u.pos.0);
                        }
                    },
                    None => {},
                }
            }
            proof {
                assert forall|r: int| 0 <= r < n implies #[trigger] use_pos@[r] == active_need(&g0, act.take(k + 1), start_i, r as usize) by {
                    assert(up[r] == active_need(&g0, act.take(k as int), start_i, r as usize));
                }
            }
            k = k + 1;
        }
        proof {
            assert(act.take(act.len() as int) =~= act);
        }
        let mut k: usize = 0;
        while k < inter.len()
            invariant
                *self == g0,
                self.wf(),
                use_pos@.len() == n,
                block_pos@.len() == n,
                n == st.register_count,
                k <= inter@.len(),
                act == active@,
                start_i == start.0,
                forall|j: int| 0 <= j < inter@.len() ==> (#[trigger] inter@[j]).1 < n && inter@[j].0.0 < self.nv(),
                forall|r: int| 0 <= r < n ==> #[trigger] use_pos@[r] == min_int(
                    active_need(&g0, act, start_i, r as usize),
                    inactive_need(&g0, inter@.take(k as int), start_i, r as usize),
                ),
                forall|r: int| 0 <= r < n ==> #[trigger] block_pos@[r] == usize::MAX,
            decreases inter.len() - k,
        {
            let id = inter[k].0;
            let reg = inter[k].1;
            let ghost up = use_pos@;
            proof {
                assert(inter@.take(k + 1).drop_last() =~= inter@.take(k as int));
                assert(inter@.take(k + 1).last() == inter@[k as int]);
            }
            if !self.intervals[id.0].fixed {
                match self.intervals[id.0].next_use(start) {
                    Some(u) => {
                        if use_pos[reg] > u.pos.0 {
                            use_pos.set(reg, u.pos.0);
                        }
                    },
                    None => {},
                }
            }
            proof {
                assert forall|r: int| 0 <= r < n implies #[trigger] use_pos@[r] == min_int(
                    active_need(&g0, act, start_i, r as usize),
                    inactive_need(&g0, inter@.take(k + 1), start_i, r as usize),
                ) by {
                    assert(up[r] == min_int(
                        active_need(&g0, act, start_i, r as usize),
                        inactive_need(&g0, inter@.take(k as int), start_i, r as usize),
                    ));
                }
            }
            k = k + 1;
        }

        proof {
            assert(inter@.take(inter@.len() as int) =~= inter@);
        }

        // Fixed intervals block their registers
        let mut k: usize = 0;
        while k < active.len()
            invariant
                *self == g0,
                self.wf(),
                use_pos@.len() == n,
                block_pos@.len() == n,
                n == st.register_count,
                k <= active@.len(),
                act == active@,
                start_i == start.0,
                forall|j: int| 0 <= j < active@.len() ==> (#[trigger] active@[j]).1 < n && active@[j].0.0 < self.nv(),
                forall|r: int| 0 <= r < n ==> #[trigger] use_pos@[r] == (if fixed_holds(&g0, act, k as int, r as usize) {
                    0
                } else {
                    min_int(active_need(&g0, act, start_i, r as usize), inactive_need(&g0, inter@, start_i, r as usize))
                }),
                forall|r: int| 0 <= r < n ==> #[trigger] block_pos@[r] == (if fixed_holds(&g0, act, k as int, r as usize) {
                    0
                } else {
                    usize::MAX as int
                }),
            decreases active.len() - k,
        {
            let id = active[k].0;
            let reg = active[k].1;
            let ghost up = use_pos@;
            let ghost bp = block_pos@;
            if self.intervals[id.0].fixed {
                block_pos.set(reg, 0);
                use_pos.set(reg, 0);
            }
            proof {
                assert forall|r: int| 0 <= r < n implies #[trigger] use_pos@[r] == (if fixed_holds(&g0, act, k + 1, r as usize) {
                    0
                } else {
                    min_int(active_need(&g0, act, start_i, r as usize), inactive_need(&g0, inter@, start_i, r as usize))
                }) && block_pos@[r] == (if fixed_holds(&g0, act, k + 1, r as usize) {
                    0
                } else {
                    usize::MAX as int
                }) by {
                    assert(up[r] == (if fixed_holds(&g0, act, k as int, r as usize) {
                        0
                    } else {
                        min_int(active_need(&g0, act, start_i, r as usize), inactive_need(&g0, inter@, start_i, r as usize))
                    }));
                    assert(bp[r] == (if fixed_holds(&g0, act, k as int, r as usize) {
                        0
                    } else {
                        usize::MAX as int
                    }));
                    if fixed_holds(&g0, act, k + 1, r as usize) && !fixed_holds(&g0, act, k as int, r as usize) {
                        let j = choose|j: int| 0 <= j < k + 1 && act[j].1 == r as usize && #[trigger] g0.intervals@[act[j].0.0 as int].fixed;
                        assert(j == k);
                    }
                    if fixed_holds(&g0, act, k as int, r as usize) {
                        let j = choose|j: int| 0 <= j < k && act[j].1 == r as usize && #[trigger] g0.intervals@[act[j].0.0 as int].fixed;
                        assert(fixed_holds(&g0, act, k + 1, r as usize));
                    }
                    if r == reg as int && g0.intervals@[act[k as int].0.0 as int].fixed {
                        assert(fixed_holds(&g0, act, k + 1, r as usize));
                    }
                }
            }
            k = k + 1;
        }
        let mut k: usize = 0;
        while k < inter.len()
            invariant
                *self == g0,
                self.wf(),
                use_pos@.len() == n,
                block_pos@.len() == n,
                n == st.register_count,
                k <= inter@.len(),
                act == active@,
                start_i == start.0,
                forall|j: int| 0 <= j < inter@.len() ==> (#[trigger] inter@[j]).1 < n && inter@[j].0.0 < self.nv(),
                forall|r: int| 0 <= r < n ==> #[trigger] use_pos@[r] == (if fixed_holds(&g0, act, act.len() as int, r as usize) {
                    0
                } else {
                    min_int(
                        active_need(&g0, act, start_i, r as usize),
                        min_int(inactive_need(&g0, inter@, start_i, r as usize), fixed_meet(&g0, inter@.take(k as int), r as usize)),
                    )
                }),
                forall|r: int| 0 <= r < n ==> #[trigger] block_pos@[r] == (match last_fixed_meet(&g0, inter@.take(k as int), r as usize) {
                    Some(p) => p,
                    None => if fixed_holds(&g0, act, act.len() as int, r as usize) {
                        0
                    } else {
                        usize::MAX as int
                    },
                }),
            decreases inter.len() - k,
        {
            let id = inter[k].0;
            let reg = inter[k].1;
            let pos = inter[k].2;
            let ghost up = use_pos@;
            let ghost bp = block_pos@;
            proof {
                assert(inter@.take(k + 1).drop_last() =~= inter@.take(k as int));
                assert(inter@.take(k + 1).last() == inter@[k as int]);
            }
            if self.intervals[id.0].fixed {
                block_pos.set(reg, pos.0);
                if use_pos[reg] > pos.0 {
                    use_pos.set(reg, pos.0);
                }
            }
            proof {
                assert forall|r: int| 0 <= r < n implies #[trigger] use_pos@[r] == (if fixed_holds(&g0, act, act.len() as int, r as usize) {
                    0
                } else {
                    min_int(
                        active_need(&g0, act, start_i, r as usize),
                        min_int(inactive_need(&g0, inter@, start_i, r as usize), fixed_meet(&g0, inter@.take(k + 1), r as usize)),
                    )
                }) && block_pos@[r] == (match last_fixed_meet(&g0, inter@.take(k + 1), r as usize) {
                    Some(p) => p,
                    None => if fixed_holds(&g0, act, act.len() as int, r as usize) {
                        0
                    } else {
                        usize::MAX as int
                    },
                }) by {
                    assert(up[r] == (if fixed_holds(&g0, act, act.len() as int, r as usize) {
                        0
                    } else {
                        min_int(
                            active_need(&g0, act, start_i, r as usize),
                            min_int(inactive_need(&g0, inter@, start_i, r as usize), fixed_meet(&g0, inter@.take(k as int), r as usize)),
                        )
                    }));
                    assert(bp[r] == (match last_fixed_meet(&g0, inter@.take(k as int), r as usize) {
                        Some(p) => p,
                        None => if fixed_holds(&g0, act, act.len() as int, r as usize) {
                            0
                        } else {
                            usize::MAX as int
                        },
                    }));
                }
            }
            k = k + 1;
        }
        proof {
            assert(inter@.take(inter@.len() as int) =~= inter@);
            assert forall|r: usize| r < n implies #[trigger] use_pos@[r as int] == g0.use_until(&st0, current, r)
                && block_pos@[r as int] == g0.block_until(&st0, current, r) by {}
        }

        // The register whose next use is farthest away
        let ghost mut fixed_i: int = -1;
        let (reg, max_pos) = match self.intervals[current.0].next_fixed_use(InstrId(0)) {
            Some(u) => match u.kind {
                UseKind::UseFixed(_, r) => {
                    if r >= n {
                        proof {
                            let i0 = choose|i0: int| 0 <= i0 < uses0.len() && uses0[i0] == u
                                && fixed_after(u, 0)
                                && forall|j: int| 0 <= j < i0 ==> !fixed_after(#[trigger] uses0[j], 0);
                            lemma_first_reg_use_some(uses0, 0, i0);
                        }
                        return Err("fixed register out of range".to_owned());
                    }
                    proof {
                        let i0 = choose|i0: int| 0 <= i0 < uses0.len() && uses0[i0] == u
                            && fixed_after(u, 0)
                            && forall|j: int| 0 <= j < i0 ==> !fixed_after(#[trigger] uses0[j], 0);
                        assert(uses0[i0].kind is UseFixed);
                        assert forall|i: int| #[trigger] is_first_fixed(uses0, i) implies r == fixed_register(uses0[i].kind) by {
                            if i < i0 {
                                assert(fixed_after(uses0[i], 0));
                            } else if i > i0 {
                                assert(!(uses0[i0].kind is UseFixed));
                            }
                        }
                        assert(!no_fixed_use(uses0));
                        assert forall|j: int| 0 <= j < i0 implies !((#[trigger] uses0[j]).kind is UseFixed) by {
                            assert(!fixed_after(uses0[j], 0));
                        }
                        assert(is_first_fixed(uses0, i0));
                        fixed_i = i0;
                    }
                    (r, use_pos[r])
                },
                _ => {
                    return Err("fixed use expected".to_owned());
                },
            },
            None => {
                let (rg, mp) = choose_register(&use_pos, hint);
                proof {
                    assert forall|i: int| 0 <= i < uses0.len() implies !((#[trigger] uses0[i]).kind is UseFixed) by {
                        assert(!fixed_after(uses0[i], 0));
                    }
                    assert forall|r2: usize| r2 < n implies #[trigger] g0.use_until(&st0, current, r2) <= mp by {
                        assert(use_pos@[r2 as int] <= mp);
                    }
                    if n > 0 {
                        assert(hint == g0.spec_hint(current));
                        assert(g0.use_until(&st0, current, rg) == mp);
                        let hinted = g0.spec_hint(current) matches Some(h) && h < n
                            && g0.use_until(&st0, current, h) == mp;
                        if !hinted {
                            assert forall|r2: usize| r2 < rg implies #[trigger] g0.use_until(&st0, current, r2) < mp by {
                                assert(use_pos@[r2 as int] < mp);
                            }
                        }
                        assert(g0.best_use(&st0, current, rg));
                    }
                }
                (rg, mp)
            },
        };
        proof {
            assert(no_fixed_use(uses0) ==> forall|r2: usize| r2 < n ==> #[trigger] g0.use_until(&st0, current, r2) <= max_pos);
            assert(forall|i: int| #[trigger] is_first_fixed(uses0, i) ==> reg == fixed_register(uses0[i].kind));
            assert(reg < n ==> g0.use_until(&st0, current, reg) == max_pos);
            assert(fixed_i >= 0 ==> is_first_fixed(uses0, fixed_i));
            assert(fixed_i < 0 ==> no_fixed_use(uses0));
        }

        match self.intervals[current.0].next_use(InstrId(0)) {
            Some(u) => {
                if max_pos < u.pos.0 {
                    if u.pos.0 == start.0 {
                        return Err("Incorrect input, allocation impossible".to_owned());
                    }
                    // Spill current itself, and split it before its first
                    // register use
                    let s = st.get_spill();
                    self.set_value(current, s);
                    let ghost g1 = *self;
                    let ghost st1 = *st;
                    proof {
                        lemma_decide_step(g1, st1, g0, st0, current.0 as int);
                        if spills_below(&st0) {
                            lemma_slots_spill(g1, st1, g0, st0, current.0 as int);
                        }
                    }
                    self.split(current, SplitConf::Between(start, u.pos), st)?;
                    proof {
                        lemma_step_trans(*self, *st, g1, st1, g0, st0);
                        if spills_below(&st0) {
                            lemma_slots_none(*self, *st, g1, st1);
                            lemma_slots_trans(*self, *st, g1, st1, g0, st0);
                        }
                        assert(self.intervals@[current.0 as int].value == g1.intervals@[current.0 as int].value);
                        assert forall|i: int| #[trigger] is_first_fixed(uses0, i)
                            implies g0.use_until(&st0, current, fixed_register(uses0[i].kind)) < u.pos.0 by {}
                    }
                } else {
                    if reg >= n {
                        return Err("no register to take".to_owned());
                    }
                    proof {
                        if blocked_impossible(&g0, &st0, current) {
                            if fixed_i >= 0 {
                                assert(reg == fixed_register(uses0[fixed_i].kind));
                            } else {
                                assert(g0.use_until(&st0, current, reg) < start_i);
                            }
                        }
                    }
                    // Assign the register to current
                    self.set_value(current, Value::RegisterVal(group, reg));
                    let ghost g1 = *self;
                    let ghost st1 = *st;
                    proof {
                        lemma_decide_step(g1, st1, g0, st0, current.0 as int);
                        if spills_below(&st0) {
                            lemma_slots_register(g1, g0, st0, current.0 as int);
                        }
                    }
                    // Split it where a fixed interval takes the register
                    if block_pos[reg] <= self.intervals[current.0].end().0 {
                        self.split(current, SplitConf::Between(start, InstrId(block_pos[reg])), st)?;
                        proof {
                            lemma_step_trans(*self, *st, g1, st1, g0, st0);
                            if spills_below(&st0) {
                                lemma_slots_none(*self, *st, g1, st1);
                                lemma_slots_trans(*self, *st, g1, st1, g0, st0);
                            }
                        }
                    }
                    let ghost g2 = *self;
                    let ghost st2 = *st;
                    assert(g2.intervals@[current.0 as int].value == Value::RegisterVal(group, reg));
                    // Take the register from the intervals that hold it
                    let res = self.split_and_spill(current, st);
                    proof {
                        lemma_step_trans(*self, *st, g2, st2, g0, st0);
                        if spills_below(&st0) {
                            assert(slots_step(&g2, &st2, &g0, &st0));
                            lemma_slots_trans(*self, *st, g2, st2, g0, st0);
                        }
                    }
                    res?;
                    proof {
                        assert(self.intervals@[current.0 as int].value == Value::RegisterVal(group, reg));
                    }
                }
            },
            None => {
                // Spill current, it has no register uses
                let s = st.get_spill();
                self.set_value(current, s);
                proof {
                    lemma_decide_step(*self, *st, g0, st0, current.0 as int);
                    if spills_below(&st0) {
                        lemma_slots_spill(*self, *st, g0, st0, current.0 as int);
                    }
                }
            },
        }
        Ok(())
    }
}

} // verus!

verus! {

impl<K: KindHelper> Graph<K> {
    /// Walk the intervals of `group` that have ranges in the order of their
    /// start positions, giving each undecided one a register or a stack
    /// slot. Fixed intervals hold their registers from the start. On
    /// success no interval of the group with ranges is left undecided.
    pub fn walk_intervals(&mut self, group: usize, config: &Config) -> (r: Result<GroupResult, String>)
        requires
            old(self).wf(),
            group < config.register_groups@.len(),
        ensures
            final(self).evolves(old(self), group),
            r is Ok ==> forall|v: int| 0 <= v < final(self).nv()
                && (#[trigger] final(self).intervals@[v]).value.spec_group() == group
                && final(self).intervals@[v].ranges@.len() > 0
                ==> !(final(self).intervals@[v].value is VirtualVal),
            r matches Ok(res) ==> forall|v: int, slot: usize| #[trigger] spilled_since(final(self), old(self), v, group, slot)
                ==> slot < res.spill_count,
            r matches Ok(res) ==> forall|slot: usize| slot < res.spill_count
                ==> #[trigger] slot_taken(final(self), old(self), group, slot),
            r is Ok ==> forall|v: int| 0 <= v < final(self).nv() && (v >= old(self).nv() || old(self).intervals@[v].value is VirtualVal)
                ==> ((#[trigger] final(self).intervals@[v]).value matches Value::RegisterVal(g, reg)
                ==> g == group && reg < config.register_groups@[group as int]),
            fixed_malformed(old(self), group, config.register_groups@[group as int]) ==> r is Err,
            !fixed_malformed(old(self), group, config.register_groups@[group as int]) && nothing_to_walk(old(self), group)
                ==> r is Ok,
    {
        let ghost g0 = *self;
        let reg_count = config.register_groups[group];
        let mut st = AllocatorState {
            group,
            register_count: reg_count,
            spill_count: 0,
            spills: Vec::new(),
            unhandled: Vec::new(),
            active: Vec::new(),
            inactive: Vec::new(),
        };

        // Work with the intervals that have ranges: fixed ones hold their
        // registers, the others wait in start order
        let nv = self.intervals.len();
        let mut v: usize = 0;
        while v < nv
            invariant
                *self == g0,
                self.wf(),
                nv == self.nv(),
                v <= nv,
                st.group == group,
                st.register_count == reg_count,
                st.spill_count == 0,
                st.spills@.len() == 0,
                self.state_ok(&st),
                forall|w: int| 0 <= w < v && (#[trigger] self.intervals@[w]).value is VirtualVal
                    && self.intervals@[w].value.spec_group() == group && self.intervals@[w].ranges@.len() > 0
                    ==> st.unhandled@.contains(IntervalId(w as usize)),
                g0 == *old(self),
                reg_count == config.register_groups@[group as int],
                forall|w: int| 0 <= w < v && (#[trigger] g0.intervals@[w]).fixed
                    && g0.intervals@[w].value.spec_group() == group && g0.intervals@[w].ranges@.len() > 0
                    ==> (g0.intervals@[w].value matches Value::RegisterVal(_, r) && r < reg_count),
                nothing_to_walk(&g0, group) ==> st.unhandled@.len() == 0,
            decreases nv - v,
        {
            let value = self.intervals[v].value;
            if value.group() == group && self.intervals[v].ranges.len() > 0 {
                if self.intervals[v].fixed {
                    match value {
                        Value::RegisterVal(_, r) => {
                            if r >= reg_count {
                                assert(!(g0.intervals@[v as int].value matches Value::RegisterVal(_, r2) && r2 < reg_count));
                                assert(fixed_malformed(&g0, group, reg_count));
                                return Err("fixed interval outside of the register group".to_owned());
                            }
                            st.active.push(IntervalId(v));
                        },
                        _ => {
                            assert(fixed_malformed(&g0, group, reg_count));
                            return Err("fixed interval without a register".to_owned());
                        },
                    }
                } else {
                    let ghost u0 = st.unhandled@;
                    assert(!nothing_to_walk(&g0, group));
                    self.insert_sorted(&mut st.unhandled, IntervalId(v));
                    assert forall|w: int| 0 <= w <= v && (#[trigger] self.intervals@[w]).value is VirtualVal
                        && self.intervals@[w].value.spec_group() == group && self.intervals@[w].ranges@.len() > 0
                        implies st.unhandled@.contains(IntervalId(w as usize)) by {
                        if w < v {
                            assert(u0.contains(IntervalId(w as usize)));
                        }
                    }
                }
            }
            v = v + 1;
        }
        assert(self.handles_all_except(&st, -1));
        let ghost st_init = st;
        proof {
            lemma_slots_none(*self, st, g0, st_init);
        }

        let mut fuel: usize = usize::MAX;
        while st.unhandled.len() > 0
            invariant
                self.evolves(&g0, group),
                st.group == group,
                st.register_count == reg_count,
                self.state_ok(&st),
                self.handles_all_except(&st, -1),
                g0 == *old(self),
                st_init.group == group,
                st_init.spill_count == 0,
                slots_step(self, &st, &g0, &st_init),
                reg_count == config.register_groups@[group as int],
                forall|v: int| 0 <= v < self.nv() && (v >= g0.nv() || g0.intervals@[v].value is VirtualVal)
                    ==> ((#[trigger] self.intervals@[v]).value matches Value::RegisterVal(g, reg) ==> g == group && reg < reg_count),
                !fixed_malformed(&g0, group, reg_count),
                nothing_to_walk(&g0, group) ==> st.unhandled@.len() == 0,
            decreases fuel,
        {
            if fuel == 0 {
                return Err("allocation does not come to an end".to_owned());
            }
            fuel = fuel - 1;
            let ghost gi = *self;
            let ghost sc0 = st.spill_count;
            let ghost sp0 = st.spills;
            let ghost before = st.unhandled@;
            let current = st.unhandled.remove(0);
            let ghost u0 = st.unhandled@;
            proof {
                assert(current == before[0]);
                assert(current.0 < self.nv() && self.intervals@[current.0 as int].ranges@.len() > 0);
                assert forall|k: int| 0 <= k < st.unhandled@.len() implies (#[trigger] st.unhandled@[k]).0 < self.nv()
                    && self.intervals@[st.unhandled@[k].0 as int].ranges@.len() > 0 by {
                    assert(st.unhandled@[k] == before[k + 1]);
                }
                assert forall|v: int| 0 <= v < self.nv() && v != current.0 && (#[trigger] self.intervals@[v]).value is VirtualVal
                    && self.intervals@[v].value.spec_group() == group && self.intervals@[v].ranges@.len() > 0
                    implies u0.contains(IntervalId(v as usize)) by {
                    assert(before.contains(IntervalId(v as usize)));
                    let kk = choose|kk: int| 0 <= kk < before.len() && before[kk] == IntervalId(v as usize);
                    assert(kk != 0);
                    assert(u0[kk - 1] == before[kk]);
                }
            }
            let position = self.intervals[current.0].start();

            // Active intervals that no longer cover the position become
            // inactive or handled
            let mut handled: Vec<Value> = Vec::new();
            let mut still_active: Vec<IntervalId> = Vec::new();
            let mut k: usize = 0;
            while k < st.active.len()
                invariant
                    *self == gi,
                    self.wf(),
                    st.group == group,
                    st.register_count == reg_count,
                    st.unhandled@ == u0,
                    st.spill_count == sc0,
                    st.spills@ == sp0@,
                    self.state_ok(&st),
                    k <= st.active@.len(),
                    forall|j: int| 0 <= j < still_active@.len() ==> (#[trigger] still_active@[j]).0 < self.nv()
                        && self.intervals@[still_active@[j].0 as int].ranges@.len() > 0
                        && holds_register(self.intervals@[still_active@[j].0 as int].value, &st),
                    forall|j: int| 0 <= j < handled@.len() ==> (#[trigger] handled@[j]) is RegisterVal,
                decreases st.active.len() - k,
            {
                let id = st.active[k];
                if self.intervals[id.0].covers(position) {
                    still_active.push(id);
                } else {
                    if position.0 <= self.intervals[id.0].end().0 {
                        st.inactive.push(id);
                    }
                    handled.push(self.intervals[id.0].value);
                }
                k = k + 1;
            }
            st.active = still_active;

            // Inactive intervals that cover the position become active again,
            // those that ended are handled
            let mut still_inactive: Vec<IntervalId> = Vec::new();
            let mut k: usize = 0;
            while k < st.inactive.len()
                invariant
                    *self == gi,
                    self.wf(),
                    st.group == group,
                    st.register_count == reg_count,
                    st.unhandled@ == u0,
                    st.spill_count == sc0,
                    st.spills@ == sp0@,
                    self.state_ok(&st),
                    k <= st.inactive@.len(),
                    forall|j: int| 0 <= j < still_inactive@.len() ==> (#[trigger] still_inactive@[j]).0 < self.nv()
                        && self.intervals@[still_inactive@[j].0 as int].ranges@.len() > 0
                        && holds_register(self.intervals@[still_inactive@[j].0 as int].value, &st),
                    forall|j: int| 0 <= j < handled@.len() ==> (#[trigger] handled@[j]) is RegisterVal,
                decreases st.inactive.len() - k,
            {
                let id = st.inactive[k];
                if self.intervals[id.0].covers(position) {
                    st.active.push(id);
                    handled.push(self.intervals[id.0].value);
                } else if position.0 < self.intervals[id.0].end().0 {
                    still_inactive.push(id);
                }
                k = k + 1;
            }
            st.inactive = still_inactive;

            // Return the stack slots of handled intervals
            let mut k: usize = 0;
            while k < handled.len()
                invariant
                    *self == gi,
                    self.wf(),
                    st.group == group,
                    st.register_count == reg_count,
                    st.unhandled@ == u0,
                    st.spill_count == sc0,
                    st.spills@ == sp0@,
                    self.state_ok(&st),
                    k <= handled@.len(),
                    forall|j: int| 0 <= j < handled@.len() ==> (#[trigger] handled@[j]) is RegisterVal,
                decreases handled.len() - k,
            {
                st.to_handled(handled[k]);
                k = k + 1;
            }
            proof {
                assert(self.handles_all_except(&st, current.0 as int));
            }

            // Only undecided intervals need a location
            let ghost gb = *self;
            let ghost stb = st;
            proof {
                assert(slots_step(&gb, &stb, &g0, &st_init));
            }
            if self.intervals[current.0].value.is_virtual() {
                if self.intervals[current.0].value.group() != group {
                    return Err("interval of another group among the unhandled ones".to_owned());
                }
                // A free register, or else one taken from other intervals
                let res = self.allocate_free_reg(current, &mut st);
                proof {
                    lemma_evolves_trans(*self, gb, g0, group);
                    lemma_slots_trans(*self, st, gb, stb, g0, st_init);
                }
                let ghost gf = *self;
                let ghost stf = st;
                let done = match res {
                    Ok(d) => d,
                    Err(e) => {
                        return Err(e);
                    },
                };
                if !done {
                    let res = self.allocate_blocked_reg(current, &mut st);
                    proof {
                        lemma_evolves_trans(*self, gb, g0, group);
                        lemma_evolves_trans(gf, gb, g0, group);
                        lemma_slots_trans(*self, st, gf, stf, g0, st_init);
                    }
                    if let Err(e) = res {
                        return Err(e);
                    }
                }
                proof {
                    lemma_handles_evolves(*self, gb, &st, &stb, current.0 as int);
                    if !done {
                        lemma_register_only_trans(*self, gf, gb, current.0 as int, group);
                    }
                }
            }
            proof {
                assert(register_only_to(&*self, &gb, current.0 as int));
                lemma_evolves_trans(*self, gb, g0, group);
                assert(interval_evolves(gb.intervals@[current.0 as int], self.intervals@[current.0 as int], group));
                assert(!(self.intervals@[current.0 as int].value is VirtualVal));
                assert(self.handles_all_except(&st, -1));
            }

            // An interval with a register becomes active
            match self.intervals[current.0].value {
                Value::RegisterVal(g, r) => {
                    if g != group || r >= reg_count {
                        return Err("register outside of the group".to_owned());
                    }
                    st.active.push(current);
                },
                _ => {},
            }
            proof {
                assert forall|v: int| 0 <= v < self.nv() && (v >= g0.nv() || g0.intervals@[v].value is VirtualVal)
                    implies ((#[trigger] self.intervals@[v]).value matches Value::RegisterVal(g, reg) ==> g == group && reg < reg_count) by {
                    if self.intervals@[v].value is RegisterVal && v != current.0 {
                        assert(v < gb.nv() && !(gb.intervals@[v].value is VirtualVal));
                        assert(interval_evolves(gb.intervals@[v], self.intervals@[v], group));
                        assert(gb.intervals@[v].value == self.intervals@[v].value);
                    }
                }
            }
        }
        Ok(GroupResult { spill_count: st.spill_count })
    }
}

} // verus!

verus! {

impl<K> Graph<K> {
    /// `a` and `b` belong to the split family of one interval.
    pub open spec fn related(&self, a: IntervalId, b: IntervalId) -> bool {
        exists|p: IntervalId| p.0 < self.nv() && #[trigger] self.family(p).contains(a) && self.family(p).contains(b)
    }

    /// A move between two different parts of one split value.
    pub open spec fn flow_move(&self, x: GapAction) -> bool {
        &&& x.kind is Move
        &&& x.from != x.to
        &&& self.related(x.from, x.to)
    }

    /// The gap actions of `self` are those of `g0` followed, at each
    /// position, by moves between parts of split values.
    pub open spec fn gaps_extend(&self, g0: &Graph<K>) -> bool {
        forall|p: int| #![trigger self.gap_actions(p)] {
            &&& g0.gap_actions(p).len() <= self.gap_actions(p).len()
            &&& self.gap_actions(p).subrange(0, g0.gap_actions(p).len() as int) == g0.gap_actions(p)
            &&& forall|k: int| g0.gap_actions(p).len() <= k < self.gap_actions(p).len()
                ==> self.flow_move(#[trigger] self.gap_actions(p)[k])
        }
    }
}

/// `c` is the first member of the family of `parent` whose ranges span
/// `pos`.
pub open spec fn first_member<K>(g: &Graph<K>, parent: IntervalId, pos: int, c: IntervalId) -> bool {
    let fam = g.family(parent);
    exists|k: int| 0 <= k < fam.len() && fam[k] == c && g.intervals@[c.0 as int].spans(pos)
        && forall|j: int| 0 <= j < k ==> !g.intervals@[(#[trigger] fam[j]).0 as int].spans(pos)
}

/// Along edge `s` of block `b`, value `x` (live into the target) is joined:
/// where the part of its family at the end of `b` differs from the part
/// at the start of the target, the move between them is recorded at the
/// target's start when `b` has two successors, else at the end of `b`.
pub open spec fn flow_resolved<K>(g: &Graph<K>, b: int, s: int, x: int) -> bool {
    let succ = g.blocks@[b].successors@[s].0 as int;
    let end = g.blocks@[b].instructions@.last().0 as int;
    let start = g.blocks@[succ].instructions@[0].0 as int;
    let parent = crate::split::family_root(g.intervals@[x], IntervalId(x as usize));
    let gap_pos = if g.blocks@[b].successors@.len() == 2 { start } else { end };
    forall|f: IntervalId, t: IntervalId| #[trigger] first_member(g, parent, end, f) && #[trigger] first_member(g, parent, start, t)
        && f != t ==> g.gap_actions(gap_pos).contains(GapAction { kind: GapActionKind::Move, from: f, to: t })
}

/// Value `x`, live into successor `s` of block `b`, cannot be joined along
/// that edge: its family has no part at the end of `b`, or none at the
/// start of the successor, or the two parts differ and the move would have
/// to go at the last position.
pub open spec fn value_refused<K>(g: &Graph<K>, b: int, s: int, x: int) -> bool {
    let succ = g.blocks@[b].successors@[s].0 as int;
    let end = g.blocks@[b].instructions@.last().0 as int;
    let start = g.blocks@[succ].instructions@[0].0 as int;
    let parent = crate::split::family_root(g.intervals@[x], IntervalId(x as usize));
    let gap_pos = if g.blocks@[b].successors@.len() == 2 { start } else { end };
    ||| !(exists|c: IntervalId| #[trigger] first_member(g, parent, end, c))
    ||| !(exists|c: IntervalId| #[trigger] first_member(g, parent, start, c))
    ||| (gap_pos == usize::MAX && exists|f: IntervalId, t: IntervalId| #[trigger] first_member(g, parent, end, f)
        && #[trigger] first_member(g, parent, start, t) && f != t)
}

/// Edge `s` of block `b` cannot be joined: its target has no instruction,
/// or some value live into it cannot be joined.
pub open spec fn succ_refused<K>(g: &Graph<K>, b: int, s: int) -> bool {
    let succ = g.blocks@[b].successors@[s].0 as int;
    ||| g.blocks@[succ].instructions@.len() == 0
    ||| exists|x: int| g.blocks@[succ].live_in.has(x) && #[trigger] value_refused(g, b, s, x)
}

/// The edges of block `b` cannot be joined: it is unknown or empty, or one
/// of its edges cannot be joined.
pub open spec fn block_flow_refused<K>(g: &Graph<K>, b: int) -> bool {
    ||| b >= g.nb()
    ||| g.blocks@[b].instructions@.len() == 0
    ||| exists|s: int| 0 <= s < g.blocks@[b].successors@.len() && #[trigger] succ_refused(g, b, s)
}

/// Moving `f` to `t` at `p` joins value `x` along edge `s` of block `b`:
/// `x` is live into the target, `f` and `t` are the different parts of its
/// family at the end of `b` and at the start of the target, and `p` is
/// where that edge's moves go.
pub open spec fn join_at<K>(g: &Graph<K>, b: int, s: int, x: int, f: IntervalId, t: IntervalId, p: int) -> bool {
    let succ = g.blocks@[b].successors@[s].0 as int;
    let end = g.blocks@[b].instructions@.last().0 as int;
    let start = g.blocks@[succ].instructions@[0].0 as int;
    let parent = crate::split::family_root(g.intervals@[x], IntervalId(x as usize));
    &&& g.blocks@[succ].live_in.has(x)
    &&& first_member(g, parent, end, f)
    &&& first_member(g, parent, start, t)
    &&& f != t
    &&& p == if g.blocks@[b].successors@.len() == 2 { start } else { end }
}

/// Action `a` at `p` is the move that joins some value along some edge of
/// a block of `list`.
pub open spec fn join_move<K>(g: &Graph<K>, list: Seq<BlockId>, a: GapAction, p: int) -> bool {
    exists|i: int, s: int, x: int, f: IntervalId, t: IntervalId| 0 <= i < list.len()
        && 0 <= s < g.blocks@[list[i].0 as int].successors@.len()
        && #[trigger] join_at(g, list[i].0 as int, s, x, f, t, p)
        && a == (GapAction { kind: GapActionKind::Move, from: f, to: t })
}

/// The edges of some block of `list` cannot be joined.
pub open spec fn flow_refused<K>(g: &Graph<K>, list: Seq<BlockId>) -> bool {
    exists|i: int| 0 <= i < list.len() && #[trigger] block_flow_refused(g, list[i].0 as int)
}

/// Keeping blocks and intervals, and only adding gap actions after those
/// there were, keeps every edge joined.
proof fn lemma_flow_resolved_grow<K>(g1: Graph<K>, g0: Graph<K>, b: int, s: int, x: int)
    requires
        flow_resolved(&g0, b, s, x),
        g1.blocks@ == g0.blocks@,
        g1.intervals@ == g0.intervals@,
        forall|p: int| #![trigger g1.gap_actions(p)] g0.gap_actions(p).len() <= g1.gap_actions(p).len()
            && g1.gap_actions(p).subrange(0, g0.gap_actions(p).len() as int) == g0.gap_actions(p),
    ensures
        flow_resolved(&g1, b, s, x),
{
    let succ = g0.blocks@[b].successors@[s].0 as int;
    let end = g0.blocks@[b].instructions@.last().0 as int;
    let start = g0.blocks@[succ].instructions@[0].0 as int;
    let parent = crate::split::family_root(g0.intervals@[x], IntervalId(x as usize));
    let gap_pos = if g0.blocks@[b].successors@.len() == 2 { start } else { end };
    assert forall|f: IntervalId, t: IntervalId| #[trigger] first_member(&g1, parent, end, f) && #[trigger] first_member(&g1, parent, start, t)
        && f != t implies g1.gap_actions(gap_pos).contains(GapAction { kind: GapActionKind::Move, from: f, to: t }) by {
        assert(g1.family(parent) == g0.family(parent));
        assert(first_member(&g0, parent, end, f));
        assert(first_member(&g0, parent, start, t));
        let a0 = g0.gap_actions(gap_pos);
        let a1 = g1.gap_actions(gap_pos);
        let act = GapAction { kind: GapActionKind::Move, from: f, to: t };
        assert(a0.contains(act));
        let k = choose|k: int| 0 <= k < a0.len() && a0[k] == act;
        assert(a1.subrange(0, a0.len() as int)[k] == a1[k]);
    }
}

proof fn lemma_all_resolved_grow<K>(g1: Graph<K>, g0: Graph<K>)
    requires
        g1.blocks@ == g0.blocks@,
        g1.intervals@ == g0.intervals@,
        forall|p: int| #![trigger g1.gap_actions(p)] g0.gap_actions(p).len() <= g1.gap_actions(p).len()
            && g1.gap_actions(p).subrange(0, g0.gap_actions(p).len() as int) == g0.gap_actions(p),
    ensures
        forall|b: int, s: int, x: int| #[trigger] flow_resolved(&g0, b, s, x) ==> flow_resolved(&g1, b, s, x),
{
    assert forall|b: int, s: int, x: int| #[trigger] flow_resolved(&g0, b, s, x) implies flow_resolved(&g1, b, s, x) by {
        lemma_flow_resolved_grow(g1, g0, b, s, x);
    }
}

proof fn lemma_first_member_unique<K>(g: &Graph<K>, parent: IntervalId, pos: int, c1: IntervalId, c2: IntervalId)
    requires
        first_member(g, parent, pos, c1),
        first_member(g, parent, pos, c2),
    ensures
        c1 == c2,
{
    let fam = g.family(parent);
    let k1 = choose|k: int| 0 <= k < fam.len() && fam[k] == c1 && g.intervals@[c1.0 as int].spans(pos)
        && forall|j: int| 0 <= j < k ==> !g.intervals@[(#[trigger] fam[j]).0 as int].spans(pos);
    let k2 = choose|k: int| 0 <= k < fam.len() && fam[k] == c2 && g.intervals@[c2.0 as int].spans(pos)
        && forall|j: int| 0 <= j < k ==> !g.intervals@[(#[trigger] fam[j]).0 as int].spans(pos);
    if k1 < k2 {
        assert(!g.intervals@[fam[k1].0 as int].spans(pos));
    } else if k2 < k1 {
        assert(!g.intervals@[fam[k2].0 as int].spans(pos));
    }
}

pub proof fn lemma_flow_move_same<K>(g1: Graph<K>, g0: Graph<K>, x: GapAction)
    requires
        g1.intervals@ == g0.intervals@,
        g0.flow_move(x),
    ensures
        g1.flow_move(x),
{
    let p = choose|p: IntervalId| p.0 < g0.nv() && #[trigger] g0.family(p).contains(x.from) && g0.family(p).contains(x.to);
    assert(g1.family(p) == g0.family(p));
}

impl<K: KindHelper> Graph<K> {
    /// Record a move from `from` to `to` at position `pos`.
    fn add_gap_move(&mut self, pos: InstrId, from: IntervalId, to: IntervalId)
        requires
            old(self).wf(),
            pos.0 < usize::MAX,
            from.0 < old(self).nv(),
            to.0 < old(self).nv(),
        ensures
            final(self).wf(),
            final(self).frame_unchanged(old(self)),
            final(self).intervals@ == old(self).intervals@,
            final(self).interval_id == old(self).interval_id,
            final(self).gap_actions(pos.0 as int) == old(self).gap_actions(pos.0 as int).push(
                GapAction { kind: GapActionKind::Move, from, to },
            ),
            forall|p: int| p != pos.0 ==> #[trigger] final(self).gap_actions(p) == old(self).gap_actions(p),
    {
        let ghost g0 = *self;
        self.get_mut_gap(&pos).add_move(&from, &to);
        proof {
            assert forall|p: int| p != pos.0 implies #[trigger] self.gap_actions(p) == g0.gap_actions(p) by {
                if 0 <= p < self.gaps@.len() {
                } else {
                }
            }
            assert forall|p: int| 0 <= p < self.gaps@.len() implies crate::graph::gap_ok(#[trigger] self.gaps@[p], self.nv()) by {
                assert(self.gaps@[p].actions@ == self.gap_actions(p));
                if p < g0.gaps@.len() {
                    assert(crate::graph::gap_ok(g0.gaps@[p], g0.nv()));
                    assert(g0.gaps@[p].actions@ == g0.gap_actions(p));
                }
            }
        }
    }

    /// Add moves on the edges between blocks: for each block of `list`, for
    /// each of its successors and each value live at the successor's start,
    /// a move from the part of the value that holds it at the block's end to
    /// the part that holds it at the successor's start, where these differ.
    /// The move goes to the successor's start when the block branches, to
    /// the block's end otherwise.
    #[verifier::rlimit(80)]
    pub fn resolve_data_flow(&mut self, list: &Vec<BlockId>) -> (r: Result<(), String>)
        requires
            old(self).wf(),
        ensures
            final(self).wf(),
            final(self).frame_unchanged(old(self)),
            final(self).intervals@ == old(self).intervals@,
            final(self).interval_id == old(self).interval_id,
            final(self).gaps_extend(old(self)),
            r is Err <==> flow_refused(old(self), list@),
            forall|p: int, k: int| old(self).gap_actions(p).len() <= k < final(self).gap_actions(p).len()
                ==> #[trigger] join_move(old(self), list@, final(self).gap_actions(p)[k], p),
            r is Ok ==> forall|i: int, s: int, x: int| 0 <= i < list@.len()
                && 0 <= s < final(self).blocks@[list@[i].0 as int].successors@.len()
                && final(self).blocks@[(final(self).blocks@[list@[i].0 as int].successors@[s]).0 as int].live_in.has(x)
                ==> #[trigger] flow_resolved(final(self), list@[i].0 as int, s, x),
    {
        let ghost g0 = *self;
        assert forall|p: int| #![trigger g0.gap_actions(p)]
            g0.gap_actions(p).subrange(0, g0.gap_actions(p).len() as int) == g0.gap_actions(p) by {
            assert(g0.gap_actions(p).subrange(0, g0.gap_actions(p).len() as int) =~= g0.gap_actions(p));
        }
        let mut bi: usize = 0;
        while bi < list.len()
            invariant
                bi <= list@.len(),
                g0 == *old(self),
                self.wf(),
                self.frame_unchanged(&g0),
                self.intervals@ == g0.intervals@,
                self.interval_id == g0.interval_id,
                self.gaps_extend(&g0),
                forall|i: int, s: int, x: int| 0 <= i < bi
                    && 0 <= s < g0.blocks@[list@[i].0 as int].successors@.len()
                    && g0.blocks@[(g0.blocks@[list@[i].0 as int].successors@[s]).0 as int].live_in.has(x)
                    ==> #[trigger] flow_resolved(self, list@[i].0 as int, s, x),
                forall|i: int| 0 <= i < bi ==> !#[trigger] block_flow_refused(&g0, list@[i].0 as int),
                forall|p: int, k: int| g0.gap_actions(p).len() <= k < self.gap_actions(p).len()
                    ==> #[trigger] join_move(&g0, list@, self.gap_actions(p)[k], p),
            decreases list.len() - bi,
        {
            let block_id = list[bi];
            if block_id.0 >= self.blocks.len() {
                assert(block_flow_refused(&g0, list@[bi as int].0 as int));
                return Err("unknown block".to_owned());
            }
            let b = block_id.0;
            let n_instr = self.blocks[b].instructions.len();
            if n_instr == 0 {
                assert(block_flow_refused(&g0, list@[bi as int].0 as int));
                return Err("block without instructions".to_owned());
            }
            let block_end = self.blocks[b].instructions[n_instr - 1];
            let ns = self.blocks[b].successors.len();
            let mut s: usize = 0;
            while s < ns
                invariant
                    s <= ns,
                    b < self.nb(),
                    ns == self.blocks@[b as int].successors@.len(),
                    g0 == *old(self),
                    self.wf(),
                    self.frame_unchanged(&g0),
                    self.intervals@ == g0.intervals@,
                    self.interval_id == g0.interval_id,
                    self.gaps_extend(&g0),
                    bi < list@.len(),
                    b == list@[bi as int].0,
                    forall|i: int, s: int, x: int| 0 <= i < bi
                        && 0 <= s < g0.blocks@[list@[i].0 as int].successors@.len()
                        && g0.blocks@[(g0.blocks@[list@[i].0 as int].successors@[s]).0 as int].live_in.has(x)
                        ==> #[trigger] flow_resolved(self, list@[i].0 as int, s, x),
                    forall|s2: int, x: int| 0 <= s2 < s
                        && g0.blocks@[(g0.blocks@[b as int].successors@[s2]).0 as int].live_in.has(x)
                        ==> #[trigger] flow_resolved(self, b as int, s2, x),
                    n_instr == g0.blocks@[b as int].instructions@.len(),
                    n_instr > 0,
                    block_end == g0.blocks@[b as int].instructions@[n_instr - 1],
                    forall|i: int| 0 <= i < bi ==> !#[trigger] block_flow_refused(&g0, list@[i].0 as int),
                    forall|s2: int| 0 <= s2 < s ==> !#[trigger] succ_refused(&g0, b as int, s2),
                    forall|p: int, k: int| g0.gap_actions(p).len() <= k < self.gap_actions(p).len()
                    ==> #[trigger] join_move(&g0, list@, self.gap_actions(p)[k], p),
                decreases ns - s,
            {
                let succ = self.blocks[b].successors[s];
                assert(block_ok(self.blocks@[b as int], self.nb(), self.ni(), self.nv()));
                assert(succ.0 < self.nb());
                if self.blocks[succ.0].instructions.len() == 0 {
                    proof {
                        assert(succ_refused(&g0, b as int, s as int));
                        assert(block_flow_refused(&g0, list@[bi as int].0 as int));
                    }
                    return Err("block without instructions".to_owned());
                }
                let succ_start = self.blocks[succ.0].instructions[0];
                let live_in = self.blocks[succ.0].live_in.to_vec();
                assert(block_ok(self.blocks@[succ.0 as int], self.nb(), self.ni(), self.nv()));
                let mut x: usize = 0;
                while x < live_in.len()
                    invariant
                        x <= live_in@.len(),
                        forall|j: int| 0 <= j < live_in@.len() ==> (#[trigger] live_in@[j]) < self.nv(),
                        b < self.nb(),
                        ns == self.blocks@[b as int].successors@.len(),
                        g0 == *old(self),
                        self.wf(),
                        self.frame_unchanged(&g0),
                        self.intervals@ == g0.intervals@,
                        self.interval_id == g0.interval_id,
                        self.gaps_extend(&g0),
                        bi < list@.len(),
                        b == list@[bi as int].0,
                        s < ns,
                        succ == g0.blocks@[b as int].successors@[s as int],
                        succ.0 < g0.nb(),
                        g0.blocks@[succ.0 as int].instructions@.len() > 0,
                        succ_start == g0.blocks@[succ.0 as int].instructions@[0],
                        n_instr == g0.blocks@[b as int].instructions@.len(),
                        n_instr > 0,
                        block_end == g0.blocks@[b as int].instructions@[n_instr - 1],
                        forall|a: int| 0 <= a < live_in@.len() ==> g0.blocks@[succ.0 as int].live_in.has(#[trigger] live_in@[a] as int),
                        forall|j: int| g0.blocks@[succ.0 as int].live_in.has(j) ==> live_in@.contains(j as usize),
                        forall|i: int, s: int, x: int| 0 <= i < bi
                            && 0 <= s < g0.blocks@[list@[i].0 as int].successors@.len()
                            && g0.blocks@[(g0.blocks@[list@[i].0 as int].successors@[s]).0 as int].live_in.has(x)
                            ==> #[trigger] flow_resolved(self, list@[i].0 as int, s, x),
                        forall|s2: int, x: int| 0 <= s2 < s
                            && g0.blocks@[(g0.blocks@[b as int].successors@[s2]).0 as int].live_in.has(x)
                            ==> #[trigger] flow_resolved(self, b as int, s2, x),
                        forall|a: int| 0 <= a < x ==> #[trigger] flow_resolved(self, b as int, s as int, live_in@[a] as int),
                        forall|i: int| 0 <= i < bi ==> !#[trigger] block_flow_refused(&g0, list@[i].0 as int),
                        forall|s2: int| 0 <= s2 < s ==> !#[trigger] succ_refused(&g0, b as int, s2),
                        forall|a: int| 0 <= a < x ==> !#[trigger] value_refused(&g0, b as int, s as int, live_in@[a] as int),
                        forall|p: int, k: int| g0.gap_actions(p).len() <= k < self.gap_actions(p).len()
                    ==> #[trigger] join_move(&g0, list@, self.gap_actions(p)[k], p),
                    decreases live_in.len() - x,
                {
                    let iv = IntervalId(live_in[x]);
                    let parent = match self.intervals[iv.0].parent {
                        Some(p) => p,
                        None => iv,
                    };
                    assert(crate::graph::interval_ok(self.intervals@[iv.0 as int], self.nv()));
                    let ghost xi = live_in@[x as int] as int;
                    proof {
                        assert(parent == crate::split::family_root(g0.intervals@[xi], IntervalId(xi as usize)));
                        assert(g0.blocks@[succ.0 as int].live_in.has(xi));
                    }
                    let from = match self.child_at(&parent, block_end) {
                        Some(c) => c,
                        None => {
                            proof {
                                assert forall|c: IntervalId| !#[trigger] first_member(&g0, parent, block_end.0 as int, c) by {
                                    assert(g0.family(parent) == self.family(parent));
                                }
                                assert(value_refused(&g0, b as int, s as int, xi));
                                assert(succ_refused(&g0, b as int, s as int));
                                assert(block_flow_refused(&g0, list@[bi as int].0 as int));
                            }
                            return Err("Interval should exist at pred end".to_owned());
                        },
                    };
                    let to = match self.child_at(&parent, succ_start) {
                        Some(c) => c,
                        None => {
                            proof {
                                assert forall|c: IntervalId| !#[trigger] first_member(&g0, parent, succ_start.0 as int, c) by {
                                    assert(g0.family(parent) == self.family(parent));
                                }
                                assert(value_refused(&g0, b as int, s as int, xi));
                                assert(succ_refused(&g0, b as int, s as int));
                                assert(block_flow_refused(&g0, list@[bi as int].0 as int));
                            }
                            return Err("Interval should exist at succ start".to_owned());
                        },
                    };
                    proof {
                        assert(g0.family(parent) == self.family(parent));
                        assert(first_member(&g0, parent, block_end.0 as int, from));
                        assert(first_member(&g0, parent, succ_start.0 as int, to));
                    }
                    let ghost g_before = *self;
                    let ghost gp: int = if ns == 2 { succ_start.0 as int } else { block_end.0 as int };
                    if from != to {
                        let gap_pos = if ns == 2 {
                            succ_start
                        } else {
                            block_end
                        };
                        if gap_pos.0 == usize::MAX {
                            proof {
                                assert(value_refused(&g0, b as int, s as int, xi));
                                assert(succ_refused(&g0, b as int, s as int));
                                assert(block_flow_refused(&g0, list@[bi as int].0 as int));
                            }
                            return Err("position out of range".to_owned());
                        }
                        let ghost g1 = *self;
                        proof {
                            let fam = self.family(parent);
                            assert(fam.contains(from));
                            assert(fam.contains(to));
                            assert(crate::graph::intervals_below(self.intervals@[parent.0 as int].children@, self.nv()));
                            let kf = choose|k: int| 0 <= k < fam.len() && fam[k] == from;
                            let kt = choose|k: int| 0 <= k < fam.len() && fam[k] == to;
                            if kf > 0 {
                                assert(fam[kf] == self.intervals@[parent.0 as int].children@[kf - 1]);
                            }
                            if kt > 0 {
                                assert(fam[kt] == self.intervals@[parent.0 as int].children@[kt - 1]);
                            }
                        }
                        self.add_gap_move(gap_pos, from, to);
                        proof {
                            let act = GapAction { kind: GapActionKind::Move, from, to };
                            assert(join_at(&g0, b as int, s as int, xi, from, to, gp));
                            assert forall|p: int, k: int| g0.gap_actions(p).len() <= k < self.gap_actions(p).len()
                                implies #[trigger] join_move(&g0, list@, self.gap_actions(p)[k], p) by {
                                if p == gp {
                                    assert(self.gap_actions(p) == g1.gap_actions(p).push(act));
                                    if k < g1.gap_actions(p).len() {
                                        assert(self.gap_actions(p)[k] == g1.gap_actions(p)[k]);
                                        assert(join_move(&g0, list@, g1.gap_actions(p)[k], p));
                                    } else {
                                        assert(self.gap_actions(p)[k] == act);
                                        assert(join_move(&g0, list@, act, p));
                                    }
                                } else {
                                    assert(self.gap_actions(p) == g1.gap_actions(p));
                                    assert(join_move(&g0, list@, g1.gap_actions(p)[k], p));
                                }
                            }
                            assert(self.family(parent) == g1.family(parent));
                            assert(self.flow_move(act));
                            assert forall|p: int| #![trigger self.gap_actions(p)] {
                                &&& g0.gap_actions(p).len() <= self.gap_actions(p).len()
                                &&& self.gap_actions(p).subrange(0, g0.gap_actions(p).len() as int) == g0.gap_actions(p)
                                &&& forall|k: int| g0.gap_actions(p).len() <= k < self.gap_actions(p).len()
                                    ==> self.flow_move(#[trigger] self.gap_actions(p)[k])
                            } by {
                                let a0 = g0.gap_actions(p);
                                let a1 = g1.gap_actions(p);
                                assert(a0.len() <= a1.len());
                                assert(a1.subrange(0, a0.len() as int) == a0);
                                assert forall|k: int| a0.len() <= k < a1.len() implies g1.flow_move(#[trigger] a1[k]) by {}
                                if p == gap_pos.0 {
                                    let a2 = self.gap_actions(p);
                                    assert(a2 == a1.push(act));
                                    assert(a2.subrange(0, a0.len() as int) =~= a1.subrange(0, a0.len() as int));
                                    assert forall|k: int| a0.len() <= k < a2.len() implies self.flow_move(#[trigger] a2[k]) by {
                                        if k < a1.len() {
                                            assert(a2[k] == a1[k]);
                                            assert(g1.flow_move(a1[k]));
                                            lemma_flow_move_same(*self, g1, a1[k]);
                                        }
                                    }
                                } else {
                                    assert(self.gap_actions(p) == a1);
                                    assert forall|k: int| a0.len() <= k < a1.len() implies self.flow_move(#[trigger] a1[k]) by {
                                        assert(g1.flow_move(a1[k]));
                                        lemma_flow_move_same(*self, g1, a1[k]);
                                    }
                                }
                            }
                        }
                    }
                    proof {
                        let xi = live_in@[x as int] as int;
                        let act = GapAction { kind: GapActionKind::Move, from, to };
                        assert forall|p: int| #![trigger self.gap_actions(p)] g_before.gap_actions(p).len() <= self.gap_actions(p).len()
                            && self.gap_actions(p).subrange(0, g_before.gap_actions(p).len() as int) == g_before.gap_actions(p) by {
                            if from != to && p == gp {
                                assert(self.gap_actions(p) == g_before.gap_actions(p).push(act));
                                assert(self.gap_actions(p).subrange(0, g_before.gap_actions(p).len() as int) =~= g_before.gap_actions(p));
                            } else {
                                assert(self.gap_actions(p) == g_before.gap_actions(p));
                                assert(g_before.gap_actions(p).subrange(0, g_before.gap_actions(p).len() as int) =~= g_before.gap_actions(p));
                            }
                        }
                        lemma_all_resolved_grow(*self, g_before);
                        assert(first_member(&g_before, parent, block_end.0 as int, from));
                        assert(first_member(&g_before, parent, succ_start.0 as int, to));
                        assert(parent == crate::split::family_root(self.intervals@[xi], IntervalId(xi as usize)));
                        assert forall|f: IntervalId, t: IntervalId| #[trigger] first_member(&*self, parent, block_end.0 as int, f)
                            && #[trigger] first_member(&*self, parent, succ_start.0 as int, t) && f != t
                            implies self.gap_actions(gp).contains(act) && f == from && t == to by {
                            assert(self.family(parent) == g_before.family(parent));
                            assert(first_member(&g_before, parent, block_end.0 as int, f));
                            assert(first_member(&g_before, parent, succ_start.0 as int, t));
                            lemma_first_member_unique(&g_before, parent, block_end.0 as int, f, from);
                            lemma_first_member_unique(&g_before, parent, succ_start.0 as int, t, to);
                            assert(self.gap_actions(gp) == g_before.gap_actions(gp).push(act));
                            assert(self.gap_actions(gp)[g_before.gap_actions(gp).len() as int] == act);
                        }
                        assert(flow_resolved(&*self, b as int, s as int, xi));
                        assert forall|i: int, s3: int, y: int| 0 <= i < bi
                            && 0 <= s3 < g0.blocks@[list@[i].0 as int].successors@.len()
                            && g0.blocks@[(g0.blocks@[list@[i].0 as int].successors@[s3]).0 as int].live_in.has(y)
                            implies #[trigger] flow_resolved(&*self, list@[i].0 as int, s3, y) by {
                            assert(flow_resolved(&g_before, list@[i].0 as int, s3, y));
                        }
                        assert forall|s2: int, y: int| 0 <= s2 < s
                            && g0.blocks@[(g0.blocks@[b as int].successors@[s2]).0 as int].live_in.has(y)
                            implies #[trigger] flow_resolved(&*self, b as int, s2, y) by {
                            assert(flow_resolved(&g_before, b as int, s2, y));
                        }
                        assert(!value_refused(&g0, b as int, s as int, xi)) by {
                            let succ_i = g0.blocks@[b as int].successors@[s as int].0 as int;
                            assert(succ_i == succ.0);
                            assert(g0.blocks@[b as int].instructions@.last() == block_end);
                            assert(g0.blocks@[succ_i].instructions@[0] == succ_start);
                            assert(IntervalId(xi as usize) == iv);
                            assert(first_member(&g0, parent, block_end.0 as int, from));
                            assert(first_member(&g0, parent, succ_start.0 as int, to));
                            assert(from != to ==> gp != usize::MAX);
                            if gp == usize::MAX {
                                assert forall|f: IntervalId, t: IntervalId| #[trigger] first_member(&g0, parent, block_end.0 as int, f)
                                    && #[trigger] first_member(&g0, parent, succ_start.0 as int, t) implies f == t by {
                                    lemma_first_member_unique(&g0, parent, block_end.0 as int, f, from);
                                    lemma_first_member_unique(&g0, parent, succ_start.0 as int, t, to);
                                }
                            }
                        }
                        assert forall|a: int| 0 <= a < x + 1 implies !#[trigger] value_refused(&g0, b as int, s as int, live_in@[a] as int) by {
                            if a == x {
                                assert(live_in@[a] as int == xi);
                            }
                        }
                        assert forall|a: int| 0 <= a < x + 1 implies #[trigger] flow_resolved(&*self, b as int, s as int, live_in@[a] as int) by {
                            if a < x {
                                assert(flow_resolved(&g_before, b as int, s as int, live_in@[a] as int));
                            }
                        }
                    }
                    x = x + 1;
                }
                proof {
                    assert forall|s2: int, y: int| 0 <= s2 < s + 1
                        && g0.blocks@[(g0.blocks@[b as int].successors@[s2]).0 as int].live_in.has(y)
                        implies #[trigger] flow_resolved(&*self, b as int, s2, y) by {
                        if s2 == s {
                            assert(live_in@.contains(y as usize));
                            let a = choose|a: int| 0 <= a < live_in@.len() && live_in@[a] == y as usize;
                            assert(flow_resolved(&*self, b as int, s as int, live_in@[a] as int));
                        }
                    }
                }
                s = s + 1;
            }
            proof {
                assert forall|i: int, s2: int, y: int| 0 <= i < bi + 1
                    && 0 <= s2 < g0.blocks@[list@[i].0 as int].successors@.len()
                    && g0.blocks@[(g0.blocks@[list@[i].0 as int].successors@[s2]).0 as int].live_in.has(y)
                    implies #[trigger] flow_resolved(&*self, list@[i].0 as int, s2, y) by {
                    if i == bi {
                        assert(flow_resolved(&*self, b as int, s2, y));
                    }
                }
            }
            bi = bi + 1;
        }
        Ok(())
    }
}

} // verus!

verus! {

/// The location `v` serves the use `u`: same group; a register where the
/// use asks for one; the very register where it asks for a fixed one.
pub open spec fn use_served(u: Use, v: Value) -> bool {
    &&& u.kind.spec_group() == v.spec_group()
    &&& match u.kind {
        UseKind::UseAny(_) => true,
        UseKind::UseRegister(_) => v is RegisterVal,
        UseKind::UseFixed(_, r) => v matches Value::RegisterVal(_, r2) && r2 == r,
    }
}

/// An interval with ranges has a location that serves all its uses.
pub open spec fn interval_allocated(iv: Interval) -> bool {
    iv.ranges@.len() > 0 ==> {
        &&& !(iv.value is VirtualVal)
        &&& forall|k: int| 0 <= k < iv.uses@.len() ==> use_served(#[trigger] iv.uses@[k], iv.value)
    }
}

impl<K> Graph<K> {
    /// Every interval with ranges has a location that serves its uses.
    pub open spec fn allocation_valid(&self) -> bool {
        forall|v: int| 0 <= v < self.nv() ==> interval_allocated(#[trigger] self.intervals@[v])
    }
}

/// Computing live sets keeps what flattening made of the graph.
proof fn lemma_flattened_same_but_live<K>(g2: Graph<K>, g1: Graph<K>, g0: Graph<K>, list: Seq<BlockId>, map: Seq<Option<usize>>)
    requires
        crate::flatten::flattened_from(g1, g0, list, map),
        g2.blocks@.len() == g1.blocks@.len(),
        g2.instructions@ == g1.instructions@,
        g2.phis@ == g1.phis@,
        forall|b: int| 0 <= b < g2.nb() ==> crate::liveness::same_frame(#[trigger] g2.blocks@[b], g1.blocks@[b]),
    ensures
        crate::flatten::flattened_from(g2, g0, list, map),
        crate::flatten::loops_deepened(g1, g0, list) ==> crate::flatten::loops_deepened(g2, g0, list),
{
    if crate::flatten::loops_deepened(g1, g0, list) {
        assert forall|k: int| 0 <= k < g2.nb() implies #[trigger] crate::flatten::deepened(g2.blocks@[k], g0.blocks@[list[k].0 as int]) by {
            assert(crate::liveness::same_frame(g2.blocks@[k], g1.blocks@[k]));
            assert(crate::flatten::deepened(g1.blocks@[k], g0.blocks@[list[k].0 as int]));
        }
        assert forall|k: int| 0 <= k < g2.nb() && #[trigger] crate::flatten::one_block_loop(g0, list[k].0 as int)
            implies g2.blocks@[k].loop_depth > g0.blocks@[list[k].0 as int].loop_depth by {
            assert(crate::liveness::same_frame(g2.blocks@[k], g1.blocks@[k]));
        }
    }
    assert forall|k: int| 0 <= k < g2.nb() implies crate::flatten::block_renumbered(g2, g0, k, list[k].0 as int, map)
        && crate::flatten::edges_renumbered(#[trigger] g2.blocks@[k], g0.blocks@[list[k].0 as int], list) by {
        assert(crate::liveness::same_frame(g2.blocks@[k], g1.blocks@[k]));
        assert(crate::flatten::edges_renumbered(g1.blocks@[k], g0.blocks@[list[k].0 as int], list));
    }
}

/// Computing live sets keeps the flat layout.
pub proof fn lemma_flat_same_but_live<K>(g1: Graph<K>, g0: Graph<K>)
    requires
        g1.same_but_live(&g0),
        g0.flat(),
    ensures
        g1.flat(),
{
    assert forall|b: int| 0 <= b < g1.nb() implies crate::flatten::flat_block(g1.blocks@, g1.instructions@, b) by {
        assert(crate::liveness::same_frame(g1.blocks@[b], g0.blocks@[b]));
        assert(crate::flatten::flat_block(g0.blocks@, g0.instructions@, b));
        if b > 0 {
            assert(crate::liveness::same_frame(g1.blocks@[b - 1], g0.blocks@[b - 1]));
        }
    }
    assert(crate::liveness::same_frame(g1.blocks@[g1.nb() - 1], g0.blocks@[g0.nb() - 1]));
}

pub proof fn lemma_fixpoint_same_blocks<K>(g1: Graph<K>, g0: Graph<K>)
    requires
        g1.blocks@ == g0.blocks@,
        g0.liveness_fixpoint(),
    ensures
        g1.liveness_fixpoint(),
{
    assert forall|b: int| 0 <= b < g1.nb() implies #[trigger] g1.live_out_eq(b) && g1.live_in_eq(b) by {
        assert(0 <= b < g0.nb());
        assert(g0.live_out_eq(b));
        assert(g0.live_in_eq(b));
    }
}

/// Intervals `a` and `b` cover a common position.
pub open spec fn share_position(a: Interval, b: Interval) -> bool {
    exists|p: int| a.spec_covers(p) && b.spec_covers(p)
}

/// No two intervals hold the same register at a common position.
pub open spec fn no_register_conflict<K>(g: &Graph<K>) -> bool {
    forall|v: int, w: int| 0 <= v < g.nv() && 0 <= w < g.nv() && v != w
        && (#[trigger] g.intervals@[v]).value is RegisterVal
        && g.intervals@[v].value == (#[trigger] g.intervals@[w]).value
        ==> !share_position(g.intervals@[v], g.intervals@[w])
}

/// Range `x` and range `y` hold a common position.
pub open spec fn ranges_meet(x: LiveRange, y: LiveRange) -> bool {
    &&& x.start.0 < y.end.0
    &&& y.start.0 < x.end.0
    &&& x.start.0 < x.end.0
    &&& y.start.0 < y.end.0
}

proof fn lemma_share_iff_meet(a: Interval, b: Interval)
    ensures
        share_position(a, b) <==> exists|i: int, j: int| 0 <= i < a.ranges@.len() && 0 <= j < b.ranges@.len()
            && ranges_meet(#[trigger] a.ranges@[i], #[trigger] b.ranges@[j]),
{
    if share_position(a, b) {
        let p = choose|p: int| a.spec_covers(p) && b.spec_covers(p);
        let i = choose|i: int| 0 <= i < a.ranges@.len() && (#[trigger] a.ranges@[i]).spec_covers(p);
        let j = choose|j: int| 0 <= j < b.ranges@.len() && (#[trigger] b.ranges@[j]).spec_covers(p);
        assert(ranges_meet(a.ranges@[i], b.ranges@[j]));
    }
    if exists|i: int, j: int| 0 <= i < a.ranges@.len() && 0 <= j < b.ranges@.len()
        && ranges_meet(#[trigger] a.ranges@[i], #[trigger] b.ranges@[j]) {
        let (i, j) = choose|i: int, j: int| 0 <= i < a.ranges@.len() && 0 <= j < b.ranges@.len()
            && ranges_meet(#[trigger] a.ranges@[i], #[trigger] b.ranges@[j]);
        let x = a.ranges@[i];
        let y = b.ranges@[j];
        let p: int = if x.start.0 < y.start.0 { y.start.0 as int } else { x.start.0 as int };
        assert(x.spec_covers(p));
        assert(y.spec_covers(p));
        assert(a.spec_covers(p));
        assert(b.spec_covers(p));
    }
}

/// Whether some range of `a` and some range of `b` hold a common position.
fn ranges_overlap(a: &Vec<LiveRange>, b: &Vec<LiveRange>) -> (r: bool)
    ensures
        r == exists|i: int, j: int| 0 <= i < a@.len() && 0 <= j < b@.len()
            && ranges_meet(#[trigger] a@[i], #[trigger] b@[j]),
{
    let mut i: usize = 0;
    while i < a.len()
        invariant
            i <= a@.len(),
            forall|i2: int, j: int| 0 <= i2 < i && 0 <= j < b@.len() ==> !ranges_meet(#[trigger] a@[i2], #[trigger] b@[j]),
        decreases a.len() - i,
    {
        let mut j: usize = 0;
        while j < b.len()
            invariant
                i < a@.len(),
                j <= b@.len(),
                forall|i2: int, j2: int| 0 <= i2 < i && 0 <= j2 < b@.len() ==> !ranges_meet(#[trigger] a@[i2], #[trigger] b@[j2]),
                forall|j2: int| 0 <= j2 < j ==> !ranges_meet(a@[i as int], #[trigger] b@[j2]),
            decreases b.len() - j,
        {
            if a[i].start.0 < b[j].end.0 && b[j].start.0 < a[i].end.0 && a[i].start.0 < a[i].end.0
                && b[j].start.0 < b[j].end.0 {
                assert(ranges_meet(a@[i as int], b@[j as int]));
                return true;
            }
            j = j + 1;
        }
        i = i + 1;
    }
    false
}

impl<K: KindHelper> Graph<K> {
    /// Check that no two intervals hold the same register at a common
    /// position.
    pub fn check_no_conflict(&self) -> (r: Result<(), String>)
        ensures
            r is Ok <==> no_register_conflict(self),
    {
        let nv = self.intervals.len();
        let mut v: usize = 0;
        while v < nv
            invariant
                nv == self.nv(),
                v <= nv,
                forall|v2: int, w: int| 0 <= v2 < v && 0 <= w < nv && v2 != w
                    && (#[trigger] self.intervals@[v2]).value is RegisterVal
                    && self.intervals@[v2].value == (#[trigger] self.intervals@[w]).value
                    ==> !share_position(self.intervals@[v2], self.intervals@[w]),
            decreases nv - v,
        {
            let mut w: usize = 0;
            while w < nv
                invariant
                    nv == self.nv(),
                    v < nv,
                    w <= nv,
                    forall|v2: int, w2: int| 0 <= v2 < v && 0 <= w2 < nv && v2 != w2
                        && (#[trigger] self.intervals@[v2]).value is RegisterVal
                        && self.intervals@[v2].value == (#[trigger] self.intervals@[w2]).value
                        ==> !share_position(self.intervals@[v2], self.intervals@[w2]),
                    forall|w2: int| 0 <= w2 < w && v != w2
                        && self.intervals@[v as int].value is RegisterVal
                        && self.intervals@[v as int].value == (#[trigger] self.intervals@[w2]).value
                        ==> !share_position(self.intervals@[v as int], self.intervals@[w2]),
                decreases nv - w,
            {
                let in_register = match self.intervals[v].value {
                    Value::RegisterVal(_, _) => true,
                    _ => false,
                };
                if v != w && in_register && self.intervals[v].value == self.intervals[w].value {
                    proof {
                        lemma_share_iff_meet(self.intervals@[v as int], self.intervals@[w as int]);
                    }
                    if ranges_overlap(&self.intervals[v].ranges, &self.intervals[w].ranges) {
                        assert(!no_register_conflict(self)) by {
                            assert(share_position(self.intervals@[v as int], self.intervals@[w as int]));
                        }
                        return Err("two intervals hold one register at one position".to_owned());
                    }
                }
                w = w + 1;
            }
            v = v + 1;
        }
        Ok(())
    }

    /// Check the result of allocation: every interval with ranges has a
    /// location, of the group of each of its uses, a register for each use
    /// that asks for one, the fixed register for each use that names it.
    pub fn verify(&self) -> (r: Result<(), String>)
        ensures
            r is Ok <==> self.allocation_valid(),
    {
        let nv = self.intervals.len();
        let mut v: usize = 0;
        while v < nv
            invariant
                nv == self.nv(),
                v <= nv,
                forall|w: int| 0 <= w < v ==> interval_allocated(#[trigger] self.intervals@[w]),
            decreases nv - v,
        {
            let iv = &self.intervals[v];
            if iv.ranges.len() > 0 {
                // Every interval should have a location
                if iv.value.is_virtual() {
                    return Err("interval without a location".to_owned());
                }
                let mut k: usize = 0;
                while k < iv.uses.len()
                    invariant
                        k <= iv.uses@.len(),
                        v < nv,
                        nv == self.nv(),
                        *iv == self.intervals@[v as int],
                        iv.ranges@.len() > 0,
                        !(iv.value is VirtualVal),
                        forall|j: int| 0 <= j < k ==> use_served(#[trigger] iv.uses@[j], iv.value),
                    decreases iv.uses.len() - k,
                {
                    let u = iv.uses[k];
                    // Allocated groups should not differ from the requested
                    if u.kind.group() != iv.value.group() {
                        assert(!use_served(iv.uses@[k as int], iv.value));
                        return Err("use of another group".to_owned());
                    }
                    match u.kind {
                        UseKind::UseAny(_) => {},
                        UseKind::UseRegister(_) => match iv.value {
                            Value::RegisterVal(_, _) => {},
                            _ => {
                                assert(!use_served(iv.uses@[k as int], iv.value));
                                return Err("Register expected".to_owned());
                            },
                        },
                        UseKind::UseFixed(_, r0) => match iv.value {
                            Value::RegisterVal(_, r1) => {
                                if r0 != r1 {
                                    assert(!use_served(iv.uses@[k as int], iv.value));
                                    return Err("Expected fixed register".to_owned());
                                }
                            },
                            _ => {
                                assert(!use_served(iv.uses@[k as int], iv.value));
                                return Err("Expected fixed register".to_owned());
                            },
                        },
                    }
                    k = k + 1;
                }
            }
            v = v + 1;
        }
        Ok(())
    }

    /// Flatten the graph and compute the live sets, once.
    pub fn prepare_graph(&mut self) -> (r: Result<(), String>)
        requires
            old(self).wf(),
        ensures
            r is Ok ==> final(self).wf() && final(self).prepared,
            old(self).prepared ==> *final(self) == *old(self) && r is Ok,
            r is Ok && !old(self).prepared ==> final(self).liveness_fixpoint() && final(self).flat(),
            r is Ok && !old(self).prepared ==> exists|list: Seq<BlockId>, map: Seq<Option<usize>>|
                crate::flatten::flattened_from(*final(self), *old(self), list, map)
                && crate::flatten::loops_deepened(*final(self), *old(self), list),
            r is Ok ==> final(self).intervals@ == old(self).intervals@,
    {
        if self.prepared {
            return Ok(());
        }
        let ghost g_in = *self;
        // The flat list of blocks
        self.flatten_order()?;
        let ghost gf = *self;
        // live_in and live_out
        self.analyze_liveness()?;
        let ghost gl = *self;
        self.prepared = true;
        proof {
            lemma_fixpoint_same_blocks(*self, gl);
            lemma_flat_same_but_live(gl, gf);
            assert(self.blocks@ == gl.blocks@);
            let (list, map) = choose|list: Seq<BlockId>, map: Seq<Option<usize>>|
                crate::flatten::flattened_from(gf, g_in, list, map) && crate::flatten::loops_deepened(gf, g_in, list);
            lemma_flattened_same_but_live(*self, gf, g_in, list, map);
        }
        Ok(())
    }

    /// A fixed interval for each register of each group of `config`.
    #[verifier::rlimit(40)]
    fn create_physical(&mut self, config: &Config) -> (r: Result<(), String>)
        requires
            old(self).wf(),
        ensures
            final(self).wf(),
            final(self).prepared == old(self).prepared,
            no_new_slots(final(self), old(self)),
            regs_within(final(self), old(self), config.register_groups@),
            r is Err <==> old(self).nv() + total(config.register_groups@) > usize::MAX,
            r is Ok ==> {
                let groups = config.register_groups@;
                let ng = groups.len() as int;
                let np = old(self).physical@.len() as int;
                &&& final(self).nv() == old(self).nv() + total(groups)
                &&& forall|v: int| 0 <= v < old(self).nv() ==> #[trigger] final(self).intervals@[v] == old(self).intervals@[v]
                &&& final(self).blocks@ == old(self).blocks@
                &&& final(self).instructions@ == old(self).instructions@
                &&& final(self).physical@.len() == if np > ng { np } else { ng }
                &&& forall|g: int| 0 <= g < ng ==> physical_row(final(self), #[trigger] final(self).physical@[g]@, g,
                    groups[g] as int, old(self).nv() + total(groups.take(g)))
                &&& forall|g: int| ng <= g < np ==> #[trigger] final(self).physical@[g] == old(self).physical@[g]
            },
    {
        let ghost g0 = *self;
        let ghost groups = config.register_groups@;
        proof {
            assert(groups.take(0) =~= Seq::<usize>::empty());
        }
        let ng = config.register_groups.len();
        let mut group: usize = 0;
        while group < ng
            invariant
                g0 == *old(self),
                groups == config.register_groups@,
                self.wf(),
                group <= ng,
                ng == config.register_groups@.len(),
                self.physical@.len() >= group,
                self.physical@.len() == if g0.physical@.len() > group { g0.physical@.len() as int } else { group as int },
                self.prepared == old(self).prepared,
                no_new_slots(self, old(self)),
                regs_within(self, old(self), config.register_groups@),
                self.nv() == g0.nv() + total(groups.take(group as int)),
                forall|v: int| 0 <= v < g0.nv() ==> #[trigger] self.intervals@[v] == g0.intervals@[v],
                self.blocks@ == g0.blocks@,
                self.instructions@ == g0.instructions@,
                forall|g: int| 0 <= g < group ==> physical_row(self, #[trigger] self.physical@[g]@, g,
                    groups[g] as int, g0.nv() + total(groups.take(g))),
                forall|g: int| group <= g < g0.physical@.len() ==> #[trigger] self.physical@[g] == g0.physical@[g],
            decreases ng - group,
        {
            let count = config.register_groups[group];
            let mut row: Vec<IntervalId> = Vec::new();
            let ghost first: int = self.nv() as int;
            let ghost at_group = *self;
            proof {
                lemma_total_take(groups, group as int);
            }
            let mut reg: usize = 0;
            while reg < count
                invariant
                    g0 == *old(self),
                    groups == config.register_groups@,
                    self.wf(),
                    reg <= count,
                    self.physical@ == at_group.physical@,
                    self.prepared == old(self).prepared,
                    crate::graph::intervals_below(row@, self.nv()),
                    no_new_slots(self, old(self)),
                    regs_within(self, old(self), config.register_groups@),
                    group < ng,
                    ng == config.register_groups@.len(),
                    count == config.register_groups@[group as int],
                    first == g0.nv() + total(groups.take(group as int)),
                    total(groups.take(group + 1)) == total(groups.take(group as int)) + count,
                    total(groups.take(group + 1)) <= total(groups),
                    self.nv() == first + reg,
                    forall|v: int| 0 <= v < first ==> #[trigger] self.intervals@[v] == at_group.intervals@[v],
                    self.blocks@ == g0.blocks@,
                    self.instructions@ == g0.instructions@,
                    physical_row(self, row@, group as int, reg as int, first),
                decreases count - reg,
            {
                if self.interval_id == usize::MAX {
                    return Err("too many intervals".to_owned());
                }
                let ghost before = *self;
                let interval = crate::graph::Interval::new(self, 0);
                self.intervals[interval.0].value = Value::RegisterVal(group, reg);
                self.intervals[interval.0].fixed = true;
                proof {
                    assert forall|v: int| 0 <= v < self.nv() implies (#[trigger] self.intervals@[v]).id.0 == v
                        && crate::graph::interval_ok(self.intervals@[v], self.nv()) by {}
                    assert forall|g: int| 0 <= g < self.physical@.len() implies crate::graph::intervals_below(
                        #[trigger] self.physical@[g]@, self.nv()) by {
                        assert(crate::graph::intervals_below(self.physical@[g]@, (self.nv() - 1) as nat));
                    }
                    assert forall|v: int| 0 <= v < first implies #[trigger] self.intervals@[v] == at_group.intervals@[v] by {
                        assert(self.intervals@[v] == before.intervals@[v]);
                    }
                }
                let ghost r0 = row@;
                row.push(interval);
                proof {
                    assert forall|k: int| 0 <= k < reg + 1 implies (#[trigger] row@[k]).0 == first + k
                        && self.intervals@[first + k].value == Value::RegisterVal(group, k as usize)
                        && self.intervals@[first + k].fixed by {
                        if k < reg {
                            assert(row@[k] == r0[k]);
                            assert(self.intervals@[first + k] == before.intervals@[first + k]);
                        }
                    }
                }
                reg = reg + 1;
            }
            let ghost before = *self;
            proof {
                assert(groups.take(0) =~= Seq::<usize>::empty());
                lemma_total_take_mono(groups, 0, group as int);
                assert forall|v: int| 0 <= v < g0.nv() implies #[trigger] self.intervals@[v] == g0.intervals@[v] by {
                    assert(self.intervals@[v] == at_group.intervals@[v]);
                }
                assert forall|v: int| 0 <= v < first implies #[trigger] before.intervals@[v] == at_group.intervals@[v] by {
                    assert(self.intervals@[v] == at_group.intervals@[v]);
                }
            }
            if group < self.physical.len() {
                self.physical.set(group, row);
            } else {
                self.physical.push(row);
            }
            proof {
                assert forall|g: int| 0 <= g < group + 1 implies physical_row(self, #[trigger] self.physical@[g]@, g,
                    groups[g] as int, g0.nv() + total(groups.take(g))) by {
                    if g < group {
                        assert(self.physical@[g] == before.physical@[g]);
                        assert(physical_row(&at_group, at_group.physical@[g]@, g, groups[g] as int, g0.nv() + total(groups.take(g))));
                        let row_g = self.physical@[g]@;
                        assert forall|k: int| 0 <= k < groups[g] implies (#[trigger] row_g[k]).0 == g0.nv() + total(groups.take(g)) + k
                            && self.intervals@[g0.nv() + total(groups.take(g)) + k].value == Value::RegisterVal(g as usize, k as usize)
                            && self.intervals@[g0.nv() + total(groups.take(g)) + k].fixed by {
                            lemma_total_take_mono(groups, g + 1, group as int);
                            lemma_total_take_mono(groups, 0, g);
                            lemma_total_take(groups, g);
                            let x = g0.nv() + total(groups.take(g)) + k;
                            assert(x < first);
                            assert(self.intervals@[x] == before.intervals@[x]);
                            assert(before.intervals@[x] == at_group.intervals@[x]);
                        }
                    }
                }
            }
            group = group + 1;
        }
        proof {
            assert(groups.take(ng as int) =~= groups);
        }
        Ok(())
    }

    /// Allocate registers: prepare the graph, create the fixed intervals of
    /// the registers, build the live ranges, walk the intervals of each
    /// register group, add the moves between blocks, resolve the gaps and
    /// check the result.
    pub fn allocate_registers(&mut self, config: &Config) -> (r: Result<AllocatorResult, String>)
        requires
            old(self).wf(),
        ensures
            r is Ok ==> final(self).wf() && final(self).allocation_valid() && final(self).prepared,
            r is Ok ==> no_register_conflict(final(self)),
            r matches Ok(res) ==> res.spill_count@.len() == config.register_groups@.len(),
            r matches Ok(res) ==> slots_counted(final(self), old(self), res.spill_count@, res.spill_count@.len() as int),
            r is Ok ==> regs_within(final(self), old(self), config.register_groups@),
    {
        let ghost g_in = *self;
        self.prepare_graph()?;
        let ghost g_prep = *self;

        // Fixed intervals of the registers
        self.create_physical(config)?;
        let ghost gp = *self;
        assert(gp.prepared);

        let list = self.get_block_list();

        // Live ranges
        self.build_ranges(&list, config)?;
        proof {
            assert forall|v: int| 0 <= v < self.nv() implies ((#[trigger] self.intervals@[v]).value matches Value::StackVal(g, slot)
                ==> (g < 0 && slot.0 < Seq::<usize>::empty()[g as int])
                || (v < g_in.nv() && g_in.intervals@[v].value == self.intervals@[v].value)) by {
                if self.intervals@[v].value is StackVal {
                    assert(v < gp.nv());
                    assert(self.intervals@[v].value == gp.intervals@[v].value);
                    assert(v < g_prep.nv() && gp.intervals@[v].value == g_prep.intervals@[v].value);
                }
            }
            assert(slots_counted(&*self, &g_in, Seq::<usize>::empty(), 0));
            assert forall|v: int| 0 <= v < self.nv() implies ((#[trigger] self.intervals@[v]).value matches Value::RegisterVal(g, reg)
                ==> (g < config.register_groups@.len() && reg < config.register_groups@[g as int])
                || (v < g_in.nv() && g_in.intervals@[v].value == self.intervals@[v].value)) by {
                if self.intervals@[v].value is RegisterVal {
                    assert(v < gp.nv());
                    assert(self.intervals@[v].value == gp.intervals@[v].value);
                }
            }
        }

        // Walk the intervals of each group
        let mut results: Vec<usize> = Vec::new();
        let ng = config.register_groups.len();
        let mut group: usize = 0;
        while group < ng
            invariant
                self.wf(),
                self.prepared,
                group <= ng,
                ng == config.register_groups@.len(),
                results@.len() == group,
                slots_counted(self, &g_in, results@, group as int),
                regs_within(self, &g_in, config.register_groups@),
            decreases ng - group,
        {
            let ghost gb = *self;
            let res = self.walk_intervals(group, config)?;
            proof {
                lemma_slots_walk(*self, gb, g_in, results@, group, res.spill_count);
                assert forall|v: int| 0 <= v < self.nv() implies ((#[trigger] self.intervals@[v]).value matches Value::RegisterVal(g, reg)
                    ==> (g < config.register_groups@.len() && reg < config.register_groups@[g as int])
                    || (v < g_in.nv() && g_in.intervals@[v].value == self.intervals@[v].value)) by {
                    if self.intervals@[v].value is RegisterVal {
                        if v < gb.nv() && !(gb.intervals@[v].value is VirtualVal) {
                            assert(interval_evolves(gb.intervals@[v], self.intervals@[v], group));
                            assert(gb.intervals@[v].value == self.intervals@[v].value);
                        }
                    }
                }
            }
            results.push(res.spill_count);
            group = group + 1;
        }
        let ghost gw = *self;

        // Moves between blocks
        self.resolve_data_flow(&list)?;

        // Parallel moves
        self.resolve_all_gaps()?;

        // Correctness of the allocation
        self.verify()?;
        self.check_no_conflict()?;
        proof {
            assert(self.intervals@ == gw.intervals@);
            assert forall|g: int, slot: usize| 0 <= g < ng && slot < results@[g] implies #[trigger] slot_held(&*self, g as usize, slot) by {
                assert(slot_held(&gw, g as usize, slot));
                let v = choose|v: int| 0 <= v < gw.nv() && #[trigger] gw.intervals@[v].value == Value::StackVal(g as usize, StackId(slot));
                assert(self.intervals@[v].value == Value::StackVal(g as usize, StackId(slot)));
            }
            assert(slots_counted(&*self, &g_in, results@, ng as int));
            assert forall|v: int| 0 <= v < self.nv() implies ((#[trigger] self.intervals@[v]).value matches Value::RegisterVal(g, reg)
                ==> (g < config.register_groups@.len() && reg < config.register_groups@[g as int])
                || (v < g_in.nv() && g_in.intervals@[v].value == self.intervals@[v].value)) by {
                assert(self.intervals@[v] == gw.intervals@[v]);
            }
        }

        Ok(AllocatorResult { spill_count: results })
    }
}

impl<K: KindHelper> Allocator for Graph<K> {
    fn prepare(&mut self) -> (r: Result<(), String>)
        ensures
            !old(self).wf() ==> r is Err,
            old(self).wf() && old(self).prepared ==> r is Ok && *final(self) == *old(self),
            r is Ok ==> final(self).wf() && final(self).prepared,
            r is Ok && !old(self).prepared ==> final(self).liveness_fixpoint() && final(self).flat(),
            r is Ok && !old(self).prepared ==> exists|list: Seq<BlockId>, map: Seq<Option<usize>>|
                crate::flatten::flattened_from(*final(self), *old(self), list, map)
                && crate::flatten::loops_deepened(*final(self), *old(self), list),
    {
        if !self.check_wf() {
            return Err("malformed graph".to_owned());
        }
        self.prepare_graph()
    }

    fn allocate(&mut self, config: Config) -> (r: Result<AllocatorResult, String>)
        ensures
            !old(self).wf() ==> r is Err,
            r is Ok ==> final(self).wf() && final(self).allocation_valid(),
            r is Ok ==> no_register_conflict(final(self)),
            r matches Ok(res) ==> res.spill_count@.len() == config.register_groups@.len(),
            r matches Ok(res) ==> slots_counted(final(self), old(self), res.spill_count@, res.spill_count@.len() as int),
            r is Ok ==> regs_within(final(self), old(self), config.register_groups@),
    {
        if !self.check_wf() {
            return Err("malformed graph".to_owned());
        }
        self.allocate_registers(&config)
    }
}

} // verus!
