use vstd::prelude::*;
use crate::graph::{Interval, LiveRange, Use, UseKind};
use crate::ids::InstrId;

verus! {

impl LiveRange {
    pub open spec fn spec_covers(self, pos: int) -> bool {
        self.start.0 <= pos < self.end.0
    }

    pub open spec fn spec_intersection(self, other: LiveRange) -> Option<InstrId> {
        if self.spec_covers(other.start.0 as int) {
            Some(other.start)
        } else if other.start.0 < self.start.0 && self.start.0 < other.end.0 {
            Some(self.start)
        } else {
            None
        }
    }

    /// Whether `pos` lies in the range.
    pub fn covers(&self, pos: InstrId) -> (r: bool)
        ensures
            r == self.spec_covers(pos.0 as int),
    {
        self.start.0 <= pos.0 && pos.0 < self.end.0
    }

    /// The first position that both ranges contain, if any.
    pub fn get_intersection(&self, other: &LiveRange) -> (r: Option<InstrId>)
        ensures
            r == self.spec_intersection(*other),
            self.start.0 < self.end.0 && other.start.0 < other.end.0 ==> {
                &&& (r is Some <==> exists|q: int| self.spec_covers(q) && other.spec_covers(q))
                &&& (r matches Some(p) ==> self.spec_covers(p.0 as int) && other.spec_covers(p.0 as int))
                &&& (r matches Some(p) ==> forall|q: int| q < p.0 ==> !(self.spec_covers(q) && other.spec_covers(q)))
            },
    {
        let r = if self.covers(other.start) {
            Some(other.start)
        } else if other.start.0 < self.start.0 && self.start.0 < other.end.0 {
            Some(self.start)
        } else {
            None
        };
        proof {
            if self.start.0 < self.end.0 && other.start.0 < other.end.0 {
                if r is Some {
                    let p = r->0;
                    assert(self.spec_covers(p.0 as int) && other.spec_covers(p.0 as int));
                } else {
                    assert forall|q: int| !(self.spec_covers(q) && other.spec_covers(q)) by {}
                }
            }
        }
        r
    }
}

pub open spec fn fixed_after(u: Use, after: int) -> bool {
    u.kind is UseFixed && u.pos.0 >= after
}

pub open spec fn register_after(u: Use, after: int) -> bool {
    u.pos.0 >= after && !(u.kind is UseAny)
}

/// The position of the first register use of `us` at or after `after`.
pub open spec fn first_reg_use(us: Seq<Use>, after: int) -> Option<int>
    decreases us.len(),
{
    if us.len() == 0 {
        None
    } else if register_after(us[0], after) {
        Some(us[0].pos.0 as int)
    } else {
        first_reg_use(us.drop_first(), after)
    }
}

proof fn lemma_first_reg_use_at(us: Seq<Use>, after: int, i: int)
    requires
        0 <= i < us.len(),
        register_after(us[i], after),
        forall|j: int| 0 <= j < i ==> !register_after(#[trigger] us[j], after),
    ensures
        first_reg_use(us, after) == Some(us[i].pos.0 as int),
    decreases i,
{
    if i > 0 {
        assert(!register_after(us[0], after));
        let rest = us.drop_first();
        assert(rest[i - 1] == us[i]);
        assert forall|j: int| 0 <= j < i - 1 implies !register_after(#[trigger] rest[j], after) by {
            assert(rest[j] == us[j + 1]);
        }
        lemma_first_reg_use_at(rest, after, i - 1);
    }
}

proof fn lemma_first_reg_use_none(us: Seq<Use>, after: int)
    requires
        forall|j: int| 0 <= j < us.len() ==> !register_after(#[trigger] us[j], after),
    ensures
        first_reg_use(us, after) is None,
    decreases us.len(),
{
    if us.len() > 0 {
        assert(!register_after(us[0], after));
        let rest = us.drop_first();
        assert forall|j: int| 0 <= j < rest.len() implies !register_after(#[trigger] rest[j], after) by {
            assert(rest[j] == us[j + 1]);
        }
        lemma_first_reg_use_none(rest, after);
    }
}

pub open spec fn register_before(u: Use, before: int) -> bool {
    u.pos.0 <= before && !(u.kind is UseAny)
}

impl Interval {
    pub open spec fn spec_covers(self, pos: int) -> bool {
        exists|i: int| 0 <= i < self.ranges@.len() && (#[trigger] self.ranges@[i]).spec_covers(pos)
    }

    pub open spec fn spec_start(self) -> int {
        self.ranges@[0].start.0 as int
    }

    pub open spec fn spec_end(self) -> int {
        self.ranges@.last().end.0 as int
    }

    /// The interval has ranges, and `pos` lies between its start and end.
    pub open spec fn spans(self, pos: int) -> bool {
        self.ranges@.len() > 0 && self.spec_start() <= pos < self.spec_end()
    }

    /// The interval has ranges, `pos` lies between its start and end (both
    /// included), and one of its uses is at `pos`.
    pub open spec fn spans_use(self, pos: int) -> bool {
        &&& self.ranges@.len() > 0
        &&& self.spec_start() <= pos <= self.spec_end()
        &&& exists|k: int| 0 <= k < self.uses@.len() && (#[trigger] self.uses@[k]).pos.0 == pos
    }

    /// Add a range in front of the others, merging it with the first one
    /// when they touch.
    pub fn add_range(&mut self, start: InstrId, end: InstrId)
        requires
            old(self).ranges@.len() == 0 || old(self).ranges@[0].start.0 >= end.0,
        ensures
            *final(self) == (Interval { ranges: final(self).ranges, ..*old(self) }),
            old(self).ranges@.len() > 0 && old(self).ranges@[0].start == end ==> final(self).ranges@
                == old(self).ranges@.update(0, LiveRange { start, end: old(self).ranges@[0].end }),
            !(old(self).ranges@.len() > 0 && old(self).ranges@[0].start == end) ==> final(self).ranges@
                == seq![LiveRange { start, end }] + old(self).ranges@,
    {
        if self.ranges.len() > 0 && self.ranges[0].start.0 == end.0 {
            self.ranges[0].start = start;
        } else {
            self.ranges.insert(0, LiveRange { start, end });
            assert(self.ranges@ =~= seq![LiveRange { start, end }] + old(self).ranges@);
        }
    }

    /// The first range, to be changed in place.
    pub fn first_range(&mut self) -> (r: &mut LiveRange)
        requires
            old(self).ranges@.len() != 0,
        ensures
            *r == old(self).ranges@[0],
            *final(self) == (Interval { ranges: final(self).ranges, ..*old(self) }),
            final(self).ranges@ == old(self).ranges@.update(0, *final(r)),
    {
        &mut self.ranges[0]
    }

    /// Start of the first range.
    pub fn start(&self) -> (r: InstrId)
        requires
            self.ranges@.len() != 0,
        ensures
            r == self.ranges@[0].start,
    {
        self.ranges[0].start
    }

    /// End of the last range.
    pub fn end(&self) -> (r: InstrId)
        requires
            self.ranges@.len() != 0,
        ensures
            r == self.ranges@.last().end,
    {
        self.ranges[self.ranges.len() - 1].end
    }

    /// Whether one of the ranges contains `pos`.
    pub fn covers(&self, pos: InstrId) -> (r: bool)
        ensures
            r == self.spec_covers(pos.0 as int),
    {
        let n = self.ranges.len();
        let mut k: usize = 0;
        while k < n
            invariant
                n == self.ranges@.len(),
                k <= n,
                forall|j: int| 0 <= j < k ==> !(#[trigger] self.ranges@[j]).spec_covers(pos.0 as int),
            decreases n - k,
        {
            if self.ranges[k].covers(pos) {
                return true;
            }
            k = k + 1;
        }
        false
    }

    /// Add a use in front of the others.
    pub fn add_use(&mut self, kind: UseKind, pos: InstrId)
        requires
            old(self).uses@.len() == 0 || old(self).uses@[0].pos.0 > pos.0
                || old(self).uses@[0].kind.spec_group() == kind.spec_group(),
        ensures
            *final(self) == (Interval { uses: final(self).uses, ..*old(self) }),
            final(self).uses@ == seq![Use { kind, pos }] + old(self).uses@,
    {
        self.uses.insert(0, Use { kind, pos });
        assert(self.uses@ =~= seq![Use { kind, pos }] + old(self).uses@);
    }

    /// The first fixed use at or after `after`.
    pub fn next_fixed_use(&self, after: InstrId) -> (r: Option<Use>)
        ensures
            r is None ==> forall|i: int| 0 <= i < self.uses@.len() ==> !fixed_after(#[trigger] self.uses@[i], after.0 as int),
            r matches Some(u) ==> exists|i: int| 0 <= i < self.uses@.len() && self.uses@[i] == u
                && fixed_after(u, after.0 as int)
                && forall|j: int| 0 <= j < i ==> !fixed_after(#[trigger] self.uses@[j], after.0 as int),
    {
        let n = self.uses.len();
        let mut k: usize = 0;
        while k < n
            invariant
                n == self.uses@.len(),
                k <= n,
                forall|j: int| 0 <= j < k ==> !fixed_after(#[trigger] self.uses@[j], after.0 as int),
            decreases n - k,
        {
            let u = self.uses[k];
            if u.kind.is_fixed() && u.pos.0 >= after.0 {
                return Some(u);
            }
            k = k + 1;
        }
        None
    }

    /// The first register use (fixed or not) at or after `after`.
    pub fn next_use(&self, after: InstrId) -> (r: Option<Use>)
        ensures
            r matches Some(u) ==> first_reg_use(self.uses@, after.0 as int) == Some(u.pos.0 as int),
            r is None ==> first_reg_use(self.uses@, after.0 as int) is None,
            r is None ==> forall|i: int| 0 <= i < self.uses@.len() ==> !register_after(#[trigger] self.uses@[i], after.0 as int),
            r matches Some(u) ==> exists|i: int| 0 <= i < self.uses@.len() && self.uses@[i] == u
                && register_after(u, after.0 as int)
                && forall|j: int| 0 <= j < i ==> !register_after(#[trigger] self.uses@[j], after.0 as int),
    {
        let n = self.uses.len();
        let mut k: usize = 0;
        while k < n
            invariant
                n == self.uses@.len(),
                k <= n,
                forall|j: int| 0 <= j < k ==> !register_after(#[trigger] self.uses@[j], after.0 as int),
            decreases n - k,
        {
            let u = self.uses[k];
            if u.pos.0 >= after.0 && !u.kind.is_any() {
                proof {
                    lemma_first_reg_use_at(self.uses@, after.0 as int, k as int);
                }
                return Some(u);
            }
            k = k + 1;
        }
        proof {
            lemma_first_reg_use_none(self.uses@, after.0 as int);
        }
        None
    }

    /// The last register use (fixed or not) at or before `before`.
    pub fn last_use(&self, before: InstrId) -> (r: Option<Use>)
        ensures
            r is None ==> forall|i: int| 0 <= i < self.uses@.len() ==> !register_before(#[trigger] self.uses@[i], before.0 as int),
            r matches Some(u) ==> exists|i: int| 0 <= i < self.uses@.len() && self.uses@[i] == u
                && register_before(u, before.0 as int)
                && forall|j: int| i < j < self.uses@.len() ==> !register_before(#[trigger] self.uses@[j], before.0 as int),
    {
        let n = self.uses.len();
        let mut k: usize = n;
        while k > 0
            invariant
                n == self.uses@.len(),
                k <= n,
                forall|j: int| k <= j < n ==> !register_before(#[trigger] self.uses@[j], before.0 as int),
            decreases k,
        {
            let u = self.uses[k - 1];
            if u.pos.0 <= before.0 && !u.kind.is_any() {
                return Some(u);
            }
            k = k - 1;
        }
        None
    }

    /// Whether `pos` lies between start and end of the interval.
    pub fn spans_pos(&self, pos: InstrId) -> (r: bool)
        ensures
            r == self.spans(pos.0 as int),
    {
        self.ranges.len() > 0 && self.start().0 <= pos.0 && pos.0 < self.end().0
    }

    /// Whether the interval spans `pos` (end included) and has a use there.
    pub fn spans_use_at(&self, pos: InstrId) -> (r: bool)
        ensures
            r == self.spans_use(pos.0 as int),
    {
        if !(self.ranges.len() > 0 && self.start().0 <= pos.0 && pos.0 <= self.end().0) {
            return false;
        }
        let n = self.uses.len();
        let mut k: usize = 0;
        while k < n
            invariant
                n == self.uses@.len(),
                k <= n,
                forall|j: int| 0 <= j < k ==> (#[trigger] self.uses@[j]).pos.0 != pos.0,
                self.ranges@.len() > 0 && self.spec_start() <= pos.0 <= self.spec_end(),
            decreases n - k,
        {
            if self.uses[k].pos.0 == pos.0 {
                assert(self.uses@[k as int].pos.0 == pos.0);
                return true;
            }
            k = k + 1;
        }
        false
    }
}

} // verus!
