use vstd::prelude::*;
use crate::api::KindHelper;
use crate::graph::{Graph, Interval, InstrKind, Value, LiveRange};
use crate::ids::{BlockId, InstrId, IntervalId};

verus! {

/// `(i, j)` comes before `(i2, j2)` in row order.
pub open spec fn pair_before(i: int, j: int, i2: int, j2: int) -> bool {
    i < i2 || (i == i2 && j < j2)
}

impl<K> Graph<K> {
    /// There is a gap instruction at `pos`.
    pub open spec fn gap_at(&self, pos: int) -> bool {
        0 <= pos < self.ni() && self.instructions@[pos] .kind is Gap
    }

    /// Block `k` has instructions and ends (one past its last position)
    /// inside `(start, end]`.
    pub open spec fn split_candidate(&self, k: int, start: int, end: int) -> bool {
        &&& 0 <= k < self.nb()
        &&& self.blocks@[k].instructions@.len() > 0
        &&& start < self.blocks@[k].instructions@.last().0 + 1 <= end
    }

    pub open spec fn block_end(&self, k: int) -> int {
        self.blocks@[k].instructions@.last().0 + 1
    }

    /// A parent interval followed by its split children.
    pub open spec fn family(&self, v: IntervalId) -> Seq<IntervalId> {
        seq![v] + self.intervals@[v.0 as int].children@
    }
}

/// The first position where range `a` meets one of `rb`, tried in order.
pub open spec fn meet_row(a: LiveRange, rb: Seq<LiveRange>) -> Option<InstrId>
    decreases rb.len(),
{
    if rb.len() == 0 {
        None
    } else if a.spec_intersection(rb[0]) is Some {
        a.spec_intersection(rb[0])
    } else {
        meet_row(a, rb.drop_first())
    }
}

/// The first position where a range of `ra` meets one of `rb`: the ranges
/// of `ra` are tried in order, each against those of `rb` in order.
pub open spec fn first_meeting(ra: Seq<LiveRange>, rb: Seq<LiveRange>) -> Option<InstrId>
    decreases ra.len(),
{
    if ra.len() == 0 {
        None
    } else if meet_row(ra[0], rb) is Some {
        meet_row(ra[0], rb)
    } else {
        first_meeting(ra.drop_first(), rb)
    }
}

proof fn lemma_meet_row_none(a: LiveRange, rb: Seq<LiveRange>)
    requires
        forall|j: int| 0 <= j < rb.len() ==> (#[trigger] a.spec_intersection(rb[j])) is None,
    ensures
        meet_row(a, rb) is None,
    decreases rb.len(),
{
    if rb.len() > 0 {
        assert(a.spec_intersection(rb[0]) is None);
        let rest = rb.drop_first();
        assert forall|j: int| 0 <= j < rest.len() implies (#[trigger] a.spec_intersection(rest[j])) is None by {
            assert(rest[j] == rb[j + 1]);
        }
        lemma_meet_row_none(a, rest);
    }
}

proof fn lemma_meet_row_at(a: LiveRange, rb: Seq<LiveRange>, j: int)
    requires
        0 <= j < rb.len(),
        a.spec_intersection(rb[j]) is Some,
        forall|j2: int| 0 <= j2 < j ==> (#[trigger] a.spec_intersection(rb[j2])) is None,
    ensures
        meet_row(a, rb) == a.spec_intersection(rb[j]),
    decreases j,
{
    if j > 0 {
        assert(a.spec_intersection(rb[0]) is None);
        let rest = rb.drop_first();
        assert(rest[j - 1] == rb[j]);
        assert forall|j2: int| 0 <= j2 < j - 1 implies (#[trigger] a.spec_intersection(rest[j2])) is None by {
            assert(rest[j2] == rb[j2 + 1]);
        }
        lemma_meet_row_at(a, rest, j - 1);
    }
}

proof fn lemma_first_meeting_none(ra: Seq<LiveRange>, rb: Seq<LiveRange>)
    requires
        forall|i: int, j: int| 0 <= i < ra.len() && 0 <= j < rb.len()
            ==> (#[trigger] ra[i].spec_intersection(#[trigger] rb[j])) is None,
    ensures
        first_meeting(ra, rb) is None,
    decreases ra.len(),
{
    if ra.len() > 0 {
        assert forall|j: int| 0 <= j < rb.len() implies (#[trigger] ra[0].spec_intersection(rb[j])) is None by {}
        lemma_meet_row_none(ra[0], rb);
        let rest = ra.drop_first();
        assert forall|i: int, j: int| 0 <= i < rest.len() && 0 <= j < rb.len()
            implies (#[trigger] rest[i].spec_intersection(#[trigger] rb[j])) is None by {
            assert(rest[i] == ra[i + 1]);
        }
        lemma_first_meeting_none(rest, rb);
    }
}

proof fn lemma_first_meeting_at(ra: Seq<LiveRange>, rb: Seq<LiveRange>, i: int, j: int)
    requires
        0 <= i < ra.len(),
        0 <= j < rb.len(),
        ra[i].spec_intersection(rb[j]) is Some,
        forall|i2: int, j2: int| 0 <= i2 < ra.len() && 0 <= j2 < rb.len() && pair_before(i2, j2, i, j)
            ==> (#[trigger] ra[i2].spec_intersection(#[trigger] rb[j2])) is None,
    ensures
        first_meeting(ra, rb) == ra[i].spec_intersection(rb[j]),
    decreases i,
{
    if i == 0 {
        assert forall|j2: int| 0 <= j2 < j implies (#[trigger] ra[0].spec_intersection(rb[j2])) is None by {
            assert(pair_before(0, j2, 0, j));
        }
        lemma_meet_row_at(ra[0], rb, j);
    } else {
        assert forall|j2: int| 0 <= j2 < rb.len() implies (#[trigger] ra[0].spec_intersection(rb[j2])) is None by {
            assert(pair_before(0, j2, i, j));
        }
        lemma_meet_row_none(ra[0], rb);
        let rest = ra.drop_first();
        assert(rest[i - 1] == ra[i]);
        assert forall|i2: int, j2: int| 0 <= i2 < rest.len() && 0 <= j2 < rb.len() && pair_before(i2, j2, i - 1, j)
            implies (#[trigger] rest[i2].spec_intersection(#[trigger] rb[j2])) is None by {
            assert(rest[i2] == ra[i2 + 1]);
            assert(pair_before(i2 + 1, j2, i, j));
        }
        lemma_first_meeting_at(rest, rb, i - 1, j);
    }
}

impl<K> Graph<K> {
    /// The first position where intervals `a` and `b` meet.
    pub open spec fn intersection(&self, a: IntervalId, b: IntervalId) -> Option<InstrId> {
        first_meeting(self.intervals@[a.0 as int].ranges@, self.intervals@[b.0 as int].ranges@)
    }
}

/// The location of the first of `fam` that spans `pos` with a use there.
pub open spec fn first_spanning(ivs: Seq<Interval>, fam: Seq<IntervalId>, pos: int) -> Option<Value>
    decreases fam.len(),
{
    if fam.len() == 0 {
        None
    } else if ivs[fam[0].0 as int].spans_use(pos) {
        Some(ivs[fam[0].0 as int].value)
    } else {
        first_spanning(ivs, fam.drop_first(), pos)
    }
}

proof fn lemma_first_spanning_at(ivs: Seq<Interval>, fam: Seq<IntervalId>, pos: int, k: int)
    requires
        0 <= k < fam.len(),
        ivs[fam[k].0 as int].spans_use(pos),
        forall|j: int| 0 <= j < k ==> !ivs[(#[trigger] fam[j]).0 as int].spans_use(pos),
    ensures
        first_spanning(ivs, fam, pos) == Some(ivs[fam[k].0 as int].value),
    decreases k,
{
    if k > 0 {
        assert(!ivs[fam[0].0 as int].spans_use(pos));
        let rest = fam.drop_first();
        assert forall|j: int| 0 <= j < k - 1 implies !ivs[(#[trigger] rest[j]).0 as int].spans_use(pos) by {
            assert(rest[j] == fam[j + 1]);
        }
        lemma_first_spanning_at(ivs, rest, pos, k - 1);
    }
}

proof fn lemma_first_spanning_none(ivs: Seq<Interval>, fam: Seq<IntervalId>, pos: int)
    requires
        forall|j: int| 0 <= j < fam.len() ==> !ivs[(#[trigger] fam[j]).0 as int].spans_use(pos),
    ensures
        first_spanning(ivs, fam, pos) is None,
    decreases fam.len(),
{
    if fam.len() > 0 {
        assert(!ivs[fam[0].0 as int].spans_use(pos));
        let rest = fam.drop_first();
        assert forall|j: int| 0 <= j < rest.len() implies !ivs[(#[trigger] rest[j]).0 as int].spans_use(pos) by {
            assert(rest[j] == fam[j + 1]);
        }
        lemma_first_spanning_none(ivs, rest, pos);
    }
}

impl<K> Graph<K> {
    /// The location, at `pos`, of the part of value `i` that is used there.
    pub open spec fn value_at(&self, i: IntervalId, pos: int) -> Option<Value> {
        first_spanning(self.intervals@, self.family(i), pos)
    }
}

impl<K: KindHelper> Graph<K> {
    /// Whether the instruction at `pos` is a gap (positions past the last
    /// instruction hold none).
    pub fn is_gap(&self, pos: &InstrId) -> (r: bool)
        ensures
            r == self.gap_at(pos.0 as int),
    {
        if pos.0 >= self.instructions.len() {
            return false;
        }
        match self.instructions[pos.0].kind {
            InstrKind::Gap => true,
            _ => false,
        }
    }

    /// Whether the instruction at `pos` destroys the registers of `group`
    /// (positions past the last instruction hold none).
    pub fn clobbers(&self, group: usize, pos: &InstrId) -> (r: bool)
        ensures
            r ==> pos.0 < self.ni() && self.instructions@[pos.0 as int].kind is User,
    {
        if pos.0 >= self.instructions.len() {
            return false;
        }
        self.instructions[pos.0].kind.clobbers(group)
    }

    /// The first position where two intervals meet: ranges of `a` are
    /// tried in order, each against the ranges of `b` in order.
    pub fn get_intersection(&self, a: &IntervalId, b: &IntervalId) -> (r: Option<InstrId>)
        requires
            a.0 < self.nv(),
            b.0 < self.nv(),
        ensures
            r == self.intersection(*a, *b),
            ({
                let ra = self.intervals@[a.0 as int].ranges@;
                let rb = self.intervals@[b.0 as int].ranges@;
                &&& r is None ==> forall|i: int, j: int| 0 <= i < ra.len() && 0 <= j < rb.len()
                    ==> (#[trigger] ra[i].spec_intersection(#[trigger] rb[j])) is None
                &&& r matches Some(p) ==> exists|i: int, j: int| 0 <= i < ra.len() && 0 <= j < rb.len()
                    && ra[i].spec_intersection(rb[j]) == Some(p)
                    && forall|i2: int, j2: int| 0 <= i2 < ra.len() && 0 <= j2 < rb.len()
                        && pair_before(i2, j2, i, j) ==> (#[trigger] ra[i2].spec_intersection(#[trigger] rb[j2])) is None
            }),
    {
        let int_a = &self.intervals[a.0];
        let int_b = &self.intervals[b.0];
        let ghost ra = int_a.ranges@;
        let ghost rb = int_b.ranges@;
        let na = int_a.ranges.len();
        let nb = int_b.ranges.len();
        let mut i: usize = 0;
        while i < na
            invariant
                na == ra.len(),
                nb == rb.len(),
                ra == int_a.ranges@,
                rb == int_b.ranges@,
                a.0 < self.nv(),
                b.0 < self.nv(),
                ra == self.intervals@[a.0 as int].ranges@,
                rb == self.intervals@[b.0 as int].ranges@,
                i <= na,
                forall|i2: int, j2: int| 0 <= i2 < i && 0 <= j2 < nb
                    ==> (#[trigger] ra[i2].spec_intersection(#[trigger] rb[j2])) is None,
            decreases na - i,
        {
            let mut j: usize = 0;
            while j < nb
                invariant
                    na == ra.len(),
                    nb == rb.len(),
                    ra == int_a.ranges@,
                    rb == int_b.ranges@,
                    a.0 < self.nv(),
                    b.0 < self.nv(),
                    ra == self.intervals@[a.0 as int].ranges@,
                    rb == self.intervals@[b.0 as int].ranges@,
                    i < na,
                    j <= nb,
                    forall|i2: int, j2: int| 0 <= i2 < i && 0 <= j2 < nb
                        ==> (#[trigger] ra[i2].spec_intersection(#[trigger] rb[j2])) is None,
                    forall|j2: int| 0 <= j2 < j ==> (#[trigger] ra[i as int].spec_intersection(rb[j2])) is None,
                decreases nb - j,
            {
                let p = int_a.ranges[i].get_intersection(&int_b.ranges[j]);
                if let Some(q) = p {
                    proof {
                        assert(ra[i as int].spec_intersection(rb[j as int]) == Some(q));
                        assert forall|i2: int, j2: int| 0 <= i2 < ra.len() && 0 <= j2 < rb.len()
                            && pair_before(i2, j2, i as int, j as int)
                            implies (#[trigger] ra[i2].spec_intersection(#[trigger] rb[j2])) is None by {
                            if i2 == i {
                                assert(ra[i as int].spec_intersection(rb[j2]) is None);
                            }
                        }
                        assert(exists|i1: int, j1: int| 0 <= i1 < ra.len() && 0 <= j1 < rb.len()
                            && ra[i1].spec_intersection(rb[j1]) == Some(q)
                            && forall|i2: int, j2: int| 0 <= i2 < ra.len() && 0 <= j2 < rb.len()
                                && pair_before(i2, j2, i1, j1) ==> (#[trigger] ra[i2].spec_intersection(#[trigger] rb[j2])) is None);
                        lemma_first_meeting_at(ra, rb, i as int, j as int);
                    }
                    return Some(q);
                }
                j = j + 1;
            }
            assert forall|i2: int, j2: int| 0 <= i2 < i + 1 && 0 <= j2 < nb
                implies (#[trigger] ra[i2].spec_intersection(#[trigger] rb[j2])) is None by {
                if i2 == i {
                    assert(ra[i as int].spec_intersection(rb[j2]) is None);
                }
            }
            i = i + 1;
        }
        proof {
            lemma_first_meeting_none(ra, rb);
        }
        None
    }

    /// Whether `pos` is the first position of its block or the position
    /// right after the block's last one.
    pub fn block_boundary(&self, pos: InstrId) -> (r: bool)
        requires
            self.wf(),
            pos.0 < self.ni(),
            self.instructions@[pos.0 as int].block.0 < self.nb(),
            self.blocks@[self.instructions@[pos.0 as int].block.0 as int].instructions@.len() > 0,
        ensures
            ({
                let b = self.instructions@[pos.0 as int].block.0 as int;
                r == (self.blocks@[b].instructions@[0] == pos || self.block_end(b) == pos.0)
            }),
    {
        let block = &self.blocks[self.instructions[pos.0].block.0];
        let last = block.instructions[block.instructions.len() - 1];
        block.start() == pos || last.0 + 1 == pos.0
    }

    /// `base` is where a split between `start` and `end` goes before the
    /// step back: the end of the least deeply nested block that ends in
    /// `(start, end]`, the last one among equals, or `end` when none does.
    pub open spec fn base_chosen(&self, start: int, end: int, base: int) -> bool {
        &&& ((forall|k: int| !#[trigger] self.split_candidate(k, start, end)) ==> base == end)
        &&& ((exists|k: int| #[trigger] self.split_candidate(k, start, end)) ==> exists|k: int| {
            &&& #[trigger] self.split_candidate(k, start, end)
            &&& base == self.block_end(k)
            &&& forall|j: int| #[trigger] self.split_candidate(j, start, end)
                ==> self.blocks@[k].loop_depth <= self.blocks@[j].loop_depth
            &&& forall|j: int| k < j && #[trigger] self.split_candidate(j, start, end)
                ==> self.blocks@[k].loop_depth < self.blocks@[j].loop_depth
        })
    }

    /// `r` is the split position between `start` and `end` for the base
    /// position `base`, where `clob` tells whether the instruction there
    /// clobbers the group: `base` itself when it is a gap or such a call,
    /// else the position before it; refused when that leaves `(start, end]`.
    pub open spec fn split_pos_is(&self, start: int, end: int, base: int, clob: bool, r: Result<InstrId, String>) -> bool {
        let p = if self.gap_at(base) || clob { base } else { base - 1 };
        &&& (clob ==> 0 <= base < self.ni() && self.instructions@[base].kind is User)
        &&& self.base_chosen(start, end, base)
        &&& if start < p <= end { r == Ok::<InstrId, String>(InstrId(p as usize)) } else { r is Err }
    }

    /// Where to split an interval of `group` between `start` and `end`:
    /// at the end of the least deeply nested block that ends in
    /// `(start, end]` (the last such block when several are equally
    /// nested), or at `end` when none does; moved one position back unless
    /// that position is a gap or a call.
    pub fn optimal_split_pos(&self, group: usize, start: InstrId, end: InstrId) -> (r: Result<InstrId, String>)
        requires
            self.wf(),
        ensures
            start == end ==> r == Ok::<InstrId, String>(end),
            start != end ==> (r matches Ok(p) ==> {
                &&& start.0 < p.0 <= end.0
                &&& exists|base: int| {
                    &&& (p.0 == base || (p.0 == base - 1 && !self.gap_at(base)))
                    &&& ((forall|k: int| !#[trigger] self.split_candidate(k, start.0 as int, end.0 as int))
                        ==> base == end.0)
                    &&& ((exists|k: int| #[trigger] self.split_candidate(k, start.0 as int, end.0 as int))
                        ==> exists|k: int| {
                        &&& #[trigger] self.split_candidate(k, start.0 as int, end.0 as int)
                        &&& base == self.block_end(k)
                        &&& forall|j: int| #[trigger] self.split_candidate(j, start.0 as int, end.0 as int)
                            ==> self.blocks@[k].loop_depth <= self.blocks@[j].loop_depth
                        &&& forall|j: int| k < j && #[trigger] self.split_candidate(j, start.0 as int, end.0 as int)
                            ==> self.blocks@[k].loop_depth < self.blocks@[j].loop_depth
                    })
                }
            }),
            start.0 > end.0 ==> r is Err,
            r is Err ==> start.0 > end.0 || (start.0 < end.0 && !self.gap_at(start.0 + 1)),
            start.0 < end.0 ==> exists|base: int, clob: bool| #[trigger] self.split_pos_is(start.0 as int, end.0 as int, base, clob, r),
    {
        // Fast and unfortunate case
        if start.0 == end.0 {
            return Ok(end);
        }
        if start.0 > end.0 {
            return Err("split position out of order".to_owned());
        }
        let mut best_pos = end.0;
        let mut best_depth = usize::MAX;
        let ghost mut best_k: int = -1;
        let n = self.blocks.len();
        let mut k: usize = 0;
        while k < n
            invariant
                self.wf(),
                n == self.nb(),
                k <= n,
                start.0 < end.0,
                -1 <= best_k < k,
                best_k == -1 ==> best_pos == end.0 && best_depth == usize::MAX
                    && forall|j: int| 0 <= j < k ==> !#[trigger] self.split_candidate(j, start.0 as int, end.0 as int),
                best_k != -1 ==> {
                    &&& self.split_candidate(best_k, start.0 as int, end.0 as int)
                    &&& best_pos == self.block_end(best_k)
                    &&& best_depth == self.blocks@[best_k].loop_depth
                    &&& forall|j: int| 0 <= j < k && #[trigger] self.split_candidate(j, start.0 as int, end.0 as int)
                        ==> best_depth <= self.blocks@[j].loop_depth
                    &&& forall|j: int| best_k < j < k && #[trigger] self.split_candidate(j, start.0 as int, end.0 as int)
                        ==> best_depth < self.blocks@[j].loop_depth
                },
            decreases n - k,
        {
            let block = &self.blocks[k];
            if best_depth >= block.loop_depth && block.instructions.len() > 0 {
                let block_to = block.instructions[block.instructions.len() - 1].0 + 1;
                // Choose the most shallow block
                if start.0 < block_to && block_to <= end.0 {
                    best_pos = block_to;
                    best_depth = block.loop_depth;
                    proof {
                        best_k = k as int;
                    }
                }
            }
            k = k + 1;
        }
        let ghost base = best_pos as int;
        proof {
            if best_k != -1 {
                assert(self.split_candidate(best_k, start.0 as int, end.0 as int));
            }
            assert(self.base_chosen(start.0 as int, end.0 as int, base));
        }
        // Always split at gap
        let gap = self.is_gap(&InstrId(best_pos));
        let clob = self.clobbers(group, &InstrId(best_pos));
        if !gap && !clob {
            best_pos = best_pos - 1;
        }
        if !(start.0 < best_pos && best_pos <= end.0) {
            let r = Err("no position to split at".to_owned());
            assert(self.split_pos_is(start.0 as int, end.0 as int, base, clob, r));
            return r;
        }
        let r = Ok(InstrId(best_pos));
        assert(self.split_pos_is(start.0 as int, end.0 as int, base, clob, r));
        r
    }

    /// Run `f` on interval `id`, then on each of its split children in
    /// order until `f` answers false; false when it answered false on `id`
    /// itself.
    pub fn iterate_children<F: Fn(&Interval) -> bool>(&self, id: &IntervalId, f: F) -> (r: bool)
        requires
            self.wf(),
            id.0 < self.nv(),
            forall|iv: &Interval| f.requires((iv,)),
        ensures
            r == false ==> f.ensures((&self.intervals@[id.0 as int],), false),
            r == true ==> f.ensures((&self.intervals@[id.0 as int],), true),
            r == true ==> exists|k: int| self.children_visited(id.0 as int, f, k),
    {
        let p = &self.intervals[id.0];
        if !f(p) {
            return false;
        }
        let n = p.children.len();
        let mut k: usize = 0;
        let mut stopped = false;
        while k < n && !stopped
            invariant
                self.wf(),
                id.0 < self.nv(),
                p == &self.intervals@[id.0 as int],
                n == p.children@.len(),
                k <= n,
                forall|iv: &Interval| f.requires((iv,)),
                forall|j: int| 0 <= j < k ==> f.ensures((&self.intervals@[(#[trigger] p.children@[j]).0 as int],), true),
                stopped ==> k < n && f.ensures((&self.intervals@[p.children@[k as int].0 as int],), false),
            decreases n - k + (if stopped { 0int } else { 1int }),
        {
            let child = &self.intervals[p.children[k].0];
            if !f(child) {
                stopped = true;
            } else {
                k = k + 1;
            }
        }
        assert(self.children_visited(id.0 as int, f, k as int));
        true
    }

    /// `f` answered true on the first `k` split children of interval `v`
    /// and, when there is a next one, false on it.
    pub open spec fn children_visited<F: Fn(&Interval) -> bool>(&self, v: int, f: F, k: int) -> bool {
        let ch = self.intervals@[v].children@;
        &&& 0 <= k <= ch.len()
        &&& forall|j: int| 0 <= j < k ==> f.ensures((&self.intervals@[(#[trigger] ch[j]).0 as int],), true)
        &&& k < ch.len() ==> f.ensures((&self.intervals@[ch[k].0 as int],), false)
    }

    /// The first of interval `parent` and its split children whose span
    /// (from its start to its end) contains `pos`.
    pub fn child_at(&self, parent: &IntervalId, pos: InstrId) -> (r: Option<IntervalId>)
        requires
            self.wf(),
            parent.0 < self.nv(),
        ensures
            ({
                let fam = self.family(*parent);
                &&& r is None ==> forall|k: int| 0 <= k < fam.len() ==> !self.intervals@[(#[trigger] fam[k]).0 as int].spans(pos.0 as int)
                &&& r matches Some(c) ==> exists|k: int| 0 <= k < fam.len() && fam[k] == c
                    && self.intervals@[c.0 as int].spans(pos.0 as int)
                    && forall|j: int| 0 <= j < k ==> !self.intervals@[(#[trigger] fam[j]).0 as int].spans(pos.0 as int)
            }),
    {
        let ghost fam = self.family(*parent);
        let p = &self.intervals[parent.0];
        if p.spans_pos(pos) {
            assert(fam[0] == *parent);
            return Some(*parent);
        }
        let n = p.children.len();
        let mut k: usize = 0;
        while k < n
            invariant
                self.wf(),
                parent.0 < self.nv(),
                p == &self.intervals@[parent.0 as int],
                fam == self.family(*parent),
                n == p.children@.len(),
                k <= n,
                forall|j: int| 0 <= j < k + 1 ==> !self.intervals@[(#[trigger] fam[j]).0 as int].spans(pos.0 as int),
            decreases n - k,
        {
            let c = p.children[k];
            if self.intervals[c.0].spans_pos(pos) {
                assert(fam[k + 1] == c);
                return Some(c);
            }
            assert(fam[k + 1] == c);
            k = k + 1;
        }
        None
    }

    /// The first of interval `parent` and its split children that spans
    /// `pos` (end included) and has a use at `pos`.
    pub fn child_with_use_at(&self, parent: &IntervalId, pos: InstrId) -> (r: Option<IntervalId>)
        requires
            self.wf(),
            parent.0 < self.nv(),
        ensures
            ({
                let fam = self.family(*parent);
                &&& r is None ==> forall|k: int| 0 <= k < fam.len() ==> !self.intervals@[(#[trigger] fam[k]).0 as int].spans_use(pos.0 as int)
                &&& r matches Some(c) ==> exists|k: int| 0 <= k < fam.len() && fam[k] == c
                    && self.intervals@[c.0 as int].spans_use(pos.0 as int)
                    && forall|j: int| 0 <= j < k ==> !self.intervals@[(#[trigger] fam[j]).0 as int].spans_use(pos.0 as int)
            }),
    {
        let ghost fam = self.family(*parent);
        let p = &self.intervals[parent.0];
        if p.spans_use_at(pos) {
            assert(fam[0] == *parent);
            return Some(*parent);
        }
        let n = p.children.len();
        let mut k: usize = 0;
        while k < n
            invariant
                self.wf(),
                parent.0 < self.nv(),
                p == &self.intervals@[parent.0 as int],
                fam == self.family(*parent),
                n == p.children@.len(),
                k <= n,
                forall|j: int| 0 <= j < k + 1 ==> !self.intervals@[(#[trigger] fam[j]).0 as int].spans_use(pos.0 as int),
            decreases n - k,
        {
            let c = p.children[k];
            if self.intervals[c.0].spans_use_at(pos) {
                assert(fam[k + 1] == c);
                return Some(c);
            }
            assert(fam[k + 1] == c);
            k = k + 1;
        }
        None
    }

    /// The location of interval `i` (or of the split child of it) that has
    /// a use at `pos`.
    pub fn get_value(&self, i: &IntervalId, pos: InstrId) -> (r: Option<Value>)
        requires
            self.wf(),
            i.0 < self.nv(),
        ensures
            r == self.value_at(*i, pos.0 as int),
            ({
                let fam = self.family(*i);
                &&& r is None ==> forall|k: int| 0 <= k < fam.len() ==> !self.intervals@[(#[trigger] fam[k]).0 as int].spans_use(pos.0 as int)
                &&& r matches Some(v) ==> exists|k: int| 0 <= k < fam.len()
                    && self.intervals@[fam[k].0 as int].value == v
                    && self.intervals@[fam[k].0 as int].spans_use(pos.0 as int)
                    && forall|j: int| 0 <= j < k ==> !self.intervals@[(#[trigger] fam[j]).0 as int].spans_use(pos.0 as int)
            }),
    {
        let r = match self.child_with_use_at(i, pos) {
            Some(child) => Some(self.intervals[child.0].value),
            None => None,
        };
        proof {
            let fam = self.family(*i);
            if r is None {
                lemma_first_spanning_none(self.intervals@, fam, pos.0 as int);
            } else {
                let k = choose|k: int| 0 <= k < fam.len() && self.intervals@[fam[k].0 as int].value == r->0
                    && self.intervals@[fam[k].0 as int].spans_use(pos.0 as int)
                    && forall|j: int| 0 <= j < k ==> !self.intervals@[(#[trigger] fam[j]).0 as int].spans_use(pos.0 as int);
                lemma_first_spanning_at(self.intervals@, fam, pos.0 as int, k);
            }
        }
        r
    }
}

} // verus!
