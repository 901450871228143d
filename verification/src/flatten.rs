use vstd::prelude::*;
use crate::api::KindHelper;
use crate::counting::{count_unset, count_seen, lemma_count_unset_set, lemma_count_seen_push};
use crate::graph::{Graph, Block, Instruction, InstrKind, blocks_below};
use crate::ids::InstrId;
use crate::ids::BlockId;

verus! {

/// Two blocks that differ at most in their loop numbering and their count
/// of incoming forward branches.
pub open spec fn same_shape(a: Block, b: Block) -> bool {
    &&& a.id == b.id
    &&& a.instructions == b.instructions
    &&& a.successors == b.successors
    &&& a.predecessors == b.predecessors
    &&& a.live_gen == b.live_gen
    &&& a.live_kill == b.live_kill
    &&& a.live_in == b.live_in
    &&& a.live_out == b.live_out
    &&& a.ended == b.ended
}

/// Flatten the graph: number the blocks in a linear order that puts a
/// block after all its forward predecessors, and number the instructions
/// as positions in that order, with gaps around them.
pub trait Flatten {
    fn flatten(&mut self) -> Result<(), String>;
}

/// Block `b` is reached from the root of `g` in at most `n` steps along
/// successor edges.
pub open spec fn reached<K>(g: Graph<K>, b: int, n: nat) -> bool
    decreases n,
{
    if n == 0 {
        g.root matches Some(r) && r.0 == b
    } else {
        reached(g, b, (n - 1) as nat) || exists|p: int, j: int| 0 <= p < g.nb() && 0 <= j < g.blocks@[p].successors@.len()
            && #[trigger] g.blocks@[p].successors@[j].0 == b && reached(g, p, (n - 1) as nat)
    }
}

/// Block `b` jumps to itself: a loop of one block.
pub open spec fn self_loop<K>(g: Graph<K>, b: int) -> bool {
    g.blocks@[b].successors@.contains(BlockId(b as usize))
}

/// A set of blocks that holds the root and every successor of its blocks
/// holds every block reached from the root.
proof fn lemma_reached_closed<K>(g: Graph<K>, marked: Seq<bool>, b: int, n: nat)
    requires
        marked.len() == g.nb(),
        g.root matches Some(r) && 0 <= r.0 < g.nb() && marked[r.0 as int],
        forall|p: int, j: int| 0 <= p < g.nb() && marked[p] && 0 <= j < g.blocks@[p].successors@.len()
            ==> marked[(#[trigger] g.blocks@[p].successors@[j]).0 as int],
        reached(g, b, n),
    ensures
        marked[b],
    decreases n,
{
    if n > 0 {
        if reached(g, b, (n - 1) as nat) {
            lemma_reached_closed(g, marked, b, (n - 1) as nat);
        } else {
            let (p, j) = choose|p: int, j: int| 0 <= p < g.nb() && 0 <= j < g.blocks@[p].successors@.len()
                && #[trigger] g.blocks@[p].successors@[j].0 == b && reached(g, p, (n - 1) as nat);
            lemma_reached_closed(g, marked, p, (n - 1) as nat);
        }
    }
}

proof fn lemma_push_keeps<T>(s: Seq<T>, x: T)
    ensures
        forall|y: T| s.contains(y) ==> #[trigger] s.push(x).contains(y),
        s.push(x).contains(x),
{
    assert forall|y: T| s.contains(y) implies #[trigger] s.push(x).contains(y) by {
        let q = choose|q: int| 0 <= q < s.len() && s[q] == y;
        assert(s.push(x)[q] == y);
    }
    assert(s.push(x)[s.len() as int] == x);
}

/// Block `b` is reached from the root and jumps to itself: a loop of one
/// block.
pub open spec fn one_block_loop<K>(g: Graph<K>, b: int) -> bool {
    &&& exists|k: nat| #[trigger] reached(g, b, k)
    &&& self_loop(g, b)
}

/// Block `b1` is block `b0` after loop numbering: it is nested at least as
/// deeply, and more deeply where it was given a loop number.
pub open spec fn deepened(b1: Block, b0: Block) -> bool {
    &&& b1.loop_depth >= b0.loop_depth
    &&& b1.loop_index != b0.loop_index ==> b1.loop_depth > b0.loop_depth
}

/// Each block `k` of `g1` is block `list[k]` of `g0` after loop numbering.
/// A block of `g0` that forms a loop by itself is nested more deeply.
pub open spec fn loops_deepened<K>(g1: Graph<K>, g0: Graph<K>, list: Seq<BlockId>) -> bool {
    &&& forall|k: int| 0 <= k < g1.nb() ==> #[trigger] deepened(g1.blocks@[k], g0.blocks@[list[k].0 as int])
    &&& forall|k: int| 0 <= k < g1.nb() && #[trigger] one_block_loop(g0, list[k].0 as int)
        ==> g1.blocks@[k].loop_depth > g0.blocks@[list[k].0 as int].loop_depth
}

/// How many times block `b` occurs in `s`.
pub open spec fn hits(s: Seq<BlockId>, b: int) -> nat
    decreases s.len(),
{
    if s.len() == 0 {
        0
    } else {
        hits(s.drop_last(), b) + if s.last().0 == b { 1nat } else { 0nat }
    }
}

/// Block `after` is block `before` with its count of incoming forward
/// branches lowered by `h`, not below zero, and its loop numbering kept.
pub open spec fn counted_down(after: Block, before: Block, h: nat) -> bool {
    let b = before.incoming_forward_branches as int;
    &&& after.loop_depth == before.loop_depth
    &&& after.loop_index == before.loop_index
    &&& after.incoming_forward_branches as int == if b > h { b - h } else { 0 }
}

fn falses(n: usize) -> (r: Vec<bool>)
    ensures
        r@.len() == n,
        forall|i: int| 0 <= i < n ==> !#[trigger] r@[i],
{
    let mut r: Vec<bool> = Vec::new();
    let mut k: usize = 0;
    while k < n
        invariant
            k <= n,
            r@.len() == k,
            forall|i: int| 0 <= i < k ==> !#[trigger] r@[i],
        decreases n - k,
    {
        r.push(false);
        k = k + 1;
    }
    r
}

impl<K: KindHelper> Graph<K> {
    /// Walk the blocks breadth first from the root; an edge to an already
    /// visited block closes a loop. The result lists, for each loop start,
    /// the blocks whose edges close loops there.
    pub fn flatten_get_ends(&self) -> (r: Result<Vec<Vec<BlockId>>, String>)
        requires
            self.wf(),
        ensures
            r is Err <==> self.root is None,
            r matches Ok(ends) ==> ends@.len() == self.nb()
                && forall|b: int| 0 <= b < ends@.len() ==> blocks_below((#[trigger] ends@[b])@, self.nb()),
            r matches Ok(ends) ==> forall|b: int, e: int| 0 <= b < ends@.len() && 0 <= e < ends@[b]@.len()
                ==> self.blocks@[(#[trigger] ends@[b]@[e]).0 as int].successors@.contains(BlockId(b as usize)),
            r matches Ok(ends) ==> forall|b: int| 0 <= b < self.nb() && (exists|k: nat| #[trigger] reached(*self, b, k))
                && self_loop(*self, b) ==> ends@[b]@.contains(BlockId(b as usize)),
    {
        let root = match self.root {
            Some(r) => r,
            None => {
                return Err("Root block".to_owned());
            },
        };
        let n = self.blocks.len();
        let mut ends: Vec<Vec<BlockId>> = Vec::new();
        let mut k: usize = 0;
        while k < n
            invariant
                k <= n,
                ends@.len() == k,
                forall|b: int| 0 <= b < ends@.len() ==> blocks_below((#[trigger] ends@[b])@, n as nat),
                forall|b: int, e: int| 0 <= b < ends@.len() && 0 <= e < ends@[b]@.len()
                    ==> self.blocks@[(#[trigger] ends@[b]@[e]).0 as int].successors@.contains(BlockId(b as usize)),
            decreases n - k,
        {
            ends.push(Vec::new());
            k = k + 1;
        }
        let mut visited = falses(n);
        let mut queue: Vec<usize> = Vec::new();
        queue.push(root.0);
        assert(queue@[0] == root.0);
        while queue.len() > 0
            invariant
                self.wf(),
                n == self.nb(),
                visited@.len() == n,
                ends@.len() == n,
                forall|b: int| 0 <= b < ends@.len() ==> blocks_below((#[trigger] ends@[b])@, n as nat),
                forall|b: int, e: int| 0 <= b < ends@.len() && 0 <= e < ends@[b]@.len()
                    ==> self.blocks@[(#[trigger] ends@[b]@[e]).0 as int].successors@.contains(BlockId(b as usize)),
                forall|q: int| 0 <= q < queue@.len() ==> (#[trigger] queue@[q]) < n,
                root.0 < n,
                self.root == Some(root),
                visited@[root.0 as int] || queue@.contains(root.0),
                forall|u: int, j: int| 0 <= u < n && visited@[u] && 0 <= j < self.blocks@[u].successors@.len()
                    ==> visited@[(#[trigger] self.blocks@[u].successors@[j]).0 as int]
                        || queue@.contains(self.blocks@[u].successors@[j].0),
                forall|u: int| 0 <= u < n && visited@[u] && #[trigger] self_loop(*self, u) ==> ends@[u]@.contains(BlockId(u as usize)),
            decreases count_unset(visited@), count_seen(queue@, visited@),
        {
            let ghost q0 = queue@;
            let ghost v0 = visited@;
            let cur = queue.remove(0);
            assert(q0.remove(0) =~= q0.drop_first());
            let was = visited[cur];
            visited.set(cur, true);
            proof {
                lemma_count_unset_set(v0, cur as int);
                if was {
                    assert(visited@ =~= v0);
                }
            }
            proof {
                assert forall|u: int, j: int| 0 <= u < n && visited@[u] && u != cur && 0 <= j < self.blocks@[u].successors@.len()
                    implies visited@[(#[trigger] self.blocks@[u].successors@[j]).0 as int]
                        || queue@.contains(self.blocks@[u].successors@[j].0) by {
                    let sb = self.blocks@[u].successors@[j].0;
                    assert(v0[u]);
                    if !v0[sb as int] {
                        assert(q0.contains(sb));
                        let q = choose|q: int| 0 <= q < q0.len() && q0[q] == sb;
                        if q > 0 {
                            assert(queue@[q - 1] == sb);
                        } else {
                            assert(sb == cur);
                        }
                    }
                }
                if !v0[root.0 as int] && root.0 != cur {
                    let q = choose|q: int| 0 <= q < q0.len() && q0[q] == root.0;
                    if q > 0 {
                        assert(queue@[q - 1] == root.0);
                    }
                }
            }
            let succs = &self.blocks[cur].successors;
            let m = succs.len();
            let ghost qs = queue@;
            let mut j: usize = 0;
            while j < m
                invariant
                    self.wf(),
                    n == self.nb(),
                    cur < n,
                    succs == &self.blocks@[cur as int].successors,
                    m == succs@.len(),
                    j <= m,
                    visited@.len() == n,
                    ends@.len() == n,
                    forall|b: int| 0 <= b < ends@.len() ==> blocks_below((#[trigger] ends@[b])@, n as nat),
                    forall|b: int, e: int| 0 <= b < ends@.len() && 0 <= e < ends@[b]@.len()
                        ==> self.blocks@[(#[trigger] ends@[b]@[e]).0 as int].successors@.contains(BlockId(b as usize)),
                    forall|q: int| 0 <= q < queue@.len() ==> (#[trigger] queue@[q]) < n,
                    count_seen(queue@, visited@) == count_seen(qs, visited@),
                    root.0 < n,
                    self.root == Some(root),
                    visited@[cur as int],
                    visited@[root.0 as int] || queue@.contains(root.0),
                    forall|u: int, j2: int| 0 <= u < n && visited@[u] && u != cur && 0 <= j2 < self.blocks@[u].successors@.len()
                        ==> visited@[(#[trigger] self.blocks@[u].successors@[j2]).0 as int]
                            || queue@.contains(self.blocks@[u].successors@[j2].0),
                    forall|j2: int| 0 <= j2 < j ==> visited@[(#[trigger] succs@[j2]).0 as int] || queue@.contains(succs@[j2].0),
                    forall|u: int| 0 <= u < n && visited@[u] && u != cur && #[trigger] self_loop(*self, u)
                        ==> ends@[u]@.contains(BlockId(u as usize)),
                    forall|j2: int| 0 <= j2 < j && (#[trigger] succs@[j2]).0 == cur ==> ends@[cur as int]@.contains(BlockId(cur)),
                decreases m - j,
            {
                let succ = succs[j];
                let ghost qb = queue@;
                let ghost eb = ends@;
                if visited[succ.0] {
                    // Loop detected
                    let ghost e0 = ends@;
                    ends[succ.0].push(BlockId(cur));
                    assert(blocks_below(ends@[succ.0 as int]@, n as nat));
                    proof {
                        assert(succs@[j as int] == succ);
                        assert forall|b: int, e: int| 0 <= b < ends@.len() && 0 <= e < ends@[b]@.len()
                            implies self.blocks@[(#[trigger] ends@[b]@[e]).0 as int].successors@.contains(BlockId(b as usize)) by {
                            if b == succ.0 && e == e0[b]@.len() {
                                assert(ends@[b]@[e] == BlockId(cur));
                                assert(self.blocks@[cur as int].successors@[j as int] == BlockId(b as usize));
                            } else {
                                assert(ends@[b]@[e] == e0[b]@[e]);
                            }
                        }
                    }
                } else {
                    proof {
                        lemma_count_seen_push(queue@, visited@, succ.0);
                    }
                    queue.push(succ.0);
                }
                proof {
                    lemma_push_keeps(qb, succ.0);
                    lemma_push_keeps(eb[succ.0 as int]@, BlockId(cur));
                    assert forall|b: int| 0 <= b < n && b != succ.0 implies #[trigger] ends@[b] == eb[b] by {}
                    assert(succs@[j as int] == succ);
                    assert forall|u: int| 0 <= u < n && visited@[u] && u != cur && #[trigger] self_loop(*self, u)
                        implies ends@[u]@.contains(BlockId(u as usize)) by {
                        assert(eb[u]@.contains(BlockId(u as usize)));
                        if u == succ.0 {
                            assert(ends@[u]@ == eb[u]@.push(BlockId(cur)));
                        }
                    }
                    assert forall|j2: int| 0 <= j2 < j + 1 && (#[trigger] succs@[j2]).0 == cur
                        implies ends@[cur as int]@.contains(BlockId(cur)) by {
                        if j2 < j {
                            assert(eb[cur as int]@.contains(BlockId(cur)));
                            if succ.0 == cur {
                                assert(ends@[cur as int]@ == eb[cur as int]@.push(BlockId(cur)));
                            }
                        } else {
                            assert(succ.0 == cur);
                            assert(ends@[cur as int]@ == eb[cur as int]@.push(BlockId(cur)));
                        }
                    }
                }
                j = j + 1;
            }
        }
        proof {
            assert forall|b: int| 0 <= b < self.nb() && (exists|k: nat| #[trigger] reached(*self, b, k)) && self_loop(*self, b)
                implies ends@[b]@.contains(BlockId(b as usize)) by {
                let k = choose|k: nat| #[trigger] reached(*self, b, k);
                assert forall|p: int, jj: int| 0 <= p < self.nb() && visited@[p] && 0 <= jj < self.blocks@[p].successors@.len()
                    implies visited@[(#[trigger] self.blocks@[p].successors@[jj]).0 as int] by {
                    if !visited@[self.blocks@[p].successors@[jj].0 as int] {
                        assert(queue@.contains(self.blocks@[p].successors@[jj].0));
                    }
                }
                if !visited@[root.0 as int] {
                    assert(queue@.contains(root.0));
                }
                lemma_reached_closed(*self, visited@, b, k);
            }
        }
        Ok(ends)
    }
}


impl<K: KindHelper> Graph<K> {
    /// Every block keeps its shape and the rest of the graph is unchanged.
    pub open spec fn reshaped_from(&self, g0: &Graph<K>) -> bool {
        &&& self.wf()
        &&& self.nb() == g0.nb()
        &&& self.same_but_blocks(g0)
        &&& self.block_id == g0.block_id
        &&& forall|b: int| 0 <= b < self.nb() ==> same_shape(#[trigger] self.blocks@[b], g0.blocks@[b])
    }

    /// Number the loops: for each loop start (in increasing order), walk
    /// backwards from the blocks that close the loop up to the start, and
    /// put every block found at the start's nesting depth one level deeper,
    /// with the loop's index. A loop start must have exactly two incoming
    /// forward branches, one of which is the loop's back edge.
    pub fn flatten_assign_indexes(&mut self) -> (r: Result<(), String>)
        requires
            old(self).wf(),
        ensures
            r is Ok ==> final(self).reshaped_from(old(self)),
            r is Ok ==> forall|b: int| 0 <= b < final(self).nb() ==> #[trigger] deepened(final(self).blocks@[b], old(self).blocks@[b]),
            r is Ok ==> forall|b: int| 0 <= b < final(self).nb() && #[trigger] one_block_loop(*old(self), b)
                ==> final(self).blocks@[b].loop_depth > old(self).blocks@[b].loop_depth,
            old(self).root is None ==> r is Err,
    {
        let ends = self.flatten_get_ends()?;
        let n = self.blocks.len();
        let ghost g0 = *self;
        let mut loop_index: usize = 1;
        let mut start: usize = 0;
        while start < n
            invariant
                n == g0.nb(),
                ends@.len() == n,
                forall|b: int| 0 <= b < ends@.len() ==> blocks_below((#[trigger] ends@[b])@, n as nat),
                start <= n,
                1 <= loop_index <= start + 1,
                self.reshaped_from(&g0),
                forall|b: int| 0 <= b < n ==> #[trigger] deepened(self.blocks@[b], g0.blocks@[b]),
                g0 == *old(self),
                forall|b: int| 0 <= b < n && #[trigger] one_block_loop(g0, b) ==> ends@[b]@.contains(BlockId(b as usize)),
                forall|b: int| 0 <= b < start && #[trigger] one_block_loop(g0, b)
                    ==> self.blocks@[b].loop_depth > g0.blocks@[b].loop_depth,
            decreases n - start,
        {
            if ends[start].len() > 0 {
                let mut visited = falses(n);
                let expected_depth = self.blocks[start].loop_depth;
                assert(deepened(self.blocks@[start as int], g0.blocks@[start as int]));
                // Decrement number of incoming forward branches
                if self.blocks[start].incoming_forward_branches != 2 {
                    return Err("loop start without two incoming forward branches".to_owned());
                }
                let ghost before_ifb = *self;
                self.blocks[start].incoming_forward_branches = 1;
                proof {
                    assert forall|b: int| 0 <= b < n implies #[trigger] deepened(self.blocks@[b], g0.blocks@[b]) by {
                        assert(deepened(before_ifb.blocks@[b], g0.blocks@[b]));
                    }
                }
                let mut queue: Vec<usize> = Vec::new();
                let m = ends[start].len();
                let mut j: usize = 0;
                while j < m
                    invariant
                        n == g0.nb(),
                        ends@.len() == n,
                        forall|b: int| 0 <= b < ends@.len() ==> blocks_below((#[trigger] ends@[b])@, n as nat),
                        start < n,
                        m == ends@[start as int]@.len(),
                        j <= m,
                        forall|q: int| 0 <= q < queue@.len() ==> (#[trigger] queue@[q]) < n,
                        forall|jj: int| 0 <= jj < j ==> queue@.contains((#[trigger] ends@[start as int]@[jj]).0),
                    decreases m - j,
                {
                    let ghost qb = queue@;
                    queue.push(ends[start][j].0);
                    proof {
                        lemma_push_keeps(qb, ends@[start as int]@[j as int].0);
                    }
                    j = j + 1;
                }
                proof {
                    if one_block_loop(g0, start as int) {
                        let jj = choose|jj: int| 0 <= jj < m && ends@[start as int]@[jj] == BlockId(start);
                        assert(queue@.contains(ends@[start as int]@[jj].0));
                    }
                }
                while queue.len() > 0
                    invariant
                        n == g0.nb(),
                        start < n,
                        visited@.len() == n,
                        forall|q: int| 0 <= q < queue@.len() ==> (#[trigger] queue@[q]) < n,
                        self.reshaped_from(&g0),
                        1 <= loop_index <= start + 1,
                        forall|b: int| 0 <= b < n ==> #[trigger] deepened(self.blocks@[b], g0.blocks@[b]),
                        expected_depth >= g0.blocks@[start as int].loop_depth,
                        forall|b: int| 0 <= b < start && #[trigger] one_block_loop(g0, b)
                            ==> self.blocks@[b].loop_depth > g0.blocks@[b].loop_depth,
                        one_block_loop(g0, start as int) && !visited@[start as int] ==> queue@.contains(start)
                            && self.blocks@[start as int].loop_depth == expected_depth,
                        one_block_loop(g0, start as int) && visited@[start as int]
                            ==> self.blocks@[start as int].loop_depth == expected_depth + 1,
                    decreases count_unset(visited@), queue@.len(),
                {
                    let ghost v0 = visited@;
                    let ghost q0 = queue@;
                    let cur = queue.remove(0);
                    proof {
                        if one_block_loop(g0, start as int) && !v0[start as int] && cur != start {
                            let q = choose|q: int| 0 <= q < q0.len() && q0[q] == start;
                            assert(q != 0);
                            assert(queue@[q - 1] == start);
                        }
                    }
                    // Skip visited blocks
                    if visited[cur] {
                        continue;
                    }
                    visited.set(cur, true);
                    proof {
                        lemma_count_unset_set(v0, cur as int);
                    }
                    // Set depth and index of not-visited-yet nodes,
                    // if we're not visiting nested loop
                    if self.blocks[cur].loop_depth == expected_depth {
                        if expected_depth == usize::MAX {
                            return Err("loops nested too deeply".to_owned());
                        }
                        let ghost before_num = *self;
                        self.blocks[cur].loop_index = loop_index;
                        self.blocks[cur].loop_depth = expected_depth + 1;
                        proof {
                            assert forall|b: int| 0 <= b < n implies #[trigger] deepened(self.blocks@[b], g0.blocks@[b]) by {
                                assert(deepened(before_num.blocks@[b], g0.blocks@[b]));
                            }
                            assert forall|b: int| 0 <= b < start && #[trigger] one_block_loop(g0, b)
                                implies self.blocks@[b].loop_depth > g0.blocks@[b].loop_depth by {
                                assert(before_num.blocks@[b].loop_depth > g0.blocks@[b].loop_depth);
                            }
                        }
                    }
                    // Enqueue predecessors if current is not a loop start
                    if cur != start {
                        let preds = &self.blocks[cur].predecessors;
                        let pm = preds.len();
                        let mut k: usize = 0;
                        while k < pm
                            invariant
                                n == g0.nb(),
                                self.reshaped_from(&g0),
                                forall|b: int| 0 <= b < n ==> #[trigger] deepened(self.blocks@[b], g0.blocks@[b]),
                                cur < n,
                                preds == &self.blocks@[cur as int].predecessors,
                                pm == preds@.len(),
                                k <= pm,
                                forall|q: int| 0 <= q < queue@.len() ==> (#[trigger] queue@[q]) < n,
                                start < n,
                                visited@.len() == n,
                                expected_depth >= g0.blocks@[start as int].loop_depth,
                                forall|b: int| 0 <= b < start && #[trigger] one_block_loop(g0, b)
                                    ==> self.blocks@[b].loop_depth > g0.blocks@[b].loop_depth,
                                one_block_loop(g0, start as int) && !visited@[start as int] ==> queue@.contains(start)
                                    && self.blocks@[start as int].loop_depth == expected_depth,
                                one_block_loop(g0, start as int) && visited@[start as int]
                                    ==> self.blocks@[start as int].loop_depth == expected_depth + 1,
                            decreases pm - k,
                        {
                            let ghost qb = queue@;
                            queue.push(preds[k].0);
                            proof {
                                lemma_push_keeps(qb, preds@[k as int].0);
                            }
                            k = k + 1;
                        }
                    }
                }
                proof {
                    assert forall|b: int| 0 <= b < start + 1 && #[trigger] one_block_loop(g0, b)
                        implies self.blocks@[b].loop_depth > g0.blocks@[b].loop_depth by {
                        if b == start {
                            assert(visited@[start as int]);
                        }
                    }
                }
                // Increment loop index
                if loop_index == usize::MAX {
                    return Err("too many loops".to_owned());
                }
                loop_index = loop_index + 1;
            }
            proof {
                if ends@[start as int]@.len() == 0 {
                    assert(!one_block_loop(g0, start as int)) by {
                        if one_block_loop(g0, start as int) {
                            assert(ends@[start as int]@.contains(BlockId(start)));
                        }
                    }
                }
            }
            start = start + 1;
        }
        Ok(())
    }
}


/// A block with nothing in it, to stand in for one that was moved out.
fn placeholder_block() -> (r: Block)
    ensures
        r.instructions@.len() == 0,
        r.successors@.len() == 0,
        r.predecessors@.len() == 0,
        r.live_gen.bound() == 0,
        r.live_kill.bound() == 0,
        r.live_in.bound() == 0,
        r.live_out.bound() == 0,
        r.id == BlockId(0),
        r.loop_index == 0,
        r.loop_depth == 0,
        r.incoming_forward_branches == 0,
        !r.ended,
{
    Block {
        id: BlockId(0),
        instructions: Vec::new(),
        successors: Vec::new(),
        predecessors: Vec::new(),
        loop_index: 0,
        loop_depth: 0,
        incoming_forward_branches: 0,
        live_gen: crate::bitset::BitSet::new(),
        live_kill: crate::bitset::BitSet::new(),
        live_in: crate::bitset::BitSet::new(),
        live_out: crate::bitset::BitSet::new(),
        ended: false,
    }
}

/// No block appears twice.
pub open spec fn distinct_blocks(s: Seq<BlockId>) -> bool {
    forall|i: int, j: int| 0 <= i < j < s.len() ==> s[i] != s[j]
}

/// Block `b` is among those of `list`.
pub open spec fn listed(list: Seq<BlockId>, b: BlockId) -> bool {
    exists|j: int| 0 <= j < list.len() && list[j] == b
}

/// Every successor and predecessor of the blocks of `list` in `g` is among
/// them.
pub open spec fn edges_listed<K>(g: Graph<K>, list: Seq<BlockId>) -> bool {
    &&& forall|k: int, j: int| 0 <= k < list.len() && 0 <= j < g.blocks@[list[k].0 as int].successors@.len()
        ==> listed(list, #[trigger] g.blocks@[list[k].0 as int].successors@[j])
    &&& forall|k: int, j: int| 0 <= k < list.len() && 0 <= j < g.blocks@[list[k].0 as int].predecessors@.len()
        ==> listed(list, #[trigger] g.blocks@[list[k].0 as int].predecessors@[j])
}

/// Map each block of `s` through `mapping`.
fn map_blocks(s: &Vec<BlockId>, mapping: &Vec<Option<usize>>, bound: usize) -> (r: Option<Vec<BlockId>>)
    requires
        forall|i: int| 0 <= i < mapping@.len() ==> (#[trigger] mapping@[i] matches Some(x) ==> x < bound),
    ensures
        r matches Some(v) ==> v@.len() == s@.len()
            && (forall|j: int| 0 <= j < s@.len() ==> (#[trigger] s@[j]).0 < mapping@.len())
            && forall|j: int| 0 <= j < s@.len() ==> mapping@[s@[j].0 as int] == Some((#[trigger] v@[j]).0),
        r matches Some(v) ==> blocks_below(v@, bound as nat),
        r is None ==> exists|j: int| 0 <= j < s@.len() && !(s@[j].0 < mapping@.len()
            && mapping@[s@[j].0 as int] is Some),
{
    let mut v: Vec<BlockId> = Vec::new();
    let n = s.len();
    let mut k: usize = 0;
    while k < n
        invariant
            n == s@.len(),
            k <= n,
            v@.len() == k,
            forall|i: int| 0 <= i < mapping@.len() ==> (#[trigger] mapping@[i] matches Some(x) ==> x < bound),
            forall|j: int| 0 <= j < k ==> (#[trigger] s@[j]).0 < mapping@.len(),
            forall|j: int| 0 <= j < k ==> mapping@[s@[j].0 as int] == Some((#[trigger] v@[j]).0),
            blocks_below(v@, bound as nat),
        decreases n - k,
    {
        let b = s[k];
        if b.0 >= mapping.len() {
            return None;
        }
        match mapping[b.0] {
            Some(x) => {
                let ghost v0 = v@;
                v.push(BlockId(x));
                assert forall|j: int| 0 <= j < k + 1 implies mapping@[s@[j].0 as int] == Some((#[trigger] v@[j]).0) by {
                    if j < k {
                        assert(v@[j] == v0[j]);
                    }
                }
            },
            None => {
                return None;
            },
        }
        k = k + 1;
    }
    Some(v)
}

impl<K: KindHelper> Graph<K> {
    /// Renumber the blocks in the order of `list`, dropping the others:
    /// block `k` becomes what was block `list[k]`, with its successors and
    /// predecessors renumbered, and its instructions told their new block.
    /// Fails when the root or a successor or predecessor of a kept block is
    /// not kept.
    pub fn flatten_reindex_blocks(&mut self, list: &Vec<BlockId>) -> (r: Result<Vec<BlockId>, String>)
        requires
            old(self).wf(),
            blocks_below(list@, old(self).nb()),
            distinct_blocks(list@),
        ensures
            r is Ok <==> (old(self).root matches Some(rt) && listed(list@, rt) && edges_listed(*old(self), list@)),
            r matches Ok(ids) ==> {
                let g0 = *old(self);
                let g1 = *final(self);
                &&& g1.wf()
                &&& g1.nb() == list@.len()
                &&& ids@.len() == list@.len()
                &&& forall|k: int| 0 <= k < ids@.len() ==> (#[trigger] ids@[k]).0 == k
                &&& g1.root is Some && g0.root is Some && list@[(g1.root->0).0 as int] == g0.root->0
                &&& forall|k: int| 0 <= k < g1.nb() ==> {
                    let b0 = g0.blocks@[list@[k].0 as int];
                    let b1 = #[trigger] g1.blocks@[k];
                    &&& b1.instructions == b0.instructions
                    &&& b1.loop_depth == b0.loop_depth
                    &&& b1.loop_index == b0.loop_index
                    &&& b1.successors@.len() == b0.successors@.len()
                    &&& b1.predecessors@.len() == b0.predecessors@.len()
                    &&& forall|j: int| 0 <= j < b1.successors@.len() ==> list@[(#[trigger] b1.successors@[j]).0 as int]
                        == b0.successors@[j]
                    &&& forall|j: int| 0 <= j < b1.predecessors@.len() ==> list@[(#[trigger] b1.predecessors@[j]).0 as int]
                        == b0.predecessors@[j]
                }
                &&& g1.intervals@ == g0.intervals@
                &&& g1.ni() == g0.ni()
                &&& g1.phis@ == g0.phis@
                &&& forall|x: int| 0 <= x < g1.ni() ==> copied(#[trigger] g1.instructions@[x], g0.instructions@[x])
                &&& forall|k: int, j: int| 0 <= k < g1.nb() && 0 <= j < g1.blocks@[k].instructions@.len() ==> {
                    let x = (#[trigger] g1.blocks@[k].instructions@[j]).0 as int;
                    let b = g1.instructions@[x].block.0 as int;
                    0 <= b < g1.nb() && g1.blocks@[b].instructions@.contains(g1.blocks@[k].instructions@[j])
                }
            },
    {
        let ghost g0 = *self;
        let n_old = self.blocks.len();
        let n = list.len();
        let mut mapping: Vec<Option<usize>> = Vec::new();
        let mut k: usize = 0;
        while k < n_old
            invariant
                k <= n_old,
                mapping@.len() == k,
                forall|i: int| 0 <= i < k ==> #[trigger] mapping@[i] is None,
            decreases n_old - k,
        {
            mapping.push(None);
            k = k + 1;
        }
        let mut old_blocks: Vec<Block> = Vec::new();
        std::mem::swap(&mut old_blocks, &mut self.blocks);
        let mut instrs: Vec<crate::graph::Instruction<K>> = Vec::new();
        std::mem::swap(&mut instrs, &mut self.instructions);
        let mut new_blocks: Vec<Block> = Vec::new();
        let mut new_root: Option<BlockId> = None;
        let root = self.root;
        let mut k: usize = 0;
        while k < n
            invariant
                g0 == *old(self),
                n == list@.len(),
                n_old == g0.nb(),
                g0.wf(),
                self.same_rest(&g0),
                k <= n,
                blocks_below(list@, n_old as nat),
                distinct_blocks(list@),
                old_blocks@.len() == n_old,
                mapping@.len() == n_old,
                new_blocks@.len() == k,
                root == g0.root,
                instrs@.len() == g0.ni(),
                forall|i: int| 0 <= i < g0.ni() ==> (#[trigger] instrs@[i]).id.0 == i
                    && crate::graph::instr_ok(instrs@[i], g0.ni(), g0.nv()),
                forall|i: int| 0 <= i < g0.ni() ==> copied(#[trigger] instrs@[i], g0.instructions@[i]),
                forall|i: int| 0 <= i < n_old ==> (#[trigger] mapping@[i] matches Some(x) ==> x < k && list@[x as int].0 == i),
                forall|j: int| 0 <= j < k ==> mapping@[list@[j].0 as int] == Some(j as usize),
                forall|i: int| 0 <= i < n_old && !(exists|j: int| 0 <= j < k && list@[j].0 == i) ==> old_blocks@[i] == g0.blocks@[i],
                forall|j: int| 0 <= j < k ==> {
                    let b0 = g0.blocks@[list@[j].0 as int];
                    let b1 = #[trigger] new_blocks@[j];
                    &&& b1.id.0 == j
                    &&& b1.instructions == b0.instructions
                    &&& b1.successors == b0.successors
                    &&& b1.predecessors == b0.predecessors
                    &&& b1.loop_depth == b0.loop_depth
                    &&& b1.loop_index == b0.loop_index
                    &&& crate::graph::block_ok(b1, n_old as nat, g0.ni(), g0.nv())
                },
                new_root matches Some(r) ==> r.0 < k && g0.root == Some(list@[r.0 as int]),
                forall|k2: int, j: int| 0 <= k2 < k && 0 <= j < new_blocks@[k2].instructions@.len() ==> {
                    let x = (#[trigger] new_blocks@[k2].instructions@[j]).0 as int;
                    let b = instrs@[x].block.0 as int;
                    0 <= b < k && new_blocks@[b].instructions@.contains(new_blocks@[k2].instructions@[j])
                },
                new_root is None ==> forall|j: int| 0 <= j < k ==> g0.root != Some(list@[j]),
            decreases n - k,
        {
            let id = list[k];
            let mut block = placeholder_block();
            proof {
                assert(!(exists|j: int| 0 <= j < k && list@[j].0 == id.0)) by {
                    if exists|j: int| 0 <= j < k && list@[j].0 == id.0 {
                        let j = choose|j: int| 0 <= j < k && list@[j].0 == id.0;
                        assert(list@[j] == list@[k as int]);
                    }
                }
                assert(old_blocks@[id.0 as int] == g0.blocks@[id.0 as int]);
            }
            std::mem::swap(&mut block, &mut old_blocks[id.0]);
            // Update root id
            if root == Some(id) {
                new_root = Some(BlockId(k));
            }
            mapping.set(id.0, Some(k));
            block.id = BlockId(k);
            // Update block id in its instructions
            let m = block.instructions.len();
            let mut j: usize = 0;
            while j < m
                invariant
                    m == block.instructions@.len(),
                    j <= m,
                    crate::graph::instrs_below(block.instructions@, g0.ni()),
                    g0.wf(),
                    self.same_rest(&g0),
                    instrs@.len() == g0.ni(),
                    forall|i: int| 0 <= i < g0.ni() ==> (#[trigger] instrs@[i]).id.0 == i
                        && crate::graph::instr_ok(instrs@[i], g0.ni(), g0.nv()),
                    forall|i: int| 0 <= i < g0.ni() ==> copied(#[trigger] instrs@[i], g0.instructions@[i]),
                    new_blocks@.len() == k,
                    forall|k2: int| 0 <= k2 < k ==> crate::graph::instrs_below((#[trigger] new_blocks@[k2]).instructions@, g0.ni()),
                    forall|k2: int, j2: int| 0 <= k2 < k && 0 <= j2 < new_blocks@[k2].instructions@.len() ==> {
                        let x = (#[trigger] new_blocks@[k2].instructions@[j2]).0 as int;
                        let b = instrs@[x].block.0 as int;
                        (0 <= b < k && new_blocks@[b].instructions@.contains(new_blocks@[k2].instructions@[j2]))
                            || (b == k && block.instructions@.contains(new_blocks@[k2].instructions@[j2]))
                    },
                    forall|j2: int| 0 <= j2 < j ==> instrs@[(#[trigger] block.instructions@[j2]).0 as int].block.0 == k,
                decreases m - j,
            {
                let instr = block.instructions[j];
                let ghost before = instrs@;
                instrs[instr.0].block = BlockId(k);
                proof {
                    assert forall|k2: int, j2: int| 0 <= k2 < k && 0 <= j2 < new_blocks@[k2].instructions@.len() implies {
                        let x = (#[trigger] new_blocks@[k2].instructions@[j2]).0 as int;
                        let b = instrs@[x].block.0 as int;
                        (0 <= b < k && new_blocks@[b].instructions@.contains(new_blocks@[k2].instructions@[j2]))
                            || (b == k && block.instructions@.contains(new_blocks@[k2].instructions@[j2]))
                    } by {
                        let y = new_blocks@[k2].instructions@[j2];
                        if y.0 == instr.0 {
                            assert(block.instructions@[j as int] == y);
                        } else {
                            assert(instrs@[y.0 as int] == before[y.0 as int]);
                        }
                    }
                    assert forall|j2: int| 0 <= j2 < j + 1 implies instrs@[(#[trigger] block.instructions@[j2]).0 as int].block.0 == k by {
                        if block.instructions@[j2].0 != instr.0 {
                            assert(instrs@[block.instructions@[j2].0 as int] == before[block.instructions@[j2].0 as int]);
                        }
                    }
                }
                j = j + 1;
            }
            let ghost nb_before = new_blocks@;
            new_blocks.push(block);
            proof {
                assert forall|k2: int, j2: int| 0 <= k2 < k + 1 && 0 <= j2 < new_blocks@[k2].instructions@.len() implies {
                    let x = (#[trigger] new_blocks@[k2].instructions@[j2]).0 as int;
                    let b = instrs@[x].block.0 as int;
                    0 <= b < k + 1 && new_blocks@[b].instructions@.contains(new_blocks@[k2].instructions@[j2])
                } by {
                    let y = new_blocks@[k2].instructions@[j2];
                    if k2 < k {
                        assert(new_blocks@[k2] == nb_before[k2]);
                        let b = instrs@[y.0 as int].block.0 as int;
                        if b < k {
                            assert(new_blocks@[b] == nb_before[b]);
                        }
                    } else {
                        assert(instrs@[y.0 as int].block.0 == k);
                    }
                }
                assert forall|i: int| 0 <= i < n_old && !(exists|j: int| 0 <= j < k + 1 && list@[j].0 == i)
                    implies old_blocks@[i] == g0.blocks@[i] by {
                    assert(!(exists|j: int| 0 <= j < k && list@[j].0 == i)) by {
                        if exists|j: int| 0 <= j < k && list@[j].0 == i {
                            let j = choose|j: int| 0 <= j < k && list@[j].0 == i;
                            assert(0 <= j < k + 1 && list@[j].0 == i);
                        }
                    }
                    assert(i != id.0);
                }
            }
            k = k + 1;
        }
        let rt = match new_root {
            Some(r) => r,
            None => {
                proof {
                    if g0.root is Some {
                        let rt0 = g0.root->0;
                        if listed(list@, rt0) {
                            let j = choose|j: int| 0 <= j < list@.len() && list@[j] == rt0;
                            assert(g0.root == Some(list@[j]));
                        }
                    }
                }
                self.blocks = old_blocks;
                self.instructions = instrs;
                return Err("Root block".to_owned());
            },
        };
        // Renumber successors and predecessors
        let mut k: usize = 0;
        while k < n
            invariant
                g0 == *old(self),
                n == list@.len(),
                g0.wf(),
                self.same_rest(&g0),
                instrs@.len() == g0.ni(),
                forall|i: int| 0 <= i < g0.ni() ==> (#[trigger] instrs@[i]).id.0 == i
                    && crate::graph::instr_ok(instrs@[i], g0.ni(), g0.nv()),
                forall|i: int| 0 <= i < g0.ni() ==> copied(#[trigger] instrs@[i], g0.instructions@[i]),
                k <= n,
                new_blocks@.len() == n,
                mapping@.len() == n_old,
                forall|i: int| 0 <= i < n_old ==> (#[trigger] mapping@[i] matches Some(x) ==> x < n && list@[x as int].0 == i),
                forall|j: int| 0 <= j < n ==> mapping@[list@[j].0 as int] == Some(j as usize),
                forall|k2: int, j: int| 0 <= k2 < n && 0 <= j < new_blocks@[k2].instructions@.len() ==> {
                    let x = (#[trigger] new_blocks@[k2].instructions@[j]).0 as int;
                    let b = instrs@[x].block.0 as int;
                    0 <= b < n && new_blocks@[b].instructions@.contains(new_blocks@[k2].instructions@[j])
                },
                blocks_below(list@, n_old as nat),
                forall|j: int, e: int| 0 <= j < k && 0 <= e < g0.blocks@[list@[j].0 as int].successors@.len()
                    ==> listed(list@, #[trigger] g0.blocks@[list@[j].0 as int].successors@[e]),
                forall|j: int, e: int| 0 <= j < k && 0 <= e < g0.blocks@[list@[j].0 as int].predecessors@.len()
                    ==> listed(list@, #[trigger] g0.blocks@[list@[j].0 as int].predecessors@[e]),
                forall|j: int| 0 <= j < n ==> {
                    let b0 = g0.blocks@[list@[j].0 as int];
                    let b1 = #[trigger] new_blocks@[j];
                    &&& b1.id.0 == j
                    &&& b1.instructions == b0.instructions
                    &&& b1.loop_depth == b0.loop_depth
                    &&& b1.loop_index == b0.loop_index
                    &&& b1.successors@.len() == b0.successors@.len()
                    &&& b1.predecessors@.len() == b0.predecessors@.len()
                    &&& j < k ==> crate::graph::block_ok(b1, n as nat, g0.ni(), g0.nv())
                    &&& j < k ==> forall|i: int| 0 <= i < b1.successors@.len() ==> list@[(#[trigger] b1.successors@[i]).0 as int]
                        == b0.successors@[i]
                    &&& j < k ==> forall|i: int| 0 <= i < b1.predecessors@.len() ==> list@[(#[trigger] b1.predecessors@[i]).0 as int]
                        == b0.predecessors@[i]
                    &&& j >= k ==> b1.successors == b0.successors && b1.predecessors == b0.predecessors
                        && crate::graph::block_ok(b1, n_old as nat, g0.ni(), g0.nv())
                },
            decreases n - k,
        {
            let ghost b0 = g0.blocks@[list@[k as int].0 as int];
            assert(crate::graph::block_ok(new_blocks@[k as int], n_old as nat, g0.ni(), g0.nv()));
            let succ = map_blocks(&new_blocks[k].successors, &mapping, n);
            let pred = map_blocks(&new_blocks[k].predecessors, &mapping, n);
            let ghost nb_before = new_blocks@;
            match (succ, pred) {
                (Some(s), Some(p)) => {
                    proof {
                        assert forall|e: int| 0 <= e < b0.successors@.len() implies listed(list@, #[trigger] b0.successors@[e]) by {
                            assert(mapping@[b0.successors@[e].0 as int] == Some(s@[e].0));
                            let x = mapping@[b0.successors@[e].0 as int]->0;
                            assert(list@[x as int] == b0.successors@[e]);
                        }
                        assert forall|e: int| 0 <= e < b0.predecessors@.len() implies listed(list@, #[trigger] b0.predecessors@[e]) by {
                            assert(mapping@[b0.predecessors@[e].0 as int] == Some(p@[e].0));
                            let x = mapping@[b0.predecessors@[e].0 as int]->0;
                            assert(list@[x as int] == b0.predecessors@[e]);
                        }
                    }
                    new_blocks[k].successors = s;
                    new_blocks[k].predecessors = p;
                    proof {
                        assert forall|k2: int| 0 <= k2 < n implies (#[trigger] new_blocks@[k2]).instructions == nb_before[k2].instructions by {}
                        assert forall|k2: int, j: int| 0 <= k2 < n && 0 <= j < new_blocks@[k2].instructions@.len() implies {
                            let x = (#[trigger] new_blocks@[k2].instructions@[j]).0 as int;
                            let b = instrs@[x].block.0 as int;
                            0 <= b < n && new_blocks@[b].instructions@.contains(new_blocks@[k2].instructions@[j])
                        } by {
                            assert(new_blocks@[k2].instructions == nb_before[k2].instructions);
                            let y = new_blocks@[k2].instructions@[j];
                            let b = instrs@[y.0 as int].block.0 as int;
                            assert(nb_before[k2].instructions@[j] == y);
                            assert(new_blocks@[b].instructions == nb_before[b].instructions);
                        }
                    }
                },
                _ => {
                    proof {
                        let kk = k as int;
                        assert(new_blocks@[kk].successors == b0.successors);
                        assert(new_blocks@[kk].predecessors == b0.predecessors);
                        if edges_listed(g0, list@) {
                            if succ is None {
                                let e = choose|e: int| 0 <= e < b0.successors@.len() && !(b0.successors@[e].0 < mapping@.len()
                                    && mapping@[b0.successors@[e].0 as int] is Some);
                                assert(listed(list@, g0.blocks@[list@[kk].0 as int].successors@[e]));
                                let jj = choose|jj: int| 0 <= jj < list@.len() && list@[jj] == b0.successors@[e];
                                assert(mapping@[list@[jj].0 as int] == Some(jj as usize));
                            } else {
                                let e = choose|e: int| 0 <= e < b0.predecessors@.len() && !(b0.predecessors@[e].0 < mapping@.len()
                                    && mapping@[b0.predecessors@[e].0 as int] is Some);
                                assert(listed(list@, g0.blocks@[list@[kk].0 as int].predecessors@[e]));
                                let jj = choose|jj: int| 0 <= jj < list@.len() && list@[jj] == b0.predecessors@[e];
                                assert(mapping@[list@[jj].0 as int] == Some(jj as usize));
                            }
                        }
                        assert(!edges_listed(g0, list@));
                    }
                    self.instructions = instrs;
                    return Err("edge to a block outside of the flat order".to_owned());
                },
            }
            k = k + 1;
        }
        assert forall|b: int| 0 <= b < n implies #[trigger] new_blocks@[b].id.0 == b
            && crate::graph::block_ok(new_blocks@[b], n as nat, g0.ni(), g0.nv()) by {
            assert(b < k);
        }
        self.blocks = new_blocks;
        self.instructions = instrs;
        self.block_id = n;
        self.root = Some(rt);
        let mut ids: Vec<BlockId> = Vec::new();
        let mut k: usize = 0;
        while k < n
            invariant
                k <= n,
                ids@.len() == k,
                forall|i: int| 0 <= i < k ==> (#[trigger] ids@[i]).0 == i,
            decreases n - k,
        {
            ids.push(BlockId(k));
            k = k + 1;
        }
        Ok(ids)
    }
}



fn gap_instr<K>(id: usize, block: BlockId) -> (r: Instruction<K>)
    ensures
        r.id.0 == id,
        r.block == block,
        r.kind is Gap,
        r.output is None,
        r.inputs@.len() == 0,
        r.temporary@.len() == 0,
        r.added,
{
    Instruction {
        id: InstrId(id),
        block,
        kind: InstrKind::Gap,
        output: None,
        inputs: Vec::new(),
        temporary: Vec::new(),
        added: true,
    }
}

/// After flattening, block `b` holds consecutive positions that continue
/// those of the block before it, starting with a gap and alternating
/// gaps with the block's own instructions.
pub open spec fn flat_block<K>(blocks: Seq<Block>, instrs: Seq<Instruction<K>>, b: int) -> bool {
    let ins = blocks[b].instructions@;
    &&& ins.len() > 0
    &&& ins.len() % 2 == 1
    &&& b == 0 ==> ins[0].0 == 0
    &&& b > 0 ==> ins[0].0 == blocks[b - 1].instructions@.last().0 + 1
    &&& forall|j: int| 0 <= j < ins.len() ==> (#[trigger] ins[j]).0 == ins[0].0 + j
    &&& forall|j: int| 0 <= j < ins.len() ==> instrs[(#[trigger] ins[j]).0 as int].block.0 == b
    &&& forall|j: int| 0 <= j < ins.len() && j % 2 == 0 ==> instrs[(#[trigger] ins[j]).0 as int].kind is Gap
}

impl<K> Graph<K> {
    /// The flat layout: every block is a run of positions continuing the
    /// previous block, positions are instruction ids, and gaps sit before,
    /// between and after the instructions of each block.
    pub open spec fn flat(&self) -> bool {
        &&& self.nb() > 0
        &&& self.root == Some(BlockId(0))
        &&& forall|b: int| 0 <= b < self.nb() ==> flat_block(self.blocks@, self.instructions@, b)
        &&& self.blocks@.last().instructions@.last().0 < self.ni()
    }
}

proof fn lemma_flat_block_transfer<K>(blocks: Seq<Block>, a: Seq<Instruction<K>>, b: Seq<Instruction<K>>, c: int, n: nat)
    requires
        0 <= c < blocks.len(),
        flat_block(blocks, a, c),
        crate::graph::instrs_below(blocks[c].instructions@, n),
        a.len() >= n,
        b.len() >= n,
        forall|x: int| 0 <= x < n ==> (#[trigger] b[x]).block == a[x].block && b[x].kind == a[x].kind,
    ensures
        flat_block(blocks, b, c),
{
    let ins = blocks[c].instructions@;
    assert forall|j: int| 0 <= j < ins.len() implies b[(#[trigger] ins[j]).0 as int].block == a[ins[j].0 as int].block
        && b[ins[j].0 as int].kind == a[ins[j].0 as int].kind by {
        assert(ins[j].0 < n);
    }
}

/// `new` is `old` under the renumbering `map` (old id to new id): same
/// kind, output and temporaries, each input renumbered.
pub open spec fn renumbered<K>(new: Instruction<K>, old: Instruction<K>, map: Seq<Option<usize>>) -> bool {
    &&& new.kind == old.kind
    &&& new.output == old.output
    &&& new.temporary@ == old.temporary@
    &&& new.inputs@.len() == old.inputs@.len()
    &&& forall|i: int| 0 <= i < new.inputs@.len() ==> map[(#[trigger] old.inputs@[i]).0 as int] == Some(new.inputs@[i].0)
}

/// `new` is a copy of `old` but for its id and block.
pub open spec fn copied<K>(new: Instruction<K>, old: Instruction<K>) -> bool {
    &&& new.kind == old.kind
    &&& new.output == old.output
    &&& new.temporary@ == old.temporary@
    &&& new.inputs@ == old.inputs@
}

/// Block `b1` of `g1` holds, between its gaps, the instructions of block
/// `b0` of `g0` renumbered by `map`.
pub open spec fn block_renumbered<K>(g1: Graph<K>, g0: Graph<K>, b1: int, b0: int, map: Seq<Option<usize>>) -> bool {
    let ins1 = g1.blocks@[b1].instructions@;
    let ins0 = g0.blocks@[b0].instructions@;
    &&& ins1.len() == if ins0.len() == 0 { 1 } else { 2 * ins0.len() + 1 }
    &&& forall|j: int| 0 <= j < ins0.len() ==> map[(#[trigger] ins0[j]).0 as int] == Some(ins1[2 * j + 1].0)
        && renumbered(g1.instructions@[ins1[2 * j + 1].0 as int], g0.instructions@[ins0[j].0 as int], map)
}

/// The phis of `g1` are those of `g0` renumbered by `map`.
pub open spec fn phis_renumbered<K>(g1: Graph<K>, g0: Graph<K>, map: Seq<Option<usize>>) -> bool {
    &&& g1.phis@.len() == g0.phis@.len()
    &&& forall|p: int| 0 <= p < g0.phis@.len() ==> map[(#[trigger] g0.phis@[p]).0 as int] == Some(g1.phis@[p].0)
        && renumbered(g1.instructions@[g1.phis@[p].0 as int], g0.instructions@[g0.phis@[p].0 as int], map)
}

/// Block `c` of `blocks` holds, between its gaps, copies in `instrs` of
/// the instructions of block `c` of `g0`, which `map` sends to them.
spec fn block_copied<K>(blocks: Seq<Block>, instrs: Seq<Instruction<K>>, g0: Graph<K>, c: int, map: Seq<Option<usize>>) -> bool {
    let ins1 = blocks[c].instructions@;
    let ins0 = g0.blocks@[c].instructions@;
    &&& ins1.len() == if ins0.len() == 0 { 1 } else { 2 * ins0.len() + 1 }
    &&& forall|j: int| 0 <= j < ins0.len() ==> map[(#[trigger] ins0[j]).0 as int] == Some(ins1[2 * j + 1].0)
        && copied(instrs[ins1[2 * j + 1].0 as int], g0.instructions@[ins0[j].0 as int])
}

proof fn lemma_block_copied_grow<K>(
    bl_a: Seq<Block>,
    bl_b: Seq<Block>,
    i1: Seq<Instruction<K>>,
    i2: Seq<Instruction<K>>,
    g0: Graph<K>,
    c: int,
    m1: Seq<Option<usize>>,
    m2: Seq<Option<usize>>,
)
    requires
        block_copied(bl_a, i1, g0, c, m1),
        bl_b[c].instructions@ == bl_a[c].instructions@,
        crate::graph::instrs_below(bl_a[c].instructions@, i1.len()),
        crate::graph::instrs_below(g0.blocks@[c].instructions@, m1.len()),
        i2.len() >= i1.len(),
        forall|x: int| 0 <= x < i1.len() ==> i2[x] == i1[x],
        m2.len() == m1.len(),
        forall|i: int| 0 <= i < m1.len() && (#[trigger] m1[i]) is Some ==> m2[i] == m1[i],
    ensures
        block_copied(bl_b, i2, g0, c, m2),
{
    let ins1 = bl_a[c].instructions@;
    let ins0 = g0.blocks@[c].instructions@;
    assert forall|j: int| 0 <= j < ins0.len() implies m2[(#[trigger] ins0[j]).0 as int] == Some(ins1[2 * j + 1].0)
        && copied(i2[ins1[2 * j + 1].0 as int], g0.instructions@[ins0[j].0 as int]) by {
        assert(m1[ins0[j].0 as int] is Some);
        assert(ins1[2 * j + 1].0 < i1.len());
    }
}

/// `g1` holds the program of `g0` renumbered by `map`: each block the
/// instructions of the same block of `g0`, between gaps, and the phis.
pub open spec fn instrs_renumbered<K>(g1: Graph<K>, g0: Graph<K>, map: Seq<Option<usize>>) -> bool {
    &&& map.len() == g0.ni()
    &&& g1.nb() == g0.nb()
    &&& forall|b: int| 0 <= b < g1.nb() ==> #[trigger] block_renumbered(g1, g0, b, b, map)
    &&& phis_renumbered(g1, g0, map)
}

/// Block `b1` has the edges of block `b0`, each block renumbered by its
/// place in `list`.
pub open spec fn edges_renumbered(b1: Block, b0: Block, list: Seq<BlockId>) -> bool {
    &&& b1.successors@.len() == b0.successors@.len()
    &&& b1.predecessors@.len() == b0.predecessors@.len()
    &&& forall|j: int| 0 <= j < b1.successors@.len() ==> list[(#[trigger] b1.successors@[j]).0 as int] == b0.successors@[j]
    &&& forall|j: int| 0 <= j < b1.predecessors@.len() ==> list[(#[trigger] b1.predecessors@[j]).0 as int]
        == b0.predecessors@[j]
}

/// `g1` is `g0` flattened: its blocks are the blocks `list` of `g0` in that
/// order, the root first, each with its edges renumbered along and its
/// instructions, between gaps, renumbered by `map`; so are the phis.
pub open spec fn flattened_from<K>(g1: Graph<K>, g0: Graph<K>, list: Seq<BlockId>, map: Seq<Option<usize>>) -> bool {
    &&& map.len() == g0.ni()
    &&& g1.nb() == list.len()
    &&& list.len() > 0
    &&& blocks_below(list, g0.nb())
    &&& distinct_blocks(list)
    &&& g0.root == Some(list[0])
    &&& forall|k: int| 0 <= k < g1.nb() ==> block_renumbered(g1, g0, k, list[k].0 as int, map)
        && edges_renumbered(#[trigger] g1.blocks@[k], g0.blocks@[list[k].0 as int], list)
    &&& phis_renumbered(g1, g0, map)
}

proof fn lemma_renumbered_copied<K>(a: Instruction<K>, b: Instruction<K>, c: Instruction<K>, map: Seq<Option<usize>>)
    requires
        renumbered(a, b, map),
        copied(b, c),
    ensures
        renumbered(a, c, map),
{
    assert forall|i: int| 0 <= i < a.inputs@.len() implies map[(#[trigger] c.inputs@[i]).0 as int] == Some(a.inputs@[i].0) by {
        assert(c.inputs@[i] == b.inputs@[i]);
    }
}

/// Instruction `x` stands in a block of `g` or among its phis.
pub open spec fn placed<K>(g: Graph<K>, x: int) -> bool {
    ||| exists|b: int, j: int| 0 <= b < g.nb() && 0 <= j < g.blocks@[b].instructions@.len()
        && (#[trigger] g.blocks@[b].instructions@[j]).0 == x
    ||| exists|p: int| 0 <= p < g.phis@.len() && (#[trigger] g.phis@[p]).0 == x
}

/// Some instruction stands in two places: twice in the blocks, in a block
/// and among the phis, or twice among the phis.
pub open spec fn placed_twice<K>(g: Graph<K>) -> bool {
    ||| exists|b1: int, j1: int, b2: int, j2: int| 0 <= b1 < g.nb() && 0 <= j1 < g.blocks@[b1].instructions@.len()
        && 0 <= b2 < g.nb() && 0 <= j2 < g.blocks@[b2].instructions@.len() && (b1 != b2 || j1 != j2)
        && #[trigger] g.blocks@[b1].instructions@[j1] == #[trigger] g.blocks@[b2].instructions@[j2]
    ||| exists|b: int, j: int, p: int| 0 <= b < g.nb() && 0 <= j < g.blocks@[b].instructions@.len()
        && 0 <= p < g.phis@.len() && #[trigger] g.blocks@[b].instructions@[j] == #[trigger] g.phis@[p]
    ||| exists|p1: int, p2: int| 0 <= p1 < g.phis@.len() && 0 <= p2 < g.phis@.len() && p1 != p2
        && #[trigger] g.phis@[p1] == #[trigger] g.phis@[p2]
}

/// Some placed instruction reads one that is not placed.
pub open spec fn reads_unplaced<K>(g: Graph<K>) -> bool {
    exists|x: int, k: int| 0 <= x < g.ni() && placed(g, x) && 0 <= k < g.instructions@[x].inputs@.len()
        && !placed(g, (#[trigger] g.instructions@[x].inputs@[k]).0 as int)
}

/// The positions that block `blk` takes in the flat layout: its
/// instructions with a gap before, between and after them, or one gap.
pub open spec fn block_flat_size(blk: Block) -> int {
    let m = blk.instructions@.len() as int;
    if m == 0 { 1 } else { 2 * m + 1 }
}

/// The positions that the first `b` blocks take in the flat layout.
pub open spec fn flat_size(blocks: Seq<Block>, b: int) -> int
    decreases b,
{
    if b <= 0 {
        0
    } else {
        flat_size(blocks, b - 1) + block_flat_size(blocks[b - 1])
    }
}

proof fn lemma_flat_size_mono(blocks: Seq<Block>, i: int, j: int)
    requires
        0 <= i <= j,
    ensures
        flat_size(blocks, i) <= flat_size(blocks, j),
    decreases j - i,
{
    if i < j {
        lemma_flat_size_mono(blocks, i, j - 1);
    }
}

/// Where position `t` of `instrs` came from: it reads nothing, or it is
/// instruction `x` of `g0`, which `map` sends there, with its inputs.
pub open spec fn has_origin<K>(instrs: Seq<Instruction<K>>, g0: Graph<K>, map: Seq<Option<usize>>, t: int) -> bool {
    ||| instrs[t].inputs@.len() == 0
    ||| exists|x: int| 0 <= x < map.len() && #[trigger] map[x] == Some(t as usize)
        && instrs[t].inputs@ == g0.instructions@[x].inputs@
}

impl<K: KindHelper> Graph<K> {
    /// Give the instructions of the blocks (in block order) consecutive
    /// ids, with a gap before each block's first instruction, between its
    /// instructions and after its last one; phis come after all positions.
    /// Inputs are renamed along; other instructions are dropped. Fails when
    /// an input is dropped or an instruction stands in two places.
    pub fn flatten_reindex_instructions(&mut self, list: &Vec<BlockId>) -> (r: Result<(), String>)
        requires
            old(self).wf(),
            old(self).nb() > 0,
            old(self).root == Some(BlockId(0)),
            list@.len() == old(self).nb(),
            forall|k: int| 0 <= k < list@.len() ==> (#[trigger] list@[k]).0 == k,
        ensures
            r is Err ==> placed_twice(*old(self)) || reads_unplaced(*old(self))
                || flat_size(old(self).blocks@, old(self).nb() as int) + old(self).phis@.len() >= usize::MAX - 1,
            r is Ok ==> final(self).ni() == flat_size(old(self).blocks@, old(self).nb() as int) + old(self).phis@.len(),
            r is Ok ==> {
                &&& final(self).wf()
                &&& final(self).flat()
                &&& final(self).nb() == old(self).nb()
                &&& final(self).intervals@ == old(self).intervals@
                &&& forall|b: int| 0 <= b < final(self).nb() ==> {
                    let b0 = old(self).blocks@[b];
                    let b1 = #[trigger] final(self).blocks@[b];
                    &&& b1.successors == b0.successors
                    &&& b1.predecessors == b0.predecessors
                    &&& b1.loop_depth == b0.loop_depth
                    &&& b1.loop_index == b0.loop_index
                }
                &&& exists|map: Seq<Option<usize>>| instrs_renumbered(*final(self), *old(self), map)
            },
    {
        let ghost g0 = *self;
        let old_n = self.instructions.len();
        let mut old_instrs: Vec<Instruction<K>> = Vec::new();
        std::mem::swap(&mut old_instrs, &mut self.instructions);
        let mut blocks: Vec<Block> = Vec::new();
        std::mem::swap(&mut blocks, &mut self.blocks);
        let mut mapping: Vec<Option<usize>> = Vec::new();
        let mut k: usize = 0;
        while k < old_n
            invariant
                k <= old_n,
                mapping@.len() == k,
                forall|i: int| 0 <= i < k ==> #[trigger] mapping@[i] is None,
            decreases old_n - k,
        {
            mapping.push(None);
            k = k + 1;
        }
        let nb = blocks.len();
        let mut new_instrs: Vec<Instruction<K>> = Vec::new();
        let mut b: usize = 0;
        while b < nb
            invariant
                g0.wf(),
                self.same_rest(&g0),
                nb == g0.nb(),
                nb > 0,
                b <= nb,
                old_instrs@.len() == old_n,
                old_n == g0.ni(),
                mapping@.len() == old_n,
                blocks@.len() == nb,
                forall|i: int| 0 <= i < old_n ==> crate::graph::instr_ok(#[trigger] old_instrs@[i], g0.ni(), g0.nv()),
                forall|i: int| 0 <= i < old_n ==> (#[trigger] mapping@[i] matches Some(x) ==> x < new_instrs@.len()),
                forall|i: int| 0 <= i < old_n && #[trigger] mapping@[i] is None ==> old_instrs@[i] == g0.instructions@[i],
                forall|t: int| 0 <= t < new_instrs@.len() ==> (#[trigger] new_instrs@[t]).id.0 == t
                    && crate::graph::instr_ok(new_instrs@[t], g0.ni(), g0.nv()),
                forall|c: int| 0 <= c < nb ==> {
                    let b0 = g0.blocks@[c];
                    let b1 = #[trigger] blocks@[c];
                    &&& b1.successors == b0.successors
                    &&& b1.predecessors == b0.predecessors
                    &&& b1.loop_depth == b0.loop_depth
                    &&& b1.loop_index == b0.loop_index
                    &&& b1.live_gen == b0.live_gen
                    &&& b1.live_kill == b0.live_kill
                    &&& b1.live_in == b0.live_in
                    &&& b1.live_out == b0.live_out
                    &&& b1.id == b0.id
                    &&& c >= b ==> b1.instructions == b0.instructions
                },
                forall|c: int| 0 <= c < b ==> flat_block(blocks@, new_instrs@, c),
                forall|c: int| 0 <= c < b ==> crate::graph::instrs_below((#[trigger] blocks@[c]).instructions@, new_instrs@.len() as nat),
                forall|c: int| 0 <= c < b ==> #[trigger] block_copied(blocks@, new_instrs@, g0, c, mapping@),
                b == 0 ==> new_instrs@.len() == 0,
                b > 0 ==> new_instrs@.len() == blocks@[b - 1].instructions@.last().0 + 1,
                g0 == *old(self),
                new_instrs@.len() == flat_size(g0.blocks@, b as int),
                forall|x: int| 0 <= x < old_n && (#[trigger] mapping@[x]) is Some ==> exists|c: int, jj: int| 0 <= c < b
                    && 0 <= jj < g0.blocks@[c].instructions@.len() && (#[trigger] g0.blocks@[c].instructions@[jj]).0 == x,
                forall|c: int, jj: int| 0 <= c < b && 0 <= jj < g0.blocks@[c].instructions@.len()
                    ==> mapping@[(#[trigger] g0.blocks@[c].instructions@[jj]).0 as int] is Some,
                forall|t: int| 0 <= t < new_instrs@.len() ==> #[trigger] has_origin(new_instrs@, g0, mapping@, t),
            decreases nb - b,
        {
            let ghost before = new_instrs@;
            let ghost map_before = mapping@;
            let old_list = blocks[b].instructions.clone();
            assert(old_list@ =~= g0.blocks@[b as int].instructions@);
            let m = old_list.len();
            let mut new_list: Vec<InstrId> = Vec::new();
            if new_instrs.len() == usize::MAX {
                proof {
                    lemma_flat_size_mono(g0.blocks@, b as int, nb as int);
                }
                return Err("too many instructions".to_owned());
            }
            let start = new_instrs.len();
            let ghost n_pre = new_instrs@;
            new_instrs.push(gap_instr(start, BlockId(b)));
            new_list.push(InstrId(start));
            proof {
                assert forall|t: int| 0 <= t < new_instrs@.len() implies #[trigger] has_origin(new_instrs@, g0, mapping@, t) by {
                    if t < n_pre.len() {
                        assert(has_origin(n_pre, g0, mapping@, t));
                        assert(new_instrs@[t] == n_pre[t]);
                    }
                }
            }
            let mut j: usize = 0;
            while j < m
                invariant
                    g0.wf(),
                    nb == g0.nb(),
                    b < nb,
                    m == old_list@.len(),
                    old_list@ == g0.blocks@[b as int].instructions@,
                    j <= m,
                    old_instrs@.len() == old_n,
                    old_n == g0.ni(),
                    mapping@.len() == old_n,
                    map_before.len() == old_n,
                    before.len() == start,
                    forall|i: int| 0 <= i < old_n ==> crate::graph::instr_ok(#[trigger] old_instrs@[i], g0.ni(), g0.nv()),
                    forall|i: int| 0 <= i < old_n ==> (#[trigger] mapping@[i] matches Some(x) ==> x < new_instrs@.len()),
                    forall|i: int| 0 <= i < old_n && #[trigger] mapping@[i] is None ==> old_instrs@[i] == g0.instructions@[i],
                    forall|i: int| 0 <= i < old_n && (#[trigger] map_before[i]) is Some ==> mapping@[i] == map_before[i],
                    forall|t: int| 0 <= t < new_instrs@.len() ==> (#[trigger] new_instrs@[t]).id.0 == t
                        && crate::graph::instr_ok(new_instrs@[t], g0.ni(), g0.nv()),
                    new_instrs@.len() == start + new_list@.len(),
                    new_instrs@.subrange(0, start as int) == before,
                    new_list@.len() == if j == m && m > 0 { 2 * m } else { 2 * j + 1 },
                    forall|i: int| 0 <= i < new_list@.len() ==> (#[trigger] new_list@[i]).0 == start + i,
                    forall|i: int| 0 <= i < new_list@.len() ==> new_instrs@[(#[trigger] new_list@[i]).0 as int].block.0 == b,
                    forall|i: int| 0 <= i < new_list@.len() && i % 2 == 0 ==> new_instrs@[(#[trigger] new_list@[i]).0 as int].kind is Gap,
                    forall|jj: int| 0 <= jj < j ==> mapping@[(#[trigger] old_list@[jj]).0 as int] == Some(new_list@[2 * jj + 1].0)
                        && copied(new_instrs@[new_list@[2 * jj + 1].0 as int], g0.instructions@[old_list@[jj].0 as int]),
                    g0 == *old(self),
                    start == flat_size(g0.blocks@, b as int),
                    forall|x: int| 0 <= x < old_n && (#[trigger] mapping@[x]) is Some ==> (exists|c: int, jj: int| 0 <= c < b
                        && 0 <= jj < g0.blocks@[c].instructions@.len() && (#[trigger] g0.blocks@[c].instructions@[jj]).0 == x)
                        || (exists|jj: int| 0 <= jj < j && (#[trigger] old_list@[jj]).0 == x),
                    forall|c: int, jj: int| 0 <= c < b && 0 <= jj < g0.blocks@[c].instructions@.len()
                        ==> mapping@[(#[trigger] g0.blocks@[c].instructions@[jj]).0 as int] is Some,
                    forall|t: int| 0 <= t < new_instrs@.len() ==> #[trigger] has_origin(new_instrs@, g0, mapping@, t),
                decreases m - j,
            {
                let id = old_list[j];
                if new_instrs.len() >= usize::MAX - 1 {
                    proof {
                        lemma_flat_size_mono(g0.blocks@, b + 1, nb as int);
                    }
                    return Err("too many instructions".to_owned());
                }
                if mapping[id.0].is_some() {
                    proof {
                        let bb = b as int;
                        let x = id.0 as int;
                        if exists|c: int, jj: int| 0 <= c < b && 0 <= jj < g0.blocks@[c].instructions@.len()
                            && (#[trigger] g0.blocks@[c].instructions@[jj]).0 == x {
                            let (c, jj) = choose|c: int, jj: int| 0 <= c < b && 0 <= jj < g0.blocks@[c].instructions@.len()
                                && (#[trigger] g0.blocks@[c].instructions@[jj]).0 == x;
                            assert(g0.blocks@[c].instructions@[jj] == g0.blocks@[bb].instructions@[j as int]);
                        } else {
                            let jj = choose|jj: int| 0 <= jj < j && (#[trigger] old_list@[jj]).0 == x;
                            assert(g0.blocks@[bb].instructions@[jj] == g0.blocks@[bb].instructions@[j as int]);
                        }
                        assert(placed_twice(g0));
                    }
                    return Err("instruction in two places".to_owned());
                }
                // Pop each instruction from the old list and give it a new id
                let mut instr = gap_instr(0, BlockId(0));
                std::mem::swap(&mut instr, &mut old_instrs[id.0]);
                let nid = new_instrs.len();
                instr.id = InstrId(nid);
                instr.block = BlockId(b);
                let ghost m0 = mapping@;
                let ghost l0 = new_list@;
                mapping.set(id.0, Some(nid));
                let ghost n0 = new_instrs@;
                new_instrs.push(instr);
                new_list.push(InstrId(nid));
                // Insert gap
                if j != m - 1 {
                    let gid = new_instrs.len();
                    new_instrs.push(gap_instr(gid, BlockId(b)));
                    new_list.push(InstrId(gid));
                }
                assert(new_instrs@.subrange(0, start as int) =~= before);
                proof {
                    assert forall|t: int| 0 <= t < new_instrs@.len() implies #[trigger] has_origin(new_instrs@, g0, mapping@, t) by {
                        if t < n0.len() {
                            assert(has_origin(n0, g0, m0, t));
                            assert(new_instrs@[t] == n0[t]);
                            if n0[t].inputs@.len() != 0 {
                                let x = choose|x: int| 0 <= x < m0.len() && #[trigger] m0[x] == Some(t as usize)
                                    && n0[t].inputs@ == g0.instructions@[x].inputs@;
                                assert(mapping@[x] == m0[x]);
                            }
                        } else if t == nid {
                            assert(mapping@[id.0 as int] == Some(t as usize));
                        }
                    }
                    assert forall|x: int| 0 <= x < old_n && (#[trigger] mapping@[x]) is Some implies (exists|c: int, jj: int| 0 <= c < b
                        && 0 <= jj < g0.blocks@[c].instructions@.len() && (#[trigger] g0.blocks@[c].instructions@[jj]).0 == x)
                        || (exists|jj: int| 0 <= jj < j + 1 && (#[trigger] old_list@[jj]).0 == x) by {
                        if x == id.0 {
                            assert(old_list@[j as int].0 == x);
                        } else {
                            assert(m0[x] is Some);
                        }
                    }
                    assert forall|c: int, jj: int| 0 <= c < b && 0 <= jj < g0.blocks@[c].instructions@.len()
                        implies mapping@[(#[trigger] g0.blocks@[c].instructions@[jj]).0 as int] is Some by {
                        assert(m0[g0.blocks@[c].instructions@[jj].0 as int] is Some);
                    }
                }
                proof {
                    assert(new_list@[2 * j + 1].0 == nid);
                    assert forall|jj: int| 0 <= jj < j + 1 implies mapping@[(#[trigger] old_list@[jj]).0 as int] == Some(new_list@[2 * jj + 1].0)
                        && copied(new_instrs@[new_list@[2 * jj + 1].0 as int], g0.instructions@[old_list@[jj].0 as int]) by {
                        if jj < j {
                            assert(new_list@[2 * jj + 1] == l0[2 * jj + 1]);
                            assert(m0[old_list@[jj].0 as int] is Some);
                            assert(old_list@[jj].0 != id.0);
                            assert(new_instrs@[new_list@[2 * jj + 1].0 as int] == n0[l0[2 * jj + 1].0 as int]);
                        }
                    }
                }
                j = j + 1;
            }
            if m != 0 {
                if new_instrs.len() == usize::MAX {
                    proof {
                        lemma_flat_size_mono(g0.blocks@, b + 1, nb as int);
                    }
                    return Err("too many instructions".to_owned());
                }
                let eid = new_instrs.len();
                let ghost l0 = new_list@;
                let ghost n0 = new_instrs@;
                new_instrs.push(gap_instr(eid, BlockId(b)));
                new_list.push(InstrId(eid));
                assert(new_instrs@.subrange(0, start as int) =~= before);
                proof {
                    assert forall|t: int| 0 <= t < new_instrs@.len() implies #[trigger] has_origin(new_instrs@, g0, mapping@, t) by {
                        if t < n0.len() {
                            assert(has_origin(n0, g0, mapping@, t));
                            assert(new_instrs@[t] == n0[t]);
                        }
                    }
                }
                proof {
                    assert forall|jj: int| 0 <= jj < m implies mapping@[(#[trigger] old_list@[jj]).0 as int] == Some(new_list@[2 * jj + 1].0)
                        && copied(new_instrs@[new_list@[2 * jj + 1].0 as int], g0.instructions@[old_list@[jj].0 as int]) by {
                        assert(new_list@[2 * jj + 1] == l0[2 * jj + 1]);
                        assert(new_instrs@[new_list@[2 * jj + 1].0 as int] == n0[l0[2 * jj + 1].0 as int]);
                    }
                }
            }
            let ghost bl0 = blocks@;
            // Replace block's instruction list
            blocks[b].instructions = new_list;
            proof {
                assert forall|c: int| 0 <= c < b + 1 implies flat_block(blocks@, new_instrs@, c) by {
                    if c < b {
                        assert(flat_block(bl0, before, c));
                        let ins = blocks@[c].instructions@;
                        assert(ins == bl0[c].instructions@);
                        assert forall|jj: int| 0 <= jj < ins.len() implies new_instrs@[(#[trigger] ins[jj]).0 as int] == before[ins[jj].0 as int] by {
                            assert(new_instrs@.subrange(0, start as int)[ins[jj].0 as int] == before[ins[jj].0 as int]);
                        }
                    }
                }
                assert forall|c: int| 0 <= c < b + 1 implies crate::graph::instrs_below((#[trigger] blocks@[c]).instructions@, new_instrs@.len() as nat) by {
                    if c < b {
                        assert(blocks@[c].instructions@ == bl0[c].instructions@);
                    }
                }
                assert forall|c: int| 0 <= c < b + 1 implies #[trigger] block_copied(blocks@, new_instrs@, g0, c, mapping@) by {
                    if c < b {
                        assert(block_copied(bl0, before, g0, c, map_before));
                        assert(blocks@[c] == bl0[c]);
                        assert forall|x: int| 0 <= x < before.len() implies new_instrs@[x] == before[x] by {
                            assert(new_instrs@.subrange(0, start as int)[x] == before[x]);
                        }
                        lemma_block_copied_grow(bl0, blocks@, before, new_instrs@, g0, c, map_before, mapping@);
                    } else {
                        assert(blocks@[c].instructions@ == new_list@);
                    }
                }
                let bb = b as int;
                assert(new_instrs@.len() == flat_size(g0.blocks@, bb + 1));
                assert forall|x: int| 0 <= x < old_n && (#[trigger] mapping@[x]) is Some implies exists|c: int, jj: int| 0 <= c < bb + 1
                    && 0 <= jj < g0.blocks@[c].instructions@.len() && (#[trigger] g0.blocks@[c].instructions@[jj]).0 == x by {
                    if !(exists|c: int, jj: int| 0 <= c < bb && 0 <= jj < g0.blocks@[c].instructions@.len()
                        && (#[trigger] g0.blocks@[c].instructions@[jj]).0 == x) {
                        let jj = choose|jj: int| 0 <= jj < m && (#[trigger] old_list@[jj]).0 == x;
                        assert(g0.blocks@[bb].instructions@[jj].0 == x);
                    }
                }
                assert forall|c: int, jj: int| 0 <= c < bb + 1 && 0 <= jj < g0.blocks@[c].instructions@.len()
                    implies mapping@[(#[trigger] g0.blocks@[c].instructions@[jj]).0 as int] is Some by {
                    if c == bb {
                        assert(old_list@[jj] == g0.blocks@[c].instructions@[jj]);
                        assert(mapping@[old_list@[jj].0 as int] is Some);
                    }
                }
            }
            b = b + 1;
        }
        // Phis keep their place after all positions
        assert(new_instrs@.subrange(0, new_instrs@.len() as int) =~= new_instrs@);
        let np = self.phis.len();
        let mut new_phis: Vec<InstrId> = Vec::new();
        let ghost flat_len = new_instrs@.len();
        let mut p: usize = 0;
        while p < np
            invariant
                g0.wf(),
                self.same_rest(&g0),
                np == g0.phis@.len(),
                p <= np,
                nb == g0.nb(),
                nb > 0,
                flat_len <= new_instrs@.len(),
                new_phis@.len() == p,
                crate::graph::instrs_below(new_phis@, new_instrs@.len() as nat),
                old_instrs@.len() == old_n,
                old_n == g0.ni(),
                mapping@.len() == old_n,
                blocks@.len() == nb,
                forall|i: int| 0 <= i < old_n ==> crate::graph::instr_ok(#[trigger] old_instrs@[i], g0.ni(), g0.nv()),
                forall|i: int| 0 <= i < old_n ==> (#[trigger] mapping@[i] matches Some(x) ==> x < new_instrs@.len()),
                forall|i: int| 0 <= i < old_n && #[trigger] mapping@[i] is None ==> old_instrs@[i] == g0.instructions@[i],
                forall|t: int| 0 <= t < new_instrs@.len() ==> (#[trigger] new_instrs@[t]).id.0 == t
                    && crate::graph::instr_ok(new_instrs@[t], g0.ni(), g0.nv()),
                forall|c: int| 0 <= c < nb ==> flat_block(blocks@, new_instrs@.subrange(0, flat_len as int), c),
                forall|c: int| 0 <= c < nb ==> crate::graph::instrs_below((#[trigger] blocks@[c]).instructions@, flat_len),
                forall|c: int| 0 <= c < nb ==> #[trigger] block_copied(blocks@, new_instrs@, g0, c, mapping@),
                forall|q: int| 0 <= q < p ==> mapping@[(#[trigger] g0.phis@[q]).0 as int] == Some(new_phis@[q].0)
                    && copied(new_instrs@[new_phis@[q].0 as int], g0.instructions@[g0.phis@[q].0 as int]),
                flat_len == blocks@[nb - 1].instructions@.last().0 + 1,
                g0 == *old(self),
                flat_len == flat_size(g0.blocks@, nb as int),
                new_instrs@.len() == flat_len + p,
                forall|x: int| 0 <= x < old_n && (#[trigger] mapping@[x]) is Some ==> (exists|c: int, jj: int| 0 <= c < nb
                    && 0 <= jj < g0.blocks@[c].instructions@.len() && (#[trigger] g0.blocks@[c].instructions@[jj]).0 == x)
                    || (exists|q: int| 0 <= q < p && (#[trigger] g0.phis@[q]).0 == x),
                forall|c: int, jj: int| 0 <= c < nb && 0 <= jj < g0.blocks@[c].instructions@.len()
                    ==> mapping@[(#[trigger] g0.blocks@[c].instructions@[jj]).0 as int] is Some,
                forall|t: int| 0 <= t < new_instrs@.len() ==> #[trigger] has_origin(new_instrs@, g0, mapping@, t),
            decreases np - p,
        {
            let id = self.phis[p];
            if new_instrs.len() == usize::MAX {
                return Err("too many instructions".to_owned());
            }
            if mapping[id.0].is_some() {
                proof {
                    let x = id.0 as int;
                    let pp = p as int;
                    if exists|c: int, jj: int| 0 <= c < nb && 0 <= jj < g0.blocks@[c].instructions@.len()
                        && (#[trigger] g0.blocks@[c].instructions@[jj]).0 == x {
                        let (c, jj) = choose|c: int, jj: int| 0 <= c < nb && 0 <= jj < g0.blocks@[c].instructions@.len()
                            && (#[trigger] g0.blocks@[c].instructions@[jj]).0 == x;
                        assert(g0.blocks@[c].instructions@[jj] == g0.phis@[pp]);
                    } else {
                        let q = choose|q: int| 0 <= q < p && (#[trigger] g0.phis@[q]).0 == x;
                        assert(g0.phis@[q] == g0.phis@[pp]);
                    }
                    assert(placed_twice(g0));
                }
                return Err("instruction in two places".to_owned());
            }
            let mut instr = gap_instr(0, BlockId(0));
            std::mem::swap(&mut instr, &mut old_instrs[id.0]);
            let nid = new_instrs.len();
            instr.id = InstrId(nid);
            let ghost m0 = mapping@;
            let ghost ph0 = new_phis@;
            mapping.set(id.0, Some(nid));
            let ghost n0 = new_instrs@;
            new_instrs.push(instr);
            new_phis.push(InstrId(nid));
            assert(new_instrs@.subrange(0, flat_len as int) =~= n0.subrange(0, flat_len as int));
            proof {
                assert forall|t: int| 0 <= t < new_instrs@.len() implies #[trigger] has_origin(new_instrs@, g0, mapping@, t) by {
                    if t < n0.len() {
                        assert(has_origin(n0, g0, m0, t));
                        assert(new_instrs@[t] == n0[t]);
                        if n0[t].inputs@.len() != 0 {
                            let x = choose|x: int| 0 <= x < m0.len() && #[trigger] m0[x] == Some(t as usize)
                                && n0[t].inputs@ == g0.instructions@[x].inputs@;
                            assert(mapping@[x] == m0[x]);
                        }
                    } else {
                        assert(mapping@[id.0 as int] == Some(t as usize));
                    }
                }
                assert forall|x: int| 0 <= x < old_n && (#[trigger] mapping@[x]) is Some implies (exists|c: int, jj: int| 0 <= c < nb
                    && 0 <= jj < g0.blocks@[c].instructions@.len() && (#[trigger] g0.blocks@[c].instructions@[jj]).0 == x)
                    || (exists|q: int| 0 <= q < p + 1 && (#[trigger] g0.phis@[q]).0 == x) by {
                    if x == id.0 {
                        assert(g0.phis@[p as int].0 == x);
                    } else {
                        assert(m0[x] is Some);
                    }
                }
                assert forall|c: int, jj: int| 0 <= c < nb && 0 <= jj < g0.blocks@[c].instructions@.len()
                    implies mapping@[(#[trigger] g0.blocks@[c].instructions@[jj]).0 as int] is Some by {
                    assert(m0[g0.blocks@[c].instructions@[jj].0 as int] is Some);
                }
            }
            proof {
                assert forall|c: int| 0 <= c < nb implies #[trigger] block_copied(blocks@, new_instrs@, g0, c, mapping@) by {
                    assert(block_copied(blocks@, n0, g0, c, m0));
                    assert forall|i: int| 0 <= i < old_n && (#[trigger] m0[i]) is Some implies mapping@[i] == m0[i] by {
                        assert(i != id.0);
                    }
                    lemma_block_copied_grow(blocks@, blocks@, n0, new_instrs@, g0, c, m0, mapping@);
                }
                assert forall|q: int| 0 <= q < p + 1 implies mapping@[(#[trigger] g0.phis@[q]).0 as int] == Some(new_phis@[q].0)
                    && copied(new_instrs@[new_phis@[q].0 as int], g0.instructions@[g0.phis@[q].0 as int]) by {
                    if q < p {
                        assert(new_phis@[q] == ph0[q]);
                        assert(m0[g0.phis@[q].0 as int] is Some);
                        assert(g0.phis@[q].0 != id.0);
                        assert(new_instrs@[new_phis@[q].0 as int] == n0[ph0[q].0 as int]);
                    }
                }
            }
            p = p + 1;
        }
        // Rename inputs
        let ghost pre = new_instrs@;
        proof {
            assert forall|x: int| 0 <= x < g0.ni() && (#[trigger] mapping@[x]) is Some implies placed(g0, x) by {
                if !(exists|c: int, jj: int| 0 <= c < nb && 0 <= jj < g0.blocks@[c].instructions@.len()
                    && (#[trigger] g0.blocks@[c].instructions@[jj]).0 == x) {
                    let q = choose|q: int| 0 <= q < np && (#[trigger] g0.phis@[q]).0 == x;
                }
            }
            assert forall|y: int| 0 <= y < g0.ni() && placed(g0, y) implies (#[trigger] mapping@[y]) is Some by {
                if exists|c: int, jj: int| 0 <= c < g0.nb() && 0 <= jj < g0.blocks@[c].instructions@.len()
                    && (#[trigger] g0.blocks@[c].instructions@[jj]).0 == y {
                    let (c, jj) = choose|c: int, jj: int| 0 <= c < g0.nb() && 0 <= jj < g0.blocks@[c].instructions@.len()
                        && (#[trigger] g0.blocks@[c].instructions@[jj]).0 == y;
                    assert(mapping@[g0.blocks@[c].instructions@[jj].0 as int] is Some);
                } else {
                    let q = choose|q: int| 0 <= q < g0.phis@.len() && (#[trigger] g0.phis@[q]).0 == y;
                    assert(mapping@[g0.phis@[q].0 as int] is Some);
                }
            }
        }
        let total = new_instrs.len();
        let mut t: usize = 0;
        while t < total
            invariant
                total == new_instrs@.len(),
                t <= total,
                mapping@.len() == g0.ni(),
                forall|i: int| 0 <= i < g0.ni() ==> (#[trigger] mapping@[i] matches Some(x) ==> x < total),
                forall|t2: int| 0 <= t2 < total ==> (#[trigger] new_instrs@[t2]).id.0 == t2
                    && crate::graph::opt_below(new_instrs@[t2].output, g0.nv())
                    && crate::graph::intervals_below(new_instrs@[t2].temporary@, g0.nv()),
                forall|t2: int| 0 <= t2 < t ==> crate::graph::instrs_below((#[trigger] new_instrs@[t2]).inputs@, total as nat),
                forall|t2: int| t <= t2 < total ==> crate::graph::instrs_below((#[trigger] new_instrs@[t2]).inputs@, g0.ni()),
                pre.len() == total,
                forall|t2: int| 0 <= t2 < total ==> (#[trigger] new_instrs@[t2]).block == pre[t2].block
                    && new_instrs@[t2].kind == pre[t2].kind,
                forall|t2: int| 0 <= t2 < t ==> renumbered(#[trigger] new_instrs@[t2], pre[t2], mapping@),
                forall|t2: int| t <= t2 < total ==> #[trigger] new_instrs@[t2] == pre[t2],
                total == flat_size(g0.blocks@, nb as int) + g0.phis@.len(),
                g0 == *old(self),
                forall|x: int| 0 <= x < g0.ni() && (#[trigger] mapping@[x]) is Some ==> placed(g0, x),
                forall|y: int| 0 <= y < g0.ni() && placed(g0, y) ==> (#[trigger] mapping@[y]) is Some,
                forall|t2: int| 0 <= t2 < total ==> #[trigger] has_origin(pre, g0, mapping@, t2),
            decreases total - t,
        {
            let ins = new_instrs[t].inputs.clone();
            let mut renamed: Vec<InstrId> = Vec::new();
            let m = ins.len();
            let mut j: usize = 0;
            while j < m
                invariant
                    m == ins@.len(),
                    j <= m,
                    renamed@.len() == j,
                    crate::graph::instrs_below(ins@, g0.ni()),
                    mapping@.len() == g0.ni(),
                    forall|i: int| 0 <= i < g0.ni() ==> (#[trigger] mapping@[i] matches Some(x) ==> x < total),
                    crate::graph::instrs_below(renamed@, total as nat),
                    forall|jj: int| 0 <= jj < j ==> mapping@[(#[trigger] ins@[jj]).0 as int] == Some(renamed@[jj].0),
                    g0 == *old(self),
                    t < total,
                    pre.len() == total,
                    ins@ == pre[t as int].inputs@,
                    forall|x: int| 0 <= x < g0.ni() && (#[trigger] mapping@[x]) is Some ==> placed(g0, x),
                    forall|y: int| 0 <= y < g0.ni() && placed(g0, y) ==> (#[trigger] mapping@[y]) is Some,
                    has_origin(pre, g0, mapping@, t as int),
                decreases m - j,
            {
                match mapping[ins[j].0] {
                    Some(x) => {
                        renamed.push(InstrId(x));
                    },
                    None => {
                        proof {
                            let x = choose|x: int| 0 <= x < mapping@.len() && #[trigger] mapping@[x] == Some(t as usize)
                                && pre[t as int].inputs@ == g0.instructions@[x].inputs@;
                            assert(placed(g0, x));
                            assert(g0.instructions@[x].inputs@[j as int] == ins@[j as int]);
                            assert(!placed(g0, ins@[j as int].0 as int));
                            assert(reads_unplaced(g0));
                        }
                        return Err("input outside of any block".to_owned());
                    },
                }
                j = j + 1;
            }
            let ghost n0 = new_instrs@;
            new_instrs[t].inputs = renamed;
            proof {
                assert(n0[t as int] == pre[t as int]);
                assert(ins@ == pre[t as int].inputs@);
                assert forall|t2: int| 0 <= t2 < t + 1 implies renumbered(#[trigger] new_instrs@[t2], pre[t2], mapping@) by {
                    if t2 < t {
                        assert(new_instrs@[t2] == n0[t2]);
                    }
                }
            }
            t = t + 1;
        }
        proof {
            assert forall|c: int| 0 <= c < nb implies flat_block(blocks@, new_instrs@, c) by {
                let sub = pre.subrange(0, flat_len as int);
                lemma_flat_block_transfer(blocks@, sub, new_instrs@, c, flat_len);
            }
        }
        self.instructions = new_instrs;
        self.blocks = blocks;
        self.instr_id = total;
        self.phis = new_phis;
        proof {
            let g1 = *self;
            assert forall|c: int| 0 <= c < g1.nb() implies #[trigger] block_renumbered(g1, g0, c, c, mapping@) by {
                assert(block_copied(blocks@, pre, g0, c, mapping@));
                let ins1 = g1.blocks@[c].instructions@;
                let ins0 = g0.blocks@[c].instructions@;
                assert forall|j: int| 0 <= j < ins0.len() implies mapping@[(#[trigger] ins0[j]).0 as int] == Some(ins1[2 * j + 1].0)
                    && renumbered(g1.instructions@[ins1[2 * j + 1].0 as int], g0.instructions@[ins0[j].0 as int], mapping@) by {
                    let x = ins1[2 * j + 1].0 as int;
                    assert(crate::graph::instrs_below(ins1, flat_len));
                    assert(0 <= x < total);
                    assert(renumbered(new_instrs@[x], pre[x], mapping@));
                    assert(copied(pre[x], g0.instructions@[ins0[j].0 as int]));
                }
            }
            assert forall|q: int| 0 <= q < g0.phis@.len() implies mapping@[(#[trigger] g0.phis@[q]).0 as int] == Some(g1.phis@[q].0)
                && renumbered(g1.instructions@[g1.phis@[q].0 as int], g0.instructions@[g0.phis@[q].0 as int], mapping@) by {
                let x = g1.phis@[q].0 as int;
                assert(0 <= x < total);
                assert(renumbered(new_instrs@[x], pre[x], mapping@));
            }
            assert(instrs_renumbered(g1, g0, mapping@));
        }
        Ok(())
    }
}


impl<K: KindHelper> Graph<K> {
    /// Count down the incoming forward branches of the successors of
    /// `cur`; those that reach zero go to the front of the queue.
    fn visit_successors(&mut self, cur: usize, queue: &mut Vec<usize>)
        requires
            old(self).wf(),
            cur < old(self).nb(),
            forall|q: int| 0 <= q < old(queue)@.len() ==> (#[trigger] old(queue)@[q]) < old(self).nb(),
        ensures
            final(self).reshaped_from(old(self)),
            forall|q: int| 0 <= q < final(queue)@.len() ==> (#[trigger] final(queue)@[q]) < old(self).nb(),
            forall|b: int| 0 <= b < old(self).nb() ==> counted_down(#[trigger] final(self).blocks@[b], old(self).blocks@[b],
                hits(old(self).blocks@[cur as int].successors@, b)),
            exists|front: Seq<usize>| {
                &&& final(queue)@ == front + old(queue)@
                &&& forall|q: int| 0 <= q < front.len() ==> {
                    let x = #[trigger] front[q];
                    &&& hits(old(self).blocks@[cur as int].successors@, x as int) > 0
                    &&& final(self).blocks@[x as int].incoming_forward_branches == 0
                    &&& old(self).blocks@[x as int].incoming_forward_branches > 0
                }
                &&& forall|b: int| 0 <= b < old(self).nb() && #[trigger] old(self).blocks@[b].incoming_forward_branches > 0
                    && final(self).blocks@[b].incoming_forward_branches == 0 ==> front.contains(b as usize)
            },
    {
        let ghost g0 = *self;
        let n = self.blocks.len();
        let succs = self.blocks[cur].successors.clone();
        assert(succs@ =~= g0.blocks@[cur as int].successors@);
        let m = succs.len();
        let ghost q0 = queue@;
        let ghost mut front: Seq<usize> = seq![];
        let mut j: usize = 0;
        while j < m
            invariant
                g0.wf(),
                n == g0.nb(),
                m == succs@.len(),
                succs@ == g0.blocks@[cur as int].successors@,
                blocks_below(succs@, n as nat),
                j <= m,
                self.reshaped_from(&g0),
                forall|q: int| 0 <= q < queue@.len() ==> (#[trigger] queue@[q]) < n,
                forall|b: int| 0 <= b < n ==> counted_down(#[trigger] self.blocks@[b], g0.blocks@[b], hits(succs@.take(j as int), b)),
                queue@ == front + q0,
                forall|q: int| 0 <= q < front.len() ==> {
                    let x = #[trigger] front[q];
                    &&& x < n
                    &&& hits(succs@.take(j as int), x as int) > 0
                    &&& self.blocks@[x as int].incoming_forward_branches == 0
                    &&& g0.blocks@[x as int].incoming_forward_branches > 0
                },
                forall|b: int| 0 <= b < n && #[trigger] g0.blocks@[b].incoming_forward_branches > 0
                    && self.blocks@[b].incoming_forward_branches == 0 ==> front.contains(b as usize),
            decreases m - j,
        {
            let s = succs[j].0;
            let ghost g1 = *self;
            let ghost f1 = front;
            proof {
                assert(succs@.take(j + 1).drop_last() =~= succs@.take(j as int));
                assert(succs@.take(j + 1).last() == succs@[j as int]);
                assert forall|b: int| 0 <= b < n implies #[trigger] hits(succs@.take(j + 1), b)
                    == hits(succs@.take(j as int), b) + if b == s { 1nat } else { 0nat } by {
                    assert(succs@.take(j + 1).drop_last() =~= succs@.take(j as int));
                    assert(succs@.take(j + 1).last() == succs@[j as int]);
                }
            }
            if self.blocks[s].incoming_forward_branches != 0 {
                self.blocks[s].incoming_forward_branches = self.blocks[s].incoming_forward_branches - 1;
                assert(same_shape(self.blocks@[s as int], g1.blocks@[s as int]));
                if self.blocks[s].incoming_forward_branches == 0 {
                    queue.insert(0, s);
                    proof {
                        assert(queue@ =~= seq![s] + front + q0);
                        assert(seq![s] + front + q0 =~= (seq![s] + front) + q0);
                        front = seq![s] + front;
                        assert(front[0] == s);
                    }
                }
            }
            proof {
                assert forall|q: int| 0 <= q < front.len() implies {
                    let x = #[trigger] front[q];
                    &&& x < n
                    &&& hits(succs@.take(j + 1), x as int) > 0
                    &&& self.blocks@[x as int].incoming_forward_branches == 0
                    &&& g0.blocks@[x as int].incoming_forward_branches > 0
                } by {
                    let x = front[q];
                    assert(hits(succs@.take(j + 1), x as int) >= hits(succs@.take(j as int), x as int));
                }
                assert forall|b: int| 0 <= b < n implies counted_down(#[trigger] self.blocks@[b], g0.blocks@[b],
                    hits(succs@.take(j + 1), b)) by {
                    let h0 = hits(succs@.take(j as int), b) as int;
                    assert(counted_down(g1.blocks@[b], g0.blocks@[b], hits(succs@.take(j as int), b)));
                    if b != s {
                        assert(self.blocks@[b] == g1.blocks@[b]);
                    } else {
                        assert(hits(succs@.take(j + 1), b) == h0 + 1);
                    }
                }
                assert forall|b: int| 0 <= b < n && #[trigger] g0.blocks@[b].incoming_forward_branches > 0
                    && self.blocks@[b].incoming_forward_branches == 0 implies front.contains(b as usize) by {
                    if b == s && g1.blocks@[b].incoming_forward_branches != 0 {
                        assert(front[0] == s);
                    } else {
                        if b != s {
                            assert(self.blocks@[b] == g1.blocks@[b]);
                        }
                        assert(f1.contains(b as usize));
                        let idx = choose|idx: int| 0 <= idx < f1.len() && f1[idx] == b as usize;
                        if front != f1 {
                            assert(front[idx + 1] == b as usize);
                        }
                    }
                }
            }
            j = j + 1;
        }
        proof {
            assert(succs@.take(m as int) =~= succs@);
            assert forall|b: int| 0 <= b < n implies counted_down(#[trigger] self.blocks@[b], g0.blocks@[b], hits(succs@, b)) by {
                assert(succs@.take(m as int) =~= succs@);
            }
        }
    }

    /// Order the blocks (each after all its forward predecessors, starting
    /// from the root), then renumber blocks and instructions into the flat
    /// layout.
    pub fn flatten_order(&mut self) -> (r: Result<(), String>)
        requires
            old(self).wf(),
        ensures
            r is Ok ==> final(self).wf() && final(self).flat(),
            r is Ok ==> exists|list: Seq<BlockId>, map: Seq<Option<usize>>| flattened_from(*final(self), *old(self), list, map)
                && loops_deepened(*final(self), *old(self), list),
            r is Ok ==> final(self).intervals@ == old(self).intervals@,
            old(self).root is None ==> r is Err,
    {
        let ghost g_in = *self;
        self.flatten_assign_indexes()?;
        let ghost g0 = *self;
        let root = match self.root {
            Some(r) => r.0,
            None => {
                return Err("Root block".to_owned());
            },
        };
        let n = self.blocks.len();
        let mut list: Vec<BlockId> = Vec::new();
        let mut visited = falses(n);
        let mut queue: Vec<usize> = Vec::new();
        visited.set(root, true);
        list.push(BlockId(root));
        self.visit_successors(root, &mut queue);
        while queue.len() > 0
            invariant
                g0.wf(),
                n == g0.nb(),
                self.reshaped_from(&g0),
                visited@.len() == n,
                root < n,
                self.root == Some(BlockId(root)),
                list@.len() > 0,
                list@[0].0 == root,
                blocks_below(list@, n as nat),
                distinct_blocks(list@),
                forall|i: int| 0 <= i < list@.len() ==> visited@[(#[trigger] list@[i]).0 as int],
                forall|q: int| 0 <= q < queue@.len() ==> (#[trigger] queue@[q]) < n,
                forall|b: int| 0 <= b < n ==> (#[trigger] self.blocks@[b]).loop_depth == g0.blocks@[b].loop_depth
                    && self.blocks@[b].loop_index == g0.blocks@[b].loop_index,
            decreases count_unset(visited@), queue@.len(),
        {
            let ghost v0 = visited@;
            let cur = queue.remove(0);
            // Skip visited blocks
            if visited[cur] {
                continue;
            }
            visited.set(cur, true);
            proof {
                lemma_count_unset_set(v0, cur as int);
            }
            let ghost l0 = list@;
            list.push(BlockId(cur));
            proof {
                assert forall|i: int, j: int| 0 <= i < j < list@.len() implies list@[i] != list@[j] by {
                    if j == list@.len() - 1 {
                        assert(visited@[l0[i].0 as int] == v0[l0[i].0 as int]) by {
                            assert(l0[i].0 != cur) by {
                                assert(v0[l0[i].0 as int]);
                            }
                        }
                    }
                }
                assert forall|i: int| 0 <= i < list@.len() implies visited@[(#[trigger] list@[i]).0 as int] by {
                    if i < l0.len() {
                        assert(list@[i] == l0[i]);
                    }
                }
            }
            // Visit successors if they've no unvisited incoming forward edges
            let ghost g1 = *self;
            self.visit_successors(cur, &mut queue);
            proof {
                assert forall|b: int| 0 <= b < self.nb() implies same_shape(#[trigger] self.blocks@[b], g0.blocks@[b]) by {
                    assert(same_shape(self.blocks@[b], g1.blocks@[b]));
                }
            }
        }
        // Assign flat ids to every block
        let ghost g1 = *self;
        let ids = self.flatten_reindex_blocks(&list)?;
        proof {
            let rt = (self.root->0).0 as int;
            assert(list@[rt].0 == root);
            assert(rt == 0) by {
                if rt != 0 {
                    assert(list@[rt] == list@[0]);
                }
            }
        }
        let ghost g2 = *self;
        // Assign flat ids to every instruction
        let r = self.flatten_reindex_instructions(&ids);
        proof {
            if r is Ok {
                let map = choose|map: Seq<Option<usize>>| instrs_renumbered(*self, g2, map);
                let g3 = *self;
                assert forall|k: int| 0 <= k < g3.nb() implies block_renumbered(g3, g_in, k, list@[k].0 as int, map)
                    && edges_renumbered(#[trigger] g3.blocks@[k], g_in.blocks@[list@[k].0 as int], list@) by {
                    let c = list@[k].0 as int;
                    assert(block_renumbered(g3, g2, k, k, map));
                    assert(same_shape(g1.blocks@[c], g0.blocks@[c]));
                    assert(same_shape(g0.blocks@[c], g_in.blocks@[c]));
                    assert(g2.blocks@[k].instructions == g1.blocks@[c].instructions);
                    let ins0 = g_in.blocks@[c].instructions@;
                    let ins1 = g3.blocks@[k].instructions@;
                    assert(ins0 == g2.blocks@[k].instructions@);
                    assert forall|j: int| 0 <= j < ins0.len() implies map[(#[trigger] ins0[j]).0 as int] == Some(ins1[2 * j + 1].0)
                        && renumbered(g3.instructions@[ins1[2 * j + 1].0 as int], g_in.instructions@[ins0[j].0 as int], map) by {
                        let x = ins0[j].0 as int;
                        assert(0 <= x < g2.ni());
                        assert(copied(g2.instructions@[x], g1.instructions@[x]));
                        lemma_renumbered_copied(g3.instructions@[ins1[2 * j + 1].0 as int], g2.instructions@[x], g_in.instructions@[x], map);
                    }
                }
                assert forall|p: int| 0 <= p < g_in.phis@.len() implies map[(#[trigger] g_in.phis@[p]).0 as int] == Some(g3.phis@[p].0)
                    && renumbered(g3.instructions@[g3.phis@[p].0 as int], g_in.instructions@[g_in.phis@[p].0 as int], map) by {
                    assert(g2.phis@[p] == g_in.phis@[p]);
                    let x = g_in.phis@[p].0 as int;
                    assert(0 <= x < g2.ni());
                    assert(copied(g2.instructions@[x], g1.instructions@[x]));
                    lemma_renumbered_copied(g3.instructions@[g3.phis@[p].0 as int], g2.instructions@[x], g_in.instructions@[x], map);
                }
                assert(flattened_from(g3, g_in, list@, map));
                assert forall|k: int| 0 <= k < g3.nb() implies #[trigger] deepened(g3.blocks@[k], g_in.blocks@[list@[k].0 as int]) by {
                    let c = list@[k].0 as int;
                    assert(g3.blocks@[k].loop_depth == g2.blocks@[k].loop_depth);
                    assert(g2.blocks@[k].loop_depth == g1.blocks@[c].loop_depth);
                    assert(deepened(g0.blocks@[c], g_in.blocks@[c]));
                }
                assert forall|k: int| 0 <= k < g3.nb() && #[trigger] one_block_loop(g_in, list@[k].0 as int)
                    implies g3.blocks@[k].loop_depth > g_in.blocks@[list@[k].0 as int].loop_depth by {
                    let c = list@[k].0 as int;
                    assert(g3.blocks@[k].loop_depth == g2.blocks@[k].loop_depth);
                    assert(g2.blocks@[k].loop_depth == g1.blocks@[c].loop_depth);
                    assert(0 <= c < g0.nb());
                }
                assert(loops_deepened(g3, g_in, list@));
            }
        }
        r
    }
}

} // verus!

verus! {

impl<K: KindHelper> Flatten for Graph<K> {
    fn flatten(&mut self) -> (r: Result<(), String>)
        ensures
            !old(self).wf() || old(self).root is None ==> r is Err,
            r is Ok ==> final(self).wf() && final(self).flat(),
            r is Ok ==> exists|list: Seq<BlockId>, map: Seq<Option<usize>>| flattened_from(*final(self), *old(self), list, map)
                && loops_deepened(*final(self), *old(self), list),
    {
        if !self.check_wf() {
            return Err("malformed graph".to_owned());
        }
        self.flatten_order()
    }
}

} // verus!
