use vstd::prelude::*;

verus! {

/// A set of small natural numbers, stored as a vector of flags.
pub struct BitSet {
    pub bits: Vec<bool>,
}

impl BitSet {
    /// Membership of `i`.
    pub open spec fn has(&self, i: int) -> bool {
        0 <= i < self.bits@.len() && self.bits@[i]
    }

    /// Every member is below this bound.
    pub open spec fn bound(&self) -> nat {
        self.bits@.len()
    }

    /// Two sets with the same members.
    pub open spec fn same_as(&self, other: &BitSet) -> bool {
        forall|i: int| #![trigger self.has(i)] #![trigger other.has(i)] self.has(i) == other.has(i)
    }

    /// The members, as a set.
    pub open spec fn members(&self) -> Set<int> {
        Set::new(|i: int| self.has(i))
    }

    /// How many members the set has.
    pub open spec fn size(&self) -> nat {
        self.members().len()
    }

    pub fn new() -> (s: BitSet)
        ensures
            s.bound() == 0,
            forall|i: int| !#[trigger] s.has(i),
    {
        BitSet { bits: Vec::new() }
    }

    pub fn contains(&self, i: usize) -> (r: bool)
        ensures
            r == self.has(i as int),
    {
        i < self.bits.len() && self.bits[i]
    }

    /// Add `i`; true when it was not a member before.
    pub fn insert(&mut self, i: usize) -> (r: bool)
        requires
            i < usize::MAX,
        ensures
            r == !old(self).has(i as int),
            forall|j: int| #[trigger] final(self).has(j) == (old(self).has(j) || j == i),
            final(self).bound() == if old(self).bound() > i { old(self).bound() } else { (i + 1) as nat },
    {
        let ghost old_bits = self.bits@;
        while self.bits.len() <= i
            invariant
                old_bits.len() <= self.bits@.len(),
                self.bits@.len() <= if old_bits.len() > i { old_bits.len() } else { (i + 1) as nat },
                forall|j: int| 0 <= j < old_bits.len() ==> self.bits@[j] == old_bits[j],
                forall|j: int| old_bits.len() <= j < self.bits@.len() ==> !self.bits@[j],
            decreases i + 1 - self.bits.len(),
        {
            self.bits.push(false);
        }
        let was = self.bits[i];
        self.bits.set(i, true);
        !was
    }

    /// The members of either set.
    pub fn union(&self, other: &BitSet) -> (r: BitSet)
        ensures
            forall|j: int| #[trigger] r.has(j) == (self.has(j) || other.has(j)),
            r.bound() == if self.bound() >= other.bound() { self.bound() } else { other.bound() },
    {
        let n = if self.bits.len() >= other.bits.len() { self.bits.len() } else { other.bits.len() };
        let mut bits: Vec<bool> = Vec::new();
        let mut k: usize = 0;
        while k < n
            invariant
                n == if self.bits@.len() >= other.bits@.len() { self.bits@.len() } else { other.bits@.len() },
                k <= n,
                bits@.len() == k,
                forall|j: int| 0 <= j < k ==> bits@[j] == (self.has(j) || other.has(j)),
            decreases n - k,
        {
            let b = self.contains(k) || other.contains(k);
            bits.push(b);
            k = k + 1;
        }
        BitSet { bits }
    }

    /// The members of this set that are not members of `other`.
    pub fn difference(&self, other: &BitSet) -> (r: BitSet)
        ensures
            forall|j: int| #[trigger] r.has(j) == (self.has(j) && !other.has(j)),
            r.bound() == self.bound(),
    {
        let n = self.bits.len();
        let mut bits: Vec<bool> = Vec::new();
        let mut k: usize = 0;
        while k < n
            invariant
                n == self.bits@.len(),
                k <= n,
                bits@.len() == k,
                forall|j: int| 0 <= j < k ==> bits@[j] == (self.has(j) && !other.has(j)),
            decreases n - k,
        {
            let b = self.contains(k) && !other.contains(k);
            bits.push(b);
            k = k + 1;
        }
        BitSet { bits }
    }

    /// Add every member of `other`.
    pub fn union_with(&mut self, other: &BitSet)
        ensures
            forall|j: int| #[trigger] final(self).has(j) == (old(self).has(j) || other.has(j)),
            final(self).bound() == if old(self).bound() >= other.bound() { old(self).bound() } else { other.bound() },
    {
        let r = self.union(other);
        *self = r;
    }

    /// Remove every member of `other`.
    pub fn difference_with(&mut self, other: &BitSet)
        ensures
            forall|j: int| #[trigger] final(self).has(j) == (old(self).has(j) && !other.has(j)),
            final(self).bound() == old(self).bound(),
    {
        let r = self.difference(other);
        *self = r;
    }

    /// Whether both sets have the same members.
    pub fn same(&self, other: &BitSet) -> (r: bool)
        ensures
            r == self.same_as(other),
    {
        let n = if self.bits.len() >= other.bits.len() { self.bits.len() } else { other.bits.len() };
        let mut k: usize = 0;
        while k < n
            invariant
                n >= self.bits@.len(),
                n >= other.bits@.len(),
                k <= n,
                forall|j: int| 0 <= j < k ==> self.has(j) == other.has(j),
            decreases n - k,
        {
            if self.contains(k) != other.contains(k) {
                return false;
            }
            k = k + 1;
        }
        true
    }

    pub fn copy(&self) -> (r: BitSet)
        ensures
            r.bits@ == self.bits@,
    {
        BitSet { bits: self.bits.clone() }
    }

    /// The members in increasing order.
    pub fn to_vec(&self) -> (r: Vec<usize>)
        ensures
            forall|a: int, b: int| 0 <= a < b < r@.len() ==> r@[a] < r@[b],
            forall|a: int| 0 <= a < r@.len() ==> self.has(#[trigger] r@[a] as int),
            forall|j: int| self.has(j) ==> r@.contains(j as usize),
    {
        let n = self.bits.len();
        let mut r: Vec<usize> = Vec::new();
        let mut k: usize = 0;
        while k < n
            invariant
                n == self.bits@.len(),
                k <= n,
                forall|a: int, b: int| 0 <= a < b < r@.len() ==> r@[a] < r@[b],
                forall|a: int| 0 <= a < r@.len() ==> r@[a] < k,
                forall|a: int| 0 <= a < r@.len() ==> self.has(#[trigger] r@[a] as int),
                forall|j: int| 0 <= j < k && self.has(j) ==> r@.contains(j as usize),
            decreases n - k,
        {
            let ghost old_r = r@;
            if self.bits[k] {
                r.push(k);
                assert(r@[r@.len() - 1] == k);
                assert(r@.contains(k));
                assert forall|j: int| 0 <= j < k && self.has(j) implies r@.contains(j as usize) by {
                    assert(old_r.contains(j as usize));
                    let a = choose|a: int| 0 <= a < old_r.len() && old_r[a] == j as usize;
                    assert(r@[a] == old_r[a]);
                }
            }
            k = k + 1;
        }
        r
    }
}

/// A set whose members lie below `n` has at most `n` of them.
pub proof fn lemma_size_below(a: BitSet, n: nat)
    requires
        a.bound() <= n,
    ensures
        a.members().finite(),
        a.size() <= n,
{
    vstd::set_lib::lemma_int_range(0, n as int);
    assert(a.members().subset_of(vstd::set_lib::set_int_range(0, n as int)));
    vstd::set_lib::lemma_len_subset(a.members(), vstd::set_lib::set_int_range(0, n as int));
}

/// A set that holds the members of another is at least as large, and
/// larger where it holds one more.
pub proof fn lemma_size_grows(a: BitSet, b: BitSet, n: nat)
    requires
        a.bound() <= n,
        b.bound() <= n,
        forall|i: int| #[trigger] a.has(i) ==> b.has(i),
    ensures
        a.size() <= b.size(),
        !a.same_as(&b) ==> a.size() < b.size(),
{
    lemma_size_below(a, n);
    lemma_size_below(b, n);
    assert(a.members().subset_of(b.members()));
    vstd::set_lib::lemma_len_subset(a.members(), b.members());
    if !a.same_as(&b) {
        let x = choose|i: int| a.has(i) != b.has(i);
        assert(b.members().contains(x) && !a.members().contains(x));
        assert(a.members().subset_of(b.members().remove(x)));
        vstd::set_lib::lemma_len_subset(a.members(), b.members().remove(x));
    }
}

} // verus!
