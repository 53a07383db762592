//! The index-set type, its invariant, and the merge-style set operations.
use vstd::prelude::*;
use vstd::layout::size_of;

verus! {

/// A list of indices to rows of a dataset that all have some property.
///
/// The list must be strictly increasing, which makes it both sorted and free
/// of duplicates (see [`Filter::wf`]).
#[derive(Clone, Debug, PartialEq)]
pub struct Filter {
    /// A list of strictly increasing indices.
    pub list: Vec<u32>,
}

/// Each element of `s` is smaller than every element after it.
pub open spec fn strictly_increasing(s: Seq<u32>) -> bool {
    forall|i: int, j: int| 0 <= i < j < s.len() ==> s[i] < s[j]
}

/// Each adjacent pair of `s` is strictly increasing.
pub open spec fn adjacent_increasing(s: Seq<u32>) -> bool {
    forall|i: int| 0 <= i < s.len() - 1 ==> #[trigger] s[i] < s[i + 1]
}

/// Relies on `Vec::capacity`: it is never below the length, and std never
/// allocates more than `isize::MAX` bytes for a vector.
#[verifier::external_body]
fn capacity_of(v: &Vec<u32>) -> (r: usize)
    ensures
        r >= v@.len(),
        4 * r <= isize::MAX,
{
    v.capacity()
}

/// The strictly increasing sequence that holds exactly the indices of `s`.
pub open spec fn ordered(s: Set<u32>) -> Seq<u32> {
    choose|r: Seq<u32>| strictly_increasing(r) && r.to_set() == s
}

/// The ordered indices that occur in `a` or in `b`.
pub open spec fn union_of(a: Seq<u32>, b: Seq<u32>) -> Seq<u32> {
    ordered(a.to_set().union(b.to_set()))
}

/// The ordered indices that occur in both `a` and `b`.
pub open spec fn intersection_of(a: Seq<u32>, b: Seq<u32>) -> Seq<u32> {
    ordered(a.to_set().intersect(b.to_set()))
}

/// A strictly increasing sequence is determined by the set of its elements.
pub proof fn lemma_increasing_unique(r1: Seq<u32>, r2: Seq<u32>)
    requires
        strictly_increasing(r1),
        strictly_increasing(r2),
        r1.to_set() == r2.to_set(),
    ensures
        r1 == r2,
    decreases r1.len(),
{
    if r1.len() == 0 {
        if r2.len() > 0 {
            assert(r2.to_set().contains(r2[0]));
        }
        assert(r1 =~= r2);
    } else {
        assert(r1.to_set().contains(r1[0]));
        assert(r2.len() > 0);
        assert(r2.to_set().contains(r2[0]));
        let x1 = r1[0];
        let x2 = r2[0];
        assert(r2.contains(x1));
        assert(r1.contains(x2));
        assert(x1 == x2) by {
            let k1 = choose|k: int| 0 <= k < r2.len() && r2[k] == x1;
            let k2 = choose|k: int| 0 <= k < r1.len() && r1[k] == x2;
            if k1 > 0 {
                assert(x2 < x1);
                if k2 > 0 {
                    assert(x1 < x2);
                }
            }
        }
        let t1 = r1.drop_first();
        let t2 = r2.drop_first();
        assert(t1.to_set() =~= t2.to_set()) by {
            assert forall|x: u32| t1.to_set().contains(x) implies t2.to_set().contains(x) by {
                let k = choose|k: int| 0 <= k < t1.len() && t1[k] == x;
                assert(r1[k + 1] == x);
                assert(x1 < x);
                assert(r1.contains(x));
                assert(r1.to_set().contains(x));
                assert(r2.to_set().contains(x));
                assert(r2.contains(x));
                let m = choose|m: int| 0 <= m < r2.len() && r2[m] == x;
                assert(m > 0);
                assert(t2[m - 1] == x);
            }
            assert forall|x: u32| t2.to_set().contains(x) implies t1.to_set().contains(x) by {
                let k = choose|k: int| 0 <= k < t2.len() && t2[k] == x;
                assert(r2[k + 1] == x);
                assert(x2 < x);
                assert(r2.contains(x));
                assert(r2.to_set().contains(x));
                assert(r1.to_set().contains(x));
                assert(r1.contains(x));
                let m = choose|m: int| 0 <= m < r1.len() && r1[m] == x;
                assert(m > 0);
                assert(t1[m - 1] == x);
            }
        }
        lemma_increasing_unique(t1, t2);
        assert(r1 =~= r2) by {
            assert(r1 =~= seq![x1] + t1);
            assert(r2 =~= seq![x2] + t2);
        }
    }
}

/// A strictly increasing sequence is the ordered form of its own set.
pub proof fn lemma_ordered_of_increasing(r: Seq<u32>)
    requires
        strictly_increasing(r),
    ensures
        ordered(r.to_set()) == r,
{
    let s = r.to_set();
    assert(strictly_increasing(r) && r.to_set() == s);
    let c = ordered(s);
    lemma_increasing_unique(c, r);
}

impl Filter {
    /// The indices held, in order.
    pub open spec fn view(&self) -> Seq<u32> {
        self.list@
    }

    /// The invariant of a filter: its indices strictly increase.
    pub open spec fn wf(&self) -> bool {
        strictly_increasing(self.list@)
    }

    /// Constructs a new `Filter` that contains the indices
    /// from both source filters.
    pub fn union(&self, other: &Filter) -> (r: Filter)
        requires
            self.wf(),
            other.wf(),
        ensures
            r.wf(),
            r@.to_set() == self@.to_set().union(other@.to_set()),
            r@ == union_of(self@, other@),
    {
        broadcast use vstd::seq::Seq::lemma_push_to_set_commute;

        let ghost a = self@;
        let ghost b = other@;
        let cap = if self.list.len() >= other.list.len() {
            self.list.len()
        } else {
            other.list.len()
        };
        // March and add the least element to the list.
        let mut acc = Vec::<u32>::with_capacity(cap);
        let mut i: usize = 0;
        let mut j: usize = 0;
        while i < self.list.len() || j < other.list.len()
            invariant
                a == self@,
                b == other@,
                strictly_increasing(a),
                strictly_increasing(b),
                i <= a.len(),
                j <= b.len(),
                strictly_increasing(acc@),
                acc@.to_set() == a.subrange(0, i as int).to_set().union(
                    b.subrange(0, j as int).to_set(),
                ),
                forall|k: int| 0 <= k < acc@.len() ==> (i < a.len() ==> acc@[k] < a[i as int]),
                forall|k: int| 0 <= k < acc@.len() ==> (j < b.len() ==> acc@[k] < b[j as int]),
            decreases a.len() - i + b.len() - j,
        {
            let ghost sa = a.subrange(0, i as int);
            let ghost sb = b.subrange(0, j as int);
            let ghost prev = acc@;
            if i < self.list.len() && j < other.list.len() && self.list[i] == other.list[j] {
                let v = self.list[i];
                acc.push(v);
                i += 1;
                j += 1;
                assert(a.subrange(0, i as int) =~= sa.push(v));
                assert(b.subrange(0, j as int) =~= sb.push(v));
            } else if j == other.list.len() || (i < self.list.len() && self.list[i] < other.list[j]) {
                let v = self.list[i];
                acc.push(v);
                i += 1;
                assert(a.subrange(0, i as int) =~= sa.push(v));
                assert(b.subrange(0, j as int) =~= sb);
            } else {
                let v = other.list[j];
                acc.push(v);
                j += 1;
                assert(a.subrange(0, i as int) =~= sa);
                assert(b.subrange(0, j as int) =~= sb.push(v));
            }
            proof {
                let v = acc@.last();
                assert(acc@ == prev.push(v));
                prev.lemma_push_to_set_commute(v);
                sa.lemma_push_to_set_commute(v);
                sb.lemma_push_to_set_commute(v);
            }
            assert(acc@.to_set() =~= a.subrange(0, i as int).to_set().union(
                b.subrange(0, j as int).to_set(),
            ));
        }
        assert(a.subrange(0, i as int) == a);
        assert(b.subrange(0, j as int) == b);
        proof {
            lemma_ordered_of_increasing(acc@);
        }
        Filter { list: acc }
    }

    /// Constructs a new `Filter` that contains only the indices
    /// that occur in both source filters.
    pub fn intersect(&self, other: &Filter) -> (r: Filter)
        requires
            self.wf(),
            other.wf(),
        ensures
            r.wf(),
            r@.to_set() == self@.to_set().intersect(other@.to_set()),
            r@ == intersection_of(self@, other@),
    {
        broadcast use vstd::seq::Seq::lemma_push_to_set_commute;

        let ghost a = self@;
        let ghost b = other@;
        // March and add matching elements to the list.
        let mut acc = Vec::<u32>::new();
        let mut i: usize = 0;
        let mut j: usize = 0;
        while i < self.list.len() && j < other.list.len()
            invariant
                a == self@,
                b == other@,
                strictly_increasing(a),
                strictly_increasing(b),
                i <= a.len(),
                j <= b.len(),
                strictly_increasing(acc@),
                acc@.to_set() == a.subrange(0, i as int).to_set().intersect(b.to_set()),
                acc@.to_set() == a.to_set().intersect(b.subrange(0, j as int).to_set()),
                forall|k: int| 0 <= k < acc@.len() ==> (i < a.len() ==> acc@[k] < a[i as int]),
                forall|k: int| 0 <= k < i ==> (j < b.len() ==> a[k] < b[j as int]),
                forall|k: int| 0 <= k < j ==> (i < a.len() ==> b[k] < a[i as int]),
            decreases a.len() - i + b.len() - j,
        {
            let x = self.list[i];
            let y = other.list[j];
            assert(a.subrange(0, i + 1) =~= a.subrange(0, i as int).push(x));
            assert(b.subrange(0, j + 1) =~= b.subrange(0, j as int).push(y));
            assert(a.contains(x) && b.contains(y));
            let ghost prev = acc@;
            proof {
                prev.lemma_push_to_set_commute(x);
                a.subrange(0, i as int).lemma_push_to_set_commute(x);
                b.subrange(0, j as int).lemma_push_to_set_commute(y);
            }
            if x == y {
                acc.push(x);
                assert(acc@ == prev.push(x));
                i += 1;
                j += 1;
                assert(b.contains(x) && a.contains(y));
                assert(acc@.to_set() =~= a.subrange(0, i as int).to_set().intersect(b.to_set()));
                assert(acc@.to_set() =~= a.to_set().intersect(b.subrange(0, j as int).to_set()));
            } else if x < y {
                i += 1;
                assert(!b.contains(x)) by {
                    assert forall|k: int| 0 <= k < b.len() implies b[k] != x by {
                        if k >= j && k > j {
                            assert(b[j as int] < b[k]);
                        }
                    }
                }
                assert(acc@.to_set() =~= a.subrange(0, i as int).to_set().intersect(b.to_set()));
            } else {
                j += 1;
                assert(!a.contains(y)) by {
                    assert forall|k: int| 0 <= k < a.len() implies a[k] != y by {
                        if k >= i && k > i {
                            assert(a[i as int] < a[k]);
                        }
                    }
                }
                assert(acc@.to_set() =~= a.to_set().intersect(b.subrange(0, j as int).to_set()));
            }
        }
        if i == self.list.len() {
            assert(a.subrange(0, i as int) == a);
        } else {
            assert(b.subrange(0, j as int) == b);
        }
        proof {
            lemma_ordered_of_increasing(acc@);
        }
        Filter { list: acc }
    }

    /// Tests that the list is monotonically increasing.
    pub fn maintains_invariants(&self) -> (r: bool)
        ensures
            r == self.wf(),
            r == adjacent_increasing(self.list@),
    {
        if self.list.len() == 0 {
            return true;
        }
        let mut prev: u32 = self.list[0];
        let mut k: usize = 1;
        while k < self.list.len()
            invariant
                1 <= k <= self.list.len(),
                prev == self.list@[k - 1],
                strictly_increasing(self.list@.subrange(0, k as int)),
            decreases self.list.len() - k,
        {
            let i = self.list[k];
            if prev >= i {
                return false;
            }
            prev = i;
            k += 1;
            assert forall|a: int, b: int| 0 <= a < b < k implies self.list@[a] < self.list@[b] by {
                if b < k - 1 {
                    assert(self.list@.subrange(0, k - 1)[a] == self.list@[a]);
                    assert(self.list@.subrange(0, k - 1)[b] == self.list@[b]);
                } else if a < k - 2 {
                    assert(self.list@.subrange(0, k - 1)[a] == self.list@[a]);
                    assert(self.list@.subrange(0, k - 1)[k - 2] == self.list@[k - 2]);
                }
            }
            assert(strictly_increasing(self.list@.subrange(0, k as int)));
        }
        assert(self.list@.subrange(0, k as int) =~= self.list@);
        true
    }

    /// The bytes held by a filter whose index storage has room for `capacity`
    /// indices: the struct itself plus four bytes per reserved slot.
    pub fn footprint(capacity: usize) -> (r: usize)
        requires
            4 * capacity <= isize::MAX,
        ensures
            r == size_of::<Filter>() + 4 * capacity,
    {
        vstd::layout::layout_for_type_is_valid::<Filter>();
        core::mem::size_of::<Filter>() + capacity * 4
    }

    /// Returns the size of owned data structures. Reserved but unused
    /// storage counts too.
    pub fn size_bytes(&self) -> (r: usize)
        ensures
            r >= size_of::<Filter>() + 4 * self@.len(),
            (r - size_of::<Filter>()) % 4 == 0,
    {
        let c = capacity_of(&self.list);
        let r = Self::footprint(c);
        assert((4 * c) % 4 == 0) by (nonlinear_arith);
        r
    }
}

} // verus!
