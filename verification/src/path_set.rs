//! Sets of relative paths, kept as sorted vectors.

use vstd::prelude::*;
use crate::order::{
    increasing, lemma_finite_set_has_listing, lemma_insert_keeps_listing, lemma_listing_unique,
    lists,
};
use crate::path::{lemma_path_order_strict, lemma_path_order_total, path_lt, path_order, Rank, RelPath};

verus! {

/// The paths of a vector, each as its sequence of names.
pub open spec fn views(paths: Seq<RelPath>) -> Seq<Seq<Seq<u8>>> {
    paths.map_values(|p: RelPath| p@)
}

/// The members of a finite set of paths in increasing order.
pub open spec fn sorted(set: Set<Seq<Seq<u8>>>) -> Seq<Seq<Seq<u8>>> {
    choose|s: Seq<Seq<Seq<u8>>>| lists(s, set, path_order())
}

/// A sequence that lists a set in increasing order is the sorted sequence of its members.
pub proof fn lemma_listing_is_sorted(s: Seq<Seq<Seq<u8>>>, set: Set<Seq<Seq<u8>>>)
    requires
        lists(s, set, path_order()),
    ensures
        s == sorted(set),
{
    lemma_path_order_strict();
    lemma_listing_unique(s, sorted(set), set, path_order());
}

/// The sorted sequence of a finite set's members lists the set.
pub proof fn lemma_sorted_lists(set: Set<Seq<Seq<u8>>>)
    requires
        set.finite(),
    ensures
        lists(sorted(set), set, path_order()),
{
    lemma_path_order_strict();
    assert forall|x: Seq<Seq<u8>>, y: Seq<Seq<u8>>| x != y implies #[trigger] path_order()(x, y)
        || path_order()(y, x) by {
        lemma_path_order_total(x, y);
    }
    lemma_finite_set_has_listing(set, path_order());
}

/// A finite set of relative paths. No path occurs twice, and the order in which paths were put
/// in is forgotten: what the set hands out is always sorted.
pub struct PathSet {
    paths: Vec<RelPath>,
}

impl View for PathSet {
    type V = Set<Seq<Seq<u8>>>;

    closed spec fn view(&self) -> Set<Seq<Seq<u8>>> {
        views(self.paths@).to_set()
    }
}

/// Where a path stands in a sorted vector.
struct Slot {
    index: usize,
    found: bool,
}

/// `slot` is where `target` stands in the increasing sequence `s`: at `index` if found,
/// else between the items before `index`, all smaller, and those from `index` on, all greater.
spec fn is_slot(s: Seq<Seq<Seq<u8>>>, target: Seq<Seq<u8>>, slot: Slot) -> bool {
    &&& slot.index <= s.len()
    &&& forall|j: int| 0 <= j < slot.index ==> path_lt(#[trigger] s[j], target)
    &&& slot.found ==> slot.index < s.len() && s[slot.index as int] == target
    &&& !slot.found ==> forall|j: int| slot.index <= j < s.len() ==> path_lt(target, #[trigger] s[j])
}

/// A path with a slot that says "not found" is not in the sequence.
proof fn lemma_slot_decides(s: Seq<Seq<Seq<u8>>>, target: Seq<Seq<u8>>, slot: Slot)
    requires
        is_slot(s, target, slot),
    ensures
        slot.found == s.contains(target),
{
    if slot.found {
        assert(s[slot.index as int] == target);
    } else {
        assert forall|j: int| 0 <= j < s.len() implies s[j] != target by {
            lemma_path_order_total(s[j], target);
            lemma_path_order_total(target, s[j]);
        }
    }
}

impl PathSet {
    #[verifier::type_invariant]
    spec fn well_ordered(self) -> bool {
        increasing(views(self.paths@), path_order())
    }

    /// The members in sorted order.
    pub closed spec fn listing(self) -> Seq<Seq<Seq<u8>>> {
        views(self.paths@)
    }

    /// The empty set.
    pub fn new() -> (set: PathSet)
        ensures
            set@ == Set::<Seq<Seq<u8>>>::empty(),
            set.listing() == Seq::<Seq<Seq<u8>>>::empty(),
    {
        let set = PathSet { paths: Vec::new() };
        assert(set.listing() =~= Seq::<Seq<Seq<u8>>>::empty());
        assert(set@ =~= Set::<Seq<Seq<u8>>>::empty());
        set
    }

    /// The number of members.
    pub fn len(&self) -> (n: usize)
        ensures
            n == self.listing().len(),
            n == self@.len(),
            lists(self.listing(), self@, path_order()),
    {
        proof {
            use_type_invariant(self);
            self.lemma_no_duplicates();
            views(self.paths@).unique_seq_to_set();
        }
        self.paths.len()
    }

    /// Whether the set has no member.
    pub fn is_empty(&self) -> (empty: bool)
        ensures
            empty <==> self@ == Set::<Seq<Seq<u8>>>::empty(),
            empty <==> self.listing().len() == 0,
    {
        proof {
            if self.paths@.len() > 0 {
                assert(views(self.paths@)[0] == self.paths@[0]@);
                assert(self@.contains(self.paths@[0]@));
            } else {
                assert(self@ =~= Set::<Seq<Seq<u8>>>::empty());
            }
        }
        self.paths.len() == 0
    }

    /// The `i`-th member in sorted order; none from the number of members on.
    pub fn get(&self, i: usize) -> (member: Option<&RelPath>)
        ensures
            (match member {
                Some(path) => i < self.listing().len() && path@ == self.listing()[i as int]
                    && self@.contains(path@),
                None => i >= self.listing().len(),
            }),
            lists(self.listing(), self@, path_order()),
    {
        proof {
            use_type_invariant(self);
        }
        if i < self.paths.len() {
            assert(views(self.paths@)[i as int] == self.paths@[i as int]@);
            Some(&self.paths[i])
        } else {
            None
        }
    }

    proof fn lemma_no_duplicates(self)
        requires
            self.well_ordered(),
        ensures
            views(self.paths@).no_duplicates(),
    {
        let s = views(self.paths@);
        assert forall|i: int, j: int| 0 <= i < s.len() && 0 <= j < s.len() && i != j implies s[i]
            != s[j] by {
            if i < j {
                assert(path_order()(s[i], s[j]));
                lemma_path_order_total(s[i], s[j]);
            } else {
                assert(path_order()(s[j], s[i]));
                lemma_path_order_total(s[j], s[i]);
            }
        }
    }

    /// Binary search for `target`.
    fn locate(&self, target: &RelPath) -> (slot: Slot)
        ensures
            is_slot(views(self.paths@), target@, slot),
    {
        proof {
            use_type_invariant(self);
            lemma_path_order_strict();
        }
        let ghost s = views(self.paths@);
        let mut lo: usize = 0;
        let mut hi: usize = self.paths.len();
        while lo < hi
            invariant
                lo <= hi <= self.paths.len(),
                s == views(self.paths@),
                increasing(s, path_order()),
                crate::order::strict_order(path_order()),
                forall|j: int| 0 <= j < lo ==> path_lt(#[trigger] s[j], target@),
                forall|j: int| hi <= j < s.len() ==> path_lt(target@, #[trigger] s[j]),
            decreases hi - lo,
        {
            let mid: usize = lo + (hi - lo) / 2;
            assert(s[mid as int] == self.paths@[mid as int]@);
            match self.paths[mid].compare(target) {
                Rank::Equal => {
                    assert forall|j: int| 0 <= j < mid implies path_lt(#[trigger] s[j], target@) by {
                        assert(path_order()(s[j], s[mid as int]));
                    }
                    return Slot { index: mid, found: true };
                },
                Rank::Before => {
                    assert forall|j: int| 0 <= j < mid + 1 implies path_lt(
                        #[trigger] s[j],
                        target@,
                    ) by {
                        if j < mid {
                            assert(path_order()(s[j], s[mid as int]));
                            assert(path_order()(s[mid as int], target@));
                            assert(path_order()(s[j], target@));
                        }
                    }
                    lo = mid + 1;
                },
                Rank::After => {
                    assert forall|j: int| mid <= j < s.len() implies path_lt(
                        target@,
                        #[trigger] s[j],
                    ) by {
                        if mid < j {
                            assert(path_order()(target@, s[mid as int]));
                            assert(path_order()(s[mid as int], s[j]));
                            assert(path_order()(target@, s[j]));
                        }
                    }
                    hi = mid;
                },
            }
        }
        Slot { index: lo, found: false }
    }

    /// Whether `path` is a member.
    pub fn contains(&self, path: &RelPath) -> (present: bool)
        ensures
            present == self@.contains(path@),
    {
        let slot = self.locate(path);
        proof {
            lemma_slot_decides(views(self.paths@), path@, slot);
        }
        slot.found
    }

    /// Puts `path` into the set; says whether it was new.
    pub fn insert(&mut self, path: RelPath) -> (fresh: bool)
        ensures
            final(self)@ == old(self)@.insert(path@),
            fresh == !old(self)@.contains(path@),
    {
        let slot = self.locate(&path);
        proof {
            use_type_invariant(&*self);
            lemma_slot_decides(views(self.paths@), path@, slot);
            lemma_path_order_strict();
        }
        if slot.found {
            assert(self@.insert(path@) =~= self@);
            return false;
        }
        let ghost before = views(self.paths@);
        let mut paths: Vec<RelPath> = Vec::new();
        std::mem::swap(&mut self.paths, &mut paths);
        paths.insert(slot.index, path);
        proof {
            let after = views(paths@);
            assert(after =~= before.insert(slot.index as int, path@));
            lemma_insert_keeps_listing(
                before,
                before.to_set(),
                path@,
                slot.index as int,
                path_order(),
            );
            assert(after.to_set() =~= before.to_set().insert(path@));
        }
        self.paths = paths;
        true
    }

    /// The members that are in `other` (`shared` set) or not in it (`shared` clear), sorted.
    fn select(&self, other: &PathSet, shared: bool) -> (chosen: Vec<RelPath>)
        ensures
            lists(
                views(chosen@),
                Set::new(|x: Seq<Seq<u8>>| self@.contains(x) && other@.contains(x) == shared),
                path_order(),
            ),
    {
        proof {
            use_type_invariant(self);
        }
        let ghost s = views(self.paths@);
        let ghost wanted = Set::new(
            |x: Seq<Seq<u8>>| self@.contains(x) && other@.contains(x) == shared,
        );
        let mut chosen: Vec<RelPath> = Vec::new();
        let ghost mut from: Seq<int> = Seq::empty();
        let mut i: usize = 0;
        while i < self.paths.len()
            invariant
                i <= self.paths.len(),
                s == views(self.paths@),
                increasing(s, path_order()),
                self@ == s.to_set(),
                wanted == Set::new(
                    |x: Seq<Seq<u8>>| self@.contains(x) && other@.contains(x) == shared,
                ),
                from.len() == chosen@.len(),
                forall|k: int| 0 <= k < from.len() ==> 0 <= #[trigger] from[k] < i,
                forall|k: int, l: int| 0 <= k < l < from.len() ==> from[k] < from[l],
                forall|k: int| 0 <= k < from.len() ==> #[trigger] chosen@[k]@ == s[from[k]],
                forall|k: int| 0 <= k < from.len() ==> wanted.contains(#[trigger] chosen@[k]@),
                forall|j: int| 0 <= j < i && wanted.contains(#[trigger] s[j]) ==> views(
                    chosen@,
                ).contains(s[j]),
            decreases self.paths.len() - i,
        {
            assert(s[i as int] == self.paths@[i as int]@);
            assert(s.contains(s[i as int]));
            if other.contains(&self.paths[i]) == shared {
                let ghost earlier = views(chosen@);
                let copy = self.paths[i].duplicate();
                chosen.push(copy);
                proof {
                    from = from.push(i as int);
                    let now = views(chosen@);
                    assert(now[now.len() - 1] == s[i as int]);
                    assert forall|j: int| 0 <= j < i + 1 && wanted.contains(
                        #[trigger] s[j],
                    ) implies now.contains(s[j]) by {
                        if j < i {
                            let k = choose|k: int| 0 <= k < earlier.len() && earlier[k] == s[j];
                            assert(now[k] == s[j]);
                        }
                    }
                }
            }
            i = i + 1;
        }
        proof {
            let out = views(chosen@);
            assert forall|k: int, l: int| 0 <= k < l < out.len() implies #[trigger] path_order()(
                out[k],
                out[l],
            ) by {
                assert(out[k] == chosen@[k]@);
                assert(out[l] == chosen@[l]@);
                assert(path_order()(s[from[k]], s[from[l]]));
            }
            assert forall|x: Seq<Seq<u8>>| out.contains(x) <==> wanted.contains(x) by {
                if out.contains(x) {
                    let k = choose|k: int| 0 <= k < out.len() && out[k] == x;
                    assert(out[k] == chosen@[k]@);
                }
                if wanted.contains(x) {
                    assert(s.contains(x));
                    let j = choose|j: int| 0 <= j < s.len() && s[j] == x;
                    assert(wanted.contains(s[j]));
                }
            }
        }
        chosen
    }

    /// The members that `other` lacks, sorted.
    pub fn difference(&self, other: &PathSet) -> (missing: Vec<RelPath>)
        ensures
            lists(views(missing@), self@.difference(other@), path_order()),
    {
        let missing = self.select(other, false);
        assert(self@.difference(other@) =~= Set::new(
            |x: Seq<Seq<u8>>| self@.contains(x) && other@.contains(x) == false,
        ));
        missing
    }

    /// The members that `other` has too, sorted.
    pub fn intersection(&self, other: &PathSet) -> (common: Vec<RelPath>)
        ensures
            lists(views(common@), self@.intersect(other@), path_order()),
    {
        let common = self.select(other, true);
        assert(self@.intersect(other@) =~= Set::new(
            |x: Seq<Seq<u8>>| self@.contains(x) && other@.contains(x) == true,
        ));
        common
    }

    /// The members of either set, sorted.
    pub fn union(&self, other: &PathSet) -> (all: Vec<RelPath>)
        ensures
            lists(views(all@), self@.union(other@), path_order()),
    {
        let mut joined = PathSet::new();
        let mut i: usize = 0;
        let n = self.len();
        while i < n
            invariant
                i <= n,
                n == self.listing().len(),
                lists(self.listing(), self@, path_order()),
                forall|x: Seq<Seq<u8>>|
                    joined@.contains(x) <==> exists|j: int|
                        0 <= j < i && #[trigger] self.listing()[j] == x,
            decreases n - i,
        {
            let ghost earlier = joined@;
            assert(self.listing()[i as int] == self.paths@[i as int]@);
            joined.insert(self.paths[i].duplicate());
            proof {
                assert forall|x: Seq<Seq<u8>>| joined@.contains(x) <==> exists|j: int|
                    0 <= j < i + 1 && #[trigger] self.listing()[j] == x by {
                    if joined@.contains(x) && !earlier.contains(x) {
                        assert(self.listing()[i as int] == x);
                    }
                    if earlier.contains(x) {
                        let j = choose|j: int| 0 <= j < i && #[trigger] self.listing()[j] == x;
                        assert(self.listing()[j] == x);
                    }
                }
            }
            i = i + 1;
        }
        assert(joined@ =~= self@) by {
            assert forall|x: Seq<Seq<u8>>| self@.contains(x) implies joined@.contains(x) by {
                assert(self.listing().contains(x));
                let j = choose|j: int| 0 <= j < self.listing().len() && self.listing()[j] == x;
                assert(self.listing()[j] == x);
            }
            assert forall|x: Seq<Seq<u8>>| joined@.contains(x) implies self@.contains(x) by {
                let j = choose|j: int| 0 <= j < n && #[trigger] self.listing()[j] == x;
                assert(self.listing().contains(x));
            }
        }
        let mut k: usize = 0;
        let m = other.len();
        while k < m
            invariant
                k <= m,
                m == other.listing().len(),
                lists(other.listing(), other@, path_order()),
                forall|x: Seq<Seq<u8>>|
                    joined@.contains(x) <==> self@.contains(x) || exists|j: int|
                        0 <= j < k && #[trigger] other.listing()[j] == x,
            decreases m - k,
        {
            let ghost earlier = joined@;
            assert(other.listing()[k as int] == other.paths@[k as int]@);
            joined.insert(other.paths[k].duplicate());
            proof {
                assert forall|x: Seq<Seq<u8>>|
                    joined@.contains(x) <==> self@.contains(x) || exists|j: int|
                        0 <= j < k + 1 && #[trigger] other.listing()[j] == x by {
                    if joined@.contains(x) && !earlier.contains(x) {
                        assert(other.listing()[k as int] == x);
                    }
                    if earlier.contains(x) && !self@.contains(x) {
                        let j = choose|j: int| 0 <= j < k && #[trigger] other.listing()[j] == x;
                        assert(other.listing()[j] == x);
                    }
                }
            }
            k = k + 1;
        }
        assert(joined@ =~= self@.union(other@)) by {
            assert forall|x: Seq<Seq<u8>>| other@.contains(x) implies joined@.contains(x) by {
                assert(other.listing().contains(x));
                let j = choose|j: int| 0 <= j < other.listing().len() && other.listing()[j] == x;
                assert(other.listing()[j] == x);
            }
            assert forall|x: Seq<Seq<u8>>| joined@.contains(x) implies self@.contains(x)
                || other@.contains(x) by {
                if !self@.contains(x) {
                    let j = choose|j: int| 0 <= j < m && #[trigger] other.listing()[j] == x;
                    assert(other.listing().contains(x));
                }
            }
        }
        joined.into_sorted()
    }

    /// The members, sorted.
    pub fn into_sorted(self) -> (all: Vec<RelPath>)
        ensures
            lists(views(all@), self@, path_order()),
            views(all@) == self.listing(),
    {
        proof {
            use_type_invariant(&self);
        }
        self.paths
    }
}

} // verus!
