//! Relative paths: sequences of name segments, ordered segment by segment.

use vstd::prelude::*;
use crate::order::{agree_below, decided_at, lemma_lex_asymmetric, lemma_lex_strict_order, lex_lt, strict_order};

verus! {

/// The order of single bytes.
pub open spec fn byte_order() -> spec_fn(u8, u8) -> bool {
    |x: u8, y: u8| x < y
}

/// Name `a` sorts before name `b`: bytewise lexicographic order.
pub open spec fn name_lt(a: Seq<u8>, b: Seq<u8>) -> bool {
    lex_lt(a, b, byte_order())
}

/// The order of names, as a relation.
pub open spec fn name_order() -> spec_fn(Seq<u8>, Seq<u8>) -> bool {
    |a: Seq<u8>, b: Seq<u8>| name_lt(a, b)
}

/// Path `a` sorts before path `b`: lexicographic over the segments, each compared as a name.
pub open spec fn path_lt(a: Seq<Seq<u8>>, b: Seq<Seq<u8>>) -> bool {
    lex_lt(a, b, name_order())
}

/// The order of paths, as a relation.
pub open spec fn path_order() -> spec_fn(Seq<Seq<u8>>, Seq<Seq<u8>>) -> bool {
    |a: Seq<Seq<u8>>, b: Seq<Seq<u8>>| path_lt(a, b)
}

/// Names are strictly ordered.
pub proof fn lemma_name_order_strict()
    ensures
        strict_order(byte_order()),
        strict_order(name_order()),
{
    lemma_lex_strict_order(byte_order());
    let lifted = |a: Seq<u8>, b: Seq<u8>| lex_lt(a, b, byte_order());
    assert forall|x: Seq<u8>| !#[trigger] name_order()(x, x) by {
        assert(!lifted(x, x));
    }
    assert forall|x: Seq<u8>, y: Seq<u8>, z: Seq<u8>| #[trigger]
        name_order()(x, y) && #[trigger] name_order()(y, z) implies name_order()(x, z) by {
        assert(lifted(x, y) && lifted(y, z));
        assert(lifted(x, z));
    }
}

/// Paths are strictly ordered.
pub proof fn lemma_path_order_strict()
    ensures
        strict_order(path_order()),
{
    lemma_name_order_strict();
    lemma_lex_strict_order(name_order());
    let lifted = |a: Seq<Seq<u8>>, b: Seq<Seq<u8>>| lex_lt(a, b, name_order());
    assert forall|x: Seq<Seq<u8>>| !#[trigger] path_order()(x, x) by {
        assert(!lifted(x, x));
    }
    assert forall|x: Seq<Seq<u8>>, y: Seq<Seq<u8>>, z: Seq<Seq<u8>>| #[trigger]
        path_order()(x, y) && #[trigger] path_order()(y, z) implies path_order()(x, z) by {
        assert(lifted(x, y) && lifted(y, z));
        assert(lifted(x, z));
    }
}

/// Of two different paths one sorts before the other, and never both.
pub proof fn lemma_path_order_total(a: Seq<Seq<u8>>, b: Seq<Seq<u8>>)
    ensures
        a == b || path_lt(a, b) || path_lt(b, a),
        !(path_lt(a, b) && path_lt(b, a)),
        path_lt(a, b) ==> a != b,
{
    lemma_name_order_strict();
    if path_lt(a, b) {
        lemma_lex_asymmetric(a, b, name_order());
    }
    lemma_first_difference(a, b, 0);
}

/// From an index below which `a` and `b` agree, the two are equal or one sorts first.
proof fn lemma_first_difference(a: Seq<Seq<u8>>, b: Seq<Seq<u8>>, k: int)
    requires
        agree_below(a, b, k),
    ensures
        a == b || path_lt(a, b) || path_lt(b, a),
    decreases a.len() - k,
{
    if k == a.len() && k == b.len() {
        assert(a =~= b);
    } else if k == a.len() {
        assert(decided_at(a, b, name_order(), k));
    } else if k == b.len() {
        assert(agree_below(b, a, k));
        assert(decided_at(b, a, name_order(), k));
    } else if a[k] == b[k] {
        lemma_first_difference(a, b, k + 1);
    } else {
        lemma_names_differ(a[k], b[k], 0);
        assert(agree_below(b, a, k));
        if name_lt(a[k], b[k]) {
            assert(decided_at(a, b, name_order(), k));
        } else {
            assert(decided_at(b, a, name_order(), k));
        }
    }
}

/// From an index below which two different names agree, one sorts before the other.
proof fn lemma_names_differ(a: Seq<u8>, b: Seq<u8>, k: int)
    requires
        agree_below(a, b, k),
        a != b,
    ensures
        name_lt(a, b) || name_lt(b, a),
    decreases a.len() - k,
{
    if k == a.len() && k == b.len() {
        assert(a =~= b);
    } else if k == a.len() {
        assert(decided_at(a, b, byte_order(), k));
    } else if k == b.len() {
        assert(agree_below(b, a, k));
        assert(decided_at(b, a, byte_order(), k));
    } else if a[k] == b[k] {
        lemma_names_differ(a, b, k + 1);
    } else {
        assert(agree_below(b, a, k));
        if a[k] < b[k] {
            assert(decided_at(a, b, byte_order(), k));
        } else {
            assert(decided_at(b, a, byte_order(), k));
        }
    }
}

/// How one value stands to another in a sort order.
#[derive(Clone, Copy, Debug, PartialEq, Eq, Structural)]
pub enum Rank {
    Before,
    Equal,
    After,
}

/// Compares two names byte by byte.
pub fn compare_names(a: &Vec<u8>, b: &Vec<u8>) -> (rank: Rank)
    ensures
        rank is Before <==> name_lt(a@, b@),
        rank is Equal <==> a@ == b@,
        rank is After <==> name_lt(b@, a@),
{
    proof {
        lemma_name_order_strict();
        if name_lt(a@, b@) {
            lemma_lex_asymmetric(a@, b@, byte_order());
        }
        if name_lt(b@, a@) {
            lemma_lex_asymmetric(b@, a@, byte_order());
        }
    }
    let mut i: usize = 0;
    while i < a.len() && i < b.len()
        invariant
            agree_below(a@, b@, i as int),
        decreases a.len() - i,
    {
        if a[i] < b[i] {
            assert(decided_at(a@, b@, byte_order(), i as int));
            return Rank::Before;
        }
        if a[i] > b[i] {
            assert(agree_below(b@, a@, i as int));
            assert(decided_at(b@, a@, byte_order(), i as int));
            return Rank::After;
        }
        i = i + 1;
    }
    if a.len() < b.len() {
        assert(decided_at(a@, b@, byte_order(), i as int));
        Rank::Before
    } else if a.len() > b.len() {
        assert(agree_below(b@, a@, i as int));
        assert(decided_at(b@, a@, byte_order(), i as int));
        Rank::After
    } else {
        assert(a@ =~= b@);
        Rank::Equal
    }
}

/// A path relative to some root, as the names to follow from there. The empty path is the
/// root itself.
#[derive(Debug, PartialEq, Eq)]
pub struct RelPath {
    pub segments: Vec<Vec<u8>>,
}

impl View for RelPath {
    type V = Seq<Seq<u8>>;

    open spec fn view(&self) -> Seq<Seq<u8>> {
        self.segments@.map_values(|name: Vec<u8>| name@)
    }
}

/// Copies a name.
pub fn copy_name(name: &Vec<u8>) -> (copy: Vec<u8>)
    ensures
        copy@ == name@,
{
    let mut copy: Vec<u8> = Vec::with_capacity(name.len());
    let mut i: usize = 0;
    while i < name.len()
        invariant
            i <= name.len(),
            copy@ == name@.take(i as int),
        decreases name.len() - i,
    {
        copy.push(name[i]);
        assert(name@.take(i + 1) =~= name@.take(i as int).push(name@[i as int]));
        i = i + 1;
    }
    assert(name@.take(name.len() as int) =~= name@);
    copy
}

impl RelPath {
    /// The empty path: the root itself.
    pub fn root() -> (path: RelPath)
        ensures
            path@ == Seq::<Seq<u8>>::empty(),
    {
        let path = RelPath { segments: Vec::new() };
        assert(path@ =~= Seq::<Seq<u8>>::empty());
        path
    }

    /// The path made of the given names.
    pub fn new(segments: Vec<Vec<u8>>) -> (path: RelPath)
        ensures
            path@ == segments@.map_values(|name: Vec<u8>| name@),
    {
        RelPath { segments }
    }

    /// The path of one name.
    pub fn single(name: Vec<u8>) -> (path: RelPath)
        ensures
            path@ == seq![name@],
    {
        let mut segments: Vec<Vec<u8>> = Vec::new();
        segments.push(name);
        let path = RelPath { segments };
        assert(path@ =~= seq![name@]);
        path
    }

    /// The number of names in the path.
    pub fn depth(&self) -> (n: usize)
        ensures
            n == self@.len(),
    {
        self.segments.len()
    }

    /// The path's `i`-th name; none from the path's depth on.
    pub fn segment(&self, i: usize) -> (name: Option<&Vec<u8>>)
        ensures
            (match name {
                Some(name) => i < self@.len() && name@ == self@[i as int],
                None => i >= self@.len(),
            }),
    {
        if i < self.segments.len() {
            Some(&self.segments[i])
        } else {
            None
        }
    }

    /// A copy of the path.
    pub fn duplicate(&self) -> (copy: RelPath)
        ensures
            copy@ == self@,
    {
        let mut segments: Vec<Vec<u8>> = Vec::with_capacity(self.segments.len());
        let mut i: usize = 0;
        while i < self.segments.len()
            invariant
                i <= self.segments.len(),
                segments@.len() == i,
                forall|j: int| 0 <= j < i ==> segments@[j]@ == self.segments@[j]@,
            decreases self.segments.len() - i,
        {
            let name = copy_name(&self.segments[i]);
            segments.push(name);
            i = i + 1;
        }
        let copy = RelPath { segments };
        assert(copy@ =~= self@);
        copy
    }

    /// The path one name below this one.
    pub fn child(&self, name: &Vec<u8>) -> (path: RelPath)
        ensures
            path@ == self@.push(name@),
    {
        let mut below = self.duplicate();
        below.segments.push(copy_name(name));
        assert(below@ =~= self@.push(name@));
        below
    }

    /// The path that follows this one by the names of `below`.
    pub fn join(&self, below: &RelPath) -> (path: RelPath)
        ensures
            path@ == self@ + below@,
    {
        let mut joined = self.duplicate();
        let mut i: usize = 0;
        while i < below.segments.len()
            invariant
                i <= below.segments.len(),
                joined@ == self@ + below@.take(i as int),
            decreases below.segments.len() - i,
        {
            let ghost earlier = joined@;
            joined.segments.push(copy_name(&below.segments[i]));
            assert(joined@ =~= earlier.push(below@[i as int]));
            assert(below@.take(i + 1) =~= below@.take(i as int).push(below@[i as int]));
            i = i + 1;
        }
        assert(below@.take(below.segments.len() as int) =~= below@);
        joined
    }

    /// Compares two paths segment by segment.
    pub fn compare(&self, other: &RelPath) -> (rank: Rank)
        ensures
            rank is Before <==> path_lt(self@, other@),
            rank is Equal <==> self@ == other@,
            rank is After <==> path_lt(other@, self@),
    {
        proof {
            lemma_path_order_total(self@, other@);
            lemma_path_order_total(other@, self@);
        }
        let mut i: usize = 0;
        while i < self.segments.len() && i < other.segments.len()
            invariant
                agree_below(self@, other@, i as int),
            decreases self.segments.len() - i,
        {
            match compare_names(&self.segments[i], &other.segments[i]) {
                Rank::Before => {
                    assert(decided_at(self@, other@, name_order(), i as int));
                    return Rank::Before;
                },
                Rank::After => {
                    assert(agree_below(other@, self@, i as int));
                    assert(decided_at(other@, self@, name_order(), i as int));
                    return Rank::After;
                },
                Rank::Equal => {},
            }
            i = i + 1;
        }
        if self.segments.len() < other.segments.len() {
            assert(decided_at(self@, other@, name_order(), i as int));
            Rank::Before
        } else if self.segments.len() > other.segments.len() {
            assert(agree_below(other@, self@, i as int));
            assert(decided_at(other@, self@, name_order(), i as int));
            Rank::After
        } else {
            assert(self@ =~= other@);
            Rank::Equal
        }
    }
}

} // verus!
