//! Ordered sets of byte paths.
//!
//! The paths are kept strictly ascending, so nothing occurs twice, a walk
//! visits them in byte order, and the paths under one prefix stand together.
use vstd::prelude::*;
use vstd::slice::slice_to_vec;

use crate::order::{
    compare_paths, has_prefix, lemma_extension_is_not_before, lemma_extensions_stand_together,
    lemma_path_lt_irreflexive, lemma_path_lt_total, lemma_path_lt_transitive, path_lt, PathOrder,
};
use crate::span::byte_rows;

verus! {

/// Every path comes before the ones that stand behind it.
pub open spec fn ascending(rows: Seq<Seq<u8>>) -> bool {
    forall|i: int, j: int| 0 <= i < j < rows.len() ==> path_lt(#[trigger] rows[i], #[trigger] rows[j])
}

/// A set of byte paths.
#[derive(Debug)]
pub struct PathSet {
    paths: Vec<Vec<u8>>,
}

impl View for PathSet {
    type V = Set<Seq<u8>>;

    open spec fn view(&self) -> Set<Seq<u8>> {
        self.rows().to_set()
    }
}

/// An ascending row lists nothing twice.
pub proof fn lemma_ascending_no_duplicates(rows: Seq<Seq<u8>>)
    requires
        ascending(rows),
    ensures
        rows.no_duplicates(),
        rows.to_set().finite(),
        rows.to_set().len() == rows.len(),
{
    assert forall|i: int, j: int| 0 <= i < rows.len() && 0 <= j < rows.len() && i != j implies rows[i]
        != rows[j] by {
        lemma_path_lt_irreflexive(rows[i]);
        if i < j {
            assert(path_lt(rows[i], rows[j]));
        } else {
            assert(path_lt(rows[j], rows[i]));
        }
    }
    rows.unique_seq_to_set();
}

/// A set of paths has one ascending listing.
pub proof fn ascending_listing_is_unique(a: Seq<Seq<u8>>, b: Seq<Seq<u8>>)
    requires
        ascending(a),
        ascending(b),
        a.to_set() == b.to_set(),
    ensures
        a == b,
    decreases a.len(),
{
    lemma_ascending_no_duplicates(a);
    lemma_ascending_no_duplicates(b);
    assert(a.len() == b.len());
    if a.len() > 0 {
        let n = a.len() - 1;
        assert(a.to_set().contains(a[n]));
        assert(b.to_set().contains(b[n]));
        assert(b.contains(a[n]));
        assert(a.contains(b[n]));
        let i = choose|i: int| 0 <= i < b.len() && b[i] == a[n];
        let j = choose|j: int| 0 <= j < a.len() && a[j] == b[n];
        if i != n && j != n {
            assert(path_lt(b[i], b[n]));
            assert(path_lt(a[j], a[n]));
            lemma_path_lt_total(a[n], b[n]);
        }
        assert(a[n] == b[n]);
        let (a1, b1) = (a.drop_last(), b.drop_last());
        assert forall|x: Seq<u8>| #[trigger] a1.to_set().contains(x) == b1.to_set().contains(x) by {
            if a1.contains(x) {
                let k = choose|k: int| 0 <= k < a1.len() && a1[k] == x;
                assert(a[k] == x);
                assert(a.to_set().contains(x));
                assert(b.contains(x));
                let m = choose|m: int| 0 <= m < b.len() && b[m] == x;
                assert(m != n);
                assert(b1[m] == x);
            }
            if b1.contains(x) {
                let k = choose|k: int| 0 <= k < b1.len() && b1[k] == x;
                assert(b[k] == x);
                assert(b.to_set().contains(x));
                assert(a.contains(x));
                let m = choose|m: int| 0 <= m < a.len() && a[m] == x;
                assert(m != n);
                assert(a1[m] == x);
            }
        }
        assert(a1.to_set() =~= b1.to_set());
        ascending_listing_is_unique(a1, b1);
        assert(a =~= a1.push(a[n]));
        assert(b =~= b1.push(b[n]));
    }
}

/// Where a path stands, or would stand, in an ascending row.
pub open spec fn stands_at(rows: Seq<Seq<u8>>, p: Seq<u8>, i: int) -> bool {
    &&& 0 <= i <= rows.len()
    &&& forall|j: int| 0 <= j < i ==> path_lt(#[trigger] rows[j], p)
    &&& forall|j: int| i <= j < rows.len() ==> !path_lt(#[trigger] rows[j], p)
}

/// A path is listed exactly when it is found where it would stand.
pub proof fn lemma_stands_at_decides(rows: Seq<Seq<u8>>, p: Seq<u8>, i: int)
    requires
        ascending(rows),
        stands_at(rows, p, i),
    ensures
        rows.contains(p) <==> (i < rows.len() && rows[i] == p),
        forall|j: int| i < j < rows.len() ==> path_lt(p, #[trigger] rows[j]),
        i < rows.len() && rows[i] != p ==> path_lt(p, rows[i]),
{
    if rows.contains(p) {
        let k = choose|k: int| 0 <= k < rows.len() && rows[k] == p;
        lemma_path_lt_irreflexive(p);
        assert(k >= i);
        if k > i {
            assert(path_lt(rows[i], rows[k]));
        }
    }
    if i < rows.len() {
        lemma_path_lt_total(rows[i], p);
        assert forall|j: int| i < j < rows.len() implies path_lt(p, #[trigger] rows[j]) by {
            assert(path_lt(rows[i], rows[j]));
            if rows[i] != p {
                lemma_path_lt_transitive(p, rows[i], rows[j]);
            }
        }
    }
}

/// Finds where `p` stands, or would stand, by halving.
pub(crate) fn locate(paths: &Vec<Vec<u8>>, p: &[u8]) -> (r: (usize, bool))
    requires
        ascending(byte_rows(paths@)),
    ensures
        stands_at(byte_rows(paths@), p@, r.0 as int),
        r.1 == byte_rows(paths@).contains(p@),
        r.1 ==> r.0 < paths@.len() && paths@[r.0 as int]@ == p@,
{
    let ghost rows = byte_rows(paths@);
    let mut lo: usize = 0;
    let mut hi: usize = paths.len();
    while lo < hi
        invariant
            rows == byte_rows(paths@),
            ascending(rows),
            0 <= lo <= hi <= paths@.len(),
            forall|j: int| 0 <= j < lo ==> path_lt(#[trigger] rows[j], p@),
            forall|j: int| hi <= j < rows.len() ==> !path_lt(#[trigger] rows[j], p@),
        decreases hi - lo,
    {
        let mid: usize = lo + (hi - lo) / 2;
        let ord = compare_paths(paths[mid].as_slice(), p);
        proof {
            lemma_path_lt_total(rows[mid as int], p@);
            lemma_path_lt_irreflexive(p@);
            assert forall|j: int| 0 <= j < rows.len() && j != mid implies (j < mid ==> path_lt(
                #[trigger] rows[j],
                rows[mid as int],
            )) && (j > mid ==> path_lt(rows[mid as int], rows[j])) by {}
        }
        match ord {
            PathOrder::Before => {
                proof {
                    assert forall|j: int| 0 <= j < mid + 1 implies path_lt(
                        #[trigger] rows[j],
                        p@,
                    ) by {
                        if j < mid {
                            lemma_path_lt_transitive(rows[j], rows[mid as int], p@);
                        }
                    }
                }
                lo = mid + 1;
            },
            _ => {
                proof {
                    assert forall|j: int| mid <= j < rows.len() implies !path_lt(
                        #[trigger] rows[j],
                        p@,
                    ) by {
                        if j > mid && path_lt(rows[j], p@) {
                            lemma_path_lt_transitive(rows[mid as int], rows[j], p@);
                        }
                    }
                }
                hi = mid;
            },
        }
    }
    proof {
        lemma_stands_at_decides(rows, p@, lo as int);
    }
    let found = lo < paths.len() && matches!(compare_paths(paths[lo].as_slice(), p), PathOrder::Same);
    proof {
        if lo < paths@.len() {
            lemma_path_lt_total(rows[lo as int], p@);
            lemma_path_lt_irreflexive(p@);
        }
    }
    (lo, found)
}

/// The row stays ascending when a path goes in where it stands.
pub proof fn lemma_insert_ascending(rows: Seq<Seq<u8>>, p: Seq<u8>, i: int)
    requires
        ascending(rows),
        stands_at(rows, p, i),
        !rows.contains(p),
    ensures
        ascending(rows.insert(i, p)),
        rows.insert(i, p).to_set() == rows.to_set().insert(p),
{
    lemma_stands_at_decides(rows, p, i);
    let out = rows.insert(i, p);
    assert forall|j: int, k: int| 0 <= j < k < out.len() implies path_lt(
        #[trigger] out[j],
        #[trigger] out[k],
    ) by {
        if j == i {
            assert(out[k] == rows[k - 1]);
        } else if k == i {
            assert(out[j] == rows[j]);
        } else {
            assert(out[j] == rows[if j < i { j } else { j - 1 }]);
            assert(out[k] == rows[if k < i { k } else { k - 1 }]);
        }
    }
    assert forall|x: Seq<u8>| #[trigger] out.to_set().contains(x) == rows.to_set().insert(
        p,
    ).contains(x) by {
        if out.contains(x) {
            let k = choose|k: int| 0 <= k < out.len() && out[k] == x;
            if k != i {
                assert(rows[if k < i { k } else { k - 1 }] == x);
            }
        }
        if rows.contains(x) {
            let k = choose|k: int| 0 <= k < rows.len() && rows[k] == x;
            assert(out[if k < i { k } else { k + 1 }] == x);
        }
        assert(out[i] == p);
    }
    assert(out.to_set() =~= rows.to_set().insert(p));
}

/// The row stays ascending when one path goes out.
proof fn lemma_remove_ascending(rows: Seq<Seq<u8>>, i: int)
    requires
        ascending(rows),
        0 <= i < rows.len(),
    ensures
        ascending(rows.remove(i)),
        rows.remove(i).to_set() == rows.to_set().remove(rows[i]),
{
    lemma_ascending_no_duplicates(rows);
    let out = rows.remove(i);
    assert forall|j: int, k: int| 0 <= j < k < out.len() implies path_lt(
        #[trigger] out[j],
        #[trigger] out[k],
    ) by {
        assert(out[j] == rows[if j < i { j } else { j + 1 }]);
        assert(out[k] == rows[if k < i { k } else { k + 1 }]);
    }
    assert forall|x: Seq<u8>| #[trigger] out.to_set().contains(x) == rows.to_set().remove(
        rows[i],
    ).contains(x) by {
        if out.contains(x) {
            let k = choose|k: int| 0 <= k < out.len() && out[k] == x;
            assert(rows[if k < i { k } else { k + 1 }] == x);
        }
        if rows.contains(x) && x != rows[i] {
            let k = choose|k: int| 0 <= k < rows.len() && rows[k] == x;
            assert(out[if k < i { k } else { k - 1 }] == x);
        }
    }
    assert(out.to_set() =~= rows.to_set().remove(rows[i]));
}

/// Every path has a place in an ascending row.
pub proof fn lemma_has_a_place(rows: Seq<Seq<u8>>, p: Seq<u8>) -> (i: int)
    requires
        ascending(rows),
    ensures
        stands_at(rows, p, i),
    decreases rows.len(),
{
    if rows.len() == 0 {
        0
    } else {
        let init = rows.drop_last();
        let last = rows.last();
        if path_lt(last, p) {
            assert forall|j: int| 0 <= j < rows.len() implies path_lt(#[trigger] rows[j], p) by {
                if j < rows.len() - 1 {
                    lemma_path_lt_transitive(rows[j], last, p);
                }
            }
            rows.len() as int
        } else {
            let i = lemma_has_a_place(init, p);
            assert forall|j: int| 0 <= j < i implies path_lt(#[trigger] rows[j], p) by {
                assert(init[j] == rows[j]);
            }
            assert forall|j: int| i <= j < rows.len() implies !path_lt(#[trigger] rows[j], p) by {
                if j < rows.len() - 1 {
                    assert(init[j] == rows[j]);
                }
            }
            i
        }
    }
}

/// Listing one more path behind all others.
proof fn lemma_push_ascending(rows: Seq<Seq<u8>>, p: Seq<u8>)
    requires
        ascending(rows),
        forall|k: int| 0 <= k < rows.len() ==> path_lt(#[trigger] rows[k], p),
    ensures
        ascending(rows.push(p)),
        rows.push(p).to_set() == rows.to_set().insert(p),
{
    rows.lemma_push_to_set_commute(p);
}

/// The models of a row that grew by one.
pub proof fn lemma_byte_rows_push(v: Seq<Vec<u8>>, p: Vec<u8>)
    ensures
        byte_rows(v.push(p)) == byte_rows(v).push(p@),
{
    assert(byte_rows(v.push(p)) =~= byte_rows(v).push(p@));
}

impl PathSet {
    /// The paths in ascending order.
    pub closed spec fn rows(&self) -> Seq<Seq<u8>> {
        byte_rows(self.paths@)
    }

    /// The paths are listed in ascending order, each once.
    pub open spec fn wf(&self) -> bool {
        ascending(self.rows())
    }

    /// The empty set.
    pub fn new() -> (s: PathSet)
        ensures
            s.wf(),
            s@ == Set::<Seq<u8>>::empty(),
    {
        let s = PathSet { paths: Vec::new() };
        proof {
            assert(s.rows() =~= Seq::empty());
            assert(s@ =~= Set::empty());
        }
        s
    }

    /// Number of paths.
    pub fn len(&self) -> (n: usize)
        requires
            self.wf(),
        ensures
            n == self@.len(),
            n == self.rows().len(),
            self@.finite(),
    {
        proof {
            lemma_ascending_no_duplicates(self.rows());
        }
        self.paths.len()
    }

    /// The path at a place of the ascending order.
    pub fn path(&self, i: usize) -> (p: &Vec<u8>)
        requires
            i < self.rows().len(),
        ensures
            p@ == self.rows()[i as int],
    {
        &self.paths[i]
    }

    /// Whether the path is in the set.
    pub fn contains(&self, p: &[u8]) -> (r: bool)
        requires
            self.wf(),
        ensures
            r == self@.contains(p@),
    {
        locate(&self.paths, p).1
    }

    /// Adds a path; returns whether it is new.
    pub fn insert(&mut self, p: &[u8]) -> (added: bool)
        requires
            old(self).wf(),
        ensures
            final(self).wf(),
            final(self)@ == old(self)@.insert(p@),
            added == !old(self)@.contains(p@),
    {
        let (i, found) = locate(&self.paths, p);
        if found {
            proof {
                assert(self@.insert(p@) =~= self@);
            }
            return false;
        }
        let v = slice_to_vec(p);
        proof {
            lemma_insert_ascending(self.rows(), p@, i as int);
            assert(byte_rows(self.paths@.insert(i as int, v)) =~= self.rows().insert(i as int, p@));
        }
        self.paths.insert(i, v);
        true
    }

    /// Adds some paths.
    pub fn insert_all(&mut self, more: &Vec<Vec<u8>>)
        requires
            old(self).wf(),
        ensures
            final(self).wf(),
            final(self)@ == old(self)@.union(byte_rows(more@).to_set()),
    {
        let ghost before = self@;
        let ghost rows = byte_rows(more@);
        let mut i: usize = 0;
        proof {
            assert(self@ =~= before.union(rows.take(0).to_set()));
        }
        while i < more.len()
            invariant
                i <= more@.len(),
                rows == byte_rows(more@),
                self.wf(),
                self@ == before.union(rows.take(i as int).to_set()),
            decreases more@.len() - i,
        {
            let _ = self.insert(more[i].as_slice());
            proof {
                assert(rows.take(i + 1) =~= rows.take(i as int).push(rows[i as int]));
                rows.take(i as int).lemma_push_to_set_commute(rows[i as int]);
                assert(self@ =~= before.union(rows.take(i + 1).to_set()));
            }
            i = i + 1;
        }
        proof {
            assert(rows.take(rows.len() as int) =~= rows);
        }
    }

    /// The paths in ascending order.
    pub fn to_vec(&self) -> (r: Vec<Vec<u8>>)
        ensures
            byte_rows(r@) == self.rows(),
    {
        clone_byte_rows(&self.paths)
    }

    /// Takes a path out; returns whether it was there.
    pub fn remove(&mut self, p: &[u8]) -> (removed: bool)
        requires
            old(self).wf(),
        ensures
            final(self).wf(),
            final(self)@ == old(self)@.remove(p@),
            removed == old(self)@.contains(p@),
    {
        let (i, found) = locate(&self.paths, p);
        if !found {
            proof {
                assert(self@.remove(p@) =~= self@);
            }
            return false;
        }
        proof {
            lemma_remove_ascending(self.rows(), i as int);
            assert(byte_rows(self.paths@.remove(i as int)) =~= self.rows().remove(i as int));
        }
        let _ = self.paths.remove(i);
        true
    }

    /// A copy of the set.
    pub fn duplicate(&self) -> (r: PathSet)
        ensures
            r.rows() == self.rows(),
            r@ == self@,
    {
        let paths = clone_byte_rows(&self.paths);
        PathSet { paths }
    }

    /// The paths of either set.
    pub fn join(&self, other: &PathSet) -> (r: PathSet)
        requires
            self.wf(),
            other.wf(),
        ensures
            r.wf(),
            r@ == self@.union(other@),
    {
        let ghost a = self.rows();
        let ghost b = other.rows();
        let mut out: Vec<Vec<u8>> = Vec::new();
        let mut i: usize = 0;
        let mut j: usize = 0;
        proof {
            assert(byte_rows(out@).to_set() =~= a.take(0).to_set().union(b.take(0).to_set()));
        }
        while i < self.paths.len() || j < other.paths.len()
            invariant
                a == byte_rows(self.paths@),
                b == byte_rows(other.paths@),
                ascending(a),
                ascending(b),
                i <= a.len(),
                j <= b.len(),
                ascending(byte_rows(out@)),
                forall|k: int|
                    0 <= k < out@.len() && i < a.len() ==> path_lt(
                        #[trigger] byte_rows(out@)[k],
                        a[i as int],
                    ),
                forall|k: int|
                    0 <= k < out@.len() && j < b.len() ==> path_lt(
                        #[trigger] byte_rows(out@)[k],
                        b[j as int],
                    ),
                byte_rows(out@).to_set() == a.take(i as int).to_set().union(
                    b.take(j as int).to_set(),
                ),
            decreases a.len() - i + b.len() - j,
        {
            let ghost before = byte_rows(out@);
            let (take_a, take_b): (bool, bool) = if i == self.paths.len() {
                (false, true)
            } else if j == other.paths.len() {
                (true, false)
            } else {
                match compare_paths(self.paths[i].as_slice(), other.paths[j].as_slice()) {
                    PathOrder::Before => (true, false),
                    PathOrder::Same => (true, true),
                    PathOrder::After => (false, true),
                }
            };
            let next = if take_a {
                slice_to_vec(self.paths[i].as_slice())
            } else {
                slice_to_vec(other.paths[j].as_slice())
            };
            let ghost p = next@;
            proof {
                lemma_push_ascending(before, p);
                lemma_byte_rows_push(out@, next);
                if take_a {
                    assert(a.take(i + 1) =~= a.take(i as int).push(p));
                    a.take(i as int).lemma_push_to_set_commute(p);
                }
                if take_b {
                    assert(b.take(j + 1) =~= b.take(j as int).push(p));
                    b.take(j as int).lemma_push_to_set_commute(p);
                }
                let i2 = if take_a { i + 1 } else { i as int };
                let j2 = if take_b { j + 1 } else { j as int };
                let after = before.push(p);
                assert(after.to_set() =~= a.take(i2).to_set().union(b.take(j2).to_set()));
                assert forall|k: int| 0 <= k < after.len() && i2 < a.len() implies path_lt(
                    #[trigger] after[k],
                    a[i2],
                ) by {
                    if take_a {
                        assert(path_lt(a[i as int], a[i2]));
                        if k < before.len() {
                            lemma_path_lt_transitive(before[k], a[i as int], a[i2]);
                        }
                    }
                }
                assert forall|k: int| 0 <= k < after.len() && j2 < b.len() implies path_lt(
                    #[trigger] after[k],
                    b[j2],
                ) by {
                    if take_b {
                        assert(path_lt(b[j as int], b[j2]));
                        if k < before.len() {
                            lemma_path_lt_transitive(before[k], b[j as int], b[j2]);
                        }
                    }
                }
            }
            out.push(next);
            if take_a {
                i = i + 1;
            }
            if take_b {
                j = j + 1;
            }
        }
        proof {
            assert(a.take(a.len() as int) =~= a);
            assert(b.take(b.len() as int) =~= b);
        }
        PathSet { paths: out }
    }

    /// The paths of `self` whose membership in `other` is `keep`.
    fn select(&self, other: &PathSet, keep: bool) -> (r: PathSet)
        requires
            self.wf(),
            other.wf(),
        ensures
            r.wf(),
            forall|p: Seq<u8>| #[trigger]
                r@.contains(p) <==> self@.contains(p) && other@.contains(p) == keep,
    {
        let ghost a = self.rows();
        let mut out: Vec<Vec<u8>> = Vec::new();
        let mut i: usize = 0;
        while i < self.paths.len()
            invariant
                a == byte_rows(self.paths@),
                ascending(a),
                other.wf(),
                i <= a.len(),
                ascending(byte_rows(out@)),
                forall|k: int|
                    0 <= k < out@.len() && i < a.len() ==> path_lt(
                        #[trigger] byte_rows(out@)[k],
                        a[i as int],
                    ),
                forall|p: Seq<u8>| #[trigger]
                    byte_rows(out@).to_set().contains(p) <==> a.take(i as int).contains(p)
                        && other@.contains(p) == keep,
            decreases a.len() - i,
        {
            let ghost before = byte_rows(out@);
            let ghost p = a[i as int];
            proof {
                assert(a.take(i + 1) =~= a.take(i as int).push(p));
                assert forall|x: Seq<u8>| #[trigger]
                    a.take(i + 1).contains(x) <==> a.take(i as int).contains(x) || x == p by {
                    let s = a.take(i as int);
                    if s.contains(x) {
                        let k = choose|k: int| 0 <= k < s.len() && s[k] == x;
                        assert(s.push(p)[k] == x);
                    }
                    if s.push(p).contains(x) && x != p {
                        let k = choose|k: int| 0 <= k < s.push(p).len() && s.push(p)[k] == x;
                        assert(s[k] == x);
                    }
                    assert(s.push(p)[s.len() as int] == p);
                }
                assert forall|k: int| 0 <= k < before.len() && i + 1 < a.len() implies path_lt(
                    #[trigger] before[k],
                    a[i + 1],
                ) by {
                    assert(path_lt(a[i as int], a[i + 1]));
                    lemma_path_lt_transitive(before[k], a[i as int], a[i + 1]);
                }
            }
            if other.contains(self.paths[i].as_slice()) == keep {
                let v = slice_to_vec(self.paths[i].as_slice());
                proof {
                    lemma_push_ascending(before, p);
                    lemma_byte_rows_push(out@, v);
                    if i + 1 < a.len() {
                        assert(path_lt(a[i as int], a[i + 1]));
                    }
                }
                out.push(v);
            }
            i = i + 1;
        }
        proof {
            assert(a.take(a.len() as int) =~= a);
        }
        PathSet { paths: out }
    }

    /// The paths of both sets.
    pub fn meet(&self, other: &PathSet) -> (r: PathSet)
        requires
            self.wf(),
            other.wf(),
        ensures
            r.wf(),
            r@ == self@.intersect(other@),
    {
        let r = self.select(other, true);
        proof {
            assert(r@ =~= self@.intersect(other@));
        }
        r
    }

    /// The paths of `self` that are not in `other`.
    pub fn subtract(&self, other: &PathSet) -> (r: PathSet)
        requires
            self.wf(),
            other.wf(),
        ensures
            r.wf(),
            r@ == self@.difference(other@),
    {
        let r = self.select(other, false);
        proof {
            assert(r@ =~= self@.difference(other@));
        }
        r
    }

    /// The places of the paths under a prefix, as a half-open range.
    pub fn prefix_range(&self, prefix: &[u8]) -> (r: (usize, usize))
        requires
            self.wf(),
        ensures
            r.0 <= r.1 <= self.rows().len(),
            forall|i: int|
                0 <= i < self.rows().len() ==> (prefix@.is_prefix_of(#[trigger] self.rows()[i])
                    <==> r.0 <= i < r.1),
    {
        let ghost rows = self.rows();
        let (lo, _) = locate(&self.paths, prefix);
        let mut hi: usize = lo;
        while hi < self.paths.len() && has_prefix(self.paths[hi].as_slice(), prefix)
            invariant
                rows == byte_rows(self.paths@),
                lo <= hi <= rows.len(),
                forall|i: int| lo <= i < hi ==> prefix@.is_prefix_of(#[trigger] rows[i]),
            decreases rows.len() - hi,
        {
            hi = hi + 1;
        }
        proof {
            assert forall|i: int| 0 <= i < rows.len() implies (prefix@.is_prefix_of(
                #[trigger] rows[i],
            ) <==> lo <= i < hi) by {
                if prefix@.is_prefix_of(rows[i]) {
                    lemma_extension_is_not_before(prefix@, rows[i]);
                    if i >= hi {
                        assert(!prefix@.is_prefix_of(rows[hi as int]));
                        lemma_extensions_stand_together(prefix@, rows[hi as int], rows[i]);
                        lemma_path_lt_irreflexive(rows[i]);
                        if i > hi {
                            assert(path_lt(rows[hi as int], rows[i]));
                            lemma_path_lt_transitive(rows[hi as int], rows[i], rows[hi as int]);
                            lemma_path_lt_irreflexive(rows[hi as int]);
                        }
                    }
                }
            }
        }
        (lo, hi)
    }

    /// Number of paths under a prefix.
    pub fn count_prefix(&self, prefix: &[u8]) -> (n: usize)
        requires
            self.wf(),
        ensures
            n == self@.filter(|p: Seq<u8>| prefix@.is_prefix_of(p)).len(),
    {
        let (lo, hi) = self.prefix_range(prefix);
        proof {
            lemma_prefix_rows(*self, prefix@, lo as int, hi as int);
            lemma_ascending_no_duplicates(self.rows().subrange(lo as int, hi as int));
        }
        hi - lo
    }

    /// The paths under a prefix.
    pub fn restrict(&self, prefix: &[u8]) -> (r: PathSet)
        requires
            self.wf(),
        ensures
            r.wf(),
            r@ == self@.filter(|p: Seq<u8>| prefix@.is_prefix_of(p)),
    {
        let ghost rows = self.rows();
        let (lo, hi) = self.prefix_range(prefix);
        let mut out: Vec<Vec<u8>> = Vec::new();
        let mut i: usize = lo;
        while i < hi
            invariant
                rows == byte_rows(self.paths@),
                lo <= i <= hi <= rows.len(),
                byte_rows(out@) == rows.subrange(lo as int, i as int),
            decreases hi - i,
        {
            let v = slice_to_vec(self.paths[i].as_slice());
            proof {
                lemma_byte_rows_push(out@, v);
                assert(rows.subrange(lo as int, i + 1) =~= rows.subrange(lo as int, i as int).push(
                    rows[i as int],
                ));
            }
            out.push(v);
            i = i + 1;
        }
        proof {
            lemma_prefix_rows(*self, prefix@, lo as int, hi as int);
        }
        PathSet { paths: out }
    }
}

/// The rows under a prefix are an ascending listing of the paths under it.
proof fn lemma_prefix_rows(s: PathSet, prefix: Seq<u8>, lo: int, hi: int)
    requires
        s.wf(),
        0 <= lo <= hi <= s.rows().len(),
        forall|i: int|
            0 <= i < s.rows().len() ==> (prefix.is_prefix_of(#[trigger] s.rows()[i]) <==> lo <= i
                < hi),
    ensures
        ascending(s.rows().subrange(lo, hi)),
        s.rows().subrange(lo, hi).to_set() == s@.filter(|p: Seq<u8>| prefix.is_prefix_of(p)),
{
    let rows = s.rows();
    let sub = rows.subrange(lo, hi);
    assert forall|j: int, k: int| 0 <= j < k < sub.len() implies path_lt(
        #[trigger] sub[j],
        #[trigger] sub[k],
    ) by {
        assert(path_lt(rows[lo + j], rows[lo + k]));
    }
    let want = s@.filter(|p: Seq<u8>| prefix.is_prefix_of(p));
    assert forall|x: Seq<u8>| #[trigger] sub.to_set().contains(x) == want.contains(x) by {
        if sub.contains(x) {
            let k = choose|k: int| 0 <= k < sub.len() && sub[k] == x;
            assert(rows[lo + k] == x);
        }
        if want.contains(x) {
            let k = choose|k: int| 0 <= k < rows.len() && rows[k] == x;
            assert(prefix.is_prefix_of(rows[k]));
            assert(sub[k - lo] == x);
        }
    }
    assert(sub.to_set() =~= want);
}

/// A copy of a row of byte strings.
pub fn clone_byte_rows(v: &Vec<Vec<u8>>) -> (r: Vec<Vec<u8>>)
    ensures
        byte_rows(r@) == byte_rows(v@),
{
    let mut out: Vec<Vec<u8>> = Vec::new();
    let mut i: usize = 0;
    while i < v.len()
        invariant
            i <= v@.len(),
            byte_rows(out@) == byte_rows(v@).take(i as int),
        decreases v@.len() - i,
    {
        let p = slice_to_vec(v[i].as_slice());
        proof {
            lemma_byte_rows_push(out@, p);
            assert(byte_rows(v@).take(i + 1) =~= byte_rows(v@).take(i as int).push(v@[i as int]@));
        }
        out.push(p);
        i = i + 1;
    }
    proof {
        assert(byte_rows(v@).take(v@.len() as int) =~= byte_rows(v@));
    }
    out
}

} // verus!
