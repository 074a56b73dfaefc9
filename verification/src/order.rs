//! The byte order of paths.
use vstd::prelude::*;

verus! {

/// `a` comes before `b` in byte order: it differs first at a smaller byte, or
/// ends first.
pub open spec fn path_lt(a: Seq<u8>, b: Seq<u8>) -> bool
    decreases a.len(),
{
    if b.len() == 0 {
        false
    } else if a.len() == 0 {
        true
    } else {
        a[0] < b[0] || (a[0] == b[0] && path_lt(a.drop_first(), b.drop_first()))
    }
}

/// No path comes before itself.
pub proof fn lemma_path_lt_irreflexive(a: Seq<u8>)
    ensures
        !path_lt(a, a),
    decreases a.len(),
{
    if a.len() > 0 {
        lemma_path_lt_irreflexive(a.drop_first());
    }
}

/// The order is transitive.
pub proof fn lemma_path_lt_transitive(a: Seq<u8>, b: Seq<u8>, c: Seq<u8>)
    requires
        path_lt(a, b),
        path_lt(b, c),
    ensures
        path_lt(a, c),
    decreases a.len(),
{
    if a.len() > 0 && a[0] == b[0] && b[0] == c[0] {
        lemma_path_lt_transitive(a.drop_first(), b.drop_first(), c.drop_first());
    }
}

/// Of two distinct paths one comes before the other.
pub proof fn lemma_path_lt_total(a: Seq<u8>, b: Seq<u8>)
    ensures
        a == b || path_lt(a, b) || path_lt(b, a),
        !(path_lt(a, b) && path_lt(b, a)),
    decreases a.len(),
{
    if a.len() == 0 {
        if b.len() == 0 {
            assert(a =~= b);
        }
    } else if b.len() > 0 {
        lemma_path_lt_total(a.drop_first(), b.drop_first());
        if a[0] == b[0] && a.drop_first() == b.drop_first() {
            assert(a =~= seq![a[0]] + a.drop_first());
            assert(b =~= seq![b[0]] + b.drop_first());
        }
    }
}

/// A path with prefix `p` does not come before `p`.
pub proof fn lemma_extension_is_not_before(p: Seq<u8>, x: Seq<u8>)
    requires
        p.is_prefix_of(x),
    ensures
        !path_lt(x, p),
    decreases p.len(),
{
    if p.len() > 0 && x.len() > 0 {
        assert(p[0] == x[0]) by {
            assert(p == x.take(p.len() as int));
        }
        assert(p.drop_first().is_prefix_of(x.drop_first())) by {
            assert(p.drop_first() =~= x.drop_first().take(p.len() - 1)) by {
                assert(p == x.take(p.len() as int));
            }
        }
        lemma_extension_is_not_before(p.drop_first(), x.drop_first());
    }
}

/// The extensions of `p` stand together: one that is not an extension and not
/// before `p` comes after all of them.
pub proof fn lemma_extensions_stand_together(p: Seq<u8>, x: Seq<u8>, y: Seq<u8>)
    requires
        !path_lt(x, p),
        !p.is_prefix_of(x),
        p.is_prefix_of(y),
    ensures
        path_lt(y, x),
    decreases p.len(),
{
    if p.len() == 0 {
        assert(p =~= x.take(0));
    } else {
        assert(p == y.take(p.len() as int));
        assert(p[0] == y[0]);
        if x[0] == p[0] {
            let (p1, x1, y1) = (p.drop_first(), x.drop_first(), y.drop_first());
            assert(p1 =~= y1.take(p1.len() as int));
            if p1.is_prefix_of(x1) {
                assert(p1 == x1.take(p1.len() as int));
                assert forall|i: int| 0 <= i < p.len() implies p[i] == x[i] by {
                    if i > 0 {
                        assert(p1[i - 1] == x1.take(p1.len() as int)[i - 1]);
                    }
                }
                assert(p =~= x.take(p.len() as int));
            }
            lemma_extensions_stand_together(p1, x1, y1);
        }
    }
}

/// How two paths compare.
#[derive(Clone, Copy, Debug, PartialEq, Eq, Structural)]
pub enum PathOrder {
    Before,
    Same,
    After,
}

/// Compares two paths in byte order.
pub fn compare_paths(a: &[u8], b: &[u8]) -> (r: PathOrder)
    ensures
        match r {
            PathOrder::Before => path_lt(a@, b@),
            PathOrder::Same => a@ == b@,
            PathOrder::After => path_lt(b@, a@),
        },
{
    let mut i: usize = 0;
    proof {
        assert(a@.skip(0) =~= a@);
        assert(b@.skip(0) =~= b@);
    }
    while i < a.len() && i < b.len() && a[i] == b[i]
        invariant
            i <= a@.len(),
            i <= b@.len(),
            a@.take(i as int) == b@.take(i as int),
            path_lt(a@.skip(i as int), b@.skip(i as int)) == path_lt(a@, b@),
            path_lt(b@.skip(i as int), a@.skip(i as int)) == path_lt(b@, a@),
        decreases a@.len() - i,
    {
        proof {
            assert(a@.skip(i as int).drop_first() =~= a@.skip(i + 1));
            assert(b@.skip(i as int).drop_first() =~= b@.skip(i + 1));
            assert(a@.take(i + 1) =~= a@.take(i as int).push(a@[i as int]));
            assert(b@.take(i + 1) =~= b@.take(i as int).push(b@[i as int]));
        }
        i = i + 1;
    }
    if i == a.len() {
        if i == b.len() {
            assert(a@ =~= a@.take(i as int));
            assert(b@ =~= b@.take(i as int));
            PathOrder::Same
        } else {
            PathOrder::Before
        }
    } else if i == b.len() {
        PathOrder::After
    } else if a[i] < b[i] {
        PathOrder::Before
    } else {
        PathOrder::After
    }
}

/// Whether `bytes` starts with `prefix`.
pub fn has_prefix(bytes: &[u8], prefix: &[u8]) -> (r: bool)
    ensures
        r == prefix@.is_prefix_of(bytes@),
{
    if prefix.len() > bytes.len() {
        return false;
    }
    let mut i: usize = 0;
    while i < prefix.len()
        invariant
            i <= prefix@.len() <= bytes@.len(),
            forall|j: int| 0 <= j < i ==> prefix@[j] == bytes@[j],
        decreases prefix@.len() - i,
    {
        if prefix[i] != bytes[i] {
            assert(bytes@.take(prefix@.len() as int)[i as int] == bytes@[i as int]);
            return false;
        }
        i = i + 1;
    }
    assert(prefix@ =~= bytes@.take(prefix@.len() as int));
    true
}

/// Whether two byte strings are equal.
pub fn same_bytes(a: &[u8], b: &[u8]) -> (r: bool)
    ensures
        r == (a@ == b@),
{
    if a.len() != b.len() {
        return false;
    }
    let r = has_prefix(a, b);
    proof {
        assert(a@.take(b@.len() as int) =~= a@);
    }
    r
}

/// Paths are ordered like the words of a dictionary: the first byte in which two paths
/// differ decides, and a path comes before those that start with it.
pub proof fn paths_are_ordered_like_words(a: Seq<u8>, b: Seq<u8>)
    ensures
        path_lt(a, b) <==> exists|i: int|
            0 <= i <= a.len() && i < b.len() && #[trigger] a.take(i) == b.take(i) && (i == a.len()
                || a[i] < b[i]),
    decreases a.len(),
{
    let (x, y) = (a.drop_first(), b.drop_first());
    if a.len() > 0 && b.len() > 0 {
        paths_are_ordered_like_words(x, y);
    }
    if path_lt(a, b) {
        if a.len() == 0 || a[0] < b[0] {
            assert(a.take(0) =~= b.take(0));
        } else {
            let i = choose|i: int|
                0 <= i <= x.len() && i < y.len() && #[trigger] x.take(i) == y.take(i) && (i
                    == x.len() || x[i] < y[i]);
            assert(a.take(i + 1) =~= b.take(i + 1)) by {
                assert forall|k: int| 0 <= k < i + 1 implies a[k] == b[k] by {
                    if k > 0 {
                        assert(x.take(i)[k - 1] == y.take(i)[k - 1]);
                    }
                }
            }
        }
    }
    if exists|i: int|
        0 <= i <= a.len() && i < b.len() && #[trigger] a.take(i) == b.take(i) && (i == a.len()
            || a[i] < b[i]) {
        let i = choose|i: int|
            0 <= i <= a.len() && i < b.len() && #[trigger] a.take(i) == b.take(i) && (i == a.len()
                || a[i] < b[i]);
        if i > 0 {
            assert(a.take(i)[0] == b.take(i)[0]);
            assert(x.take(i - 1) =~= y.take(i - 1)) by {
                assert forall|k: int| 0 <= k < i - 1 implies x[k] == y[k] by {
                    assert(a.take(i)[k + 1] == b.take(i)[k + 1]);
                }
            }
        }
    }
}

} // verus!
