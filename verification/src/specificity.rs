//! How closely a fact agrees with a pattern.
//!
//! The key of a fact lists, in preorder, where pattern and fact meet: a zero
//! where both have a variable or both have none, a one where only one of them
//! has. Facts that agree with the pattern further come first in byte order.
use vstd::prelude::*;

use crate::order::{path_lt, paths_are_ordered_like_words};
use crate::span::skip_encoded_atom;
use crate::tag::{byte_tag, maybe_byte_item, Tag};
use crate::tree::{
    lemma_parse_row_none, lemma_parse_row_push, lemma_parse_row_sound, lemma_parse_sound, parse_at,
    parse_row, Tree,
};

verus! {

/// The key of a fact's tree against a pattern's tree.
pub open spec fn specificity(pattern: Tree, fact: Tree) -> Seq<u8>
    decreases pattern, 0nat,
{
    if pattern.is_variable() || fact.is_variable() {
        seq![
            if pattern.is_variable() && fact.is_variable() {
                0u8
            } else {
                1u8
            },
        ]
    } else {
        match (pattern, fact) {
            (Tree::Expr(ps), Tree::Expr(fs)) => if ps.len() == fs.len() {
                seq![0u8] + specificity_all(ps, fs)
            } else {
                seq![0u8]
            },
            _ => seq![0u8],
        }
    }
}

/// The keys of a row of trees against a row of equal length, one behind the
/// other.
pub open spec fn specificity_all(ps: Seq<Tree>, fs: Seq<Tree>) -> Seq<u8>
    decreases ps, ps.len(),
{
    if ps.len() == 0 {
        Seq::empty()
    } else {
        specificity_all(ps.drop_last(), fs.drop_last()) + specificity(ps.last(), fs.last())
    }
}

/// The item is a variable.
pub open spec fn is_var_tag(tag: Tag) -> bool {
    tag is NewVar || tag is VarRef
}

/// The key as far as the bytes of pattern and fact go, with the positions
/// behind both atoms when they are complete.
pub open spec fn walk(a: Seq<u8>, p: int, b: Seq<u8>, q: int) -> (Seq<u8>, Option<(int, int)>)
    decreases a.len() - p, 0nat,
{
    if p < 0 || p >= a.len() || q < 0 || q >= b.len() {
        (Seq::empty(), None)
    } else {
        match (byte_tag(a[p]), byte_tag(b[q])) {
            (Some(x), Some(y)) => if is_var_tag(x) {
                (
                    seq![
                        if is_var_tag(y) {
                            0u8
                        } else {
                            1u8
                        },
                    ],
                    match parse_at(b, q) {
                        Some((_, g)) => Some((p + 1, g)),
                        None => None,
                    },
                )
            } else if is_var_tag(y) {
                (
                    seq![1u8],
                    match parse_at(a, p) {
                        Some((_, e)) => Some((e, q + 1)),
                        None => None,
                    },
                )
            } else if x is Arity && x == y {
                let (o, r) = walk_row(a, p + 1, b, q + 1, x->Arity_0 as nat);
                (seq![0u8] + o, r)
            } else {
                (
                    seq![0u8],
                    match (parse_at(a, p), parse_at(b, q)) {
                        (Some((_, e)), Some((_, g))) => Some((e, g)),
                        _ => None,
                    },
                )
            },
            _ => (Seq::empty(), None),
        }
    }
}

/// The keys of `k` atoms that follow each other, as far as the bytes go.
pub open spec fn walk_row(a: Seq<u8>, p: int, b: Seq<u8>, q: int, k: nat) -> (
    Seq<u8>,
    Option<(int, int)>,
)
    decreases a.len() - p, k + 1,
{
    if k == 0 {
        (Seq::empty(), Some((p, q)))
    } else {
        match walk_row(a, p, b, q, (k - 1) as nat) {
            (o, Some((p2, q2))) => if p <= p2 <= a.len() {
                let (o2, r) = walk(a, p2, b, q2);
                (o + o2, r)
            } else {
                (o, None)
            },
            (o, None) => (o, None),
        }
    }
}

/// A walk moves forward and stays inside.
proof fn lemma_walk_moves(a: Seq<u8>, p: int, b: Seq<u8>, q: int)
    ensures
        walk(a, p, b, q).1 matches Some((p2, q2)) ==> 0 <= p < p2 <= a.len() && 0 <= q < q2
            <= b.len(),
    decreases a.len() - p, 0nat,
{
    if 0 <= p < a.len() && 0 <= q < b.len() {
        if parse_at(a, p) is Some {
            lemma_parse_sound(a, p);
        }
        if parse_at(b, q) is Some {
            lemma_parse_sound(b, q);
        }
        if let (Some(x), Some(y)) = (byte_tag(a[p]), byte_tag(b[q])) {
            if x is Arity && x == y {
                lemma_walk_row_moves(a, p + 1, b, q + 1, x->Arity_0 as nat);
            }
        }
    }
}

/// A walk over a row moves forward and stays inside.
proof fn lemma_walk_row_moves(a: Seq<u8>, p: int, b: Seq<u8>, q: int, k: nat)
    requires
        0 <= p <= a.len(),
        0 <= q <= b.len(),
    ensures
        walk_row(a, p, b, q, k).1 matches Some((p2, q2)) ==> p <= p2 <= a.len() && q <= q2
            <= b.len(),
    decreases a.len() - p, k + 1,
{
    if k > 0 {
        lemma_walk_row_moves(a, p, b, q, (k - 1) as nat);
        if let Some((p2, q2)) = walk_row(a, p, b, q, (k - 1) as nat).1 {
            lemma_walk_moves(a, p2, b, q2);
        }
    }
}

/// A row that stops stays as it is.
proof fn lemma_walk_row_stops(a: Seq<u8>, p: int, b: Seq<u8>, q: int, k: nat, j: nat)
    requires
        j <= k,
        walk_row(a, p, b, q, j).1 is None,
    ensures
        walk_row(a, p, b, q, k) == walk_row(a, p, b, q, j),
    decreases k - j,
{
    if j < k {
        lemma_walk_row_stops(a, p, b, q, (k - 1) as nat, j);
    }
}

/// Appends the key of the fact atom at `f` against the pattern atom at `p`, as
/// far as both go; moves both positions when both atoms are complete.
pub fn push_specificity_key(
    pattern: &[u8],
    p: &mut usize,
    fact: &[u8],
    f: &mut usize,
    out: &mut Vec<u8>,
) -> (r: Option<()>)
    ensures
        ({
            let (o, moved) = walk(pattern@, *old(p) as int, fact@, *old(f) as int);
            &&& final(out)@ == old(out)@ + o
            &&& r is Some <==> moved is Some
            &&& moved matches Some((p2, f2)) ==> *final(p) == p2 && *final(f) == f2
        }),
    decreases pattern@.len() - *old(p), 1nat,
{
    let p_start: usize = *p;
    let f_start: usize = *f;
    let ghost out0 = out@;
    if p_start >= pattern.len() || f_start >= fact.len() {
        assert(out@ =~= out0 + Seq::<u8>::empty());
        return None;
    }
    let (p_tag, f_tag) = match (
        maybe_byte_item(pattern[p_start]),
        maybe_byte_item(fact[f_start]),
    ) {
        (Some(p_tag), Some(f_tag)) => (p_tag, f_tag),
        _ => {
            assert(out@ =~= out0 + Seq::<u8>::empty());
            return None;
        },
    };
    let p_var = matches!(p_tag, Tag::NewVar | Tag::VarRef(_));
    let f_var = matches!(f_tag, Tag::NewVar | Tag::VarRef(_));
    if p_var {
        if f_var {
            out.push(0);
        } else {
            out.push(1);
        }
        assert(out@ =~= out0 + seq![out@.last()]);
        *p = p_start + 1;
        return skip_encoded_atom(fact, f);
    }
    if f_var {
        out.push(1);
        assert(out@ =~= out0 + seq![1u8]);
        *f = f_start + 1;
        return skip_encoded_atom(pattern, p);
    }
    out.push(0);
    assert(out@ =~= out0 + seq![0u8]);
    match (p_tag, f_tag) {
        (Tag::Arity(k), Tag::Arity(f_arity)) => if k == f_arity {
            *p = p_start + 1;
            *f = f_start + 1;
            return push_row(pattern, p, fact, f, out, k, p_start, f_start);
        },
        _ => {},
    }
    if skip_encoded_atom(pattern, p).is_none() {
        return None;
    }
    skip_encoded_atom(fact, f)
}

/// Appends the keys of `k` atoms that follow each other behind two arity items.
fn push_row(
    pattern: &[u8],
    p: &mut usize,
    fact: &[u8],
    f: &mut usize,
    out: &mut Vec<u8>,
    k: u8,
    p_start: usize,
    f_start: usize,
) -> (r: Option<()>)
    requires
        *old(p) == p_start + 1,
        *old(f) == f_start + 1,
        p_start < pattern@.len(),
        f_start < fact@.len(),
        byte_tag(pattern@[p_start as int]) == Some(Tag::Arity(k)),
        byte_tag(fact@[f_start as int]) == Some(Tag::Arity(k)),
    ensures
        ({
            let (o, moved) = walk(pattern@, p_start as int, fact@, f_start as int);
            &&& final(out)@ == old(out)@ + o.drop_first()
            &&& o.len() > 0 && o[0] == 0
            &&& r is Some <==> moved is Some
            &&& moved matches Some((p2, f2)) ==> *final(p) == p2 && *final(f) == f2
        }),
    decreases pattern@.len() - p_start, 0nat,
{
    let ghost a = pattern@;
    let ghost b = fact@;
    let ghost out0 = out@;
    let ghost (p1, q1) = (p_start + 1, f_start + 1);
    let mut i: u8 = 0;
    proof {
        let o = walk_row(a, p1, b, q1, k as nat).0;
        assert((seq![0u8] + o).drop_first() =~= o);
        assert(out@ =~= out0 + Seq::<u8>::empty());
    }
    while i < k
        invariant
            i <= k,
            a == pattern@,
            b == fact@,
            out0 == old(out)@,
            p1 == p_start + 1,
            q1 == f_start + 1,
            p_start < a.len(),
            f_start < b.len(),
            byte_tag(a[p_start as int]) == Some(Tag::Arity(k)),
            byte_tag(b[f_start as int]) == Some(Tag::Arity(k)),
            (seq![0u8] + walk_row(a, p1, b, q1, k as nat).0).drop_first() == walk_row(
                a,
                p1,
                b,
                q1,
                k as nat,
            ).0,
            walk_row(a, p1, b, q1, i as nat).1 == Some((*p as int, *f as int)),
            p1 <= *p <= a.len(),
            q1 <= *f <= b.len(),
            out@ == out0 + walk_row(a, p1, b, q1, i as nat).0,
        decreases k - i,
    {
        let ghost (pi, qi) = (*p as int, *f as int);
        let ghost oi = walk_row(a, p1, b, q1, i as nat).0;
        let r = push_specificity_key(pattern, p, fact, f, out);
        proof {
            lemma_walk_moves(a, pi, b, qi);
            assert(out@ =~= out0 + (oi + walk(a, pi, b, qi).0));
        }
        if r.is_none() {
            proof {
                lemma_walk_row_stops(a, p1, b, q1, k as nat, (i + 1) as nat);
            }
            return None;
        }
        i = i + 1;
    }
    Some(())
}

/// The key of a fact against a pattern.
pub fn specificity_key(pattern: &[u8], fact: &[u8]) -> (key: Vec<u8>)
    ensures
        key@ == walk(pattern@, 0, fact@, 0).0,
{
    let mut p: usize = 0;
    let mut f: usize = 0;
    let mut key: Vec<u8> = Vec::new();
    let _ = push_specificity_key(pattern, &mut p, fact, &mut f, &mut key);
    proof {
        assert(key@ =~= walk(pattern@, 0, fact@, 0).0);
    }
    key
}

/// The key of complete atoms is that of the trees which they spell.
pub proof fn keys_compare_trees(a: Seq<u8>, p: int, b: Seq<u8>, q: int)
    requires
        parse_at(a, p) is Some,
        parse_at(b, q) is Some,
    ensures
        walk(a, p, b, q) == (
            specificity(parse_at(a, p).unwrap().0, parse_at(b, q).unwrap().0),
            Some((parse_at(a, p).unwrap().1, parse_at(b, q).unwrap().1)),
        ),
    decreases a.len() - p, 0nat,
{
    lemma_parse_sound(a, p);
    lemma_parse_sound(b, q);
    let x = byte_tag(a[p])->0;
    let y = byte_tag(b[q])->0;
    if x is Arity && x == y {
        let k = x->Arity_0 as nat;
        lemma_parse_row_sound(a, p + 1, k);
        lemma_parse_row_sound(b, q + 1, k);
        row_keys_compare_trees(a, p + 1, b, q + 1, k);
    } else if x is Arity && y is Arity {
        lemma_parse_row_sound(a, p + 1, x->Arity_0 as nat);
        lemma_parse_row_sound(b, q + 1, y->Arity_0 as nat);
    }
}

/// The same of two rows of equal length.
pub proof fn row_keys_compare_trees(a: Seq<u8>, p: int, b: Seq<u8>, q: int, k: nat)
    requires
        0 <= p <= a.len(),
        0 <= q <= b.len(),
        parse_row(a, p, k) is Some,
        parse_row(b, q, k) is Some,
    ensures
        walk_row(a, p, b, q, k) == (
            specificity_all(parse_row(a, p, k).unwrap().0, parse_row(b, q, k).unwrap().0),
            Some((parse_row(a, p, k).unwrap().1, parse_row(b, q, k).unwrap().1)),
        ),
    decreases a.len() - p, k + 1,
{
    if k > 0 {
        let j = (k - 1) as nat;
        if parse_row(a, p, j) is None {
            lemma_parse_row_none(a, p, k, j);
        }
        if parse_row(b, q, j) is None {
            lemma_parse_row_none(b, q, k, j);
        }
        lemma_parse_row_push(a, p, j);
        lemma_parse_row_push(b, q, j);
        lemma_parse_row_sound(a, p, j);
        lemma_parse_row_sound(b, q, j);
        row_keys_compare_trees(a, p, b, q, j);
        let (ps, p2) = parse_row(a, p, j).unwrap();
        let (fs, q2) = parse_row(b, q, j).unwrap();
        keys_compare_trees(a, p2, b, q2);
        let (pk, fk) = (parse_row(a, p, k).unwrap().0, parse_row(b, q, k).unwrap().0);
        assert(pk.drop_last() =~= ps);
        assert(fk.drop_last() =~= fs);
    }
}

/// A fact that is the pattern itself, variable for variable, has a key of
/// zeros.
pub proof fn exact_facts_have_zero_keys(t: Tree)
    ensures
        forall|i: int| 0 <= i < specificity(t, t).len() ==> #[trigger] specificity(t, t)[i] == 0,
    decreases t, 0nat,
{
    if let Tree::Expr(ts) = t {
        exact_rows_have_zero_keys(ts);
        assert forall|i: int| 0 <= i < specificity(t, t).len() implies #[trigger] specificity(t, t)[i]
            == 0 by {
            if i > 0 {
                assert(specificity(t, t)[i] == specificity_all(ts, ts)[i - 1]);
            }
        }
    }
}

/// The same of a row.
pub proof fn exact_rows_have_zero_keys(ts: Seq<Tree>)
    ensures
        forall|i: int|
            0 <= i < specificity_all(ts, ts).len() ==> #[trigger] specificity_all(ts, ts)[i] == 0,
    decreases ts, ts.len(),
{
    if ts.len() > 0 {
        let init = specificity_all(ts.drop_last(), ts.drop_last());
        let last = specificity(ts.last(), ts.last());
        exact_rows_have_zero_keys(ts.drop_last());
        exact_facts_have_zero_keys(ts.last());
        assert forall|i: int| 0 <= i < specificity_all(ts, ts).len() implies #[trigger]
            specificity_all(ts, ts)[i] == 0 by {
            if i < init.len() {
                assert(specificity_all(ts, ts)[i] == init[i]);
            } else {
                assert(specificity_all(ts, ts)[i] == last[i - init.len()]);
            }
        }
    }
}

/// At the first place where two facts differ, the first keeps more of the pattern: it
/// leaves a part of the pattern that is no variable as it is where the second has a
/// variable, or has a variable where the pattern does and the second has none.
pub open spec fn keeps_more(p: Tree, f: Tree, g: Tree) -> bool
    decreases p,
{
    if p is NewVar || p is VarRef {
        (f is NewVar || f is VarRef) && !(g is NewVar || g is VarRef)
    } else if g is NewVar || g is VarRef {
        !(f is NewVar || f is VarRef)
    } else {
        match (p, f, g) {
            (Tree::Expr(ps), Tree::Expr(fs), Tree::Expr(gs)) => {
                &&& ps.len() == fs.len() && ps.len() == gs.len()
                &&& exists|i: int|
                    0 <= i < ps.len() && fs.take(i) == gs.take(i) && keeps_more(
                        #[trigger] ps[i],
                        fs[i],
                        gs[i],
                    )
            },
            _ => false,
        }
    }
}

/// Two keys first differ in a place where the first has the smaller byte.
spec fn parts_below(x: Seq<u8>, y: Seq<u8>, k: int) -> bool {
    0 <= k < x.len() && k < y.len() && x.take(k) == y.take(k) && x[k] < y[k]
}

/// The keys of a row are those of its front and of its rest.
proof fn lemma_key_split(ps: Seq<Tree>, fs: Seq<Tree>, i: int)
    requires
        ps.len() == fs.len(),
        0 <= i <= ps.len(),
    ensures
        specificity_all(ps, fs) == specificity_all(ps.take(i), fs.take(i)) + specificity_all(
            ps.skip(i),
            fs.skip(i),
        ),
{
    if i == ps.len() {
        assert(ps.take(i) =~= ps && fs.take(i) =~= fs);
        assert(ps.skip(i) =~= Seq::empty());
        assert(specificity_all(ps.skip(i), fs.skip(i)) =~= Seq::empty());
        assert(specificity_all(ps, fs) + Seq::<u8>::empty() =~= specificity_all(ps, fs));
    } else {
        lemma_key_split_last(ps, fs, i);
    }
}

/// The same, from the back.
proof fn lemma_key_split_last(ps: Seq<Tree>, fs: Seq<Tree>, i: int)
    requires
        ps.len() == fs.len(),
        0 <= i < ps.len(),
    ensures
        specificity_all(ps, fs) == specificity_all(ps.take(i), fs.take(i)) + specificity_all(
            ps.skip(i),
            fs.skip(i),
        ),
    decreases ps.len(),
{
    let (p0, f0) = (ps.drop_last(), fs.drop_last());
    let (ps2, fs2) = (ps.skip(i), fs.skip(i));
    assert(ps2.last() == ps.last() && fs2.last() == fs.last());
    assert(p0.take(i) =~= ps.take(i) && f0.take(i) =~= fs.take(i));
    assert(p0.skip(i) =~= ps2.drop_last() && f0.skip(i) =~= fs2.drop_last());
    if i < p0.len() {
        lemma_key_split_last(p0, f0, i);
    } else {
        assert(p0.take(i) =~= p0 && f0.take(i) =~= f0);
        assert(ps2.drop_last() =~= Seq::empty());
        assert(specificity_all(ps2.drop_last(), fs2.drop_last()) =~= Seq::empty());
    }
    assert(specificity_all(ps, fs) =~= specificity_all(ps.take(i), fs.take(i)) + specificity_all(
        ps2,
        fs2,
    ));
}

/// The key of a row starts with that of its first tree.
proof fn lemma_key_head(ps: Seq<Tree>, fs: Seq<Tree>) -> (rest: Seq<u8>)
    requires
        ps.len() == fs.len(),
        ps.len() > 0,
    ensures
        specificity_all(ps, fs) == specificity(ps[0], fs[0]) + rest,
{
    lemma_key_split(ps, fs, 1);
    let (p1, f1) = (ps.take(1), fs.take(1));
    assert(p1.drop_last() =~= Seq::empty());
    assert(specificity_all(p1.drop_last(), f1.drop_last()) =~= Seq::empty());
    assert(p1.last() == ps[0] && f1.last() == fs[0]);
    assert(specificity_all(p1, f1) =~= specificity(ps[0], fs[0]));
    specificity_all(ps.skip(1), fs.skip(1))
}

/// Two keys that differ keep the place in which they do behind equal bytes, whatever
/// follows them.
proof fn lemma_below_behind(
    front: Seq<u8>,
    a: Seq<u8>,
    after_a: Seq<u8>,
    b: Seq<u8>,
    after_b: Seq<u8>,
    k: int,
)
    requires
        parts_below(a, b, k),
    ensures
        parts_below(front + a + after_a, front + b + after_b, front.len() + k),
{
    let (x, y) = (front + a + after_a, front + b + after_b);
    let n = front.len() + k;
    assert(x.take(n) =~= front + a.take(k));
    assert(y.take(n) =~= front + b.take(k));
}

/// Where a fact keeps more of the pattern, its key is smaller in the first place in
/// which the keys differ.
proof fn lemma_exact_facts_have_smaller_keys(p: Tree, f: Tree, g: Tree) -> (k: int)
    requires
        keeps_more(p, f, g),
    ensures
        parts_below(specificity(p, f), specificity(p, g), k),
    decreases p,
{
    let (x, y) = (specificity(p, f), specificity(p, g));
    if p is NewVar || p is VarRef || g is NewVar || g is VarRef {
        assert(x.take(0) =~= y.take(0));
        0
    } else {
        let (ps, fs, gs) = (p->Expr_0, f->Expr_0, g->Expr_0);
        let i = choose|i: int|
            0 <= i < ps.len() && fs.take(i) == gs.take(i) && keeps_more(
                #[trigger] ps[i],
                fs[i],
                gs[i],
            );
        let k = lemma_exact_facts_have_smaller_keys(ps[i], fs[i], gs[i]);
        lemma_key_split(ps, fs, i);
        lemma_key_split(ps, gs, i);
        let front = specificity_all(ps.take(i), fs.take(i));
        let rf = lemma_key_head(ps.skip(i), fs.skip(i));
        let rg = lemma_key_head(ps.skip(i), gs.skip(i));
        let (a, b) = (specificity(ps[i], fs[i]), specificity(ps[i], gs[i]));
        lemma_below_behind(seq![0u8] + front, a, rf, b, rg, k);
        assert(x =~= (seq![0u8] + front) + a + rf);
        assert(y =~= (seq![0u8] + front) + b + rg);
        1 + front.len() + k
    }
}

/// A fact that keeps more of the pattern has the smaller key, and so comes first.
pub proof fn exact_facts_come_first(p: Tree, f: Tree, g: Tree)
    requires
        keeps_more(p, f, g),
    ensures
        path_lt(specificity(p, f), specificity(p, g)),
{
    let k = lemma_exact_facts_have_smaller_keys(p, f, g);
    paths_are_ordered_like_words(specificity(p, f), specificity(p, g));
}

/// A key compares the pattern and the fact place by place, and says of each place
/// whether exactly one of the two is a variable there.
pub proof fn keys_tell_where_one_side_is_a_variable(p: Tree, f: Tree)
    ensures
        specificity(p, f).len() > 0,
        specificity(p, f)[0] == if (p is NewVar || p is VarRef) != (f is NewVar || f is VarRef) {
            1u8
        } else {
            0
        },
        p is NewVar || p is VarRef || f is NewVar || f is VarRef || p is Sym || f is Sym
            ==> specificity(p, f).len() == 1,
        p is Expr && f is Expr && p->Expr_0.len() == f->Expr_0.len() ==> specificity(
            p,
            f,
        ).drop_first() == specificity_all(p->Expr_0, f->Expr_0),
{
    if p is Expr && f is Expr && p->Expr_0.len() == f->Expr_0.len() {
        let row = specificity_all(p->Expr_0, f->Expr_0);
        assert((seq![0u8] + row).drop_first() =~= row);
    }
}

} // verus!
