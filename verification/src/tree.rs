//! The mathematical model of an encoded expression: the tree that a byte
//! sequence spells, the bytes that a tree flattens to, and the proof that the
//! two determine each other.
use vstd::prelude::*;

use crate::tag::{byte_survives_its_tag, byte_tag, tag_byte, tag_survives_its_byte, Tag};

verus! {

/// What the items of an encoding spell: symbols as raw payloads, variables as
/// their introduction and back-reference items.
pub enum Tree {
    Sym(Seq<u8>),
    NewVar,
    VarRef(u8),
    Expr(Seq<Tree>),
}

impl Tree {
    /// Every field of the tree fits the six bits of its item.
    pub open spec fn fits(self) -> bool
        decreases self,
    {
        match self {
            Tree::Sym(raw) => 1 <= raw.len() <= 63,
            Tree::NewVar => true,
            Tree::VarRef(i) => i <= 63,
            Tree::Expr(children) => {
                &&& children.len() <= 63
                &&& forall|i: int| 0 <= i < children.len() ==> (#[trigger] children[i]).fits()
            },
        }
    }

    /// The tree has no variable item.
    pub open spec fn ground(self) -> bool
        decreases self,
    {
        match self {
            Tree::Sym(_) => true,
            Tree::NewVar => false,
            Tree::VarRef(_) => false,
            Tree::Expr(children) => forall|i: int|
                0 <= i < children.len() ==> (#[trigger] children[i]).ground(),
        }
    }

    /// The root is a variable item.
    pub open spec fn is_variable(self) -> bool {
        self is NewVar || self is VarRef
    }
}

/// The preorder bytes of a tree.
pub open spec fn flat(t: Tree) -> Seq<u8>
    decreases t, 0nat,
{
    match t {
        Tree::Sym(raw) => seq![tag_byte(Tag::SymbolSize(raw.len() as u8))] + raw,
        Tree::NewVar => seq![tag_byte(Tag::NewVar)],
        Tree::VarRef(i) => seq![tag_byte(Tag::VarRef(i))],
        Tree::Expr(children) => seq![tag_byte(Tag::Arity(children.len() as u8))] + flat_all(
            children,
        ),
    }
}

/// The preorder bytes of a row of trees.
pub open spec fn flat_all(ts: Seq<Tree>) -> Seq<u8>
    decreases ts, ts.len(),
{
    if ts.len() == 0 {
        Seq::empty()
    } else {
        flat(ts[0]) + flat_all(ts.drop_first())
    }
}

/// Reads the tree that starts at `p` in `b`, with the position behind it.
pub open spec fn parse_at(b: Seq<u8>, p: int) -> Option<(Tree, int)>
    decreases b.len() - p, 0nat,
{
    if p < 0 || p >= b.len() {
        None
    } else {
        match byte_tag(b[p]) {
            None => None,
            Some(Tag::NewVar) => Some((Tree::NewVar, p + 1)),
            Some(Tag::VarRef(i)) => Some((Tree::VarRef(i), p + 1)),
            Some(Tag::SymbolSize(s)) => if p + 1 + s <= b.len() {
                Some((Tree::Sym(b.subrange(p + 1, p + 1 + s)), p + 1 + s))
            } else {
                None
            },
            Some(Tag::Arity(k)) => match parse_row(b, p + 1, k as nat) {
                Some((ts, e)) => Some((Tree::Expr(ts), e)),
                None => None,
            },
        }
    }
}

/// Reads `k` trees that follow each other from `p` on, with the position
/// behind the last.
pub open spec fn parse_row(b: Seq<u8>, p: int, k: nat) -> Option<(Seq<Tree>, int)>
    decreases b.len() - p, k + 1,
{
    if k == 0 {
        Some((Seq::empty(), p))
    } else {
        match parse_at(b, p) {
            Some((t, e)) => if p < e <= b.len() {
                match parse_row(b, e, (k - 1) as nat) {
                    Some((ts, e2)) => Some((seq![t] + ts, e2)),
                    None => None,
                }
            } else {
                None
            },
            None => None,
        }
    }
}

/// The whole of `b` spells exactly one tree.
pub open spec fn spells(b: Seq<u8>) -> bool {
    parse_at(b, 0) matches Some((_, e)) && e == b.len()
}

/// A read tree fits, and the bytes it was read from are its own.
pub proof fn lemma_parse_sound(b: Seq<u8>, p: int)
    requires
        parse_at(b, p) is Some,
    ensures
        ({
            let (t, e) = parse_at(b, p)->0;
            &&& 0 <= p < e <= b.len()
            &&& t.fits()
            &&& b.subrange(p, e) == flat(t)
        }),
    decreases b.len() - p, 0nat,
{
    byte_survives_its_tag(b[p]);
    let (t, e) = parse_at(b, p)->0;
    match byte_tag(b[p])->0 {
        Tag::Arity(k) => {
            lemma_parse_row_sound(b, p + 1, k as nat);
            let (ts, e2) = parse_row(b, p + 1, k as nat)->0;
            assert(b.subrange(p, e) =~= seq![b[p]] + b.subrange(p + 1, e));
        },
        Tag::SymbolSize(s) => {
            assert(b.subrange(p, e) =~= seq![b[p]] + b.subrange(p + 1, e));
        },
        _ => {
            assert(b.subrange(p, e) =~= seq![b[p]]);
        },
    }
}

/// A read row holds as many trees as were asked for; each fits, and the bytes
/// are their own.
pub proof fn lemma_parse_row_sound(b: Seq<u8>, p: int, k: nat)
    requires
        0 <= p <= b.len(),
        parse_row(b, p, k) is Some,
    ensures
        ({
            let (ts, e) = parse_row(b, p, k)->0;
            &&& p <= e <= b.len()
            &&& ts.len() == k
            &&& k > 0 ==> p < e
            &&& forall|i: int| 0 <= i < ts.len() ==> (#[trigger] ts[i]).fits()
            &&& b.subrange(p, e) == flat_all(ts)
        }),
    decreases b.len() - p, k + 1,
{
    if k == 0 {
        assert(b.subrange(p, p) =~= Seq::empty());
    } else {
        lemma_parse_sound(b, p);
        let (t, e) = parse_at(b, p)->0;
        lemma_parse_row_sound(b, e, (k - 1) as nat);
        let (rest, e2) = parse_row(b, e, (k - 1) as nat)->0;
        let ts = seq![t] + rest;
        assert(ts.drop_first() =~= rest);
        assert(b.subrange(p, e2) =~= b.subrange(p, e) + b.subrange(e, e2));
    }
}

/// A tree that fits is read back from its bytes, wherever they stand.
pub proof fn lemma_parse_flat(b: Seq<u8>, p: int, t: Tree)
    requires
        t.fits(),
        0 <= p,
        p + flat(t).len() <= b.len(),
        b.subrange(p, p + flat(t).len()) == flat(t),
    ensures
        parse_at(b, p) == Some((t, p + flat(t).len())),
        flat(t).len() >= 1,
    decreases t, 0nat,
{
    let n = flat(t).len() as int;
    assert(n >= 1);
    assert(b[p] == b.subrange(p, p + n)[0]);
    match t {
        Tree::Sym(raw) => {
            tag_survives_its_byte(Tag::SymbolSize(raw.len() as u8));
            assert(b.subrange(p + 1, p + n) =~= raw) by {
                assert forall|i: int| 0 <= i < raw.len() implies b[p + 1 + i] == raw[i] by {
                    assert(b.subrange(p, p + n)[1 + i] == raw[i]);
                }
            }
        },
        Tree::NewVar => {
            tag_survives_its_byte(Tag::NewVar);
        },
        Tree::VarRef(i) => {
            tag_survives_its_byte(Tag::VarRef(i));
        },
        Tree::Expr(ts) => {
            tag_survives_its_byte(Tag::Arity(ts.len() as u8));
            assert(b.subrange(p + 1, p + n) =~= flat_all(ts)) by {
                assert forall|i: int| 0 <= i < n - 1 implies b[p + 1 + i] == flat_all(ts)[i] by {
                    assert(b.subrange(p, p + n)[1 + i] == flat_all(ts)[i]);
                }
            }
            lemma_parse_row_flat(b, p + 1, ts);
        },
    }
}

/// A row of trees that fit is read back from its bytes, wherever they stand.
pub proof fn lemma_parse_row_flat(b: Seq<u8>, p: int, ts: Seq<Tree>)
    requires
        forall|i: int| 0 <= i < ts.len() ==> (#[trigger] ts[i]).fits(),
        0 <= p,
        p + flat_all(ts).len() <= b.len(),
        b.subrange(p, p + flat_all(ts).len()) == flat_all(ts),
    ensures
        parse_row(b, p, ts.len()) == Some((ts, p + flat_all(ts).len())),
    decreases ts, ts.len(),
{
    let n = flat_all(ts).len() as int;
    if ts.len() == 0 {
        assert(ts =~= Seq::empty());
    } else {
        let rest = ts.drop_first();
        let m = flat(ts[0]).len() as int;
        assert(b.subrange(p, p + m) =~= flat(ts[0])) by {
            assert forall|i: int| 0 <= i < m implies b[p + i] == flat(ts[0])[i] by {
                assert(b.subrange(p, p + n)[i] == flat_all(ts)[i]);
            }
        }
        lemma_parse_flat(b, p, ts[0]);
        assert(b.subrange(p + m, p + n) =~= flat_all(rest)) by {
            assert forall|i: int| 0 <= i < n - m implies b[p + m + i] == flat_all(rest)[i] by {
                assert(b.subrange(p, p + n)[m + i] == flat_all(ts)[m + i]);
            }
        }
        lemma_parse_row_flat(b, p + m, rest);
        assert(seq![ts[0]] + rest =~= ts);
    }
}

/// Trees that fit are equal when their bytes are.
pub proof fn flat_is_injective(s: Tree, t: Tree)
    requires
        s.fits(),
        t.fits(),
        flat(s) == flat(t),
    ensures
        s == t,
{
    let b = flat(s);
    assert(b.subrange(0, b.len() as int) =~= b);
    lemma_parse_flat(b, 0, s);
    lemma_parse_flat(b, 0, t);
}

/// Encodings are self-delimiting: no tree's bytes are a proper prefix of
/// another's.
pub proof fn encodings_are_prefix_free(s: Tree, t: Tree)
    requires
        s.fits(),
        t.fits(),
        flat(s).is_prefix_of(flat(t)),
    ensures
        s == t,
{
    let b = flat(t);
    assert(b.subrange(0, b.len() as int) =~= b);
    lemma_parse_flat(b, 0, s);
    lemma_parse_flat(b, 0, t);
}

/// Reading a row splits at any point inside it: the first `j` trees, then the
/// rest from where they end.
pub proof fn lemma_parse_row_split(b: Seq<u8>, p: int, k: nat, j: nat)
    requires
        j <= k,
        0 <= p <= b.len(),
    ensures
        parse_row(b, p, k) == match parse_row(b, p, j) {
            Some((xs, m)) => match parse_row(b, m, (k - j) as nat) {
                Some((ys, e)) => Some((xs + ys, e)),
                None => None,
            },
            None => None,
        },
    decreases j,
{
    if j == 0 {
        if let Some((ys, e)) = parse_row(b, p, k) {
            assert(Seq::<Tree>::empty() + ys =~= ys);
        }
    } else {
        if let Some((t, e)) = parse_at(b, p) {
            lemma_parse_sound(b, p);
            lemma_parse_row_split(b, e, (k - 1) as nat, (j - 1) as nat);
            if let Some((xs, m)) = parse_row(b, e, (j - 1) as nat) {
                if let Some((ys, e2)) = parse_row(b, m, (k - j) as nat) {
                    assert(seq![t] + (xs + ys) =~= (seq![t] + xs) + ys);
                }
            }
        }
    }
}

/// Reading one more tree behind a row that was read.
pub proof fn lemma_parse_row_push(b: Seq<u8>, p: int, j: nat)
    requires
        0 <= p <= b.len(),
        parse_row(b, p, j) is Some,
    ensures
        parse_row(b, p, j + 1) == match parse_at(b, parse_row(b, p, j).unwrap().1) {
            Some((t, e)) => Some((parse_row(b, p, j).unwrap().0.push(t), e)),
            None => None,
        },
{
    lemma_parse_row_split(b, p, j + 1, j);
    let (xs, m) = parse_row(b, p, j)->0;
    lemma_parse_row_sound(b, p, j);
    assert(parse_row(b, m, 1) == match parse_at(b, m) {
        Some((t, e)) => Some((seq![t], e)),
        None => None,
    }) by {
        reveal_with_fuel(parse_row, 2);
        if let Some((t, e)) = parse_at(b, m) {
            lemma_parse_sound(b, m);
            assert(parse_row(b, e, 0) == Some((Seq::<Tree>::empty(), e)));
            assert(seq![t] + Seq::<Tree>::empty() =~= seq![t]);
        }
    }
    if let Some((t, e)) = parse_at(b, m) {
        assert(xs + seq![t] =~= xs.push(t));
    }
}

/// A row that cannot be read cannot be read any further.
pub proof fn lemma_parse_row_none(b: Seq<u8>, p: int, k: nat, j: nat)
    requires
        j <= k,
        0 <= p <= b.len(),
        parse_row(b, p, j) is None,
    ensures
        parse_row(b, p, k) is None,
{
    lemma_parse_row_split(b, p, k, j);
}

/// Flattening a row distributes over concatenation.
pub proof fn lemma_flat_all_concat(xs: Seq<Tree>, ys: Seq<Tree>)
    ensures
        flat_all(xs + ys) == flat_all(xs) + flat_all(ys),
    decreases xs.len(),
{
    if xs.len() == 0 {
        assert(xs + ys =~= ys);
    } else {
        assert((xs + ys).drop_first() =~= xs.drop_first() + ys);
        lemma_flat_all_concat(xs.drop_first(), ys);
        assert(flat_all(xs + ys) =~= flat_all(xs) + flat_all(ys));
    }
}

/// Flattening a row that ends in `t`.
pub proof fn lemma_flat_all_push(xs: Seq<Tree>, t: Tree)
    ensures
        flat_all(xs.push(t)) == flat_all(xs) + flat(t),
{
    assert(xs.push(t) =~= xs + seq![t]);
    lemma_flat_all_concat(xs, seq![t]);
    assert(seq![t].drop_first() =~= Seq::empty());
    assert(flat_all(seq![t].drop_first()) =~= Seq::empty());
    assert(flat_all(seq![t]) =~= flat(t));
}

/// A subterm of a tree and where its bytes start in those of the tree.
pub open spec fn subterm_at(t: Tree, sub: Tree, at: int) -> bool
    decreases t,
{
    ||| sub == t && at == 0
    ||| match t {
        Tree::Expr(ts) => exists|i: int|
            0 <= i < ts.len() && subterm_at(
                #[trigger] ts[i],
                sub,
                at - 1 - flat_all(ts.take(i)).len(),
            ),
        _ => false,
    }
}

/// A row of bytes starts with those of its first trees.
pub proof fn lemma_flat_all_take(ts: Seq<Tree>, i: int)
    requires
        0 <= i < ts.len(),
    ensures
        flat_all(ts.take(i + 1)).len() == flat(ts[0]).len() + flat_all(
            ts.drop_first().take(i),
        ).len(),
        flat_all(ts.take(0)).len() == 0,
{
    let head = ts.take(i + 1);
    assert(head[0] == ts[0]);
    assert(head.drop_first() =~= ts.drop_first().take(i));
    assert(ts.take(0) =~= Seq::empty());
    assert(flat_all(ts.take(0)) =~= Seq::<u8>::empty());
}

} // verus!
