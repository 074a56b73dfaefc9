//! Walks over encoded spans: skipping one encoded atom, telling ground spans
//! apart, and cutting a fact into its columns.
use vstd::prelude::*;
use vstd::slice::{slice_subrange, slice_to_vec};

use crate::tag::{byte_tag, maybe_byte_item, Tag};
use crate::tree::{
    flat, flat_all, lemma_flat_all_take, lemma_parse_row_none, lemma_parse_row_push,
    lemma_parse_row_sound, lemma_parse_sound, parse_at, parse_row, spells, subterm_at, Tree,
};

verus! {

/// Moves `pos` behind the encoded atom that starts there; `None` when no
/// complete atom does.
pub fn skip_encoded_atom(bytes: &[u8], pos: &mut usize) -> (r: Option<()>)
    ensures
        match parse_at(bytes@, *old(pos) as int) {
            Some((_, e)) => r is Some && *final(pos) == e,
            None => r is None,
        },
    decreases bytes@.len() - *old(pos),
{
    let start: usize = *pos;
    if start >= bytes.len() {
        return None;
    }
    match maybe_byte_item(bytes[start]) {
        None => None,
        Some(Tag::NewVar) => {
            *pos = start + 1;
            Some(())
        },
        Some(Tag::VarRef(_)) => {
            *pos = start + 1;
            Some(())
        },
        Some(Tag::SymbolSize(size)) => {
            if (size as usize) > bytes.len() - (start + 1) {
                return None;
            }
            *pos = start + 1 + size as usize;
            Some(())
        },
        Some(Tag::Arity(k)) => {
            let mut at: usize = start + 1;
            let mut i: u8 = 0;
            while i < k
                invariant
                    i <= k,
                    start == *old(pos),
                    start < at <= bytes@.len(),
                    byte_tag(bytes@[start as int]) == Some(Tag::Arity(k)),
                    parse_row(bytes@, start + 1, i as nat) is Some,
                    parse_row(bytes@, start + 1, i as nat).unwrap().1 == at,
                decreases k - i,
            {
                proof {
                    lemma_parse_row_push(bytes@, start + 1, i as nat);
                }
                if skip_encoded_atom(bytes, &mut at).is_none() {
                    proof {
                        lemma_parse_row_none(bytes@, start + 1, k as nat, (i + 1) as nat);
                    }
                    return None;
                }
                proof {
                    lemma_parse_row_sound(bytes@, start + 1, (i + 1) as nat);
                }
                i = i + 1;
            }
            *pos = at;
            Some(())
        },
    }
}

/// Whether the atom at `pos` is complete and ground; if so, moves `pos` behind
/// it.
fn skip_ground(bytes: &[u8], pos: &mut usize) -> (r: bool)
    ensures
        match parse_at(bytes@, *old(pos) as int) {
            Some((t, e)) => r == t.ground() && (r ==> *final(pos) == e),
            None => !r,
        },
    decreases bytes@.len() - *old(pos),
{
    let start: usize = *pos;
    if start >= bytes.len() {
        return false;
    }
    match maybe_byte_item(bytes[start]) {
        None => false,
        Some(Tag::NewVar) => false,
        Some(Tag::VarRef(_)) => false,
        Some(Tag::SymbolSize(size)) => {
            if (size as usize) > bytes.len() - (start + 1) {
                return false;
            }
            *pos = start + 1 + size as usize;
            true
        },
        Some(Tag::Arity(k)) => {
            let mut at: usize = start + 1;
            let mut i: u8 = 0;
            while i < k
                invariant
                    i <= k,
                    start == *old(pos),
                    start < at <= bytes@.len(),
                    byte_tag(bytes@[start as int]) == Some(Tag::Arity(k)),
                    parse_row(bytes@, start + 1, i as nat) is Some,
                    parse_row(bytes@, start + 1, i as nat).unwrap().1 == at,
                    forall|j: int|
                        0 <= j < i ==> (#[trigger] parse_row(
                            bytes@,
                            start + 1,
                            i as nat,
                        ).unwrap().0[j]).ground(),
                decreases k - i,
            {
                let ghost at0 = at as int;
                let ghost before = parse_row(bytes@, start + 1, i as nat).unwrap().0;
                proof {
                    lemma_parse_row_push(bytes@, start + 1, i as nat);
                    lemma_parse_row_sound(bytes@, start + 1, i as nat);
                }
                if !skip_ground(bytes, &mut at) {
                    proof {
                        if parse_at(bytes@, at0) is None {
                            lemma_parse_row_none(bytes@, start + 1, k as nat, (i + 1) as nat);
                        } else if let Some((t, e)) = parse_at(bytes@, start as int) {
                            crate::tree::lemma_parse_row_split(
                                bytes@,
                                start + 1,
                                k as nat,
                                (i + 1) as nat,
                            );
                            assert(t is Expr);
                            assert(t->Expr_0[i as int] == parse_at(bytes@, at0).unwrap().0);
                        }
                    }
                    return false;
                }
                proof {
                    lemma_parse_row_sound(bytes@, start + 1, (i + 1) as nat);
                }
                i = i + 1;
            }
            proof {
                lemma_parse_row_sound(bytes@, start + 1, k as nat);
            }
            *pos = at;
            true
        },
    }
}

/// Whether an encoded span holds only ground items. A ground fact has no
/// helper variables to leak, so the row that captured it needs no rematch.
pub fn span_is_ground(bytes: &[u8]) -> (r: bool)
    ensures
        r == ground_span(bytes@),
{
    let mut pos: usize = 0;
    skip_ground(bytes, &mut pos)
}

/// The bytes start with a complete atom without variables.
pub open spec fn ground_span(b: Seq<u8>) -> bool {
    parse_at(b, 0) matches Some((t, _)) && t.ground()
}

/// The position of the first variable item at or behind item position `p`,
/// stepping item by item so that a symbol's payload is never read as a tag. A
/// reserved byte ends the walk as a variable does.
pub open spec fn first_variable_item(b: Seq<u8>, p: int) -> int
    decreases
            (if p < b.len() {
                b.len() - p
            } else {
                0
            }),
{
    if p >= b.len() {
        p
    } else {
        match byte_tag(b[p]) {
            Some(Tag::Arity(_)) => first_variable_item(b, p + 1),
            Some(Tag::SymbolSize(s)) => first_variable_item(b, p + 1 + s),
            _ => p,
        }
    }
}

/// A walk over items only moves forward.
proof fn lemma_first_variable_ahead(b: Seq<u8>, p: int)
    ensures
        first_variable_item(b, p) >= p,
    decreases
            (if p < b.len() {
                b.len() - p
            } else {
                0
            }),
{
    if p < b.len() {
        match byte_tag(b[p]) {
            Some(Tag::Arity(_)) => lemma_first_variable_ahead(b, p + 1),
            Some(Tag::SymbolSize(s)) => lemma_first_variable_ahead(b, p + 1 + s),
            _ => {},
        }
    }
}

/// A walk passes over an atom without variables, and stops inside any other.
pub proof fn lemma_first_variable_of_atom(b: Seq<u8>, p: int)
    requires
        parse_at(b, p) is Some,
    ensures
        ({
            let (t, e) = parse_at(b, p).unwrap();
            if t.ground() {
                first_variable_item(b, p) == first_variable_item(b, e)
            } else {
                p <= first_variable_item(b, p) < e
            }
        }),
    decreases b.len() - p, 0nat,
{
    lemma_parse_sound(b, p);
    if let Some(Tag::Arity(k)) = byte_tag(b[p]) {
        lemma_parse_row_sound(b, p + 1, k as nat);
        lemma_first_variable_of_row(b, p + 1, k as nat);
        let (t, e) = parse_at(b, p).unwrap();
        let ts = parse_row(b, p + 1, k as nat).unwrap().0;
        assert(t->Expr_0 == ts);
        if !t.ground() {
            let i = choose|i: int| 0 <= i < ts.len() && !(#[trigger] ts[i]).ground();
            assert(!ts[i].ground());
        }
    }
}

/// The same of atoms that follow each other.
pub proof fn lemma_first_variable_of_row(b: Seq<u8>, p: int, k: nat)
    requires
        0 <= p <= b.len(),
        parse_row(b, p, k) is Some,
    ensures
        ({
            let (ts, e) = parse_row(b, p, k).unwrap();
            if forall|i: int| 0 <= i < ts.len() ==> (#[trigger] ts[i]).ground() {
                first_variable_item(b, p) == first_variable_item(b, e)
            } else {
                p <= first_variable_item(b, p) < e
            }
        }),
    decreases b.len() - p, k + 1,
{
    if k > 0 {
        lemma_parse_sound(b, p);
        let (t, e) = parse_at(b, p).unwrap();
        lemma_first_variable_of_atom(b, p);
        lemma_parse_row_sound(b, e, (k - 1) as nat);
        lemma_first_variable_of_row(b, e, (k - 1) as nat);
        let ts = parse_row(b, p, k).unwrap().0;
        let rest = parse_row(b, e, (k - 1) as nat).unwrap().0;
        assert(ts[0] == t);
        assert forall|i: int| 0 < i < ts.len() implies #[trigger] ts[i] == rest[i - 1] by {}
        if forall|i: int| 0 <= i < rest.len() ==> (#[trigger] rest[i]).ground() {
            if t.ground() {
                assert forall|i: int| 0 <= i < ts.len() implies (#[trigger] ts[i]).ground() by {
                    if i > 0 {
                        assert(rest[i - 1].ground());
                    }
                }
            } else {
                assert(!ts[0].ground());
            }
        } else {
            let i = choose|i: int| 0 <= i < rest.len() && !(#[trigger] rest[i]).ground();
            assert(!ts[i + 1].ground());
        }
    }
}

/// The ground prefix of a whole atom lies inside it; of an atom without
/// variables it is the whole.
pub proof fn lemma_ground_prefix_inside(b: Seq<u8>)
    requires
        spells(b),
    ensures
        0 <= first_variable_item(b, 0) <= b.len(),
        first_variable_item(b, 0) == b.len() <==> parse_at(b, 0).unwrap().0.ground(),
{
    lemma_first_variable_of_atom(b, 0);
}

/// Length of an encoded pattern's ground prefix: its bytes up to the first
/// variable item.
pub fn ground_prefix_len(bytes: &[u8]) -> (n: usize)
    requires
        first_variable_item(bytes@, 0) <= usize::MAX,
    ensures
        n == first_variable_item(bytes@, 0),
{
    let mut pos: usize = 0;
    while pos < bytes.len()
        invariant
            first_variable_item(bytes@, 0) <= usize::MAX,
            first_variable_item(bytes@, 0) == first_variable_item(bytes@, pos as int),
        decreases
                (if pos < bytes@.len() {
                    bytes@.len() - pos
                } else {
                    0
                }),
    {
        match maybe_byte_item(bytes[pos]) {
            Some(Tag::Arity(_)) => {
                pos = pos + 1;
            },
            Some(Tag::SymbolSize(size)) => {
                proof {
                    lemma_first_variable_ahead(bytes@, pos + 1 + size);
                }
                pos = pos + 1 + size as usize;
            },
            _ => {
                return pos;
            },
        }
    }
    pos
}

/// Length of the encoded atom at the front of `bytes`.
pub fn fact_subterm_len(bytes: &[u8]) -> (n: usize)
    requires
        parse_at(bytes@, 0) is Some,
    ensures
        n == parse_at(bytes@, 0).unwrap().1,
        n <= bytes@.len(),
{
    let mut pos: usize = 0;
    let _ = skip_encoded_atom(bytes, &mut pos);
    proof {
        lemma_parse_sound(bytes@, 0);
    }
    pos
}

/// The bytes are exactly `n` atoms in a row; the columns are their encodings.
pub open spec fn columns(b: Seq<u8>, n: nat) -> Option<Seq<Seq<u8>>> {
    match parse_row(b, 0, n) {
        Some((ts, e)) => if e == b.len() {
            Some(Seq::new(n, |i: int| flat(ts[i])))
        } else {
            None
        },
        None => None,
    }
}

/// The exec values of a row of byte strings.
pub open spec fn byte_rows(v: Seq<Vec<u8>>) -> Seq<Seq<u8>> {
    Seq::new(v.len(), |i: int| v[i]@)
}

/// Cuts a fact's arguments into `ncols` columns; `None` when the bytes are not
/// exactly that many atoms.
pub fn split_columns(bytes: &[u8], ncols: usize) -> (r: Option<Vec<Vec<u8>>>)
    ensures
        match columns(bytes@, ncols as nat) {
            Some(cols) => r is Some && byte_rows(r->0@) == cols,
            None => r is None,
        },
{
    let mut out: Vec<Vec<u8>> = Vec::new();
    let mut at: usize = 0;
    let mut i: usize = 0;
    while i < ncols
        invariant
            i <= ncols,
            i == out@.len(),
            at <= bytes@.len(),
            parse_row(bytes@, 0, i as nat) is Some,
            parse_row(bytes@, 0, i as nat).unwrap().1 == at,
            parse_row(bytes@, 0, i as nat).unwrap().0.len() == i,
            forall|j: int|
                0 <= j < i ==> (#[trigger] out@[j])@ == flat(
                    parse_row(bytes@, 0, i as nat).unwrap().0[j],
                ),
        decreases ncols - i,
    {
        let start: usize = at;
        proof {
            lemma_parse_row_push(bytes@, 0, i as nat);
        }
        if skip_encoded_atom(bytes, &mut at).is_none() {
            proof {
                lemma_parse_row_none(bytes@, 0, ncols as nat, (i + 1) as nat);
            }
            return None;
        }
        proof {
            lemma_parse_sound(bytes@, start as int);
        }
        out.push(slice_to_vec(slice_subrange(bytes, start, at)));
        i = i + 1;
    }
    if at != bytes.len() {
        return None;
    }
    proof {
        assert(byte_rows(out@) =~= columns(bytes@, ncols as nat)->0);
    }
    Some(out)
}

/// A variable of an atom stands at a place of its bytes.
pub open spec fn variable_at(t: Tree, at: int) -> bool {
    exists|sub: Tree| (sub is NewVar || sub is VarRef) && #[trigger] subterm_at(t, sub, at)
}

/// A variable of a row of atoms stands at a place of its bytes.
spec fn row_variable_at(ts: Seq<Tree>, at: int) -> bool {
    exists|i: int|
        0 <= i < ts.len() && variable_at(#[trigger] ts[i], at - flat_all(ts.take(i)).len())
}

/// The variables of an expression are those of its children.
proof fn lemma_variables_of_children(ts: Seq<Tree>, at: int)
    ensures
        variable_at(Tree::Expr(ts), at) <==> row_variable_at(ts, at - 1),
{
    let t = Tree::Expr(ts);
    if variable_at(t, at) {
        let sub = choose|sub: Tree|
            (sub is NewVar || sub is VarRef) && #[trigger] subterm_at(t, sub, at);
        let i = choose|i: int|
            0 <= i < ts.len() && subterm_at(
                #[trigger] ts[i],
                sub,
                at - 1 - flat_all(ts.take(i)).len(),
            );
        assert(variable_at(ts[i], at - 1 - flat_all(ts.take(i)).len()));
    }
    if row_variable_at(ts, at - 1) {
        let i = choose|i: int|
            0 <= i < ts.len() && variable_at(#[trigger] ts[i], at - 1 - flat_all(ts.take(i)).len());
        let sub = choose|sub: Tree|
            (sub is NewVar || sub is VarRef) && #[trigger] subterm_at(
                ts[i],
                sub,
                at - 1 - flat_all(ts.take(i)).len(),
            );
        let kids = t->Expr_0;
        assert(kids == ts);
        assert(subterm_at(kids[i], sub, at - 1 - flat_all(kids.take(i)).len()));
        assert(subterm_at(t, sub, at));
    }
}

/// The variables of a row are those of its first atom and those of the rest.
proof fn lemma_variables_of_row(ts: Seq<Tree>, at: int)
    requires
        ts.len() > 0,
    ensures
        row_variable_at(ts, at) <==> variable_at(ts[0], at) || row_variable_at(
            ts.drop_first(),
            at - flat(ts[0]).len(),
        ),
{
    let rest = ts.drop_first();
    let q = at - flat(ts[0]).len();
    lemma_flat_all_take(ts, 0);
    if row_variable_at(ts, at) {
        let i = choose|i: int|
            0 <= i < ts.len() && variable_at(#[trigger] ts[i], at - flat_all(ts.take(i)).len());
        if i > 0 {
            lemma_flat_all_take(ts, i - 1);
            assert(rest[i - 1] == ts[i]);
            assert(variable_at(rest[i - 1], q - flat_all(rest.take(i - 1)).len()));
        }
    }
    if variable_at(ts[0], at) {
        assert(variable_at(ts[0], at - flat_all(ts.take(0)).len()));
    }
    if row_variable_at(rest, q) {
        let i = choose|i: int|
            0 <= i < rest.len() && variable_at(#[trigger] rest[i], q - flat_all(rest.take(i)).len());
        lemma_flat_all_take(ts, i);
        assert(rest[i] == ts[i + 1]);
        assert(variable_at(ts[i + 1], at - flat_all(ts.take(i + 1)).len()));
    }
}

/// The first variable item from an atom on is the first of its variables, or, where it
/// has none, the first behind it.
proof fn lemma_first_variable_is_first(b: Seq<u8>, p: int)
    requires
        parse_at(b, p) is Some,
    ensures
        ({
            let (t, e) = parse_at(b, p).unwrap();
            let first = first_variable_item(b, p);
            &&& e == p + flat(t).len()
            &&& forall|at: int| #[trigger] variable_at(t, at) ==> 0 <= at && first <= p + at < e
            &&& first < e ==> variable_at(t, first - p)
            &&& first >= e ==> first == first_variable_item(b, e)
            &&& p <= first
        }),
    decreases b.len() - p, 0nat,
{
    let (t, e) = parse_at(b, p).unwrap();
    let first = first_variable_item(b, p);
    lemma_parse_sound(b, p);
    assert(b.subrange(p, e).len() == flat(t).len());
    lemma_first_variable_ahead(b, p);
    match byte_tag(b[p]) {
        Some(Tag::Arity(k)) => {
            lemma_first_variable_of_row_is_first(b, p + 1, k as nat);
            let ts = t->Expr_0;
            assert forall|at: int| #[trigger] variable_at(t, at) implies 0 <= at && first <= p + at
                < e by {
                lemma_variables_of_children(ts, at);
                assert(row_variable_at(ts, at - 1));
            }
            if first < e {
                lemma_variables_of_children(ts, first - p);
            }
        },
        Some(Tag::SymbolSize(_)) => {
            lemma_first_variable_ahead(b, e);
            assert forall|at: int| #[trigger] variable_at(t, at) implies 0 <= at && first <= p + at
                < e by {}
        },
        _ => {
            assert(subterm_at(t, t, 0));
            assert(variable_at(t, 0));
        },
    }
}

/// The same of a row of atoms.
proof fn lemma_first_variable_of_row_is_first(b: Seq<u8>, p: int, k: nat)
    requires
        0 <= p <= b.len(),
        parse_row(b, p, k) is Some,
    ensures
        ({
            let (ts, e) = parse_row(b, p, k).unwrap();
            let first = first_variable_item(b, p);
            &&& e == p + flat_all(ts).len()
            &&& forall|at: int| #[trigger]
                row_variable_at(ts, at) ==> 0 <= at && first <= p + at < e
            &&& first < e ==> row_variable_at(ts, first - p)
            &&& first >= e ==> first == first_variable_item(b, e)
            &&& p <= first
        }),
    decreases b.len() - p, k + 1,
{
    let (ts, e) = parse_row(b, p, k).unwrap();
    let first = first_variable_item(b, p);
    lemma_first_variable_ahead(b, p);
    if k == 0 {
        assert(flat_all(ts) =~= Seq::<u8>::empty());
    } else {
        let (t, m) = parse_at(b, p).unwrap();
        let rest = parse_row(b, m, (k - 1) as nat).unwrap().0;
        lemma_first_variable_is_first(b, p);
        lemma_first_variable_of_row_is_first(b, m, (k - 1) as nat);
        lemma_parse_row_sound(b, m, (k - 1) as nat);
        lemma_first_variable_ahead(b, m);
        assert(ts.drop_first() =~= rest);
        assert(ts[0] == t);
        assert forall|at: int| #[trigger] row_variable_at(ts, at) implies 0 <= at && first <= p + at
            < e by {
            lemma_variables_of_row(ts, at);
            if variable_at(t, at) {
            } else {
                assert(row_variable_at(rest, at - flat(t).len()));
            }
        }
        if first < e {
            lemma_variables_of_row(ts, first - p);
        }
    }
}

/// The first variable item of an atom's bytes is where its first variable stands; there
/// is none exactly when the atom has no variable.
pub proof fn ground_prefixes_end_at_the_first_variable(b: Seq<u8>)
    requires
        spells(b),
    ensures
        first_variable_item(b, 0) <= b.len(),
        first_variable_item(b, 0) < b.len() ==> variable_at(
            parse_at(b, 0).unwrap().0,
            first_variable_item(b, 0),
        ),
        forall|at: int| #[trigger]
            variable_at(parse_at(b, 0).unwrap().0, at) ==> first_variable_item(b, 0) <= at,
{
    lemma_first_variable_is_first(b, 0);
}

} // verus!
