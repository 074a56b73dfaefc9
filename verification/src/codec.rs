//! What the encoding and the decoding promise together.
use vstd::bytes::{lemma_auto_spec_u64_to_from_le_bytes, spec_u64_to_le_bytes};
use vstd::prelude::*;
use vstd::utf8::{
    decode_utf8, encode_utf8, encode_utf8_decode_utf8, encode_utf8_valid_utf8, valid_utf8,
};

use crate::atom::{Term, Variable};
use crate::decode::{namespaced, raise, raise_all, Reader};
use crate::encode::{
    lower, lower_all, wildcards, wildcards_all, Lowering, Mode, GROUNDED_MARK, GROUNDED_REF_MARK,
};
use crate::registry::{has_mutable, has_variable, part_of, Registry};
use crate::text::{decimal, digit};
use crate::tree::{flat, parse_at, Tree};

verus! {

/// No symbol of the term starts with one of the two marks of grounded values.
pub open spec fn unreserved(t: Term) -> bool
    decreases t,
{
    match t {
        Term::Symbol(name) => encode_utf8(name).len() > 0 ==> encode_utf8(name)[0] > 1,
        Term::Expression(ts, _) => forall|i: int|
            0 <= i < ts.len() ==> unreserved(#[trigger] ts[i]),
        _ => true,
    }
}

/// What is read back of a written term: a symbol as it was; a variable as the
/// one that the reader gives its number; an immutable grounded value as the
/// instance that the registry keeps under its display, or as the symbol of its
/// display where none is kept; a mutable value as itself; an expression of what
/// is read back of its children, unmarked.
pub open spec fn recovered(t: Term, vars: Seq<Variable>, r: Reader) -> Term
    decreases t,
{
    match t {
        Term::Symbol(_) => t,
        Term::Variable(v) => Term::Variable(r.variable(vars.index_of_first(v)->0 as nat)),
        Term::Grounded(g) => if g.mutable {
            t
        } else if r.grounded matches Some(reg) && reg.by_display.contains_key(
            encode_utf8(g.display),
        ) {
            r.grounded->0.by_display[encode_utf8(g.display)]
        } else {
            Term::Symbol(g.display)
        },
        Term::Expression(ts, _) => Term::Expression(
            Seq::new(
                ts.len(),
                |i: int|
                    if 0 <= i < ts.len() {
                        recovered(ts[i], vars, r)
                    } else {
                        arbitrary()
                    },
            ),
            false,
        ),
    }
}

/// What is read back of the children.
pub open spec fn recovered_all(ts: Seq<Term>, vars: Seq<Variable>, r: Reader) -> Seq<Term> {
    Seq::new(ts.len(), |i: int| recovered(ts[i], vars, r))
}

/// An encoding only adds to the variables and to the registry.
pub proof fn lemma_lower_grows(t: Term, s: Lowering, m: Mode)
    ensures
        s.vars.is_prefix_of(lower(t, s, m).0.vars),
        s.reg.within(lower(t, s, m).0.reg),
    decreases t, 0nat,
{
    let s2 = lower(t, s, m).0;
    match t {
        Term::Expression(ts, _) => {
            lemma_lower_all_grows(ts, s, m);
        },
        _ => {
            assert(s.vars =~= s2.vars.take(s.vars.len() as int));
            assert(s.reg.by_id =~= s2.reg.by_id.take(s.reg.by_id.len() as int));
        },
    }
}

/// An encoded row only adds to the variables and to the registry.
pub proof fn lemma_lower_all_grows(ts: Seq<Term>, s: Lowering, m: Mode)
    ensures
        s.vars.is_prefix_of(lower_all(ts, s, m).0.vars),
        s.reg.within(lower_all(ts, s, m).0.reg),
    decreases ts, ts.len(),
{
    if ts.len() == 0 {
        assert(s.vars =~= s.vars.take(s.vars.len() as int));
        assert(s.reg.by_id =~= s.reg.by_id.take(s.reg.by_id.len() as int));
    } else {
        lemma_lower_all_grows(ts.drop_last(), s, m);
        let s1 = lower_all(ts.drop_last(), s, m).0;
        lemma_lower_grows(ts.last(), s1, m);
        let s2 = lower(ts.last(), s1, m).0;
        if lower_all(ts.drop_last(), s, m).1 is Some {
            lemma_prefix_transitive(s.vars, s1.vars, s2.vars);
            lemma_within_transitive(s.reg, s1.reg, s2.reg);
        }
    }
}

/// Being a prefix is transitive.
proof fn lemma_prefix_transitive<A>(a: Seq<A>, b: Seq<A>, c: Seq<A>)
    requires
        a.is_prefix_of(b),
        b.is_prefix_of(c),
    ensures
        a.is_prefix_of(c),
{
    assert(a =~= c.take(a.len() as int)) by {
        assert forall|i: int| 0 <= i < a.len() implies a[i] == c[i] by {
            assert(a[i] == b.take(a.len() as int)[i]);
            assert(b[i] == c.take(b.len() as int)[i]);
        }
    }
}

/// What one registry keeps of another, it keeps of a third.
pub proof fn lemma_within_transitive(a: Registry, b: Registry, c: Registry)
    requires
        a.within(b),
        b.within(c),
    ensures
        a.within(c),
{
    lemma_prefix_transitive(a.by_id, b.by_id, c.by_id);
    assert forall|k: Seq<u8>| #[trigger]
        a.by_display.dom().contains(k) implies c.by_display.dom().contains(k)
        && a.by_display[k] == c.by_display[k] by {
        assert(b.by_display.dom().contains(k));
    }
}

/// A variable keeps its number when more variables follow.
proof fn lemma_number_is_stable(a: Seq<Variable>, b: Seq<Variable>, v: Variable)
    requires
        a.is_prefix_of(b),
        a.contains(v),
    ensures
        b.index_of_first(v) == a.index_of_first(v),
        a.index_of_first(v) is Some,
{
    a.index_of_first_ensures(v);
    b.index_of_first_ensures(v);
    let i = a.index_of_first(v)->0;
    assert(a =~= b.take(a.len() as int));
    assert(b[i] == a[i]);
    assert(b.contains(v));
    let j = b.index_of_first(v)->0;
    if j < i {
        assert(a[j] == b[j]);
    }
}

/// Reading a written term back.
///
/// The reader sees everything that the writer kept, and has introduced as many
/// variables as the writer had.
pub proof fn written_terms_read_back(t: Term, s: Lowering, m: Mode, vars: Seq<Variable>, r: Reader)
    requires
        lower(t, s, m).1 is Some,
        unreserved(t),
        lower(t, s, m).0.vars.is_prefix_of(vars),
        r.evaluated is None,
        m is Store ==> (r.grounded matches Some(reg) && lower(t, s, m).0.reg.within(reg)),
        lower(t, s, m).0.reg.by_id.len() <= u64::MAX,
        !(m is Store) ==> !has_mutable(t),
    ensures
        raise(lower(t, s, m).1->0, r, s.vars.len()) == Some(
            (recovered(t, vars, r), lower(t, s, m).0.vars.len()),
        ),
    decreases t, 0nat,
{
    let (s2, tree) = lower(t, s, m);
    match t {
        Term::Symbol(name) => {
            encode_utf8_valid_utf8(name);
            encode_utf8_decode_utf8(name);
        },
        Term::Variable(v) => {
            s.vars.index_of_first_ensures(v);
            if s.vars.contains(v) {
                lemma_number_is_stable(s.vars, vars, v);
            } else {
                let n = s.vars.len() as int;
                s2.vars.index_of_first_ensures(v);
                assert(s2.vars[n] == v);
                assert(s2.vars.contains(v));
                let j = s2.vars.index_of_first(v)->0;
                if j < n {
                    assert(s.vars[j] == v);
                }
                lemma_number_is_stable(s2.vars, vars, v);
            }
        },
        Term::Grounded(g) => {
            if g.mutable {
                lemma_auto_spec_u64_to_from_le_bytes();
                let id = s.reg.by_id.len() as u64;
                let raw = tree->0->Sym_0;
                assert(raw.drop_first() =~= vstd::bytes::spec_u64_to_le_bytes(id));
                let reg = r.grounded->0;
                assert(s2.reg.by_id[id as int] == t);
                assert(reg.by_id[id as int] == reg.by_id.take(s2.reg.by_id.len() as int)[id as int]);
            } else {
                let key = encode_utf8(g.display);
                encode_utf8_valid_utf8(g.display);
                encode_utf8_decode_utf8(g.display);
                let raw = tree->0->Sym_0;
                assert(raw.drop_first() =~= key);
            }
        },
        Term::Expression(ts, _) => {
            assert forall|i: int| 0 <= i < ts.len() implies unreserved(#[trigger] ts[i]) && (!(
            m is Store) ==> !has_mutable(ts[i])) by {}
            written_rows_read_back(ts, s, m, vars, r);
            assert(recovered(t, vars, r)->Expression_0 =~= recovered_all(ts, vars, r));
        },
    }
}

/// Reading a written row of terms back.
pub proof fn written_rows_read_back(
    ts: Seq<Term>,
    s: Lowering,
    m: Mode,
    vars: Seq<Variable>,
    r: Reader,
)
    requires
        lower_all(ts, s, m).1 is Some,
        forall|i: int| 0 <= i < ts.len() ==> unreserved(#[trigger] ts[i]),
        lower_all(ts, s, m).0.vars.is_prefix_of(vars),
        r.evaluated is None,
        m is Store ==> (r.grounded matches Some(reg) && lower_all(ts, s, m).0.reg.within(reg)),
        lower_all(ts, s, m).0.reg.by_id.len() <= u64::MAX,
        !(m is Store) ==> forall|i: int| 0 <= i < ts.len() ==> !has_mutable(#[trigger] ts[i]),
    ensures
        raise_all(lower_all(ts, s, m).1->0, r, s.vars.len()) == Some(
            (recovered_all(ts, vars, r), lower_all(ts, s, m).0.vars.len()),
        ),
    decreases ts, ts.len(),
{
    if ts.len() == 0 {
        assert(recovered_all(ts, vars, r) =~= Seq::empty());
    } else {
        let init = ts.drop_last();
        let s1 = lower_all(init, s, m).0;
        let (s2, _) = lower(ts.last(), s1, m);
        lemma_lower_grows(ts.last(), s1, m);
        lemma_prefix_transitive(s1.vars, s2.vars, vars);
        if m is Store {
            lemma_within_transitive(s1.reg, s2.reg, r.grounded->0);
        }
        assert forall|i: int| 0 <= i < init.len() implies unreserved(#[trigger] init[i]) && (!(
        m is Store) ==> !has_mutable(init[i])) by {
            assert(init[i] == ts[i]);
        }
        assert(ts.last() == ts[ts.len() - 1]);
        written_rows_read_back(init, s, m, vars, r);
        written_terms_read_back(ts.last(), s1, m, vars, r);
        let trees = lower_all(ts, s, m).1->0;
        assert(trees.drop_last() =~= lower_all(init, s, m).1->0);
        assert(recovered_all(ts, vars, r) =~= recovered_all(init, vars, r).push(
            recovered(ts.last(), vars, r),
        ));
    }
}

/// Every child of the term is read back by the registry as the very instance
/// that it is, no variable stands in it, and nothing in it is marked.
pub open spec fn literal(t: Term, reg: Registry) -> bool
    decreases t,
{
    match t {
        Term::Symbol(_) => true,
        Term::Variable(_) => false,
        Term::Grounded(g) => g.mutable || (reg.by_display.contains_key(encode_utf8(g.display))
            && reg.by_display[encode_utf8(g.display)] == t),
        Term::Expression(ts, evaluated) => !evaluated && forall|i: int|
            0 <= i < ts.len() ==> literal(#[trigger] ts[i], reg),
    }
}

/// A term without variables whose grounded values are the kept instances is
/// read back exactly.
pub proof fn literal_terms_survive(t: Term, vars: Seq<Variable>, r: Reader)
    requires
        r.grounded matches Some(reg) && literal(t, reg),
    ensures
        recovered(t, vars, r) == t,
    decreases t,
{
    if let Term::Expression(ts, _) = t {
        assert forall|i: int| 0 <= i < ts.len() implies recovered(ts[i], vars, r) == ts[i] by {
            literal_terms_survive(ts[i], vars, r);
        }
        assert(recovered(t, vars, r)->Expression_0 =~= ts);
    }
}

/// The query's own variables come back from namespace zero as themselves.
pub proof fn query_variables_survive(v: Variable, vars: Seq<Variable>, r: Reader)
    requires
        r.ns == 0,
        r.query_vars == vars,
        vars.contains(v),
    ensures
        recovered(Term::Variable(v), vars, r) == Term::Variable(v),
{
    vars.index_of_first_ensures(v);
}

/// A stored atom's bytes are ground exactly when no variable stands in it.
pub proof fn ground_bytes_have_no_variable(t: Term, s: Lowering, m: Mode)
    requires
        lower(t, s, m).1 is Some,
        !(m is Query),
    ensures
        lower(t, s, m).1->0.ground() == !has_variable(t),
    decreases t, 0nat,
{
    if let Term::Expression(ts, _) = t {
        ground_rows_have_no_variable(ts, s, m);
        let tree = lower(t, s, m).1->0;
        let trees = lower_all(ts, s, m).1->0;
        assert(tree == Tree::Expr(trees));
        assert(tree->Expr_0 == trees);
        assert(t->Expression_0 == ts);
        if has_variable(t) {
            let i = choose|i: int| 0 <= i < ts.len() && has_variable(#[trigger] ts[i]);
            assert(!trees[i].ground());
        } else {
            assert forall|i: int| 0 <= i < trees.len() implies (#[trigger] trees[i]).ground() by {
                assert(!has_variable(ts[i]));
            }
        }
    }
}

/// The same of a row of atoms.
pub proof fn ground_rows_have_no_variable(ts: Seq<Term>, s: Lowering, m: Mode)
    requires
        lower_all(ts, s, m).1 is Some,
        !(m is Query),
    ensures
        lower_all(ts, s, m).1->0.len() == ts.len(),
        forall|i: int|
            #![trigger ts[i]]
            #![trigger lower_all(ts, s, m).1->0[i]]
            0 <= i < ts.len() ==> lower_all(ts, s, m).1->0[i].ground() == !has_variable(ts[i]),
    decreases ts, ts.len(),
{
    if ts.len() > 0 {
        let init = ts.drop_last();
        ground_rows_have_no_variable(init, s, m);
        ground_bytes_have_no_variable(ts.last(), lower_all(init, s, m).0, m);
        let trees = lower_all(ts, s, m).1->0;
        let front = lower_all(init, s, m).1->0;
        assert forall|i: int| 0 <= i < ts.len() implies trees[i].ground() == !has_variable(
            #[trigger] ts[i],
        ) by {
            if i < init.len() {
                assert(init[i] == ts[i]);
                assert(front[i] == trees[i]);
            } else {
                assert(ts[i] == ts.last());
            }
        }
    }
}

/// A symbol's payload is what its mark calls for.
pub open spec fn readable_symbol(raw: Seq<u8>) -> bool {
    if raw.len() > 0 && raw[0] == GROUNDED_MARK {
        valid_utf8(raw.drop_first())
    } else if raw.len() > 0 && raw[0] == GROUNDED_REF_MARK {
        raw.len() == 9
    } else {
        valid_utf8(raw)
    }
}

/// Every symbol of the tree can be read.
pub open spec fn readable_tree(t: Tree) -> bool
    decreases t,
{
    match t {
        Tree::Sym(raw) => readable_symbol(raw),
        Tree::Expr(ts) => forall|i: int| 0 <= i < ts.len() ==> readable_tree(#[trigger] ts[i]),
        _ => true,
    }
}

/// The bytes spell one tree, and it can be read.
pub open spec fn readable_path(b: Seq<u8>) -> bool {
    parse_at(b, 0) matches Some((t, e)) && e == b.len() && readable_tree(t)
}

/// Whether a tree can be read does not depend on the reader.
pub proof fn readable_trees_are_read(t: Tree, r: Reader, n: nat)
    ensures
        raise(t, r, n) is Some <==> readable_tree(t),
    decreases t, 0nat,
{
    if let Tree::Expr(ts) = t {
        lemma_readable_rows(ts, r, n);
        assert(t->Expr_0 == ts);
    }
}

/// The same of a row of trees.
proof fn lemma_readable_rows(ts: Seq<Tree>, r: Reader, n: nat)
    ensures
        raise_all(ts, r, n) is Some <==> forall|i: int|
            0 <= i < ts.len() ==> readable_tree(#[trigger] ts[i]),
    decreases ts, ts.len(),
{
    if ts.len() > 0 {
        let init = ts.drop_last();
        lemma_readable_rows(init, r, n);
        if let Some((_, n1)) = raise_all(init, r, n) {
            readable_trees_are_read(ts.last(), r, n1);
            assert forall|i: int| 0 <= i < init.len() implies readable_tree(#[trigger] ts[i]) by {
                assert(readable_tree(init[i]));
            }
            assert(ts.last() == ts[ts.len() - 1]);
        } else {
            let i = choose|i: int| 0 <= i < init.len() && !readable_tree(#[trigger] init[i]);
            assert(!readable_tree(ts[i]));
        }
    }
}

/// What is written can be read.
pub proof fn written_terms_are_readable(t: Term, s: Lowering, m: Mode)
    requires
        lower(t, s, m).1 is Some,
        unreserved(t),
    ensures
        readable_tree(lower(t, s, m).1->0),
    decreases t, 0nat,
{
    let tree = lower(t, s, m).1->0;
    match t {
        Term::Symbol(name) => {
            encode_utf8_valid_utf8(name);
        },
        Term::Grounded(g) => {
            encode_utf8_valid_utf8(g.display);
            lemma_auto_spec_u64_to_from_le_bytes();
            if tree is Sym && tree->Sym_0[0] == GROUNDED_MARK {
                assert(tree->Sym_0.drop_first() =~= encode_utf8(g.display));
            }
        },
        Term::Expression(ts, _) => {
            assert forall|i: int| 0 <= i < ts.len() implies unreserved(#[trigger] ts[i]) by {
                assert(t->Expression_0[i] == ts[i]);
            }
            lemma_written_rows_are_readable(ts, s, m);
            let trees = lower_all(ts, s, m).1->0;
            assert(tree == Tree::Expr(trees));
            assert(tree->Expr_0 == trees);
        },
        _ => {},
    }
}

/// The same of a row of terms.
proof fn lemma_written_rows_are_readable(ts: Seq<Term>, s: Lowering, m: Mode)
    requires
        lower_all(ts, s, m).1 is Some,
        forall|i: int| 0 <= i < ts.len() ==> unreserved(#[trigger] ts[i]),
    ensures
        forall|i: int|
            0 <= i < lower_all(ts, s, m).1->0.len() ==> readable_tree(
                #[trigger] lower_all(ts, s, m).1->0[i],
            ),
    decreases ts, ts.len(),
{
    if ts.len() > 0 {
        let init = ts.drop_last();
        assert forall|i: int| 0 <= i < init.len() implies unreserved(#[trigger] init[i]) by {
            assert(init[i] == ts[i]);
        }
        assert(ts.last() == ts[ts.len() - 1]);
        lemma_written_rows_are_readable(init, s, m);
        written_terms_are_readable(ts.last(), lower_all(init, s, m).0, m);
        let (front, all) = (lower_all(init, s, m).1->0, lower_all(ts, s, m).1->0);
        assert forall|i: int| 0 <= i < all.len() implies readable_tree(#[trigger] all[i]) by {
            if i < front.len() {
                assert(all[i] == front[i]);
            }
        }
    }
}

/// The bytes of what is written can be read.
pub proof fn written_paths_are_readable(t: Term, s: Lowering, m: Mode)
    requires
        lower(t, s, m).1 is Some,
        unreserved(t),
    ensures
        readable_path(flat(lower(t, s, m).1->0)),
{
    let tree = lower(t, s, m).1->0;
    written_terms_are_readable(t, s, m);
    crate::encode::lemma_lower_fits(t, s, m);
    let b = flat(tree);
    assert(b.subrange(0, b.len() as int) =~= b);
    crate::tree::lemma_parse_flat(b, 0, tree);
}

/// Without mutable values the modes agree: a term is queried and removed by the
/// bytes under which it is stored, whatever the registry holds.
pub proof fn modes_agree(t: Term, s1: Lowering, m1: Mode, s2: Lowering, m2: Mode)
    requires
        !has_mutable(t),
        s1.vars == s2.vars,
    ensures
        lower(t, s1, m1).1 == lower(t, s2, m2).1,
        lower(t, s1, m1).0.vars == lower(t, s2, m2).0.vars,
        lower(t, s1, m1).0.refs == s1.refs,
        lower(t, s2, m2).0.refs == s2.refs,
    decreases t, 0nat,
{
    if let Term::Expression(ts, _) = t {
        assert forall|i: int| 0 <= i < ts.len() implies !has_mutable(#[trigger] ts[i]) by {
            assert(t->Expression_0[i] == ts[i]);
        }
        modes_agree_on_rows(ts, s1, m1, s2, m2);
    }
}

/// The same of a row of terms.
pub proof fn modes_agree_on_rows(ts: Seq<Term>, s1: Lowering, m1: Mode, s2: Lowering, m2: Mode)
    requires
        forall|i: int| 0 <= i < ts.len() ==> !has_mutable(#[trigger] ts[i]),
        s1.vars == s2.vars,
    ensures
        lower_all(ts, s1, m1).1 == lower_all(ts, s2, m2).1,
        lower_all(ts, s1, m1).0.vars == lower_all(ts, s2, m2).0.vars,
        lower_all(ts, s1, m1).0.refs == s1.refs,
        lower_all(ts, s2, m2).0.refs == s2.refs,
    decreases ts, ts.len(),
{
    if ts.len() > 0 {
        let init = ts.drop_last();
        assert forall|i: int| 0 <= i < init.len() implies !has_mutable(#[trigger] init[i]) by {
            assert(init[i] == ts[i]);
        }
        assert(ts.last() == ts[ts.len() - 1]);
        modes_agree_on_rows(init, s1, m1, s2, m2);
        modes_agree(
            ts.last(),
            lower_all(init, s1, m1).0,
            m1,
            lower_all(init, s2, m2).0,
            m2,
        );
    }
}

/// Without mutable values an encoding keeps the ids as they are.
pub proof fn lemma_lower_keeps_ids(t: Term, s: Lowering, m: Mode)
    requires
        !has_mutable(t),
    ensures
        lower(t, s, m).0.reg.by_id == s.reg.by_id,
    decreases t, 0nat,
{
    match t {
        Term::Expression(ts, _) => {
            assert forall|i: int| 0 <= i < ts.len() implies !has_mutable(#[trigger] ts[i]) by {
                assert(t->Expression_0[i] == ts[i]);
            }
            lemma_lower_all_keeps_ids(ts, s, m);
        },
        _ => {},
    }
}

/// The same of a row of terms.
proof fn lemma_lower_all_keeps_ids(ts: Seq<Term>, s: Lowering, m: Mode)
    requires
        forall|i: int| 0 <= i < ts.len() ==> !has_mutable(#[trigger] ts[i]),
    ensures
        lower_all(ts, s, m).0.reg.by_id == s.reg.by_id,
    decreases ts, ts.len(),
{
    if ts.len() > 0 {
        let init = ts.drop_last();
        assert forall|i: int| 0 <= i < init.len() implies !has_mutable(#[trigger] init[i]) by {
            assert(init[i] == ts[i]);
        }
        assert(ts.last() == ts[ts.len() - 1]);
        lemma_lower_all_keeps_ids(init, s, m);
        lemma_lower_keeps_ids(ts.last(), lower_all(init, s, m).0, m);
    }
}

/// Mutable values are stored by identity: a term that holds one is encoded
/// differently whenever other ids have been given out.
pub proof fn cells_are_stored_by_identity(t: Term, s1: Lowering, s2: Lowering)
    requires
        has_mutable(t),
        s1.reg.by_id.len() != s2.reg.by_id.len(),
        s1.reg.by_id.len() <= u64::MAX,
        s2.reg.by_id.len() <= u64::MAX,
        lower(t, s1, Mode::Store).1 is Some,
        lower(t, s2, Mode::Store).1 is Some,
    ensures
        lower(t, s1, Mode::Store).1 != lower(t, s2, Mode::Store).1,
    decreases t, 0nat,
{
    match t {
        Term::Grounded(g) => {
            lemma_auto_spec_u64_to_from_le_bytes();
            let (a, b) = (s1.reg.by_id.len() as u64, s2.reg.by_id.len() as u64);
            let (x, y) = (
                lower(t, s1, Mode::Store).1->0->Sym_0,
                lower(t, s2, Mode::Store).1->0->Sym_0,
            );
            assert(x.drop_first() =~= vstd::bytes::spec_u64_to_le_bytes(a));
            assert(y.drop_first() =~= vstd::bytes::spec_u64_to_le_bytes(b));
            assert(vstd::bytes::spec_u64_from_le_bytes(x.drop_first()) == a);
            assert(vstd::bytes::spec_u64_from_le_bytes(y.drop_first()) == b);
        },
        Term::Expression(ts, _) => {
            let i = choose|i: int| 0 <= i < ts.len() && has_mutable(#[trigger] ts[i]);
            lemma_rows_with_cells_differ(ts, s1, s2, i);
            crate::encode::lemma_lower_all_fits(ts, s1, Mode::Store);
            assert(lower(t, s1, Mode::Store).1->0->Expr_0 == lower_all(ts, s1, Mode::Store).1->0);
            assert(lower(t, s2, Mode::Store).1->0->Expr_0 == lower_all(ts, s2, Mode::Store).1->0);
        },
        _ => {},
    }
}

/// The same of a row in which some term holds a mutable value.
proof fn lemma_rows_with_cells_differ(ts: Seq<Term>, s1: Lowering, s2: Lowering, i: int)
    requires
        0 <= i < ts.len(),
        has_mutable(ts[i]),
        s1.reg.by_id.len() != s2.reg.by_id.len(),
        s1.reg.by_id.len() <= u64::MAX,
        s2.reg.by_id.len() <= u64::MAX,
        lower_all(ts, s1, Mode::Store).1 is Some,
        lower_all(ts, s2, Mode::Store).1 is Some,
    ensures
        lower_all(ts, s1, Mode::Store).1 != lower_all(ts, s2, Mode::Store).1,
    decreases ts, ts.len(),
{
    let init = ts.drop_last();
    let m = Mode::Store;
    if exists|j: int| 0 <= j < init.len() && has_mutable(#[trigger] init[j]) {
        let j = choose|j: int| 0 <= j < init.len() && has_mutable(#[trigger] init[j]);
        lemma_rows_with_cells_differ(init, s1, s2, j);
        let (a, b) = (lower_all(ts, s1, m).1->0, lower_all(ts, s2, m).1->0);
        assert(a.drop_last() =~= lower_all(init, s1, m).1->0);
        assert(b.drop_last() =~= lower_all(init, s2, m).1->0);
    } else {
        if i < init.len() {
            assert(init[i] == ts[i]);
        }
        lemma_lower_all_keeps_ids(init, s1, m);
        lemma_lower_all_keeps_ids(init, s2, m);
        assert(ts.last() == ts[i]);
        cells_are_stored_by_identity(
            ts.last(),
            lower_all(init, s1, m).0,
            lower_all(init, s2, m).0,
        );
        let (a, b) = (lower_all(ts, s1, m).1->0, lower_all(ts, s2, m).1->0);
        assert(a.last() == lower(ts.last(), lower_all(init, s1, m).0, m).1->0);
        assert(b.last() == lower(ts.last(), lower_all(init, s2, m).0, m).1->0);
    }
}

/// A stored term with a mutable value takes up an id.
pub proof fn lemma_cells_take_ids(t: Term, s: Lowering)
    requires
        has_mutable(t),
        lower(t, s, Mode::Store).1 is Some,
    ensures
        s.reg.by_id.len() < lower(t, s, Mode::Store).0.reg.by_id.len(),
    decreases t, 0nat,
{
    if let Term::Expression(ts, _) = t {
        let i = choose|i: int| 0 <= i < ts.len() && has_mutable(#[trigger] ts[i]);
        lemma_rows_with_cells_take_ids(ts, s, i);
    }
}

/// The same of a row in which some term holds a mutable value.
proof fn lemma_rows_with_cells_take_ids(ts: Seq<Term>, s: Lowering, i: int)
    requires
        0 <= i < ts.len(),
        has_mutable(ts[i]),
        lower_all(ts, s, Mode::Store).1 is Some,
    ensures
        s.reg.by_id.len() < lower_all(ts, s, Mode::Store).0.reg.by_id.len(),
    decreases ts, ts.len(),
{
    let init = ts.drop_last();
    let s1 = lower_all(init, s, Mode::Store).0;
    lemma_lower_all_grows(init, s, Mode::Store);
    lemma_lower_grows(ts.last(), s1, Mode::Store);
    if i < init.len() {
        assert(init[i] == ts[i]);
        lemma_rows_with_cells_take_ids(init, s, i);
    } else {
        lemma_cells_take_ids(ts.last(), s1);
    }
}

/// The marks of evaluated expressions survive: read back with the spans that its
/// encoding recorded, an evaluated expression is marked as evaluated.
pub proof fn evaluated_marks_survive(t: Term, s: Lowering, m: Mode, r: Reader, n: nat)
    requires
        t matches Term::Expression(_, evaluated) && evaluated,
        lower(t, s, m).1 is Some,
        r.evaluated matches Some(spans) && forall|x: Seq<u8>| #[trigger]
            lower(t, s, m).0.spans.contains(x) ==> spans.contains(x),
        raise(lower(t, s, m).1->0, r, n) is Some,
    ensures
        raise(lower(t, s, m).1->0, r, n).unwrap().0 matches Term::Expression(_, marked) && marked,
{
    let (s2, tree) = lower(t, s, m);
    let ts = t->Expression_0;
    let inner = lower_all(ts, s, m).0;
    assert(s2.spans == inner.spans.push(flat(tree->0)));
    assert(s2.spans[s2.spans.len() - 1] == flat(tree->0));
    assert(s2.spans.contains(flat(tree->0)));
}

/// What a registry keeps under a display stays: the first instance wins.
pub proof fn first_instances_win(r: Registry, t: Term)
    ensures
        r.within(r.register(t)),
    decreases t, 0nat,
{
    match t {
        Term::Expression(ts, _) => {
            lemma_register_all_grows(r, ts);
        },
        _ => {
            assert(r.by_id =~= r.by_id.take(r.by_id.len() as int));
        },
    }
}

/// The same of a row of terms.
proof fn lemma_register_all_grows(r: Registry, ts: Seq<Term>)
    ensures
        r.within(r.register_all(ts)),
    decreases ts, ts.len(),
{
    if ts.len() == 0 {
        assert(r.by_id =~= r.by_id.take(r.by_id.len() as int));
    } else {
        let r1 = r.register_all(ts.drop_last());
        lemma_register_all_grows(r, ts.drop_last());
        first_instances_win(r1, ts.last());
        lemma_within_transitive(r, r1, r1.register(ts.last()));
    }
}

/// A numeral is made of digits.
proof fn lemma_decimal_digits(n: nat)
    ensures
        decimal(n).len() > 0,
        forall|i: int| 0 <= i < decimal(n).len() ==> 48 <= #[trigger] decimal(n)[i] as int <= 57,
    decreases n,
{
    if n >= 10 {
        lemma_decimal_digits(n / 10);
    }
}

/// Different numbers have different numerals.
pub proof fn numerals_differ(a: nat, b: nat)
    requires
        decimal(a) == decimal(b),
    ensures
        a == b,
    decreases a + b,
{
    lemma_decimal_digits(a / 10);
    lemma_decimal_digits(b / 10);
    assert(decimal(a).last() == decimal(b).last());
    assert(digit(a % 10) as int == 48 + a % 10);
    assert(digit(b % 10) as int == 48 + b % 10);
    assert(decimal(a).last() == digit(a % 10)) by {
        if a < 10 {
            assert(a % 10 == a);
        }
    }
    assert(decimal(b).last() == digit(b % 10)) by {
        if b < 10 {
            assert(b % 10 == b);
        }
    }
    if a < 10 && b < 10 {
    } else if a >= 10 && b >= 10 {
        assert(decimal(a).drop_last() =~= decimal(a / 10));
        assert(decimal(b).drop_last() =~= decimal(b / 10));
        numerals_differ(a / 10, b / 10);
    } else {
        assert(decimal(a).len() == decimal(b).len());
    }
}

/// Data variables never collide: the name of one tells its namespace and its
/// number.
pub proof fn data_variables_never_collide(ns1: u8, i: nat, ns2: u8, j: nat)
    requires
        namespaced(ns1, i) == namespaced(ns2, j),
    ensures
        ns1 == ns2,
        i == j,
{
    reveal_strlit("v");
    reveal_strlit("_");
    let (a, b) = (decimal(ns1 as nat), decimal(ns2 as nat));
    let (c, d) = (decimal(i), decimal(j));
    let (x, y) = (namespaced(ns1, i), namespaced(ns2, j));
    lemma_decimal_digits(ns1 as nat);
    lemma_decimal_digits(ns2 as nat);
    assert(x[1 + a.len() as int] == '_');
    assert(y[1 + b.len() as int] == '_');
    if a.len() < b.len() {
        assert(y[1 + a.len() as int] == b[a.len() as int]);
    } else if b.len() < a.len() {
        assert(x[1 + b.len() as int] == a[b.len() as int]);
    }
    assert(a =~= b) by {
        assert forall|k: int| 0 <= k < a.len() implies a[k] == b[k] by {
            assert(x[1 + k] == a[k]);
            assert(y[1 + k] == b[k]);
        }
    }
    assert(x.len() == 2 + a.len() + c.len());
    assert(y.len() == 2 + b.len() + d.len());
    assert(c =~= d) by {
        assert forall|k: int| 0 <= k < c.len() implies c[k] == d[k] by {
            assert(x[2 + a.len() + k] == c[k]);
            assert(y[2 + b.len() + k] == d[k]);
        }
    }
    numerals_differ(ns1 as nat, ns2 as nat);
    numerals_differ(i, j);
}

/// Coreference survives: outside namespace zero two variables of an atom are
/// read back as one variable exactly when they are one variable.
pub proof fn coreference_survives(v: Variable, w: Variable, vars: Seq<Variable>, r: Reader)
    requires
        r.ns != 0,
        vars.contains(v),
        vars.contains(w),
    ensures
        recovered(Term::Variable(v), vars, r) == recovered(Term::Variable(w), vars, r) <==> v == w,
{
    vars.index_of_first_ensures(v);
    vars.index_of_first_ensures(w);
    let (i, j) = (vars.index_of_first(v)->0, vars.index_of_first(w)->0);
    if recovered(Term::Variable(v), vars, r) == recovered(Term::Variable(w), vars, r) {
        assert(r.variable(i as nat).name == r.variable(j as nat).name);
        data_variables_never_collide(r.ns, i as nat, r.ns, j as nat);
    }
}

/// Two results with different ids share no data variable.
pub proof fn results_share_no_data_variable(r1: Reader, i: nat, r2: Reader, j: nat)
    requires
        r1.ns != 0,
        r2.ns != 0,
        r1.result_id != r2.result_id,
    ensures
        r1.variable(i) != r2.variable(j),
{
}

/// A part that fits the encoding: a symbol of 1 to 63 bytes, a grounded value that
/// shows 1 to 62 bytes where it is written by what it shows, an expression of at most
/// 63 children.
pub open spec fn part_fits(x: Term, m: Mode) -> bool {
    match x {
        Term::Symbol(name) => 1 <= encode_utf8(name).len() <= 63,
        Term::Grounded(g) => (g.mutable && !(m is ValueOnly)) || 1 <= encode_utf8(g.display).len()
            <= 62,
        Term::Expression(ts, _) => ts.len() <= 63,
        Term::Variable(_) => true,
    }
}

/// A term with at most 64 variables and wildcards is encoded exactly when every part
/// of it fits.
pub proof fn terms_encode_when_their_parts_fit(t: Term, s: Lowering, m: Mode)
    requires
        lower(t, s, m).0.vars.len() <= 64,
    ensures
        lower(t, s, m).1 is Some <==> forall|x: Term| #[trigger] part_of(x, t) ==> part_fits(x, m),
    decreases t, 0nat,
{
    match t {
        Term::Expression(ts, _) => {
            if ts.len() <= 63 {
                rows_encode_when_their_parts_fit(ts, s, m);
                if forall|x: Term| #[trigger] part_of(x, t) ==> part_fits(x, m) {
                    assert forall|x: Term, i: int|
                        0 <= i < ts.len() && #[trigger] part_of(x, ts[i]) implies part_fits(
                        x,
                        m,
                    ) by {
                        assert(part_of(x, t));
                    }
                }
                if lower(t, s, m).1 is Some {
                    assert forall|x: Term| #[trigger] part_of(x, t) implies part_fits(x, m) by {
                        if x != t {
                            let i = choose|i: int|
                                0 <= i < ts.len() && part_of(x, #[trigger] ts[i]);
                            assert(part_of(x, ts[i]));
                        }
                    }
                }
            } else {
                assert(part_of(t, t));
            }
        },
        Term::Variable(v) => {
            s.vars.index_of_first_ensures(v);
            assert forall|x: Term| #[trigger] part_of(x, t) implies part_fits(x, m) by {}
        },
        _ => {
            assert(part_of(t, t));
            assert forall|x: Term| #[trigger] part_of(x, t) implies x == t by {}
        },
    }
}

/// The same of a row of terms.
pub proof fn rows_encode_when_their_parts_fit(ts: Seq<Term>, s: Lowering, m: Mode)
    requires
        lower_all(ts, s, m).0.vars.len() <= 64,
    ensures
        lower_all(ts, s, m).1 is Some <==> forall|x: Term, i: int|
            0 <= i < ts.len() && #[trigger] part_of(x, ts[i]) ==> part_fits(x, m),
    decreases ts, ts.len(),
{
    if ts.len() > 0 {
        let init = ts.drop_last();
        let n = ts.len() - 1;
        let (s1, front) = lower_all(init, s, m);
        assert(ts.last() == ts[n]);
        lemma_lower_grows(ts.last(), s1, m);
        assert(s1.vars.len() <= lower(ts.last(), s1, m).0.vars.len());
        rows_encode_when_their_parts_fit(init, s, m);
        if front is Some {
            terms_encode_when_their_parts_fit(ts.last(), s1, m);
            if lower_all(ts, s, m).1 is Some {
                assert forall|x: Term, i: int|
                    0 <= i < ts.len() && #[trigger] part_of(x, ts[i]) implies part_fits(x, m) by {
                    if i < n {
                        assert(part_of(x, init[i]));
                    }
                }
            } else {
                let x = choose|x: Term| #[trigger] part_of(x, ts.last()) && !part_fits(x, m);
                assert(part_of(x, ts[n]));
            }
        } else {
            let (x, i) = choose|x: Term, i: int|
                0 <= i < init.len() && #[trigger] part_of(x, init[i]) && !part_fits(x, m);
            assert(part_of(x, ts[i]));
        }
    }
}

/// An expression is read as evaluated exactly when its bytes are among those that
/// were marked; what is read without marks is not marked.
pub proof fn marks_are_read_where_they_were_set(ts: Seq<Tree>, r: Reader, n: nat)
    requires
        raise(Tree::Expr(ts), r, n) is Some,
    ensures
        raise(Tree::Expr(ts), r, n).unwrap().0 matches Term::Expression(xs, marked) && xs.len()
            == ts.len() && marked == (r.evaluated is Some && r.evaluated->0.contains(
            flat(Tree::Expr(ts)),
        )),
{
    lemma_raise_all_length(ts, r, n);
}

/// A row is read as one term per tree.
proof fn lemma_raise_all_length(ts: Seq<Tree>, r: Reader, n: nat)
    requires
        raise_all(ts, r, n) is Some,
    ensures
        raise_all(ts, r, n).unwrap().0.len() == ts.len(),
    decreases ts.len(),
{
    if ts.len() > 0 {
        lemma_raise_all_length(ts.drop_last(), r, n);
    }
}

/// A tree is read item by item: a symbol by its payload, a variable as the one of its
/// number, and the children of an expression one after the other, each with the
/// variables that those before it have introduced.
pub proof fn trees_are_read_item_by_item(t: Tree, r: Reader, n: nat)
    requires
        raise(t, r, n) is Some,
    ensures
        match t {
            Tree::Sym(raw) => raise(t, r, n) == Some((r.symbol(raw)->0, n)),
            Tree::NewVar => raise(t, r, n) == Some(
                (
                    Term::Variable(
                        if r.ns == 0 && n < r.query_vars.len() {
                            r.query_vars[n as int]
                        } else {
                            Variable { name: namespaced(r.ns, n), id: r.result_id }
                        },
                    ),
                    n + 1,
                ),
            ),
            Tree::VarRef(i) => raise(t, r, n) == Some(
                (
                    Term::Variable(
                        if r.ns == 0 && i < r.query_vars.len() {
                            r.query_vars[i as int]
                        } else {
                            Variable { name: namespaced(r.ns, i as nat), id: r.result_id }
                        },
                    ),
                    n,
                ),
            ),
            Tree::Expr(ts) => raise_all(ts, r, n) is Some && raise(t, r, n).unwrap().0 is Expression
                && raise(t, r, n).unwrap().0->Expression_0 == raise_all(ts, r, n).unwrap().0,
        },
{
}

/// A symbol is read by its mark: a payload without one as the symbol that it spells,
/// a value's display as the value that the registry keeps under it or else as a symbol,
/// an id as the mutable value of that id.
pub proof fn symbols_are_read_by_their_mark(raw: Seq<u8>, reg: Registry, r: Reader, id: u64)
    requires
        raw.len() > 0,
        r.grounded == Some(reg),
    ensures
        raw[0] > 1 ==> r.symbol(raw) == if valid_utf8(raw) {
            Some(Term::Symbol(decode_utf8(raw)))
        } else {
            None
        },
        raw[0] == 0 && valid_utf8(raw.drop_first()) ==> r.symbol(raw) == Some(
            if reg.by_display.contains_key(raw.drop_first()) {
                reg.by_display[raw.drop_first()]
            } else {
                Term::Symbol(decode_utf8(raw.drop_first()))
            },
        ),
        raw[0] == 0 && !valid_utf8(raw.drop_first()) ==> r.symbol(raw) is None,
        id < reg.by_id.len() ==> r.symbol(seq![1u8] + spec_u64_to_le_bytes(id)) == Some(
            reg.by_id[id as int],
        ),
{
    lemma_auto_spec_u64_to_from_le_bytes();
    let b = seq![1u8] + spec_u64_to_le_bytes(id);
    assert(b.drop_first() =~= spec_u64_to_le_bytes(id));
}

/// The mutable values of a term, in the order in which they stand.
pub open spec fn cells(t: Term) -> Seq<Term>
    decreases t, 0nat,
{
    match t {
        Term::Grounded(g) => if g.mutable {
            seq![t]
        } else {
            Seq::empty()
        },
        Term::Expression(ts, _) => row_cells(ts),
        _ => Seq::empty(),
    }
}

/// The mutable values of a row of terms, in the order in which they stand.
pub open spec fn row_cells(ts: Seq<Term>) -> Seq<Term>
    decreases ts, ts.len(),
{
    if ts.len() == 0 {
        Seq::empty()
    } else {
        row_cells(ts.drop_last()) + cells(ts.last())
    }
}

/// In a query every mutable value gets a wildcard of its own, in the order in which
/// they stand: the reference names the value and the number of its variable, which
/// has the next fresh id.
pub proof fn wildcards_stand_for_cells(t: Term, s: Lowering, ids: Seq<usize>)
    requires
        lower(t, s, Mode::Query(ids)).1 is Some,
        s.vars.len() + wildcards(t) <= usize::MAX,
        forall|k: int|
            0 <= k < s.refs.len() ==> (#[trigger] s.refs[k]).0 < s.vars.len()
                && s.vars[s.refs[k].0 as int] == (Variable { name: "state"@, id: ids[k] }),
        lower(t, s, Mode::Query(ids)).0.vars.len() <= usize::MAX,
    ensures
        ({
            let s2 = lower(t, s, Mode::Query(ids)).0;
            &&& wildcards(t) == cells(t).len()
            &&& s2.refs.len() == s.refs.len() + cells(t).len()
            &&& s2.refs.take(s.refs.len() as int) == s.refs
            &&& forall|k: int|
                0 <= k < s2.refs.len() ==> (#[trigger] s2.refs[k]).0 < s2.vars.len()
                    && s2.vars[s2.refs[k].0 as int] == (Variable { name: "state"@, id: ids[k] })
            &&& forall|k: int|
                0 <= k < cells(t).len() ==> #[trigger] s2.refs[s.refs.len() + k].1 == cells(t)[k]
        }),
    decreases t, 0nat,
{
    match t {
        Term::Expression(ts, _) => {
            row_wildcards_stand_for_cells(ts, s, ids);
        },
        _ => {
            let s2 = lower(t, s, Mode::Query(ids)).0;
            assert(s2.refs.take(s.refs.len() as int) =~= s.refs);
        },
    }
}

/// The same of a row of terms.
proof fn row_wildcards_stand_for_cells(ts: Seq<Term>, s: Lowering, ids: Seq<usize>)
    requires
        lower_all(ts, s, Mode::Query(ids)).1 is Some,
        s.vars.len() + wildcards_all(ts) <= usize::MAX,
        forall|k: int|
            0 <= k < s.refs.len() ==> (#[trigger] s.refs[k]).0 < s.vars.len()
                && s.vars[s.refs[k].0 as int] == (Variable { name: "state"@, id: ids[k] }),
        lower_all(ts, s, Mode::Query(ids)).0.vars.len() <= usize::MAX,
    ensures
        ({
            let s2 = lower_all(ts, s, Mode::Query(ids)).0;
            &&& wildcards_all(ts) == row_cells(ts).len()
            &&& s2.refs.len() == s.refs.len() + row_cells(ts).len()
            &&& s2.refs.take(s.refs.len() as int) == s.refs
            &&& forall|k: int|
                0 <= k < s2.refs.len() ==> (#[trigger] s2.refs[k]).0 < s2.vars.len()
                    && s2.vars[s2.refs[k].0 as int] == (Variable { name: "state"@, id: ids[k] })
            &&& forall|k: int|
                0 <= k < row_cells(ts).len() ==> #[trigger] s2.refs[s.refs.len() + k].1
                    == row_cells(ts)[k]
        }),
    decreases ts, ts.len(),
{
    let m = Mode::Query(ids);
    if ts.len() == 0 {
        assert(s.refs.take(s.refs.len() as int) =~= s.refs);
    } else {
        let init = ts.drop_last();
        let s1 = lower_all(init, s, m).0;
        let s2 = lower_all(ts, s, m).0;
        lemma_lower_grows(ts.last(), s1, m);
        assert(s1.vars.len() <= s2.vars.len());
        row_wildcards_stand_for_cells(init, s, ids);
        lemma_fewer_wildcards_than_variables(ts.last(), s1, ids);
        wildcards_stand_for_cells(ts.last(), s1, ids);
        let n = s.refs.len() as int;
        assert forall|i: int| 0 <= i < n implies s2.refs[i] == s.refs[i] by {
            assert(s2.refs.take(s1.refs.len() as int)[i] == s1.refs[i]);
            assert(s1.refs.take(n)[i] == s.refs[i]);
        }
        assert(s2.refs.take(n) =~= s.refs);
        let (a, b) = (row_cells(init), cells(ts.last()));
        assert forall|k: int| 0 <= k < row_cells(ts).len() implies #[trigger] s2.refs[n + k].1
            == row_cells(ts)[k] by {
            if k < a.len() {
                assert(s2.refs.take(s1.refs.len() as int)[n + k] == s1.refs[n + k]);
            } else {
                assert(s2.refs[s1.refs.len() + (k - a.len())].1 == b[k - a.len()]);
            }
        }
    }
}

/// Every wildcard is a variable of its own.
proof fn lemma_fewer_wildcards_than_variables(t: Term, s: Lowering, ids: Seq<usize>)
    requires
        lower(t, s, Mode::Query(ids)).1 is Some,
    ensures
        s.vars.len() + wildcards(t) <= lower(t, s, Mode::Query(ids)).0.vars.len(),
    decreases t, 0nat,
{
    if let Term::Expression(ts, _) = t {
        lemma_rows_have_fewer_wildcards(ts, s, ids);
    }
}

/// The same of a row of terms.
proof fn lemma_rows_have_fewer_wildcards(ts: Seq<Term>, s: Lowering, ids: Seq<usize>)
    requires
        lower_all(ts, s, Mode::Query(ids)).1 is Some,
    ensures
        s.vars.len() + wildcards_all(ts) <= lower_all(ts, s, Mode::Query(ids)).0.vars.len(),
    decreases ts, ts.len(),
{
    if ts.len() > 0 {
        let init = ts.drop_last();
        lemma_rows_have_fewer_wildcards(init, s, ids);
        lemma_fewer_wildcards_than_variables(
            ts.last(),
            lower_all(init, s, Mode::Query(ids)).0,
            ids,
        );
    }
}

/// What an encoding without wildcards has met are the variables of the term, each
/// once, behind those that it had met before.
pub proof fn met_variables_are_those_of_the_term(t: Term, s: Lowering, m: Mode)
    requires
        lower(t, s, m).1 is Some,
        !(m is Query),
        s.vars.no_duplicates(),
    ensures
        lower(t, s, m).0.vars.no_duplicates(),
        forall|v: Variable| #[trigger]
            lower(t, s, m).0.vars.contains(v) <==> s.vars.contains(v) || part_of(
                Term::Variable(v),
                t,
            ),
    decreases t, 0nat,
{
    match t {
        Term::Expression(ts, _) => {
            lemma_met_row_variables(ts, s, m);
            assert forall|v: Variable| #[trigger] lower(t, s, m).0.vars.contains(v) <==> (
            s.vars.contains(v) || part_of(Term::Variable(v), t)) by {
                if part_of(Term::Variable(v), t) {
                    let i = choose|i: int|
                        0 <= i < ts.len() && part_of(Term::Variable(v), #[trigger] ts[i]);
                    assert(part_of(Term::Variable(v), ts[i]));
                }
            }
        },
        Term::Variable(w) => {
            s.vars.index_of_first_ensures(w);
            let after = lower(t, s, m).0.vars;
            assert forall|v: Variable| #[trigger] after.contains(v) <==> (s.vars.contains(v)
                || part_of(Term::Variable(v), t)) by {
                if s.vars.contains(v) {
                    let i = choose|i: int| 0 <= i < s.vars.len() && s.vars[i] == v;
                    assert(after[i] == v);
                }
                if v == w && !s.vars.contains(w) {
                    assert(after[after.len() - 1] == v);
                }
            }
        },
        _ => {},
    }
}

/// The same of a row of terms.
proof fn lemma_met_row_variables(ts: Seq<Term>, s: Lowering, m: Mode)
    requires
        lower_all(ts, s, m).1 is Some,
        !(m is Query),
        s.vars.no_duplicates(),
    ensures
        lower_all(ts, s, m).0.vars.no_duplicates(),
        forall|v: Variable| #[trigger]
            lower_all(ts, s, m).0.vars.contains(v) <==> s.vars.contains(v) || exists|i: int|
                0 <= i < ts.len() && part_of(Term::Variable(v), #[trigger] ts[i]),
    decreases ts, ts.len(),
{
    if ts.len() > 0 {
        let init = ts.drop_last();
        let n = ts.len() - 1;
        let s1 = lower_all(init, s, m).0;
        lemma_met_row_variables(init, s, m);
        met_variables_are_those_of_the_term(ts.last(), s1, m);
        assert(ts.last() == ts[n]);
        assert forall|v: Variable| #[trigger] lower_all(ts, s, m).0.vars.contains(v) <==> (
        s.vars.contains(v) || exists|i: int|
            0 <= i < ts.len() && part_of(Term::Variable(v), #[trigger] ts[i])) by {
            if exists|i: int|
                0 <= i < init.len() && part_of(Term::Variable(v), #[trigger] init[i]) {
                let i = choose|i: int|
                    0 <= i < init.len() && part_of(Term::Variable(v), #[trigger] init[i]);
                assert(part_of(Term::Variable(v), ts[i]));
            }
            if exists|i: int|
                0 <= i < ts.len() && part_of(Term::Variable(v), #[trigger] ts[i]) {
                let i = choose|i: int|
                    0 <= i < ts.len() && part_of(Term::Variable(v), #[trigger] ts[i]);
                if i < n {
                    assert(part_of(Term::Variable(v), init[i]));
                }
            }
            assert(s1.vars.contains(v) <==> (s.vars.contains(v) || exists|i: int|
                0 <= i < init.len() && part_of(Term::Variable(v), #[trigger] init[i])));
        }
    }
}

/// Storing a term makes its immutable grounded values known and takes up its mutable
/// ones, in the order in which they stand.
pub proof fn stored_values_are_known(t: Term, s: Lowering)
    requires
        lower(t, s, Mode::Store).1 is Some,
    ensures
        forall|x: Term| #[trigger]
            part_of(x, t) && x is Grounded && !x->Grounded_0.mutable ==> lower(
                t,
                s,
                Mode::Store,
            ).0.reg.by_display.contains_key(encode_utf8(x->Grounded_0.display)),
        lower(t, s, Mode::Store).0.reg.by_id == s.reg.by_id + cells(t),
    decreases t, 0nat,
{
    let m = Mode::Store;
    match t {
        Term::Expression(ts, _) => {
            lemma_stored_row_values_are_known(ts, s);
            assert forall|x: Term| #[trigger]
                part_of(x, t) && x is Grounded && !x->Grounded_0.mutable implies lower(
                t,
                s,
                m,
            ).0.reg.by_display.contains_key(encode_utf8(x->Grounded_0.display)) by {
                let i = choose|i: int| 0 <= i < ts.len() && part_of(x, #[trigger] ts[i]);
                assert(part_of(x, ts[i]));
            }
        },
        _ => {
            assert(lower(t, s, m).0.reg.by_id =~= s.reg.by_id + cells(t));
        },
    }
}

/// The same of a row of terms.
proof fn lemma_stored_row_values_are_known(ts: Seq<Term>, s: Lowering)
    requires
        lower_all(ts, s, Mode::Store).1 is Some,
    ensures
        forall|x: Term, i: int|
            0 <= i < ts.len() && #[trigger] part_of(x, ts[i]) && x is Grounded
                && !x->Grounded_0.mutable ==> lower_all(
                ts,
                s,
                Mode::Store,
            ).0.reg.by_display.contains_key(encode_utf8(x->Grounded_0.display)),
        lower_all(ts, s, Mode::Store).0.reg.by_id == s.reg.by_id + row_cells(ts),
    decreases ts, ts.len(),
{
    let m = Mode::Store;
    if ts.len() == 0 {
        assert(s.reg.by_id + row_cells(ts) =~= s.reg.by_id);
    } else {
        let init = ts.drop_last();
        let n = ts.len() - 1;
        let s1 = lower_all(init, s, m).0;
        lemma_stored_row_values_are_known(init, s);
        stored_values_are_known(ts.last(), s1);
        lemma_lower_grows(ts.last(), s1, m);
        assert(ts.last() == ts[n]);
        let after = lower_all(ts, s, m).0.reg;
        assert(after.by_id =~= s.reg.by_id + row_cells(ts));
        assert forall|x: Term, i: int|
            0 <= i < ts.len() && #[trigger] part_of(x, ts[i]) && x is Grounded
                && !x->Grounded_0.mutable implies after.by_display.contains_key(
            encode_utf8(x->Grounded_0.display),
        ) by {
            if i < n {
                assert(part_of(x, init[i]));
                let k = encode_utf8(x->Grounded_0.display);
                assert(s1.reg.by_display.dom().contains(k));
                assert(after.by_display.dom().contains(k));
            }
        }
    }
}

/// A variable of the data is named by its namespace and its number, and belongs to the
/// result; a variable of the query is itself.
pub proof fn variables_are_named_by_number(r: Reader, i: nat)
    ensures
        r.ns == 0 && i < r.query_vars.len() ==> r.variable(i) == r.query_vars[i as int],
        r.ns != 0 || i >= r.query_vars.len() ==> r.variable(i) == (Variable {
            name: "v"@ + decimal(r.ns as nat) + "_"@ + decimal(i),
            id: r.result_id,
        }),
        namespaced(r.ns, i) == "v"@ + decimal(r.ns as nat) + "_"@ + decimal(i),
{
}

/// What the registry does not know is read by what it shows: a display as a symbol, an
/// id by its number. An id that is cut off is not read.
pub proof fn unknown_values_are_read_as_symbols(raw: Seq<u8>, r: Reader, id: u64)
    requires
        r.grounded is None || id >= r.grounded->0.by_id.len(),
    ensures
        r.symbol(seq![1u8] + spec_u64_to_le_bytes(id)) == Some(
            Term::Symbol("<state-"@ + decimal(id as nat) + ">"@),
        ),
        raw.len() > 0 && raw[0] == 1 && raw.len() != 9 ==> r.symbol(raw) is None,
        r.grounded is None && raw.len() > 0 && raw[0] == 0 && valid_utf8(raw.drop_first())
            ==> r.symbol(raw) == Some(Term::Symbol(decode_utf8(raw.drop_first()))),
{
    lemma_auto_spec_u64_to_from_le_bytes();
    let b = seq![1u8] + spec_u64_to_le_bytes(id);
    assert(b.drop_first() =~= spec_u64_to_le_bytes(id));
}

} // verus!
