//! Rewriting: one join over some patterns, one emitted atom per match and
//! template.
//!
//! The rewrite itself runs outside. What it runs is one `exec` atom in one
//! buffer, so that the variables of the templates refer to those of the
//! patterns.
use vstd::prelude::*;
use vstd::slice::{slice_subrange, slice_to_vec};
use vstd::utf8::{encode_utf8, is_ascii_chars_encode_utf8};

use crate::atom::{clone_atoms, terms, Atom, Term, VariableAtom};
use crate::colcache::{lemma_listing, lemma_listing_lists, listing};
use crate::encode::{
    encode_atom, lemma_immutable_has_no_wildcard, lemma_lower_all_fits, lemma_lower_fits, lower,
    lower_all, variables, GroundedSink, Lowering, Mode,
};
use crate::order::path_lt;
use crate::pattern::{conjuncts_of, factors, fresh_lowering, pattern_of, pattern_tree};
use crate::registry::{
    contains_mutable_grounded, has_mutable, part_of, parts_decide,
    registering_rows_makes_values_known,
};
use crate::space::{MorkSpace, SpaceState};
use crate::span::{byte_rows, fact_subterm_len};
use crate::tag::MAX_FIELD;
use crate::tree::{flat, flat_all, lemma_parse_flat, parse_at, Tree};

verus! {

/// Number of leading terms that hold no mutable value.
pub open spec fn clean_prefix(ts: Seq<Term>) -> nat
    decreases ts.len(),
{
    if ts.len() == 0 {
        0
    } else {
        let k = clean_prefix(ts.drop_last());
        if k == ts.len() - 1 && !has_mutable(ts.last()) {
            ts.len()
        } else {
            k
        }
    }
}

/// A row of atoms joined by a comma.
pub open spec fn joined(ts: Seq<Term>) -> Term {
    Term::Expression(seq![Term::Symbol(","@)] + ts, false)
}

/// The `exec` atom of a rewrite.
pub open spec fn exec_term(patterns: Seq<Term>, templates: Seq<Term>) -> Term {
    Term::Expression(
        seq![Term::Symbol("exec"@), Term::Symbol("0"@), joined(patterns), joined(templates)],
        false,
    )
}

/// There is something to match and something to emit, and both fit beside the
/// comma.
pub open spec fn rewritable(patterns: Seq<Term>, templates: Seq<Term>) -> bool {
    1 <= patterns.len() <= 62 && 1 <= templates.len() <= 62
}

/// The tree of a rewrite's `exec` atom; none when it does not fit.
pub open spec fn exec_tree(patterns: Seq<Term>, templates: Seq<Term>) -> Option<Tree> {
    lower(exec_term(patterns, templates), fresh_lowering(), Mode::Query(Seq::empty())).1
}

/// What a rewrite runs: the bytes of the `exec` atom, where the patterns and the
/// templates start in them, and a stored atom to anchor the run on. The engine
/// adds its anchor to what it reads, so the anchor is an atom that is there
/// already.
#[derive(Debug)]
pub struct TransformPlan {
    pub bytes: Vec<u8>,
    pub pat_off: usize,
    pub tpl_off: usize,
    pub anchor: Vec<u8>,
}

/// What a rewrite comes to.
#[derive(Debug)]
pub enum TransformStep {
    /// Nothing is stored, so nothing matches.
    Nothing,
    /// The plan for the engine to run.
    Run(TransformPlan),
}

impl SpaceState {
    /// The space after the atoms of a rewrite were registered, up to the first
    /// one that holds a mutable value.
    pub open spec fn registering(self, ts: Seq<Term>) -> SpaceState {
        SpaceState { reg: self.reg.register_all(ts.take(clean_prefix(ts) as int)), ..self }
    }

    /// A plan is that of a rewrite: the buffer is the `exec` atom, whose third
    /// and fourth child start at the two offsets, and the anchor is stored.
    pub open spec fn plans(self, plan: TransformPlan, ps: Seq<Term>, ts: Seq<Term>) -> bool {
        &&& exec_tree(ps, ts) matches Some(tree) && tree is Expr && tree->Expr_0.len() == 4 && {
            let (p, t) = (plan.pat_off as int, plan.tpl_off as int);
            &&& plan.bytes@ == flat(tree)
            &&& 0 <= p <= t <= plan.bytes@.len()
            &&& plan.bytes@.subrange(p, t) == flat(tree->Expr_0[2])
            &&& plan.bytes@.skip(t) == flat(tree->Expr_0[3])
        }
        &&& self.paths.contains(plan.anchor@)
        &&& plan.anchor@ == listing(self.paths)[0]
    }
}

/// The conjunction of some atoms.
fn join_atoms(atoms: &Vec<Atom>) -> (r: Atom)
    ensures
        r@ == joined(terms(atoms@)),
{
    let mut children: Vec<Atom> = Vec::new();
    children.push(Atom::sym(","));
    let mut rest = clone_atoms(atoms);
    let ghost (a, b) = (children@, rest@);
    children.append(&mut rest);
    proof {
        assert(terms(children@) =~= seq![Term::Symbol(","@)] + terms(atoms@)) by {
            assert forall|i: int| 0 <= i < atoms@.len() implies #[trigger] children@[1 + i]@
                == terms(atoms@)[i] by {
                assert(children@[1 + i] == b[i]);
                assert(terms(b)[i] == b[i]@);
            }
            assert(children@[0] == a[0]);
        }
    }
    Atom::expr(children)
}

/// A row whose terms are all clean.
proof fn lemma_clean(ts: Seq<Term>)
    ensures
        clean_prefix(ts) <= ts.len(),
        clean_prefix(ts) == ts.len() <==> forall|i: int|
            0 <= i < ts.len() ==> !has_mutable(#[trigger] ts[i]),
    decreases ts.len(),
{
    if ts.len() > 0 {
        let init = ts.drop_last();
        lemma_clean(init);
        let n = ts.len() - 1;
        assert(ts.last() == ts[n]);
        if forall|i: int| 0 <= i < ts.len() ==> !has_mutable(#[trigger] ts[i]) {
            assert forall|i: int| 0 <= i < init.len() implies !has_mutable(#[trigger] init[i]) by {
                assert(init[i] == ts[i]);
            }
        }
        if clean_prefix(ts) == ts.len() {
            assert forall|i: int| 0 <= i < ts.len() implies !has_mutable(#[trigger] ts[i]) by {
                if i < n {
                    assert(init[i] == ts[i]);
                }
            }
        }
    }
}

/// A term that is not clean ends the clean prefix.
proof fn lemma_clean_ends(ts: Seq<Term>, i: int)
    requires
        0 <= i < ts.len(),
        clean_prefix(ts.take(i)) == i,
        has_mutable(ts[i]),
    ensures
        clean_prefix(ts) == i,
    decreases ts.len(),
{
    if i == ts.len() - 1 {
        assert(ts.drop_last() =~= ts.take(i));
    } else {
        let init = ts.drop_last();
        assert(init.take(i) =~= ts.take(i));
        assert(init[i] == ts[i]);
        lemma_clean_ends(init, i);
    }
}

/// The `exec` atom of clean rows holds no mutable value.
proof fn lemma_exec_clean(ps: Seq<Term>, ts: Seq<Term>)
    requires
        forall|i: int| 0 <= i < ps.len() ==> !has_mutable(#[trigger] ps[i]),
        forall|i: int| 0 <= i < ts.len() ==> !has_mutable(#[trigger] ts[i]),
    ensures
        !has_mutable(exec_term(ps, ts)),
{
    assert forall|xs: Seq<Term>|
        (forall|i: int| 0 <= i < xs.len() ==> !has_mutable(#[trigger] xs[i])) implies !has_mutable(
        #[trigger] joined(xs),
    ) by {
        let row = seq![Term::Symbol(","@)] + xs;
        assert(joined(xs)->Expression_0 == row);
        assert forall|i: int| 0 <= i < row.len() implies !has_mutable(#[trigger] row[i]) by {
            if i > 0 {
                assert(row[i] == xs[i - 1]);
            }
        }
    }
    assert(!has_mutable(joined(ps)));
    assert(!has_mutable(joined(ts)));
    let e = exec_term(ps, ts);
    let kids = e->Expression_0;
    assert forall|i: int| 0 <= i < kids.len() implies !has_mutable(#[trigger] kids[i]) by {}
}

/// The bytes of an expression with four children.
proof fn lemma_four_children(kids: Seq<Tree>)
    requires
        kids.len() == 4,
    ensures
        flat_all(kids) == flat(kids[0]) + (flat(kids[1]) + (flat(kids[2]) + flat(kids[3]))),
{
    let k1 = kids.drop_first();
    let k2 = k1.drop_first();
    let k3 = k2.drop_first();
    let k4 = k3.drop_first();
    assert(k4 =~= Seq::empty());
    assert(flat_all(k4) =~= Seq::<u8>::empty());
    assert(k3[0] == kids[3] && k2[0] == kids[2] && k1[0] == kids[1]);
    assert(flat_all(k3) =~= flat(kids[3]));
    assert(flat_all(k2) == flat(kids[2]) + flat_all(k3));
    assert(flat_all(k1) == flat(kids[1]) + flat_all(k2));
}

/// The atom at the front of a buffer is read from there.
proof fn lemma_front_atom(b: Seq<u8>, t: Tree, rest: Seq<u8>)
    requires
        t.fits(),
        b == flat(t) + rest,
    ensures
        parse_at(b, 0) == Some((t, flat(t).len() as int)),
{
    assert(b.subrange(0, flat(t).len() as int) =~= flat(t));
    lemma_parse_flat(b, 0, t);
}

/// Where the patterns and the templates start in the bytes of an `exec` atom.
fn exec_offsets(bytes: &Vec<u8>, Ghost(tree): Ghost<Tree>) -> (r: (usize, usize))
    requires
        tree is Expr,
        tree->Expr_0.len() == 4,
        tree.fits(),
        bytes@ == flat(tree),
    ensures
        0 <= r.0 <= r.1 <= bytes@.len(),
        bytes@.subrange(r.0 as int, r.1 as int) == flat(tree->Expr_0[2]),
        bytes@.skip(r.1 as int) == flat(tree->Expr_0[3]),
{
    let ghost cs = tree->Expr_0;
    proof {
        lemma_four_children(cs);
        assert(cs[0].fits() && cs[1].fits() && cs[2].fits() && cs[3].fits());
    }
    let whole = bytes.as_slice();
    let ghost b = bytes@;
    let ghost (f0, f1, f2, f3) = (flat(cs[0]), flat(cs[1]), flat(cs[2]), flat(cs[3]));
    let rest0 = slice_subrange(whole, 1, whole.len());
    proof {
        assert(rest0@ =~= f0 + (f1 + (f2 + f3)));
        lemma_front_atom(rest0@, cs[0], f1 + (f2 + f3));
    }
    let head_len: usize = 1 + fact_subterm_len(rest0);
    let rest1 = slice_subrange(whole, head_len, whole.len());
    proof {
        assert(rest1@ =~= f1 + (f2 + f3));
        lemma_front_atom(rest1@, cs[1], f2 + f3);
    }
    let pat_off: usize = head_len + fact_subterm_len(rest1);
    let rest2 = slice_subrange(whole, pat_off, whole.len());
    proof {
        assert(rest2@ =~= f2 + f3);
        lemma_front_atom(rest2@, cs[2], f3);
    }
    let tpl_off: usize = pat_off + fact_subterm_len(rest2);
    proof {
        assert(b.subrange(pat_off as int, tpl_off as int) =~= f2);
        assert(b.skip(tpl_off as int) =~= f3);
    }
    (pat_off, tpl_off)
}

/// Encodes the `exec` atom of a rewrite without mutable values, with the offsets
/// of its patterns and its templates; `None` when it does not fit.
fn encode_exec(patterns: &Vec<Atom>, templates: &Vec<Atom>) -> (r: Option<(Vec<u8>, usize, usize)>)
    requires
        forall|i: int|
            0 <= i < terms(patterns@).len() ==> !has_mutable(#[trigger] terms(patterns@)[i]),
        forall|i: int|
            0 <= i < terms(templates@).len() ==> !has_mutable(#[trigger] terms(templates@)[i]),
    ensures
        match r {
            Some((bytes, p, t)) => {
                &&& exec_tree(terms(patterns@), terms(templates@)) matches Some(tree)
                &&& tree is Expr && tree->Expr_0.len() == 4
                &&& bytes@ == flat(tree)
                &&& 0 <= p <= t <= bytes@.len()
                &&& bytes@.subrange(p as int, t as int) == flat(tree->Expr_0[2])
                &&& bytes@.skip(t as int) == flat(tree->Expr_0[3])
            },
            None => exec_tree(terms(patterns@), terms(templates@)) is None,
        },
{
    let ghost (ps, ts) = (terms(patterns@), terms(templates@));
    let mut kids: Vec<Atom> = Vec::new();
    kids.push(Atom::sym("exec"));
    kids.push(Atom::sym("0"));
    kids.push(join_atoms(patterns));
    kids.push(join_atoms(templates));
    proof {
        assert(terms(kids@) =~= exec_term(ps, ts)->Expression_0);
        lemma_exec_clean(ps, ts);
        lemma_immutable_has_no_wildcard(exec_term(ps, ts));
    }
    let exec = Atom::expr(kids);
    let mut vars: Vec<VariableAtom> = Vec::new();
    let mut bytes: Vec<u8> = Vec::new();
    let mut sink = GroundedSink::Query(Vec::new(), Vec::new());
    proof {
        assert(variables(vars@) =~= Seq::empty());
        assert(sink.refs() =~= Seq::empty());
        assert(sink.mode() == Mode::Query(Seq::empty())) by {
            assert(sink->Query_1@ =~= Seq::empty());
        }
    }
    if encode_atom(&exec, &mut vars, &mut bytes, &mut sink).is_err() {
        return None;
    }
    let ghost tree = exec_tree(ps, ts)->0;
    let ghost cs = tree->Expr_0;
    proof {
        assert(bytes@ =~= flat(tree));
        lemma_lower_fits(exec_term(ps, ts), fresh_lowering(), Mode::Query(Seq::empty()));
        lemma_lower_all_fits(
            exec_term(ps, ts)->Expression_0,
            fresh_lowering(),
            Mode::Query(Seq::empty()),
        );
        assert(tree is Expr && cs.len() == 4);
    }
    let (pat_off, tpl_off) = exec_offsets(&bytes, Ghost(tree));
    Some((bytes, pat_off, tpl_off))
}

impl MorkSpace {
    /// Registers the grounded values of some atoms, up to the first atom that
    /// holds a mutable value; returns whether there was none.
    fn register_clean(&mut self, patterns: &Vec<Atom>, templates: &Vec<Atom>) -> (clean: bool)
        requires
            old(self).wf(),
        ensures
            final(self).wf(),
            final(self)@ == old(self)@.registering(terms(patterns@) + terms(templates@)),
            clean == (clean_prefix(terms(patterns@) + terms(templates@)) == patterns@.len()
                + templates@.len()),
    {
        let ghost before = self@;
        let ghost all = terms(patterns@) + terms(templates@);
        let np: usize = patterns.len();
        let nt: usize = templates.len();
        let mut i: usize = 0;
        proof {
            assert(all.take(0) =~= Seq::empty());
            assert(self@ =~= (SpaceState {
                reg: before.reg.register_all(all.take(0)),
                ..before
            }));
        }
        while i < np
            invariant
                i <= np,
                np == patterns@.len(),
                all == terms(patterns@) + terms(templates@),
                before == old(self)@,
                self.wf(),
                self@ == (SpaceState { reg: before.reg.register_all(all.take(i as int)), ..before }),
                clean_prefix(all.take(i as int)) == i,
            decreases np - i,
        {
            proof {
                assert(all[i as int] == patterns@[i as int]@);
                assert(all.take(i + 1).drop_last() =~= all.take(i as int));
                assert(all.take(i + 1).last() == all[i as int]);
            }
            if contains_mutable_grounded(&patterns[i]) {
                proof {
                    lemma_clean_ends(all, i as int);
                }
                return false;
            }
            self.grounded.register(&patterns[i]);
            proof {
                assert(self@ =~= (SpaceState {
                    reg: before.reg.register_all(all.take(i + 1)),
                    ..before
                }));
            }
            i = i + 1;
        }
        let mut j: usize = 0;
        while j < nt
            invariant
                j <= nt,
                np == patterns@.len(),
                nt == templates@.len(),
                all == terms(patterns@) + terms(templates@),
                before == old(self)@,
                self.wf(),
                self@ == (SpaceState {
                    reg: before.reg.register_all(all.take(np + j)),
                    ..before
                }),
                clean_prefix(all.take(np + j)) == np + j,
            decreases nt - j,
        {
            proof {
                assert(all[np + j] == templates@[j as int]@);
                assert(all.take(np + j + 1).drop_last() =~= all.take(np + j));
                assert(all.take(np + j + 1).last() == all[np + j]);
            }
            if contains_mutable_grounded(&templates[j]) {
                proof {
                    lemma_clean_ends(all, np + j);
                }
                return false;
            }
            self.grounded.register(&templates[j]);
            proof {
                assert(self@ =~= (SpaceState {
                    reg: before.reg.register_all(all.take(np + j + 1)),
                    ..before
                }));
            }
            j = j + 1;
        }
        proof {
            assert(all.take(all.len() as int) =~= all);
        }
        true
    }

    /// Plans one rewrite from a conjunction of patterns to some templates.
    ///
    /// `None` when there is nothing to match or to emit or too much of it, when
    /// a mutable grounded value appears, whose live value bytes cannot stand
    /// for, or when something does not fit. What the engine wrote is taken over
    /// by `finish_transform`.
    pub fn transform(&mut self, patterns: &Vec<Atom>, templates: &Vec<Atom>) -> (r: Option<
        TransformStep,
    >)
        requires
            old(self).wf(),
        ensures
            final(self).wf(),
            ({
                let (ps, ts) = (terms(patterns@), terms(templates@));
                let clean = clean_prefix(ps + ts) == ps.len() + ts.len();
                &&& final(self)@ == if rewritable(ps, ts) {
                    old(self)@.registering(ps + ts)
                } else {
                    old(self)@
                }
                &&& match r {
                    None => !rewritable(ps, ts) || !clean || exec_tree(ps, ts) is None,
                    Some(TransformStep::Nothing) => {
                        &&& rewritable(ps, ts) && clean && exec_tree(ps, ts) is Some
                        &&& old(self)@.paths.len() == 0
                    },
                    Some(TransformStep::Run(plan)) => {
                        &&& rewritable(ps, ts) && clean
                        &&& old(self)@.paths.len() > 0
                        &&& old(self)@.plans(plan, ps, ts)
                    },
                }
            }),
    {
        let ghost (ps, ts) = (terms(patterns@), terms(templates@));
        proof {
            assert(ps.len() == patterns@.len() && ts.len() == templates@.len());
        }
        if patterns.len() == 0 || templates.len() == 0 || patterns.len() > MAX_FIELD - 1
            || templates.len() > MAX_FIELD - 1 {
            return None;
        }
        if !self.register_clean(patterns, templates) {
            return None;
        }
        proof {
            lemma_clean(ps + ts);
            assert forall|i: int| 0 <= i < ps.len() implies !has_mutable(#[trigger] ps[i]) by {
                assert((ps + ts)[i] == ps[i]);
            }
            assert forall|i: int| 0 <= i < ts.len() implies !has_mutable(#[trigger] ts[i]) by {
                assert((ps + ts)[ps.len() + i] == ts[i]);
            }
        }
        let (bytes, pat_off, tpl_off) = match encode_exec(patterns, templates) {
            Some(encoded) => encoded,
            None => {
                return None;
            },
        };
        if self.paths.len() == 0 {
            return Some(TransformStep::Nothing);
        }
        let anchor = slice_to_vec(self.paths.path(0).as_slice());
        proof {
            lemma_listing(self.paths);
            assert(self.paths.rows().to_set().contains(self.paths.rows()[0]));
        }
        Some(TransformStep::Run(TransformPlan { bytes, pat_off, tpl_off, anchor }))
    }

    /// Takes over what a rewrite wrote, and returns the engine's result: the
    /// number of matches, and whether anything was new. Templates can write
    /// variables, and everything derived has fallen behind.
    pub fn finish_transform(&mut self, written: &Vec<Vec<u8>>, result: (usize, bool)) -> (r: (
        usize,
        bool,
    ))
        requires
            old(self).wf(),
            old(self)@.gen < u64::MAX,
        ensures
            final(self).wf(),
            final(self)@ == old(self)@.loading_paths(byte_rows(written@).to_set()),
            r == result,
    {
        self.load_paths(written);
        result
    }
}

/// The comma is encoded as the symbol at the head of a pattern.
proof fn lemma_comma_symbol()
    ensures
        encode_utf8(","@) == seq![44u8],
{
    reveal_strlit(",");
    is_ascii_chars_encode_utf8(","@);
    assert(encode_utf8(","@) =~= seq![44u8]);
}

/// A row behind a symbol is encoded as the row itself, behind that symbol.
proof fn lemma_row_behind_symbol(name: Seq<char>, ts: Seq<Term>, s: Lowering, m: Mode)
    requires
        1 <= encode_utf8(name).len() <= 63,
    ensures
        lower_all(seq![Term::Symbol(name)] + ts, s, m).0 == lower_all(ts, s, m).0,
        lower_all(seq![Term::Symbol(name)] + ts, s, m).1 == match lower_all(ts, s, m).1 {
            Some(trees) => Some(seq![Tree::Sym(encode_utf8(name))] + trees),
            None => None,
        },
    decreases ts.len(),
{
    let all = seq![Term::Symbol(name)] + ts;
    if ts.len() == 0 {
        assert(lower(Term::Symbol(name), s, m) == (s, Some(Tree::Sym(encode_utf8(name)))));
        assert(lower_all(ts, s, m) == (s, Some(Seq::<Tree>::empty())));
        assert(all.drop_last() =~= Seq::empty());
        assert(lower_all(all.drop_last(), s, m) == (s, Some(Seq::<Tree>::empty())));
        assert(all.last() == Term::Symbol(name));
        assert(Seq::<Tree>::empty().push(Tree::Sym(encode_utf8(name))) =~= seq![
            Tree::Sym(encode_utf8(name)),
        ] + Seq::<Tree>::empty());
    } else {
        lemma_row_behind_symbol(name, ts.drop_last(), s, m);
        assert(all.drop_last() =~= seq![Term::Symbol(name)] + ts.drop_last());
        assert(all.last() == ts.last());
        if let Some(front) = lower_all(ts.drop_last(), s, m).1 {
            let s1 = lower_all(ts.drop_last(), s, m).0;
            if let Some(tree) = lower(ts.last(), s1, m).1 {
                let head = seq![Tree::Sym(encode_utf8(name))];
                assert((head + front).push(tree) =~= head + front.push(tree));
            }
        }
    }
}

/// The templates of a rewrite stand behind the comma of their row.
pub proof fn lemma_template_trees(ts: Seq<Term>, s: Lowering, m: Mode)
    requires
        lower(joined(ts), s, m).1 is Some,
    ensures
        lower_all(ts, s, m).1 == Some(lower(joined(ts), s, m).1->0->Expr_0.skip(1)),
{
    lemma_comma_symbol();
    lemma_row_behind_symbol(","@, ts, s, m);
    let row = seq![Term::Symbol(","@)] + ts;
    assert(joined(ts)->Expression_0 == row);
    let trees = lower_all(ts, s, m).1->0;
    assert((seq![Tree::Sym(encode_utf8(","@))] + trees).skip(1) =~= trees);
}

/// A rewrite matches what the query of its patterns matches: the engine is handed
/// the very pattern of the query `(, p1 .. pn)`, so it meets the query's matches;
/// and the templates are encoded with the variables of that pattern, so each of
/// them is emitted under the bindings of the match.
pub proof fn rewrites_match_their_query(ps: Seq<Term>, ts: Seq<Term>)
    requires
        rewritable(ps, ts),
        exec_tree(ps, ts) is Some,
    ensures
        pattern_of(joined(ps), Seq::empty()) is Some,
        exec_tree(ps, ts)->0->Expr_0.len() == 4,
        exec_tree(ps, ts)->0->Expr_0[2] == pattern_tree(
            pattern_of(joined(ps), Seq::empty()).unwrap().1,
        ),
        lower(
            joined(ts),
            pattern_of(joined(ps), Seq::empty()).unwrap().0,
            Mode::Query(Seq::empty()),
        ).1 == Some(exec_tree(ps, ts)->0->Expr_0[3]),
{
    let m = Mode::Query(Seq::empty());
    let s = fresh_lowering();
    let kids = seq![Term::Symbol("exec"@), Term::Symbol("0"@), joined(ps), joined(ts)];
    let two = kids.take(2);
    let three = kids.take(3);
    assert(kids.drop_last() =~= three);
    assert(three.drop_last() =~= two);
    assert(kids.last() == joined(ts));
    assert(three.last() == joined(ps));
    let one = kids.take(1);
    assert(two.drop_last() =~= one);
    assert(two.last() == Term::Symbol("0"@));
    assert(one.drop_last() =~= Seq::empty());
    assert(one.last() == Term::Symbol("exec"@));
    assert(lower_all(one.drop_last(), s, m) == (s, Some(Seq::<Tree>::empty())));
    assert(lower(Term::Symbol("exec"@), s, m).0 == s);
    assert(lower(Term::Symbol("0"@), s, m).0 == s);
    assert(lower_all(one, s, m).0 == s);
    assert(lower_all(two, s, m).0 == s);
    let all = lower_all(kids, s, m).1->0;
    lemma_lower_all_fits(kids, s, m);
    let front = lower_all(three, s, m).1->0;
    lemma_lower_all_fits(three, s, m);
    assert(all[2] == front[2]);
    assert(lower(joined(ps), s, m).1 == Some(front[2]));
    let s3 = lower_all(three, s, m).0;
    assert(lower(joined(ts), s3, m).1 == Some(all[3]));
    lemma_comma_symbol();
    lemma_row_behind_symbol(","@, ps, s, m);
    let row = seq![Term::Symbol(","@)] + ps;
    assert(row.skip(1) =~= ps);
    assert(row[0] == Term::Symbol(","@));
    assert(conjuncts_of(joined(ps)) == Some(ps));
    assert(factors(joined(ps)) == ps);
    assert(s3 == lower(joined(ps), s, m).0);
}

/// Planning a rewrite makes the grounded values of its patterns and templates known
/// where none of them is mutable, and changes nothing else.
pub proof fn rewrites_know_their_values(s: SpaceState, all: Seq<Term>)
    ensures
        s.registering(all).paths == s.paths,
        s.registering(all).gen == s.gen,
        s.registering(all).var_free == s.var_free,
        s.registering(all).reg.by_id == s.reg.by_id,
        (forall|i: int| 0 <= i < all.len() ==> !has_mutable(#[trigger] all[i])) ==> forall|
            x: Term,
            i: int,
        |
            0 <= i < all.len() && #[trigger] part_of(x, all[i]) && x is Grounded ==> s.registering(
                all,
            ).reg.by_display.contains_key(encode_utf8(x->Grounded_0.display)),
        clean_prefix(all) <= all.len(),
        clean_prefix(all) == all.len() <==> forall|i: int|
            0 <= i < all.len() ==> !has_mutable(#[trigger] all[i]),
{
    lemma_clean(all);
    let known = all.take(clean_prefix(all) as int);
    registering_rows_makes_values_known(s.reg, known);
    if forall|i: int| 0 <= i < all.len() ==> !has_mutable(#[trigger] all[i]) {
        assert(known =~= all);
        assert forall|x: Term, i: int|
            0 <= i < all.len() && #[trigger] part_of(x, all[i]) && x is Grounded implies s.registering(
            all,
        ).reg.by_display.contains_key(encode_utf8(x->Grounded_0.display)) by {
            assert(!has_mutable(all[i]));
            parts_decide(all[i]);
            assert(part_of(x, known[i]));
        }
    }
}

/// A rewrite is possible with 1 to 62 patterns and as many templates, and runs the atom
/// `(exec 0 (, patterns) (, templates))`. Its plan hands over the encoding of that atom
/// with the places of the two rows, and the first stored path as its anchor.
pub proof fn rewrites_run_an_exec_atom(
    s: SpaceState,
    plan: TransformPlan,
    ps: Seq<Term>,
    ts: Seq<Term>,
)
    ensures
        rewritable(ps, ts) <==> 0 < ps.len() < 63 && 0 < ts.len() < 63,
        joined(ps) == Term::Expression(seq![Term::Symbol(","@)] + ps, false),
        exec_term(ps, ts) == Term::Expression(
            seq![
                Term::Symbol("exec"@),
                Term::Symbol("0"@),
                Term::Expression(seq![Term::Symbol(","@)] + ps, false),
                Term::Expression(seq![Term::Symbol(","@)] + ts, false),
            ],
            false,
        ),
        s.plans(plan, ps, ts) && s.paths.finite() ==> {
            let tree = exec_tree(ps, ts)->0;
            let (p, t) = (plan.pat_off as int, plan.tpl_off as int);
            &&& exec_tree(ps, ts) is Some
            &&& plan.bytes@ == flat(tree)
            &&& 0 <= p <= t <= plan.bytes@.len()
            &&& plan.bytes@.subrange(p, t) == flat(tree->Expr_0[2])
            &&& plan.bytes@.subrange(t, plan.bytes@.len() as int) == flat(tree->Expr_0[3])
            &&& s.paths.contains(plan.anchor@)
            &&& forall|q: Seq<u8>| #[trigger]
                s.paths.contains(q) ==> q == plan.anchor@ || path_lt(plan.anchor@, q)
        },
{
    if s.plans(plan, ps, ts) && s.paths.finite() {
        let rows = listing(s.paths);
        lemma_listing_lists(s.paths);
        assert forall|q: Seq<u8>| #[trigger] s.paths.contains(q) implies q == plan.anchor@ || path_lt(
            plan.anchor@,
            q,
        ) by {
            assert(rows.to_set().contains(q));
            let i = choose|i: int| 0 <= i < rows.len() && rows[i] == q;
            assert(rows[i] == q);
            assert(i > 0 ==> path_lt(rows[0], rows[i]));
        }
    }
}

} // verus!
