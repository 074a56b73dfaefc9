//! Evaluation by rewriting.
//!
//! An expression is evaluated against the `(= lhs rhs)` equations of a space by
//! running rewrite rules in a copy of it. The rule engine runs outside; here are
//! the copy with the seed, the rules with their fuel, the question which terms
//! were reached, and the choice of those that no equation matches.
use vstd::prelude::*;
use vstd::utf8::{encode_utf8, is_ascii_chars_encode_utf8};

use crate::atom::{terms, Atom, Term, Variable};
use crate::encode::{lemma_lower_all_fits, lower, lower_all, Lowering, Mode};
use crate::pattern::fresh_lowering;
use crate::space::MorkSpace;
use crate::text::push_text;
use crate::tree::{flat, Tree};

verus! {

/// The seed of an evaluation: `(mm2-ev <expr>)`.
pub open spec fn seed_term(expr: Term) -> Term {
    Term::Expression(seq![Term::Symbol("mm2-ev"@), expr], false)
}

/// The question whether an equation matches a term: `(= <term> $mm2_reduct)`.
pub open spec fn probe_term(term: Term) -> Term {
    Term::Expression(
        seq![
            Term::Symbol("="@),
            term,
            Term::Variable(Variable { name: "mm2_reduct"@, id: 0 }),
        ],
        false,
    )
}

/// A text a number of times.
pub open spec fn times(text: Seq<char>, n: nat) -> Seq<char>
    decreases n,
{
    if n == 0 {
        Seq::empty()
    } else {
        times(text, (n - 1) as nat) + text
    }
}

/// The fuel for some rounds, a Peano numeral: `(S (S .. Z))`.
pub open spec fn peano(n: nat) -> Seq<char>
    decreases n,
{
    if n == 0 {
        "Z"@
    } else {
        "(S "@ + peano((n - 1) as nat) + ")"@
    }
}

/// The rules of an evaluation. A rule is consumed when it fires, so a scheduler
/// re-arms the rewrite rule each round and burns one unit of fuel.
pub open spec fn reduce_rules(max_steps: nat) -> Seq<char> {
    "\n(exec (IC 0 0 "@ + peano(max_steps)
        + ")\n               (, (exec (IC $x $y (S $c)) $sp $st)\n                  ((exec $x) $p $t))"@
        + "\n               (, (exec (IC $y $x $c) $sp $st)\n                  (exec (R $x) $p $t)))"@
        + "\n((exec 0) (, (mm2-ev $x) (= $x $y)) (, (mm2-ev $y)))\n"@
}

/// Nesting a numeral is repeating its two ends.
proof fn lemma_peano_ends(n: nat)
    ensures
        peano(n) == times("(S "@, n) + "Z"@ + times(")"@, n),
    decreases n,
{
    if n == 0 {
        assert(peano(n) =~= times("(S "@, n) + "Z"@ + times(")"@, n));
    } else {
        let m = (n - 1) as nat;
        lemma_peano_ends(m);
        lemma_times_front("(S "@, m);
        assert(peano(n) =~= ("(S "@ + times("(S "@, m)) + "Z"@ + (times(")"@, m) + ")"@));
    }
}

/// A repeated text grows at either end.
proof fn lemma_times_front(text: Seq<char>, n: nat)
    ensures
        text + times(text, n) == times(text, n + 1),
    decreases n,
{
    if n == 0 {
        assert(text + times(text, 0) =~= times(text, 0) + text);
    } else {
        lemma_times_front(text, (n - 1) as nat);
        assert(text + times(text, n) =~= (text + times(text, (n - 1) as nat)) + text);
    }
}

/// Appends a text a number of times.
fn push_times(s: &mut String, text: &str, n: usize)
    ensures
        final(s)@ == old(s)@ + times(text@, n as nat),
{
    let ghost before = s@;
    let mut i: usize = 0;
    proof {
        assert(s@ =~= before + times(text@, 0));
    }
    while i < n
        invariant
            i <= n,
            s@ == before + times(text@, i as nat),
        decreases n - i,
    {
        push_text(s, text);
        proof {
            assert(s@ =~= before + times(text@, (i + 1) as nat));
        }
        i = i + 1;
    }
}

/// The rules of an evaluation with fuel for `max_steps` rounds.
pub fn reduce_program(max_steps: usize) -> (r: String)
    ensures
        r@ == reduce_rules(max_steps as nat),
{
    let mut s = String::new();
    push_text(&mut s, "\n(exec (IC 0 0 ");
    push_times(&mut s, "(S ", max_steps);
    push_text(&mut s, "Z");
    push_times(&mut s, ")", max_steps);
    push_text(
        &mut s,
        ")\n               (, (exec (IC $x $y (S $c)) $sp $st)\n                  ((exec $x) $p $t))",
    );
    push_text(
        &mut s,
        "\n               (, (exec (IC $y $x $c) $sp $st)\n                  (exec (R $x) $p $t)))",
    );
    push_text(
        &mut s,
        "\n((exec 0) (, (mm2-ev $x) (= $x $y)) (, (mm2-ev $y)))\n",
    );
    proof {
        lemma_peano_ends(max_steps as nat);
        assert(s@ =~= reduce_rules(max_steps as nat));
    }
    s
}

/// The question which terms an evaluation reached: `(mm2-ev $t)`.
pub fn reached_query() -> (r: Atom)
    ensures
        r@ == seed_term(Term::Variable(Variable { name: "t"@, id: 0 })),
{
    let mut kids: Vec<Atom> = Vec::new();
    kids.push(Atom::sym("mm2-ev"));
    kids.push(Atom::var("t"));
    proof {
        assert(terms(kids@) =~= seed_term(
            Term::Variable(Variable { name: "t"@, id: 0 }),
        )->Expression_0);
    }
    Atom::expr(kids)
}

/// The question whether an equation matches a term.
pub fn redex_probe(term: &Atom) -> (r: Atom)
    ensures
        r@ == probe_term(term@),
{
    let mut kids: Vec<Atom> = Vec::new();
    kids.push(Atom::sym("="));
    kids.push(term.clone());
    kids.push(Atom::var("mm2_reduct"));
    proof {
        assert(terms(kids@) =~= probe_term(term@)->Expression_0);
    }
    Atom::expr(kids)
}

/// The terms that no equation matches, in their order.
pub open spec fn irreducible_terms(ts: Seq<Term>, redexes: Seq<bool>) -> Seq<Term>
    decreases ts.len(),
{
    if ts.len() == 0 {
        Seq::empty()
    } else {
        let front = irreducible_terms(ts.drop_last(), redexes);
        if redexes[ts.len() - 1] {
            front
        } else {
            front.push(ts.last())
        }
    }
}

/// The results of an evaluation: of the terms that were reached, those that no
/// equation matches. A term without a matching equation is its own result.
pub fn irreducible(reached: &Vec<Atom>, redexes: &Vec<bool>) -> (r: Vec<Atom>)
    requires
        reached@.len() <= redexes@.len(),
    ensures
        terms(r@) == irreducible_terms(terms(reached@), redexes@),
{
    let ghost ts = terms(reached@);
    let mut out: Vec<Atom> = Vec::new();
    let mut i: usize = 0;
    proof {
        assert(terms(out@) =~= Seq::empty());
    }
    while i < reached.len()
        invariant
            i <= reached@.len() <= redexes@.len(),
            ts == terms(reached@),
            terms(out@) == irreducible_terms(ts.take(i as int), redexes@),
        decreases reached@.len() - i,
    {
        let ghost before = out@;
        proof {
            assert(ts.take(i + 1).drop_last() =~= ts.take(i as int));
            assert(ts.take(i + 1).last() == reached@[i as int]@);
        }
        if !redexes[i] {
            let a = reached[i].clone();
            out.push(a);
            proof {
                assert(terms(out@) =~= terms(before).push(a@));
            }
        }
        i = i + 1;
    }
    proof {
        assert(ts.take(ts.len() as int) =~= ts);
    }
    out
}

/// The results of an evaluation are exactly the reached terms that no equation
/// matches.
pub proof fn results_are_the_irreducible_terms(ts: Seq<Term>, redexes: Seq<bool>, x: Term)
    requires
        ts.len() <= redexes.len(),
    ensures
        irreducible_terms(ts, redexes).contains(x) <==> exists|i: int|
            0 <= i < ts.len() && !redexes[i] && #[trigger] ts[i] == x,
    decreases ts.len(),
{
    let all = irreducible_terms(ts, redexes);
    if ts.len() > 0 {
        let init = ts.drop_last();
        results_are_the_irreducible_terms(init, redexes, x);
        let front = irreducible_terms(init, redexes);
        if all.contains(x) {
            let k = choose|k: int| 0 <= k < all.len() && all[k] == x;
            if k < front.len() {
                assert(front[k] == x);
                let i = choose|i: int| 0 <= i < init.len() && !redexes[i] && #[trigger] init[i] == x;
                assert(ts[i] == x);
            } else {
                assert(ts[ts.len() - 1] == x);
            }
        }
        if exists|i: int| 0 <= i < ts.len() && !redexes[i] && #[trigger] ts[i] == x {
            let i = choose|i: int| 0 <= i < ts.len() && !redexes[i] && #[trigger] ts[i] == x;
            if i < init.len() {
                assert(init[i] == x);
                let k = choose|k: int| 0 <= k < front.len() && front[k] == x;
                assert(all[k] == x);
            } else {
                assert(all[all.len() - 1] == x);
            }
        }
    }
}

/// A row starts with the encoding of its first term.
proof fn lemma_row_head(ts: Seq<Term>, s: Lowering, m: Mode)
    requires
        ts.len() > 0,
        lower_all(ts, s, m).1 is Some,
    ensures
        lower_all(ts, s, m).1->0.len() == ts.len(),
        lower(ts[0], s, m).1 == Some(lower_all(ts, s, m).1->0[0]),
    decreases ts.len(),
{
    lemma_lower_all_fits(ts, s, m);
    let init = ts.drop_last();
    if ts.len() > 1 {
        lemma_row_head(init, s, m);
        assert(init[0] == ts[0]);
    } else {
        assert(init =~= Seq::empty());
        assert(lower_all(init, s, m) == (s, Some(Seq::<Tree>::empty())));
    }
}

/// Only equations answer a probe, never the seeds of an evaluation: a probe asks
/// for three parts with `=` at the head, a seed has two with `mm2-ev` there.
pub proof fn probes_ask_for_equations(term: Term, s: Lowering, m: Mode)
    ensures
        lower(probe_term(term), s, m).1 matches Some(tree) ==> tree is Expr && tree->Expr_0.len()
            == 3 && tree->Expr_0[0] == Tree::Sym(encode_utf8("="@)),
        lower(seed_term(term), s, m).1 matches Some(tree) ==> tree is Expr && tree->Expr_0.len()
            == 2 && tree->Expr_0[0] == Tree::Sym(encode_utf8("mm2-ev"@)),
{
    let (ps, ss) = (probe_term(term)->Expression_0, seed_term(term)->Expression_0);
    if lower_all(ps, s, m).1 is Some {
        lemma_row_head(ps, s, m);
    }
    if lower_all(ss, s, m).1 is Some {
        lemma_row_head(ss, s, m);
    }
}

/// The tree is an expression whose head is neither `=` nor a variable, as those of
/// the seeds and the rules of an evaluation are.
pub open spec fn is_scaffolding(t: Tree) -> bool {
    &&& t is Expr
    &&& t->Expr_0.len() > 0
    &&& match t->Expr_0[0] {
        Tree::Sym(raw) => raw != encode_utf8("="@),
        Tree::Expr(_) => true,
        _ => false,
    }
}

/// The seeds of an evaluation are no equations.
pub proof fn seeds_are_scaffolding(term: Term, s: Lowering, m: Mode)
    ensures
        lower(seed_term(term), s, m).1 matches Some(tree) ==> is_scaffolding(tree),
{
    probes_ask_for_equations(term, s, m);
    reveal_strlit("=");
    reveal_strlit("mm2-ev");
    is_ascii_chars_encode_utf8("="@);
    is_ascii_chars_encode_utf8("mm2-ev"@);
    assert(encode_utf8("="@).len() == 1);
    assert(encode_utf8("mm2-ev"@).len() == 6);
}

/// What a matcher takes for a match has the pattern's arity and its head symbol,
/// or a variable in the place of the head. `hits` says which facts match a
/// pattern.
pub open spec fn tells_heads_apart(hits: spec_fn(Tree, Tree) -> bool) -> bool {
    forall|p: Tree, f: Tree| #[trigger]
        hits(p, f) && p is Expr && p->Expr_0.len() > 0 && p->Expr_0[0] is Sym && f is Expr ==> {
            &&& f->Expr_0.len() == p->Expr_0.len()
            &&& f->Expr_0[0] == p->Expr_0[0] || f->Expr_0[0] is NewVar || f->Expr_0[0] is VarRef
        }
}

/// Some equation among the paths matches the term: its probe has an answer.
pub open spec fn is_redex(
    t: Term,
    ids: Seq<usize>,
    paths: Set<Seq<u8>>,
    hits: spec_fn(Tree, Tree) -> bool,
) -> bool {
    lower(probe_term(t), fresh_lowering(), Mode::Query(ids)).1 matches Some(p) && exists|f: Tree|
        f.fits() && paths.contains(flat(f)) && #[trigger] hits(p, f)
}

/// An evaluation left nothing but scaffolding beside the atoms of the space.
pub open spec fn leaves_scaffolding(live: Set<Seq<u8>>, left: Set<Seq<u8>>) -> bool {
    &&& live.subset_of(left)
    &&& forall|f: Tree|
        f.fits() && #[trigger] left.contains(flat(f)) && !live.contains(flat(f))
            ==> is_scaffolding(f)
}

/// A probe on the copy in which an expression is evaluated is a probe on the space
/// itself: a term is a redex there exactly when it is one in the space.
pub proof fn probes_see_the_live_space(
    t: Term,
    ids: Seq<usize>,
    live: Set<Seq<u8>>,
    left: Set<Seq<u8>>,
    hits: spec_fn(Tree, Tree) -> bool,
)
    requires
        leaves_scaffolding(live, left),
        tells_heads_apart(hits),
    ensures
        is_redex(t, ids, left, hits) == is_redex(t, ids, live, hits),
{
    probes_ask_for_equations(t, fresh_lowering(), Mode::Query(ids));
    if is_redex(t, ids, left, hits) {
        let p = lower(probe_term(t), fresh_lowering(), Mode::Query(ids)).1->0;
        let f = choose|f: Tree| f.fits() && left.contains(flat(f)) && #[trigger] hits(p, f);
        assert(hits(p, f));
        if !live.contains(flat(f)) {
            assert(is_scaffolding(f));
        }
    }
    if is_redex(t, ids, live, hits) {
        let p = lower(probe_term(t), fresh_lowering(), Mode::Query(ids)).1->0;
        let f = choose|f: Tree| f.fits() && live.contains(flat(f)) && #[trigger] hits(p, f);
        assert(hits(p, f) && left.contains(flat(f)));
    }
}

/// The results of an evaluation are in normal form in the space itself: no
/// equation of the space matches a result.
pub proof fn results_are_normal_in_the_live_space(
    reached: Seq<Term>,
    redexes: Seq<bool>,
    ids: Seq<usize>,
    live: Set<Seq<u8>>,
    left: Set<Seq<u8>>,
    hits: spec_fn(Tree, Tree) -> bool,
    x: Term,
)
    requires
        reached.len() <= redexes.len(),
        forall|i: int|
            0 <= i < reached.len() ==> redexes[i] == is_redex(
                #[trigger] reached[i],
                ids,
                left,
                hits,
            ),
        leaves_scaffolding(live, left),
        tells_heads_apart(hits),
    ensures
        irreducible_terms(reached, redexes).contains(x) <==> reached.contains(x) && !is_redex(
            x,
            ids,
            live,
            hits,
        ),
{
    results_are_the_irreducible_terms(reached, redexes, x);
    probes_see_the_live_space(x, ids, live, left, hits);
    if reached.contains(x) && !is_redex(x, ids, live, hits) {
        let i = choose|i: int| 0 <= i < reached.len() && reached[i] == x;
        assert(!redexes[i] && reached[i] == x);
    }
}

/// Each reached term is the seed's expression, or an equation of the space rewrote
/// a term to it that was reached in an earlier round.
pub open spec fn reached_by_rewriting(
    reached: Seq<Term>,
    expr: Term,
    round: spec_fn(Term) -> nat,
    ids: Seq<usize>,
    live: Set<Seq<u8>>,
    hits: spec_fn(Tree, Tree) -> bool,
) -> bool {
    forall|x: Term| #[trigger]
        reached.contains(x) ==> x == expr || exists|y: Term| #[trigger]
            reached.contains(y) && round(y) < round(x) && is_redex(y, ids, live, hits)
}

/// Nothing but the expression is reached from an expression that no equation
/// matches.
proof fn lemma_inert_expressions_reach_nothing(
    reached: Seq<Term>,
    expr: Term,
    round: spec_fn(Term) -> nat,
    ids: Seq<usize>,
    live: Set<Seq<u8>>,
    hits: spec_fn(Tree, Tree) -> bool,
    x: Term,
)
    requires
        reached_by_rewriting(reached, expr, round, ids, live, hits),
        !is_redex(expr, ids, live, hits),
        reached.contains(x),
    ensures
        x == expr,
    decreases round(x),
{
    if x != expr {
        let y = choose|y: Term| #[trigger]
            reached.contains(y) && round(y) < round(x) && is_redex(y, ids, live, hits);
        lemma_inert_expressions_reach_nothing(reached, expr, round, ids, live, hits, y);
    }
}

/// An expression that no equation of the space matches is its own and only
/// result.
pub proof fn inert_expressions_return_themselves(
    reached: Seq<Term>,
    redexes: Seq<bool>,
    expr: Term,
    round: spec_fn(Term) -> nat,
    ids: Seq<usize>,
    live: Set<Seq<u8>>,
    left: Set<Seq<u8>>,
    hits: spec_fn(Tree, Tree) -> bool,
)
    requires
        reached.no_duplicates(),
        reached.contains(expr),
        reached_by_rewriting(reached, expr, round, ids, live, hits),
        !is_redex(expr, ids, live, hits),
        reached.len() <= redexes.len(),
        forall|i: int|
            0 <= i < reached.len() ==> redexes[i] == is_redex(
                #[trigger] reached[i],
                ids,
                left,
                hits,
            ),
        leaves_scaffolding(live, left),
        tells_heads_apart(hits),
    ensures
        irreducible_terms(reached, redexes) == seq![expr],
{
    assert forall|i: int| 0 <= i < reached.len() implies reached[i] == expr by {
        assert(reached.contains(reached[i]));
        lemma_inert_expressions_reach_nothing(
            reached,
            expr,
            round,
            ids,
            live,
            hits,
            reached[i],
        );
    }
    if reached.len() > 1 {
        assert(reached[0] == reached[1]);
    }
    assert(reached =~= seq![expr]);
    probes_see_the_live_space(expr, ids, live, left, hits);
    assert(reached[0] == expr);
    assert(!redexes[0]);
    assert(reached.drop_last() =~= Seq::empty());
    assert(irreducible_terms(reached.drop_last(), redexes) =~= Seq::empty());
    assert(irreducible_terms(reached, redexes) =~= seq![expr]);
}

/// The results of an evaluation: none when its rules could not be loaded,
/// otherwise the terms that were reached and that no equation matches.
pub fn reduce(rules_loaded: bool, reached: &Vec<Atom>, redexes: &Vec<bool>) -> (r: Vec<Atom>)
    requires
        reached@.len() <= redexes@.len(),
    ensures
        terms(r@) == if rules_loaded {
            irreducible_terms(terms(reached@), redexes@)
        } else {
            Seq::empty()
        },
{
    if !rules_loaded {
        let none: Vec<Atom> = Vec::new();
        proof {
            assert(terms(none@) =~= Seq::empty());
        }
        return none;
    }
    irreducible(reached, redexes)
}

impl MorkSpace {
    /// The copy in which an expression is evaluated: the space with the seed. The
    /// space itself never sees the evaluation.
    pub fn reduce_scratch(&self, expr: &Atom) -> (r: MorkSpace)
        requires
            self.wf(),
            self@.gen < u64::MAX,
            self@.rejected < usize::MAX,
        ensures
            r.wf(),
            r@ == self@.adding(seed_term(expr@)),
    {
        let mut scratch = self.fork();
        let mut kids: Vec<Atom> = Vec::new();
        kids.push(Atom::sym("mm2-ev"));
        kids.push(expr.clone());
        proof {
            assert(terms(kids@) =~= seed_term(expr@)->Expression_0);
        }
        scratch.add(Atom::expr(kids));
        scratch
    }
}

/// The results of an evaluation are the reached terms without the redexes, in their
/// order and as often as they were reached.
pub proof fn results_keep_their_order(ts: Seq<Term>, redexes: Seq<bool>)
    requires
        ts.len() <= redexes.len(),
    ensures
        irreducible_terms(ts, redexes) == Seq::new(
            ts.len(),
            |i: int| (ts[i], redexes[i]),
        ).filter(|x: (Term, bool)| !x.1).map_values(|x: (Term, bool)| x.0),
    decreases ts.len(),
{
    reveal(Seq::filter);
    let keep = |x: (Term, bool)| !x.1;
    let pick = |x: (Term, bool)| x.0;
    let all = Seq::new(ts.len(), |i: int| (ts[i], redexes[i]));
    if ts.len() > 0 {
        let init = ts.drop_last();
        results_keep_their_order(init, redexes);
        assert(all.drop_last() =~= Seq::new(init.len(), |i: int| (init[i], redexes[i])));
        let front = all.drop_last().filter(keep);
        assert(all.last() == (ts.last(), redexes[ts.len() - 1]));
        if !redexes[ts.len() - 1] {
            assert(front.push(all.last()).map_values(pick) =~= front.map_values(pick).push(
                ts.last(),
            ));
        }
    }
    assert(irreducible_terms(ts, redexes) =~= all.filter(keep).map_values(pick));
}

} // verus!
