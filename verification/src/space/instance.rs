//! What a rewrite writes: its templates, filled in with what each match binds.
//!
//! The rewrite engine runs outside. It fills the bytes of a template in with the
//! bytes that a match has bound; the filled bytes are those of the template with
//! its variables replaced by the values of the answer.
use vstd::prelude::*;

use crate::answer::occurs;
use crate::atom::{Term, Variable};
use crate::codec::modes_agree;
use crate::encode::{lemma_lower_all_fits, lower, lower_all, Lowering, Mode};
use crate::pattern::{fresh_lowering, pattern_of};
use crate::registry::{has_mutable, has_variable};
use crate::space::transform::{
    exec_tree, joined, lemma_template_trees, rewritable, rewrites_match_their_query,
};
use crate::space::{added_atoms_are_held, stored_value_path, value_path, SpaceState};
use crate::tree::{flat, Tree};

verus! {

/// A term with its variables replaced by their values.
pub open spec fn instance(t: Term, value: spec_fn(Variable) -> Term) -> Term
    decreases t,
{
    match t {
        Term::Variable(v) => value(v),
        Term::Expression(ts, evaluated) => Term::Expression(
            Seq::new(
                ts.len(),
                |i: int|
                    if 0 <= i < ts.len() {
                        instance(ts[i], value)
                    } else {
                        arbitrary()
                    },
            ),
            evaluated,
        ),
        _ => t,
    }
}

/// A tree with the variables that it refers to filled in.
pub open spec fn filled(t: Tree, spans: Seq<Tree>) -> Tree
    decreases t,
{
    match t {
        Tree::VarRef(k) => spans[k as int],
        Tree::Expr(ts) => Tree::Expr(
            Seq::new(
                ts.len(),
                |i: int|
                    if 0 <= i < ts.len() {
                        filled(ts[i], spans)
                    } else {
                        arbitrary()
                    },
            ),
        ),
        _ => t,
    }
}

/// Every variable has a value without variables or mutable values, which can be
/// encoded.
pub open spec fn binds_ground(vars: Seq<Variable>, value: spec_fn(Variable) -> Term) -> bool {
    forall|k: int|
        0 <= k < vars.len() ==> {
            let x = value(#[trigger] vars[k]);
            &&& !has_mutable(x)
            &&& !has_variable(x)
            &&& value_path(x) is Some
        }
}

/// The encodings of the values of some variables.
pub open spec fn bound_spans(vars: Seq<Variable>, value: spec_fn(Variable) -> Term) -> Seq<Tree> {
    Seq::new(
        vars.len(),
        |k: int| lower(value(vars[k]), fresh_lowering(), Mode::ValueOnly).1->0,
    )
}

/// Every variable of the term is among some variables.
pub open spec fn draws_on(t: Term, vars: Seq<Variable>) -> bool {
    forall|v: Variable| #[trigger] occurs(v, t) ==> vars.contains(v)
}

/// The parts of a term draw on what the term draws on.
proof fn lemma_parts_draw_on(t: Term, vars: Seq<Variable>, i: int)
    requires
        t is Expression,
        0 <= i < t->Expression_0.len(),
        draws_on(t, vars),
    ensures
        draws_on(t->Expression_0[i], vars),
{
    let ts = t->Expression_0;
    assert forall|v: Variable| #[trigger] occurs(v, ts[i]) implies vars.contains(v) by {
        assert(occurs(v, t));
    }
}

/// A term without variables introduces none.
proof fn lemma_ground_meets_nothing(t: Term, s: Lowering, m: Mode)
    requires
        !has_mutable(t),
        !has_variable(t),
    ensures
        lower(t, s, m).0.vars == s.vars,
    decreases t, 0nat,
{
    if let Term::Expression(ts, _) = t {
        assert forall|i: int| 0 <= i < ts.len() implies !has_mutable(#[trigger] ts[i])
            && !has_variable(ts[i]) by {
            assert(t->Expression_0[i] == ts[i]);
        }
        lemma_ground_row_meets_nothing(ts, s, m);
    }
}

/// The same of a row of terms.
proof fn lemma_ground_row_meets_nothing(ts: Seq<Term>, s: Lowering, m: Mode)
    requires
        forall|i: int|
            0 <= i < ts.len() ==> !has_mutable(#[trigger] ts[i]) && !has_variable(ts[i]),
    ensures
        lower_all(ts, s, m).0.vars == s.vars,
    decreases ts, ts.len(),
{
    if ts.len() > 0 {
        let init = ts.drop_last();
        assert forall|i: int| 0 <= i < init.len() implies !has_mutable(#[trigger] init[i])
            && !has_variable(init[i]) by {
            assert(init[i] == ts[i]);
        }
        assert(ts.last() == ts[ts.len() - 1]);
        lemma_ground_row_meets_nothing(init, s, m);
        lemma_ground_meets_nothing(ts.last(), lower_all(init, s, m).0, m);
    }
}

/// The term holds no mutable value, and is stored under a path.
pub open spec fn is_stored_as(u: Term, p: Seq<u8>) -> bool {
    !has_mutable(u) && value_path(u) == Some(p) && stored_value_path(u) == Some(p)
}

/// Filling in the bytes of a template gives the bytes of its instance.
proof fn lemma_filled_templates_are_instances(
    t: Term,
    s: Lowering,
    m: Mode,
    value: spec_fn(Variable) -> Term,
    e: Lowering,
)
    requires
        lower(t, s, m).1 is Some,
        !has_mutable(t),
        draws_on(t, s.vars),
        binds_ground(s.vars, value),
        e.vars == Seq::<Variable>::empty(),
    ensures
        lower(t, s, m).0.vars == s.vars,
        !has_mutable(instance(t, value)),
        lower(instance(t, value), e, Mode::ValueOnly).0.vars == e.vars,
        lower(instance(t, value), e, Mode::ValueOnly).1 == Some(
            filled(lower(t, s, m).1->0, bound_spans(s.vars, value)),
        ),
    decreases t, 0nat,
{
    match t {
        Term::Variable(v) => {
            assert(occurs(v, t));
            s.vars.index_of_first_ensures(v);
            let k = s.vars.index_of_first(v)->0;
            assert(s.vars[k] == v);
            let x = value(s.vars[k]);
            modes_agree(x, e, Mode::ValueOnly, fresh_lowering(), Mode::ValueOnly);
            lemma_ground_meets_nothing(x, e, Mode::ValueOnly);
            assert(bound_spans(s.vars, value)[k] == lower(x, e, Mode::ValueOnly).1->0);
        },
        Term::Expression(ts, _) => {
            assert forall|i: int| 0 <= i < ts.len() implies !has_mutable(#[trigger] ts[i])
                && draws_on(ts[i], s.vars) by {
                assert(t->Expression_0[i] == ts[i]);
                lemma_parts_draw_on(t, s.vars, i);
            }
            lemma_filled_rows_are_instances(ts, s, m, value, e);
            let us = instance(t, value)->Expression_0;
            assert(us =~= Seq::new(ts.len(), |i: int| instance(ts[i], value)));
            let trees = lower_all(ts, s, m).1->0;
            lemma_lower_all_fits(ts, s, m);
            let spans = bound_spans(s.vars, value);
            assert(lower(t, s, m).1->0 == Tree::Expr(trees));
            assert(filled(Tree::Expr(trees), spans)->Expr_0 =~= Seq::new(
                trees.len(),
                |i: int| filled(trees[i], spans),
            ));
            assert forall|i: int| 0 <= i < us.len() implies !has_mutable(#[trigger] us[i]) by {
                assert(us[i] == instance(ts[i], value));
            }
        },
        _ => {},
    }
}

/// The same of a row of templates.
proof fn lemma_filled_rows_are_instances(
    ts: Seq<Term>,
    s: Lowering,
    m: Mode,
    value: spec_fn(Variable) -> Term,
    e: Lowering,
)
    requires
        lower_all(ts, s, m).1 is Some,
        forall|i: int|
            0 <= i < ts.len() ==> !has_mutable(#[trigger] ts[i]) && draws_on(ts[i], s.vars),
        binds_ground(s.vars, value),
        e.vars == Seq::<Variable>::empty(),
    ensures
        lower_all(ts, s, m).0.vars == s.vars,
        lower_all(ts, s, m).1->0.len() == ts.len(),
        forall|i: int|
            0 <= i < ts.len() ==> is_stored_as(
                instance(#[trigger] ts[i], value),
                flat(filled(lower_all(ts, s, m).1->0[i], bound_spans(s.vars, value))),
            ),
        ({
            let us = Seq::new(ts.len(), |i: int| instance(ts[i], value));
            let trees = lower_all(ts, s, m).1->0;
            let spans = bound_spans(s.vars, value);
            &&& lower_all(us, e, Mode::ValueOnly).0.vars == e.vars
            &&& lower_all(us, e, Mode::ValueOnly).1 == Some(
                Seq::new(trees.len(), |i: int| filled(trees[i], spans)),
            )
        }),
    decreases ts, ts.len(),
{
    let spans = bound_spans(s.vars, value);
    let us = Seq::new(ts.len(), |i: int| instance(ts[i], value));
    let trees = lower_all(ts, s, m).1->0;
    if ts.len() == 0 {
        assert(us =~= Seq::empty());
        assert(lower_all(us, e, Mode::ValueOnly) == (e, Some(Seq::<Tree>::empty())));
        assert(Seq::new(trees.len(), |i: int| filled(trees[i], spans)) =~= Seq::empty());
    } else {
        let init = ts.drop_last();
        assert forall|i: int| 0 <= i < init.len() implies !has_mutable(#[trigger] init[i])
            && draws_on(init[i], s.vars) by {
            assert(init[i] == ts[i]);
        }
        assert(ts.last() == ts[ts.len() - 1]);
        lemma_filled_rows_are_instances(init, s, m, value, e);
        let (s1, front) = (lower_all(init, s, m).0, lower_all(init, s, m).1->0);
        let heads = Seq::new(init.len(), |i: int| instance(init[i], value));
        assert(us.drop_last() =~= heads);
        assert(us.last() == instance(ts.last(), value));
        let e1 = lower_all(heads, e, Mode::ValueOnly).0;
        lemma_filled_templates_are_instances(ts.last(), s1, m, value, e1);
        lemma_filled_templates_are_instances(ts.last(), s1, m, value, fresh_lowering());
        assert(trees =~= front.push(trees.last()));
        assert(Seq::new(trees.len(), |i: int| filled(trees[i], spans)) =~= Seq::new(
            front.len(),
            |i: int| filled(front[i], spans),
        ).push(filled(trees.last(), spans)));
        assert forall|i: int| 0 <= i < ts.len() implies is_stored_as(
            instance(#[trigger] ts[i], value),
            flat(filled(trees[i], spans)),
        ) by {
            if i < init.len() {
                assert(init[i] == ts[i]);
                assert(trees[i] == front[i]);
            }
        }
    }
}

/// The instances of some templates under some answers, answer by answer.
pub open spec fn instances(ts: Seq<Term>, answers: Seq<spec_fn(Variable) -> Term>) -> Seq<Term>
    decreases answers.len(),
{
    if answers.len() == 0 {
        Seq::empty()
    } else {
        instances(ts, answers.drop_last()) + Seq::new(
            ts.len(),
            |j: int| instance(ts[j], answers.last()),
        )
    }
}

/// A term is an instance of one of the templates under one of the answers.
pub open spec fn is_instance(
    u: Term,
    ts: Seq<Term>,
    answers: Seq<spec_fn(Variable) -> Term>,
) -> bool {
    exists|i: int, j: int|
        0 <= i < answers.len() && 0 <= j < ts.len() && u == #[trigger] instance(
            ts[j],
            answers[i],
        )
}

/// The instances are those of each template under each answer.
proof fn lemma_instances(ts: Seq<Term>, answers: Seq<spec_fn(Variable) -> Term>, u: Term)
    ensures
        instances(ts, answers).contains(u) <==> is_instance(u, ts, answers),
    decreases answers.len(),
{
    let all = instances(ts, answers);
    if answers.len() > 0 {
        let init = answers.drop_last();
        let front = instances(ts, init);
        let n = answers.len() - 1;
        lemma_instances(ts, init, u);
        if all.contains(u) {
            let k = choose|k: int| 0 <= k < all.len() && all[k] == u;
            if k < front.len() {
                assert(front[k] == u);
                let (i, j) = choose|i: int, j: int|
                    0 <= i < init.len() && 0 <= j < ts.len() && u == #[trigger] instance(
                        ts[j],
                        init[i],
                    );
                assert(u == instance(ts[j], answers[i]));
            } else {
                assert(u == instance(ts[k - front.len()], answers[n]));
            }
        }
        if is_instance(u, ts, answers) {
            let (i, j) = choose|i: int, j: int|
                0 <= i < answers.len() && 0 <= j < ts.len() && u == #[trigger] instance(
                    ts[j],
                    answers[i],
                );
            if i < n {
                assert(u == instance(ts[j], init[i]));
                let k = choose|k: int| 0 <= k < front.len() && front[k] == u;
                assert(all[k] == u);
            } else {
                assert(all[front.len() + j] == u);
            }
        }
    }
}

/// The paths after some atoms were added one by one.
proof fn lemma_added_paths(s: SpaceState, us: Seq<Term>, p: Seq<u8>)
    requires
        forall|i: int| 0 <= i < us.len() ==> !has_mutable(#[trigger] us[i]),
    ensures
        s.adding_all(us).paths.contains(p) <==> s.paths.contains(p) || exists|i: int|
            0 <= i < us.len() && stored_value_path(#[trigger] us[i]) == Some(p),
    decreases us.len(),
{
    if us.len() > 0 {
        let init = us.drop_last();
        assert forall|i: int| 0 <= i < init.len() implies !has_mutable(#[trigger] init[i]) by {
            assert(init[i] == us[i]);
        }
        lemma_added_paths(s, init, p);
        let n = us.len() - 1;
        assert(us.last() == us[n]);
        added_atoms_are_held(s.adding_all(init), us.last());
        if exists|i: int| 0 <= i < init.len() && stored_value_path(#[trigger] init[i]) == Some(p) {
            let i = choose|i: int|
                0 <= i < init.len() && stored_value_path(#[trigger] init[i]) == Some(p);
            assert(us[i] == init[i]);
        }
        if exists|i: int| 0 <= i < us.len() && stored_value_path(#[trigger] us[i]) == Some(p) {
            let i = choose|i: int|
                0 <= i < us.len() && stored_value_path(#[trigger] us[i]) == Some(p);
            if i < n {
                assert(us[i] == init[i]);
            }
        }
    }
}

/// The engine wrote, for each template and each answer, the bytes of the template
/// with what the answer binds filled in.
pub open spec fn writes_the_templates(
    written: Set<Seq<u8>>,
    ps: Seq<Term>,
    ts: Seq<Term>,
    answers: Seq<spec_fn(Variable) -> Term>,
) -> bool {
    let vars = pattern_of(joined(ps), Seq::empty()).unwrap().0.vars;
    let templates = exec_tree(ps, ts)->0->Expr_0[3]->Expr_0.skip(1);
    forall|p: Seq<u8>| #[trigger]
        written.contains(p) <==> exists|i: int, j: int|
            0 <= i < answers.len() && 0 <= j < ts.len() && p == flat(
                filled(#[trigger] templates[j], bound_spans(vars, #[trigger] answers[i])),
            )
}

/// A rewrite equals querying and adding: where the variables of the templates are
/// the patterns' and the answers bind them to values without variables, taking over
/// what the engine wrote stores exactly what adding every instance of every template
/// under every answer stores, and removes nothing.
pub proof fn rewrites_equal_query_then_add(
    s: SpaceState,
    ps: Seq<Term>,
    ts: Seq<Term>,
    answers: Seq<spec_fn(Variable) -> Term>,
    written: Set<Seq<u8>>,
)
    requires
        rewritable(ps, ts),
        exec_tree(ps, ts) is Some,
        forall|j: int|
            0 <= j < ts.len() ==> !has_mutable(#[trigger] ts[j]) && draws_on(
                ts[j],
                pattern_of(joined(ps), Seq::empty()).unwrap().0.vars,
            ),
        forall|i: int|
            0 <= i < answers.len() ==> binds_ground(
                pattern_of(joined(ps), Seq::empty()).unwrap().0.vars,
                #[trigger] answers[i],
            ),
        writes_the_templates(written, ps, ts, answers),
    ensures
        s.loading_paths(written).paths == s.adding_all(instances(ts, answers)).paths,
        forall|p: Seq<u8>| #[trigger]
            s.loading_paths(written).paths.contains(p) <==> s.paths.contains(p) || exists|u: Term|
                #[trigger] is_instance(u, ts, answers) && value_path(u) == Some(p),
{
    let m = Mode::Query(Seq::empty());
    let met = pattern_of(joined(ps), Seq::empty()).unwrap().0;
    let templates = exec_tree(ps, ts)->0->Expr_0[3]->Expr_0.skip(1);
    rewrites_match_their_query(ps, ts);
    lemma_template_trees(ts, met, m);
    assert(lower_all(ts, met, m).1 == Some(templates));
    let us = instances(ts, answers);
    assert forall|i: int, j: int| 0 <= i < answers.len() && 0 <= j < ts.len() implies is_stored_as(
        #[trigger] instance(ts[j], answers[i]),
        flat(filled(templates[j], bound_spans(met.vars, answers[i]))),
    ) by {
        lemma_filled_rows_are_instances(ts, met, m, answers[i], fresh_lowering());
    }
    lemma_written_instances(s, ts, templates, met.vars, answers, written);
}

/// What was written for the instances of some templates is what adding them
/// stores.
proof fn lemma_written_instances(
    s: SpaceState,
    ts: Seq<Term>,
    templates: Seq<Tree>,
    vars: Seq<Variable>,
    answers: Seq<spec_fn(Variable) -> Term>,
    written: Set<Seq<u8>>,
)
    requires
        forall|i: int, j: int|
            0 <= i < answers.len() && 0 <= j < ts.len() ==> is_stored_as(
                #[trigger] instance(ts[j], answers[i]),
                flat(filled(templates[j], bound_spans(vars, answers[i]))),
            ),
        forall|p: Seq<u8>| #[trigger]
            written.contains(p) <==> exists|i: int, j: int|
                0 <= i < answers.len() && 0 <= j < ts.len() && p == flat(
                    filled(#[trigger] templates[j], bound_spans(vars, #[trigger] answers[i])),
                ),
    ensures
        s.loading_paths(written).paths == s.adding_all(instances(ts, answers)).paths,
        forall|p: Seq<u8>| #[trigger]
            s.loading_paths(written).paths.contains(p) <==> s.paths.contains(p) || exists|u: Term|
                #[trigger] is_instance(u, ts, answers) && value_path(u) == Some(p),
{
    let us = instances(ts, answers);
    assert forall|u: Term| #[trigger] is_instance(u, ts, answers) implies !has_mutable(u)
        && value_path(u) is Some && stored_value_path(u) == value_path(u) && written.contains(
        value_path(u)->0,
    ) by {
        let (i, j) = choose|i: int, j: int|
            0 <= i < answers.len() && 0 <= j < ts.len() && u == #[trigger] instance(
                ts[j],
                answers[i],
            );
        assert(is_stored_as(
            instance(ts[j], answers[i]),
            flat(filled(templates[j], bound_spans(vars, answers[i]))),
        ));
    }
    assert forall|p: Seq<u8>| #[trigger] written.contains(p) implies exists|u: Term| #[trigger]
        is_instance(u, ts, answers) && value_path(u) == Some(p) by {
        let (i, j) = choose|i: int, j: int|
            0 <= i < answers.len() && 0 <= j < ts.len() && p == flat(
                filled(#[trigger] templates[j], bound_spans(vars, #[trigger] answers[i])),
            );
        let u = instance(ts[j], answers[i]);
        assert(is_instance(u, ts, answers));
        assert(is_stored_as(u, p));
    }
    assert forall|k: int| 0 <= k < us.len() implies is_instance(#[trigger] us[k], ts, answers) by {
        assert(us.contains(us[k]));
        lemma_instances(ts, answers, us[k]);
    }
    assert forall|p: Seq<u8>| #[trigger]
        s.loading_paths(written).paths.contains(p) <==> s.adding_all(us).paths.contains(p) by {
        lemma_added_paths(s, us, p);
        if written.contains(p) {
            let u = choose|u: Term| #[trigger]
                is_instance(u, ts, answers) && value_path(u) == Some(p);
            lemma_instances(ts, answers, u);
            let k = choose|k: int| 0 <= k < us.len() && us[k] == u;
            assert(stored_value_path(us[k]) == Some(p));
        }
        if exists|k: int| 0 <= k < us.len() && stored_value_path(#[trigger] us[k]) == Some(p) {
            let k = choose|k: int|
                0 <= k < us.len() && stored_value_path(#[trigger] us[k]) == Some(p);
            assert(is_instance(us[k], ts, answers));
        }
    }
    assert(s.loading_paths(written).paths =~= s.adding_all(us).paths);
}

} // verus!
