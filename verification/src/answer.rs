//! From what matched to what a query answers.
use vstd::prelude::*;
use vstd::utf8::encode_utf8;

use crate::argindex::{index_of, lemma_row_of, row_of, seek};
use crate::atom::{Atom, Term, Variable};
use crate::codec::{
    data_variables_never_collide, readable_path, readable_tree, readable_trees_are_read,
};
use crate::colcache::listing;
use crate::decode::{namespaced, raise, raise_all, Reader};
use crate::encode::{lemma_lower_all_fits, lower, lower_all, variables, Lowering, Mode};
use crate::pattern::{
    conjuncts, conjuncts_of, factors, fresh_lowering, pattern_of, WrappedPattern,
};
use crate::registry::{part_of, registering_makes_values_known, GroundedRegistry, Registry};
use crate::route::{
    answers_beside, arg_of, fact_ops, facts_ops, free_bindings, free_ops,
    indexed_facts_to_bindings, linear_match, most_selective, path_matches,
    paths_answer_what_patterns_match, plans_of, route_shape, routed_plans_are_the_matchers,
    routes_find_exactly_the_matches, Arg, IndexRoute,
};
use crate::rows::{
    bound, decoded, entries_fit, matches_of, plan_visit, report_fits, report_plan,
    rows_to_bindings, BindOp, Binding, Op, Plan, RawRow, Reading, Report, Row, RowPlan,
};
use crate::span::{byte_rows, columns, ground_span};
use crate::tree::{flat, flat_all, flat_is_injective, lemma_parse_flat, parse_at, Tree};

verus! {

/// How the matches of one query are read: with a registry that knows the query's
/// own grounded values, and as the matches of a single pattern or of a
/// conjunction.
#[derive(Debug)]
pub struct Answering {
    reg: GroundedRegistry,
    single: bool,
}

impl Answering {
    /// The registry is in order.
    pub closed spec fn wf(&self) -> bool {
        self.reg.wf()
    }

    /// What the registry knows.
    pub closed spec fn known(&self) -> Registry {
        self.reg@
    }

    /// The query is a single pattern.
    pub closed spec fn is_single(&self) -> bool {
        self.single
    }

    /// The matches are read for a query, on top of what a registry knows.
    pub open spec fn is_for(&self, query: Term, known: Registry) -> bool {
        &&& self.wf()
        &&& self.known() == known.register(query)
        &&& self.is_single() == (conjuncts_of(query) is None)
    }

    /// How the matches of a pattern are read.
    pub open spec fn reading(&self, pattern: &WrappedPattern) -> Reading {
        Reading {
            vars: variables(pattern.vars@),
            reg: self.known(),
            spans: pattern.evaluated@,
        }
    }

    /// How the matches of a query are read, on top of what a registry knows.
    pub(crate) fn new(query: &Atom, known: GroundedRegistry) -> (r: Answering)
        requires
            known.wf(),
        ensures
            r.is_for(query@, known@),
    {
        let mut reg = known;
        reg.register(query);
        let single = conjuncts(query).is_none();
        Answering { reg, single }
    }

    /// Plans the rows of a pattern. `ids` holds a fresh variable id for each.
    pub fn plan_rows(&self, pattern: &WrappedPattern, rows: &Vec<RawRow>, ids: &[usize]) -> (r: Vec<
        RowPlan,
    >)
        requires
            self.wf(),
            rows@.len() <= ids@.len(),
            forall|i: int|
                0 <= i < rows@.len() ==> entries_fit((#[trigger] matches_of(rows@)[i]).entries),
        ensures
            r@.len() == rows@.len(),
            forall|i: int|
                0 <= i < r@.len() ==> (#[trigger] r@[i])@ == self.reading(pattern).plan(
                    rows@[i]@.entries,
                    rows@[i]@.fact,
                    self.is_single(),
                    ids@[i],
                ),
    {
        rows_to_bindings(rows, &pattern.vars, &self.reg, &pattern.evaluated, self.single, ids)
    }

    /// Plans one report that is visited as it comes. `id` is fresh for each.
    pub fn plan_report(&self, pattern: &WrappedPattern, report: &Report, id: usize) -> (r: Option<
        RowPlan,
    >)
        requires
            self.wf(),
            report_fits(*report),
        ensures
            match report_plan(self.reading(pattern), *report, self.is_single(), id) {
                Some(plan) => r is Some && r->0@ == plan,
                None => r is None,
            },
    {
        plan_visit(report, &pattern.vars, &self.reg, &pattern.evaluated, self.single, id)
    }

    /// Plans the facts that an index gave. `ids` holds a fresh variable id for
    /// each.
    pub fn plan_facts(&self, route: &IndexRoute, facts: &Vec<Vec<u8>>, ids: &[usize]) -> (r: Vec<
        Vec<BindOp>,
    >)
        requires
            self.wf(),
            facts@.len() <= ids@.len(),
            forall|i: int|
                0 <= i < facts@.len() ==> route.classified.functor_prefix@.len() <= (
                #[trigger] facts@[i])@.len(),
        ensures
            plans_of(r@) == facts_ops(
                byte_rows(facts@),
                route.classified@,
                route.pos as int,
                variables(route.vars@),
                self.known(),
                ids@,
            ),
    {
        indexed_facts_to_bindings(
            facts,
            &route.classified,
            route.pos,
            &route.vars,
            &self.reg,
            ids,
        )
    }
}

/// The variable stands somewhere in the term.
pub open spec fn occurs(v: Variable, t: Term) -> bool
    decreases t,
{
    match t {
        Term::Variable(w) => w == v,
        Term::Expression(ts, _) => exists|i: int| 0 <= i < ts.len() && occurs(v, #[trigger] ts[i]),
        _ => false,
    }
}

impl Registry {
    /// Only grounded values are kept.
    pub open spec fn values_only(self) -> bool {
        &&& forall|k: Seq<u8>| #[trigger]
            self.by_display.contains_key(k) ==> self.by_display[k] is Grounded
        &&& forall|i: int| 0 <= i < self.by_id.len() ==> (#[trigger] self.by_id[i]) is Grounded
    }
}

/// Registering keeps only grounded values.
pub proof fn registering_keeps_values_only(r: Registry, t: Term)
    requires
        r.values_only(),
    ensures
        r.register(t).values_only(),
    decreases t, 0nat,
{
    if let Term::Expression(ts, _) = t {
        registering_rows_keeps_values_only(r, ts);
    }
}

/// The same of a row of terms.
pub proof fn registering_rows_keeps_values_only(r: Registry, ts: Seq<Term>)
    requires
        r.values_only(),
    ensures
        r.register_all(ts).values_only(),
    decreases ts, ts.len(),
{
    if ts.len() > 0 {
        registering_rows_keeps_values_only(r, ts.drop_last());
        registering_keeps_values_only(r.register_all(ts.drop_last()), ts.last());
    }
}

/// Storing keeps only grounded values.
pub proof fn storing_keeps_values_only(t: Term, s: Lowering, m: Mode)
    requires
        s.reg.values_only(),
    ensures
        lower(t, s, m).0.reg.values_only(),
    decreases t, 0nat,
{
    if let Term::Expression(ts, _) = t {
        lemma_stored_rows_keep_values_only(ts, s, m);
    }
}

/// The same of a row of terms.
proof fn lemma_stored_rows_keep_values_only(ts: Seq<Term>, s: Lowering, m: Mode)
    requires
        s.reg.values_only(),
    ensures
        lower_all(ts, s, m).0.reg.values_only(),
    decreases ts, ts.len(),
{
    if ts.len() > 0 {
        lemma_stored_rows_keep_values_only(ts.drop_last(), s, m);
        storing_keeps_values_only(ts.last(), lower_all(ts.drop_last(), s, m).0, m);
    }
}

/// The variable is the query's own, or belongs to one result: it has that
/// result's id.
pub open spec fn owned(v: Variable, vars: Seq<Variable>, id: usize) -> bool {
    vars.contains(v) || v.id == id
}

/// Whatever variable is read is the query's own or belongs to the result.
proof fn lemma_read_variables(t: Tree, r: Reader, n: nat, v: Variable)
    requires
        raise(t, r, n) is Some,
        occurs(v, raise(t, r, n).unwrap().0),
        r.grounded matches Some(reg) ==> reg.values_only(),
    ensures
        owned(v, r.query_vars, r.result_id),
    decreases t, 0nat,
{
    match t {
        Tree::Expr(ts) => {
            let (xs, _) = raise_all(ts, r, n).unwrap();
            let i = choose|i: int| 0 <= i < xs.len() && occurs(v, #[trigger] xs[i]);
            lemma_read_row_variables(ts, r, n, v, i);
        },
        _ => {},
    }
}

/// The same of a row of trees.
proof fn lemma_read_row_variables(ts: Seq<Tree>, r: Reader, n: nat, v: Variable, i: int)
    requires
        raise_all(ts, r, n) is Some,
        0 <= i < raise_all(ts, r, n).unwrap().0.len(),
        occurs(v, raise_all(ts, r, n).unwrap().0[i]),
        r.grounded matches Some(reg) ==> reg.values_only(),
    ensures
        owned(v, r.query_vars, r.result_id),
    decreases ts, ts.len(),
{
    if ts.len() > 0 {
        let init = ts.drop_last();
        let (xs, n1) = raise_all(init, r, n).unwrap();
        if i < xs.len() {
            assert(raise_all(ts, r, n).unwrap().0[i] == xs[i]);
            lemma_read_row_variables(init, r, n, v, i);
        } else {
            lemma_read_variables(ts.last(), r, n1, v);
        }
    }
}

/// What is added speaks of the variable.
pub open spec fn op_mentions(op: Op, v: Variable) -> bool {
    match op {
        Op::Equate(a, b) => a == v || b == v,
        Op::Bind(w, t) => w == v || occurs(v, t),
    }
}

/// The plan speaks of the variable.
pub open spec fn plan_mentions(plan: Plan, v: Variable) -> bool {
    match plan {
        Plan::Rematch(t) => occurs(v, t),
        Plan::Fold(ops, _) => exists|i: int| 0 <= i < ops.len() && op_mentions(
            #[trigger] ops[i],
            v,
        ),
    }
}

/// What the bindings of a match add speaks only of the query's variables and of
/// the result's own.
proof fn lemma_added_variables(
    reading: Reading,
    bs: Seq<Binding>,
    id: usize,
    v: Variable,
    i: int,
)
    requires
        reading.reg.values_only(),
        0 <= i < reading.ops(bs, id).len(),
        op_mentions(reading.ops(bs, id)[i], v),
    ensures
        owned(v, reading.vars, id),
    decreases bs.len(),
{
    let front = reading.ops(bs.drop_last(), id);
    if i < front.len() {
        lemma_added_variables(reading, bs.drop_last(), id, v, i);
    } else {
        let b = bs.last();
        let r = reading.reader(b.env_n, id);
        let t = decoded(b.span, r, b.env_v as nat)->0;
        let (tree, _) = parse_at(b.span, 0).unwrap();
        let w = reading.key(b, id)->0;
        assert(reading.ops(bs, id)[i] == bound(w, t));
        if w != v {
            assert(occurs(v, t));
            lemma_read_variables(tree, r, b.env_v as nat, v);
        } else if b.key_ns == 0 {
            assert(reading.vars[b.key_idx as int] == v);
        }
    }
}

/// A result speaks only of the query's variables and of variables with its own
/// id.
pub proof fn data_variables_belong_to_one_result(
    reading: Reading,
    entries: Seq<Binding>,
    fact: Option<Seq<u8>>,
    single: bool,
    id: usize,
    v: Variable,
)
    requires
        reading.reg.values_only(),
        plan_mentions(reading.plan(entries, fact, single, id), v),
    ensures
        owned(v, reading.vars, id),
{
    match reading.plan(entries, fact, single, id) {
        Plan::Rematch(t) => {
            let (tree, _) = parse_at(fact->0, 0).unwrap();
            lemma_read_variables(tree, reading.reader(1, id), 0, v);
        },
        Plan::Fold(ops, _) => {
            let i = choose|i: int| 0 <= i < ops.len() && op_mentions(#[trigger] ops[i], v);
            lemma_added_variables(reading, entries, id, v, i);
        },
    }
}

/// The results of two matches share no data variable, be they of one query or of
/// two calls, as long as their ids differ: a variable that both speak of is one of
/// the queries' own.
pub proof fn two_results_share_no_data_variable(
    a: Reading,
    row_a: Row,
    single_a: bool,
    id_a: usize,
    b: Reading,
    row_b: Row,
    single_b: bool,
    id_b: usize,
    v: Variable,
)
    requires
        a.reg.values_only(),
        b.reg.values_only(),
        id_a != id_b,
        plan_mentions(a.plan(row_a.entries, row_a.fact, single_a, id_a), v),
        plan_mentions(b.plan(row_b.entries, row_b.fact, single_b, id_b), v),
    ensures
        a.vars.contains(v) || b.vars.contains(v),
{
    data_variables_belong_to_one_result(a, row_a.entries, row_a.fact, single_a, id_a, v);
    data_variables_belong_to_one_result(b, row_b.entries, row_b.fact, single_b, id_b, v);
}

/// The rows of a query share no data variable: a variable of the results of two
/// rows, or of two calls on the same rows, is one of the query's own. Every row of
/// every call draws an id of its own.
pub proof fn rows_share_no_data_variable(
    reading: Reading,
    rows: Seq<Row>,
    single: bool,
    ids: Seq<usize>,
    other_ids: Seq<usize>,
    i: int,
    j: int,
    v: Variable,
)
    requires
        reading.reg.values_only(),
        rows.len() <= ids.len(),
        rows.len() <= other_ids.len(),
        (ids + other_ids).no_duplicates(),
        0 <= i < rows.len(),
        0 <= j < rows.len(),
        plan_mentions(reading.plan(rows[i].entries, rows[i].fact, single, ids[i]), v),
    ensures
        i != j && plan_mentions(reading.plan(rows[j].entries, rows[j].fact, single, ids[j]), v)
            ==> reading.vars.contains(v),
        plan_mentions(reading.plan(rows[j].entries, rows[j].fact, single, other_ids[j]), v)
            ==> reading.vars.contains(v),
{
    let all = ids + other_ids;
    assert(all[i] == ids[i] && all[j] == ids[j] && all[ids.len() + j] == other_ids[j]);
    data_variables_belong_to_one_result(reading, rows[i].entries, rows[i].fact, single, ids[i], v);
    if plan_mentions(reading.plan(rows[j].entries, rows[j].fact, single, ids[j]), v) {
        data_variables_belong_to_one_result(
            reading,
            rows[j].entries,
            rows[j].fact,
            single,
            ids[j],
            v,
        );
    }
    if plan_mentions(reading.plan(rows[j].entries, rows[j].fact, single, other_ids[j]), v) {
        data_variables_belong_to_one_result(
            reading,
            rows[j].entries,
            rows[j].fact,
            single,
            other_ids[j],
            v,
        );
    }
}

/// Within one result a data variable is told by its namespace and number: equal
/// ones are one variable, different ones are two. A binding is about the very
/// variable that its namespace and number are read as.
pub proof fn one_number_is_one_variable(
    reading: Reading,
    id: usize,
    ns1: u8,
    i: nat,
    ns2: u8,
    j: nat,
    b: Binding,
)
    requires
        ns1 != 0,
        ns2 != 0,
    ensures
        reading.reader(ns1, id).variable(i) == reading.reader(ns2, id).variable(j) <==> ns1 == ns2
            && i == j,
        reading.key(b, id) matches Some(v) ==> v == reading.reader(b.key_ns, id).variable(
            b.key_idx as nat,
        ),
{
    if reading.reader(ns1, id).variable(i) == reading.reader(ns2, id).variable(j) {
        assert(namespaced(ns1, i) == namespaced(ns2, j));
        data_variables_never_collide(ns1, i, ns2, j);
    }
}

/// Number of variables that a tree introduces.
pub open spec fn introduced(t: Tree) -> nat
    decreases t, 0nat,
{
    match t {
        Tree::NewVar => 1,
        Tree::Expr(ts) => introduced_all(ts),
        _ => 0,
    }
}

/// Number of variables that a row of trees introduces.
pub open spec fn introduced_all(ts: Seq<Tree>) -> nat
    decreases ts, ts.len(),
{
    if ts.len() == 0 {
        0
    } else {
        introduced_all(ts.drop_last()) + introduced(ts.last())
    }
}

/// A read tree has introduced its variables.
proof fn lemma_read_introduces(t: Tree, r: Reader, n: nat)
    ensures
        raise(t, r, n) matches Some((_, n2)) ==> n2 == n + introduced(t),
    decreases t, 0nat,
{
    if let Tree::Expr(ts) = t {
        lemma_read_row_introduces(ts, r, n);
    }
}

/// The same of a row of trees.
proof fn lemma_read_row_introduces(ts: Seq<Tree>, r: Reader, n: nat)
    ensures
        raise_all(ts, r, n) matches Some((xs, n2)) ==> n2 == n + introduced_all(ts) && xs.len()
            == ts.len(),
    decreases ts, ts.len(),
{
    if ts.len() > 0 {
        lemma_read_row_introduces(ts.drop_last(), r, n);
        if let Some((_, n1)) = raise_all(ts.drop_last(), r, n) {
            lemma_read_introduces(ts.last(), r, n1);
        }
    }
}

/// A captured part reads as it does in its atom: a part that is read with the
/// number of variables introduced before it gives what stands in its place when
/// the whole is read, so that variables which are one in the stored atom are one
/// in the result.
pub proof fn captured_parts_read_as_in_their_atom(ts: Seq<Tree>, r: Reader, n: nat, i: int)
    requires
        raise_all(ts, r, n) is Some,
        0 <= i < ts.len(),
    ensures
        raise(ts[i], r, n + introduced_all(ts.take(i))) is Some,
        raise(ts[i], r, n + introduced_all(ts.take(i))).unwrap().0 == raise_all(
            ts,
            r,
            n,
        ).unwrap().0[i],
    decreases ts.len(),
{
    let init = ts.drop_last();
    lemma_read_row_introduces(init, r, n);
    if i == ts.len() - 1 {
        assert(ts.take(i) =~= init);
    } else {
        captured_parts_read_as_in_their_atom(init, r, n, i);
        assert(init.take(i) =~= ts.take(i));
        assert(init[i] == ts[i]);
    }
}

/// A ground tree introduces no variable.
proof fn lemma_ground_introduces_none(t: Tree)
    requires
        t.ground(),
    ensures
        introduced(t) == 0,
    decreases t, 0nat,
{
    if let Tree::Expr(ts) = t {
        assert forall|i: int| 0 <= i < ts.len() implies (#[trigger] ts[i]).ground() by {
            assert(t->Expr_0[i] == ts[i]);
        }
        lemma_ground_row_introduces_none(ts);
    }
}

/// The same of a row of trees.
proof fn lemma_ground_row_introduces_none(ts: Seq<Tree>)
    requires
        forall|i: int| 0 <= i < ts.len() ==> (#[trigger] ts[i]).ground(),
    ensures
        introduced_all(ts) == 0,
    decreases ts, ts.len(),
{
    if ts.len() > 0 {
        let init = ts.drop_last();
        assert forall|i: int| 0 <= i < init.len() implies (#[trigger] init[i]).ground() by {
            assert(init[i] == ts[i]);
        }
        lemma_ground_row_introduces_none(init);
        assert(ts.last() == ts[ts.len() - 1]);
        lemma_ground_introduces_none(ts.last());
    }
}

/// The variables of a row are those of its first tree and those of the rest.
proof fn lemma_introduced_head(ts: Seq<Tree>)
    requires
        ts.len() > 0,
    ensures
        introduced_all(ts) == introduced(ts[0]) + introduced_all(ts.skip(1)),
    decreases ts.len(),
{
    if ts.len() > 1 {
        lemma_introduced_head(ts.drop_last());
        assert(ts.drop_last().skip(1) =~= ts.skip(1).drop_last());
        assert(ts.skip(1).last() == ts.last());
        assert(ts.drop_last()[0] == ts[0]);
    } else {
        assert(ts.skip(1) =~= Seq::empty());
        assert(ts.drop_last() =~= Seq::empty());
        assert(introduced_all(ts.drop_last()) == 0);
    }
}

/// An encoding introduces as many variables as it met for the first time.
proof fn lemma_written_introduces(t: Term, s: Lowering, m: Mode)
    ensures
        lower(t, s, m).1 matches Some(tree) ==> lower(t, s, m).0.vars.len() == s.vars.len()
            + introduced(tree),
    decreases t, 0nat,
{
    if let Term::Expression(ts, _) = t {
        lemma_written_rows_introduce(ts, s, m);
    }
}

/// The same of a row of terms.
proof fn lemma_written_rows_introduce(ts: Seq<Term>, s: Lowering, m: Mode)
    ensures
        lower_all(ts, s, m).1 matches Some(trees) ==> lower_all(ts, s, m).0.vars.len()
            == s.vars.len() + introduced_all(trees),
    decreases ts, ts.len(),
{
    if ts.len() > 0 {
        let init = ts.drop_last();
        lemma_written_rows_introduce(init, s, m);
        if let Some(front) = lower_all(init, s, m).1 {
            let s1 = lower_all(init, s, m).0;
            lemma_written_introduces(ts.last(), s1, m);
            if let Some(tree) = lower(ts.last(), s1, m).1 {
                assert(front.push(tree).drop_last() =~= front);
            }
        }
    }
}

/// Number of free columns.
pub open spec fn free_count(args: Seq<Arg>) -> nat
    decreases args.len(),
{
    if args.len() == 0 {
        0
    } else {
        free_count(args.drop_last()) + if args.last() is Free {
            1nat
        } else {
            0
        }
    }
}

/// The free columns are the variables that the arguments introduce.
proof fn lemma_free_columns(ts: Seq<Tree>)
    requires
        forall|i: int| 0 <= i < ts.len() ==> arg_of(#[trigger] ts[i]) is Some,
    ensures
        free_count(Seq::new(ts.len(), |i: int| arg_of(ts[i])->0)) == introduced_all(ts),
    decreases ts.len(),
{
    if ts.len() > 0 {
        let init = ts.drop_last();
        assert forall|i: int| 0 <= i < init.len() implies arg_of(#[trigger] init[i]) is Some by {
            assert(init[i] == ts[i]);
        }
        lemma_free_columns(init);
        let all = Seq::new(ts.len(), |i: int| arg_of(ts[i])->0);
        assert(all.drop_last() =~= Seq::new(init.len(), |i: int| arg_of(init[i])->0));
        assert(arg_of(ts[ts.len() - 1]) is Some);
        assert(all.last() == arg_of(ts.last())->0);
        if ts.last().ground() {
            lemma_ground_introduces_none(ts.last());
        } else {
            assert(ts.last() is NewVar);
            assert(introduced(ts.last()) == 1);
        }
    }
}

/// Where every column can be read and every free one has its variable, a fact is
/// answered.
proof fn lemma_free_columns_are_read(
    us: Seq<Tree>,
    cols: Seq<Seq<u8>>,
    args: Seq<Arg>,
    vars: Seq<Variable>,
    r: Reader,
)
    requires
        args.len() <= us.len(),
        args.len() <= cols.len(),
        forall|i: int|
            0 <= i < us.len() ==> (#[trigger] us[i]).fits() && readable_tree(us[i]) && cols[i]
                == flat(us[i]),
        free_count(args) <= vars.len(),
    ensures
        free_ops(cols, args, vars, r) is Some,
        free_ops(cols, args, vars, r)->0.len() == free_count(args),
    decreases args.len(),
{
    if args.len() > 0 {
        lemma_free_columns_are_read(us, cols, args.drop_last(), vars, r);
        let k = args.len() - 1;
        let b = cols[k];
        assert(us[k].fits());
        assert(b.subrange(0, b.len() as int) =~= b);
        lemma_parse_flat(b, 0, us[k]);
        readable_trees_are_read(us[k], r, 0);
    }
}

/// A routed query answers like the matcher, fact by fact. A stored fact that
/// matches the query's pattern is found, and adds exactly what its row adds that
/// binds the pattern's variables to the fact's columns; a stored fact that does
/// not match adds nothing.
pub proof fn routed_answers_are_the_matchers(
    paths: Set<Seq<u8>>,
    query: Term,
    ids: Seq<usize>,
    pos: int,
    reading: Reading,
    f: Seq<u8>,
    id: usize,
)
    requires
        paths.finite(),
        paths.contains(f),
        ground_span(f),
        readable_path(f),
        route_shape(query, ids) is Some,
        most_selective(route_shape(query, ids)->0.args, pos),
        reading.vars == pattern_of(query, ids).unwrap().0.vars,
    ensures
        ({
            let s = route_shape(query, ids)->0;
            let pattern = pattern_of(query, ids).unwrap().1[0];
            let facts = seek(
                listing(index_of(paths, s.prefix, s.args.len(), pos)),
                s.prefix,
                s.args.len(),
                pos,
                s.args[pos]->Bound_0,
            );
            let added = fact_ops(f, s, pos, reading.vars, reading.reg, id);
            if path_matches(pattern, f) {
                &&& facts.contains(f)
                &&& added is Some
                &&& reading.plan(
                    free_bindings(
                        columns(f.skip(s.prefix.len() as int), s.args.len())->0,
                        s.args,
                    ),
                    Some(f),
                    true,
                    id,
                ) == Plan::Fold(added->0, false)
            } else {
                !facts.contains(f) || added is None
            }
        }),
{
    let s = route_shape(query, ids)->0;
    let n = s.args.len();
    let fs = factors(query);
    let m = Mode::Query(ids);
    let (met, trees) = pattern_of(query, ids).unwrap();
    lemma_lower_all_fits(fs, fresh_lowering(), m);
    let pattern = trees[0];
    assert(pattern.fits());
    routes_find_exactly_the_matches(paths, query, ids, pos);
    if path_matches(pattern, f) {
        paths_answer_what_patterns_match(pattern, f);
        let ps = pattern->Expr_0;
        let args = ps.skip(1);
        assert(trees.len() == 1);
        assert(trees.drop_last() =~= Seq::empty());
        assert(introduced_all(trees.drop_last()) == 0);
        lemma_written_rows_introduce(fs, fresh_lowering(), m);
        assert(met.vars.len() == introduced(pattern));
        lemma_introduced_head(ps);
        lemma_ground_introduces_none(ps[0]);
        lemma_free_columns(args);
        assert(s.args =~= Seq::new(args.len(), |i: int| arg_of(args[i])->0));
        let fact = choose|fact: Tree| #[trigger]
            fact.fits() && flat(fact) == f && linear_match(pattern, fact);
        assert(f.subrange(0, f.len() as int) =~= f);
        lemma_parse_flat(f, 0, fact);
        let rest = f.skip(s.prefix.len() as int);
        let us = row_of(rest, n)->0;
        lemma_row_of(rest, n);
        let all = seq![ps[0]] + us;
        assert(all.drop_first() =~= us);
        assert(all[0] == ps[0]);
        assert(flat_all(all) =~= flat(ps[0]) + flat_all(us));
        assert(f =~= s.prefix + rest);
        let built = Tree::Expr(all);
        assert forall|i: int| 0 <= i < all.len() implies (#[trigger] all[i]).fits() by {
            if i > 0 {
                assert(all[i] == us[i - 1]);
            } else {
                assert(ps[0].fits());
            }
        }
        assert(built->Expr_0 == all);
        assert(built.fits());
        assert(flat(built) =~= f);
        flat_is_injective(built, fact);
        let cols = columns(rest, n)->0;
        assert forall|i: int| 0 <= i < us.len() implies (#[trigger] us[i]).fits() && readable_tree(
            us[i],
        ) && cols[i] == flat(us[i]) by {
            assert(all[i + 1] == us[i]);
            assert(readable_tree(fact->Expr_0[i + 1]));
        }
        lemma_free_columns_are_read(us, cols, s.args, reading.vars, reading.reader(1, id));
        assert(answers_beside(f, s, pos));
        routed_plans_are_the_matchers(f, pattern, pos, reading, id);
    }
}

/// The answers to a query are read with everything that was known and with the query's
/// own immutable values, and as those of a single pattern exactly when the query is no
/// conjunction; the variables and the marks are those of its pattern.
pub proof fn answers_know_the_values_of_their_query(
    a: Answering,
    query: Term,
    known: Registry,
    pattern: WrappedPattern,
)
    requires
        a.is_for(query, known),
    ensures
        a.is_single() <==> !(query is Expression && query->Expression_0.len() > 0
            && query->Expression_0[0] == Term::Symbol(","@)),
        known.within(a.known()),
        a.known().by_id == known.by_id,
        forall|x: Term| #[trigger]
            part_of(x, query) && x is Grounded && !x->Grounded_0.mutable
                ==> a.known().by_display.contains_key(encode_utf8(x->Grounded_0.display)),
        a.reading(&pattern).reg == a.known(),
        a.reading(&pattern).spans == pattern.evaluated@,
        a.reading(&pattern).vars.len() == pattern.vars@.len(),
        forall|i: int|
            0 <= i < pattern.vars@.len() ==> a.reading(&pattern).vars[i]
                == #[trigger] pattern.vars@[i]@,
{
    registering_makes_values_known(known, query);
    assert(known.by_id =~= known.by_id.take(known.by_id.len() as int));
}

} // verus!
