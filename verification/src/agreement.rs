//! The answers of a route are the matcher's answers.
//!
//! The matcher runs outside; what it reports of a query over paths without
//! variables is one row for each path that matches.
use vstd::prelude::*;

use crate::answer::routed_answers_are_the_matchers;
use crate::argindex::{index_of, seek};
use crate::atom::{Term, Variable};
use crate::codec::readable_path;
use crate::colcache::listing;
use crate::decode::{raise, raise_all, Reader};
use crate::encode::{lemma_lower_all_fits, Mode};
use crate::pattern::{factors, fresh_lowering, pattern_of};
use crate::registry::Registry;
use crate::route::{
    answers_beside, fact_ops, facts_ops, free_bindings, free_ops,
    lemma_matches_have_ground_columns, most_selective, path_matches, route_shape,
    routes_find_exactly_the_matches, shape_of, Arg, Shape,
};
use crate::rows::{Op, Plan, Reading, Row};
use crate::span::{columns, ground_span};
use crate::tree::{parse_at, Tree};

verus! {

/// The facts that the index of a column gives for a value, over some paths.
pub open spec fn sought(paths: Set<Seq<u8>>, s: Shape, pos: int) -> Seq<Seq<u8>> {
    seek(
        listing(index_of(paths, s.prefix, s.args.len(), pos)),
        s.prefix,
        s.args.len(),
        pos,
        s.args[pos]->Bound_0,
    )
}

/// What the matcher reports of a path that matches the pattern of a query with a
/// route: the path, and its free columns bound to the pattern's variables.
pub open spec fn row_of_match(s: Shape, row: Row) -> bool {
    &&& row.fact is Some
    &&& row.entries == free_bindings(
        columns(row.fact->0.skip(s.prefix.len() as int), s.args.len())->0,
        s.args,
    )
}

/// The rows are what a matcher reports of a query with a route, over paths without
/// variables: one row for each path that matches the query's pattern.
pub open spec fn reports_the_matches(
    rows: Seq<Row>,
    paths: Set<Seq<u8>>,
    query: Term,
    ids: Seq<usize>,
) -> bool {
    let s = route_shape(query, ids)->0;
    let pattern = pattern_of(query, ids).unwrap().1[0];
    &&& forall|i: int|
        0 <= i < rows.len() ==> row_of_match(s, #[trigger] rows[i]) && paths.contains(
            rows[i].fact->0,
        ) && path_matches(pattern, rows[i].fact->0)
    &&& forall|i: int, j: int|
        0 <= i < j < rows.len() ==> (#[trigger] rows[i]).fact != (#[trigger] rows[j]).fact
    &&& forall|f: Seq<u8>| #[trigger]
        paths.contains(f) && path_matches(pattern, f) ==> exists|i: int|
            0 <= i < rows.len() && (#[trigger] rows[i]).fact == Some(f)
}

/// What some rows add, with an id for each.
pub open spec fn rows_ops(reading: Reading, rows: Seq<Row>, ids: Seq<usize>) -> Seq<Seq<Op>> {
    Seq::new(rows.len(), |i: int| reading.ops(rows[i].entries, ids[i]))
}

/// A ground tree reads alike under every id.
proof fn lemma_ground_reads_alike(t: Tree, r: Reader, q: Reader, n: nat)
    requires
        t.ground(),
        q == (Reader { result_id: q.result_id, ..r }),
    ensures
        raise(t, r, n) == raise(t, q, n),
    decreases t, 0nat,
{
    if let Tree::Expr(ts) = t {
        assert forall|i: int| 0 <= i < ts.len() implies (#[trigger] ts[i]).ground() by {
            assert(t->Expr_0[i] == ts[i]);
        }
        lemma_ground_row_reads_alike(ts, r, q, n);
    }
}

/// The same of a row of trees.
proof fn lemma_ground_row_reads_alike(ts: Seq<Tree>, r: Reader, q: Reader, n: nat)
    requires
        forall|i: int| 0 <= i < ts.len() ==> (#[trigger] ts[i]).ground(),
        q == (Reader { result_id: q.result_id, ..r }),
    ensures
        raise_all(ts, r, n) == raise_all(ts, q, n),
    decreases ts, ts.len(),
{
    if ts.len() > 0 {
        let init = ts.drop_last();
        assert forall|i: int| 0 <= i < init.len() implies (#[trigger] init[i]).ground() by {
            assert(init[i] == ts[i]);
        }
        assert(ts.last() == ts[ts.len() - 1]);
        lemma_ground_row_reads_alike(init, r, q, n);
        if let Some((_, n1)) = raise_all(init, r, n) {
            lemma_ground_reads_alike(ts.last(), r, q, n1);
        }
    }
}

/// The free columns of a ground fact add the same under every id.
proof fn lemma_free_ops_alike(
    cols: Seq<Seq<u8>>,
    args: Seq<Arg>,
    vars: Seq<Variable>,
    r: Reader,
    q: Reader,
)
    requires
        forall|i: int| 0 <= i < args.len() ==> ground_span(#[trigger] cols[i]),
        q == (Reader { result_id: q.result_id, ..r }),
    ensures
        free_ops(cols, args, vars, r) == free_ops(cols, args, vars, q),
    decreases args.len(),
{
    if args.len() > 0 {
        lemma_free_ops_alike(cols, args.drop_last(), vars, r, q);
        let b = cols[args.len() - 1];
        assert(ground_span(b));
        lemma_ground_reads_alike(parse_at(b, 0).unwrap().0, r, q, 0);
    }
}

/// A ground fact that matches adds the same under every id.
proof fn lemma_fact_ops_alike(
    f: Seq<u8>,
    pattern: Tree,
    s: Shape,
    pos: int,
    vars: Seq<Variable>,
    reg: Registry,
    id: usize,
    other: usize,
)
    requires
        ground_span(f),
        pattern.fits(),
        shape_of(pattern) == Some(s),
        path_matches(pattern, f),
    ensures
        fact_ops(f, s, pos, vars, reg, id) == fact_ops(f, s, pos, vars, reg, other),
{
    if answers_beside(f, s, pos) {
        lemma_matches_have_ground_columns(pattern, f);
        let cols = columns(f.skip(s.prefix.len() as int), s.args.len())->0;
        let r = Reader {
            ns: 1,
            grounded: Some(reg),
            query_vars: vars,
            evaluated: None,
            result_id: id,
        };
        lemma_free_ops_alike(cols, s.args, vars, r, Reader { result_id: other, ..r });
    }
}

/// Sequences of the same elements, each once, have the same images.
proof fn lemma_same_images<A, B>(a: Seq<A>, b: Seq<A>, g: spec_fn(A) -> B)
    requires
        a.no_duplicates(),
        b.no_duplicates(),
        forall|x: A| #[trigger] a.contains(x) <==> b.contains(x),
    ensures
        a.map_values(g).to_multiset() == b.map_values(g).to_multiset(),
    decreases a.len(),
{
    if a.len() == 0 {
        if b.len() > 0 {
            assert(b.contains(b[0]));
            assert(a.contains(b[0]));
        }
        assert(a.map_values(g) =~= b.map_values(g));
    } else {
        let x = a.last();
        let init = a.drop_last();
        assert(a.contains(a[a.len() - 1]));
        let j = choose|j: int| 0 <= j < b.len() && b[j] == x;
        let rest = b.remove(j);
        assert forall|y: A| #[trigger] init.contains(y) <==> rest.contains(y) by {
            if init.contains(y) {
                let i = choose|i: int| 0 <= i < init.len() && init[i] == y;
                assert(a[i] == y);
                assert(a.contains(y));
                let k = choose|k: int| 0 <= k < b.len() && b[k] == y;
                assert(k != j);
                assert(rest[if k < j {
                    k
                } else {
                    k - 1
                }] == y);
            }
            if rest.contains(y) {
                let k = choose|k: int| 0 <= k < rest.len() && rest[k] == y;
                let l = if k < j {
                    k
                } else {
                    k + 1
                };
                assert(b[l] == y);
                assert(b.contains(y));
                assert(a.contains(y));
                let i = choose|i: int| 0 <= i < a.len() && a[i] == y;
                assert(y != x);
                assert(init[i] == y);
            }
        }
        lemma_same_images(init, rest, g);
        let (ga, gb) = (a.map_values(g), b.map_values(g));
        assert(ga =~= init.map_values(g).push(g(x)));
        assert(gb.remove(j) =~= rest.map_values(g));
        assert(gb[j] == g(x));
        init.map_values(g).to_multiset_ensures();
        gb.to_multiset_ensures();
        assert(gb.contains(gb[j]));
        assert(gb.remove(j).to_multiset() == gb.to_multiset().remove(g(x)));
        assert(gb.to_multiset() =~= gb.to_multiset().remove(g(x)).insert(g(x)));
    }
}

/// What the facts of a route add, where it is known which of them add something.
proof fn lemma_facts_ops_filter(
    facts: Seq<Seq<u8>>,
    s: Shape,
    pos: int,
    vars: Seq<Variable>,
    reg: Registry,
    ids: Seq<usize>,
    keep: spec_fn(Seq<u8>) -> bool,
    g: spec_fn(Seq<u8>) -> Seq<Op>,
)
    requires
        forall|i: int|
            0 <= i < facts.len() ==> fact_ops(#[trigger] facts[i], s, pos, vars, reg, ids[i])
                == if keep(facts[i]) {
                Some(g(facts[i]))
            } else {
                None
            },
    ensures
        facts_ops(facts, s, pos, vars, reg, ids) == facts.filter(keep).map_values(g),
    decreases facts.len(),
{
    reveal(Seq::filter);
    if facts.len() > 0 {
        let init = facts.drop_last();
        assert forall|i: int| 0 <= i < init.len() implies fact_ops(
            #[trigger] init[i],
            s,
            pos,
            vars,
            reg,
            ids[i],
        ) == if keep(init[i]) {
            Some(g(init[i]))
        } else {
            None
        } by {
            assert(init[i] == facts[i]);
        }
        lemma_facts_ops_filter(init, s, pos, vars, reg, ids, keep, g);
        assert(facts.last() == facts[facts.len() - 1]);
        if keep(facts.last()) {
            assert(init.filter(keep).push(facts.last()).map_values(g) =~= init.filter(
                keep,
            ).map_values(g).push(g(facts.last())));
        }
    }
    assert(facts_ops(facts, s, pos, vars, reg, ids) =~= facts.filter(keep).map_values(g));
}

/// A filtered sequence keeps each element at most as often, and none else.
proof fn lemma_filtered<A>(a: Seq<A>, keep: spec_fn(A) -> bool)
    requires
        a.no_duplicates(),
    ensures
        a.filter(keep).no_duplicates(),
        forall|x: A| #[trigger] a.filter(keep).contains(x) <==> a.contains(x) && keep(x),
    decreases a.len(),
{
    reveal(Seq::filter);
    if a.len() > 0 {
        let init = a.drop_last();
        lemma_filtered(init, keep);
        let (front, all) = (init.filter(keep), a.filter(keep));
        assert forall|x: A| #[trigger] all.contains(x) <==> a.contains(x) && keep(x) by {
            if all.contains(x) {
                let i = choose|i: int| 0 <= i < all.len() && all[i] == x;
                if i < front.len() {
                    assert(front[i] == x);
                    assert(front.contains(x));
                    let k = choose|k: int| 0 <= k < init.len() && init[k] == x;
                    assert(a[k] == x);
                } else {
                    assert(a[a.len() - 1] == x);
                }
            }
            if a.contains(x) && keep(x) {
                let k = choose|k: int| 0 <= k < a.len() && a[k] == x;
                if k < init.len() {
                    assert(init[k] == x);
                    assert(init.contains(x));
                    assert(front.contains(x));
                    let i = choose|i: int| 0 <= i < front.len() && front[i] == x;
                    assert(all[i] == x);
                } else {
                    assert(all[front.len() as int] == x);
                }
            }
        }
        if keep(a.last()) && front.contains(a.last()) {
            assert(init.contains(a.last()));
            let k = choose|k: int| 0 <= k < init.len() && init[k] == a.last();
            assert(a[k] == a[a.len() - 1]);
        }
        assert forall|i: int, j: int| 0 <= i < j < all.len() implies all[i] != all[j] by {
            assert(all[i] == front[i]);
            assert(front.contains(front[i]));
        }
    }
}

/// A routed query answers like the matcher: over paths without variables, what
/// the facts of the route add is, as a multiset, what the matcher's rows add,
/// whatever ids either is given; and no row has anything to narrow or to match
/// anew.
pub proof fn routes_answer_like_the_matcher(
    paths: Set<Seq<u8>>,
    query: Term,
    ids: Seq<usize>,
    pos: int,
    reading: Reading,
    rows: Seq<Row>,
    fact_ids: Seq<usize>,
    row_ids: Seq<usize>,
)
    requires
        paths.finite(),
        forall|p: Seq<u8>| #[trigger] paths.contains(p) ==> ground_span(p) && readable_path(p),
        route_shape(query, ids) is Some,
        most_selective(route_shape(query, ids)->0.args, pos),
        reading.vars == pattern_of(query, ids).unwrap().0.vars,
        reports_the_matches(rows, paths, query, ids),
    ensures
        ({
            let s = route_shape(query, ids)->0;
            let added = rows_ops(reading, rows, row_ids);
            &&& facts_ops(
                sought(paths, s, pos),
                s,
                pos,
                reading.vars,
                reading.reg,
                fact_ids,
            ).to_multiset() == added.to_multiset()
            &&& forall|i: int|
                0 <= i < rows.len() ==> reading.plan(
                    rows[i].entries,
                    rows[i].fact,
                    true,
                    row_ids[i],
                ) == Plan::Fold(#[trigger] added[i], false)
        }),
{
    let s = route_shape(query, ids)->0;
    let pattern = pattern_of(query, ids).unwrap().1[0];
    let facts = sought(paths, s, pos);
    let (vars, reg) = (reading.vars, reading.reg);
    let keep = |f: Seq<u8>| paths.contains(f) && path_matches(pattern, f);
    let g = |f: Seq<u8>| fact_ops(f, s, pos, vars, reg, 0)->0;
    lemma_lower_all_fits(factors(query), fresh_lowering(), Mode::Query(ids));
    assert(pattern.fits());
    routes_find_exactly_the_matches(paths, query, ids, pos);
    assert forall|i: int| 0 <= i < facts.len() implies fact_ops(
        #[trigger] facts[i],
        s,
        pos,
        vars,
        reg,
        fact_ids[i],
    ) == if keep(facts[i]) {
        Some(g(facts[i]))
    } else {
        None
    } by {
        let f = facts[i];
        assert(facts.contains(f));
        if keep(f) {
            routed_answers_are_the_matchers(paths, query, ids, pos, reading, f, fact_ids[i]);
            lemma_fact_ops_alike(f, pattern, s, pos, vars, reg, fact_ids[i], 0);
        }
    }
    lemma_facts_ops_filter(facts, s, pos, vars, reg, fact_ids, keep, g);
    lemma_filtered(facts, keep);
    let found = facts.filter(keep);
    let named = Seq::new(rows.len(), |i: int| rows[i].fact->0);
    let added = rows_ops(reading, rows, row_ids);
    assert forall|i: int| 0 <= i < rows.len() implies {
        &&& added[i] == g(named[i])
        &&& reading.plan(rows[i].entries, rows[i].fact, true, row_ids[i]) == Plan::Fold(
            #[trigger] added[i],
            false,
        )
    } by {
        let f = rows[i].fact->0;
        assert(row_of_match(s, rows[i]));
        routed_answers_are_the_matchers(paths, query, ids, pos, reading, f, row_ids[i]);
        lemma_fact_ops_alike(f, pattern, s, pos, vars, reg, row_ids[i], 0);
    }
    assert(added =~= named.map_values(g));
    assert forall|f: Seq<u8>| #[trigger] found.contains(f) <==> named.contains(f) by {
        if found.contains(f) {
            assert(paths.contains(f));
            let i = choose|i: int| 0 <= i < rows.len() && (#[trigger] rows[i]).fact == Some(f);
            assert(named[i] == f);
        }
        if named.contains(f) {
            let i = choose|i: int| 0 <= i < named.len() && named[i] == f;
            assert(row_of_match(s, rows[i]));
            assert(facts.contains(f) && answers_beside(f, s, pos));
        }
    }
    assert forall|i: int, j: int| 0 <= i < j < named.len() implies named[i] != named[j] by {
        assert(row_of_match(s, rows[i]) && row_of_match(s, rows[j]));
        assert(rows[i].fact != rows[j].fact);
    }
    lemma_same_images(found, named, g);
}

} // verus!
