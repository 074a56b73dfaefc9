//! Queries on a space.
//!
//! The matcher itself runs outside. A query is first turned into a step: an
//! answer that is known already, rows that an index or the table gives, or a
//! pattern for the matcher to run.
use vstd::prelude::*;
use vstd::slice::slice_to_vec;

use crate::answer::Answering;
use crate::argindex::{index_of, seek};
use crate::atom::{Atom, Term};
use crate::codec::{
    literal, literal_terms_survive, readable_path, readable_trees_are_read, recovered, unreserved,
    written_paths_are_readable, written_terms_read_back,
};
use crate::colcache::{lemma_listing_lists, listing, ColumnIndex, IndexEntry};
use crate::decode::{decode_atom, DecodeCtx, Reader};
use crate::encode::{lemma_lower_fits, lower, variables, wildcards, Mode};
use crate::pattern::{
    conjuncts_of, empty_conjunction, fresh_lowering, is_empty_conjunction, pattern_of, wrap_pattern,
    WrappedPattern,
};
use crate::registry::Registry;
use crate::route::{
    answers_beside, classify_index_route, most_selective, path_matches, route_shape,
    routes_find_exactly_the_matches, IndexRoute, Shape,
};
use crate::rows::{
    clone_rows, decoded, entries_fit, matches_of, RawRow, Reading, Row, RowPlan, VisitTally,
};
use crate::space::bulk::{lemma_load_counts, load};
use crate::space::{stored_value_path, MorkSpace, SpaceState, TabledRows};
use crate::span::{byte_rows, ground_span};
use crate::tree::{flat, lemma_parse_flat, parse_at};

verus! {

/// At most this many patterns stay tabled per space; a tabled pattern is filled
/// anew past that.
pub const QUERY_CACHE_MAX_ENTRIES: usize = 256;

/// A larger result is not tabled.
pub const QUERY_CACHE_MAX_ROWS: usize = 4096;

/// Cheapest fill in nanoseconds that is tabled: replay saves exactly the cost of
/// the matcher, so a cheap query is not worth a table entry.
pub const QUERY_TABLE_MIN_COST: u64 = 50_000;

/// The same for a debug build, in which the matcher runs slower.
pub const QUERY_TABLE_MIN_COST_DEBUG: u64 = 5_000_000;

/// A fill is worth its table entry.
pub open spec fn pays(fill_cost: u64, rows: nat, debug_build: bool) -> bool {
    &&& fill_cost >= if debug_build {
        QUERY_TABLE_MIN_COST_DEBUG
    } else {
        QUERY_TABLE_MIN_COST
    }
    &&& rows <= QUERY_CACHE_MAX_ROWS
}

/// Whether a fill is worth its table entry: it cost enough (in nanoseconds), and
/// its result is not oversized.
pub fn worth_tabling(fill_cost: u64, rows: usize, debug_build: bool) -> (r: bool)
    ensures
        r == pays(fill_cost, rows as nat, debug_build),
        r <==> rows <= 4096 && fill_cost >= if debug_build {
            5_000_000u64
        } else {
            50_000
        },
{
    let min: u64 = if debug_build {
        QUERY_TABLE_MIN_COST_DEBUG
    } else {
        QUERY_TABLE_MIN_COST
    };
    fill_cost >= min && rows <= QUERY_CACHE_MAX_ROWS
}

impl SpaceState {
    /// The query is answered through a column index: every atom is known to be
    /// free of variables, and the query has a route.
    pub open spec fn routed(self, query: Term, ids: Seq<usize>) -> bool {
        self.var_free && route_shape(query, ids) is Some
    }

    /// The facts of a relation whose column has a value, in the order of the
    /// column's index.
    pub open spec fn column_facts(self, s: Shape, pos: int, value: Seq<u8>) -> Seq<Seq<u8>> {
        seek(
            listing(index_of(self.paths, s.prefix, s.args.len(), pos)),
            s.prefix,
            s.args.len(),
            pos,
            value,
        )
    }

    /// There is an index of a column, current or not.
    pub open spec fn has_index(self, prefix: Seq<u8>, ncols: usize, pos: usize) -> bool {
        exists|i: int|
            0 <= i < self.indexes.len() && (#[trigger] self.indexes[i]).is_about(prefix, ncols, pos)
    }

    /// The index of a column as it is built over the present contents.
    pub open spec fn built_index(self, prefix: Seq<u8>, ncols: usize, pos: usize) -> IndexEntry {
        IndexEntry {
            prefix,
            ncols,
            pos,
            keys: index_of(self.paths, prefix, ncols as nat, pos as int),
            gen: self.gen,
        }
    }

    /// The space after the index of a column was asked for: the column has its
    /// current index, in the place of the one that there was or behind the
    /// others, and nothing else has changed.
    pub open spec fn indexing(self, prefix: Seq<u8>, ncols: usize, pos: usize) -> SpaceState {
        let built = self.built_index(prefix, ncols, pos);
        SpaceState {
            indexes: if self.has_index(prefix, ncols, pos) {
                self.indexes.map_values(
                    |e: IndexEntry|
                        if e.is_about(prefix, ncols, pos) {
                            built
                        } else {
                            e
                        },
                )
            } else {
                self.indexes.push(built)
            },
            ..self
        }
    }

    /// The space after a query took a route: the index of its column was asked
    /// for.
    pub open spec fn routing(self, route: IndexRoute) -> SpaceState {
        self.indexing(
            route.classified@.prefix,
            route.classified@.args.len() as usize,
            route.pos,
        )
    }

    /// The rows of a pattern are tabled and current.
    pub open spec fn replays(self, pattern: Seq<u8>) -> bool {
        self.table.contains_key(pattern) && self.table[pattern].1 == self.gen
    }

    /// The space after the rows of a pattern were matched at some cost.
    pub open spec fn tabling(
        self,
        pattern: Seq<u8>,
        rows: Seq<Row>,
        fill_cost: u64,
        debug_build: bool,
    ) -> SpaceState {
        if pays(fill_cost, rows.len(), debug_build) && (self.table.len() < QUERY_CACHE_MAX_ENTRIES
            || self.table.contains_key(pattern)) {
            SpaceState { table: self.table.insert(pattern, (rows, self.gen)), ..self }
        } else {
            self
        }
    }
}

/// What a query comes to.
#[derive(Debug)]
pub enum QueryStep {
    /// The facts that the column index of the route gave.
    Indexed(IndexRoute, Vec<Vec<u8>>),
    /// One answer that binds nothing.
    Single,
    /// No answer.
    Empty,
    /// The tabled rows of the pattern.
    Replay(WrappedPattern, Vec<RawRow>),
    /// The pattern for the matcher to run.
    Match(WrappedPattern),
}

impl MorkSpace {
    /// How the matches of a query are read: with what the space knows and the
    /// query's own grounded values.
    pub fn answering(&self, query: &Atom) -> (r: Answering)
        requires
            self.wf(),
        ensures
            r.is_for(query@, self@.reg),
    {
        Answering::new(query, self.grounded.duplicate())
    }

    /// Plans the rows of a query: a query that is no conjunction is a single
    /// pattern, and its own grounded values are known. `ids` holds a fresh
    /// variable id for each row.
    pub fn plan_rows(
        &self,
        query: &Atom,
        pattern: &WrappedPattern,
        rows: &Vec<RawRow>,
        ids: &[usize],
    ) -> (r: Vec<RowPlan>)
        requires
            self.wf(),
            rows@.len() <= ids@.len(),
            forall|i: int|
                0 <= i < rows@.len() ==> entries_fit((#[trigger] matches_of(rows@)[i]).entries),
        ensures
            r@.len() == rows@.len(),
            forall|i: int|
                0 <= i < r@.len() ==> (#[trigger] r@[i])@ == (Reading {
                    vars: variables(pattern.vars@),
                    reg: self@.reg.register(query@),
                    spans: pattern.evaluated@,
                }).plan(
                    rows@[i]@.entries,
                    rows@[i]@.fact,
                    conjuncts_of(query@) is None,
                    ids@[i],
                ),
    {
        self.answering(query).plan_rows(pattern, rows, ids)
    }

    /// The facts of the route's relation whose column has the route's value. The
    /// column's index is built if there is none, and rebuilt if it has fallen
    /// behind.
    pub fn column_facts(&mut self, route: &IndexRoute) -> (r: Vec<Vec<u8>>)
        requires
            old(self).wf(),
            route.pos < route.classified.args@.len(),
        ensures
            final(self).wf(),
            final(self)@ == old(self)@.routing(*route),
            byte_rows(r@) == old(self)@.column_facts(
                route.classified@,
                route.pos as int,
                route.value@,
            ),
    {
        let ghost before = self@;
        let ncols: usize = route.classified.args.len();
        let pos: usize = route.pos;
        let prefix = route.classified.functor_prefix.as_slice();
        proof {
            assert(route.classified@.args.len() == ncols);
        }
        let n: usize = self.column_index_cache.len();
        let mut i: usize = 0;
        while i < n
            invariant
                i <= n,
                n == self.column_index_cache@.len(),
                *self == *old(self),
                forall|j: int|
                    0 <= j < i ==> !(#[trigger] self@.indexes[j]).is_about(prefix@, ncols, pos),
            ensures
                i < n ==> self@.indexes[i as int].is_about(prefix@, ncols, pos),
            decreases n - i,
        {
            assert(self@.indexes[i as int] == self.column_index_cache@[i as int]@);
            if self.column_index_cache[i].is_about(prefix, ncols, pos) {
                break;
            }
            i = i + 1;
        }
        if i < n {
            assert(self@.indexes[i as int] == self.column_index_cache@[i as int]@);
            if self.column_index_cache[i].gen != self.mutation_gen {
                let e = ColumnIndex::build(&self.paths, prefix, ncols, pos, self.mutation_gen);
                self.column_index_cache.set(i, e);
                proof {
                    assert(self@.indexes =~= before.indexes.update(i as int, e@));
                }
            }
            proof {
                let built = before.built_index(prefix@, ncols, pos);
                assert(before.has_index(prefix@, ncols, pos));
                assert(self@.indexes[i as int] =~= built);
                assert forall|j: int| 0 <= j < before.indexes.len() && j != i implies !(
                #[trigger] before.indexes[j]).is_about(prefix@, ncols, pos) by {
                    if j < i {
                        assert(!before.indexes[j].same_column(before.indexes[i as int]));
                    } else {
                        assert(!before.indexes[i as int].same_column(before.indexes[j]));
                    }
                }
                assert(self@.indexes =~= before.indexing(prefix@, ncols, pos).indexes);
                assert(self@ =~= before.indexing(prefix@, ncols, pos));
            }
        } else {
            let e = ColumnIndex::build(&self.paths, prefix, ncols, pos, self.mutation_gen);
            self.column_index_cache.push(e);
            proof {
                assert(e@ =~= before.built_index(prefix@, ncols, pos));
                assert(self@.indexes =~= before.indexes.push(e@));
                assert(!before.has_index(prefix@, ncols, pos));
                assert(self@ =~= before.indexing(prefix@, ncols, pos));
            }
        }
        proof {
            indexing_keeps_consistency(before, prefix@, ncols, pos);
            let e = self@.indexes[i as int];
            assert(e == self.column_index_cache@[i as int]@);
            assert(e.is_about(prefix@, ncols, pos));
            assert(e.gen == self@.gen);
            assert(e.indexes(self@.paths));
        }
        self.column_index_cache[i].seek(route.value.as_slice())
    }

    /// Answers a query through the index of one of its columns: the route and the
    /// facts that it finds. `None`, with nothing changed, when the query has no
    /// route.
    pub fn indexed_query(&mut self, query: &Atom, ids: &[usize]) -> (r: Option<
        (IndexRoute, Vec<Vec<u8>>),
    >)
        requires
            old(self).wf(),
            wildcards(query@) <= ids@.len(),
        ensures
            final(self).wf(),
            match r {
                Some((route, facts)) => {
                    &&& route.routes(query@, ids@)
                    &&& final(self)@ == old(self)@.routing(route)
                    &&& byte_rows(facts@) == old(self)@.column_facts(
                        route.classified@,
                        route.pos as int,
                        route.value@,
                    )
                },
                None => route_shape(query@, ids@) is None && final(self)@ == old(self)@,
            },
    {
        match classify_index_route(query, slice_to_vec(ids)) {
            Some(route) => {
                proof {
                    assert(route.classified@.args.len() == route.classified.args@.len());
                }
                let facts = self.column_facts(&route);
                Some((route, facts))
            },
            None => None,
        }
    }

    /// Turns a query into the step that answers it. `ids` holds a fresh variable
    /// id for each mutable grounded value of the query.
    pub fn query(&mut self, query: &Atom, ids: &[usize]) -> (r: QueryStep)
        requires
            old(self).wf(),
            wildcards(query@) <= ids@.len(),
        ensures
            final(self).wf(),
            !old(self)@.routed(query@, ids@) ==> final(self)@ == old(self)@,
            match r {
                QueryStep::Indexed(route, facts) => {
                    &&& old(self)@.routed(query@, ids@)
                    &&& route.routes(query@, ids@)
                    &&& final(self)@ == old(self)@.routing(route)
                    &&& byte_rows(facts@) == old(self)@.column_facts(
                        route.classified@,
                        route.pos as int,
                        route.value@,
                    )
                },
                QueryStep::Single => {
                    &&& !old(self)@.routed(query@, ids@)
                    &&& is_empty_conjunction(query@)
                },
                QueryStep::Empty => {
                    &&& !old(self)@.routed(query@, ids@)
                    &&& !is_empty_conjunction(query@)
                    &&& pattern_of(query@, ids@) is None
                },
                QueryStep::Replay(pattern, rows) => {
                    &&& !old(self)@.routed(query@, ids@)
                    &&& !is_empty_conjunction(query@)
                    &&& pattern.encodes(query@, ids@)
                    &&& old(self)@.replays(pattern.bytes@)
                    &&& matches_of(rows@) == old(self)@.table[pattern.bytes@].0
                },
                QueryStep::Match(pattern) => {
                    &&& !old(self)@.routed(query@, ids@)
                    &&& !is_empty_conjunction(query@)
                    &&& pattern.encodes(query@, ids@)
                    &&& !old(self)@.replays(pattern.bytes@)
                },
            },
    {
        if self.var_free {
            if let Some((route, facts)) = self.indexed_query(query, ids) {
                return QueryStep::Indexed(route, facts);
            }
        }
        if empty_conjunction(query) {
            return QueryStep::Single;
        }
        let pattern = match wrap_pattern(query, slice_to_vec(ids)) {
            Some(pattern) => pattern,
            None => {
                return QueryStep::Empty;
            },
        };
        if let Some(entry) = self.query_cache.get(pattern.bytes.as_slice()) {
            if entry.gen == self.mutation_gen {
                let rows = clone_rows(&entry.rows);
                return QueryStep::Replay(pattern, rows);
            }
        }
        QueryStep::Match(pattern)
    }

    /// Tables the rows that the matcher gave for a pattern, when the fill is
    /// worth it.
    pub fn table_rows(
        &mut self,
        pattern: &[u8],
        rows: &Vec<RawRow>,
        fill_cost: u64,
        debug_build: bool,
    )
        requires
            old(self).wf(),
        ensures
            final(self).wf(),
            final(self)@ == old(self)@.tabling(
                pattern@,
                matches_of(rows@),
                fill_cost,
                debug_build,
            ),
    {
        let ghost before = self@;
        let ghost cached = self.query_cache@;
        let n: usize = self.query_cache.len();
        let known = self.query_cache.contains(pattern);
        proof {
            assert(before.table.dom() =~= cached.dom());
            assert(matches_of(rows@).len() == rows@.len());
        }
        if worth_tabling(fill_cost, rows.len(), debug_build) && (n < QUERY_CACHE_MAX_ENTRIES
            || known) {
            let entry = TabledRows { rows: clone_rows(rows), gen: self.mutation_gen };
            self.query_cache.insert(pattern, entry);
            proof {
                assert(self@.table =~= before.table.insert(
                    pattern@,
                    (matches_of(rows@), before.gen),
                ));
                assert(self@ =~= before.tabling(
                    pattern@,
                    matches_of(rows@),
                    fill_cost,
                    debug_build,
                ));
                tabling_keeps_consistency(
                    before,
                    pattern@,
                    matches_of(rows@),
                    fill_cost,
                    debug_build,
                );
            }
        }
    }

    /// Number of tabled queries, current or not.
    pub fn tabled_queries(&self) -> (n: usize)
        requires
            self.wf(),
        ensures
            n == self@.table.len(),
    {
        proof {
            assert(self@.table.dom() =~= self.query_cache@.dom());
        }
        self.query_cache.len()
    }

    /// The pattern that the matcher runs for a query; `None` for the empty
    /// conjunction and for a query that does not fit, which need no matcher.
    pub fn matcher_pattern(&self, query: &Atom, ids: &[usize]) -> (r: Option<WrappedPattern>)
        requires
            wildcards(query@) <= ids@.len(),
        ensures
            match r {
                Some(p) => !is_empty_conjunction(query@) && p.encodes(query@, ids@),
                None => is_empty_conjunction(query@) || pattern_of(query@, ids@) is None,
            },
    {
        if empty_conjunction(query) {
            return None;
        }
        wrap_pattern(query, slice_to_vec(ids))
    }

    /// How a visit of a query starts: the empty conjunction has one result that
    /// binds nothing, a query that does not fit has none, and for every other the
    /// matcher runs its pattern.
    pub fn visit_start(&self, query: &Atom, ids: &[usize]) -> (r: QueryStep)
        requires
            wildcards(query@) <= ids@.len(),
        ensures
            match r {
                QueryStep::Single => is_empty_conjunction(query@),
                QueryStep::Empty => !is_empty_conjunction(query@) && pattern_of(query@, ids@)
                    is None,
                QueryStep::Match(p) => !is_empty_conjunction(query@) && p.encodes(query@, ids@),
                _ => false,
            },
    {
        if empty_conjunction(query) {
            return QueryStep::Single;
        }
        match wrap_pattern(query, slice_to_vec(ids)) {
            Some(pattern) => QueryStep::Match(pattern),
            None => QueryStep::Empty,
        }
    }

    /// Number of matches of a query, from the number of reports that the matcher
    /// gave for its pattern.
    pub fn query_count_raw(&self, query: &Atom, ids: &[usize], callbacks: usize) -> (n: usize)
        requires
            wildcards(query@) <= ids@.len(),
        ensures
            n == if is_empty_conjunction(query@) {
                1
            } else if pattern_of(query@, ids@) is None {
                0
            } else {
                callbacks
            },
    {
        if empty_conjunction(query) {
            return 1;
        }
        if wrap_pattern(query, slice_to_vec(ids)).is_none() {
            return 0;
        }
        callbacks
    }

    /// Reports, results and reports without a result of a query, from the tally
    /// of the matcher's reports for its pattern.
    pub fn query_count_decoded(&self, query: &Atom, ids: &[usize], tally: VisitTally) -> (r: (
        usize,
        usize,
        usize,
    ))
        requires
            wildcards(query@) <= ids@.len(),
        ensures
            r == if is_empty_conjunction(query@) {
                (1usize, 1usize, 0usize)
            } else if pattern_of(query@, ids@) is None {
                (0usize, 0usize, 0usize)
            } else {
                (tally.total_callbacks, tally.sink_calls, tally.errors)
            },
    {
        if empty_conjunction(query) {
            return (1, 1, 0);
        }
        if wrap_pattern(query, slice_to_vec(ids)).is_none() {
            return (0, 0, 0);
        }
        (tally.total_callbacks, tally.sink_calls, tally.errors)
    }

    /// Number of results given to the visitor of a query, from the tally of the
    /// matcher's reports for its pattern. The empty conjunction has one result,
    /// which binds nothing.
    pub fn visit_query(&self, query: &Atom, ids: &[usize], tally: VisitTally) -> (n: usize)
        requires
            wildcards(query@) <= ids@.len(),
        ensures
            n == if is_empty_conjunction(query@) {
                1
            } else if pattern_of(query@, ids@) is None {
                0
            } else {
                tally.sink_calls
            },
    {
        if empty_conjunction(query) {
            return 1;
        }
        if wrap_pattern(query, slice_to_vec(ids)).is_none() {
            return 0;
        }
        tally.sink_calls
    }

    /// The atoms of the space in the order of their bytes. `ids` holds a fresh
    /// variable id for each of them.
    pub fn visit(&self, ids: &[usize]) -> (r: Vec<Atom>)
        requires
            self.wf(),
            self@.paths.len() <= ids@.len(),
        ensures
            crate::atom::terms(r@) == visited(listing(self@.paths), self@.reg, ids@),
    {
        let ghost rows = self.paths.rows();
        let n: usize = self.paths.len();
        proof {
            crate::colcache::lemma_listing(self.paths);
        }
        let mut out: Vec<Atom> = Vec::new();
        let mut i: usize = 0;
        proof {
            assert(crate::atom::terms(out@) =~= Seq::empty());
        }
        while i < n
            invariant
                i <= n,
                self.wf(),
                rows == self.paths.rows(),
                n == rows.len(),
                n <= ids@.len(),
                crate::atom::terms(out@) == visited(rows.take(i as int), self@.reg, ids@),
            decreases n - i,
        {
            let path = self.paths.path(i);
            assert(path.len() == path@.len());
            let ghost before = out@;
            let mut pos: usize = 0;
            let mut ctx = DecodeCtx {
                ns: 1,
                var_counter: 0,
                grounded: Some(&self.grounded),
                query_vars: &[],
                evaluated: None,
                result_id: ids[i],
            };
            proof {
                assert(ctx.reader().query_vars =~= Seq::empty());
                assert(ctx.reader() == fact_reader(self@.reg, ids@[i as int]));
                assert(rows.take(i + 1).drop_last() =~= rows.take(i as int));
                assert(rows.take(i + 1).last() == rows[i as int]);
            }
            if let Some(atom) = decode_atom(path.as_slice(), &mut pos, &mut ctx) {
                out.push(atom);
                proof {
                    assert(crate::atom::terms(out@) =~= crate::atom::terms(before).push(atom@));
                }
            }
            i = i + 1;
        }
        proof {
            assert(rows.take(rows.len() as int) =~= rows);
        }
        out
    }
}

/// A routed query is answered as the matcher would answer it: in a sound space,
/// the facts that the index gives and that pass the other columns are exactly
/// the stored atoms that match the query's pattern, each once, and all of them
/// are ground.
pub proof fn routed_queries_find_the_matches(
    s: SpaceState,
    query: Term,
    ids: Seq<usize>,
    pos: int,
)
    requires
        s.paths.finite(),
        s.latch_sound(),
        s.routed(query, ids),
        most_selective(route_shape(query, ids)->0.args, pos),
    ensures
        ({
            let shape = route_shape(query, ids)->0;
            let facts = s.column_facts(shape, pos, shape.args[pos]->Bound_0);
            &&& facts.no_duplicates()
            &&& forall|f: Seq<u8>| #[trigger]
                facts.contains(f) && answers_beside(f, shape, pos) <==> s.paths.contains(f)
                    && path_matches(pattern_of(query, ids).unwrap().1[0], f)
            &&& forall|f: Seq<u8>| #[trigger] s.paths.contains(f) ==> ground_span(f)
        }),
{
    routes_find_exactly_the_matches(s.paths, query, ids, pos);
}

/// Equal spaces, such as a space and its fork, take the same route for a query.
pub proof fn routes_are_determined(a: IndexRoute, b: IndexRoute, query: Term, ids: Seq<usize>)
    requires
        a.routes(query, ids),
        b.routes(query, ids),
    ensures
        a.classified@ == b.classified@,
        a.pos == b.pos,
        a.value@ == b.value@,
        variables(a.vars@) == variables(b.vars@),
{
    let args = a.classified@.args;
    assert(args[a.pos as int] is Bound);
    assert(args[b.pos as int] is Bound);
}

/// How a stored fact is read.
pub open spec fn fact_reader(reg: Registry, id: usize) -> Reader {
    Reader {
        ns: 1,
        grounded: Some(reg),
        query_vars: Seq::empty(),
        evaluated: None,
        result_id: id,
    }
}

/// The atoms of some paths, those that can be read, with an id for each path.
pub open spec fn visited(rows: Seq<Seq<u8>>, reg: Registry, ids: Seq<usize>) -> Seq<Term>
    decreases rows.len(),
{
    if rows.len() == 0 {
        Seq::empty()
    } else {
        let front = visited(rows.drop_last(), reg, ids);
        match decoded(rows.last(), fact_reader(reg, ids[rows.len() - 1]), 0) {
            Some(t) => front.push(t),
            None => front,
        }
    }
}

/// Every stored path that can be read is visited.
pub proof fn readable_paths_are_visited(
    rows: Seq<Seq<u8>>,
    reg: Registry,
    ids: Seq<usize>,
    i: int,
)
    requires
        0 <= i < rows.len(),
        decoded(rows[i], fact_reader(reg, ids[i]), 0) is Some,
    ensures
        visited(rows, reg, ids).contains(decoded(rows[i], fact_reader(reg, ids[i]), 0)->0),
    decreases rows.len(),
{
    let t = decoded(rows[i], fact_reader(reg, ids[i]), 0)->0;
    let all = visited(rows, reg, ids);
    if i == rows.len() - 1 {
        assert(all.last() == t);
    } else {
        let init = rows.drop_last();
        assert(init[i] == rows[i]);
        readable_paths_are_visited(init, reg, ids, i);
        let front = visited(init, reg, ids);
        let j = choose|j: int| 0 <= j < front.len() && front[j] == t;
        assert(all[j] == t);
    }
}

/// A visit is complete: where every stored path can be read, as many atoms are
/// visited as there are paths.
pub proof fn visits_are_complete(rows: Seq<Seq<u8>>, reg: Registry, ids: Seq<usize>)
    requires
        forall|i: int|
            0 <= i < rows.len() ==> decoded(#[trigger] rows[i], fact_reader(reg, ids[i]), 0)
                is Some,
    ensures
        visited(rows, reg, ids).len() == rows.len(),
    decreases rows.len(),
{
    if rows.len() > 0 {
        let init = rows.drop_last();
        assert forall|i: int| 0 <= i < init.len() implies decoded(
            #[trigger] init[i],
            fact_reader(reg, ids[i]),
            0,
        ) is Some by {
            assert(init[i] == rows[i]);
        }
        visits_are_complete(init, reg, ids);
        assert(rows.last() == rows[rows.len() - 1]);
    }
}

impl SpaceState {
    /// Every stored path can be read.
    pub open spec fn readable(self) -> bool {
        forall|p: Seq<u8>| #[trigger] self.paths.contains(p) ==> readable_path(p)
    }
}

/// A space whose paths can be read is visited whole, however many atoms share a
/// head: one atom for each stored path, in their order.
pub proof fn readable_spaces_are_visited_whole(s: SpaceState, ids: Seq<usize>)
    requires
        s.paths.finite(),
        s.readable(),
    ensures
        visited(listing(s.paths), s.reg, ids).len() == s.paths.len(),
        forall|i: int|
            0 <= i < s.paths.len() ==> decoded(
                listing(s.paths)[i],
                fact_reader(s.reg, ids[i]),
                0,
            ) == Some(#[trigger] visited(listing(s.paths), s.reg, ids)[i]),
{
    let rows = listing(s.paths);
    lemma_listing_lists(s.paths);
    assert forall|i: int| 0 <= i < rows.len() implies decoded(
        #[trigger] rows[i],
        fact_reader(s.reg, ids[i]),
        0,
    ) is Some by {
        assert(rows.to_set().contains(rows[i]));
        let (t, _) = parse_at(rows[i], 0).unwrap();
        readable_trees_are_read(t, fact_reader(s.reg, ids[i]), 0);
    }
    visits_are_complete(rows, s.reg, ids);
    lemma_visited_in_order(rows, s.reg, ids);
}

/// Where every path can be read, the atoms stand in the order of the paths.
proof fn lemma_visited_in_order(rows: Seq<Seq<u8>>, reg: Registry, ids: Seq<usize>)
    requires
        forall|i: int|
            0 <= i < rows.len() ==> decoded(#[trigger] rows[i], fact_reader(reg, ids[i]), 0)
                is Some,
    ensures
        visited(rows, reg, ids).len() == rows.len(),
        forall|i: int|
            0 <= i < rows.len() ==> decoded(rows[i], fact_reader(reg, ids[i]), 0) == Some(
                #[trigger] visited(rows, reg, ids)[i],
            ),
    decreases rows.len(),
{
    if rows.len() > 0 {
        let init = rows.drop_last();
        assert forall|i: int| 0 <= i < init.len() implies decoded(
            #[trigger] init[i],
            fact_reader(reg, ids[i]),
            0,
        ) is Some by {
            assert(init[i] == rows[i]);
        }
        lemma_visited_in_order(init, reg, ids);
        let (front, all) = (visited(init, reg, ids), visited(rows, reg, ids));
        assert(rows.last() == rows[rows.len() - 1]);
        assert forall|i: int| 0 <= i < rows.len() implies decoded(
            rows[i],
            fact_reader(reg, ids[i]),
            0,
        ) == Some(#[trigger] all[i]) by {
            if i < init.len() {
                assert(all[i] == front[i]);
                assert(init[i] == rows[i]);
            }
        }
    }
}

/// Adding keeps a space readable, and so does removing.
pub proof fn adding_keeps_spaces_readable(s: SpaceState, t: Term)
    requires
        s.readable(),
    ensures
        unreserved(t) ==> s.adding(t).readable(),
        s.removing(t).readable(),
{
    if unreserved(t) && s.store_path(t) is Some {
        written_paths_are_readable(t, s.storing(), Mode::Store);
    }
}

/// A bulk load keeps a space readable.
pub proof fn bulk_loads_keep_spaces_readable(s: SpaceState, ts: Seq<Term>)
    requires
        s.readable(),
        ts.len() <= usize::MAX,
        forall|i: int| 0 <= i < ts.len() ==> unreserved(#[trigger] ts[i]),
    ensures
        s.extending(ts).readable(),
{
    let n = ts.len() as int;
    let l = load(ts, 0, n);
    lemma_loaded_paths_are_readable(ts, n);
    lemma_load_counts(ts, 0, n);
    let merged = s.merging(l);
    let base = SpaceState { gen: (merged.gen + 1) as u64, ..merged };
    lemma_places_keep_readable(base, ts, l.sequential);
}

/// The paths of a load can be read.
proof fn lemma_loaded_paths_are_readable(ts: Seq<Term>, k: int)
    requires
        0 <= k <= ts.len(),
        forall|i: int| 0 <= i < ts.len() ==> unreserved(#[trigger] ts[i]),
    ensures
        forall|p: Seq<u8>| #[trigger] load(ts, 0, k).paths.contains(p) ==> readable_path(p),
    decreases k,
{
    if k > 0 {
        lemma_loaded_paths_are_readable(ts, k - 1);
        let t = ts[k - 1];
        if stored_value_path(t) is Some {
            written_paths_are_readable(t, fresh_lowering(), Mode::ValueOnly);
        }
        assert forall|p: Seq<u8>| #[trigger]
            load(ts, 0, k).paths.contains(p) implies readable_path(p) by {
            if !load(ts, 0, k - 1).paths.contains(p) {
                assert(stored_value_path(t) == Some(p));
            }
        }
    }
}

/// Adding the atoms at some places keeps a space readable.
proof fn lemma_places_keep_readable(s: SpaceState, ts: Seq<Term>, places: Seq<usize>)
    requires
        s.readable(),
        forall|i: int| 0 <= i < ts.len() ==> unreserved(#[trigger] ts[i]),
        forall|i: int| 0 <= i < places.len() ==> #[trigger] places[i] < ts.len(),
    ensures
        s.adding_places(ts, places).readable(),
    decreases places.len(),
{
    if places.len() > 0 {
        let init = places.drop_last();
        assert forall|i: int| 0 <= i < init.len() implies #[trigger] init[i] < ts.len() by {
            assert(init[i] == places[i]);
        }
        assert(places.last() == places[places.len() - 1]);
        lemma_places_keep_readable(s, ts, init);
        adding_keeps_spaces_readable(s.adding_places(ts, init), ts[places.last() as int]);
    }
}

/// A restriction, set algebra with a readable space, and loading readable paths
/// keep a space readable.
pub proof fn whole_space_changes_keep_spaces_readable(
    s: SpaceState,
    other: SpaceState,
    prefix: Seq<u8>,
    loaded: Set<Seq<u8>>,
)
    requires
        s.readable(),
        other.readable(),
        forall|p: Seq<u8>| #[trigger] loaded.contains(p) ==> readable_path(p),
    ensures
        s.restricted(prefix).readable(),
        s.combined(other, s.paths.union(other.paths)).readable(),
        s.combined(other, s.paths.intersect(other.paths)).readable(),
        s.combined(other, s.paths.difference(other.paths)).readable(),
        s.loading_paths(loaded).readable(),
{
}

/// An added atom is read back from its path, now and after anything that only
/// adds to the registry.
pub proof fn added_atoms_read_back(s: SpaceState, t: Term, later: Registry, id: usize)
    requires
        s.store_path(t) is Some,
        unreserved(t),
        s.adding(t).reg.within(later),
        s.adding(t).reg.by_id.len() <= u64::MAX,
    ensures
        s.adding(t).paths.contains(s.store_path(t)->0),
        decoded(s.store_path(t)->0, fact_reader(later, id), 0) == Some(
            recovered(
                t,
                lower(t, s.storing(), Mode::Store).0.vars,
                fact_reader(later, id),
            ),
        ),
{
    let r = fact_reader(later, id);
    let (s2, tree) = lower(t, s.storing(), Mode::Store);
    let vars = s2.vars;
    assert(vars =~= vars.take(vars.len() as int));
    written_terms_read_back(t, s.storing(), Mode::Store, vars, r);
    lemma_lower_fits(t, s.storing(), Mode::Store);
    let b = flat(tree->0);
    assert(b.subrange(0, b.len() as int) =~= b);
    lemma_parse_flat(b, 0, tree->0);
}

/// Tabled rows are not replayed in any later generation.
pub proof fn later_generations_retire_tabled_rows(
    s: SpaceState,
    later: SpaceState,
    pattern: Seq<u8>,
)
    requires
        s.consistent(),
        later.table == s.table,
        s.gen < later.gen,
    ensures
        !later.replays(pattern),
{
}

/// Tabled rows are never replayed after the space has changed: whatever adds an
/// atom or finds one to remove moves the generation past every table entry.
pub proof fn mutations_retire_tabled_rows(s: SpaceState, t: Term, pattern: Seq<u8>)
    requires
        s.consistent(),
        s.gen < u64::MAX,
    ensures
        s.adding(t).paths != s.paths ==> !s.adding(t).replays(pattern),
        s.removing(t).paths != s.paths ==> !s.removing(t).replays(pattern),
{
}

/// The same of the operations on a whole space: text, rules, saved paths, a
/// restriction and set algebra retire every tabled query.
pub proof fn whole_space_changes_retire_tabled_rows(
    s: SpaceState,
    other: SpaceState,
    text: Seq<char>,
    steps: usize,
    paths: Set<Seq<u8>>,
    prefix: Seq<u8>,
    pattern: Seq<u8>,
)
    requires
        s.consistent(),
        s.gen < u64::MAX,
    ensures
        !s.with_paths(paths).replays(pattern),
        !s.loading_text(text, paths).replays(pattern),
        steps > 0 ==> !s.stepping(steps, paths).replays(pattern),
        !s.loading_paths(paths).replays(pattern),
        !s.restricted(prefix).replays(pattern),
        !s.combined(other, paths).replays(pattern),
{
}

/// The same of a bulk load.
pub proof fn bulk_loads_retire_tabled_rows(s: SpaceState, ts: Seq<Term>, pattern: Seq<u8>)
    requires
        s.consistent(),
        s.gen + ts.len() < u64::MAX,
    ensures
        !s.extending(ts).replays(pattern),
{
    crate::space::bulk::lemma_extending_moves_on(s, ts);
    later_generations_retire_tabled_rows(s, s.extending(ts), pattern);
}

/// An index that is asked for keeps the space consistent. Its column then has a
/// current index, and the index of every other column stays in its place.
pub proof fn indexing_keeps_consistency(s: SpaceState, prefix: Seq<u8>, ncols: usize, pos: usize)
    requires
        s.consistent(),
        pos < ncols,
    ensures
        s.indexing(prefix, ncols, pos).consistent(),
        s.indexing(prefix, ncols, pos).indexes.contains(s.built_index(prefix, ncols, pos)),
        forall|j: int|
            0 <= j < s.indexes.len() && !(#[trigger] s.indexes[j]).is_about(prefix, ncols, pos)
                ==> s.indexing(prefix, ncols, pos).indexes[j] == s.indexes[j],
{
    let after = s.indexing(prefix, ncols, pos);
    let built = s.built_index(prefix, ncols, pos);
    if s.has_index(prefix, ncols, pos) {
        let i = choose|i: int|
            0 <= i < s.indexes.len() && (#[trigger] s.indexes[i]).is_about(prefix, ncols, pos);
        assert(after.indexes[i] == built);
    } else {
        assert(after.indexes[s.indexes.len() as int] == built);
    }
    assert forall|a: int, b: int| 0 <= a < b < after.indexes.len() implies !(
    #[trigger] after.indexes[a]).same_column(#[trigger] after.indexes[b]) by {
        if b < s.indexes.len() {
            assert(!s.indexes[a].same_column(s.indexes[b]));
        } else {
            assert(!s.indexes[a].is_about(prefix, ncols, pos));
        }
    }
}

/// Tabling keeps the space consistent, and so the table to its caps.
pub proof fn tabling_keeps_consistency(
    s: SpaceState,
    pattern: Seq<u8>,
    rows: Seq<Row>,
    fill_cost: u64,
    debug_build: bool,
)
    requires
        s.consistent(),
    ensures
        s.tabling(pattern, rows, fill_cost, debug_build).consistent(),
{
    if s.table.contains_key(pattern) {
        assert(s.table.insert(pattern, (rows, s.gen)).dom() =~= s.table.dom());
    } else {
        assert(s.table.insert(pattern, (rows, s.gen)).dom() =~= s.table.dom().insert(pattern));
    }
}

/// What was tabled is replayed until the next mutation.
pub proof fn tabled_rows_replay(
    s: SpaceState,
    pattern: Seq<u8>,
    rows: Seq<Row>,
    fill_cost: u64,
    debug_build: bool,
)
    requires
        pays(fill_cost, rows.len(), debug_build),
        s.table.len() < QUERY_CACHE_MAX_ENTRIES || s.table.contains_key(pattern),
    ensures
        s.tabling(pattern, rows, fill_cost, debug_build).replays(pattern),
        s.tabling(pattern, rows, fill_cost, debug_build).table[pattern].0 == rows,
{
}

/// A stored fact is read as data: its variables are numbered from the first and belong
/// to one result, its grounded values come from the registry, and it has no variable of
/// a query.
pub proof fn stored_facts_are_read_as_data(reg: Registry, id: usize)
    ensures
        fact_reader(reg, id) == (Reader {
            ns: 1,
            grounded: Some(reg),
            query_vars: Seq::empty(),
            evaluated: None,
            result_id: id,
        }),
{
}

/// An added atom without variables whose values are the kept ones is visited as it
/// was added.
pub proof fn added_atoms_are_visited(s: SpaceState, t: Term, ids: Seq<usize>)
    requires
        s.paths.finite(),
        s.store_path(t) is Some,
        unreserved(t),
        literal(t, s.adding(t).reg),
        s.adding(t).reg.by_id.len() <= u64::MAX,
    ensures
        visited(listing(s.adding(t).paths), s.adding(t).reg, ids).contains(t),
{
    let after = s.adding(t);
    let p = s.store_path(t)->0;
    let rows = listing(after.paths);
    lemma_listing_lists(after.paths);
    assert(rows.to_set().contains(p));
    let i = choose|i: int| 0 <= i < rows.len() && rows[i] == p;
    assert(after.reg.by_id =~= after.reg.by_id.take(after.reg.by_id.len() as int));
    added_atoms_read_back(s, t, after.reg, ids[i]);
    literal_terms_survive(
        t,
        lower(t, s.storing(), Mode::Store).0.vars,
        fact_reader(after.reg, ids[i]),
    );
    readable_paths_are_visited(rows, after.reg, ids, i);
}

/// The rows of a pattern are tabled exactly when they cost enough, are not too many,
/// and there is room or an entry to replace; they are then what the pattern replays.
/// Tabling changes nothing but the entry of its pattern.
pub proof fn costly_rows_are_tabled(
    s: SpaceState,
    pattern: Seq<u8>,
    rows: Seq<Row>,
    fill_cost: u64,
    debug_build: bool,
    other: Seq<u8>,
)
    requires
        other != pattern,
    ensures
        ({
            let after = s.tabling(pattern, rows, fill_cost, debug_build);
            let least = if debug_build {
                5_000_000u64
            } else {
                50_000
            };
            let kept = least <= fill_cost && rows.len() <= 4096 && (s.table.len() < 256
                || s.table.contains_key(pattern));
            &&& kept ==> after.table.contains_key(pattern) && after.table[pattern] == (rows, s.gen)
            &&& !kept ==> after == s
            &&& after.table.contains_key(other) == s.table.contains_key(other)
            &&& s.table.contains_key(other) ==> after.table[other] == s.table[other]
            &&& after.paths == s.paths
            &&& after.reg == s.reg
            &&& after.gen == s.gen
            &&& after.indexes == s.indexes
            &&& after.var_free == s.var_free
            &&& after.rejected == s.rejected
            &&& s.replays(pattern) <==> s.table.contains_key(pattern) && s.table[pattern].1 == s.gen
        }),
{
}

/// A column that is asked for has its index from then on, current and over all stored
/// paths; the indexes of the other columns and everything else stay.
pub proof fn asked_columns_get_their_index(
    s: SpaceState,
    prefix: Seq<u8>,
    ncols: usize,
    pos: usize,
)
    ensures
        ({
            let after = s.indexing(prefix, ncols, pos);
            &&& exists|i: int|
                0 <= i < after.indexes.len() && {
                    let e = #[trigger] after.indexes[i];
                    &&& e.prefix == prefix && e.ncols == ncols && e.pos == pos
                    &&& e.gen == s.gen
                    &&& e.keys == index_of(s.paths, prefix, ncols as nat, pos as int)
                }
            &&& s.indexes.len() <= after.indexes.len() <= s.indexes.len() + 1
            &&& forall|i: int|
                0 <= i < s.indexes.len() && !((#[trigger] s.indexes[i]).prefix == prefix
                    && s.indexes[i].ncols == ncols && s.indexes[i].pos == pos) ==> after.indexes[i]
                    == s.indexes[i]
            &&& after.paths == s.paths
            &&& after.reg == s.reg
            &&& after.table == s.table
            &&& after.gen == s.gen
            &&& after.var_free == s.var_free
            &&& after.rejected == s.rejected
        }),
{
    let after = s.indexing(prefix, ncols, pos);
    if s.has_index(prefix, ncols, pos) {
        let i = choose|i: int|
            0 <= i < s.indexes.len() && (#[trigger] s.indexes[i]).is_about(prefix, ncols, pos);
        assert(after.indexes[i] == s.built_index(prefix, ncols, pos));
    } else {
        let i = s.indexes.len() as int;
        assert(after.indexes[i] == s.built_index(prefix, ncols, pos));
    }
}

} // verus!
