//! Read-only snapshots of a space.
use vstd::prelude::*;
use vstd::slice::slice_to_vec;

use crate::agreement::{reports_the_matches, routes_answer_like_the_matcher, rows_ops};
use crate::answer::Answering;
use crate::argindex::{index_of, seek};
use crate::atom::{Atom, Term, VariableAtom};
use crate::colcache::{index_entries, listing, ColumnIndex, IndexEntry};
use crate::encode::{ref_terms, variables, wildcards, EvaluatedSpans};
use crate::paths::PathSet;
use crate::pattern::{
    conjuncts_of, empty_conjunction, is_empty_conjunction, pattern_of, pattern_tree, wrap_pattern,
    WrappedPattern,
};
use crate::registry::{GroundedRegistry, Registry};
use crate::route::{
    answers_beside, classify_index_route, facts_ops, most_selective, path_matches, route_shape,
    routes_find_exactly_the_matches, Shape,
};
use crate::rows::{entries_fit, matches_of, RawRow, Reading, Row, RowPlan};
use crate::space::query::QueryStep;
use crate::space::SpaceState;
use crate::span::{byte_rows, ground_span};
use crate::tree::flat;

verus! {

/// The state of a snapshot: the encoded atoms, whether all of them are known to
/// be free of variables, and the column indexes that were current.
#[verifier::ext_equal]
pub struct SnapshotState {
    pub paths: Set<Seq<u8>>,
    pub var_free: bool,
    pub indexes: Seq<IndexEntry>,
}

/// A read-only copy of a space's atoms.
#[derive(Debug)]
pub struct MorkSnapshot {
    paths: PathSet,
    var_free: bool,
    indexes: Vec<ColumnIndex>,
}

impl View for MorkSnapshot {
    type V = SnapshotState;

    closed spec fn view(&self) -> SnapshotState {
        SnapshotState {
            paths: self.paths@,
            var_free: self.var_free,
            indexes: index_entries(self.indexes@),
        }
    }
}

/// A query encoded once to be run many times.
#[derive(Debug)]
pub struct PreparedQuery {
    wrapped: Vec<u8>,
    vars: Vec<VariableAtom>,
    refs: Vec<(usize, Atom)>,
    evaluated: EvaluatedSpans,
}

impl PreparedQuery {
    /// The bytes of the pattern.
    pub closed spec fn bytes(&self) -> Seq<u8> {
        self.wrapped@
    }

    /// The query is the one that was prepared.
    pub closed spec fn prepares(&self, query: Term, ids: Seq<usize>) -> bool {
        &&& pattern_of(query, ids) is Some
        &&& self.wrapped@ == flat(pattern_tree(pattern_of(query, ids).unwrap().1))
        &&& variables(self.vars@) == pattern_of(query, ids).unwrap().0.vars
        &&& ref_terms(self.refs@) == pattern_of(query, ids).unwrap().0.refs
        &&& self.evaluated@ == pattern_of(query, ids).unwrap().0.spans
    }
}

/// How a count is settled.
#[derive(Debug)]
pub enum CountStep {
    /// Nothing matches.
    Zero,
    /// The matcher counts this pattern; where the flag is set, a factorized count
    /// may be tried first.
    Run(Vec<u8>, bool),
}

/// What a column of a factor is to a factorized count.
#[derive(Clone, Copy, Debug, PartialEq, Eq, Structural)]
pub enum ColumnKind {
    /// A variable at the top of the column.
    Variable,
    /// A value without variables.
    Ground,
    /// A compound with a variable inside.
    NongroundCompound,
}

/// A factorized count can fold these factors: there are at least two, and no
/// variable is nested inside a column, where the fold never has a value for it.
pub open spec fn foldable(factors: Seq<Vec<ColumnKind>>) -> bool {
    &&& factors.len() >= 2
    &&& forall|i: int, j: int|
        0 <= i < factors.len() && 0 <= j < factors[i]@.len() ==> #[trigger] factors[i]@[j]
            != ColumnKind::NongroundCompound
}

/// Whether a factorized count is admitted for some factors.
pub fn admits_factorized(factors: &Vec<Vec<ColumnKind>>) -> (r: bool)
    ensures
        r == foldable(factors@),
        r <==> factors@.len() >= 2 && forall|i: int, j: int|
            0 <= i < factors@.len() && 0 <= j < factors@[i]@.len() ==> #[trigger] factors@[i]@[j]
                != ColumnKind::NongroundCompound,
{
    if factors.len() < 2 {
        return false;
    }
    let mut i: usize = 0;
    while i < factors.len()
        invariant
            2 <= factors@.len(),
            i <= factors@.len(),
            forall|a: int, b: int|
                0 <= a < i && 0 <= b < factors@[a]@.len() ==> #[trigger] factors@[a]@[b]
                    != ColumnKind::NongroundCompound,
        decreases factors@.len() - i,
    {
        let cols = &factors[i];
        let mut j: usize = 0;
        while j < cols.len()
            invariant
                i < factors@.len(),
                cols == factors@[i as int],
                j <= cols@.len(),
                forall|b: int| 0 <= b < j ==> #[trigger] cols@[b] != ColumnKind::NongroundCompound,
            decreases cols@.len() - j,
        {
            if cols[j] == ColumnKind::NongroundCompound {
                assert(factors@[i as int]@[j as int] == ColumnKind::NongroundCompound);
                return false;
            }
            j = j + 1;
        }
        i = i + 1;
    }
    true
}

/// The count of a step: the factorized one where it was allowed and came to
/// something, otherwise the one that the matcher enumerated.
pub fn settle_count(step: &CountStep, factorized: Option<usize>, enumerated: usize) -> (n: usize)
    ensures
        n == match *step {
            CountStep::Zero => 0,
            CountStep::Run(_, may_factorize) => if may_factorize && factorized is Some {
                factorized->0
            } else {
                enumerated
            },
        },
{
    match step {
        CountStep::Zero => 0,
        CountStep::Run(_, may_factorize) => {
            if *may_factorize {
                if let Some(count) = factorized {
                    return count;
                }
            }
            enumerated
        },
    }
}

impl SnapshotState {
    /// An index about a column was carried along.
    pub open spec fn carries(self, prefix: Seq<u8>, n: nat, pos: int) -> bool {
        exists|i: int|
            0 <= i < self.indexes.len() && {
                let e = #[trigger] self.indexes[i];
                e.prefix == prefix && e.ncols == n && e.pos == pos
            }
    }

    /// While the latch holds, no atom has a variable.
    pub open spec fn latch_sound(self) -> bool {
        self.var_free ==> forall|p: Seq<u8>| #[trigger] self.paths.contains(p) ==> ground_span(p)
    }

    /// The facts of a relation whose column has a value, in the order of the
    /// column's index.
    pub open spec fn column_facts(self, s: Shape, pos: int, value: Seq<u8>) -> Seq<Seq<u8>> {
        seek(
            listing(index_of(self.paths, s.prefix, s.args.len(), pos)),
            s.prefix,
            s.args.len(),
            pos,
            value,
        )
    }

    /// Every index is that of its column.
    pub open spec fn consistent(self) -> bool {
        forall|i: int|
            0 <= i < self.indexes.len() ==> {
                let e = #[trigger] self.indexes[i];
                e.pos < e.ncols && e.indexes(self.paths)
            }
    }
}

impl MorkSnapshot {
    /// The parts are in order.
    pub closed spec fn parts_wf(&self) -> bool {
        &&& self.paths.wf()
        &&& forall|i: int| 0 <= i < self.indexes@.len() ==> (#[trigger] self.indexes@[i]).wf()
    }

    /// The parts are in order and the indexes are those of their columns.
    pub open spec fn wf(&self) -> bool {
        self.parts_wf() && self@.consistent()
    }

    /// A snapshot of its parts.
    pub(crate) fn build(paths: PathSet, var_free: bool, indexes: Vec<ColumnIndex>) -> (r:
        MorkSnapshot)
        requires
            paths.wf(),
            forall|i: int| 0 <= i < indexes@.len() ==> (#[trigger] indexes@[i]).wf(),
            (SnapshotState {
                paths: paths@,
                var_free,
                indexes: index_entries(indexes@),
            }).consistent(),
        ensures
            r.wf(),
            r@ == (SnapshotState { paths: paths@, var_free, indexes: index_entries(indexes@) }),
    {
        MorkSnapshot { paths, var_free, indexes }
    }

    /// Number of atoms in the snapshot.
    pub fn len(&self) -> (n: usize)
        requires
            self.wf(),
        ensures
            n == self@.paths.len(),
            self@.paths.finite(),
    {
        self.paths.len()
    }

    /// The carried index about a column.
    fn find_index(&self, prefix: &[u8], ncols: usize, pos: usize) -> (r: Option<usize>)
        ensures
            match r {
                Some(i) => i < self.indexes@.len() && self@.indexes[i as int].is_about(
                    prefix@,
                    ncols,
                    pos,
                ),
                None => !self@.carries(prefix@, ncols as nat, pos as int),
            },
    {
        let mut i: usize = 0;
        while i < self.indexes.len()
            invariant
                i <= self.indexes@.len(),
                forall|j: int|
                    0 <= j < i ==> !(#[trigger] self@.indexes[j]).is_about(prefix@, ncols, pos),
            decreases self.indexes@.len() - i,
        {
            assert(self@.indexes[i as int] == self.indexes@[i as int]@);
            if self.indexes[i].is_about(prefix, ncols, pos) {
                return Some(i);
            }
            i = i + 1;
        }
        None
    }

    /// Turns a query into the step that answers it: a query with a route seeks
    /// the carried index of its column, every other is for the matcher. A
    /// snapshot builds no index. `ids` holds a fresh variable id for each mutable
    /// grounded value of the query.
    pub fn query(&self, query: &Atom, ids: &[usize]) -> (r: QueryStep)
        requires
            self.wf(),
            wildcards(query@) <= ids@.len(),
        ensures
            match r {
                QueryStep::Indexed(route, facts) => {
                    &&& self@.var_free
                    &&& route.routes(query@, ids@)
                    &&& self@.carries(
                        route.classified@.prefix,
                        route.classified@.args.len(),
                        route.pos as int,
                    )
                    &&& byte_rows(facts@) == self@.column_facts(
                        route.classified@,
                        route.pos as int,
                        route.value@,
                    )
                },
                QueryStep::Single => is_empty_conjunction(query@),
                QueryStep::Empty => !is_empty_conjunction(query@) && pattern_of(query@, ids@)
                    is None,
                QueryStep::Replay(_, _) => false,
                QueryStep::Match(pattern) => {
                    &&& !is_empty_conjunction(query@)
                    &&& pattern.encodes(query@, ids@)
                    &&& self@.var_free && route_shape(query@, ids@) is Some ==> exists|pos: int|
                        #[trigger] most_selective(
                            route_shape(query@, ids@)->0.args,
                            pos,
                        ) && !self@.carries(
                            route_shape(query@, ids@)->0.prefix,
                            route_shape(query@, ids@)->0.args.len(),
                            pos,
                        )
                },
            },
    {
        if self.var_free {
            if let Some(route) = classify_index_route(query, slice_to_vec(ids)) {
                let ncols: usize = route.classified.args.len();
                let ghost shape = route.classified@;
                proof {
                    assert(shape.args.len() == ncols);
                }
                let prefix = route.classified.functor_prefix.as_slice();
                match self.find_index(prefix, ncols, route.pos) {
                    Some(i) => {
                        assert(self@.indexes[i as int] == self.indexes@[i as int]@);
                        let facts = self.indexes[i].seek(route.value.as_slice());
                        return QueryStep::Indexed(route, facts);
                    },
                    None => {
                        assert(most_selective(shape.args, route.pos as int));
                    },
                }
            }
        }
        if empty_conjunction(query) {
            return QueryStep::Single;
        }
        match wrap_pattern(query, slice_to_vec(ids)) {
            Some(pattern) => QueryStep::Match(pattern),
            None => QueryStep::Empty,
        }
    }

    /// How the matches of a query are read: only the query's own grounded values
    /// are known.
    pub fn answering(&self, query: &Atom) -> (r: Answering)
        ensures
            r.is_for(query@, Registry::empty()),
    {
        Answering::new(query, GroundedRegistry::new())
    }

    /// Plans the rows of a query: a query that is no conjunction is a single
    /// pattern, and only its own grounded values are known. `ids` holds a fresh
    /// variable id for each row.
    pub fn plan_rows(
        &self,
        query: &Atom,
        pattern: &WrappedPattern,
        rows: &Vec<RawRow>,
        ids: &[usize],
    ) -> (r: Vec<RowPlan>)
        requires
            rows@.len() <= ids@.len(),
            forall|i: int|
                0 <= i < rows@.len() ==> entries_fit((#[trigger] matches_of(rows@)[i]).entries),
        ensures
            r@.len() == rows@.len(),
            forall|i: int|
                0 <= i < r@.len() ==> (#[trigger] r@[i])@ == (Reading {
                    vars: variables(pattern.vars@),
                    reg: Registry::empty().register(query@),
                    spans: pattern.evaluated@,
                }).plan(
                    rows@[i]@.entries,
                    rows@[i]@.fact,
                    conjuncts_of(query@) is None,
                    ids@[i],
                ),
    {
        self.answering(query).plan_rows(pattern, rows, ids)
    }

    /// How the matches of a query are counted.
    pub fn count_matches(&self, query: &Atom, ids: &[usize]) -> (r: CountStep)
        requires
            wildcards(query@) <= ids@.len(),
        ensures
            match r {
                CountStep::Zero => pattern_of(query@, ids@) is None,
                CountStep::Run(bytes, may_factorize) => {
                    &&& pattern_of(query@, ids@) is Some
                    &&& bytes@ == flat(pattern_tree(pattern_of(query@, ids@).unwrap().1))
                    &&& may_factorize == self@.var_free
                },
            },
    {
        match wrap_pattern(query, slice_to_vec(ids)) {
            Some(pattern) => CountStep::Run(pattern.bytes, self.var_free),
            None => CountStep::Zero,
        }
    }

    /// Encodes a query to be run many times; `None` when it does not fit.
    pub fn prepare(&self, query: &Atom, ids: &[usize]) -> (r: Option<PreparedQuery>)
        requires
            wildcards(query@) <= ids@.len(),
        ensures
            match r {
                Some(p) => {
                    &&& pattern_of(query@, ids@) is Some
                    &&& p.prepares(query@, ids@)
                    &&& p.bytes() == flat(pattern_tree(pattern_of(query@, ids@).unwrap().1))
                },
                None => pattern_of(query@, ids@) is None,
            },
    {
        match wrap_pattern(query, slice_to_vec(ids)) {
            Some(pattern) => Some(
                PreparedQuery {
                    wrapped: pattern.bytes,
                    vars: pattern.vars,
                    refs: pattern.refs,
                    evaluated: pattern.evaluated,
                },
            ),
            None => None,
        }
    }

    /// How the matches of a prepared query are counted: as those of the query
    /// itself, without encoding it again.
    pub fn count_prepared(&self, prepared: &PreparedQuery) -> (r: CountStep)
        ensures
            match r {
                CountStep::Zero => false,
                CountStep::Run(bytes, may_factorize) => {
                    &&& bytes@ == prepared.bytes()
                    &&& may_factorize == self@.var_free
                },
            },
    {
        CountStep::Run(slice_to_vec(prepared.wrapped.as_slice()), self.var_free)
    }
}

/// A seek in a carried index gives the matcher's answer over the atoms of the
/// snapshot: the facts that it gives and that pass the other columns are exactly
/// the atoms that match the query's pattern, each once, and all of them are
/// ground.
pub proof fn snapshots_find_the_matches(
    s: SnapshotState,
    query: Term,
    ids: Seq<usize>,
    pos: int,
)
    requires
        s.paths.finite(),
        s.latch_sound(),
        s.var_free,
        route_shape(query, ids) is Some,
        most_selective(route_shape(query, ids)->0.args, pos),
    ensures
        ({
            let shape = route_shape(query, ids)->0;
            let facts = s.column_facts(shape, pos, shape.args[pos]->Bound_0);
            &&& facts.no_duplicates()
            &&& forall|f: Seq<u8>| #[trigger]
                facts.contains(f) && answers_beside(f, shape, pos) <==> s.paths.contains(f)
                    && path_matches(pattern_of(query, ids).unwrap().1[0], f)
            &&& forall|f: Seq<u8>| #[trigger] s.paths.contains(f) ==> ground_span(f)
        }),
{
    routes_find_exactly_the_matches(s.paths, query, ids, pos);
}

/// A snapshot answers like the matcher over the atoms that its space held when it
/// was taken, whatever is added to the space or removed from it later: what a seek
/// in a carried index adds is, as a multiset, what the matcher's rows over those
/// atoms add. A query that no carried index serves is handed to the matcher with
/// those atoms.
pub proof fn snapshots_answer_like_the_matcher(
    taken: SnapshotState,
    space: SpaceState,
    query: Term,
    ids: Seq<usize>,
    pos: int,
    reading: Reading,
    rows: Seq<Row>,
    fact_ids: Seq<usize>,
    row_ids: Seq<usize>,
)
    requires
        taken.paths == space.paths,
        taken.var_free == space.var_free,
        space.paths.finite(),
        space.latch_sound(),
        space.readable(),
        taken.var_free,
        route_shape(query, ids) is Some,
        most_selective(route_shape(query, ids)->0.args, pos),
        reading.vars == pattern_of(query, ids).unwrap().0.vars,
        reports_the_matches(rows, space.paths, query, ids),
    ensures
        ({
            let shape = route_shape(query, ids)->0;
            facts_ops(
                taken.column_facts(shape, pos, shape.args[pos]->Bound_0),
                shape,
                pos,
                reading.vars,
                reading.reg,
                fact_ids,
            ).to_multiset() == rows_ops(reading, rows, row_ids).to_multiset()
        }),
{
    routes_answer_like_the_matcher(
        space.paths,
        query,
        ids,
        pos,
        reading,
        rows,
        fact_ids,
        row_ids,
    );
}

/// A snapshot is frozen: it answers over the atoms that the space held when it was
/// taken, whatever is added to the space or removed from it later.
pub proof fn snapshots_answer_as_their_space_did(
    taken: SnapshotState,
    space: SpaceState,
    shape: Shape,
    pos: int,
    value: Seq<u8>,
)
    requires
        taken.paths == space.paths,
        taken.var_free == space.var_free,
    ensures
        taken.column_facts(shape, pos, value) == space.column_facts(shape, pos, value),
        space.latch_sound() ==> taken.latch_sound(),
{
}

} // verus!
