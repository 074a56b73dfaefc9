//! The life of a space: what can happen to it, and what holds of it whatever has
//! happened.
use vstd::prelude::*;
use vstd::utf8::encode_utf8;

use crate::agreement::{reports_the_matches, routes_answer_like_the_matcher, rows_ops};
use crate::answer::{
    registering_keeps_values_only, registering_rows_keeps_values_only, storing_keeps_values_only,
};
use crate::atom::Term;
use crate::codec::{readable_path, unreserved};
use crate::colcache::listing;
use crate::encode::Mode;
use crate::pattern::{pattern_of, pattern_tree};
use crate::route::{facts_ops, most_selective, route_shape};
use crate::rows::{decoded, Reading, Row};
use crate::space::bulk::load;
use crate::space::ops::ground_prefix;
use crate::space::query::{
    adding_keeps_spaces_readable, bulk_loads_keep_spaces_readable, fact_reader,
    indexing_keeps_consistency, readable_spaces_are_visited_whole, tabling_keeps_consistency,
    visited, whole_space_changes_keep_spaces_readable,
};
use crate::space::transform::{clean_prefix, rewritable};
use crate::space::SpaceState;
use crate::span::ground_span;
use crate::tree::flat;

verus! {

/// What can happen to a space. What comes from outside stands beside the act: the
/// paths that the parser made of a text, that the rule engine left, or that were
/// saved or written by a rewrite. Another space has lived through acts of its own.
pub enum Act {
    /// An atom is added.
    Add(Term),
    /// An atom is removed.
    Remove(Term),
    /// Atoms are loaded in bulk.
    Load(Seq<Term>),
    /// Text is loaded.
    Text(Seq<char>, Set<Seq<u8>>),
    /// Rules run for some steps.
    Steps(usize, Set<Seq<u8>>),
    /// A rewrite from patterns to templates is planned.
    Plan(Seq<Term>, Seq<Term>),
    /// Paths are loaded: saved ones, or what a rewrite wrote.
    Paths(Set<Seq<u8>>),
    /// The space is restricted to the ground prefix of a pattern.
    Restrict(Term),
    /// The atoms of another space are added.
    Unite(Seq<Act>),
    /// The atoms that another space lacks are removed.
    Intersect(Seq<Act>),
    /// The atoms of another space are removed.
    Subtract(Seq<Act>),
    /// The matcher's rows for a pattern are offered to the table.
    Fill(Seq<u8>, u64, bool),
    /// A query asks for the index of a column.
    Index(Seq<u8>, usize, usize),
}

impl SpaceState {
    /// What would be replayed is what a matcher gives on the present contents.
    /// `matcher` gives the rows of a pattern over some paths.
    pub open spec fn table_true(
        self,
        matcher: spec_fn(Set<Seq<u8>>, Seq<u8>) -> Seq<Row>,
    ) -> bool {
        forall|k: Seq<u8>| #[trigger]
            self.replays(k) ==> self.table[k].0 == matcher(self.paths, k)
    }

    /// The space is consistent, its latch tells the truth and so does its table,
    /// its registry keeps only grounded values, and its paths are finitely many.
    pub open spec fn sound(self, matcher: spec_fn(Set<Seq<u8>>, Seq<u8>) -> Seq<Row>) -> bool {
        &&& self.consistent()
        &&& self.latch_sound()
        &&& self.table_true(matcher)
        &&& self.reg.values_only()
        &&& self.paths.finite()
    }

    /// The space combined with another into some contents, or left as it is when
    /// the two cannot be combined.
    pub open spec fn combining(self, other: SpaceState, paths: Set<Seq<u8>>) -> SpaceState {
        if self.combines_with(other) {
            self.combined(other, paths)
        } else {
            self
        }
    }

    /// The space after an act.
    pub open spec fn acting(
        self,
        act: Act,
        matcher: spec_fn(Set<Seq<u8>>, Seq<u8>) -> Seq<Row>,
    ) -> SpaceState
        decreases act, 0nat,
    {
        match act {
            Act::Add(t) => self.adding(t),
            Act::Remove(t) => self.removing(t),
            Act::Load(ts) => self.extending(ts),
            Act::Text(text, loaded) => self.loading_text(text, loaded),
            Act::Steps(steps, after) => self.stepping(steps, after),
            Act::Plan(ps, ts) => if rewritable(ps, ts) {
                self.registering(ps + ts)
            } else {
                self
            },
            Act::Paths(loaded) => self.loading_paths(loaded),
            Act::Restrict(t) => match ground_prefix(t) {
                Some(prefix) => self.restricted(prefix),
                None => self,
            },
            Act::Unite(acts) => {
                let other = SpaceState::empty().living(acts, matcher);
                self.combining(other, self.paths.union(other.paths))
            },
            Act::Intersect(acts) => {
                let other = SpaceState::empty().living(acts, matcher);
                self.combining(other, self.paths.intersect(other.paths))
            },
            Act::Subtract(acts) => {
                let other = SpaceState::empty().living(acts, matcher);
                self.combining(other, self.paths.difference(other.paths))
            },
            Act::Fill(pattern, cost, debug_build) => self.tabling(
                pattern,
                matcher(self.paths, pattern),
                cost,
                debug_build,
            ),
            Act::Index(prefix, ncols, pos) => self.indexing(prefix, ncols, pos),
        }
    }

    /// The space after some acts.
    pub open spec fn living(
        self,
        acts: Seq<Act>,
        matcher: spec_fn(Set<Seq<u8>>, Seq<u8>) -> Seq<Row>,
    ) -> SpaceState
        decreases acts, acts.len(),
    {
        if acts.len() == 0 {
            self
        } else {
            self.living(acts.drop_last(), matcher).acting(acts.last(), matcher)
        }
    }

    /// The act can happen: the generation has room for it, what comes from outside
    /// is finite, text without a `$` was not parsed to variables, and an index is
    /// that of one of the columns of its relation.
    pub open spec fn can_act(
        self,
        act: Act,
        matcher: spec_fn(Set<Seq<u8>>, Seq<u8>) -> Seq<Row>,
    ) -> bool
        decreases act, 0nat,
    {
        match act {
            Act::Add(_) | Act::Remove(_) | Act::Restrict(_) => self.gen < u64::MAX,
            Act::Load(ts) => self.gen + ts.len() < u64::MAX,
            Act::Text(text, loaded) => {
                &&& self.gen < u64::MAX
                &&& loaded.finite()
                &&& !encode_utf8(text).contains(36) ==> forall|p: Seq<u8>| #[trigger]
                    loaded.contains(p) ==> ground_span(p)
            },
            Act::Steps(_, paths) | Act::Paths(paths) => self.gen < u64::MAX && paths.finite(),
            Act::Unite(acts) | Act::Intersect(acts) | Act::Subtract(acts) => {
                &&& self.gen < u64::MAX
                &&& SpaceState::empty().can_live(acts, matcher)
            },
            Act::Plan(_, _) | Act::Fill(_, _, _) => true,
            Act::Index(_, ncols, pos) => pos < ncols,
        }
    }

    /// Each of the acts can happen when it does.
    pub open spec fn can_live(
        self,
        acts: Seq<Act>,
        matcher: spec_fn(Set<Seq<u8>>, Seq<u8>) -> Seq<Row>,
    ) -> bool
        decreases acts, acts.len(),
    {
        if acts.len() == 0 {
            true
        } else {
            self.can_live(acts.drop_last(), matcher) && self.living(
                acts.drop_last(),
                matcher,
            ).can_act(acts.last(), matcher)
        }
    }
}

/// Whatever has happened to a space since it was empty, it is sound: its indexes
/// that are current equal rebuilt ones, a held latch means that no atom has a
/// variable, rows that it replays are what the matcher gives on the contents that
/// it has now, and its registry keeps only grounded values.
pub proof fn spaces_stay_sound(
    acts: Seq<Act>,
    matcher: spec_fn(Set<Seq<u8>>, Seq<u8>) -> Seq<Row>,
)
    requires
        SpaceState::empty().can_live(acts, matcher),
    ensures
        SpaceState::empty().living(acts, matcher).sound(matcher),
    decreases acts, acts.len(),
{
    if acts.len() > 0 {
        spaces_stay_sound(acts.drop_last(), matcher);
        acts_keep_spaces_sound(
            SpaceState::empty().living(acts.drop_last(), matcher),
            acts.last(),
            matcher,
        );
    } else {
        assert(Map::<Seq<u8>, (Seq<Row>, u64)>::empty().dom() =~= Set::empty());
    }
}

/// Each act leaves a sound space sound. Every mutation is seen: rows from before
/// it are not replayed.
pub proof fn acts_keep_spaces_sound(
    s: SpaceState,
    act: Act,
    matcher: spec_fn(Set<Seq<u8>>, Seq<u8>) -> Seq<Row>,
)
    requires
        s.sound(matcher),
        s.can_act(act, matcher),
    ensures
        s.acting(act, matcher).sound(matcher),
        s.acting(act, matcher).paths != s.paths ==> forall|k: Seq<u8>|
            !#[trigger] s.acting(act, matcher).replays(k),
    decreases act, 0nat,
{
    let after = s.acting(act, matcher);
    match act {
        Act::Add(t) => {
            crate::space::adding_keeps_consistency(s, t);
            crate::space::adding_keeps_the_latch_sound(s, t);
            storing_keeps_values_only(t, s.storing(), Mode::Store);
        },
        Act::Remove(t) => {
            crate::space::removing_keeps_consistency(s, t);
            crate::space::removing_keeps_the_latch_sound(s, t);
        },
        Act::Load(ts) => {
            crate::space::bulk::bulk_loads_keep_consistency(s, ts);
            crate::space::bulk::bulk_loads_keep_the_latch_sound(s, ts);
            crate::space::bulk::lemma_extending_moves_on(s, ts);
            lemma_bulk_loads_keep_values_only(s, ts);
            lemma_bulk_loads_stay_finite(s, ts);
        },
        Act::Text(text, loaded) => {
            crate::space::ops::with_paths_is_consistent(s, s.paths.union(loaded));
            crate::space::ops::loading_text_keeps_the_latch_sound(s, text, loaded);
        },
        Act::Steps(_, left) => {
            crate::space::ops::with_paths_is_consistent(s, left);
        },
        Act::Plan(ps, ts) => {
            let all = ps + ts;
            registering_rows_keeps_values_only(s.reg, all.take(clean_prefix(all) as int));
        },
        Act::Paths(loaded) => {
            crate::space::ops::with_paths_is_consistent(s, s.paths.union(loaded));
        },
        Act::Restrict(t) => {
            if let Some(prefix) = ground_prefix(t) {
                crate::space::ops::restricting_keeps_the_latch_sound(s, prefix);
                crate::space::ops::with_paths_is_consistent(s, s.restricted(prefix).paths);
                vstd::set_lib::lemma_len_subset(s.restricted(prefix).paths, s.paths);
            }
        },
        Act::Unite(acts) | Act::Intersect(acts) | Act::Subtract(acts) => {
            let other = SpaceState::empty().living(acts, matcher);
            spaces_stay_sound(acts, matcher);
            crate::space::ops::combining_keeps_the_latch_sound(s, other);
            crate::space::ops::with_paths_is_consistent(s, after.paths);
            vstd::set_lib::lemma_len_subset(s.paths.intersect(other.paths), s.paths);
            vstd::set_lib::lemma_len_subset(s.paths.difference(other.paths), s.paths);
        },
        Act::Fill(pattern, cost, debug_build) => {
            tabling_keeps_consistency(s, pattern, matcher(s.paths, pattern), cost, debug_build);
            assert forall|k: Seq<u8>| #[trigger] after.replays(k) implies after.table[k].0
                == matcher(after.paths, k) by {
                if k != pattern {
                    assert(s.replays(k));
                } else if after.table == s.table {
                    assert(s.replays(k));
                }
            }
        },
        Act::Index(prefix, ncols, pos) => {
            indexing_keeps_consistency(s, prefix, ncols, pos);
        },
    }
    if after.paths == s.paths && after.gen == s.gen && after.table == s.table {
        assert forall|k: Seq<u8>| #[trigger] after.replays(k) implies after.table[k].0
            == matcher(after.paths, k) by {
            assert(s.replays(k));
        }
    }
}

/// A bulk load keeps only grounded values.
proof fn lemma_bulk_loads_keep_values_only(s: SpaceState, ts: Seq<Term>)
    requires
        s.reg.values_only(),
    ensures
        s.extending(ts).reg.values_only(),
{
    let n = ts.len() as int;
    let l = load(ts, 0, n);
    lemma_loads_keep_values_only(ts, n);
    let merged = s.merging(l);
    let base = SpaceState { gen: (merged.gen + 1) as u64, ..merged };
    lemma_places_keep_values_only(base, ts, l.sequential);
}

/// A load meets only grounded values.
proof fn lemma_loads_keep_values_only(ts: Seq<Term>, k: int)
    requires
        0 <= k <= ts.len(),
    ensures
        load(ts, 0, k).reg.values_only(),
    decreases k,
{
    if k > 0 {
        lemma_loads_keep_values_only(ts, k - 1);
        registering_keeps_values_only(load(ts, 0, k - 1).reg, ts[k - 1]);
    }
}

/// Adding the atoms at some places keeps only grounded values.
proof fn lemma_places_keep_values_only(s: SpaceState, ts: Seq<Term>, places: Seq<usize>)
    requires
        s.reg.values_only(),
    ensures
        s.adding_places(ts, places).reg.values_only(),
    decreases places.len(),
{
    if places.len() > 0 {
        lemma_places_keep_values_only(s, ts, places.drop_last());
        let s1 = s.adding_places(ts, places.drop_last());
        storing_keeps_values_only(ts[places.last() as int], s1.storing(), Mode::Store);
    }
}

/// A bulk load stores finitely many paths.
proof fn lemma_bulk_loads_stay_finite(s: SpaceState, ts: Seq<Term>)
    requires
        s.paths.finite(),
    ensures
        s.extending(ts).paths.finite(),
{
    let n = ts.len() as int;
    let l = load(ts, 0, n);
    lemma_loads_are_finite(ts, n);
    let merged = s.merging(l);
    let base = SpaceState { gen: (merged.gen + 1) as u64, ..merged };
    lemma_places_stay_finite(base, ts, l.sequential);
}

/// A load gives finitely many paths.
proof fn lemma_loads_are_finite(ts: Seq<Term>, k: int)
    requires
        0 <= k <= ts.len(),
    ensures
        load(ts, 0, k).paths.finite(),
    decreases k,
{
    if k > 0 {
        lemma_loads_are_finite(ts, k - 1);
    }
}

/// Adding the atoms at some places stores finitely many paths.
proof fn lemma_places_stay_finite(s: SpaceState, ts: Seq<Term>, places: Seq<usize>)
    requires
        s.paths.finite(),
    ensures
        s.adding_places(ts, places).paths.finite(),
    decreases places.len(),
{
    if places.len() > 0 {
        lemma_places_stay_finite(s, ts, places.drop_last());
    }
}

/// The paths can be read.
pub open spec fn all_readable(paths: Set<Seq<u8>>) -> bool {
    forall|p: Seq<u8>| #[trigger] paths.contains(p) ==> readable_path(p)
}

/// Every path that the act stores can be read: no symbol of an atom starts with
/// one of the marks of grounded values, and the paths that come from outside can
/// be read.
pub open spec fn stores_readably(act: Act) -> bool
    decreases act,
{
    match act {
        Act::Add(t) => unreserved(t),
        Act::Load(ts) => ts.len() <= usize::MAX && forall|i: int|
            0 <= i < ts.len() ==> unreserved(#[trigger] ts[i]),
        Act::Text(_, loaded) => all_readable(loaded),
        Act::Steps(_, left) => all_readable(left),
        Act::Paths(loaded) => all_readable(loaded),
        Act::Unite(acts) => forall|i: int|
            0 <= i < acts.len() ==> stores_readably(#[trigger] acts[i]),
        _ => true,
    }
}

/// Every path that some acts store can be read.
pub open spec fn all_store_readably(acts: Seq<Act>) -> bool {
    forall|i: int| 0 <= i < acts.len() ==> stores_readably(#[trigger] acts[i])
}

impl SpaceState {
    /// The rows that a query without a route plans: the tabled ones, or those of a
    /// matcher that runs its pattern over the present contents.
    pub open spec fn query_rows(
        self,
        pattern: Seq<u8>,
        matcher: spec_fn(Set<Seq<u8>>, Seq<u8>) -> Seq<Row>,
    ) -> Seq<Row> {
        if self.replays(pattern) {
            self.table[pattern].0
        } else {
            matcher(self.paths, pattern)
        }
    }
}

/// A query answers like the matcher on the contents that the space has now,
/// whatever has happened to it since it was empty, and whatever indexes and tabled
/// rows that has left. Without a route, the rows that it plans are those that the
/// matcher gives for its pattern. With a route, what it adds is, as a multiset, what
/// those rows add, where the stored paths can be read and the matcher reports of
/// paths without variables what matches.
pub proof fn queries_answer_like_the_matcher(
    acts: Seq<Act>,
    matcher: spec_fn(Set<Seq<u8>>, Seq<u8>) -> Seq<Row>,
    query: Term,
    ids: Seq<usize>,
    pos: int,
    reading: Reading,
    fact_ids: Seq<usize>,
    row_ids: Seq<usize>,
)
    requires
        SpaceState::empty().can_live(acts, matcher),
        pattern_of(query, ids) is Some,
        reading.vars == pattern_of(query, ids).unwrap().0.vars,
    ensures
        ({
            let s = SpaceState::empty().living(acts, matcher);
            let pattern = flat(pattern_tree(pattern_of(query, ids).unwrap().1));
            let rows = matcher(s.paths, pattern);
            let shape = route_shape(query, ids)->0;
            &&& s.query_rows(pattern, matcher) == rows
            &&& all_store_readably(acts) && s.routed(query, ids) && most_selective(shape.args, pos)
                && reports_the_matches(rows, s.paths, query, ids) ==> facts_ops(
                s.column_facts(shape, pos, shape.args[pos]->Bound_0),
                shape,
                pos,
                reading.vars,
                reading.reg,
                fact_ids,
            ).to_multiset() == rows_ops(reading, rows, row_ids).to_multiset()
        }),
{
    let s = SpaceState::empty().living(acts, matcher);
    let pattern = flat(pattern_tree(pattern_of(query, ids).unwrap().1));
    let rows = matcher(s.paths, pattern);
    spaces_stay_sound(acts, matcher);
    if all_store_readably(acts) && s.routed(query, ids) && most_selective(
        route_shape(query, ids)->0.args,
        pos,
    ) && reports_the_matches(rows, s.paths, query, ids) {
        spaces_stay_readable(acts, matcher);
        routes_answer_like_the_matcher(
            s.paths,
            query,
            ids,
            pos,
            reading,
            rows,
            fact_ids,
            row_ids,
        );
    }
}

/// Asking changes nothing that is asked for: a query that builds an index or fills
/// the table leaves the contents and the generation, so that the same query again
/// plans the same rows.
pub proof fn queries_repeat(
    s: SpaceState,
    matcher: spec_fn(Set<Seq<u8>>, Seq<u8>) -> Seq<Row>,
    act: Act,
    pattern: Seq<u8>,
)
    requires
        s.sound(matcher),
        s.can_act(act, matcher),
        act is Fill || act is Index,
    ensures
        s.acting(act, matcher).paths == s.paths,
        s.acting(act, matcher).gen == s.gen,
        s.acting(act, matcher).query_rows(pattern, matcher) == s.query_rows(pattern, matcher),
{
    acts_keep_spaces_sound(s, act, matcher);
}

/// A visit is complete whatever has happened to the space: it visits one atom for
/// each stored path, in their order.
pub proof fn visits_meet_every_atom(
    acts: Seq<Act>,
    matcher: spec_fn(Set<Seq<u8>>, Seq<u8>) -> Seq<Row>,
    ids: Seq<usize>,
)
    requires
        SpaceState::empty().can_live(acts, matcher),
        all_store_readably(acts),
    ensures
        ({
            let s = SpaceState::empty().living(acts, matcher);
            &&& visited(listing(s.paths), s.reg, ids).len() == s.paths.len()
            &&& forall|i: int|
                0 <= i < s.paths.len() ==> decoded(
                    listing(s.paths)[i],
                    fact_reader(s.reg, ids[i]),
                    0,
                ) == Some(#[trigger] visited(listing(s.paths), s.reg, ids)[i])
        }),
{
    spaces_stay_sound(acts, matcher);
    spaces_stay_readable(acts, matcher);
    readable_spaces_are_visited_whole(SpaceState::empty().living(acts, matcher), ids);
}

/// Whatever has happened to a space since it was empty, every stored path can be
/// read, so that a visit is complete.
pub proof fn spaces_stay_readable(
    acts: Seq<Act>,
    matcher: spec_fn(Set<Seq<u8>>, Seq<u8>) -> Seq<Row>,
)
    requires
        all_store_readably(acts),
    ensures
        SpaceState::empty().living(acts, matcher).readable(),
    decreases acts, acts.len(),
{
    if acts.len() > 0 {
        let init = acts.drop_last();
        assert forall|i: int| 0 <= i < init.len() implies stores_readably(#[trigger] init[i]) by {
            assert(init[i] == acts[i]);
        }
        spaces_stay_readable(init, matcher);
        assert(acts.last() == acts[acts.len() - 1]);
        acts_keep_spaces_readable(
            SpaceState::empty().living(init, matcher),
            acts.last(),
            matcher,
        );
    }
}

/// Each act leaves a readable space readable.
pub proof fn acts_keep_spaces_readable(
    s: SpaceState,
    act: Act,
    matcher: spec_fn(Set<Seq<u8>>, Seq<u8>) -> Seq<Row>,
)
    requires
        s.readable(),
        stores_readably(act),
    ensures
        s.acting(act, matcher).readable(),
    decreases act, 0nat,
{
    match act {
        Act::Add(t) => {
            adding_keeps_spaces_readable(s, t);
        },
        Act::Remove(t) => {
            adding_keeps_spaces_readable(s, t);
        },
        Act::Load(ts) => {
            bulk_loads_keep_spaces_readable(s, ts);
        },
        Act::Unite(acts) => {
            let other = SpaceState::empty().living(acts, matcher);
            spaces_stay_readable(acts, matcher);
            whole_space_changes_keep_spaces_readable(s, other, Seq::empty(), Set::empty());
        },
        _ => {},
    }
}

} // verus!
