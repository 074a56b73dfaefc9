//! What would be saved by factoring shared patterns out.
//!
//! A pattern is a prefix of stored paths that ends with a whole term. Writing it
//! once and referring to it from every path that starts with it saves its bytes
//! in all paths but one, at the cost of one reference per path.
use vstd::prelude::*;
use vstd::slice::{slice_subrange, slice_to_vec};
use vstd::utf8::{decode_utf8, valid_utf8};

use crate::encode::{GROUNDED_MARK, GROUNDED_REF_MARK};
use crate::order::{
    has_prefix, lemma_path_lt_irreflexive, lemma_path_lt_total, lemma_path_lt_transitive, path_lt,
};
use crate::paths::PathSet;
use crate::table::PathTable;
use crate::tag::{byte_tag, maybe_byte_item, Tag};
use crate::text::{decimal, push_decimal, push_text, utf8_string};
use crate::tree::{
    flat, flat_all, lemma_flat_all_take, lemma_parse_row_sound, lemma_parse_sound, parse_at,
    parse_row, spells, subterm_at, Tree,
};

verus! {

/// Bytes of one reference to a factored pattern: a symbol tag and an eight-byte
/// id.
pub const REF_COST: u64 = 9;

/// The ends of the terms that end inside a path, from item position `p` on. A
/// term ends where its last symbol, variable or empty expression does.
pub open spec fn term_ends(b: Seq<u8>, p: int) -> Seq<int>
    decreases
            (if p < b.len() {
                b.len() - p
            } else {
                0
            }),
{
    if p < 0 || p >= b.len() {
        Seq::empty()
    } else {
        match byte_tag(b[p]) {
            Some(Tag::Arity(k)) => if k == 0 {
                seq![p + 1] + term_ends(b, p + 1)
            } else {
                term_ends(b, p + 1)
            },
            Some(Tag::SymbolSize(s)) => if p + 1 + s <= b.len() {
                seq![p + 1 + s] + term_ends(b, p + 1 + s)
            } else {
                Seq::empty()
            },
            Some(_) => seq![p + 1] + term_ends(b, p + 1),
            None => Seq::empty(),
        }
    }
}

/// The prefix of a path up to some term's end.
pub open spec fn is_pattern_of(q: Seq<u8>, b: Seq<u8>) -> bool {
    exists|j: int|
        0 <= j < term_ends(b, 0).len() && q == b.take(#[trigger] term_ends(b, 0)[j])
}

/// Number of paths that start with a pattern.
pub open spec fn sharers(paths: Set<Seq<u8>>, q: Seq<u8>) -> nat {
    paths.filter(|p: Seq<u8>| q.is_prefix_of(p)).len()
}

/// What factoring a pattern out saves: its bytes once for each sharer but one,
/// less one reference per sharer.
pub open spec fn saving(count: nat, len: nat, ref_cost: u64) -> int {
    (count - 1) * len - count * ref_cost
}

/// The gain of a pattern, as far as it can be counted.
pub open spec fn gain(count: nat, len: nat, ref_cost: u64) -> u64 {
    if saving(count, len, ref_cost) > u64::MAX {
        u64::MAX
    } else {
        saving(count, len, ref_cost) as u64
    }
}

/// The pattern of some paths is worth factoring out: two paths or more share it,
/// and that saves bytes.
pub open spec fn compresses(paths: Set<Seq<u8>>, q: Seq<u8>, ref_cost: u64) -> bool {
    &&& exists|b: Seq<u8>| #[trigger] paths.contains(b) && is_pattern_of(q, b)
    &&& sharers(paths, q) >= 2
    &&& saving(sharers(paths, q), q.len(), ref_cost) > 0
}

/// The gains of all patterns that are worth factoring out.
pub open spec fn gains(paths: Set<Seq<u8>>, ref_cost: u64) -> Map<Seq<u8>, u64> {
    Map::new(
        |q: Seq<u8>| compresses(paths, q, ref_cost),
        |q: Seq<u8>| gain(sharers(paths, q), q.len(), ref_cost),
    )
}

/// One pattern starts with the other.
pub open spec fn overlaps(a: Seq<u8>, b: Seq<u8>) -> bool {
    a.is_prefix_of(b) || b.is_prefix_of(a)
}

/// One entry is reported before another: the heavier one, and of equal ones the
/// one that comes first in byte order.
pub open spec fn heavier(a: (Seq<u8>, u64), b: (Seq<u8>, u64)) -> bool {
    a.1 > b.1 || (a.1 == b.1 && path_lt(a.0, b.0))
}

/// An entry has no place among the chosen ones: it overlaps one of them that is
/// reported before it, or there are enough that all are.
pub open spec fn crowded_out(
    e: (Seq<u8>, u64),
    chosen: Seq<(Seq<u8>, u64)>,
    k: nat,
) -> bool {
    ||| exists|i: int|
        0 <= i < chosen.len() && overlaps((#[trigger] chosen[i]).0, e.0) && heavier(chosen[i], e)
    ||| chosen.len() == k && forall|i: int|
        0 <= i < chosen.len() ==> heavier(#[trigger] chosen[i], e)
}

/// The chosen entries are the `k` heaviest patterns of which none overlaps
/// another, heaviest first.
pub open spec fn top_maximal(
    weights: Map<Seq<u8>, u64>,
    k: nat,
    chosen: Seq<(Seq<u8>, u64)>,
) -> bool {
    &&& chosen.len() <= k
    &&& forall|i: int|
        0 <= i < chosen.len() ==> weights.contains_key((#[trigger] chosen[i]).0)
            && weights[chosen[i].0] == chosen[i].1
    &&& forall|i: int, j: int|
        0 <= i < j < chosen.len() ==> heavier(#[trigger] chosen[i], #[trigger] chosen[j])
            && !overlaps(chosen[i].0, chosen[j].0)
    &&& forall|q: Seq<u8>| #[trigger]
        weights.contains_key(q) ==> chosen.contains((q, weights[q])) || crowded_out(
            (q, weights[q]),
            chosen,
            k,
        )
}

/// The gains of the compressible patterns of a space.
#[derive(Debug)]
pub struct WeightedPathIndex {
    weights: PathTable<u64>,
}

impl View for WeightedPathIndex {
    type V = Map<Seq<u8>, u64>;

    closed spec fn view(&self) -> Map<Seq<u8>, u64> {
        self.weights@
    }
}

/// The ends of the terms of a path.
fn path_term_ends(b: &[u8]) -> (r: Vec<usize>)
    ensures
        r@.len() == term_ends(b@, 0).len(),
        forall|j: int| 0 <= j < r@.len() ==> #[trigger] r@[j] == term_ends(b@, 0)[j],
        forall|j: int| 0 <= j < r@.len() ==> 0 < #[trigger] r@[j] <= b@.len(),
{
    let mut out: Vec<usize> = Vec::new();
    let mut p: usize = 0;
    let ghost all = term_ends(b@, 0);
    let ghost mut rest = all;
    proof {
        assert(all =~= Seq::<int>::empty() + rest);
    }
    while p < b.len()
        invariant
            p <= b@.len(),
            all == term_ends(b@, 0),
            rest == term_ends(b@, p as int),
            all.len() == out@.len() + rest.len(),
            forall|j: int| 0 <= j < out@.len() ==> #[trigger] out@[j] == all[j],
            forall|j: int| 0 <= j < rest.len() ==> #[trigger] rest[j] == all[out@.len() + j],
            forall|j: int| 0 <= j < out@.len() ==> 0 < #[trigger] out@[j] <= b@.len(),
        decreases b@.len() - p,
    {
        let (next, leaf): (usize, bool) = match maybe_byte_item(b[p]) {
            Some(Tag::Arity(k)) => (p + 1, k == 0),
            Some(Tag::SymbolSize(size)) => {
                if (size as usize) > b.len() - (p + 1) {
                    return out;
                }
                (p + 1 + size as usize, true)
            },
            Some(_) => (p + 1, true),
            None => {
                return out;
            },
        };
        proof {
            let next_rest = term_ends(b@, next as int);
            if leaf {
                assert(rest =~= seq![next as int] + next_rest);
                assert(rest[0] == all[out@.len() as int]);
                assert forall|j: int| 0 <= j < next_rest.len() implies #[trigger] next_rest[j]
                    == all[out@.len() + 1 + j] by {
                    assert(rest[j + 1] == next_rest[j]);
                }
            }
            rest = next_rest;
        }
        if leaf {
            out.push(next);
        }
        p = next;
    }
    out
}

/// The gain of a pattern; `None` when nothing is saved.
fn gain_of(count: usize, len: usize, ref_cost: u64) -> (r: Option<u64>)
    requires
        count >= 1,
    ensures
        match r {
            Some(g) => saving(count as nat, len as nat, ref_cost) > 0 && g == gain(
                count as nat,
                len as nat,
                ref_cost,
            ),
            None => saving(count as nat, len as nat, ref_cost) <= 0,
        },
{
    proof {
        assert((count - 1) * len <= 0xffff_ffff_ffff_ffff * 0xffff_ffff_ffff_ffff)
            by (nonlinear_arith)
            requires
                1 <= count <= 0xffff_ffff_ffff_ffff,
                0 <= len <= 0xffff_ffff_ffff_ffff,
        ;
        assert((count - 1) * len >= 0) by (nonlinear_arith)
            requires
                1 <= count,
                0 <= len,
        ;
        assert(count * ref_cost <= 0xffff_ffff_ffff_ffff * 0xffff_ffff_ffff_ffff)
            by (nonlinear_arith)
            requires
                1 <= count <= 0xffff_ffff_ffff_ffff,
                0 <= ref_cost <= 0xffff_ffff_ffff_ffff,
        ;
        assert(count * ref_cost >= 0) by (nonlinear_arith)
            requires
                1 <= count,
                0 <= ref_cost,
        ;
    }
    let saved: u128 = ((count - 1) as u128) * (len as u128);
    let spent: u128 = (count as u128) * (ref_cost as u128);
    if saved <= spent {
        return None;
    }
    let net: u128 = saved - spent;
    if net > 0xffff_ffff_ffff_ffff {
        Some(0xffff_ffff_ffff_ffff)
    } else {
        Some(net as u64)
    }
}

impl WeightedPathIndex {
    /// The entries are in order.
    pub closed spec fn wf(&self) -> bool {
        self.weights.wf()
    }

    /// Weighs every pattern of some paths.
    pub fn from_compression_gain_on_boundaries(paths: &PathSet, ref_cost: u64) -> (r:
        WeightedPathIndex)
        requires
            paths.wf(),
        ensures
            r.wf(),
            r@ == gains(paths@, ref_cost),
    {
        let ghost rows = paths.rows();
        let n: usize = paths.len();
        let mut weights: PathTable<u64> = PathTable::new();
        let mut i: usize = 0;
        while i < n
            invariant
                i <= n,
                n == rows.len(),
                rows == paths.rows(),
                paths.wf(),
                weights.wf(),
                weighed(weights@, paths@, ref_cost),
                forall|q: Seq<u8>| #[trigger]
                    weights@.contains_key(q) ==> compresses(paths@, q, ref_cost),
                forall|q: Seq<u8>, a: int|
                    0 <= a < i && #[trigger] is_pattern_of(q, rows[a]) && compresses(
                        paths@,
                        q,
                        ref_cost,
                    ) ==> weights@.contains_key(q),
            decreases n - i,
        {
            let path = paths.path(i);
            proof {
                assert(paths@.contains(rows[i as int]));
            }
            weigh_path(paths, path.as_slice(), ref_cost, &mut weights);
            i = i + 1;
        }
        proof {
            let want = gains(paths@, ref_cost);
            assert forall|q: Seq<u8>| #[trigger] weights@.contains_key(q) == want.contains_key(
                q,
            ) by {
                if want.contains_key(q) {
                    let b = choose|b: Seq<u8>| #[trigger]
                        paths@.contains(b) && is_pattern_of(q, b);
                    assert(rows.contains(b));
                    let a = choose|a: int| 0 <= a < rows.len() && rows[a] == b;
                    assert(is_pattern_of(q, rows[a]));
                }
            }
            assert(weights@ =~= want);
        }
        WeightedPathIndex { weights }
    }

    /// Number of weighed patterns.
    pub fn len(&self) -> (n: usize)
        requires
            self.wf(),
        ensures
            n == self@.len(),
    {
        self.weights.len()
    }

    /// The gain of a pattern.
    pub fn weight(&self, pattern: &[u8]) -> (r: Option<u64>)
        requires
            self.wf(),
        ensures
            match r {
                Some(g) => self@.contains_key(pattern@) && g == self@[pattern@],
                None => !self@.contains_key(pattern@),
            },
    {
        match self.weights.get(pattern) {
            Some(g) => Some(*g),
            None => None,
        }
    }

    /// The `k` heaviest patterns of which none overlaps another, heaviest first.
    pub fn iter_any_topk_maximal(&self, k: usize) -> (r: Vec<(Vec<u8>, u64)>)
        requires
            self.wf(),
        ensures
            top_maximal(self@, k as nat, entries_of(r@)),
    {
        let ghost keys = self.weights.rows();
        let ghost vals = self.weights.entries();
        let n: usize = self.weights.len();
        let mut alive: Vec<bool> = Vec::new();
        let mut i: usize = 0;
        while i < n
            invariant
                i <= n,
                alive@.len() == i,
                forall|j: int| 0 <= j < i ==> #[trigger] alive@[j],
            decreases n - i,
        {
            alive.push(true);
            i = i + 1;
        }
        let mut out: Vec<(Vec<u8>, u64)> = Vec::new();
        let mut more = true;
        proof {
            assert(entries_of(out@) =~= Seq::empty());
        }
        while more && out.len() < k
            invariant
                out@.len() <= k,
                n == keys.len(),
                keys == self.weights.rows(),
                vals == self.weights.entries(),
                self.weights.wf(),
                alive@.len() == n,
                choosing(keys, vals, alive@, entries_of(out@)),
                !more ==> forall|j: int| 0 <= j < n ==> !(#[trigger] alive@[j]),
            decreases
                k - out@.len(),
                (if more {
                    1int
                } else {
                    0int
                }),
        {
            match self.heaviest_alive(&alive) {
                None => {
                    more = false;
                },
                Some(best) => {
                    let key = slice_to_vec(self.weights.key_at(best).as_slice());
                    let weight: u64 = *self.weights.value_at(best);
                    let ghost before = entries_of(out@);
                    let ghost e = (key@, weight);
                    let ghost alive0 = alive@;
                    out.push((key, weight));
                    proof {
                        assert(entries_of(out@) =~= before.push(e));
                    }
                    self.retire_overlapping(&mut alive, best);
                    proof {
                        lemma_choosing_step(keys, vals, alive0, alive@, before, best as int);
                    }
                },
            }
        }
        proof {
            lemma_choosing_ends(self.weights, alive@, entries_of(out@), k as nat);
        }
        out
    }

    /// The heaviest pattern that is still in play.
    fn heaviest_alive(&self, alive: &Vec<bool>) -> (r: Option<usize>)
        requires
            self.weights.wf(),
            alive@.len() == self.weights.rows().len(),
        ensures
            match r {
                Some(b) => {
                    &&& b < alive@.len()
                    &&& alive@[b as int]
                    &&& forall|j: int|
                        0 <= j < alive@.len() && j != b && #[trigger] alive@[j] ==> heavier(
                            (self.weights.rows()[b as int], self.weights.entries()[b as int]),
                            (self.weights.rows()[j], self.weights.entries()[j]),
                        )
                },
                None => forall|j: int| 0 <= j < alive@.len() ==> !(#[trigger] alive@[j]),
            },
    {
        let ghost keys = self.weights.rows();
        let ghost vals = self.weights.entries();
        let mut best: Option<usize> = None;
        let mut i: usize = 0;
        while i < alive.len()
            invariant
                i <= alive@.len(),
                alive@.len() == keys.len(),
                keys == self.weights.rows(),
                vals == self.weights.entries(),
                self.weights.wf(),
                match best {
                    Some(b) => {
                        &&& b < i
                        &&& alive@[b as int]
                        &&& forall|j: int|
                            0 <= j < i && j != b && #[trigger] alive@[j] ==> heavier(
                                (keys[b as int], vals[b as int]),
                                (keys[j], vals[j]),
                            )
                    },
                    None => forall|j: int| 0 <= j < i ==> !(#[trigger] alive@[j]),
                },
            decreases alive@.len() - i,
        {
            if alive[i] {
                match best {
                    None => {
                        best = Some(i);
                    },
                    Some(b) => {
                        let (wi, wb): (u64, u64) = (
                            *self.weights.value_at(i),
                            *self.weights.value_at(b),
                        );
                        proof {
                            assert(path_lt(keys[b as int], keys[i as int]));
                        }
                        if wi > wb {
                            proof {
                                assert forall|j: int|
                                    0 <= j < i + 1 && j != i && #[trigger] alive@[j] implies heavier(
                                    (keys[i as int], vals[i as int]),
                                    (keys[j], vals[j]),
                                ) by {
                                    if j != b {
                                        assert(heavier(
                                            (keys[b as int], vals[b as int]),
                                            (keys[j], vals[j]),
                                        ));
                                    }
                                }
                            }
                            best = Some(i);
                        }
                    },
                }
            }
            i = i + 1;
        }
        best
    }

    /// Takes every pattern out of play that overlaps a chosen one, itself among
    /// them.
    fn retire_overlapping(&self, alive: &mut Vec<bool>, best: usize)
        requires
            self.weights.wf(),
            old(alive)@.len() == self.weights.rows().len(),
            best < old(alive)@.len(),
        ensures
            final(alive)@.len() == old(alive)@.len(),
            forall|j: int|
                0 <= j < final(alive)@.len() ==> #[trigger] final(alive)@[j] == (old(alive)@[j]
                    && !overlaps(self.weights.rows()[best as int], self.weights.rows()[j])),
    {
        let ghost keys = self.weights.rows();
        let ghost before = alive@;
        let chosen = self.weights.key_at(best);
        let mut i: usize = 0;
        while i < alive.len()
            invariant
                i <= alive@.len(),
                alive@.len() == before.len(),
                before.len() == keys.len(),
                keys == self.weights.rows(),
                chosen@ == keys[best as int],
                forall|j: int|
                    0 <= j < i ==> #[trigger] alive@[j] == (before[j] && !overlaps(
                        keys[best as int],
                        keys[j],
                    )),
                forall|j: int| i <= j < alive@.len() ==> #[trigger] alive@[j] == before[j],
            decreases alive@.len() - i,
        {
            let other = self.weights.key_at(i);
            if has_prefix(other.as_slice(), chosen.as_slice()) || has_prefix(
                chosen.as_slice(),
                other.as_slice(),
            ) {
                alive.set(i, false);
            }
            i = i + 1;
        }
    }
}

/// The models of some entries.
pub open spec fn entries_of(v: Seq<(Vec<u8>, u64)>) -> Seq<(Seq<u8>, u64)> {
    Seq::new(v.len(), |i: int| (v[i].0@, v[i].1))
}

/// Every weight is the gain of its pattern.
spec fn weighed(weights: Map<Seq<u8>, u64>, paths: Set<Seq<u8>>, ref_cost: u64) -> bool {
    forall|q: Seq<u8>| #[trigger]
        weights.contains_key(q) ==> weights[q] == gain(sharers(paths, q), q.len(), ref_cost)
}

/// Weighs the patterns of one path.
fn weigh_path(paths: &PathSet, path: &[u8], ref_cost: u64, weights: &mut PathTable<u64>)
    requires
        paths.wf(),
        paths@.contains(path@),
        old(weights).wf(),
        weighed(old(weights)@, paths@, ref_cost),
        forall|q: Seq<u8>| #[trigger]
            old(weights)@.contains_key(q) ==> compresses(paths@, q, ref_cost),
    ensures
        final(weights).wf(),
        weighed(final(weights)@, paths@, ref_cost),
        forall|q: Seq<u8>| #[trigger]
            final(weights)@.contains_key(q) ==> compresses(paths@, q, ref_cost),
        forall|q: Seq<u8>| #[trigger]
            old(weights)@.contains_key(q) ==> final(weights)@.contains_key(q),
        forall|q: Seq<u8>| #[trigger]
            is_pattern_of(q, path@) && compresses(paths@, q, ref_cost)
                ==> final(weights)@.contains_key(q),
{
    let ends = path_term_ends(path);
    let ghost before = weights@;
    let mut j: usize = 0;
    while j < ends.len()
        invariant
            j <= ends@.len(),
            ends@.len() == term_ends(path@, 0).len(),
            forall|a: int| 0 <= a < ends@.len() ==> #[trigger] ends@[a] == term_ends(path@, 0)[a],
            forall|a: int| 0 <= a < ends@.len() ==> 0 < #[trigger] ends@[a] <= path@.len(),
            paths.wf(),
            paths@.contains(path@),
            weights.wf(),
            weighed(weights@, paths@, ref_cost),
            forall|q: Seq<u8>| #[trigger]
                weights@.contains_key(q) ==> compresses(paths@, q, ref_cost),
            forall|q: Seq<u8>| #[trigger] before.contains_key(q) ==> weights@.contains_key(q),
            forall|a: int|
                0 <= a < j && compresses(
                    paths@,
                    path@.take(#[trigger] term_ends(path@, 0)[a]),
                    ref_cost,
                ) ==> weights@.contains_key(path@.take(term_ends(path@, 0)[a])),
        decreases ends@.len() - j,
    {
        let end: usize = ends[j];
        let q = slice_subrange(path, 0, end);
        let ghost mid = weights@;
        proof {
            assert(end == term_ends(path@, 0)[j as int]);
            assert(q@ =~= path@.take(end as int));
            assert(is_pattern_of(q@, path@));
        }
        let count: usize = paths.count_prefix(q);
        if count >= 2 {
            if let Some(g) = gain_of(count, q.len(), ref_cost) {
                weights.insert(q, g);
                proof {
                    assert(compresses(paths@, q@, ref_cost));
                }
            }
        }
        j = j + 1;
    }
    proof {
        assert forall|q: Seq<u8>| #[trigger]
            is_pattern_of(q, path@) && compresses(
                paths@,
                q,
                ref_cost,
            ) implies weights@.contains_key(q) by {
            let a = choose|a: int|
                0 <= a < term_ends(path@, 0).len() && q == path@.take(
                    #[trigger] term_ends(path@, 0)[a],
                );
            assert(compresses(paths@, path@.take(term_ends(path@, 0)[a]), ref_cost));
        }
    }
}

/// The state of a choice: the chosen are in order and do not overlap, what is in
/// play comes after all of them and overlaps none, and what is out of play was
/// chosen or overlaps a chosen one that comes before it.
spec fn choosing(
    keys: Seq<Seq<u8>>,
    vals: Seq<u64>,
    alive: Seq<bool>,
    chosen: Seq<(Seq<u8>, u64)>,
) -> bool {
    &&& forall|i: int, j: int|
        0 <= i < j < chosen.len() ==> heavier(#[trigger] chosen[i], #[trigger] chosen[j])
            && !overlaps(chosen[i].0, chosen[j].0)
    &&& forall|i: int|
        0 <= i < chosen.len() ==> exists|j: int|
            0 <= j < keys.len() && #[trigger] chosen[i] == (#[trigger] keys[j], vals[j])
    &&& forall|i: int, j: int|
        0 <= i < chosen.len() && 0 <= j < keys.len() && #[trigger] alive[j] ==> heavier(
            #[trigger] chosen[i],
            (keys[j], vals[j]),
        ) && !overlaps(chosen[i].0, keys[j])
    &&& forall|j: int|
        0 <= j < keys.len() && !(#[trigger] alive[j]) ==> chosen.contains((keys[j], vals[j])) || (
        exists|i: int|
            0 <= i < chosen.len() && overlaps((#[trigger] chosen[i]).0, keys[j]) && heavier(
                chosen[i],
                (keys[j], vals[j]),
            ))
}

/// Choosing the heaviest in play and retiring what it overlaps.
proof fn lemma_choosing_step(
    keys: Seq<Seq<u8>>,
    vals: Seq<u64>,
    alive0: Seq<bool>,
    alive: Seq<bool>,
    chosen: Seq<(Seq<u8>, u64)>,
    best: int,
)
    requires
        choosing(keys, vals, alive0, chosen),
        alive0.len() == keys.len(),
        alive.len() == keys.len(),
        0 <= best < keys.len(),
        alive0[best],
        forall|j: int|
            0 <= j < keys.len() && j != best && #[trigger] alive0[j] ==> heavier(
                (keys[best], vals[best]),
                (keys[j], vals[j]),
            ),
        forall|j: int|
            0 <= j < alive.len() ==> #[trigger] alive[j] == (alive0[j] && !overlaps(
                keys[best],
                keys[j],
            )),
    ensures
        choosing(keys, vals, alive, chosen.push((keys[best], vals[best]))),
{
    let e = (keys[best], vals[best]);
    let next = chosen.push(e);
    let n = chosen.len() as int;
    assert(next[n] == e);
    assert(overlaps(keys[best], keys[best])) by {
        assert(keys[best] =~= keys[best].take(keys[best].len() as int));
    }
    assert forall|i: int| 0 <= i < next.len() implies exists|j: int|
        0 <= j < keys.len() && #[trigger] next[i] == (#[trigger] keys[j], vals[j]) by {
        if i < n {
            assert(chosen[i] == next[i]);
            let j = choose|j: int|
                0 <= j < keys.len() && chosen[i] == (#[trigger] keys[j], vals[j]);
            assert(next[i] == (keys[j], vals[j]));
        } else {
            assert(next[i] == (keys[best], vals[best]));
        }
    }
    assert forall|i: int, j: int| 0 <= i < j < next.len() implies heavier(
        #[trigger] next[i],
        #[trigger] next[j],
    ) && !overlaps(next[i].0, next[j].0) by {
        if j < n {
            assert(chosen[i] == next[i] && chosen[j] == next[j]);
        } else {
            assert(chosen[i] == next[i]);
            assert(alive0[best]);
        }
    }
    assert forall|i: int, j: int|
        0 <= i < next.len() && 0 <= j < keys.len() && #[trigger] alive[j] implies heavier(
        #[trigger] next[i],
        (keys[j], vals[j]),
    ) && !overlaps(next[i].0, keys[j]) by {
        assert(alive0[j]);
        if i < n {
            assert(chosen[i] == next[i]);
        }
    }
    assert forall|j: int| 0 <= j < keys.len() && !(#[trigger] alive[j]) implies next.contains(
        (keys[j], vals[j]),
    ) || (exists|i: int|
        0 <= i < next.len() && overlaps((#[trigger] next[i]).0, keys[j]) && heavier(
            next[i],
            (keys[j], vals[j]),
        )) by {
        let f = (keys[j], vals[j]);
        if alive0[j] {
            if j == best {
                assert(next[n] == f);
            } else {
                assert(overlaps(next[n].0, keys[j]) && heavier(next[n], f));
            }
        } else if chosen.contains(f) {
            let i = choose|i: int| 0 <= i < chosen.len() && chosen[i] == f;
            assert(next[i] == f);
        } else {
            let i = choose|i: int|
                0 <= i < chosen.len() && overlaps((#[trigger] chosen[i]).0, keys[j]) && heavier(
                    chosen[i],
                    f,
                );
            assert(next[i] == chosen[i]);
            assert(overlaps(next[i].0, keys[j]) && heavier(next[i], f));
        }
    }
}

/// A choice that has come to its end is the one that was asked for.
proof fn lemma_choosing_ends(
    weights: PathTable<u64>,
    alive: Seq<bool>,
    chosen: Seq<(Seq<u8>, u64)>,
    k: nat,
)
    requires
        weights.wf(),
        alive.len() == weights.rows().len(),
        choosing(weights.rows(), weights.entries(), alive, chosen),
        chosen.len() <= k,
        chosen.len() == k || forall|j: int| 0 <= j < alive.len() ==> !(#[trigger] alive[j]),
    ensures
        top_maximal(weights@, k, chosen),
{
    let keys = weights.rows();
    let vals = weights.entries();
    assert forall|i: int| 0 <= i < chosen.len() implies weights@.contains_key(
        (#[trigger] chosen[i]).0,
    ) && weights@[chosen[i].0] == chosen[i].1 by {
        let j = choose|j: int|
            0 <= j < keys.len() && chosen[i] == (#[trigger] keys[j], vals[j]);
        weights.lemma_entry(j);
    }
    assert forall|q: Seq<u8>| #[trigger] weights@.contains_key(q) implies chosen.contains(
        (q, weights@[q]),
    ) || crowded_out((q, weights@[q]), chosen, k) by {
        let j = keys.index_of(q);
        assert(keys.contains(q));
        assert(keys[j] == q);
        weights.lemma_entry(j);
        assert(weights@[q] == vals[j]);
        if alive[j] {
            assert forall|i: int| 0 <= i < chosen.len() implies heavier(
                #[trigger] chosen[i],
                (q, weights@[q]),
            ) by {
                assert(alive[j]);
            }
        }
    }
}

/// The choice of the heaviest patterns is determined: there is only one.
pub proof fn heaviest_patterns_are_determined(
    weights: Map<Seq<u8>, u64>,
    k: nat,
    a: Seq<(Seq<u8>, u64)>,
    b: Seq<(Seq<u8>, u64)>,
)
    requires
        top_maximal(weights, k, a),
        top_maximal(weights, k, b),
    ensures
        a == b,
{
    lemma_choice_agrees(weights, k, a, b, if a.len() <= b.len() { a.len() as int } else { b.len() as int });
    if a.len() < b.len() {
        lemma_choice_goes_on(weights, k, b, a, a.len() as int);
    } else if b.len() < a.len() {
        lemma_choice_goes_on(weights, k, a, b, b.len() as int);
    }
    assert(a =~= b);
}

/// Reporting order is a strict order.
proof fn lemma_heavier_order(a: (Seq<u8>, u64), b: (Seq<u8>, u64))
    ensures
        !(heavier(a, b) && heavier(b, a)),
        !heavier(a, a),
{
    lemma_path_lt_total(a.0, b.0);
    lemma_path_lt_irreflexive(a.0);
}

/// Where one choice has an entry, another that agrees so far has one as well, and
/// it is not reported later.
proof fn lemma_choice_goes_on(
    weights: Map<Seq<u8>, u64>,
    k: nat,
    a: Seq<(Seq<u8>, u64)>,
    b: Seq<(Seq<u8>, u64)>,
    i: int,
)
    requires
        top_maximal(weights, k, a),
        top_maximal(weights, k, b),
        0 <= i < a.len(),
        i <= b.len(),
        forall|j: int| 0 <= j < i ==> #[trigger] a[j] == b[j],
    ensures
        i < b.len(),
        b[i] == a[i] || heavier(b[i], a[i]),
{
    let e = a[i];
    assert(overlaps(e.0, e.0)) by {
        assert(e.0 =~= e.0.take(e.0.len() as int));
    }
    assert(weights.contains_key(e.0));
    if b.contains(e) {
        let m = choose|m: int| 0 <= m < b.len() && b[m] == e;
        if m < i {
            assert(a[m] == e);
            assert(!overlaps(a[m].0, a[i].0));
        } else if m > i {
            assert(heavier(b[i], b[m]));
        }
    } else {
        assert(crowded_out(e, b, k));
        if exists|m: int|
            0 <= m < b.len() && overlaps((#[trigger] b[m]).0, e.0) && heavier(b[m], e) {
            let m = choose|m: int|
                0 <= m < b.len() && overlaps((#[trigger] b[m]).0, e.0) && heavier(b[m], e);
            if m < i {
                assert(a[m] == b[m]);
                assert(!overlaps(a[m].0, a[i].0));
            } else if m > i {
                assert(heavier(b[i], b[m]));
                lemma_heavier_transitive(b[i], b[m], e);
            }
        } else {
            assert(b.len() == k);
            assert(heavier(b[i], e));
        }
    }
}

/// Reporting order is transitive.
proof fn lemma_heavier_transitive(a: (Seq<u8>, u64), b: (Seq<u8>, u64), c: (Seq<u8>, u64))
    requires
        heavier(a, b),
        heavier(b, c),
    ensures
        heavier(a, c),
{
    if a.1 == b.1 && b.1 == c.1 {
        lemma_path_lt_transitive(a.0, b.0, c.0);
    }
}

/// Two choices agree as far as both go.
proof fn lemma_choice_agrees(
    weights: Map<Seq<u8>, u64>,
    k: nat,
    a: Seq<(Seq<u8>, u64)>,
    b: Seq<(Seq<u8>, u64)>,
    n: int,
)
    requires
        top_maximal(weights, k, a),
        top_maximal(weights, k, b),
        0 <= n <= a.len(),
        n <= b.len(),
    ensures
        forall|j: int| 0 <= j < n ==> #[trigger] a[j] == b[j],
    decreases n,
{
    if n > 0 {
        lemma_choice_agrees(weights, k, a, b, n - 1);
        lemma_choice_goes_on(weights, k, a, b, n - 1);
        lemma_choice_goes_on(weights, k, b, a, n - 1);
        lemma_heavier_order(a[n - 1], b[n - 1]);
    }
}

/// The bytes of a path that are left from a position on.
pub open spec fn bytes_left(b: Seq<u8>, p: int) -> int {
    if p < b.len() {
        b.len() - p
    } else {
        0
    }
}

/// How a symbol's payload is shown: a grounded value by its display, a mutable
/// one by its id, and bytes that are no text as a question mark.
pub open spec fn symbol_text(raw: Seq<u8>) -> Seq<char> {
    if raw.len() > 0 && raw[0] == GROUNDED_MARK {
        if valid_utf8(raw.drop_first()) {
            decode_utf8(raw.drop_first())
        } else {
            "?"@
        }
    } else if raw.len() == 9 && raw[0] == GROUNDED_REF_MARK {
        "<state-"@ + decimal(vstd::bytes::spec_u64_from_le_bytes(raw.drop_first()) as nat) + ">"@
    } else if valid_utf8(raw) {
        decode_utf8(raw)
    } else {
        "?"@
    }
}

/// How the term at a position is shown when `n` variables were introduced before
/// it, with the position and the number behind it. What is cut off shows as an
/// ellipsis.
pub open spec fn shown(b: Seq<u8>, p: int, n: nat) -> (Seq<char>, int, nat)
    decreases bytes_left(b, p), 0nat,
{
    if p < 0 || p >= b.len() {
        ("…"@, p, n)
    } else {
        match byte_tag(b[p]) {
            Some(Tag::NewVar) => ("$v"@ + decimal(n), p + 1, n + 1),
            Some(Tag::VarRef(i)) => ("$v"@ + decimal(i as nat), p + 1, n),
            Some(Tag::SymbolSize(s)) => if p + 1 + s <= b.len() {
                (symbol_text(b.subrange(p + 1, p + 1 + s)), p + 1 + s, n)
            } else {
                ("…"@, b.len() as int, n)
            },
            Some(Tag::Arity(k)) => {
                let (t, e, m) = shown_row(b, p + 1, k as nat, n);
                ("("@ + t + ")"@, e, m)
            },
            None => ("?"@, p + 1, n),
        }
    }
}

/// How the terms of an expression are shown, parted by blanks.
pub open spec fn shown_row(b: Seq<u8>, p: int, k: nat, n: nat) -> (Seq<char>, int, nat)
    decreases bytes_left(b, p), k + 1,
{
    if k == 0 {
        (Seq::empty(), p, n)
    } else {
        let (t, e, m) = shown_row(b, p, (k - 1) as nat, n);
        if e < p {
            (t, e, m)
        } else {
            let (x, e2, m2) = shown(b, e, m);
            (
                if k == 1 {
                    x
                } else {
                    t + " "@ + x
                },
                e2,
                m2,
            )
        }
    }
}

/// Showing a term moves forward, past at most one variable per byte.
proof fn lemma_shown_moves(b: Seq<u8>, p: int, n: nat)
    requires
        0 <= p <= b.len(),
    ensures
        p <= shown(b, p, n).1 <= b.len(),
        n <= shown(b, p, n).2 <= n + (shown(b, p, n).1 - p),
    decreases bytes_left(b, p), 0nat,
{
    if p < b.len() {
        if let Some(Tag::Arity(k)) = byte_tag(b[p]) {
            lemma_shown_row_moves(b, p + 1, k as nat, n);
        }
    }
}

/// The same of the terms of an expression.
proof fn lemma_shown_row_moves(b: Seq<u8>, p: int, k: nat, n: nat)
    requires
        0 <= p <= b.len(),
    ensures
        p <= shown_row(b, p, k, n).1 <= b.len(),
        n <= shown_row(b, p, k, n).2 <= n + (shown_row(b, p, k, n).1 - p),
    decreases bytes_left(b, p), k + 1,
{
    if k > 0 {
        lemma_shown_row_moves(b, p, (k - 1) as nat, n);
        let (t, e, m) = shown_row(b, p, (k - 1) as nat, n);
        lemma_shown_moves(b, e, m);
    }
}

/// Appends a symbol's payload as it is shown.
fn push_symbol_text(out: &mut String, raw: &[u8])
    ensures
        final(out)@ == old(out)@ + symbol_text(raw@),
{
    if raw.len() > 0 && raw[0] == GROUNDED_MARK {
        let display = slice_subrange(raw, 1, raw.len());
        proof {
            assert(display@ =~= raw@.drop_first());
        }
        match utf8_string(display) {
            Some(s) => push_text(out, s.as_str()),
            None => push_text(out, "?"),
        }
        return;
    }
    if raw.len() == 9 && raw[0] == GROUNDED_REF_MARK {
        let id_bytes = slice_subrange(raw, 1, raw.len());
        proof {
            assert(id_bytes@ =~= raw@.drop_first());
        }
        let id: u64 = vstd::bytes::u64_from_le_bytes(id_bytes);
        push_text(out, "<state-");
        push_decimal(out, id);
        push_text(out, ">");
        proof {
            assert(out@ =~= old(out)@ + symbol_text(raw@));
        }
        return;
    }
    match utf8_string(raw) {
        Some(s) => push_text(out, s.as_str()),
        None => push_text(out, "?"),
    }
}

/// Appends the term at a position as it is shown.
fn push_shown(out: &mut String, b: &[u8], p: &mut usize, n: &mut usize)
    requires
        *old(p) <= b@.len(),
        *old(n) + (b@.len() - *old(p)) <= usize::MAX,
    ensures
        final(out)@ == old(out)@ + shown(b@, *old(p) as int, *old(n) as nat).0,
        *final(p) == shown(b@, *old(p) as int, *old(n) as nat).1,
        *final(n) == shown(b@, *old(p) as int, *old(n) as nat).2,
    decreases bytes_left(b@, *old(p) as int), 0nat,
{
    let start: usize = *p;
    let before: usize = *n;
    let ghost out0 = out@;
    proof {
        lemma_shown_moves(b@, start as int, before as nat);
    }
    if start >= b.len() {
        push_text(out, "…");
        return;
    }
    match maybe_byte_item(b[start]) {
        None => {
            push_text(out, "?");
            *p = start + 1;
        },
        Some(Tag::NewVar) => {
            push_text(out, "$v");
            push_decimal(out, before as u64);
            *p = start + 1;
            *n = before + 1;
            proof {
                assert(out@ =~= out0 + ("$v"@ + decimal(before as nat)));
            }
        },
        Some(Tag::VarRef(i)) => {
            push_text(out, "$v");
            push_decimal(out, i as u64);
            *p = start + 1;
            proof {
                assert(out@ =~= out0 + ("$v"@ + decimal(i as nat)));
            }
        },
        Some(Tag::SymbolSize(size)) => {
            if (size as usize) > b.len() - (start + 1) {
                push_text(out, "…");
                *p = b.len();
            } else {
                let end: usize = start + 1 + size as usize;
                push_symbol_text(out, slice_subrange(b, start + 1, end));
                *p = end;
            }
        },
        Some(Tag::Arity(k)) => {
            push_text(out, "(");
            let ghost out1 = out@;
            let ghost (p1, n0) = (start + 1, before as nat);
            *p = start + 1;
            let mut i: u8 = 0;
            proof {
                assert(out@ =~= out1 + shown_row(b@, p1, 0, n0).0);
            }
            while i < k
                invariant
                    i <= k,
                    p1 == start + 1,
                    n0 == before,
                    start == *old(p),
                    before == *old(n),
                    start < b@.len(),
                    before + (b@.len() - start) <= usize::MAX,
                    p1 <= *p <= b@.len(),
                    *p == shown_row(b@, p1, i as nat, n0).1,
                    *n == shown_row(b@, p1, i as nat, n0).2,
                    out@ == out1 + shown_row(b@, p1, i as nat, n0).0,
                decreases k - i,
            {
                let ghost (pi, ni) = (*p as int, *n as nat);
                let ghost ti = shown_row(b@, p1, i as nat, n0).0;
                proof {
                    lemma_shown_row_moves(b@, p1, i as nat, n0);
                    lemma_shown_row_moves(b@, p1, (i + 1) as nat, n0);
                }
                if i > 0 {
                    push_text(out, " ");
                }
                push_shown(out, b, p, n);
                proof {
                    let x = shown(b@, pi, ni).0;
                    if i > 0 {
                        assert(out@ =~= out1 + (ti + " "@ + x));
                    } else {
                        assert(out@ =~= out1 + x);
                    }
                }
                i = i + 1;
            }
            push_text(out, ")");
            proof {
                assert(out@ =~= out0 + ("("@ + shown_row(b@, p1, k as nat, n0).0 + ")"@));
            }
        },
    }
}

/// A pattern as it is shown: as an expression in which every argument slot that
/// the pattern cuts off is an ellipsis.
pub fn decode_pattern(pattern: &[u8]) -> (r: String)
    ensures
        r@ == shown(pattern@, 0, 0).0,
{
    let mut out = String::new();
    let mut p: usize = 0;
    let mut n: usize = 0;
    assert(pattern.len() == pattern@.len());
    push_shown(&mut out, pattern, &mut p, &mut n);
    proof {
        assert(out@ =~= shown(pattern@, 0, 0).0);
    }
    out
}

/// Where the leaves of a tree end that starts at `p`.
spec fn leaf_ends(t: Tree, p: int) -> Seq<int>
    decreases t, 0nat,
{
    match t {
        Tree::Expr(ts) => if ts.len() == 0 {
            seq![p + 1]
        } else {
            row_leaf_ends(ts, p + 1)
        },
        _ => seq![p + flat(t).len()],
    }
}

/// Where the leaves of a row of trees end that starts at `p`.
spec fn row_leaf_ends(ts: Seq<Tree>, p: int) -> Seq<int>
    decreases ts, ts.len(),
{
    if ts.len() == 0 {
        Seq::empty()
    } else {
        leaf_ends(ts[0], p) + row_leaf_ends(ts.drop_first(), p + flat(ts[0]).len())
    }
}

/// The ends from an atom on are those of its leaves and those behind it.
proof fn lemma_ends_of_atom(b: Seq<u8>, p: int)
    requires
        parse_at(b, p) is Some,
    ensures
        ({
            let (t, e) = parse_at(b, p).unwrap();
            &&& e == p + flat(t).len()
            &&& term_ends(b, p) == leaf_ends(t, p) + term_ends(b, e)
        }),
    decreases b.len() - p, 0nat,
{
    let (t, e) = parse_at(b, p).unwrap();
    lemma_parse_sound(b, p);
    assert(b.subrange(p, e).len() == flat(t).len());
    match byte_tag(b[p]) {
        Some(Tag::Arity(k)) => {
            lemma_ends_of_row(b, p + 1, k as nat);
            let ts = t->Expr_0;
            lemma_parse_row_sound(b, p + 1, k as nat);
            if k > 0 {
                assert(term_ends(b, p) =~= leaf_ends(t, p) + term_ends(b, e));
            } else {
                assert(e == p + 1);
            }
        },
        _ => {},
    }
}

/// The same of a row of atoms.
proof fn lemma_ends_of_row(b: Seq<u8>, p: int, k: nat)
    requires
        0 <= p <= b.len(),
        parse_row(b, p, k) is Some,
    ensures
        ({
            let (ts, e) = parse_row(b, p, k).unwrap();
            &&& e == p + flat_all(ts).len()
            &&& term_ends(b, p) == row_leaf_ends(ts, p) + term_ends(b, e)
        }),
    decreases b.len() - p, k + 1,
{
    let (ts, e) = parse_row(b, p, k).unwrap();
    if k == 0 {
        assert(row_leaf_ends(ts, p) =~= Seq::empty());
        assert(flat_all(ts) =~= Seq::<u8>::empty());
        assert(term_ends(b, p) =~= row_leaf_ends(ts, p) + term_ends(b, e));
    } else {
        let (t, m) = parse_at(b, p).unwrap();
        lemma_parse_sound(b, p);
        lemma_ends_of_atom(b, p);
        lemma_ends_of_row(b, m, (k - 1) as nat);
        let rest = parse_row(b, m, (k - 1) as nat).unwrap().0;
        assert(ts.drop_first() =~= rest);
        assert(ts[0] == t);
        assert(term_ends(b, p) =~= row_leaf_ends(ts, p) + term_ends(b, e));
    }
}

/// A leaf ends where a tree does.
proof fn lemma_whole_ends(t: Tree, p: int)
    ensures
        leaf_ends(t, p).contains(p + flat(t).len()),
    decreases t, 0nat,
{
    match t {
        Tree::Expr(ts) => {
            if ts.len() == 0 {
                assert(flat_all(ts) =~= Seq::<u8>::empty());
                assert(leaf_ends(t, p)[0] == p + 1);
            } else {
                lemma_whole_row_ends(ts, p + 1);
            }
        },
        _ => {
            assert(leaf_ends(t, p)[0] == p + flat(t).len());
        },
    }
}

/// The same of a row of trees.
proof fn lemma_whole_row_ends(ts: Seq<Tree>, p: int)
    requires
        ts.len() > 0,
    ensures
        row_leaf_ends(ts, p).contains(p + flat_all(ts).len()),
    decreases ts, ts.len(),
{
    let rest = ts.drop_first();
    let head = leaf_ends(ts[0], p);
    let all = row_leaf_ends(ts, p);
    if rest.len() == 0 {
        lemma_whole_ends(ts[0], p);
        assert(flat_all(rest) =~= Seq::<u8>::empty());
        let k = choose|k: int| 0 <= k < head.len() && head[k] == p + flat(ts[0]).len();
        assert(all[k] == p + flat(ts[0]).len());
    } else {
        let q = p + flat(ts[0]).len();
        lemma_whole_row_ends(rest, q);
        let tail = row_leaf_ends(rest, q);
        let k = choose|k: int| 0 <= k < tail.len() && tail[k] == q + flat_all(rest).len();
        assert(all[head.len() + k] == tail[k]);
    }
}

/// A subterm of a tree ends where a leaf ends, and every leaf is a subterm.
proof fn lemma_leaves_end_subterms(t: Tree, p: int, e: int)
    ensures
        leaf_ends(t, p).contains(e) <==> exists|sub: Tree, at: int| #[trigger]
            subterm_at(t, sub, at) && e == p + at + flat(sub).len(),
    decreases t, 0nat,
{
    if leaf_ends(t, p).contains(e) {
        if t is Expr && t->Expr_0.len() > 0 {
            let ts = t->Expr_0;
            lemma_row_leaves_end_subterms(ts, p + 1, e);
            let (i, sub, at) = choose|i: int, sub: Tree, at: int|
                0 <= i < ts.len() && #[trigger] subterm_at(ts[i], sub, at) && e == p + 1 + flat_all(
                    ts.take(i),
                ).len() + at + flat(sub).len();
            let start = 1 + flat_all(ts.take(i)).len() + at;
            assert(subterm_at(ts[i], sub, start - 1 - flat_all(ts.take(i)).len()));
            assert(subterm_at(t, sub, start));
        } else {
            if t is Expr {
                assert(flat_all(t->Expr_0) =~= Seq::<u8>::empty());
            }
            assert(subterm_at(t, t, 0));
        }
    }
    if exists|sub: Tree, at: int| #[trigger]
        subterm_at(t, sub, at) && e == p + at + flat(sub).len() {
        let (sub, at) = choose|sub: Tree, at: int| #[trigger]
            subterm_at(t, sub, at) && e == p + at + flat(sub).len();
        if sub == t && at == 0 {
            lemma_whole_ends(t, p);
        } else {
            let ts = t->Expr_0;
            let i = choose|i: int|
                0 <= i < ts.len() && subterm_at(
                    #[trigger] ts[i],
                    sub,
                    at - 1 - flat_all(ts.take(i)).len(),
                );
            let inner = at - 1 - flat_all(ts.take(i)).len();
            assert(subterm_at(ts[i], sub, inner) && e == p + 1 + flat_all(ts.take(i)).len() + inner
                + flat(sub).len());
            lemma_row_leaves_end_subterms(ts, p + 1, e);
        }
    }
}

/// The same of a row of trees.
proof fn lemma_row_leaves_end_subterms(ts: Seq<Tree>, p: int, e: int)
    ensures
        row_leaf_ends(ts, p).contains(e) <==> exists|i: int, sub: Tree, at: int|
            0 <= i < ts.len() && #[trigger] subterm_at(ts[i], sub, at) && e == p + flat_all(
                ts.take(i),
            ).len() + at + flat(sub).len(),
    decreases ts, ts.len(),
{
    let all = row_leaf_ends(ts, p);
    if ts.len() > 0 {
        let rest = ts.drop_first();
        let q = p + flat(ts[0]).len();
        let (head, tail) = (leaf_ends(ts[0], p), row_leaf_ends(rest, q));
        lemma_leaves_end_subterms(ts[0], p, e);
        lemma_row_leaves_end_subterms(rest, q, e);
        lemma_flat_all_take(ts, 0);
        if all.contains(e) {
            let k = choose|k: int| 0 <= k < all.len() && all[k] == e;
            if k < head.len() {
                assert(head[k] == e);
                let (sub, at) = choose|sub: Tree, at: int| #[trigger]
                    subterm_at(ts[0], sub, at) && e == p + at + flat(sub).len();
                assert(subterm_at(ts[0], sub, at) && e == p + flat_all(ts.take(0)).len() + at
                    + flat(sub).len());
            } else {
                assert(tail[k - head.len()] == e);
                let (i, sub, at) = choose|i: int, sub: Tree, at: int|
                    0 <= i < rest.len() && #[trigger] subterm_at(rest[i], sub, at) && e == q
                        + flat_all(rest.take(i)).len() + at + flat(sub).len();
                lemma_flat_all_take(ts, i);
                assert(rest[i] == ts[i + 1]);
                assert(subterm_at(ts[i + 1], sub, at) && e == p + flat_all(ts.take(i + 1)).len()
                    + at + flat(sub).len());
            }
        }
        if exists|i: int, sub: Tree, at: int|
            0 <= i < ts.len() && #[trigger] subterm_at(ts[i], sub, at) && e == p + flat_all(
                ts.take(i),
            ).len() + at + flat(sub).len() {
            let (i, sub, at) = choose|i: int, sub: Tree, at: int|
                0 <= i < ts.len() && #[trigger] subterm_at(ts[i], sub, at) && e == p + flat_all(
                    ts.take(i),
                ).len() + at + flat(sub).len();
            if i == 0 {
                assert(subterm_at(ts[0], sub, at) && e == p + at + flat(sub).len());
                let k = choose|k: int| 0 <= k < head.len() && head[k] == e;
                assert(all[k] == e);
            } else {
                lemma_flat_all_take(ts, i - 1);
                assert(rest[i - 1] == ts[i]);
                assert(subterm_at(rest[i - 1], sub, at) && e == q + flat_all(
                    rest.take(i - 1),
                ).len() + at + flat(sub).len());
                let k = choose|k: int| 0 <= k < tail.len() && tail[k] == e;
                assert(all[head.len() + k] == e);
            }
        }
    }
}

/// The term ends of a path are exactly where its subterms end: symbols, variables
/// and whole expressions, the atom itself among them.
pub proof fn term_ends_are_the_ends_of_subterms(b: Seq<u8>, e: int)
    requires
        spells(b),
    ensures
        term_ends(b, 0).contains(e) <==> exists|sub: Tree, at: int| #[trigger]
            subterm_at(parse_at(b, 0).unwrap().0, sub, at) && e == at + flat(sub).len(),
        term_ends(b, 0).contains(b.len() as int),
{
    let (t, end) = parse_at(b, 0).unwrap();
    lemma_ends_of_atom(b, 0);
    assert(term_ends(b, end) =~= Seq::empty());
    assert(term_ends(b, 0) =~= leaf_ends(t, 0));
    lemma_leaves_end_subterms(t, 0, e);
    lemma_whole_ends(t, 0);
}

/// Every variable of a path ends a subterm.
pub proof fn variables_are_term_ends(b: Seq<u8>, sub: Tree, at: int)
    requires
        spells(b),
        subterm_at(parse_at(b, 0).unwrap().0, sub, at),
        sub is NewVar || sub is VarRef,
    ensures
        term_ends(b, 0).contains(at + 1),
{
    assert(flat(sub).len() == 1);
    term_ends_are_the_ends_of_subterms(b, at + 1);
}

/// A pattern is weighed exactly when it ends where a subterm of a stored path ends,
/// at least two stored paths start with it, and storing it once with a reference in
/// each of those paths saves bytes; its weight is the number of bytes saved.
pub proof fn weights_are_the_bytes_saved(paths: Set<Seq<u8>>, q: Seq<u8>, ref_cost: u64)
    requires
        forall|p: Seq<u8>| #[trigger] paths.contains(p) ==> spells(p),
    ensures
        ({
            let count = paths.filter(|p: Seq<u8>| q.is_prefix_of(p)).len() as int;
            let saved = count * q.len() - (q.len() + count * ref_cost);
            &&& gains(paths, ref_cost).contains_key(q) <==> {
                &&& exists|p: Seq<u8>, sub: Tree, at: int|
                    #![trigger paths.contains(p), subterm_at(parse_at(p, 0).unwrap().0, sub, at)]
                    paths.contains(p) && subterm_at(parse_at(p, 0).unwrap().0, sub, at) && q
                        == p.take(at + flat(sub).len())
                &&& count >= 2
                &&& saved > 0
            }
            &&& gains(paths, ref_cost).contains_key(q) ==> gains(paths, ref_cost)[q]
                == if saved > u64::MAX {
                u64::MAX as int
            } else {
                saved
            }
        }),
{
    let count = paths.filter(|p: Seq<u8>| q.is_prefix_of(p)).len() as int;
    assert(sharers(paths, q) == count);
    let n = q.len() as int;
    assert((count - 1) * n == count * n - n) by (nonlinear_arith);
    if exists|p: Seq<u8>| #[trigger] paths.contains(p) && is_pattern_of(q, p) {
        let p = choose|p: Seq<u8>| #[trigger] paths.contains(p) && is_pattern_of(q, p);
        let j = choose|j: int|
            0 <= j < term_ends(p, 0).len() && q == p.take(#[trigger] term_ends(p, 0)[j]);
        let e = term_ends(p, 0)[j];
        term_ends_are_the_ends_of_subterms(p, e);
        let (sub, at) = choose|sub: Tree, at: int| #[trigger]
            subterm_at(parse_at(p, 0).unwrap().0, sub, at) && e == at + flat(sub).len();
        assert(paths.contains(p) && subterm_at(parse_at(p, 0).unwrap().0, sub, at));
    }
    if exists|p: Seq<u8>, sub: Tree, at: int|
        #![trigger paths.contains(p), subterm_at(parse_at(p, 0).unwrap().0, sub, at)]
        paths.contains(p) && subterm_at(parse_at(p, 0).unwrap().0, sub, at) && q == p.take(
            at + flat(sub).len(),
        ) {
        let (p, sub, at) = choose|p: Seq<u8>, sub: Tree, at: int|
            #![trigger paths.contains(p), subterm_at(parse_at(p, 0).unwrap().0, sub, at)]
            paths.contains(p) && subterm_at(parse_at(p, 0).unwrap().0, sub, at) && q == p.take(
                at + flat(sub).len(),
            );
        let e = at + flat(sub).len();
        term_ends_are_the_ends_of_subterms(p, e);
        let ends = term_ends(p, 0);
        let j = choose|j: int| 0 <= j < ends.len() && ends[j] == e;
        assert(q == p.take(term_ends(p, 0)[j]));
        assert(is_pattern_of(q, p));
    }
}

/// What is reported is the heaviest there is: the chosen patterns are weighed, come
/// heaviest first and none of them is the start of another; and what was not chosen
/// is the start of a chosen pattern that weighs at least as much, or starts with
/// one, unless as many as were asked for were chosen and all weigh at least as much.
pub proof fn heaviest_patterns_are_reported(
    weights: Map<Seq<u8>, u64>,
    k: nat,
    chosen: Seq<(Seq<u8>, u64)>,
)
    requires
        top_maximal(weights, k, chosen),
    ensures
        chosen.len() <= k,
        forall|i: int|
            0 <= i < chosen.len() ==> weights.contains_key((#[trigger] chosen[i]).0)
                && weights[chosen[i].0] == chosen[i].1,
        forall|i: int, j: int|
            0 <= i < j < chosen.len() ==> {
                let (a, b) = (#[trigger] chosen[i], #[trigger] chosen[j]);
                &&& a.1 >= b.1
                &&& a.1 == b.1 ==> path_lt(a.0, b.0)
                &&& !a.0.is_prefix_of(b.0)
                &&& !b.0.is_prefix_of(a.0)
            },
        forall|q: Seq<u8>| #[trigger]
            weights.contains_key(q) && (forall|i: int|
                0 <= i < chosen.len() ==> (#[trigger] chosen[i]).0 != q) ==> {
                ||| exists|i: int|
                    0 <= i < chosen.len() && (#[trigger] chosen[i]).1 >= weights[q] && (
                    chosen[i].0.is_prefix_of(q) || q.is_prefix_of(chosen[i].0))
                ||| chosen.len() == k && forall|i: int|
                    0 <= i < chosen.len() ==> (#[trigger] chosen[i]).1 >= weights[q]
            },
{
    assert forall|q: Seq<u8>| #[trigger]
        weights.contains_key(q) && (forall|i: int|
            0 <= i < chosen.len() ==> (#[trigger] chosen[i]).0 != q) implies {
        ||| exists|i: int|
            0 <= i < chosen.len() && (#[trigger] chosen[i]).1 >= weights[q] && (
            chosen[i].0.is_prefix_of(q) || q.is_prefix_of(chosen[i].0))
        ||| chosen.len() == k && forall|i: int|
            0 <= i < chosen.len() ==> (#[trigger] chosen[i]).1 >= weights[q]
    } by {
        if chosen.contains((q, weights[q])) {
            let i = choose|i: int| 0 <= i < chosen.len() && chosen[i] == (q, weights[q]);
            assert(chosen[i].0 == q);
        } else if exists|i: int|
            0 <= i < chosen.len() && overlaps((#[trigger] chosen[i]).0, q) && heavier(
                chosen[i],
                (q, weights[q]),
            ) {
            let i = choose|i: int|
                0 <= i < chosen.len() && overlaps((#[trigger] chosen[i]).0, q) && heavier(
                    chosen[i],
                    (q, weights[q]),
                );
            assert(chosen[i].1 >= weights[q]);
        }
    }
}

} // verus!
