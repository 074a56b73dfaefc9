//! The matcher's rows: capturing them, ordering them, and planning what each
//! binds.
use vstd::prelude::*;
use vstd::slice::{slice_subrange, slice_to_vec};

use crate::atom::{Atom, Term, Variable, VariableAtom};
use crate::codec::{literal, literal_terms_survive, unreserved, written_terms_read_back};
use crate::decode::{decode_atom, namespaced, namespaced_var, raise, DecodeCtx, Reader};
use crate::encode::{lemma_lower_fits, lower, ref_terms, variables, EvaluatedSpans, Lowering, Mode};
use crate::order::{
    compare_paths, lemma_path_lt_irreflexive, lemma_path_lt_total, lemma_path_lt_transitive,
    path_lt, PathOrder,
};
use crate::pattern::pattern_tree;
use crate::registry::{GroundedRegistry, Registry};
use crate::span::{byte_rows, ground_span, span_is_ground};
use crate::specificity::{
    exact_facts_come_first, keeps_more, keys_compare_trees, specificity, specificity_key, walk,
};
use crate::tag::{tag_byte, Tag};
use crate::tree::{flat, flat_all, lemma_parse_flat, parse_at, Tree};

verus! {

/// One binding of one match as the matcher reports it: the variable by
/// namespace and number, the bytes of what it is bound to, and the namespace
/// and number of introduced variables that those bytes are to be read with.
#[derive(Debug)]
pub struct RawBinding {
    pub key_ns: u8,
    pub key_idx: u8,
    pub span: Vec<u8>,
    pub env_n: u8,
    pub env_v: u8,
}

/// The model of a binding.
#[verifier::ext_equal]
pub struct Binding {
    pub key_ns: u8,
    pub key_idx: u8,
    pub span: Seq<u8>,
    pub env_n: u8,
    pub env_v: u8,
}

impl View for RawBinding {
    type V = Binding;

    open spec fn view(&self) -> Binding {
        Binding {
            key_ns: self.key_ns,
            key_idx: self.key_idx,
            span: self.span@,
            env_n: self.env_n,
            env_v: self.env_v,
        }
    }
}

impl Clone for RawBinding {
    fn clone(&self) -> (r: RawBinding)
        ensures
            r@ == self@,
    {
        RawBinding {
            key_ns: self.key_ns,
            key_idx: self.key_idx,
            span: slice_to_vec(self.span.as_slice()),
            env_n: self.env_n,
            env_v: self.env_v,
        }
    }
}

/// One match: its bindings, the matched fact where there is one, and its place
/// in the order of the matcher.
#[derive(Debug)]
pub struct RawRow {
    pub entries: Vec<RawBinding>,
    pub fact: Option<Vec<u8>>,
    pub sequence: usize,
}

/// The model of a match.
#[verifier::ext_equal]
pub struct Row {
    pub entries: Seq<Binding>,
    pub fact: Option<Seq<u8>>,
    pub sequence: usize,
}

/// The models of a row of bindings.
pub open spec fn bindings(v: Seq<RawBinding>) -> Seq<Binding> {
    Seq::new(v.len(), |i: int| v[i]@)
}

/// The model of a matched fact.
pub open spec fn fact_of(fact: Option<Vec<u8>>) -> Option<Seq<u8>> {
    match fact {
        Some(f) => Some(f@),
        None => None,
    }
}

impl View for RawRow {
    type V = Row;

    open spec fn view(&self) -> Row {
        Row {
            entries: bindings(self.entries@),
            fact: fact_of(self.fact),
            sequence: self.sequence,
        }
    }
}

impl Clone for RawRow {
    fn clone(&self) -> (r: RawRow)
        ensures
            r@ == self@,
    {
        let entries = clone_bindings(&self.entries);
        let fact = match &self.fact {
            Some(f) => Some(slice_to_vec(f.as_slice())),
            None => None,
        };
        RawRow { entries, fact, sequence: self.sequence }
    }
}

/// A copy of some bindings.
fn clone_bindings(v: &Vec<RawBinding>) -> (r: Vec<RawBinding>)
    ensures
        bindings(r@) == bindings(v@),
{
    let mut out: Vec<RawBinding> = Vec::new();
    let mut i: usize = 0;
    while i < v.len()
        invariant
            i <= v@.len(),
            out@.len() == i,
            forall|j: int| 0 <= j < i ==> (#[trigger] out@[j])@ == v@[j]@,
        decreases v@.len() - i,
    {
        out.push(v[i].clone());
        i = i + 1;
    }
    proof {
        assert(bindings(out@) =~= bindings(v@));
    }
    out
}

/// The models of some matches.
pub open spec fn matches_of(v: Seq<RawRow>) -> Seq<Row> {
    Seq::new(v.len(), |i: int| v[i]@)
}

/// A copy of some matches.
pub fn clone_rows(rows: &Vec<RawRow>) -> (r: Vec<RawRow>)
    ensures
        matches_of(r@) == matches_of(rows@),
{
    let mut out: Vec<RawRow> = Vec::new();
    let mut i: usize = 0;
    while i < rows.len()
        invariant
            i <= rows@.len(),
            out@.len() == i,
            forall|j: int| 0 <= j < i ==> (#[trigger] out@[j])@ == rows@[j]@,
        decreases rows@.len() - i,
    {
        out.push(rows[i].clone());
        i = i + 1;
    }
    proof {
        assert(matches_of(out@) =~= matches_of(rows@));
    }
    out
}

/// The matches are numbered in the order in which they stand.
pub open spec fn in_sequence(rows: Seq<Row>) -> bool {
    forall|i: int| 0 <= i < rows.len() ==> (#[trigger] rows[i]).sequence == i
}

/// Appends a match, numbered by its place.
pub fn capture_row(rows: &mut Vec<RawRow>, entries: Vec<RawBinding>, fact: Option<Vec<u8>>)
    requires
        in_sequence(matches_of(old(rows)@)),
    ensures
        in_sequence(matches_of(final(rows)@)),
        matches_of(final(rows)@) == matches_of(old(rows)@).push(
            Row {
                entries: bindings(entries@),
                fact: fact_of(fact),
                sequence: old(rows)@.len() as usize,
            },
        ),
{
    let ghost before = matches_of(rows@);
    let sequence: usize = rows.len();
    let ghost added = Row {
        entries: bindings(entries@),
        fact: fact_of(fact),
        sequence,
    };
    rows.push(RawRow { entries, fact, sequence });
    proof {
        assert(matches_of(rows@) =~= before.push(added));
        assert forall|i: int| 0 <= i < rows@.len() implies (#[trigger] matches_of(
            rows@,
        )[i]).sequence == i by {
            if i < before.len() {
                assert(matches_of(rows@)[i] == before[i]);
            }
        }
    }
}

/// One report of the matcher: without bindings, or the bindings of a match with
/// the matched fact where there is one.
#[derive(Debug)]
pub enum Report {
    Unbound,
    Bound(Vec<RawBinding>, Option<Vec<u8>>),
}

/// The matches among some reports, numbered in their order.
pub open spec fn captured(reports: Seq<Report>) -> Seq<Row>
    decreases reports.len(),
{
    if reports.len() == 0 {
        Seq::empty()
    } else {
        let front = captured(reports.drop_last());
        match reports.last() {
            Report::Unbound => front,
            Report::Bound(entries, fact) => front.push(
                Row {
                    entries: bindings(entries@),
                    fact: fact_of(fact),
                    sequence: front.len() as usize,
                },
            ),
        }
    }
}

/// The first factor of a pattern: what stands behind its arity and its head.
pub open spec fn first_factor(wrapped: Seq<u8>) -> Seq<u8> {
    if wrapped.len() >= 3 {
        wrapped.skip(3)
    } else {
        wrapped
    }
}

/// The key of a match: how closely its fact agrees with the first factor.
pub open spec fn row_key(row: Row, factor: Seq<u8>) -> Seq<u8> {
    match row.fact {
        Some(f) => walk(factor, 0, f, 0).0,
        None => Seq::empty(),
    }
}

/// `a` comes before `b`: by key, and by the order of the matcher where the keys
/// are equal.
pub open spec fn row_before(a: Row, b: Row, factor: Seq<u8>) -> bool {
    ||| path_lt(row_key(a, factor), row_key(b, factor))
    ||| row_key(a, factor) == row_key(b, factor) && a.sequence < b.sequence
}

/// The matches are listed in the order in which they are answered.
pub open spec fn in_answer_order(rows: Seq<Row>, factor: Seq<u8>) -> bool {
    forall|i: int, j: int|
        0 <= i < j < rows.len() ==> row_before(#[trigger] rows[i], #[trigger] rows[j], factor)
}

/// The same matches are always answered in the same order.
pub proof fn answer_order_is_determined(a: Seq<Row>, b: Seq<Row>, factor: Seq<u8>)
    requires
        in_answer_order(a, factor),
        in_answer_order(b, factor),
        a.to_set() == b.to_set(),
    ensures
        a == b,
    decreases a.len(),
{
    if a.len() == 0 {
        if b.len() > 0 {
            assert(b.to_set().contains(b[0]));
            assert(a.contains(b[0]));
        }
        assert(a =~= b);
    } else {
        assert(a.to_set().contains(a[0]));
        assert(b.contains(a[0]));
        let n = a.len() - 1;
        let m = b.len() - 1;
        assert(a.to_set().contains(a[n]));
        assert(b.to_set().contains(b[m]));
        assert(b.contains(a[n]));
        assert(a.contains(b[m]));
        let i = choose|i: int| 0 <= i < b.len() && b[i] == a[n];
        let j = choose|j: int| 0 <= j < a.len() && a[j] == b[m];
        if i != m && j != n {
            assert(row_before(b[i], b[m], factor));
            assert(row_before(a[j], a[n], factor));
            lemma_path_lt_total(row_key(a[n], factor), row_key(b[m], factor));
            lemma_path_lt_irreflexive(row_key(a[n], factor));
        }
        assert(a[n] == b[m]);
        lemma_path_lt_irreflexive(row_key(a[n], factor));
        let (a1, b1) = (a.drop_last(), b.drop_last());
        assert forall|x: Row| #[trigger] a1.to_set().contains(x) == b1.to_set().contains(x) by {
            if a1.contains(x) {
                let k = choose|k: int| 0 <= k < a1.len() && a1[k] == x;
                assert(row_before(a[k], a[n], factor));
                assert(a.to_set().contains(x));
                assert(b.contains(x));
                let l = choose|l: int| 0 <= l < b.len() && b[l] == x;
                assert(b1[l] == x);
            }
            if b1.contains(x) {
                let k = choose|k: int| 0 <= k < b1.len() && b1[k] == x;
                assert(row_before(b[k], b[m], factor));
                assert(b.to_set().contains(x));
                assert(a.contains(x));
                let l = choose|l: int| 0 <= l < a.len() && a[l] == x;
                assert(a1[l] == x);
            }
        }
        assert(a1.to_set() =~= b1.to_set());
        answer_order_is_determined(a1, b1, factor);
        assert(a =~= a1.push(a[n]));
        assert(b =~= b1.push(b[m]));
    }
}

/// One place comes before another: by key, then by place.
spec fn ranked(keys: Seq<Seq<u8>>, a: int, b: int) -> bool {
    path_lt(keys[a], keys[b]) || (keys[a] == keys[b] && a < b)
}

/// The places are listed in rank order.
spec fn in_rank_order(keys: Seq<Seq<u8>>, places: Seq<usize>) -> bool {
    forall|i: int, j: int|
        0 <= i < j < places.len() ==> ranked(
            keys,
            #[trigger] places[i] as int,
            #[trigger] places[j] as int,
        )
}

/// Rank order is transitive.
proof fn lemma_ranked_transitive(keys: Seq<Seq<u8>>, a: int, b: int, c: int)
    requires
        ranked(keys, a, b),
        ranked(keys, b, c),
    ensures
        ranked(keys, a, c),
{
    if path_lt(keys[a], keys[b]) && path_lt(keys[b], keys[c]) {
        lemma_path_lt_transitive(keys[a], keys[b], keys[c]);
    }
}

/// Whether one place comes before another.
fn ranks_before(keys: &Vec<Vec<u8>>, a: usize, b: usize) -> (r: bool)
    requires
        a < keys@.len(),
        b < keys@.len(),
        a != b,
    ensures
        r == ranked(byte_rows(keys@), a as int, b as int),
        !r ==> ranked(byte_rows(keys@), b as int, a as int),
{
    proof {
        lemma_path_lt_total(keys@[a as int]@, keys@[b as int]@);
        lemma_path_lt_irreflexive(keys@[a as int]@);
    }
    match compare_paths(keys[a].as_slice(), keys[b].as_slice()) {
        PathOrder::Before => true,
        PathOrder::Same => a < b,
        PathOrder::After => false,
    }
}

/// Merges two listings in rank order that share no place.
fn merge(keys: &Vec<Vec<u8>>, a: &Vec<usize>, b: &Vec<usize>) -> (out: Vec<usize>)
    requires
        in_rank_order(byte_rows(keys@), a@),
        in_rank_order(byte_rows(keys@), b@),
        forall|i: int| 0 <= i < a@.len() ==> #[trigger] a@[i] < keys@.len(),
        forall|i: int| 0 <= i < b@.len() ==> #[trigger] b@[i] < keys@.len(),
        forall|i: int, j: int|
            0 <= i < a@.len() && 0 <= j < b@.len() ==> #[trigger] a@[i] != #[trigger] b@[j],
    ensures
        in_rank_order(byte_rows(keys@), out@),
        out@.to_set() == a@.to_set().union(b@.to_set()),
        out@.len() == a@.len() + b@.len(),
{
    let ghost ks = byte_rows(keys@);
    let mut out: Vec<usize> = Vec::new();
    let mut i: usize = 0;
    let mut j: usize = 0;
    proof {
        assert(out@.to_set() =~= a@.take(0).to_set().union(b@.take(0).to_set()));
    }
    while i < a.len() || j < b.len()
        invariant
            ks == byte_rows(keys@),
            in_rank_order(ks, a@),
            in_rank_order(ks, b@),
            forall|i: int| 0 <= i < a@.len() ==> #[trigger] a@[i] < keys@.len(),
            forall|i: int| 0 <= i < b@.len() ==> #[trigger] b@[i] < keys@.len(),
            forall|i: int, j: int|
                0 <= i < a@.len() && 0 <= j < b@.len() ==> #[trigger] a@[i] != #[trigger] b@[j],
            i <= a@.len(),
            j <= b@.len(),
            out@.len() == i + j,
            in_rank_order(ks, out@),
            forall|k: int|
                0 <= k < out@.len() && i < a@.len() ==> ranked(
                    ks,
                    #[trigger] out@[k] as int,
                    a@[i as int] as int,
                ),
            forall|k: int|
                0 <= k < out@.len() && j < b@.len() ==> ranked(
                    ks,
                    #[trigger] out@[k] as int,
                    b@[j as int] as int,
                ),
            out@.to_set() == a@.take(i as int).to_set().union(b@.take(j as int).to_set()),
        decreases a@.len() - i + b@.len() - j,
    {
        let from_a: bool = if i == a.len() {
            false
        } else if j == b.len() {
            true
        } else {
            assert(a@[i as int] != b@[j as int]);
            ranks_before(keys, a[i], b[j])
        };
        let next: usize = if from_a {
            a[i]
        } else {
            b[j]
        };
        let ghost before = out@;
        proof {
            before.lemma_push_to_set_commute(next);
            let i2 = if from_a { i + 1 } else { i as int };
            let j2 = if from_a { j as int } else { j + 1 };
            let after = before.push(next);
            if from_a {
                assert(a@.take(i + 1) =~= a@.take(i as int).push(next));
                a@.take(i as int).lemma_push_to_set_commute(next);
            } else {
                assert(b@.take(j + 1) =~= b@.take(j as int).push(next));
                b@.take(j as int).lemma_push_to_set_commute(next);
            }
            assert(after.to_set() =~= a@.take(i2).to_set().union(b@.take(j2).to_set()));
            assert forall|k: int| 0 <= k < after.len() && i2 < a@.len() implies ranked(
                ks,
                #[trigger] after[k] as int,
                a@[i2] as int,
            ) by {
                if from_a {
                    assert(ranked(ks, a@[i as int] as int, a@[i2] as int));
                    if k < before.len() {
                        lemma_ranked_transitive(
                            ks,
                            before[k] as int,
                            a@[i as int] as int,
                            a@[i2] as int,
                        );
                    }
                } else if k < before.len() {
                    assert(after[k] == before[k]);
                }
            }
            assert forall|k: int| 0 <= k < after.len() && j2 < b@.len() implies ranked(
                ks,
                #[trigger] after[k] as int,
                b@[j2] as int,
            ) by {
                if !from_a {
                    assert(ranked(ks, b@[j as int] as int, b@[j2] as int));
                    if k < before.len() {
                        lemma_ranked_transitive(
                            ks,
                            before[k] as int,
                            b@[j as int] as int,
                            b@[j2] as int,
                        );
                    }
                } else if k < before.len() {
                    assert(after[k] == before[k]);
                }
            }
        }
        out.push(next);
        if from_a {
            i = i + 1;
        } else {
            j = j + 1;
        }
    }
    proof {
        assert(a@.take(a@.len() as int) =~= a@);
        assert(b@.take(b@.len() as int) =~= b@);
    }
    out
}

/// Lists the places from `lo` up to `hi` in rank order.
fn rank_places(keys: &Vec<Vec<u8>>, lo: usize, hi: usize) -> (out: Vec<usize>)
    requires
        lo <= hi <= keys@.len(),
    ensures
        in_rank_order(byte_rows(keys@), out@),
        out@.len() == hi - lo,
        forall|x: usize| #[trigger] out@.to_set().contains(x) <==> lo <= x < hi,
    decreases hi - lo,
{
    if hi - lo == 0 {
        return Vec::new();
    }
    if hi - lo == 1 {
        let mut out: Vec<usize> = Vec::new();
        out.push(lo);
        proof {
            assert(out@[0] == lo);
        }
        return out;
    }
    let mid: usize = lo + (hi - lo) / 2;
    let a = rank_places(keys, lo, mid);
    let b = rank_places(keys, mid, hi);
    proof {
        assert forall|i: int| 0 <= i < a@.len() implies lo <= #[trigger] a@[i] < mid by {
            assert(a@.to_set().contains(a@[i]));
        }
        assert forall|i: int| 0 <= i < b@.len() implies mid <= #[trigger] b@[i] < hi by {
            assert(b@.to_set().contains(b@[i]));
        }
    }
    merge(keys, &a, &b)
}

/// Puts matches in the order in which they are answered: those whose facts agree
/// with the first factor most closely first, equal ones in the order of the
/// matcher.
pub fn order_rows(rows: &Vec<RawRow>, wrapped: &[u8]) -> (r: Vec<RawRow>)
    requires
        in_sequence(matches_of(rows@)),
    ensures
        r@.len() == rows@.len(),
        matches_of(r@).to_set() == matches_of(rows@).to_set(),
        in_answer_order(matches_of(r@), first_factor(wrapped@)),
{
    let ghost ms = matches_of(rows@);
    let ghost factor = first_factor(wrapped@);
    let pattern_factor = if wrapped.len() >= 3 {
        slice_subrange(wrapped, 3, wrapped.len())
    } else {
        wrapped
    };
    proof {
        assert(pattern_factor@ =~= factor);
    }
    let mut keys: Vec<Vec<u8>> = Vec::new();
    let mut i: usize = 0;
    while i < rows.len()
        invariant
            i <= rows@.len(),
            keys@.len() == i,
            pattern_factor@ == factor,
            ms == matches_of(rows@),
            forall|j: int| 0 <= j < i ==> (#[trigger] keys@[j])@ == row_key(ms[j], factor),
        decreases rows@.len() - i,
    {
        let key = match &rows[i].fact {
            Some(f) => specificity_key(pattern_factor, f.as_slice()),
            None => Vec::new(),
        };
        proof {
            assert(key@ =~= row_key(ms[i as int], factor));
        }
        keys.push(key);
        i = i + 1;
    }
    let places = rank_places(&keys, 0, rows.len());
    let mut out: Vec<RawRow> = Vec::new();
    let mut k: usize = 0;
    while k < places.len()
        invariant
            k <= places@.len(),
            places@.len() == rows@.len(),
            forall|x: usize| #[trigger] places@.to_set().contains(x) <==> 0 <= x < rows@.len(),
            out@.len() == k,
            forall|j: int| 0 <= j < k ==> #[trigger] places@[j] < rows@.len(),
            forall|j: int| 0 <= j < k ==> (#[trigger] out@[j])@ == rows@[places@[j] as int]@,
        decreases places@.len() - k,
    {
        let place: usize = places[k];
        proof {
            assert(places@.to_set().contains(place));
        }
        out.push(rows[place].clone());
        k = k + 1;
    }
    proof {
        let os = matches_of(out@);
        let ks = byte_rows(keys@);
        assert forall|i: int, j: int| 0 <= i < j < os.len() implies row_before(
            #[trigger] os[i],
            #[trigger] os[j],
            factor,
        ) by {
            let (a, b) = (places@[i] as int, places@[j] as int);
            assert(out@[i]@ == ms[a]);
            assert(out@[j]@ == ms[b]);
            assert(keys@[a]@ == row_key(ms[a], factor));
            assert(keys@[b]@ == row_key(ms[b], factor));
            assert(ranked(ks, a, b));
            assert(ks[a] == row_key(ms[a], factor));
            assert(ks[b] == row_key(ms[b], factor));
        }
        assert forall|m: Row| #[trigger] os.to_set().contains(m) == ms.to_set().contains(m) by {
            if os.contains(m) {
                let i = choose|i: int| 0 <= i < os.len() && os[i] == m;
                assert(out@[i]@ == m);
                assert(ms[places@[i] as int] == m);
            }
            if ms.contains(m) {
                let j = choose|j: int| 0 <= j < ms.len() && ms[j] == m;
                assert(places@.to_set().contains(j as usize));
                let i = choose|i: int| 0 <= i < places@.len() && places@[i] == j as usize;
                assert(out@[i]@ == ms[j]);
                assert(os[i] == m);
            }
        }
        assert(os.to_set() =~= ms.to_set());
    }
    out
}

/// The rows of a query: the matches that the matcher reported, in the order in
/// which they are answered.
pub fn query_btm_rows(reports: &Vec<Report>, wrapped: &[u8]) -> (r: Vec<RawRow>)
    ensures
        r@.len() == captured(reports@).len(),
        matches_of(r@).to_set() == captured(reports@).to_set(),
        in_answer_order(matches_of(r@), first_factor(wrapped@)),
{
    let mut rows: Vec<RawRow> = Vec::new();
    let mut i: usize = 0;
    proof {
        assert(matches_of(rows@) =~= Seq::empty());
        assert(reports@.take(0) =~= Seq::empty());
    }
    while i < reports.len()
        invariant
            i <= reports@.len(),
            in_sequence(matches_of(rows@)),
            matches_of(rows@) == captured(reports@.take(i as int)),
        decreases reports@.len() - i,
    {
        proof {
            assert(reports@.take(i + 1).drop_last() =~= reports@.take(i as int));
            assert(reports@.take(i + 1).last() == reports@[i as int]);
            assert(matches_of(rows@).len() == rows@.len());
        }
        match &reports[i] {
            Report::Unbound => {},
            Report::Bound(entries, fact) => {
                let copy = clone_bindings(entries);
                let fact_copy = match fact {
                    Some(f) => Some(slice_to_vec(f.as_slice())),
                    None => None,
                };
                capture_row(&mut rows, copy, fact_copy);
            },
        }
        i = i + 1;
    }
    proof {
        assert(reports@.take(reports@.len() as int) =~= reports@);
        assert(matches_of(rows@).len() == rows@.len());
    }
    if rows.len() > 1 {
        order_rows(&rows, wrapped)
    } else {
        rows
    }
}

/// What a match adds to an answer: that two variables are equal, or that a
/// variable has a value.
#[derive(Debug)]
pub enum BindOp {
    Equate(VariableAtom, VariableAtom),
    Bind(VariableAtom, Atom),
}

/// The model of what a match adds.
pub enum Op {
    Equate(Variable, Variable),
    Bind(Variable, Term),
}

impl View for BindOp {
    type V = Op;

    open spec fn view(&self) -> Op {
        match self {
            BindOp::Equate(a, b) => Op::Equate(a@, b@),
            BindOp::Bind(v, a) => Op::Bind(v@, a@),
        }
    }
}

/// A variable bound to a variable is an equality, so that equal results
/// collapse; anything else is a value.
pub open spec fn bound(var: Variable, t: Term) -> Op {
    match t {
        Term::Variable(v) => Op::Equate(var, v),
        _ => Op::Bind(var, t),
    }
}

/// Adds a binding: an equality where the value is a variable.
pub fn bind_or_equate(var: VariableAtom, atom: Atom) -> (op: BindOp)
    ensures
        op@ == bound(var@, atom@),
{
    match atom {
        Atom::Variable(v) => BindOp::Equate(var, v),
        _ => BindOp::Bind(var, atom),
    }
}

/// The models of what a match adds.
pub open spec fn ops_of(v: Seq<BindOp>) -> Seq<Op> {
    Seq::new(v.len(), |i: int| v[i]@)
}

/// What bytes are decoded as, read from the start with `n` variables introduced.
pub open spec fn decoded(b: Seq<u8>, r: Reader, n: nat) -> Option<Term> {
    match parse_at(b, 0) {
        Some((tree, _)) => match raise(tree, r, n) {
            Some((t, _)) => Some(t),
            None => None,
        },
        None => None,
    }
}

/// What a query's matches are read with: its variables, the registry, and the
/// spans of its evaluated expressions.
pub struct Reading {
    pub vars: Seq<Variable>,
    pub reg: Registry,
    pub spans: Seq<Seq<u8>>,
}

impl Reading {
    /// How the bytes of a namespace are read for one result.
    pub open spec fn reader(self, ns: u8, id: usize) -> Reader {
        Reader {
            ns,
            grounded: Some(self.reg),
            query_vars: self.vars,
            evaluated: if ns == 0 {
                Some(self.spans)
            } else {
                None
            },
            result_id: id,
        }
    }

    /// The variable that a binding is about; none for a number that the query
    /// does not have.
    pub open spec fn key(self, b: Binding, id: usize) -> Option<Variable> {
        if b.key_ns != 0 {
            Some(Variable { name: namespaced(b.key_ns, b.key_idx as nat), id })
        } else if b.key_idx < self.vars.len() {
            Some(self.vars[b.key_idx as int])
        } else {
            None
        }
    }

    /// What a binding adds; nothing when it cannot be read.
    pub open spec fn op(self, b: Binding, id: usize) -> Option<Op> {
        match (decoded(b.span, self.reader(b.env_n, id), b.env_v as nat), self.key(b, id)) {
            (Some(t), Some(v)) => Some(bound(v, t)),
            _ => None,
        }
    }

    /// What the bindings of a match add, in their order.
    pub open spec fn ops(self, bs: Seq<Binding>, id: usize) -> Seq<Op>
        decreases bs.len(),
    {
        if bs.len() == 0 {
            Seq::empty()
        } else {
            let front = self.ops(bs.drop_last(), id);
            match self.op(bs.last(), id) {
                Some(op) => front.push(op),
                None => front,
            }
        }
    }
}

/// A binding is about a variable outside the query, or its value holds one.
pub open spec fn leaks(b: Binding) -> bool {
    b.key_ns != 0 || !ground_span(b.span)
}

/// What is to be done with a match.
pub enum Plan {
    /// Match the decoded fact against the query itself, then narrow the result
    /// to the query's variables.
    Rematch(Term),
    /// Add the bindings one by one to an empty answer; narrow the result to the
    /// query's variables where it says so.
    Fold(Seq<Op>, bool),
}

impl Reading {
    /// The plan of a match. A fact with variables of its own is matched anew,
    /// when the query is a single pattern and the fact can be read; every other
    /// match replays its bindings.
    pub open spec fn plan(
        self,
        entries: Seq<Binding>,
        fact: Option<Seq<u8>>,
        single: bool,
        id: usize,
    ) -> Plan {
        if single && (fact matches Some(f) && !ground_span(f)) && decoded(
            fact->0,
            self.reader(1, id),
            0,
        ) is Some {
            Plan::Rematch(decoded(fact->0, self.reader(1, id), 0)->0)
        } else {
            Plan::Fold(
                self.ops(entries, id),
                exists|i: int| 0 <= i < entries.len() && leaks(#[trigger] entries[i]),
            )
        }
    }
}

/// What is to be done with a match.
#[derive(Debug)]
pub enum RowPlan {
    Rematch(Atom),
    Fold(Vec<BindOp>, bool),
}

impl View for RowPlan {
    type V = Plan;

    open spec fn view(&self) -> Plan {
        match self {
            RowPlan::Rematch(a) => Plan::Rematch(a@),
            RowPlan::Fold(ops, narrow) => Plan::Fold(ops_of(ops@), *narrow),
        }
    }
}

/// Spans leave room for the numbers of the variables that they introduce.
pub open spec fn entries_fit(bs: Seq<Binding>) -> bool {
    forall|i: int| 0 <= i < bs.len() ==> (#[trigger] bs[i]).span.len() + 255 <= usize::MAX
}

/// Decodes one binding.
fn plan_binding(
    b: &RawBinding,
    vars: &Vec<VariableAtom>,
    reg: &GroundedRegistry,
    evaluated: &EvaluatedSpans,
    id: usize,
) -> (r: Option<BindOp>)
    requires
        reg.wf(),
        b.span@.len() + 255 <= usize::MAX,
    ensures
        match (Reading { vars: variables(vars@), reg: reg@, spans: evaluated@ }).op(b@, id) {
            Some(op) => r is Some && r->0@ == op,
            None => r is None,
        },
{
    let mut pos: usize = 0;
    let mut ctx = DecodeCtx {
        ns: b.env_n,
        var_counter: b.env_v as usize,
        grounded: Some(reg),
        query_vars: vars.as_slice(),
        evaluated: if b.env_n == 0 {
            Some(evaluated)
        } else {
            None
        },
        result_id: id,
    };
    let atom = match decode_atom(b.span.as_slice(), &mut pos, &mut ctx) {
        Some(atom) => atom,
        None => {
            return None;
        },
    };
    let var = if b.key_ns == 0 {
        if (b.key_idx as usize) < vars.len() {
            vars[b.key_idx as usize].clone()
        } else {
            return None;
        }
    } else {
        namespaced_var(b.key_ns, b.key_idx as usize, id)
    };
    Some(bind_or_equate(var, atom))
}

/// Plans one match from its bindings and its fact.
fn plan_match(
    entries: &Vec<RawBinding>,
    fact: &Option<Vec<u8>>,
    vars: &Vec<VariableAtom>,
    reg: &GroundedRegistry,
    evaluated: &EvaluatedSpans,
    single: bool,
    id: usize,
) -> (r: RowPlan)
    requires
        reg.wf(),
        entries_fit(bindings(entries@)),
    ensures
        r@ == (Reading { vars: variables(vars@), reg: reg@, spans: evaluated@ }).plan(
            bindings(entries@),
            fact_of(*fact),
            single,
            id,
        ),
{
    let ghost reading = Reading { vars: variables(vars@), reg: reg@, spans: evaluated@ };
    if single {
        if let Some(fact) = fact {
            if !span_is_ground(fact.as_slice()) {
                assert(fact.len() == fact@.len());
                let mut pos: usize = 0;
                let mut ctx = DecodeCtx {
                    ns: 1,
                    var_counter: 0,
                    grounded: Some(reg),
                    query_vars: vars.as_slice(),
                    evaluated: None,
                    result_id: id,
                };
                if let Some(atom) = decode_atom(fact.as_slice(), &mut pos, &mut ctx) {
                    return RowPlan::Rematch(atom);
                }
            }
        }
    }
    let ghost bs = bindings(entries@);
    let mut ops: Vec<BindOp> = Vec::new();
    let mut narrow = false;
    let mut i: usize = 0;
    proof {
        assert(ops_of(ops@) =~= Seq::empty());
    }
    while i < entries.len()
        invariant
            i <= entries@.len(),
            reg.wf(),
            entries_fit(bs),
            bs == bindings(entries@),
            reading == (Reading { vars: variables(vars@), reg: reg@, spans: evaluated@ }),
            ops_of(ops@) == reading.ops(bs.take(i as int), id),
            narrow == exists|j: int| 0 <= j < i && leaks(#[trigger] bs[j]),
        decreases entries@.len() - i,
    {
        let ghost before = ops@;
        proof {
            assert(bs[i as int] == entries@[i as int]@);
            assert(bs[i as int].span.len() + 255 <= usize::MAX);
            assert(bs.take(i + 1).drop_last() =~= bs.take(i as int));
            assert(bs.take(i + 1).last() == bs[i as int]);
        }
        let b = &entries[i];
        match plan_binding(b, vars, reg, evaluated, id) {
            Some(op) => {
                ops.push(op);
                proof {
                    assert(ops_of(ops@) =~= ops_of(before).push(op@));
                }
            },
            None => {},
        }
        if b.key_ns != 0 || !span_is_ground(b.span.as_slice()) {
            narrow = true;
            assert(leaks(bs[i as int]));
        }
        i = i + 1;
    }
    proof {
        assert(bs.take(bs.len() as int) =~= bs);
    }
    RowPlan::Fold(ops, narrow)
}

/// Plans one match. `single` says that the query is a single pattern; `id` is
/// fresh for every match, so that no two results share a variable.
pub fn plan_row(
    row: &RawRow,
    vars: &Vec<VariableAtom>,
    reg: &GroundedRegistry,
    evaluated: &EvaluatedSpans,
    single: bool,
    id: usize,
) -> (r: RowPlan)
    requires
        reg.wf(),
        entries_fit(row@.entries),
    ensures
        r@ == (Reading { vars: variables(vars@), reg: reg@, spans: evaluated@ }).plan(
            row@.entries,
            row@.fact,
            single,
            id,
        ),
{
    plan_match(&row.entries, &row.fact, vars, reg, evaluated, single, id)
}

/// Plans the rows of a query, one after the other. `ids` holds a fresh variable
/// id for each row, so that no two results share a variable.
pub fn rows_to_bindings(
    rows: &Vec<RawRow>,
    vars: &Vec<VariableAtom>,
    reg: &GroundedRegistry,
    evaluated: &EvaluatedSpans,
    single: bool,
    ids: &[usize],
) -> (r: Vec<RowPlan>)
    requires
        reg.wf(),
        rows@.len() <= ids@.len(),
        forall|i: int| 0 <= i < rows@.len() ==> entries_fit((#[trigger] matches_of(rows@)[i]).entries),
    ensures
        r@.len() == rows@.len(),
        forall|i: int|
            0 <= i < r@.len() ==> (#[trigger] r@[i])@ == (Reading {
                vars: variables(vars@),
                reg: reg@,
                spans: evaluated@,
            }).plan(rows@[i]@.entries, rows@[i]@.fact, single, ids@[i]),
{
    let mut out: Vec<RowPlan> = Vec::new();
    let mut i: usize = 0;
    while i < rows.len()
        invariant
            i <= rows@.len(),
            rows@.len() <= ids@.len(),
            reg.wf(),
            forall|i: int| 0 <= i < rows@.len() ==> entries_fit((#[trigger] matches_of(rows@)[i]).entries),
            out@.len() == i,
            forall|j: int|
                0 <= j < i ==> (#[trigger] out@[j])@ == (Reading {
                    vars: variables(vars@),
                    reg: reg@,
                    spans: evaluated@,
                }).plan(rows@[j]@.entries, rows@[j]@.fact, single, ids@[j]),
        decreases rows@.len() - i,
    {
        assert(entries_fit(matches_of(rows@)[i as int].entries));
        out.push(plan_row(&rows[i], vars, reg, evaluated, single, ids[i]));
        i = i + 1;
    }
    out
}

/// The plan of a match that is visited as it is reported: as among the rows of a
/// query, but always narrowed.
pub open spec fn visiting(p: Plan) -> Plan {
    match p {
        Plan::Rematch(t) => Plan::Rematch(t),
        Plan::Fold(ops, _) => Plan::Fold(ops, true),
    }
}

/// The spans of a report leave room for the numbers of the variables that they
/// introduce.
pub open spec fn report_fits(report: Report) -> bool {
    report matches Report::Bound(entries, _) ==> entries_fit(bindings(entries@))
}

/// The plan of a report that is visited as it comes; none for a report without
/// bindings, behind which the visit goes on.
pub open spec fn report_plan(reading: Reading, report: Report, single: bool, id: usize) -> Option<
    Plan,
> {
    match report {
        Report::Unbound => None,
        Report::Bound(entries, fact) => Some(
            visiting(reading.plan(bindings(entries@), fact_of(fact), single, id)),
        ),
    }
}

/// Plans one report that is visited as it comes.
pub fn plan_visit(
    report: &Report,
    vars: &Vec<VariableAtom>,
    reg: &GroundedRegistry,
    evaluated: &EvaluatedSpans,
    single: bool,
    id: usize,
) -> (r: Option<RowPlan>)
    requires
        reg.wf(),
        report_fits(*report),
    ensures
        match report_plan(
            Reading { vars: variables(vars@), reg: reg@, spans: evaluated@ },
            *report,
            single,
            id,
        ) {
            Some(plan) => r is Some && r->0@ == plan,
            None => r is None,
        },
{
    match report {
        Report::Unbound => None,
        Report::Bound(entries, fact) => {
            let plan = plan_match(entries, fact, vars, reg, evaluated, single, id);
            Some(
                match plan {
                    RowPlan::Rematch(a) => RowPlan::Rematch(a),
                    RowPlan::Fold(ops, _) => RowPlan::Fold(ops, true),
                },
            )
        },
    }
}

/// The plans of some reports that are visited as they come, in their order.
pub open spec fn visited_plans(
    reading: Reading,
    reports: Seq<Report>,
    single: bool,
    id: usize,
) -> Seq<Plan>
    decreases reports.len(),
{
    if reports.len() == 0 {
        Seq::empty()
    } else {
        let front = visited_plans(reading, reports.drop_last(), single, id);
        match report_plan(reading, reports.last(), single, id) {
            Some(plan) => front.push(plan),
            None => front,
        }
    }
}

/// A visit plans exactly the matches that the rows of a query hold: each match is
/// planned as among the rows, but always narrowed.
pub proof fn visits_plan_what_queries_plan(
    reading: Reading,
    reports: Seq<Report>,
    single: bool,
    id: usize,
)
    ensures
        visited_plans(reading, reports, single, id) == Seq::new(
            captured(reports).len(),
            |k: int|
                visiting(
                    reading.plan(captured(reports)[k].entries, captured(reports)[k].fact, single, id),
                ),
        ),
    decreases reports.len(),
{
    if reports.len() > 0 {
        visits_plan_what_queries_plan(reading, reports.drop_last(), single, id);
    }
    assert(visited_plans(reading, reports, single, id) =~= Seq::new(
        captured(reports).len(),
        |k: int|
            visiting(
                reading.plan(captured(reports)[k].entries, captured(reports)[k].fact, single, id),
            ),
    ));
}

/// A variable's number is not that of a wildcard.
pub open spec fn visible(refs: Seq<(usize, Term)>, i: int) -> bool {
    forall|j: int| 0 <= j < refs.len() ==> #[trigger] refs[j].0 != i
}

/// The variables that an answer is narrowed to: those of the query, without the
/// wildcards.
pub open spec fn result_vars(vars: Seq<Variable>, refs: Seq<(usize, Term)>) -> Seq<Variable>
    decreases vars.len(),
{
    if vars.len() == 0 {
        Seq::empty()
    } else {
        let front = result_vars(vars.drop_last(), refs);
        if visible(refs, vars.len() - 1) {
            front.push(vars.last())
        } else {
            front
        }
    }
}

/// The variables that an answer is narrowed to.
pub fn result_var_set(vars: &Vec<VariableAtom>, refs: &Vec<(usize, Atom)>) -> (r: Vec<VariableAtom>)
    ensures
        variables(r@) == result_vars(variables(vars@), ref_terms(refs@)),
{
    let ghost vs = variables(vars@);
    let ghost rs = ref_terms(refs@);
    let mut out: Vec<VariableAtom> = Vec::new();
    let mut i: usize = 0;
    proof {
        assert(variables(out@) =~= Seq::empty());
    }
    while i < vars.len()
        invariant
            i <= vars@.len(),
            vs == variables(vars@),
            rs == ref_terms(refs@),
            variables(out@) == result_vars(vs.take(i as int), rs),
        decreases vars@.len() - i,
    {
        let mut hidden = false;
        let mut j: usize = 0;
        while j < refs.len()
            invariant
                j <= refs@.len(),
                rs == ref_terms(refs@),
                hidden == exists|k: int| 0 <= k < j && (#[trigger] rs[k]).0 == i,
            decreases refs@.len() - j,
        {
            assert(rs[j as int].0 == refs@[j as int].0);
            if refs[j].0 == i {
                hidden = true;
            }
            j = j + 1;
        }
        let ghost before = out@;
        proof {
            assert(vs.take(i + 1).drop_last() =~= vs.take(i as int));
            assert(visible(rs, i as int) == !hidden);
        }
        if !hidden {
            out.push(vars[i].clone());
            proof {
                assert(variables(out@) =~= variables(before).push(vs[i as int]));
            }
        }
        i = i + 1;
    }
    proof {
        assert(vs.take(vs.len() as int) =~= vs);
    }
    out
}

/// The variables whose captured atoms are compared with the live values, one per
/// wildcard; none where the number is not a variable's.
pub fn live_probes(refs: &Vec<(usize, Atom)>, vars: &Vec<VariableAtom>) -> (r: Vec<
    Option<VariableAtom>,
>)
    ensures
        r@.len() == refs@.len(),
        forall|i: int|
            0 <= i < r@.len() ==> match #[trigger] r@[i] {
                Some(v) => refs@[i].0 < vars@.len() && v@ == vars@[refs@[i].0 as int]@,
                None => refs@[i].0 >= vars@.len(),
            },
{
    let mut out: Vec<Option<VariableAtom>> = Vec::new();
    let mut i: usize = 0;
    while i < refs.len()
        invariant
            i <= refs@.len(),
            out@.len() == i,
            forall|j: int|
                0 <= j < i ==> match #[trigger] out@[j] {
                    Some(v) => refs@[j].0 < vars@.len() && v@ == vars@[refs@[j].0 as int]@,
                    None => refs@[j].0 >= vars@.len(),
                },
        decreases refs@.len() - i,
    {
        let index: usize = refs[i].0;
        if index < vars.len() {
            out.push(Some(vars[index].clone()));
        } else {
            out.push(None);
        }
        i = i + 1;
    }
    out
}

/// Every wildcard captured an atom that now equals the live value which it
/// stands for.
pub open spec fn lives(verdicts: Seq<bool>) -> bool {
    forall|i: int| 0 <= i < verdicts.len() ==> verdicts[i]
}

/// The places of the answers whose wildcards all hold, in their order.
pub open spec fn live_places(verdicts: Seq<Vec<bool>>) -> Seq<usize>
    decreases verdicts.len(),
{
    if verdicts.len() == 0 {
        Seq::empty()
    } else {
        let front = live_places(verdicts.drop_last());
        if lives(verdicts.last()@) {
            front.push((verdicts.len() - 1) as usize)
        } else {
            front
        }
    }
}

/// Whether an answer stands. There is one verdict per wildcard.
fn passes_live_refs(verdicts: &Vec<bool>) -> (r: bool)
    ensures
        r == lives(verdicts@),
{
    let mut i: usize = 0;
    while i < verdicts.len()
        invariant
            i <= verdicts@.len(),
            forall|j: int| 0 <= j < i ==> verdicts@[j],
        decreases verdicts@.len() - i,
    {
        if !verdicts[i] {
            return false;
        }
        i = i + 1;
    }
    true
}

/// The live-value filter: which answers stand, given for each answer the verdict
/// on each wildcard. A verdict says that the captured atom equals the query's
/// value as it is now. Without wildcards every answer stands.
pub fn apply_live_refs(verdicts: &Vec<Vec<bool>>) -> (r: Vec<usize>)
    ensures
        r@ == live_places(verdicts@),
        forall|k: usize| #[trigger]
            r@.contains(k) <==> k < verdicts@.len() && forall|i: int|
                0 <= i < verdicts@[k as int]@.len() ==> #[trigger] verdicts@[k as int]@[i],
        forall|a: int, b: int| 0 <= a < b < r@.len() ==> #[trigger] r@[a] < #[trigger] r@[b],
{
    let mut out: Vec<usize> = Vec::new();
    let mut i: usize = 0;
    proof {
        assert(verdicts@.take(0) =~= Seq::empty());
    }
    while i < verdicts.len()
        invariant
            i <= verdicts@.len(),
            out@ == live_places(verdicts@.take(i as int)),
        decreases verdicts@.len() - i,
    {
        proof {
            assert(verdicts@.take(i + 1).drop_last() =~= verdicts@.take(i as int));
            assert(verdicts@.take(i + 1).last() == verdicts@[i as int]);
        }
        if passes_live_refs(&verdicts[i]) {
            out.push(i);
        }
        i = i + 1;
    }
    proof {
        assert(verdicts@.take(verdicts@.len() as int) =~= verdicts@);
        assert(verdicts.len() == verdicts@.len());
        kept_answers_are_those_that_live(verdicts@);
    }
    out
}

/// What happens in a visit.
#[derive(Clone, Copy, Debug, PartialEq, Eq, Structural)]
pub enum VisitEvent {
    /// The matcher reported a match without bindings.
    Unbound,
    /// The matcher reported a match with bindings.
    Matched,
    /// The visitor was handed one result of the match, and asked for more or not.
    Reply(bool),
    /// The match has no further result.
    Settled,
}

/// Where a visit stands.
#[derive(Clone, Copy, Debug, PartialEq, Eq, Structural)]
pub enum VisitPhase {
    /// Between two reports.
    Idle,
    /// In a match that gave no result so far.
    Fresh,
    /// In a match that gave results.
    Given,
    /// The visitor asked to stop.
    Stopped,
}

/// The counts of a visit: reports of the matcher, results given to the visitor,
/// and reports with bindings that gave no result.
#[derive(Clone, Copy, Debug, PartialEq, Eq, Structural)]
pub struct VisitTally {
    pub total_callbacks: usize,
    pub sink_calls: usize,
    pub errors: usize,
}

/// A visit: its counts, and where it stands.
#[derive(Clone, Copy, Debug, PartialEq, Eq, Structural)]
pub struct Visit {
    pub tally: VisitTally,
    pub phase: VisitPhase,
}

/// The model of a visit.
pub struct VisitState {
    pub total: nat,
    pub calls: nat,
    pub errors: nat,
    pub phase: VisitPhase,
}

impl View for Visit {
    type V = VisitState;

    open spec fn view(&self) -> VisitState {
        VisitState {
            total: self.tally.total_callbacks as nat,
            calls: self.tally.sink_calls as nat,
            errors: self.tally.errors as nat,
            phase: self.phase,
        }
    }
}

impl VisitState {
    /// Nothing has happened.
    pub open spec fn start() -> VisitState {
        VisitState { total: 0, calls: 0, errors: 0, phase: VisitPhase::Idle }
    }

    /// The event may happen now: a report between two reports, a result or the
    /// end of the results in a match. Once the visitor asked to stop, nothing may.
    pub open spec fn allows(self, e: VisitEvent) -> bool {
        match e {
            VisitEvent::Unbound | VisitEvent::Matched => self.phase is Idle,
            VisitEvent::Reply(_) | VisitEvent::Settled => self.phase is Fresh
                || self.phase is Given,
        }
    }

    /// The visit after an event.
    pub open spec fn after(self, e: VisitEvent) -> VisitState {
        match e {
            VisitEvent::Unbound => VisitState { total: self.total + 1, ..self },
            VisitEvent::Matched => VisitState {
                total: self.total + 1,
                phase: VisitPhase::Fresh,
                ..self
            },
            VisitEvent::Reply(more) => VisitState {
                calls: self.calls + 1,
                phase: if more {
                    VisitPhase::Given
                } else {
                    VisitPhase::Stopped
                },
                ..self
            },
            VisitEvent::Settled => VisitState {
                errors: self.errors + if self.phase is Fresh {
                    1nat
                } else {
                    0
                },
                phase: VisitPhase::Idle,
                ..self
            },
        }
    }

    /// The visit after some events.
    pub open spec fn run(self, events: Seq<VisitEvent>) -> VisitState
        decreases events.len(),
    {
        if events.len() == 0 {
            self
        } else {
            self.run(events.drop_last()).after(events.last())
        }
    }

    /// Each of the events may happen when it does.
    pub open spec fn admits(self, events: Seq<VisitEvent>) -> bool
        decreases events.len(),
    {
        events.len() > 0 ==> self.admits(events.drop_last()) && self.run(
            events.drop_last(),
        ).allows(events.last())
    }
}

/// Takes a visit one event further, and says whether it goes on.
pub fn visit_step(visit: Visit, event: VisitEvent) -> (r: (Visit, bool))
    requires
        visit@.allows(event),
        visit.tally.total_callbacks < usize::MAX,
        visit.tally.sink_calls < usize::MAX,
        visit.tally.errors < usize::MAX,
    ensures
        r.0@ == visit@.after(event),
        r.1 == (event != VisitEvent::Reply(false)),
        r.1 == !(r.0.phase is Stopped),
{
    let mut next = visit;
    match event {
        VisitEvent::Unbound => {
            next.tally.total_callbacks = next.tally.total_callbacks + 1;
        },
        VisitEvent::Matched => {
            next.tally.total_callbacks = next.tally.total_callbacks + 1;
            next.phase = VisitPhase::Fresh;
        },
        VisitEvent::Reply(more) => {
            next.tally.sink_calls = next.tally.sink_calls + 1;
            next.phase = if more {
                VisitPhase::Given
            } else {
                VisitPhase::Stopped
            };
        },
        VisitEvent::Settled => {
            if next.phase == VisitPhase::Fresh {
                next.tally.errors = next.tally.errors + 1;
            }
            next.phase = VisitPhase::Idle;
        },
    }
    let go_on = next.phase != VisitPhase::Stopped;
    (next, go_on)
}

impl Visit {
    /// A visit in which nothing has happened.
    pub fn new() -> (v: Visit)
        ensures
            v@ == VisitState::start(),
    {
        Visit {
            tally: VisitTally { total_callbacks: 0, sink_calls: 0, errors: 0 },
            phase: VisitPhase::Idle,
        }
    }
}

/// Each event moves each count by at most one.
proof fn lemma_counts_bounded(events: Seq<VisitEvent>)
    ensures
        VisitState::start().run(events).total <= events.len(),
        VisitState::start().run(events).calls <= events.len(),
        VisitState::start().run(events).errors <= events.len(),
    decreases events.len(),
{
    if events.len() > 0 {
        lemma_counts_bounded(events.drop_last());
    }
}

/// What may happen as a whole may happen up to any point.
proof fn lemma_admits_prefix(v: VisitState, events: Seq<VisitEvent>, i: int)
    requires
        0 <= i <= events.len(),
        v.admits(events),
    ensures
        v.admits(events.take(i)),
        i < events.len() ==> v.run(events.take(i)).allows(events[i]),
    decreases events.len(),
{
    if i == events.len() {
        assert(events.take(i) =~= events);
    } else if i == events.len() - 1 {
        assert(events.take(i) =~= events.drop_last());
    } else {
        lemma_admits_prefix(v, events.drop_last(), i);
        assert(events.drop_last().take(i) =~= events.take(i));
    }
}

/// Counts what happened in a visit: reports, results handed to the visitor, and
/// reports with bindings that gave no result.
pub fn decode_and_visit(events: &Vec<VisitEvent>) -> (r: VisitTally)
    requires
        VisitState::start().admits(events@),
    ensures
        r.total_callbacks == VisitState::start().run(events@).total,
        r.sink_calls == VisitState::start().run(events@).calls,
        r.errors == VisitState::start().run(events@).errors,
{
    let mut visit = Visit::new();
    let mut i: usize = 0;
    proof {
        assert(events@.take(0) =~= Seq::empty());
        assert(events.len() == events@.len());
    }
    while i < events.len()
        invariant
            i <= events@.len() <= usize::MAX,
            VisitState::start().admits(events@),
            visit@ == VisitState::start().run(events@.take(i as int)),
        decreases events@.len() - i,
    {
        proof {
            lemma_admits_prefix(VisitState::start(), events@, i as int);
            lemma_counts_bounded(events@.take(i as int));
            assert(events@.take(i + 1).drop_last() =~= events@.take(i as int));
            assert(events@.take(i + 1).last() == events@[i as int]);
        }
        let (next, _) = visit_step(visit, events[i]);
        visit = next;
        i = i + 1;
    }
    proof {
        assert(events@.take(events@.len() as int) =~= events@);
    }
    visit.tally
}

/// The visitor is never called again, and no report taken, once it has asked to
/// stop.
pub proof fn nothing_follows_a_stop(events: Seq<VisitEvent>, i: int)
    requires
        VisitState::start().admits(events),
        0 <= i < events.len(),
        events[i] == VisitEvent::Reply(false),
    ensures
        i == events.len() - 1,
        VisitState::start().run(events).phase is Stopped,
{
    let upto = events.take(i + 1);
    assert(upto.last() == events[i]);
    assert(VisitState::start().run(upto).phase is Stopped);
    if i < events.len() - 1 {
        lemma_admits_prefix(VisitState::start(), events, i + 1);
    } else {
        assert(upto =~= events);
    }
}

/// The event is a call of the visitor.
pub open spec fn is_call(e: VisitEvent) -> bool {
    e is Reply
}

/// The event is a report of the matcher.
pub open spec fn is_report(e: VisitEvent) -> bool {
    e is Unbound || e is Matched
}

/// Number of matches that gave no result: nothing stands between their report
/// and their end.
pub open spec fn resultless(events: Seq<VisitEvent>) -> nat
    decreases events.len(),
{
    if events.len() < 2 {
        0
    } else {
        resultless(events.drop_last()) + if events.last() is Settled && events[events.len() - 2]
            is Matched {
            1nat
        } else {
            0
        }
    }
}

/// The counts are exact: every call of the visitor is counted, the one at which
/// it asked to stop among them; every report is counted; and exactly the matches
/// without a result are counted as errors.
pub proof fn visits_count_what_happens(events: Seq<VisitEvent>)
    requires
        VisitState::start().admits(events),
    ensures
        VisitState::start().run(events).calls == events.filter(|e: VisitEvent| is_call(e)).len(),
        VisitState::start().run(events).total == events.filter(|e: VisitEvent| is_report(e)).len(),
        VisitState::start().run(events).errors == resultless(events),
        VisitState::start().run(events).errors <= VisitState::start().run(events).total,
{
    lemma_visit_counts(events);
}

/// The counts, with where the visit stands.
proof fn lemma_visit_counts(events: Seq<VisitEvent>)
    requires
        VisitState::start().admits(events),
    ensures
        VisitState::start().run(events).calls == events.filter(|e: VisitEvent| is_call(e)).len(),
        VisitState::start().run(events).total == events.filter(|e: VisitEvent| is_report(e)).len(),
        VisitState::start().run(events).errors == resultless(events),
        VisitState::start().run(events).phase is Fresh <==> events.len() > 0 && events.last()
            is Matched,
        VisitState::start().run(events).errors + if VisitState::start().run(events).phase is Idle {
            0nat
        } else {
            1
        } <= VisitState::start().run(events).total,
    decreases events.len(),
{
    reveal(Seq::filter);
    if events.len() > 0 {
        let init = events.drop_last();
        lemma_visit_counts(init);
        if events.len() > 1 {
            assert(init.last() == events[events.len() - 2]);
        }
    }
}

/// Every match with bindings gives the visitor a result or counts as one error,
/// never both: what follows its report is a call, or the end that makes it an
/// error.
pub proof fn matches_give_a_result_or_an_error(events: Seq<VisitEvent>, i: int)
    requires
        VisitState::start().admits(events),
        0 <= i < events.len() - 1,
        events[i] is Matched,
    ensures
        events[i + 1] is Reply || events[i + 1] is Settled,
        VisitState::start().run(events.take(i + 2)).errors == VisitState::start().run(
            events.take(i),
        ).errors + if events[i + 1] is Settled {
            1nat
        } else {
            0
        },
        VisitState::start().run(events.take(i + 2)).calls == VisitState::start().run(
            events.take(i),
        ).calls + if events[i + 1] is Reply {
            1nat
        } else {
            0
        },
{
    let (a, b) = (events.take(i + 1), events.take(i + 2));
    lemma_admits_prefix(VisitState::start(), events, i + 1);
    assert(a.last() == events[i]);
    assert(a.drop_last() =~= events.take(i));
    assert(b.last() == events[i + 1]);
    assert(b.drop_last() =~= a);
}

/// What happens when a match gives some results and nobody stops.
pub open spec fn match_events(results: nat) -> Seq<VisitEvent> {
    seq![VisitEvent::Matched] + Seq::new(results, |i: int| VisitEvent::Reply(true)) + seq![
        VisitEvent::Settled,
    ]
}

/// What happens when some reports are visited and nobody stops. `answers` says how
/// many results each match comes to.
pub open spec fn whole_visit(
    reports: Seq<Report>,
    answers: spec_fn(Seq<Binding>, Option<Seq<u8>>) -> nat,
) -> Seq<VisitEvent>
    decreases reports.len(),
{
    if reports.len() == 0 {
        Seq::empty()
    } else {
        whole_visit(reports.drop_last(), answers) + match reports.last() {
            Report::Unbound => seq![VisitEvent::Unbound],
            Report::Bound(entries, fact) => match_events(
                answers(bindings(entries@), fact_of(fact)),
            ),
        }
    }
}

/// Number of results that some rows come to.
pub open spec fn answers_total(
    rows: Seq<Row>,
    answers: spec_fn(Seq<Binding>, Option<Seq<u8>>) -> nat,
) -> nat
    decreases rows.len(),
{
    if rows.len() == 0 {
        0
    } else {
        answers_total(rows.drop_last(), answers) + answers(rows.last().entries, rows.last().fact)
    }
}

/// Events run one row after the other.
proof fn lemma_run_concat(v: VisitState, a: Seq<VisitEvent>, b: Seq<VisitEvent>)
    ensures
        v.run(a + b) == v.run(a).run(b),
        v.admits(a + b) == (v.admits(a) && v.run(a).admits(b)),
    decreases b.len(),
{
    if b.len() == 0 {
        assert(a + b =~= a);
    } else {
        lemma_run_concat(v, a, b.drop_last());
        assert((a + b).drop_last() =~= a + b.drop_last());
        assert((a + b).last() == b.last());
    }
}

/// A row of results moves the calls.
proof fn lemma_run_replies(v: VisitState, n: nat)
    requires
        v.phase is Fresh,
    ensures
        v.admits(Seq::new(n, |i: int| VisitEvent::Reply(true))),
        v.run(Seq::new(n, |i: int| VisitEvent::Reply(true))).calls == v.calls + n,
        v.run(Seq::new(n, |i: int| VisitEvent::Reply(true))).total == v.total,
        v.run(Seq::new(n, |i: int| VisitEvent::Reply(true))).errors == v.errors,
        v.run(Seq::new(n, |i: int| VisitEvent::Reply(true))).phase is Given || (n == 0 && v.run(
            Seq::new(n, |i: int| VisitEvent::Reply(true)),
        ).phase is Fresh),
    decreases n,
{
    if n > 0 {
        let all = Seq::new(n, |i: int| VisitEvent::Reply(true));
        lemma_run_replies(v, (n - 1) as nat);
        assert(all.drop_last() =~= Seq::new((n - 1) as nat, |i: int| VisitEvent::Reply(true)));
        assert(all.last() == VisitEvent::Reply(true));
    }
}

/// A match that gives some results moves the calls by as many.
proof fn lemma_run_match(v: VisitState, n: nat)
    requires
        v.phase is Idle,
    ensures
        v.admits(match_events(n)),
        v.run(match_events(n)).calls == v.calls + n,
        v.run(match_events(n)).phase is Idle,
{
    let head = seq![VisitEvent::Matched];
    let mid = Seq::new(n, |i: int| VisitEvent::Reply(true));
    let tail = seq![VisitEvent::Settled];
    assert(head.drop_last() =~= Seq::empty());
    assert(tail.drop_last() =~= Seq::empty());
    assert(v.run(head.drop_last()) == v);
    let v1 = v.run(head);
    assert(v1 == v.after(VisitEvent::Matched));
    assert(v.admits(head)) by {
        assert(v.admits(head.drop_last()));
    }
    lemma_run_replies(v1, n);
    let v2 = v1.run(mid);
    assert(v2.run(tail.drop_last()) == v2);
    assert(v2.admits(tail)) by {
        assert(v2.admits(tail.drop_last()));
    }
    lemma_run_concat(v, head, mid);
    lemma_run_concat(v, head + mid, tail);
}

/// A whole visit makes as many calls as its matches give results.
proof fn lemma_whole_visit(
    reports: Seq<Report>,
    answers: spec_fn(Seq<Binding>, Option<Seq<u8>>) -> nat,
)
    ensures
        VisitState::start().admits(whole_visit(reports, answers)),
        VisitState::start().run(whole_visit(reports, answers)).phase is Idle,
        VisitState::start().run(whole_visit(reports, answers)).calls == answers_total(
            captured(reports),
            answers,
        ),
    decreases reports.len(),
{
    if reports.len() > 0 {
        let init = reports.drop_last();
        lemma_whole_visit(init, answers);
        let front = whole_visit(init, answers);
        let v = VisitState::start().run(front);
        match reports.last() {
            Report::Unbound => {
                let one = seq![VisitEvent::Unbound];
                assert(one.drop_last() =~= Seq::empty());
                assert(v.run(one.drop_last()) == v);
                assert(v.admits(one)) by {
                    assert(v.admits(one.drop_last()));
                }
                lemma_run_concat(VisitState::start(), front, one);
            },
            Report::Bound(entries, fact) => {
                let n = answers(bindings(entries@), fact_of(fact));
                lemma_run_match(v, n);
                lemma_run_concat(VisitState::start(), front, match_events(n));
                assert(captured(reports).drop_last() =~= captured(init));
            },
        }
    }
}

/// Taking one row out takes its results out.
proof fn lemma_total_remove(
    rows: Seq<Row>,
    i: int,
    answers: spec_fn(Seq<Binding>, Option<Seq<u8>>) -> nat,
)
    requires
        0 <= i < rows.len(),
    ensures
        answers_total(rows, answers) == answers_total(rows.remove(i), answers) + answers(
            rows[i].entries,
            rows[i].fact,
        ),
    decreases rows.len(),
{
    if i == rows.len() - 1 {
        assert(rows.remove(i) =~= rows.drop_last());
    } else {
        lemma_total_remove(rows.drop_last(), i, answers);
        assert(rows.remove(i).drop_last() =~= rows.drop_last().remove(i));
        assert(rows.remove(i).last() == rows.last());
    }
}

/// The same rows come to the same number of results in any order.
proof fn lemma_total_any_order(
    a: Seq<Row>,
    b: Seq<Row>,
    answers: spec_fn(Seq<Binding>, Option<Seq<u8>>) -> nat,
)
    requires
        a.no_duplicates(),
        b.no_duplicates(),
        a.to_set() == b.to_set(),
    ensures
        answers_total(a, answers) == answers_total(b, answers),
    decreases a.len(),
{
    if a.len() == 0 {
        if b.len() > 0 {
            assert(b.to_set().contains(b[0]));
            assert(a.contains(b[0]));
        }
    } else {
        let x = a.last();
        assert(a[a.len() - 1] == x);
        assert(a.to_set().contains(x));
        assert(b.contains(x));
        let i = choose|i: int| 0 <= i < b.len() && b[i] == x;
        lemma_total_remove(b, i, answers);
        let (a1, b1) = (a.drop_last(), b.remove(i));
        assert forall|y: Row| #[trigger] a1.to_set().contains(y) == b1.to_set().contains(y) by {
            if a1.contains(y) {
                let k = choose|k: int| 0 <= k < a1.len() && a1[k] == y;
                assert(a[k] == y);
                assert(a.to_set().contains(y));
                assert(b.contains(y));
                let l = choose|l: int| 0 <= l < b.len() && b[l] == y;
                assert(l != i);
                assert(b1[if l < i {
                    l
                } else {
                    l - 1
                }] == y);
            }
            if b1.contains(y) {
                let k = choose|k: int| 0 <= k < b1.len() && b1[k] == y;
                let l = if k < i {
                    k
                } else {
                    k + 1
                };
                assert(b[l] == y);
                assert(b.to_set().contains(y));
                assert(a.contains(y));
                let m = choose|m: int| 0 <= m < a.len() && a[m] == y;
                assert(m != a.len() - 1);
                assert(a1[m] == y);
            }
        }
        assert(a1.to_set() =~= b1.to_set());
        assert forall|k: int, l: int| 0 <= k < b1.len() && 0 <= l < b1.len() && k != l implies b1[k]
            != b1[l] by {
            assert(b1[k] == b[if k < i {
                k
            } else {
                k + 1
            }]);
            assert(b1[l] == b[if l < i {
                l
            } else {
                l + 1
            }]);
        }
        lemma_total_any_order(a1, b1, answers);
    }
}

/// A visit that nobody stops hands over as many results as the query's rows come
/// to, however many results each match comes to.
pub proof fn whole_visits_count_the_answers(
    reports: Seq<Report>,
    rows: Seq<Row>,
    factor: Seq<u8>,
    answers: spec_fn(Seq<Binding>, Option<Seq<u8>>) -> nat,
)
    requires
        rows.len() == captured(reports).len(),
        rows.to_set() == captured(reports).to_set(),
        in_answer_order(rows, factor),
    ensures
        VisitState::start().admits(whole_visit(reports, answers)),
        VisitState::start().run(whole_visit(reports, answers)).calls == answers_total(
            rows,
            answers,
        ),
{
    lemma_whole_visit(reports, answers);
    let caps = captured(reports);
    assert forall|i: int, j: int|
        0 <= i < rows.len() && 0 <= j < rows.len() && i != j implies rows[i] != rows[j] by {
        lemma_path_lt_irreflexive(row_key(rows[i], factor));
        if i < j {
            assert(row_before(rows[i], rows[j], factor));
        } else {
            assert(row_before(rows[j], rows[i], factor));
        }
    }
    rows.unique_seq_to_set();
    caps.lemma_no_dup_set_cardinality();
    lemma_total_any_order(rows, caps, answers);
}

/// Every binding of a match adds what it says, whichever factor its value comes
/// from: where the span is an atom that can be read and the binding is about a data
/// variable or about one of the query's variables, the operations hold one for it,
/// behind those of the bindings before it; it equates the variable with a variable
/// and binds it to anything else. Nothing else is added.
pub proof fn every_binding_adds_one_operation(
    reading: Reading,
    bs: Seq<Binding>,
    id: usize,
    k: int,
)
    requires
        0 <= k < bs.len(),
    ensures
        ({
            let b = bs[k];
            let reader = Reader {
                ns: b.env_n,
                grounded: Some(reading.reg),
                query_vars: reading.vars,
                evaluated: if b.env_n == 0 {
                    Some(reading.spans)
                } else {
                    None
                },
                result_id: id,
            };
            let readable = parse_at(b.span, 0) is Some && raise(
                parse_at(b.span, 0).unwrap().0,
                reader,
                b.env_v as nat,
            ) is Some && (b.key_ns != 0 || b.key_idx < reading.vars.len());
            let value = raise(parse_at(b.span, 0).unwrap().0, reader, b.env_v as nat).unwrap().0;
            let var = if b.key_ns == 0 {
                reading.vars[b.key_idx as int]
            } else {
                Variable { name: namespaced(b.key_ns, b.key_idx as nat), id }
            };
            let before = reading.ops(bs.take(k), id).len() as int;
            &&& before <= reading.ops(bs, id).len()
            &&& reading.ops(bs, id).take(before) == reading.ops(bs.take(k), id)
            &&& reading.ops(bs.take(k + 1), id).len() == before + if readable {
                1int
            } else {
                0
            }
            &&& readable ==> {
                &&& before < reading.ops(bs, id).len()
                &&& reading.ops(bs, id)[before] == match value {
                    Term::Variable(w) => Op::Equate(var, w),
                    _ => Op::Bind(var, value),
                }
            }
        }),
        reading.ops(bs.take(0), id).len() == 0,
        bs.take(bs.len() as int) == bs,
    decreases bs.len(),
{
    let init = bs.drop_last();
    let all = reading.ops(bs, id);
    let front = reading.ops(init, id);
    assert(bs.take(0) =~= Seq::empty());
    assert(bs.take(bs.len() as int) =~= bs);
    if k == bs.len() - 1 {
        assert(bs.take(k) =~= init);
        assert(bs.take(k + 1) =~= bs);
        assert(all.take(front.len() as int) =~= front);
    } else {
        every_binding_adds_one_operation(reading, init, id, k);
        assert(init.take(k) =~= bs.take(k));
        assert(init.take(k + 1) =~= bs.take(k + 1));
        assert(init[k] == bs[k]);
        assert(all.take(front.len() as int) =~= front);
        let before = reading.ops(bs.take(k), id).len() as int;
        assert(all.take(before) =~= front.take(before));
    }
}

/// Where every binding can be read, a match adds as many operations as it has
/// bindings, for any number of factors.
pub proof fn readable_rows_bind_every_entry(reading: Reading, bs: Seq<Binding>, id: usize)
    requires
        forall|k: int|
            0 <= k < bs.len() ==> {
                let b = #[trigger] bs[k];
                &&& parse_at(b.span, 0) is Some
                &&& raise(
                    parse_at(b.span, 0).unwrap().0,
                    Reader {
                        ns: b.env_n,
                        grounded: Some(reading.reg),
                        query_vars: reading.vars,
                        evaluated: if b.env_n == 0 {
                            Some(reading.spans)
                        } else {
                            None
                        },
                        result_id: id,
                    },
                    b.env_v as nat,
                ) is Some
                &&& b.key_ns != 0 || b.key_idx < reading.vars.len()
            },
    ensures
        reading.ops(bs, id).len() == bs.len(),
        forall|k: int|
            0 <= k < bs.len() && (#[trigger] bs[k]).key_ns == 0 ==> match reading.ops(bs, id)[k] {
                Op::Equate(v, _) => v == reading.vars[bs[k].key_idx as int],
                Op::Bind(v, _) => v == reading.vars[bs[k].key_idx as int],
            },
    decreases bs.len(),
{
    if bs.len() > 0 {
        let init = bs.drop_last();
        assert forall|k: int| 0 <= k < init.len() implies #[trigger] init[k] == bs[k] by {}
        readable_rows_bind_every_entry(reading, init, id);
        let n = bs.len() - 1;
        every_binding_adds_one_operation(reading, bs, id, n);
        assert(bs.take(n) =~= init);
        assert(bs.take(n + 1) =~= bs);
        let (all, front) = (reading.ops(bs, id), reading.ops(init, id));
        assert forall|k: int| 0 <= k < bs.len() && (#[trigger] bs[k]).key_ns == 0 implies match all[k] {
            Op::Equate(v, _) => v == reading.vars[bs[k].key_idx as int],
            Op::Bind(v, _) => v == reading.vars[bs[k].key_idx as int],
        } by {
            if k < n {
                assert(all.take(n)[k] == front[k]);
                assert(init[k] == bs[k]);
            }
        }
    }
}

/// A match is matched anew exactly when the query is a single pattern and the
/// matched fact is an atom with a variable that can be read; it is then the whole
/// fact that is matched. Every other match replays its bindings, and its result is
/// narrowed exactly when some binding is about a variable outside the query or its
/// value is no atom without variables.
pub proof fn facts_with_variables_are_matched_anew(
    reading: Reading,
    entries: Seq<Binding>,
    fact: Option<Seq<u8>>,
    single: bool,
    id: usize,
)
    ensures
        ({
            let reader = Reader {
                ns: 1,
                grounded: Some(reading.reg),
                query_vars: reading.vars,
                evaluated: None,
                result_id: id,
            };
            let tree = parse_at(fact->0, 0).unwrap().0;
            let anew = single && fact is Some && parse_at(fact->0, 0) is Some && !tree.ground()
                && raise(tree, reader, 0) is Some;
            match reading.plan(entries, fact, single, id) {
                Plan::Rematch(t) => anew && t == raise(tree, reader, 0).unwrap().0,
                Plan::Fold(ops, narrow) => {
                    &&& !anew
                    &&& ops == reading.ops(entries, id)
                    &&& narrow <==> exists|i: int|
                        0 <= i < entries.len() && !((#[trigger] entries[i]).key_ns == 0 && parse_at(
                            entries[i].span,
                            0,
                        ) is Some && parse_at(entries[i].span, 0).unwrap().0.ground())
                },
            }
        }),
{
    let narrow = exists|i: int| 0 <= i < entries.len() && leaks(#[trigger] entries[i]);
    if narrow {
        let i = choose|i: int| 0 <= i < entries.len() && leaks(#[trigger] entries[i]);
        assert(entries[i] == entries[i]);
    }
    if exists|i: int|
        0 <= i < entries.len() && !((#[trigger] entries[i]).key_ns == 0 && parse_at(
            entries[i].span,
            0,
        ) is Some && parse_at(entries[i].span, 0).unwrap().0.ground()) {
        let i = choose|i: int|
            0 <= i < entries.len() && !((#[trigger] entries[i]).key_ns == 0 && parse_at(
                entries[i].span,
                0,
            ) is Some && parse_at(entries[i].span, 0).unwrap().0.ground());
        assert(leaks(entries[i]));
    }
}

/// The captured rows are the reports with bindings: each of them has a row with
/// its bindings and its fact, there are no other rows, and the rows are numbered in
/// the order of the reports.
pub proof fn captured_rows_are_the_bound_reports(reports: Seq<Report>)
    requires
        reports.len() <= usize::MAX,
    ensures
        captured(reports).len() == reports.filter(|r: Report| r is Bound).len(),
        forall|j: int|
            0 <= j < captured(reports).len() ==> (#[trigger] captured(reports)[j]).sequence == j,
        forall|i: int|
            0 <= i < reports.len() && (#[trigger] reports[i]) is Bound ==> {
                let j = reports.take(i).filter(|r: Report| r is Bound).len() as int;
                &&& j < captured(reports).len()
                &&& captured(reports)[j].entries == bindings(reports[i]->Bound_0@)
                &&& captured(reports)[j].fact == match reports[i]->Bound_1 {
                    Some(f) => Some(f@),
                    None => None,
                }
            },
    decreases reports.len(),
{
    reveal(Seq::filter);
    let keep = |r: Report| r is Bound;
    if reports.len() > 0 {
        let init = reports.drop_last();
        captured_rows_are_the_bound_reports(init);
        let n = reports.len() - 1;
        init.lemma_filter_len(keep);
        assert forall|i: int| 0 <= i < reports.len() && (#[trigger] reports[i]) is Bound implies {
            let j = reports.take(i).filter(keep).len() as int;
            &&& j < captured(reports).len()
            &&& captured(reports)[j].entries == bindings(reports[i]->Bound_0@)
            &&& captured(reports)[j].fact == match reports[i]->Bound_1 {
                Some(f) => Some(f@),
                None => None,
            }
        } by {
            if i < n {
                assert(init[i] == reports[i]);
                assert(init.take(i) =~= reports.take(i));
            } else {
                assert(reports.take(i) =~= init);
            }
        }
    }
}

/// The variables of a result are the query's variables but for those that stand
/// for mutable values, in their order.
pub proof fn results_speak_of_the_visible_variables(
    vars: Seq<Variable>,
    refs: Seq<(usize, Term)>,
    v: Variable,
)
    ensures
        result_vars(vars, refs).contains(v) <==> exists|i: int|
            0 <= i < vars.len() && #[trigger] vars[i] == v && forall|j: int|
                0 <= j < refs.len() ==> (#[trigger] refs[j]).0 != i,
        result_vars(vars, refs).len() <= vars.len(),
        vars.no_duplicates() ==> result_vars(vars, refs).no_duplicates(),
        refs.len() == 0 ==> result_vars(vars, refs) == vars,
    decreases vars.len(),
{
    let all = result_vars(vars, refs);
    if vars.len() > 0 {
        let init = vars.drop_last();
        let n = vars.len() - 1;
        results_speak_of_the_visible_variables(init, refs, v);
        results_speak_of_the_visible_variables(init, refs, vars.last());
        let front = result_vars(init, refs);
        assert(vars.last() == vars[n]);
        if all.contains(v) {
            let k = choose|k: int| 0 <= k < all.len() && all[k] == v;
            if k < front.len() {
                assert(front[k] == v);
                let i = choose|i: int|
                    0 <= i < init.len() && #[trigger] init[i] == v && forall|j: int|
                        0 <= j < refs.len() ==> (#[trigger] refs[j]).0 != i;
                assert(vars[i] == v);
            } else {
                assert(vars[n] == v);
            }
        }
        if exists|i: int|
            0 <= i < vars.len() && #[trigger] vars[i] == v && forall|j: int|
                0 <= j < refs.len() ==> (#[trigger] refs[j]).0 != i {
            let i = choose|i: int|
                0 <= i < vars.len() && #[trigger] vars[i] == v && forall|j: int|
                    0 <= j < refs.len() ==> (#[trigger] refs[j]).0 != i;
            if i < n {
                assert(init[i] == v);
                let k = choose|k: int| 0 <= k < front.len() && front[k] == v;
                assert(all[k] == v);
            } else {
                assert(all[all.len() - 1] == v);
            }
        }
        if vars.no_duplicates() {
            assert forall|a: int, b: int| 0 <= a < b < init.len() implies init[a] != init[b] by {
                assert(vars[a] != vars[b]);
            }
            if front.contains(vars.last()) {
                let i = choose|i: int|
                    0 <= i < init.len() && #[trigger] init[i] == vars.last() && forall|j: int|
                        0 <= j < refs.len() ==> (#[trigger] refs[j]).0 != i;
                assert(vars[i] == vars[n]);
            }
            assert forall|a: int, b: int| 0 <= a < b < all.len() implies all[a] != all[b] by {
                assert(front[a] == all[a]);
                assert(front.contains(front[a]));
            }
        }
        if refs.len() == 0 {
            assert(all =~= vars);
        }
    }
}

/// An answer is kept exactly when none of its verdicts is false, and the kept
/// places stand in ascending order, each once.
pub proof fn kept_answers_are_those_that_live(verdicts: Seq<Vec<bool>>)
    requires
        verdicts.len() <= usize::MAX,
    ensures
        forall|k: usize| #[trigger]
            live_places(verdicts).contains(k) <==> k < verdicts.len() && forall|i: int|
                0 <= i < verdicts[k as int]@.len() ==> #[trigger] verdicts[k as int]@[i],
        forall|a: int, b: int|
            0 <= a < b < live_places(verdicts).len() ==> #[trigger] live_places(verdicts)[a]
                < #[trigger] live_places(verdicts)[b],
    decreases verdicts.len(),
{
    let all = live_places(verdicts);
    if verdicts.len() > 0 {
        let init = verdicts.drop_last();
        kept_answers_are_those_that_live(init);
        let front = live_places(init);
        let n = verdicts.len() - 1;
        assert forall|k: usize| #[trigger] all.contains(k) <==> k < verdicts.len() && forall|i: int|
            0 <= i < verdicts[k as int]@.len() ==> #[trigger] verdicts[k as int]@[i] by {
            if all.contains(k) {
                let a = choose|a: int| 0 <= a < all.len() && all[a] == k;
                if a < front.len() {
                    assert(front[a] == k);
                    assert(front.contains(k));
                    assert(init[k as int] == verdicts[k as int]);
                }
            }
            if k < n {
                assert(init[k as int] == verdicts[k as int]);
                if front.contains(k) {
                    let a = choose|a: int| 0 <= a < front.len() && front[a] == k;
                    assert(all[a] == k);
                }
            } else if k == n && lives(verdicts[n]@) {
                assert(all[all.len() - 1] == k);
            }
        }
        assert forall|a: int, b: int| 0 <= a < b < all.len() implies #[trigger] all[a]
            < #[trigger] all[b] by {
            assert(all[a] == front[a]);
            assert(front.contains(front[a]));
        }
    }
}

/// The rows of a query come most exact first: of two rows the one whose fact keeps more
/// of the query's first pattern comes earlier, and among rows that the keys do not tell
/// apart the one that was reported earlier.
pub proof fn rows_come_most_exact_first(
    rows: Seq<Row>,
    trees: Seq<Tree>,
    i: int,
    j: int,
    f: Tree,
    g: Tree,
)
    requires
        in_answer_order(rows, first_factor(flat(pattern_tree(trees)))),
        1 <= trees.len() <= 62,
        forall|k: int| 0 <= k < trees.len() ==> (#[trigger] trees[k]).fits(),
        0 <= i < rows.len(),
        0 <= j < rows.len(),
        i != j,
        f.fits(),
        g.fits(),
        rows[i].fact == Some(flat(f)),
        rows[j].fact == Some(flat(g)),
    ensures
        keeps_more(trees[0], f, g) ==> i < j,
        specificity(trees[0], f) == specificity(trees[0], g) ==> (i < j <==> rows[i].sequence
            < rows[j].sequence),
{
    let factor = first_factor(flat(pattern_tree(trees)));
    let row = seq![crate::pattern::comma()] + trees;
    assert(row.drop_first() =~= trees);
    assert(row[0] == crate::pattern::comma());
    let head = flat(crate::pattern::comma());
    assert(head =~= seq![tag_byte(Tag::SymbolSize(1)), 44u8]);
    assert(flat_all(row) == head + flat_all(trees));
    let whole = flat(pattern_tree(trees));
    assert(whole =~= seq![tag_byte(Tag::Arity(row.len() as u8))] + (head + flat_all(trees)));
    assert(factor =~= flat_all(trees));
    let first = flat(trees[0]);
    assert(flat_all(trees) == first + flat_all(trees.drop_first()));
    assert(factor.subrange(0, first.len() as int) =~= first);
    lemma_parse_flat(factor, 0, trees[0]);
    assert(flat(f).subrange(0, flat(f).len() as int) =~= flat(f));
    assert(flat(g).subrange(0, flat(g).len() as int) =~= flat(g));
    lemma_parse_flat(flat(f), 0, f);
    lemma_parse_flat(flat(g), 0, g);
    keys_compare_trees(factor, 0, flat(f), 0);
    keys_compare_trees(factor, 0, flat(g), 0);
    let (kf, kg) = (specificity(trees[0], f), specificity(trees[0], g));
    assert(row_key(rows[i], factor) == kf && row_key(rows[j], factor) == kg);
    lemma_path_lt_total(kf, kg);
    lemma_path_lt_irreflexive(kf);
    if keeps_more(trees[0], f, g) {
        exact_facts_come_first(trees[0], f, g);
    }
    if i < j {
        assert(row_before(rows[i], rows[j], factor));
    } else {
        assert(row_before(rows[j], rows[i], factor));
    }
}

/// A visited match is planned as among the rows of a query, but its result is always
/// narrowed to the query's variables; a report without bindings is passed over.
pub proof fn visits_narrow_every_result(reading: Reading, report: Report, single: bool, id: usize)
    ensures
        report is Unbound ==> report_plan(reading, report, single, id) is None,
        report matches Report::Bound(entries, fact) ==> report_plan(reading, report, single, id)
            == Some(
            match reading.plan(
                bindings(entries@),
                match fact {
                    Some(f) => Some(f@),
                    None => None,
                },
                single,
                id,
            ) {
                Plan::Rematch(t) => Plan::Rematch(t),
                Plan::Fold(ops, _) => Plan::Fold(ops, true),
            },
        ),
{
}

/// A value that a match found in the stored atoms is the value that is bound: where the
/// span of a binding is a term without variables as it was stored, the binding binds its
/// variable to that term.
pub proof fn matched_values_are_bound(
    reading: Reading,
    bs: Seq<Binding>,
    id: usize,
    k: int,
    x: Term,
    s: Lowering,
)
    requires
        0 <= k < bs.len(),
        bs[k].env_n != 0,
        bs[k].key_ns != 0 || bs[k].key_idx < reading.vars.len(),
        s.vars.len() == bs[k].env_v,
        lower(x, s, Mode::Store).1 is Some,
        bs[k].span == flat(lower(x, s, Mode::Store).1->0),
        lower(x, s, Mode::Store).0.reg.within(reading.reg),
        lower(x, s, Mode::Store).0.reg.by_id.len() <= u64::MAX,
        unreserved(x),
        literal(x, reading.reg),
    ensures
        ({
            let var = if bs[k].key_ns == 0 {
                reading.vars[bs[k].key_idx as int]
            } else {
                Variable { name: namespaced(bs[k].key_ns, bs[k].key_idx as nat), id }
            };
            let before = reading.ops(bs.take(k), id).len() as int;
            &&& before < reading.ops(bs, id).len()
            &&& reading.ops(bs, id)[before] == Op::Bind(var, x)
        }),
{
    let reader = Reader {
        ns: bs[k].env_n,
        grounded: Some(reading.reg),
        query_vars: reading.vars,
        evaluated: None,
        result_id: id,
    };
    let (s2, tree) = lower(x, s, Mode::Store);
    lemma_lower_fits(x, s, Mode::Store);
    let b = flat(tree->0);
    assert(b.subrange(0, b.len() as int) =~= b);
    lemma_parse_flat(b, 0, tree->0);
    assert(s2.vars =~= s2.vars.take(s2.vars.len() as int));
    written_terms_read_back(x, s, Mode::Store, s2.vars, reader);
    literal_terms_survive(x, s2.vars, reader);
    every_binding_adds_one_operation(reading, bs, id, k);
}

} // verus!
