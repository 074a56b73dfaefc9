//! The column-index route: which queries it takes, and what each fact that it
//! finds answers.
use vstd::prelude::*;
use vstd::slice::{slice_subrange, slice_to_vec};

use crate::argindex::{index_of, lemma_row_of, of_relation, row_of, seek, seeks_are_exact};
use crate::atom::{Atom, Term, Variable, VariableAtom};
use crate::colcache::{lemma_index_is_finite, lemma_listing_lists, listing};
use crate::decode::{decode_atom, DecodeCtx, Reader};
use crate::encode::{ref_terms, variables, wildcards};
use crate::order::same_bytes;
use crate::pattern::{conjuncts, conjuncts_of, pattern_of, wrap_pattern};
use crate::registry::{GroundedRegistry, Registry};
use crate::rows::{
    bind_or_equate, bound, decoded, leaks, ops_of, BindOp, Binding, Op, Plan, Reading,
};
use crate::span::{byte_rows, columns, ground_span, span_is_ground, split_columns};
use crate::tag::{byte_tag, maybe_byte_item, tag_byte, Tag};
use crate::tree::{
    flat, flat_all, lemma_parse_flat, lemma_parse_row_sound, parse_at, parse_row, Tree,
};

verus! {

/// What an argument of a pattern asks of its column: one value, or nothing.
#[derive(Debug)]
pub enum ArgClass {
    Bound(Vec<u8>),
    Free,
}

/// The model of an argument's demand.
pub enum Arg {
    Bound(Seq<u8>),
    Free,
}

impl View for ArgClass {
    type V = Arg;

    open spec fn view(&self) -> Arg {
        match self {
            ArgClass::Bound(v) => Arg::Bound(v@),
            ArgClass::Free => Arg::Free,
        }
    }
}

/// A classified pattern: the bytes that the facts of its relation start with,
/// and what each argument asks.
#[derive(Debug)]
pub struct Classified {
    pub functor_prefix: Vec<u8>,
    pub args: Vec<ArgClass>,
}

/// The model of a classified pattern.
#[verifier::ext_equal]
pub struct Shape {
    pub prefix: Seq<u8>,
    pub args: Seq<Arg>,
}

/// The models of a row of arguments.
pub open spec fn args_of(v: Seq<ArgClass>) -> Seq<Arg> {
    Seq::new(v.len(), |i: int| v[i]@)
}

impl View for Classified {
    type V = Shape;

    open spec fn view(&self) -> Shape {
        Shape { prefix: self.functor_prefix@, args: args_of(self.args@) }
    }
}

/// What an argument asks: nothing where it is a variable met for the first
/// time, one value where it is ground. A repeated variable and a variable
/// inside a compound ask for more than one column can answer.
pub open spec fn arg_of(t: Tree) -> Option<Arg> {
    if t is NewVar {
        Some(Arg::Free)
    } else if t.ground() {
        Some(Arg::Bound(flat(t)))
    } else {
        None
    }
}

/// What the arguments ask; none when one of them asks too much.
pub open spec fn args_asked(ts: Seq<Tree>) -> Option<Seq<Arg>> {
    if forall|i: int| 0 <= i < ts.len() ==> arg_of(#[trigger] ts[i]) is Some {
        Some(Seq::new(ts.len(), |i: int| arg_of(ts[i])->0))
    } else {
        None
    }
}

/// The shape of a pattern: an expression with a ground head, all of whose
/// arguments ask for one column each.
pub open spec fn shape_of(t: Tree) -> Option<Shape> {
    match t {
        Tree::Expr(ts) => if ts.len() > 0 && ts[0].ground() && args_asked(ts.skip(1)) is Some {
            Some(
                Shape {
                    prefix: seq![tag_byte(Tag::Arity(ts.len() as u8))] + flat(ts[0]),
                    args: args_asked(ts.skip(1))->0,
                },
            )
        } else {
            None
        },
        _ => None,
    }
}

/// The shape of the pattern that bytes spell.
pub open spec fn shape_at(b: Seq<u8>) -> Option<Shape> {
    match parse_at(b, 0) {
        Some((t, e)) => if e == b.len() {
            shape_of(t)
        } else {
            None
        },
        None => None,
    }
}

/// Classifies one argument; `None` when it asks for more than one column can
/// answer.
fn classify_arg(bytes: &[u8], Ghost(t): Ghost<Tree>) -> (r: Option<ArgClass>)
    requires
        t.fits(),
        bytes@ == flat(t),
    ensures
        match arg_of(t) {
            Some(a) => r is Some && r->0@ == a,
            None => r is None,
        },
{
    proof {
        assert(bytes@.subrange(0, bytes@.len() as int) =~= bytes@);
        lemma_parse_flat(bytes@, 0, t);
    }
    if matches!(maybe_byte_item(bytes[0]), Some(Tag::NewVar)) {
        return Some(ArgClass::Free);
    }
    if span_is_ground(bytes) {
        return Some(ArgClass::Bound(slice_to_vec(bytes)));
    }
    None
}

/// Classifies a single-factor pattern; `None` when it is outside the class that
/// the column indexes answer.
pub fn classify_single_factor(bytes: &[u8]) -> (r: Option<Classified>)
    ensures
        match shape_at(bytes@) {
            Some(s) => r is Some && r->0@ == s,
            None => r is None,
        },
{
    let ghost b = bytes@;
    if bytes.len() == 0 {
        return None;
    }
    let k: u8 = match maybe_byte_item(bytes[0]) {
        Some(Tag::Arity(k)) => k,
        _ => {
            return None;
        },
    };
    if k == 0 {
        return None;
    }
    let cols = match split_columns(slice_subrange(bytes, 1, bytes.len()), k as usize) {
        Some(cols) => cols,
        None => {
            proof {
                lemma_args_shift(b, k as nat);
            }
            return None;
        },
    };
    let ghost ts = parse_row(b, 1, k as nat).unwrap().0;
    proof {
        lemma_args_shift(b, k as nat);
        lemma_parse_row_sound(b, 1, k as nat);
        assert(byte_rows(cols@).len() == cols@.len());
        assert forall|i: int| 0 <= i < k implies (#[trigger] cols@[i])@ == flat(ts[i])
            && ts[i].fits() by {
            assert(byte_rows(cols@)[i] == cols@[i]@);
        }
        let c0 = cols@[0]@;
        assert(c0.subrange(0, c0.len() as int) =~= c0);
        lemma_parse_flat(c0, 0, ts[0]);
    }
    if !span_is_ground(cols[0].as_slice()) {
        return None;
    }
    let mut args: Vec<ArgClass> = Vec::new();
    let mut i: usize = 1;
    while i < cols.len()
        invariant
            1 <= i <= cols@.len(),
            cols@.len() == k,
            ts.len() == k,
            forall|i: int| 0 <= i < k ==> (#[trigger] cols@[i])@ == flat(ts[i]) && ts[i].fits(),
            shape_at(b) == shape_of(Tree::Expr(ts)),
            b == bytes@,
            args@.len() == i - 1,
            forall|j: int|
                0 <= j < i - 1 ==> arg_of(#[trigger] ts.skip(1)[j]) == Some(args@[j]@),
        decreases cols@.len() - i,
    {
        assert(cols@[i as int]@ == flat(ts[i as int]));
        assert(ts.skip(1)[i - 1] == ts[i as int]);
        match classify_arg(cols[i].as_slice(), Ghost(ts[i as int])) {
            Some(a) => {
                args.push(a);
            },
            None => {
                assert(arg_of(ts.skip(1)[i - 1]) is None);
                return None;
            },
        }
        i = i + 1;
    }
    let functor = cols[0].as_slice();
    let functor_prefix = slice_to_vec(slice_subrange(bytes, 0, 1 + functor.len()));
    let r = Classified { functor_prefix, args };
    proof {
        let rest = ts.skip(1);
        assert forall|j: int| 0 <= j < rest.len() implies arg_of(#[trigger] rest[j]) is Some by {
            assert(arg_of(rest[j]) == Some(args@[j]@));
        }
        assert(args_of(args@) =~= args_asked(rest)->0);
        let all = flat_all(ts);
        assert(b.subrange(1, b.len() as int) == all);
        assert(all == flat(ts[0]) + flat_all(ts.drop_first()));
        assert(functor_prefix@ =~= seq![b[0]] + flat(ts[0])) by {
            assert forall|j: int| 0 <= j < flat(ts[0]).len() implies b[1 + j] == flat(ts[0])[j] by {
                assert(all[j] == flat(ts[0])[j]);
                assert(b.subrange(1, b.len() as int)[j] == b[1 + j]);
            }
        }
        assert(b[0] == tag_byte(Tag::Arity(k)));
        assert(r@ =~= shape_of(Tree::Expr(ts))->0);
    }
    Some(r)
}

/// The columns behind an arity item are the children of the expression.
proof fn lemma_args_shift(b: Seq<u8>, k: nat)
    requires
        b.len() > 0,
        k <= 63,
        byte_tag(b[0]) == Some(Tag::Arity(k as u8)),
    ensures
        columns(b.subrange(1, b.len() as int), k) is None ==> shape_at(b) is None,
        columns(b.subrange(1, b.len() as int), k) matches Some(cols) ==> {
            &&& parse_row(b, 1, k) is Some
            &&& parse_row(b, 1, k).unwrap().1 == b.len()
            &&& parse_row(b, 1, k).unwrap().0.len() == k
            &&& forall|i: int|
                0 <= i < k ==> #[trigger] cols[i] == flat(parse_row(b, 1, k).unwrap().0[i])
            &&& cols.len() == k
            &&& shape_at(b) == shape_of(Tree::Expr(parse_row(b, 1, k).unwrap().0))
        },
{
    let rest = b.subrange(1, b.len() as int);
    crate::tag::byte_survives_its_tag(b[0]);
    lemma_row_of(rest, k);
    if let Some(ts) = row_of(rest, k) {
        assert(rest == flat_all(ts));
        assert(b.subrange(1, 1 + flat_all(ts).len() as int) =~= flat_all(ts));
        crate::tree::lemma_parse_row_flat(b, 1, ts);
    } else if let Some((ts, e)) = parse_row(b, 1, k) {
        lemma_parse_row_sound(b, 1, k);
        if e == b.len() {
            crate::argindex::lemma_row_of_flat(ts);
        }
    }
}

/// A value is asked at the position, and no longer one anywhere, nor an equally
/// long one behind it.
pub open spec fn most_selective(args: Seq<Arg>, pos: int) -> bool {
    &&& 0 <= pos < args.len()
    &&& args[pos] is Bound
    &&& forall|j: int|
        0 <= j < args.len() && (#[trigger] args[j]) is Bound ==> args[j]->Bound_0.len()
            <= args[pos]->Bound_0.len() && (j > pos ==> args[j]->Bound_0.len()
            < args[pos]->Bound_0.len())
}

/// The argument position to seek by: the one with the longest value, the last
/// of them where several are equally long; `None` when no value is asked.
pub fn selective_position(args: &Vec<ArgClass>) -> (r: Option<usize>)
    ensures
        match r {
            Some(pos) => most_selective(args_of(args@), pos as int),
            None => forall|j: int|
                0 <= j < args@.len() ==> (#[trigger] args_of(args@)[j]) is Free,
        },
{
    let ghost xs = args_of(args@);
    let mut best: Option<usize> = None;
    let mut best_len: usize = 0;
    let mut i: usize = 0;
    while i < args.len()
        invariant
            i <= args@.len(),
            xs == args_of(args@),
            match best {
                Some(pos) => {
                    &&& pos < i
                    &&& most_selective(xs.take(i as int), pos as int)
                    &&& xs[pos as int]->Bound_0.len() == best_len
                },
                None => forall|j: int| 0 <= j < i ==> (#[trigger] xs[j]) is Free,
            },
        decreases args@.len() - i,
    {
        assert(xs[i as int] == args@[i as int]@);
        let ghost old_best = best;
        let ghost front = xs.take(i as int);
        let ghost next = xs.take(i + 1);
        proof {
            assert forall|j: int| 0 <= j < i implies #[trigger] next[j] == front[j] by {}
            assert(next[i as int] == xs[i as int]);
        }
        match &args[i] {
            ArgClass::Bound(v) => {
                if best.is_none() || v.len() >= best_len {
                    best = Some(i);
                    best_len = v.len();
                }
            },
            ArgClass::Free => {},
        }
        proof {
            if let Some(pos) = best {
                assert(most_selective(next, pos as int)) by {
                    assert forall|j: int|
                        0 <= j < next.len() && (#[trigger] next[j])
                            is Bound implies next[j]->Bound_0.len() <= next[pos as int]->Bound_0.len()
                        && (j > pos ==> next[j]->Bound_0.len() < next[pos as int]->Bound_0.len()) by {
                        if j < i {
                            assert(next[j] == front[j]);
                            assert(front[j] == xs[j]);
                        }
                    }
                }
            }
        }
        i = i + 1;
    }
    proof {
        assert(xs.take(xs.len() as int) =~= xs);
    }
    best
}

/// A query on the column-index route: its shape, the position to seek by, the
/// value there, and the pattern's variables and wildcards.
#[derive(Debug)]
pub struct IndexRoute {
    pub classified: Classified,
    pub pos: usize,
    pub value: Vec<u8>,
    pub vars: Vec<VariableAtom>,
    pub refs: Vec<(usize, Atom)>,
}

/// The route of a query: that of its only factor, when the leading argument is
/// free. A bound leading argument is a prefix of the stored paths already.
pub open spec fn route_shape(query: Term, ids: Seq<usize>) -> Option<Shape> {
    if conjuncts_of(query) is Some {
        None
    } else {
        match pattern_of(query, ids) {
            Some((_, trees)) => match shape_of(trees[0]) {
                Some(s) => if s.args.len() > 0 && s.args[0] is Free && exists|j: int|
                    0 <= j < s.args.len() && (#[trigger] s.args[j]) is Bound {
                    Some(s)
                } else {
                    None
                },
                None => None,
            },
            None => None,
        }
    }
}

impl IndexRoute {
    /// The route is that of a query.
    pub open spec fn routes(&self, query: Term, ids: Seq<usize>) -> bool {
        &&& route_shape(query, ids) == Some(self.classified@)
        &&& most_selective(self.classified@.args, self.pos as int)
        &&& self.value@ == self.classified@.args[self.pos as int]->Bound_0
        &&& variables(self.vars@) == pattern_of(query, ids).unwrap().0.vars
        &&& ref_terms(self.refs@) == pattern_of(query, ids).unwrap().0.refs
    }
}

/// The bytes of a single-factor pattern behind its head are the factor's.
proof fn lemma_single_factor(t: Tree)
    ensures
        flat(crate::pattern::pattern_tree(seq![t])).len() >= 3,
        flat(crate::pattern::pattern_tree(seq![t])).skip(3) == flat(t),
{
    let c = crate::pattern::comma();
    let row = seq![c] + seq![t];
    assert(row.drop_first() =~= seq![t]);
    assert(seq![t].drop_first() =~= Seq::empty());
    assert(flat_all(seq![t].drop_first()) =~= Seq::<u8>::empty());
    assert(flat_all(seq![t]) =~= flat(t));
    assert(flat(c) =~= seq![tag_byte(Tag::SymbolSize(1)), 44u8]);
    assert(flat_all(row) =~= flat(c) + flat(t));
    assert(flat(crate::pattern::pattern_tree(seq![t])).skip(3) =~= flat(t));
}

/// Classifies a query for the column-index route; `None` when it takes another.
/// `ids` holds a fresh variable id for each mutable grounded value of the query.
pub fn classify_index_route(query: &Atom, ids: Vec<usize>) -> (r: Option<IndexRoute>)
    requires
        wildcards(query@) <= ids@.len(),
    ensures
        match r {
            Some(route) => route.routes(query@, ids@),
            None => route_shape(query@, ids@) is None,
        },
{
    if conjuncts(query).is_some() {
        return None;
    }
    let ghost gids = ids@;
    let pattern = match wrap_pattern(query, ids) {
        Some(p) => p,
        None => {
            return None;
        },
    };
    let ghost trees = pattern_of(query@, gids).unwrap().1;
    proof {
        let fs = crate::pattern::factors(query@);
        crate::encode::lemma_lower_all_fits(
            fs,
            crate::pattern::fresh_lowering(),
            crate::encode::Mode::Query(gids),
        );
        assert(trees =~= seq![trees[0]]);
        lemma_single_factor(trees[0]);
        let b = flat(trees[0]);
        assert(b.subrange(0, b.len() as int) =~= b);
        lemma_parse_flat(b, 0, trees[0]);
        assert(pattern.bytes@.subrange(3, pattern.bytes@.len() as int) =~= b);
    }
    let factor = slice_subrange(pattern.bytes.as_slice(), 3, pattern.bytes.len());
    let classified = match classify_single_factor(factor) {
        Some(c) => c,
        None => {
            return None;
        },
    };
    proof {
        assert(classified@.args.len() == classified.args@.len());
    }
    if classified.args.len() == 0 {
        return None;
    }
    assert(classified@.args[0] == classified.args@[0]@);
    match &classified.args[0] {
        ArgClass::Bound(_) => {
            return None;
        },
        ArgClass::Free => {},
    }
    let pos: usize = match selective_position(&classified.args) {
        Some(pos) => pos,
        None => {
            return None;
        },
    };
    assert(classified@.args[pos as int] == classified.args@[pos as int]@);
    let value = match &classified.args[pos] {
        ArgClass::Bound(v) => slice_to_vec(v.as_slice()),
        ArgClass::Free => {
            return None;
        },
    };
    Some(IndexRoute { classified, pos, value, vars: pattern.vars, refs: pattern.refs })
}

/// The fact answers the shape: it is of the relation, and every column that is
/// asked for a value has it.
pub open spec fn answers(f: Seq<u8>, s: Shape) -> bool {
    &&& of_relation(f, s.prefix, s.args.len())
    &&& forall|i: int|
        0 <= i < s.args.len() && (#[trigger] s.args[i]) is Bound ==> flat(
            row_of(f.skip(s.prefix.len() as int), s.args.len())->0[i],
        ) == s.args[i]->Bound_0
}

/// The fact splits into the shape's columns, and every column but the one at
/// `pos` that is asked for a value has it.
pub open spec fn answers_beside(f: Seq<u8>, s: Shape, pos: int) -> bool {
    &&& row_of(f.skip(s.prefix.len() as int), s.args.len()) is Some
    &&& forall|i: int|
        0 <= i < s.args.len() && i != pos && (#[trigger] s.args[i]) is Bound ==> flat(
            row_of(f.skip(s.prefix.len() as int), s.args.len())->0[i],
        ) == s.args[i]->Bound_0
}

/// What the free columns of a fact bind, first to last: the n-th free column
/// the n-th variable. Nothing when a column cannot be read.
pub open spec fn free_ops(
    cols: Seq<Seq<u8>>,
    args: Seq<Arg>,
    vars: Seq<Variable>,
    r: Reader,
) -> Option<Seq<Op>>
    decreases args.len(),
{
    if args.len() == 0 {
        Some(Seq::empty())
    } else {
        match free_ops(cols, args.drop_last(), vars, r) {
            Some(ops) => if args.last() is Free {
                match decoded(cols[args.len() - 1], r, 0) {
                    Some(t) => if ops.len() < vars.len() {
                        Some(ops.push(bound(vars[ops.len() as int], t)))
                    } else {
                        None
                    },
                    None => None,
                }
            } else {
                Some(ops)
            },
            None => None,
        }
    }
}

/// What a fact answers on the route: nothing when a column other than the one
/// sought by does not answer or one cannot be read, otherwise what its free
/// columns bind.
pub open spec fn fact_ops(
    f: Seq<u8>,
    s: Shape,
    pos: int,
    vars: Seq<Variable>,
    reg: Registry,
    id: usize,
) -> Option<Seq<Op>> {
    if answers_beside(f, s, pos) {
        free_ops(
            columns(f.skip(s.prefix.len() as int), s.args.len())->0,
            s.args,
            vars,
            Reader {
                ns: 1,
                grounded: Some(reg),
                query_vars: vars,
                evaluated: None,
                result_id: id,
            },
        )
    } else {
        None
    }
}

/// Columns that do not answer, or cannot be read, stop a fact.
proof fn lemma_free_ops_stops(
    cols: Seq<Seq<u8>>,
    args: Seq<Arg>,
    vars: Seq<Variable>,
    r: Reader,
    i: int,
)
    requires
        0 <= i <= args.len(),
        free_ops(cols, args.take(i), vars, r) is None,
    ensures
        free_ops(cols, args, vars, r) is None,
    decreases args.len(),
{
    if i == args.len() {
        assert(args.take(i) =~= args);
    } else {
        assert(args.drop_last().take(i) =~= args.take(i));
        lemma_free_ops_stops(cols, args.drop_last(), vars, r, i);
    }
}

/// Plans one fact that the index gave: `None` when it does not answer the query,
/// otherwise the bindings to add to an empty answer. The index has checked the
/// column at `pos`. `id` is fresh for every fact.
pub fn plan_indexed_fact(
    fact: &[u8],
    classified: &Classified,
    pos: usize,
    vars: &Vec<VariableAtom>,
    reg: &GroundedRegistry,
    id: usize,
) -> (r: Option<Vec<BindOp>>)
    requires
        reg.wf(),
        classified.functor_prefix@.len() <= fact@.len(),
    ensures
        match r {
            Some(ops) => fact_ops(
                fact@,
                classified@,
                pos as int,
                variables(vars@),
                reg@,
                id,
            ) == Some(ops_of(ops@)),
            None => fact_ops(
                fact@,
                classified@,
                pos as int,
                variables(vars@),
                reg@,
                id,
            ) is None,
        },
{
    let ghost s = classified@;
    let ghost n = s.args.len();
    let ghost rest = fact@.skip(s.prefix.len() as int);
    let ghost vs = variables(vars@);
    let ghost reader = Reader {
        ns: 1,
        grounded: Some(reg@),
        query_vars: vs,
        evaluated: None,
        result_id: id,
    };
    let ncols: usize = classified.args.len();
    let plen: usize = classified.functor_prefix.len();
    proof {
        assert(fact@.subrange(plen as int, fact@.len() as int) =~= rest);
        lemma_row_of(rest, n);
    }
    let cols = match split_columns(slice_subrange(fact, plen, fact.len()), ncols) {
        Some(cols) => cols,
        None => {
            return None;
        },
    };
    let ghost cs = columns(rest, n)->0;
    let ghost ts = row_of(rest, n)->0;
    proof {
        assert(byte_rows(cols@) == cs);
        assert(cols@.len() == n) by {
            assert(byte_rows(cols@).len() == cols@.len());
        }
        assert forall|i: int| 0 <= i < n implies (#[trigger] cols@[i])@ == cs[i] && cs[i] == flat(
            ts[i],
        ) by {
            assert(byte_rows(cols@)[i] == cols@[i]@);
        }
    }
    let mut ops: Vec<BindOp> = Vec::new();
    let mut i: usize = 0;
    proof {
        assert(ops_of(ops@) =~= Seq::empty());
        assert(s.args.take(0) =~= Seq::empty());
    }
    while i < ncols
        invariant
            i <= ncols,
            ncols == classified.args@.len(),
            s == classified@,
            n == s.args.len(),
            n == ncols,
            rest == fact@.skip(s.prefix.len() as int),
            vs == variables(vars@),
            reader == (Reader {
                ns: 1,
                grounded: Some(reg@),
                query_vars: vs,
                evaluated: None,
                result_id: id,
            }),
            reg.wf(),
            cs == columns(rest, n)->0,
            ts == row_of(rest, n)->0,
            row_of(rest, n) is Some,
            cols@.len() == n,
            forall|i: int|
                0 <= i < n ==> (#[trigger] cols@[i])@ == cs[i] && cs[i] == flat(ts[i]),
            forall|j: int|
                0 <= j < i && j != pos && (#[trigger] s.args[j]) is Bound ==> flat(ts[j])
                    == s.args[j]->Bound_0,
            free_ops(cs, s.args.take(i as int), vs, reader) == Some(ops_of(ops@)),
        decreases ncols - i,
    {
        let ghost before = ops@;
        proof {
            assert(s.args[i as int] == classified.args@[i as int]@);
            assert(s.args.take(i + 1).drop_last() =~= s.args.take(i as int));
            assert(s.args.take(i + 1).last() == s.args[i as int]);
            assert(cols@[i as int]@ == cs[i as int]);
        }
        match &classified.args[i] {
            ArgClass::Bound(v) => {
                if i != pos && !same_bytes(cols[i].as_slice(), v.as_slice()) {
                    proof {
                        assert(s.args[i as int]->Bound_0 == v@);
                        assert(!answers_beside(fact@, s, pos as int));
                    }
                    return None;
                }
            },
            ArgClass::Free => {
                let mut at: usize = 0;
                let mut ctx = DecodeCtx {
                    ns: 1,
                    var_counter: 0,
                    grounded: Some(reg),
                    query_vars: vars.as_slice(),
                    evaluated: None,
                    result_id: id,
                };
                let col = &cols[i];
                assert(col.len() == col@.len());
                let atom = match decode_atom(col.as_slice(), &mut at, &mut ctx) {
                    Some(atom) => atom,
                    None => {
                        proof {
                            lemma_free_ops_stops(cs, s.args, vs, reader, i + 1);
                        }
                        return None;
                    },
                };
                if ops.len() >= vars.len() {
                    proof {
                        lemma_free_ops_stops(cs, s.args, vs, reader, i + 1);
                    }
                    return None;
                }
                let op = bind_or_equate(vars[ops.len()].clone(), atom);
                ops.push(op);
                proof {
                    assert(ops_of(ops@) =~= ops_of(before).push(op@));
                }
            },
        }
        i = i + 1;
    }
    proof {
        assert(s.args.take(n as int) =~= s.args);
        assert(answers_beside(fact@, s, pos as int));
    }
    Some(ops)
}

/// What the facts of a route answer, one after the other; a fact that does not
/// answer is passed over.
pub open spec fn facts_ops(
    facts: Seq<Seq<u8>>,
    s: Shape,
    pos: int,
    vars: Seq<Variable>,
    reg: Registry,
    ids: Seq<usize>,
) -> Seq<Seq<Op>>
    decreases facts.len(),
{
    if facts.len() == 0 {
        Seq::empty()
    } else {
        let front = facts_ops(facts.drop_last(), s, pos, vars, reg, ids);
        match fact_ops(facts.last(), s, pos, vars, reg, ids[facts.len() - 1]) {
            Some(ops) => front.push(ops),
            None => front,
        }
    }
}

/// The models of some plans.
pub open spec fn plans_of(v: Seq<Vec<BindOp>>) -> Seq<Seq<Op>> {
    Seq::new(v.len(), |i: int| ops_of(v[i]@))
}

/// Plans the facts that an index seek gave: for each that answers the query, the
/// bindings to add to an empty answer. `ids` holds a fresh variable id for each
/// fact.
pub fn indexed_facts_to_bindings(
    facts: &Vec<Vec<u8>>,
    classified: &Classified,
    pos: usize,
    vars: &Vec<VariableAtom>,
    reg: &GroundedRegistry,
    ids: &[usize],
) -> (r: Vec<Vec<BindOp>>)
    requires
        reg.wf(),
        facts@.len() <= ids@.len(),
        forall|i: int|
            0 <= i < facts@.len() ==> classified.functor_prefix@.len() <= (
            #[trigger] facts@[i])@.len(),
    ensures
        plans_of(r@) == facts_ops(
            byte_rows(facts@),
            classified@,
            pos as int,
            variables(vars@),
            reg@,
            ids@,
        ),
{
    let ghost fs = byte_rows(facts@);
    let mut out: Vec<Vec<BindOp>> = Vec::new();
    let mut i: usize = 0;
    proof {
        assert(fs.take(0) =~= Seq::empty());
        assert(plans_of(out@) =~= Seq::empty());
    }
    while i < facts.len()
        invariant
            i <= facts@.len(),
            facts@.len() <= ids@.len(),
            fs == byte_rows(facts@),
            reg.wf(),
            forall|i: int|
                0 <= i < facts@.len() ==> classified.functor_prefix@.len() <= (
                #[trigger] facts@[i])@.len(),
            plans_of(out@) == facts_ops(
                fs.take(i as int),
                classified@,
                pos as int,
                variables(vars@),
                reg@,
                ids@,
            ),
        decreases facts@.len() - i,
    {
        let ghost before = out@;
        proof {
            assert(fs[i as int] == facts@[i as int]@);
            assert(fs.take(i + 1).drop_last() =~= fs.take(i as int));
            assert(fs.take(i + 1).last() == fs[i as int]);
        }
        if let Some(ops) = plan_indexed_fact(
            facts[i].as_slice(),
            classified,
            pos,
            vars,
            reg,
            ids[i],
        ) {
            out.push(ops);
            proof {
                assert(plans_of(out@) =~= plans_of(before).push(ops_of(ops@)));
            }
        }
        i = i + 1;
    }
    proof {
        assert(fs.take(fs.len() as int) =~= fs);
    }
    out
}

/// A ground fact matches a pattern in which no variable occurs twice: a variable
/// takes anything, a symbol itself, an expression one of its arity whose children
/// match.
pub open spec fn linear_match(pattern: Tree, fact: Tree) -> bool
    decreases pattern,
{
    match pattern {
        Tree::NewVar => true,
        Tree::VarRef(_) => false,
        Tree::Sym(_) => fact == pattern,
        Tree::Expr(ps) => {
            &&& fact is Expr
            &&& fact->Expr_0.len() == ps.len()
            &&& forall|i: int|
                0 <= i < ps.len() ==> linear_match(#[trigger] ps[i], fact->Expr_0[i])
        },
    }
}

/// A ground pattern matches itself alone.
proof fn lemma_ground_match(pattern: Tree, fact: Tree)
    requires
        pattern.ground(),
    ensures
        linear_match(pattern, fact) <==> fact == pattern,
    decreases pattern,
{
    if let Tree::Expr(ps) = pattern {
        if fact is Expr && fact->Expr_0.len() == ps.len() {
            let fs = fact->Expr_0;
            assert forall|i: int| 0 <= i < ps.len() implies (linear_match(ps[i], fs[i]) <==> fs[i]
                == ps[i]) by {
                lemma_ground_match(ps[i], fs[i]);
            }
            if linear_match(pattern, fact) {
                assert forall|i: int| 0 <= i < ps.len() implies fs[i] == ps[i] by {
                    assert(linear_match(ps[i], fs[i]));
                }
                assert(fs =~= ps);
                assert(fact == pattern);
            }
            if fact == pattern {
                assert forall|i: int| 0 <= i < ps.len() implies linear_match(
                    #[trigger] ps[i],
                    fact->Expr_0[i],
                ) by {
                    assert(fs[i] == ps[i]);
                }
            }
        }
    }
}

/// A fact answers the shape of a pattern exactly when it matches the pattern.
pub proof fn shapes_answer_what_patterns_match(pattern: Tree, fact: Tree)
    requires
        pattern.fits(),
        fact.fits(),
        shape_of(pattern) is Some,
    ensures
        answers(flat(fact), shape_of(pattern)->0) <==> linear_match(pattern, fact),
{
    let s = shape_of(pattern)->0;
    let ps = pattern->Expr_0;
    let n = s.args.len();
    let f = flat(fact);
    let k = ps.len() as u8;
    assert(n == ps.len() - 1);
    crate::tag::tag_survives_its_byte(Tag::Arity(k));
    assert(ps[0].fits());
    if answers(f, s) {
        let rest = f.skip(s.prefix.len() as int);
        let us = row_of(rest, n)->0;
        lemma_row_of(rest, n);
        assert(f =~= s.prefix + rest);
        let all = seq![ps[0]] + us;
        assert(all.drop_first() =~= us);
        assert(all[0] == ps[0]);
        assert(flat_all(all) =~= flat(ps[0]) + flat_all(us));
        let built = Tree::Expr(all);
        assert forall|i: int| 0 <= i < all.len() implies (#[trigger] all[i]).fits() by {
            if i > 0 {
                assert(all[i] == us[i - 1]);
            }
        }
        assert(built->Expr_0 == all);
        assert(built.fits());
        assert(flat(built) =~= f);
        crate::tree::flat_is_injective(built, fact);
        lemma_ground_match(ps[0], ps[0]);
        assert forall|i: int| 0 <= i < ps.len() implies linear_match(
            #[trigger] ps[i],
            fact->Expr_0[i],
        ) by {
            if i > 0 {
                assert(ps.skip(1)[i - 1] == ps[i]);
                lemma_arg_matches(ps[i], us[i - 1]);
                assert(s.args[i - 1] == arg_of(ps[i])->0);
            }
        }
        assert(linear_match(pattern, fact));
    }
    if linear_match(pattern, fact) {
        let fs = fact->Expr_0;
        assert(linear_match(ps[0], fs[0]));
        lemma_ground_match(ps[0], fs[0]);
        let us = fs.drop_first();
        assert(f == seq![tag_byte(Tag::Arity(k))] + (flat(fs[0]) + flat_all(us)));
        assert(f =~= s.prefix + flat_all(us));
        assert(s.prefix =~= f.take(s.prefix.len() as int));
        let rest = f.skip(s.prefix.len() as int);
        assert(rest =~= flat_all(us));
        assert forall|i: int| 0 <= i < us.len() implies (#[trigger] us[i]).fits() by {
            assert(us[i] == fs[i + 1]);
        }
        crate::argindex::lemma_row_of_flat(us);
        assert forall|i: int| 0 <= i < n && (#[trigger] s.args[i]) is Bound implies flat(us[i])
            == s.args[i]->Bound_0 by {
            assert(ps.skip(1)[i] == ps[i + 1]);
            assert(s.args[i] == arg_of(ps[i + 1])->0);
            assert(linear_match(ps[i + 1], fs[i + 1]));
            lemma_arg_matches(ps[i + 1], us[i]);
        }
        assert(answers(f, s));
    }
}

/// An argument's demand is met by what matches it.
proof fn lemma_arg_matches(arg: Tree, col: Tree)
    requires
        arg.fits(),
        col.fits(),
        arg_of(arg) is Some,
    ensures
        linear_match(arg, col) <==> (arg_of(arg)->0 is Free || flat(col) == flat(arg)),
{
    if arg.ground() {
        lemma_ground_match(arg, col);
        if flat(col) == flat(arg) {
            crate::tree::flat_is_injective(col, arg);
        }
    }
}

/// The route is exact: the facts that a seek in the column's index finds and
/// the other columns let pass are exactly the stored facts that answer the
/// query's shape.
pub proof fn routed_facts_are_exact(
    paths: Set<Seq<u8>>,
    keys: Seq<Seq<u8>>,
    s: Shape,
    pos: int,
    value: Tree,
    f: Seq<u8>,
)
    requires
        0 <= pos < s.args.len(),
        value.fits(),
        s.args[pos] == Arg::Bound(flat(value)),
        keys.to_set() == index_of(paths, s.prefix, s.args.len(), pos),
    ensures
        seek(keys, s.prefix, s.args.len(), pos, flat(value)).contains(f) && answers_beside(
            f,
            s,
            pos,
        ) <==> paths.contains(f) && answers(f, s),
{
    seeks_are_exact(paths, keys, s.prefix, s.args.len(), pos, value, f);
}

/// A stored path matches a pattern: it spells a fact that does.
pub open spec fn path_matches(pattern: Tree, f: Seq<u8>) -> bool {
    exists|fact: Tree| #[trigger] fact.fits() && flat(fact) == f && linear_match(pattern, fact)
}

/// What answers a shape spells a fact.
proof fn lemma_answers_spell_facts(pattern: Tree, f: Seq<u8>) -> (fact: Tree)
    requires
        pattern.fits(),
        shape_of(pattern) is Some,
        answers(f, shape_of(pattern)->0),
    ensures
        fact.fits(),
        flat(fact) == f,
{
    let s = shape_of(pattern)->0;
    let ps = pattern->Expr_0;
    let n = s.args.len();
    let rest = f.skip(s.prefix.len() as int);
    let us = row_of(rest, n)->0;
    lemma_row_of(rest, n);
    assert(f =~= s.prefix + rest);
    let all = seq![ps[0]] + us;
    assert(all.drop_first() =~= us);
    assert(all[0] == ps[0]);
    assert(flat_all(all) =~= flat(ps[0]) + flat_all(us));
    let built = Tree::Expr(all);
    assert forall|i: int| 0 <= i < all.len() implies (#[trigger] all[i]).fits() by {
        if i > 0 {
            assert(all[i] == us[i - 1]);
        } else {
            assert(ps[0].fits());
        }
    }
    assert(built->Expr_0 == all);
    assert(flat(built) =~= f);
    built
}

/// A path answers the shape of a pattern exactly when it matches the pattern.
pub proof fn paths_answer_what_patterns_match(pattern: Tree, f: Seq<u8>)
    requires
        pattern.fits(),
        shape_of(pattern) is Some,
    ensures
        answers(f, shape_of(pattern)->0) <==> path_matches(pattern, f),
{
    if answers(f, shape_of(pattern)->0) {
        let fact = lemma_answers_spell_facts(pattern, f);
        shapes_answer_what_patterns_match(pattern, fact);
    }
    if path_matches(pattern, f) {
        let fact = choose|fact: Tree| #[trigger]
            fact.fits() && flat(fact) == f && linear_match(pattern, fact);
        shapes_answer_what_patterns_match(pattern, fact);
    }
}

/// The route gives the matcher's answer: over any contents, the facts that a seek
/// in the index of the chosen column lists and that the other columns let pass
/// are exactly the stored paths that match the query's pattern, each once.
pub proof fn routes_find_exactly_the_matches(
    paths: Set<Seq<u8>>,
    query: Term,
    ids: Seq<usize>,
    pos: int,
)
    requires
        paths.finite(),
        route_shape(query, ids) is Some,
        most_selective(route_shape(query, ids)->0.args, pos),
    ensures
        ({
            let s = route_shape(query, ids)->0;
            let facts = seek(
                listing(index_of(paths, s.prefix, s.args.len(), pos)),
                s.prefix,
                s.args.len(),
                pos,
                s.args[pos]->Bound_0,
            );
            &&& facts.no_duplicates()
            &&& forall|f: Seq<u8>| #[trigger]
                facts.contains(f) && answers_beside(f, s, pos) <==> paths.contains(f)
                    && path_matches(pattern_of(query, ids).unwrap().1[0], f)
        }),
{
    let s = route_shape(query, ids)->0;
    let keys = index_of(paths, s.prefix, s.args.len(), pos);
    let fs = crate::pattern::factors(query);
    crate::encode::lemma_lower_all_fits(
        fs,
        crate::pattern::fresh_lowering(),
        crate::encode::Mode::Query(ids),
    );
    let pattern = pattern_of(query, ids).unwrap().1[0];
    assert(pattern.fits());
    let ps = pattern->Expr_0;
    let value = ps[pos + 1];
    assert(ps.skip(1)[pos] == value);
    assert(s.args[pos] == arg_of(value)->0);
    assert(value.fits());
    lemma_index_is_finite(paths, s.prefix, s.args.len(), pos);
    lemma_listing_lists(keys);
    crate::argindex::seeks_list_each_fact_once(
        listing(keys),
        s.prefix,
        s.args.len(),
        pos,
        flat(value),
    );
    let facts = seek(listing(keys), s.prefix, s.args.len(), pos, flat(value));
    assert forall|f: Seq<u8>| #[trigger]
        facts.contains(f) && answers_beside(f, s, pos) <==> paths.contains(f) && path_matches(
            pattern,
            f,
        ) by {
        routed_facts_are_exact(paths, listing(keys), s, pos, value, f);
        paths_answer_what_patterns_match(pattern, f);
    }
}

/// What the matcher reports of a fact that answers a shape: each free column is
/// bound to the pattern's variable of its number, and read with the fact's own
/// variables.
pub open spec fn free_bindings(cols: Seq<Seq<u8>>, args: Seq<Arg>) -> Seq<Binding>
    decreases args.len(),
{
    if args.len() == 0 {
        Seq::empty()
    } else {
        let front = free_bindings(cols, args.drop_last());
        if args.last() is Free {
            front.push(
                Binding {
                    key_ns: 0,
                    key_idx: front.len() as u8,
                    span: cols[args.len() - 1],
                    env_n: 1,
                    env_v: 0,
                },
            )
        } else {
            front
        }
    }
}

/// The bindings of the free columns add what the route plans.
proof fn lemma_free_bindings(
    cols: Seq<Seq<u8>>,
    args: Seq<Arg>,
    reading: Reading,
    id: usize,
)
    requires
        args.len() <= 255,
        free_ops(cols, args, reading.vars, reading.reader(1, id)) is Some,
    ensures
        reading.ops(free_bindings(cols, args), id) == free_ops(
            cols,
            args,
            reading.vars,
            reading.reader(1, id),
        )->0,
        free_bindings(cols, args).len() == free_ops(
            cols,
            args,
            reading.vars,
            reading.reader(1, id),
        )->0.len(),
        free_bindings(cols, args).len() <= args.len(),
        forall|i: int|
            0 <= i < free_bindings(cols, args).len() ==> {
                let b = #[trigger] free_bindings(cols, args)[i];
                &&& b.key_ns == 0
                &&& exists|j: int| 0 <= j < args.len() && #[trigger] cols[j] == b.span
            },
    decreases args.len(),
{
    if args.len() > 0 {
        let init = args.drop_last();
        lemma_free_bindings(cols, init, reading, id);
        let (front, all) = (free_bindings(cols, init), free_bindings(cols, args));
        if args.last() is Free {
            assert(all.drop_last() =~= front);
            assert(all.last().span == cols[args.len() - 1]);
        }
        assert forall|i: int| 0 <= i < all.len() implies {
            let b = #[trigger] all[i];
            &&& b.key_ns == 0
            &&& exists|j: int| 0 <= j < args.len() && #[trigger] cols[j] == b.span
        } by {
            if i < front.len() {
                assert(all[i] == front[i]);
                let j = choose|j: int| 0 <= j < init.len() && #[trigger] cols[j] == front[i].span;
                assert(cols[j] == all[i].span);
            } else {
                assert(cols[args.len() - 1] == all[i].span);
            }
        }
    }
}

/// The columns of a ground path that matches a pattern are ground.
pub proof fn lemma_matches_have_ground_columns(pattern: Tree, f: Seq<u8>)
    requires
        pattern.fits(),
        shape_of(pattern) is Some,
        path_matches(pattern, f),
        ground_span(f),
    ensures
        ({
            let s = shape_of(pattern)->0;
            let cols = columns(f.skip(s.prefix.len() as int), s.args.len());
            &&& cols is Some
            &&& cols->0.len() == s.args.len()
            &&& forall|i: int| 0 <= i < s.args.len() ==> ground_span(#[trigger] cols->0[i])
        }),
{
    let s = shape_of(pattern)->0;
    let n = s.args.len();
    let rest = f.skip(s.prefix.len() as int);
    paths_answer_what_patterns_match(pattern, f);
    lemma_row_of(rest, n);
    let cols = columns(rest, n)->0;
    let fact = lemma_answers_spell_facts(pattern, f);
    shapes_answer_what_patterns_match(pattern, fact);
    assert(f.subrange(0, f.len() as int) =~= f);
    lemma_parse_flat(f, 0, fact);
    let fs = fact->Expr_0;
    let ps = pattern->Expr_0;
    assert(linear_match(ps[0], fs[0]));
    lemma_ground_match(ps[0], fs[0]);
    let us = fs.drop_first();
    assert(f == seq![tag_byte(Tag::Arity(ps.len() as u8))] + (flat(fs[0]) + flat_all(us)));
    assert(rest =~= flat_all(us));
    assert forall|i: int| 0 <= i < us.len() implies (#[trigger] us[i]).fits() && us[i].ground() by {
        assert(us[i] == fs[i + 1]);
    }
    crate::argindex::lemma_row_of_flat(us);
    assert forall|i: int| 0 <= i < n implies ground_span(#[trigger] cols[i]) by {
        let b = cols[i];
        assert(b == flat(us[i]));
        assert(b.subrange(0, b.len() as int) =~= b);
        lemma_parse_flat(b, 0, us[i]);
    }
}

/// A routed fact is answered as the matcher's row of it is: the row that binds the
/// free columns of a ground fact is planned to add exactly what the route adds,
/// and there is nothing to narrow.
pub proof fn routed_plans_are_the_matchers(
    f: Seq<u8>,
    pattern: Tree,
    pos: int,
    reading: Reading,
    id: usize,
)
    requires
        pattern.fits(),
        shape_of(pattern) is Some,
        answers(f, shape_of(pattern)->0),
        ground_span(f),
        fact_ops(f, shape_of(pattern)->0, pos, reading.vars, reading.reg, id) is Some,
    ensures
        ({
            let s = shape_of(pattern)->0;
            let cols = columns(f.skip(s.prefix.len() as int), s.args.len())->0;
            reading.plan(free_bindings(cols, s.args), Some(f), true, id) == Plan::Fold(
                fact_ops(f, s, pos, reading.vars, reading.reg, id)->0,
                false,
            )
        }),
{
    let s = shape_of(pattern)->0;
    let n = s.args.len();
    let rest = f.skip(s.prefix.len() as int);
    let cols = columns(rest, n)->0;
    lemma_row_of(rest, n);
    lemma_free_bindings(cols, s.args, reading, id);
    paths_answer_what_patterns_match(pattern, f);
    lemma_matches_have_ground_columns(pattern, f);
    let bs = free_bindings(cols, s.args);
    assert forall|i: int| 0 <= i < bs.len() implies !leaks(#[trigger] bs[i]) by {
        let j = choose|j: int| 0 <= j < n && #[trigger] cols[j] == bs[i].span;
        assert(ground_span(cols[j]));
    }
}

/// A query is sought by its longest value, and by the last of those that are equally
/// long.
pub proof fn the_longest_value_is_sought(args: Seq<Arg>, pos: int, j: int)
    requires
        most_selective(args, pos),
        0 <= j < args.len(),
        args[j] is Bound,
    ensures
        0 <= pos < args.len(),
        args[pos] is Bound,
        args[j]->Bound_0.len() <= args[pos]->Bound_0.len(),
        args[j]->Bound_0.len() == args[pos]->Bound_0.len() ==> j <= pos,
{
}

/// A query takes a route exactly when it is no conjunction, it can be encoded, and it is
/// an expression with a ground head whose arguments are new variables and ground terms:
/// the first of them a variable, and one of them ground. The route's shape holds the
/// bytes of arity and head, and the bytes of each ground argument.
pub proof fn queries_take_a_route_when(query: Term, ids: Seq<usize>)
    ensures
        ({
            let joined = query is Expression && query->Expression_0.len() > 0
                && query->Expression_0[0] == Term::Symbol(","@);
            let tree = pattern_of(query, ids).unwrap().1[0];
            let ts = tree->Expr_0;
            let shape = route_shape(query, ids)->0;
            &&& route_shape(query, ids) is Some <==> {
                &&& !joined
                &&& pattern_of(query, ids) is Some
                &&& tree is Expr
                &&& ts.len() >= 2
                &&& ts[0].ground()
                &&& ts[1] is NewVar
                &&& forall|i: int|
                    1 <= i < ts.len() ==> (#[trigger] ts[i]) is NewVar || ts[i].ground()
                &&& exists|i: int| 1 <= i < ts.len() && (#[trigger] ts[i]).ground()
            }
            &&& route_shape(query, ids) is Some ==> {
                &&& shape.prefix == flat(tree).take(1int + flat(ts[0]).len())
                &&& shape.args.len() == ts.len() - 1
                &&& forall|i: int|
                    1 <= i < ts.len() ==> shape.args[i - 1] == if (#[trigger] ts[i]) is NewVar {
                        Arg::Free
                    } else {
                        Arg::Bound(flat(ts[i]))
                    }
            }
        }),
{
    if pattern_of(query, ids) is Some && conjuncts_of(query) is None {
        let tree = pattern_of(query, ids).unwrap().1[0];
        if tree is Expr && tree->Expr_0.len() > 0 {
            let ts = tree->Expr_0;
            let tail = ts.skip(1);
            assert forall|i: int| 1 <= i < ts.len() implies tail[i - 1] == #[trigger] ts[i] by {}
            if forall|i: int| 1 <= i < ts.len() ==> (#[trigger] ts[i]) is NewVar || ts[i].ground() {
                assert forall|i: int| 0 <= i < tail.len() implies arg_of(
                    #[trigger] tail[i],
                ) is Some by {
                    assert(tail[i] == ts[i + 1]);
                }
                let args = args_asked(tail)->0;
                if exists|i: int| 1 <= i < ts.len() && (#[trigger] ts[i]).ground() {
                    let i = choose|i: int| 1 <= i < ts.len() && (#[trigger] ts[i]).ground();
                    assert(args[i - 1] is Bound);
                }
            }
            if args_asked(tail) is Some {
                let args = args_asked(tail)->0;
                assert forall|i: int| 1 <= i < ts.len() implies (#[trigger] ts[i]) is NewVar
                    || ts[i].ground() by {
                    assert(arg_of(tail[i - 1]) is Some);
                }
                if exists|j: int| 0 <= j < args.len() && (#[trigger] args[j]) is Bound {
                    let j = choose|j: int| 0 <= j < args.len() && (#[trigger] args[j]) is Bound;
                    assert(tail[j] == ts[j + 1]);
                    assert(ts[j + 1].ground());
                }
                assert(flat_all(ts) == flat(ts[0]) + flat_all(ts.drop_first()));
                assert(flat(tree).take(1int + flat(ts[0]).len()) =~= seq![
                    tag_byte(Tag::Arity(ts.len() as u8)),
                ] + flat(ts[0]));
            }
        }
    }
}

/// A route is that of its query: it seeks the longest value that the query asks for in
/// the column in which it asks for it, and hands over the query's variables and wildcards.
pub proof fn routes_are_those_of_their_query(r: IndexRoute, query: Term, ids: Seq<usize>)
    requires
        r.routes(query, ids),
    ensures
        pattern_of(query, ids) is Some,
        route_shape(query, ids) is Some,
        r.classified@ == route_shape(query, ids)->0,
        ({
            let met = pattern_of(query, ids).unwrap().0;
            let args = route_shape(query, ids)->0.args;
            &&& r.pos < args.len()
            &&& args[r.pos as int] == Arg::Bound(r.value@)
            &&& forall|j: int|
                0 <= j < args.len() && (#[trigger] args[j]) is Bound ==> args[j]->Bound_0.len()
                    < r.value@.len() || (args[j]->Bound_0.len() == r.value@.len() && j <= r.pos)
            &&& r.vars@.len() == met.vars.len()
            &&& forall|i: int| 0 <= i < r.vars@.len() ==> (#[trigger] r.vars@[i])@ == met.vars[i]
            &&& r.refs@.len() == met.refs.len()
            &&& forall|i: int|
                0 <= i < r.refs@.len() ==> (#[trigger] r.refs@[i]).0 == met.refs[i].0
                    && r.refs@[i].1@ == met.refs[i].1
        }),
{
    let met = pattern_of(query, ids).unwrap().0;
    assert forall|i: int| 0 <= i < r.vars@.len() implies (#[trigger] r.vars@[i])@ == met.vars[i] by {
        assert(variables(r.vars@)[i] == r.vars@[i]@);
    }
    assert forall|i: int| 0 <= i < r.refs@.len() implies (#[trigger] r.refs@[i]).0
        == met.refs[i].0 && r.refs@[i].1@ == met.refs[i].1 by {
        assert(ref_terms(r.refs@)[i] == (r.refs@[i].0, r.refs@[i].1@));
    }
}

} // verus!
