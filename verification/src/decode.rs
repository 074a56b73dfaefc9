//! Decoding preorder bytes back into atoms.
use vstd::bytes::{spec_u64_from_le_bytes, u64_from_le_bytes};
use vstd::prelude::*;
use vstd::slice::slice_subrange;
use vstd::utf8::{decode_utf8, valid_utf8};

use crate::atom::{
    lemma_expression_term, terms, Atom, ExpressionAtom, Term, Variable, VariableAtom,
};
use crate::encode::{variables, EvaluatedSpans, GROUNDED_MARK, GROUNDED_REF_MARK};
use crate::registry::{GroundedRegistry, Registry};
use crate::tag::{byte_tag, maybe_byte_item, Tag};
use crate::text::{decimal, push_decimal, push_text, utf8_string};
use crate::tree::{
    flat, flat_all, lemma_flat_all_push, lemma_parse_row_none, lemma_parse_row_push,
    lemma_parse_row_sound, lemma_parse_row_split, lemma_parse_sound, parse_at, parse_row, Tree,
};

verus! {

/// How the items of some bytes are to be read: the namespace that their
/// variables belong to, the registry of grounded values, the query's own
/// variables, the spans that were marked as evaluated, and the id of every
/// variable that is not the query's.
pub struct Reader {
    pub ns: u8,
    pub grounded: Option<Registry>,
    pub query_vars: Seq<Variable>,
    pub evaluated: Option<Seq<Seq<u8>>>,
    pub result_id: usize,
}

/// The name of a variable of a namespace: `v{ns}_{index}`.
pub open spec fn namespaced(ns: u8, index: nat) -> Seq<char> {
    "v"@ + decimal(ns as nat) + "_"@ + decimal(index)
}

impl Reader {
    /// The variable with a number: the query's own in namespace zero, a
    /// namespaced one elsewhere.
    pub open spec fn variable(self, index: nat) -> Variable {
        if self.ns == 0 && index < self.query_vars.len() {
            self.query_vars[index as int]
        } else {
            Variable { name: namespaced(self.ns, index), id: self.result_id }
        }
    }

    /// The atom of a symbol's payload; none when the payload is not what its
    /// mark calls for.
    pub open spec fn symbol(self, raw: Seq<u8>) -> Option<Term> {
        if raw.len() > 0 && raw[0] == GROUNDED_MARK {
            let display = raw.drop_first();
            if !valid_utf8(display) {
                None
            } else if self.grounded matches Some(reg) && reg.by_display.contains_key(display) {
                Some(self.grounded->0.by_display[display])
            } else {
                Some(Term::Symbol(decode_utf8(display)))
            }
        } else if raw.len() > 0 && raw[0] == GROUNDED_REF_MARK {
            let id = spec_u64_from_le_bytes(raw.drop_first());
            if raw.len() != 9 {
                None
            } else if self.grounded matches Some(reg) && id < reg.by_id.len() {
                Some(self.grounded->0.by_id[id as int])
            } else {
                Some(Term::Symbol("<state-"@ + decimal(id as nat) + ">"@))
            }
        } else if valid_utf8(raw) {
            Some(Term::Symbol(decode_utf8(raw)))
        } else {
            None
        }
    }

    /// The span of an expression was marked as evaluated.
    pub open spec fn marked(self, span: Seq<u8>) -> bool {
        self.evaluated matches Some(spans) && spans.contains(span)
    }
}

/// The term that a tree is decoded as, with the number of variables introduced
/// when it is through; `n` were introduced before it.
pub open spec fn raise(t: Tree, r: Reader, n: nat) -> Option<(Term, nat)>
    decreases t, 0nat,
{
    match t {
        Tree::Sym(raw) => match r.symbol(raw) {
            Some(a) => Some((a, n)),
            None => None,
        },
        Tree::NewVar => Some((Term::Variable(r.variable(n)), n + 1)),
        Tree::VarRef(i) => Some((Term::Variable(r.variable(i as nat)), n)),
        Tree::Expr(ts) => match raise_all(ts, r, n) {
            Some((xs, n2)) => Some((Term::Expression(xs, r.marked(flat(t))), n2)),
            None => None,
        },
    }
}

/// The terms that a row of trees is decoded as, first to last.
pub open spec fn raise_all(ts: Seq<Tree>, r: Reader, n: nat) -> Option<(Seq<Term>, nat)>
    decreases ts, ts.len(),
{
    if ts.len() == 0 {
        Some((Seq::empty(), n))
    } else {
        match raise_all(ts.drop_last(), r, n) {
            Some((xs, n1)) => match raise(ts.last(), r, n1) {
                Some((x, n2)) => Some((xs.push(x), n2)),
                None => None,
            },
            None => None,
        }
    }
}

/// A tree introduces at most one variable per byte.
pub proof fn lemma_raise_counts(t: Tree, r: Reader, n: nat)
    ensures
        raise(t, r, n) matches Some((_, n2)) ==> n <= n2 <= n + flat(t).len(),
    decreases t, 0nat,
{
    if let Tree::Expr(ts) = t {
        lemma_raise_all_counts(ts, r, n);
    }
}

/// A row of trees introduces at most one variable per byte, and is decoded as
/// one term per tree.
pub proof fn lemma_raise_all_counts(ts: Seq<Tree>, r: Reader, n: nat)
    ensures
        raise_all(ts, r, n) matches Some((xs, n2)) ==> n <= n2 <= n + flat_all(ts).len()
            && xs.len() == ts.len(),
    decreases ts, ts.len(),
{
    if ts.len() > 0 {
        lemma_raise_all_counts(ts.drop_last(), r, n);
        if let Some((xs, n1)) = raise_all(ts.drop_last(), r, n) {
            lemma_raise_counts(ts.last(), r, n1);
            lemma_flat_all_push(ts.drop_last(), ts.last());
            assert(ts.drop_last().push(ts.last()) =~= ts);
        }
    }
}

/// A row of which the first trees cannot be decoded cannot be decoded.
pub proof fn lemma_raise_all_stops(ts: Seq<Tree>, r: Reader, n: nat, i: int)
    requires
        0 <= i <= ts.len(),
        raise_all(ts.take(i), r, n) is None,
    ensures
        raise_all(ts, r, n) is None,
    decreases ts.len(),
{
    if i == ts.len() {
        assert(ts.take(i) =~= ts);
    } else {
        assert(ts.drop_last().take(i) =~= ts.take(i));
        lemma_raise_all_stops(ts.drop_last(), r, n, i);
    }
}

/// The state of a decode. Namespace zero is the query pattern, so a variable of
/// it decodes to the caller's own variable; in any other namespace a variable
/// is named by namespace and number and carries the result's id, so that two
/// results never share a variable.
pub struct DecodeCtx<'a> {
    pub ns: u8,
    pub var_counter: usize,
    pub grounded: Option<&'a GroundedRegistry>,
    pub query_vars: &'a [VariableAtom],
    pub evaluated: Option<&'a EvaluatedSpans>,
    pub result_id: usize,
}

impl<'a> DecodeCtx<'a> {
    /// How the context reads items.
    pub open spec fn reader(&self) -> Reader {
        Reader {
            ns: self.ns,
            grounded: match self.grounded {
                Some(reg) => Some(reg@),
                None => None,
            },
            query_vars: variables(self.query_vars@),
            evaluated: match self.evaluated {
                Some(spans) => Some(spans@),
                None => None,
            },
            result_id: self.result_id,
        }
    }

    /// The registry is in order, and the variable counter has room for `n`
    /// more.
    pub open spec fn ready(&self, n: int) -> bool {
        &&& self.grounded matches Some(reg) ==> reg.wf()
        &&& self.var_counter + n <= usize::MAX
    }
}

/// The variable named by namespace and number, with the result's id.
pub fn namespaced_var(ns: u8, index: usize, result_id: usize) -> (v: VariableAtom)
    ensures
        v@ == (Variable { name: namespaced(ns, index as nat), id: result_id }),
{
    let mut name = String::new();
    push_text(&mut name, "v");
    push_decimal(&mut name, ns as u64);
    push_text(&mut name, "_");
    push_decimal(&mut name, index as u64);
    proof {
        assert(name@ =~= namespaced(ns, index as nat));
    }
    VariableAtom { name, id: result_id }
}

/// Decodes the variable with a number.
pub fn decode_var(ctx: &DecodeCtx, index: usize) -> (a: Atom)
    ensures
        a@ == Term::Variable(ctx.reader().variable(index as nat)),
{
    if ctx.ns == 0 && index < ctx.query_vars.len() {
        return Atom::Variable(ctx.query_vars[index].clone());
    }
    Atom::Variable(namespaced_var(ctx.ns, index, ctx.result_id))
}

/// Decodes a symbol's payload.
fn decode_symbol(raw: &[u8], ctx: &DecodeCtx) -> (r: Option<Atom>)
    requires
        ctx.ready(0),
    ensures
        match ctx.reader().symbol(raw@) {
            Some(t) => r is Some && r->0@ == t,
            None => r is None,
        },
{
    if raw.len() > 0 && raw[0] == GROUNDED_MARK {
        let display = slice_subrange(raw, 1, raw.len());
        let name = match utf8_string(display) {
            Some(s) => s,
            None => {
                return None;
            },
        };
        if let Some(reg) = ctx.grounded {
            if let Some(atom) = reg.get(display) {
                return Some(atom);
            }
        }
        return Some(Atom::Symbol(name));
    }
    if raw.len() > 0 && raw[0] == GROUNDED_REF_MARK {
        if raw.len() != 9 {
            return None;
        }
        let id: u64 = u64_from_le_bytes(slice_subrange(raw, 1, raw.len()));
        if let Some(reg) = ctx.grounded {
            if let Some(atom) = reg.get_by_id(id) {
                return Some(atom);
            }
        }
        let mut name = String::new();
        push_text(&mut name, "<state-");
        push_decimal(&mut name, id);
        push_text(&mut name, ">");
        proof {
            assert(name@ =~= "<state-"@ + decimal(id as nat) + ">"@);
        }
        return Some(Atom::Symbol(name));
    }
    match utf8_string(raw) {
        Some(name) => Some(Atom::Symbol(name)),
        None => None,
    }
}

/// Decodes the atom at `pos` and moves `pos` behind it; `None` when the bytes
/// there are short or malformed.
pub fn decode_atom(bytes: &[u8], pos: &mut usize, ctx: &mut DecodeCtx) -> (r: Option<Atom>)
    requires
        old(ctx).ready(bytes@.len() - *old(pos)),
    ensures
        match parse_at(bytes@, *old(pos) as int) {
            Some((tree, e)) => match raise(tree, old(ctx).reader(), old(ctx).var_counter as nat) {
                Some((t, n)) => {
                    &&& r is Some
                    &&& r->0@ == t
                    &&& *final(pos) == e
                    &&& final(ctx).var_counter == n
                },
                None => r is None,
            },
            None => r is None,
        },
        final(ctx).reader() == old(ctx).reader(),
        final(ctx).grounded == old(ctx).grounded,
    decreases bytes@.len() - *old(pos),
{
    let start: usize = *pos;
    if start >= bytes.len() {
        return None;
    }
    match maybe_byte_item(bytes[start]) {
        None => None,
        Some(Tag::SymbolSize(size)) => {
            if (size as usize) > bytes.len() - (start + 1) {
                return None;
            }
            let end: usize = start + 1 + size as usize;
            *pos = end;
            decode_symbol(slice_subrange(bytes, start + 1, end), ctx)
        },
        Some(Tag::NewVar) => {
            *pos = start + 1;
            let index: usize = ctx.var_counter;
            ctx.var_counter = index + 1;
            Some(decode_var(ctx, index))
        },
        Some(Tag::VarRef(i)) => {
            *pos = start + 1;
            Some(decode_var(ctx, i as usize))
        },
        Some(Tag::Arity(k)) => {
            let ghost b = bytes@;
            let ghost reader = ctx.reader();
            let ghost n0 = ctx.var_counter as nat;
            let mut children: Vec<Atom> = Vec::new();
            let mut at: usize = start + 1;
            let mut i: u8 = 0;
            while i < k
                invariant
                    i <= k,
                    b == bytes@,
                    start == *old(pos),
                    start < at <= b.len(),
                    byte_tag(b[start as int]) == Some(Tag::Arity(k)),
                    parse_row(b, start + 1, i as nat) is Some,
                    parse_row(b, start + 1, i as nat).unwrap().1 == at,
                    reader == old(ctx).reader(),
                    n0 == old(ctx).var_counter,
                    old(ctx).ready(b.len() - start),
                    ctx.reader() == reader,
                    ctx.grounded == old(ctx).grounded,
                    ctx.ready(b.len() - at),
                    raise_all(parse_row(b, start + 1, i as nat).unwrap().0, reader, n0) == Some(
                        (terms(children@), ctx.var_counter as nat),
                    ),
                decreases k - i,
            {
                let ghost ts = parse_row(b, start + 1, i as nat).unwrap().0;
                let ghost at0 = at as int;
                let ghost kids = children@;
                proof {
                    lemma_parse_row_push(b, start + 1, i as nat);
                    lemma_parse_row_sound(b, start + 1, i as nat);
                }
                match decode_atom(bytes, &mut at, ctx) {
                    Some(child) => {
                        children.push(child);
                        proof {
                            lemma_parse_sound(b, at0);
                            let (t, e) = parse_at(b, at0).unwrap();
                            assert(ts.push(t).drop_last() =~= ts);
                            assert(terms(children@) =~= terms(kids).push(child@));
                            lemma_raise_all_counts(ts, reader, n0);
                            lemma_raise_counts(
                                t,
                                reader,
                                raise_all(ts, reader, n0).unwrap().1,
                            );
                        }
                    },
                    None => {
                        proof {
                            if parse_at(b, at0) is None {
                                lemma_parse_row_none(b, start + 1, k as nat, (i + 1) as nat);
                            } else if let Some((all, e)) = parse_row(b, start + 1, k as nat) {
                                let (t, _) = parse_at(b, at0).unwrap();
                                lemma_parse_row_split(b, start + 1, k as nat, (i + 1) as nat);
                                lemma_parse_row_sound(b, start + 1, (i + 1) as nat);
                                assert(all.take(i + 1) =~= ts.push(t));
                                assert(ts.push(t).drop_last() =~= ts);
                                lemma_raise_all_stops(all, reader, n0, i + 1);
                            }
                        }
                        return None;
                    },
                }
                i = i + 1;
            }
            *pos = at;
            let marked: bool = match ctx.evaluated {
                Some(spans) => spans.contains(slice_subrange(bytes, start, at)),
                None => false,
            };
            proof {
                lemma_parse_sound(b, start as int);
            }
            let e = ExpressionAtom { children, evaluated: marked };
            proof {
                lemma_expression_term(e);
            }
            Some(Atom::Expression(e))
        },
    }
}

} // verus!
