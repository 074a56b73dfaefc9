//! The report of a space's compressible patterns.
use vstd::prelude::*;
use vstd::bytes::lemma_auto_spec_u64_to_from_le_bytes;
use vstd::utf8::{encode_utf8, encode_utf8_decode_utf8, encode_utf8_valid_utf8, valid_utf8};

use crate::atom::{Term, Variable};
use crate::space::rules::{
    ends_word, lemma_tokens_concat, lemma_word, spelled, spelled_row, tokens, Token,
};
use crate::space::MorkSpace;
use crate::tag::{tag_survives_its_byte, Tag};
use crate::text::{decimal, numerals_stand_for_their_numbers};
use crate::tree::{flat, flat_all, lemma_flat_all_push, Tree};
use crate::william::{
    decode_pattern, entries_of, gains, shown, shown_row, symbol_text, top_maximal,
    WeightedPathIndex,
};

verus! {

/// The report shows the chosen patterns, each with its gain.
pub open spec fn reports(r: Seq<(String, u64)>, chosen: Seq<(Seq<u8>, u64)>) -> bool {
    &&& r.len() == chosen.len()
    &&& forall|i: int|
        0 <= i < r.len() ==> (#[trigger] r[i]).0@ == shown(chosen[i].0, 0, 0).0 && r[i].1
            == chosen[i].1
}

impl MorkSpace {
    /// The gains of the patterns that stored atoms share, with `ref_cost` bytes
    /// charged per reference to a factored pattern.
    pub fn compression_gain_index(&self, ref_cost: u64) -> (r: WeightedPathIndex)
        requires
            self.wf(),
        ensures
            r.wf(),
            r@ == gains(self@.paths, ref_cost),
    {
        WeightedPathIndex::from_compression_gain_on_boundaries(&self.paths, ref_cost)
    }

    /// The `k` heaviest patterns of which none overlaps another, as they are
    /// shown and with their gains, heaviest first.
    pub fn frequent_subpatterns(&self, k: usize, ref_cost: u64) -> (r: Vec<(String, u64)>)
        requires
            self.wf(),
        ensures
            exists|chosen: Seq<(Seq<u8>, u64)>| #[trigger]
                top_maximal(gains(self@.paths, ref_cost), k as nat, chosen) && reports(r@, chosen)
                    && r@.len() == chosen.len() && forall|i: int|
                    0 <= i < r@.len() ==> (#[trigger] r@[i]).1 == chosen[i].1,
    {
        let index = self.compression_gain_index(ref_cost);
        let chosen = index.iter_any_topk_maximal(k);
        let ghost entries = entries_of(chosen@);
        let mut out: Vec<(String, u64)> = Vec::new();
        let mut i: usize = 0;
        while i < chosen.len()
            invariant
                i <= chosen@.len(),
                entries == entries_of(chosen@),
                out@.len() == i,
                forall|j: int|
                    0 <= j < i ==> (#[trigger] out@[j]).0@ == shown(entries[j].0, 0, 0).0
                        && out@[j].1 == entries[j].1,
            decreases chosen@.len() - i,
        {
            let text = decode_pattern(chosen[i].0.as_slice());
            out.push((text, chosen[i].1));
            i = i + 1;
        }
        proof {
            assert(reports(out@, entries));
        }
        out
    }
}

/// The first bytes of a tree as a term, when `left` of its bytes are there and `n`
/// variables were introduced before it, with the number of those introduced behind it:
/// variables by their numbers, and an ellipsis for what is cut off.
pub open spec fn pictured(t: Tree, left: int, n: nat) -> (Term, nat)
    decreases t, 0nat,
{
    if left <= 0 {
        (Term::Symbol("…"@), n)
    } else {
        match t {
            Tree::NewVar => (Term::Variable(Variable { name: "v"@ + decimal(n), id: 0 }), n + 1),
            Tree::VarRef(i) => (
                Term::Variable(Variable { name: "v"@ + decimal(i as nat), id: 0 }),
                n,
            ),
            Tree::Sym(raw) => if left > raw.len() {
                (Term::Symbol(symbol_text(raw)), n)
            } else {
                (Term::Symbol("…"@), n)
            },
            Tree::Expr(ts) => {
                let (xs, m) = pictured_row(ts, left - 1, n);
                (Term::Expression(xs, false), m)
            },
        }
    }
}

/// The same of a row of trees.
pub open spec fn pictured_row(ts: Seq<Tree>, left: int, n: nat) -> (Seq<Term>, nat)
    decreases ts, ts.len(),
{
    if ts.len() == 0 {
        (Seq::empty(), n)
    } else {
        let init = ts.drop_last();
        let (xs, m) = pictured_row(init, left, n);
        let (x, m2) = pictured(ts.last(), left - flat_all(init).len(), m);
        (xs.push(x), m2)
    }
}

/// Every symbol of the tree is shown as one word.
pub open spec fn shows_words(t: Tree) -> bool
    decreases t,
{
    match t {
        Tree::Sym(raw) => is_word(symbol_text(raw)),
        Tree::Expr(ts) => forall|i: int| 0 <= i < ts.len() ==> shows_words(#[trigger] ts[i]),
        _ => true,
    }
}

/// A text that is one word.
pub open spec fn is_word(w: Seq<char>) -> bool {
    w.len() > 0 && forall|i: int| 0 <= i < w.len() ==> !ends_word(#[trigger] w[i])
}

/// A word is one piece.
proof fn lemma_word_is_one_piece(w: Seq<char>)
    requires
        is_word(w),
    ensures
        tokens(w, 0) == seq![Token::Word(w)],
{
    lemma_word(w, 0, w.len() as int, w);
    assert(tokens(w, w.len() as int) =~= Seq::empty());
    assert(seq![Token::Word(w)] + Seq::<Token>::empty() =~= seq![Token::Word(w)]);
}

/// A variable is shown as one word, and so is an ellipsis.
proof fn lemma_shown_words(n: nat)
    ensures
        is_word("…"@),
        is_word("$v"@ + decimal(n)),
        "$v"@ + decimal(n) == seq!['$'] + ("v"@ + decimal(n)),
{
    reveal_strlit("…");
    reveal_strlit("$v");
    reveal_strlit("v");
    numerals_stand_for_their_numbers(n);
    let w = "$v"@ + decimal(n);
    assert forall|i: int| 0 <= i < w.len() implies !ends_word(#[trigger] w[i]) by {
        if i >= 2 {
            assert(w[i] == decimal(n)[i - 2]);
        }
    }
    assert(w =~= seq!['$'] + ("v"@ + decimal(n)));
}

/// The pieces of a row that ends in a term.
proof fn lemma_spelled_row_push(xs: Seq<Term>, x: Term)
    ensures
        spelled_row(xs.push(x)) == spelled_row(xs) + spelled(x),
    decreases xs.len(),
{
    let all = xs.push(x);
    if xs.len() == 0 {
        assert(all.drop_first() =~= Seq::empty());
        assert(spelled_row(all.drop_first()) =~= Seq::empty());
        assert(spelled_row(all) =~= spelled_row(xs) + spelled(x));
    } else {
        assert(all.drop_first() =~= xs.drop_first().push(x));
        lemma_spelled_row_push(xs.drop_first(), x);
        assert(all[0] == xs[0]);
        assert(spelled_row(all) =~= spelled_row(xs) + spelled(x));
    }
}

/// The bytes from `p` on are those of `w`, as far as they go.
spec fn begins(b: Seq<u8>, p: int, w: Seq<u8>) -> bool {
    forall|i: int| 0 <= i < w.len() && p + i < b.len() ==> b[p + i] == #[trigger] w[i]
}

/// What is shown at a place is the picture of the tree that begins there.
proof fn lemma_shown_is_pictured(b: Seq<u8>, p: int, n: nat, t: Tree)
    requires
        t.fits(),
        shows_words(t),
        0 <= p <= b.len(),
        begins(b, p, flat(t)),
    ensures
        ({
            let (text, e, m) = shown(b, p, n);
            let (x, m2) = pictured(t, b.len() - p, n);
            &&& tokens(text, 0) == spelled(x)
            &&& m == m2
            &&& e == if p + flat(t).len() < b.len() {
                p + flat(t).len()
            } else {
                b.len() as int
            }
        }),
    decreases t, 0nat,
{
    lemma_shown_words(n);
    lemma_word_is_one_piece("…"@);
    if p < b.len() {
        assert(flat(t)[0] == b[p + 0]);
        match t {
            Tree::NewVar => {
                tag_survives_its_byte(Tag::NewVar);
                lemma_word_is_one_piece("$v"@ + decimal(n));
            },
            Tree::VarRef(i) => {
                tag_survives_its_byte(Tag::VarRef(i));
                lemma_shown_words(i as nat);
                lemma_word_is_one_piece("$v"@ + decimal(i as nat));
            },
            Tree::Sym(raw) => {
                tag_survives_its_byte(Tag::SymbolSize(raw.len() as u8));
                if p + 1 + raw.len() <= b.len() {
                    assert(b.subrange(p + 1, p + 1 + raw.len()) =~= raw) by {
                        assert forall|i: int| 0 <= i < raw.len() implies b[p + 1 + i] == raw[i] by {
                            assert(flat(t)[1 + i] == raw[i]);
                        }
                    }
                    lemma_word_is_one_piece(symbol_text(raw));
                }
            },
            Tree::Expr(ts) => {
                tag_survives_its_byte(Tag::Arity(ts.len() as u8));
                assert(begins(b, p + 1, flat_all(ts))) by {
                    assert forall|i: int| 0 <= i < flat_all(ts).len() && p + 1 + i
                        < b.len() implies b[p + 1 + i] == #[trigger] flat_all(ts)[i] by {
                        assert(flat(t)[1 + i] == flat_all(ts)[i]);
                    }
                }
                lemma_shown_row_is_pictured(b, p + 1, n, ts);
                let text = shown_row(b, p + 1, ts.len(), n).0;
                reveal_strlit("(");
                reveal_strlit(")");
                lemma_tokens_concat("("@, text, 0);
                lemma_tokens_concat("("@ + text, ")"@, 0);
                assert(tokens("("@, 1) =~= Seq::empty());
                assert(tokens(")"@, 1) =~= Seq::empty());
                assert(tokens("("@, 0) =~= seq![Token::Open]);
                assert(tokens(")"@, 0) =~= seq![Token::Close]);
            },
        }
    }
}

/// The same of a row of trees.
proof fn lemma_shown_row_is_pictured(b: Seq<u8>, p: int, n: nat, ts: Seq<Tree>)
    requires
        forall|i: int| 0 <= i < ts.len() ==> (#[trigger] ts[i]).fits() && shows_words(ts[i]),
        0 <= p <= b.len(),
        begins(b, p, flat_all(ts)),
    ensures
        ({
            let (text, e, m) = shown_row(b, p, ts.len(), n);
            let (xs, m2) = pictured_row(ts, b.len() - p, n);
            &&& tokens(text, 0) == spelled_row(xs)
            &&& m == m2
            &&& e == if p + flat_all(ts).len() < b.len() {
                p + flat_all(ts).len()
            } else {
                b.len() as int
            }
        }),
    decreases ts, ts.len(),
{
    if ts.len() == 0 {
        assert(tokens(Seq::<char>::empty(), 0) =~= Seq::empty());
        assert(flat_all(ts) =~= Seq::empty());
    } else {
        let init = ts.drop_last();
        let last = ts.last();
        assert(ts =~= init.push(last));
        lemma_flat_all_push(init, last);
        let (front, all) = (flat_all(init), flat_all(ts));
        assert forall|i: int| 0 <= i < init.len() implies (#[trigger] init[i]).fits()
            && shows_words(init[i]) by {
            assert(init[i] == ts[i]);
        }
        assert(begins(b, p, front)) by {
            assert forall|i: int| 0 <= i < front.len() && p + i < b.len() implies b[p + i]
                == #[trigger] front[i] by {
                assert(all[i] == front[i]);
            }
        }
        lemma_shown_row_is_pictured(b, p, n, init);
        let (text, e, m) = shown_row(b, p, init.len(), n);
        assert(begins(b, e, flat(last))) by {
            assert forall|i: int| 0 <= i < flat(last).len() && e + i < b.len() implies b[e + i]
                == #[trigger] flat(last)[i] by {
                assert(all[front.len() + i] == flat(last)[i]);
            }
        }
        assert(last == ts[ts.len() - 1]);
        lemma_shown_is_pictured(b, e, m, last);
        let (x, e2, m3) = shown(b, e, m);
        let (xs, m2) = pictured_row(init, b.len() - p, n);
        let y = pictured(last, b.len() - p - front.len(), m2).0;
        lemma_spelled_row_push(xs, y);
        if ts.len() == 1 {
            assert(spelled_row(xs) =~= Seq::empty());
            assert(spelled_row(xs) + spelled(y) =~= spelled(y));
        } else {
            reveal_strlit(" ");
            lemma_tokens_concat(text, " "@, 0);
            lemma_tokens_concat(text + " "@, x, 0);
            assert(tokens(" "@, 1) =~= Seq::empty());
            assert(tokens(" "@, 0) =~= Seq::empty());
            assert(tokens(text, 0) + Seq::<Token>::empty() =~= tokens(text, 0));
        }
    }
}

/// A pattern is shown as the term that it begins: the text has the pieces of the term,
/// with the pattern's variables by their numbers, and an ellipsis in the place of each
/// part that the pattern cuts off.
pub proof fn patterns_show_what_they_begin(t: Tree, left: int)
    requires
        t.fits(),
        shows_words(t),
        0 <= left <= flat(t).len(),
    ensures
        tokens(shown(flat(t).take(left), 0, 0).0, 0) == spelled(pictured(t, left, 0).0),
{
    lemma_shown_is_pictured(flat(t).take(left), 0, 0, t);
}

/// A symbol is shown by its text, an immutable value by what it displays and a mutable
/// one by its number; bytes that are no text show as a question mark.
pub proof fn symbols_show_their_text(w: Seq<char>, id: u64, raw: Seq<u8>)
    ensures
        symbol_text(seq![0u8] + encode_utf8(w)) == w,
        w.len() > 0 && encode_utf8(w)[0] > 1 ==> symbol_text(encode_utf8(w)) == w,
        symbol_text(seq![1u8] + vstd::bytes::spec_u64_to_le_bytes(id)) == "<state-"@ + decimal(
            id as nat,
        ) + ">"@,
        raw.len() > 0 && raw[0] == 0 && !valid_utf8(raw.drop_first()) ==> symbol_text(raw)
            == "?"@,
        raw.len() > 0 && raw[0] > 1 && !valid_utf8(raw) ==> symbol_text(raw) == "?"@,
{
    encode_utf8_valid_utf8(w);
    encode_utf8_decode_utf8(w);
    assert((seq![0u8] + encode_utf8(w)).drop_first() =~= encode_utf8(w));
    lemma_auto_spec_u64_to_from_le_bytes();
    let bytes = vstd::bytes::spec_u64_to_le_bytes(id);
    assert((seq![1u8] + bytes).drop_first() =~= bytes);
}

} // verus!
