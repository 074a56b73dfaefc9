//! What the rules of an evaluation say.
//!
//! The rule engine reads the rules as a text of S-expressions. Here the text is
//! read, and what its rules match and emit is stated on the terms that it spells.
use vstd::prelude::*;

use crate::atom::{Term, Variable};
use crate::space::instance::instance;
use crate::space::reduce::{peano, probe_term, reduce_rules, seed_term};

verus! {

/// A piece of a text of S-expressions.
pub enum Token {
    Open,
    Close,
    Word(Seq<char>),
}

/// The character stands between the pieces of a text.
pub open spec fn is_blank(c: char) -> bool {
    c == ' ' || c == '\n' || c == '\t' || c == '\r'
}

/// The character ends a word.
pub open spec fn ends_word(c: char) -> bool {
    is_blank(c) || c == '(' || c == ')'
}

/// Where the word ends that is read at `p`.
pub open spec fn word_end(s: Seq<char>, p: int) -> int
    decreases s.len() - p,
{
    if p >= s.len() || ends_word(s[p]) {
        p
    } else {
        word_end(s, p + 1)
    }
}

/// A word ends no earlier than it starts, and inside the text.
proof fn lemma_word_end(s: Seq<char>, p: int)
    requires
        0 <= p <= s.len(),
    ensures
        p <= word_end(s, p) <= s.len(),
        p < s.len() && !ends_word(s[p]) ==> p < word_end(s, p),
    decreases s.len() - p,
{
    if p < s.len() && !ends_word(s[p]) {
        lemma_word_end(s, p + 1);
    }
}

/// The pieces of a text from `p` on.
pub open spec fn tokens(s: Seq<char>, p: int) -> Seq<Token>
    decreases s.len() - p,
{
    if p < 0 || p >= s.len() {
        Seq::empty()
    } else if is_blank(s[p]) {
        tokens(s, p + 1)
    } else if s[p] == '(' {
        seq![Token::Open] + tokens(s, p + 1)
    } else if s[p] == ')' {
        seq![Token::Close] + tokens(s, p + 1)
    } else {
        let e = word_end(s, p);
        if p < e <= s.len() {
            seq![Token::Word(s.subrange(p, e))] + tokens(s, e)
        } else {
            Seq::empty()
        }
    }
}

/// Blanks add no piece.
proof fn lemma_blanks(s: Seq<char>, p: int, e: int)
    requires
        0 <= p <= e <= s.len(),
        forall|i: int| p <= i < e ==> is_blank(#[trigger] s[i]),
    ensures
        tokens(s, p) == tokens(s, e),
    decreases e - p,
{
    if p < e {
        assert(is_blank(s[p]));
        lemma_blanks(s, p + 1, e);
    }
}

/// A word that starts at `p` and reaches up to `e`.
proof fn lemma_word_reaches(s: Seq<char>, p: int, e: int)
    requires
        0 <= p <= e <= s.len(),
        forall|i: int| p <= i < e ==> !ends_word(#[trigger] s[i]),
        e == s.len() || ends_word(s[e]),
    ensures
        word_end(s, p) == e,
    decreases e - p,
{
    if p < e {
        assert(!ends_word(s[p]));
        lemma_word_reaches(s, p + 1, e);
    }
}

/// A word is one piece.
pub proof fn lemma_word(s: Seq<char>, p: int, e: int, w: Seq<char>)
    requires
        0 <= p < e <= s.len(),
        w.len() == e - p,
        forall|i: int| p <= i < e ==> !ends_word(#[trigger] s[i]) && s[i] == w[i - p],
        e == s.len() || ends_word(s[e]),
    ensures
        tokens(s, p) == seq![Token::Word(w)] + tokens(s, e),
{
    lemma_word_reaches(s, p, e);
    assert(!ends_word(s[p]));
    assert(s.subrange(p, e) =~= w);
}

/// Two texts one behind the other have the pieces of both, where no word runs on
/// from one into the other.
pub proof fn lemma_tokens_concat(a: Seq<char>, b: Seq<char>, p: int)
    requires
        0 <= p <= a.len(),
        b.len() == 0 || ends_word(b[0]) || (a.len() > 0 && ends_word(a.last())),
    ensures
        tokens(a + b, p) == tokens(a, p) + tokens(b, 0),
    decreases a.len() - p,
{
    let s = a + b;
    if p == a.len() {
        lemma_tokens_shift(a, b, p);
        assert(tokens(a, p) =~= Seq::empty());
        assert(tokens(s, p) =~= tokens(a, p) + tokens(b, 0));
    } else {
        assert(s[p] == a[p]);
        if ends_word(a[p]) {
            lemma_tokens_concat(a, b, p + 1);
            assert(tokens(s, p) =~= tokens(a, p) + tokens(b, 0));
        } else {
            let e = word_end(a, p);
            lemma_word_end(a, p);
            lemma_word_end_concat(a, b, p);
            lemma_tokens_concat(a, b, e);
            assert(s.subrange(p, e) =~= a.subrange(p, e));
            assert(tokens(s, p) =~= tokens(a, p) + tokens(b, 0));
        }
    }
}

/// A word of the first text ends there.
proof fn lemma_word_end_concat(a: Seq<char>, b: Seq<char>, p: int)
    requires
        0 <= p < a.len(),
        !ends_word(a[p]),
        b.len() == 0 || ends_word(b[0]) || ends_word(a.last()),
    ensures
        word_end(a + b, p) == word_end(a, p),
    decreases a.len() - p,
{
    let s = a + b;
    assert(s[p] == a[p]);
    if p + 1 < a.len() {
        assert(s[p + 1] == a[p + 1]);
        if !ends_word(a[p + 1]) {
            lemma_word_end_concat(a, b, p + 1);
        } else {
            assert(word_end(a, p + 1) == p + 1 && word_end(s, p + 1) == p + 1);
        }
    } else {
        assert(a.last() == a[p]);
        if b.len() > 0 {
            assert(s[p + 1] == b[0]);
        }
        assert(word_end(a, p + 1) == p + 1 && word_end(s, p + 1) == p + 1);
    }
}

/// The pieces of the second text are those of the whole from there on.
proof fn lemma_tokens_shift(a: Seq<char>, b: Seq<char>, p: int)
    requires
        a.len() <= p <= a.len() + b.len(),
    ensures
        tokens(a + b, p) == tokens(b, p - a.len()),
    decreases a.len() + b.len() - p,
{
    let s = a + b;
    let q = p - a.len();
    if q < b.len() {
        assert(s[p] == b[q]);
        if ends_word(b[q]) {
            lemma_tokens_shift(a, b, p + 1);
        } else {
            lemma_word_end_shift(a, b, p);
            lemma_word_end(b, q);
            let e = word_end(b, q);
            lemma_tokens_shift(a, b, a.len() + e);
            assert(s.subrange(p, a.len() + e) =~= b.subrange(q, e));
        }
    }
}

/// A word of the second text ends where it does there.
proof fn lemma_word_end_shift(a: Seq<char>, b: Seq<char>, p: int)
    requires
        a.len() <= p <= a.len() + b.len(),
    ensures
        word_end(a + b, p) == a.len() + word_end(b, p - a.len()),
    decreases a.len() + b.len() - p,
{
    let s = a + b;
    if p < s.len() {
        assert(s[p] == b[p - a.len()]);
        if !ends_word(s[p]) {
            lemma_word_end_shift(a, b, p + 1);
        }
    }
}

/// The atom of a word: a variable behind a `$`, a symbol otherwise.
pub open spec fn word_term(w: Seq<char>) -> Term {
    if w.len() > 0 && w[0] == '$' {
        Term::Variable(Variable { name: w.skip(1), id: 0 })
    } else {
        Term::Symbol(w)
    }
}

/// The term that starts at the `p`-th piece, and the place behind it.
pub open spec fn read_term(ts: Seq<Token>, p: int) -> Option<(Term, int)>
    decreases ts.len() - p, 0nat,
{
    if p < 0 || p >= ts.len() {
        None
    } else {
        match ts[p] {
            Token::Open => match read_row(ts, p + 1) {
                Some((xs, e)) => Some((Term::Expression(xs, false), e)),
                None => None,
            },
            Token::Close => None,
            Token::Word(w) => Some((word_term(w), p + 1)),
        }
    }
}

/// The terms up to the bracket that closes their row, and the place behind it.
pub open spec fn read_row(ts: Seq<Token>, p: int) -> Option<(Seq<Term>, int)>
    decreases ts.len() - p, 1nat,
{
    if p < 0 || p >= ts.len() {
        None
    } else if ts[p] is Close {
        Some((Seq::empty(), p + 1))
    } else {
        match read_term(ts, p) {
            Some((x, e)) => if p < e <= ts.len() {
                match read_row(ts, e) {
                    Some((xs, e2)) => Some((seq![x] + xs, e2)),
                    None => None,
                }
            } else {
                None
            },
            None => None,
        }
    }
}

/// The terms from the `p`-th piece to the end.
pub open spec fn read_all(ts: Seq<Token>, p: int) -> Option<Seq<Term>>
    decreases ts.len() - p,
{
    if p == ts.len() {
        Some(Seq::empty())
    } else {
        match read_term(ts, p) {
            Some((x, e)) => if p < e <= ts.len() {
                match read_all(ts, e) {
                    Some(xs) => Some(seq![x] + xs),
                    None => None,
                }
            } else {
                None
            },
            None => None,
        }
    }
}

/// The terms that a text spells.
pub open spec fn parsed(text: Seq<char>) -> Option<Seq<Term>> {
    read_all(tokens(text, 0), 0)
}

/// The pieces of a term.
pub open spec fn spelled(t: Term) -> Seq<Token>
    decreases t, 0nat,
{
    match t {
        Term::Symbol(name) => seq![Token::Word(name)],
        Term::Variable(v) => seq![Token::Word(seq!['$'] + v.name)],
        Term::Expression(ts, _) => seq![Token::Open] + spelled_row(ts) + seq![Token::Close],
        Term::Grounded(g) => seq![Token::Word(g.display)],
    }
}

/// The pieces of a row of terms.
pub open spec fn spelled_row(ts: Seq<Term>) -> Seq<Token>
    decreases ts, ts.len(),
{
    if ts.len() == 0 {
        Seq::empty()
    } else {
        spelled(ts[0]) + spelled_row(ts.drop_first())
    }
}

/// The term can be read back from its pieces: it is made of symbols that do not
/// start with a `$`, of variables without an id, and of expressions that nothing
/// marks.
pub open spec fn is_plain(t: Term) -> bool
    decreases t,
{
    match t {
        Term::Symbol(name) => name.len() > 0 && name[0] != '$',
        Term::Variable(v) => v.id == 0,
        Term::Expression(ts, evaluated) => !evaluated && forall|i: int|
            0 <= i < ts.len() ==> is_plain(#[trigger] ts[i]),
        Term::Grounded(_) => false,
    }
}

/// A term is read back from its pieces, wherever they stand.
pub proof fn spelled_terms_are_read(ts: Seq<Token>, p: int, t: Term)
    requires
        is_plain(t),
        0 <= p,
        p + spelled(t).len() <= ts.len(),
        ts.subrange(p, p + spelled(t).len()) == spelled(t),
    ensures
        read_term(ts, p) == Some((t, p + spelled(t).len())),
        spelled(t).len() >= 1,
        !(ts[p] is Close),
    decreases t, 0nat,
{
    let sub = ts.subrange(p, p + spelled(t).len());
    match t {
        Term::Expression(xs, _) => {
            let inner = spelled_row(xs);
            assert(sub[0] == Token::Open);
            assert(ts[p] == Token::Open);
            assert(ts.subrange(p + 1, p + 1 + inner.len()) =~= inner) by {
                assert forall|i: int| 0 <= i < inner.len() implies ts[p + 1 + i] == inner[i] by {
                    assert(sub[1 + i] == inner[i]);
                }
            }
            assert(ts[p + 1 + inner.len()] == Token::Close) by {
                assert(sub[inner.len() + 1int] == Token::Close);
            }
            assert forall|i: int| 0 <= i < xs.len() implies is_plain(#[trigger] xs[i]) by {
                assert(t->Expression_0[i] == xs[i]);
            }
            spelled_rows_are_read(ts, p + 1, xs);
        },
        Term::Variable(v) => {
            assert(sub[0] == ts[p]);
            assert((seq!['$'] + v.name).skip(1) =~= v.name);
        },
        _ => {
            assert(sub[0] == ts[p]);
        },
    }
}

/// A row is read back from its pieces and the bracket behind them.
pub proof fn spelled_rows_are_read(ts: Seq<Token>, p: int, xs: Seq<Term>)
    requires
        forall|i: int| 0 <= i < xs.len() ==> is_plain(#[trigger] xs[i]),
        0 <= p,
        p + spelled_row(xs).len() < ts.len(),
        ts.subrange(p, p + spelled_row(xs).len()) == spelled_row(xs),
        ts[p + spelled_row(xs).len()] is Close,
    ensures
        read_row(ts, p) == Some((xs, p + spelled_row(xs).len() + 1)),
    decreases xs, xs.len(),
{
    if xs.len() == 0 {
        assert(spelled_row(xs).len() == 0);
        assert(xs =~= Seq::empty());
    } else {
        let (head, rest) = (spelled(xs[0]), xs.drop_first());
        let sub = ts.subrange(p, p + spelled_row(xs).len());
        let m = p + head.len();
        assert(ts.subrange(p, m) =~= head) by {
            assert forall|i: int| 0 <= i < head.len() implies ts[p + i] == head[i] by {
                assert(sub[i] == head[i]);
            }
        }
        let tail = spelled_row(rest);
        assert(ts.subrange(m, m + tail.len()) =~= tail) by {
            assert forall|i: int| 0 <= i < tail.len() implies ts[m + i] == tail[i] by {
                assert(sub[head.len() + i] == tail[i]);
            }
        }
        spelled_terms_are_read(ts, p, xs[0]);
        assert forall|i: int| 0 <= i < rest.len() implies is_plain(#[trigger] rest[i]) by {
            assert(rest[i] == xs[i + 1]);
        }
        spelled_rows_are_read(ts, m, rest);
        assert(seq![xs[0]] + rest =~= xs);
    }
}

/// Two terms one behind the other are read.
proof fn lemma_two_terms_are_read(a: Term, b: Term)
    requires
        is_plain(a),
        is_plain(b),
    ensures
        read_all(spelled(a) + spelled(b), 0) == Some(seq![a, b]),
{
    let ts = spelled(a) + spelled(b);
    let (n, m) = (spelled(a).len() as int, spelled(b).len() as int);
    assert(ts.subrange(0, n) =~= spelled(a));
    assert(ts.subrange(n, n + m) =~= spelled(b));
    spelled_terms_are_read(ts, 0, a);
    spelled_terms_are_read(ts, n, b);
    assert(read_all(ts, n + m) == Some(Seq::<Term>::empty()));
    assert(seq![b] + Seq::<Term>::empty() =~= seq![b]);
    assert(read_all(ts, n) == Some(seq![b]));
    assert(seq![a] + seq![b] =~= seq![a, b]);
}

/// An expression of two terms.
pub open spec fn two(a: Term, b: Term) -> Term {
    Term::Expression(seq![a, b], false)
}

/// An expression of three terms.
pub open spec fn three(a: Term, b: Term, c: Term) -> Term {
    Term::Expression(seq![a, b, c], false)
}

/// An expression of four terms.
pub open spec fn four(a: Term, b: Term, c: Term, d: Term) -> Term {
    Term::Expression(seq![a, b, c, d], false)
}

/// The variable of a bare name.
pub open spec fn named(name: Seq<char>) -> Term {
    Term::Variable(Variable { name, id: 0 })
}

/// Expressions of a few terms: their pieces, what their variables are replaced by,
/// and whether they can be read back.
proof fn lemma_small(a: Term, b: Term, c: Term, d: Term, value: spec_fn(Variable) -> Term)
    ensures
        spelled(two(a, b)) == seq![Token::Open] + spelled(a) + spelled(b) + seq![Token::Close],
        spelled(three(a, b, c)) == seq![Token::Open] + spelled(a) + spelled(b) + spelled(c) + seq![
            Token::Close,
        ],
        spelled(four(a, b, c, d)) == seq![Token::Open] + spelled(a) + spelled(b) + spelled(c)
            + spelled(d) + seq![Token::Close],
        instance(two(a, b), value) == two(instance(a, value), instance(b, value)),
        instance(three(a, b, c), value) == three(
            instance(a, value),
            instance(b, value),
            instance(c, value),
        ),
        instance(four(a, b, c, d), value) == four(
            instance(a, value),
            instance(b, value),
            instance(c, value),
            instance(d, value),
        ),
        is_plain(two(a, b)) == (is_plain(a) && is_plain(b)),
        is_plain(three(a, b, c)) == (is_plain(a) && is_plain(b) && is_plain(c)),
        is_plain(four(a, b, c, d)) == (is_plain(a) && is_plain(b) && is_plain(c) && is_plain(d)),
{
    let (r1, r2, r3, r4) = (seq![d], seq![c, d], seq![b, c, d], seq![a, b, c, d]);
    assert(r1.drop_first() =~= Seq::empty());
    assert(spelled_row(r1.drop_first()) =~= Seq::empty());
    assert(spelled_row(r1) =~= spelled(d));
    assert(r2.drop_first() =~= r1);
    assert(r3.drop_first() =~= r2);
    assert(r4.drop_first() =~= r3);
    assert(spelled_row(r2) == spelled(c) + spelled_row(r1));
    assert(spelled_row(r3) == spelled(b) + spelled_row(r2));
    assert(spelled_row(r4) == spelled(a) + spelled_row(r3));
    assert(spelled(four(a, b, c, d)) =~= seq![Token::Open] + spelled(a) + spelled(b) + spelled(c)
        + spelled(d) + seq![Token::Close]);
    let (q1, q2, q3) = (seq![c], seq![b, c], seq![a, b, c]);
    assert(q1.drop_first() =~= Seq::empty());
    assert(spelled_row(q1) =~= spelled(c));
    assert(q2.drop_first() =~= q1);
    assert(q3.drop_first() =~= q2);
    assert(spelled_row(q2) == spelled(b) + spelled_row(q1));
    assert(spelled_row(q3) == spelled(a) + spelled_row(q2));
    assert(spelled(three(a, b, c)) =~= seq![Token::Open] + spelled(a) + spelled(b) + spelled(c)
        + seq![Token::Close]);
    let (p1, p2) = (seq![b], seq![a, b]);
    assert(p1.drop_first() =~= Seq::empty());
    assert(spelled_row(p1) =~= spelled(b));
    assert(p2.drop_first() =~= p1);
    assert(spelled_row(p2) == spelled(a) + spelled_row(p1));
    assert(spelled(two(a, b)) =~= seq![Token::Open] + spelled(a) + spelled(b) + seq![Token::Close]);
    assert(instance(two(a, b), value)->Expression_0 =~= seq![
        instance(a, value),
        instance(b, value),
    ]);
    assert(instance(three(a, b, c), value)->Expression_0 =~= seq![
        instance(a, value),
        instance(b, value),
        instance(c, value),
    ]);
    assert(instance(four(a, b, c, d), value)->Expression_0 =~= seq![
        instance(a, value),
        instance(b, value),
        instance(c, value),
        instance(d, value),
    ]);
    assert(p2[0] == a && p2[1] == b);
    assert(q3[0] == a && q3[1] == b && q3[2] == c);
    assert(r4[0] == a && r4[1] == b && r4[2] == c && r4[3] == d);
}

/// What stands before the fuel.
proof fn lemma_front_tokens()
    ensures
        tokens("\n(exec (IC 0 0 "@, 0) == seq![
            Token::Open,
            Token::Word("exec"@),
            Token::Open,
            Token::Word("IC"@),
            Token::Word("0"@),
            Token::Word("0"@),
        ],
{
    let s = "\n(exec (IC 0 0 "@;
    reveal_strlit("\n(exec (IC 0 0 ");
    assert(s.len() == 15);
    reveal_strlit("exec");
    reveal_strlit("IC");
    reveal_strlit("0");
    let t11 = Seq::<Token>::empty();
    assert(tokens(s, 15) =~= t11);
    lemma_blanks(s, 14, 15);
    let t10 = t11;
    assert(tokens(s, 14) == t10);
    lemma_word(s, 13, 14, "0"@);
    let t9 = seq![Token::Word("0"@)] + t10;
    assert(tokens(s, 13) == t9);
    lemma_blanks(s, 12, 13);
    let t8 = t9;
    assert(tokens(s, 12) == t8);
    lemma_word(s, 11, 12, "0"@);
    let t7 = seq![Token::Word("0"@)] + t8;
    assert(tokens(s, 11) == t7);
    lemma_blanks(s, 10, 11);
    let t6 = t7;
    assert(tokens(s, 10) == t6);
    lemma_word(s, 8, 10, "IC"@);
    let t5 = seq![Token::Word("IC"@)] + t6;
    assert(tokens(s, 8) == t5);
    let t4 = seq![Token::Open] + t5;
    assert(tokens(s, 7) == t4);
    lemma_blanks(s, 6, 7);
    let t3 = t4;
    assert(tokens(s, 6) == t3);
    lemma_word(s, 2, 6, "exec"@);
    let t2 = seq![Token::Word("exec"@)] + t3;
    assert(tokens(s, 2) == t2);
    let t1 = seq![Token::Open] + t2;
    assert(tokens(s, 1) == t1);
    lemma_blanks(s, 0, 1);
    let t0 = t1;
    assert(tokens(s, 0) == t0);
    assert(t0 =~= seq![
        Token::Open,
        Token::Word("exec"@),
        Token::Open,
        Token::Word("IC"@),
        Token::Word("0"@),
        Token::Word("0"@),
    ]);
}

/// What stands behind the fuel: what the scheduler matches.
proof fn lemma_pattern_tokens()
    ensures
        tokens(")\n               (, (exec (IC $x $y (S $c)) $sp $st)\n                  ((exec $x) $p $t))"@, 0) == seq![
            Token::Close,
            Token::Open,
            Token::Word(","@),
            Token::Open,
            Token::Word("exec"@),
            Token::Open,
            Token::Word("IC"@),
            Token::Word("$x"@),
            Token::Word("$y"@),
            Token::Open,
            Token::Word("S"@),
            Token::Word("$c"@),
            Token::Close,
            Token::Close,
            Token::Word("$sp"@),
            Token::Word("$st"@),
            Token::Close,
            Token::Open,
            Token::Open,
            Token::Word("exec"@),
            Token::Word("$x"@),
            Token::Close,
            Token::Word("$p"@),
            Token::Word("$t"@),
            Token::Close,
            Token::Close,
        ],
{
    let s = ")\n               (, (exec (IC $x $y (S $c)) $sp $st)\n                  ((exec $x) $p $t))"@;
    reveal_strlit(")\n               (, (exec (IC $x $y (S $c)) $sp $st)\n                  ((exec $x) $p $t))");
    assert(s.len() == 89);
    reveal_strlit(",");
    reveal_strlit("exec");
    reveal_strlit("IC");
    reveal_strlit("$x");
    reveal_strlit("$y");
    reveal_strlit("S");
    reveal_strlit("$c");
    reveal_strlit("$sp");
    reveal_strlit("$st");
    reveal_strlit("$p");
    reveal_strlit("$t");
    let t39 = Seq::<Token>::empty();
    assert(tokens(s, 89) =~= t39);
    let t38 = seq![Token::Close] + t39;
    assert(tokens(s, 88) == t38);
    let t37 = seq![Token::Close] + t38;
    assert(tokens(s, 87) == t37);
    lemma_word(s, 85, 87, "$t"@);
    let t36 = seq![Token::Word("$t"@)] + t37;
    assert(tokens(s, 85) == t36);
    lemma_blanks(s, 84, 85);
    let t35 = t36;
    assert(tokens(s, 84) == t35);
    lemma_word(s, 82, 84, "$p"@);
    let t34 = seq![Token::Word("$p"@)] + t35;
    assert(tokens(s, 82) == t34);
    lemma_blanks(s, 81, 82);
    let t33 = t34;
    assert(tokens(s, 81) == t33);
    let t32 = seq![Token::Close] + t33;
    assert(tokens(s, 80) == t32);
    lemma_word(s, 78, 80, "$x"@);
    let t31 = seq![Token::Word("$x"@)] + t32;
    assert(tokens(s, 78) == t31);
    lemma_blanks(s, 77, 78);
    let t30 = t31;
    assert(tokens(s, 77) == t30);
    lemma_word(s, 73, 77, "exec"@);
    let t29 = seq![Token::Word("exec"@)] + t30;
    assert(tokens(s, 73) == t29);
    let t28 = seq![Token::Open] + t29;
    assert(tokens(s, 72) == t28);
    let t27 = seq![Token::Open] + t28;
    assert(tokens(s, 71) == t27);
    lemma_blanks(s, 52, 71);
    let t26 = t27;
    assert(tokens(s, 52) == t26);
    let t25 = seq![Token::Close] + t26;
    assert(tokens(s, 51) == t25);
    lemma_word(s, 48, 51, "$st"@);
    let t24 = seq![Token::Word("$st"@)] + t25;
    assert(tokens(s, 48) == t24);
    lemma_blanks(s, 47, 48);
    let t23 = t24;
    assert(tokens(s, 47) == t23);
    lemma_word(s, 44, 47, "$sp"@);
    let t22 = seq![Token::Word("$sp"@)] + t23;
    assert(tokens(s, 44) == t22);
    lemma_blanks(s, 43, 44);
    let t21 = t22;
    assert(tokens(s, 43) == t21);
    let t20 = seq![Token::Close] + t21;
    assert(tokens(s, 42) == t20);
    let t19 = seq![Token::Close] + t20;
    assert(tokens(s, 41) == t19);
    lemma_word(s, 39, 41, "$c"@);
    let t18 = seq![Token::Word("$c"@)] + t19;
    assert(tokens(s, 39) == t18);
    lemma_blanks(s, 38, 39);
    let t17 = t18;
    assert(tokens(s, 38) == t17);
    lemma_word(s, 37, 38, "S"@);
    let t16 = seq![Token::Word("S"@)] + t17;
    assert(tokens(s, 37) == t16);
    let t15 = seq![Token::Open] + t16;
    assert(tokens(s, 36) == t15);
    lemma_blanks(s, 35, 36);
    let t14 = t15;
    assert(tokens(s, 35) == t14);
    lemma_word(s, 33, 35, "$y"@);
    let t13 = seq![Token::Word("$y"@)] + t14;
    assert(tokens(s, 33) == t13);
    lemma_blanks(s, 32, 33);
    let t12 = t13;
    assert(tokens(s, 32) == t12);
    lemma_word(s, 30, 32, "$x"@);
    let t11 = seq![Token::Word("$x"@)] + t12;
    assert(tokens(s, 30) == t11);
    lemma_blanks(s, 29, 30);
    let t10 = t11;
    assert(tokens(s, 29) == t10);
    lemma_word(s, 27, 29, "IC"@);
    let t9 = seq![Token::Word("IC"@)] + t10;
    assert(tokens(s, 27) == t9);
    let t8 = seq![Token::Open] + t9;
    assert(tokens(s, 26) == t8);
    lemma_blanks(s, 25, 26);
    let t7 = t8;
    assert(tokens(s, 25) == t7);
    lemma_word(s, 21, 25, "exec"@);
    let t6 = seq![Token::Word("exec"@)] + t7;
    assert(tokens(s, 21) == t6);
    let t5 = seq![Token::Open] + t6;
    assert(tokens(s, 20) == t5);
    lemma_blanks(s, 19, 20);
    let t4 = t5;
    assert(tokens(s, 19) == t4);
    lemma_word(s, 18, 19, ","@);
    let t3 = seq![Token::Word(","@)] + t4;
    assert(tokens(s, 18) == t3);
    let t2 = seq![Token::Open] + t3;
    assert(tokens(s, 17) == t2);
    lemma_blanks(s, 1, 17);
    let t1 = t2;
    assert(tokens(s, 1) == t1);
    let t0 = seq![Token::Close] + t1;
    assert(tokens(s, 0) == t0);
    assert(t0 =~= seq![
        Token::Close,
        Token::Open,
        Token::Word(","@),
        Token::Open,
        Token::Word("exec"@),
        Token::Open,
        Token::Word("IC"@),
        Token::Word("$x"@),
        Token::Word("$y"@),
        Token::Open,
        Token::Word("S"@),
        Token::Word("$c"@),
        Token::Close,
        Token::Close,
        Token::Word("$sp"@),
        Token::Word("$st"@),
        Token::Close,
        Token::Open,
        Token::Open,
        Token::Word("exec"@),
        Token::Word("$x"@),
        Token::Close,
        Token::Word("$p"@),
        Token::Word("$t"@),
        Token::Close,
        Token::Close,
    ]);
}

/// What the scheduler emits.
proof fn lemma_template_tokens()
    ensures
        tokens("\n               (, (exec (IC $y $x $c) $sp $st)\n                  (exec (R $x) $p $t)))"@, 0) == seq![
            Token::Open,
            Token::Word(","@),
            Token::Open,
            Token::Word("exec"@),
            Token::Open,
            Token::Word("IC"@),
            Token::Word("$y"@),
            Token::Word("$x"@),
            Token::Word("$c"@),
            Token::Close,
            Token::Word("$sp"@),
            Token::Word("$st"@),
            Token::Close,
            Token::Open,
            Token::Word("exec"@),
            Token::Open,
            Token::Word("R"@),
            Token::Word("$x"@),
            Token::Close,
            Token::Word("$p"@),
            Token::Word("$t"@),
            Token::Close,
            Token::Close,
            Token::Close,
        ],
{
    let s = "\n               (, (exec (IC $y $x $c) $sp $st)\n                  (exec (R $x) $p $t)))"@;
    reveal_strlit("\n               (, (exec (IC $y $x $c) $sp $st)\n                  (exec (R $x) $p $t)))");
    assert(s.len() == 87);
    reveal_strlit(",");
    reveal_strlit("exec");
    reveal_strlit("IC");
    reveal_strlit("$y");
    reveal_strlit("$x");
    reveal_strlit("$c");
    reveal_strlit("$sp");
    reveal_strlit("$st");
    reveal_strlit("R");
    reveal_strlit("$p");
    reveal_strlit("$t");
    let t37 = Seq::<Token>::empty();
    assert(tokens(s, 87) =~= t37);
    let t36 = seq![Token::Close] + t37;
    assert(tokens(s, 86) == t36);
    let t35 = seq![Token::Close] + t36;
    assert(tokens(s, 85) == t35);
    let t34 = seq![Token::Close] + t35;
    assert(tokens(s, 84) == t34);
    lemma_word(s, 82, 84, "$t"@);
    let t33 = seq![Token::Word("$t"@)] + t34;
    assert(tokens(s, 82) == t33);
    lemma_blanks(s, 81, 82);
    let t32 = t33;
    assert(tokens(s, 81) == t32);
    lemma_word(s, 79, 81, "$p"@);
    let t31 = seq![Token::Word("$p"@)] + t32;
    assert(tokens(s, 79) == t31);
    lemma_blanks(s, 78, 79);
    let t30 = t31;
    assert(tokens(s, 78) == t30);
    let t29 = seq![Token::Close] + t30;
    assert(tokens(s, 77) == t29);
    lemma_word(s, 75, 77, "$x"@);
    let t28 = seq![Token::Word("$x"@)] + t29;
    assert(tokens(s, 75) == t28);
    lemma_blanks(s, 74, 75);
    let t27 = t28;
    assert(tokens(s, 74) == t27);
    lemma_word(s, 73, 74, "R"@);
    let t26 = seq![Token::Word("R"@)] + t27;
    assert(tokens(s, 73) == t26);
    let t25 = seq![Token::Open] + t26;
    assert(tokens(s, 72) == t25);
    lemma_blanks(s, 71, 72);
    let t24 = t25;
    assert(tokens(s, 71) == t24);
    lemma_word(s, 67, 71, "exec"@);
    let t23 = seq![Token::Word("exec"@)] + t24;
    assert(tokens(s, 67) == t23);
    let t22 = seq![Token::Open] + t23;
    assert(tokens(s, 66) == t22);
    lemma_blanks(s, 47, 66);
    let t21 = t22;
    assert(tokens(s, 47) == t21);
    let t20 = seq![Token::Close] + t21;
    assert(tokens(s, 46) == t20);
    lemma_word(s, 43, 46, "$st"@);
    let t19 = seq![Token::Word("$st"@)] + t20;
    assert(tokens(s, 43) == t19);
    lemma_blanks(s, 42, 43);
    let t18 = t19;
    assert(tokens(s, 42) == t18);
    lemma_word(s, 39, 42, "$sp"@);
    let t17 = seq![Token::Word("$sp"@)] + t18;
    assert(tokens(s, 39) == t17);
    lemma_blanks(s, 38, 39);
    let t16 = t17;
    assert(tokens(s, 38) == t16);
    let t15 = seq![Token::Close] + t16;
    assert(tokens(s, 37) == t15);
    lemma_word(s, 35, 37, "$c"@);
    let t14 = seq![Token::Word("$c"@)] + t15;
    assert(tokens(s, 35) == t14);
    lemma_blanks(s, 34, 35);
    let t13 = t14;
    assert(tokens(s, 34) == t13);
    lemma_word(s, 32, 34, "$x"@);
    let t12 = seq![Token::Word("$x"@)] + t13;
    assert(tokens(s, 32) == t12);
    lemma_blanks(s, 31, 32);
    let t11 = t12;
    assert(tokens(s, 31) == t11);
    lemma_word(s, 29, 31, "$y"@);
    let t10 = seq![Token::Word("$y"@)] + t11;
    assert(tokens(s, 29) == t10);
    lemma_blanks(s, 28, 29);
    let t9 = t10;
    assert(tokens(s, 28) == t9);
    lemma_word(s, 26, 28, "IC"@);
    let t8 = seq![Token::Word("IC"@)] + t9;
    assert(tokens(s, 26) == t8);
    let t7 = seq![Token::Open] + t8;
    assert(tokens(s, 25) == t7);
    lemma_blanks(s, 24, 25);
    let t6 = t7;
    assert(tokens(s, 24) == t6);
    lemma_word(s, 20, 24, "exec"@);
    let t5 = seq![Token::Word("exec"@)] + t6;
    assert(tokens(s, 20) == t5);
    let t4 = seq![Token::Open] + t5;
    assert(tokens(s, 19) == t4);
    lemma_blanks(s, 18, 19);
    let t3 = t4;
    assert(tokens(s, 18) == t3);
    lemma_word(s, 17, 18, ","@);
    let t2 = seq![Token::Word(","@)] + t3;
    assert(tokens(s, 17) == t2);
    let t1 = seq![Token::Open] + t2;
    assert(tokens(s, 16) == t1);
    lemma_blanks(s, 0, 16);
    let t0 = t1;
    assert(tokens(s, 0) == t0);
    assert(t0 =~= seq![
        Token::Open,
        Token::Word(","@),
        Token::Open,
        Token::Word("exec"@),
        Token::Open,
        Token::Word("IC"@),
        Token::Word("$y"@),
        Token::Word("$x"@),
        Token::Word("$c"@),
        Token::Close,
        Token::Word("$sp"@),
        Token::Word("$st"@),
        Token::Close,
        Token::Open,
        Token::Word("exec"@),
        Token::Open,
        Token::Word("R"@),
        Token::Word("$x"@),
        Token::Close,
        Token::Word("$p"@),
        Token::Word("$t"@),
        Token::Close,
        Token::Close,
        Token::Close,
    ]);
}

/// The rewrite rule.
proof fn lemma_rewrite_tokens()
    ensures
        tokens("\n((exec 0) (, (mm2-ev $x) (= $x $y)) (, (mm2-ev $y)))\n"@, 0) == seq![
            Token::Open,
            Token::Open,
            Token::Word("exec"@),
            Token::Word("0"@),
            Token::Close,
            Token::Open,
            Token::Word(","@),
            Token::Open,
            Token::Word("mm2-ev"@),
            Token::Word("$x"@),
            Token::Close,
            Token::Open,
            Token::Word("="@),
            Token::Word("$x"@),
            Token::Word("$y"@),
            Token::Close,
            Token::Close,
            Token::Open,
            Token::Word(","@),
            Token::Open,
            Token::Word("mm2-ev"@),
            Token::Word("$y"@),
            Token::Close,
            Token::Close,
            Token::Close,
        ],
{
    let s = "\n((exec 0) (, (mm2-ev $x) (= $x $y)) (, (mm2-ev $y)))\n"@;
    reveal_strlit("\n((exec 0) (, (mm2-ev $x) (= $x $y)) (, (mm2-ev $y)))\n");
    assert(s.len() == 54);
    reveal_strlit("exec");
    reveal_strlit("0");
    reveal_strlit(",");
    reveal_strlit("mm2-ev");
    reveal_strlit("$x");
    reveal_strlit("=");
    reveal_strlit("$y");
    let t37 = Seq::<Token>::empty();
    assert(tokens(s, 54) =~= t37);
    lemma_blanks(s, 53, 54);
    let t36 = t37;
    assert(tokens(s, 53) == t36);
    let t35 = seq![Token::Close] + t36;
    assert(tokens(s, 52) == t35);
    let t34 = seq![Token::Close] + t35;
    assert(tokens(s, 51) == t34);
    let t33 = seq![Token::Close] + t34;
    assert(tokens(s, 50) == t33);
    lemma_word(s, 48, 50, "$y"@);
    let t32 = seq![Token::Word("$y"@)] + t33;
    assert(tokens(s, 48) == t32);
    lemma_blanks(s, 47, 48);
    let t31 = t32;
    assert(tokens(s, 47) == t31);
    lemma_word(s, 41, 47, "mm2-ev"@);
    let t30 = seq![Token::Word("mm2-ev"@)] + t31;
    assert(tokens(s, 41) == t30);
    let t29 = seq![Token::Open] + t30;
    assert(tokens(s, 40) == t29);
    lemma_blanks(s, 39, 40);
    let t28 = t29;
    assert(tokens(s, 39) == t28);
    lemma_word(s, 38, 39, ","@);
    let t27 = seq![Token::Word(","@)] + t28;
    assert(tokens(s, 38) == t27);
    let t26 = seq![Token::Open] + t27;
    assert(tokens(s, 37) == t26);
    lemma_blanks(s, 36, 37);
    let t25 = t26;
    assert(tokens(s, 36) == t25);
    let t24 = seq![Token::Close] + t25;
    assert(tokens(s, 35) == t24);
    let t23 = seq![Token::Close] + t24;
    assert(tokens(s, 34) == t23);
    lemma_word(s, 32, 34, "$y"@);
    let t22 = seq![Token::Word("$y"@)] + t23;
    assert(tokens(s, 32) == t22);
    lemma_blanks(s, 31, 32);
    let t21 = t22;
    assert(tokens(s, 31) == t21);
    lemma_word(s, 29, 31, "$x"@);
    let t20 = seq![Token::Word("$x"@)] + t21;
    assert(tokens(s, 29) == t20);
    lemma_blanks(s, 28, 29);
    let t19 = t20;
    assert(tokens(s, 28) == t19);
    lemma_word(s, 27, 28, "="@);
    let t18 = seq![Token::Word("="@)] + t19;
    assert(tokens(s, 27) == t18);
    let t17 = seq![Token::Open] + t18;
    assert(tokens(s, 26) == t17);
    lemma_blanks(s, 25, 26);
    let t16 = t17;
    assert(tokens(s, 25) == t16);
    let t15 = seq![Token::Close] + t16;
    assert(tokens(s, 24) == t15);
    lemma_word(s, 22, 24, "$x"@);
    let t14 = seq![Token::Word("$x"@)] + t15;
    assert(tokens(s, 22) == t14);
    lemma_blanks(s, 21, 22);
    let t13 = t14;
    assert(tokens(s, 21) == t13);
    lemma_word(s, 15, 21, "mm2-ev"@);
    let t12 = seq![Token::Word("mm2-ev"@)] + t13;
    assert(tokens(s, 15) == t12);
    let t11 = seq![Token::Open] + t12;
    assert(tokens(s, 14) == t11);
    lemma_blanks(s, 13, 14);
    let t10 = t11;
    assert(tokens(s, 13) == t10);
    lemma_word(s, 12, 13, ","@);
    let t9 = seq![Token::Word(","@)] + t10;
    assert(tokens(s, 12) == t9);
    let t8 = seq![Token::Open] + t9;
    assert(tokens(s, 11) == t8);
    lemma_blanks(s, 10, 11);
    let t7 = t8;
    assert(tokens(s, 10) == t7);
    let t6 = seq![Token::Close] + t7;
    assert(tokens(s, 9) == t6);
    lemma_word(s, 8, 9, "0"@);
    let t5 = seq![Token::Word("0"@)] + t6;
    assert(tokens(s, 8) == t5);
    lemma_blanks(s, 7, 8);
    let t4 = t5;
    assert(tokens(s, 7) == t4);
    lemma_word(s, 3, 7, "exec"@);
    let t3 = seq![Token::Word("exec"@)] + t4;
    assert(tokens(s, 3) == t3);
    let t2 = seq![Token::Open] + t3;
    assert(tokens(s, 2) == t2);
    let t1 = seq![Token::Open] + t2;
    assert(tokens(s, 1) == t1);
    lemma_blanks(s, 0, 1);
    let t0 = t1;
    assert(tokens(s, 0) == t0);
    assert(t0 =~= seq![
        Token::Open,
        Token::Open,
        Token::Word("exec"@),
        Token::Word("0"@),
        Token::Close,
        Token::Open,
        Token::Word(","@),
        Token::Open,
        Token::Word("mm2-ev"@),
        Token::Word("$x"@),
        Token::Close,
        Token::Open,
        Token::Word("="@),
        Token::Word("$x"@),
        Token::Word("$y"@),
        Token::Close,
        Token::Close,
        Token::Open,
        Token::Word(","@),
        Token::Open,
        Token::Word("mm2-ev"@),
        Token::Word("$y"@),
        Token::Close,
        Token::Close,
        Token::Close,
    ]);
}

/// A numeral: `n` times `S` around `Z`.
pub open spec fn numeral(n: nat) -> Term
    decreases n,
{
    if n == 0 {
        Term::Symbol("Z"@)
    } else {
        two(Term::Symbol("S"@), numeral((n - 1) as nat))
    }
}

/// The fuel spells its numeral.
proof fn lemma_fuel_tokens(n: nat)
    ensures
        tokens(peano(n), 0) == spelled(numeral(n)),
        peano(n).len() > 0,
        is_plain(numeral(n)),
    decreases n,
{
    let z = Term::Symbol("Z"@);
    reveal_strlit("Z");
    if n == 0 {
        let s = "Z"@;
        assert(tokens(s, 1) =~= Seq::empty());
        lemma_word(s, 0, 1, s);
        assert(tokens(s, 0) =~= spelled(z));
    } else {
        let m = (n - 1) as nat;
        lemma_fuel_tokens(m);
        reveal_strlit("(S ");
        reveal_strlit("S");
        reveal_strlit(")");
        let (a, c) = ("(S "@, ")"@);
        assert(tokens(a, 3) =~= Seq::empty());
        lemma_blanks(a, 2, 3);
        lemma_word(a, 1, 2, "S"@);
        assert(tokens(a, 0) =~= seq![Token::Open, Token::Word("S"@)]);
        assert(tokens(c, 1) =~= Seq::empty());
        assert(tokens(c, 0) =~= seq![Token::Close]);
        lemma_tokens_concat(a, peano(m), 0);
        lemma_tokens_concat(a + peano(m), c, 0);
        lemma_small(Term::Symbol("S"@), numeral(m), z, z, |v: Variable| z);
        assert(tokens(peano(n), 0) =~= spelled(numeral(n)));
    }
}

/// What the scheduler matches: a scheduler with fuel left, and the dormant rule
/// that it is about to arm.
spec fn scheduler_patterns() -> Term {
    three(
        Term::Symbol(","@),
        four(
            Term::Symbol("exec"@),
            four(
                Term::Symbol("IC"@),
                named("x"@),
                named("y"@),
                two(Term::Symbol("S"@), named("c"@)),
            ),
            named("sp"@),
            named("st"@),
        ),
        three(two(Term::Symbol("exec"@), named("x"@)), named("p"@), named("t"@)),
    )
}

/// What the scheduler emits: itself with less fuel, and the rule armed.
spec fn scheduler_templates() -> Term {
    three(
        Term::Symbol(","@),
        four(
            Term::Symbol("exec"@),
            four(Term::Symbol("IC"@), named("y"@), named("x"@), named("c"@)),
            named("sp"@),
            named("st"@),
        ),
        four(
            Term::Symbol("exec"@),
            two(Term::Symbol("R"@), named("x"@)),
            named("p"@),
            named("t"@),
        ),
    )
}

/// The scheduler with some fuel.
spec fn scheduler(fuel: Term) -> Term {
    four(
        Term::Symbol("exec"@),
        four(Term::Symbol("IC"@), Term::Symbol("0"@), Term::Symbol("0"@), fuel),
        scheduler_patterns(),
        scheduler_templates(),
    )
}

/// The rewrite rule, dormant.
spec fn rewrite_rule() -> Term {
    three(
        two(Term::Symbol("exec"@), Term::Symbol("0"@)),
        three(
            Term::Symbol(","@),
            two(Term::Symbol("mm2-ev"@), named("x"@)),
            three(Term::Symbol("="@), named("x"@), named("y"@)),
        ),
        two(Term::Symbol(","@), two(Term::Symbol("mm2-ev"@), named("y"@))),
    )
}

/// How the words of the rules are read.
proof fn lemma_words()
    ensures
        forall|name: Seq<char>| #[trigger] spelled(named(name)) == seq![
            Token::Word(seq!['$'] + name),
        ],
        forall|name: Seq<char>| is_plain(#[trigger] named(name)),
        "$x"@ == seq!['$'] + "x"@,
        "$y"@ == seq!['$'] + "y"@,
        "$c"@ == seq!['$'] + "c"@,
        "$p"@ == seq!['$'] + "p"@,
        "$t"@ == seq!['$'] + "t"@,
        "$sp"@ == seq!['$'] + "sp"@,
        "$st"@ == seq!['$'] + "st"@,
        is_plain(Term::Symbol("exec"@)),
        is_plain(Term::Symbol("IC"@)),
        is_plain(Term::Symbol("R"@)),
        is_plain(Term::Symbol("S"@)),
        is_plain(Term::Symbol("0"@)),
        is_plain(Term::Symbol(","@)),
        is_plain(Term::Symbol("="@)),
        is_plain(Term::Symbol("mm2-ev"@)),
{
    reveal_strlit("$x");
    reveal_strlit("$y");
    reveal_strlit("$c");
    reveal_strlit("$p");
    reveal_strlit("$t");
    reveal_strlit("$sp");
    reveal_strlit("$st");
    reveal_strlit("x");
    reveal_strlit("y");
    reveal_strlit("c");
    reveal_strlit("p");
    reveal_strlit("t");
    reveal_strlit("sp");
    reveal_strlit("st");
    reveal_strlit("exec");
    reveal_strlit("IC");
    reveal_strlit("R");
    reveal_strlit("S");
    reveal_strlit("0");
    reveal_strlit(",");
    reveal_strlit("=");
    reveal_strlit("mm2-ev");
    assert("$x"@ =~= seq!['$'] + "x"@);
    assert("$y"@ =~= seq!['$'] + "y"@);
    assert("$c"@ =~= seq!['$'] + "c"@);
    assert("$p"@ =~= seq!['$'] + "p"@);
    assert("$t"@ =~= seq!['$'] + "t"@);
    assert("$sp"@ =~= seq!['$'] + "sp"@);
    assert("$st"@ =~= seq!['$'] + "st"@);
}

/// The pieces of what the scheduler matches.
proof fn lemma_pattern_pieces()
    ensures
        is_plain(scheduler_patterns()),
        seq![Token::Close] + spelled(scheduler_patterns()) == seq![
            Token::Close,
            Token::Open,
            Token::Word(","@),
            Token::Open,
            Token::Word("exec"@),
            Token::Open,
            Token::Word("IC"@),
            Token::Word("$x"@),
            Token::Word("$y"@),
            Token::Open,
            Token::Word("S"@),
            Token::Word("$c"@),
            Token::Close,
            Token::Close,
            Token::Word("$sp"@),
            Token::Word("$st"@),
            Token::Close,
            Token::Open,
            Token::Open,
            Token::Word("exec"@),
            Token::Word("$x"@),
            Token::Close,
            Token::Word("$p"@),
            Token::Word("$t"@),
            Token::Close,
            Token::Close,
        ],
{
    lemma_words();
    let z = Term::Symbol("S"@);
    let value = |v: Variable| z;
    let (exec, x, y, c) = (Term::Symbol("exec"@), named("x"@), named("y"@), named("c"@));
    let (sp, st, p, t) = (named("sp"@), named("st"@), named("p"@), named("t"@));
    let fuel = two(z, c);
    let place = four(Term::Symbol("IC"@), x, y, fuel);
    let armed = four(exec, place, sp, st);
    let dormant = three(two(exec, x), p, t);
    lemma_small(z, c, z, z, value);
    lemma_small(Term::Symbol("IC"@), x, y, fuel, value);
    lemma_small(exec, place, sp, st, value);
    lemma_small(exec, x, z, z, value);
    lemma_small(two(exec, x), p, t, z, value);
    lemma_small(Term::Symbol(","@), armed, dormant, z, value);
    assert(seq![Token::Close] + spelled(scheduler_patterns()) =~= seq![
            Token::Close,
            Token::Open,
            Token::Word(","@),
            Token::Open,
            Token::Word("exec"@),
            Token::Open,
            Token::Word("IC"@),
            Token::Word("$x"@),
            Token::Word("$y"@),
            Token::Open,
            Token::Word("S"@),
            Token::Word("$c"@),
            Token::Close,
            Token::Close,
            Token::Word("$sp"@),
            Token::Word("$st"@),
            Token::Close,
            Token::Open,
            Token::Open,
            Token::Word("exec"@),
            Token::Word("$x"@),
            Token::Close,
            Token::Word("$p"@),
            Token::Word("$t"@),
            Token::Close,
            Token::Close,
    ]);
}

/// The pieces of what the scheduler emits.
proof fn lemma_template_pieces()
    ensures
        is_plain(scheduler_templates()),
        spelled(scheduler_templates()) + seq![Token::Close] == seq![
            Token::Open,
            Token::Word(","@),
            Token::Open,
            Token::Word("exec"@),
            Token::Open,
            Token::Word("IC"@),
            Token::Word("$y"@),
            Token::Word("$x"@),
            Token::Word("$c"@),
            Token::Close,
            Token::Word("$sp"@),
            Token::Word("$st"@),
            Token::Close,
            Token::Open,
            Token::Word("exec"@),
            Token::Open,
            Token::Word("R"@),
            Token::Word("$x"@),
            Token::Close,
            Token::Word("$p"@),
            Token::Word("$t"@),
            Token::Close,
            Token::Close,
            Token::Close,
        ],
{
    lemma_words();
    let z = Term::Symbol("S"@);
    let value = |v: Variable| z;
    let (exec, x, y, c) = (Term::Symbol("exec"@), named("x"@), named("y"@), named("c"@));
    let (sp, st, p, t) = (named("sp"@), named("st"@), named("p"@), named("t"@));
    let place = four(Term::Symbol("IC"@), y, x, c);
    let rearmed = four(exec, place, sp, st);
    let rule = four(exec, two(Term::Symbol("R"@), x), p, t);
    lemma_small(Term::Symbol("IC"@), y, x, c, value);
    lemma_small(exec, place, sp, st, value);
    lemma_small(Term::Symbol("R"@), x, z, z, value);
    lemma_small(exec, two(Term::Symbol("R"@), x), p, t, value);
    lemma_small(Term::Symbol(","@), rearmed, rule, z, value);
    assert(spelled(scheduler_templates()) + seq![Token::Close] =~= seq![
            Token::Open,
            Token::Word(","@),
            Token::Open,
            Token::Word("exec"@),
            Token::Open,
            Token::Word("IC"@),
            Token::Word("$y"@),
            Token::Word("$x"@),
            Token::Word("$c"@),
            Token::Close,
            Token::Word("$sp"@),
            Token::Word("$st"@),
            Token::Close,
            Token::Open,
            Token::Word("exec"@),
            Token::Open,
            Token::Word("R"@),
            Token::Word("$x"@),
            Token::Close,
            Token::Word("$p"@),
            Token::Word("$t"@),
            Token::Close,
            Token::Close,
            Token::Close,
    ]);
}

/// The pieces of the rewrite rule.
proof fn lemma_rewrite_pieces()
    ensures
        is_plain(rewrite_rule()),
        spelled(rewrite_rule()) == seq![
            Token::Open,
            Token::Open,
            Token::Word("exec"@),
            Token::Word("0"@),
            Token::Close,
            Token::Open,
            Token::Word(","@),
            Token::Open,
            Token::Word("mm2-ev"@),
            Token::Word("$x"@),
            Token::Close,
            Token::Open,
            Token::Word("="@),
            Token::Word("$x"@),
            Token::Word("$y"@),
            Token::Close,
            Token::Close,
            Token::Open,
            Token::Word(","@),
            Token::Open,
            Token::Word("mm2-ev"@),
            Token::Word("$y"@),
            Token::Close,
            Token::Close,
            Token::Close,
        ],
{
    lemma_words();
    let z = Term::Symbol("S"@);
    let value = |v: Variable| z;
    let (exec, zero, x, y) = (
        Term::Symbol("exec"@),
        Term::Symbol("0"@),
        named("x"@),
        named("y"@),
    );
    let (ev, eq, comma) = (Term::Symbol("mm2-ev"@), Term::Symbol("="@), Term::Symbol(","@));
    let (seed, rule, result) = (two(ev, x), three(eq, x, y), two(ev, y));
    lemma_small(exec, zero, z, z, value);
    lemma_small(ev, x, z, z, value);
    lemma_small(ev, y, z, z, value);
    lemma_small(eq, x, y, z, value);
    lemma_small(comma, seed, rule, z, value);
    lemma_small(comma, result, z, z, value);
    lemma_small(
        two(exec, zero),
        three(comma, seed, rule),
        two(comma, result),
        z,
        value,
    );
    assert(spelled(rewrite_rule()) =~= seq![
            Token::Open,
            Token::Open,
            Token::Word("exec"@),
            Token::Word("0"@),
            Token::Close,
            Token::Open,
            Token::Word(","@),
            Token::Open,
            Token::Word("mm2-ev"@),
            Token::Word("$x"@),
            Token::Close,
            Token::Open,
            Token::Word("="@),
            Token::Word("$x"@),
            Token::Word("$y"@),
            Token::Close,
            Token::Close,
            Token::Open,
            Token::Word(","@),
            Token::Open,
            Token::Word("mm2-ev"@),
            Token::Word("$y"@),
            Token::Close,
            Token::Close,
            Token::Close,
    ]);
}

/// The rules spell the scheduler with its fuel and the rewrite rule.
proof fn lemma_rules_are_read(n: nat)
    ensures
        parsed(reduce_rules(n)) == Some(seq![scheduler(numeral(n)), rewrite_rule()]),
        is_plain(scheduler(numeral(n))),
{
    let front = "\n(exec (IC 0 0 "@;
    let fuel = peano(n);
    let patterns = ")\n               (, (exec (IC $x $y (S $c)) $sp $st)\n                  ((exec $x) $p $t))"@;
    let templates = "\n               (, (exec (IC $y $x $c) $sp $st)\n                  (exec (R $x) $p $t)))"@;
    let rewrite = "\n((exec 0) (, (mm2-ev $x) (= $x $y)) (, (mm2-ev $y)))\n"@;
    reveal_strlit("\n(exec (IC 0 0 ");
    reveal_strlit(")\n               (, (exec (IC $x $y (S $c)) $sp $st)\n                  ((exec $x) $p $t))");
    reveal_strlit("\n               (, (exec (IC $y $x $c) $sp $st)\n                  (exec (R $x) $p $t)))");
    reveal_strlit("\n((exec 0) (, (mm2-ev $x) (= $x $y)) (, (mm2-ev $y)))\n");
    lemma_front_tokens();
    lemma_fuel_tokens(n);
    lemma_pattern_tokens();
    lemma_template_tokens();
    lemma_rewrite_tokens();
    lemma_pattern_pieces();
    lemma_template_pieces();
    lemma_rewrite_pieces();
    lemma_words();
    let t1 = front + fuel;
    let t2 = t1 + patterns;
    let t3 = t2 + templates;
    let t4 = t3 + rewrite;
    assert(front.last() == ' ');
    lemma_tokens_concat(front, fuel, 0);
    lemma_tokens_concat(t1, patterns, 0);
    lemma_tokens_concat(t2, templates, 0);
    lemma_tokens_concat(t3, rewrite, 0);
    assert(reduce_rules(n) =~= t4);
    let z = Term::Symbol("S"@);
    let value = |v: Variable| z;
    let (exec, zero) = (Term::Symbol("exec"@), Term::Symbol("0"@));
    let place = four(Term::Symbol("IC"@), zero, zero, numeral(n));
    lemma_small(Term::Symbol("IC"@), zero, zero, numeral(n), value);
    lemma_small(exec, place, scheduler_patterns(), scheduler_templates(), value);
    let (ps, ts) = (spelled(scheduler_patterns()), spelled(scheduler_templates()));
    assert(tokens(t1, 0) == tokens(front, 0) + spelled(numeral(n)));
    assert(tokens(t2, 0) == tokens(t1, 0) + (seq![Token::Close] + ps));
    assert(tokens(t3, 0) == tokens(t2, 0) + (ts + seq![Token::Close]));
    let head = seq![Token::Open, Token::Word("exec"@)];
    let inner = seq![
        Token::Open,
        Token::Word("IC"@),
        Token::Word("0"@),
        Token::Word("0"@),
    ];
    assert(tokens(front, 0) =~= head + inner);
    assert(spelled(exec) == seq![Token::Word("exec"@)]);
    assert(spelled(place) =~= inner + spelled(numeral(n)) + seq![Token::Close]);
    assert(spelled(scheduler(numeral(n))) =~= head + spelled(place) + ps + ts + seq![Token::Close]);
    assert(tokens(t3, 0) =~= spelled(scheduler(numeral(n))));
    assert(tokens(t4, 0) =~= spelled(scheduler(numeral(n))) + spelled(rewrite_rule()));
    lemma_two_terms_are_read(scheduler(numeral(n)), rewrite_rule());
}

/// With their variables replaced, all terms behind the comma of a row hold.
pub open spec fn row_holds(
    row: Term,
    value: spec_fn(Variable) -> Term,
    holds: spec_fn(Term) -> bool,
) -> bool {
    &&& row is Expression
    &&& row->Expression_0.len() > 0
    &&& row->Expression_0[0] == Term::Symbol(","@)
    &&& forall|i: int|
        1 <= i < row->Expression_0.len() ==> holds(
            instance(#[trigger] row->Expression_0[i], value),
        )
}

/// The term is one of those behind the comma of a row, with its variables
/// replaced.
pub open spec fn row_emits(row: Term, value: spec_fn(Variable) -> Term, u: Term) -> bool {
    &&& row is Expression
    &&& row->Expression_0.len() > 0
    &&& row->Expression_0[0] == Term::Symbol(","@)
    &&& exists|j: int|
        1 <= j < row->Expression_0.len() && u == instance(#[trigger] row->Expression_0[j], value)
}

/// A rule emits a term: under some values of its variables everything that it
/// matches holds, and the term is one of its templates.
pub open spec fn rule_emits(
    patterns: Term,
    templates: Term,
    holds: spec_fn(Term) -> bool,
    u: Term,
) -> bool {
    exists|value: spec_fn(Variable) -> Term| #[trigger]
        row_holds(patterns, value, holds) && row_emits(templates, value, u)
}

/// One round of an evaluation rewrites by the equations, from left to right: from a
/// reached term that is the left side of an equation that holds it reaches the right
/// side of that equation, for every such equation, and nothing else. `holds` says
/// which terms hold, those of schematic atoms with their variables replaced among
/// them.
pub proof fn rounds_rewrite_by_the_equations(n: nat, holds: spec_fn(Term) -> bool, u: Term)
    ensures
        parsed(reduce_rules(n)) matches Some(rules) && rules.len() == 2 && {
            let rule = rules[1];
            &&& rule is Expression && rule->Expression_0.len() == 3
            &&& rule_emits(rule->Expression_0[1], rule->Expression_0[2], holds, u)
                <==> exists|l: Term, r: Term|
                holds(seed_term(l)) && #[trigger] holds(
                    three(Term::Symbol("="@), l, r),
                ) && u == seed_term(r)
        },
{
    lemma_rules_are_read(n);
    let (ev, eq, comma) = (Term::Symbol("mm2-ev"@), Term::Symbol("="@), Term::Symbol(","@));
    let (vx, vy) = (Variable { name: "x"@, id: 0 }, Variable { name: "y"@, id: 0 });
    let (x, y) = (Term::Variable(vx), Term::Variable(vy));
    reveal_strlit("x");
    reveal_strlit("y");
    assert("x"@[0] != "y"@[0]);
    let rule = rewrite_rule();
    let (ps, ts) = (rule->Expression_0[1], rule->Expression_0[2]);
    assert(ps == three(comma, two(ev, x), three(eq, x, y)));
    assert(ts == two(comma, two(ev, y)));
    let (prow, trow) = (ps->Expression_0, ts->Expression_0);
    assert(prow[0] == comma && prow[1] == two(ev, x) && prow[2] == three(eq, x, y));
    assert(trow[0] == comma && trow[1] == two(ev, y));
    assert forall|value: spec_fn(Variable) -> Term|
        #![trigger value(vx)]
        instance(two(ev, x), value) == seed_term(value(vx)) && instance(two(ev, y), value)
            == seed_term(value(vy)) && instance(three(eq, x, y), value) == Term::Expression(
            seq![eq, value(vx), value(vy)],
            false,
        ) by {
        lemma_small(ev, x, x, x, value);
        lemma_small(ev, y, x, x, value);
        lemma_small(eq, x, y, x, value);
        assert(instance(x, value) == value(vx));
        assert(instance(y, value) == value(vy));
    }
    if rule_emits(ps, ts, holds, u) {
        let value = choose|value: spec_fn(Variable) -> Term| #[trigger]
            row_holds(ps, value, holds) && row_emits(ts, value, u);
        let (l, r) = (value(vx), value(vy));
        assert(holds(instance(prow[1], value)));
        assert(holds(instance(prow[2], value)));
        let j = choose|j: int|
            1 <= j < ts->Expression_0.len() && u == instance(
                #[trigger] ts->Expression_0[j],
                value,
            );
        assert(j == 1);
        assert(holds(seed_term(l)) && holds(three(Term::Symbol("="@), l, r)));
    }
    if exists|l: Term, r: Term|
        holds(seed_term(l)) && #[trigger] holds(
            three(Term::Symbol("="@), l, r),
        ) && u == seed_term(r) {
        let (l, r) = choose|l: Term, r: Term|
            holds(seed_term(l)) && #[trigger] holds(
                three(Term::Symbol("="@), l, r),
            ) && u == seed_term(r);
        let value = |v: Variable|
            if v == vx {
                l
            } else {
                r
            };
        assert(value(vx) == l && value(vy) == r);
        assert(holds(instance(prow[1], value)) && holds(instance(prow[2], value)));
        assert(row_holds(ps, value, holds));
        assert(u == instance(trow[1], value));
        assert(row_emits(ts, value, u));
    }
}

/// The probe of a term asks for an equation with the term on its left side, and the
/// question which terms were reached asks for seeds.
pub proof fn probes_and_seeds_fit_the_rules(t: Term, value: spec_fn(Variable) -> Term)
    ensures
        instance(probe_term(t), value) == Term::Expression(
            seq![
                Term::Symbol("="@),
                instance(t, value),
                value(Variable { name: "mm2_reduct"@, id: 0 }),
            ],
            false,
        ),
        instance(seed_term(t), value) == seed_term(instance(t, value)),
{
    let (ev, eq) = (Term::Symbol("mm2-ev"@), Term::Symbol("="@));
    let reduct = Term::Variable(Variable { name: "mm2_reduct"@, id: 0 });
    assert(probe_term(t) == three(eq, t, reduct));
    assert(seed_term(t) == two(ev, t));
    lemma_small(eq, t, reduct, t, value);
    lemma_small(ev, t, t, t, value);
}

/// The scheduler arms the dormant rule of its place once for each unit of fuel. It
/// starts with `n` units. It emits exactly this: where a scheduler with fuel left and
/// a dormant rule of its place hold, that scheduler with one unit less and its two
/// places exchanged, and that rule armed.
pub proof fn the_scheduler_burns_its_fuel(n: nat, holds: spec_fn(Term) -> bool, u: Term)
    ensures
        parsed(reduce_rules(n)) matches Some(rules) && rules.len() == 2 && {
            let (exec, rule) = (Term::Symbol("exec"@), rules[0]);
            &&& rule is Expression && rule->Expression_0.len() == 4
            &&& rule->Expression_0[0] == exec
            &&& rule->Expression_0[1] == Term::Expression(
                seq![
                    Term::Symbol("IC"@),
                    Term::Symbol("0"@),
                    Term::Symbol("0"@),
                    numeral(n),
                ],
                false,
            )
            &&& rules[1]->Expression_0[0] == Term::Expression(seq![exec, Term::Symbol("0"@)], false)
            &&& rule_emits(rule->Expression_0[2], rule->Expression_0[3], holds, u)
                <==> exists|x: Term, y: Term, c: Term, sp: Term, st: Term, p: Term, t: Term|
                #[trigger] holds(
                    four(
                        exec,
                        four(Term::Symbol("IC"@), x, y, two(Term::Symbol("S"@), c)),
                        sp,
                        st,
                    ),
                ) && #[trigger] holds(three(two(exec, x), p, t)) && (u == four(
                    exec,
                    four(Term::Symbol("IC"@), y, x, c),
                    sp,
                    st,
                ) || u == four(exec, two(Term::Symbol("R"@), x), p, t))
        },
{
    lemma_rules_are_read(n);
    let rule = scheduler(numeral(n));
    assert(rule->Expression_0[0] == Term::Symbol("exec"@));
    let (ps, ts) = (scheduler_patterns(), scheduler_templates());
    assert(rule->Expression_0[2] == ps);
    assert(rule->Expression_0[3] == ts);
    if rule_emits(ps, ts, holds, u) {
        let value = choose|value: spec_fn(Variable) -> Term| #[trigger]
            row_holds(ps, value, holds) && row_emits(ts, value, u);
        lemma_scheduler_instances(value);
        let (x, y, c) = (at(value, "x"@), at(value, "y"@), at(value, "c"@));
        let (sp, st) = (at(value, "sp"@), at(value, "st"@));
        let (p, t) = (at(value, "p"@), at(value, "t"@));
        assert(holds(instance(ps->Expression_0[1], value)));
        assert(holds(instance(ps->Expression_0[2], value)));
        let j = choose|j: int|
            1 <= j < ts->Expression_0.len() && u == instance(
                #[trigger] ts->Expression_0[j],
                value,
            );
        assert(j == 1 || j == 2);
        assert(holds(
            four(
                Term::Symbol("exec"@),
                four(Term::Symbol("IC"@), x, y, two(Term::Symbol("S"@), c)),
                sp,
                st,
            ),
        ));
        assert(holds(three(two(Term::Symbol("exec"@), x), p, t)));
    }
    if exists|x: Term, y: Term, c: Term, sp: Term, st: Term, p: Term, t: Term|
        #[trigger] holds(
            four(
                Term::Symbol("exec"@),
                four(Term::Symbol("IC"@), x, y, two(Term::Symbol("S"@), c)),
                sp,
                st,
            ),
        ) && #[trigger] holds(three(two(Term::Symbol("exec"@), x), p, t)) && (u
            == burnt_scheduler(x, y, c, sp, st) || u == armed_rule(x, p, t)) {
        let (x, y, c, sp, st, p, t) = choose|
            x: Term,
            y: Term,
            c: Term,
            sp: Term,
            st: Term,
            p: Term,
            t: Term,
        |
            #[trigger] holds(
                four(
                    Term::Symbol("exec"@),
                    four(Term::Symbol("IC"@), x, y, two(Term::Symbol("S"@), c)),
                    sp,
                    st,
                ),
            ) && #[trigger] holds(three(two(Term::Symbol("exec"@), x), p, t)) && (u
                == burnt_scheduler(x, y, c, sp, st) || u == armed_rule(x, p, t));
        let value = |v: Variable|
            if v.name == "x"@ {
                x
            } else if v.name == "y"@ {
                y
            } else if v.name == "c"@ {
                c
            } else if v.name == "sp"@ {
                sp
            } else if v.name == "st"@ {
                st
            } else if v.name == "p"@ {
                p
            } else {
                t
            };
        lemma_names_differ();
        assert(at(value, "x"@) == x && at(value, "y"@) == y && at(value, "c"@) == c);
        assert(at(value, "sp"@) == sp && at(value, "st"@) == st);
        assert(at(value, "p"@) == p && at(value, "t"@) == t);
        lemma_scheduler_instances(value);
        let (prow, trow) = (ps->Expression_0, ts->Expression_0);
        assert(holds(instance(prow[1], value)) && holds(instance(prow[2], value)));
        assert(row_holds(ps, value, holds));
        if u == burnt_scheduler(x, y, c, sp, st) {
            assert(u == instance(trow[1], value));
        } else {
            assert(u == instance(trow[2], value));
        }
        assert(row_emits(ts, value, u));
    }
}

/// The value of the variable of a bare name.
spec fn at(value: spec_fn(Variable) -> Term, name: Seq<char>) -> Term {
    value(Variable { name, id: 0 })
}

/// A scheduler at some places, with fuel left.
spec fn armed_scheduler(x: Term, y: Term, c: Term, sp: Term, st: Term) -> Term {
    four(
        Term::Symbol("exec"@),
        four(Term::Symbol("IC"@), x, y, two(Term::Symbol("S"@), c)),
        sp,
        st,
    )
}

/// The scheduler after one more round.
spec fn burnt_scheduler(x: Term, y: Term, c: Term, sp: Term, st: Term) -> Term {
    four(Term::Symbol("exec"@), four(Term::Symbol("IC"@), y, x, c), sp, st)
}

/// A dormant rule of a place.
spec fn dormant_rule(x: Term, p: Term, t: Term) -> Term {
    three(two(Term::Symbol("exec"@), x), p, t)
}

/// The rule armed.
spec fn armed_rule(x: Term, p: Term, t: Term) -> Term {
    four(Term::Symbol("exec"@), two(Term::Symbol("R"@), x), p, t)
}

/// The variables of the scheduler have different names.
proof fn lemma_names_differ()
    ensures
        "x"@ != "y"@ && "x"@ != "c"@ && "x"@ != "p"@ && "x"@ != "t"@ && "x"@ != "sp"@ && "x"@
            != "st"@,
        "y"@ != "c"@ && "y"@ != "p"@ && "y"@ != "t"@ && "y"@ != "sp"@ && "y"@ != "st"@,
        "c"@ != "p"@ && "c"@ != "t"@ && "c"@ != "sp"@ && "c"@ != "st"@,
        "p"@ != "t"@ && "p"@ != "sp"@ && "p"@ != "st"@,
        "t"@ != "sp"@ && "t"@ != "st"@ && "sp"@ != "st"@,
{
    reveal_strlit("x");
    reveal_strlit("y");
    reveal_strlit("c");
    reveal_strlit("p");
    reveal_strlit("t");
    reveal_strlit("sp");
    reveal_strlit("st");
    assert("x"@[0] == 'x' && "y"@[0] == 'y' && "c"@[0] == 'c' && "p"@[0] == 'p' && "t"@[0] == 't');
    assert("sp"@[0] == 's' && "sp"@[1] == 'p' && "st"@[0] == 's' && "st"@[1] == 't');
}

/// What the scheduler matches and emits under some values.
proof fn lemma_scheduler_instances(value: spec_fn(Variable) -> Term)
    ensures
        ({
            let (x, y, c) = (at(value, "x"@), at(value, "y"@), at(value, "c"@));
            let (sp, st) = (at(value, "sp"@), at(value, "st"@));
            let (p, t) = (at(value, "p"@), at(value, "t"@));
            let (prow, trow) = (
                scheduler_patterns()->Expression_0,
                scheduler_templates()->Expression_0,
            );
            &&& prow.len() == 3 && trow.len() == 3
            &&& prow[0] == Term::Symbol(","@) && trow[0] == Term::Symbol(","@)
            &&& instance(prow[1], value) == armed_scheduler(x, y, c, sp, st)
            &&& instance(prow[2], value) == dormant_rule(x, p, t)
            &&& instance(trow[1], value) == burnt_scheduler(x, y, c, sp, st)
            &&& instance(trow[2], value) == armed_rule(x, p, t)
        }),
{
    let z = Term::Symbol("S"@);
    let (exec, x, y, c) = (Term::Symbol("exec"@), named("x"@), named("y"@), named("c"@));
    let (sp, st, p, t) = (named("sp"@), named("st"@), named("p"@), named("t"@));
    assert forall|name: Seq<char>| instance(#[trigger] named(name), value) == at(value, name) by {}
    assert(instance(exec, value) == exec);
    lemma_small(z, c, z, z, value);
    lemma_small(Term::Symbol("IC"@), x, y, two(z, c), value);
    lemma_small(exec, four(Term::Symbol("IC"@), x, y, two(z, c)), sp, st, value);
    lemma_small(exec, x, z, z, value);
    lemma_small(two(exec, x), p, t, z, value);
    lemma_small(Term::Symbol("IC"@), y, x, c, value);
    lemma_small(exec, four(Term::Symbol("IC"@), y, x, c), sp, st, value);
    lemma_small(Term::Symbol("R"@), x, z, z, value);
    lemma_small(exec, two(Term::Symbol("R"@), x), p, t, value);
}

} // verus!
