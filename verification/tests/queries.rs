//! Queries end to end. The matcher, the rule engine and the atom matcher that a
//! space works with run outside the library; here small ones stand in for them.
use std::collections::{BTreeSet, HashMap};

use metta_on_mork::atom::{Atom, ExpressionAtom, GroundedAtom, VariableAtom};
use metta_on_mork::encode::{encode_atom, GroundedSink};
use metta_on_mork::pattern::wildcard_count;
use metta_on_mork::rows::{
    apply_live_refs, decode_and_visit, live_probes, query_btm_rows, result_var_set, visit_step,
    BindOp, RawBinding, Report, RowPlan, Visit, VisitEvent, VisitPhase,
};
use metta_on_mork::sharded::ShardedMorkSpace;
use metta_on_mork::snapshot::{admits_factorized, settle_count, ColumnKind, CountStep, MorkSnapshot};
use metta_on_mork::space::query::{
    worth_tabling, QueryStep, QUERY_CACHE_MAX_ROWS, QUERY_TABLE_MIN_COST_DEBUG,
};
use metta_on_mork::space::reduce::{reached_query, redex_probe, reduce, reduce_program};
use metta_on_mork::space::transform::TransformStep;
use metta_on_mork::space::MorkSpace;
use metta_on_mork::tag::MAX_FIELD;
use metta_on_mork::william::REF_COST;
use rayon::iter::{IntoParallelIterator, ParallelIterator};

// ---- Atoms ----

fn sym(name: &str) -> Atom {
    Atom::sym(name)
}

fn var(name: &str) -> Atom {
    Atom::var(name)
}

fn expr(children: &[Atom]) -> Atom {
    Atom::expr(children.to_vec())
}

fn parent(a: &str, b: &str) -> Atom {
    expr(&[sym("parent"), sym(a), sym(b)])
}

fn cell(handle: u64, shown: &str) -> Atom {
    Atom::gnd(GroundedAtom { handle, display: shown.to_string(), mutable: true })
}

fn evaluated(atom: Atom) -> Atom {
    match atom {
        Atom::Expression(e) => {
            Atom::Expression(ExpressionAtom { children: e.children, evaluated: true })
        }
        _ => panic!("only an expression can be marked as evaluated"),
    }
}

fn is_evaluated_expr(atom: &Atom) -> bool {
    matches!(atom, Atom::Expression(e) if e.evaluated)
}

fn canonical_with(atom: &Atom, vars: &mut Vec<VariableAtom>) -> String {
    match atom {
        Atom::Symbol(s) => format!("S({s})"),
        Atom::Variable(v) => {
            let n = match vars.iter().position(|w| w == v) {
                Some(n) => n,
                None => {
                    vars.push(v.clone());
                    vars.len() - 1
                }
            };
            format!("V{n}")
        }
        Atom::Grounded(g) => format!("G({})", g.display),
        Atom::Expression(e) => {
            let parts: Vec<String> =
                e.children.iter().map(|c| canonical_with(c, vars)).collect();
            format!("E({})", parts.join(" "))
        }
    }
}

fn canonical(atom: &Atom) -> String {
    canonical_with(atom, &mut Vec::new())
}

fn space_atom_set(space: &MorkSpace) -> BTreeSet<String> {
    let ids: Vec<usize> = (0..space.len()).collect();
    space.visit(&ids).iter().map(canonical).collect()
}

// ---- A matcher over encoded atoms ----

#[derive(Clone, Debug, PartialEq)]
enum Term {
    Sym(Vec<u8>),
    Var(usize, usize),
    Expr(Vec<Term>),
}

fn read(b: &[u8], p: &mut usize, ns: usize, next: &mut usize) -> Term {
    let tag = b[*p];
    *p += 1;
    if tag < 0x40 {
        let mut kids = Vec::new();
        for _ in 0..tag {
            kids.push(read(b, p, ns, next));
        }
        Term::Expr(kids)
    } else if tag == 0xc0 {
        *next += 1;
        Term::Var(ns, *next - 1)
    } else if (0x80..0xc0).contains(&tag) {
        Term::Var(ns, (tag - 0x80) as usize)
    } else {
        let n = (tag - 0xc0) as usize;
        *p += n;
        Term::Sym(b[*p - n..*p].to_vec())
    }
}

fn write(t: &Term, seen: &mut Vec<(usize, usize)>, out: &mut Vec<u8>) {
    match t {
        Term::Sym(raw) => {
            out.push(0xc0 + raw.len() as u8);
            out.extend_from_slice(raw);
        }
        Term::Var(ns, i) => match seen.iter().position(|v| v == &(*ns, *i)) {
            Some(n) => out.push(0x80 + n as u8),
            None => {
                seen.push((*ns, *i));
                out.push(0xc0);
            }
        },
        Term::Expr(kids) => {
            out.push(kids.len() as u8);
            for k in kids {
                write(k, seen, out);
            }
        }
    }
}

type Subst = HashMap<(usize, usize), Term>;

fn walk(t: &Term, s: &Subst) -> Term {
    match t {
        Term::Var(ns, i) => match s.get(&(*ns, *i)) {
            Some(u) => walk(u, s),
            None => t.clone(),
        },
        Term::Expr(kids) => Term::Expr(kids.iter().map(|k| walk(k, s)).collect()),
        Term::Sym(_) => t.clone(),
    }
}

fn unify(a: &Term, b: &Term, s: &mut Subst) -> bool {
    let (a, b) = (walk(a, s), walk(b, s));
    match (&a, &b) {
        (Term::Var(n, i), Term::Var(m, j)) if n == m && i == j => true,
        (Term::Var(n, i), _) => {
            s.insert((*n, *i), b.clone());
            true
        }
        (_, Term::Var(n, i)) => {
            s.insert((*n, *i), a.clone());
            true
        }
        (Term::Sym(x), Term::Sym(y)) => x == y,
        (Term::Expr(x), Term::Expr(y)) => {
            x.len() == y.len() && x.iter().zip(y).all(|(p, q)| unify(p, q, s))
        }
        _ => false,
    }
}

fn factors_of(wrapped: &[u8]) -> Vec<Term> {
    let (mut p, mut next) = (0, 0);
    match read(wrapped, &mut p, 0, &mut next) {
        Term::Expr(kids) => kids[1..].to_vec(),
        _ => panic!("a pattern is an expression"),
    }
}

fn joins(paths: &[Vec<u8>], factors: &[Term]) -> Vec<(Subst, Vec<u8>)> {
    let mut rows: Vec<(Subst, Vec<u8>)> = vec![(Subst::new(), Vec::new())];
    for (k, factor) in factors.iter().enumerate() {
        let mut next_rows = Vec::new();
        for (s, _) in &rows {
            for path in paths {
                let (mut p, mut n) = (0, 0);
                let fact = read(path, &mut p, k + 1, &mut n);
                let mut s = s.clone();
                if unify(factor, &fact, &mut s) {
                    next_rows.push((s, path.clone()));
                }
            }
        }
        rows = next_rows;
    }
    rows
}

fn run_matcher(paths: &[Vec<u8>], wrapped: &[u8]) -> Vec<Report> {
    let factors = factors_of(wrapped);
    let single = factors.len() == 1;
    joins(paths, &factors)
        .into_iter()
        .map(|(s, fact)| {
            let mut keys: Vec<&(usize, usize)> = s.keys().collect();
            keys.sort();
            let entries = keys
                .into_iter()
                .map(|k| {
                    let mut span = Vec::new();
                    write(&walk(&s[k], &s), &mut Vec::new(), &mut span);
                    RawBinding {
                        key_ns: k.0 as u8,
                        key_idx: k.1 as u8,
                        span,
                        env_n: 1,
                        env_v: 0,
                    }
                })
                .collect();
            Report::Bound(entries, if single { Some(fact) } else { None })
        })
        .collect()
}

// ---- A matcher over atoms ----

type Answer = Vec<(VariableAtom, Atom)>;

fn look_up(answer: &Answer, v: &VariableAtom) -> Option<Atom> {
    answer.iter().find(|(w, _)| w == v).map(|(_, a)| a.clone())
}

fn apply(a: &Atom, answer: &Answer) -> Atom {
    match a {
        Atom::Variable(v) => match look_up(answer, v) {
            Some(b) => apply(&b, answer),
            None => a.clone(),
        },
        Atom::Expression(e) => Atom::Expression(ExpressionAtom {
            children: e.children.iter().map(|c| apply(c, answer)).collect(),
            evaluated: e.evaluated,
        }),
        _ => a.clone(),
    }
}

fn match_atoms(a: &Atom, b: &Atom, answer: &mut Answer) -> bool {
    let (a, b) = (apply(a, answer), apply(b, answer));
    match (&a, &b) {
        (Atom::Variable(v), Atom::Variable(w)) if v == w => true,
        (Atom::Variable(v), _) => {
            answer.push((v.clone(), b.clone()));
            true
        }
        (_, Atom::Variable(w)) => {
            answer.push((w.clone(), a.clone()));
            true
        }
        (Atom::Expression(x), Atom::Expression(y)) => {
            x.children.len() == y.children.len()
                && x.children
                    .iter()
                    .zip(&y.children)
                    .all(|(p, q)| match_atoms(p, q, answer))
        }
        _ => a == b,
    }
}

fn fold(ops: &[BindOp]) -> Answer {
    let mut answer = Vec::new();
    for op in ops {
        match op {
            BindOp::Equate(v, w) => answer.push((v.clone(), Atom::Variable(w.clone()))),
            BindOp::Bind(v, a) => answer.push((v.clone(), a.clone())),
        }
    }
    answer
}

fn narrow(answer: Answer, keep: &[VariableAtom]) -> Answer {
    keep.iter()
        .filter_map(|v| {
            look_up(&answer, v).map(|a| (v.clone(), apply(&a, &answer)))
        })
        .collect()
}

fn resolve(answer: &Answer, name: &str) -> Option<Atom> {
    look_up(answer, &VariableAtom::new(name)).map(|a| apply(&a, answer))
}

// ---- Queries ----

type Cells = HashMap<u64, i64>;

fn same_now(a: &Atom, b: &Atom, cells: &Cells) -> bool {
    match (a, b) {
        (Atom::Grounded(g), Atom::Grounded(h)) if g.mutable && h.mutable => {
            cells.get(&g.handle) == cells.get(&h.handle)
        }
        _ => a == b,
    }
}

fn settle_plans(
    plans: Vec<RowPlan>,
    query: &Atom,
    vars: &Vec<VariableAtom>,
    refs: &Vec<(usize, Atom)>,
    cells: &Cells,
) -> Vec<Answer> {
    let keep = result_var_set(vars, refs);
    let probes = live_probes(refs, vars);
    let mut answers = Vec::new();
    for plan in plans {
        match plan {
            RowPlan::Rematch(fact) => {
                let mut answer = Vec::new();
                if match_atoms(&fact, query, &mut answer) {
                    answers.push(narrow(answer, &keep));
                }
            }
            RowPlan::Fold(ops, narrowed) => {
                let answer = fold(&ops);
                let verdicts: Vec<bool> = probes
                    .iter()
                    .zip(refs)
                    .map(|(probe, (_, live))| match probe {
                        Some(v) => match look_up(&answer, v) {
                            Some(a) => same_now(&a, live, cells),
                            None => false,
                        },
                        None => false,
                    })
                    .collect();
                if apply_live_refs(&vec![verdicts]).len() == 1 {
                    answers.push(if narrowed { narrow(answer, &keep) } else { answer });
                }
            }
        }
    }
    answers
}

fn fresh_ids(query: &Atom) -> Vec<usize> {
    (0..wildcard_count(query)).map(|i| 900_000 + i).collect()
}

fn query_with(space: &mut MorkSpace, query: &Atom, cells: &Cells) -> Vec<Answer> {
    let ids = fresh_ids(query);
    match space.query(query, &ids) {
        QueryStep::Single => vec![Vec::new()],
        QueryStep::Empty => Vec::new(),
        QueryStep::Indexed(route, facts) => {
            let row_ids: Vec<usize> = (0..facts.len()).map(|i| 10_000 + i).collect();
            let plans = space
                .answering(query)
                .plan_facts(&route, &facts, &row_ids)
                .into_iter()
                .map(|ops| RowPlan::Fold(ops, false))
                .collect();
            settle_plans(plans, query, &route.vars, &route.refs, cells)
        }
        QueryStep::Replay(pattern, rows) => {
            let row_ids: Vec<usize> = (0..rows.len()).map(|i| 10_000 + i).collect();
            let plans = space.plan_rows(query, &pattern, &rows, &row_ids);
            settle_plans(plans, query, &pattern.vars, &pattern.refs, cells)
        }
        QueryStep::Match(pattern) => {
            let reports = run_matcher(&space.save_paths(), &pattern.bytes);
            let rows = query_btm_rows(&reports, &pattern.bytes);
            let cost = if space.len() > 1000 { 1_000_000_000 } else { 1_000 };
            space.table_rows(&pattern.bytes, &rows, cost, true);
            let row_ids: Vec<usize> = (0..rows.len()).map(|i| 10_000 + i).collect();
            let plans = space.plan_rows(query, &pattern, &rows, &row_ids);
            settle_plans(plans, query, &pattern.vars, &pattern.refs, cells)
        }
    }
}

fn query(space: &mut MorkSpace, q: &Atom) -> Vec<Answer> {
    query_with(space, q, &Cells::new())
}

fn snapshot_answers(snap: &MorkSnapshot, paths: &[Vec<u8>], q: &Atom) -> Vec<Answer> {
    let ids = fresh_ids(q);
    match snap.query(q, &ids) {
        QueryStep::Single => vec![Vec::new()],
        QueryStep::Empty => Vec::new(),
        QueryStep::Indexed(route, facts) => {
            let row_ids: Vec<usize> = (0..facts.len()).collect();
            let plans = snap
                .answering(q)
                .plan_facts(&route, &facts, &row_ids)
                .into_iter()
                .map(|ops| RowPlan::Fold(ops, false))
                .collect();
            settle_plans(plans, q, &route.vars, &route.refs, &Cells::new())
        }
        QueryStep::Match(pattern) => {
            let rows = query_btm_rows(&run_matcher(paths, &pattern.bytes), &pattern.bytes);
            let row_ids: Vec<usize> = (0..rows.len()).collect();
            let plans = snap.plan_rows(q, &pattern, &rows, &row_ids);
            settle_plans(plans, q, &pattern.vars, &pattern.refs, &Cells::new())
        }
        QueryStep::Replay(_, _) => panic!("a snapshot tables nothing"),
    }
}

fn count(step: &CountStep, paths: &[Vec<u8>]) -> usize {
    let enumerated = match step {
        CountStep::Zero => 0,
        CountStep::Run(bytes, _) => joins(paths, &factors_of(bytes)).len(),
    };
    settle_count(step, None, enumerated)
}

fn advance(visit: &mut Visit, event: VisitEvent) -> bool {
    let (next, go_on) = visit_step(*visit, event);
    *visit = next;
    go_on
}

fn visit_query(space: &MorkSpace, q: &Atom, sink: &mut dyn FnMut(Answer) -> bool) -> usize {
    let ids = fresh_ids(q);
    let mut visit = Visit::new();
    match space.visit_start(q, &ids) {
        QueryStep::Single => {
            sink(Vec::new());
        }
        QueryStep::Match(pattern) => {
            let answering = space.answering(q);
            let keep = result_var_set(&pattern.vars, &pattern.refs);
            let reports = run_matcher(&space.save_paths(), &pattern.bytes);
            'reports: for (i, report) in reports.iter().enumerate() {
                let plan = match answering.plan_report(&pattern, report, 10_000 + i) {
                    Some(plan) => plan,
                    None => {
                        advance(&mut visit, VisitEvent::Unbound);
                        continue;
                    }
                };
                advance(&mut visit, VisitEvent::Matched);
                let answers = match plan {
                    RowPlan::Rematch(fact) => {
                        let mut answer = Vec::new();
                        if match_atoms(&fact, q, &mut answer) {
                            vec![narrow(answer, &keep)]
                        } else {
                            Vec::new()
                        }
                    }
                    RowPlan::Fold(ops, narrowed) => {
                        assert!(narrowed);
                        vec![narrow(fold(&ops), &keep)]
                    }
                };
                for answer in answers {
                    let reply = sink(answer);
                    if !advance(&mut visit, VisitEvent::Reply(reply)) {
                        break 'reports;
                    }
                }
                advance(&mut visit, VisitEvent::Settled);
            }
        }
        _ => {}
    }
    space.visit_query(q, &ids, visit.tally)
}

// ---- Text ----

fn parse_sexpr(text: &str) -> Vec<Atom> {
    let mut stack: Vec<Vec<Atom>> = vec![Vec::new()];
    let spaced = text.replace('(', " ( ").replace(')', " ) ");
    for token in spaced.split_whitespace() {
        match token {
            "(" => stack.push(Vec::new()),
            ")" => {
                let kids = stack.pop().unwrap();
                stack.last_mut().unwrap().push(Atom::expr(kids));
            }
            t => {
                let atom = if let Some(name) = t.strip_prefix('$') { var(name) } else { sym(t) };
                stack.last_mut().unwrap().push(atom);
            }
        }
    }
    stack.pop().unwrap()
}

fn encoded(atom: &Atom) -> Vec<u8> {
    let mut vars = Vec::new();
    let mut bytes = Vec::new();
    encode_atom(atom, &mut vars, &mut bytes, &mut GroundedSink::ValueOnly).unwrap();
    bytes
}

fn load_text(space: &mut MorkSpace, text: &str) {
    let loaded: Vec<Vec<u8>> = parse_sexpr(text).iter().map(encoded).collect();
    let n = loaded.len();
    assert_eq!(space.add_sexpr_text(text, &loaded, Ok(n)), Ok(n));
}

// ---- Tests ----

#[test]
fn frequent_subpatterns_reports_maximal_readable_patterns() {
    let mut space = MorkSpace::new();
    for i in 0..40u32 {
        space.add(expr(&[
            sym("rule"),
            expr(&[sym("when"), sym("gate")]),
            sym(&format!("a{i:02}")),
        ]));
    }
    space.add(expr(&[sym("fact"), sym("solo")]));

    let ref_cost = REF_COST;
    let report = space.frequent_subpatterns(4, ref_cost);
    assert!(!report.is_empty());
    let (rendered, gain) = &report[0];
    assert_eq!(rendered, "(rule (when gate) …)");
    assert_eq!(*gain, 39 * 17 - 40 * ref_cost);
    for (i, (a, _)) in report.iter().enumerate() {
        for (j, (b, _)) in report.iter().enumerate() {
            if i != j {
                assert!(!a.trim_end_matches([')', '…', ' ']).is_empty());
                assert_ne!(a, b);
            }
        }
    }
}

#[test]
fn prepared_count_is_correct_and_reuse_stable() {
    let mut space = MorkSpace::new();
    for i in 0..200u32 {
        space.add(expr(&[sym("e"), sym(&format!("n{i}")), sym(&format!("n{}", i + 1))]));
    }
    let snap = space.snapshot();
    let paths = space.save_paths();

    let point = expr(&[sym("e"), sym("n100"), var("d")]);
    let pp = snap.prepare(&point, &[]).unwrap();
    for _ in 0..8 {
        assert_eq!(
            count(&snap.count_prepared(&pp), &paths),
            1,
            "prepared point count must be stable across reuse"
        );
        assert_eq!(count(&snap.count_matches(&point, &[]), &paths), 1);
        assert_eq!(snapshot_answers(&snap, &paths, &point).len(), 1);
    }

    let wild = expr(&[sym("e"), var("a"), var("b")]);
    let wp = snap.prepare(&wild, &[]).unwrap();
    for _ in 0..8 {
        assert_eq!(
            count(&snap.count_prepared(&wp), &paths),
            200,
            "prepared wildcard count must be stable across reuse"
        );
    }
}

#[test]
fn query_side_evaluated_expression_survives_variable_capture() {
    let rule = expr(&[sym("="), expr(&[sym("id"), var("x")]), var("x")]);
    let query_value = evaluated(expr(&[sym("value"), sym("a")]));
    let q = expr(&[sym("="), expr(&[sym("id"), query_value.clone()]), var("out")]);
    let mut mork = MorkSpace::new();
    mork.add(rule);

    let results = query(&mut mork, &q);
    assert_eq!(results.len(), 1);
    let out = resolve(&results[0], "out").unwrap();
    assert!(is_evaluated_expr(&out));
    assert_eq!(canonical(&out), canonical(&query_value));
}

#[test]
fn equal_specificity_order_is_trie_order_and_sets_agree() {
    let first = expr(&[
        sym("="),
        expr(&[sym("choice"), var("x")]),
        expr(&[sym("z"), var("x")]),
    ]);
    let second = expr(&[
        sym("="),
        expr(&[sym("choice"), var("x")]),
        expr(&[sym("a"), var("x")]),
    ]);
    let q = expr(&[sym("="), expr(&[sym("choice"), sym("target")]), var("out")]);
    let mut mork = MorkSpace::new();
    for atom in [first, second] {
        mork.add(atom);
    }
    let outs = |space: &mut MorkSpace| -> Vec<String> {
        query(space, &q)
            .iter()
            .map(|b| canonical(&resolve(b, "out").unwrap()))
            .collect()
    };
    let results = outs(&mut mork);
    assert_eq!(results, vec!["E(S(a) S(target))", "E(S(z) S(target))"]);
    assert_eq!(outs(&mut mork), results, "mork order must be deterministic");
}

#[test]
fn query_results_are_narrowed_to_query_variables() {
    let fact = expr(&[
        sym(":"),
        sym("ax-1"),
        expr(&[sym("->"), var("p"), expr(&[sym("->"), var("q"), var("p")])]),
    ]);
    let q = expr(&[
        sym(":"),
        var("label"),
        expr(&[sym("->"), var("outer"), expr(&[sym("->"), var("inner"), var("outer")])]),
    ]);
    let mut mork = MorkSpace::new();
    mork.add(fact);
    let results = query(&mut mork, &q);
    assert_eq!(results.len(), 1);
    assert_eq!(resolve(&results[0], "label"), Some(sym("ax-1")));

    let pattern = mork.matcher_pattern(&q, &[]).unwrap();
    let public_vars: BTreeSet<String> = result_var_set(&pattern.vars, &pattern.refs)
        .iter()
        .map(|v| v.name.clone())
        .collect();
    assert_eq!(
        public_vars,
        ["inner".to_string(), "label".to_string(), "outer".to_string()].into_iter().collect(),
    );
    for (v, _) in &results[0] {
        assert!(public_vars.contains(&v.name));
    }
}

#[test]
fn mutable_grounded_identity_and_live_value_match() {
    let mut space = MorkSpace::new();
    let mut cells = Cells::new();
    cells.insert(1, 0);
    cells.insert(2, 0);
    space.add(expr(&[sym("box"), sym("A"), cell(1, "(Cell 0)")]));
    space.add(expr(&[sym("box"), sym("B"), cell(2, "(Cell 0)")]));
    assert_eq!(space.len(), 2);

    let current = |cells: &Cells, a: Option<Atom>| -> Option<i64> {
        match a {
            Some(Atom::Grounded(g)) => cells.get(&g.handle).copied(),
            _ => None,
        }
    };
    cells.insert(1, 7);
    let qa = expr(&[sym("box"), sym("A"), var("x")]);
    let qb = expr(&[sym("box"), sym("B"), var("x")]);
    let got = query_with(&mut space, &qa, &cells);
    assert_eq!(current(&cells, resolve(&got[0], "x")), Some(7));
    let got = query_with(&mut space, &qb, &cells);
    assert_eq!(current(&cells, resolve(&got[0], "x")), Some(0));

    cells.insert(3, 0);
    let qmatch = expr(&[sym("box"), var("k"), cell(3, "(Cell 0)")]);
    let ks = |space: &mut MorkSpace, cells: &Cells| -> Vec<Atom> {
        query_with(space, &qmatch, cells).iter().filter_map(|b| resolve(b, "k")).collect()
    };
    assert_eq!(ks(&mut space, &cells), vec![sym("B")]);
    cells.insert(3, 7);
    assert_eq!(ks(&mut space, &cells), vec![sym("A")]);
}

#[test]
fn add_and_count() {
    let mut space = MorkSpace::new();
    assert_eq!(space.atom_count(), Some(0));
    assert_eq!(space.rejected_atom_count(), 0);
    space.add(parent("Tom", "Bob"));
    space.add(parent("Bob", "Ann"));
    assert_eq!(space.atom_count(), Some(2));
    assert_eq!(space.rejected_atom_count(), 0);
}

#[test]
fn overlong_symbol_add_is_reported() {
    let mut space = MorkSpace::new();
    let overlong = sym(&"x".repeat(MAX_FIELD + 1));
    space.add(overlong);

    assert_eq!(space.atom_count(), Some(0));
    assert_eq!(space.rejected_atom_count(), 1);
}

#[test]
fn sharded_overlong_symbol_add_is_reported() {
    let mut space = ShardedMorkSpace::new(4);
    let overlong = sym(&"x".repeat(MAX_FIELD + 1));

    assert!(!space.add(&overlong));
    assert_eq!(space.len(), 0);
    assert_eq!(space.rejected_atom_count(), 1);
}

#[test]
fn round_trip_nested_atom() {
    let mut space = MorkSpace::new();
    let a = expr(&[sym("f"), expr(&[sym("g"), sym("a")]), sym("b")]);
    space.add(a.clone());
    let results = query(&mut space, &var("x"));
    let got: Vec<Atom> = results.iter().filter_map(|b| resolve(b, "x")).collect();
    assert_eq!(got, vec![a]);
}

#[test]
fn query_binds_one_variable() {
    let mut space = MorkSpace::new();
    space.add(parent("Tom", "Bob"));
    space.add(parent("Bob", "Ann"));
    let q = expr(&[sym("parent"), sym("Tom"), var("child")]);
    let results = query(&mut space, &q);
    assert_eq!(results.len(), 1);
    assert_eq!(resolve(&results[0], "child"), Some(sym("Bob")));
}

#[test]
fn query_two_variables_multiple_results() {
    let mut space = MorkSpace::new();
    space.add(parent("Tom", "Bob"));
    space.add(parent("Bob", "Ann"));
    let q = expr(&[sym("parent"), var("p"), var("c")]);
    assert_eq!(query(&mut space, &q).len(), 2);
}

#[test]
fn remove_atom() {
    let mut space = MorkSpace::new();
    space.add(parent("Tom", "Bob"));
    assert_eq!(space.len(), 1);
    assert!(space.remove(&parent("Tom", "Bob")));
    assert_eq!(space.len(), 0);
    assert!(!space.remove(&parent("Tom", "Bob")));
}

#[test]
fn bulk_load_scales_past_the_trie_crash() {
    let mut space = MorkSpace::new();
    let mut text = String::new();
    for i in 0..20_000u32 {
        text.push_str(&format!("(edge n{} n{})\n", i, i + 1));
    }
    load_text(&mut space, &text);
    assert_eq!(space.atom_count(), Some(20_000));
    let q = expr(&[sym("edge"), sym("n10000"), var("dst")]);
    assert_eq!(query(&mut space, &q).len(), 1);
}

#[test]
fn sharded_parallel_sweep_matches_sequential() {
    let mut space = ShardedMorkSpace::new(8);
    for i in 0..1000u32 {
        assert!(space.add(&expr(&[
            sym("edge"),
            sym(&format!("a{}", i)),
            sym(&format!("b{}", i)),
        ])));
    }
    assert_eq!(space.len(), 1000);
    let sequential = |q: &Atom| -> usize {
        let bytes = space.sweep_pattern(q, &[]).unwrap();
        let counts: Vec<usize> = (0..space.shards())
            .map(|i| joins(&space.shard_paths(i), &factors_of(&bytes)).len())
            .collect();
        space.count_matches(q, &[], &counts)
    };
    let parallel = |q: &Atom| -> usize {
        let bytes = space.sweep_pattern(q, &[]).unwrap();
        let shards: Vec<Vec<Vec<u8>>> =
            (0..space.shards()).map(|i| space.shard_paths(i)).collect();
        let counts: Vec<usize> = shards
            .into_par_iter()
            .map(|paths| joins(&paths, &factors_of(&bytes)).len())
            .collect();
        space.par_count_matches(q, &[], &counts)
    };
    let all = expr(&[sym("edge"), var("x"), var("y")]);
    assert_eq!(sequential(&all), 1000);
    assert_eq!(parallel(&all), 1000);
    let one = expr(&[sym("edge"), sym("a500"), var("y")]);
    assert_eq!(parallel(&one), 1);
}

// The rule engine: one step takes an exec atom out and emits its templates for
// every match of its patterns.
fn run_exec(paths: &[Vec<u8>], steps: usize) -> (Vec<Vec<u8>>, usize) {
    let mut held: BTreeSet<Vec<u8>> = paths.iter().cloned().collect();
    for taken in 0..steps {
        let rule = held.iter().find_map(|path| {
            let (mut p, mut next) = (0, 0);
            match read(path, &mut p, 0, &mut next) {
                Term::Expr(kids) if kids.len() == 4 && kids[0] == Term::Sym(b"exec".to_vec()) => {
                    Some((path.clone(), kids))
                }
                _ => None,
            }
        });
        let (path, kids) = match rule {
            Some(rule) => rule,
            None => return (held.into_iter().collect(), taken),
        };
        held.remove(&path);
        let (factors, emits) = match (&kids[2], &kids[3]) {
            (Term::Expr(f), Term::Expr(e)) => (f[1..].to_vec(), e[1..].to_vec()),
            _ => panic!("a rule has conjunctions"),
        };
        let facts: Vec<Vec<u8>> = held.iter().cloned().collect();
        for (s, _) in joins(&facts, &factors) {
            for t in &emits {
                let mut bytes = Vec::new();
                write(&walk(t, &s), &mut Vec::new(), &mut bytes);
                held.insert(bytes);
            }
        }
    }
    (held.into_iter().collect(), steps)
}

#[test]
fn mm2_exec_runs_transitive_closure() {
    let mut space = MorkSpace::new();
    load_text(
        &mut space,
        "(edge a b)\n(edge b c)\n(edge c d)\n\
         (path a b)\n(path b c)\n(path c d)\n\
         (exec 0 (, (edge $x $y) (path $y $z)) (, (path $x $z)))\n",
    );
    let mut prev = 0;
    for _ in 0..8 {
        load_text(&mut space, "(exec 0 (, (edge $x $y) (path $y $z)) (, (path $x $z)))\n");
        let (after, taken) = run_exec(&space.save_paths(), 1);
        assert_eq!(space.step(1, &after, taken), 1);
        let now = space.len();
        if now == prev {
            break;
        }
        prev = now;
    }
    let q = expr(&[sym("path"), sym("a"), var("z")]);
    let mut zs: Vec<String> = query(&mut space, &q)
        .iter()
        .filter_map(|b| match resolve(b, "z") {
            Some(Atom::Symbol(name)) => Some(name),
            _ => None,
        })
        .collect();
    zs.sort();
    zs.dedup();
    assert_eq!(zs, vec!["b", "c", "d"]);
    // No step leaves everything as it is.
    let before = space.save_paths();
    assert_eq!(space.step(0, &before, 0), 0);
    assert_eq!(space.save_paths(), before);
}

#[test]
fn visit_counts_all_same_head_atoms() {
    let mut space = MorkSpace::new();
    let target = 1500usize;
    for n in 0..target {
        space.add(expr(&[
            sym("item-shape-signal"),
            sym(&format!("pattern-{n}")),
            sym(&format!("target-shape-{n}")),
            sym(&format!("{n}")),
        ]));
    }
    assert_eq!(space.atom_count(), Some(target));
    let ids: Vec<usize> = (0..target).collect();
    let visited = space.visit(&ids).len();
    assert_eq!(visited, target, "MORK visit enumerated {} of {}", visited, target);
}

#[test]
fn conjunctive_query_joins_on_the_shared_variable() {
    let mut mork = MorkSpace::new();
    for a in [expr(&[sym("A"), sym("B")]), expr(&[sym("B"), sym("C")])] {
        mork.add(a);
    }
    let q = expr(&[sym(","), expr(&[sym("A"), var("x")]), expr(&[var("x"), sym("C")])]);
    let results = query(&mut mork, &q);
    assert_eq!(results.len(), 1);
    assert_eq!(resolve(&results[0], "x"), Some(sym("B")));
}

#[test]
fn conjunction_edge_shapes_match_grounding_space() {
    let mut mork = MorkSpace::new();
    for a in [
        expr(&[sym("p"), sym("1")]),
        expr(&[sym("p"), sym("2")]),
        expr(&[sym("q"), sym("3")]),
    ] {
        mork.add(a);
    }
    let rows = |space: &mut MorkSpace, q: &Atom, names: &[&str]| -> Vec<String> {
        let mut found: Vec<String> = query(space, q)
            .iter()
            .map(|b| {
                names
                    .iter()
                    .map(|n| format!("{n}={}", canonical(&resolve(b, n).unwrap())))
                    .collect::<Vec<String>>()
                    .join(",")
            })
            .collect();
        found.sort();
        found
    };
    let product =
        expr(&[sym(","), expr(&[sym("p"), var("a")]), expr(&[sym("q"), var("b")])]);
    assert_eq!(
        rows(&mut mork, &product, &["a", "b"]),
        vec!["a=S(1),b=S(3)", "a=S(2),b=S(3)"],
    );
    let single = expr(&[sym(","), expr(&[sym("p"), var("a")])]);
    assert_eq!(
        rows(&mut mork, &single, &["a"]),
        vec!["a=S(1)", "a=S(2)"],
    );
    let empty = expr(&[sym(",")]);
    assert_eq!(query(&mut mork, &empty), vec![Vec::new()]);
    let three = expr(&[
        sym(","),
        expr(&[sym("p"), var("a")]),
        expr(&[sym("p"), var("b")]),
        expr(&[sym("q"), var("c")]),
    ]);
    assert_eq!(
        rows(&mut mork, &three, &["a", "b", "c"]),
        vec![
            "a=S(1),b=S(1),c=S(3)",
            "a=S(1),b=S(2),c=S(3)",
            "a=S(2),b=S(1),c=S(3)",
            "a=S(2),b=S(2),c=S(3)",
        ],
    );
}

#[test]
fn schematic_store_stays_on_the_enumerating_count() {
    let mut space = MorkSpace::new();
    space.add(var("anything"));
    let q = expr(&[sym(","), expr(&[sym("s")]), expr(&[sym("s")])]);
    let step = space.snapshot().count_matches(&q, &[]);
    let enumerated = match &step {
        CountStep::Zero => 0,
        CountStep::Run(bytes, may_factorize) => {
            assert!(!may_factorize);
            joins(&space.save_paths(), &factors_of(bytes)).len()
        }
    };
    // A prefix seek finds no fact, so a factorized count would come to zero.
    assert_eq!(settle_count(&step, Some(0), enumerated), 1);
}

#[test]
fn reduce_runs_metta_rewriting_on_the_kernel() {
    fn peano(n: usize) -> Atom {
        let mut a = sym("Z");
        for _ in 0..n {
            a = expr(&[sym("S"), a]);
        }
        a
    }
    // The rule engine: each round rewrites every term that an equation matches.
    fn run(space: &MorkSpace, term: &Atom, max_steps: usize) -> Vec<Atom> {
        let mut scratch = space.reduce_scratch(term);
        let program = reduce_program(max_steps);
        load_text(&mut scratch, &program);
        for _ in 0..max_steps {
            let mut more = Vec::new();
            for b in query(&mut scratch, &reached_query()) {
                let t = resolve(&b, "t").unwrap();
                for r in query(&mut scratch, &redex_probe(&t)) {
                    more.push(expr(&[sym("mm2-ev"), resolve(&r, "mm2_reduct").unwrap()]));
                }
            }
            let before = scratch.len();
            for atom in more {
                scratch.add(atom);
            }
            if scratch.len() == before {
                break;
            }
        }
        let reached: Vec<Atom> = query(&mut scratch, &reached_query())
            .iter()
            .filter_map(|b| resolve(b, "t"))
            .collect();
        let redexes: Vec<bool> = reached
            .iter()
            .map(|t| !query(&mut scratch, &redex_probe(t)).is_empty())
            .collect();
        reduce(true, &reached, &redexes)
    }
    let mut space = MorkSpace::new();
    load_text(&mut space, "(= (add Z $y) $y)\n(= (add (S $x) $y) (add $x (S $y)))\n");

    let two_plus_three = expr(&[sym("add"), peano(2), peano(3)]);
    let results = run(&space, &two_plus_three, 50);
    assert_eq!(results, vec![peano(5)], "2+3 must normalize to 5");

    load_text(&mut space, "(= (coin) heads)\n(= (coin) tails)\n");
    let mut coins: Vec<String> =
        run(&space, &expr(&[sym("coin")]), 10).iter().map(canonical).collect();
    coins.sort();
    assert_eq!(coins, vec!["S(heads)".to_string(), "S(tails)".to_string()]);

    let inert = expr(&[sym("opaque"), sym("thing")]);
    assert_eq!(run(&space, &inert, 10), vec![inert.clone()]);

    assert!(query(&mut space, &expr(&[sym("mm2-ev"), var("t")])).is_empty());
}

#[test]
fn tabling_admits_only_costly_queries() {
    assert!(!worth_tabling(5_000, 1, true), "a microsecond fill must not be tabled");
    assert!(
        worth_tabling(QUERY_TABLE_MIN_COST_DEBUG, 1, true),
        "a threshold-cost fill must be tabled"
    );
    assert!(
        !worth_tabling(1_000_000_000, QUERY_CACHE_MAX_ROWS + 1, true),
        "an oversized result set must not be tabled at any cost"
    );

    let needle = expr(&[var("x"), sym("mid"), var("y")]);
    let mut small = MorkSpace::new();
    small.add(expr(&[sym("g"), sym("mid"), sym("c")]));
    assert_eq!(query(&mut small, &needle).len(), 1);
    assert_eq!(small.tabled_queries(), 0);

    let mut big = MorkSpace::new();
    for i in 0..30_000u32 {
        big.add(expr(&[
            sym(&format!("f{i}")),
            sym(&format!("a{i}")),
            sym(&format!("b{i}")),
        ]));
    }
    big.add(expr(&[sym("g"), sym("mid"), sym("c")]));
    let first = query(&mut big, &needle);
    assert_eq!(big.tabled_queries(), 1, "a scan-class fill must be tabled");
    assert!(matches!(big.query(&needle, &[]), QueryStep::Replay(_, _)));
    let replay = query(&mut big, &needle);
    let fresh = {
        let pattern = big.matcher_pattern(&needle, &[]).unwrap();
        joins(&big.save_paths(), &factors_of(&pattern.bytes)).len()
    };
    assert_eq!(first.len(), fresh);
    assert_eq!(
        replay.iter().map(|b| resolve(b, "x")).collect::<Vec<_>>(),
        first.iter().map(|b| resolve(b, "x")).collect::<Vec<_>>(),
    );
    assert_eq!(resolve(&first[0], "y"), Some(sym("c")));
}

// The rewrite engine: one join over the patterns, one emitted atom per match and
// template.
fn run_transform(space: &mut MorkSpace, patterns: &[Atom], templates: &[Atom]) -> Option<(usize, bool)> {
    match space.transform(&patterns.to_vec(), &templates.to_vec())? {
        TransformStep::Nothing => Some((0, false)),
        TransformStep::Run(plan) => {
            let paths = space.save_paths();
            assert!(paths.contains(&plan.anchor));
            let (mut p, mut next) = (plan.pat_off, 0);
            let pattern = read(&plan.bytes, &mut p, 0, &mut next);
            assert_eq!(p, plan.tpl_off);
            let template = read(&plan.bytes, &mut p, 0, &mut next);
            assert_eq!(p, plan.bytes.len());
            let kids = |t: Term| match t {
                Term::Expr(kids) => kids[1..].to_vec(),
                _ => panic!("a conjunction is an expression"),
            };
            let (factors, emits) = (kids(pattern), kids(template));
            let rows = joins(&paths, &factors);
            let mut written = Vec::new();
            for (s, _) in &rows {
                for t in &emits {
                    let mut bytes = Vec::new();
                    write(&walk(t, s), &mut Vec::new(), &mut bytes);
                    written.push(bytes);
                }
            }
            let any_new = written.iter().any(|w| !paths.contains(w));
            Some(space.finish_transform(&written, (rows.len(), any_new)))
        }
    }
}

#[test]
fn transform_materializes_the_join_directly() {
    let mut space = MorkSpace::new();
    for (a, b) in [("a", "b"), ("b", "c"), ("c", "d")] {
        space.add(expr(&[sym("edge"), sym(a), sym(b)]));
    }
    let patterns = [
        expr(&[sym("edge"), var("x"), var("m")]),
        expr(&[sym("edge"), var("m"), var("y")]),
    ];
    let templates = [expr(&[sym("path"), var("x"), var("y")])];
    let (matches, any_new) = run_transform(&mut space, &patterns, &templates).unwrap();
    assert_eq!(matches, 2, "a 4-node chain has two 2-hop pairs");
    assert!(any_new);
    let paths = query(&mut space, &expr(&[sym("path"), var("p"), var("q")]));
    assert_eq!(paths.len(), 2);
    let (matches2, any_new2) = run_transform(&mut space, &patterns, &templates).unwrap();
    assert_eq!(matches2, 2);
    assert!(!any_new2);
}

#[test]
fn restriction_is_a_prefix_gate() {
    let mut space = MorkSpace::new();
    for atom in [
        expr(&[sym("rel"), sym("a"), sym("1")]),
        expr(&[sym("rel"), sym("a"), sym("2")]),
        expr(&[sym("rel"), sym("b"), sym("3")]),
        expr(&[sym("other"), sym("a"), sym("9")]),
    ] {
        space.add(atom);
    }
    let mut all = space.fork();
    assert_eq!(all.restrict_to_prefix(&var("x")), Some(4));

    let kept = space.restrict_to_prefix(&expr(&[sym("rel"), sym("a"), var("x")])).unwrap();
    assert_eq!(kept, 2);
    assert_eq!(query(&mut space, &expr(&[sym("rel"), sym("a"), var("v")])).len(), 2);
    assert!(query(&mut space, &expr(&[sym("other"), var("a"), var("b")])).is_empty());
}

#[test]
fn parallel_load_handles_mutable_grounded() {
    let mut cells = Cells::new();
    cells.insert(5, 3);
    let atoms = vec![
        expr(&[sym("box"), cell(5, "(Cell 3)")]),
        expr(&[sym("plain"), sym("x")]),
    ];
    let mut space = MorkSpace::new();
    space.extend_parallel(&atoms, 2);
    cells.insert(5, 9);
    let got = query_with(&mut space, &expr(&[sym("box"), var("v")]), &cells);
    let live = match resolve(&got[0], "v") {
        Some(Atom::Grounded(g)) => cells.get(&g.handle).copied(),
        _ => None,
    };
    assert_eq!(live, Some(9), "live value must be visible through the registry");
}

#[test]
fn fork_isolates_mutations_both_ways() {
    let mut original = MorkSpace::new();
    original.add(expr(&[sym("p"), sym("1")]));
    let mut fork = original.fork();
    let q = expr(&[sym("p"), var("x")]);
    assert_eq!(query(&mut fork, &q).len(), 1);
    fork.add(expr(&[sym("p"), sym("2")]));
    original.add(expr(&[sym("p"), sym("3")]));
    assert_eq!(query(&mut fork, &q).len(), 2);
    assert_eq!(query(&mut original, &q).len(), 2);
    assert!(query(&mut fork, &expr(&[sym("p"), sym("3")])).is_empty());
    assert!(query(&mut original, &expr(&[sym("p"), sym("2")])).is_empty());
}

#[test]
fn algebra_declines_mutable_grounded_stores() {
    let mut a = MorkSpace::new();
    a.add(expr(&[sym("cell"), cell(1, "(Cell 1)")]));
    let b = MorkSpace::new();
    let before = a.atom_count();
    assert!(!a.union_with(&b));
    let mut c = MorkSpace::new();
    c.add(sym("plain"));
    assert!(!c.union_with(&a), "other side's mutable atoms must also decline");
    assert_eq!(a.atom_count(), before);
}

#[test]
fn column_index_rebuilds_after_mutation() {
    let mut space = MorkSpace::new();
    space.add(expr(&[sym("edge"), sym("a"), sym("t")]));
    let q = expr(&[sym("edge"), var("x"), sym("t")]);
    assert!(matches!(space.query(&q, &[]), QueryStep::Indexed(_, _)));
    assert_eq!(query(&mut space, &q).len(), 1);
    space.add(expr(&[sym("edge"), sym("b"), sym("t")]));
    assert_eq!(query(&mut space, &q).len(), 2, "stale index after add");
    space.remove(&expr(&[sym("edge"), sym("a"), sym("t")]));
    assert_eq!(query(&mut space, &q).len(), 1, "stale index after remove");
}

#[test]
fn visit_query_count_matches_query_len() {
    let mut space = MorkSpace::new();
    for i in 0..100u32 {
        space.add(expr(&[sym("edge"), sym(&format!("n{i}")), sym(&format!("n{}", i + 1))]));
    }
    let q = expr(&[sym("edge"), var("from"), var("to")]);
    let query_len = query(&mut space, &q).len();
    let visit_count = visit_query(&space, &q, &mut |_| true);
    assert_eq!(query_len, visit_count);
}

#[test]
fn visit_query_early_stop() {
    let mut space = MorkSpace::new();
    for i in 0..1000u32 {
        space.add(expr(&[sym("edge"), sym(&format!("n{i}")), sym(&format!("n{}", i + 1))]));
    }
    let q = expr(&[sym("edge"), var("from"), var("to")]);
    let mut delivered = 0u32;
    let count = visit_query(&space, &q, &mut |_| {
        delivered += 1;
        delivered < 10
    });
    assert_eq!(count, 10);
    assert_eq!(delivered, 10);
}

#[test]
fn visit_query_large_dataset() {
    let mut space = MorkSpace::new();
    for i in 0..50_000u32 {
        space.add(expr(&[sym("fact"), sym(&format!("item{i}"))]));
    }
    let q = expr(&[sym("fact"), var("x")]);
    let query_len = query(&mut space, &q).len();
    let visit_count = visit_query(&space, &q, &mut |_| true);
    assert_eq!(query_len, 50_000);
    assert_eq!(visit_count, 50_000);
}

#[test]
fn visit_query_empty() {
    let space = MorkSpace::new();
    let q = expr(&[sym("nope"), var("x")]);
    let count = visit_query(&space, &q, &mut |_| true);
    assert_eq!(count, 0);
}

#[test]
fn visit_query_bindings_valid() {
    let mut space = MorkSpace::new();
    space.add(expr(&[sym("knows"), sym("Alice"), sym("Bob")]));
    space.add(expr(&[sym("knows"), sym("Alice"), sym("Charlie")]));
    let q = expr(&[sym("knows"), sym("Alice"), var("who")]);
    let mut names = Vec::new();
    visit_query(&space, &q, &mut |b| {
        if let Some(Atom::Symbol(s)) = resolve(&b, "who") {
            names.push(s);
        }
        true
    });
    names.sort();
    assert_eq!(names, vec!["Bob", "Charlie"]);
}

// ---- Routes agree with the matcher ----

fn projected(answers: &[Answer], names: &[&str]) -> Vec<String> {
    let mut found: Vec<String> = answers
        .iter()
        .map(|b| {
            names
                .iter()
                .map(|n| match resolve(b, n) {
                    Some(a) => canonical(&a),
                    None => "-".to_string(),
                })
                .collect::<Vec<String>>()
                .join(",")
        })
        .collect();
    found.sort();
    found
}

fn matched(space: &MorkSpace, q: &Atom) -> Vec<Answer> {
    let mut twin = space.fork();
    // A fact with a variable drops the latch, so the twin asks the matcher.
    let odd = expr(&[sym("odd"), sym("one"), sym("out"), sym("of"), sym("the"), var("way")]);
    twin.add(odd.clone());
    assert!(twin.remove(&odd));
    assert!(!matches!(twin.query(q, &[]), QueryStep::Indexed(_, _)));
    query(&mut twin, q)
}

#[test]
fn routed_queries_answer_like_the_matcher() {
    let mut space = MorkSpace::new();
    for (a, b, c) in [
        ("x", "1", "red"),
        ("y", "1", "blue"),
        ("z", "2", "red"),
        ("x", "2", "red"),
        ("y", "2", "green"),
    ] {
        space.add(expr(&[sym("row"), sym(a), sym(b), sym(c)]));
    }
    space.add(expr(&[sym("row"), sym("x"), sym("red")]));
    space.add(expr(&[sym("other"), sym("x"), sym("1"), sym("red")]));
    for q in [
        expr(&[sym("row"), var("a"), var("b"), sym("red")]),
        expr(&[sym("row"), var("a"), sym("1"), var("c")]),
        expr(&[sym("row"), var("a"), sym("2"), sym("red")]),
        expr(&[sym("row"), var("a"), sym("9"), sym("red")]),
    ] {
        assert!(matches!(space.query(&q, &[]), QueryStep::Indexed(_, _)));
        let routed = query(&mut space, &q);
        assert_eq!(
            projected(&routed, &["a", "b", "c"]),
            projected(&matched(&space, &q), &["a", "b", "c"]),
        );
    }
    // These go to the matcher.
    for q in [
        expr(&[sym("row"), sym("x"), var("b"), sym("red")]),
        expr(&[sym("row"), var("a"), var("b"), var("c")]),
        expr(&[sym("row"), var("a"), var("a"), sym("red")]),
        expr(&[sym("row"), var("a"), expr(&[sym("f"), var("b")]), sym("red")]),
        expr(&[var("r"), var("a"), var("b"), sym("red")]),
        var("all"),
    ] {
        assert!(matches!(space.query(&q, &[]), QueryStep::Match(_)));
    }
}

#[test]
fn snapshots_seek_the_indexes_that_they_carry() {
    let mut space = MorkSpace::new();
    space.add(expr(&[sym("edge"), sym("a"), sym("t")]));
    space.add(expr(&[sym("edge"), sym("b"), sym("t")]));
    space.add(expr(&[sym("edge"), sym("b"), sym("u")]));
    let q = expr(&[sym("edge"), var("x"), sym("t")]);
    // No index yet, so none is carried.
    assert!(matches!(space.snapshot().query(&q, &[]), QueryStep::Match(_)));
    let live = query(&mut space, &q);
    let snap = space.snapshot();
    assert!(matches!(snap.query(&q, &[]), QueryStep::Indexed(_, _)));
    assert_eq!(snap.len(), 3);
    // The snapshot is frozen.
    space.add(expr(&[sym("edge"), sym("c"), sym("t")]));
    let frozen = snapshot_answers(&snap, &[], &q);
    assert_eq!(projected(&frozen, &["x"]), projected(&live, &["x"]));
    assert_eq!(query(&mut space, &q).len(), 3);
    // A stale index is not carried.
    space.step(1, &space.save_paths(), 1);
    assert!(matches!(space.snapshot().query(&q, &[]), QueryStep::Match(_)));
}

#[test]
fn specific_facts_come_first() {
    let mut space = MorkSpace::new();
    space.add(expr(&[sym("="), expr(&[sym("f"), var("x")]), sym("general")]));
    space.add(expr(&[sym("="), expr(&[sym("f"), sym("a")]), sym("exact")]));
    let q = expr(&[sym("="), expr(&[sym("f"), sym("a")]), var("out")]);
    let outs: Vec<Option<Atom>> =
        query(&mut space, &q).iter().map(|b| resolve(b, "out")).collect();
    assert_eq!(outs, vec![Some(sym("exact")), Some(sym("general"))]);
}

#[test]
fn query_results_follow_grounding_specificity_order() {
    let rule = |depth: Atom, proof: Atom, name: &str| {
        let judged = expr(&[sym(":"), proof, var("theorem")]);
        expr(&[sym("="), expr(&[sym("bce"), var("env"), depth, judged]), sym(name)])
    };
    let generic = rule(var("depth"), var("proof"), "generic");
    let modus_ponens = rule(
        expr(&[sym("S"), var("k")]),
        expr(&[sym("ax-mp"), var("left"), var("right")]),
        "modus-ponens",
    );
    let ax_three = rule(var("depth"), sym("ax-3"), "axiom");
    let mut mork = MorkSpace::new();
    for atom in [generic, modus_ponens, ax_three] {
        mork.add(atom);
    }
    let goal = |depth: Atom| {
        let judged = expr(&[sym(":"), var("proof"), sym("goal")]);
        expr(&[sym("="), expr(&[sym("bce"), sym("env"), depth, judged]), var("out")])
    };
    let mp_query = goal(expr(&[sym("S"), sym("Z")]));
    let ax_query = goal(sym("Z"));
    let ordered = |space: &mut MorkSpace, q: &Atom| -> Vec<String> {
        query(space, q).iter().map(|b| canonical(&resolve(b, "out").unwrap())).collect()
    };
    // What keeps more of the query as it is comes first.
    assert_eq!(
        ordered(&mut mork, &mp_query),
        vec!["S(modus-ponens)", "S(generic)", "S(axiom)"],
    );
    assert_eq!(ordered(&mut mork, &ax_query), vec!["S(generic)", "S(axiom)"]);
}

#[test]
fn only_stored_atoms_are_held_to_64_variables() {
    let vars = |n: usize| -> Vec<Atom> { (0..n).map(|i| var(&format!("v{i}"))).collect() };
    let many = |n: usize| {
        let vs = vars(n);
        expr(&[sym("m"), expr(&vs[..n / 2]), expr(&vs[n / 2..])])
    };
    let facts = |n: usize| {
        let cs: Vec<Atom> = (0..n).map(|i| sym(&format!("c{i}"))).collect();
        expr(&[sym("m"), expr(&cs[..n / 2]), expr(&cs[n / 2..])])
    };
    let mut space = MorkSpace::new();
    space.add(many(64));
    assert_eq!((space.len(), space.rejected_atom_count()), (1, 0));
    space.add(many(65));
    assert_eq!((space.len(), space.rejected_atom_count()), (1, 1));
    space.extend_parallel(&vec![many(65), sym("a")], 2);
    assert_eq!((space.len(), space.rejected_atom_count()), (2, 2));
    let mut sharded = ShardedMorkSpace::new(2);
    assert!(!sharded.add(&many(65)));
    assert!(sharded.add(&many(64)));

    // A query may have more, as long as none past the limit occurs again.
    let mut ground = MorkSpace::new();
    ground.add(facts(66));
    let found = query(&mut ground, &many(66));
    assert_eq!(found.len(), 1);
    assert_eq!(resolve(&found[0], "v65"), Some(sym("c65")));
    assert!(ground.matcher_pattern(&many(66), &[]).is_some());
    let again = expr(&[sym("m"), many(66), var("v65")]);
    assert!(ground.matcher_pattern(&again, &[]).is_none());
    assert_eq!(ground.restrict_to_prefix(&many(66)), Some(1));
    // A loaded path with more variables can be removed.
    let mut loaded = MorkSpace::new();
    loaded.load_paths(&vec![encoded(&many(66))]);
    assert_eq!(loaded.len(), 1);
    assert!(loaded.remove(&many(66)));
    assert!(loaded.is_empty());
}

#[test]
fn factorized_counts_need_two_plain_factors() {
    let plain = vec![ColumnKind::Variable, ColumnKind::Ground];
    let nested = vec![ColumnKind::Variable, ColumnKind::NongroundCompound];
    assert!(admits_factorized(&vec![plain.clone(), plain.clone()]));
    assert!(!admits_factorized(&vec![plain.clone()]));
    assert!(!admits_factorized(&Vec::new()));
    assert!(!admits_factorized(&vec![plain.clone(), nested]));
    let step = CountStep::Run(vec![], true);
    assert_eq!(settle_count(&step, Some(6), 7), 6);
    assert_eq!(settle_count(&step, None, 7), 7);
    assert_eq!(settle_count(&CountStep::Run(vec![], false), Some(6), 7), 7);
    assert_eq!(settle_count(&CountStep::Zero, Some(6), 7), 0);
}

#[test]
fn mutations_retire_what_was_tabled() {
    let mut space = MorkSpace::new();
    space.add(var("anything"));
    space.add(expr(&[sym("f"), sym("a")]));
    let q = expr(&[sym("f"), var("x")]);
    let pattern = space.matcher_pattern(&q, &[]).unwrap();
    let rows = query_btm_rows(&run_matcher(&space.save_paths(), &pattern.bytes), &pattern.bytes);
    assert_eq!(rows.len(), 2);
    space.table_rows(&pattern.bytes, &rows, 60_000, false);
    assert!(matches!(space.query(&q, &[]), QueryStep::Replay(_, r) if r.len() == 2));
    // The pattern of a renamed query is the same pattern.
    assert!(matches!(
        space.query(&expr(&[sym("f"), var("other")]), &[]),
        QueryStep::Replay(_, _)
    ));
    space.add(expr(&[sym("f"), sym("b")]));
    assert!(matches!(space.query(&q, &[]), QueryStep::Match(_)));
    // A cheap fill is not tabled.
    space.table_rows(&pattern.bytes, &rows, 40_000, false);
    assert!(matches!(space.query(&q, &[]), QueryStep::Match(_)));
    space.table_rows(&pattern.bytes, &rows, 50_000, false);
    assert!(matches!(space.query(&q, &[]), QueryStep::Replay(_, _)));
    assert!(!space.remove(&expr(&[sym("f"), sym("zzz")])));
    assert!(matches!(space.query(&q, &[]), QueryStep::Match(_)));
}

#[test]
fn the_table_is_capped() {
    let mut space = MorkSpace::new();
    space.add(var("anything"));
    for i in 0..300usize {
        space.table_rows(&[i as u8, (i / 256) as u8], &Vec::new(), 60_000, false);
    }
    assert_eq!(space.tabled_queries(), 256);
    space.add(sym("a"));
    // A tabled pattern is filled anew past the cap; a new one is not taken up.
    space.table_rows(&[0, 0], &Vec::new(), 60_000, false);
    space.table_rows(&[99, 99], &Vec::new(), 60_000, false);
    assert_eq!(space.tabled_queries(), 256);
}

#[test]
fn counts_of_queries_without_a_matcher() {
    let mut space = MorkSpace::new();
    space.add(parent("Tom", "Bob"));
    let empty = expr(&[sym(",")]);
    let long = sym(&"x".repeat(64));
    let plain = parent("Tom", "Bob");
    let tally = decode_and_visit(&vec![
        VisitEvent::Unbound,
        VisitEvent::Matched,
        VisitEvent::Reply(true),
        VisitEvent::Reply(true),
        VisitEvent::Settled,
        VisitEvent::Matched,
        VisitEvent::Settled,
        VisitEvent::Matched,
        VisitEvent::Reply(false),
    ]);
    assert_eq!((tally.total_callbacks, tally.sink_calls, tally.errors), (4, 3, 1));
    assert_eq!(space.query_count_raw(&empty, &[], 9), 1);
    assert_eq!(space.query_count_raw(&long, &[], 9), 0);
    assert_eq!(space.query_count_raw(&plain, &[], 9), 9);
    assert_eq!(space.query_count_decoded(&empty, &[], tally), (1, 1, 0));
    assert_eq!(space.query_count_decoded(&long, &[], tally), (0, 0, 0));
    assert_eq!(space.query_count_decoded(&plain, &[], tally), (4, 3, 1));
    assert_eq!(space.visit_query(&empty, &[], tally), 1);
    assert_eq!(space.visit_query(&long, &[], tally), 0);
    assert_eq!(space.visit_query(&plain, &[], tally), 3);
    assert!(matches!(space.query(&empty, &[]), QueryStep::Single));
    assert!(matches!(space.query(&long, &[]), QueryStep::Empty));
    assert!(space.matcher_pattern(&empty, &[]).is_none());
    assert!(space.matcher_pattern(&long, &[]).is_none());
    assert!(matches!(space.visit_start(&empty, &[]), QueryStep::Single));
    assert!(matches!(space.visit_start(&long, &[]), QueryStep::Empty));
    assert!(matches!(space.visit_start(&plain, &[]), QueryStep::Match(_)));
}

#[test]
fn the_empty_conjunction_is_visited_once() {
    let mut space = MorkSpace::new();
    let empty = expr(&[sym(",")]);
    let mut seen = Vec::new();
    let count = visit_query(&space, &empty, &mut |b| {
        seen.push(b);
        true
    });
    assert_eq!(seen, vec![Vec::new()]);
    assert_eq!(count, 1);
    assert_eq!(count, query(&mut space, &empty).len());
}

#[test]
fn a_visit_goes_on_until_it_is_told_to_stop() {
    let mut visit = Visit::new();
    assert!(advance(&mut visit, VisitEvent::Unbound));
    assert!(advance(&mut visit, VisitEvent::Matched));
    assert!(advance(&mut visit, VisitEvent::Reply(true)));
    assert!(advance(&mut visit, VisitEvent::Settled));
    assert!(advance(&mut visit, VisitEvent::Matched));
    assert_eq!(visit.tally.errors, 0);
    assert!(advance(&mut visit, VisitEvent::Settled));
    assert_eq!(visit.tally.errors, 1);
    assert!(advance(&mut visit, VisitEvent::Matched));
    assert!(!advance(&mut visit, VisitEvent::Reply(false)));
    assert_eq!(visit.phase, VisitPhase::Stopped);
    assert_eq!((visit.tally.total_callbacks, visit.tally.sink_calls), (4, 2));
}

#[test]
fn renamed_queries_share_a_table_entry() {
    let mut space = MorkSpace::new();
    space.add(var("anything"));
    let q = |name: &str| expr(&[sym("f"), var(name), cell(1, "c"), var(name)]);
    let bytes = space.matcher_pattern(&q("x"), &[5]).unwrap().bytes;
    assert_eq!(space.matcher_pattern(&q("y"), &[6]).unwrap().bytes, bytes);
    space.table_rows(&bytes, &Vec::new(), 60_000, false);
    assert!(matches!(space.query(&q("y"), &[7]), QueryStep::Replay(_, _)));
    // Bulk loads and whole-space changes retire it.
    space.extend_parallel(&vec![sym("a")], 1);
    assert!(matches!(space.query(&q("y"), &[7]), QueryStep::Match(_)));
    space.table_rows(&bytes, &Vec::new(), 60_000, false);
    assert!(matches!(space.query(&q("x"), &[7]), QueryStep::Replay(_, _)));
    space.restrict_to_prefix(&var("x"));
    assert!(matches!(space.query(&q("x"), &[7]), QueryStep::Match(_)));
}

#[test]
fn text_with_a_variable_drops_the_latch() {
    let mut space = MorkSpace::new();
    let failed = space.add_sexpr_text("(f", &Vec::new(), Err("parse".to_string()));
    assert_eq!(failed, Err("parse".to_string()));
    assert_eq!(space.len(), 0);
    let q = expr(&[sym("edge"), var("x"), sym("t")]);
    load_text(&mut space, "(edge a t)");
    assert!(matches!(space.query(&q, &[]), QueryStep::Indexed(_, _)));
    load_text(&mut space, "(edge $any t)");
    assert!(matches!(space.query(&q, &[]), QueryStep::Match(_)));
    assert_eq!(query(&mut space, &q).len(), 2);
}

#[test]
fn saved_paths_load_into_an_empty_space() {
    let mut space = MorkSpace::new();
    space.add(expr(&[sym("fact"), sym("x")]));
    space.add(expr(&[sym("rule"), var("v")]));
    let mut restored = MorkSpace::new();
    restored.load_paths(&space.save_paths());
    assert_eq!(space_atom_set(&restored), space_atom_set(&space));
}

#[test]
fn bulk_loads_equal_single_adds() {
    let atoms: Vec<Atom> = (0..23)
        .map(|i| match i % 5 {
            0 => sym(&format!("s{i}")),
            1 => expr(&[sym("f"), var("x"), var("y"), var("x")]),
            2 => sym(&"x".repeat(60 + i)),
            3 => expr(&[sym("g"), sym(&format!("{}", i % 2))]),
            _ => Atom::gnd(GroundedAtom {
                handle: i as u64,
                display: format!("{}", i % 3),
                mutable: false,
            }),
        })
        .collect();
    let mut one_by_one = MorkSpace::new();
    for a in &atoms {
        one_by_one.add(a.clone());
    }
    for threads in [0usize, 1, 2, 4, 7, 50] {
        let mut bulk = MorkSpace::new();
        bulk.extend_parallel(&atoms, threads);
        assert_eq!(space_atom_set(&bulk), space_atom_set(&one_by_one));
        assert_eq!(bulk.rejected_atom_count(), one_by_one.rejected_atom_count());
        assert_eq!(bulk.len(), one_by_one.len());
    }
}

#[test]
fn algebra_is_set_algebra() {
    let build = |names: &[&str]| {
        let mut s = MorkSpace::new();
        for n in names {
            s.add(expr(&[sym("is"), sym(n)]));
        }
        s
    };
    let (a, b) = (build(&["1", "2", "3"]), build(&["2", "3", "4"]));
    let names = |s: &MorkSpace| -> Vec<String> {
        space_atom_set(s).iter().map(|t| t.replace("E(S(is) S(", "").replace("))", "")).collect()
    };
    let mut u = a.fork();
    assert!(u.union_with(&b));
    assert_eq!(names(&u), vec!["1", "2", "3", "4"]);
    let mut i = a.fork();
    assert!(i.intersect_with(&b));
    assert_eq!(names(&i), vec!["2", "3"]);
    let mut d = a.fork();
    assert!(d.subtract_space(&b));
    assert_eq!(names(&d), vec!["1"]);
    assert_eq!(names(&a), vec!["1", "2", "3"]);
}

#[test]
fn transforms_that_cannot_run() {
    let mut space = MorkSpace::new();
    let p = vec![expr(&[sym("f"), var("x")])];
    let t = vec![expr(&[sym("g"), var("x")])];
    // Nothing is stored.
    assert!(matches!(space.transform(&p, &t), Some(TransformStep::Nothing)));
    space.add(expr(&[sym("f"), sym("a")]));
    assert!(space.transform(&Vec::new(), &t).is_none());
    assert!(space.transform(&p, &Vec::new()).is_none());
    assert!(space.transform(&vec![p[0].clone(); 63], &t).is_none());
    assert!(space.transform(&p, &vec![sym(&"x".repeat(64))]).is_none());
    assert!(space.transform(&p, &vec![cell(1, "c")]).is_none());
    match space.transform(&vec![p[0].clone(); 62], &t) {
        Some(TransformStep::Run(plan)) => {
            assert_eq!(plan.pat_off, 8);
            assert_eq!(plan.bytes[plan.tpl_off], 2);
        }
        _ => panic!("a full conjunction fits"),
    }
}

#[test]
fn conjunctions_are_capped() {
    let mut space = MorkSpace::new();
    space.add(sym("a"));
    let conj = |n: usize| {
        let mut kids = vec![sym(",")];
        for _ in 0..n {
            kids.push(sym("a"));
        }
        Atom::expr(kids)
    };
    assert!(space.matcher_pattern(&conj(62), &[]).is_some());
    assert!(space.matcher_pattern(&conj(63), &[]).is_none());
}

#[test]
fn reduction_without_rules_gives_nothing() {
    let reached = vec![sym("a"), sym("b"), sym("c")];
    let redexes = vec![true, false, true];
    assert_eq!(reduce(true, &reached, &redexes), vec![sym("b")]);
    assert!(reduce(false, &reached, &redexes).is_empty());
    assert!(reduce_program(2).starts_with("\n(exec (IC 0 0 (S (S Z)))\n"));
    assert!(reduce_program(0).contains("(IC 0 0 Z)"));
}

#[test]
fn live_filter_keeps_answers_whose_values_hold() {
    assert_eq!(apply_live_refs(&vec![vec![], vec![true, true], vec![true, false]]), vec![0, 1]);
    let refs = vec![(1usize, sym("a")), (7usize, sym("b"))];
    let vars = vec![VariableAtom::new("x"), VariableAtom::new_id("state", 3)];
    assert_eq!(live_probes(&refs, &vars), vec![Some(VariableAtom::new_id("state", 3)), None]);
    assert_eq!(result_var_set(&vars, &refs), vec![VariableAtom::new("x")]);
}

// ---- Generated stores and queries ----

struct Dice(u64);

impl Dice {
    fn roll(&mut self, sides: u64) -> u64 {
        self.0 = self.0.wrapping_mul(6364136223846793005).wrapping_add(1442695040888963407);
        (self.0 >> 33) % sides
    }

    fn atom(&mut self, depth: usize, ground: bool) -> Atom {
        if depth == 0 || self.roll(3) == 0 {
            if !ground && self.roll(2) == 0 {
                return Atom::Variable(query_vars()[self.roll(4) as usize].clone());
            }
            return sym(&format!("s{}", self.roll(3)));
        }
        let kids: Vec<Atom> =
            (0..1 + self.roll(4)).map(|_| self.atom(depth - 1, ground)).collect();
        Atom::expr(kids)
    }

    fn atoms(&mut self, most: u64, ground: bool) -> Vec<Atom> {
        (0..self.roll(most))
            .map(|_| if self.roll(4) == 0 { self.atom(2, ground) } else { self.row(ground) })
            .collect()
    }

    // An expression whose head is a symbol, so that many of them match.
    fn row(&mut self, ground: bool) -> Atom {
        let mut kids = vec![sym(&format!("s{}", self.roll(2)))];
        for _ in 0..1 + self.roll(3) {
            let depth = if self.roll(4) == 0 { 1 } else { 0 };
            kids.push(self.atom(depth, ground));
        }
        Atom::expr(kids)
    }
}

fn query_vars() -> Vec<VariableAtom> {
    vec![
        VariableAtom::new("x"),
        VariableAtom::new("y"),
        VariableAtom::new_id("v1_0", 10_001),
        VariableAtom::new_id("v1_1", 10_001),
    ]
}

fn on_query_vars(answers: &[Answer]) -> Vec<Vec<String>> {
    let mut found: Vec<Vec<String>> = answers
        .iter()
        .map(|b| {
            query_vars()
                .iter()
                .map(|v| canonical(&apply(&Atom::Variable(v.clone()), b)))
                .collect()
        })
        .collect();
    found.sort();
    found
}

fn stored(atoms: &[Atom]) -> MorkSpace {
    let mut space = MorkSpace::new();
    for a in atoms {
        space.add(a.clone());
    }
    space
}

#[test]
fn routed_query_equals_the_matcher_on_ground_stores() {
    let mut dice = Dice(1);
    let (mut routed, mut answered) = (0, 0);
    for _ in 0..600 {
        let mut space = stored(&dice.atoms(40, true));
        let q = dice.row(false);
        if matches!(space.query(&q, &[]), QueryStep::Indexed(_, _)) {
            routed += 1;
        }
        let answers = query(&mut space, &q);
        answered += answers.len();
        assert_eq!(on_query_vars(&answers), on_query_vars(&matched(&space, &q)));
    }
    assert!(routed > 50 && answered > 50);
}

#[test]
fn snapshot_carried_indexes_equal_the_matcher() {
    let mut dice = Dice(2);
    let mut carried = 0;
    for _ in 0..300 {
        let mut space = stored(&dice.atoms(40, true));
        let q = dice.row(false);
        let live = query(&mut space, &q);
        let (snap, paths) = (space.snapshot(), space.save_paths());
        if matches!(snap.query(&q, &[]), QueryStep::Indexed(_, _)) {
            carried += 1;
        }
        // What comes later does not show.
        space.add(dice.atom(2, true));
        let frozen = snapshot_answers(&snap, &paths, &q);
        assert_eq!(on_query_vars(&frozen), on_query_vars(&live));
    }
    assert!(carried > 25);
}

#[test]
fn tabled_queries_replay_exactly() {
    let mut dice = Dice(3);
    let mut replayed = 0;
    for _ in 0..200 {
        let mut space = stored(&dice.atoms(20, true));
        // Without the latch every query is tabled or matched.
        space.add(expr(&[sym("s0"), sym("s1"), sym("s2"), sym("s3"), sym("s0"), var("any")]));
        let q = dice.row(false);
        let first = query(&mut space, &q);
        if let QueryStep::Match(pattern) = space.query(&q, &[]) {
            let reports = run_matcher(&space.save_paths(), &pattern.bytes);
            let rows = query_btm_rows(&reports, &pattern.bytes);
            space.table_rows(&pattern.bytes, &rows, u64::MAX, true);
            assert!(matches!(space.query(&q, &[]), QueryStep::Replay(_, _)));
            replayed += 1;
        }
        assert_eq!(on_query_vars(&query(&mut space, &q)), on_query_vars(&first));
        space.add(dice.atom(2, true));
        assert!(!matches!(space.query(&q, &[]), QueryStep::Replay(_, _)));
        assert_eq!(
            on_query_vars(&query(&mut space, &q)),
            on_query_vars(&matched(&space, &q)),
        );
    }
    assert!(replayed > 100);
}

#[test]
fn transform_equals_query_then_add() {
    let mut dice = Dice(4);
    let mut rewritten = 0;
    for _ in 0..600 {
        let base = stored(&dice.atoms(40, true));
        let patterns: Vec<Atom> = (0..1 + dice.roll(2)).map(|_| dice.row(false)).collect();
        // The templates draw on the variables of the patterns.
        let asked = expr(&patterns);
        let templates: Vec<Atom> = vec![expr(&[sym("seen"), asked.clone()]), asked];

        let mut direct = base.fork();
        let Some((matches, _)) = run_transform(&mut direct, &patterns, &templates) else {
            continue;
        };
        let mut reference = base.fork();
        let mut conj = vec![sym(",")];
        conj.extend(patterns.iter().cloned());
        let rows = query(&mut reference, &Atom::expr(conj));
        assert_eq!(matches, rows.len());
        for b in &rows {
            for t in &templates {
                reference.add(apply(t, b));
            }
        }
        rewritten += rows.len();
        assert_eq!(direct.save_paths(), reference.save_paths());
    }
    assert!(rewritten > 50);
}

#[test]
fn conjunctive_query_matches_grounding_space() {
    let mut dice = Dice(7);
    let mut answered = 0;
    for _ in 0..300 {
        let mut space = stored(&dice.atoms(40, true));
        let conjuncts: Vec<Atom> = (0..1 + dice.roll(3)).map(|_| dice.row(false)).collect();
        let ids: Vec<usize> = (0..space.len()).collect();
        let atoms = space.visit(&ids);
        // Conjunct by conjunct, every answer so far against every atom.
        let mut folded: Vec<Answer> = vec![Vec::new()];
        for c in &conjuncts {
            let mut next = Vec::new();
            for answer in &folded {
                for atom in &atoms {
                    let mut more = answer.clone();
                    if match_atoms(c, atom, &mut more) {
                        next.push(more);
                    }
                }
            }
            folded = next;
        }
        let mut q = vec![sym(",")];
        q.extend(conjuncts);
        let answers = query(&mut space, &Atom::expr(q));
        answered += answers.len();
        assert_eq!(on_query_vars(&answers), on_query_vars(&folded));
    }
    assert!(answered > 50);
}

#[test]
fn parallel_load_equals_sequential() {
    let mut dice = Dice(5);
    for round in 0..100 {
        let mut atoms = dice.atoms(24, round % 3 == 0);
        if round % 5 == 0 {
            atoms.push(sym(&"x".repeat(64)));
        }
        let seq = stored(&atoms);
        for threads in [0, 1, 4, 50] {
            let mut par = MorkSpace::new();
            par.extend_parallel(&atoms, threads);
            assert_eq!(par.save_paths(), seq.save_paths());
            assert_eq!(par.rejected_atom_count(), seq.rejected_atom_count());
            let may_factorize = |space: &MorkSpace| {
                matches!(
                    space.snapshot().count_matches(&sym("q"), &[]),
                    CountStep::Run(_, true)
                )
            };
            assert_eq!(may_factorize(&par), may_factorize(&seq));
        }
    }
}

#[test]
fn trie_algebra_matches_per_atom_set_semantics() {
    let mut dice = Dice(6);
    for _ in 0..100 {
        let (a, b) = (stored(&dice.atoms(12, true)), stored(&dice.atoms(12, true)));
        let (a_set, b_set) = (space_atom_set(&a), space_atom_set(&b));
        let mut u = a.fork();
        assert!(u.union_with(&b));
        assert_eq!(space_atom_set(&u), a_set.union(&b_set).cloned().collect());
        let mut i = a.fork();
        assert!(i.intersect_with(&b));
        assert_eq!(space_atom_set(&i), a_set.intersection(&b_set).cloned().collect());
        let mut d = a.fork();
        assert!(d.subtract_space(&b));
        assert_eq!(space_atom_set(&d), a_set.difference(&b_set).cloned().collect());
    }
}

// ---- Laws on given values ----

#[test]
fn atoms_are_stored_up_to_renaming() {
    let mut space = MorkSpace::new();
    let rule = |a: &str, b: &str| expr(&[sym("rule"), var(a), var(b), var(a)]);
    space.add(rule("x", "y"));
    assert_eq!((space.len(), space.rejected_atom_count()), (1, 0));
    space.add(rule("x", "y"));
    space.add(rule("p", "q"));
    assert_eq!((space.len(), space.rejected_atom_count()), (1, 0));
    space.add(rule("p", "p"));
    assert_eq!(space.len(), 2);
    assert!(space.remove(&rule("m", "n")));
    assert_eq!(space.len(), 1);
    // What is gone is not found again, and what does not fit is never found.
    assert!(!space.remove(&rule("x", "y")));
    assert!(!space.remove(&sym(&"x".repeat(64))));
    assert_eq!((space.len(), space.rejected_atom_count()), (1, 0));
}

#[test]
fn loading_saved_paths_is_a_union() {
    let other = stored(&[expr(&[sym("rule"), var("v")]), parent("a", "b")]);
    let mut space = stored(&[parent("a", "b"), parent("b", "c")]);
    space.load_paths(&other.save_paths());
    assert_eq!(space.len(), 3);
    let once = space.save_paths();
    space.load_paths(&other.save_paths());
    assert_eq!(space.save_paths(), once);
}

#[test]
fn a_query_leaves_the_index_of_its_column() {
    let mut space = stored(&[parent("a", "t"), parent("b", "t")]);
    let by_child = expr(&[sym("parent"), var("x"), sym("t")]);
    let by_end = expr(&[sym("row"), var("x"), var("y"), sym("t")]);
    let carries = |space: &MorkSpace, q: &Atom| {
        matches!(space.snapshot().query(q, &[]), QueryStep::Indexed(_, _))
    };
    assert!(!carries(&space, &by_child));
    query(&mut space, &by_child);
    assert!(carries(&space, &by_child) && !carries(&space, &by_end));
    // Another index is built beside the first, which stays.
    query(&mut space, &by_end);
    assert!(carries(&space, &by_child) && carries(&space, &by_end));
    query(&mut space, &by_child);
    assert!(carries(&space, &by_child) && carries(&space, &by_end));
}
