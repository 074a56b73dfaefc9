//! The encoding, its orders and its indexes, on concrete values.
use metta_on_mork::argindex::{arg_index_seek, build_arg_index, permuted_fact_key};
use metta_on_mork::atom::{Atom, ExpressionAtom, GroundedAtom, VariableAtom};
use metta_on_mork::colcache::ColumnIndex;
use metta_on_mork::decode::{decode_atom, decode_var, namespaced_var, DecodeCtx};
use metta_on_mork::encode::{
    encode_atom, encode_atom_collecting_evaluated, encode_grounded_ref, encode_grounded_value,
    encode_symbol, EvaluatedSpans, GroundedSink,
};
use metta_on_mork::order::{compare_paths, has_prefix, same_bytes, PathOrder};
use metta_on_mork::paths::PathSet;
use metta_on_mork::pattern::{conjuncts, empty_conjunction, wildcard_count, wrap_pattern};
use metta_on_mork::registry::{
    contains_mutable_grounded, contains_variable, is_mutable_grounded, GroundedRegistry,
};
use metta_on_mork::rows::{
    bind_or_equate, capture_row, plan_row, plan_visit, query_btm_rows, BindOp, RawBinding, RawRow,
    Report, RowPlan,
};
use metta_on_mork::sharded::{sum_counts, ShardedMorkSpace};
use metta_on_mork::space::MorkSpace;
use metta_on_mork::span::{
    fact_subterm_len, ground_prefix_len, skip_encoded_atom, span_is_ground, split_columns,
};
use metta_on_mork::specificity::specificity_key;
use metta_on_mork::table::PathTable;
use metta_on_mork::tag::{item_byte, maybe_byte_item, Tag};
use metta_on_mork::william::{decode_pattern, WeightedPathIndex, REF_COST};

fn sym(name: &str) -> Atom {
    Atom::sym(name)
}

fn var(name: &str) -> Atom {
    Atom::var(name)
}

fn expr(children: &[Atom]) -> Atom {
    Atom::expr(children.to_vec())
}

fn value(handle: u64, shown: &str) -> Atom {
    Atom::gnd(GroundedAtom { handle, display: shown.to_string(), mutable: false })
}

fn cell(handle: u64, shown: &str) -> Atom {
    Atom::gnd(GroundedAtom { handle, display: shown.to_string(), mutable: true })
}

fn marked(children: &[Atom]) -> Atom {
    Atom::Expression(ExpressionAtom { children: children.to_vec(), evaluated: true })
}

fn bytes_of(atom: &Atom) -> Option<Vec<u8>> {
    let mut out = Vec::new();
    match encode_atom(atom, &mut Vec::new(), &mut out, &mut GroundedSink::ValueOnly) {
        Ok(()) => Some(out),
        Err(()) => None,
    }
}

fn read_back(bytes: &[u8], query_vars: &[VariableAtom], ns: u8) -> Option<Atom> {
    let mut pos = 0;
    let mut ctx = DecodeCtx {
        ns,
        var_counter: 0,
        grounded: None,
        query_vars,
        evaluated: None,
        result_id: 7,
    };
    let atom = decode_atom(bytes, &mut pos, &mut ctx)?;
    assert_eq!(pos, bytes.len());
    Some(atom)
}

#[test]
fn tags_and_bytes_are_inverse() {
    for b in 0..=255u8 {
        match maybe_byte_item(b) {
            Some(tag) => assert_eq!(item_byte(tag), b),
            None => assert!((0x40..0x80).contains(&b)),
        }
    }
    assert_eq!(item_byte(Tag::NewVar), 0xc0);
    assert_eq!(item_byte(Tag::VarRef(5)), 0x85);
    assert_eq!(item_byte(Tag::SymbolSize(3)), 0xc3);
    assert_eq!(item_byte(Tag::Arity(2)), 2);
}

#[test]
fn atoms_have_exact_bytes() {
    let rule = expr(&[sym("f"), var("x"), var("y"), var("x")]);
    assert_eq!(bytes_of(&rule), Some(vec![4, 0xc1, b'f', 0xc0, 0xc0, 0x80]));
    assert_eq!(bytes_of(&expr(&[])), Some(vec![0]));
    assert_eq!(bytes_of(&value(1, "42")), Some(vec![0xc3, 0, b'4', b'2']));
    // A cell is written by what it shows where no identity is at hand.
    assert_eq!(bytes_of(&cell(1, "42")), Some(vec![0xc3, 0, b'4', b'2']));
    let mut out = vec![9];
    encode_grounded_ref(258, &mut out);
    assert_eq!(out, vec![9, 0xc9, 1, 2, 1, 0, 0, 0, 0, 0, 0]);
}

#[test]
fn oversized_items_are_refused() {
    let mut out = vec![1];
    assert_eq!(encode_symbol("", &mut out), Err(()));
    assert_eq!(encode_symbol(&"x".repeat(64), &mut out), Err(()));
    assert_eq!(encode_grounded_value("", &mut out), Err(()));
    assert_eq!(encode_grounded_value(&"x".repeat(63), &mut out), Err(()));
    assert_eq!(out, vec![1]);
    assert_eq!(encode_symbol(&"x".repeat(63), &mut out), Ok(()));
    assert_eq!(out.len(), 65);
    assert_eq!(encode_grounded_value(&"x".repeat(62), &mut out), Ok(()));
    assert_eq!(out.len(), 129);
    let wide = |n: usize| expr(&vec![sym("a"); n]);
    assert!(bytes_of(&wide(63)).is_some());
    assert!(bytes_of(&wide(64)).is_none());
    // Two halves, so that no arity is in the way of the count of variables.
    let many = |n: usize| {
        let vs: Vec<Atom> = (0..n).map(|i| var(&format!("v{i}"))).collect();
        expr(&[expr(&vs[..n / 2]), expr(&vs[n / 2..])])
    };
    assert!(bytes_of(&many(65)).is_some());
    // Only what refers back to a variable has its number to write.
    assert!(bytes_of(&expr(&[many(65), var("v63")])).is_some());
    assert!(bytes_of(&expr(&[many(65), var("v64")])).is_none());
}

#[test]
fn written_atoms_read_back() {
    let ground = expr(&[sym("f"), expr(&[sym("été"), expr(&[])]), sym("b")]);
    assert_eq!(read_back(&bytes_of(&ground).unwrap(), &[], 1), Some(ground));
    // The variables of a query keep their names, those of data are renamed.
    let open = expr(&[var("x"), var("y"), var("x")]);
    let names = [VariableAtom::new("x"), VariableAtom::new("y")];
    let bytes = bytes_of(&open).unwrap();
    assert_eq!(read_back(&bytes, &names, 0), Some(open));
    let renamed = |n: &str| Atom::Variable(VariableAtom::new_id(n, 7));
    assert_eq!(
        read_back(&bytes, &names, 12),
        Some(expr(&[renamed("v12_0"), renamed("v12_1"), renamed("v12_0")])),
    );
    assert_eq!(namespaced_var(255, 1234567890, 3), VariableAtom::new_id("v255_1234567890", 3));
    let ctx = DecodeCtx {
        ns: 0,
        var_counter: 0,
        grounded: None,
        query_vars: &names,
        evaluated: None,
        result_id: 4,
    };
    assert_eq!(decode_var(&ctx, 1), var("y"));
    assert_eq!(decode_var(&ctx, 2), Atom::Variable(VariableAtom::new_id("v0_2", 4)));
}

#[test]
fn malformed_bytes_are_refused() {
    assert_eq!(read_back(&[], &[], 1), None);
    assert_eq!(read_back(&[0x40], &[], 1), None);
    assert_eq!(read_back(&[0xc3, b'a'], &[], 1), None);
    assert_eq!(read_back(&[2, 0xc1, b'a'], &[], 1), None);
    // Bytes that are no UTF-8: a lone continuation byte, in each kind of symbol.
    assert_eq!(read_back(&[0xc1, 0x80], &[], 1), None);
    assert_eq!(read_back(&[0xc2, 0, 0x80], &[], 1), None);
    // An identity of the wrong length.
    assert_eq!(read_back(&[0xc2, 1, 5], &[], 1), None);
    assert_eq!(read_back(&[0xc2, 0xc3, 0xa9], &[], 1), Some(sym("é")));
}

#[test]
fn grounded_values_come_back_from_the_registry() {
    let mut sink = GroundedSink::Store(GroundedRegistry::new());
    let mut out = Vec::new();
    let row = expr(&[value(11, "1"), cell(22, "1"), value(33, "1"), cell(44, "1")]);
    assert_eq!(encode_atom(&row, &mut Vec::new(), &mut out, &mut sink), Ok(()));
    let reg = match sink {
        GroundedSink::Store(reg) => reg,
        _ => panic!("the sink keeps its kind"),
    };
    let decoded = |reg: Option<&GroundedRegistry>| {
        let mut pos = 0;
        let mut ctx = DecodeCtx {
            ns: 1,
            var_counter: 0,
            grounded: reg,
            query_vars: &[],
            evaluated: None,
            result_id: 0,
        };
        decode_atom(&out, &mut pos, &mut ctx)
    };
    // The first instance of a value wins; every cell keeps its own identity.
    assert_eq!(
        decoded(Some(&reg)),
        Some(expr(&[value(11, "1"), cell(22, "1"), value(11, "1"), cell(44, "1")])),
    );
    assert_eq!(
        decoded(None),
        Some(expr(&[sym("1"), sym("<state-0>"), sym("1"), sym("<state-1>")])),
    );
    assert_eq!(reg.get(b"1"), Some(value(11, "1")));
    assert_eq!(reg.get(b"2"), None);
    assert_eq!(reg.get_by_id(1), Some(cell(44, "1")));
    assert_eq!(reg.get_by_id(2), None);
    assert!(!reg.no_mutable());
}

#[test]
fn registries_merge_first_come_first_kept() {
    let mut a = GroundedRegistry::new();
    assert!(a.no_mutable());
    a.register(&expr(&[value(1, "x"), expr(&[value(2, "y")]), cell(3, "c")]));
    assert!(a.no_mutable());
    assert_eq!(a.get(b"c"), None);
    let mut b = GroundedRegistry::new();
    b.register(&value(9, "x"));
    b.register(&value(8, "z"));
    let copy = a.duplicate();
    a.adopt(&b);
    assert_eq!(a.get(b"x"), Some(value(1, "x")));
    assert_eq!(a.get(b"y"), Some(value(2, "y")));
    assert_eq!(a.get(b"z"), Some(value(8, "z")));
    assert_eq!(copy.get(b"z"), None);
    assert_eq!(a.intern_mutable(&cell(5, "c")), 0);
    assert_eq!(a.intern_mutable(&cell(5, "c")), 1);
}

#[test]
fn atoms_tell_what_they_hold() {
    assert!(is_mutable_grounded(&cell(1, "c")));
    assert!(!is_mutable_grounded(&value(1, "c")));
    assert!(!is_mutable_grounded(&expr(&[cell(1, "c")])));
    assert!(contains_mutable_grounded(&expr(&[sym("a"), expr(&[cell(1, "c")])])));
    assert!(!contains_mutable_grounded(&expr(&[sym("a"), expr(&[value(1, "c")])])));
    assert!(contains_variable(&expr(&[sym("a"), expr(&[var("x")])])));
    assert!(!contains_variable(&expr(&[sym("a"), expr(&[])])));
}

#[test]
fn evaluated_marks_survive() {
    let inner = marked(&[sym("value"), sym("a")]);
    let atom = expr(&[sym("f"), inner.clone(), expr(&[sym("value"), sym("b")])]);
    let mut spans = EvaluatedSpans::new();
    let mut out = Vec::new();
    let done = encode_atom_collecting_evaluated(
        &atom,
        &mut Vec::new(),
        &mut out,
        &mut GroundedSink::ValueOnly,
        &mut spans,
    );
    assert_eq!(done, Ok(()));
    assert!(spans.contains(&bytes_of(&inner).unwrap()));
    assert!(!spans.contains(&out));
    let mut pos = 0;
    let mut ctx = DecodeCtx {
        ns: 1,
        var_counter: 0,
        grounded: None,
        query_vars: &[],
        evaluated: Some(&spans),
        result_id: 0,
    };
    assert_eq!(decode_atom(&out, &mut pos, &mut ctx), Some(atom));
}

#[test]
fn span_sets_hold_what_was_inserted() {
    let mut spans = EvaluatedSpans::new();
    assert!(!spans.contains(&[]));
    spans.insert(&[1, 2]);
    spans.insert(&[3]);
    assert!(spans.contains(&[1, 2]));
    assert!(spans.contains(&[3]));
    assert!(!spans.contains(&[1]));
}

#[test]
fn spans_are_walked() {
    let f = bytes_of(&expr(&[sym("f"), sym("ab"), expr(&[var("x"), sym("c")])])).unwrap();
    assert_eq!(f, vec![3, 0xc1, b'f', 0xc2, b'a', b'b', 2, 0xc0, 0xc1, b'c']);
    let mut pos = 3;
    assert_eq!(skip_encoded_atom(&f, &mut pos), Some(()));
    assert_eq!(pos, 6);
    assert_eq!(skip_encoded_atom(&f, &mut pos), Some(()));
    assert_eq!(pos, 10);
    assert_eq!(skip_encoded_atom(&f, &mut pos), None);
    let mut reserved = 0;
    assert_eq!(skip_encoded_atom(&[0x7f], &mut reserved), None);
    assert_eq!(ground_prefix_len(&f), 7);
    assert_eq!(ground_prefix_len(&f[..7]), 7);
    assert!(!span_is_ground(&f));
    assert!(span_is_ground(&f[..6]) == span_is_ground(&[3, 0xc1]));
    assert!(span_is_ground(&[2, 0xc1, b'a', 0xc1, b'b']));
    assert_eq!(fact_subterm_len(&f[3..]), 3);
    assert_eq!(split_columns(&f[3..], 2), Some(vec![f[3..6].to_vec(), f[6..].to_vec()]));
    assert_eq!(split_columns(&f[3..], 1), None);
    assert_eq!(split_columns(&f[3..], 3), None);
    assert_eq!(split_columns(&[], 0), Some(vec![]));
}

#[test]
fn paths_are_ordered_bytewise() {
    assert!(matches!(compare_paths(&[1, 2], &[1, 2]), PathOrder::Same));
    assert!(matches!(compare_paths(&[1], &[1, 0]), PathOrder::Before));
    assert!(matches!(compare_paths(&[2], &[1, 9]), PathOrder::After));
    assert!(has_prefix(&[1, 2, 3], &[1, 2]));
    assert!(has_prefix(&[1], &[]));
    assert!(!has_prefix(&[1], &[1, 2]));
    assert!(same_bytes(&[4, 5], &[4, 5]));
    assert!(!same_bytes(&[4, 5], &[4]));
}

fn set_of(paths: &[&[u8]]) -> PathSet {
    let mut s = PathSet::new();
    for p in paths {
        s.insert(p);
    }
    s
}

#[test]
fn path_sets_are_sets() {
    let mut s = set_of(&[&[3], &[1, 2], &[1], &[3]]);
    assert_eq!(s.to_vec(), vec![vec![1], vec![1, 2], vec![3]]);
    assert_eq!(s.len(), 3);
    assert!(!s.insert(&[1]));
    assert!(s.insert(&[2]));
    assert!(s.remove(&[3]));
    assert!(!s.remove(&[3]));
    assert_eq!(s.to_vec(), vec![vec![1], vec![1, 2], vec![2]]);
    assert!(s.contains(&[1, 2]));
    assert!(!s.contains(&[]));
    assert_eq!(s.path(1), &vec![1, 2]);
    s.insert_all(&vec![vec![9], vec![1], vec![]]);
    assert_eq!(s.len(), 5);
    assert_eq!(s.prefix_range(&[1]), (1, 3));
    assert_eq!(s.count_prefix(&[]), 5);
    assert_eq!(s.count_prefix(&[7]), 0);
    assert_eq!(s.restrict(&[1]).to_vec(), vec![vec![1], vec![1, 2]]);
    let t = set_of(&[&[1], &[4]]);
    assert_eq!(s.join(&t).len(), 6);
    assert_eq!(s.meet(&t).to_vec(), vec![vec![1]]);
    assert_eq!(t.subtract(&s).to_vec(), vec![vec![4]]);
    assert_eq!(t.duplicate().to_vec(), t.to_vec());
}

#[test]
fn path_tables_are_maps() {
    let mut t: PathTable<u32> = PathTable::new();
    t.insert(&[2], 20);
    t.insert(&[1], 10);
    t.insert(&[2], 21);
    t.insert_if_absent(&[1], 99);
    t.insert_if_absent(&[3], 30);
    assert_eq!(t.len(), 3);
    assert_eq!(t.get(&[1]), Some(&10));
    assert_eq!(t.get(&[2]), Some(&21));
    assert_eq!(t.get(&[4]), None);
    assert!(t.contains(&[3]));
    assert_eq!((t.key_at(0), t.value_at(0)), (&vec![1], &10));
}

#[test]
fn patterns_are_wrapped() {
    let q = expr(&[sym("f"), var("x")]);
    let p = wrap_pattern(&q, Vec::new()).unwrap();
    assert_eq!(p.bytes, vec![2, 0xc1, b',', 2, 0xc1, b'f', 0xc0]);
    assert_eq!(p.vars, vec![VariableAtom::new("x")]);
    assert!(p.refs.is_empty());
    let both = expr(&[sym(","), q.clone(), expr(&[sym("g"), var("x")])]);
    assert_eq!(conjuncts(&both).map(|c| c.len()), Some(2));
    assert!(conjuncts(&q).is_none());
    assert!(!empty_conjunction(&both));
    assert!(empty_conjunction(&expr(&[sym(",")])));
    // A renamed query has the same pattern.
    let renamed = wrap_pattern(&expr(&[sym("f"), var("z")]), Vec::new()).unwrap();
    assert_eq!(renamed.bytes, p.bytes);
    // A cell becomes a wildcard, and a second one another wildcard.
    let live = expr(&[sym("f"), cell(1, "c"), cell(1, "c")]);
    assert_eq!(wildcard_count(&live), 2);
    let p = wrap_pattern(&live, vec![5, 6]).unwrap();
    assert_eq!(p.bytes, vec![2, 0xc1, b',', 3, 0xc1, b'f', 0xc0, 0xc0]);
    assert_eq!(p.refs, vec![(0, cell(1, "c")), (1, cell(1, "c"))]);
    assert_eq!(p.vars.len(), 2);
    assert_ne!(p.vars[0], p.vars[1]);
    assert!(wrap_pattern(&sym(""), Vec::new()).is_none());
}

#[test]
fn specificity_compares_trees() {
    let f = |arg: Atom| bytes_of(&expr(&[sym("f"), arg])).unwrap();
    // The pattern as it is wrapped, for a fact of the same shape.
    let pattern = |arg: Atom| wrap_pattern(&expr(&[sym("f"), arg]), Vec::new()).unwrap().bytes;
    let exact = specificity_key(&pattern(sym("a")), &f(sym("a")));
    let general = specificity_key(&pattern(sym("a")), &f(var("y")));
    assert!(exact.iter().all(|b| *b == 0));
    assert!(general > exact);
}

#[test]
fn rows_are_ordered_by_specificity_and_arrival() {
    let pattern = wrap_pattern(&expr(&[sym("f"), sym("a")]), Vec::new()).unwrap().bytes;
    let exact = bytes_of(&expr(&[sym("f"), sym("a")])).unwrap();
    let open = bytes_of(&expr(&[sym("f"), var("x")])).unwrap();
    let reports = vec![
        Report::Bound(vec![], Some(open.clone())),
        Report::Unbound,
        Report::Bound(vec![], Some(exact.clone())),
        Report::Bound(vec![], Some(open.clone())),
    ];
    let rows = query_btm_rows(&reports, &pattern);
    assert_eq!(rows.len(), 3);
    let facts: Vec<(Option<Vec<u8>>, usize)> =
        rows.iter().map(|r| (r.fact.clone(), r.sequence)).collect();
    let places: Vec<usize> = facts
        .iter()
        .filter(|(f, _)| f.as_ref() == Some(&open))
        .map(|(_, s)| *s)
        .collect();
    assert_eq!(places.len(), 2);
    assert!(places[0] < places[1]);
    let first_exact = facts.iter().position(|(f, _)| f.as_ref() == Some(&exact)).unwrap();
    let first_open = facts.iter().position(|(f, _)| f.as_ref() == Some(&open)).unwrap();
    assert!(first_exact < first_open);
}

#[test]
fn bindings_are_decoded_in_their_namespaces() {
    let row = RawRow {
        entries: vec![
            RawBinding { key_ns: 0, key_idx: 0, span: vec![0xc1, b'a'], env_n: 1, env_v: 0 },
            RawBinding { key_ns: 0, key_idx: 1, span: vec![0xc0], env_n: 2, env_v: 3 },
            RawBinding { key_ns: 0, key_idx: 2, span: vec![0x40], env_n: 1, env_v: 0 },
        ],
        fact: None,
        sequence: 0,
    };
    let vars = vec![VariableAtom::new("x"), VariableAtom::new("y")];
    let reg = GroundedRegistry::new();
    let plan = plan_row(&row, &vars, &reg, &EvaluatedSpans::new(), false, 5);
    match plan {
        RowPlan::Fold(ops, _) => {
            assert_eq!(ops.len(), 2);
            assert!(matches!(
                &ops[0],
                BindOp::Bind(v, a) if *v == VariableAtom::new("x") && *a == sym("a")
            ));
            assert!(matches!(
                &ops[1],
                BindOp::Equate(v, w)
                    if *v == VariableAtom::new("y") && *w == VariableAtom::new_id("v2_3", 5)
            ));
        }
        RowPlan::Rematch(_) => panic!("a row without a fact is not matched anew"),
    }
    let visit = |report: &Report| plan_visit(report, &vars, &reg, &EvaluatedSpans::new(), true, 5);
    assert!(visit(&Report::Unbound).is_none());
    // A visit always narrows; a fact with variables is matched anew.
    let ground = Report::Bound(Vec::new(), Some(vec![0xc1, b'a']));
    assert!(matches!(visit(&ground), Some(RowPlan::Fold(ops, true)) if ops.is_empty()));
    let open = Report::Bound(Vec::new(), Some(vec![1, 0xc0]));
    let renamed = expr(&[Atom::Variable(VariableAtom::new_id("v1_0", 5))]);
    assert!(matches!(visit(&open), Some(RowPlan::Rematch(a)) if a == renamed));
    assert!(matches!(
        bind_or_equate(VariableAtom::new("x"), sym("a")),
        BindOp::Bind(_, Atom::Symbol(_))
    ));
    assert!(matches!(
        bind_or_equate(VariableAtom::new("x"), var("y")),
        BindOp::Equate(_, _)
    ));
    let mut kept = Vec::new();
    capture_row(&mut kept, Vec::new(), None);
    capture_row(&mut kept, row.entries, Some(vec![0]));
    assert_eq!(kept[1].sequence, 1);
    assert_eq!(kept[1].entries.len(), 3);
    assert_eq!(kept[1].fact, Some(vec![0]));
}

fn fact(cols: &[&str]) -> Vec<u8> {
    let atoms: Vec<Atom> = cols.iter().map(|c| sym(c)).collect();
    bytes_of(&expr(&atoms)).unwrap()
}

#[test]
fn argument_indexes_seek_exactly() {
    let facts = [fact(&["e", "a", "t"]), fact(&["e", "b", "t"]), fact(&["e", "a", "u"])];
    let other = fact(&["g", "a", "t"]);
    let mut paths = PathSet::new();
    for f in facts.iter() {
        paths.insert(f);
    }
    paths.insert(&other);
    let prefix = vec![3, 0xc1, b'e'];
    assert_eq!(
        permuted_fact_key(&facts[0][3..], 2, 1),
        Some(vec![0xc1, b't', 0xc1, b'a']),
    );
    assert_eq!(permuted_fact_key(&facts[0][3..], 3, 1), None);
    let index = build_arg_index(&paths, &prefix, 2, 1);
    assert_eq!(index.len(), 3);
    assert_eq!(
        arg_index_seek(&index, &prefix, 2, 1, &[0xc1, b't']),
        vec![facts[0].clone(), facts[1].clone()],
    );
    assert_eq!(
        arg_index_seek(&index, &prefix, 2, 1, &[0xc1, b'u']),
        vec![facts[2].clone()],
    );
    assert!(arg_index_seek(&index, &prefix, 2, 1, &[0xc1, b'z']).is_empty());
}

#[test]
fn absorbed_indexes_equal_rebuilt_ones() {
    let prefix = vec![3, 0xc1, b'e'];
    let (a, b) = (fact(&["e", "a", "t"]), fact(&["e", "b", "t"]));
    let mut paths = PathSet::new();
    paths.insert(&a);
    let index = ColumnIndex::build(&paths, &prefix, 2, 1, 0);
    assert!(index.is_about(&prefix, 2, 1));
    assert!(!index.is_about(&prefix, 2, 0));
    let more = index.absorb(&b, true, 0);
    assert_eq!(more.seek(&[0xc1, b't']), vec![a.clone(), b.clone()]);
    let copy = more.duplicate();
    let fewer = more.absorb(&a, false, 1);
    assert_eq!(fewer.seek(&[0xc1, b't']), vec![b.clone()]);
    // A fact of another relation changes nothing, and a mutation that the index
    // is behind of is not taken up.
    let same = fewer.absorb(&fact(&["e", "t"]), true, 2);
    assert_eq!(same.gen, 3);
    assert_eq!(same.seek(&[0xc1, b't']), vec![b.clone()]);
    let behind = same.absorb(&a, true, 5);
    assert_eq!(behind.gen, 3);
    assert_eq!(behind.seek(&[0xc1, b't']), vec![b.clone()]);
    assert_eq!(copy.seek(&[0xc1, b't']), vec![a, b]);
}

#[test]
fn gains_are_counted_on_term_boundaries() {
    let mut paths = PathSet::new();
    for x in ["a", "b", "c"] {
        paths.insert(&fact(&["rule", "when", x]));
    }
    let index = WeightedPathIndex::from_compression_gain_on_boundaries(&paths, 1);
    // Two of three occurrences are saved, at the cost of one reference each.
    let shared = &fact(&["rule", "when", "a"])[..11];
    assert_eq!(index.weight(shared), Some(2 * 11 - 3));
    assert_eq!(index.weight(&shared[..6]), Some(2 * 6 - 3));
    // No boundary of a term, and no second occurrence.
    assert_eq!(index.weight(&shared[..8]), None);
    assert_eq!(index.weight(&fact(&["rule", "when", "a"])), None);
    let top = index.iter_any_topk_maximal(2);
    assert_eq!(top, vec![(shared.to_vec(), 19)]);
    assert!(index.iter_any_topk_maximal(0).is_empty());
    assert_eq!(decode_pattern(shared), "(rule when …)");
    assert_eq!(decode_pattern(&fact(&["f", "x"])), "(f x)");
    let dear = WeightedPathIndex::from_compression_gain_on_boundaries(&paths, 1_000);
    assert_eq!(dear.len(), 0);
    assert_eq!(REF_COST, 9);
}

#[test]
fn shards_hold_what_was_added() {
    let mut space = ShardedMorkSpace::new(3);
    assert!(space.is_empty());
    assert_eq!(space.shards(), 3);
    assert!(space.add(&sym("a")));
    assert!(space.add(&sym("b")));
    assert!(space.add(&sym("a")));
    assert_eq!(space.len(), 2);
    assert!(!space.is_empty());
    let mut all: Vec<Vec<u8>> = (0..3).flat_map(|i| space.shard_paths(i)).collect();
    all.sort();
    assert_eq!(all, vec![vec![0xc1, b'a'], vec![0xc1, b'b']]);
    assert!(!space.add(&sym("")));
    assert_eq!(space.rejected_atom_count(), 1);
    assert_eq!(sum_counts(&vec![1, 0, 5]), 6);
    assert_eq!(space.par_count_matches(&sym(""), &[], &vec![1, 2, 3]), 0);
    assert_eq!(space.count_matches(&sym("a"), &[], &vec![1, 0, 0]), 1);
    assert_eq!(ShardedMorkSpace::new(0).shards(), 1);
}

#[test]
fn spaces_describe_themselves() {
    let mut space = MorkSpace::default();
    assert!(space.is_empty());
    assert_eq!(space.describe(), "MorkSpace(0 atoms)");
    for i in 0..12 {
        space.add(sym(&format!("{i}")));
    }
    assert_eq!(space.describe(), "MorkSpace(12 atoms)");
}

#[test]
fn adding_and_removing_are_inverse() {
    let mut space = MorkSpace::new();
    space.add(sym("keep"));
    let before = space.save_paths();
    let atom = expr(&[sym("f"), var("x")]);
    space.add(atom.clone());
    space.add(atom.clone());
    assert_eq!(space.len(), 2);
    assert!(space.remove(&atom));
    assert_eq!(space.save_paths(), before);
    assert!(space.replace(&sym("keep"), sym("other")));
    assert!(!space.replace(&sym("keep"), sym("other")));
    assert_eq!(space.save_paths(), vec![bytes_of(&sym("other")).unwrap()]);
    // Equal cells are two atoms, and neither is removed by what it shows.
    space.add(cell(1, "c"));
    space.add(cell(1, "c"));
    assert_eq!(space.len(), 3);
    assert!(!space.remove(&cell(1, "c")));
    assert_eq!(space.len(), 3);
}

#[test]
fn restricting_to_a_ground_atom_keeps_it_alone() {
    let mut space = MorkSpace::new();
    space.add(sym("a"));
    space.add(expr(&[sym("f"), sym("a")]));
    assert_eq!(space.restrict_to_prefix(&sym("")), None);
    assert_eq!(space.len(), 2);
    assert_eq!(space.restrict_to_prefix(&expr(&[sym("f"), sym("a")])), Some(1));
    assert_eq!(space.save_paths(), vec![fact(&["f", "a"])]);
}
