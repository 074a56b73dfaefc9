//! The argument-position index.
//!
//! The facts of one relation share their arity and functor bytes; what follows
//! are their columns. An index lists the facts of a relation with one column
//! moved to the front, so that a value of that column is a prefix to seek
//! instead of something to scan for.
use vstd::prelude::*;
use vstd::slice::{slice_subrange, slice_to_vec};

use crate::encode::push_bytes;
use crate::order::path_lt;
use crate::paths::{ascending, lemma_byte_rows_push, PathSet};
use crate::span::{byte_rows, columns, split_columns};
use crate::tree::{
    flat, flat_all, lemma_flat_all_concat, lemma_flat_all_push, lemma_parse_flat,
    lemma_parse_row_flat, lemma_parse_row_sound, parse_row, Tree,
};

verus! {

/// The trees that bytes spell, when they are exactly `n` atoms.
pub open spec fn row_of(b: Seq<u8>, n: nat) -> Option<Seq<Tree>> {
    match parse_row(b, 0, n) {
        Some((ts, e)) => if e == b.len() {
            Some(ts)
        } else {
            None
        },
        None => None,
    }
}

/// Bytes that are exactly `n` atoms are the bytes of those atoms.
pub proof fn lemma_row_of(b: Seq<u8>, n: nat)
    ensures
        row_of(b, n) matches Some(ts) ==> {
            &&& ts.len() == n
            &&& b == flat_all(ts)
            &&& forall|i: int| 0 <= i < ts.len() ==> (#[trigger] ts[i]).fits()
        },
        row_of(b, n) is Some <==> columns(b, n) is Some,
        row_of(b, n) matches Some(ts) ==> forall|i: int|
            0 <= i < n ==> #[trigger] columns(b, n)->0[i] == flat(ts[i]),
{
    if row_of(b, n) is Some {
        lemma_parse_row_sound(b, 0, n);
        assert(b.subrange(0, b.len() as int) =~= b);
    }
}

/// The bytes of `n` atoms are exactly those atoms.
pub proof fn lemma_row_of_flat(ts: Seq<Tree>)
    requires
        forall|i: int| 0 <= i < ts.len() ==> (#[trigger] ts[i]).fits(),
    ensures
        row_of(flat_all(ts), ts.len()) == Some(ts),
{
    let b = flat_all(ts);
    assert(b.subrange(0, b.len() as int) =~= b);
    lemma_parse_row_flat(b, 0, ts);
}

/// A row with one column moved to the front.
pub open spec fn to_front(ts: Seq<Tree>, pos: int) -> Seq<Tree> {
    seq![ts[pos]] + ts.remove(pos)
}

/// A row with its front column moved back to where it stood.
pub open spec fn from_front(us: Seq<Tree>, pos: int) -> Seq<Tree> {
    us.drop_first().insert(pos, us[0])
}

/// The key of a fact's columns: the indexed one first, then the others in their
/// order.
pub open spec fn permuted(b: Seq<u8>, n: nat, pos: int) -> Option<Seq<u8>> {
    match row_of(b, n) {
        Some(ts) => Some(flat_all(to_front(ts, pos))),
        None => None,
    }
}

/// The columns of which a key was made.
pub open spec fn restored(k: Seq<u8>, n: nat, pos: int) -> Option<Seq<u8>> {
    match row_of(k, n) {
        Some(us) => Some(flat_all(from_front(us, pos))),
        None => None,
    }
}

/// A key gives back the columns of which it was made.
pub proof fn keys_restore_their_facts(b: Seq<u8>, n: nat, pos: int)
    requires
        0 <= pos < n,
        permuted(b, n, pos) is Some,
    ensures
        restored(permuted(b, n, pos)->0, n, pos) == Some(b),
        row_of(permuted(b, n, pos)->0, n) == Some(to_front(row_of(b, n)->0, pos)),
{
    lemma_row_of(b, n);
    let ts = row_of(b, n)->0;
    let us = to_front(ts, pos);
    assert forall|i: int| 0 <= i < us.len() implies (#[trigger] us[i]).fits() by {
        if i == 0 {
            assert(ts[pos].fits());
        } else if i - 1 < pos {
            assert(us[i] == ts[i - 1]);
        } else {
            assert(us[i] == ts[i]);
        }
    }
    lemma_row_of_flat(us);
    assert(us.drop_first() =~= ts.remove(pos));
    assert(from_front(us, pos) =~= ts);
}

/// Columns give back the key that was made of them.
pub proof fn facts_restore_their_keys(k: Seq<u8>, n: nat, pos: int)
    requires
        0 <= pos < n,
        restored(k, n, pos) is Some,
    ensures
        permuted(restored(k, n, pos)->0, n, pos) == Some(k),
        row_of(restored(k, n, pos)->0, n) == Some(from_front(row_of(k, n)->0, pos)),
{
    lemma_row_of(k, n);
    let us = row_of(k, n)->0;
    let ts = from_front(us, pos);
    assert(ts.len() == n);
    assert forall|i: int| 0 <= i < ts.len() implies (#[trigger] ts[i]).fits() by {
        if i < pos {
            assert(ts[i] == us[i + 1]);
        } else if i == pos {
            assert(ts[i] == us[0]);
        } else {
            assert(ts[i] == us[i]);
        }
    }
    lemma_row_of_flat(ts);
    assert(ts.remove(pos) =~= us.drop_first());
    assert(to_front(ts, pos) =~= us);
}

/// The fact is one of the relation with the given prefix.
pub open spec fn of_relation(f: Seq<u8>, prefix: Seq<u8>, n: nat) -> bool {
    prefix.is_prefix_of(f) && row_of(f.skip(prefix.len() as int), n) is Some
}

/// The index of one column of a relation: the keys of its facts.
pub open spec fn index_of(paths: Set<Seq<u8>>, prefix: Seq<u8>, n: nat, pos: int) -> Set<Seq<u8>> {
    Set::new(
        |k: Seq<u8>|
            exists|f: Seq<u8>| #[trigger]
                paths.contains(f) && prefix.is_prefix_of(f) && permuted(
                    f.skip(prefix.len() as int),
                    n,
                    pos,
                ) == Some(k),
    )
}

/// Appends the columns from one place up to another.
fn push_columns(
    out: &mut Vec<u8>,
    cols: &Vec<Vec<u8>>,
    from: usize,
    to: usize,
    Ghost(ts): Ghost<Seq<Tree>>,
)
    requires
        from <= to <= cols@.len(),
        ts.len() == cols@.len(),
        forall|i: int| 0 <= i < ts.len() ==> (#[trigger] cols@[i])@ == flat(ts[i]),
    ensures
        final(out)@ == old(out)@ + flat_all(ts.subrange(from as int, to as int)),
{
    let ghost out0 = out@;
    let mut i: usize = from;
    proof {
        assert(ts.subrange(from as int, from as int) =~= Seq::empty());
        assert(out@ =~= out0 + flat_all(Seq::empty()));
    }
    while i < to
        invariant
            from <= i <= to <= cols@.len(),
            ts.len() == cols@.len(),
            forall|i: int| 0 <= i < ts.len() ==> (#[trigger] cols@[i])@ == flat(ts[i]),
            out@ == out0 + flat_all(ts.subrange(from as int, i as int)),
        decreases to - i,
    {
        push_bytes(out, cols[i].as_slice());
        proof {
            lemma_flat_all_push(ts.subrange(from as int, i as int), ts[i as int]);
            assert(ts.subrange(from as int, i + 1) =~= ts.subrange(from as int, i as int).push(
                ts[i as int],
            ));
            assert(out@ =~= out0 + flat_all(ts.subrange(from as int, i + 1)));
        }
        i = i + 1;
    }
}

/// The key of a fact's columns; `None` when they are not `ncols` atoms.
pub fn permuted_fact_key(bytes: &[u8], ncols: usize, pos: usize) -> (r: Option<Vec<u8>>)
    requires
        pos < ncols,
    ensures
        match r {
            Some(key) => permuted(bytes@, ncols as nat, pos as int) == Some(key@),
            None => permuted(bytes@, ncols as nat, pos as int) is None,
        },
{
    proof {
        lemma_row_of(bytes@, ncols as nat);
    }
    let cols = match split_columns(bytes, ncols) {
        Some(cols) => cols,
        None => {
            return None;
        },
    };
    let ghost ts = row_of(bytes@, ncols as nat)->0;
    proof {
        assert(byte_rows(cols@).len() == cols@.len());
        assert forall|i: int| 0 <= i < ts.len() implies (#[trigger] cols@[i])@ == flat(ts[i]) by {
            assert(byte_rows(cols@)[i] == cols@[i]@);
        }
    }
    let mut key: Vec<u8> = Vec::new();
    push_columns(&mut key, &cols, pos, pos + 1, Ghost(ts));
    push_columns(&mut key, &cols, 0, pos, Ghost(ts));
    push_columns(&mut key, &cols, pos + 1, ncols, Ghost(ts));
    proof {
        let (p, n) = (pos as int, ncols as int);
        let (a, b, c) = (ts.subrange(p, p + 1), ts.subrange(0, p), ts.subrange(p + 1, n));
        lemma_flat_all_concat(a, b);
        lemma_flat_all_concat(a + b, c);
        assert((a + b) + c =~= to_front(ts, p));
        assert(key@ =~= flat_all(to_front(ts, p)));
    }
    Some(key)
}

/// Builds the index of one column of a relation.
pub fn build_arg_index(paths: &PathSet, prefix: &[u8], ncols: usize, pos: usize) -> (r: PathSet)
    requires
        paths.wf(),
        pos < ncols,
    ensures
        r.wf(),
        r@ == index_of(paths@, prefix@, ncols as nat, pos as int),
{
    let ghost rows = paths.rows();
    let ghost (n, p) = (ncols as nat, pos as int);
    let (lo, hi) = paths.prefix_range(prefix);
    let mut index = PathSet::new();
    let mut i: usize = lo;
    while i < hi
        invariant
            lo <= i <= hi <= rows.len(),
            rows == paths.rows(),
            index.wf(),
            pos < ncols,
            n == ncols,
            p == pos,
            forall|j: int|
                0 <= j < rows.len() ==> (prefix@.is_prefix_of(#[trigger] rows[j]) <==> lo <= j < hi),
            forall|k: Seq<u8>| #[trigger]
                index@.contains(k) <==> exists|j: int|
                    lo <= j < i && permuted(
                        (#[trigger] rows[j]).skip(prefix@.len() as int),
                        n,
                        p,
                    ) == Some(k),
        decreases hi - i,
    {
        let ghost before = index@;
        let path = paths.path(i);
        proof {
            assert(prefix@.is_prefix_of(rows[i as int]));
            assert(path@.subrange(prefix@.len() as int, path@.len() as int) =~= path@.skip(
                prefix@.len() as int,
            ));
        }
        let rest = slice_subrange(path.as_slice(), prefix.len(), path.len());
        let key = permuted_fact_key(rest, ncols, pos);
        match &key {
            Some(key) => {
                let _ = index.insert(key.as_slice());
            },
            None => {},
        }
        proof {
            assert forall|k: Seq<u8>| #[trigger] index@.contains(k) <==> exists|j: int|
                lo <= j < i + 1 && permuted((#[trigger] rows[j]).skip(prefix@.len() as int), n, p)
                    == Some(k) by {
                if before.contains(k) {
                    let j = choose|j: int|
                        lo <= j < i && permuted(
                            (#[trigger] rows[j]).skip(prefix@.len() as int),
                            n,
                            p,
                        ) == Some(k);
                    assert(lo <= j < i + 1 && permuted(
                        rows[j].skip(prefix@.len() as int),
                        n,
                        p,
                    ) == Some(k));
                }
                if permuted(rows[i as int].skip(prefix@.len() as int), n, p) == Some(k) {
                    assert(index@.contains(k));
                }
            }
        }
        i = i + 1;
    }
    proof {
        let want = index_of(paths@, prefix@, n, p);
        assert forall|k: Seq<u8>| #[trigger] index@.contains(k) == want.contains(k) by {
            if index@.contains(k) {
                let j = choose|j: int|
                    lo <= j < hi && permuted((#[trigger] rows[j]).skip(prefix@.len() as int), n, p)
                        == Some(k);
                assert(paths@.contains(rows[j]));
            }
            if want.contains(k) {
                let f = choose|f: Seq<u8>| #[trigger]
                    paths@.contains(f) && prefix@.is_prefix_of(f) && permuted(
                        f.skip(prefix@.len() as int),
                        n,
                        p,
                    ) == Some(k);
                assert(rows.contains(f));
                let j = choose|j: int| 0 <= j < rows.len() && rows[j] == f;
                assert(prefix@.is_prefix_of(rows[j]));
            }
        }
        assert(index@ =~= want);
    }
    index
}

/// What a seek finds in an ascending listing of keys: the facts behind the keys
/// that start with the value.
pub open spec fn seek(
    keys: Seq<Seq<u8>>,
    prefix: Seq<u8>,
    n: nat,
    pos: int,
    value: Seq<u8>,
) -> Seq<Seq<u8>>
    decreases keys.len(),
{
    if keys.len() == 0 {
        Seq::empty()
    } else {
        let front = seek(keys.drop_last(), prefix, n, pos, value);
        let k = keys.last();
        if value.is_prefix_of(k) && restored(k, n, pos) is Some {
            front.push(prefix + restored(k, n, pos)->0)
        } else {
            front
        }
    }
}

/// Keys that do not start with the value add nothing.
proof fn lemma_seek_skips(
    keys: Seq<Seq<u8>>,
    prefix: Seq<u8>,
    n: nat,
    pos: int,
    value: Seq<u8>,
    lo: int,
    hi: int,
)
    requires
        0 <= lo <= hi <= keys.len(),
        forall|i: int|
            0 <= i < keys.len() ==> (value.is_prefix_of(#[trigger] keys[i]) <==> lo <= i < hi),
    ensures
        seek(keys, prefix, n, pos, value) == seek(
            keys.subrange(lo, hi),
            prefix,
            n,
            pos,
            value,
        ),
    decreases keys.len(),
{
    if keys.len() == 0 {
        assert(keys.subrange(lo, hi) =~= keys);
    } else {
        let init = keys.drop_last();
        let m = keys.len() - 1;
        let hi2 = if hi > m { m } else { hi };
        let lo2 = if lo > m { m } else { lo };
        assert forall|i: int| 0 <= i < init.len() implies (value.is_prefix_of(#[trigger] init[i])
            <==> lo2 <= i < hi2) by {
            assert(init[i] == keys[i]);
        }
        lemma_seek_skips(init, prefix, n, pos, value, lo2, hi2);
        assert(keys.last() == keys[m]);
        if hi == keys.len() && lo < hi {
            assert(keys.subrange(lo, hi).drop_last() =~= init.subrange(lo2, hi2));
        } else {
            assert(keys.subrange(lo, hi) =~= init.subrange(lo2, hi2));
        }
    }
}

/// The facts whose indexed column has the value, from the keys of an index.
pub fn arg_index_seek(
    index: &PathSet,
    prefix: &[u8],
    ncols: usize,
    pos: usize,
    value: &[u8],
) -> (r: Vec<Vec<u8>>)
    requires
        index.wf(),
        pos < ncols,
    ensures
        byte_rows(r@) == seek(index.rows(), prefix@, ncols as nat, pos as int, value@),
{
    let ghost keys = index.rows();
    let ghost (n, p) = (ncols as nat, pos as int);
    let (lo, hi) = index.prefix_range(value);
    let mut out: Vec<Vec<u8>> = Vec::new();
    let mut i: usize = lo;
    proof {
        assert(keys.subrange(lo as int, lo as int) =~= Seq::empty());
        assert(byte_rows(out@) =~= Seq::empty());
    }
    while i < hi
        invariant
            lo <= i <= hi <= keys.len(),
            keys == index.rows(),
            pos < ncols,
            n == ncols,
            p == pos,
            forall|j: int|
                0 <= j < keys.len() ==> (value@.is_prefix_of(#[trigger] keys[j]) <==> lo <= j < hi),
            byte_rows(out@) == seek(keys.subrange(lo as int, i as int), prefix@, n, p, value@),
        decreases hi - i,
    {
        let key = index.path(i);
        proof {
            assert(keys.subrange(lo as int, i + 1).drop_last() =~= keys.subrange(
                lo as int,
                i as int,
            ));
            assert(keys.subrange(lo as int, i + 1).last() == keys[i as int]);
            assert(value@.is_prefix_of(keys[i as int]));
            lemma_row_of(key@, n);
        }
        if let Some(cols) = split_columns(key.as_slice(), ncols) {
            let ghost us = row_of(key@, n)->0;
            proof {
                assert(byte_rows(cols@).len() == cols@.len());
                assert forall|i: int| 0 <= i < us.len() implies (#[trigger] cols@[i])@ == flat(
                    us[i],
                ) by {
                    assert(byte_rows(cols@)[i] == cols@[i]@);
                }
            }
            let mut fact = slice_to_vec(prefix);
            push_columns(&mut fact, &cols, 1, pos + 1, Ghost(us));
            push_columns(&mut fact, &cols, 0, 1, Ghost(us));
            push_columns(&mut fact, &cols, pos + 1, ncols, Ghost(us));
            proof {
                let (a, b, c) = (
                    us.subrange(1, p + 1),
                    us.subrange(0, 1),
                    us.subrange(p + 1, n as int),
                );
                lemma_flat_all_concat(a, b);
                lemma_flat_all_concat(a + b, c);
                assert((a + b) + c =~= from_front(us, p));
                assert(fact@ =~= prefix@ + flat_all(from_front(us, p)));
                lemma_byte_rows_push(out@, fact);
            }
            out.push(fact);
        }
        i = i + 1;
    }
    proof {
        lemma_seek_skips(keys, prefix@, n, p, value@, lo as int, hi as int);
    }
    out
}

/// What a seek finds, it finds behind some key.
proof fn lemma_seek_members(
    keys: Seq<Seq<u8>>,
    prefix: Seq<u8>,
    n: nat,
    pos: int,
    value: Seq<u8>,
    f: Seq<u8>,
)
    ensures
        seek(keys, prefix, n, pos, value).contains(f) <==> exists|i: int|
            0 <= i < keys.len() && value.is_prefix_of(#[trigger] keys[i]) && restored(
                keys[i],
                n,
                pos,
            ) is Some && f == prefix + restored(keys[i], n, pos)->0,
    decreases keys.len(),
{
    if keys.len() > 0 {
        let init = keys.drop_last();
        let front = seek(init, prefix, n, pos, value);
        let all = seek(keys, prefix, n, pos, value);
        lemma_seek_members(init, prefix, n, pos, value, f);
        let m = keys.len() - 1;
        assert(keys.last() == keys[m]);
        if front.contains(f) {
            let i = choose|i: int|
                0 <= i < init.len() && value.is_prefix_of(#[trigger] init[i]) && restored(
                    init[i],
                    n,
                    pos,
                ) is Some && f == prefix + restored(init[i], n, pos)->0;
            assert(keys[i] == init[i]);
            let j = choose|j: int| 0 <= j < front.len() && front[j] == f;
            assert(all[j] == f);
        }
        if all.contains(f) && !front.contains(f) {
            let j = choose|j: int| 0 <= j < all.len() && all[j] == f;
            if j < front.len() {
                assert(front[j] == f);
            }
        }
        if value.is_prefix_of(keys[m]) && restored(keys[m], n, pos) is Some && f == prefix
            + restored(keys[m], n, pos)->0 {
            assert(all[all.len() - 1] == f);
        }
        assert forall|i: int|
            0 <= i < keys.len() && value.is_prefix_of(#[trigger] keys[i]) && restored(
                keys[i],
                n,
                pos,
            ) is Some && f == prefix + restored(keys[i], n, pos)->0 implies all.contains(f) by {
            if i < m {
                assert(init[i] == keys[i]);
            }
        }
    }
}

/// The fact is one of the relation, and its column has the value.
pub open spec fn has_column(f: Seq<u8>, prefix: Seq<u8>, n: nat, pos: int, value: Seq<u8>) -> bool {
    of_relation(f, prefix, n) && flat(row_of(f.skip(prefix.len() as int), n)->0[pos]) == value
}

/// A seek in the index of a column finds exactly the facts whose column has the
/// value.
pub proof fn seeks_are_exact(
    paths: Set<Seq<u8>>,
    keys: Seq<Seq<u8>>,
    prefix: Seq<u8>,
    n: nat,
    pos: int,
    value: Tree,
    f: Seq<u8>,
)
    requires
        0 <= pos < n,
        value.fits(),
        keys.to_set() == index_of(paths, prefix, n, pos),
    ensures
        seek(keys, prefix, n, pos, flat(value)).contains(f) <==> paths.contains(f) && has_column(
            f,
            prefix,
            n,
            pos,
            flat(value),
        ),
{
    let v = flat(value);
    lemma_seek_members(keys, prefix, n, pos, v, f);
    if seek(keys, prefix, n, pos, v).contains(f) {
        let i = choose|i: int|
            0 <= i < keys.len() && v.is_prefix_of(#[trigger] keys[i]) && restored(
                keys[i],
                n,
                pos,
            ) is Some && f == prefix + restored(keys[i], n, pos)->0;
        let k = keys[i];
        assert(keys.to_set().contains(k));
        let g = choose|g: Seq<u8>| #[trigger]
            paths.contains(g) && prefix.is_prefix_of(g) && permuted(
                g.skip(prefix.len() as int),
                n,
                pos,
            ) == Some(k);
        let rest = g.skip(prefix.len() as int);
        keys_restore_their_facts(rest, n, pos);
        assert(g =~= prefix + rest);
        assert(f == g);
        lemma_front_column(rest, n, pos, value);
    }
    if paths.contains(f) && has_column(f, prefix, n, pos, v) {
        let rest = f.skip(prefix.len() as int);
        let k = permuted(rest, n, pos)->0;
        keys_restore_their_facts(rest, n, pos);
        assert(keys.to_set().contains(k));
        assert(keys.contains(k));
        let i = choose|i: int| 0 <= i < keys.len() && keys[i] == k;
        assert(f =~= prefix + rest);
        lemma_front_column(rest, n, pos, value);
        assert(v.is_prefix_of(keys[i]));
    }
}

/// A key starts with a value exactly when the indexed column is that value.
proof fn lemma_front_column(b: Seq<u8>, n: nat, pos: int, value: Tree)
    requires
        0 <= pos < n,
        value.fits(),
        permuted(b, n, pos) is Some,
    ensures
        flat(value).is_prefix_of(permuted(b, n, pos)->0) <==> flat(row_of(b, n)->0[pos]) == flat(
            value,
        ),
{
    lemma_row_of(b, n);
    keys_restore_their_facts(b, n, pos);
    let ts = row_of(b, n)->0;
    let us = to_front(ts, pos);
    let k = flat_all(us);
    let v = flat(value);
    assert(us[0] == ts[pos]);
    assert(k == flat(us[0]) + flat_all(us.drop_first()));
    assert(flat(us[0]) =~= k.subrange(0, flat(us[0]).len() as int));
    lemma_parse_flat(k, 0, us[0]);
    if v.is_prefix_of(k) {
        assert(v =~= k.subrange(0, v.len() as int));
        lemma_parse_flat(k, 0, value);
    }
}

/// A seek lists no fact twice.
pub proof fn seeks_list_each_fact_once(
    keys: Seq<Seq<u8>>,
    prefix: Seq<u8>,
    n: nat,
    pos: int,
    value: Seq<u8>,
)
    requires
        0 <= pos < n,
        keys.no_duplicates(),
    ensures
        seek(keys, prefix, n, pos, value).no_duplicates(),
    decreases keys.len(),
{
    if keys.len() > 0 {
        let init = keys.drop_last();
        seeks_list_each_fact_once(init, prefix, n, pos, value);
        let front = seek(init, prefix, n, pos, value);
        let k = keys.last();
        if value.is_prefix_of(k) && restored(k, n, pos) is Some {
            let f = prefix + restored(k, n, pos)->0;
            lemma_seek_members(init, prefix, n, pos, value, f);
            if front.contains(f) {
                let i = choose|i: int|
                    0 <= i < init.len() && value.is_prefix_of(#[trigger] init[i]) && restored(
                        init[i],
                        n,
                        pos,
                    ) is Some && f == prefix + restored(init[i], n, pos)->0;
                let (a, b) = (restored(init[i], n, pos)->0, restored(k, n, pos)->0);
                assert(a =~= f.skip(prefix.len() as int));
                assert(b =~= f.skip(prefix.len() as int));
                facts_restore_their_keys(init[i], n, pos);
                facts_restore_their_keys(k, n, pos);
                assert(keys[i] == keys[keys.len() - 1]);
            }
            let all = front.push(f);
            assert forall|i: int, j: int|
                0 <= i < all.len() && 0 <= j < all.len() && i != j implies all[i] != all[j] by {
                if i == front.len() {
                    assert(front[j] == all[j]);
                } else if j == front.len() {
                    assert(front[i] == all[i]);
                } else {
                    assert(front[i] == all[i]);
                    assert(front[j] == all[j]);
                }
            }
        }
    }
}

/// A key is made of the columns of its fact: the indexed one first, and behind it the
/// others as they stand in the fact.
pub proof fn keys_put_their_column_first(ts: Seq<Tree>, pos: int)
    requires
        forall|i: int| 0 <= i < ts.len() ==> (#[trigger] ts[i]).fits(),
        0 <= pos < ts.len(),
    ensures
        permuted(flat_all(ts), ts.len(), pos) == Some(
            flat(ts[pos]) + flat_all(ts.take(pos)) + flat_all(ts.skip(pos + 1)),
        ),
{
    lemma_row_of_flat(ts);
    let us = to_front(ts, pos);
    let (before, behind) = (ts.take(pos), ts.skip(pos + 1));
    assert(us.drop_first() =~= before + behind);
    assert(us[0] == ts[pos]);
    lemma_flat_all_concat(before, behind);
    assert(flat_all(us) =~= flat(ts[pos]) + flat_all(before) + flat_all(behind));
}

/// A seek lists the facts in the order of their keys.
pub proof fn seeks_list_facts_by_their_keys(
    keys: Seq<Seq<u8>>,
    prefix: Seq<u8>,
    n: nat,
    pos: int,
    value: Seq<u8>,
)
    requires
        0 <= pos < n,
        ascending(keys),
    ensures
        ({
            let facts = seek(keys, prefix, n, pos, value);
            &&& forall|i: int|
                0 <= i < facts.len() ==> {
                    let k = permuted((#[trigger] facts[i]).skip(prefix.len() as int), n, pos);
                    k is Some && keys.contains(k->0) && value.is_prefix_of(k->0)
                }
            &&& forall|i: int, j: int|
                0 <= i < j < facts.len() ==> path_lt(
                    permuted((#[trigger] facts[i]).skip(prefix.len() as int), n, pos)->0,
                    permuted((#[trigger] facts[j]).skip(prefix.len() as int), n, pos)->0,
                )
        }),
    decreases keys.len(),
{
    if keys.len() > 0 {
        let init = keys.drop_last();
        assert forall|i: int, j: int| 0 <= i < j < init.len() implies path_lt(
            #[trigger] init[i],
            #[trigger] init[j],
        ) by {
            assert(path_lt(keys[i], keys[j]));
        }
        seeks_list_facts_by_their_keys(init, prefix, n, pos, value);
        let k = keys.last();
        let front = seek(init, prefix, n, pos, value);
        let facts = seek(keys, prefix, n, pos, value);
        assert forall|x: Seq<u8>| #[trigger] init.contains(x) implies keys.contains(x) && path_lt(
            x,
            k,
        ) by {
            let i = choose|i: int| 0 <= i < init.len() && init[i] == x;
            assert(keys[i] == x);
            assert(path_lt(keys[i], keys[keys.len() - 1]));
        }
        assert(keys.contains(k)) by {
            assert(keys[keys.len() - 1] == k);
        }
        if value.is_prefix_of(k) && restored(k, n, pos) is Some {
            let f = prefix + restored(k, n, pos)->0;
            assert(f.skip(prefix.len() as int) =~= restored(k, n, pos)->0);
            facts_restore_their_keys(k, n, pos);
            assert forall|i: int, j: int| 0 <= i < j < facts.len() implies path_lt(
                permuted((#[trigger] facts[i]).skip(prefix.len() as int), n, pos)->0,
                permuted((#[trigger] facts[j]).skip(prefix.len() as int), n, pos)->0,
            ) by {
                assert(facts[i] == front[i]);
                if j < front.len() {
                    assert(facts[j] == front[j]);
                }
            }
            assert forall|i: int| 0 <= i < facts.len() implies {
                let x = permuted((#[trigger] facts[i]).skip(prefix.len() as int), n, pos);
                x is Some && keys.contains(x->0) && value.is_prefix_of(x->0)
            } by {
                if i < front.len() {
                    assert(facts[i] == front[i]);
                }
            }
        }
    }
}

} // verus!
