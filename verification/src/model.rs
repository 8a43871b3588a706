//! The mathematical model of the store: table maps keyed by an optional
//! table name, byte-lexicographic key order, and the predicates that the
//! scan pipeline's contracts are stated over.

use vstd::prelude::*;

verus! {

/// The abstract contents of a store: each table, identified by an optional
/// name, maps keys to values; keys and values are byte sequences.
pub type StoreModel = Map<Option<Seq<char>>, Map<Seq<u8>, Seq<u8>>>;

/// The spec-level view of an optional table name.
pub open spec fn name_view(t: Option<String>) -> Option<Seq<char>> {
    match t {
        Some(s) => Some(s@),
        None => None,
    }
}

/// The spec-level view of an optional byte vector.
pub open spec fn opt_bytes_view(o: Option<Vec<u8>>) -> Option<Seq<u8>> {
    match o {
        Some(v) => Some(v@),
        None => None,
    }
}

/// Byte-lexicographic order: `a <= b`, where a proper prefix sorts first.
/// This is the key order of the storage engine and of every scan.
pub open spec fn lex_le(a: Seq<u8>, b: Seq<u8>) -> bool
    decreases a.len(),
{
    if a.len() == 0 {
        true
    } else if b.len() == 0 {
        false
    } else if a[0] < b[0] {
        true
    } else if a[0] > b[0] {
        false
    } else {
        lex_le(a.skip(1), b.skip(1))
    }
}

/// Strict byte-lexicographic order.
pub open spec fn lex_lt(a: Seq<u8>, b: Seq<u8>) -> bool {
    lex_le(a, b) && a != b
}

/// The order is total: any two byte sequences compare.
pub proof fn lemma_lex_total(a: Seq<u8>, b: Seq<u8>)
    ensures
        lex_le(a, b) || lex_le(b, a),
    decreases a.len(),
{
    if a.len() != 0 && b.len() != 0 && a[0] == b[0] {
        lemma_lex_total(a.skip(1), b.skip(1));
    }
}

/// The order is antisymmetric: mutual `lex_le` means equality.
pub proof fn lemma_lex_antisym(a: Seq<u8>, b: Seq<u8>)
    requires
        lex_le(a, b),
        lex_le(b, a),
    ensures
        a == b,
    decreases a.len(),
{
    if a.len() != 0 && b.len() != 0 {
        lemma_lex_antisym(a.skip(1), b.skip(1));
        assert(a =~= seq![a[0]] + a.skip(1));
        assert(b =~= seq![b[0]] + b.skip(1));
    } else if a.len() == 0 {
        assert(b.len() == 0);
        assert(a =~= b);
    }
}

/// The order is transitive.
pub proof fn lemma_lex_trans(a: Seq<u8>, b: Seq<u8>, c: Seq<u8>)
    requires
        lex_le(a, b),
        lex_le(b, c),
    ensures
        lex_le(a, c),
    decreases a.len(),
{
    if a.len() != 0 && b.len() != 0 && c.len() != 0 {
        if a[0] == b[0] && b[0] == c[0] {
            lemma_lex_trans(a.skip(1), b.skip(1), c.skip(1));
        }
    }
}

/// The empty key is the least element: a scan from the empty key is a full scan.
pub proof fn lemma_lex_empty_least(k: Seq<u8>)
    ensures
        lex_le(Seq::<u8>::empty(), k),
{
}

/// A strict bound below a weak bound is strict.
pub proof fn lemma_lex_lt_le_trans(a: Seq<u8>, b: Seq<u8>, c: Seq<u8>)
    requires
        lex_lt(a, b),
        lex_le(b, c),
    ensures
        lex_lt(a, c),
{
    lemma_lex_trans(a, b, c);
    if a == c {
        lemma_lex_antisym(a, b);
    }
}

/// A sequence precedes any extension of itself.
pub proof fn lemma_lex_le_extend(a: Seq<u8>, s: Seq<u8>)
    ensures
        lex_le(a, a + s),
    decreases a.len(),
{
    if a.len() != 0 {
        assert((a + s)[0] == a[0]);
        assert((a + s).skip(1) =~= a.skip(1) + s);
        lemma_lex_le_extend(a.skip(1), s);
    }
}

/// Appending a zero byte yields the immediate successor: `k ++ [0] <= k2`
/// exactly when `k < k2`. The scan pipeline steps its cursor with it.
pub proof fn lemma_lex_successor(k: Seq<u8>, k2: Seq<u8>)
    ensures
        lex_le(k.push(0u8), k2) <==> lex_lt(k, k2),
    decreases k.len(),
{
    if k.len() == 0 {
        assert(k.push(0u8) =~= seq![0u8]);
        if k2.len() != 0 {
            assert(lex_le(k, k2));
            assert(k != k2);
            assert(seq![0u8].skip(1) =~= Seq::<u8>::empty());
            assert(lex_le(Seq::<u8>::empty(), k2.skip(1)));
            assert(lex_le(seq![0u8], k2));
        } else {
            assert(!lex_le(k.push(0u8), k2));
            assert(k =~= k2);
        }
    } else if k2.len() == 0 {
        assert(!lex_le(k.push(0u8), k2));
        assert(!lex_lt(k, k2));
    } else {
        assert(k.push(0u8)[0] == k[0]);
        assert(k.push(0u8).skip(1) =~= k.skip(1).push(0u8));
        lemma_lex_successor(k.skip(1), k2.skip(1));
        if k[0] == k2[0] {
            assert(k == k2 <==> k.skip(1) == k2.skip(1)) by {
                if k.skip(1) == k2.skip(1) {
                    assert(k =~= seq![k[0]] + k.skip(1));
                    assert(k2 =~= seq![k2[0]] + k2.skip(1));
                }
            }
        }
    }
}

/// Looking a key up in a model: the stored value, or absence when the table
/// or the key does not exist.
pub open spec fn spec_lookup(m: StoreModel, t: Option<Seq<char>>, k: Seq<u8>) -> Option<Seq<u8>> {
    if m.contains_key(t) && m[t].contains_key(k) {
        Some(m[t][k])
    } else {
        None
    }
}

/// Implicit table creation: the model after making sure table `t` exists.
pub open spec fn spec_ensure(m: StoreModel, t: Option<Seq<char>>) -> StoreModel {
    if m.contains_key(t) {
        m
    } else {
        m.insert(t, Map::empty())
    }
}

/// The model after a successful upsert of `(k, v)` into table `t`,
/// creating the table first when it is absent.
pub open spec fn spec_set(m: StoreModel, t: Option<Seq<char>>, k: Seq<u8>, v: Seq<u8>) -> StoreModel {
    spec_ensure(m, t).insert(t, spec_ensure(m, t)[t].insert(k, v))
}

/// The number of named tables in a model; the unnamed default table is free.
pub open spec fn named_table_count(m: StoreModel) -> nat {
    m.dom().remove(None).len()
}

/// The view of a vector of byte pairs.
pub open spec fn pairs_view(v: Seq<(Vec<u8>, Vec<u8>)>) -> Seq<(Seq<u8>, Seq<u8>)> {
    v.map(|i: int, p: (Vec<u8>, Vec<u8>)| (p.0@, p.1@))
}

/// No two pairs of the sequence share a key.
pub open spec fn distinct_keys(s: Seq<(Seq<u8>, Seq<u8>)>) -> bool {
    forall|i: int, j: int| 0 <= i < j < s.len() ==> (#[trigger] s[i]).0 != (#[trigger] s[j]).0
}

/// The map a sequence of pairs denotes; a later pair wins a shared key.
pub open spec fn entries_map(s: Seq<(Seq<u8>, Seq<u8>)>) -> Map<Seq<u8>, Seq<u8>>
    decreases s.len(),
{
    if s.len() == 0 {
        Map::empty()
    } else {
        entries_map(s.drop_last()).insert(s.last().0, s.last().1)
    }
}

/// An entries map has a finite domain: exactly the keys of the sequence.
pub proof fn lemma_entries_map_dom(s: Seq<(Seq<u8>, Seq<u8>)>)
    ensures
        entries_map(s).dom().finite(),
        forall|k: Seq<u8>|
            entries_map(s).contains_key(k) <==> exists|i: int|
                0 <= i < s.len() && (#[trigger] s[i]).0 == k,
    decreases s.len(),
{
    if s.len() != 0 {
        lemma_entries_map_dom(s.drop_last());
        assert forall|k: Seq<u8>| entries_map(s).contains_key(k) implies exists|i: int|
            0 <= i < s.len() && (#[trigger] s[i]).0 == k by {
            if k == s.last().0 {
                assert(s[s.len() - 1].0 == k);
            } else {
                let i = choose|i: int| 0 <= i < s.drop_last().len() && (#[trigger] s.drop_last()[i]).0 == k;
                assert(s[i].0 == k);
            }
        }
        assert forall|k: Seq<u8>|
            (exists|i: int| 0 <= i < s.len() && (#[trigger] s[i]).0 == k) implies entries_map(
            s,
        ).contains_key(k) by {
            let i = choose|i: int| 0 <= i < s.len() && (#[trigger] s[i]).0 == k;
            if i < s.len() - 1 {
                assert(s.drop_last()[i].0 == k);
            }
        }
    }
}

/// With distinct keys, each pair of the sequence is stored as written.
pub proof fn lemma_entries_map_at(s: Seq<(Seq<u8>, Seq<u8>)>, i: int)
    requires
        distinct_keys(s),
        0 <= i < s.len(),
    ensures
        entries_map(s).contains_key(s[i].0),
        entries_map(s)[s[i].0] == s[i].1,
    decreases s.len(),
{
    if i < s.len() - 1 {
        lemma_entries_map_at(s.drop_last(), i);
        assert(s.drop_last()[i] == s[i]);
        assert(s[i].0 != s.last().0);
    }
}

/// Replacing the value of the pair that holds key `k` updates exactly `k`.
pub proof fn lemma_entries_map_update(s: Seq<(Seq<u8>, Seq<u8>)>, i: int, v: Seq<u8>)
    requires
        distinct_keys(s),
        0 <= i < s.len(),
    ensures
        entries_map(s.update(i, (s[i].0, v))) == entries_map(s).insert(s[i].0, v),
    decreases s.len(),
{
    let t = s.update(i, (s[i].0, v));
    if i == s.len() - 1 {
        assert(t.drop_last() =~= s.drop_last());
        assert(t.last() == (s[i].0, v));
        assert(entries_map(t) =~= entries_map(s).insert(s[i].0, v));
    } else {
        assert(t.drop_last() =~= s.drop_last().update(i, (s[i].0, v)));
        assert(s.drop_last()[i] == s[i]);
        lemma_entries_map_update(s.drop_last(), i, v);
        assert(t.last() == s.last());
        assert(s[i].0 != s.last().0);
        assert(entries_map(t) =~= entries_map(s).insert(s[i].0, v));
    }
}

/// The stored keys of table `t` at or after `lower`: what a scan that has
/// advanced to `lower` still has to deliver.
pub open spec fn keys_from(m: StoreModel, t: Option<Seq<char>>, lower: Seq<u8>) -> Set<Seq<u8>> {
    m[t].dom().filter(|k: Seq<u8>| lex_le(lower, k))
}

/// Does key `k` lie at or after the scan's optional start key?
pub open spec fn from_le(from: Option<Seq<u8>>, k: Seq<u8>) -> bool {
    match from {
        None => true,
        Some(f) => lex_le(f, k),
    }
}

/// One emitted pair is in order: it is a stored pair of table `t`, with
/// its stored value, and lies at or after the start key.
pub open spec fn scan_pair_ok(
    m: StoreModel,
    t: Option<Seq<char>>,
    from: Option<Seq<u8>>,
    p: (Seq<u8>, Seq<u8>),
) -> bool {
    &&& m.contains_key(t)
    &&& m[t].contains_key(p.0)
    &&& p.1 == m[t][p.0]
    &&& from_le(from, p.0)
}

/// Soundness of a scan's output: every emitted pair is a stored pair of
/// table `t`, lies at or after the start key, and keys strictly ascend.
pub open spec fn scan_sound(
    m: StoreModel,
    t: Option<Seq<char>>,
    from: Option<Seq<u8>>,
    out: Seq<(Seq<u8>, Seq<u8>)>,
) -> bool {
    &&& forall|i: int| 0 <= i < out.len() ==> scan_pair_ok(m, t, from, #[trigger] out[i])
    &&& forall|i: int, j: int|
        0 <= i < j < out.len() ==> lex_lt((#[trigger] out[i]).0, (#[trigger] out[j]).0)
}

/// Completeness of a scan's output: every stored key of table `t` at or
/// after the start key was emitted.
pub open spec fn scan_complete(
    m: StoreModel,
    t: Option<Seq<char>>,
    from: Option<Seq<u8>>,
    out: Seq<(Seq<u8>, Seq<u8>)>,
) -> bool {
    forall|k: Seq<u8>|
        #[trigger] m[t].contains_key(k) && m.contains_key(t) && from_le(from, k)
            ==> exists|i: int| 0 <= i < out.len() && (#[trigger] out[i]).0 == k
}

/// One pair of a sound scan output: stored in the table, with its stored
/// value, at or after the start key.
pub proof fn lemma_scan_sound_at(
    m: StoreModel,
    t: Option<Seq<char>>,
    from: Option<Seq<u8>>,
    out: Seq<(Seq<u8>, Seq<u8>)>,
    i: int,
)
    requires
        scan_sound(m, t, from, out),
        0 <= i < out.len(),
    ensures
        m.contains_key(t),
        m[t].contains_key(out[i].0),
        out[i].1 == m[t][out[i].0],
        from_le(from, out[i].0),
{
    assert(scan_pair_ok(m, t, from, out[i]));
}

/// Two pairs of a sound scan output stand in strictly ascending key order.
pub proof fn lemma_scan_sound_order(
    m: StoreModel,
    t: Option<Seq<char>>,
    from: Option<Seq<u8>>,
    out: Seq<(Seq<u8>, Seq<u8>)>,
    i: int,
    j: int,
)
    requires
        scan_sound(m, t, from, out),
        0 <= i < j < out.len(),
    ensures
        lex_lt(out[i].0, out[j].0),
{
}

/// A prefix of a sound scan output is itself a sound scan output: the
/// pairs are still stored pairs at or after the start key, still strictly
/// ascending.
pub proof fn lemma_scan_sound_prefix(
    m: StoreModel,
    t: Option<Seq<char>>,
    from: Option<Seq<u8>>,
    full: Seq<(Seq<u8>, Seq<u8>)>,
    pre: Seq<(Seq<u8>, Seq<u8>)>,
)
    requires
        scan_sound(m, t, from, full),
        pre.is_prefix_of(full),
    ensures
        scan_sound(m, t, from, pre),
{
    assert(pre =~= full.subrange(0, pre.len() as int));
    assert forall|i: int| 0 <= i < pre.len() implies scan_pair_ok(
        m,
        t,
        from,
        #[trigger] pre[i],
    ) by {
        assert(pre[i] == full[i]);
        assert(scan_pair_ok(m, t, from, full[i]));
    }
    assert forall|i: int, j: int| 0 <= i < j < pre.len() implies lex_lt(
        (#[trigger] pre[i]).0,
        (#[trigger] pre[j]).0,
    ) by {
        assert(pre[i] == full[i]);
        assert(pre[j] == full[j]);
        lemma_scan_sound_order(m, t, from, full, i, j);
    }
}

/// A prefix of an incomplete scan output is itself incomplete: the
/// matching key the full output misses is missing from every prefix too.
pub proof fn lemma_scan_incomplete_prefix(
    m: StoreModel,
    t: Option<Seq<char>>,
    from: Option<Seq<u8>>,
    full: Seq<(Seq<u8>, Seq<u8>)>,
    pre: Seq<(Seq<u8>, Seq<u8>)>,
)
    requires
        !scan_complete(m, t, from, full),
        pre.is_prefix_of(full),
    ensures
        !scan_complete(m, t, from, pre),
{
    if scan_complete(m, t, from, pre) {
        assert(pre =~= full.subrange(0, pre.len() as int));
        assert forall|k: Seq<u8>|
            #[trigger] m[t].contains_key(k) && m.contains_key(t) && from_le(from, k) implies exists|
            i: int,
        | 0 <= i < full.len() && (#[trigger] full[i]).0 == k by {
            let i = choose|i: int| 0 <= i < pre.len() && (#[trigger] pre[i]).0 == k;
            assert(full[i].0 == k);
        }
        assert(scan_complete(m, t, from, full));
    }
}

/// A sound and complete scan output is unique: the table and the start
/// key determine the output exactly, so any two of them agree.
pub proof fn lemma_scan_deterministic(
    m: StoreModel,
    t: Option<Seq<char>>,
    from: Option<Seq<u8>>,
    a: Seq<(Seq<u8>, Seq<u8>)>,
    b: Seq<(Seq<u8>, Seq<u8>)>,
)
    requires
        scan_sound(m, t, from, a),
        scan_complete(m, t, from, a),
        scan_sound(m, t, from, b),
        scan_complete(m, t, from, b),
    ensures
        a == b,
    decreases a.len(),
{
    if a.len() == 0 && b.len() == 0 {
        assert(a =~= b);
    } else if a.len() == 0 {
        lemma_scan_sound_at(m, t, from, b, 0);
        assert(false);
    } else if b.len() == 0 {
        lemma_scan_sound_at(m, t, from, a, 0);
        assert(false);
    } else {
        assert(lex_le(a[0].0, b[0].0)) by {
            lemma_scan_sound_at(m, t, from, b, 0);
            let i = choose|i: int| 0 <= i < a.len() && (#[trigger] a[i]).0 == b[0].0;
            if i > 0 {
                lemma_scan_sound_order(m, t, from, a, 0, i);
            } else {
                lemma_lex_total(a[0].0, a[0].0);
            }
        }
        assert(lex_le(b[0].0, a[0].0)) by {
            lemma_scan_sound_at(m, t, from, a, 0);
            let i = choose|i: int| 0 <= i < b.len() && (#[trigger] b[i]).0 == a[0].0;
            if i > 0 {
                lemma_scan_sound_order(m, t, from, b, 0, i);
            } else {
                lemma_lex_total(b[0].0, b[0].0);
            }
        }
        lemma_lex_antisym(a[0].0, b[0].0);
        assert(a[0] == b[0]);
        let k0 = a[0].0;
        let from2 = Some(k0.push(0u8));
        let ta = a.skip(1);
        let tb = b.skip(1);
        assert(scan_sound(m, t, from2, ta) && scan_complete(m, t, from2, ta)) by {
            lemma_scan_tail(m, t, from, a);
        }
        assert(scan_sound(m, t, from2, tb) && scan_complete(m, t, from2, tb)) by {
            lemma_scan_tail(m, t, from, b);
        }
        lemma_scan_deterministic(m, t, from2, ta, tb);
        assert(a =~= seq![a[0]] + ta);
        assert(b =~= seq![b[0]] + tb);
    }
}

/// Dropping the first pair of a sound and complete scan output leaves a
/// sound and complete scan output from just above that pair's key.
proof fn lemma_scan_tail(
    m: StoreModel,
    t: Option<Seq<char>>,
    from: Option<Seq<u8>>,
    a: Seq<(Seq<u8>, Seq<u8>)>,
)
    requires
        scan_sound(m, t, from, a),
        scan_complete(m, t, from, a),
        a.len() > 0,
    ensures
        scan_sound(m, t, Some(a[0].0.push(0u8)), a.skip(1)),
        scan_complete(m, t, Some(a[0].0.push(0u8)), a.skip(1)),
{
    let k0 = a[0].0;
    let ta = a.skip(1);
    assert forall|i: int| 0 <= i < ta.len() implies scan_pair_ok(
        m,
        t,
        Some(k0.push(0u8)),
        #[trigger] ta[i],
    ) by {
        assert(ta[i] == a[i + 1]);
        assert(scan_pair_ok(m, t, from, a[i + 1]));
        lemma_scan_sound_order(m, t, from, a, 0, i + 1);
        lemma_lex_successor(k0, a[i + 1].0);
    }
    assert forall|k: Seq<u8>|
        #[trigger] m[t].contains_key(k) && m.contains_key(t) && from_le(
            Some(k0.push(0u8)),
            k,
        ) implies exists|i: int| 0 <= i < ta.len() && (#[trigger] ta[i]).0 == k by {
        lemma_lex_successor(k0, k);
        assert(lex_lt(k0, k));
        assert(from_le(from, k)) by {
            match from {
                None => {},
                Some(f) => {
                    lemma_lex_trans(f, k0, k);
                },
            }
        }
        let i = choose|i: int| 0 <= i < a.len() && (#[trigger] a[i]).0 == k;
        assert(i != 0);
        assert(ta[i - 1].0 == k);
    }
}

/// Does the pair `p` stand somewhere in the output `out`?
pub open spec fn appears_in(out: Seq<(Seq<u8>, Seq<u8>)>, p: (Seq<u8>, Seq<u8>)) -> bool {
    exists|j: int| 0 <= j < out.len() && out[j] == p
}

/// Start-key semantics: a scan from `from` yields exactly those pairs of
/// a full scan whose key lies at or after `from` (each still ascending,
/// by soundness).
#[verifier::rlimit(50)]
pub proof fn lemma_scan_start_key(
    m: StoreModel,
    t: Option<Seq<char>>,
    from: Seq<u8>,
    full: Seq<(Seq<u8>, Seq<u8>)>,
    part: Seq<(Seq<u8>, Seq<u8>)>,
)
    requires
        scan_sound(m, t, None, full),
        scan_complete(m, t, None, full),
        scan_sound(m, t, Some(from), part),
        scan_complete(m, t, Some(from), part),
    ensures
        forall|i: int| 0 <= i < part.len() ==> appears_in(full, #[trigger] part[i]),
        forall|j: int|
            0 <= j < full.len() && lex_le(from, (#[trigger] full[j]).0) ==> appears_in(
                part,
                full[j],
            ),
{
    assert forall|i: int| 0 <= i < part.len() implies appears_in(full, #[trigger] part[i]) by {
        let k = part[i].0;
        assert(m[t].contains_key(k) && m.contains_key(t) && from_le(None, k));
        let j = choose|j: int| 0 <= j < full.len() && (#[trigger] full[j]).0 == k;
        assert(full[j].1 == m[t][k]);
        assert(full[j] == part[i]);
    }
    assert forall|j: int|
        0 <= j < full.len() && lex_le(from, (#[trigger] full[j]).0) implies appears_in(
        part,
        full[j],
    ) by {
        let k = full[j].0;
        assert(m[t].contains_key(k) && m.contains_key(t) && from_le(Some(from), k));
        let i = choose|i: int| 0 <= i < part.len() && (#[trigger] part[i]).0 == k;
        assert(part[i].1 == m[t][k]);
        assert(part[i] == full[j]);
    }
}

/// Writing a pair and reading it back through the same table and key
/// returns exactly that value.
pub proof fn lemma_round_trip(m: StoreModel, t: Option<Seq<char>>, k: Seq<u8>, v: Seq<u8>)
    ensures
        spec_lookup(spec_set(m, t, k, v), t, k) == Some(v),
{
}

/// A key never stored, or any key of a table that does not exist, reads
/// as absent.
pub proof fn lemma_absent(m: StoreModel, t: Option<Seq<char>>, k: Seq<u8>)
    requires
        !m.contains_key(t) || !m[t].contains_key(k),
    ensures
        spec_lookup(m, t, k) is None,
{
}

/// Table isolation: a write to table `ta` changes no read through any
/// other table `tb`.
pub proof fn lemma_table_isolation(
    m: StoreModel,
    ta: Option<Seq<char>>,
    tb: Option<Seq<char>>,
    k: Seq<u8>,
    v: Seq<u8>,
    k2: Seq<u8>,
)
    requires
        ta != tb,
    ensures
        spec_lookup(spec_set(m, ta, k, v), tb, k2) == spec_lookup(m, tb, k2),
{
}

/// A write leaves every other key of the same table unchanged.
pub proof fn lemma_other_keys_unchanged(
    m: StoreModel,
    t: Option<Seq<char>>,
    k: Seq<u8>,
    v: Seq<u8>,
    k2: Seq<u8>,
)
    requires
        k != k2,
    ensures
        spec_lookup(spec_set(m, t, k, v), t, k2) == spec_lookup(m, t, k2),
{
}

} // verus!
