//! The in-memory key-value store: a fully verified implementation of the
//! store abstraction, suitable for exercising the scan pipeline and the
//! service layer without a storage engine on disk.

use vstd::prelude::*;
use vstd::seq_lib::seq_to_set_is_finite;
use vstd::set_lib::lemma_len_subset;

use crate::bytes::{bytes_eq, bytes_le, copy_bytes};
use crate::model::{
    distinct_keys, entries_map, lemma_entries_map_at, lemma_entries_map_dom,
    lemma_entries_map_update, lemma_lex_total, lex_le, name_view, named_table_count, pairs_view,
    spec_set, StoreModel,
};
use crate::store::{KeyValueStore, StoreError};

verus! {

/// One in-memory table: a name and its entries, with pairwise-distinct keys.
pub struct MemTable {
    pub name: Option<String>,
    pub entries: Vec<(Vec<u8>, Vec<u8>)>,
}

/// The spec-level name of an in-memory table.
pub open spec fn tbl_name(t: MemTable) -> Option<Seq<char>> {
    name_view(t.name)
}

/// The map an in-memory table denotes.
pub open spec fn tbl_map(t: MemTable) -> Map<Seq<u8>, Seq<u8>> {
    entries_map(pairs_view(t.entries@))
}

/// The in-memory store: the unnamed default table first, then at most
/// `max_tables` named tables.
pub struct MemStore {
    pub tables: Vec<MemTable>,
    pub max_tables: usize,
}

impl MemStore {
    /// Well-formedness: the default table leads, names are distinct, the
    /// named-table limit holds, and every table's keys are distinct.
    pub open spec fn wf(self) -> bool {
        &&& self.tables@.len() >= 1
        &&& tbl_name(self.tables@[0]) is None
        &&& forall|i: int|
            1 <= i < self.tables@.len() ==> tbl_name(#[trigger] self.tables@[i]) is Some
        &&& forall|i: int, j: int|
            0 <= i < j < self.tables@.len() ==> tbl_name(#[trigger] self.tables@[i]) != tbl_name(
                #[trigger] self.tables@[j],
            )
        &&& self.tables@.len() <= self.max_tables + 1
        &&& forall|i: int|
            0 <= i < self.tables@.len() ==> distinct_keys(
                pairs_view((#[trigger] self.tables@[i]).entries@),
            )
    }

    /// The index of the table named `t`, when one exists.
    pub open spec fn index_of(self, t: Option<Seq<char>>) -> int {
        choose|i: int| 0 <= i < self.tables@.len() && tbl_name(#[trigger] self.tables@[i]) == t
    }

    /// The abstract contents of the store.
    pub open spec fn model(self) -> StoreModel {
        Map::new(
            |t: Option<Seq<char>>|
                exists|i: int|
                    0 <= i < self.tables@.len() && tbl_name(#[trigger] self.tables@[i]) == t,
            |t: Option<Seq<char>>| tbl_map(self.tables@[self.index_of(t)]),
        )
    }

    /// Each table of a well-formed store appears in the model under its
    /// name, with exactly its entries.
    proof fn lemma_model_at(self, i: int)
        requires
            self.wf(),
            0 <= i < self.tables@.len(),
        ensures
            self.model().contains_key(tbl_name(self.tables@[i])),
            self.model()[tbl_name(self.tables@[i])] == tbl_map(self.tables@[i]),
            self.index_of(tbl_name(self.tables@[i])) == i,
    {
        let t = tbl_name(self.tables@[i]);
        assert(self.model().contains_key(t));
        let j = self.index_of(t);
        assert(0 <= j < self.tables@.len() && tbl_name(self.tables@[j]) == t);
        if i != j {
            assert(tbl_name(self.tables@[i]) != tbl_name(self.tables@[j]));
        }
    }

    /// A name matching no table of the store is absent from the model.
    proof fn lemma_model_absent(self, t: Option<Seq<char>>)
        requires
            forall|i: int|
                0 <= i < self.tables@.len() ==> tbl_name(#[trigger] self.tables@[i]) != t,
        ensures
            !self.model().contains_key(t),
    {
    }

    /// Finds the table named `t`.
    fn find_table(&self, t: &Option<String>) -> (r: Option<usize>)
        ensures
            match r {
                Some(i) => 0 <= i < self.tables@.len() && tbl_name(self.tables@[i as int])
                    == name_view(*t),
                None => forall|i: int|
                    0 <= i < self.tables@.len() ==> tbl_name(#[trigger] self.tables@[i])
                        != name_view(*t),
            },
    {
        let mut i: usize = 0;
        while i < self.tables.len()
            invariant
                i <= self.tables@.len(),
                forall|j: int|
                    0 <= j < i ==> tbl_name(#[trigger] self.tables@[j]) != name_view(*t),
            decreases self.tables@.len() - i,
        {
            if name_eq(&self.tables[i].name, t) {
                return Some(i);
            }
            i = i + 1;
        }
        None
    }

    /// Creates an empty store whose default table exists and that will
    /// hold at most `max_tables` named tables.
    pub fn new_with_limit(max_tables: usize) -> (s: MemStore)
        ensures
            s.wf(),
            s.model() == StoreModel::empty().insert(None, Map::<Seq<u8>, Seq<u8>>::empty()),
            s.max_tables == max_tables,
    {
        let mut tables: Vec<MemTable> = Vec::new();
        tables.push(MemTable { name: None, entries: Vec::new() });
        let s = MemStore { tables, max_tables };
        proof {
            assert(tbl_name(s.tables@[0]) is None);
            assert(pairs_view(s.tables@[0].entries@) =~= Seq::<(Seq<u8>, Seq<u8>)>::empty());
            s.lemma_model_at(0);
            assert(tbl_map(s.tables@[0]) =~= Map::<Seq<u8>, Seq<u8>>::empty());
            assert(s.model() =~= StoreModel::empty().insert(
                None,
                Map::<Seq<u8>, Seq<u8>>::empty(),
            ));
        }
        s
    }

    /// Creates an empty store with the default named-table limit.
    pub fn new() -> (s: MemStore)
        ensures
            s.wf(),
            s.model() == StoreModel::empty().insert(None, Map::<Seq<u8>, Seq<u8>>::empty()),
            s.max_tables == crate::MAX_TABLES,
    {
        MemStore::new_with_limit(crate::MAX_TABLES)
    }
}

/// Are two optional table names the same name?
pub fn name_eq(a: &Option<String>, b: &Option<String>) -> (r: bool)
    ensures
        r <==> name_view(*a) == name_view(*b),
{
    match (a, b) {
        (None, None) => true,
        (Some(x), Some(y)) => *x == *y,
        _ => false,
    }
}

/// Copies an optional table name.
pub fn clone_name(t: &Option<String>) -> (r: Option<String>)
    ensures
        name_view(r) == name_view(*t),
{
    match t {
        None => None,
        Some(s) => Some(s.clone()),
    }
}

impl MemStore {
    /// Replacing one table, name kept, rewrites exactly that table's
    /// entry in the model.
    proof fn lemma_model_update(pre: MemStore, post: MemStore, idx: int)
        requires
            pre.wf(),
            post.wf(),
            0 <= idx < pre.tables@.len(),
            post.tables@.len() == pre.tables@.len(),
            forall|i: int|
                0 <= i < pre.tables@.len() && i != idx ==> post.tables@[i] == pre.tables@[i],
            tbl_name(post.tables@[idx]) == tbl_name(pre.tables@[idx]),
        ensures
            post.model() == pre.model().insert(
                tbl_name(pre.tables@[idx]),
                tbl_map(post.tables@[idx]),
            ),
    {
        let t0 = tbl_name(pre.tables@[idx]);
        let m1 = post.model();
        let m2 = pre.model().insert(t0, tbl_map(post.tables@[idx]));
        assert forall|t: Option<Seq<char>>| m1.contains_key(t) implies m2.contains_key(t) by {
            let i = choose|i: int|
                0 <= i < post.tables@.len() && tbl_name(#[trigger] post.tables@[i]) == t;
            if i != idx {
                assert(tbl_name(pre.tables@[i]) == t);
            }
        }
        assert forall|t: Option<Seq<char>>| m2.contains_key(t) implies m1.contains_key(t) by {
            if t == t0 {
                assert(tbl_name(post.tables@[idx]) == t);
            } else {
                let i = choose|i: int|
                    0 <= i < pre.tables@.len() && tbl_name(#[trigger] pre.tables@[i]) == t;
                if i == idx {
                    assert(false);
                } else {
                    assert(tbl_name(post.tables@[i]) == t);
                }
            }
        }
        assert forall|t: Option<Seq<char>>| m1.contains_key(t) implies m1[t] == m2[t] by {
            let i = choose|i: int|
                0 <= i < post.tables@.len() && tbl_name(#[trigger] post.tables@[i]) == t;
            post.lemma_model_at(i);
            if i == idx {
                assert(t == t0);
            } else {
                assert(t != t0) by {
                    if t == t0 {
                        assert(tbl_name(post.tables@[i]) == tbl_name(post.tables@[idx]));
                    }
                }
                assert(tbl_name(pre.tables@[i]) == t);
                pre.lemma_model_at(i);
                assert(m2[t] == pre.model()[t]);
            }
        }
        assert(m1 =~= m2);
    }

    /// Appending a fresh table adds exactly its entry to the model.
    proof fn lemma_model_push(pre: MemStore, post: MemStore)
        requires
            pre.wf(),
            post.wf(),
            post.tables@.len() == pre.tables@.len() + 1,
            forall|i: int| 0 <= i < pre.tables@.len() ==> post.tables@[i] == pre.tables@[i],
        ensures
            post.model() == pre.model().insert(
                tbl_name(post.tables@.last()),
                tbl_map(post.tables@.last()),
            ),
    {
        let n = pre.tables@.len() as int;
        let t0 = tbl_name(post.tables@[n]);
        let m1 = post.model();
        let m2 = pre.model().insert(t0, tbl_map(post.tables@[n]));
        assert forall|t: Option<Seq<char>>| m1.contains_key(t) implies m2.contains_key(t) by {
            let i = choose|i: int|
                0 <= i < post.tables@.len() && tbl_name(#[trigger] post.tables@[i]) == t;
            if i < n {
                assert(tbl_name(pre.tables@[i]) == t);
            }
        }
        assert forall|t: Option<Seq<char>>| m2.contains_key(t) implies m1.contains_key(t) by {
            if t == t0 {
                assert(tbl_name(post.tables@[n]) == t);
            } else {
                let i = choose|i: int|
                    0 <= i < pre.tables@.len() && tbl_name(#[trigger] pre.tables@[i]) == t;
                assert(tbl_name(post.tables@[i]) == t);
            }
        }
        assert forall|t: Option<Seq<char>>| m1.contains_key(t) implies m1[t] == m2[t] by {
            let i = choose|i: int|
                0 <= i < post.tables@.len() && tbl_name(#[trigger] post.tables@[i]) == t;
            post.lemma_model_at(i);
            if i == n {
                assert(t == t0);
            } else {
                assert(t != t0) by {
                    if t == t0 {
                        assert(tbl_name(post.tables@[i]) == tbl_name(post.tables@[n]));
                    }
                }
                assert(tbl_name(pre.tables@[i]) == t);
                pre.lemma_model_at(i);
                assert(m2[t] == pre.model()[t]);
            }
        }
        assert(m1 =~= m2);
    }

    /// The model of a well-formed store holds exactly one named table per
    /// stored table beyond the default one.
    pub proof fn lemma_named_count(self)
        requires
            self.wf(),
        ensures
            named_table_count(self.model()) == self.tables@.len() - 1,
    {
        broadcast use vstd::set::group_set_axioms;

        let names = Seq::new(self.tables@.len(), |i: int| tbl_name(self.tables@[i]));
        assert(names.no_duplicates()) by {
            assert forall|i: int, j: int|
                0 <= i < names.len() && 0 <= j < names.len() && i != j implies names[i]
                != names[j] by {
                if i < j {
                    assert(tbl_name(self.tables@[i]) != tbl_name(self.tables@[j]));
                } else {
                    assert(tbl_name(self.tables@[j]) != tbl_name(self.tables@[i]));
                }
            }
        }
        names.unique_seq_to_set();
        seq_to_set_is_finite::<Option<Seq<char>>>(names);
        assert(self.model().dom() =~= names.to_set()) by {
            assert forall|t: Option<Seq<char>>|
                self.model().dom().contains(t) implies names.to_set().contains(t) by {
                let i = choose|i: int|
                    0 <= i < self.tables@.len() && tbl_name(#[trigger] self.tables@[i]) == t;
                assert(names[i] == t);
            }
            assert forall|t: Option<Seq<char>>|
                names.to_set().contains(t) implies self.model().dom().contains(t) by {
                let i = choose|i: int| 0 <= i < names.len() && names[i] == t;
                assert(tbl_name(self.tables@[i]) == t);
            }
        }
        assert(names[0] == tbl_name(self.tables@[0]));
        assert(self.model().dom().contains(None));
        assert(self.model().dom().remove(None).len() == names.to_set().len() - 1);
    }
}

/// Upserts `(key, value)` into a sequence of pairs with distinct keys.
fn upsert_entries(es: &mut Vec<(Vec<u8>, Vec<u8>)>, key: Vec<u8>, value: Vec<u8>)
    requires
        distinct_keys(pairs_view(old(es)@)),
    ensures
        distinct_keys(pairs_view(final(es)@)),
        entries_map(pairs_view(final(es)@)) == entries_map(pairs_view(old(es)@)).insert(
            key@,
            value@,
        ),
{
    let ghost s0 = pairs_view(es@);
    match find_entry(es, &key) {
        None => {
            let ghost kv = (key@, value@);
            es.push((key, value));
            proof {
                let s1 = pairs_view(es@);
                assert(s1 =~= s0.push(kv));
                assert(s1.drop_last() =~= s0);
                assert(distinct_keys(s1)) by {
                    assert forall|i: int, j: int| 0 <= i < j < s1.len() implies (
                    #[trigger] s1[i]).0 != (#[trigger] s1[j]).0 by {
                        if j == s1.len() - 1 {
                            assert(s0[i].0 != key@);
                        }
                    }
                }
                assert(entries_map(s1) == entries_map(s0).insert(key@, value@));
            }
        },
        Some(j) => {
            es[j] = (key, value);
            proof {
                let s1 = pairs_view(es@);
                assert(s1 =~= s0.update(j as int, (key@, value@)));
                assert(s0[j as int].0 == key@);
                assert(s0.update(j as int, (key@, value@)) == s0.update(
                    j as int,
                    (s0[j as int].0, value@),
                ));
                lemma_entries_map_update(s0, j as int, value@);
                assert(distinct_keys(s1)) by {
                    assert forall|i: int, jj: int| 0 <= i < jj < s1.len() implies (
                    #[trigger] s1[i]).0 != (#[trigger] s1[jj]).0 by {
                        assert(s1[i].0 == s0[i].0);
                        assert(s1[jj].0 == s0[jj].0);
                    }
                }
            }
        },
    }
}

/// Finds the position of `key` among the pairs, when it is present.
fn find_entry(es: &Vec<(Vec<u8>, Vec<u8>)>, key: &Vec<u8>) -> (r: Option<usize>)
    ensures
        match r {
            Some(j) => 0 <= j < es@.len() && pairs_view(es@)[j as int].0 == key@,
            None => forall|j: int|
                0 <= j < es@.len() ==> (#[trigger] pairs_view(es@)[j]).0 != key@,
        },
{
    let mut j: usize = 0;
    while j < es.len()
        invariant
            j <= es@.len(),
            forall|jj: int| 0 <= jj < j ==> (#[trigger] pairs_view(es@)[jj]).0 != key@,
        decreases es@.len() - j,
    {
        if bytes_eq(&es[j].0, key) {
            assert(pairs_view(es@)[j as int].0 == key@);
            return Some(j);
        }
        j = j + 1;
    }
    None
}

impl KeyValueStore for MemStore {
    open spec fn tables(&self) -> StoreModel {
        self.model()
    }

    open spec fn inv(&self) -> bool {
        self.wf()
    }

    fn get(&self, table: &Option<String>, key: &Vec<u8>) -> (r: Result<
        Option<Vec<u8>>,
        StoreError,
    >)
        ensures
            r is Ok,
    {
        match self.find_table(table) {
            None => {
                proof {
                    self.lemma_model_absent(name_view(*table));
                }
                Ok(None)
            },
            Some(i) => {
                proof {
                    self.lemma_model_at(i as int);
                    lemma_entries_map_dom(pairs_view(self.tables@[i as int].entries@));
                }
                match find_entry(&self.tables[i].entries, key) {
                    None => {
                        proof {
                            assert(!entries_map(
                                pairs_view(self.tables@[i as int].entries@),
                            ).contains_key(key@));
                        }
                        Ok(None)
                    },
                    Some(j) => {
                        proof {
                            lemma_entries_map_at(pairs_view(self.tables@[i as int].entries@), j as int);
                        }
                        let v = copy_bytes(&self.tables[i].entries[j].1);
                        Ok(Some(v))
                    },
                }
            },
        }
    }

    fn set(&mut self, table: &Option<String>, key: Vec<u8>, value: Vec<u8>) -> (ok: bool)
        ensures
            ok <==> (old(self).model().contains_key(name_view(*table)) || named_table_count(
                old(self).model(),
            ) < old(self).max_tables),
            final(self).max_tables == old(self).max_tables,
    {
        let ghost pre = *self;
        let ghost t = name_view(*table);
        match self.find_table(table) {
            Some(i) => {
                proof {
                    pre.lemma_model_at(i as int);
                }
                let ghost em0 = tbl_map(pre.tables@[i as int]);
                let tb = &mut self.tables[i];
                upsert_entries(&mut tb.entries, key, value);
                proof {
                    assert(self.tables@ == pre.tables@.update(i as int, self.tables@[i as int]));
                    assert(tbl_name(self.tables@[i as int]) == tbl_name(pre.tables@[i as int]));
                    assert(self.wf()) by {
                        assert forall|a: int|
                            0 <= a < self.tables@.len() implies distinct_keys(
                            pairs_view((#[trigger] self.tables@[a]).entries@),
                        ) by {
                            if a != i as int {
                                assert(self.tables@[a] == pre.tables@[a]);
                            }
                        }
                        assert forall|a: int, b: int|
                            0 <= a < b < self.tables@.len() implies tbl_name(
                            #[trigger] self.tables@[a],
                        ) != tbl_name(#[trigger] self.tables@[b]) by {
                            assert(tbl_name(self.tables@[a]) == tbl_name(pre.tables@[a]));
                            assert(tbl_name(self.tables@[b]) == tbl_name(pre.tables@[b]));
                        }
                        assert(tbl_name(self.tables@[0]) == tbl_name(pre.tables@[0]));
                        assert forall|a: int|
                            1 <= a < self.tables@.len() implies tbl_name(
                            #[trigger] self.tables@[a],
                        ) is Some by {
                            assert(tbl_name(self.tables@[a]) == tbl_name(pre.tables@[a]));
                        }
                    }
                    MemStore::lemma_model_update(pre, *self, i as int);
                    assert(tbl_map(self.tables@[i as int]) == em0.insert(key@, value@));
                    assert(self.model() =~= spec_set(pre.model(), t, key@, value@));
                }
                true
            },
            None => {
                proof {
                    pre.lemma_model_absent(t);
                    pre.lemma_named_count();
                }
                if self.tables.len() > self.max_tables {
                    return false;
                }
                let mut es: Vec<(Vec<u8>, Vec<u8>)> = Vec::new();
                es.push((key, value));
                let nt = MemTable { name: clone_name(table), entries: es };
                self.tables.push(nt);
                proof {
                    let n = pre.tables@.len() as int;
                    assert(self.tables@[n].name == nt.name);
                    assert(tbl_name(self.tables@[n]) == t);
                    assert(pairs_view(self.tables@[n].entries@) =~= seq![(key@, value@)]);
                    assert(self.wf()) by {
                        assert(tbl_name(pre.tables@[0]) is None);
                        assert(tbl_name(self.tables@[0]) is None);
                        assert(t is Some) by {
                            assert(tbl_name(pre.tables@[0]) != t);
                        }
                        assert forall|a: int, b: int|
                            0 <= a < b < self.tables@.len() implies tbl_name(
                            #[trigger] self.tables@[a],
                        ) != tbl_name(#[trigger] self.tables@[b]) by {
                            if b == n {
                                assert(tbl_name(pre.tables@[a]) != t);
                            }
                        }
                        assert forall|a: int|
                            0 <= a < self.tables@.len() implies distinct_keys(
                            pairs_view((#[trigger] self.tables@[a]).entries@),
                        ) by {
                            if a < n {
                                assert(self.tables@[a] == pre.tables@[a]);
                            } else {
                                assert(pairs_view(self.tables@[a].entries@) =~= seq![
                                    (key@, value@),
                                ]);
                            }
                        }
                    }
                    MemStore::lemma_model_push(pre, *self);
                    assert(seq![(key@, value@)].drop_last() =~= Seq::<(Seq<u8>, Seq<u8>)>::empty());
                    assert(entries_map(Seq::<(Seq<u8>, Seq<u8>)>::empty()) == Map::<
                        Seq<u8>,
                        Seq<u8>,
                    >::empty());
                    assert(seq![(key@, value@)].last() == (key@, value@));
                    assert(entries_map(seq![(key@, value@)]) == Map::<Seq<u8>, Seq<u8>>::empty()
                        .insert(key@, value@));
                    assert(tbl_map(self.tables@[n]) =~= Map::<Seq<u8>, Seq<u8>>::empty().insert(
                        key@,
                        value@,
                    ));
                    assert(self.model() =~= spec_set(pre.model(), t, key@, value@));
                }
                true
            },
        }
    }

    fn first_entry_from(&self, table: &Option<String>, lower: &Vec<u8>) -> (r: Result<
        Option<(Vec<u8>, Vec<u8>)>,
        StoreError,
    >)
        ensures
            r matches Err(e) ==> e == StoreError::TableMissing,
    {
        let i = match self.find_table(table) {
            None => {
                proof {
                    self.lemma_model_absent(name_view(*table));
                }
                return Err(StoreError::TableMissing);
            },
            Some(i) => i,
        };
        proof {
            self.lemma_model_at(i as int);
            lemma_entries_map_dom(pairs_view(self.tables@[i as int].entries@));
        }
        let es = &self.tables[i].entries;
        let ghost pv = pairs_view(es@);
        let mut best: Option<usize> = None;
        let mut j: usize = 0;
        while j < es.len()
            invariant
                j <= es@.len(),
                pv == pairs_view(es@),
                match best {
                    None => forall|jj: int|
                        0 <= jj < j ==> !lex_le(lower@, (#[trigger] pv[jj]).0),
                    Some(b) => 0 <= b < j && lex_le(lower@, pv[b as int].0) && forall|jj: int|
                        0 <= jj < j && lex_le(lower@, (#[trigger] pv[jj]).0) ==> lex_le(
                            pv[b as int].0,
                            pv[jj].0,
                        ),
                },
            decreases es@.len() - j,
        {
            if bytes_le(lower, &es[j].0) {
                let replace = match best {
                    None => true,
                    Some(b) => bytes_le(&es[j].0, &es[b].0),
                };
                if replace {
                    proof {
                        lemma_lex_total(es@[j as int].0@, es@[j as int].0@);
                        if let Some(b) = best {
                            assert forall|jj: int|
                                0 <= jj < j + 1 && lex_le(lower@, (#[trigger] pv[jj]).0) implies lex_le(
                                pv[j as int].0,
                                pv[jj].0,
                            ) by {
                                if jj < j as int {
                                    crate::model::lemma_lex_trans(
                                        pv[j as int].0,
                                        pv[b as int].0,
                                        pv[jj].0,
                                    );
                                }
                            }
                        }
                    }
                    best = Some(j);
                } else {
                    proof {
                        if let Some(b) = best {
                            lemma_lex_total(pv[j as int].0, pv[b as int].0);
                        }
                    }
                }
            }
            j = j + 1;
        }
        match best {
            None => {
                proof {
                    assert forall|k2: Seq<u8>|
                        #[trigger] self.model()[name_view(*table)].contains_key(k2) implies !lex_le(
                        lower@,
                        k2,
                    ) by {
                        let jj = choose|jj: int| 0 <= jj < pv.len() && (#[trigger] pv[jj]).0 == k2;
                        assert(!lex_le(lower@, pv[jj].0));
                    }
                }
                Ok(None)
            },
            Some(b) => {
                proof {
                    lemma_entries_map_at(pv, b as int);
                    assert forall|k2: Seq<u8>|
                        #[trigger] self.model()[name_view(*table)].contains_key(k2) && lex_le(
                            lower@,
                            k2,
                        ) implies lex_le(pv[b as int].0, k2) by {
                        let jj = choose|jj: int| 0 <= jj < pv.len() && (#[trigger] pv[jj]).0 == k2;
                        assert(lex_le(lower@, pv[jj].0));
                    }
                }
                let k = copy_bytes(&self.tables[i].entries[b].0);
                let v = copy_bytes(&self.tables[i].entries[b].1);
                Ok(Some((k, v)))
            },
        }
    }

    proof fn tables_finite(&self) {
        broadcast use vstd::set::group_set_axioms;

        let names = Seq::new(self.tables@.len(), |i: int| tbl_name(self.tables@[i]));
        seq_to_set_is_finite::<Option<Seq<char>>>(names);
        assert(self.model().dom().subset_of(names.to_set())) by {
            assert forall|t: Option<Seq<char>>|
                self.model().dom().contains(t) implies names.to_set().contains(t) by {
                let i = choose|i: int|
                    0 <= i < self.tables@.len() && tbl_name(#[trigger] self.tables@[i]) == t;
                assert(names[i] == t);
            }
        }
        lemma_len_subset(self.model().dom(), names.to_set());
        assert forall|t: Option<Seq<char>>|
            self.model().dom().contains(t) implies (#[trigger] self.model()[t]).dom().finite() by {
            let i = self.index_of(t);
            lemma_entries_map_dom(pairs_view(self.tables@[i].entries@));
        }
    }

}

} // verus!
