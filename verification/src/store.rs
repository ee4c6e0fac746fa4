use vstd::prelude::*;

use crate::record::Data;
use crate::record::DataView;

verus! {

/// True when no two entries of an association list carry the same key.
pub open spec fn distinct_keys<T>(entries: Seq<(String, T)>) -> bool {
    forall|i: int, j: int| 0 <= i < j < entries.len() ==> entries[i].0@ != entries[j].0@
}

/// True when some entry of an association list carries the key `k`.
pub open spec fn has_key<T>(entries: Seq<(String, T)>, k: Seq<char>) -> bool {
    exists|i: int| 0 <= i < entries.len() && entries[i].0@ == k
}

/// The mapping from sort key to record that one partition's entry list
/// stands for; a later entry for a key overrides an earlier one.
pub open spec fn partition_map(entries: Seq<(String, Data)>) -> Map<Seq<char>, DataView>
    decreases entries.len(),
{
    if entries.len() == 0 {
        Map::empty()
    } else {
        partition_map(entries.drop_last()).insert(entries.last().0@, entries.last().1@)
    }
}

/// The two-level mapping from partition key to partition that the store's
/// entry list stands for.
pub open spec fn store_map(entries: Seq<(String, Vec<(String, Data)>)>) -> Map<
    Seq<char>,
    Map<Seq<char>, DataView>,
>
    decreases entries.len(),
{
    if entries.len() == 0 {
        Map::empty()
    } else {
        store_map(entries.drop_last()).insert(
            entries.last().0@,
            partition_map(entries.last().1@),
        )
    }
}

/// The effect of inserting a record on the store's two-level mapping: the
/// partition's inner mapping is created if absent, and the sort key is bound
/// to the record.
pub open spec fn store_insert_spec(
    m: Map<Seq<char>, Map<Seq<char>, DataView>>,
    partition_key: Seq<char>,
    sort_key: Seq<char>,
    record: DataView,
) -> Map<Seq<char>, Map<Seq<char>, DataView>> {
    let inner = if m.contains_key(partition_key) {
        m[partition_key]
    } else {
        Map::empty()
    };
    m.insert(partition_key, inner.insert(sort_key, record))
}

/// The effect of deleting a key on the store's two-level mapping: the entry
/// disappears from its partition's inner mapping; an absent partition is left
/// untouched, and an emptied partition stays present.
pub open spec fn store_remove_spec(
    m: Map<Seq<char>, Map<Seq<char>, DataView>>,
    partition_key: Seq<char>,
    sort_key: Seq<char>,
) -> Map<Seq<char>, Map<Seq<char>, DataView>> {
    if m.contains_key(partition_key) {
        m.insert(partition_key, m[partition_key].remove(sort_key))
    } else {
        m
    }
}

/// Whether the two-level mapping holds a record under the composite key.
pub open spec fn store_contains(
    m: Map<Seq<char>, Map<Seq<char>, DataView>>,
    partition_key: Seq<char>,
    sort_key: Seq<char>,
) -> bool {
    m.contains_key(partition_key) && m[partition_key].contains_key(sort_key)
}

/// The record that the two-level mapping holds under the composite key.
pub open spec fn store_lookup(
    m: Map<Seq<char>, Map<Seq<char>, DataView>>,
    partition_key: Seq<char>,
    sort_key: Seq<char>,
) -> DataView {
    m[partition_key][sort_key]
}

proof fn lemma_distinct_drop_last<T>(entries: Seq<(String, T)>)
    requires
        distinct_keys(entries),
        entries.len() > 0,
    ensures
        distinct_keys(entries.drop_last()),
{
    assert forall|i: int, j: int|
        0 <= i < j < entries.drop_last().len() implies entries.drop_last()[i].0@
        != entries.drop_last()[j].0@ by {
        assert(entries.drop_last()[i] == entries[i]);
        assert(entries.drop_last()[j] == entries[j]);
    }
}

proof fn lemma_partition_map_domain(entries: Seq<(String, Data)>, k: Seq<char>)
    ensures
        partition_map(entries).contains_key(k) <==> has_key(entries, k),
    decreases entries.len(),
{
    if entries.len() > 0 {
        let prefix = entries.drop_last();
        lemma_partition_map_domain(prefix, k);
        if entries.last().0@ == k {
            assert(entries[entries.len() - 1].0@ == k);
        } else {
            if has_key(prefix, k) {
                let i = choose|i: int| 0 <= i < prefix.len() && prefix[i].0@ == k;
                assert(entries[i].0@ == k);
            }
            if has_key(entries, k) {
                let i = choose|i: int| 0 <= i < entries.len() && entries[i].0@ == k;
                assert(prefix[i].0@ == k);
            }
        }
    }
}

proof fn lemma_partition_map_value(entries: Seq<(String, Data)>, i: int)
    requires
        distinct_keys(entries),
        0 <= i < entries.len(),
    ensures
        partition_map(entries).contains_key(entries[i].0@),
        partition_map(entries)[entries[i].0@] == entries[i].1@,
    decreases entries.len(),
{
    if i < entries.len() - 1 {
        let prefix = entries.drop_last();
        lemma_distinct_drop_last(entries);
        lemma_partition_map_value(prefix, i);
        assert(prefix[i] == entries[i]);
        assert(entries.last().0@ != entries[i].0@);
    }
}

proof fn lemma_partition_map_remove(entries: Seq<(String, Data)>, i: int)
    requires
        distinct_keys(entries),
        0 <= i < entries.len(),
    ensures
        distinct_keys(entries.remove(i)),
        partition_map(entries.remove(i)) == partition_map(entries).remove(entries[i].0@),
    decreases entries.len(),
{
    assert forall|a: int, b: int|
        0 <= a < b < entries.remove(i).len() implies entries.remove(i)[a].0@
        != entries.remove(i)[b].0@ by {
        let ra = if a < i { a } else { a + 1 };
        let rb = if b < i { b } else { b + 1 };
        assert(entries.remove(i)[a] == entries[ra]);
        assert(entries.remove(i)[b] == entries[rb]);
    }
    let k = entries[i].0@;
    if i == entries.len() - 1 {
        assert(entries.remove(i) =~= entries.drop_last());
        lemma_distinct_drop_last(entries);
        lemma_partition_map_domain(entries.drop_last(), k);
        assert forall|a: int|
            0 <= a < entries.drop_last().len() implies entries.drop_last()[a].0@ != k by {
            assert(entries.drop_last()[a] == entries[a]);
        }
        assert(!partition_map(entries.drop_last()).contains_key(k));
        assert(partition_map(entries.drop_last()) =~= partition_map(entries).remove(k));
    } else {
        let prefix = entries.drop_last();
        lemma_distinct_drop_last(entries);
        lemma_partition_map_remove(prefix, i);
        assert(entries.remove(i).drop_last() =~= prefix.remove(i));
        assert(entries.remove(i).last() == entries.last());
        assert(partition_map(entries.remove(i)) == partition_map(prefix.remove(i)).insert(
            entries.last().0@,
            entries.last().1@,
        ));
        assert(entries.last().0@ != k);
        assert(partition_map(prefix).remove(k).insert(entries.last().0@, entries.last().1@)
            =~= partition_map(prefix).insert(entries.last().0@, entries.last().1@).remove(k));
    }
}

proof fn lemma_store_map_domain(entries: Seq<(String, Vec<(String, Data)>)>, k: Seq<char>)
    ensures
        store_map(entries).contains_key(k) <==> has_key(entries, k),
    decreases entries.len(),
{
    if entries.len() > 0 {
        let prefix = entries.drop_last();
        lemma_store_map_domain(prefix, k);
        if entries.last().0@ == k {
            assert(entries[entries.len() - 1].0@ == k);
        } else {
            if has_key(prefix, k) {
                let i = choose|i: int| 0 <= i < prefix.len() && prefix[i].0@ == k;
                assert(entries[i].0@ == k);
            }
            if has_key(entries, k) {
                let i = choose|i: int| 0 <= i < entries.len() && entries[i].0@ == k;
                assert(prefix[i].0@ == k);
            }
        }
    }
}

proof fn lemma_store_map_value(entries: Seq<(String, Vec<(String, Data)>)>, i: int)
    requires
        distinct_keys(entries),
        0 <= i < entries.len(),
    ensures
        store_map(entries).contains_key(entries[i].0@),
        store_map(entries)[entries[i].0@] == partition_map(entries[i].1@),
    decreases entries.len(),
{
    if i < entries.len() - 1 {
        let prefix = entries.drop_last();
        lemma_distinct_drop_last(entries);
        lemma_store_map_value(prefix, i);
        assert(prefix[i] == entries[i]);
        assert(entries.last().0@ != entries[i].0@);
    }
}

proof fn lemma_store_map_remove(entries: Seq<(String, Vec<(String, Data)>)>, i: int)
    requires
        distinct_keys(entries),
        0 <= i < entries.len(),
    ensures
        distinct_keys(entries.remove(i)),
        store_map(entries.remove(i)) == store_map(entries).remove(entries[i].0@),
    decreases entries.len(),
{
    assert forall|a: int, b: int|
        0 <= a < b < entries.remove(i).len() implies entries.remove(i)[a].0@
        != entries.remove(i)[b].0@ by {
        let ra = if a < i { a } else { a + 1 };
        let rb = if b < i { b } else { b + 1 };
        assert(entries.remove(i)[a] == entries[ra]);
        assert(entries.remove(i)[b] == entries[rb]);
    }
    let k = entries[i].0@;
    if i == entries.len() - 1 {
        assert(entries.remove(i) =~= entries.drop_last());
        lemma_distinct_drop_last(entries);
        lemma_store_map_domain(entries.drop_last(), k);
        assert forall|a: int|
            0 <= a < entries.drop_last().len() implies entries.drop_last()[a].0@ != k by {
            assert(entries.drop_last()[a] == entries[a]);
        }
        assert(!store_map(entries.drop_last()).contains_key(k));
        assert(store_map(entries.drop_last()) =~= store_map(entries).remove(k));
    } else {
        let prefix = entries.drop_last();
        lemma_distinct_drop_last(entries);
        lemma_store_map_remove(prefix, i);
        assert(entries.remove(i).drop_last() =~= prefix.remove(i));
        assert(entries.remove(i).last() == entries.last());
        assert(store_map(entries.remove(i)) == store_map(prefix.remove(i)).insert(
            entries.last().0@,
            partition_map(entries.last().1@),
        ));
        assert(entries.last().0@ != k);
        assert(store_map(prefix).remove(k).insert(
            entries.last().0@,
            partition_map(entries.last().1@),
        ) =~= store_map(prefix).insert(
            entries.last().0@,
            partition_map(entries.last().1@),
        ).remove(k));
    }
}

/// The in-memory index: a two-level mapping from partition key to sort key to
/// record, held as association lists with distinct keys. It is purely a
/// cache; it performs no I/O and none of its operations can fail.
pub struct Store {
    data: Vec<(String, Vec<(String, Data)>)>,
}

impl View for Store {
    type V = Map<Seq<char>, Map<Seq<char>, DataView>>;

    closed spec fn view(&self) -> Map<Seq<char>, Map<Seq<char>, DataView>> {
        store_map(self.data@)
    }
}

fn find_partition(data: &Vec<(String, Vec<(String, Data)>)>, partition_key: &String) -> (r: Option<
    usize,
>)
    ensures
        match r {
            Some(i) => i < data@.len() && data@[i as int].0@ == partition_key@,
            None => !has_key(data@, partition_key@),
        },
{
    let mut i: usize = 0;
    while i < data.len()
        invariant
            i <= data@.len(),
            forall|j: int| 0 <= j < i ==> data@[j].0@ != partition_key@,
        decreases data@.len() - i,
    {
        if data[i].0 == *partition_key {
            return Some(i);
        }
        i = i + 1;
    }
    None
}

fn find_sort(entries: &Vec<(String, Data)>, sort_key: &String) -> (r: Option<usize>)
    ensures
        match r {
            Some(i) => i < entries@.len() && entries@[i as int].0@ == sort_key@,
            None => !has_key(entries@, sort_key@),
        },
{
    let mut i: usize = 0;
    while i < entries.len()
        invariant
            i <= entries@.len(),
            forall|j: int| 0 <= j < i ==> entries@[j].0@ != sort_key@,
        decreases entries@.len() - i,
    {
        if entries[i].0 == *sort_key {
            return Some(i);
        }
        i = i + 1;
    }
    None
}

impl Store {
    /// Both levels of the association list carry distinct keys, so each list
    /// stands for exactly the mapping of its entries.
    pub closed spec fn wf(&self) -> bool {
        &&& distinct_keys(self.data@)
        &&& forall|i: int| 0 <= i < self.data@.len() ==> distinct_keys(#[trigger] self.data@[i].1@)
    }

    /// Creates an empty index.
    pub fn new() -> (r: Store)
        ensures
            r.wf(),
            r@ == Map::<Seq<char>, Map<Seq<char>, DataView>>::empty(),
    {
        Store { data: Vec::new() }
    }

    /// Inserts or overwrites the record under the composite key, creating the
    /// partition's inner mapping if it is absent.
    pub fn insert(&mut self, partition_key: String, sort_key: String, value: Data)
        requires
            old(self).wf(),
        ensures
            final(self).wf(),
            final(self)@ == store_insert_spec(old(self)@, partition_key@, sort_key@, value@),
    {
        let ghost m0 = self@;
        let ghost pk = partition_key@;
        let ghost sk = sort_key@;
        let ghost dv = value@;
        match find_partition(&self.data, &partition_key) {
            Some(i) => {
                proof {
                    lemma_store_map_value(self.data@, i as int);
                    lemma_store_map_remove(self.data@, i as int);
                    assert(distinct_keys(self.data@[i as int].1@));
                }
                let ghost pre = self.data@;
                let mut pair = self.data.remove(i);
                partition_insert(&mut pair.1, sort_key, value);
                let ghost newpair = pair;
                self.data.push(pair);
                proof {
                    assert(self.data@.drop_last() =~= pre.remove(i as int));
                    assert(self.data@.last() == newpair);
                    assert forall|a: int, b: int|
                        0 <= a < b < self.data@.len() implies self.data@[a].0@
                        != self.data@[b].0@ by {
                        if b == self.data@.len() - 1 {
                            lemma_store_map_domain(pre.remove(i as int), pk);
                            assert(pre.remove(i as int)[a] == self.data@[a]);
                        }
                    }
                    assert forall|a: int|
                        0 <= a < self.data@.len() implies distinct_keys(
                        #[trigger] self.data@[a].1@,
                    ) by {
                        if a < self.data@.len() - 1 {
                            assert(self.data@[a] == pre.remove(i as int)[a]);
                        }
                    }
                    assert(store_map(self.data@) == store_map(pre.remove(i as int)).insert(
                        pk,
                        partition_map(newpair.1@),
                    ));
                    assert(store_map(self.data@) =~= store_insert_spec(m0, pk, sk, dv));
                }
            },
            None => {
                proof {
                    lemma_store_map_domain(self.data@, pk);
                }
                let ghost pre = self.data@;
                let mut inner: Vec<(String, Data)> = Vec::new();
                inner.push((sort_key, value));
                proof {
                    assert(inner@.drop_last() =~= Seq::<(String, Data)>::empty());
                    assert(partition_map(Seq::<(String, Data)>::empty())
                        == Map::<Seq<char>, DataView>::empty());
                    assert(partition_map(inner@) =~= Map::<Seq<char>, DataView>::empty().insert(
                        sk,
                        dv,
                    ));
                }
                let ghost innerv = partition_map(inner@);
                self.data.push((partition_key, inner));
                proof {
                    assert(self.data@.drop_last() =~= pre);
                    assert(store_map(self.data@) == store_map(pre).insert(pk, innerv));
                    assert forall|a: int, b: int|
                        0 <= a < b < self.data@.len() implies self.data@[a].0@
                        != self.data@[b].0@ by {
                        if b == self.data@.len() - 1 {
                            assert(self.data@[a] == pre[a]);
                        }
                    }
                    assert forall|a: int|
                        0 <= a < self.data@.len() implies distinct_keys(
                        #[trigger] self.data@[a].1@,
                    ) by {
                        if a < self.data@.len() - 1 {
                            assert(self.data@[a] == pre[a]);
                        }
                    }
                    assert(store_map(self.data@) =~= store_insert_spec(m0, pk, sk, dv));
                }
            },
        }
    }

    /// Returns the record under the composite key if the index holds one;
    /// no side effects.
    pub fn get(&self, partition_key: &String, sort_key: &String) -> (r: Option<&Data>)
        requires
            self.wf(),
        ensures
            match r {
                Some(d) => store_contains(self@, partition_key@, sort_key@) && d@ == store_lookup(
                    self@,
                    partition_key@,
                    sort_key@,
                ),
                None => !store_contains(self@, partition_key@, sort_key@),
            },
    {
        match find_partition(&self.data, partition_key) {
            Some(i) => {
                proof {
                    lemma_store_map_value(self.data@, i as int);
                }
                match find_sort(&self.data[i].1, sort_key) {
                    Some(j) => {
                        proof {
                            lemma_partition_map_value(self.data@[i as int].1@, j as int);
                        }
                        Some(&self.data[i].1[j].1)
                    },
                    None => {
                        proof {
                            lemma_partition_map_domain(self.data@[i as int].1@, sort_key@);
                        }
                        None
                    },
                }
            },
            None => {
                proof {
                    lemma_store_map_domain(self.data@, partition_key@);
                }
                None
            },
        }
    }

    /// Returns the whole partition if the index holds one, as its entry list.
    pub fn get_all(&self, partition_key: &String) -> (r: Option<&Vec<(String, Data)>>)
        requires
            self.wf(),
        ensures
            match r {
                Some(entries) => self@.contains_key(partition_key@) && partition_map(entries@)
                    == self@[partition_key@] && distinct_keys(entries@),
                None => !self@.contains_key(partition_key@),
            },
    {
        match find_partition(&self.data, partition_key) {
            Some(i) => {
                proof {
                    lemma_store_map_value(self.data@, i as int);
                }
                Some(&self.data[i].1)
            },
            None => {
                proof {
                    lemma_store_map_domain(self.data@, partition_key@);
                }
                None
            },
        }
    }

    /// Removes the entry under the composite key if present; a no-op when the
    /// partition or the sort key is absent.
    pub fn delete(&mut self, partition_key: &String, sort_key: &String)
        requires
            old(self).wf(),
        ensures
            final(self).wf(),
            final(self)@ == store_remove_spec(old(self)@, partition_key@, sort_key@),
    {
        let ghost m0 = self@;
        match find_partition(&self.data, partition_key) {
            Some(i) => {
                proof {
                    lemma_store_map_value(self.data@, i as int);
                    lemma_store_map_remove(self.data@, i as int);
                }
                let ghost pre = self.data@;
                let mut pair = self.data.remove(i);
                partition_remove(&mut pair.1, sort_key);
                let ghost newpair = pair;
                self.data.push(pair);
                proof {
                    assert(self.data@.drop_last() =~= pre.remove(i as int));
                    assert(self.data@.last() == newpair);
                    assert forall|a: int, b: int|
                        0 <= a < b < self.data@.len() implies self.data@[a].0@
                        != self.data@[b].0@ by {
                        if b == self.data@.len() - 1 {
                            lemma_store_map_domain(pre.remove(i as int), partition_key@);
                            assert(pre.remove(i as int)[a] == self.data@[a]);
                        }
                    }
                    assert forall|a: int|
                        0 <= a < self.data@.len() implies distinct_keys(
                        #[trigger] self.data@[a].1@,
                    ) by {
                        if a < self.data@.len() - 1 {
                            assert(self.data@[a] == pre.remove(i as int)[a]);
                        }
                    }
                    assert(store_map(self.data@) == store_map(pre.remove(i as int)).insert(
                        partition_key@,
                        partition_map(newpair.1@),
                    ));
                    assert(store_map(self.data@) =~= store_remove_spec(
                        m0,
                        partition_key@,
                        sort_key@,
                    ));
                }
            },
            None => {
                proof {
                    lemma_store_map_domain(self.data@, partition_key@);
                }
            },
        }
    }

    /// Replaces the whole index with the given entries, applied in order as
    /// inserts; used to seed the cache from durable storage. A later entry
    /// for a key overrides an earlier one.
    pub fn load_all(&mut self, data: Vec<(String, Vec<(String, Data)>)>)
        ensures
            final(self).wf(),
            final(self)@ == loaded_map(data@),
    {
        let mut fresh = Store::new();
        let n: usize = data.len();
        let mut i: usize = 0;
        while i < n
            invariant
                n == data@.len(),
                i <= n,
                fresh.wf(),
                fresh@ == loaded_map(data@.take(i as int)),
            decreases n - i,
        {
            let pair = &data[i];
            let inner_n: usize = pair.1.len();
            let mut j: usize = 0;
            while j < inner_n
                invariant
                    n == data@.len(),
                    i < n,
                    *pair == data@[i as int],
                    inner_n == pair.1@.len(),
                    j <= inner_n,
                    fresh.wf(),
                    fresh@ == merged_partition(
                        loaded_map(data@.take(i as int)),
                        pair.0@,
                        pair.1@.take(j as int),
                    ),
                decreases inner_n - j,
            {
                let entry = &pair.1[j];
                fresh.insert(pair.0.clone(), entry.0.clone(), entry.1.clone());
                proof {
                    assert(pair.1@.take(j + 1).drop_last() =~= pair.1@.take(j as int));
                }
                j = j + 1;
            }
            proof {
                assert(data@.take(i + 1).drop_last() =~= data@.take(i as int));
                assert(pair.1@.take(inner_n as int) =~= pair.1@);
            }
            i = i + 1;
        }
        proof {
            assert(data@.take(n as int) =~= data@);
        }
        *self = fresh;
    }
}

/// The mapping that seeding the cache with the given entries produces: every
/// pair is inserted in order into an empty index.
pub open spec fn loaded_map(entries: Seq<(String, Vec<(String, Data)>)>) -> Map<
    Seq<char>,
    Map<Seq<char>, DataView>,
>
    decreases entries.len(),
{
    if entries.len() == 0 {
        Map::<Seq<char>, Map<Seq<char>, DataView>>::empty()
    } else {
        merged_partition(
            loaded_map(entries.drop_last()),
            entries.last().0@,
            entries.last().1@,
        )
    }
}

/// The effect of inserting every entry of one partition's list, in order,
/// into the two-level mapping `m`.
pub open spec fn merged_partition(
    m: Map<Seq<char>, Map<Seq<char>, DataView>>,
    partition_key: Seq<char>,
    entries: Seq<(String, Data)>,
) -> Map<Seq<char>, Map<Seq<char>, DataView>>
    decreases entries.len(),
{
    if entries.len() == 0 {
        m
    } else {
        store_insert_spec(
            merged_partition(m, partition_key, entries.drop_last()),
            partition_key,
            entries.last().0@,
            entries.last().1@,
        )
    }
}

fn partition_insert(entries: &mut Vec<(String, Data)>, sort_key: String, value: Data)
    requires
        distinct_keys(old(entries)@),
    ensures
        distinct_keys(final(entries)@),
        partition_map(final(entries)@) == partition_map(old(entries)@).insert(sort_key@, value@),
{
    let ghost m0 = partition_map(entries@);
    let ghost sk = sort_key@;
    let ghost dv = value@;
    match find_sort(entries, &sort_key) {
        Some(j) => {
            proof {
                lemma_partition_map_remove(entries@, j as int);
            }
            let ghost pre = entries@;
            let removed = entries.remove(j);
            entries.push((sort_key, value));
            proof {
                assert(entries@.drop_last() =~= pre.remove(j as int));
                assert forall|a: int, b: int|
                    0 <= a < b < entries@.len() implies entries@[a].0@ != entries@[b].0@ by {
                    if b == entries@.len() - 1 {
                        lemma_partition_map_domain(pre.remove(j as int), sk);
                        assert(pre.remove(j as int)[a] == entries@[a]);
                    }
                }
                assert(partition_map(entries@) =~= m0.insert(sk, dv));
            }
        },
        None => {
            let ghost pre = entries@;
            entries.push((sort_key, value));
            proof {
                assert(entries@.drop_last() =~= pre);
                assert forall|a: int, b: int|
                    0 <= a < b < entries@.len() implies entries@[a].0@ != entries@[b].0@ by {
                    if b == entries@.len() - 1 {
                        assert(entries@[a] == pre[a]);
                    }
                }
            }
        },
    }
}

fn partition_remove(entries: &mut Vec<(String, Data)>, sort_key: &String)
    requires
        distinct_keys(old(entries)@),
    ensures
        distinct_keys(final(entries)@),
        partition_map(final(entries)@) == partition_map(old(entries)@).remove(sort_key@),
{
    let ghost m0 = partition_map(entries@);
    match find_sort(entries, sort_key) {
        Some(j) => {
            proof {
                lemma_partition_map_remove(entries@, j as int);
            }
            entries.remove(j);
        },
        None => {
            proof {
                lemma_partition_map_domain(entries@, sort_key@);
                assert(partition_map(entries@) =~= partition_map(entries@).remove(sort_key@));
            }
        },
    }
}

} // verus!
