//! A map from text to values that is walked in the order of its keys.

use crate::text;
use vstd::prelude::*;

verus! {

/// The entries of an ordered map after one more is put in. An entry with the
/// same key is replaced.
pub open spec fn put<V>(entries: Seq<(Seq<char>, V)>, key: Seq<char>, value: V) -> Seq<
    (Seq<char>, V),
>
    decreases entries.len(),
{
    if entries.len() == 0 || text::text_lt(key, entries[0].0) {
        seq![(key, value)] + entries
    } else if entries[0].0 == key {
        seq![(key, value)] + entries.drop_first()
    } else {
        seq![entries[0]] + put(entries.drop_first(), key, value)
    }
}

/// The value that the entries hold for a key.
pub open spec fn get<V>(entries: Seq<(Seq<char>, V)>, key: Seq<char>) -> Option<V>
    decreases entries.len(),
{
    if entries.len() == 0 {
        None
    } else if entries[0].0 == key {
        Some(entries[0].1)
    } else {
        get(entries.drop_first(), key)
    }
}

/// The entries without the one for a key.
pub open spec fn del<V>(entries: Seq<(Seq<char>, V)>, key: Seq<char>) -> Seq<(Seq<char>, V)>
    decreases entries.len(),
{
    if entries.len() == 0 {
        entries
    } else if entries[0].0 == key {
        entries.drop_first()
    } else {
        seq![entries[0]] + del(entries.drop_first(), key)
    }
}

/// The keys of the entries.
pub open spec fn keys<V>(entries: Seq<(Seq<char>, V)>) -> Seq<Seq<char>> {
    Seq::new(entries.len(), |i: int| entries[i].0)
}

/// Each key comes before the ones after it, so none occurs twice.
pub open spec fn sorted<V>(entries: Seq<(Seq<char>, V)>) -> bool {
    forall|i: int, j: int|
        0 <= i < j < entries.len() ==> text::text_lt(#[trigger] entries[i].0, #[trigger] entries[j].0)
}

/// Where a key stands in the entries, or would stand.
pub open spec fn is_slot<V>(entries: Seq<(Seq<char>, V)>, key: Seq<char>, n: int) -> bool {
    &&& 0 <= n <= entries.len()
    &&& forall|i: int| 0 <= i < n ==> text::text_lt(#[trigger] entries[i].0, key)
    &&& forall|i: int| n <= i < entries.len() ==> !text::text_lt(#[trigger] entries[i].0, key)
}

/// At the slot of a key, `get` looks at one entry and `put` changes one.
pub proof fn lemma_slot<V>(entries: Seq<(Seq<char>, V)>, key: Seq<char>, value: V, n: int)
    requires
        sorted(entries),
        is_slot(entries, key, n),
    ensures
        n < entries.len() && entries[n].0 == key ==> {
            &&& get(entries, key) == Some(entries[n].1)
            &&& put(entries, key, value) == entries.update(n, (key, value))
        },
        !(n < entries.len() && entries[n].0 == key) ==> {
            &&& get(entries, key) is None
            &&& put(entries, key, value) == entries.insert(n, (key, value))
        },
    decreases entries.len(),
{
    if entries.len() > 0 {
        let rest = entries.drop_first();
        assert forall|i: int, j: int| 0 <= i < j < rest.len() implies text::text_lt(
            #[trigger] rest[i].0,
            #[trigger] rest[j].0,
        ) by {
            assert(entries[i + 1] == rest[i]);
            assert(entries[j + 1] == rest[j]);
        }
        if n == 0 {
            text::lemma_text_lt_total(entries[0].0, key);
            assert(!text::text_lt(entries[0].0, key));
            if entries[0].0 == key {
                text::lemma_text_lt_irreflexive(key);
                assert(put(entries, key, value) =~= entries.update(0, (key, value)));
            } else {
                assert(put(entries, key, value) =~= entries.insert(0, (key, value)));
                assert forall|i: int| 0 <= i < entries.len() implies entries[i].0 != key by {
                    if i > 0 && entries[i].0 == key {
                        assert(text::text_lt(entries[0].0, entries[i].0));
                    }
                }
                lemma_absent(entries, key);
            }
        } else {
            assert(text::text_lt(entries[0].0, key));
            text::lemma_text_lt_irreflexive(key);
            if text::text_lt(key, entries[0].0) {
                text::lemma_text_lt_transitive(key, entries[0].0, key);
            }
            assert forall|i: int| 0 <= i < n - 1 implies text::text_lt(#[trigger] rest[i].0, key) by {
                assert(entries[i + 1] == rest[i]);
            }
            assert forall|i: int| n - 1 <= i < rest.len() implies !text::text_lt(
                #[trigger] rest[i].0,
                key,
            ) by {
                assert(entries[i + 1] == rest[i]);
            }
            lemma_slot(rest, key, value, n - 1);
            if n < entries.len() {
                assert(rest[n - 1] == entries[n]);
            }
            if n < entries.len() && entries[n].0 == key {
                assert(seq![entries[0]] + rest.update(n - 1, (key, value)) =~= entries.update(
                    n,
                    (key, value),
                ));
            } else {
                assert(seq![entries[0]] + rest.insert(n - 1, (key, value)) =~= entries.insert(
                    n,
                    (key, value),
                ));
            }
        }
    } else {
        assert(put(entries, key, value) =~= entries.insert(0, (key, value)));
    }
}

/// A key that no entry has is not found.
pub proof fn lemma_absent<V>(entries: Seq<(Seq<char>, V)>, key: Seq<char>)
    requires
        forall|i: int| 0 <= i < entries.len() ==> #[trigger] entries[i].0 != key,
    ensures
        get(entries, key) is None,
    decreases entries.len(),
{
    if entries.len() > 0 {
        let rest = entries.drop_first();
        assert forall|i: int| 0 <= i < rest.len() implies #[trigger] rest[i].0 != key by {
            assert(rest[i] == entries[i + 1]);
        }
        assert(entries[0].0 != key);
        lemma_absent(rest, key);
    }
}

/// A value that is found is that of an entry with the key.
pub proof fn lemma_present<V>(entries: Seq<(Seq<char>, V)>, key: Seq<char>)
    ensures
        get(entries, key) is Some <==> keys(entries).contains(key),
        get(entries, key) matches Some(v) ==> exists|i: int|
            0 <= i < entries.len() && #[trigger] entries[i] == (key, v),
    decreases entries.len(),
{
    if entries.len() > 0 {
        let rest = entries.drop_first();
        lemma_present(rest, key);
        if entries[0].0 == key {
            assert(keys(entries)[0] == key);
            assert(entries[0] == (key, entries[0].1));
        } else {
            if get(rest, key) is Some {
                let v = get(rest, key)->Some_0;
                let i = choose|i: int| 0 <= i < rest.len() && #[trigger] rest[i] == (key, v);
                assert(entries[i + 1] == (key, v));
                assert(keys(entries)[i + 1] == key);
            }
            if keys(entries).contains(key) {
                let i = choose|i: int| 0 <= i < entries.len() && keys(entries)[i] == key;
                assert(keys(rest)[i - 1] == key);
            }
        }
    }
}

/// Putting an entry in leaves the order, and the values of the other keys.
pub proof fn lemma_put<V>(entries: Seq<(Seq<char>, V)>, key: Seq<char>, value: V)
    requires
        sorted(entries),
    ensures
        sorted(put(entries, key, value)),
        forall|k: Seq<char>| #[trigger]
            get(put(entries, key, value), k) == if k == key {
                Some(value)
            } else {
                get(entries, k)
            },
        put(entries, key, value).len() > 0,
        forall|i: int|
            0 <= i < put(entries, key, value).len() ==> {
                ||| #[trigger] put(entries, key, value)[i].0 == key
                ||| keys(entries).contains(put(entries, key, value)[i].0)
            },
    decreases entries.len(),
{
    let after = put(entries, key, value);
    if entries.len() > 0 {
        let first = entries[0];
        let rest = entries.drop_first();
        assert forall|i: int, j: int| 0 <= i < j < rest.len() implies text::text_lt(
            #[trigger] rest[i].0,
            #[trigger] rest[j].0,
        ) by {
            assert(entries[i + 1] == rest[i]);
            assert(entries[j + 1] == rest[j]);
        }
        assert(keys(entries)[0] == first.0);
        if text::text_lt(key, first.0) {
            assert forall|i: int, j: int| 0 <= i < j < after.len() implies text::text_lt(
                #[trigger] after[i].0,
                #[trigger] after[j].0,
            ) by {
                assert(after[j] == entries[j - 1]);
                if i > 0 {
                    assert(after[i] == entries[i - 1]);
                } else if j > 1 {
                    text::lemma_text_lt_transitive(key, first.0, entries[j - 1].0);
                }
            }
            assert forall|k: Seq<char>| #[trigger]
                get(after, k) == if k == key {
                    Some(value)
                } else {
                    get(entries, k)
                } by {
                assert(after.drop_first() =~= entries);
            }
            assert forall|i: int| 0 <= i < after.len() implies #[trigger] after[i].0 == key || keys(
                entries,
            ).contains(after[i].0) by {
                if i > 0 {
                    assert(keys(entries)[i - 1] == after[i].0);
                }
            }
        } else if first.0 == key {
            assert(after.drop_first() =~= rest);
            assert forall|i: int, j: int| 0 <= i < j < after.len() implies text::text_lt(
                #[trigger] after[i].0,
                #[trigger] after[j].0,
            ) by {
                assert(after[i].0 == entries[i].0);
                assert(after[j].0 == entries[j].0);
            }
            assert forall|i: int| 0 <= i < after.len() implies #[trigger] after[i].0 == key || keys(
                entries,
            ).contains(after[i].0) by {
                assert(keys(entries)[i] == after[i].0);
            }
        } else {
            lemma_put(rest, key, value);
            let below = put(rest, key, value);
            assert(after.drop_first() =~= below);
            text::lemma_text_lt_total(first.0, key);
            assert forall|i: int, j: int| 0 <= i < j < after.len() implies text::text_lt(
                #[trigger] after[i].0,
                #[trigger] after[j].0,
            ) by {
                assert(after[j] == below[j - 1]);
                if i > 0 {
                    assert(after[i] == below[i - 1]);
                } else if below[j - 1].0 != key {
                    assert(keys(rest).contains(below[j - 1].0));
                    let m = choose|m: int| 0 <= m < rest.len() && keys(rest)[m] == below[j - 1].0;
                    assert(entries[m + 1] == rest[m]);
                }
            }
            assert forall|k: Seq<char>| #[trigger]
                get(after, k) == if k == key {
                    Some(value)
                } else {
                    get(entries, k)
                } by {
                assert(get(below, k) == if k == key {
                    Some(value)
                } else {
                    get(rest, k)
                });
            }
            assert forall|i: int| 0 <= i < after.len() implies #[trigger] after[i].0 == key || keys(
                entries,
            ).contains(after[i].0) by {
                if i > 0 {
                    assert(after[i] == below[i - 1]);
                    if below[i - 1].0 != key {
                        let m = choose|m: int|
                            0 <= m < rest.len() && keys(rest)[m] == below[i - 1].0;
                        assert(keys(entries)[m + 1] == below[i - 1].0);
                    }
                }
            }
        }
    } else {
        assert(after =~= seq![(key, value)]);
        assert(after.drop_first() =~= Seq::empty());
        reveal_with_fuel(get, 2);
    }
}

/// Taking an entry out leaves the order, and the values of the other keys.
pub proof fn lemma_del<V>(entries: Seq<(Seq<char>, V)>, key: Seq<char>)
    requires
        sorted(entries),
    ensures
        sorted(del(entries, key)),
        forall|k: Seq<char>| #[trigger]
            get(del(entries, key), k) == if k == key {
                None
            } else {
                get(entries, k)
            },
        forall|n: int|
            #![trigger entries[n]]
            0 <= n < entries.len() && entries[n].0 == key ==> del(entries, key) == entries.remove(n),
        get(entries, key) is None ==> del(entries, key) == entries,
    decreases entries.len(),
{
    let after = del(entries, key);
    if entries.len() > 0 {
        let first = entries[0];
        let rest = entries.drop_first();
        assert forall|i: int, j: int| 0 <= i < j < rest.len() implies text::text_lt(
            #[trigger] rest[i].0,
            #[trigger] rest[j].0,
        ) by {
            assert(entries[i + 1] == rest[i]);
            assert(entries[j + 1] == rest[j]);
        }
        if first.0 == key {
            assert forall|i: int| 0 <= i < rest.len() implies #[trigger] rest[i].0 != key by {
                assert(rest[i] == entries[i + 1]);
                assert(text::text_lt(first.0, rest[i].0));
                text::lemma_text_lt_irreflexive(key);
            }
            lemma_absent(rest, key);
            assert forall|n: int|
                #![trigger entries[n]]
                0 <= n < entries.len() && entries[n].0 == key implies after == entries.remove(n) by {
                if n > 0 {
                    assert(rest[n - 1] == entries[n]);
                }
                assert(entries.remove(0) =~= rest);
            }
        } else {
            lemma_del(rest, key);
            let below = del(rest, key);
            assert(after.drop_first() =~= below);
            lemma_present(rest, key);
            if get(rest, key) is Some {
                let v = get(rest, key)->Some_0;
                let m = choose|m: int| 0 <= m < rest.len() && #[trigger] rest[m] == (key, v);
                assert(below == rest.remove(m));
                assert forall|i: int, j: int| 0 <= i < j < after.len() implies text::text_lt(
                    #[trigger] after[i].0,
                    #[trigger] after[j].0,
                ) by {
                    assert(after[j] == below[j - 1]);
                    let from = if j - 1 < m {
                        j - 1
                    } else {
                        j
                    };
                    assert(below[j - 1] == rest[from]);
                    assert(rest[from] == entries[from + 1]);
                    if i > 0 {
                        assert(after[i] == below[i - 1]);
                    }
                }
            } else {
                assert(after =~= entries);
            }
            assert forall|k: Seq<char>| #[trigger]
                get(after, k) == if k == key {
                    None
                } else {
                    get(entries, k)
                } by {
                assert(get(below, k) == if k == key {
                    None
                } else {
                    get(rest, k)
                });
            }
            assert forall|n: int|
                #![trigger entries[n]]
                0 <= n < entries.len() && entries[n].0 == key implies after == entries.remove(n) by {
                assert(rest[n - 1] == entries[n]);
                assert(below == rest.remove(n - 1));
                assert(seq![first] + rest.remove(n - 1) =~= entries.remove(n));
            }
        }
    }
}

/// The entries with a function applied to each value.
pub open spec fn mapped<V, W>(entries: Seq<(Seq<char>, V)>, f: spec_fn(V) -> W) -> Seq<
    (Seq<char>, W),
> {
    Seq::new(entries.len(), |i: int| (entries[i].0, f(entries[i].1)))
}

/// Finding, putting in and taking out do the same to mapped entries.
pub proof fn lemma_mapped<V, W>(
    entries: Seq<(Seq<char>, V)>,
    f: spec_fn(V) -> W,
    key: Seq<char>,
    value: V,
)
    ensures
        mapped(put(entries, key, value), f) == put(mapped(entries, f), key, f(value)),
        mapped(del(entries, key), f) == del(mapped(entries, f), key),
        get(mapped(entries, f), key) == match get(entries, key) {
            Some(v) => Some(f(v)),
            None => None,
        },
    decreases entries.len(),
{
    let m = mapped(entries, f);
    if entries.len() > 0 {
        let rest = entries.drop_first();
        lemma_mapped(rest, f, key, value);
        assert(mapped(rest, f) =~= m.drop_first());
    }
    assert(mapped(put(entries, key, value), f) =~= put(m, key, f(value)));
    assert(mapped(del(entries, key), f) =~= del(m, key));
}

/// What is held after an entry is put in is that entry, or was there before.
pub proof fn lemma_put_entries<V>(entries: Seq<(Seq<char>, V)>, key: Seq<char>, value: V)
    ensures
        forall|i: int|
            0 <= i < put(entries, key, value).len() ==> #[trigger] put(entries, key, value)[i] == (
                key,
                value,
            ) || entries.contains(put(entries, key, value)[i]),
    decreases entries.len(),
{
    let after = put(entries, key, value);
    if entries.len() > 0 {
        let rest = entries.drop_first();
        lemma_put_entries(rest, key, value);
        assert forall|i: int| 0 <= i < after.len() implies #[trigger] after[i] == (key, value)
            || entries.contains(after[i]) by {
            if text::text_lt(key, entries[0].0) {
                if i > 0 {
                    assert(after[i] == entries[i - 1]);
                }
            } else if entries[0].0 == key {
                if i > 0 {
                    assert(after[i] == entries[i]);
                }
            } else if i == 0 {
                assert(after[i] == entries[0]);
            } else {
                let below = put(rest, key, value);
                assert(after[i] == below[i - 1]);
                if below[i - 1] != (key, value) {
                    let j = choose|j: int| 0 <= j < rest.len() && rest[j] == below[i - 1];
                    assert(entries[j + 1] == after[i]);
                }
            }
        }
    }
}

/// Taking an entry out and putting one in for the same key is putting it in.
pub proof fn lemma_put_after_del<V>(entries: Seq<(Seq<char>, V)>, key: Seq<char>, value: V)
    requires
        sorted(entries),
    ensures
        put(del(entries, key), key, value) == put(entries, key, value),
    decreases entries.len(),
{
    if entries.len() > 0 {
        let first = entries[0];
        let rest = entries.drop_first();
        assert forall|i: int, j: int| 0 <= i < j < rest.len() implies text::text_lt(
            #[trigger] rest[i].0,
            #[trigger] rest[j].0,
        ) by {
            assert(text::text_lt(entries[i + 1].0, entries[j + 1].0));
        }
        lemma_put_after_del(rest, key, value);
        if first.0 == key {
            if rest.len() > 0 {
                assert(text::text_lt(entries[0].0, entries[1].0));
            }
            text::lemma_text_lt_irreflexive(key);
        } else {
            let out = del(entries, key);
            assert(out =~= seq![first] + del(rest, key));
            assert(out.drop_first() =~= del(rest, key));
            if text::text_lt(key, first.0) {
                assert forall|i: int| 0 <= i < rest.len() implies #[trigger] rest[i].0 != key by {
                    assert(text::text_lt(entries[0].0, entries[i + 1].0));
                    if rest[i].0 == key {
                        text::lemma_text_lt_transitive(key, first.0, key);
                        text::lemma_text_lt_irreflexive(key);
                    }
                }
                lemma_del_absent(rest, key);
                assert(seq![first] + rest =~= entries);
            }
        }
    }
}

proof fn lemma_del_absent<V>(entries: Seq<(Seq<char>, V)>, key: Seq<char>)
    requires
        forall|i: int| 0 <= i < entries.len() ==> #[trigger] entries[i].0 != key,
    ensures
        del(entries, key) == entries,
    decreases entries.len(),
{
    if entries.len() > 0 {
        let rest = entries.drop_first();
        assert forall|i: int| 0 <= i < rest.len() implies #[trigger] rest[i].0 != key by {
            assert(rest[i] == entries[i + 1]);
        }
        assert(entries[0].0 != key);
        lemma_del_absent(rest, key);
        assert(seq![entries[0]] + rest =~= entries);
    }
}

/// A map from text to values, in the order of its keys.
pub struct TextMap<V> {
    pub entries: Vec<(String, V)>,
}

impl<V> TextMap<V> {
    /// What the map holds, in order.
    pub open spec fn pairs(self) -> Seq<(Seq<char>, V)> {
        Seq::new(self.entries@.len(), |i: int| (self.entries@[i].0@, self.entries@[i].1))
    }

    /// The keys are in order.
    pub open spec fn wf(self) -> bool {
        sorted(self.pairs())
    }

    /// A map that holds nothing.
    pub fn new() -> (r: Self)
        ensures
            r.wf(),
            r.pairs() == Seq::<(Seq<char>, V)>::empty(),
    {
        let r = TextMap { entries: Vec::new() };
        assert(r.pairs() =~= Seq::empty());
        r
    }

    /// How many entries the map holds.
    pub fn len(&self) -> (n: usize)
        ensures
            n == self.pairs().len(),
    {
        self.entries.len()
    }

    /// The key of the entry at an index.
    pub fn key(&self, i: usize) -> (r: &String)
        requires
            i < self.pairs().len(),
        ensures
            r@ == self.pairs()[i as int].0,
    {
        &self.entries[i].0
    }

    /// The value of the entry at an index.
    pub fn value(&self, i: usize) -> (r: &V)
        requires
            i < self.pairs().len(),
        ensures
            *r == self.pairs()[i as int].1,
    {
        &self.entries[i].1
    }

    /// Where a key stands, or would stand.
    fn slot(&self, key: &str) -> (n: usize)
        requires
            self.wf(),
        ensures
            is_slot(self.pairs(), key@, n as int),
    {
        let mut low: usize = 0;
        let mut high: usize = self.entries.len();
        while low < high
            invariant
                self.wf(),
                low <= high <= self.entries@.len(),
                self.pairs().len() == self.entries@.len(),
                forall|i: int| 0 <= i < low ==> text::text_lt(#[trigger] self.pairs()[i].0, key@),
                forall|i: int|
                    high <= i < self.pairs().len() ==> !text::text_lt(#[trigger] self.pairs()[i].0, key@),
            decreases high - low,
        {
            let middle: usize = low + (high - low) / 2;
            let ghost at = self.pairs()[middle as int].0;
            if text::comes_before(self.entries[middle].0.as_str(), key) {
                assert forall|i: int| 0 <= i < middle + 1 implies text::text_lt(
                    #[trigger] self.pairs()[i].0,
                    key@,
                ) by {
                    if i < middle {
                        text::lemma_text_lt_transitive(self.pairs()[i].0, at, key@);
                    }
                }
                low = middle + 1;
            } else {
                assert forall|i: int| middle <= i < self.pairs().len() implies !text::text_lt(
                    #[trigger] self.pairs()[i].0,
                    key@,
                ) by {
                    if i > middle && text::text_lt(self.pairs()[i].0, key@) {
                        text::lemma_text_lt_transitive(at, self.pairs()[i].0, key@);
                    }
                }
                high = middle;
            }
        }
        low
    }

    /// The value for a key.
    pub fn find(&self, key: &str) -> (r: Option<&V>)
        requires
            self.wf(),
        ensures
            match r {
                Some(v) => get(self.pairs(), key@) == Some(*v),
                None => get(self.pairs(), key@) is None,
            },
    {
        let n = self.slot(key);
        if n < self.entries.len() && text::same(self.entries[n].0.as_str(), key) {
            proof {
                lemma_slot(self.pairs(), key@, self.pairs()[n as int].1, n as int);
            }
            Some(&self.entries[n].1)
        } else {
            proof {
                let v: V = arbitrary();
                lemma_slot(self.pairs(), key@, v, n as int);
            }
            None
        }
    }

    /// Takes the entry for a key out.
    pub fn remove(&mut self, key: &str) -> (r: Option<V>)
        requires
            old(self).wf(),
        ensures
            final(self).wf(),
            final(self).pairs() == del(old(self).pairs(), key@),
            r == get(old(self).pairs(), key@),
    {
        let n = self.slot(key);
        let ghost before = self.pairs();
        proof {
            let v: V = arbitrary();
            lemma_slot(before, key@, v, n as int);
            lemma_del(before, key@);
        }
        if n < self.entries.len() && text::same(self.entries[n].0.as_str(), key) {
            assert(before[n as int].0 == key@);
            let pair = self.entries.remove(n);
            assert(self.pairs() =~= before.remove(n as int));
            Some(pair.1)
        } else {
            None
        }
    }

    /// Puts an entry in, in the place of one with the same key.
    pub fn insert(&mut self, key: String, value: V)
        requires
            old(self).wf(),
        ensures
            final(self).wf(),
            final(self).pairs() == put(old(self).pairs(), key@, value),
    {
        let n = self.slot(key.as_str());
        let ghost before = self.pairs();
        proof {
            lemma_slot(before, key@, value, n as int);
            lemma_put(before, key@, value);
        }
        if n < self.entries.len() && text::same(self.entries[n].0.as_str(), key.as_str()) {
            let ghost pair = (key@, value);
            self.entries[n] = (key, value);
            assert(self.pairs() =~= before.update(n as int, pair));
        } else {
            let ghost pair = (key@, value);
            self.entries.insert(n, (key, value));
            assert(self.pairs() =~= before.insert(n as int, pair));
        }
    }
}

} // verus!
