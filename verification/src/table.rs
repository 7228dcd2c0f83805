//! An insertion-ordered string-keyed table with overwrite-on-repeat
//! semantics: the mapping type behind headers, cookies, query parameters
//! and form data.
use crate::text::str_eq;
use vstd::prelude::*;

verus! {

/// An ordered list of key/value entries with pairwise distinct keys.
/// Inserting an existing key overwrites its value in place, so the table
/// behaves as a map whose last insertion wins.
#[derive(Debug, Clone)]
pub struct Table<V> {
    entries: Vec<(String, V)>,
}

impl<V: View> View for Table<V> {
    type V = Seq<(Seq<char>, <V as View>::V)>;

    closed spec fn view(&self) -> Self::V {
        self.entries@.map_values(|p: (String, V)| (p.0@, p.1@))
    }
}

/// No two entries share a key.
pub open spec fn distinct_keys<T>(s: Seq<(Seq<char>, T)>) -> bool {
    forall|i: int, j: int| 0 <= i < j < s.len() ==> (#[trigger] s[i]).0 != (#[trigger] s[j]).0
}

/// The value of the first entry with key `k`.
pub open spec fn lookup<T>(s: Seq<(Seq<char>, T)>, k: Seq<char>) -> Option<T>
    decreases s.len(),
{
    if s.len() == 0 {
        None
    } else if s[0].0 == k {
        Some(s[0].1)
    } else {
        lookup(s.drop_first(), k)
    }
}

/// The entries with the first entry keyed `k` replaced by `(k, v)`, or
/// `(k, v)` appended when no entry has that key.
pub open spec fn update_entry<T>(s: Seq<(Seq<char>, T)>, k: Seq<char>, v: T) -> Seq<
    (Seq<char>, T),
>
    decreases s.len(),
{
    if s.len() == 0 {
        seq![(k, v)]
    } else if s[0].0 == k {
        seq![(k, v)] + s.drop_first()
    } else {
        seq![s[0]] + update_entry(s.drop_first(), k, v)
    }
}

/// The entries with the first entry keyed `k` removed.
pub open spec fn remove_entry<T>(s: Seq<(Seq<char>, T)>, k: Seq<char>) -> Seq<(Seq<char>, T)>
    decreases s.len(),
{
    if s.len() == 0 {
        s
    } else if s[0].0 == k {
        s.drop_first()
    } else {
        seq![s[0]] + remove_entry(s.drop_first(), k)
    }
}

/// The pairs folded into the entries one by one, each overwriting its key.
pub open spec fn fold_table<T>(
    init: Seq<(Seq<char>, T)>,
    pairs: Seq<(Seq<char>, T)>,
) -> Seq<(Seq<char>, T)>
    decreases pairs.len(),
{
    if pairs.len() == 0 {
        init
    } else {
        fold_table(update_entry(init, pairs[0].0, pairs[0].1), pairs.drop_first())
    }
}

/// Folding a concatenation folds the two halves in turn.
pub proof fn lemma_fold_append<T>(
    init: Seq<(Seq<char>, T)>,
    a: Seq<(Seq<char>, T)>,
    b: Seq<(Seq<char>, T)>,
)
    ensures
        fold_table(init, a + b) == fold_table(fold_table(init, a), b),
    decreases a.len(),
{
    if a.len() == 0 {
        assert(a + b =~= b);
    } else {
        assert((a + b)[0] == a[0]);
        assert((a + b).drop_first() =~= a.drop_first() + b);
        lemma_fold_append(update_entry(init, a[0].0, a[0].1), a.drop_first(), b);
    }
}

/// Folding pairs whose keys are fresh and pairwise distinct just appends
/// them in order.
pub proof fn lemma_fold_fresh<T>(acc: Seq<(Seq<char>, T)>, pairs: Seq<(Seq<char>, T)>)
    requires
        distinct_keys(acc + pairs),
    ensures
        fold_table(acc, pairs) == acc + pairs,
    decreases pairs.len(),
{
    if pairs.len() == 0 {
        assert(fold_table(acc, pairs) =~= acc + pairs);
    } else {
        let all = acc + pairs;
        assert forall|j: int| 0 <= j < acc.len() implies (#[trigger] acc[j]).0 != pairs[0].0 by {
            assert(all[j] == acc[j] && all[acc.len() as int] == pairs[0]);
        }
        lemma_update_missing(acc, pairs[0].0, pairs[0].1);
        assert(update_entry(acc, pairs[0].0, pairs[0].1) == acc.push(pairs[0]));
        assert(acc.push(pairs[0]) + pairs.drop_first() =~= acc + pairs);
        lemma_fold_fresh(acc.push(pairs[0]), pairs.drop_first());
    }
}

/// Looking up relative to the position of the first match.
pub proof fn lemma_lookup_at<T>(s: Seq<(Seq<char>, T)>, k: Seq<char>, i: int)
    requires
        0 <= i <= s.len(),
        forall|j: int| 0 <= j < i ==> (#[trigger] s[j]).0 != k,
    ensures
        i < s.len() && s[i].0 == k ==> lookup(s, k) == Some(s[i].1),
        i == s.len() ==> lookup(s, k) is None,
    decreases i,
{
    if i == 0 {
    } else {
        lemma_lookup_at(s.drop_first(), k, i - 1);
        assert(s[0].0 != k);
        if i < s.len() && s[i].0 == k {
            assert(s.drop_first()[i - 1] == s[i]);
        }
    }
}

proof fn lemma_update_at<T>(s: Seq<(Seq<char>, T)>, k: Seq<char>, v: T, i: int)
    requires
        0 <= i < s.len(),
        s[i].0 == k,
        forall|j: int| 0 <= j < i ==> (#[trigger] s[j]).0 != k,
    ensures
        update_entry(s, k, v) == s.update(i, (k, v)),
    decreases i,
{
    if i == 0 {
        assert(update_entry(s, k, v) =~= s.update(0, (k, v)));
    } else {
        lemma_update_at(s.drop_first(), k, v, i - 1);
        assert(s.drop_first()[i - 1] == s[i]);
        assert(s.drop_first().update(i - 1, (k, v)) =~= s.update(i, (k, v)).drop_first());
        assert(update_entry(s, k, v) =~= s.update(i, (k, v)));
    }
}

/// Updating a key that is absent appends the new entry.
pub proof fn lemma_update_missing<T>(s: Seq<(Seq<char>, T)>, k: Seq<char>, v: T)
    requires
        forall|j: int| 0 <= j < s.len() ==> (#[trigger] s[j]).0 != k,
    ensures
        update_entry(s, k, v) == s.push((k, v)),
    decreases s.len(),
{
    if s.len() == 0 {
        assert(update_entry(s, k, v) =~= s.push((k, v)));
    } else {
        lemma_update_missing(s.drop_first(), k, v);
        assert(s.drop_first().push((k, v)) =~= s.push((k, v)).drop_first());
        assert(update_entry(s, k, v) =~= s.push((k, v)));
    }
}

proof fn lemma_remove_at<T>(s: Seq<(Seq<char>, T)>, k: Seq<char>, i: int)
    requires
        0 <= i < s.len(),
        s[i].0 == k,
        forall|j: int| 0 <= j < i ==> (#[trigger] s[j]).0 != k,
    ensures
        remove_entry(s, k) == s.remove(i),
    decreases i,
{
    if i == 0 {
        assert(remove_entry(s, k) =~= s.remove(0));
    } else {
        lemma_remove_at(s.drop_first(), k, i - 1);
        assert(s.drop_first()[i - 1] == s[i]);
        assert(s.drop_first().remove(i - 1) =~= s.remove(i).drop_first());
        assert(s.remove(i).len() > 0 && s.remove(i)[0] == s[0]);
        assert(remove_entry(s, k) =~= s.remove(i));
    }
}

/// Removing a key that is absent changes nothing.
pub proof fn lemma_remove_missing<T>(s: Seq<(Seq<char>, T)>, k: Seq<char>)
    requires
        forall|j: int| 0 <= j < s.len() ==> (#[trigger] s[j]).0 != k,
    ensures
        remove_entry(s, k) == s,
    decreases s.len(),
{
    if s.len() > 0 {
        lemma_remove_missing(s.drop_first(), k);
        assert(remove_entry(s, k) =~= s);
    }
}

/// Updating preserves distinctness of keys.
pub proof fn lemma_update_distinct<T>(s: Seq<(Seq<char>, T)>, k: Seq<char>, v: T)
    requires
        distinct_keys(s),
    ensures
        distinct_keys(update_entry(s, k, v)),
    decreases s.len(),
{
    if s.len() == 0 {
    } else if s[0].0 == k {
        let u = seq![(k, v)] + s.drop_first();
        assert forall|i: int, j: int| 0 <= i < j < u.len() implies (#[trigger] u[i]).0
            != (#[trigger] u[j]).0 by {
            if i == 0 {
                assert(u[j] == s[j]);
                assert(s[0].0 != s[j].0);
            } else {
                assert(u[i] == s[i] && u[j] == s[j]);
            }
        }
    } else {
        assert(distinct_keys(s.drop_first())) by {
            assert(forall|i: int, j: int|
                0 <= i < j < s.drop_first().len() ==> (#[trigger] s.drop_first()[i]).0
                    != (#[trigger] s.drop_first()[j]).0) by {
                assert(forall|i: int|
                    0 <= i < s.drop_first().len() ==> s.drop_first()[i] == s[i + 1]);
            }
        }
        lemma_update_distinct(s.drop_first(), k, v);
        let rest = update_entry(s.drop_first(), k, v);
        let u = seq![s[0]] + rest;
        assert forall|i: int, j: int| 0 <= i < j < u.len() implies (#[trigger] u[i]).0
            != (#[trigger] u[j]).0 by {
            lemma_update_keys(s.drop_first(), k, v, j - 1);
            if i > 0 {
                lemma_update_keys(s.drop_first(), k, v, i - 1);
            }
        }
    }
}

/// Each key of the updated entries is the old key there, or `k`.
proof fn lemma_update_keys<T>(s: Seq<(Seq<char>, T)>, k: Seq<char>, v: T, i: int)
    requires
        0 <= i < update_entry(s, k, v).len(),
    ensures
        update_entry(s, k, v).len() >= s.len(),
        update_entry(s, k, v).len() <= s.len() + 1,
        i < s.len() ==> update_entry(s, k, v)[i].0 == s[i].0 || update_entry(s, k, v)[i].0 == k,
        i >= s.len() ==> update_entry(s, k, v)[i].0 == k,
    decreases s.len(),
{
    if s.len() == 0 {
    } else if s[0].0 == k {
    } else {
        if i > 0 {
            lemma_update_keys(s.drop_first(), k, v, i - 1);
        } else {
            if update_entry(s.drop_first(), k, v).len() > 0 {
                lemma_update_keys(s.drop_first(), k, v, 0);
            }
        }
    }
}

impl<V: View> Table<V> {
    /// The table's keys are pairwise distinct.
    pub open spec fn wf(&self) -> bool {
        distinct_keys(self@)
    }

    /// An empty table.
    pub fn new() -> (r: Table<V>)
        ensures
            r@ == Seq::<(Seq<char>, <V as View>::V)>::empty(),
            r.wf(),
    {
        let r = Table { entries: Vec::new() };
        proof {
            assert(r@ =~= Seq::<(Seq<char>, <V as View>::V)>::empty());
        }
        r
    }

    /// How many entries the table holds.
    pub fn len(&self) -> (r: usize)
        ensures
            r == self@.len(),
    {
        self.entries.len()
    }

    pub fn is_empty(&self) -> (r: bool)
        ensures
            r == (self@.len() == 0),
    {
        self.entries.is_empty()
    }

    /// The key of the entry at position `i`.
    pub fn key_at(&self, i: usize) -> (r: &String)
        requires
            i < self@.len(),
        ensures
            r@ == self@[i as int].0,
    {
        &self.entries[i].0
    }

    /// The value of the entry at position `i`.
    pub fn val_at(&self, i: usize) -> (r: &V)
        requires
            i < self@.len(),
        ensures
            r@ == self@[i as int].1,
    {
        &self.entries[i].1
    }

    /// Position of the entry with the given key, if any.
    fn position(&self, key: &str) -> (r: Option<usize>)
        ensures
            match r {
                Some(i) => i < self@.len() && self@[i as int].0 == key@ && forall|j: int|
                    0 <= j < i ==> (#[trigger] self@[j]).0 != key@,
                None => forall|j: int| 0 <= j < self@.len() ==> (#[trigger] self@[j]).0 != key@,
            },
    {
        let mut i: usize = 0;
        while i < self.entries.len()
            invariant
                i <= self@.len(),
                self@.len() == self.entries@.len(),
                forall|j: int| 0 <= j < i ==> (#[trigger] self@[j]).0 != key@,
            decreases self@.len() - i,
        {
            if str_eq(self.entries[i].0.as_str(), key) {
                return Some(i);
            }
            i = i + 1;
        }
        None
    }

    /// The value stored under `key`.
    pub fn get(&self, key: &str) -> (r: Option<&V>)
        ensures
            match r {
                Some(v) => lookup(self@, key@) == Some(v@),
                None => lookup(self@, key@) is None,
            },
    {
        match self.position(key) {
            Some(i) => {
                proof {
                    lemma_lookup_at(self@, key@, i as int);
                }
                Some(&self.entries[i].1)
            },
            None => {
                proof {
                    lemma_lookup_at(self@, key@, self@.len() as int);
                }
                None
            },
        }
    }

    /// The table has an entry under `key`.
    pub fn contains_key(&self, key: &str) -> (r: bool)
        ensures
            r == (lookup(self@, key@) is Some),
    {
        self.get(key).is_some()
    }

    /// Stores `value` under `key`, overwriting an existing entry.
    pub fn insert(&mut self, key: String, value: V)
        ensures
            final(self)@ == update_entry(old(self)@, key@, value@),
            old(self).wf() ==> final(self).wf(),
    {
        proof {
            if old(self).wf() {
                lemma_update_distinct(old(self)@, key@, value@);
            }
        }
        match self.position(key.as_str()) {
            Some(i) => {
                proof {
                    lemma_update_at(self@, key@, value@, i as int);
                }
                let ghost before = self@;
                self.entries.remove(i);
                self.entries.insert(i, (key, value));
                proof {
                    assert(self@ =~= before.update(i as int, (key@, value@)));
                }
            },
            None => {
                proof {
                    lemma_update_missing(self@, key@, value@);
                }
                let ghost before = self@;
                self.entries.push((key, value));
                proof {
                    assert(self@ =~= before.push((key@, value@)));
                }
            },
        }
    }

    /// Removes the entry under `key`, if any.
    pub fn remove(&mut self, key: &str)
        ensures
            final(self)@ == remove_entry(old(self)@, key@),
            old(self).wf() ==> final(self).wf(),
    {
        match self.position(key) {
            Some(i) => {
                proof {
                    lemma_remove_at(self@, key@, i as int);
                }
                let ghost before = self@;
                self.entries.remove(i);
                proof {
                    assert(self@ =~= before.remove(i as int));
                    if distinct_keys(before) {
                        let after = before.remove(i as int);
                        assert forall|a: int, b: int| 0 <= a < b < after.len() implies (
                        #[trigger] after[a]).0 != (#[trigger] after[b]).0 by {
                            let a0 = if a < i {
                                a
                            } else {
                                a + 1
                            };
                            let b0 = if b < i {
                                b
                            } else {
                                b + 1
                            };
                            assert(after[a] == before[a0] && after[b] == before[b0]);
                            assert(before[a0].0 != before[b0].0);
                        }
                    }
                }
            },
            None => {
                proof {
                    lemma_remove_missing(self@, key@);
                }
            },
        }
    }
}

} // verus!
