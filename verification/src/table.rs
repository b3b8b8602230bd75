//! Small tables and sets keyed by text, in order of insertion.

use crate::text::same;
use vstd::prelude::*;

verus! {

/// Where `key` stands first among `keys`, or their number if it does not.
pub open spec fn position(keys: Seq<Seq<char>>, key: Seq<char>) -> int
    decreases keys.len(),
{
    if keys.len() == 0 || keys[0] == key {
        0
    } else {
        1 + position(keys.drop_first(), key)
    }
}

/// The keys of a table.
pub open spec fn keys<V>(entries: Seq<(Seq<char>, V)>) -> Seq<Seq<char>> {
    entries.map_values(|e: (Seq<char>, V)| e.0)
}

/// The value under `key`, if there is one.
pub open spec fn lookup<V>(entries: Seq<(Seq<char>, V)>, key: Seq<char>) -> Option<V> {
    let i = position(keys(entries), key);
    if i < entries.len() {
        Some(entries[i].1)
    } else {
        None
    }
}

/// The table with `value` under `key`: in place of the value that stood there,
/// or behind all others.
pub open spec fn put<V>(entries: Seq<(Seq<char>, V)>, key: Seq<char>, value: V) -> Seq<
    (Seq<char>, V),
> {
    let i = position(keys(entries), key);
    if i < entries.len() {
        entries.update(i, (key, value))
    } else {
        entries.push((key, value))
    }
}

/// Where a key stands.
pub proof fn lemma_position(keys: Seq<Seq<char>>, key: Seq<char>)
    ensures
        0 <= position(keys, key) <= keys.len(),
        position(keys, key) < keys.len() ==> keys[position(keys, key)] == key,
        forall|j: int| 0 <= j < position(keys, key) ==> keys[j] != key,
        position(keys, key) == keys.len() <==> !keys.contains(key),
    decreases keys.len(),
{
    if keys.len() > 0 && keys[0] != key {
        lemma_position(keys.drop_first(), key);
        assert forall|j: int| 0 <= j < position(keys, key) implies keys[j] != key by {
            if j > 0 {
                assert(keys[j] == keys.drop_first()[j - 1]);
            }
        }
    }
    if position(keys, key) == keys.len() {
        if keys.contains(key) {
            let j = choose|j: int| 0 <= j < keys.len() && keys[j] == key;
            assert(keys[j] != key);
        }
    }
}

/// The first place of a key is where it stands.
pub proof fn lemma_position_is(keys: Seq<Seq<char>>, key: Seq<char>, i: int)
    requires
        0 <= i <= keys.len(),
        i < keys.len() ==> keys[i] == key,
        forall|j: int| 0 <= j < i ==> keys[j] != key,
    ensures
        position(keys, key) == i,
{
    lemma_position(keys, key);
    let p = position(keys, key);
    if p < i {
        assert(keys[p] != key);
    } else if i < p {
        assert(keys[i] != key);
    }
}

/// A value that was put under a key is found there, and putting it changes
/// nothing under any other key.
pub proof fn put_then_lookup<V>(entries: Seq<(Seq<char>, V)>, key: Seq<char>, value: V, other: Seq<char>)
    ensures
        lookup(put(entries, key, value), other) == (if other == key {
            Some(value)
        } else {
            lookup(entries, other)
        }),
{
    let ks = keys(entries);
    let after = put(entries, key, value);
    let ks2 = keys(after);
    let i = position(ks, key);
    let j = position(ks, other);
    lemma_position(ks, key);
    lemma_position(ks, other);
    if i < entries.len() {
        assert(ks2 =~= ks);
    } else {
        assert(ks2 =~= ks.push(key));
        if other == key {
            lemma_position_is(ks2, other, i);
        } else if j < ks.len() {
            lemma_position_is(ks2, other, j);
        } else {
            lemma_position_is(ks2, other, ks2.len() as int);
        }
    }
}

/// What holds of every entry and of the one that is put holds of every entry after.
pub proof fn put_keeps_what_holds_of_all<V>(
    entries: Seq<(Seq<char>, V)>,
    key: Seq<char>,
    value: V,
    holds: spec_fn((Seq<char>, V)) -> bool,
)
    requires
        forall|i: int| 0 <= i < entries.len() ==> holds(#[trigger] entries[i]),
        holds((key, value)),
    ensures
        forall|i: int|
            0 <= i < put(entries, key, value).len() ==> holds(#[trigger] put(entries, key, value)[i]),
{
    lemma_position(keys(entries), key);
    let after = put(entries, key, value);
    assert forall|i: int| 0 <= i < after.len() implies holds(#[trigger] after[i]) by {
        if after[i] != (key, value) {
            assert(after[i] == entries[i]);
        }
    }
}

/// Putting a value keeps every key at one place only.
pub proof fn put_keeps_keys_distinct<V>(entries: Seq<(Seq<char>, V)>, key: Seq<char>, value: V)
    requires
        keys(entries).no_duplicates(),
    ensures
        keys(put(entries, key, value)).no_duplicates(),
{
    let ks = keys(entries);
    lemma_position(ks, key);
    if position(ks, key) < entries.len() {
        assert(keys(put(entries, key, value)) =~= ks);
    } else {
        assert(keys(put(entries, key, value)) =~= ks.push(key));
    }
}

/// A table of values under text keys, each key at most once.
#[derive(Debug)]
pub struct Table<V> {
    entries: Vec<(String, V)>,
}

impl<V> View for Table<V> {
    type V = Seq<(Seq<char>, V)>;

    closed spec fn view(&self) -> Seq<(Seq<char>, V)> {
        self.entries@.map_values(|e: (String, V)| (e.0@, e.1))
    }
}

impl<V> Table<V> {
    #[verifier::type_invariant]
    spec fn distinct(self) -> bool {
        keys(self.entries@.map_values(|e: (String, V)| (e.0@, e.1))).no_duplicates()
    }

    /// An empty table.
    pub fn new() -> (t: Table<V>)
        ensures
            t@ == Seq::<(Seq<char>, V)>::empty(),
    {
        let t = Table { entries: Vec::new() };
        proof {
            assert(t@ =~= Seq::<(Seq<char>, V)>::empty());
        }
        t
    }

    /// The number of entries. No two of them have the same key.
    pub fn len(&self) -> (n: usize)
        ensures
            n == self@.len(),
            keys(self@).no_duplicates(),
    {
        proof {
            use_type_invariant(self);
        }
        self.entries.len()
    }

    /// The key of an entry.
    pub fn key_at(&self, i: usize) -> (k: &String)
        requires
            i < self@.len(),
        ensures
            k@ == self@[i as int].0,
    {
        &self.entries[i].0
    }

    /// The value of an entry.
    pub fn value_at(&self, i: usize) -> (v: &V)
        requires
            i < self@.len(),
        ensures
            *v == self@[i as int].1,
    {
        &self.entries[i].1
    }

    /// Where `key` stands, or the number of entries.
    fn find(&self, key: &str) -> (i: usize)
        ensures
            i == position(keys(self@), key@),
            i <= self@.len(),
    {
        let mut i: usize = 0;
        while i < self.entries.len() && !same(self.entries[i].0.as_str(), key)
            invariant
                i <= self.entries.len(),
                self.entries.len() == self@.len(),
                forall|j: int| 0 <= j < i ==> #[trigger] keys(self@)[j] != key@,
            decreases self.entries.len() - i,
        {
            i = i + 1;
        }
        proof {
            lemma_position_is(keys(self@), key@, i as int);
        }
        i
    }

    /// The value under `key`.
    pub fn get(&self, key: &str) -> (v: Option<&V>)
        ensures
            v == (match lookup(self@, key@) {
                Some(x) => Some(&x),
                None => None,
            }),
    {
        let i = self.find(key);
        if i < self.entries.len() {
            Some(&self.entries[i].1)
        } else {
            None
        }
    }

    /// Puts `value` under `key`.
    pub fn insert(&mut self, key: String, value: V)
        ensures
            final(self)@ == put(old(self)@, key@, value),
    {
        proof {
            use_type_invariant(&*self);
            put_keeps_keys_distinct(self@, key@, value);
        }
        let i = self.find(key.as_str());
        let ghost before = self@;
        let ghost k = key@;
        let mut entries: Vec<(String, V)> = Vec::new();
        core::mem::swap(&mut entries, &mut self.entries);
        if i < entries.len() {
            entries.set(i, (key, value));
        } else {
            entries.push((key, value));
        }
        proof {
            lemma_position(keys(before), k);
            assert(entries@.map_values(|e: (String, V)| (e.0@, e.1)) =~= put(before, k, value));
        }
        self.entries = entries;
    }
}

impl<V> Table<V> {
    /// Keeps the entries whose flag is set, in their order.
    pub(crate) fn retain(&mut self, flags: &Vec<bool>, Ghost(keep): Ghost<spec_fn((Seq<char>, V)) -> bool>)
        requires
            flags.len() == old(self)@.len(),
            forall|i: int| 0 <= i < flags.len() ==> #[trigger] flags[i] == keep(old(self)@[i]),
        ensures
            final(self)@ == old(self)@.filter(keep),
    {
        proof {
            use_type_invariant(&*self);
        }
        let ghost all = self@;
        let mut entries: Vec<(String, V)> = Vec::new();
        core::mem::swap(&mut entries, &mut self.entries);
        let view_of = Ghost(|e: (String, V)| (e.0@, e.1));
        let mut i: usize = 0;
        let mut j: usize = 0;
        proof {
            reveal(Seq::filter);
            assert(entries@.map_values(view_of@) =~= all);
            assert(all.take(0).filter(keep) =~= Seq::empty());
            assert(all.take(0).filter(keep) + all.skip(0) =~= all);
        }
        while j < flags.len()
            invariant
                i <= j <= flags.len() == all.len(),
                forall|k: int| 0 <= k < flags.len() ==> #[trigger] flags[k] == keep(all[k]),
                all.take(j as int).filter(keep).len() == i,
                entries@.len() == i + all.len() - j,
                entries@.map_values(view_of@) == all.take(j as int).filter(keep) + all.skip(j as int),
            decreases flags.len() - j,
        {
            let ghost before = entries@.map_values(view_of@);
            proof {
                reveal(Seq::filter);
                assert(all.take(j + 1).drop_last() =~= all.take(j as int));
                assert(all.take(j + 1).last() == all[j as int]);
                assert(all.skip(j as int)[0] == all[j as int]);
            }
            if flags[j] {
                i = i + 1;
                proof {
                    assert(all.take(j + 1).filter(keep) + all.skip(j + 1) =~= before);
                }
            } else {
                let _ = entries.remove(i);
                proof {
                    assert(entries@.map_values(view_of@) =~= before.remove(i as int));
                    assert(before.remove(i as int) =~= all.take(j + 1).filter(keep) + all.skip(j + 1));
                }
            }
            j = j + 1;
        }
        proof {
            assert(all.take(j as int) =~= all);
            assert(all.filter(keep) + all.skip(j as int) =~= all.filter(keep));
            lemma_filter_keeps_keys_distinct(all, keep);
        }
        self.entries = entries;
    }
}

/// Leaving out entries keeps every key at one place only.
pub proof fn lemma_filter_keeps_keys_distinct<V>(
    entries: Seq<(Seq<char>, V)>,
    keep: spec_fn((Seq<char>, V)) -> bool,
)
    requires
        keys(entries).no_duplicates(),
    ensures
        keys(entries.filter(keep)).no_duplicates(),
        forall|e: (Seq<char>, V)| #[trigger] entries.filter(keep).contains(e) ==> entries.contains(e),
    decreases entries.len(),
{
    reveal(Seq::filter);
    if entries.len() > 0 {
        let shorter = entries.drop_last();
        assert(keys(shorter) =~= keys(entries).drop_last());
        lemma_filter_keeps_keys_distinct(shorter, keep);
        let rest = shorter.filter(keep);
        let all = entries.filter(keep);
        assert forall|e: (Seq<char>, V)| #[trigger] all.contains(e) implies entries.contains(e) by {
            let i = choose|i: int| 0 <= i < all.len() && all[i] == e;
            if i < rest.len() {
                assert(rest[i] == e);
                assert(rest.contains(e));
                let j = choose|j: int| 0 <= j < shorter.len() && shorter[j] == e;
                assert(entries[j] == e);
            } else {
                assert(entries[entries.len() - 1] == e);
            }
        }
        if keep(entries.last()) {
            assert forall|i: int, j: int| 0 <= i < j < all.len() implies keys(all)[i] != keys(all)[j] by {
                if j == rest.len() {
                    assert(rest[i] == all[i]);
                    assert(rest.contains(rest[i]));
                    let k = choose|k: int| 0 <= k < shorter.len() && shorter[k] == rest[i];
                    assert(keys(entries)[k] != keys(entries)[entries.len() - 1]);
                } else {
                    assert(keys(rest)[i] != keys(rest)[j]);
                }
            }
        }
    }
}

/// Where the keys are distinct, a value is found among the entries that are kept
/// if and only if it was found before and is kept.
pub proof fn filter_then_lookup<V>(
    entries: Seq<(Seq<char>, V)>,
    keep: spec_fn((Seq<char>, V)) -> bool,
    key: Seq<char>,
)
    requires
        keys(entries).no_duplicates(),
    ensures
        lookup(entries.filter(keep), key) == (match lookup(entries, key) {
            Some(value) => if keep((key, value)) {
                Some(value)
            } else {
                None
            },
            None => None,
        }),
    decreases entries.len(),
{
    reveal(Seq::filter);
    if entries.len() > 0 {
        let shorter = entries.drop_last();
        let last = entries.last();
        let rest = shorter.filter(keep);
        assert(keys(shorter) =~= keys(entries).drop_last());
        filter_then_lookup(shorter, keep, key);
        lemma_filter_keeps_keys_distinct(shorter, keep);
        lemma_position(keys(shorter), last.0);
        lemma_position(keys(rest), last.0);
        assert(!keys(shorter).contains(last.0)) by {
            if keys(shorter).contains(last.0) {
                let i = choose|i: int| 0 <= i < keys(shorter).len() && keys(shorter)[i] == last.0;
                assert(keys(entries)[i] == keys(entries)[entries.len() - 1]);
            }
        }
        assert(!keys(rest).contains(last.0)) by {
            if keys(rest).contains(last.0) {
                let i = choose|i: int| 0 <= i < keys(rest).len() && keys(rest)[i] == last.0;
                assert(rest.contains(rest[i]));
                let j = choose|j: int| 0 <= j < shorter.len() && shorter[j] == rest[i];
                assert(keys(shorter)[j] == last.0);
            }
        }
        assert(entries =~= put(shorter, last.0, last.1));
        put_then_lookup(shorter, last.0, last.1, key);
        put_then_lookup(rest, last.0, last.1, key);
    }
}

impl<V: Copy> Table<V> {
    /// A table with the same entries.
    pub fn copy(&self) -> (t: Table<V>)
        ensures
            t@ == self@,
    {
        let mut entries: Vec<(String, V)> = Vec::new();
        let mut i: usize = 0;
        while i < self.entries.len()
            invariant
                i <= self.entries.len(),
                entries.len() == i,
                forall|j: int| 0 <= j < i ==> #[trigger] entries@[j] == self.entries@[j],
            decreases self.entries.len() - i,
        {
            entries.push((self.entries[i].0.clone(), self.entries[i].1));
            i = i + 1;
        }
        proof {
            use_type_invariant(self);
            assert(entries@ =~= self.entries@);
        }
        Table { entries }
    }
}

/// The texts of a set.
pub open spec fn texts(items: Seq<String>) -> Seq<Seq<char>> {
    items.map_values(|s: String| s@)
}

/// The set with `key` in it: unchanged if it was there, else with `key` behind
/// all others.
pub open spec fn with_key(keys: Seq<Seq<char>>, key: Seq<char>) -> Seq<Seq<char>> {
    if keys.contains(key) {
        keys
    } else {
        keys.push(key)
    }
}

/// The set with each of `more` in it, taken in turn.
pub open spec fn with_keys(keys: Seq<Seq<char>>, more: Seq<Seq<char>>) -> Seq<Seq<char>>
    decreases more.len(),
{
    if more.len() == 0 {
        keys
    } else {
        with_key(with_keys(keys, more.drop_last()), more.last())
    }
}

/// Keys that were added are there, and so are those that were there before.
pub proof fn added_keys_are_present(keys: Seq<Seq<char>>, more: Seq<Seq<char>>, key: Seq<char>)
    ensures
        with_keys(keys, more).contains(key) <==> keys.contains(key) || more.contains(key),
    decreases more.len(),
{
    if more.len() > 0 {
        let shorter = more.drop_last();
        let last = more.last();
        let base = with_keys(keys, shorter);
        added_keys_are_present(keys, shorter, key);
        if more.contains(key) {
            let i = choose|i: int| 0 <= i < more.len() && more[i] == key;
            if i < shorter.len() {
                assert(shorter[i] == key);
            }
        }
        if shorter.contains(key) {
            let i = choose|i: int| 0 <= i < shorter.len() && shorter[i] == key;
            assert(more[i] == key);
        }
        assert(more[more.len() - 1] == last);
        if !base.contains(last) {
            let grown = base.push(last);
            assert(grown[base.len() as int] == last);
            if base.contains(key) {
                let i = choose|i: int| 0 <= i < base.len() && base[i] == key;
                assert(grown[i] == key);
            }
            if grown.contains(key) {
                let i = choose|i: int| 0 <= i < grown.len() && grown[i] == key;
                if i < base.len() {
                    assert(base[i] == key);
                }
            }
        }
    }
}

/// A set of texts.
#[derive(Debug)]
pub struct KeySet {
    items: Vec<String>,
}

impl View for KeySet {
    type V = Seq<Seq<char>>;

    closed spec fn view(&self) -> Seq<Seq<char>> {
        texts(self.items@)
    }
}

impl KeySet {
    #[verifier::type_invariant]
    spec fn distinct(self) -> bool {
        texts(self.items@).no_duplicates()
    }

    /// An empty set.
    pub fn new() -> (s: KeySet)
        ensures
            s@ == Seq::<Seq<char>>::empty(),
    {
        let s = KeySet { items: Vec::new() };
        proof {
            assert(s@ =~= Seq::<Seq<char>>::empty());
        }
        s
    }

    /// The number of texts. No text is in the set twice.
    pub fn len(&self) -> (n: usize)
        ensures
            n == self@.len(),
            self@.no_duplicates(),
    {
        proof {
            use_type_invariant(self);
        }
        self.items.len()
    }

    /// The text at a place.
    pub fn at(&self, i: usize) -> (s: &String)
        requires
            i < self@.len(),
        ensures
            s@ == self@[i as int],
    {
        &self.items[i]
    }

    /// Whether `key` is in the set.
    pub fn contains(&self, key: &str) -> (r: bool)
        ensures
            r == self@.contains(key@),
    {
        let mut i: usize = 0;
        while i < self.items.len()
            invariant
                i <= self.items.len(),
                self.items.len() == self@.len(),
                forall|j: int| 0 <= j < i ==> #[trigger] self@[j] != key@,
            decreases self.items.len() - i,
        {
            if same(self.items[i].as_str(), key) {
                proof {
                    assert(self@[i as int] == key@);
                }
                return true;
            }
            i = i + 1;
        }
        false
    }

    /// Adds `key`.
    pub fn insert(&mut self, key: String)
        ensures
            final(self)@ == with_key(old(self)@, key@),
    {
        if self.contains(key.as_str()) {
            return;
        }
        proof {
            use_type_invariant(&*self);
        }
        let ghost before = self@;
        let ghost k = key@;
        let mut items: Vec<String> = Vec::new();
        core::mem::swap(&mut items, &mut self.items);
        items.push(key);
        proof {
            assert(texts(items@) =~= before.push(k));
        }
        self.items = items;
    }

    /// The last `n` texts of the set; all of them if there are fewer.
    pub fn last(&self, n: usize) -> (s: KeySet)
        ensures
            s@ == (if self@.len() > n {
                self@.skip(self@.len() - n)
            } else {
                self@
            }),
    {
        let start: usize = if self.items.len() > n {
            self.items.len() - n
        } else {
            0
        };
        let mut items: Vec<String> = Vec::new();
        let mut i: usize = start;
        while i < self.items.len()
            invariant
                start <= i <= self.items.len(),
                items.len() == i - start,
                forall|j: int| 0 <= j < items.len() ==> #[trigger] items@[j] == self.items@[start + j],
            decreases self.items.len() - i,
        {
            items.push(self.items[i].clone());
            i = i + 1;
        }
        proof {
            use_type_invariant(self);
            assert(texts(items@) =~= self@.skip(start as int));
            assert(self@.skip(0) =~= self@);
        }
        KeySet { items }
    }

    /// A set with the same texts.
    pub fn copy(&self) -> (s: KeySet)
        ensures
            s@ == self@,
    {
        let mut items: Vec<String> = Vec::new();
        let mut i: usize = 0;
        while i < self.items.len()
            invariant
                i <= self.items.len(),
                items.len() == i,
                forall|j: int| 0 <= j < i ==> #[trigger] items@[j] == self.items@[j],
            decreases self.items.len() - i,
        {
            items.push(self.items[i].clone());
            i = i + 1;
        }
        proof {
            use_type_invariant(self);
            assert(items@ =~= self.items@);
        }
        KeySet { items }
    }
}

} // verus!
