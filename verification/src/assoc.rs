use vstd::prelude::*;

verus! {

/// A map from strings to values that remembers the order in which keys
/// were first inserted.  No key occurs twice.
pub struct AssocList<V> {
    entries: Vec<(String, V)>,
}

impl<V> AssocList<V> {
    #[verifier::type_invariant]
    closed spec fn keys_unique(&self) -> bool {
        forall|i: int, j: int|
            0 <= i < self.entries@.len() && 0 <= j < self.entries@.len() && i != j
                ==> #[trigger] self.entries@[i].0@ != #[trigger] self.entries@[j].0@
    }

}

impl<V: DeepView> AssocList<V> {
    /// The key stored at position `i`.
    pub closed spec fn key_at(&self, i: int) -> Seq<char> {
        self.entries@[i].0@
    }

    /// The keys, in insertion order.
    pub closed spec fn keys_seq(&self) -> Seq<Seq<char>> {
        Seq::new(self.entries@.len(), |i: int| self.entries@[i].0@)
    }

    /// The value stored at position `i`, by its view.
    pub closed spec fn value_at(&self, i: int) -> V::V {
        self.entries@[i].1.deep_view()
    }

    pub closed spec fn spec_len(&self) -> nat {
        self.entries@.len()
    }

    /// The position at which key `k` is stored (meaningful when present).
    closed spec fn index_of(&self, k: Seq<char>) -> int {
        choose|i: int| 0 <= i < self.entries@.len() && self.entries@[i].0@ == k
    }

    closed spec fn has_key(&self, k: Seq<char>) -> bool {
        exists|i: int| 0 <= i < self.entries@.len() && self.entries@[i].0@ == k
    }

    /// The map from keys to the views of their values.
    pub closed spec fn view(&self) -> Map<Seq<char>, V::V> {
        Map::new(|k: Seq<char>| self.has_key(k), |k: Seq<char>| self.value_at(self.index_of(k)))
    }

    /// Key and value at a position agree with the map view, and the keys in
    /// order are exactly the keys of the map, each once.
    proof fn lemma_entries(&self)
        requires
            self.keys_unique(),
        ensures
            self.keys_seq().len() == self.spec_len(),
            self.keys_seq().no_duplicates(),
            forall|k: Seq<char>| #[trigger] self.view().contains_key(k) <==> self.keys_seq().contains(k),
            forall|i: int| 0 <= i < self.spec_len() ==> #[trigger] self.view()[self.keys_seq()[i]] == self.value_at(i),
    {
        assert forall|k: Seq<char>| #[trigger] self.view().contains_key(k) <==> self.keys_seq().contains(k) by {
            if self.has_key(k) {
                let i = choose|i: int| 0 <= i < self.entries@.len() && self.entries@[i].0@ == k;
                assert(self.keys_seq()[i] == k);
            }
            if self.keys_seq().contains(k) {
                let i = choose|i: int| 0 <= i < self.keys_seq().len() && self.keys_seq()[i] == k;
                assert(self.entries@[i].0@ == k);
            }
        }
        assert forall|i: int| 0 <= i < self.spec_len() implies #[trigger] self.view()[self.keys_seq()[i]] == self.value_at(i) by {
            let k = self.keys_seq()[i];
            assert(self.entries@[i].0@ == k);
            assert(self.has_key(k));
            let j = self.index_of(k);
            assert(self.entries@[j].0@ == k);
        }
    }

    /// An empty list.
    pub fn new() -> (out: Self)
        ensures
            out.view() == Map::<Seq<char>, V::V>::empty(),
            out.keys_seq() == Seq::<Seq<char>>::empty(),
    {
        let out = AssocList { entries: Vec::new() };
        assert(out.view() =~= Map::<Seq<char>, V::V>::empty());
        assert(out.keys_seq() =~= Seq::<Seq<char>>::empty());
        out
    }

    /// The number of keys.
    pub fn len(&self) -> (n: usize)
        ensures
            n == self.spec_len(),
            n == self.keys_seq().len(),
            self.keys_seq().no_duplicates(),
            forall|k: Seq<char>| #[trigger] self.view().contains_key(k) <==> self.keys_seq().contains(k),
            forall|i: int| 0 <= i < n ==> #[trigger] self.view()[self.keys_seq()[i]] == self.value_at(i),
    {
        proof {
            use_type_invariant(self);
            self.lemma_entries();
        }
        self.entries.len()
    }

    /// The position of `key`, if it is present.
    pub fn find(&self, key: &String) -> (out: Option<usize>)
        ensures
            match out {
                Some(i) => i < self.spec_len() && self.keys_seq()[i as int] == key@
                    && self.view().contains_key(key@) && self.view()[key@] == self.value_at(i as int),
                None => !self.view().contains_key(key@),
            },
    {
        proof {
            use_type_invariant(self);
        }
        let mut i: usize = 0;
        while i < self.entries.len()
            invariant
                i <= self.entries@.len(),
                self.keys_unique(),
                forall|j: int| 0 <= j < i ==> self.entries@[j].0@ != key@,
            decreases self.entries@.len() - i,
        {
            if self.entries[i].0 == *key {
                proof {
                    assert(self.has_key(key@));
                    let j = self.index_of(key@);
                    assert(self.entries@[j].0@ == key@);
                    if j != i as int {
                        assert(self.entries@[j].0@ != self.entries@[i as int].0@);
                    }
                    assert(self.keys_seq()[i as int] == key@);
                }
                return Some(i);
            }
            i = i + 1;
        }
        None
    }

    /// The value of `key`, if it is present.
    pub fn get(&self, key: &String) -> (out: Option<&V>)
        ensures
            match out {
                Some(v) => self.view().contains_key(key@) && v.deep_view() == self.view()[key@],
                None => !self.view().contains_key(key@),
            },
    {
        match self.find(key) {
            Some(i) => Some(&self.entries[i].1),
            None => None,
        }
    }

    /// Whether `key` is present.
    pub fn contains_key(&self, key: &String) -> (out: bool)
        ensures
            out == self.view().contains_key(key@),
    {
        self.find(key).is_some()
    }

    /// The key at position `i`.
    pub fn key(&self, i: usize) -> (out: &String)
        requires
            i < self.spec_len(),
        ensures
            out@ == self.keys_seq()[i as int],
            self.view().contains_key(out@),
            self.view()[out@] == self.value_at(i as int),
    {
        proof {
            use_type_invariant(self);
            self.lemma_entries();
            assert(self.keys_seq().contains(self.keys_seq()[i as int]));
        }
        &self.entries[i].0
    }

    /// The value at position `i`.
    pub fn value(&self, i: usize) -> (out: &V)
        requires
            i < self.spec_len(),
        ensures
            out.deep_view() == self.value_at(i as int),
            out.deep_view() == self.view()[self.keys_seq()[i as int]],
    {
        proof {
            use_type_invariant(self);
            self.lemma_entries();
        }
        &self.entries[i].1
    }

    /// Sets `key` to `value`: an existing key keeps its position, a new key
    /// goes last.
    pub fn insert(&mut self, key: String, value: V)
        ensures
            final(self).view() == old(self).view().insert(key@, value.deep_view()),
            old(self).view().contains_key(key@) ==> final(self).keys_seq() == old(self).keys_seq(),
            !old(self).view().contains_key(key@) ==> final(self).keys_seq() == old(self).keys_seq().push(key@),
    {
        proof {
            use_type_invariant(&*self);
        }
        let ghost key_v = key@;
        let ghost val_v = value.deep_view();
        let ghost old_self = *self;
        match self.find(&key) {
            Some(i) => {
                let ghost old_entries = self.entries@;
                let mut entries: Vec<(String, V)> = Vec::new();
                std::mem::swap(&mut entries, &mut self.entries);
                entries.remove(i);
                entries.insert(i, (key, value));
                proof {
                    assert(entries@ =~= old_entries.update(i as int, (entries@[i as int])));
                    assert forall|a: int, b: int|
                        0 <= a < entries@.len() && 0 <= b < entries@.len() && a != b
                        implies #[trigger] entries@[a].0@ != #[trigger] entries@[b].0@ by {
                        assert(old_entries[a].0@ == entries@[a].0@);
                        assert(old_entries[b].0@ == entries@[b].0@);
                    }
                }
                self.entries = entries;
            },
            None => {
                let mut entries: Vec<(String, V)> = Vec::new();
                std::mem::swap(&mut entries, &mut self.entries);
                entries.push((key, value));
                self.entries = entries;
            },
        }
        proof {
            assert forall|k: Seq<char>| #[trigger] self.view().contains_key(k) <==> old_self.view().insert(key_v, val_v).contains_key(k) by {
                if k == key_v {
                    let n = (self.entries@.len() - 1) as int;
                    if old_self.has_key(k) {
                        let j = old_self.index_of(k);
                        assert(self.entries@[j].0@ == k);
                    } else {
                        assert(self.entries@[n].0@ == k);
                    }
                } else {
                    if old_self.has_key(k) {
                        let j = old_self.index_of(k);
                        assert(self.entries@[j].0@ == k);
                    }
                    if self.has_key(k) {
                        let j = self.index_of(k);
                        assert(old_self.entries@[j].0@ == k);
                    }
                }
            }
            assert forall|k: Seq<char>| #[trigger] self.view().contains_key(k) implies self.view()[k] == old_self.view().insert(key_v, val_v)[k] by {
                let j = self.index_of(k);
                assert(self.entries@[j].0@ == k);
                if k != key_v {
                    let jo = old_self.index_of(k);
                    assert(old_self.entries@[jo].0@ == k);
                    assert(self.entries@[jo].0@ == k);
                }
            }
            assert(self.view() =~= old_self.view().insert(key_v, val_v));
            if old_self.has_key(key_v) {
                assert(self.keys_seq() =~= old_self.keys_seq());
            } else {
                assert(self.keys_seq() =~= old_self.keys_seq().push(key_v));
            }
        }
    }

    /// Puts `value` at position `i` in place of the value there, which it
    /// returns; the keys do not change.
    pub fn replace_value(&mut self, i: usize, value: V) -> (out: V)
        requires
            i < old(self).spec_len(),
        ensures
            final(self).view() == old(self).view().insert(old(self).keys_seq()[i as int], value.deep_view()),
            final(self).keys_seq() == old(self).keys_seq(),
            final(self).spec_len() == old(self).spec_len(),
            out.deep_view() == old(self).view()[old(self).keys_seq()[i as int]],
    {
        proof {
            use_type_invariant(&*self);
            self.lemma_entries();
        }
        let ghost old_self = *self;
        let ghost key_v = self.entries@[i as int].0@;
        let ghost val_v = value.deep_view();
        let mut entries: Vec<(String, V)> = Vec::new();
        std::mem::swap(&mut entries, &mut self.entries);
        let (k, old_value) = entries.remove(i);
        entries.insert(i, (k, value));
        proof {
            assert(entries@ =~= old_self.entries@.update(i as int, (entries@[i as int])));
            assert forall|a: int, b: int|
                0 <= a < entries@.len() && 0 <= b < entries@.len() && a != b
                implies #[trigger] entries@[a].0@ != #[trigger] entries@[b].0@ by {
                assert(old_self.entries@[a].0@ == entries@[a].0@);
                assert(old_self.entries@[b].0@ == entries@[b].0@);
            }
        }
        self.entries = entries;
        proof {
            assert forall|kk: Seq<char>| #[trigger] self.view().contains_key(kk) <==> old_self.view().insert(key_v, val_v).contains_key(kk) by {
                if old_self.has_key(kk) {
                    let j = old_self.index_of(kk);
                    assert(self.entries@[j].0@ == kk);
                }
                if self.has_key(kk) {
                    let j = self.index_of(kk);
                    assert(old_self.entries@[j].0@ == kk);
                }
                if kk == key_v {
                    assert(self.entries@[i as int].0@ == kk);
                }
            }
            assert forall|kk: Seq<char>| #[trigger] self.view().contains_key(kk) implies self.view()[kk] == old_self.view().insert(key_v, val_v)[kk] by {
                let j = self.index_of(kk);
                assert(self.entries@[j].0@ == kk);
                if kk == key_v {
                    assert(self.entries@[i as int].0@ == kk);
                    if j != i as int {
                        assert(self.entries@[j].0@ != self.entries@[i as int].0@);
                    }
                } else {
                    let jo = old_self.index_of(kk);
                    assert(old_self.entries@[jo].0@ == kk);
                    assert(self.entries@[jo].0@ == kk);
                    if j != jo {
                        assert(self.entries@[j].0@ != self.entries@[jo].0@);
                    }
                }
            }
            assert(self.view() =~= old_self.view().insert(key_v, val_v));
            assert(self.keys_seq() =~= old_self.keys_seq());
            assert(old_self.keys_seq()[i as int] == key_v);
        }
        old_value
    }

    /// Removes `key`, if present; the other keys keep their order.
    pub fn remove(&mut self, key: &String)
        ensures
            final(self).view() == old(self).view().remove(key@),
    {
        proof {
            use_type_invariant(&*self);
        }
        let ghost old_self = *self;
        match self.find(key) {
            Some(i) => {
                let mut entries: Vec<(String, V)> = Vec::new();
                std::mem::swap(&mut entries, &mut self.entries);
                entries.remove(i);
                self.entries = entries;
                proof {
                    assert forall|a: int| 0 <= a < self.entries@.len() implies
                        #[trigger] self.entries@[a] == old_self.entries@[if a < i { a } else { a + 1 }] by {}
                    assert forall|k: Seq<char>| #[trigger] self.view().contains_key(k) <==> old_self.view().remove(key@).contains_key(k) by {
                        if self.has_key(k) {
                            let j = self.index_of(k);
                            assert(self.entries@[j] == old_self.entries@[if j < i { j } else { j + 1 }]);
                        }
                        if old_self.has_key(k) && k != key@ {
                            let j = old_self.index_of(k);
                            assert(j != i);
                            let a = if j < i { j } else { j - 1 };
                            assert(self.entries@[a] == old_self.entries@[j]);
                        }
                    }
                    assert forall|k: Seq<char>| #[trigger] self.view().contains_key(k) implies self.view()[k] == old_self.view().remove(key@)[k] by {
                        let j = self.index_of(k);
                        let jo = if j < i { j } else { j + 1 };
                        assert(self.entries@[j] == old_self.entries@[jo]);
                        assert(old_self.entries@[jo].0@ == k);
                        let jj = old_self.index_of(k);
                        assert(old_self.entries@[jj].0@ == k);
                    }
                    assert(self.view() =~= old_self.view().remove(key@));
                }
            },
            None => {
                proof {
                    assert(self.view() =~= old_self.view().remove(key@));
                }
            },
        }
    }
}

/// `out` holds, each once, the keys among the first `i` of `keys` whose
/// value in `m` satisfies `pred`.
pub open spec fn keys_filtered<W>(
    keys: Seq<Seq<char>>,
    m: Map<Seq<char>, W>,
    pred: spec_fn(W) -> bool,
    i: int,
    out: Seq<Seq<char>>,
) -> bool {
    &&& out.no_duplicates()
    &&& forall|k: Seq<char>| #[trigger] out.contains(k) <==> exists|j: int|
        0 <= j < i && keys[j] == k && pred(m[k])
}

/// Looking at the next key keeps `keys_filtered`.
pub proof fn lemma_keys_filtered_step<W>(
    keys: Seq<Seq<char>>,
    m: Map<Seq<char>, W>,
    pred: spec_fn(W) -> bool,
    i: int,
    out: Seq<Seq<char>>,
)
    requires
        keys.no_duplicates(),
        0 <= i < keys.len(),
        keys_filtered(keys, m, pred, i, out),
    ensures
        keys_filtered(
            keys,
            m,
            pred,
            i + 1,
            if pred(m[keys[i]]) {
                out.push(keys[i])
            } else {
                out
            },
        ),
{
    let k = keys[i];
    if pred(m[k]) {
        let next = out.push(k);
        assert(!out.contains(k)) by {
            if out.contains(k) {
                let j = choose|j: int| 0 <= j < i && keys[j] == k && pred(m[k]);
                assert(keys[j] == keys[i]);
            }
        }
        assert forall|a: int, b: int| 0 <= a < b < next.len() implies next[a] != next[b] by {
            if b == next.len() - 1 {
                assert(out.contains(out[a]));
            }
        }
        assert forall|kk: Seq<char>| #[trigger] next.contains(kk) <==> exists|j: int|
            0 <= j < i + 1 && keys[j] == kk && pred(m[kk]) by {
            if next.contains(kk) && kk != k {
                let x = choose|x: int| 0 <= x < next.len() && next[x] == kk;
                assert(out[x] == kk);
                assert(out.contains(kk));
            }
            if kk == k {
                assert(next[next.len() - 1] == kk);
            }
            if (exists|j: int| 0 <= j < i + 1 && keys[j] == kk && pred(m[kk])) && kk != k {
                assert(out.contains(kk));
                let x = choose|x: int| 0 <= x < out.len() && out[x] == kk;
                assert(next[x] == kk);
            }
        }
    } else {
        assert forall|kk: Seq<char>| #[trigger] out.contains(kk) <==> exists|j: int|
            0 <= j < i + 1 && keys[j] == kk && pred(m[kk]) by {
            if exists|j: int| 0 <= j < i + 1 && keys[j] == kk && pred(m[kk]) {
                let j = choose|j: int| 0 <= j < i + 1 && keys[j] == kk && pred(m[kk]);
                if j == i {
                    assert(false);
                }
            }
        }
    }
}

/// Once every key is looked at, `out` holds exactly the keys of `m` whose
/// value satisfies `pred`.
pub proof fn lemma_keys_filtered_done<W>(
    keys: Seq<Seq<char>>,
    m: Map<Seq<char>, W>,
    pred: spec_fn(W) -> bool,
    out: Seq<Seq<char>>,
)
    requires
        keys_filtered(keys, m, pred, keys.len() as int, out),
        forall|k: Seq<char>| #[trigger] m.contains_key(k) <==> keys.contains(k),
    ensures
        forall|k: Seq<char>| #[trigger] out.contains(k) <==> m.contains_key(k) && pred(m[k]),
{
    assert forall|k: Seq<char>| #[trigger] out.contains(k) <==> m.contains_key(k) && pred(m[k]) by {
        if m.contains_key(k) && pred(m[k]) {
            assert(keys.contains(k));
            let j = choose|j: int| 0 <= j < keys.len() && keys[j] == k;
        }
        if out.contains(k) {
            let j = choose|j: int| 0 <= j < keys.len() && keys[j] == k && pred(m[k]);
            assert(keys.contains(k));
        }
    }
}

} // verus!
