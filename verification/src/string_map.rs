//! A small string-keyed map.
//!
//! Holds `(key, value)` entries in a `Vec` with no key twice; its view is the
//! finite map from key text to value text.

use vstd::prelude::*;
use crate::text::chars_of;

verus! {

/// Whether two character sequences are equal.
pub fn chars_eq(a: &[char], b: &[char]) -> (r: bool)
    ensures
        r == (a@ == b@),
{
    if a.len() != b.len() {
        return false;
    }
    let mut i: usize = 0;
    while i < a.len()
        invariant
            a@.len() == b@.len(),
            i <= a@.len(),
            forall|j: int| 0 <= j < i ==> a@[j] == b@[j],
        decreases a@.len() - i,
    {
        if a[i] != b[i] {
            return false;
        }
        i = i + 1;
    }
    assert(a@ =~= b@);
    true
}

/// A map from strings to strings.
pub struct StringMap {
    keys: Vec<Vec<char>>,
    values: Vec<String>,
}

/// The map view of parallel key and value sequences, later entries winning.
pub open spec fn entries_view(keys: Seq<Vec<char>>, values: Seq<String>) -> Map<Seq<char>, Seq<char>>
    decreases keys.len(),
{
    if keys.len() == 0 || values.len() == 0 {
        Map::empty()
    } else {
        entries_view(keys.drop_last(), values.drop_last()).insert(keys.last()@, values.last()@)
    }
}

pub proof fn lemma_entries_view(keys: Seq<Vec<char>>, values: Seq<String>)
    requires
        keys.len() == values.len(),
        forall|i: int, j: int| 0 <= i < j < keys.len() ==> keys[i]@ != keys[j]@,
    ensures
        forall|k: Seq<char>| #[trigger] entries_view(keys, values).contains_key(k) <==> exists|i: int| 0 <= i < keys.len() && keys[i]@ == k,
        forall|i: int| 0 <= i < keys.len() ==> #[trigger] entries_view(keys, values)[keys[i]@] == values[i]@,
        entries_view(keys, values).dom().finite(),
        entries_view(keys, values).dom().len() == keys.len(),
    decreases keys.len(),
{
    if keys.len() > 0 {
        let ks = keys.drop_last();
        let vs = values.drop_last();
        lemma_entries_view(ks, vs);
        let m = entries_view(ks, vs);
        assert(!m.contains_key(keys.last()@)) by {
            if m.contains_key(keys.last()@) {
                let i = choose|i: int| 0 <= i < ks.len() && ks[i]@ == keys.last()@;
                assert(keys[i]@ == keys[keys.len() - 1]@);
            }
        }
        assert forall|k: Seq<char>| #[trigger] entries_view(keys, values).contains_key(k) <==> exists|i: int| 0 <= i < keys.len() && keys[i]@ == k by {
            if entries_view(keys, values).contains_key(k) && k != keys.last()@ {
                assert(m.contains_key(k));
                let i = choose|i: int| 0 <= i < ks.len() && ks[i]@ == k;
                assert(keys[i]@ == k);
            }
            if exists|i: int| 0 <= i < keys.len() && keys[i]@ == k {
                let i = choose|i: int| 0 <= i < keys.len() && keys[i]@ == k;
                if i < keys.len() - 1 {
                    assert(ks[i]@ == k);
                }
            }
        }
        assert forall|i: int| 0 <= i < keys.len() implies #[trigger] entries_view(keys, values)[keys[i]@] == values[i]@ by {
            if i < keys.len() - 1 {
                assert(ks[i]@ == keys[i]@);
                assert(m[ks[i]@] == vs[i]@);
            }
        }
    }
}

impl StringMap {
    #[verifier::type_invariant]
    spec fn keys_distinct(self) -> bool {
        &&& self.keys@.len() == self.values@.len()
        &&& forall|i: int, j: int| 0 <= i < j < self.keys@.len() ==> self.keys@[i]@ != self.keys@[j]@
    }

    /// The map from key text to value text.
    pub closed spec fn view(&self) -> Map<Seq<char>, Seq<char>> {
        entries_view(self.keys@, self.values@)
    }

    /// An empty map.
    pub fn new() -> (m: Self)
        ensures
            m.view() == Map::<Seq<char>, Seq<char>>::empty(),
    {
        StringMap { keys: Vec::new(), values: Vec::new() }
    }

    fn find(&self, key: &Vec<char>) -> (r: Option<usize>)
        ensures
            r matches Some(i) ==> i < self.keys@.len() && self.keys@[i as int]@ == key@,
            r is None ==> forall|i: int| 0 <= i < self.keys@.len() ==> self.keys@[i]@ != key@,
    {
        let mut i: usize = 0;
        while i < self.keys.len()
            invariant
                i <= self.keys@.len(),
                forall|j: int| 0 <= j < i ==> self.keys@[j]@ != key@,
            decreases self.keys@.len() - i,
        {
            if chars_eq(self.keys[i].as_slice(), key.as_slice()) {
                return Some(i);
            }
            i = i + 1;
        }
        None
    }

    /// The value stored under the key with the given characters.
    pub fn get_chars(&self, key: &Vec<char>) -> (r: Option<&String>)
        ensures
            r is Some <==> self.view().contains_key(key@),
            r matches Some(v) ==> v@ == self.view()[key@],
    {
        proof {
            use_type_invariant(self);
            lemma_entries_view(self.keys@, self.values@);
        }
        match self.find(key) {
            Some(i) => Some(&self.values[i]),
            None => None,
        }
    }

    /// The value stored under `key`.
    pub fn get(&self, key: &str) -> (r: Option<&String>)
        ensures
            r is Some <==> self.view().contains_key(key@),
            r matches Some(v) ==> v@ == self.view()[key@],
    {
        let k = chars_of(key);
        self.get_chars(&k)
    }

    /// Whether a value is stored under `key`.
    pub fn contains_key(&self, key: &str) -> (r: bool)
        ensures
            r == self.view().contains_key(key@),
    {
        self.get(key).is_some()
    }

    /// Number of entries.
    pub fn len(&self) -> (r: usize)
        ensures
            r == self.view().dom().len(),
    {
        proof {
            use_type_invariant(self);
            lemma_entries_view(self.keys@, self.values@);
        }
        self.keys.len()
    }

    /// Whether the map holds no entry.
    pub fn is_empty(&self) -> (r: bool)
        ensures
            r == (self.view().dom().len() == 0),
    {
        self.len() == 0
    }

    /// Stores `value` under `key`, replacing any earlier value.
    pub fn insert(&mut self, key: String, value: String)
        ensures
            final(self).view() == old(self).view().insert(key@, value@),
    {
        let k = chars_of(key.as_str());
        self.insert_chars(k, value);
    }

    /// Stores `value` under the key with the given characters.
    pub fn insert_chars(&mut self, key: Vec<char>, value: String)
        ensures
            final(self).view() == old(self).view().insert(key@, value@),
    {
        proof {
            use_type_invariant(&*self);
            lemma_entries_view(self.keys@, self.values@);
        }
        let ghost old_map = self.view();
        let found = self.find(&key);
        let ghost ok = self.keys@;
        let ghost ov = self.values@;
        let mut taken = StringMap::new();
        std::mem::swap(&mut taken, self);
        proof {
            use_type_invariant(&taken);
        }
        let StringMap { mut keys, mut values } = taken;
        match found {
            Some(i) => {
                values.set(i, value);
                proof {
                    lemma_entries_view(keys@, values@);
                    let nm = entries_view(keys@, values@);
                    assert(nm =~= old_map.insert(key@, values@[i as int]@)) by {
                        assert forall|k: Seq<char>| #[trigger] nm.contains_key(k) <==> old_map.insert(key@, values@[i as int]@).contains_key(k) by {}
                        assert forall|k: Seq<char>| nm.contains_key(k) implies #[trigger] nm[k] == old_map.insert(key@, values@[i as int]@)[k] by {
                            let j = choose|j: int| 0 <= j < keys@.len() && keys@[j]@ == k;
                            if j != i {
                                assert(old_map[ok[j]@] == ov[j]@);
                            }
                        }
                    }
                }
                *self = StringMap { keys, values };
            },
            None => {
                keys.push(key);
                values.push(value);
                proof {
                    assert(keys@.drop_last() =~= ok);
                    assert(values@.drop_last() =~= ov);
                }
                *self = StringMap { keys, values };
            },
        }
    }
}

/// Whether two paths are equal.
pub fn path_eq(a: &[i32], b: &[i32]) -> (r: bool)
    ensures
        r == (a@ == b@),
{
    if a.len() != b.len() {
        return false;
    }
    let mut i: usize = 0;
    while i < a.len()
        invariant
            a@.len() == b@.len(),
            i <= a@.len(),
            forall|j: int| 0 <= j < i ==> a@[j] == b@[j],
        decreases a@.len() - i,
    {
        if a[i] != b[i] {
            return false;
        }
        i = i + 1;
    }
    assert(a@ =~= b@);
    true
}

/// A map from descriptor paths to strings.
pub struct PathMap {
    keys: Vec<Vec<i32>>,
    values: Vec<String>,
}

/// The map view of parallel key and value sequences, later entries winning.
pub open spec fn path_entries_view(keys: Seq<Vec<i32>>, values: Seq<String>) -> Map<Seq<i32>, Seq<char>>
    decreases keys.len(),
{
    if keys.len() == 0 || values.len() == 0 {
        Map::empty()
    } else {
        path_entries_view(keys.drop_last(), values.drop_last()).insert(keys.last()@, values.last()@)
    }
}

pub proof fn lemma_path_entries_view(keys: Seq<Vec<i32>>, values: Seq<String>)
    requires
        keys.len() == values.len(),
        forall|i: int, j: int| 0 <= i < j < keys.len() ==> keys[i]@ != keys[j]@,
    ensures
        forall|k: Seq<i32>| #[trigger] path_entries_view(keys, values).contains_key(k) <==> exists|i: int| 0 <= i < keys.len() && keys[i]@ == k,
        forall|i: int| 0 <= i < keys.len() ==> #[trigger] path_entries_view(keys, values)[keys[i]@] == values[i]@,
        path_entries_view(keys, values).dom().finite(),
        path_entries_view(keys, values).dom().len() == keys.len(),
    decreases keys.len(),
{
    if keys.len() > 0 {
        let ks = keys.drop_last();
        let vs = values.drop_last();
        lemma_path_entries_view(ks, vs);
        let m = path_entries_view(ks, vs);
        assert(!m.contains_key(keys.last()@)) by {
            if m.contains_key(keys.last()@) {
                let i = choose|i: int| 0 <= i < ks.len() && ks[i]@ == keys.last()@;
                assert(keys[i]@ == keys[keys.len() - 1]@);
            }
        }
        assert forall|k: Seq<i32>| #[trigger] path_entries_view(keys, values).contains_key(k) <==> exists|i: int| 0 <= i < keys.len() && keys[i]@ == k by {
            if path_entries_view(keys, values).contains_key(k) && k != keys.last()@ {
                assert(m.contains_key(k));
                let i = choose|i: int| 0 <= i < ks.len() && ks[i]@ == k;
                assert(keys[i]@ == k);
            }
            if exists|i: int| 0 <= i < keys.len() && keys[i]@ == k {
                let i = choose|i: int| 0 <= i < keys.len() && keys[i]@ == k;
                if i < keys.len() - 1 {
                    assert(ks[i]@ == k);
                }
            }
        }
        assert forall|i: int| 0 <= i < keys.len() implies #[trigger] path_entries_view(keys, values)[keys[i]@] == values[i]@ by {
            if i < keys.len() - 1 {
                assert(ks[i]@ == keys[i]@);
                assert(m[ks[i]@] == vs[i]@);
            }
        }
    }
}

impl PathMap {
    #[verifier::type_invariant]
    spec fn keys_distinct(self) -> bool {
        &&& self.keys@.len() == self.values@.len()
        &&& forall|i: int, j: int| 0 <= i < j < self.keys@.len() ==> self.keys@[i]@ != self.keys@[j]@
    }

    /// The map from paths to value text.
    pub closed spec fn view(&self) -> Map<Seq<i32>, Seq<char>> {
        path_entries_view(self.keys@, self.values@)
    }

    /// An empty map.
    pub fn new() -> (m: Self)
        ensures
            m.view() == Map::<Seq<i32>, Seq<char>>::empty(),
    {
        PathMap { keys: Vec::new(), values: Vec::new() }
    }

    fn find(&self, key: &Vec<i32>) -> (r: Option<usize>)
        ensures
            r matches Some(i) ==> i < self.keys@.len() && self.keys@[i as int]@ == key@,
            r is None ==> forall|i: int| 0 <= i < self.keys@.len() ==> self.keys@[i]@ != key@,
    {
        let mut i: usize = 0;
        while i < self.keys.len()
            invariant
                i <= self.keys@.len(),
                forall|j: int| 0 <= j < i ==> self.keys@[j]@ != key@,
            decreases self.keys@.len() - i,
        {
            if path_eq(self.keys[i].as_slice(), key.as_slice()) {
                return Some(i);
            }
            i = i + 1;
        }
        None
    }

    /// The value stored under `key`.
    pub fn get_path(&self, key: &Vec<i32>) -> (r: Option<&String>)
        ensures
            r is Some <==> self.view().contains_key(key@),
            r matches Some(v) ==> v@ == self.view()[key@],
    {
        proof {
            use_type_invariant(self);
            lemma_path_entries_view(self.keys@, self.values@);
        }
        match self.find(key) {
            Some(i) => Some(&self.values[i]),
            None => None,
        }
    }

    /// Number of entries.
    pub fn len(&self) -> (r: usize)
        ensures
            r == self.view().dom().len(),
    {
        proof {
            use_type_invariant(self);
            lemma_path_entries_view(self.keys@, self.values@);
        }
        self.keys.len()
    }

    /// Whether the map holds no entry.
    pub fn is_empty(&self) -> (r: bool)
        ensures
            r == (self.view().dom().len() == 0),
    {
        self.len() == 0
    }

    /// Stores `value` under `key`, replacing any earlier value.
    pub fn insert_path(&mut self, key: Vec<i32>, value: String)
        ensures
            final(self).view() == old(self).view().insert(key@, value@),
    {
        proof {
            use_type_invariant(&*self);
            lemma_path_entries_view(self.keys@, self.values@);
        }
        let ghost old_map = self.view();
        let found = self.find(&key);
        let ghost ok = self.keys@;
        let ghost ov = self.values@;
        let mut taken = PathMap::new();
        std::mem::swap(&mut taken, self);
        proof {
            use_type_invariant(&taken);
        }
        let PathMap { mut keys, mut values } = taken;
        match found {
            Some(i) => {
                values.set(i, value);
                proof {
                    lemma_path_entries_view(keys@, values@);
                    let nm = path_entries_view(keys@, values@);
                    assert(nm =~= old_map.insert(key@, values@[i as int]@)) by {
                        assert forall|k: Seq<i32>| #[trigger] nm.contains_key(k) <==> old_map.insert(key@, values@[i as int]@).contains_key(k) by {}
                        assert forall|k: Seq<i32>| nm.contains_key(k) implies #[trigger] nm[k] == old_map.insert(key@, values@[i as int]@)[k] by {
                            let j = choose|j: int| 0 <= j < keys@.len() && keys@[j]@ == k;
                            if j != i {
                                assert(old_map[ok[j]@] == ov[j]@);
                            }
                        }
                    }
                }
                *self = PathMap { keys, values };
            },
            None => {
                keys.push(key);
                values.push(value);
                proof {
                    assert(keys@.drop_last() =~= ok);
                    assert(values@.drop_last() =~= ov);
                }
                *self = PathMap { keys, values };
            },
        }
    }
}

} // verus!
