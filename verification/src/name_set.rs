//! Sorted collections of names.
//!
//! Names are ordered lexicographically by character, which for UTF-8 text is
//! the byte order `String`'s `Ord` uses, so iteration matches a
//! `BTreeSet<String>` / `BTreeMap<String, _>`.

use vstd::prelude::*;
use crate::string_map::chars_eq;
use crate::text::chars_of;

verus! {

/// `a` sorts strictly before `b`.
pub open spec fn lex_lt(a: Seq<char>, b: Seq<char>) -> bool
    decreases a.len(),
{
    if b.len() == 0 {
        false
    } else if a.len() == 0 {
        true
    } else if a[0] < b[0] {
        true
    } else if a[0] == b[0] {
        lex_lt(a.drop_first(), b.drop_first())
    } else {
        false
    }
}

pub proof fn lemma_lex_irreflexive(a: Seq<char>)
    ensures
        !lex_lt(a, a),
    decreases a.len(),
{
    if a.len() > 0 {
        lemma_lex_irreflexive(a.drop_first());
    }
}

pub proof fn lemma_lex_total(a: Seq<char>, b: Seq<char>)
    ensures
        a == b || lex_lt(a, b) || lex_lt(b, a),
        !(lex_lt(a, b) && lex_lt(b, a)),
    decreases a.len(),
{
    if a.len() > 0 && b.len() > 0 {
        lemma_lex_total(a.drop_first(), b.drop_first());
        if a[0] == b[0] && a.drop_first() == b.drop_first() {
            assert(a =~= seq![a[0]] + a.drop_first());
            assert(b =~= seq![b[0]] + b.drop_first());
        }
        if a[0] != b[0] {
            assert(a[0] < b[0] || b[0] < a[0]);
        }
    } else if a.len() == 0 && b.len() == 0 {
        assert(a =~= b);
    }
}

pub proof fn lemma_lex_transitive(a: Seq<char>, b: Seq<char>, c: Seq<char>)
    requires
        lex_lt(a, b),
        lex_lt(b, c),
    ensures
        lex_lt(a, c),
    decreases a.len(),
{
    if a.len() > 0 && b.len() > 0 && c.len() > 0 && a[0] == b[0] && b[0] == c[0] {
        lemma_lex_transitive(a.drop_first(), b.drop_first(), c.drop_first());
    }
}

/// Whether `a` sorts strictly before `b`.
pub fn lex_less(a: &[char], b: &[char]) -> (r: bool)
    ensures
        r == lex_lt(a@, b@),
{
    let mut i: usize = 0;
    assert(a@.skip(0) =~= a@);
    assert(b@.skip(0) =~= b@);
    while i < a.len() && i < b.len() && a[i] == b[i]
        invariant
            i <= a@.len(),
            i <= b@.len(),
            lex_lt(a@, b@) == lex_lt(a@.skip(i as int), b@.skip(i as int)),
        decreases a@.len() - i,
    {
        assert(a@.skip(i as int).drop_first() =~= a@.skip(i + 1));
        assert(b@.skip(i as int).drop_first() =~= b@.skip(i + 1));
        i = i + 1;
    }
    if i >= b.len() {
        false
    } else if i >= a.len() {
        true
    } else {
        a[i] < b[i]
    }
}

/// The names are in strictly increasing order.
pub open spec fn strictly_sorted(s: Seq<Seq<char>>) -> bool {
    forall|i: int, j: int| 0 <= i < j < s.len() ==> lex_lt(#[trigger] s[i], #[trigger] s[j])
}

pub open spec fn char_views(v: Seq<Vec<char>>) -> Seq<Seq<char>> {
    Seq::new(v.len(), |j: int| v[j]@)
}

/// Two strictly sorted sequences holding the same names are equal.
pub proof fn lemma_sorted_unique(a: Seq<Seq<char>>, b: Seq<Seq<char>>)
    requires
        strictly_sorted(a),
        strictly_sorted(b),
        a.to_set() == b.to_set(),
    ensures
        a == b,
    decreases a.len() + b.len(),
{
    if a.len() == 0 {
        if b.len() > 0 {
            assert(b.to_set().contains(b[0]));
        }
        assert(a =~= b);
    } else if b.len() == 0 {
        assert(a.to_set().contains(a[0]));
    } else {
        // The first elements are the least, so equal.
        assert(a.to_set().contains(a[0]));
        assert(b.to_set().contains(a[0]));
        assert(b.to_set().contains(b[0]));
        assert(a.to_set().contains(b[0]));
        let ia = choose|i: int| 0 <= i < b.len() && b[i] == a[0];
        let ib = choose|i: int| 0 <= i < a.len() && a[i] == b[0];
        if a[0] != b[0] {
            if ia > 0 {
                assert(lex_lt(b[0], b[ia]));
            }
            if ib > 0 {
                assert(lex_lt(a[0], a[ib]));
            }
            lemma_lex_total(a[0], b[0]);
        }
        let ra = a.drop_first();
        let rb = b.drop_first();
        assert(ra.to_set() =~= rb.to_set()) by {
            assert forall|x: Seq<char>| ra.to_set().contains(x) implies rb.to_set().contains(x) by {
                let i = choose|i: int| 0 <= i < ra.len() && ra[i] == x;
                assert(a[i + 1] == x);
                assert(a.to_set().contains(x));
                let j = choose|j: int| 0 <= j < b.len() && b[j] == x;
                if j == 0 {
                    assert(lex_lt(a[0], a[i + 1]));
                    lemma_lex_irreflexive(x);
                }
                assert(rb[j - 1] == x);
            }
            assert forall|x: Seq<char>| rb.to_set().contains(x) implies ra.to_set().contains(x) by {
                let i = choose|i: int| 0 <= i < rb.len() && rb[i] == x;
                assert(b[i + 1] == x);
                assert(b.to_set().contains(x));
                let j = choose|j: int| 0 <= j < a.len() && a[j] == x;
                if j == 0 {
                    assert(lex_lt(b[0], b[i + 1]));
                    lemma_lex_irreflexive(x);
                }
                assert(ra[j - 1] == x);
            }
        }
        lemma_sorted_unique(ra, rb);
        assert(a =~= seq![a[0]] + ra);
        assert(b =~= seq![b[0]] + rb);
    }
}

/// Where `x` goes in the sorted `keys`: the first index whose name does not
/// sort before `x`.
fn lower_bound(keys: &Vec<Vec<char>>, x: &[char]) -> (r: usize)
    ensures
        r <= keys@.len(),
        forall|j: int| 0 <= j < r ==> lex_lt(#[trigger] keys@[j]@, x@),
        r < keys@.len() ==> !lex_lt(keys@[r as int]@, x@),
{
    let mut i: usize = 0;
    while i < keys.len() && lex_less(keys[i].as_slice(), x)
        invariant
            i <= keys@.len(),
            forall|j: int| 0 <= j < i ==> lex_lt(#[trigger] keys@[j]@, x@),
        decreases keys@.len() - i,
    {
        i = i + 1;
    }
    i
}

/// A set of names, kept sorted.
pub struct NameSet {
    items: Vec<Vec<char>>,
}

impl NameSet {
    #[verifier::type_invariant]
    spec fn sorted(self) -> bool {
        strictly_sorted(char_views(self.items@))
    }

    /// The names in increasing order.
    pub closed spec fn elems(&self) -> Seq<Seq<char>> {
        char_views(self.items@)
    }

    /// The set of names.
    pub open spec fn view(&self) -> Set<Seq<char>> {
        self.elems().to_set()
    }

    /// The names are kept in increasing order.
    pub fn is_sorted(&self) -> (r: bool)
        ensures
            r,
            strictly_sorted(self.elems()),
    {
        proof {
            use_type_invariant(self);
        }
        true
    }

    /// An empty set.
    pub fn new() -> (s: Self)
        ensures
            s.elems() == Seq::<Seq<char>>::empty(),
    {
        let s = NameSet { items: Vec::new() };
        assert(s.elems() =~= Seq::<Seq<char>>::empty());
        s
    }

    /// Number of names.
    pub fn len(&self) -> (r: usize)
        ensures
            r == self.elems().len(),
    {
        self.items.len()
    }

    /// The `i`-th name in increasing order.
    pub fn get(&self, i: usize) -> (r: &Vec<char>)
        requires
            i < self.elems().len(),
        ensures
            r@ == self.elems()[i as int],
    {
        &self.items[i]
    }

    /// Whether the set holds the name with these characters.
    pub fn contains_chars(&self, x: &[char]) -> (r: bool)
        ensures
            r == self@.contains(x@),
    {
        proof {
            use_type_invariant(self);
        }
        let i = lower_bound(&self.items, x);
        let found = i < self.items.len() && chars_eq(self.items[i].as_slice(), x);
        proof {
            let e = self.elems();
            if self@.contains(x@) {
                let k = choose|k: int| 0 <= k < e.len() && e[k] == x@;
                if k < i {
                    assert(lex_lt(self.items@[k]@, x@));
                    lemma_lex_irreflexive(x@);
                } else if k > i {
                    assert(lex_lt(e[i as int], e[k]));
                    lemma_lex_total(e[i as int], x@);
                }
            }
            if found {
                assert(e[i as int] == x@);
            }
        }
        found
    }

    /// Whether the set holds `x`.
    pub fn contains(&self, x: &str) -> (r: bool)
        ensures
            r == self@.contains(x@),
    {
        let c = chars_of(x);
        self.contains_chars(c.as_slice())
    }

    /// Adds `x`, keeping the order.
    pub fn insert(&mut self, x: String)
        ensures
            final(self)@ == old(self)@.insert(x@),
    {
        let c = chars_of(x.as_str());
        self.insert_chars(c);
    }

    /// Adds the name with these characters, keeping the order.
    pub fn insert_chars(&mut self, x: Vec<char>)
        ensures
            final(self)@ == old(self)@.insert(x@),
    {
        proof {
            use_type_invariant(&*self);
        }
        let ghost e = self.elems();
        let i = lower_bound(&self.items, x.as_slice());
        if i < self.items.len() && chars_eq(self.items[i].as_slice(), x.as_slice()) {
            assert(e[i as int] == x@);
            assert(e.to_set().insert(x@) =~= e.to_set());
            return;
        }
        let ghost xv = x@;
        let mut taken = NameSet::new();
        std::mem::swap(&mut taken, self);
        let NameSet { mut items } = taken;
        items.insert(i, x);
        proof {
            let ne = char_views(items@);
            assert(ne =~= e.insert(i as int, xv));
            if i < e.len() {
                lemma_lex_total(e[i as int], xv);
            }
            assert forall|a: int, b: int| 0 <= a < b < ne.len() implies lex_lt(#[trigger] ne[a], #[trigger] ne[b]) by {
                if b < i {
                } else if b == i {
                    assert(lex_lt(items@[a]@, xv));
                } else if a == i {
                    if b > i + 1 {
                        assert(lex_lt(e[i as int], e[b - 1]));
                        lemma_lex_transitive(xv, e[i as int], e[b - 1]);
                    }
                } else if a < i {
                    if b == i + 1 {
                        assert(lex_lt(e[a], xv));
                        lemma_lex_transitive(e[a], xv, e[i as int]);
                    } else {
                        assert(lex_lt(e[a], e[b - 1]));
                    }
                } else {
                    assert(lex_lt(e[a - 1], e[b - 1]));
                }
            }
            assert(ne.to_set() =~= e.to_set().insert(xv)) by {
                assert forall|y: Seq<char>| ne.to_set().contains(y) implies e.to_set().insert(xv).contains(y) by {
                    let k = choose|k: int| 0 <= k < ne.len() && ne[k] == y;
                    if k < i {
                        assert(e[k] == y);
                    } else if k > i {
                        assert(e[k - 1] == y);
                    }
                }
                assert forall|y: Seq<char>| e.to_set().insert(xv).contains(y) implies ne.to_set().contains(y) by {
                    if y == xv {
                        assert(ne[i as int] == y);
                    } else {
                        let k = choose|k: int| 0 <= k < e.len() && e[k] == y;
                        if k < i {
                            assert(ne[k] == y);
                        } else {
                            assert(ne[k + 1] == y);
                        }
                    }
                }
            }
        }
        *self = NameSet { items };
    }
}

} // verus!

verus! {

pub proof fn lemma_keys_distinct(keys: Seq<Vec<char>>)
    requires
        strictly_sorted(char_views(keys)),
    ensures
        forall|i: int, j: int| 0 <= i < j < keys.len() ==> keys[i]@ != keys[j]@,
{
    assert forall|i: int, j: int| 0 <= i < j < keys.len() implies keys[i]@ != keys[j]@ by {
        assert(char_views(keys)[i] == keys[i]@);
        assert(char_views(keys)[j] == keys[j]@);
        assert(lex_lt(char_views(keys)[i], char_views(keys)[j]));
        lemma_lex_irreflexive(keys[i]@);
    }
}

/// A map from names to strings, its keys kept sorted.
pub struct NameMap {
    keys: Vec<Vec<char>>,
    values: Vec<String>,
}

impl NameMap {
    #[verifier::type_invariant]
    spec fn sorted(self) -> bool {
        &&& self.keys@.len() == self.values@.len()
        &&& strictly_sorted(char_views(self.keys@))
    }

    /// The keys in increasing order.
    pub closed spec fn key_seq(&self) -> Seq<Seq<char>> {
        char_views(self.keys@)
    }

    /// The values, in the order of their keys.
    pub closed spec fn value_seq(&self) -> Seq<Seq<char>> {
        Seq::new(self.values@.len(), |j: int| self.values@[j]@)
    }

    /// The map from key text to value text.
    pub closed spec fn view(&self) -> Map<Seq<char>, Seq<char>> {
        crate::string_map::entries_view(self.keys@, self.values@)
    }

    /// Keys sorted, values paired with them, and the map they form.
    pub fn is_ordered(&self) -> (r: bool)
        ensures
            r,
            strictly_sorted(self.key_seq()),
            self.key_seq().len() == self.value_seq().len(),
            forall|k: Seq<char>| #[trigger] self.view().contains_key(k) <==> self.key_seq().contains(k),
            forall|i: int| 0 <= i < self.key_seq().len() ==> #[trigger] self.view()[self.key_seq()[i]] == self.value_seq()[i],
    {
        proof {
            use_type_invariant(self);
            self.lemma_view();
        }
        true
    }

    proof fn lemma_view(&self)
        requires
            self.keys@.len() == self.values@.len(),
            strictly_sorted(char_views(self.keys@)),
        ensures
            forall|k: Seq<char>| #[trigger] self.view().contains_key(k) <==> self.key_seq().contains(k),
            forall|i: int| 0 <= i < self.key_seq().len() ==> #[trigger] self.view()[self.key_seq()[i]] == self.value_seq()[i],
    {
        lemma_keys_distinct(self.keys@);
        crate::string_map::lemma_entries_view(self.keys@, self.values@);
        assert forall|k: Seq<char>| #[trigger] self.view().contains_key(k) <==> self.key_seq().contains(k) by {
            if self.view().contains_key(k) {
                let i = choose|i: int| 0 <= i < self.keys@.len() && self.keys@[i]@ == k;
                assert(self.key_seq()[i] == k);
            }
            if self.key_seq().contains(k) {
                let i = choose|i: int| 0 <= i < self.key_seq().len() && self.key_seq()[i] == k;
                assert(self.keys@[i]@ == k);
            }
        }
        assert forall|i: int| 0 <= i < self.key_seq().len() implies #[trigger] self.view()[self.key_seq()[i]] == self.value_seq()[i] by {
            assert(self.key_seq()[i] == self.keys@[i]@);
        }
    }

    /// An empty map.
    pub fn new() -> (m: Self)
        ensures
            m.view() == Map::<Seq<char>, Seq<char>>::empty(),
            m.key_seq() == Seq::<Seq<char>>::empty(),
    {
        let m = NameMap { keys: Vec::new(), values: Vec::new() };
        assert(m.key_seq() =~= Seq::<Seq<char>>::empty());
        m
    }

    /// Number of entries.
    pub fn len(&self) -> (r: usize)
        ensures
            r == self.key_seq().len(),
    {
        self.keys.len()
    }

    /// The value of the `i`-th entry in key order.
    pub fn value_at(&self, i: usize) -> (r: &String)
        requires
            i < self.key_seq().len(),
        ensures
            r@ == self.value_seq()[i as int],
    {
        proof {
            use_type_invariant(self);
        }
        &self.values[i]
    }

    /// The value stored under the name with these characters.
    pub fn get_chars(&self, key: &[char]) -> (r: Option<&String>)
        ensures
            r is Some <==> self.view().contains_key(key@),
            r matches Some(v) ==> v@ == self.view()[key@],
    {
        proof {
            use_type_invariant(self);
            self.lemma_view();
        }
        let i = lower_bound(&self.keys, key);
        if i < self.keys.len() && chars_eq(self.keys[i].as_slice(), key) {
            assert(self.key_seq()[i as int] == key@);
            return Some(&self.values[i]);
        }
        proof {
            let e = self.key_seq();
            if self.view().contains_key(key@) {
                let k = choose|k: int| 0 <= k < e.len() && e[k] == key@;
                if k < i {
                    assert(lex_lt(self.keys@[k]@, key@));
                    lemma_lex_irreflexive(key@);
                } else if k > i {
                    assert(lex_lt(e[i as int], e[k]));
                    lemma_lex_total(e[i as int], key@);
                }
            }
        }
        None
    }

    /// Stores `value` under the name with these characters, replacing any
    /// earlier value.
    pub fn insert_chars(&mut self, key: Vec<char>, value: String)
        ensures
            final(self).view() == old(self).view().insert(key@, value@),
    {
        proof {
            use_type_invariant(&*self);
            self.lemma_view();
        }
        let ghost e = self.key_seq();
        let ghost old_map = self.view();
        let ghost ok = self.keys@;
        let ghost ov = self.values@;
        let ghost kv = key@;
        let ghost vv = value@;
        let i = lower_bound(&self.keys, key.as_slice());
        let exists = i < self.keys.len() && chars_eq(self.keys[i].as_slice(), key.as_slice());
        let mut taken = NameMap::new();
        std::mem::swap(&mut taken, self);
        proof {
            use_type_invariant(&taken);
        }
        let NameMap { mut keys, mut values } = taken;
        if exists {
            values.set(i, value);
            proof {
                lemma_keys_distinct(keys@);
                crate::string_map::lemma_entries_view(keys@, values@);
                let nm = crate::string_map::entries_view(keys@, values@);
                assert(nm =~= old_map.insert(kv, vv)) by {
                    assert forall|k: Seq<char>| #[trigger] nm.contains_key(k) <==> old_map.insert(kv, vv).contains_key(k) by {
                        if nm.contains_key(k) {
                            let j = choose|j: int| 0 <= j < keys@.len() && keys@[j]@ == k;
                            assert(e[j] == k);
                            assert(old_map.contains_key(k));
                        }
                        if old_map.contains_key(k) {
                            assert(e.contains(k));
                            let j = choose|j: int| 0 <= j < e.len() && e[j] == k;
                            assert(keys@[j]@ == k);
                        }
                    }
                    assert forall|k: Seq<char>| nm.contains_key(k) implies #[trigger] nm[k] == old_map.insert(kv, vv)[k] by {
                        let j = choose|j: int| 0 <= j < keys@.len() && keys@[j]@ == k;
                        if j != i {
                            assert(e[j] == k);
                            assert(old_map[e[j]] == ov[j]@);
                        }
                    }
                }
            }
            *self = NameMap { keys, values };
        } else {
            keys.insert(i, key);
            values.insert(i, value);
            proof {
                let ne = char_views(keys@);
                assert(ne =~= e.insert(i as int, kv));
                if i < e.len() {
                    lemma_lex_total(e[i as int], kv);
                }
                assert forall|a: int, b: int| 0 <= a < b < ne.len() implies lex_lt(#[trigger] ne[a], #[trigger] ne[b]) by {
                    if b < i {
                    } else if b == i {
                        assert(lex_lt(ok[a]@, kv));
                    } else if a == i {
                        if b > i + 1 {
                            assert(lex_lt(e[i as int], e[b - 1]));
                            lemma_lex_transitive(kv, e[i as int], e[b - 1]);
                        }
                    } else if a < i {
                        if b == i + 1 {
                            assert(lex_lt(e[a], kv));
                            lemma_lex_transitive(e[a], kv, e[i as int]);
                        } else {
                            assert(lex_lt(e[a], e[b - 1]));
                        }
                    } else {
                        assert(lex_lt(e[a - 1], e[b - 1]));
                    }
                }
                lemma_keys_distinct(keys@);
                crate::string_map::lemma_entries_view(keys@, values@);
                let nm = crate::string_map::entries_view(keys@, values@);
                assert(!old_map.contains_key(kv)) by {
                    if old_map.contains_key(kv) {
                        let k = choose|k: int| 0 <= k < e.len() && e[k] == kv;
                        if k < i {
                            assert(lex_lt(ok[k]@, kv));
                            lemma_lex_irreflexive(kv);
                        } else if k > i {
                            assert(lex_lt(e[i as int], e[k]));
                            lemma_lex_total(e[i as int], kv);
                        }
                    }
                }
                assert(nm =~= old_map.insert(kv, vv)) by {
                    assert forall|k: Seq<char>| #[trigger] nm.contains_key(k) <==> old_map.insert(kv, vv).contains_key(k) by {
                        if nm.contains_key(k) && k != kv {
                            let j = choose|j: int| 0 <= j < keys@.len() && keys@[j]@ == k;
                            if j < i {
                                assert(e[j] == k);
                            } else {
                                assert(e[j - 1] == k);
                            }
                            assert(e.contains(k));
                        }
                        if old_map.contains_key(k) {
                            assert(e.contains(k));
                            let j = choose|j: int| 0 <= j < e.len() && e[j] == k;
                            if j < i {
                                assert(keys@[j]@ == k);
                            } else {
                                assert(keys@[j + 1]@ == k);
                            }
                        }
                        if k == kv {
                            assert(keys@[i as int]@ == k);
                        }
                    }
                    assert forall|k: Seq<char>| nm.contains_key(k) implies #[trigger] nm[k] == old_map.insert(kv, vv)[k] by {
                        let j = choose|j: int| 0 <= j < keys@.len() && keys@[j]@ == k;
                        if j < i {
                            assert(e[j] == k);
                            assert(old_map[e[j]] == ov[j]@);
                        } else if j > i {
                            assert(e[j - 1] == k);
                            assert(old_map[e[j - 1]] == ov[j - 1]@);
                        }
                    }
                }
            }
            *self = NameMap { keys, values };
        }
    }
}

} // verus!
