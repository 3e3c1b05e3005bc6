use vstd::prelude::*;

verus! {

/// A map keyed by strings, kept as a list of entries in insertion order.
///
/// No two entries share a key (see `wf`). Replacing the value of a key keeps
/// the entry where it stood; a new key is appended.
#[derive(Debug)]
pub struct StrMap<V> {
    pub(crate) entries: Vec<(String, V)>,
}

/// A value whose equality is that of its view.
pub trait ViewEq: View + Sized {
    fn view_eq(&self, other: &Self) -> (r: bool)
        ensures
            r == (self@ == other@),
    ;
}

impl ViewEq for String {
    fn view_eq(&self, other: &Self) -> (r: bool) {
        *self == *other
    }
}

/// The entries as pairs of views.
pub open spec fn entry_views<V: View>(s: Seq<(String, V)>) -> Seq<(Seq<char>, V::V)> {
    s.map_values(|e: (String, V)| (e.0@, e.1@))
}

/// Each entry of `a` has an equal entry in `b`.
pub open spec fn entries_covered<V: View>(a: Seq<(String, V)>, b: Seq<(String, V)>) -> bool {
    forall|i: int| 0 <= i < a.len() ==> entry_views(b).contains(#[trigger] entry_views(a)[i])
}

/// Whether `s` holds an entry equal to `(k, v)`.
fn has_entry<V: ViewEq>(s: &Vec<(String, V)>, k: &String, v: &V) -> (r: bool)
    ensures
        r == entry_views(s@).contains((k@, v@)),
{
    let n = s.len();
    for i in 0..n
        invariant
            n == s@.len(),
            forall|j: int| 0 <= j < i ==> entry_views(s@)[j] != (k@, v@),
    {
        let same_key = s[i].0 == *k;
        if same_key && s[i].1.view_eq(v) {
            proof {
                assert(entry_views(s@)[i as int] == (k@, v@));
            }
            return true;
        }
    }
    false
}

/// Whether each entry of `a` has an equal entry in `b`.
fn covers<V: ViewEq>(a: &Vec<(String, V)>, b: &Vec<(String, V)>) -> (r: bool)
    ensures
        r == entries_covered(a@, b@),
{
    let n = a.len();
    for i in 0..n
        invariant
            n == a@.len(),
            forall|j: int| 0 <= j < i ==> entry_views(b@).contains(#[trigger] entry_views(a@)[j]),
    {
        if !has_entry(b, &a[i].0, &a[i].1) {
            proof {
                assert(entry_views(a@)[i as int] == (a@[i as int].0@, a@[i as int].1@));
            }
            return false;
        }
    }
    true
}

/// Two maps are equal where they hold the same entries, in whatever order.
impl<V: ViewEq> PartialEq for StrMap<V> {
    fn eq(&self, other: &Self) -> (r: bool) {
        covers(&self.entries, &other.entries) && covers(&other.entries, &self.entries)
    }
}

impl<V: ViewEq> Eq for StrMap<V> {
}

impl<V: ViewEq> vstd::std_specs::cmp::PartialEqSpecImpl for StrMap<V> {
    open spec fn obeys_eq_spec() -> bool {
        true
    }

    open(crate) spec fn eq_spec(&self, other: &StrMap<V>) -> bool {
        entries_covered(self.entries@, other.entries@) && entries_covered(other.entries@, self.entries@)
    }
}

/// The position of the entry whose key is `k`, where there is one.
pub open spec fn key_pos<V>(s: Seq<(String, V)>, k: Seq<char>) -> int {
    choose|i: int| 0 <= i < s.len() && (#[trigger] s[i]).0@ == k
}

/// Some entry has key `k`.
pub open spec fn has_key<V>(s: Seq<(String, V)>, k: Seq<char>) -> bool {
    exists|i: int| 0 <= i < s.len() && (#[trigger] s[i]).0@ == k
}

/// No two entries share a key.
pub open spec fn keys_distinct<V>(s: Seq<(String, V)>) -> bool {
    forall|i: int, j: int|
        0 <= i < s.len() && 0 <= j < s.len() && (#[trigger] s[i]).0@ == (#[trigger] s[j]).0@
            ==> i == j
}

/// The map that a list of entries with distinct keys stands for.
pub open spec fn entries_map<V: View>(s: Seq<(String, V)>) -> Map<Seq<char>, V::V> {
    Map::new(|k: Seq<char>| has_key(s, k), |k: Seq<char>| s[key_pos(s, k)].1@)
}

/// In a list with distinct keys, the entry at `i` is the one found for its key.
pub proof fn lemma_key_pos<V>(s: Seq<(String, V)>, i: int)
    requires
        keys_distinct(s),
        0 <= i < s.len(),
    ensures
        has_key(s, s[i].0@),
        key_pos(s, s[i].0@) == i,
{
    let k = s[i].0@;
    assert(has_key(s, k));
    let j = key_pos(s, k);
    assert(s[j].0@ == s[i].0@);
}

/// Two lists with the same keys at the same positions and distinct keys map
/// each key as their entries at its position do.
proof fn lemma_same_keys<V: View>(s: Seq<(String, V)>, t: Seq<(String, V)>, k: Seq<char>)
    requires
        keys_distinct(s),
        s.len() == t.len(),
        forall|j: int| 0 <= j < s.len() ==> (#[trigger] s[j]).0@ == t[j].0@,
    ensures
        keys_distinct(t),
        has_key(s, k) <==> has_key(t, k),
        has_key(s, k) ==> key_pos(s, k) == key_pos(t, k),
{
    assert forall|i: int, j: int|
        0 <= i < t.len() && 0 <= j < t.len() && (#[trigger] t[i]).0@ == (#[trigger] t[j]).0@
        implies i == j by {
        assert(s[i].0@ == s[j].0@);
    }
    if has_key(s, k) {
        let p = key_pos(s, k);
        assert(t[p].0@ == k);
        lemma_key_pos(s, p);
        lemma_key_pos(t, p);
    }
    if has_key(t, k) {
        let p = key_pos(t, k);
        assert(s[p].0@ == k);
    }
}

/// Giving the entry at `i` a new value maps its key to that value.
proof fn lemma_update_value<V: View>(s: Seq<(String, V)>, i: int, v: V)
    requires
        keys_distinct(s),
        0 <= i < s.len(),
    ensures
        keys_distinct(s.update(i, (s[i].0, v))),
        entries_map(s.update(i, (s[i].0, v))) == entries_map(s).insert(s[i].0@, v@),
{
    let t = s.update(i, (s[i].0, v));
    let m = entries_map(s).insert(s[i].0@, v@);
    lemma_same_keys(s, t, s[i].0@);
    lemma_key_pos(s, i);
    lemma_key_pos(t, i);
    assert forall|k: Seq<char>| #[trigger] entries_map(t).contains_key(k) <==> m.contains_key(k) by {
        lemma_same_keys(s, t, k);
    }
    assert forall|k: Seq<char>| #[trigger] entries_map(t).contains_key(k) implies entries_map(t)[k] == m[k] by {
        lemma_same_keys(s, t, k);
        if k != s[i].0@ {
            let p = key_pos(s, k);
            assert(t[p] == s[p]);
        }
    }
    assert(entries_map(t) =~= m);
}

/// For lists without repeated keys, holding the same entries is having the
/// same map.
pub proof fn lemma_same_entries_same_map<V: View>(a: Seq<(String, V)>, b: Seq<(String, V)>)
    requires
        keys_distinct(a),
        keys_distinct(b),
    ensures
        (entries_covered(a, b) && entries_covered(b, a)) <==> entries_map(a) == entries_map(b),
{
    if entries_covered(a, b) && entries_covered(b, a) {
        lemma_covered_submap(a, b);
        lemma_covered_submap(b, a);
        assert(entries_map(a) =~= entries_map(b));
    }
    if entries_map(a) == entries_map(b) {
        lemma_submap_covered(a, b);
        lemma_submap_covered(b, a);
    }
}

/// Where each entry of `a` has an equal one in `b`, `b` maps each key of `a`
/// as `a` does.
proof fn lemma_covered_submap<V: View>(a: Seq<(String, V)>, b: Seq<(String, V)>)
    requires
        keys_distinct(a),
        keys_distinct(b),
        entries_covered(a, b),
    ensures
        forall|k: Seq<char>|
            #[trigger] entries_map(a).contains_key(k) ==> entries_map(b).contains_key(k)
                && entries_map(b)[k] == entries_map(a)[k],
{
    assert forall|k: Seq<char>| #[trigger] entries_map(a).contains_key(k) implies entries_map(
        b,
    ).contains_key(k) && entries_map(b)[k] == entries_map(a)[k] by {
        let i = key_pos(a, k);
        lemma_key_pos(a, i);
        assert(entry_views(b).contains(entry_views(a)[i]));
        let j = choose|j: int| 0 <= j < b.len() && entry_views(b)[j] == entry_views(a)[i];
        assert(b[j].0@ == k);
        lemma_key_pos(b, j);
    }
}

/// Where `b` maps each key of `a` as `a` does, each entry of `a` has an
/// equal one in `b`.
proof fn lemma_submap_covered<V: View>(a: Seq<(String, V)>, b: Seq<(String, V)>)
    requires
        keys_distinct(a),
        keys_distinct(b),
        entries_map(a) == entries_map(b),
    ensures
        entries_covered(a, b),
{
    assert forall|i: int| 0 <= i < a.len() implies entry_views(b).contains(
        #[trigger] entry_views(a)[i],
    ) by {
        lemma_key_pos(a, i);
        let k = a[i].0@;
        assert(entries_map(a).contains_key(k));
        assert(entries_map(b).contains_key(k));
        assert(has_key(b, k));
        let j = key_pos(b, k);
        assert(0 <= j < b.len() && b[j].0@ == k);
        assert(entries_map(b)[k] == b[j].1@);
        assert(entries_map(a)[k] == a[i].1@);
        assert(entry_views(b)[j] == entry_views(a)[i]);
    }
}

impl<V: View> View for StrMap<V> {
    type V = Map<Seq<char>, V::V>;

    closed spec fn view(&self) -> Map<Seq<char>, V::V> {
        entries_map(self.entries@)
    }
}

impl<V: View> StrMap<V> {
    /// No key is listed twice.
    pub open(crate) spec fn wf(&self) -> bool {
        keys_distinct(self.entries@)
    }

    /// The entries in the order in which their keys were first inserted.
    pub open(crate) spec fn entries(&self) -> Seq<(String, V)> {
        self.entries@
    }

    /// A map with no key.
    pub fn new() -> (r: Self)
        ensures
            r.wf(),
            r@ == Map::<Seq<char>, V::V>::empty(),
            r.entries().len() == 0,
    {
        let r = StrMap { entries: Vec::new() };
        proof {
            assert(r@ =~= Map::<Seq<char>, V::V>::empty());
        }
        r
    }

    /// The position of the entry for `key`, if there is one.
    pub fn find(&self, key: &String) -> (r: Option<usize>)
        requires
            self.wf(),
        ensures
            r is Some <==> self@.contains_key(key@),
            r matches Some(i) ==> i < self.entries().len() && self.entries()[i as int].0@ == key@,
    {
        let mut i: usize = 0;
        while i < self.entries.len()
            invariant
                self.wf(),
                i <= self.entries@.len(),
                forall|j: int| 0 <= j < i ==> (#[trigger] self.entries@[j]).0@ != key@,
            decreases self.entries@.len() - i,
        {
            if self.entries[i].0 == *key {
                proof {
                    lemma_key_pos(self.entries@, i as int);
                }
                return Some(i);
            }
            i += 1;
        }
        None
    }

    /// The value of `key`, if it has one.
    pub fn get(&self, key: &String) -> (r: Option<&V>)
        requires
            self.wf(),
        ensures
            r is Some <==> self@.contains_key(key@),
            r matches Some(v) ==> v@ == self@[key@],
    {
        match self.find(key) {
            Some(i) => {
                proof {
                    lemma_key_pos(self.entries@, i as int);
                }
                Some(&self.entries[i].1)
            },
            None => None,
        }
    }

    /// The value of `key`, to change in place, if it has one.
    pub fn get_mut(&mut self, key: &String) -> (r: Option<&mut V>)
        requires
            old(self).wf(),
        ensures
            r is Some <==> old(self)@.contains_key(key@),
            r matches Some(v) ==> v@ == old(self)@[key@],
            final(self).wf(),
            r is None ==> *final(self) == *old(self),
            r is Some ==> final(self)@ == old(self)@.insert(key@, final(r->0)@),
            r is Some ==> final(self).entries().len() == old(self).entries().len(),
    {
        match self.find(key) {
            Some(i) => {
                proof {
                    lemma_key_pos(self.entries@, i as int);
                }
                let ghost s = self.entries@;
                let e = &mut self.entries[i];
                let v = &mut e.1;
                proof {
                    lemma_update_value(s, i as int, *final(v));
                }
                Some(v)
            },
            None => None,
        }
    }

    /// Maps `key` to `val`: a present key keeps its entry's place.
    pub fn insert(&mut self, key: String, val: V)
        requires
            old(self).wf(),
        ensures
            final(self).wf(),
            final(self)@ == old(self)@.insert(key@, val@),
    {
        match self.find(&key) {
            Some(i) => {
                let ghost s = self.entries@;
                proof {
                    lemma_key_pos(s, i as int);
                }
                proof {
                    lemma_update_value(s, i as int, val);
                }
                self.entries[i].1 = val;
                proof {
                    assert(self.entries@ == s.update(i as int, (s[i as int].0, val)));
                }
            },
            None => {
                let ghost s = self.entries@;
                self.entries.push((key, val));
                proof {
                    let t = self.entries@;
                    assert forall|a: int, b: int|
                        0 <= a < t.len() && 0 <= b < t.len() && (#[trigger] t[a]).0@ == (#[trigger] t[b]).0@
                        implies a == b by {
                        if a < s.len() && b < s.len() {
                            assert(s[a] == t[a] && s[b] == t[b]);
                        } else if a < s.len() {
                            assert(s[a] == t[a]);
                        } else if b < s.len() {
                            assert(s[b] == t[b]);
                        }
                    }
                    lemma_key_pos(t, s.len() as int);
                    assert forall|k: Seq<char>| #[trigger] has_key(t, k) <==> has_key(s, k) || k == key@ by {
                        if has_key(s, k) {
                            let p = key_pos(s, k);
                            assert(t[p] == s[p]);
                        }
                        if has_key(t, k) && k != key@ {
                            let p = key_pos(t, k);
                            assert(t[p] == s[p]);
                        }
                    }
                    assert forall|k: Seq<char>| has_key(s, k) implies #[trigger] key_pos(t, k) == key_pos(s, k) by {
                        let p = key_pos(s, k);
                        lemma_key_pos(s, p);
                        assert(t[p] == s[p]);
                        lemma_key_pos(t, p);
                    }
                    assert(self@ =~= old(self)@.insert(key@, val@));
                }
            },
        }
    }

    /// Drops the entry for `key`, handing back its value; the others keep
    /// their order.
    pub fn remove(&mut self, key: &String) -> (r: Option<V>)
        requires
            old(self).wf(),
        ensures
            final(self).wf(),
            final(self)@ == old(self)@.remove(key@),
            r is Some <==> old(self)@.contains_key(key@),
            r matches Some(v) ==> v@ == old(self)@[key@],
    {
        match self.find(key) {
            Some(i) => {
                let ghost s = self.entries@;
                proof {
                    lemma_key_pos(s, i as int);
                }
                let (_, v) = self.entries.remove(i);
                proof {
                    let t = self.entries@;
                    assert(t == s.remove(i as int));
                    assert forall|a: int| 0 <= a < t.len() implies #[trigger] t[a] == s[if a < i { a } else { a + 1 }] by {}
                    assert forall|a: int, b: int|
                        0 <= a < t.len() && 0 <= b < t.len() && (#[trigger] t[a]).0@ == (#[trigger] t[b]).0@
                        implies a == b by {
                        let a2 = if a < i { a } else { a + 1 };
                        let b2 = if b < i { b } else { b + 1 };
                        assert(t[a] == s[a2] && t[b] == s[b2]);
                    }
                    assert forall|k: Seq<char>| #[trigger] has_key(t, k) <==> has_key(s, k) && k != key@ by {
                        if has_key(s, k) && k != key@ {
                            let p = key_pos(s, k);
                            let q = if p < i { p } else { p - 1 };
                            assert(t[q] == s[p]);
                        }
                        if has_key(t, k) {
                            let p = key_pos(t, k);
                            let from_pos = if p < i { p } else { p + 1 };
                            assert(t[p] == s[from_pos]);
                            lemma_key_pos(s, from_pos);
                        }
                    }
                    assert forall|k: Seq<char>| has_key(t, k) implies #[trigger] t[key_pos(t, k)].1 == s[key_pos(s, k)].1 by {
                        let p = key_pos(t, k);
                        let from_pos = if p < i { p } else { p + 1 };
                        assert(t[p] == s[from_pos]);
                        lemma_key_pos(s, from_pos);
                    }
                    assert(self@ =~= old(self)@.remove(key@));
                }
                Some(v)
            },
            None => {
                proof {
                    assert(self@ =~= old(self)@.remove(key@));
                }
                None
            },
        }
    }
}

} // verus!
