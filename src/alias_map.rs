use vstd::prelude::*;
use crate::index::NodeIndex;
use crate::str_map::{StrMap, ViewEq};

verus! {

/// Each alias with the positions registered under it, in order of registration.
#[derive(Debug, PartialEq, Eq)]
pub struct AliasMap {
    pub(crate) inner: StrMap<Vec<NodeIndex>>,
}

impl View for AliasMap {
    type V = Map<Seq<char>, Seq<NodeIndex>>;

    open(crate) spec fn view(&self) -> Map<Seq<char>, Seq<NodeIndex>> {
        self.inner@
    }
}

/// The list registered under `key` once `value` has been added to it.
pub open spec fn appended(m: Map<Seq<char>, Seq<NodeIndex>>, key: Seq<char>, value: NodeIndex) -> Seq<
    NodeIndex,
> {
    if m.contains_key(key) {
        m[key].push(value)
    } else {
        seq![value]
    }
}

impl ViewEq for Vec<NodeIndex> {
    fn view_eq(&self, other: &Self) -> (r: bool) {
        if self.len() != other.len() {
            return false;
        }
        let n = self.len();
        for i in 0..n
            invariant
                n == self@.len(),
                n == other@.len(),
                forall|j: int| 0 <= j < i ==> self@[j] == other@[j],
        {
            if self[i] != other[i] {
                return false;
            }
        }
        proof {
            assert(self@ =~= other@);
        }
        true
    }
}

/// `s` with every `from` replaced by `to`.
pub open spec fn replaced(s: Seq<NodeIndex>, from: NodeIndex, to: NodeIndex) -> Seq<NodeIndex> {
    s.map_values(|x: NodeIndex| if x == from { to } else { x })
}

/// Holds of every position but `idx`.
pub open spec fn other_than(idx: NodeIndex) -> spec_fn(NodeIndex) -> bool {
    |x: NodeIndex| x != idx
}

/// `s` without any `idx`.
pub open spec fn without(s: Seq<NodeIndex>, idx: NodeIndex) -> Seq<NodeIndex> {
    s.filter(other_than(idx))
}

/// The positions of `v` other than `idx`, in their order.
fn filter_out(v: &Vec<NodeIndex>, idx: NodeIndex) -> (r: Vec<NodeIndex>)
    ensures
        r@ == without(v@, idx),
{
    let mut kept: Vec<NodeIndex> = Vec::new();
    let n = v.len();
    for i in 0..n
        invariant
            n == v@.len(),
            kept@ == without(v@.subrange(0, i as int), idx),
    {
        proof {
            assert(v@.subrange(0, i + 1) =~= v@.subrange(0, i as int).push(v@[i as int]));
            v@.subrange(0, i as int).lemma_filter_push(v@[i as int], other_than(idx));
        }
        let same = v[i] == idx;
        if !same {
            kept.push(v[i]);
        }
    }
    proof {
        assert(v@.subrange(0, n as int) =~= v@);
    }
    kept
}

/// Replaces each `from` in `v` by `to`.
fn replace_all(v: &mut Vec<NodeIndex>, from: NodeIndex, to: NodeIndex)
    ensures
        final(v)@ == replaced(old(v)@, from, to),
{
    let n = v.len();
    for i in 0..n
        invariant
            n == v@.len(),
            n == old(v)@.len(),
            forall|j: int| 0 <= j < i ==> v@[j] == (if old(v)@[j] == from { to } else { old(v)@[j] }),
            forall|j: int| i <= j < n ==> v@[j] == old(v)@[j],
    {
        if v[i] == from {
            v[i] = to;
        }
    }
    proof {
        assert(v@ =~= replaced(old(v)@, from, to));
    }
}

impl AliasMap {
    /// No alias is listed twice.
    pub open(crate) spec fn wf(&self) -> bool {
        self.inner.wf()
    }

    /// A map with no alias.
    pub fn new() -> (r: AliasMap)
        ensures
            r.wf(),
            r@ == Map::<Seq<char>, Seq<NodeIndex>>::empty(),
    {
        AliasMap { inner: StrMap::new() }
    }

    /// Appends `value` to the list of `key`, starting the list if there is none.
    pub fn insert(&mut self, key: &str, value: NodeIndex)
        requires
            old(self).wf(),
        ensures
            final(self).wf(),
            final(self)@ == old(self)@.insert(key@, appended(old(self)@, key@, value)),
    {
        let k = key.to_owned();
        match self.inner.get_mut(&k) {
            Some(list) => {
                list.push(value);
            },
            None => {
                let mut list = Vec::new();
                list.push(value);
                self.inner.insert(k, list);
            },
        }
    }

    /// The list of `key`, if it has one.
    pub fn get(&self, key: &str) -> (r: Option<&Vec<NodeIndex>>)
        requires
            self.wf(),
        ensures
            r is Some <==> self@.contains_key(key@),
            r matches Some(v) ==> v@ == self@[key@],
    {
        let k = key.to_owned();
        self.inner.get(&k)
    }

    /// Drops `key` and hands back its list.
    pub fn remove_all(&mut self, key: &str) -> (r: Option<Vec<NodeIndex>>)
        requires
            old(self).wf(),
        ensures
            final(self).wf(),
            final(self)@ == old(self)@.remove(key@),
            r is Some <==> old(self)@.contains_key(key@),
            r matches Some(v) ==> v@ == old(self)@[key@],
    {
        let k = key.to_owned();
        self.inner.remove(&k)
    }

    /// Drops `idx` from the list of `key`; the other positions stay. `None`,
    /// with nothing changed, where `key` has no list.
    pub fn remove_id_at(&mut self, key: &str, idx: &NodeIndex) -> (r: Option<()>)
        requires
            old(self).wf(),
        ensures
            final(self).wf(),
            r is Some <==> old(self)@.contains_key(key@),
            old(self)@.contains_key(key@) ==> final(self)@ == old(self)@.insert(
                key@,
                without(old(self)@[key@], *idx),
            ),
            !old(self)@.contains_key(key@) ==> final(self)@ == old(self)@,
    {
        let k = key.to_owned();
        match self.inner.get_mut(&k) {
            Some(list) => {
                let kept = filter_out(list, *idx);
                *list = kept;
                Some(())
            },
            None => None,
        }
    }

    /// Replaces each `old_idx` in the list of `key` by `new_idx`. `None`,
    /// with nothing changed, where `key` has no list.
    pub fn change_id_at(&mut self, key: &str, old_idx: &NodeIndex, new_idx: NodeIndex) -> (r: Option<
        (),
    >)
        requires
            old(self).wf(),
        ensures
            final(self).wf(),
            r is Some <==> old(self)@.contains_key(key@),
            old(self)@.contains_key(key@) ==> final(self)@ == old(self)@.insert(
                key@,
                replaced(old(self)@[key@], *old_idx, new_idx),
            ),
            !old(self)@.contains_key(key@) ==> final(self)@ == old(self)@,
    {
        let k = key.to_owned();
        match self.inner.get_mut(&k) {
            Some(list) => {
                replace_all(list, *old_idx, new_idx);
                Some(())
            },
            None => None,
        }
    }
}

} // verus!
