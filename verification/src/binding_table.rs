//! The flat table of currently visible bindings.
//!
//! Rather than one symbol table per scope, the extractor keeps a single flat
//! mapping from binding name to declaration range, together with a small undo
//! log per scope. The table is a vector of entries with pairwise distinct
//! keys; its mathematical view is the `Map` from names to ranges.

use vstd::prelude::*;
use crate::binding::BindingName;
use crate::syntax::TextRange;

verus! {

/// The currently visible bindings and the range each was declared at.
pub struct BindingTable {
    entries: Vec<(BindingName, TextRange)>,
}

/// The map an entry sequence denotes: later entries win, though a
/// well-formed table never holds a key twice.
pub open spec fn as_map(s: Seq<(BindingName, TextRange)>) -> Map<BindingName, TextRange>
    decreases s.len(),
{
    if s.len() == 0 {
        Map::empty()
    } else {
        as_map(s.drop_last()).insert(s.last().0, s.last().1)
    }
}

/// No key occurs twice.
pub open spec fn unique_keys(s: Seq<(BindingName, TextRange)>) -> bool {
    forall|i: int, j: int| 0 <= i < j < s.len() ==> s[i].0 != s[j].0
}

/// A key is in the map exactly when some entry carries it.
proof fn lemma_as_map_contains(s: Seq<(BindingName, TextRange)>, k: BindingName)
    ensures
        as_map(s).contains_key(k) <==> exists|i: int| 0 <= i < s.len() && s[i].0 == k,
    decreases s.len(),
{
    if s.len() > 0 {
        lemma_as_map_contains(s.drop_last(), k);
        if s.last().0 == k {
            assert(s[s.len() - 1].0 == k);
        } else if exists|i: int| 0 <= i < s.len() - 1 && s.drop_last()[i].0 == k {
            let i = choose|i: int| 0 <= i < s.len() - 1 && s.drop_last()[i].0 == k;
            assert(s[i].0 == k);
        } else if exists|i: int| 0 <= i < s.len() && s[i].0 == k {
            let i = choose|i: int| 0 <= i < s.len() && s[i].0 == k;
            assert(s.drop_last()[i].0 == k);
        }
    }
}

/// With distinct keys, each entry gives its key's value.
proof fn lemma_as_map_value(s: Seq<(BindingName, TextRange)>, i: int)
    requires
        unique_keys(s),
        0 <= i < s.len(),
    ensures
        as_map(s).contains_key(s[i].0),
        as_map(s)[s[i].0] == s[i].1,
    decreases s.len(),
{
    lemma_as_map_contains(s, s[i].0);
    if i < s.len() - 1 {
        assert(s.drop_last()[i] == s[i]);
        lemma_as_map_value(s.drop_last(), i);
        assert(s.last().0 != s[i].0);
    }
}

/// Removing the entry of key `k` removes exactly `k` from the map.
proof fn lemma_as_map_remove(s: Seq<(BindingName, TextRange)>, i: int)
    requires
        unique_keys(s),
        0 <= i < s.len(),
    ensures
        as_map(s.remove(i)) == as_map(s).remove(s[i].0),
    decreases s.len(),
{
    let k = s[i].0;
    let s2 = s.remove(i);
    assert(forall|j: int| 0 <= j < i ==> s2[j] == s[j]);
    assert(forall|j: int| i <= j < s2.len() ==> s2[j] == s[j + 1]);
    assert forall|k2: BindingName|
        as_map(s2).contains_key(k2) == as_map(s).remove(k).contains_key(k2) by {
        lemma_as_map_contains(s2, k2);
        lemma_as_map_contains(s, k2);
        if k2 == k {
            assert(forall|j: int| 0 <= j < s2.len() ==> s2[j].0 != k);
        } else {
            if exists|j: int| 0 <= j < s2.len() && s2[j].0 == k2 {
                let j = choose|j: int| 0 <= j < s2.len() && s2[j].0 == k2;
                if j < i {
                    assert(s[j].0 == k2);
                } else {
                    assert(s[j + 1].0 == k2);
                }
            }
            if exists|j: int| 0 <= j < s.len() && s[j].0 == k2 {
                let j = choose|j: int| 0 <= j < s.len() && s[j].0 == k2;
                if j < i {
                    assert(s2[j].0 == k2);
                } else {
                    assert(s2[j - 1].0 == k2);
                }
            }
        }
    }
    assert forall|k2: BindingName| #[trigger]
        as_map(s2).contains_key(k2) implies as_map(s2)[k2] == as_map(s).remove(k)[k2] by {
        lemma_as_map_contains(s2, k2);
        let j = choose|j: int| 0 <= j < s2.len() && s2[j].0 == k2;
        lemma_as_map_value(s2, j);
        if j < i {
            lemma_as_map_value(s, j);
        } else {
            lemma_as_map_value(s, j + 1);
        }
    }
    assert(as_map(s2) =~= as_map(s).remove(k));
}

impl View for BindingTable {
    type V = Map<BindingName, TextRange>;

    closed spec fn view(&self) -> Map<BindingName, TextRange> {
        as_map(self.entries@)
    }
}

impl BindingTable {
    /// The table never holds a key twice.
    pub closed spec fn wf(self) -> bool {
        unique_keys(self.entries@)
    }

    /// An empty table.
    pub fn new() -> (r: BindingTable)
        ensures
            r.wf(),
            r@ == Map::<BindingName, TextRange>::empty(),
    {
        BindingTable { entries: Vec::new() }
    }

    /// The declaration range the name is currently bound to, if any.
    pub fn get(&self, k: BindingName) -> (r: Option<TextRange>)
        requires
            self.wf(),
        ensures
            r matches Some(v) ==> self@.contains_key(k) && self@[k] == v,
            r is None ==> !self@.contains_key(k),
    {
        let n = self.entries.len();
        for i in 0..n
            invariant
                n == self.entries.len(),
                self.wf(),
                forall|j: int| 0 <= j < i ==> self.entries@[j].0 != k,
        {
            if self.entries[i].0 == k {
                proof {
                    lemma_as_map_value(self.entries@, i as int);
                }
                return Some(self.entries[i].1);
            }
        }
        proof {
            lemma_as_map_contains(self.entries@, k);
        }
        None
    }

    /// Whether the name is currently bound.
    pub fn contains(&self, k: BindingName) -> (r: bool)
        requires
            self.wf(),
        ensures
            r == self@.contains_key(k),
    {
        self.get(k).is_some()
    }

    /// Unbinds the name, returning the range it was bound to.
    pub fn remove(&mut self, k: BindingName) -> (r: Option<TextRange>)
        requires
            old(self).wf(),
        ensures
            final(self).wf(),
            final(self)@ == old(self)@.remove(k),
            r matches Some(v) ==> old(self)@.contains_key(k) && old(self)@[k] == v,
            r is None ==> !old(self)@.contains_key(k),
            r is None ==> final(self)@ == old(self)@,
    {
        let n = self.entries.len();
        for i in 0..n
            invariant
                n == self.entries.len(),
                self == old(self),
                self.wf(),
                forall|j: int| 0 <= j < i ==> self.entries@[j].0 != k,
        {
            if self.entries[i].0 == k {
                let entry = self.entries.remove(i);
                proof {
                    lemma_as_map_value(old(self).entries@, i as int);
                    lemma_as_map_remove(old(self).entries@, i as int);
                }
                return Some(entry.1);
            }
        }
        proof {
            lemma_as_map_contains(self.entries@, k);
            assert(self@ =~= self@.remove(k));
        }
        None
    }

    /// Binds the name to a range, returning the range it was bound to before,
    /// if any: the caller records that shadowed entry and restores it when
    /// the shadowing scope closes.
    pub fn insert(&mut self, k: BindingName, v: TextRange) -> (r: Option<TextRange>)
        requires
            old(self).wf(),
        ensures
            final(self).wf(),
            final(self)@ == old(self)@.insert(k, v),
            r matches Some(x) ==> old(self)@.contains_key(k) && old(self)@[k] == x,
            r is None ==> !old(self)@.contains_key(k),
    {
        let prev = self.remove(k);
        proof {
            lemma_as_map_contains(self.entries@, k);
        }
        let ghost pre = self.entries@;
        self.entries.push((k, v));
        proof {
            assert(self.entries@.drop_last() =~= pre);
            assert(self@ == as_map(pre).insert(k, v));
            assert(old(self)@.remove(k).insert(k, v) =~= old(self)@.insert(k, v));
        }
        prev
    }
}

} // verus!
