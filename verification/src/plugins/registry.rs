//! The plugin registry: one entry per type id, kept in type-id order, as a
//! sorted map does.

use vstd::prelude::*;
use crate::json::{insert_member, key_less, key_lt, keys_sorted, lemma_insert_member_sorted, member};
use crate::text::str_eq;

verus! {

/// Entries as pairs of type id and entry.
pub open spec fn keyed_view<E>(v: Seq<(String, E)>) -> Seq<(Seq<char>, E)> {
    v.map_values(|p: (String, E)| (p.0@, p.1))
}

/// The type ids of entries, in order.
pub open spec fn type_ids_of<E>(m: Seq<(Seq<char>, E)>) -> Seq<Seq<char>> {
    m.map_values(|p: (Seq<char>, E)| p.0)
}

/// Plugins by type id. Each type id is held once, and the entries are kept
/// in type-id order, so every listing comes out sorted.
pub struct PluginRegistry<E> {
    plugins: Vec<(String, E)>,
}

impl<E> View for PluginRegistry<E> {
    type V = Seq<(Seq<char>, E)>;

    closed spec fn view(&self) -> Seq<(Seq<char>, E)> {
        keyed_view(self.plugins@)
    }
}

impl<E> PluginRegistry<E> {
    /// The registry's invariant: type ids strictly increasing.
    pub open spec fn wf(&self) -> bool {
        keys_sorted(self@)
    }

    /// An empty registry.
    pub fn new() -> (r: Self)
        ensures
            r@ == Seq::<(Seq<char>, E)>::empty(),
            r.wf(),
    {
        let r = PluginRegistry { plugins: Vec::new() };
        proof {
            assert(r@ =~= Seq::<(Seq<char>, E)>::empty());
        }
        r
    }

    /// Where `type_id` belongs: the first position whose type id is equal
    /// or sorts after it.
    fn position(&self, type_id: &str) -> (i: usize)
        ensures
            i <= self@.len(),
            forall|j: int| 0 <= j < i ==> #[trigger] self@[j].0 != type_id@ && !key_lt(type_id@, self@[j].0),
            i < self@.len() ==> self@[i as int].0 == type_id@ || key_lt(type_id@, self@[i as int].0),
    {
        let mut i: usize = 0;
        while i < self.plugins.len() && !str_eq(self.plugins[i].0.as_str(), type_id)
            && !key_less(type_id, self.plugins[i].0.as_str())
            invariant
                i <= self.plugins@.len(),
                self@.len() == self.plugins@.len(),
                forall|k: int| 0 <= k < self.plugins@.len() ==> #[trigger] self@[k] == (self.plugins@[k].0@, self.plugins@[k].1),
                forall|j: int| 0 <= j < i ==> #[trigger] self@[j].0 != type_id@ && !key_lt(type_id@, self@[j].0),
            decreases self.plugins@.len() - i,
        {
            assert(self@[i as int] == (self.plugins@[i as int].0@, self.plugins@[i as int].1));
            i = i + 1;
        }
        proof {
            if i < self@.len() {
                assert(self@[i as int] == (self.plugins@[i as int].0@, self.plugins@[i as int].1));
            }
        }
        i
    }

    /// Adds an entry under its type id; an entry already there under that
    /// type id is replaced.
    pub fn insert(&mut self, type_id: String, entry: E)
        requires
            old(self).wf(),
        ensures
            final(self)@ == insert_member(old(self)@, type_id@, entry),
            final(self).wf(),
    {
        let ghost m = self@;
        proof {
            lemma_insert_member_sorted(m, type_id@, entry);
        }
        let i = self.position(type_id.as_str());
        let ghost rest = m.skip(i as int);
        let ghost want = insert_member(m, type_id@, entry);
        proof {
            lemma_insert_member_shape(m, i as int, type_id@, entry);
            if i < m.len() {
                assert(rest[0] == m[i as int]);
                assert(self@[i as int] == (self.plugins@[i as int].0@, self.plugins@[i as int].1));
            }
        }
        if i < self.plugins.len() && str_eq(self.plugins[i].0.as_str(), type_id.as_str()) {
            let ghost before = self.plugins@;
            self.plugins.set(i, (type_id, entry));
            proof {
                assert(rest[0].0 == self.plugins@[i as int].0@);
                assert(want =~= m.take(i as int) + (seq![(self.plugins@[i as int].0@, self.plugins@[i as int].1)] + rest.drop_first()));
                assert forall|k: int| 0 <= k < self.plugins@.len() implies #[trigger] self@[k] == want[k] by {
                    if k != i {
                        assert(self.plugins@[k] == before[k]);
                    }
                }
                assert(self@ =~= want);
            }
        } else {
            let ghost before = self.plugins@;
            self.plugins.insert(i, (type_id, entry));
            proof {
                if i < before.len() {
                    assert(rest[0] == m[i as int]);
                } else {
                    assert(rest.len() == 0);
                }
                assert(want =~= m.take(i as int) + (seq![(self.plugins@[i as int].0@, self.plugins@[i as int].1)] + rest));
                assert forall|k: int| 0 <= k < self.plugins@.len() implies #[trigger] self@[k] == want[k] by {
                    if k < i {
                        assert(self.plugins@[k] == before[k]);
                    } else if k > i {
                        assert(self.plugins@[k] == before[k - 1]);
                    }
                }
                assert(self@ =~= want);
            }
        }
    }

    /// Registers an entry unless its type id is taken: the first entry for a
    /// type id stays. Says whether the entry was added.
    pub fn register(&mut self, type_id: String, entry: E) -> (added: bool)
        requires
            old(self).wf(),
        ensures
            added == (member(old(self)@, type_id@) is None),
            final(self)@ == registered(old(self)@, type_id@, entry),
            final(self).wf(),
    {
        if self.get(type_id.as_str()).is_some() {
            false
        } else {
            self.insert(type_id, entry);
            true
        }
    }

    /// The entry under `type_id`, if any.
    pub fn get(&self, type_id: &str) -> (r: Option<&E>)
        ensures
            match r {
                Some(e) => member(self@, type_id@) == Some(*e),
                None => member(self@, type_id@) is None,
            },
    {
        let ghost m = self@;
        proof {
            assert(m.skip(0) =~= m);
        }
        let mut i: usize = 0;
        while i < self.plugins.len()
            invariant
                i <= self.plugins@.len(),
                m == self@,
                m.len() == self.plugins@.len(),
                forall|k: int| 0 <= k < self.plugins@.len() ==> #[trigger] m[k] == (self.plugins@[k].0@, self.plugins@[k].1),
                member(m, type_id@) == member(m.skip(i as int), type_id@),
            decreases self.plugins@.len() - i,
        {
            let ghost rest = m.skip(i as int);
            if str_eq(self.plugins[i].0.as_str(), type_id) {
                assert(rest[0] == m[i as int]);
                return Some(&self.plugins[i].1);
            }
            proof {
                assert(rest.drop_first() =~= m.skip(i + 1));
            }
            i = i + 1;
        }
        proof {
            assert(m.skip(i as int).len() == 0);
        }
        None
    }

    /// The entries with their type ids, in type-id order.
    pub fn entries(&self) -> (r: &Vec<(String, E)>)
        ensures
            keyed_view(r@) == self@,
    {
        &self.plugins
    }

    /// The registered type ids, in order.
    pub fn type_ids(&self) -> (r: Vec<String>)
        ensures
            r@.len() == self@.len(),
            forall|k: int| 0 <= k < r@.len() ==> #[trigger] r@[k]@ == type_ids_of(self@)[k],
    {
        let mut r: Vec<String> = Vec::new();
        let mut i: usize = 0;
        while i < self.plugins.len()
            invariant
                i <= self.plugins@.len(),
                r@.len() == i,
                forall|k: int| 0 <= k < i ==> #[trigger] r@[k]@ == self.plugins@[k].0@,
            decreases self.plugins@.len() - i,
        {
            r.push(self.plugins[i].0.clone());
            i = i + 1;
        }
        r
    }
}

/// Inserting passes over the entries before the first one whose type id
/// is equal or sorts after the new one.
proof fn lemma_insert_member_shape<E>(m: Seq<(Seq<char>, E)>, i: int, k: Seq<char>, e: E)
    requires
        0 <= i <= m.len(),
        forall|j: int| 0 <= j < i ==> #[trigger] m[j].0 != k && !key_lt(k, m[j].0),
    ensures
        insert_member(m, k, e) == m.take(i) + insert_member(m.skip(i), k, e),
    decreases i,
{
    if i == 0 {
        assert(m.take(0) =~= Seq::<(Seq<char>, E)>::empty());
        assert(m.skip(0) =~= m);
    } else {
        let t = m.drop_first();
        assert(m[0].0 != k && !key_lt(k, m[0].0));
        assert forall|j: int| 0 <= j < i - 1 implies #[trigger] t[j].0 != k && !key_lt(k, t[j].0) by {
            assert(t[j] == m[j + 1]);
        }
        lemma_insert_member_shape(t, i - 1, k, e);
        assert(m.take(i) =~= seq![m[0]] + t.take(i - 1));
        assert(m.skip(i) =~= t.skip(i - 1));
        assert(insert_member(m, k, e) == seq![m[0]] + insert_member(t, k, e));
    }
}

/// The entries after registering `e` under `k`: added when `k` is new,
/// else unchanged.
pub open spec fn registered<E>(m: Seq<(Seq<char>, E)>, k: Seq<char>, e: E) -> Seq<(Seq<char>, E)> {
    if member(m, k) is None {
        insert_member(m, k, e)
    } else {
        m
    }
}

/// The first entry registered under a type id is the one the registry
/// keeps: registering twice under one type id finds the entry that was
/// there before, or else the first of the two.
pub proof fn lemma_register_keeps_first<E>(m: Seq<(Seq<char>, E)>, k: Seq<char>, first: E, second: E)
    ensures
        member(registered(registered(m, k, first), k, second), k) == match member(m, k) {
            Some(x) => Some(x),
            None => Some(first),
        },
{
    crate::json::lemma_insert_member_get(m, k, first, k);
}

/// Inserting under a type id replaces: the registry then finds the new
/// entry there, and every other type id as before.
pub proof fn lemma_insert_replaces<E>(m: Seq<(Seq<char>, E)>, k: Seq<char>, e: E, other: Seq<char>)
    ensures
        member(insert_member(m, k, e), k) == Some(e),
        other != k ==> member(insert_member(m, k, e), other) == member(m, other),
{
    crate::json::lemma_insert_member_get(m, k, e, other);
}

} // verus!
