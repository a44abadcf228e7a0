use vstd::prelude::*;
use crate::object::{ObjId, Object};

verus! {

/// No identifier stands in two entries.
pub open spec fn ids_distinct(s: Seq<(ObjId, Object)>) -> bool {
    forall|i: int, j: int| 0 <= i < j < s.len() ==> s[i].0 != s[j].0
}

/// What a sequence of entries maps each identifier to; a later entry
/// replaces an earlier one.
pub open spec fn id_map(s: Seq<(ObjId, Object)>) -> Map<ObjId, Object>
    decreases s.len(),
{
    if s.len() == 0 {
        Map::empty()
    } else {
        id_map(s.drop_last()).insert(s.last().0, s.last().1)
    }
}

pub proof fn lemma_id_map_keys(s: Seq<(ObjId, Object)>, k: ObjId)
    ensures
        id_map(s).contains_key(k) <==> exists|i: int| 0 <= i < s.len() && s[i].0 == k,
    decreases s.len(),
{
    if s.len() > 0 {
        lemma_id_map_keys(s.drop_last(), k);
        if exists|i: int| 0 <= i < s.len() && s[i].0 == k {
            let i = choose|i: int| 0 <= i < s.len() && s[i].0 == k;
            if i < s.len() - 1 {
                assert(s.drop_last()[i] == s[i]);
            }
        }
        if exists|i: int| 0 <= i < s.len() - 1 && s.drop_last()[i].0 == k {
            let i = choose|i: int| 0 <= i < s.len() - 1 && s.drop_last()[i].0 == k;
            assert(s[i] == s.drop_last()[i]);
        }
    }
}

pub proof fn lemma_id_map_at(s: Seq<(ObjId, Object)>, i: int)
    requires
        ids_distinct(s),
        0 <= i < s.len(),
    ensures
        id_map(s).contains_key(s[i].0),
        id_map(s)[s[i].0] == s[i].1,
    decreases s.len(),
{
    if i < s.len() - 1 {
        lemma_id_map_at(s.drop_last(), i);
        assert(s.drop_last()[i] == s[i]);
    }
}

pub proof fn lemma_id_map_update(s: Seq<(ObjId, Object)>, i: int, v: Object)
    requires
        ids_distinct(s),
        0 <= i < s.len(),
    ensures
        ids_distinct(s.update(i, (s[i].0, v))),
        id_map(s.update(i, (s[i].0, v))) == id_map(s).insert(s[i].0, v),
    decreases s.len(),
{
    let t = s.update(i, (s[i].0, v));
    if i == s.len() - 1 {
        assert(t.drop_last() =~= s.drop_last());
        assert(id_map(s).insert(s[i].0, v) =~= id_map(s.drop_last()).insert(s[i].0, v));
    } else {
        lemma_id_map_update(s.drop_last(), i, v);
        assert(t.drop_last() =~= s.drop_last().update(i, (s[i].0, v)));
        assert(id_map(t) =~= id_map(s).insert(s[i].0, v));
    }
}

pub proof fn lemma_id_map_remove(s: Seq<(ObjId, Object)>, i: int)
    requires
        ids_distinct(s),
        0 <= i < s.len(),
    ensures
        ids_distinct(s.remove(i)),
        id_map(s.remove(i)) == id_map(s).remove(s[i].0),
    decreases s.len(),
{
    let t = s.remove(i);
    if i == s.len() - 1 {
        assert(t =~= s.drop_last());
        lemma_id_map_keys(s.drop_last(), s[i].0);
        assert(id_map(t) =~= id_map(s).remove(s[i].0));
    } else {
        lemma_id_map_remove(s.drop_last(), i);
        assert(t.drop_last() =~= s.drop_last().remove(i));
        assert(t.last() == s.last());
        assert(id_map(t) =~= id_map(s).remove(s[i].0));
    }
}

/// An object store: entries keyed by identifier, each identifier at most
/// once.
#[derive(Debug)]
pub struct Store {
    pub entries: Vec<(ObjId, Object)>,
}

impl Store {
    /// What the store maps each identifier to.
    pub open spec fn view(&self) -> Map<ObjId, Object> {
        id_map(self.entries@)
    }

    /// Each identifier stands at most once.
    pub open spec fn wf(&self) -> bool {
        ids_distinct(self.entries@)
    }

    pub fn new() -> (r: Store)
        ensures
            r.wf(),
            r.view() == Map::<ObjId, Object>::empty(),
    {
        Store { entries: Vec::new() }
    }

    /// Position of the entry for `id`.
    pub fn find(&self, id: ObjId) -> (r: Option<usize>)
        ensures
            match r {
                Some(i) => i < self.entries@.len() && self.entries@[i as int].0 == id,
                None => forall|j: int| 0 <= j < self.entries@.len() ==> self.entries@[j].0 != id,
            },
    {
        let mut i: usize = 0;
        while i < self.entries.len()
            invariant
                0 <= i <= self.entries@.len(),
                forall|j: int| 0 <= j < i ==> self.entries@[j].0 != id,
            decreases self.entries@.len() - i,
        {
            if self.entries[i].0 == id {
                return Some(i);
            }
            i = i + 1;
        }
        None
    }

    /// The object stored under `id`.
    pub fn get(&self, id: ObjId) -> (r: Option<&Object>)
        requires
            self.wf(),
        ensures
            match r {
                Some(o) => self.view().contains_key(id) && self.view()[id] == *o,
                None => !self.view().contains_key(id),
            },
    {
        match self.find(id) {
            Some(i) => {
                proof {
                    lemma_id_map_at(self.entries@, i as int);
                }
                Some(&self.entries[i].1)
            },
            None => {
                proof {
                    lemma_id_map_keys(self.entries@, id);
                }
                None
            },
        }
    }

    /// Stores `o` under `id`, replacing what was there.
    pub fn put(&mut self, id: ObjId, o: Object)
        requires
            old(self).wf(),
        ensures
            final(self).wf(),
            final(self).view() == old(self).view().insert(id, o),
    {
        match self.find(id) {
            Some(i) => {
                let ghost s = self.entries@;
                proof {
                    lemma_id_map_update(s, i as int, o);
                }
                self.entries.remove(i);
                self.entries.insert(i, (id, o));
                assert(self.entries@ =~= s.update(i as int, (s[i as int].0, o)));
            },
            None => {
                let ghost s = self.entries@;
                self.entries.push((id, o));
                assert(self.entries@.drop_last() =~= s);
            },
        }
    }

    /// Takes the object stored under `id` out of the store.
    pub fn take(&mut self, id: ObjId) -> (r: Option<Object>)
        requires
            old(self).wf(),
        ensures
            final(self).wf(),
            final(self).view() == old(self).view().remove(id),
            r == (if old(self).view().contains_key(id) { Some(old(self).view()[id]) } else { None::<Object> }),
    {
        match self.find(id) {
            Some(i) => {
                proof {
                    lemma_id_map_remove(self.entries@, i as int);
                    lemma_id_map_at(self.entries@, i as int);
                }
                let (_, o) = self.entries.remove(i);
                Some(o)
            },
            None => {
                proof {
                    lemma_id_map_keys(self.entries@, id);
                    assert(self.view().remove(id) =~= self.view());
                }
                None
            },
        }
    }
}

} // verus!
