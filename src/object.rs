use vstd::prelude::*;

verus! {

/// Identifier of an indirect object: object number and generation.
#[derive(Clone, Copy, Debug, PartialEq, Eq, Structural)]
pub struct ObjId {
    pub num: u32,
    pub gen: u16,
}

/// A value of the object graph. A string is kept with the form it is
/// written in: `Text` literal, `HexText` hexadecimal.
///
/// A real number is carried by the bits of its single precision encoding,
/// since the merge never computes with it.
#[derive(Debug, PartialEq)]
pub enum Object {
    Null,
    Boolean(bool),
    Integer(i64),
    RealBits(u32),
    Name(Vec<u8>),
    Text(Vec<u8>),
    HexText(Vec<u8>),
    Array(Vec<Object>),
    Dictionary(Dict),
    Stream(Dict, Vec<u8>),
    Reference(ObjId),
}

/// A dictionary: entries in insertion order, each key at most once.
#[derive(Debug, PartialEq)]
pub struct Dict {
    pub entries: Vec<(Vec<u8>, Object)>,
}

/// No key stands in two entries.
pub open spec fn keys_distinct(s: Seq<(Vec<u8>, Object)>) -> bool {
    forall|i: int, j: int| 0 <= i < j < s.len() ==> s[i].0@ != s[j].0@
}

/// What a dictionary's entries map each key to.
pub open spec fn entries_map(s: Seq<(Vec<u8>, Object)>) -> Map<Seq<u8>, Object>
    decreases s.len(),
{
    if s.len() == 0 {
        Map::empty()
    } else {
        entries_map(s.drop_last()).insert(s.last().0@, s.last().1)
    }
}

/// The name `Type`.
pub open spec fn type_key() -> Seq<u8> {
    seq![84u8, 121u8, 112u8, 101u8]
}

/// The structural type of an object: the name under `Type` of its
/// dictionary, or of a stream's dictionary.
pub open spec fn struct_type(o: Object) -> Option<Seq<u8>> {
    let d = match o {
        Object::Dictionary(d) => Some(d),
        Object::Stream(d, _) => Some(d),
        _ => None,
    };
    match d {
        Some(d) => if d.view().contains_key(type_key()) {
            match d.view()[type_key()] {
                Object::Name(n) => Some(n@),
                _ => None,
            }
        } else {
            None
        },
        None => None,
    }
}

pub proof fn lemma_entries_map_keys(s: Seq<(Vec<u8>, Object)>, k: Seq<u8>)
    ensures
        entries_map(s).contains_key(k) <==> exists|i: int| 0 <= i < s.len() && s[i].0@ == k,
    decreases s.len(),
{
    if s.len() > 0 {
        lemma_entries_map_keys(s.drop_last(), k);
        if exists|i: int| 0 <= i < s.len() && s[i].0@ == k {
            let i = choose|i: int| 0 <= i < s.len() && s[i].0@ == k;
            if i < s.len() - 1 {
                assert(s.drop_last()[i] == s[i]);
            }
        }
        if exists|i: int| 0 <= i < s.len() - 1 && s.drop_last()[i].0@ == k {
            let i = choose|i: int| 0 <= i < s.len() - 1 && s.drop_last()[i].0@ == k;
            assert(s[i] == s.drop_last()[i]);
        }
    }
}

pub proof fn lemma_entries_map_at(s: Seq<(Vec<u8>, Object)>, i: int)
    requires
        keys_distinct(s),
        0 <= i < s.len(),
    ensures
        entries_map(s).contains_key(s[i].0@),
        entries_map(s)[s[i].0@] == s[i].1,
    decreases s.len(),
{
    if i < s.len() - 1 {
        lemma_entries_map_at(s.drop_last(), i);
        assert(s.drop_last()[i] == s[i]);
    }
}

pub proof fn lemma_entries_map_update(s: Seq<(Vec<u8>, Object)>, i: int, v: Object)
    requires
        keys_distinct(s),
        0 <= i < s.len(),
    ensures
        keys_distinct(s.update(i, (s[i].0, v))),
        entries_map(s.update(i, (s[i].0, v))) == entries_map(s).insert(s[i].0@, v),
    decreases s.len(),
{
    let t = s.update(i, (s[i].0, v));
    if i == s.len() - 1 {
        assert(t.drop_last() =~= s.drop_last());
        assert(entries_map(s).insert(s[i].0@, v) =~= entries_map(s.drop_last()).insert(s[i].0@, v));
    } else {
        lemma_entries_map_update(s.drop_last(), i, v);
        assert(t.drop_last() =~= s.drop_last().update(i, (s[i].0, v)));
        assert(s.last().0@ != s[i].0@);
        assert(entries_map(t) =~= entries_map(s).insert(s[i].0@, v));
    }
}

pub proof fn lemma_entries_map_remove(s: Seq<(Vec<u8>, Object)>, i: int)
    requires
        keys_distinct(s),
        0 <= i < s.len(),
    ensures
        keys_distinct(s.remove(i)),
        entries_map(s.remove(i)) == entries_map(s).remove(s[i].0@),
    decreases s.len(),
{
    let t = s.remove(i);
    if i == s.len() - 1 {
        assert(t =~= s.drop_last());
        lemma_entries_map_keys(s.drop_last(), s[i].0@);
        assert(entries_map(t) =~= entries_map(s).remove(s[i].0@));
    } else {
        lemma_entries_map_remove(s.drop_last(), i);
        assert(t.drop_last() =~= s.drop_last().remove(i));
        assert(t.last() == s.last());
        assert(entries_map(t) =~= entries_map(s).remove(s[i].0@));
    }
}

/// Whether two byte strings are equal.
pub fn bytes_eq(a: &Vec<u8>, b: &[u8]) -> (r: bool)
    ensures
        r == (a@ == b@),
{
    if a.len() != b.len() {
        return false;
    }
    let mut i: usize = 0;
    while i < a.len()
        invariant
            a@.len() == b@.len(),
            0 <= i <= a@.len(),
            forall|j: int| 0 <= j < i ==> a@[j] == b@[j],
        decreases a@.len() - i,
    {
        if a[i] != b[i] {
            return false;
        }
        i = i + 1;
    }
    assert(a@ =~= b@);
    true
}

impl Dict {
    /// What the dictionary maps each key to.
    pub open spec fn view(&self) -> Map<Seq<u8>, Object> {
        entries_map(self.entries@)
    }

    /// Each key stands at most once.
    pub open spec fn wf(&self) -> bool {
        keys_distinct(self.entries@)
    }

    pub fn new() -> (r: Dict)
        ensures
            r.wf(),
            r.view() == Map::<Seq<u8>, Object>::empty(),
    {
        Dict { entries: Vec::new() }
    }

    /// Position of the entry for `k`.
    pub fn find(&self, k: &[u8]) -> (r: Option<usize>)
        ensures
            match r {
                Some(i) => i < self.entries@.len() && self.entries@[i as int].0@ == k@,
                None => forall|j: int| 0 <= j < self.entries@.len() ==> self.entries@[j].0@ != k@,
            },
    {
        let mut i: usize = 0;
        while i < self.entries.len()
            invariant
                0 <= i <= self.entries@.len(),
                forall|j: int| 0 <= j < i ==> self.entries@[j].0@ != k@,
            decreases self.entries@.len() - i,
        {
            if bytes_eq(&self.entries[i].0, k) {
                return Some(i);
            }
            i = i + 1;
        }
        None
    }

    /// The value stored under `k`.
    pub fn get(&self, k: &[u8]) -> (r: Option<&Object>)
        requires
            self.wf(),
        ensures
            match r {
                Some(o) => self.view().contains_key(k@) && self.view()[k@] == *o,
                None => !self.view().contains_key(k@),
            },
    {
        match self.find(k) {
            Some(i) => {
                proof {
                    lemma_entries_map_at(self.entries@, i as int);
                }
                Some(&self.entries[i].1)
            },
            None => {
                proof {
                    lemma_entries_map_keys(self.entries@, k@);
                }
                None
            },
        }
    }

    /// Maps `k` to `v`.
    pub fn set(&mut self, k: Vec<u8>, v: Object)
        requires
            old(self).wf(),
        ensures
            final(self).wf(),
            final(self).view() == old(self).view().insert(k@, v),
    {
        match self.find(k.as_slice()) {
            Some(i) => {
                let ghost s = self.entries@;
                proof {
                    lemma_entries_map_update(s, i as int, v);
                }
                let (key, _) = self.entries.remove(i);
                self.entries.insert(i, (key, v));
                assert(self.entries@ =~= s.update(i as int, (s[i as int].0, v)));
            },
            None => {
                let ghost s = self.entries@;
                self.entries.push((k, v));
                assert(self.entries@.drop_last() =~= s);
            },
        }
    }

    /// Drops the entry for `k`, if there is one.
    pub fn remove(&mut self, k: &[u8])
        requires
            old(self).wf(),
        ensures
            final(self).wf(),
            final(self).view() == old(self).view().remove(k@),
    {
        match self.find(k) {
            Some(i) => {
                proof {
                    lemma_entries_map_remove(self.entries@, i as int);
                }
                self.entries.remove(i);
            },
            None => {
                proof {
                    lemma_entries_map_keys(self.entries@, k@);
                    assert(self.view().remove(k@) =~= self.view());
                }
            },
        }
    }

    /// Sets every entry of `over` on top of `self`: on a shared key the
    /// value of `over` wins.
    pub fn extend(&mut self, over: Dict)
        requires
            old(self).wf(),
        ensures
            final(self).wf(),
            final(self).view() == old(self).view().union_prefer_right(over.view()),
    {
        let ghost base = self.view();
        let ghost all = over.entries@;
        let mut rest = over.entries;
        let n = rest.len();
        let mut i: usize = 0;
        while rest.len() > 0
            invariant
                all.len() == n,
                i + rest@.len() == all.len(),
                rest@ == all.subrange(i as int, all.len() as int),
                self.wf(),
                self.view() == base.union_prefer_right(entries_map(all.subrange(0, i as int))),
            decreases rest@.len(),
        {
            let (k, v) = rest.remove(0);
            proof {
                assert(all.subrange(0, i + 1).drop_last() =~= all.subrange(0, i as int));
                assert(all.subrange(0, i + 1).last() == (k, v));
            }
            self.set(k, v);
            i = i + 1;
            assert(rest@ =~= all.subrange(i as int, all.len() as int));
            assert(self.view() =~= base.union_prefer_right(entries_map(all.subrange(0, i as int))));
        }
        assert(all.subrange(0, i as int) =~= all);
    }
}

} // verus!
