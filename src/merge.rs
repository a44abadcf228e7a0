use vstd::prelude::*;
use crate::object::{ObjId, Object, Dict, struct_type, type_key, bytes_eq, lemma_entries_map_keys, lemma_entries_map_at};
use crate::store::{Store, id_map, ids_distinct};
use crate::title::{page_title, title_text};

verus! {

/// One input: its objects, with identifiers already moved into a range of
/// their own, and the identifiers of its pages in page-tree order.
#[derive(Debug)]
pub struct SourceDoc {
    pub objects: Vec<(ObjId, Object)>,
    pub pages: Vec<ObjId>,
}

/// A colour by its red, green and blue components, each out of 255.
#[derive(Clone, Copy, Debug, PartialEq, Eq, Structural)]
pub struct Rgb {
    pub red: u8,
    pub green: u8,
    pub blue: u8,
}

/// The colour of every generated bookmark: blue.
pub open spec fn mark_color() -> Rgb {
    Rgb { red: 0, green: 0, blue: 255 }
}

/// A navigation entry pointing at the first page of one input.
#[derive(Debug)]
pub struct Bookmark {
    pub title: Vec<u8>,
    pub color: Rgb,
    pub level: u32,
    pub target: ObjId,
}

/// The objects of all inputs, one input after another.
pub open spec fn flat_objects(docs: Seq<SourceDoc>) -> Seq<(ObjId, Object)>
    decreases docs.len(),
{
    if docs.len() == 0 {
        Seq::empty()
    } else {
        flat_objects(docs.drop_last()) + docs.last().objects@
    }
}

/// `ids` followed by those of `more` that are not yet in it, each once.
pub open spec fn add_ids(ids: Seq<ObjId>, more: Seq<ObjId>) -> Seq<ObjId>
    decreases more.len(),
{
    if more.len() == 0 {
        ids
    } else {
        let a = add_ids(ids, more.drop_last());
        if a.contains(more.last()) { a } else { a.push(more.last()) }
    }
}

/// The pages of all inputs in input order and, within an input, in
/// page-tree order; a page named twice counts once.
pub open spec fn page_list(docs: Seq<SourceDoc>) -> Seq<ObjId>
    decreases docs.len(),
{
    if docs.len() == 0 {
        Seq::empty()
    } else {
        add_ids(page_list(docs.drop_last()), docs.last().pages@)
    }
}

/// The first page of each input that has one, in input order.
pub open spec fn bookmark_targets(docs: Seq<SourceDoc>) -> Seq<ObjId>
    decreases docs.len(),
{
    if docs.len() == 0 {
        Seq::empty()
    } else if docs.last().pages@.len() > 0 {
        bookmark_targets(docs.drop_last()).push(docs.last().pages@[0])
    } else {
        bookmark_targets(docs.drop_last())
    }
}

/// The bookmarks are numbered from one, blue, at level 0, and point at the
/// given targets.
pub open spec fn bookmarks_match(b: Seq<Bookmark>, targets: Seq<ObjId>) -> bool {
    &&& b.len() == targets.len()
    &&& forall|k: int| 0 <= k < b.len() ==> {
        &&& (#[trigger] b[k]).target == targets[k]
        &&& b[k].title@ == title_text((k + 1) as nat)
        &&& b[k].color == mark_color()
        &&& b[k].level == 0
    }
}

/// The same elements in the opposite order.
fn backwards<T>(v: Vec<T>) -> (r: Vec<T>)
    ensures
        r@.len() == v@.len(),
        forall|j: int| 0 <= j < v@.len() ==> r@[j] == v@[v@.len() - 1 - j],
{
    let ghost orig = v@;
    let mut v = v;
    let mut r: Vec<T> = Vec::new();
    while v.len() > 0
        invariant
            v@ == orig.subrange(0, v@.len() as int),
            r@.len() + v@.len() == orig.len(),
            forall|j: int| 0 <= j < r@.len() ==> r@[j] == orig[orig.len() - 1 - j],
        decreases v@.len(),
    {
        let x = v.pop().unwrap();
        r.push(x);
        assert(v@ =~= orig.subrange(0, v@.len() as int));
    }
    r
}

/// Whether `id` is in `ids`.
pub fn contains_id(ids: &Vec<ObjId>, id: ObjId) -> (r: bool)
    ensures
        r == ids@.contains(id),
{
    let mut i: usize = 0;
    while i < ids.len()
        invariant
            0 <= i <= ids@.len(),
            forall|j: int| 0 <= j < i ==> ids@[j] != id,
        decreases ids@.len() - i,
    {
        if ids[i] == id {
            return true;
        }
        i = i + 1;
    }
    false
}

/// Appends those of `more` that `ids` does not hold yet.
fn push_new_ids(ids: &mut Vec<ObjId>, more: &Vec<ObjId>)
    ensures
        final(ids)@ == add_ids(old(ids)@, more@),
{
    let mut i: usize = 0;
    while i < more.len()
        invariant
            0 <= i <= more@.len(),
            ids@ == add_ids(old(ids)@, more@.subrange(0, i as int)),
        decreases more@.len() - i,
    {
        assert(more@.subrange(0, i + 1).drop_last() =~= more@.subrange(0, i as int));
        let id = more[i];
        if !contains_id(ids, id) {
            ids.push(id);
        }
        i = i + 1;
    }
    assert(more@.subrange(0, i as int) =~= more@);
}

/// Moves every element of `more` to the end of `all`.
fn move_all<T>(all: &mut Vec<T>, more: Vec<T>)
    ensures
        final(all)@ == old(all)@ + more@,
{
    let mut b = backwards(more);
    while b.len() > 0
        invariant
            all@ == old(all)@ + more@.subrange(0, more@.len() - b@.len()),
            b@.len() <= more@.len(),
            forall|j: int| 0 <= j < b@.len() ==> b@[j] == more@[more@.len() - 1 - j],
        decreases b@.len(),
    {
        let x = b.pop().unwrap();
        all.push(x);
        assert(all@ =~= old(all)@ + more@.subrange(0, more@.len() - b@.len()));
    }
    assert(more@.subrange(0, more@.len() as int) =~= more@);
}

/// Joins the inputs, in order: all their objects, the list of their pages,
/// and one bookmark for the first page of each input that has one.
fn gather(docs: Vec<SourceDoc>) -> (r: (Vec<(ObjId, Object)>, Vec<ObjId>, Vec<Bookmark>))
    ensures
        r.0@ == flat_objects(docs@),
        r.1@ == page_list(docs@),
        bookmarks_match(r.2@, bookmark_targets(docs@)),
{
    let ghost all = docs@;
    let n = docs.len();
    let mut rest = backwards(docs);
    let mut objects: Vec<(ObjId, Object)> = Vec::new();
    let mut pages: Vec<ObjId> = Vec::new();
    let mut marks: Vec<Bookmark> = Vec::new();
    let mut i: usize = 0;
    while rest.len() > 0
        invariant
            n == all.len(),
            i + rest@.len() == n,
            forall|j: int| 0 <= j < rest@.len() ==> rest@[j] == all[n - 1 - j],
            objects@ == flat_objects(all.subrange(0, i as int)),
            pages@ == page_list(all.subrange(0, i as int)),
            bookmarks_match(marks@, bookmark_targets(all.subrange(0, i as int))),
            marks@.len() <= i,
        decreases rest@.len(),
    {
        let doc = rest.pop().unwrap();
        let ghost pre = all.subrange(0, i as int);
        proof {
            assert(all.subrange(0, i + 1).drop_last() =~= pre);
            assert(all.subrange(0, i + 1).last() == doc);
        }
        if doc.pages.len() > 0 {
            let ghost old_marks = marks@;
            let title = page_title(marks.len() as u64 + 1);
            marks.push(Bookmark { title, color: Rgb { red: 0, green: 0, blue: 255 }, level: 0, target: doc.pages[0] });
            assert(forall|k: int| 0 <= k < old_marks.len() ==> marks@[k] == old_marks[k]);
        }
        push_new_ids(&mut pages, &doc.pages);
        move_all(&mut objects, doc.objects);
        i = i + 1;
    }
    assert(all.subrange(0, n as int) =~= all);
    (objects, pages, marks)
}

/// The objects of `s` that are not pages of `ids`, in order.
pub open spec fn non_pages(s: Seq<(ObjId, Object)>, ids: Seq<ObjId>) -> Seq<(ObjId, Object)>
    decreases s.len(),
{
    if s.len() == 0 {
        Seq::empty()
    } else if ids.contains(s.last().0) {
        non_pages(s.drop_last(), ids)
    } else {
        non_pages(s.drop_last(), ids).push(s.last())
    }
}

/// The objects of `s` that are pages of `ids`; a later entry replaces an
/// earlier one.
pub open spec fn page_objects(s: Seq<(ObjId, Object)>, ids: Seq<ObjId>) -> Map<ObjId, Object>
    decreases s.len(),
{
    if s.len() == 0 {
        Map::empty()
    } else if ids.contains(s.last().0) {
        page_objects(s.drop_last(), ids).insert(s.last().0, s.last().1)
    } else {
        page_objects(s.drop_last(), ids)
    }
}

/// The object found for a page, or null where the page has none.
pub open spec fn found_or_null(m: Map<ObjId, Object>, id: ObjId) -> Object {
    if m.contains_key(id) { m[id] } else { Object::Null }
}

/// Each page of `ids` with the object found for it, in the order of `ids`.
pub open spec fn collected(m: Map<ObjId, Object>, ids: Seq<ObjId>) -> Seq<(ObjId, Object)> {
    Seq::new(ids.len(), |j: int| (ids[j], found_or_null(m, ids[j])))
}

/// Parts `s` into the objects that are not pages of `ids`, in order, and a
/// store of those that are.
fn split_pages(s: Vec<(ObjId, Object)>, ids: &Vec<ObjId>) -> (r: (Vec<(ObjId, Object)>, Store))
    ensures
        r.0@ == non_pages(s@, ids@),
        r.1.wf(),
        r.1@ == page_objects(s@, ids@),
{
    let ghost all = s@;
    let n = s.len();
    let mut b = backwards(s);
    let mut rest: Vec<(ObjId, Object)> = Vec::new();
    let mut pages = Store::new();
    let mut i: usize = 0;
    while b.len() > 0
        invariant
            n == all.len(),
            i + b@.len() == n,
            forall|j: int| 0 <= j < b@.len() ==> b@[j] == all[n - 1 - j],
            rest@ == non_pages(all.subrange(0, i as int), ids@),
            pages.wf(),
            pages@ == page_objects(all.subrange(0, i as int), ids@),
        decreases b@.len(),
    {
        let (id, o) = b.pop().unwrap();
        proof {
            assert(all.subrange(0, i + 1).drop_last() =~= all.subrange(0, i as int));
            assert(all.subrange(0, i + 1).last() == (id, o));
        }
        if contains_id(ids, id) {
            pages.put(id, o);
        } else {
            rest.push((id, o));
        }
        i = i + 1;
    }
    assert(all.subrange(0, n as int) =~= all);
    (rest, pages)
}

/// Takes the object of each page of `ids` out of `pages`, in the order of
/// `ids`; null where a page has none.
fn collect_pages(pages: Store, ids: &Vec<ObjId>) -> (r: Vec<(ObjId, Object)>)
    requires
        pages.wf(),
        ids@.no_duplicates(),
    ensures
        r@ == collected(pages@, ids@),
{
    let ghost m = pages@;
    let mut pages = pages;
    let mut r: Vec<(ObjId, Object)> = Vec::new();
    let mut i: usize = 0;
    while i < ids.len()
        invariant
            0 <= i <= ids@.len(),
            ids@.no_duplicates(),
            pages.wf(),
            forall|id: ObjId| !ids@.subrange(0, i as int).contains(id) ==> (pages@.contains_key(id) == m.contains_key(id)),
            forall|id: ObjId| !ids@.subrange(0, i as int).contains(id) && m.contains_key(id) ==> pages@[id] == m[id],
            r@ == collected(m, ids@.subrange(0, i as int)),
        decreases ids@.len() - i,
    {
        let id = ids[i];
        proof {
            assert(!ids@.subrange(0, i as int).contains(id)) by {
                if ids@.subrange(0, i as int).contains(id) {
                    let j = choose|j: int| 0 <= j < i && ids@.subrange(0, i as int)[j] == id;
                    assert(ids@[j] == ids@[i as int]);
                }
            }
        }
        let o = match pages.take(id) {
            Some(o) => o,
            None => Object::Null,
        };
        r.push((id, o));
        let ghost before = ids@.subrange(0, i as int);
        i = i + 1;
        proof {
            let after = ids@.subrange(0, i as int);
            assert(after =~= before.push(id));
            assert forall|x: ObjId| !after.contains(x) implies !before.contains(x) && x != id by {
                if before.contains(x) {
                    let j = choose|j: int| 0 <= j < before.len() && before[j] == x;
                    assert(after[j] == x);
                }
                assert(after[after.len() - 1] == id);
            }
            assert(r@ =~= collected(m, ids@.subrange(0, i as int)));
        }
    }
    assert(ids@.subrange(0, i as int) =~= ids@);
    r
}

/// The structural role of an object, read from its type name.
#[derive(Clone, Copy, Debug, PartialEq, Eq, Structural)]
pub enum Role {
    Catalog,
    Pages,
    Page,
    Outline,
    Other,
}

pub open spec fn catalog_name() -> Seq<u8> {
    seq![67u8, 97u8, 116u8, 97u8, 108u8, 111u8, 103u8]
}

pub open spec fn pages_name() -> Seq<u8> {
    seq![80u8, 97u8, 103u8, 101u8, 115u8]
}

pub open spec fn page_name() -> Seq<u8> {
    seq![80u8, 97u8, 103u8, 101u8]
}

pub open spec fn outlines_name() -> Seq<u8> {
    seq![79u8, 117u8, 116u8, 108u8, 105u8, 110u8, 101u8, 115u8]
}

pub open spec fn outline_name() -> Seq<u8> {
    seq![79u8, 117u8, 116u8, 108u8, 105u8, 110u8, 101u8]
}

/// `Catalog`, `Pages` and `Page` name their roles; `Outlines` and `Outline`
/// both name an outline; anything else, or no type name, is another object.
pub open spec fn role_of(o: Object) -> Role {
    match struct_type(o) {
        Some(n) => if n == catalog_name() {
            Role::Catalog
        } else if n == pages_name() {
            Role::Pages
        } else if n == page_name() {
            Role::Page
        } else if n == outlines_name() || n == outline_name() {
            Role::Outline
        } else {
            Role::Other
        },
        None => Role::Other,
    }
}

/// The dictionary of an object, or of a stream, holds each key once.
pub open spec fn obj_wf(o: Object) -> bool {
    match o {
        Object::Dictionary(d) => d.wf(),
        Object::Stream(d, _) => d.wf(),
        _ => true,
    }
}

fn name_vec(n: &[u8]) -> (r: Vec<u8>)
    ensures
        r@ == n@,
{
    let mut r: Vec<u8> = Vec::new();
    let mut i: usize = 0;
    while i < n.len()
        invariant
            0 <= i <= n@.len(),
            r@ == n@.subrange(0, i as int),
        decreases n@.len() - i,
    {
        r.push(n[i]);
        i = i + 1;
        assert(r@ =~= n@.subrange(0, i as int));
    }
    r
}

/// The structural role of `o`.
pub fn role(o: &Object) -> (r: Role)
    requires
        obj_wf(*o),
    ensures
        r == role_of(*o),
{
    let d = match o {
        Object::Dictionary(d) => d,
        Object::Stream(d, _) => d,
        _ => {
            return Role::Other;
        },
    };
    let key: [u8; 4] = [84u8, 121u8, 112u8, 101u8];
    assert(key@ =~= type_key());
    match d.find(key.as_slice()) {
        None => {
            proof {
                lemma_entries_map_keys(d.entries@, type_key());
            }
            Role::Other
        },
        Some(i) => {
            proof {
                lemma_entries_map_at(d.entries@, i as int);
            }
            match &d.entries[i].1 {
                Object::Name(n) => {
                    let catalog: [u8; 7] = [67u8, 97u8, 116u8, 97u8, 108u8, 111u8, 103u8];
                    let pages: [u8; 5] = [80u8, 97u8, 103u8, 101u8, 115u8];
                    let page: [u8; 4] = [80u8, 97u8, 103u8, 101u8];
                    let outlines: [u8; 8] = [79u8, 117u8, 116u8, 108u8, 105u8, 110u8, 101u8, 115u8];
                    let outline: [u8; 7] = [79u8, 117u8, 116u8, 108u8, 105u8, 110u8, 101u8];
                    assert(catalog@ =~= catalog_name());
                    assert(pages@ =~= pages_name());
                    assert(page@ =~= page_name());
                    assert(outlines@ =~= outlines_name());
                    assert(outline@ =~= outline_name());
                    if bytes_eq(n, catalog.as_slice()) {
                        Role::Catalog
                    } else if bytes_eq(n, pages.as_slice()) {
                        Role::Pages
                    } else if bytes_eq(n, page.as_slice()) {
                        Role::Page
                    } else if bytes_eq(n, outlines.as_slice()) || bytes_eq(n, outline.as_slice()) {
                        Role::Outline
                    } else {
                        Role::Other
                    }
                },
                _ => Role::Other,
            }
        },
    }
}

/// The first catalog among `s`.
pub open spec fn first_catalog(s: Seq<(ObjId, Object)>) -> Option<(ObjId, Object)>
    decreases s.len(),
{
    if s.len() == 0 {
        None
    } else {
        let r = first_catalog(s.drop_last());
        if r is None && role_of(s.last().1) == Role::Catalog { Some(s.last()) } else { r }
    }
}

/// The page-tree root made from the `Pages` dictionaries among `s`: the
/// identifier of the first, and the entries of all, where on a shared key
/// the earlier dictionary wins.
pub open spec fn pages_root(s: Seq<(ObjId, Object)>) -> Option<(ObjId, Map<Seq<u8>, Object>)>
    decreases s.len(),
{
    if s.len() == 0 {
        None
    } else {
        let r = pages_root(s.drop_last());
        match s.last().1 {
            Object::Dictionary(d) => if role_of(s.last().1) == Role::Pages {
                match r {
                    Some((pid, m)) => Some((pid, d.view().union_prefer_right(m))),
                    None => Some((s.last().0, d.view())),
                }
            } else {
                r
            },
            _ => r,
        }
    }
}

/// The objects among `s` that play no structural role.
pub open spec fn other_objects(s: Seq<(ObjId, Object)>) -> Map<ObjId, Object>
    decreases s.len(),
{
    if s.len() == 0 {
        Map::empty()
    } else if role_of(s.last().1) == Role::Other {
        other_objects(s.drop_last()).insert(s.last().0, s.last().1)
    } else {
        other_objects(s.drop_last())
    }
}

/// Whether a dictionary found for a root agrees with its model.
pub open spec fn root_matches(r: Option<(ObjId, Dict)>, m: Option<(ObjId, Map<Seq<u8>, Object>)>) -> bool {
    match (r, m) {
        (Some((id, d)), Some((mid, mm))) => id == mid && d.wf() && d.view() == mm,
        (None, None) => true,
        _ => false,
    }
}

/// Sorts the objects of `s` by role: the first catalog, the page-tree root
/// merged from every `Pages` dictionary, and a store of the objects of no
/// role. Pages and outlines are left out.
fn reconcile(s: Vec<(ObjId, Object)>) -> (r: (Store, Option<(ObjId, Object)>, Option<(ObjId, Dict)>))
    requires
        forall|j: int| 0 <= j < s@.len() ==> obj_wf(#[trigger] s@[j].1),
    ensures
        r.0.wf(),
        r.0@ == other_objects(s@),
        r.1 == first_catalog(s@),
        root_matches(r.2, pages_root(s@)),
{
    let ghost all = s@;
    let n = s.len();
    let mut b = backwards(s);
    let mut out = Store::new();
    let mut catalog: Option<(ObjId, Object)> = None;
    let mut pages: Option<(ObjId, Dict)> = None;
    let mut i: usize = 0;
    while b.len() > 0
        invariant
            n == all.len(),
            i + b@.len() == n,
            forall|j: int| 0 <= j < b@.len() ==> b@[j] == all[n - 1 - j],
            forall|j: int| 0 <= j < all.len() ==> obj_wf(#[trigger] all[j].1),
            out.wf(),
            out@ == other_objects(all.subrange(0, i as int)),
            catalog == first_catalog(all.subrange(0, i as int)),
            root_matches(pages, pages_root(all.subrange(0, i as int))),
        decreases b@.len(),
    {
        let (id, o) = b.pop().unwrap();
        proof {
            assert(all.subrange(0, i + 1).drop_last() =~= all.subrange(0, i as int));
            assert(all.subrange(0, i + 1).last() == (id, o));
            assert(obj_wf(all[i as int].1));
        }
        let kind = role(&o);
        match kind {
            Role::Catalog => {
                if catalog.is_none() {
                    catalog = Some((id, o));
                }
            },
            Role::Pages => {
                match o {
                    Object::Dictionary(d) => {
                        let mut d = d;
                        match pages {
                            Some((pid, earlier)) => {
                                d.extend(earlier);
                                pages = Some((pid, d));
                            },
                            None => {
                                pages = Some((id, d));
                            },
                        }
                    },
                    _ => {},
                }
            },
            Role::Other => {
                out.put(id, o);
            },
            _ => {},
        }
        i = i + 1;
    }
    assert(all.subrange(0, n as int) =~= all);
    (out, catalog, pages)
}

pub open spec fn parent_key() -> Seq<u8> {
    seq![80u8, 97u8, 114u8, 101u8, 110u8, 116u8]
}

pub open spec fn count_key() -> Seq<u8> {
    seq![67u8, 111u8, 117u8, 110u8, 116u8]
}

pub open spec fn kids_key() -> Seq<u8> {
    seq![75u8, 105u8, 100u8, 115u8]
}

/// `new` is the page dictionary `old` with `Parent` pointing at `pid`.
pub open spec fn reparented(new: Object, old: Object, pid: ObjId) -> bool {
    match (new, old) {
        (Object::Dictionary(d2), Object::Dictionary(d)) => d2.wf() && d2.view() == d.view().insert(parent_key(), Object::Reference(pid)),
        _ => false,
    }
}

/// `id` is a collected page whose object is a dictionary.
pub open spec fn dict_page(c: Seq<(ObjId, Object)>, id: ObjId) -> bool {
    exists|j: int| 0 <= j < c.len() && (#[trigger] c[j]).0 == id && c[j].1 is Dictionary
}

/// `m` is `base` with each collected page dictionary of `c` stored under its
/// own identifier, reparented under `pid`; identifiers in `except` are not
/// described.
pub open spec fn holds_pages(
    m: Map<ObjId, Object>,
    base: Map<ObjId, Object>,
    c: Seq<(ObjId, Object)>,
    pid: ObjId,
    except: Set<ObjId>,
) -> bool {
    &&& forall|id: ObjId| !except.contains(id) ==> (#[trigger] m.contains_key(id) <==> base.contains_key(id) || dict_page(c, id))
    &&& forall|j: int| 0 <= j < c.len() && (#[trigger] c[j]).1 is Dictionary && !except.contains(c[j].0) ==> m.contains_key(c[j].0) && reparented(m[c[j].0], c[j].1, pid)
    &&& forall|id: ObjId| !except.contains(id) && base.contains_key(id) && !dict_page(c, id) ==> #[trigger] m[id] == base[id]
}

/// No two entries of `c` share an identifier.
pub open spec fn c_distinct(c: Seq<(ObjId, Object)>) -> bool {
    forall|i: int, j: int| 0 <= i < j < c.len() ==> (#[trigger] c[i]).0 != (#[trigger] c[j]).0
}

/// A reference to each collected page whose object is a dictionary, in
/// order: the pages that the rebuilt tree stores.
pub open spec fn kid_refs(c: Seq<(ObjId, Object)>) -> Seq<Object>
    decreases c.len(),
{
    if c.len() == 0 {
        Seq::empty()
    } else if c.last().1 is Dictionary {
        kid_refs(c.drop_last()).push(Object::Reference(c.last().0))
    } else {
        kid_refs(c.drop_last())
    }
}

fn page_refs(c: &Vec<(ObjId, Object)>) -> (r: Vec<Object>)
    ensures
        r@ == kid_refs(c@),
{
    let mut r: Vec<Object> = Vec::new();
    let mut i: usize = 0;
    while i < c.len()
        invariant
            0 <= i <= c@.len(),
            r@ == kid_refs(c@.subrange(0, i as int)),
        decreases c@.len() - i,
    {
        assert(c@.subrange(0, i + 1).drop_last() =~= c@.subrange(0, i as int));
        if let Object::Dictionary(_) = &c[i].1 {
            r.push(Object::Reference(c[i].0));
        }
        i = i + 1;
    }
    assert(c@.subrange(0, i as int) =~= c@);
    r
}

/// Stores each collected page dictionary under its identifier, with its
/// `Parent` set to `pid`; a page whose object is no dictionary is left out.
fn attach_pages(out: &mut Store, c: Vec<(ObjId, Object)>, pid: ObjId)
    requires
        old(out).wf(),
        c_distinct(c@),
        forall|j: int| 0 <= j < c@.len() ==> obj_wf(#[trigger] c@[j].1),
    ensures
        final(out).wf(),
        holds_pages(final(out)@, old(out)@, c@, pid, Set::empty()),
{
    let ghost base = out@;
    let ghost all = c@;
    let n = c.len();
    let mut b = backwards(c);
    let parent: [u8; 6] = [80u8, 97u8, 114u8, 101u8, 110u8, 116u8];
    assert(parent@ =~= parent_key());
    let mut i: usize = 0;
    while b.len() > 0
        invariant
            n == all.len(),
            i + b@.len() == n,
            forall|j: int| 0 <= j < b@.len() ==> b@[j] == all[n - 1 - j],
            forall|j: int| 0 <= j < all.len() ==> obj_wf(#[trigger] all[j].1),
            c_distinct(all),
            parent@ == parent_key(),
            out.wf(),
            holds_pages(out@, base, all.subrange(0, i as int), pid, Set::empty()),
        decreases b@.len(),
    {
        let (id, o) = b.pop().unwrap();
        let ghost pre = all.subrange(0, i as int);
        let ghost post = all.subrange(0, i + 1);
        let ghost prev = out@;
        proof {
            assert(post =~= pre.push((id, o)));
            assert(obj_wf(all[i as int].1));
            assert forall|j: int| 0 <= j < pre.len() implies pre[j].0 != id by {
                assert(all[j] == pre[j]);
            }
        }
        match o {
            Object::Dictionary(d) => {
                let ghost od = d;
                let mut d = d;
                d.set(name_vec(parent.as_slice()), Object::Reference(pid));
                out.put(id, Object::Dictionary(d));
                proof {
                    assert forall|x: ObjId| dict_page(post, x) <==> dict_page(pre, x) || x == id by {
                        if dict_page(post, x) {
                            let j = choose|j: int| 0 <= j < post.len() && (#[trigger] post[j]).0 == x && post[j].1 is Dictionary;
                            if j < pre.len() {
                                assert(pre[j] == post[j]);
                            }
                        }
                        if dict_page(pre, x) {
                            let j = choose|j: int| 0 <= j < pre.len() && (#[trigger] pre[j]).0 == x && pre[j].1 is Dictionary;
                            assert(post[j] == pre[j]);
                        }
                        if x == id {
                            assert(post[pre.len() as int] == (id, Object::Dictionary(od)));
                        }
                    }
                    assert forall|j: int| 0 <= j < post.len() && (#[trigger] post[j]).1 is Dictionary implies out@.contains_key(post[j].0) && reparented(out@[post[j].0], post[j].1, pid) by {
                        if j < pre.len() {
                            assert(pre[j] == post[j]);
                        }
                    }
                }
            },
            _ => {
                proof {
                    assert forall|x: ObjId| dict_page(post, x) <==> dict_page(pre, x) by {
                        if dict_page(post, x) {
                            let j = choose|j: int| 0 <= j < post.len() && (#[trigger] post[j]).0 == x && post[j].1 is Dictionary;
                            if j < pre.len() {
                                assert(pre[j] == post[j]);
                            }
                        }
                        if dict_page(pre, x) {
                            let j = choose|j: int| 0 <= j < pre.len() && (#[trigger] pre[j]).0 == x && pre[j].1 is Dictionary;
                            assert(post[j] == pre[j]);
                        }
                    }
                    assert forall|j: int| 0 <= j < post.len() && (#[trigger] post[j]).1 is Dictionary implies out@.contains_key(post[j].0) && reparented(out@[post[j].0], post[j].1, pid) by {
                        assert(pre[j] == post[j]);
                    }
                }
            },
        }
        i = i + 1;
    }
    assert(all.subrange(0, n as int) =~= all);
}

/// How a merge ended.
#[derive(Clone, Copy, Debug, PartialEq, Eq, Structural)]
pub enum MergeStatus {
    /// Catalog and page tree were found and wired together.
    Complete,
    /// No input holds a `Pages` dictionary: the store holds only the
    /// objects of no role.
    MissingPages,
    /// No input holds a catalog: the page tree is rebuilt, with its root's
    /// `Count` and `Kids` set, but no root is named and no outline is built.
    MissingCatalog,
}

/// The merged document: its store, the catalog named as root, the page-tree
/// root, and the bookmarks that the outline is to be built from.
#[derive(Debug)]
pub struct Merged {
    pub store: Store,
    pub root: Option<ObjId>,
    pub pages_root: Option<ObjId>,
    pub bookmarks: Vec<Bookmark>,
    pub status: MergeStatus,
}

/// Every dictionary of every input holds each key once.
pub open spec fn docs_wf(docs: Seq<SourceDoc>) -> bool {
    forall|d: int, j: int| 0 <= d < docs.len() && 0 <= j < docs[d].objects@.len() ==> obj_wf(#[trigger] docs[d].objects@[j].1)
}

/// `o` is the page-tree root made from `m`, with `Count` and `Kids` set
/// for the pages `kids`.
pub open spec fn pages_root_ok(o: Object, m: Map<Seq<u8>, Object>, kids: Seq<Object>) -> bool {
    match o {
        Object::Dictionary(d) => {
            &&& d.wf()
            &&& d.view().contains_key(kids_key())
            &&& match d.view()[kids_key()] {
                Object::Array(v) => v@ == kids,
                _ => false,
            }
            &&& d.view().remove(kids_key()) == m.insert(count_key(), Object::Integer(kids.len() as i64)).remove(kids_key())
        },
        _ => false,
    }
}

/// `new` is the catalog `old` pointing at the page-tree root `pid`, with no
/// outline of its own.
pub open spec fn catalog_ok(new: Object, old: Object, pid: ObjId) -> bool {
    match (new, old) {
        (Object::Dictionary(d2), Object::Dictionary(d)) => d2.wf() && d2.view() == d.view().insert(pages_name(), Object::Reference(pid)).remove(outlines_name()),
        _ => false,
    }
}

/// The collected pages of `docs`, each with its object.
pub open spec fn collected_pages(docs: Seq<SourceDoc>) -> Seq<(ObjId, Object)> {
    let flat = flat_objects(docs);
    let ids = page_list(docs);
    collected(page_objects(flat, ids), ids)
}

/// The objects of `docs` that are not pages, in order.
pub open spec fn rest_objects(docs: Seq<SourceDoc>) -> Seq<(ObjId, Object)> {
    non_pages(flat_objects(docs), page_list(docs))
}

/// What merging `docs` yields.
pub open spec fn merged_as(r: Merged, docs: Seq<SourceDoc>) -> bool {
    let c = collected_pages(docs);
    let rest = rest_objects(docs);
    let base = other_objects(rest);
    &&& r.store.wf()
    &&& bookmarks_match(r.bookmarks@, bookmark_targets(docs))
    &&& match pages_root(rest) {
        None => {
            &&& r.status == MergeStatus::MissingPages
            &&& r.root is None
            &&& r.pages_root is None
            &&& r.store@ == base
        },
        Some((pid, pm)) => {
            &&& r.pages_root == Some(pid)
            &&& match first_catalog(rest) {
                None => {
                    &&& r.status == MergeStatus::MissingCatalog
                    &&& r.root is None
                    &&& r.store@.contains_key(pid)
                    &&& pages_root_ok(r.store@[pid], pm, kid_refs(c))
                    &&& holds_pages(r.store@, base, c, pid, set![pid])
                },
                Some((cid, cat)) => {
                    &&& r.status == MergeStatus::Complete
                    &&& r.root == Some(cid)
                    &&& (cid != pid || !(cat is Dictionary)) ==> r.store@.contains_key(pid) && pages_root_ok(r.store@[pid], pm, kid_refs(c))
                    &&& cat is Dictionary ==> r.store@.contains_key(cid) && catalog_ok(r.store@[cid], cat, pid)
                    &&& holds_pages(r.store@, base, c, pid, if cat is Dictionary { set![pid, cid] } else { set![pid] })
                },
            }
        },
    }
}

pub proof fn lemma_add_ids(ids: Seq<ObjId>, more: Seq<ObjId>)
    requires
        ids.no_duplicates(),
    ensures
        add_ids(ids, more).no_duplicates(),
        forall|x: ObjId| add_ids(ids, more).contains(x) <==> ids.contains(x) || more.contains(x),
    decreases more.len(),
{
    if more.len() > 0 {
        lemma_add_ids(ids, more.drop_last());
        let a = add_ids(ids, more.drop_last());
        assert forall|x: ObjId| more.contains(x) <==> more.drop_last().contains(x) || x == more.last() by {
            if more.contains(x) {
                let j = choose|j: int| 0 <= j < more.len() && more[j] == x;
                if j < more.len() - 1 {
                    assert(more.drop_last()[j] == x);
                }
            }
            if more.drop_last().contains(x) {
                let j = choose|j: int| 0 <= j < more.len() - 1 && more.drop_last()[j] == x;
                assert(more[j] == x);
            }
            if x == more.last() {
                assert(more[more.len() - 1] == x);
            }
        }
        if !a.contains(more.last()) {
            assert forall|x: ObjId| a.push(more.last()).contains(x) <==> a.contains(x) || x == more.last() by {
                if a.push(more.last()).contains(x) {
                    let j = choose|j: int| 0 <= j < a.len() + 1 && a.push(more.last())[j] == x;
                    if j < a.len() {
                        assert(a[j] == x);
                    }
                }
                if a.contains(x) {
                    let j = choose|j: int| 0 <= j < a.len() && a[j] == x;
                    assert(a.push(more.last())[j] == x);
                }
                if x == more.last() {
                    assert(a.push(more.last())[a.len() as int] == x);
                }
            }
        }
    }
}

pub proof fn lemma_page_list(docs: Seq<SourceDoc>)
    ensures
        page_list(docs).no_duplicates(),
    decreases docs.len(),
{
    if docs.len() > 0 {
        lemma_page_list(docs.drop_last());
        lemma_add_ids(page_list(docs.drop_last()), docs.last().pages@);
    }
}

pub proof fn lemma_flat_wf(docs: Seq<SourceDoc>)
    requires
        docs_wf(docs),
    ensures
        forall|j: int| 0 <= j < flat_objects(docs).len() ==> obj_wf(#[trigger] flat_objects(docs)[j].1),
    decreases docs.len(),
{
    if docs.len() > 0 {
        let p = docs.drop_last();
        assert forall|d: int, j: int| 0 <= d < p.len() && 0 <= j < p[d].objects@.len() implies obj_wf(#[trigger] p[d].objects@[j].1) by {
            assert(p[d] == docs[d]);
        }
        lemma_flat_wf(p);
        let f = flat_objects(p);
        let l = docs.last().objects@;
        assert forall|j: int| 0 <= j < flat_objects(docs).len() implies obj_wf(#[trigger] flat_objects(docs)[j].1) by {
            if j < f.len() {
                assert(flat_objects(docs)[j] == f[j]);
            } else {
                assert(flat_objects(docs)[j] == l[j - f.len()]);
                assert(obj_wf(docs[docs.len() - 1].objects@[j - f.len()].1));
            }
        }
    }
}

pub proof fn lemma_split_wf(s: Seq<(ObjId, Object)>, ids: Seq<ObjId>)
    requires
        forall|j: int| 0 <= j < s.len() ==> obj_wf(#[trigger] s[j].1),
    ensures
        forall|j: int| 0 <= j < non_pages(s, ids).len() ==> obj_wf(#[trigger] non_pages(s, ids)[j].1),
        forall|id: ObjId| #[trigger] page_objects(s, ids).contains_key(id) ==> obj_wf(page_objects(s, ids)[id]),
    decreases s.len(),
{
    if s.len() > 0 {
        let p = s.drop_last();
        assert forall|j: int| 0 <= j < p.len() implies obj_wf(#[trigger] p[j].1) by {
            assert(p[j] == s[j]);
        }
        lemma_split_wf(p, ids);
        assert(obj_wf(s[s.len() - 1].1));
        let m = page_objects(p, ids);
        if ids.contains(s.last().0) {
            assert forall|id: ObjId| #[trigger] m.insert(s.last().0, s.last().1).contains_key(id) implies obj_wf(m.insert(s.last().0, s.last().1)[id]) by {
                if id != s.last().0 {
                    assert(m.contains_key(id));
                }
            }
        }
        let n = non_pages(p, ids);
        if !ids.contains(s.last().0) {
            assert forall|j: int| 0 <= j < n.len() + 1 implies obj_wf(#[trigger] n.push(s.last())[j].1) by {
                if j < n.len() {
                    assert(n.push(s.last())[j] == n[j]);
                }
            }
        }
    }
}

pub proof fn lemma_first_catalog(s: Seq<(ObjId, Object)>)
    requires
        forall|j: int| 0 <= j < s.len() ==> obj_wf(#[trigger] s[j].1),
    ensures
        first_catalog(s) is Some ==> obj_wf(first_catalog(s).unwrap().1) && role_of(first_catalog(s).unwrap().1) == Role::Catalog,
    decreases s.len(),
{
    if s.len() > 0 {
        let p = s.drop_last();
        assert forall|j: int| 0 <= j < p.len() implies obj_wf(#[trigger] p[j].1) by {
            assert(p[j] == s[j]);
        }
        lemma_first_catalog(p);
        assert(obj_wf(s[s.len() - 1].1));
    }
}

/// Merges `docs`, in order, into one document.
///
/// The objects of all inputs are joined; the pages, in input order and
/// within each input in page-tree order, are hung under the page-tree root
/// of the first `Pages` dictionary, whose entries are merged from all
/// `Pages` dictionaries with the earlier input winning, and a page whose
/// object is missing or no dictionary is left out of the tree; the first catalog
/// becomes the root and points at that page tree, without an outline of its
/// own; outlines and pages outside any page tree are dropped; one bookmark
/// `Page_<n>` points at the first page of the `n`-th input that has pages.
pub fn merge_documents(docs: Vec<SourceDoc>) -> (r: Merged)
    requires
        docs_wf(docs@),
        ids_distinct(flat_objects(docs@)),
    ensures
        merged_as(r, docs@),
{
    let ghost dv = docs@;
    proof {
        lemma_flat_wf(dv);
        lemma_page_list(dv);
        lemma_split_wf(flat_objects(dv), page_list(dv));
        lemma_first_catalog(rest_objects(dv));
    }
    let (flat, ids, marks) = gather(docs);
    let (rest, page_store) = split_pages(flat, &ids);
    let c = collect_pages(page_store, &ids);
    proof {
        let m = page_objects(flat_objects(dv), page_list(dv));
        assert forall|i: int, j: int| 0 <= i < j < c@.len() implies (#[trigger] c@[i]).0 != (#[trigger] c@[j]).0 by {
            assert(ids@[i] != ids@[j]);
        }
        assert forall|j: int| 0 <= j < c@.len() implies obj_wf(#[trigger] c@[j].1) by {
            if m.contains_key(ids@[j]) {
                assert(obj_wf(m[ids@[j]]));
            }
        }
    }
    let (mut out, catalog, pages) = reconcile(rest);
    match pages {
        None => Merged { store: out, root: None, pages_root: None, bookmarks: marks, status: MergeStatus::MissingPages },
        Some((pid, pd)) => {
            let kids = page_refs(&c);
            let count = kids.len() as i64;
            attach_pages(&mut out, c, pid);
            let ghost attached = out@;
            let count_name: [u8; 5] = [67u8, 111u8, 117u8, 110u8, 116u8];
            let kids_name: [u8; 4] = [75u8, 105u8, 100u8, 115u8];
            assert(count_name@ =~= count_key());
            assert(kids_name@ =~= kids_key());
            let mut pd = pd;
            pd.set(name_vec(count_name.as_slice()), Object::Integer(count));
            pd.set(name_vec(kids_name.as_slice()), Object::Array(kids));
            proof {
                assert(pd.view().remove(kids_key()) =~= pages_root(rest_objects(dv)).unwrap().1.insert(count_key(), Object::Integer(count)).remove(kids_key()));
            }
            out.put(pid, Object::Dictionary(pd));
            let ghost with_root = out@;
            match catalog {
                None => {
                    proof {
                        let ex = set![pid];
                        assert forall|j: int| 0 <= j < collected_pages(dv).len() && (#[trigger] collected_pages(dv)[j]).1 is Dictionary && !ex.contains(collected_pages(dv)[j].0) implies out@.contains_key(collected_pages(dv)[j].0) && reparented(out@[collected_pages(dv)[j].0], collected_pages(dv)[j].1, pid) by {
                            assert(attached.contains_key(collected_pages(dv)[j].0));
                        }
                    }
                    Merged {
                        store: out,
                        root: None,
                        pages_root: Some(pid),
                        bookmarks: marks,
                        status: MergeStatus::MissingCatalog,
                    }
                },
                Some((cid, cat)) => {
                    match cat {
                        Object::Dictionary(cd) => {
                            let ghost ocd = cd;
                            let pages_word: [u8; 5] = [80u8, 97u8, 103u8, 101u8, 115u8];
                            let outlines_word: [u8; 8] = [79u8, 117u8, 116u8, 108u8, 105u8, 110u8, 101u8, 115u8];
                            assert(pages_word@ =~= pages_name());
                            assert(outlines_word@ =~= outlines_name());
                            let mut cd = cd;
                            cd.set(name_vec(pages_word.as_slice()), Object::Reference(pid));
                            cd.remove(outlines_word.as_slice());
                            out.put(cid, Object::Dictionary(cd));
                            proof {
                                let ex = set![pid, cid];
                                assert forall|j: int| 0 <= j < collected_pages(dv).len() && (#[trigger] collected_pages(dv)[j]).1 is Dictionary && !ex.contains(collected_pages(dv)[j].0) implies out@.contains_key(collected_pages(dv)[j].0) && reparented(out@[collected_pages(dv)[j].0], collected_pages(dv)[j].1, pid) by {
                                    assert(attached.contains_key(collected_pages(dv)[j].0));
                                }
                            }
                        },
                        _ => {
                            proof {
                                let ex = set![pid];
                                assert forall|j: int| 0 <= j < collected_pages(dv).len() && (#[trigger] collected_pages(dv)[j]).1 is Dictionary && !ex.contains(collected_pages(dv)[j].0) implies out@.contains_key(collected_pages(dv)[j].0) && reparented(out@[collected_pages(dv)[j].0], collected_pages(dv)[j].1, pid) by {
                                    assert(attached.contains_key(collected_pages(dv)[j].0));
                                }
                            }
                        },
                    }
                    Merged { store: out, root: Some(cid), pages_root: Some(pid), bookmarks: marks, status: MergeStatus::Complete }
                },
            }
        },
    }
}

} // verus!
