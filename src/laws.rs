use vstd::prelude::*;
use crate::object::{ObjId, Object};
use crate::store::ids_distinct;
use crate::title::title_text;
use crate::merge::{
    SourceDoc, Merged, MergeStatus, mark_color, Role, role_of, merged_as, bookmark_targets,
    other_objects, pages_root, rest_objects, non_pages, flat_objects, page_list, add_ids,
    collected_pages, kid_refs, kids_key, count_key, first_catalog, page_objects, reparented,
    outlines_name,
};

verus! {

/// The number of inputs that have at least one page.
pub open spec fn inputs_with_pages(docs: Seq<SourceDoc>) -> nat
    decreases docs.len(),
{
    if docs.len() == 0 {
        0
    } else if docs.last().pages@.len() > 0 {
        inputs_with_pages(docs.drop_last()) + 1
    } else {
        inputs_with_pages(docs.drop_last())
    }
}

proof fn lemma_targets_len(docs: Seq<SourceDoc>)
    ensures
        bookmark_targets(docs).len() == inputs_with_pages(docs),
    decreases docs.len(),
{
    if docs.len() > 0 {
        lemma_targets_len(docs.drop_last());
    }
}

/// One bookmark for each input with at least one page, titled `Page_1`,
/// `Page_2`, ... in input order, whatever the number of pages of each; all
/// blue and at level 0.
pub proof fn law_bookmarks(docs: Seq<SourceDoc>, r: Merged)
    requires
        merged_as(r, docs),
    ensures
        r.bookmarks@.len() == inputs_with_pages(docs),
        forall|k: int| 0 <= k < r.bookmarks@.len() ==> (#[trigger] r.bookmarks@[k]).title@ == title_text((k + 1) as nat),
        forall|k: int| 0 <= k < r.bookmarks@.len() ==> (#[trigger] r.bookmarks@[k]).color == mark_color() && r.bookmarks@[k].level == 0,
{
    lemma_targets_len(docs);
}

/// No two objects of the merged store share an identifier.
pub proof fn law_ids_distinct(docs: Seq<SourceDoc>, r: Merged)
    requires
        merged_as(r, docs),
    ensures
        ids_distinct(r.store.entries@),
{
}

proof fn lemma_other_roles(s: Seq<(ObjId, Object)>)
    ensures
        forall|id: ObjId| #[trigger] other_objects(s).contains_key(id) ==> role_of(other_objects(s)[id]) == Role::Other,
    decreases s.len(),
{
    if s.len() > 0 {
        lemma_other_roles(s.drop_last());
    }
}

/// Every element of `non_pages(s, ids)` is an element of `s`.
proof fn lemma_non_pages_from(s: Seq<(ObjId, Object)>, ids: Seq<ObjId>)
    ensures
        forall|j: int| 0 <= j < non_pages(s, ids).len() ==> s.contains(#[trigger] non_pages(s, ids)[j]),
    decreases s.len(),
{
    if s.len() > 0 {
        let p = s.drop_last();
        lemma_non_pages_from(p, ids);
        let n = non_pages(p, ids);
        assert forall|j: int| 0 <= j < non_pages(s, ids).len() implies s.contains(#[trigger] non_pages(s, ids)[j]) by {
            if j < n.len() {
                assert(non_pages(s, ids)[j] == n[j]);
                let i = choose|i: int| 0 <= i < p.len() && p[i] == n[j];
                assert(s[i] == p[i]);
            } else {
                assert(s[s.len() - 1] == s.last());
            }
        }
    }
}

/// `e` is an object of one of `docs`.
pub open spec fn in_docs(docs: Seq<SourceDoc>, e: (ObjId, Object)) -> bool {
    exists|d: int, i: int| 0 <= d < docs.len() && 0 <= i < docs[d].objects@.len() && #[trigger] docs[d].objects@[i] == e
}

/// Every element of `flat_objects(docs)` is an object of one of `docs`.
proof fn lemma_flat_from(docs: Seq<SourceDoc>)
    ensures
        forall|j: int| 0 <= j < flat_objects(docs).len() ==> in_docs(docs, #[trigger] flat_objects(docs)[j]),
    decreases docs.len(),
{
    if docs.len() > 0 {
        let p = docs.drop_last();
        lemma_flat_from(p);
        let f = flat_objects(p);
        let l = docs.last().objects@;
        assert forall|j: int| 0 <= j < flat_objects(docs).len() implies in_docs(docs, #[trigger] flat_objects(docs)[j]) by {
            if j < f.len() {
                assert(flat_objects(docs)[j] == f[j]);
                assert(in_docs(p, f[j]));
                let (d, i) = choose|d: int, i: int| 0 <= d < p.len() && 0 <= i < p[d].objects@.len() && #[trigger] p[d].objects@[i] == f[j];
                assert(p[d] == docs[d]);
                assert(docs[d].objects@[i] == flat_objects(docs)[j]);
            } else {
                assert(flat_objects(docs)[j] == l[j - f.len()]);
                assert(docs[docs.len() - 1] == docs.last());
                assert(docs[docs.len() - 1].objects@[j - f.len()] == flat_objects(docs)[j]);
            }
        }
    }
}

proof fn lemma_no_pages_role(s: Seq<(ObjId, Object)>)
    requires
        forall|j: int| 0 <= j < s.len() ==> role_of(#[trigger] s[j].1) != Role::Pages,
    ensures
        pages_root(s) is None,
    decreases s.len(),
{
    if s.len() > 0 {
        let p = s.drop_last();
        assert forall|j: int| 0 <= j < p.len() implies role_of(#[trigger] p[j].1) != Role::Pages by {
            assert(p[j] == s[j]);
        }
        lemma_no_pages_role(p);
        assert(role_of(s[s.len() - 1].1) != Role::Pages);
    }
}

/// Where no input holds a `Pages` object, the merged store holds only
/// objects of no structural role, and neither a root nor a page tree is set.
pub proof fn law_no_page_tree(docs: Seq<SourceDoc>, r: Merged)
    requires
        merged_as(r, docs),
        forall|d: int, i: int| 0 <= d < docs.len() && 0 <= i < docs[d].objects@.len() ==> role_of(#[trigger] docs[d].objects@[i].1) != Role::Pages,
    ensures
        r.status == MergeStatus::MissingPages,
        r.root is None,
        r.pages_root is None,
        forall|id: ObjId| #[trigger] r.store@.contains_key(id) ==> role_of(r.store@[id]) == Role::Other,
{
    let rest = rest_objects(docs);
    let flat = flat_objects(docs);
    lemma_flat_from(docs);
    lemma_non_pages_from(flat, crate::merge::page_list(docs));
    assert forall|j: int| 0 <= j < rest.len() implies role_of(#[trigger] rest[j].1) != Role::Pages by {
        let i = choose|i: int| 0 <= i < flat.len() && flat[i] == rest[j];
        assert(in_docs(docs, flat[i]));
        let (d, k) = choose|d: int, k: int| 0 <= d < docs.len() && 0 <= k < docs[d].objects@.len() && #[trigger] docs[d].objects@[k] == flat[i];
        assert(role_of(docs[d].objects@[k].1) != Role::Pages);
    }
    lemma_no_pages_role(rest);
    lemma_other_roles(rest);
}

/// The pages of all inputs, one input after another.
pub open spec fn all_pages(docs: Seq<SourceDoc>) -> Seq<ObjId>
    decreases docs.len(),
{
    if docs.len() == 0 {
        Seq::empty()
    } else {
        all_pages(docs.drop_last()) + docs.last().pages@
    }
}

proof fn lemma_add_fresh_ids(ids: Seq<ObjId>, more: Seq<ObjId>)
    requires
        (ids + more).no_duplicates(),
    ensures
        add_ids(ids, more) == ids + more,
    decreases more.len(),
{
    if more.len() > 0 {
        let q = more.drop_last();
        assert((ids + q).no_duplicates()) by {
            assert forall|i: int, j: int| 0 <= i < j < (ids + q).len() implies (ids + q)[i] != (ids + q)[j] by {
                assert((ids + q)[i] == (ids + more)[i]);
                assert((ids + q)[j] == (ids + more)[j]);
            }
        }
        lemma_add_fresh_ids(ids, q);
        assert(!(ids + q).contains(more.last())) by {
            if (ids + q).contains(more.last()) {
                let i = choose|i: int| 0 <= i < (ids + q).len() && (ids + q)[i] == more.last();
                assert((ids + more)[i] == (ids + q)[i]);
                assert((ids + more)[(ids + more).len() - 1] == more.last());
            }
        }
        assert((ids + q).push(more.last()) =~= ids + more);
    }
}

proof fn lemma_page_list_plain(docs: Seq<SourceDoc>)
    requires
        all_pages(docs).no_duplicates(),
    ensures
        page_list(docs) == all_pages(docs),
    decreases docs.len(),
{
    if docs.len() > 0 {
        let p = docs.drop_last();
        let a = all_pages(p);
        let l = docs.last().pages@;
        assert(a.no_duplicates()) by {
            assert forall|i: int, j: int| 0 <= i < j < a.len() implies a[i] != a[j] by {
                assert(all_pages(docs)[i] == a[i]);
                assert(all_pages(docs)[j] == a[j]);
            }
        }
        lemma_page_list_plain(p);
        lemma_add_fresh_ids(a, l);
    }
}

proof fn lemma_non_pages_distinct(s: Seq<(ObjId, Object)>, ids: Seq<ObjId>)
    requires
        ids_distinct(s),
    ensures
        ids_distinct(non_pages(s, ids)),
    decreases s.len(),
{
    if s.len() > 0 {
        let p = s.drop_last();
        assert(ids_distinct(p)) by {
            assert forall|i: int, j: int| 0 <= i < j < p.len() implies p[i].0 != p[j].0 by {
                assert(p[i] == s[i]);
                assert(p[j] == s[j]);
            }
        }
        lemma_non_pages_distinct(p, ids);
        lemma_non_pages_from(p, ids);
        let n = non_pages(p, ids);
        if !ids.contains(s.last().0) {
            assert forall|i: int, j: int| 0 <= i < j < n.len() + 1 implies n.push(s.last())[i].0 != n.push(s.last())[j].0 by {
                if j == n.len() {
                    assert(n.push(s.last())[i] == n[i]);
                    let k = choose|k: int| 0 <= k < p.len() && p[k] == n[i];
                    assert(s[k] == p[k]);
                    assert(s[s.len() - 1] == s.last());
                } else {
                    assert(n.push(s.last())[i] == n[i]);
                    assert(n.push(s.last())[j] == n[j]);
                }
            }
        }
    }
}

proof fn lemma_roots_from(s: Seq<(ObjId, Object)>)
    ensures
        pages_root(s) is Some ==> exists|j: int| 0 <= j < s.len() && (#[trigger] s[j]).0 == pages_root(s).unwrap().0 && role_of(s[j].1) == Role::Pages,
        first_catalog(s) is Some ==> exists|j: int| 0 <= j < s.len() && (#[trigger] s[j]).0 == first_catalog(s).unwrap().0 && role_of(s[j].1) == Role::Catalog,
    decreases s.len(),
{
    if s.len() > 0 {
        let p = s.drop_last();
        lemma_roots_from(p);
        assert(s[s.len() - 1] == s.last());
        if pages_root(p) is Some {
            let j = choose|j: int| 0 <= j < p.len() && (#[trigger] p[j]).0 == pages_root(p).unwrap().0 && role_of(p[j].1) == Role::Pages;
            assert(s[j] == p[j]);
        }
        if first_catalog(p) is Some {
            let j = choose|j: int| 0 <= j < p.len() && (#[trigger] p[j]).0 == first_catalog(p).unwrap().0 && role_of(p[j].1) == Role::Catalog;
            assert(s[j] == p[j]);
        }
    }
}

/// Where the inputs' identifiers are distinct, the catalog and the page-tree
/// root of a complete merge are distinct objects.
proof fn lemma_roots_differ(docs: Seq<SourceDoc>, r: Merged)
    requires
        merged_as(r, docs),
        ids_distinct(flat_objects(docs)),
        r.status == MergeStatus::Complete,
    ensures
        r.root != r.pages_root,
{
    let rest = rest_objects(docs);
    lemma_non_pages_distinct(flat_objects(docs), page_list(docs));
    lemma_roots_from(rest);
    let j1 = choose|j: int| 0 <= j < rest.len() && (#[trigger] rest[j]).0 == pages_root(rest).unwrap().0 && role_of(rest[j].1) == Role::Pages;
    let j2 = choose|j: int| 0 <= j < rest.len() && (#[trigger] rest[j]).0 == first_catalog(rest).unwrap().0 && role_of(rest[j].1) == Role::Catalog;
    if j1 < j2 {
        assert(rest[j1].0 != rest[j2].0);
    } else if j2 < j1 {
        assert(rest[j2].0 != rest[j1].0);
    }
}

proof fn lemma_non_pages_skip(s: Seq<(ObjId, Object)>, ids: Seq<ObjId>)
    ensures
        forall|j: int| 0 <= j < non_pages(s, ids).len() ==> !ids.contains(#[trigger] non_pages(s, ids)[j].0),
    decreases s.len(),
{
    if s.len() > 0 {
        lemma_non_pages_skip(s.drop_last(), ids);
        let n = non_pages(s.drop_last(), ids);
        assert forall|j: int| 0 <= j < non_pages(s, ids).len() implies !ids.contains(#[trigger] non_pages(s, ids)[j].0) by {
            if j < n.len() {
                assert(non_pages(s, ids)[j] == n[j]);
            }
        }
    }
}

/// Every page listed by `docs` has a dictionary among their objects.
pub open spec fn pages_are_dicts(docs: Seq<SourceDoc>) -> bool {
    forall|k: int| 0 <= k < all_pages(docs).len() ==> {
        let m = page_objects(flat_objects(docs), all_pages(docs));
        &&& m.contains_key(#[trigger] all_pages(docs)[k])
        &&& m[all_pages(docs)[k]] is Dictionary
    }
}

proof fn lemma_kid_refs_all(c: Seq<(ObjId, Object)>)
    requires
        forall|j: int| 0 <= j < c.len() ==> (#[trigger] c[j]).1 is Dictionary,
    ensures
        kid_refs(c) == Seq::new(c.len(), |j: int| Object::Reference(c[j].0)),
    decreases c.len(),
{
    if c.len() > 0 {
        let p = c.drop_last();
        assert forall|j: int| 0 <= j < p.len() implies (#[trigger] p[j]).1 is Dictionary by {
            assert(p[j] == c[j]);
        }
        lemma_kid_refs_all(p);
        assert(c[c.len() - 1] == c.last());
        assert(kid_refs(c) =~= Seq::new(c.len(), |j: int| Object::Reference(c[j].0)));
    }
}

/// For rooted inputs whose pages are all distinct, the merged page-tree
/// root counts all their pages and lists them in input order and, within
/// an input, in page-tree order.
pub proof fn law_page_tree(docs: Seq<SourceDoc>, r: Merged)
    requires
        merged_as(r, docs),
        ids_distinct(flat_objects(docs)),
        all_pages(docs).no_duplicates(),
        pages_are_dicts(docs),
        r.status == MergeStatus::Complete,
    ensures
        r.pages_root is Some,
        r.store@.contains_key(r.pages_root.unwrap()),
        match r.store@[r.pages_root.unwrap()] {
            Object::Dictionary(d) => {
                &&& d.view().contains_key(kids_key())
                &&& d.view().contains_key(count_key())
                &&& d.view()[count_key()] == Object::Integer(all_pages(docs).len() as i64)
                &&& match d.view()[kids_key()] {
                    Object::Array(v) => v@ == all_pages(docs).map_values(|id: ObjId| Object::Reference(id)),
                    _ => false,
                }
            },
            _ => false,
        },
        forall|k: int| 0 <= k < all_pages(docs).len() && #[trigger] page_objects(flat_objects(docs), all_pages(docs)).contains_key(all_pages(docs)[k])
            && page_objects(flat_objects(docs), all_pages(docs))[all_pages(docs)[k]] is Dictionary ==> {
            let pid = all_pages(docs)[k];
            &&& r.store@.contains_key(pid)
            &&& reparented(r.store@[pid], page_objects(flat_objects(docs), all_pages(docs))[pid], r.pages_root.unwrap())
        },
{
    lemma_roots_differ(docs, r);
    lemma_page_list_plain(docs);
    let ids = page_list(docs);
    let c = collected_pages(docs);
    assert forall|j: int| 0 <= j < c.len() implies (#[trigger] c[j]).1 is Dictionary by {
        assert(all_pages(docs)[j] == ids[j]);
    }
    lemma_kid_refs_all(c);
    assert(kid_refs(c) =~= all_pages(docs).map_values(|id: ObjId| Object::Reference(id)));
    let rest = rest_objects(docs);
    let pid = r.pages_root.unwrap();
    let cid = r.root.unwrap();
    lemma_roots_from(rest);
    lemma_non_pages_skip(flat_objects(docs), ids);
    let j1 = choose|j: int| 0 <= j < rest.len() && (#[trigger] rest[j]).0 == pages_root(rest).unwrap().0 && role_of(rest[j].1) == Role::Pages;
    let j2 = choose|j: int| 0 <= j < rest.len() && (#[trigger] rest[j]).0 == first_catalog(rest).unwrap().0 && role_of(rest[j].1) == Role::Catalog;
    assert(!ids.contains(rest[j1].0));
    assert(!ids.contains(rest[j2].0));
    assert forall|k: int| 0 <= k < all_pages(docs).len() && #[trigger] page_objects(flat_objects(docs), all_pages(docs)).contains_key(all_pages(docs)[k])
        && page_objects(flat_objects(docs), all_pages(docs))[all_pages(docs)[k]] is Dictionary implies
        r.store@.contains_key(all_pages(docs)[k]) && reparented(r.store@[all_pages(docs)[k]], page_objects(flat_objects(docs), all_pages(docs))[all_pages(docs)[k]], pid) by {
        assert(c[k].0 == ids[k]);
        assert(ids.contains(ids[k]));
        assert(c[k].1 is Dictionary);
    }
    let o = r.store@[pid];
    if let Object::Dictionary(d) = o {
        assert(count_key() != kids_key());
        assert(d.view().remove(kids_key()).contains_key(count_key()));
        assert(d.view().remove(kids_key())[count_key()] == Object::Integer(kid_refs(c).len() as i64));
    }
}

/// Merging one document keeps its pages in their order, makes one bookmark
/// if it has a page and none otherwise, and leaves its catalog without an
/// outline.
pub proof fn law_single_document(d: SourceDoc, r: Merged)
    requires
        merged_as(r, seq![d]),
        ids_distinct(d.objects@),
        d.pages@.no_duplicates(),
        forall|k: int| 0 <= k < d.pages@.len() ==> page_objects(d.objects@, d.pages@).contains_key(#[trigger] d.pages@[k])
            && page_objects(d.objects@, d.pages@)[d.pages@[k]] is Dictionary,
        r.status == MergeStatus::Complete,
    ensures
        r.bookmarks@.len() == (if d.pages@.len() > 0 { 1nat } else { 0nat }),
        r.store@.contains_key(r.pages_root.unwrap()),
        match r.store@[r.pages_root.unwrap()] {
            Object::Dictionary(dd) => {
                &&& dd.view().contains_key(kids_key())
                &&& match dd.view()[kids_key()] {
                    Object::Array(v) => v@ == d.pages@.map_values(|id: ObjId| Object::Reference(id)),
                    _ => false,
                }
            },
            _ => false,
        },
        first_catalog(rest_objects(seq![d])).unwrap().1 is Dictionary ==> match r.store@[r.root.unwrap()] {
            Object::Dictionary(cd) => !cd.view().contains_key(outlines_name()),
            _ => false,
        },
{
    let docs = seq![d];
    assert(docs.drop_last() =~= Seq::<SourceDoc>::empty());
    assert(docs.last() == d);
    assert(all_pages(docs.drop_last()) == Seq::<ObjId>::empty());
    assert(inputs_with_pages(docs.drop_last()) == 0);
    assert(all_pages(docs) =~= Seq::<ObjId>::empty() + d.pages@);
    assert(all_pages(docs) =~= d.pages@);
    assert(flat_objects(docs.drop_last()) == Seq::<(ObjId, Object)>::empty());
    assert(flat_objects(docs) =~= d.objects@);
    assert(inputs_with_pages(docs) == (if d.pages@.len() > 0 { 1nat } else { 0nat }));
    law_bookmarks(docs, r);
    assert(pages_are_dicts(docs)) by {
        assert forall|k: int| 0 <= k < all_pages(docs).len() implies {
            let m = page_objects(flat_objects(docs), all_pages(docs));
            &&& m.contains_key(#[trigger] all_pages(docs)[k])
            &&& m[all_pages(docs)[k]] is Dictionary
        } by {
            assert(all_pages(docs)[k] == d.pages@[k]);
        }
    }
    law_page_tree(docs, r);
}

proof fn lemma_kid_refs_from(c: Seq<(ObjId, Object)>)
    ensures
        forall|k: int| #![trigger kid_refs(c)[k]] 0 <= k < kid_refs(c).len() ==> exists|j: int| 0 <= j < c.len() && (#[trigger] c[j]).1 is Dictionary
            && kid_refs(c)[k] == Object::Reference(c[j].0),
    decreases c.len(),
{
    if c.len() > 0 {
        let p = c.drop_last();
        lemma_kid_refs_from(p);
        assert forall|k: int| #![trigger kid_refs(c)[k]] 0 <= k < kid_refs(c).len() implies exists|j: int| 0 <= j < c.len() && (#[trigger] c[j]).1 is Dictionary
            && kid_refs(c)[k] == Object::Reference(c[j].0) by {
            if k < kid_refs(p).len() {
                assert(kid_refs(c)[k] == kid_refs(p)[k]);
                let j = choose|j: int| 0 <= j < p.len() && (#[trigger] p[j]).1 is Dictionary && kid_refs(p)[k] == Object::Reference(p[j].0);
                assert(c[j] == p[j]);
            } else {
                assert(c[c.len() - 1] == c.last());
            }
        }
    }
}

/// In a complete merge of inputs with distinct identifiers, the page-tree
/// root is stored, every `Kids` reference names a stored page, and a
/// dictionary catalog is stored under the root identifier.
pub proof fn law_links_resolve(docs: Seq<SourceDoc>, r: Merged)
    requires
        merged_as(r, docs),
        ids_distinct(flat_objects(docs)),
        r.status == MergeStatus::Complete,
    ensures
        r.store@.contains_key(r.pages_root.unwrap()),
        forall|k: int| 0 <= k < kid_refs(collected_pages(docs)).len() ==> match #[trigger] kid_refs(collected_pages(docs))[k] {
            Object::Reference(id) => r.store@.contains_key(id),
            _ => false,
        },
        first_catalog(rest_objects(docs)).unwrap().1 is Dictionary ==> r.store@.contains_key(r.root.unwrap()),
{
    lemma_roots_differ(docs, r);
    let ids = page_list(docs);
    let c = collected_pages(docs);
    let rest = rest_objects(docs);
    lemma_roots_from(rest);
    lemma_non_pages_skip(flat_objects(docs), ids);
    let j1 = choose|j: int| 0 <= j < rest.len() && (#[trigger] rest[j]).0 == pages_root(rest).unwrap().0 && role_of(rest[j].1) == Role::Pages;
    let j2 = choose|j: int| 0 <= j < rest.len() && (#[trigger] rest[j]).0 == first_catalog(rest).unwrap().0 && role_of(rest[j].1) == Role::Catalog;
    assert(!ids.contains(rest[j1].0));
    assert(!ids.contains(rest[j2].0));
    lemma_kid_refs_from(c);
    assert forall|k: int| 0 <= k < kid_refs(c).len() implies match #[trigger] kid_refs(c)[k] {
        Object::Reference(id) => r.store@.contains_key(id),
        _ => false,
    } by {
        let j = choose|j: int| 0 <= j < c.len() && (#[trigger] c[j]).1 is Dictionary && kid_refs(c)[k] == Object::Reference(c[j].0);
        assert(c[j].0 == ids[j]);
        assert(ids.contains(ids[j]));
    }
}

} // verus!
