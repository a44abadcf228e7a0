use pdf_merge::merge::{merge_documents, role, MergeStatus, Merged, Rgb, Role, SourceDoc};
use pdf_merge::object::{bytes_eq, Dict, ObjId, Object};
use pdf_merge::store::Store;
use pdf_merge::title::page_title;

fn id(num: u32) -> ObjId {
    ObjId { num, gen: 0 }
}

fn name(s: &str) -> Object {
    Object::Name(s.as_bytes().to_vec())
}

fn dict(entries: Vec<(&str, Object)>) -> Dict {
    Dict { entries: entries.into_iter().map(|(k, v)| (k.as_bytes().to_vec(), v)).collect() }
}

fn refs(ids: &[u32]) -> Object {
    Object::Array(ids.iter().map(|n| Object::Reference(id(*n))).collect())
}

/// A document with a catalog at `base`, a page tree at `base + 1` and
/// `pages` pages after it.
fn document(base: u32, pages: u32) -> SourceDoc {
    let page_ids: Vec<u32> = (0..pages).map(|k| base + 2 + k).collect();
    let mut objects = vec![
        (id(base), Object::Dictionary(dict(vec![("Type", name("Catalog")), ("Pages", Object::Reference(id(base + 1)))]))),
        (
            id(base + 1),
            Object::Dictionary(dict(vec![
                ("Type", name("Pages")),
                ("Kids", refs(&page_ids)),
                ("Count", Object::Integer(pages as i64)),
            ])),
        ),
    ];
    for p in &page_ids {
        objects.push((
            id(*p),
            Object::Dictionary(dict(vec![
                ("Type", name("Page")),
                ("Parent", Object::Reference(id(base + 1))),
                ("Contents", Object::Text(format!("content {}", p).into_bytes())),
            ])),
        ));
    }
    SourceDoc { objects, pages: page_ids.into_iter().map(id).collect() }
}

fn dict_of<'a>(m: &'a Merged, n: u32) -> &'a Dict {
    match m.store.get(id(n)) {
        Some(Object::Dictionary(d)) => d,
        other => panic!("no dictionary under {}: {:?}", n, other),
    }
}

fn titles(m: &Merged) -> Vec<String> {
    m.bookmarks.iter().map(|b| String::from_utf8(b.title.clone()).unwrap()).collect()
}

#[test]
fn two_inputs_make_one_page_tree() {
    let a = document(1, 2);
    let b = document(10, 1);
    let m = merge_documents(vec![a, b]);
    assert_eq!(m.status, MergeStatus::Complete);
    assert_eq!(m.root, Some(id(1)));
    assert_eq!(m.pages_root, Some(id(2)));
    let pages = dict_of(&m, 2);
    assert_eq!(pages.get(b"Count"), Some(&Object::Integer(3)));
    assert_eq!(pages.get(b"Kids"), Some(&refs(&[3, 4, 12])));
    assert_eq!(titles(&m), vec!["Page_1".to_string(), "Page_2".to_string()]);
    assert_eq!(m.bookmarks[0].target, id(3));
    assert_eq!(m.bookmarks[1].target, id(12));
    for b in &m.bookmarks {
        assert_eq!(b.color, Rgb { red: 0, green: 0, blue: 255 });
        assert_eq!(b.level, 0);
    }
    let catalog = dict_of(&m, 1);
    assert_eq!(catalog.get(b"Pages"), Some(&Object::Reference(id(2))));
    assert_eq!(catalog.get(b"Outlines"), None);
    for p in [3u32, 4, 12] {
        assert_eq!(dict_of(&m, p).get(b"Parent"), Some(&Object::Reference(id(2))));
    }
    assert_eq!(dict_of(&m, 12).get(b"Contents"), Some(&Object::Text(b"content 12".to_vec())));
    // the second input's catalog and page tree are gone
    assert!(m.store.get(id(10)).is_none());
    assert!(m.store.get(id(11)).is_none());
}

#[test]
fn earlier_page_tree_fields_win() {
    let mut a = document(1, 1);
    let mut b = document(10, 1);
    if let Object::Dictionary(d) = &mut a.objects[1].1 {
        d.set(b"Rotate".to_vec(), Object::Integer(90));
    }
    if let Object::Dictionary(d) = &mut b.objects[1].1 {
        d.set(b"Rotate".to_vec(), Object::Integer(180));
        d.set(b"MediaBox".to_vec(), refs(&[]));
    }
    let m = merge_documents(vec![a, b]);
    let pages = dict_of(&m, 2);
    assert_eq!(pages.get(b"Rotate"), Some(&Object::Integer(90)));
    assert_eq!(pages.get(b"MediaBox"), Some(&refs(&[])));
    assert_eq!(pages.get(b"Count"), Some(&Object::Integer(2)));
}

#[test]
fn no_page_tree_keeps_only_plain_objects() {
    let doc = SourceDoc {
        objects: vec![
            (id(1), Object::Dictionary(dict(vec![("Type", name("Catalog"))]))),
            (id(2), Object::Integer(7)),
            (id(3), Object::Dictionary(dict(vec![("Type", name("Outlines"))]))),
            (id(4), Object::Dictionary(dict(vec![("Type", name("Page"))]))),
        ],
        pages: vec![],
    };
    let m = merge_documents(vec![doc]);
    assert_eq!(m.status, MergeStatus::MissingPages);
    assert_eq!(m.root, None);
    assert_eq!(m.pages_root, None);
    assert_eq!(m.store.entries.len(), 1);
    assert_eq!(m.store.get(id(2)), Some(&Object::Integer(7)));
    assert!(m.bookmarks.is_empty());
}

#[test]
fn missing_catalog_still_rebuilds_page_tree() {
    let mut doc = document(1, 2);
    doc.objects.remove(0);
    let m = merge_documents(vec![doc]);
    assert_eq!(m.status, MergeStatus::MissingCatalog);
    assert_eq!(m.root, None);
    assert_eq!(m.pages_root, Some(id(2)));
    assert_eq!(dict_of(&m, 3).get(b"Parent"), Some(&Object::Reference(id(2))));
    let pages = dict_of(&m, 2);
    assert_eq!(pages.get(b"Count"), Some(&Object::Integer(2)));
    assert_eq!(pages.get(b"Kids"), Some(&refs(&[3, 4])));
    assert_eq!(titles(&m), vec!["Page_1".to_string()]);
}

#[test]
fn outlines_of_inputs_are_dropped() {
    let mut doc = document(1, 1);
    if let Object::Dictionary(d) = &mut doc.objects[0].1 {
        d.set(b"Outlines".to_vec(), Object::Reference(id(20)));
    }
    doc.objects.push((id(20), Object::Dictionary(dict(vec![("Type", name("Outlines"))]))));
    doc.objects.push((id(21), Object::Dictionary(dict(vec![("Type", name("Outline"))]))));
    doc.objects.push((id(22), Object::Dictionary(dict(vec![("Type", name("Font"))]))));
    let m = merge_documents(vec![doc]);
    assert_eq!(m.status, MergeStatus::Complete);
    assert_eq!(dict_of(&m, 1).get(b"Outlines"), None);
    assert!(m.store.get(id(20)).is_none());
    assert!(m.store.get(id(21)).is_none());
    assert!(m.store.get(id(22)).is_some());
    assert_eq!(m.bookmarks.len(), 1);
}

#[test]
fn bookmarks_count_inputs_with_pages() {
    let a = document(1, 3);
    let empty = SourceDoc { objects: vec![(id(8), Object::Null)], pages: vec![] };
    let b = document(10, 2);
    let c = document(20, 1);
    let m = merge_documents(vec![a, empty, b, c]);
    assert_eq!(titles(&m), vec!["Page_1".to_string(), "Page_2".to_string(), "Page_3".to_string()]);
    assert_eq!(m.bookmarks[1].target, id(12));
    assert_eq!(m.bookmarks[2].target, id(22));
    assert_eq!(dict_of(&m, 2).get(b"Count"), Some(&Object::Integer(6)));
    assert_eq!(dict_of(&m, 2).get(b"Kids"), Some(&refs(&[3, 4, 5, 12, 13, 22])));
}

#[test]
fn single_document_keeps_its_page_order() {
    let mut doc = document(1, 3);
    doc.pages.reverse();
    let m = merge_documents(vec![doc]);
    assert_eq!(dict_of(&m, 2).get(b"Kids"), Some(&refs(&[5, 4, 3])));
    assert_eq!(m.bookmarks.len(), 1);
    assert_eq!(m.bookmarks[0].target, id(5));
}

#[test]
fn merging_again_accumulates() {
    let first = merge_documents(vec![document(1, 2)]);
    // the merged result, moved into a range of its own, and the input again
    let moved = SourceDoc {
        objects: first.store.entries.into_iter().map(|(i, o)| (id(i.num + 100), shift(o, 100))).collect(),
        pages: vec![id(103), id(104)],
    };
    let m = merge_documents(vec![moved, document(1, 2)]);
    assert_eq!(m.pages_root, Some(id(102)));
    assert_eq!(dict_of(&m, 102).get(b"Count"), Some(&Object::Integer(4)));
    assert_eq!(dict_of(&m, 102).get(b"Kids"), Some(&refs(&[103, 104, 3, 4])));
    assert_eq!(m.bookmarks.len(), 2);
}

fn shift(o: Object, by: u32) -> Object {
    match o {
        Object::Reference(i) => Object::Reference(id(i.num + by)),
        Object::Array(v) => Object::Array(v.into_iter().map(|x| shift(x, by)).collect()),
        Object::Dictionary(d) => {
            Object::Dictionary(Dict { entries: d.entries.into_iter().map(|(k, v)| (k, shift(v, by))).collect() })
        }
        other => other,
    }
}

#[test]
fn page_without_dictionary_is_left_out() {
    let mut doc = document(1, 1);
    doc.pages.push(id(50));
    let m = merge_documents(vec![doc]);
    assert_eq!(dict_of(&m, 2).get(b"Count"), Some(&Object::Integer(1)));
    assert_eq!(dict_of(&m, 2).get(b"Kids"), Some(&refs(&[3])));
    assert!(m.store.get(id(50)).is_none());
}

#[test]
fn duplicate_page_is_listed_once() {
    let mut doc = document(1, 2);
    doc.pages.push(id(3));
    let m = merge_documents(vec![doc]);
    assert_eq!(dict_of(&m, 2).get(b"Kids"), Some(&refs(&[3, 4])));
}

#[test]
fn empty_input_list() {
    let m = merge_documents(vec![]);
    assert_eq!(m.status, MergeStatus::MissingPages);
    assert!(m.store.entries.is_empty());
    assert!(m.bookmarks.is_empty());
}

#[test]
fn titles_in_decimal() {
    assert_eq!(page_title(1), b"Page_1".to_vec());
    assert_eq!(page_title(0), b"Page_0".to_vec());
    assert_eq!(page_title(10), b"Page_10".to_vec());
    assert_eq!(page_title(907), b"Page_907".to_vec());
    assert_eq!(page_title(u64::MAX), format!("Page_{}", u64::MAX).into_bytes());
}

#[test]
fn roles_from_type_names() {
    let of = |t: &str| role(&Object::Dictionary(dict(vec![("Type", name(t))])));
    assert_eq!(of("Catalog"), Role::Catalog);
    assert_eq!(of("Pages"), Role::Pages);
    assert_eq!(of("Page"), Role::Page);
    assert_eq!(of("Outlines"), Role::Outline);
    assert_eq!(of("Outline"), Role::Outline);
    assert_eq!(of("Font"), Role::Other);
    assert_eq!(role(&Object::Integer(1)), Role::Other);
    assert_eq!(role(&Object::Dictionary(dict(vec![("Type", Object::Text(b"Page".to_vec()))]))), Role::Other);
    assert_eq!(role(&Object::Dictionary(dict(vec![("Type", Object::HexText(b"Page".to_vec()))]))), Role::Other);
    let stream = Object::Stream(dict(vec![("Type", name("Pages"))]), vec![1, 2]);
    assert_eq!(role(&stream), Role::Pages);
}

#[test]
fn dictionary_operations() {
    let mut d = dict(vec![("A", Object::Integer(1)), ("B", Object::Integer(2))]);
    d.set(b"A".to_vec(), Object::Integer(3));
    assert_eq!(d.entries.len(), 2);
    assert_eq!(d.get(b"A"), Some(&Object::Integer(3)));
    d.remove(b"B");
    assert_eq!(d.get(b"B"), None);
    d.remove(b"Z");
    assert_eq!(d.entries.len(), 1);
    d.extend(dict(vec![("A", Object::Integer(9)), ("C", Object::Null)]));
    assert_eq!(d.get(b"A"), Some(&Object::Integer(9)));
    assert_eq!(d.get(b"C"), Some(&Object::Null));
    assert!(bytes_eq(&b"ab".to_vec(), b"ab"));
    assert!(!bytes_eq(&b"ab".to_vec(), b"abc"));
}

#[test]
fn store_operations() {
    let mut s = Store::new();
    s.put(id(1), Object::Integer(1));
    s.put(id(2), Object::Integer(2));
    s.put(id(1), Object::Integer(3));
    assert_eq!(s.entries.len(), 2);
    assert_eq!(s.get(id(1)), Some(&Object::Integer(3)));
    assert_eq!(s.take(id(1)), Some(Object::Integer(3)));
    assert_eq!(s.take(id(1)), None);
    assert_eq!(s.get(ObjId { num: 2, gen: 1 }), None);
}
