use dicom_viewer_core::expansion::ExpansionStore;
use dicom_viewer_core::path::{Path, Tag};

fn tag(group: u16, element: u16) -> Tag {
    Tag { group, element }
}

#[test]
fn paths_built_by_same_descents_are_equal() {
    let p = Path::empty().with_element_descent(tag(8, 0x1115)).with_item_descent(0);
    let q = Path::empty().with_element_descent(tag(8, 0x1115)).with_item_descent(0);
    assert_eq!(p, q);
    assert_eq!(p.depth(), 2);
}

#[test]
fn paths_built_by_different_descents_are_unequal_even_at_equal_depth() {
    let p = Path::empty().with_element_descent(tag(8, 0x1115)).with_item_descent(0);
    let q = Path::empty().with_element_descent(tag(8, 0x1115)).with_item_descent(1);
    let r = Path::empty().with_element_descent(tag(8, 0x1140)).with_item_descent(0);
    assert_eq!(p.depth(), q.depth());
    assert_eq!(p.depth(), r.depth());
    assert!(p != q);
    assert!(p != r);
    assert!(q != r);
}

#[test]
fn extending_a_path_leaves_the_original_untouched() {
    let base = Path::empty().with_element_descent(tag(8, 0x1115));
    let a = base.with_item_descent(0);
    let b = base.with_item_descent(1);
    assert_eq!(base.depth(), 1);
    assert_eq!(a.depth(), 2);
    assert_eq!(b.depth(), 2);
    assert!(a != b);
}

#[test]
fn prefix_differs_from_extension() {
    let base = Path::empty().with_element_descent(tag(8, 0x1115));
    let deeper = base.with_item_descent(0);
    assert!(base != deeper);
}

#[test]
fn absent_entry_reads_as_collapsed_and_first_toggle_expands() {
    let store = ExpansionStore::new();
    let p = Path::empty().with_element_descent(tag(8, 0x1115));
    assert!(!store.is_expanded(&p));
    let mut store = store;
    store.toggle(&p);
    assert!(store.is_expanded(&p));
    store.toggle(&p);
    assert!(!store.is_expanded(&p));
    store.toggle(&p);
    assert!(store.is_expanded(&p));
}

#[test]
fn toggling_one_path_leaves_all_others_alone() {
    let mut store = ExpansionStore::new();
    let p = Path::empty().with_element_descent(tag(8, 0x1115));
    let q = Path::empty().with_element_descent(tag(8, 0x1140));
    let deeper = p.with_item_descent(0);
    store.toggle(&q);
    assert!(store.is_expanded(&q));
    store.toggle(&p);
    assert!(store.is_expanded(&p));
    assert!(store.is_expanded(&q));
    assert!(!store.is_expanded(&deeper));
    store.toggle(&p);
    assert!(!store.is_expanded(&p));
    assert!(store.is_expanded(&q));
    assert!(!store.is_expanded(&deeper));
}

#[test]
fn reset_collapses_everything() {
    let mut store = ExpansionStore::new();
    let p = Path::empty().with_element_descent(tag(8, 0x1115));
    store.toggle(&p);
    assert!(store.is_expanded(&p));
    store.reset();
    assert!(!store.is_expanded(&p));
}
