use quizmark::pdfmerge::{classify_object, plan_merge, plan_page_tree, MergeError, ObjectEntry, ObjectKind, PageEntry};

#[test]
fn objects_are_classified_by_type_name() {
    assert!(matches!(classify_object(b"Catalog", true), ObjectKind::Catalog));
    assert!(matches!(classify_object(b"Pages", true), ObjectKind::Pages { is_dictionary: true }));
    assert!(matches!(classify_object(b"Pages", false), ObjectKind::Pages { is_dictionary: false }));
    assert!(matches!(classify_object(b"Page", true), ObjectKind::Skipped));
    assert!(matches!(classify_object(b"Outlines", true), ObjectKind::Skipped));
    assert!(matches!(classify_object(b"Outline", true), ObjectKind::Skipped));
    assert!(matches!(classify_object(b"Font", true), ObjectKind::Other));
    assert!(matches!(classify_object(b"", false), ObjectKind::Other));
    assert!(matches!(classify_object(b"Catalogue", true), ObjectKind::Other));
}

fn entry(n: u32, kind: ObjectKind) -> ObjectEntry {
    ObjectEntry { id: (n, 0), kind }
}

#[test]
fn merge_keeps_first_ids_and_copies_other_objects() {
    let objects = vec![
        entry(1, ObjectKind::Catalog),
        entry(2, ObjectKind::Pages { is_dictionary: true }),
        entry(3, ObjectKind::Skipped),
        entry(4, ObjectKind::Other),
        entry(5, ObjectKind::Catalog),
        entry(6, ObjectKind::Pages { is_dictionary: false }),
        entry(7, ObjectKind::Pages { is_dictionary: true }),
        entry(8, ObjectKind::Other),
    ];
    let plan = plan_merge(&objects).ok().unwrap();
    assert_eq!(plan.catalog, ((1, 0), 4));
    assert_eq!(plan.pages, ((2, 0), vec![1, 6]));
    assert_eq!(plan.copied, vec![3, 7]);
}

#[test]
fn merge_needs_a_catalog() {
    let objects = vec![entry(1, ObjectKind::Pages { is_dictionary: true }), entry(2, ObjectKind::Other)];
    assert_eq!(plan_merge(&objects).err(), Some(MergeError::CatalogNotFound));
    assert_eq!(plan_merge(&vec![]).err(), Some(MergeError::CatalogNotFound));
}

#[test]
fn merge_needs_a_page_tree_dictionary() {
    let objects = vec![entry(1, ObjectKind::Catalog), entry(2, ObjectKind::Pages { is_dictionary: false })];
    assert_eq!(plan_merge(&objects).err(), Some(MergeError::PagesNotFound));
}

#[test]
fn page_tree_lists_all_pages_and_reparents_dictionaries() {
    let pages = vec![
        PageEntry { id: (3, 0), is_dictionary: true },
        PageEntry { id: (7, 0), is_dictionary: false },
        PageEntry { id: (9, 1), is_dictionary: true },
    ];
    let tree = plan_page_tree(&pages);
    assert_eq!(tree.kids, vec![(3, 0), (7, 0), (9, 1)]);
    assert_eq!(tree.count, 3);
    assert_eq!(tree.reparented, vec![0, 2]);
    let empty = plan_page_tree(&vec![]);
    assert!(empty.kids.is_empty() && empty.count == 0 && empty.reparented.is_empty());
}
