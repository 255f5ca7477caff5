use dicom_viewer_core::expansion::ExpansionStore;
use dicom_viewer_core::model::{is_wf, DataElement, DataSet, DataValue};
use dicom_viewer_core::numfmt::{items_count_label, usize_to_string};
use dicom_viewer_core::path::{Path, Tag};
use dicom_viewer_core::rows::visible_rows;

fn tag(group: u16, element: u16) -> Tag {
    Tag { group, element }
}

fn scalar(group: u16, element: u16, name: &str, vr: &str, bytes: &[u8], preview: &str) -> DataElement {
    DataElement {
        tag: tag(group, element),
        name: name.to_string(),
        value: DataValue::Scalar {
            vr: vr.to_string(),
            bytes: bytes.to_vec(),
            preview: preview.to_string(),
        },
    }
}

fn sequence(group: u16, element: u16, name: &str, items: Vec<DataSet>) -> DataElement {
    DataElement {
        tag: tag(group, element),
        name: name.to_string(),
        value: DataValue::Sequence { items },
    }
}

fn patient_document() -> DataSet {
    // A root list with one scalar, then one sequence of two items, each item
    // holding one scalar, then a trailing scalar.
    DataSet {
        elements: vec![
            scalar(0x0010, 0x0010, "Patient's Name", "PN", b"DOE^JANE", "DOE^JANE"),
            sequence(
                0x0008,
                0x1115,
                "Referenced Series Sequence",
                vec![
                    DataSet {
                        elements: vec![scalar(
                            0x0020,
                            0x000E,
                            "Series Instance UID",
                            "UI",
                            b"1.2.3",
                            "1.2.3",
                        )],
                    },
                    DataSet {
                        elements: vec![scalar(
                            0x0020,
                            0x000E,
                            "Series Instance UID",
                            "UI",
                            b"1.2.4",
                            "1.2.4",
                        )],
                    },
                ],
            ),
            scalar(0x0008, 0x0060, "Modality", "CS", b"MR", "MR"),
        ],
    }
}

#[test]
fn number_formatting_exact_values() {
    assert_eq!(usize_to_string(0), "0");
    assert_eq!(usize_to_string(7), "7");
    assert_eq!(usize_to_string(10), "10");
    assert_eq!(usize_to_string(409), "409");
    assert_eq!(usize_to_string(100000), "100000");
    assert_eq!(items_count_label(0), "0 items");
    assert_eq!(items_count_label(1), "1 item");
    assert_eq!(items_count_label(2), "2 items");
}

#[test]
fn scenario_sequence_with_two_collapsed_items_yields_one_row() {
    let doc = DataSet {
        elements: vec![sequence(
            0x0008,
            0x1115,
            "Referenced Series Sequence",
            vec![DataSet { elements: vec![] }, DataSet { elements: vec![] }],
        )],
    };
    let store = ExpansionStore::new();
    let rows = visible_rows(&doc, &Path::empty(), &store);
    assert_eq!(rows.len(), 1);
    assert_eq!(rows[0].label, "Referenced Series Sequence");
    assert_eq!(rows[0].type_tag, "SQ");
    assert_eq!(rows[0].length_display, "2 items");
    assert_eq!(rows[0].is_expanded, Some(false));
    assert!(rows[0].is_expandable);
}

#[test]
fn collapsed_document_shows_only_top_level_rows() {
    let doc = patient_document();
    let store = ExpansionStore::new();
    let rows = visible_rows(&doc, &Path::empty(), &store);
    assert_eq!(rows.len(), 3);
    assert_eq!(rows[0].label, "Patient's Name");
    assert_eq!(rows[0].type_tag, "PN");
    assert_eq!(rows[0].length_display, "8");
    assert_eq!(rows[0].value_preview, "DOE^JANE");
    assert_eq!(rows[0].is_expanded, None);
    assert_eq!(rows[1].label, "Referenced Series Sequence");
    assert_eq!(rows[2].label, "Modality");
    assert_eq!(rows[0].depth, 0);
    assert_eq!(rows[1].depth, 0);
    assert_eq!(rows[2].depth, 0);
}

#[test]
fn expanding_the_sequence_reveals_item_headers_only() {
    let doc = patient_document();
    let mut store = ExpansionStore::new();
    let seq_path = Path::empty().with_element_descent(tag(0x0008, 0x1115));
    store.toggle(&seq_path);
    let rows = visible_rows(&doc, &Path::empty(), &store);
    assert_eq!(rows.len(), 5);
    assert_eq!(rows[1].label, "Referenced Series Sequence");
    assert_eq!(rows[1].is_expanded, Some(true));
    assert_eq!(rows[2].label, "Item 1");
    assert_eq!(rows[2].depth, 1);
    assert_eq!(rows[2].is_expanded, Some(false));
    assert_eq!(rows[3].label, "Item 2");
    assert_eq!(rows[4].label, "Modality");
    // The item contents stay hidden while the item headers are collapsed.
    assert!(rows.iter().all(|r| r.label != "Series Instance UID"));
}

#[test]
fn nested_row_appears_only_when_every_ancestor_is_expanded() {
    let doc = patient_document();
    let mut store = ExpansionStore::new();
    let seq_path = Path::empty().with_element_descent(tag(0x0008, 0x1115));
    let item1_path = seq_path.with_item_descent(1);

    // Expanding only the item, with the sequence still collapsed, reveals
    // nothing below the sequence header.
    store.toggle(&item1_path);
    let rows = visible_rows(&doc, &Path::empty(), &store);
    assert_eq!(rows.len(), 3);
    assert!(rows.iter().all(|r| r.label != "Series Instance UID"));

    // Expanding the sequence as well reveals the second item's content.
    store.toggle(&seq_path);
    let rows = visible_rows(&doc, &Path::empty(), &store);
    assert_eq!(rows.len(), 6);
    assert_eq!(rows[2].label, "Item 1");
    assert_eq!(rows[2].is_expanded, Some(false));
    assert_eq!(rows[3].label, "Item 2");
    assert_eq!(rows[3].is_expanded, Some(true));
    assert_eq!(rows[4].label, "Series Instance UID");
    assert_eq!(rows[4].value_preview, "1.2.4");
    assert_eq!(rows[4].depth, 2);

    // Collapsing the sequence hides the nested row again even though the
    // item's own entry is still set.
    store.toggle(&seq_path);
    let rows = visible_rows(&doc, &Path::empty(), &store);
    assert_eq!(rows.len(), 3);
    assert!(rows.iter().all(|r| r.label != "Series Instance UID"));
}

#[test]
fn traversal_can_start_at_a_subtree_root() {
    let doc = patient_document();
    let store = ExpansionStore::new();
    let item0_path = Path::empty().with_element_descent(tag(0x0008, 0x1115)).with_item_descent(0);
    let rows = visible_rows(&doc, &item0_path, &store);
    assert_eq!(rows.len(), 1);
    assert_eq!(rows[0].label, "Series Instance UID");
    assert_eq!(rows[0].value_preview, "1.2.3");
    assert_eq!(rows[0].depth, 2);
}

#[test]
fn stale_path_is_omitted_silently() {
    let doc = patient_document();
    let store = ExpansionStore::new();
    let missing = Path::empty().with_element_descent(tag(0x0008, 0x9999)).with_item_descent(0);
    let rows = visible_rows(&doc, &missing, &store);
    assert!(rows.is_empty());
    let out_of_range = Path::empty().with_element_descent(tag(0x0008, 0x1115)).with_item_descent(9);
    let rows = visible_rows(&doc, &out_of_range, &store);
    assert!(rows.is_empty());
}

#[test]
fn encapsulated_value_rows_show_fragment_lengths() {
    let doc = DataSet {
        elements: vec![DataElement {
            tag: tag(0x7FE0, 0x0010),
            name: "Pixel Data".to_string(),
            value: DataValue::Encapsulated {
                vr: "OB".to_string(),
                fragments: vec![vec![0u8; 5], vec![0u8; 1000]],
            },
        }],
    };
    let mut store = ExpansionStore::new();
    let rows = visible_rows(&doc, &Path::empty(), &store);
    assert_eq!(rows.len(), 1);
    assert_eq!(rows[0].label, "Pixel Data");
    assert_eq!(rows[0].type_tag, "OB");
    assert_eq!(rows[0].length_display, "2");
    assert_eq!(rows[0].is_expanded, Some(false));

    let pd_path = Path::empty().with_element_descent(tag(0x7FE0, 0x0010));
    store.toggle(&pd_path);
    let rows = visible_rows(&doc, &Path::empty(), &store);
    assert_eq!(rows.len(), 3);
    assert_eq!(rows[1].label, "Item 0");
    assert_eq!(rows[1].length_display, "5");
    assert_eq!(rows[1].is_expanded, None);
    assert!(!rows[1].is_expandable);
    assert_eq!(rows[2].label, "Item 1");
    assert_eq!(rows[2].length_display, "1000");
    assert_eq!(rows[2].depth, 1);
}

#[test]
fn empty_encapsulated_value_is_not_expandable() {
    let doc = DataSet {
        elements: vec![DataElement {
            tag: tag(0x7FE0, 0x0010),
            name: "Pixel Data".to_string(),
            value: DataValue::Encapsulated { vr: "OB".to_string(), fragments: vec![] },
        }],
    };
    let store = ExpansionStore::new();
    let rows = visible_rows(&doc, &Path::empty(), &store);
    assert_eq!(rows.len(), 1);
    assert!(!rows[0].is_expandable);
    assert_eq!(rows[0].is_expanded, None);
}

#[test]
fn empty_sequence_is_not_expandable() {
    let doc = DataSet {
        elements: vec![sequence(0x0008, 0x1115, "Referenced Series Sequence", vec![])],
    };
    let store = ExpansionStore::new();
    let rows = visible_rows(&doc, &Path::empty(), &store);
    assert_eq!(rows.len(), 1);
    assert!(!rows[0].is_expandable);
    assert_eq!(rows[0].is_expanded, None);
    assert_eq!(rows[0].length_display, "0 items");
}

#[test]
fn singular_item_count_reads_one_item() {
    let doc = DataSet {
        elements: vec![sequence(
            0x0008,
            0x1115,
            "Referenced Series Sequence",
            vec![DataSet { elements: vec![] }],
        )],
    };
    let store = ExpansionStore::new();
    let rows = visible_rows(&doc, &Path::empty(), &store);
    assert_eq!(rows[0].length_display, "1 item");
}

#[test]
fn row_paths_identify_their_nodes_for_toggling() {
    let doc = patient_document();
    let mut store = ExpansionStore::new();
    let seq_path = Path::empty().with_element_descent(tag(0x0008, 0x1115));
    store.toggle(&seq_path);
    let rows = visible_rows(&doc, &Path::empty(), &store);
    // Toggling the path carried by the first item-header row expands it.
    let item_row_path = rows[2].path.clone();
    assert_eq!(item_row_path, seq_path.with_item_descent(0));
    store.toggle(&item_row_path);
    let rows = visible_rows(&doc, &Path::empty(), &store);
    assert_eq!(rows[2].is_expanded, Some(true));
    assert_eq!(rows[3].label, "Series Instance UID");
}

#[test]
fn well_formedness_requires_unique_tags_at_every_level() {
    assert!(is_wf(&patient_document()));
    let duplicate_root = DataSet {
        elements: vec![
            scalar(0x0008, 0x0060, "Modality", "CS", b"MR", "MR"),
            scalar(0x0008, 0x0060, "Modality", "CS", b"CT", "CT"),
        ],
    };
    assert!(!is_wf(&duplicate_root));
    let duplicate_in_item = DataSet {
        elements: vec![sequence(
            0x0008,
            0x1115,
            "Referenced Series Sequence",
            vec![DataSet {
                elements: vec![
                    scalar(0x0020, 0x000E, "Series Instance UID", "UI", b"1.2.3", "1.2.3"),
                    scalar(0x0020, 0x000E, "Series Instance UID", "UI", b"1.2.4", "1.2.4"),
                ],
            }],
        )],
    };
    assert!(!is_wf(&duplicate_in_item));
}
