//! Tree traversal: turns the nested data model plus the current expansion
//! state into the flat, ordered list of currently-visible display rows.
//!
//! The walk is depth-first and preserves element order within each list and
//! item order within each sequence. Collapsed subtrees are not descended
//! into. A starting path that no longer resolves against the model yields no
//! rows at all: a stale path against a partially-decoded document is omitted
//! silently rather than surfaced as an error.

use crate::expansion::{lookup, ExpansionStore};
use crate::model::{find_elem, DataElement, DataSet, DataValue};
use crate::numfmt::{dec_digits, items_count_label, items_label, usize_to_string};
use crate::path::{Path, Step};
use vstd::prelude::*;
use vstd::string::StringExecFns;

verus! {

/// The mathematical content of one display row.
pub struct RowV {
    pub depth: nat,
    pub label: Seq<char>,
    pub type_tag: Seq<char>,
    pub length_display: Seq<char>,
    pub value_preview: Seq<char>,
    pub is_expandable: bool,
    pub is_expanded: Option<bool>,
    pub path: Seq<Step>,
}

/// One visible display row. Rows are derived values: they are recomputed on
/// every traversal and never mutated. `depth` is the number of steps in the
/// row's governing path, for indentation; `path` addresses the node the row
/// stands for, so a click on an expandable row can toggle exactly that path;
/// `is_expanded` is `None` on rows that cannot be expanded.
pub struct Row {
    pub depth: usize,
    pub label: String,
    pub type_tag: String,
    pub length_display: String,
    pub value_preview: String,
    pub is_expandable: bool,
    pub is_expanded: Option<bool>,
    pub path: Path,
}

impl View for Row {
    type V = RowV;

    open spec fn view(&self) -> RowV {
        RowV {
            depth: self.depth as nat,
            label: self.label@,
            type_tag: self.type_tag@,
            length_display: self.length_display@,
            value_preview: self.value_preview@,
            is_expandable: self.is_expandable,
            is_expanded: self.is_expanded,
            path: self.path@,
        }
    }
}

pub open spec fn rows_view(rs: Seq<Row>) -> Seq<RowV> {
    rs.map_values(|r: Row| r@)
}

/// The single row describing element `e` of the list addressed by `path`.
pub open spec fn element_row(e: DataElement, path: Seq<Step>, store: Map<Seq<Step>, bool>) -> RowV {
    let own = path.push(Step::Element(e.tag));
    match e.value {
        DataValue::Sequence { items } => RowV {
            depth: path.len(),
            label: e.name@,
            type_tag: "SQ"@,
            length_display: items_label(items@.len()),
            value_preview: Seq::empty(),
            is_expandable: items@.len() > 0,
            is_expanded: if items@.len() == 0 {
                None
            } else {
                Some(lookup(store, own))
            },
            path: own,
        },
        DataValue::Encapsulated { vr, fragments } => RowV {
            depth: path.len(),
            label: e.name@,
            type_tag: vr@,
            length_display: dec_digits(fragments@.len()),
            value_preview: Seq::empty(),
            is_expandable: fragments@.len() > 0,
            is_expanded: if fragments@.len() == 0 {
                None
            } else {
                Some(lookup(store, own))
            },
            path: own,
        },
        DataValue::Scalar { vr, bytes, preview } => RowV {
            depth: path.len(),
            label: e.name@,
            type_tag: vr@,
            length_display: dec_digits(bytes@.len()),
            value_preview: preview@,
            is_expandable: false,
            is_expanded: None,
            path: own,
        },
    }
}

/// The header row for item `index` of the sequence at `ip.drop_last()`,
/// labelled with the one-based item number.
pub open spec fn item_header_row(index: nat, ip: Seq<Step>, store: Map<Seq<Step>, bool>) -> RowV {
    RowV {
        depth: (ip.len() - 1) as nat,
        label: "Item "@ + dec_digits(index + 1),
        type_tag: Seq::empty(),
        length_display: Seq::empty(),
        value_preview: Seq::empty(),
        is_expandable: true,
        is_expanded: Some(lookup(store, ip)),
        path: ip,
    }
}

/// The row for item `index` of the encapsulated binary value at `ep`,
/// showing the item's byte length; zero-based as these items are raw
/// fragments rather than nested documents.
pub open spec fn encap_item_row(index: nat, len: nat, ep: Seq<Step>) -> RowV {
    RowV {
        depth: ep.len(),
        label: "Item "@ + dec_digits(index),
        type_tag: Seq::empty(),
        length_display: dec_digits(len),
        value_preview: Seq::empty(),
        is_expandable: false,
        is_expanded: None,
        path: ep.push(Step::Item(index as usize)),
    }
}

/// The rows for the items of an expanded encapsulated binary value at `ep`:
/// one non-expandable row per item, showing its byte length.
pub open spec fn encap_rows(items: Seq<Vec<u8>>, ep: Seq<Step>) -> Seq<RowV> {
    Seq::new(items.len(), |i: int| encap_item_row(i as nat, items[i]@.len(), ep))
}

/// The visible rows of every element of `elems`, a list addressed by `path`,
/// in element order.
pub open spec fn rows_of_elems(
    elems: Seq<DataElement>,
    path: Seq<Step>,
    store: Map<Seq<Step>, bool>,
) -> Seq<RowV>
    decreases elems, 0int, 0int,
{
    if elems.len() == 0 {
        Seq::empty()
    } else {
        elem_rows(elems.first(), path, store) + rows_of_elems(elems.drop_first(), path, store)
    }
}

/// The visible rows of one element: its own row, then, only when the element
/// is expanded, the rows of its items.
pub open spec fn elem_rows(e: DataElement, path: Seq<Step>, store: Map<Seq<Step>, bool>) -> Seq<
    RowV,
>
    decreases e, 1int, 0int,
{
    seq![element_row(e, path, store)] + match e.value {
        DataValue::Sequence { items } => {
            let own = path.push(Step::Element(e.tag));
            if lookup(store, own) {
                seq_items_rows(items@, 0, own, store)
            } else {
                Seq::empty()
            }
        },
        DataValue::Encapsulated { vr, fragments } => {
            let own = path.push(Step::Element(e.tag));
            if lookup(store, own) {
                encap_rows(fragments@, own)
            } else {
                Seq::empty()
            }
        },
        DataValue::Scalar { .. } => Seq::empty(),
    }
}

/// The visible rows of the items of a sequence at path `sp`, from item `k`
/// on: each item's header row, then, only when that item is expanded, the
/// full traversal of the item's element list.
pub open spec fn seq_items_rows(
    items: Seq<DataSet>,
    k: int,
    sp: Seq<Step>,
    store: Map<Seq<Step>, bool>,
) -> Seq<RowV>
    decreases items, 0int, items.len() - k,
{
    if k < 0 || k >= items.len() {
        Seq::empty()
    } else {
        let ip = sp.push(Step::Item(k as usize));
        seq![item_header_row(k as nat, ip, store)] + (if lookup(store, ip) {
            rows_of_elems(items[k].elements@, ip, store)
        } else {
            Seq::empty()
        }) + seq_items_rows(items, k + 1, sp, store)
    }
}

/// The element list addressed by `path`, if the path still resolves against
/// the model: an even-length alternation of element and item steps whose
/// elements exist, hold sequences, and whose item indices are in range.
pub open spec fn spec_resolve(ds: DataSet, path: Seq<Step>) -> Option<DataSet>
    decreases path.len(),
{
    if path.len() == 0 {
        Some(ds)
    } else if path.len() == 1 {
        None
    } else {
        match (path[0], path[1]) {
            (Step::Element(t), Step::Item(i)) => match find_elem(ds.elements@, t) {
                Some(j) => match ds.elements@[j].value {
                    DataValue::Sequence { items } => {
                        if (i as int) < items@.len() {
                            spec_resolve(items@[i as int], path.skip(2))
                        } else {
                            None
                        }
                    },
                    _ => None,
                },
                None => None,
            },
            _ => None,
        }
    }
}

/// Every row currently visible below the subtree root addressed by `start`:
/// nothing at all when `start` no longer resolves, otherwise the depth-first
/// traversal of the resolved list under the given expansion state.
pub open spec fn spec_visible_rows(
    root: DataSet,
    start: Seq<Step>,
    store: Map<Seq<Step>, bool>,
) -> Seq<RowV> {
    match spec_resolve(root, start) {
        Some(ds) => rows_of_elems(ds.elements@, start, store),
        None => Seq::empty(),
    }
}

proof fn lemma_rows_view_concat(a: Seq<Row>, b: Seq<Row>)
    ensures
        rows_view(a + b) == rows_view(a) + rows_view(b),
{
    assert(rows_view(a + b) =~= rows_view(a) + rows_view(b));
}

proof fn lemma_rows_of_elems_take_step(
    elems: Seq<DataElement>,
    j: int,
    path: Seq<Step>,
    store: Map<Seq<Step>, bool>,
)
    requires
        0 <= j < elems.len(),
    ensures
        rows_of_elems(elems.take(j + 1), path, store) == rows_of_elems(elems.take(j), path, store)
            + elem_rows(elems[j], path, store),
    decreases j,
{
    let a = elems.take(j + 1);
    if j == 0 {
        assert(a.first() == elems[0]);
        assert(a.drop_first() =~= Seq::<DataElement>::empty());
        assert(elems.take(0) =~= Seq::<DataElement>::empty());
        assert(Seq::<RowV>::empty() + elem_rows(elems[0], path, store) =~= elem_rows(
            elems[0],
            path,
            store,
        ) + Seq::<RowV>::empty());
    } else {
        let d = elems.drop_first();
        assert(a.first() == elems[0]);
        assert(a.drop_first() =~= d.take(j));
        assert(elems.take(j).first() == elems[0]);
        assert(elems.take(j).drop_first() =~= d.take(j - 1));
        lemma_rows_of_elems_take_step(d, j - 1, path, store);
        assert(d[j - 1] == elems[j]);
        let x = elem_rows(elems[0], path, store);
        let y = rows_of_elems(d.take(j - 1), path, store);
        let z = elem_rows(elems[j], path, store);
        assert(x + (y + z) =~= (x + y) + z);
    }
}

fn find_index(elems: &Vec<DataElement>, tag: crate::path::Tag) -> (r: Option<usize>)
    ensures
        match r {
            Some(j) => find_elem(elems@, tag) == Some(j as int),
            None => find_elem(elems@, tag) is None,
        },
{
    proof {
        crate::model::lemma_find_elem(elems@, tag);
    }
    let mut i: usize = 0;
    while i < elems.len()
        invariant
            i <= elems@.len(),
            forall|k: int| 0 <= k < i ==> elems@[k].tag != tag,
        decreases elems@.len() - i,
    {
        if elems[i].tag == tag {
            proof {
                crate::model::lemma_find_elem(elems@, tag);
                if find_elem(elems@, tag) is None {
                    assert(elems@[i as int].tag != tag);
                }
                let j = find_elem(elems@, tag)->Some_0;
                if j < i as int {
                    assert(elems@[j].tag != tag);
                }
                if j > i as int {
                    assert(elems@[i as int].tag != tag);
                }
            }
            return Some(i);
        }
        i = i + 1;
    }
    proof {
        crate::model::lemma_find_elem(elems@, tag);
        let r = find_elem(elems@, tag);
        if r is Some {
            assert(elems@[r->Some_0].tag != tag);
        }
    }
    None
}

/// Resolves `path` against the model, returning the element list it
/// addresses, or nothing when the path is stale.
pub fn resolve<'a>(root: &'a DataSet, path: &Path) -> (r: Option<&'a DataSet>)
    ensures
        match r {
            Some(ds) => spec_resolve(*root, path@) == Some(*ds),
            None => spec_resolve(*root, path@) is None,
        },
{
    let mut cur: &'a DataSet = root;
    let mut i: usize = 0;
    let depth = path.depth();
    proof {
        assert(path@.skip(0) =~= path@);
    }
    while i < depth
        invariant
            i <= depth,
            depth == path@.len(),
            spec_resolve(*root, path@) == spec_resolve(*cur, path@.skip(i as int)),
        decreases depth - i,
    {
        let ghost rest = path@.skip(i as int);
        if depth - i == 1 {
            return None;
        }
        let step0 = path.step_at(i);
        let step1 = path.step_at(i + 1);
        proof {
            assert(rest[0] == path@[i as int]);
            assert(rest[1] == path@[i as int + 1]);
        }
        let tag = match step0 {
            Step::Element(t) => t,
            Step::Item(_) => {
                return None;
            },
        };
        let j = match find_index(&cur.elements, tag) {
            Some(j) => j,
            None => {
                return None;
            },
        };
        proof {
            crate::model::lemma_find_elem(cur.elements@, tag);
        }
        match &cur.elements[j].value {
            DataValue::Sequence { items } => {
                let idx = match step1 {
                    Step::Item(idx) => idx,
                    Step::Element(_) => {
                        return None;
                    },
                };
                if idx >= items.len() {
                    return None;
                }
                proof {
                    assert(rest.skip(2) =~= path@.skip(i as int + 2));
                }
                cur = &items[idx];
                i = i + 2;
            },
            _ => {
                return None;
            },
        }
    }
    proof {
        assert(path@.skip(i as int) =~= Seq::<Step>::empty());
    }
    Some(cur)
}

fn emit_elem(e: &DataElement, path: &Path, store: &ExpansionStore) -> (out: Vec<Row>)
    requires
        store.inv(),
    ensures
        rows_view(out@) == elem_rows(*e, path@, store@),
    decreases *e,
{
    let mut out: Vec<Row> = Vec::new();
    let own = path.with_element_descent(e.tag);
    let ghost target = elem_rows(*e, path@, store@);
    match &e.value {
        DataValue::Sequence { items } => {
            let n = items.len();
            let expanded_flag = store.is_expanded(&own);
            let header = Row {
                depth: path.depth(),
                label: e.name.clone(),
                type_tag: "SQ".to_owned(),
                length_display: items_count_label(n),
                value_preview: String::new(),
                is_expandable: n > 0,
                is_expanded: if n == 0 {
                    None
                } else {
                    Some(expanded_flag)
                },
                path: own.clone(),
            };
            proof {
                assert(header@ == element_row(*e, path@, store@));
            }
            out.push(header);
            if expanded_flag {
                proof {
                    assert(rows_view(out@) =~= seq![element_row(*e, path@, store@)]);
                    assert(target == seq![element_row(*e, path@, store@)] + seq_items_rows(
                        items@,
                        0,
                        own@,
                        store@,
                    ));
                }
                let mut k: usize = 0;
                while k < items.len()
                    invariant
                        store.inv(),
                        k <= items@.len(),
                        own@ == path@.push(Step::Element(e.tag)),
                        lookup(store@, own@),
                        e.value == (DataValue::Sequence { items: *items }),
                        rows_view(out@) + seq_items_rows(items@, k as int, own@, store@)
                            == target,
                    decreases items@.len() - k,
                {
                    let ghost out0 = out@;
                    let ip = own.with_item_descent(k);
                    let expanded_item = store.is_expanded(&ip);
                    let item_header = Row {
                        depth: own.depth(),
                        label: ("Item ".to_owned()).concat(usize_to_string(k + 1).as_str()),
                        type_tag: String::new(),
                        length_display: String::new(),
                        value_preview: String::new(),
                        is_expandable: true,
                        is_expanded: Some(expanded_item),
                        path: ip.clone(),
                    };
                    proof {
                        assert(item_header@ == item_header_row(k as nat, ip@, store@));
                    }
                    out.push(item_header);
                    if expanded_item {
                        proof {
                            assert(decreases_to!(*e => e.value));
                            assert(e.value->Sequence_items == *items);
                            assert(decreases_to!(e.value => e.value->Sequence_items));
                            assert(decreases_to!(e.value->Sequence_items
                                => e.value->Sequence_items@));
                            assert(decreases_to!(e.value->Sequence_items@
                                => e.value->Sequence_items@[k as int]));
                            assert(decreases_to!(*e => items@[k as int]));
                        }
                        let mut sub = emit_elems(&items[k], &ip, store);
                        let ghost subv = sub@;
                        out.append(&mut sub);
                        proof {
                            assert(out@ =~= out0.push(item_header) + subv);
                            lemma_rows_view_concat(out0.push(item_header), subv);
                            assert(rows_view(out0.push(item_header)) =~= rows_view(out0).push(
                                item_header@,
                            ));
                        }
                    } else {
                        proof {
                            assert(rows_view(out@) =~= rows_view(out0).push(item_header@));
                        }
                    }
                    proof {
                        let hdr = seq![item_header_row(k as nat, ip@, store@)];
                        let sub_rows = if lookup(store@, ip@) {
                            rows_of_elems(items@[k as int].elements@, ip@, store@)
                        } else {
                            Seq::<RowV>::empty()
                        };
                        assert(seq_items_rows(items@, k as int, own@, store@) == hdr + sub_rows
                            + seq_items_rows(items@, k as int + 1, own@, store@));
                        assert(rows_view(out@) =~= rows_view(out0) + (hdr + sub_rows));
                        assert(rows_view(out0) + (hdr + sub_rows) + seq_items_rows(
                            items@,
                            k as int + 1,
                            own@,
                            store@,
                        ) =~= rows_view(out0) + (hdr + sub_rows + seq_items_rows(
                            items@,
                            k as int + 1,
                            own@,
                            store@,
                        )));
                    }
                    k = k + 1;
                }
                proof {
                    assert(seq_items_rows(items@, items@.len() as int, own@, store@)
                        =~= Seq::<RowV>::empty());
                    assert(rows_view(out@) + Seq::<RowV>::empty() =~= rows_view(out@));
                }
            } else {
                proof {
                    assert(rows_view(out@) =~= seq![element_row(*e, path@, store@)]);
                    assert(rows_view(out@) =~= target);
                }
            }
        },
        DataValue::Encapsulated { vr, fragments } => {
            let n = fragments.len();
            let expanded_flag = store.is_expanded(&own);
            let header = Row {
                depth: path.depth(),
                label: e.name.clone(),
                type_tag: vr.clone(),
                length_display: usize_to_string(n),
                value_preview: String::new(),
                is_expandable: n > 0,
                is_expanded: if n == 0 {
                    None
                } else {
                    Some(expanded_flag)
                },
                path: own.clone(),
            };
            proof {
                assert(header@ == element_row(*e, path@, store@));
            }
            out.push(header);
            if expanded_flag {
                proof {
                    assert(rows_view(out@) =~= seq![element_row(*e, path@, store@)]
                        + encap_rows(fragments@, own@).take(0));
                }
                let mut k: usize = 0;
                while k < fragments.len()
                    invariant
                        k <= fragments@.len(),
                        own@ == path@.push(Step::Element(e.tag)),
                        rows_view(out@) == seq![element_row(*e, path@, store@)] + encap_rows(
                            fragments@,
                            own@,
                        ).take(k as int),
                    decreases fragments@.len() - k,
                {
                    let ghost out0 = out@;
                    let item_row = Row {
                        depth: own.depth(),
                        label: ("Item ".to_owned()).concat(usize_to_string(k).as_str()),
                        type_tag: String::new(),
                        length_display: usize_to_string(fragments[k].len()),
                        value_preview: String::new(),
                        is_expandable: false,
                        is_expanded: None,
                        path: own.with_item_descent(k),
                    };
                    proof {
                        assert(encap_rows(fragments@, own@)[k as int] == encap_item_row(
                            k as nat,
                            fragments@[k as int]@.len(),
                            own@,
                        ));
                        assert(item_row@ == encap_rows(fragments@, own@)[k as int]);
                    }
                    out.push(item_row);
                    proof {
                        assert(rows_view(out@) =~= rows_view(out0).push(item_row@));
                        assert(encap_rows(fragments@, own@).take(k as int + 1) =~= encap_rows(
                            fragments@,
                            own@,
                        ).take(k as int).push(encap_rows(fragments@, own@)[k as int]));
                        assert(rows_view(out@) =~= seq![element_row(*e, path@, store@)]
                            + encap_rows(fragments@, own@).take(k as int + 1));
                    }
                    k = k + 1;
                }
                proof {
                    assert(encap_rows(fragments@, own@).take(fragments@.len() as int)
                        =~= encap_rows(fragments@, own@));
                    assert(rows_view(out@) =~= target);
                }
            } else {
                proof {
                    assert(rows_view(out@) =~= target);
                }
            }
        },
        DataValue::Scalar { vr, bytes, preview } => {
            let row = Row {
                depth: path.depth(),
                label: e.name.clone(),
                type_tag: vr.clone(),
                length_display: usize_to_string(bytes.len()),
                value_preview: preview.clone(),
                is_expandable: false,
                is_expanded: None,
                path: own,
            };
            proof {
                assert(row@ == element_row(*e, path@, store@));
            }
            out.push(row);
            proof {
                assert(rows_view(out@) =~= target);
            }
        },
    }
    out
}

fn emit_elems(ds: &DataSet, path: &Path, store: &ExpansionStore) -> (out: Vec<Row>)
    requires
        store.inv(),
    ensures
        rows_view(out@) == rows_of_elems(ds.elements@, path@, store@),
    decreases *ds,
{
    let mut out: Vec<Row> = Vec::new();
    proof {
        assert(ds.elements@.take(0) =~= Seq::<DataElement>::empty());
        assert(rows_view(out@) =~= Seq::<RowV>::empty());
    }
    let mut j: usize = 0;
    while j < ds.elements.len()
        invariant
            store.inv(),
            j <= ds.elements@.len(),
            rows_view(out@) == rows_of_elems(ds.elements@.take(j as int), path@, store@),
        decreases ds.elements@.len() - j,
    {
        let ghost out0 = out@;
        proof {
            assert(decreases_to!(*ds => ds.elements@[j as int]));
        }
        let mut sub = emit_elem(&ds.elements[j], path, store);
        let ghost subv = sub@;
        out.append(&mut sub);
        proof {
            assert(out@ =~= out0 + subv);
            lemma_rows_view_concat(out0, subv);
            lemma_rows_of_elems_take_step(ds.elements@, j as int, path@, store@);
        }
        j = j + 1;
    }
    proof {
        assert(ds.elements@.take(ds.elements@.len() as int) =~= ds.elements@);
    }
    out
}

/// The ordered list of every row currently visible below the subtree root
/// `start`: the lazily-computed display list for the whole document when
/// `start` is the empty path. Yields nothing when `start` does not resolve.
pub fn visible_rows(root: &DataSet, start: &Path, store: &ExpansionStore) -> (out: Vec<Row>)
    requires
        store.inv(),
    ensures
        rows_view(out@) == spec_visible_rows(*root, start@, store@),
{
    match resolve(root, start) {
        Some(ds) => emit_elems(ds, start, store),
        None => {
            let out: Vec<Row> = Vec::new();
            proof {
                assert(rows_view(out@) =~= Seq::<RowV>::empty());
            }
            out
        },
    }
}

} // verus!
