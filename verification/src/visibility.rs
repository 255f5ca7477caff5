//! The visibility law for the traversal: a row for a nested node is present
//! in the output if and only if the node exists in the model and every
//! ancestor path on the route to it is expanded.

use crate::expansion::lookup;
use crate::model::{find_elem, wf_data_set, wf_data_value, wf_elems, DataElement, DataSet,
    DataValue};
use crate::path::{alternating, Step};
use crate::rows::{elem_rows, encap_rows, rows_of_elems, seq_items_rows, spec_visible_rows, RowV};
use vstd::prelude::*;

verus! {

/// Whether some row of `rows` carries exactly the path `p`.
pub open spec fn contains_path(rows: Seq<RowV>, p: Seq<Step>) -> bool {
    exists|i: int| 0 <= i < rows.len() && rows[i].path == p
}

/// Every proper nonempty prefix of `base + suffix` that extends `base` is
/// expanded: these are exactly the expandable ancestors that gate the node at
/// `base + suffix` inside the subtree rooted at `base`.
pub open spec fn rel_gates(base: Seq<Step>, suffix: Seq<Step>, store: Map<Seq<Step>, bool>) -> bool {
    forall|i: int| 1 <= i < suffix.len() ==> lookup(store, base + suffix.take(i))
}

/// Whether the relative path `suffix` addresses a row-producing node inside
/// the subtree of element `e`: `e`'s own row, one of its item headers or
/// binary items, or, recursively, a node inside one of its items.
pub open spec fn row_path_in_elem(e: DataElement, suffix: Seq<Step>) -> bool
    decreases suffix.len(), 0int,
{
    if suffix.len() == 0 {
        false
    } else if suffix[0] != Step::Element(e.tag) {
        false
    } else if suffix.len() == 1 {
        true
    } else {
        match (e.value, suffix[1]) {
            (DataValue::Sequence { items }, Step::Item(i)) => (i as int) < items@.len() && (
            suffix.len() == 2 || row_path_in_list(items@[i as int].elements@, suffix.skip(2))),
            (DataValue::Encapsulated { vr, fragments }, Step::Item(i)) => suffix.len() == 2 && (
            i as int) < fragments@.len(),
            _ => false,
        }
    }
}

/// Whether the relative path `suffix` addresses a row-producing node inside
/// the element list `elems`.
pub open spec fn row_path_in_list(elems: Seq<DataElement>, suffix: Seq<Step>) -> bool
    decreases suffix.len(), 1int,
{
    if suffix.len() == 0 {
        false
    } else {
        match suffix[0] {
            Step::Element(t) => match find_elem(elems, t) {
                Some(j) => row_path_in_elem(elems[j], suffix),
                None => false,
            },
            Step::Item(_) => false,
        }
    }
}

/// `p` lies strictly below `base`.
pub open spec fn scoped_under(p: Seq<Step>, base: Seq<Step>) -> bool {
    p.len() > base.len() && p.take(base.len() as int) == base
}

proof fn lemma_contains_concat(a: Seq<RowV>, b: Seq<RowV>, p: Seq<Step>)
    ensures
        contains_path(a + b, p) <==> (contains_path(a, p) || contains_path(b, p)),
{
    if contains_path(a + b, p) {
        let i = choose|i: int| 0 <= i < (a + b).len() && (a + b)[i].path == p;
        if i < a.len() {
            assert(a[i].path == p);
        } else {
            assert(b[i - a.len()].path == p);
        }
    }
    if contains_path(a, p) {
        let i = choose|i: int| 0 <= i < a.len() && a[i].path == p;
        assert((a + b)[i].path == p);
    }
    if contains_path(b, p) {
        let i = choose|i: int| 0 <= i < b.len() && b[i].path == p;
        assert((a + b)[a.len() + i].path == p);
    }
}

proof fn lemma_gates_shift(base: Seq<Step>, suffix: Seq<Step>, store: Map<Seq<Step>, bool>)
    requires
        suffix.len() >= 1,
    ensures
        rel_gates(base, suffix, store) <==> (suffix.len() == 1 || (lookup(
            store,
            base.push(suffix[0]),
        ) && rel_gates(base.push(suffix[0]), suffix.skip(1), store))),
{
    let own = base.push(suffix[0]);
    assert(base + suffix.take(1) =~= own);
    assert forall|i: int| 2 <= i < suffix.len() implies base + suffix.take(i) == own
        + suffix.skip(1).take(i - 1) by {
        assert(base + suffix.take(i) =~= own + suffix.skip(1).take(i - 1));
    }
    if rel_gates(base, suffix, store) && suffix.len() > 1 {
        assert(lookup(store, base + suffix.take(1)));
        assert forall|i: int| 1 <= i < suffix.skip(1).len() implies lookup(
            store,
            own + suffix.skip(1).take(i),
        ) by {
            assert(lookup(store, base + suffix.take(i + 1)));
        }
    }
    if suffix.len() == 1 {
        assert(rel_gates(base, suffix, store));
    } else if lookup(store, own) && rel_gates(own, suffix.skip(1), store) {
        assert forall|i: int| 1 <= i < suffix.len() implies lookup(store, base + suffix.take(i)) by {
            if i >= 2 {
                assert(lookup(store, own + suffix.skip(1).take(i - 1)));
            }
        }
    }
}

proof fn lemma_scoped_below(p: Seq<Step>, base: Seq<Step>, s: Step)
    requires
        scoped_under(p, base.push(s)),
    ensures
        scoped_under(p, base),
        p[base.len() as int] == s,
{
    let own = base.push(s);
    assert(p.take(base.len() as int) =~= base) by {
        assert(forall|i: int| 0 <= i < own.len() ==> p[i] == #[trigger] p.take(own.len() as int)[i]);
        assert(forall|i: int| 0 <= i < base.len() ==> own[i] == base[i]);
    }
    assert(p[base.len() as int] == p.take(own.len() as int)[base.len() as int]);
}

proof fn lemma_rows_of_elems_scope(
    elems: Seq<DataElement>,
    base: Seq<Step>,
    store: Map<Seq<Step>, bool>,
)
    ensures
        forall|i: int|
            0 <= i < rows_of_elems(elems, base, store).len() ==> scoped_under(
                (#[trigger] rows_of_elems(elems, base, store)[i]).path,
                base,
            ) && exists|j: int|
                0 <= j < elems.len() && rows_of_elems(elems, base, store)[i].path[base.len() as int]
                    == Step::Element(elems[j].tag),
    decreases elems, 0int, 0int,
{
    if elems.len() > 0 {
        let a = elem_rows(elems.first(), base, store);
        let b = rows_of_elems(elems.drop_first(), base, store);
        lemma_elem_rows_scope(elems.first(), base, store);
        lemma_rows_of_elems_scope(elems.drop_first(), base, store);
        assert(rows_of_elems(elems, base, store) == a + b);
        assert forall|i: int| 0 <= i < (a + b).len() implies scoped_under(
            (#[trigger] (a + b)[i]).path,
            base,
        ) && exists|j: int|
            0 <= j < elems.len() && (a + b)[i].path[base.len() as int] == Step::Element(
                elems[j].tag,
            ) by {
            if i < a.len() {
                assert((a + b)[i] == a[i]);
                assert((a + b)[i].path[base.len() as int] == Step::Element(elems[0].tag));
            } else {
                assert((a + b)[i] == b[i - a.len()]);
                let j = choose|j: int|
                    0 <= j < elems.drop_first().len() && b[i - a.len()].path[base.len() as int]
                        == Step::Element(elems.drop_first()[j].tag);
                assert(elems.drop_first()[j] == elems[j + 1]);
                assert((a + b)[i].path[base.len() as int] == Step::Element(elems[j + 1].tag));
            }
        }
    }
}

proof fn lemma_elem_rows_scope(e: DataElement, base: Seq<Step>, store: Map<Seq<Step>, bool>)
    ensures
        forall|i: int|
            0 <= i < elem_rows(e, base, store).len() ==> scoped_under(
                (#[trigger] elem_rows(e, base, store)[i]).path,
                base,
            ) && elem_rows(e, base, store)[i].path[base.len() as int] == Step::Element(e.tag),
    decreases e, 1int, 0int,
{
    let own = base.push(Step::Element(e.tag));
    assert(own.take(base.len() as int) =~= base);
    match e.value {
        DataValue::Sequence { items } => {
            if lookup(store, own) {
                vstd::std_specs::vec::axiom_spec_len(&items);
                lemma_seq_items_rows_scope(items@, 0, own, store);
                let sub = seq_items_rows(items@, 0, own, store);
                assert forall|i: int| 0 <= i < sub.len() implies scoped_under(
                    (#[trigger] sub[i]).path,
                    base,
                ) && sub[i].path[base.len() as int] == Step::Element(e.tag) by {
                    lemma_scoped_below(sub[i].path, base, Step::Element(e.tag));
                }
            }
        },
        DataValue::Encapsulated { vr, fragments } => {
            if lookup(store, own) {
                let sub = encap_rows(fragments@, own);
                assert forall|i: int| 0 <= i < sub.len() implies scoped_under(
                    (#[trigger] sub[i]).path,
                    base,
                ) && sub[i].path[base.len() as int] == Step::Element(e.tag) by {
                    assert(sub[i].path == own.push(Step::Item(i as usize)));
                    assert(sub[i].path.take(own.len() as int) =~= own);
                    lemma_scoped_below(sub[i].path, base, Step::Element(e.tag));
                }
            }
        },
        DataValue::Scalar { .. } => {},
    }
}

proof fn lemma_seq_items_rows_scope(
    items: Seq<DataSet>,
    k: int,
    sp: Seq<Step>,
    store: Map<Seq<Step>, bool>,
)
    requires
        0 <= k,
        items.len() <= usize::MAX,
    ensures
        forall|i: int|
            0 <= i < seq_items_rows(items, k, sp, store).len() ==> scoped_under(
                (#[trigger] seq_items_rows(items, k, sp, store)[i]).path,
                sp,
            ) && (seq_items_rows(items, k, sp, store)[i].path[sp.len() as int] matches Step::Item(
                idx,
            ) && k <= idx as int && (idx as int) < items.len()),
    decreases items, 0int, items.len() - k,
{
    if k < items.len() {
        let ip = sp.push(Step::Item(k as usize));
        assert(ip.take(sp.len() as int) =~= sp);
        let hdr = seq![crate::rows::item_header_row(k as nat, ip, store)];
        let sub = if lookup(store, ip) {
            rows_of_elems(items[k].elements@, ip, store)
        } else {
            Seq::<RowV>::empty()
        };
        let rest = seq_items_rows(items, k + 1, sp, store);
        assert(seq_items_rows(items, k, sp, store) == hdr + sub + rest);
        lemma_rows_of_elems_scope(items[k].elements@, ip, store);
        lemma_seq_items_rows_scope(items, k + 1, sp, store);
        assert forall|i: int| 0 <= i < (hdr + sub + rest).len() implies scoped_under(
            (#[trigger] (hdr + sub + rest)[i]).path,
            sp,
        ) && ((hdr + sub + rest)[i].path[sp.len() as int] matches Step::Item(idx) && k <= idx as int
            && (idx as int) < items.len()) by {
            if i < 1 {
                assert((hdr + sub + rest)[i] == hdr[0]);
                assert((hdr + sub + rest)[i].path[sp.len() as int] == Step::Item(k as usize));
            } else if i < 1 + sub.len() {
                assert((hdr + sub + rest)[i] == sub[i - 1]);
                lemma_scoped_below(sub[i - 1].path, sp, Step::Item(k as usize));
                assert((hdr + sub + rest)[i].path[sp.len() as int] == Step::Item(k as usize));
            } else {
                assert((hdr + sub + rest)[i] == rest[i - 1 - sub.len()]);
            }
        }
    }
}

#[verifier::rlimit(60)]
proof fn lemma_vis_elem(
    e: DataElement,
    base: Seq<Step>,
    store: Map<Seq<Step>, bool>,
    suffix: Seq<Step>,
)
    requires
        wf_data_value(e.value),
        suffix.len() >= 1,
    ensures
        contains_path(elem_rows(e, base, store), base + suffix) <==> (row_path_in_elem(e, suffix)
            && rel_gates(base, suffix, store)),
    decreases e, 1int, 0int,
{
    let rows = elem_rows(e, base, store);
    let own = base.push(Step::Element(e.tag));
    let hdr = crate::rows::element_row(e, base, store);
    let p = base + suffix;
    assert(p.skip(base.len() as int) =~= suffix);
    assert(p[base.len() as int] == suffix[0]);
    let sub = rows.skip(1);
    assert(rows == seq![hdr] + sub) by {
        assert(rows =~= seq![hdr] + rows.skip(1));
    }
    lemma_contains_concat(seq![hdr], sub, p);
    assert(contains_path(seq![hdr], p) <==> hdr.path == p) by {
        if hdr.path == p {
            assert(seq![hdr][0].path == p);
        }
    }
    lemma_elem_rows_scope(e, base, store);
    assert forall|i: int| 0 <= i < sub.len() implies scoped_under(
        (#[trigger] sub[i]).path,
        own,
    ) by {
        match e.value {
            DataValue::Sequence { items } => {
                vstd::std_specs::vec::axiom_spec_len(&items);
                if lookup(store, own) {
                    lemma_seq_items_rows_scope(items@, 0, own, store);
                    assert(sub =~= seq_items_rows(items@, 0, own, store));
                    assert(scoped_under(seq_items_rows(items@, 0, own, store)[i].path, own));
                }
            },
            DataValue::Encapsulated { vr, fragments } => {
                if lookup(store, own) {
                    assert(sub =~= encap_rows(fragments@, own));
                    assert(sub[i].path == own.push(Step::Item(i as usize)));
                    assert(sub[i].path.take(own.len() as int) =~= own);
                }
            },
            DataValue::Scalar { .. } => {},
        }
    }
    if suffix.len() == 1 {
        assert(rel_gates(base, suffix, store));
        // Below the header everything is strictly deeper than `p`.
        assert(!contains_path(sub, p)) by {
            if contains_path(sub, p) {
                let i = choose|i: int| 0 <= i < sub.len() && sub[i].path == p;
                assert(scoped_under(sub[i].path, own));
            }
        }
        if suffix[0] == Step::Element(e.tag) {
            assert(p =~= own);
            assert(hdr.path == p);
            assert(row_path_in_elem(e, suffix));
        } else {
            assert(hdr.path != p) by {
                if hdr.path == p {
                    assert(own[base.len() as int] == Step::Element(e.tag));
                }
            }
            assert(!row_path_in_elem(e, suffix));
        }
    } else {
        assert(hdr.path != p) by {
            assert(p.len() == base.len() + suffix.len());
        }
        lemma_gates_shift(base, suffix, store);
        assert(base.push(suffix[0]) == own <==> suffix[0] == Step::Element(e.tag)) by {
            if base.push(suffix[0]) == own {
                assert(base.push(suffix[0])[base.len() as int] == suffix[0]);
            }
        }
        if suffix[0] != Step::Element(e.tag) {
            assert(!contains_path(sub, p)) by {
                if contains_path(sub, p) {
                    let i = choose|i: int| 0 <= i < sub.len() && sub[i].path == p;
                    lemma_scoped_below(sub[i].path, base, Step::Element(e.tag));
                }
            }
            assert(!row_path_in_elem(e, suffix));
        } else {
            assert(p =~= own + suffix.skip(1));
            match e.value {
                DataValue::Sequence { items } => {
                    vstd::std_specs::vec::axiom_spec_len(&items);
                    if !lookup(store, own) {
                        assert(sub =~= Seq::<RowV>::empty());
                        assert(!rel_gates(base, suffix, store));
                    } else {
                        assert(sub =~= seq_items_rows(items@, 0, own, store));
                        lemma_vis_items(items@, 0, own, store, suffix.skip(1));
                        assert(suffix.skip(1)[0] == suffix[1]);
                        assert(suffix.skip(1).skip(1) =~= suffix.skip(2));
                        assert(suffix.skip(1).len() == 1 <==> suffix.len() == 2);
                    }
                },
                DataValue::Encapsulated { vr, fragments } => {
                    vstd::std_specs::vec::axiom_spec_len(&fragments);
                    if !lookup(store, own) {
                        assert(sub =~= Seq::<RowV>::empty());
                        assert(!rel_gates(base, suffix, store));
                    } else {
                        assert(sub =~= encap_rows(fragments@, own));
                        if contains_path(sub, p) {
                            let i = choose|i: int| 0 <= i < sub.len() && sub[i].path == p;
                            assert(sub[i].path == own.push(Step::Item(i as usize)));
                            assert(p.len() == own.len() + 1);
                            assert(suffix.len() == 2);
                            assert(p[own.len() as int] == suffix[1]);
                            assert(own.push(Step::Item(i as usize))[own.len() as int]
                                == Step::Item(i as usize));
                            assert(suffix[1] == Step::Item(i as usize));
                            assert(row_path_in_elem(e, suffix));
                        }
                        if row_path_in_elem(e, suffix) && rel_gates(base, suffix, store) {
                            let idx = suffix[1]->Item_0;
                            assert(suffix.len() == 2);
                            assert(encap_rows(fragments@, own)[idx as int].path == own.push(
                                Step::Item(idx),
                            ));
                            assert(suffix.skip(1) =~= seq![suffix[1]]);
                            assert(own + suffix.skip(1) =~= own.push(Step::Item(idx)));
                            assert(sub[idx as int].path == p);
                            assert(contains_path(sub, p));
                        }
                    }
                },
                DataValue::Scalar { .. } => {
                    assert(sub =~= Seq::<RowV>::empty());
                    assert(!row_path_in_elem(e, suffix));
                },
            }
        }
    }
}

proof fn lemma_vis_items(
    items: Seq<DataSet>,
    k: int,
    sp: Seq<Step>,
    store: Map<Seq<Step>, bool>,
    suffix: Seq<Step>,
)
    requires
        forall|i: int| 0 <= i < items.len() ==> wf_data_set(#[trigger] items[i]),
        0 <= k,
        items.len() <= usize::MAX,
        suffix.len() >= 1,
    ensures
        contains_path(seq_items_rows(items, k, sp, store), sp + suffix) <==> {
            &&& suffix[0] matches Step::Item(idx)
            &&& k <= idx as int
            &&& (idx as int) < items.len()
            &&& (suffix.len() == 1 || row_path_in_list(
                items[suffix[0]->Item_0 as int].elements@,
                suffix.skip(1),
            ))
            &&& rel_gates(sp, suffix, store)
        },
    decreases items, 0int, items.len() - k,
{
    let p = sp + suffix;
    assert(p[sp.len() as int] == suffix[0]);
    if k >= items.len() {
        assert(!contains_path(seq_items_rows(items, k, sp, store), p));
    } else {
        let ip = sp.push(Step::Item(k as usize));
        let hdr = seq![crate::rows::item_header_row(k as nat, ip, store)];
        let sub = if lookup(store, ip) {
            rows_of_elems(items[k].elements@, ip, store)
        } else {
            Seq::<RowV>::empty()
        };
        let rest = seq_items_rows(items, k + 1, sp, store);
        assert(seq_items_rows(items, k, sp, store) == hdr + sub + rest);
        lemma_contains_concat(hdr + sub, rest, p);
        lemma_contains_concat(hdr, sub, p);
        lemma_vis_items(items, k + 1, sp, store, suffix);
        lemma_gates_shift(sp, suffix, store);
        assert(contains_path(hdr, p) <==> hdr[0].path == p) by {
            if hdr[0].path == p {
                assert(hdr[0].path == p);
            }
        }
        if lookup(store, ip) {
            lemma_rows_of_elems_scope(items[k].elements@, ip, store);
        }
        if suffix[0] == Step::Item(k as usize) {
            assert((k as usize) as int == k);
            // Rows for later items carry a different first step, so they
            // cannot hold this path.
            assert(!contains_path(rest, p));
            assert(sp.push(suffix[0]) == ip);
            if suffix.len() == 1 {
                assert(p =~= ip);
                assert(hdr[0].path == p);
                assert(rel_gates(sp, suffix, store));
                assert(!contains_path(sub, p)) by {
                    if contains_path(sub, p) {
                        let i = choose|i: int| 0 <= i < sub.len() && sub[i].path == p;
                        assert(scoped_under(sub[i].path, ip));
                    }
                }
                assert(contains_path(seq_items_rows(items, k, sp, store), p));
            } else {
                assert(hdr[0].path != p) by {
                    assert(p.len() == sp.len() + suffix.len());
                }
                if !lookup(store, ip) {
                    assert(!contains_path(sub, p));
                    assert(!rel_gates(sp, suffix, store));
                } else {
                    assert(wf_elems(items[k].elements@));
                    lemma_vis_list(items[k].elements@, ip, store, suffix.skip(1));
                    assert(p =~= ip + suffix.skip(1));
                }
            }
        } else {
            assert(hdr[0].path != p) by {
                if hdr[0].path == p {
                    assert(ip[sp.len() as int] == Step::Item(k as usize));
                }
            }
            assert(!contains_path(sub, p)) by {
                if contains_path(sub, p) {
                    let i = choose|i: int| 0 <= i < sub.len() && sub[i].path == p;
                    lemma_scoped_below(sub[i].path, sp, Step::Item(k as usize));
                }
            }
            // Either the first step is not an item step at all, or it names a
            // later item, so the question reduces to the remaining items.
            if suffix[0] is Item {
                let idx = suffix[0]->Item_0;
                assert(idx as int != k) by {
                    if idx as int == k {
                        assert(idx == k as usize);
                    }
                }
            }
        }
    }
}

proof fn lemma_vis_list(
    elems: Seq<DataElement>,
    base: Seq<Step>,
    store: Map<Seq<Step>, bool>,
    suffix: Seq<Step>,
)
    requires
        wf_elems(elems),
        suffix.len() >= 1,
    ensures
        contains_path(rows_of_elems(elems, base, store), base + suffix) <==> (row_path_in_list(
            elems,
            suffix,
        ) && rel_gates(base, suffix, store)),
    decreases elems, 0int, 0int,
{
    let p = base + suffix;
    assert(p[base.len() as int] == suffix[0]);
    if elems.len() == 0 {
        assert(!contains_path(rows_of_elems(elems, base, store), p));
        assert(!row_path_in_list(elems, suffix));
    } else {
        let first = elems.first();
        let dropped = elems.drop_first();
        let a = elem_rows(first, base, store);
        let b = rows_of_elems(dropped, base, store);
        assert(rows_of_elems(elems, base, store) == a + b);
        lemma_contains_concat(a, b, p);
        assert(wf_elems(dropped)) by {
            assert(forall|i: int| 0 <= i < dropped.len() ==> dropped[i] == elems[i + 1]);
        }
        assert(wf_data_value(first.value));
        lemma_vis_elem(first, base, store, suffix);
        lemma_vis_list(dropped, base, store, suffix);
        lemma_elem_rows_scope(first, base, store);
        lemma_rows_of_elems_scope(dropped, base, store);
        match suffix[0] {
            Step::Element(t) => {
                if first.tag == t {
                    assert(find_elem(elems, t) == Some(0int));
                    assert(!contains_path(b, p)) by {
                        if contains_path(b, p) {
                            let i = choose|i: int| 0 <= i < b.len() && b[i].path == p;
                            let j = choose|j: int|
                                0 <= j < dropped.len() && b[i].path[base.len() as int]
                                    == Step::Element(dropped[j].tag);
                            assert(dropped[j] == elems[j + 1]);
                            assert(elems[j + 1].tag != elems[0].tag);
                        }
                    }
                    assert(row_path_in_list(elems, suffix) == row_path_in_elem(first, suffix));
                } else {
                    assert(!contains_path(a, p)) by {
                        if contains_path(a, p) {
                            let i = choose|i: int| 0 <= i < a.len() && a[i].path == p;
                            assert(a[i].path[base.len() as int] == Step::Element(first.tag));
                        }
                    }
                    assert(!row_path_in_elem(first, suffix));
                    // The first element's tag differs, so looking the tag up
                    // in the full list is looking it up in the remainder.
                    assert(row_path_in_list(elems, suffix) == row_path_in_list(
                        dropped,
                        suffix,
                    )) by {
                        crate::model::lemma_find_elem(dropped, t);
                        match find_elem(dropped, t) {
                            Some(j) => {
                                assert(find_elem(elems, t) == Some(j + 1));
                                assert(elems[j + 1] == dropped[j]);
                            },
                            None => {
                                assert(find_elem(elems, t) is None);
                            },
                        }
                    }
                }
            },
            Step::Item(_) => {
                assert(!row_path_in_list(elems, suffix));
                assert(!contains_path(a, p)) by {
                    if contains_path(a, p) {
                        let i = choose|i: int| 0 <= i < a.len() && a[i].path == p;
                        assert(a[i].path[base.len() as int] == Step::Element(first.tag));
                    }
                }
                assert(!contains_path(b, p)) by {
                    if contains_path(b, p) {
                        let i = choose|i: int| 0 <= i < b.len() && b[i].path == p;
                        let j = choose|j: int|
                            0 <= j < dropped.len() && b[i].path[base.len() as int]
                                == Step::Element(dropped[j].tag);
                    }
                }
            },
        }
    }
}

/// Paths that address a node in a model alternate strictly: an item descent
/// only ever follows an element descent, and a document-root-relative path
/// starts with an element descent.
pub proof fn lemma_row_paths_alternate(elems: Seq<DataElement>, suffix: Seq<Step>)
    requires
        row_path_in_list(elems, suffix),
    ensures
        alternating(suffix),
    decreases suffix.len(),
{
    let j = find_elem(elems, suffix[0]->Element_0)->Some_0;
    let e = elems[j];
    if suffix.len() >= 3 {
        let items = e.value->Sequence_items;
        let i = suffix[1]->Item_0;
        lemma_row_paths_alternate(items@[i as int].elements@, suffix.skip(2));
        assert forall|n: int| 0 <= n < suffix.len() implies ((suffix[n] is Item) <==> n % 2
            == 1) by {
            if n >= 2 {
                assert(suffix.skip(2)[n - 2] == suffix[n]);
                assert((suffix[n] is Item) <==> (n - 2) % 2 == 1);
            }
        }
    }
}

/// Traversal visibility: a row carrying path `p` appears in the traversal of
/// the whole document if and only if `p` addresses a node that exists in the
/// model and every ancestor on the route to that node is expanded (elements
/// of the root list are visible unconditionally).
pub proof fn lemma_traversal_visibility(
    root: DataSet,
    store: Map<Seq<Step>, bool>,
    p: Seq<Step>,
)
    requires
        wf_data_set(root),
        p.len() >= 1,
    ensures
        contains_path(spec_visible_rows(root, Seq::empty(), store), p) <==> (row_path_in_list(
            root.elements@,
            p,
        ) && (forall|i: int| 1 <= i < p.len() ==> lookup(store, #[trigger] p.take(i)))),
{
    let empty = Seq::<Step>::empty();
    assert(crate::rows::spec_resolve(root, empty) == Some(root));
    lemma_vis_list(root.elements@, empty, store, p);
    assert(empty + p =~= p);
    assert forall|i: int| 1 <= i < p.len() implies (empty + p.take(i) == p.take(i)) by {
        assert(empty + p.take(i) =~= p.take(i));
    }
    assert(rel_gates(empty, p, store) <==> (forall|i: int|
        1 <= i < p.len() ==> lookup(store, #[trigger] p.take(i))));
}

} // verus!
