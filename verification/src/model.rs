//! The in-memory data model the traversal reads.
//!
//! A document is a tree of element lists: each element carries a tag, a
//! display name, and a value that is either a sequence of nested item lists,
//! an encapsulated list of opaque binary items, or a scalar byte buffer with
//! a type marker and a pre-rendered, bounded-length preview. Display names
//! and previews are plain values supplied by whoever builds the model (the
//! decoding collaborator); the traversal only reads them. The core never
//! mutates a model.

use crate::path::Tag;
use vstd::prelude::*;

verus! {

/// The value of one data element.
pub enum DataValue {
    /// An ordered list of item element-lists (nested documents).
    Sequence { items: Vec<DataSet> },
    /// An ordered list of opaque binary items, with the element's type
    /// marker.
    Encapsulated { vr: String, fragments: Vec<Vec<u8>> },
    /// A scalar byte buffer with its type marker and a display preview whose
    /// length was already bounded by the formatting collaborator.
    Scalar { vr: String, bytes: Vec<u8>, preview: String },
}

/// One tagged element of an element list.
pub struct DataElement {
    pub tag: Tag,
    pub name: String,
    pub value: DataValue,
}

/// One level of the nested document: an ordered mapping from tags to values.
pub struct DataSet {
    pub elements: Vec<DataElement>,
}

/// The first position holding `tag`, if any.
pub open spec fn find_elem(elems: Seq<DataElement>, tag: Tag) -> Option<int>
    decreases elems.len(),
{
    if elems.len() == 0 {
        None
    } else if elems[0].tag == tag {
        Some(0)
    } else {
        match find_elem(elems.drop_first(), tag) {
            Some(j) => Some(j + 1),
            None => None,
        }
    }
}

/// What `find_elem` finds: the first position holding the tag, or no
/// position at all.
pub proof fn lemma_find_elem(elems: Seq<DataElement>, tag: Tag)
    ensures
        match find_elem(elems, tag) {
            Some(j) => 0 <= j < elems.len() && elems[j].tag == tag && (forall|k: int|
                0 <= k < j ==> elems[k].tag != tag),
            None => forall|k: int| 0 <= k < elems.len() ==> elems[k].tag != tag,
        },
    decreases elems.len(),
{
    if elems.len() > 0 && elems[0].tag != tag {
        lemma_find_elem(elems.drop_first(), tag);
        match find_elem(elems.drop_first(), tag) {
            Some(j) => {
                assert(elems[j + 1] == elems.drop_first()[j]);
                assert forall|k: int| 0 <= k < j + 1 implies elems[k].tag != tag by {
                    if k >= 1 {
                        assert(elems[k] == elems.drop_first()[k - 1]);
                    }
                }
            },
            None => {
                assert forall|k: int| 0 <= k < elems.len() implies elems[k].tag != tag by {
                    if k >= 1 {
                        assert(elems[k] == elems.drop_first()[k - 1]);
                    }
                }
            },
        }
    }
}

/// Tags are unique within every element list of the tree.
pub open spec fn wf_data_set(ds: DataSet) -> bool
    decreases ds, 2int,
{
    wf_elems(ds.elements@)
}

/// Tags are unique within this element list and every value in it is
/// well-formed.
pub open spec fn wf_elems(elems: Seq<DataElement>) -> bool
    decreases elems, 1int,
{
    &&& forall|i: int, j: int| 0 <= i < j < elems.len() ==> elems[i].tag != elems[j].tag
    &&& forall|i: int| 0 <= i < elems.len() ==> wf_data_value(#[trigger] elems[i].value)
}

pub open spec fn wf_data_value(v: DataValue) -> bool
    decreases v, 0int,
{
    match v {
        DataValue::Sequence { items } => forall|i: int|
            0 <= i < items@.len() ==> wf_data_set(#[trigger] items@[i]),
        DataValue::Encapsulated { .. } => true,
        DataValue::Scalar { .. } => true,
    }
}

fn tags_unique(elems: &Vec<DataElement>) -> (r: bool)
    ensures
        r == (forall|i: int, j: int|
            0 <= i < j < elems@.len() ==> elems@[i].tag != elems@[j].tag),
{
    let mut i: usize = 0;
    while i < elems.len()
        invariant
            i <= elems@.len(),
            forall|a: int, b: int| 0 <= a < b < elems@.len() && a < i ==> elems@[a].tag
                != elems@[b].tag,
        decreases elems@.len() - i,
    {
        let mut j: usize = i + 1;
        while j < elems.len()
            invariant
                i < j <= elems@.len(),
                forall|b: int| i < b < j ==> elems@[i as int].tag != elems@[b].tag,
            decreases elems@.len() - j,
        {
            if elems[i].tag == elems[j].tag {
                return false;
            }
            j = j + 1;
        }
        i = i + 1;
    }
    true
}

/// Decides well-formedness of a document: whether tags are unique within
/// every element list of the tree.
pub fn is_wf(ds: &DataSet) -> (r: bool)
    ensures
        r == wf_data_set(*ds),
    decreases *ds,
{
    if !tags_unique(&ds.elements) {
        return false;
    }
    let mut j: usize = 0;
    while j < ds.elements.len()
        invariant
            j <= ds.elements@.len(),
            forall|a: int| 0 <= a < j ==> wf_data_value(#[trigger] ds.elements@[a].value),
        decreases ds.elements@.len() - j,
    {
        match &ds.elements[j].value {
            DataValue::Sequence { items } => {
                let mut k: usize = 0;
                while k < items.len()
                    invariant
                        k <= items@.len(),
                        ds.elements@[j as int].value == (DataValue::Sequence { items: *items }),
                        j < ds.elements@.len(),
                        forall|b: int| 0 <= b < k ==> wf_data_set(#[trigger] items@[b]),
                    decreases items@.len() - k,
                {
                    proof {
                        let v = ds.elements@[j as int].value;
                        assert(decreases_to!(*ds => ds.elements@[j as int]));
                        assert(decreases_to!(ds.elements@[j as int] => v));
                        assert(v->Sequence_items == *items);
                        assert(decreases_to!(v => v->Sequence_items));
                        assert(decreases_to!(v->Sequence_items => v->Sequence_items@));
                        assert(decreases_to!(v->Sequence_items@ => v->Sequence_items@[k as int]));
                        assert(decreases_to!(*ds => items@[k as int]));
                    }
                    if !is_wf(&items[k]) {
                        return false;
                    }
                    k = k + 1;
                }
            },
            DataValue::Encapsulated { .. } => {},
            DataValue::Scalar { .. } => {},
        }
        j = j + 1;
    }
    true
}

} // verus!
