//! Path addressing: an immutable sequence of descent steps identifying a
//! location inside the nested data set.
//!
//! A path is empty only at the document root. Descending into the value of a
//! tagged element appends an [`Step::Element`] step; descending into one item
//! of a sequence or of an encapsulated binary value appends an
//! [`Step::Item`] step. Extending a path always builds a new value, so
//! sibling subtrees never observe each other's descents.

use vstd::prelude::*;

verus! {

/// A data element tag: a group and an element number.
#[derive(Clone, Copy, PartialEq, Eq, Structural, Debug, Hash)]
pub struct Tag {
    pub group: u16,
    pub element: u16,
}

/// One descent step of a path.
#[derive(Clone, Copy, PartialEq, Eq, Structural, Debug, Hash)]
pub enum Step {
    /// Descend from an element list into the value of the element with this
    /// tag.
    Element(Tag),
    /// Descend from a sequence or encapsulated binary value into the item
    /// with this zero-based index.
    Item(usize),
}

/// A location inside the nested data set, as the ordered list of descent
/// steps that reaches it from the document root.
#[derive(Debug, Hash)]
pub struct Path {
    steps: Vec<Step>,
}

impl View for Path {
    type V = Seq<Step>;

    closed spec fn view(&self) -> Seq<Step> {
        self.steps@
    }
}

/// Structurally valid paths alternate strictly: steps at even positions
/// descend into an element, steps at odd positions descend into an item, so
/// an item descent only ever follows an element descent.
pub open spec fn alternating(s: Seq<Step>) -> bool {
    forall|i: int| 0 <= i < s.len() ==> ((s[i] is Item) <==> i % 2 == 1)
}

impl Path {
    /// The empty path: the document root.
    pub fn empty() -> (p: Path)
        ensures
            p@ == Seq::<Step>::empty(),
    {
        Path { steps: Vec::new() }
    }

    /// The number of descent steps.
    pub fn depth(&self) -> (d: usize)
        ensures
            d == self@.len(),
    {
        self.steps.len()
    }

    /// The step at position `i`.
    pub fn step_at(&self, i: usize) -> (s: Step)
        requires
            i < self@.len(),
        ensures
            s == self@[i as int],
    {
        self.steps[i]
    }

    fn copied_steps(&self) -> (v: Vec<Step>)
        ensures
            v@ == self@,
    {
        let mut v: Vec<Step> = Vec::new();
        let mut i: usize = 0;
        while i < self.steps.len()
            invariant
                i <= self.steps.len(),
                v@ == self.steps@.take(i as int),
            decreases self.steps.len() - i,
        {
            v.push(self.steps[i]);
            proof {
                assert(v@ =~= self.steps@.take(i + 1));
            }
            i = i + 1;
        }
        proof {
            assert(v@ =~= self.steps@);
        }
        v
    }

    /// A new path that descends from this one into the value of the element
    /// with the given tag. Whether that descent is semantically meaningful
    /// (the element exists and holds nested content) is the caller's
    /// responsibility; the path itself records the steps only.
    pub fn with_element_descent(&self, tag: Tag) -> (p: Path)
        ensures
            p@ == self@.push(Step::Element(tag)),
    {
        let mut steps = self.copied_steps();
        steps.push(Step::Element(tag));
        Path { steps }
    }

    /// A new path that descends from this one into the item with the given
    /// zero-based index.
    pub fn with_item_descent(&self, index: usize) -> (p: Path)
        ensures
            p@ == self@.push(Step::Item(index)),
    {
        let mut steps = self.copied_steps();
        steps.push(Step::Item(index));
        Path { steps }
    }
}

impl Clone for Path {
    fn clone(&self) -> (p: Path)
        ensures
            p@ == self@,
    {
        Path { steps: self.copied_steps() }
    }
}

impl PartialEq for Path {
    fn eq(&self, other: &Path) -> (r: bool) {
        if self.steps.len() != other.steps.len() {
            return false;
        }
        let mut i: usize = 0;
        while i < self.steps.len()
            invariant
                i <= self.steps.len(),
                self.steps.len() == other.steps.len(),
                forall|j: int| 0 <= j < i ==> self.steps@[j] == other.steps@[j],
            decreases self.steps.len() - i,
        {
            if self.steps[i] != other.steps[i] {
                return false;
            }
            i = i + 1;
        }
        proof {
            assert(self.steps@ =~= other.steps@);
        }
        true
    }
}

impl Eq for Path {

}

impl vstd::std_specs::cmp::PartialEqSpecImpl for Path {
    open spec fn obeys_eq_spec() -> bool {
        true
    }

    open spec fn eq_spec(&self, other: &Path) -> bool {
        self@ == other@
    }
}

/// Two paths built by the same sequence of descent operations are equal, and
/// paths built by different step sequences are unequal, whatever their
/// depths: extending a path is injective in both the original path and the
/// appended step.
pub proof fn lemma_path_extension_injective(p: Seq<Step>, q: Seq<Step>, s: Step, t: Step)
    ensures
        (p.push(s) == q.push(t)) <==> (p == q && s == t),
{
    if p.push(s) == q.push(t) {
        assert(p.len() == q.len()) by {
            assert(p.push(s).len() == p.len() + 1);
            assert(q.push(t).len() == q.len() + 1);
        }
        assert forall|i: int| 0 <= i < p.len() implies p[i] == q[i] by {
            assert(p.push(s)[i] == p[i]);
            assert(q.push(t)[i] == q[i]);
        }
        assert(p =~= q);
        assert(s == p.push(s)[p.len() as int]);
        assert(t == q.push(t)[q.len() as int]);
    }
    if p == q && s == t {
        assert(p.push(s) =~= q.push(t));
    }
}

} // verus!
