//! The ordered-sequence value kind.

use vstd::prelude::*;
use crate::value::{SpecValue, XffValue, view_values, view_value, lemma_view_values, clone_value};

verus! {

/// An ordered sequence of values.
#[derive(Debug)]
pub struct Array {
    /// The values, in order.
    pub values: Vec<XffValue>,
}

impl View for Array {
    type V = Seq<SpecValue>;

    open spec fn view(&self) -> Seq<SpecValue> {
        view_values(self.values@)
    }
}

/// A deep copy of a sequence of values.
pub fn clone_values(vs: &Vec<XffValue>) -> (r: Vec<XffValue>)
    ensures
        view_values(r@) == view_values(vs@),
        r@.len() == vs@.len(),
{
    proof {
        lemma_view_values(vs@);
    }
    let mut out: Vec<XffValue> = Vec::new();
    let mut i: usize = 0;
    while i < vs.len()
        invariant
            i <= vs@.len(),
            out@.len() == i,
            forall|j: int|
                0 <= j < i ==> view_value(#[trigger] out@[j]) == view_value(vs@[j]),
        decreases vs@.len() - i,
    {
        out.push(clone_value(&vs[i]));
        i = i + 1;
    }
    proof {
        lemma_view_values(out@);
        lemma_view_values(vs@);
        assert(view_values(out@) =~= view_values(vs@));
    }
    out
}

impl Clone for Array {
    fn clone(&self) -> (r: Self)
        ensures
            r@ == self@,
    {
        Array { values: clone_values(&self.values) }
    }
}

/// Whether two sequences of values are the same, compared deeply.
pub fn eq_values(a: &Vec<XffValue>, b: &Vec<XffValue>) -> (r: bool)
    ensures
        r == (view_values(a@) == view_values(b@)),
{
    proof {
        lemma_view_values(a@);
        lemma_view_values(b@);
    }
    if a.len() != b.len() {
        return false;
    }
    let mut i: usize = 0;
    while i < a.len()
        invariant
            i <= a@.len(),
            a@.len() == b@.len(),
            forall|j: int|
                0 <= j < i ==> view_value(#[trigger] a@[j]) == view_value(b@[j]),
        decreases a@.len() - i,
    {
        if !crate::value::eq_value(&a[i], &b[i]) {
            proof {
                lemma_view_values(a@);
                lemma_view_values(b@);
            }
            return false;
        }
        i = i + 1;
    }
    proof {
        lemma_view_values(a@);
        lemma_view_values(b@);
        assert(view_values(a@) =~= view_values(b@));
    }
    true
}

impl PartialEq for Array {
    fn eq(&self, other: &Self) -> (r: bool) {
        eq_values(&self.values, &other.values)
    }
}

impl vstd::std_specs::cmp::PartialEqSpecImpl for Array {
    open spec fn obeys_eq_spec() -> bool {
        true
    }

    open spec fn eq_spec(&self, other: &Self) -> bool {
        self@ == other@
    }
}

impl Array {
    /// An empty sequence.
    pub fn new() -> (r: Self)
        ensures
            r@ =~= Seq::<SpecValue>::empty(),
    {
        let r = Array { values: Vec::new() };
        r
    }

    /// A deep copy of the values as a plain vector.
    pub fn into_vec(&self) -> (r: Vec<XffValue>)
        ensures
            view_values(r@) == self@,
    {
        clone_values(&self.values)
    }

    /// The number of values.
    pub fn len(&self) -> (r: usize)
        ensures
            r == self@.len(),
    {
        proof {
            lemma_view_values(self.values@);
        }
        self.values.len()
    }

    /// Whether the sequence is empty.
    pub fn is_empty(&self) -> (r: bool)
        ensures
            r == (self@.len() == 0),
    {
        proof {
            lemma_view_values(self.values@);
        }
        self.values.is_empty()
    }

    /// Drops every value.
    pub fn clear(&mut self)
        ensures
            final(self)@ =~= Seq::<SpecValue>::empty(),
    {
        self.values.clear();
    }

    /// Appends a value at the end.
    pub fn push(&mut self, value: XffValue)
        ensures
            final(self)@ =~= old(self)@.push(value@),
    {
        proof {
            lemma_view_values(self.values@);
        }
        self.values.push(value);
        proof {
            lemma_view_values(self.values@);
            assert(view_values(self.values@) =~= view_values(old(self).values@).push(
                view_value(value),
            ));
        }
    }

    /// Takes the last value off the end.
    pub fn pop(&mut self) -> (r: Option<XffValue>)
        ensures
            old(self)@.len() == 0 ==> r is None && final(self)@ == old(self)@,
            old(self)@.len() > 0 ==> r is Some && r->0@ == old(self)@.last() && final(self)@
                =~= old(self)@.drop_last(),
    {
        proof {
            lemma_view_values(self.values@);
        }
        if self.values.len() == 0 {
            return None;
        }
        let v = self.values.pop().unwrap();
        proof {
            lemma_view_values(self.values@);
            assert(view_values(self.values@) =~= view_values(old(self).values@).drop_last());
        }
        Some(v)
    }

    /// Places a value at the given position, shifting what follows.
    pub fn insert(&mut self, index: usize, value: XffValue)
        requires
            index <= old(self)@.len(),
        ensures
            final(self)@ =~= old(self)@.insert(index as int, value@),
    {
        proof {
            lemma_view_values(self.values@);
        }
        self.values.insert(index, value);
        proof {
            lemma_view_values(self.values@);
            assert(view_values(self.values@) =~= view_values(old(self).values@).insert(
                index as int,
                view_value(value),
            ));
        }
    }

    /// Takes the value at the given position out, shifting what follows.
    pub fn remove(&mut self, index: usize) -> (r: XffValue)
        requires
            index < old(self)@.len(),
        ensures
            r@ == old(self)@[index as int],
            final(self)@ =~= old(self)@.remove(index as int),
    {
        proof {
            lemma_view_values(self.values@);
        }
        let r = self.values.remove(index);
        proof {
            lemma_view_values(self.values@);
            assert(view_values(self.values@) =~= view_values(old(self).values@).remove(
                index as int,
            ));
        }
        r
    }

    /// The value at the given position.
    pub fn get(&self, index: usize) -> (r: Option<&XffValue>)
        ensures
            index < self@.len() ==> r is Some && r->0@ == self@[index as int],
            index >= self@.len() ==> r is None,
    {
        proof {
            lemma_view_values(self.values@);
        }
        if index < self.values.len() {
            Some(&self.values[index])
        } else {
            None
        }
    }

    /// Whether some value of the sequence equals the given one.
    pub fn contains(&self, value: &XffValue) -> (r: bool)
        ensures
            r == self@.contains(value@),
    {
        proof {
            lemma_view_values(self.values@);
        }
        let ghost items = self@;
        let mut i: usize = 0;
        while i < self.values.len()
            invariant
                i <= self.values@.len(),
                self@ == items,
                view_values(self.values@) == items,
                self.values@.len() == items.len(),
                forall|j: int|
                    0 <= j < items.len() ==> #[trigger] items[j] == view_value(self.values@[j]),
                forall|j: int| 0 <= j < i ==> #[trigger] items[j] != value@,
            decreases items.len() - i,
        {
            if crate::value::eq_value(&self.values[i], value) {
                proof {
                    assert(items[i as int] == value@);
                }
                return true;
            }
            i = i + 1;
        }
        proof {
            assert(forall|j: int| 0 <= j < items.len() ==> #[trigger] items[j] != value@);
        }
        false
    }
}

} // verus!
