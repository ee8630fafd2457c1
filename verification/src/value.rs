//! Loosely typed input and output values.

use vstd::prelude::*;

verus! {

/// A loosely typed, tree-shaped value, as a caller hands it in before anything is known of
/// its shape.
#[derive(Debug, PartialEq, Eq)]
pub enum Value {
    /// A string.
    Text(String),
    /// An array of values.
    Array(Vec<Value>),
    /// Anything that is neither a string nor an array.
    Other,
}

/// What a [`Value`] holds.
pub ghost enum ValueView {
    Text(Seq<char>),
    Array(Seq<ValueView>),
    Other,
}

impl View for Value {
    type V = ValueView;

    open spec fn view(&self) -> ValueView
        decreases self,
    {
        match self {
            Value::Text(text) => ValueView::Text(text@),
            Value::Array(items) => ValueView::Array(
                Seq::new(
                    items@.len(),
                    |i: int|
                        if 0 <= i < items@.len() {
                            items@[i].view()
                        } else {
                            ValueView::Other
                        },
                ),
            ),
            Value::Other => ValueView::Other,
        }
    }
}

impl Clone for Value {
    /// Copies the value with all that it holds.
    fn clone(&self) -> (copy: Value)
        ensures
            copy@ == self@,
        decreases self,
    {
        match self {
            Value::Text(text) => Value::Text(text.clone()),
            Value::Array(items) => {
                let mut copies: Vec<Value> = Vec::new();
                let mut i: usize = 0;
                while i < items.len()
                    invariant
                        i <= items.len(),
                        copies.len() == i,
                        *self == Value::Array(*items),
                        forall|k: int| 0 <= k < i ==> (#[trigger] copies@[k])@ == items@[k]@,
                    decreases items.len() - i,
                {
                    proof {
                        assert(decreases_to!(*self => self->Array_0));
                    }
                    copies.push(items[i].clone());
                    i = i + 1;
                }
                let copy = Value::Array(copies);
                assert(copy@->Array_0 =~= self@->Array_0);
                copy
            },
            Value::Other => Value::Other,
        }
    }
}

} // verus!
