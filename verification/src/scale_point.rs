//! A scale point: one named notch on a control port's value range, pairing a
//! human-readable label with the value it stands for. Both sides are held in
//! their textual node form.

use vstd::prelude::*;

verus! {

/// One notch of a control port: `label` names the `value` it stands for.
pub struct ScalePoint {
    label: String,
    value: String,
}

impl ScalePoint {
    /// A scale point pairing `label` with `value`.
    pub fn new(label: String, value: String) -> (r: ScalePoint)
        ensures
            r.label_view() == label@,
            r.value_view() == value@,
    {
        ScalePoint { label, value }
    }

    pub closed spec fn label_view(&self) -> Seq<char> {
        self.label@
    }

    pub closed spec fn value_view(&self) -> Seq<char> {
        self.value@
    }

    /// The human-readable name of this notch.
    pub fn get_label(&self) -> (r: &String)
        ensures
            r@ == self.label_view(),
    {
        &self.label
    }

    /// The textual form of the value this notch stands for.
    pub fn get_value(&self) -> (r: &String)
        ensures
            r@ == self.value_view(),
    {
        &self.value
    }
}

} // verus!
