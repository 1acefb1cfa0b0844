//! Positioned labels: a label's named coordinates are laid out along the
//! scene's axis order, with unnamed axes at zero.

use vstd::prelude::*;

use crate::messages;
use crate::rat::Rat;

verus! {

/// The coordinate an association list gives an axis: the value of the
/// first pair whose name matches, zero when none does.
pub open spec fn lookup_from(pairs: Seq<(String, Rat)>, name: Seq<char>, j: int) -> (int, int)
    decreases pairs.len() - j,
{
    if j < 0 || j >= pairs.len() {
        (0int, 1int)
    } else if pairs[j].0@ == name {
        pairs[j].1@
    } else {
        lookup_from(pairs, name, j + 1)
    }
}

/// A label resolved against an axis list: one coordinate per axis, in
/// axis order.
pub struct Label {
    pub position: Vec<Rat>,
    pub txt: String,
}

impl Label {
    /// Lay the label's named coordinates out along the axis order;
    /// every axis the label does not name sits at zero.
    pub fn new(dims: &Vec<String>, lbl: &messages::Label) -> (r: Label)
        requires
            forall|k: int|
                0 <= k < lbl.position@.len() ==> (#[trigger] lbl.position@[k]).1.wf(),
        ensures
            r.txt == lbl.txt,
            r.position@.len() == dims@.len(),
            forall|i: int|
                0 <= i < dims@.len() ==> (#[trigger] r.position@[i]).wf() && r.position@[i]@
                    == lookup_from(lbl.position@, dims@[i]@, 0),
    {
        let mut position: Vec<Rat> = Vec::new();
        let n: usize = dims.len();
        let mut i: usize = 0;
        while i < n
            invariant
                i <= n,
                n == dims@.len(),
                forall|k: int|
                    0 <= k < lbl.position@.len() ==> (#[trigger] lbl.position@[k]).1.wf(),
                position@.len() == i as int,
                forall|q: int|
                    0 <= q < i as int ==> (#[trigger] position@[q]).wf() && position@[q]@
                        == lookup_from(lbl.position@, dims@[q]@, 0),
            decreases n - i,
        {
            let m: usize = lbl.position.len();
            let mut j: usize = 0;
            let mut value: Rat = Rat::zero();
            let mut found: bool = false;
            while j < m
                invariant
                    j <= m,
                    m == lbl.position@.len(),
                    (i as int) < dims@.len(),
                    forall|k: int|
                        0 <= k < lbl.position@.len() ==> (#[trigger] lbl.position@[k]).1.wf(),
                    !found ==> value@ == (0int, 1int) && value.wf(),
                    !found ==> lookup_from(lbl.position@, dims@[i as int]@, 0) == lookup_from(
                        lbl.position@,
                        dims@[i as int]@,
                        j as int,
                    ),
                    found ==> value.wf() && value@ == lookup_from(
                        lbl.position@,
                        dims@[i as int]@,
                        0,
                    ),
                decreases m - j,
            {
                if !found {
                    if lbl.position[j].0 == dims[i] {
                        value = lbl.position[j].1;
                        found = true;
                    }
                }
                j += 1;
            }
            position.push(value);
            i += 1;
        }
        Label { position, txt: lbl.txt.clone() }
    }
}

} // verus!
