//! Triangles of connected computers on a LAN.
use vstd::prelude::*;
use crate::text::chars_of;

verus! {

/// Three computers that are all connected to each other, by name.
#[derive(Debug, PartialEq, Eq)]
pub struct Triangle {
    pub nodes: Vec<String>,
}

/// Some name in `names` starts with `t`.
pub open spec fn some_t(names: Seq<String>) -> bool {
    exists|i: int| 0 <= i < names.len() && (#[trigger] names[i])@.len() > 0 && names[i]@[0] == 't'
}

impl Triangle {
    /// Whether one of the computers' names starts with `t`.
    pub fn one_starts_with_t(&self) -> (r: bool)
        ensures
            r == some_t(self.nodes@),
    {
        let mut i: usize = 0;
        while i < self.nodes.len()
            invariant
                i <= self.nodes@.len(),
                forall|j: int| 0 <= j < i ==> !((#[trigger] self.nodes@[j])@.len() > 0 && self.nodes@[j]@[0] == 't'),
            decreases self.nodes@.len() - i,
        {
            let name = chars_of(self.nodes[i].as_str());
            if name.len() > 0 && name[0] == 't' {
                return true;
            }
            i = i + 1;
        }
        false
    }
}

} // verus!
