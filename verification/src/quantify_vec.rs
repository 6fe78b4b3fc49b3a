use vstd::prelude::*;

use crate::quantify::Quantify;

verus! {

impl<T: PartialEq> Quantify<T> for Vec<T> {
    open spec fn spec_items(&self) -> Seq<T> {
        self@
    }

    fn items(&self) -> (r: &[T]) {
        self.as_slice()
    }
}

} // verus!
