//! The smart-pointer demo: a cons list whose tails are shared through
//! reference counting.

use vstd::prelude::*;
use std::rc::Rc;

verus! {

/// A list of integers; each tail may be shared by several lists.
pub enum List {
    Cons(i32, Rc<List>),
    Nil,
}

impl List {
    /// The number of elements.
    pub open spec fn len_spec(&self) -> nat
        decreases self,
    {
        match self {
            List::Cons(_, tail) => 1 + tail.len_spec(),
            List::Nil => 0,
        }
    }
}

} // verus!
