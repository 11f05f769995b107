//! A product line typed into a comand.
use vstd::prelude::*;

verus! {

/// What the waiter typed for one product: its name, how many, and the
/// chosen value of the product's group, if any.
#[derive(Clone, Debug, PartialEq, Eq)]
pub struct Input {
    pub name: String,
    pub quantity: u32,
    pub group: Option<String>,
}

/// An input as text and number.
pub open spec fn input_view(i: Input) -> (Seq<char>, u32, Option<Seq<char>>) {
    (
        i.name@,
        i.quantity,
        match i.group {
            Some(g) => Some(g@),
            None => None,
        },
    )
}

/// A fresh line: no name, one unit, no group value.
pub open spec fn blank_input() -> (Seq<char>, u32, Option<Seq<char>>) {
    (Seq::empty(), 1, None)
}

impl Input {
    /// A fresh line (`Default`).
    pub fn default() -> (res: Input)
        ensures
            input_view(res) == blank_input(),
    {
        let res = Input { name: String::new(), quantity: 1, group: None };
        assert(input_view(res) =~= blank_input());
        res
    }
}

} // verus!
