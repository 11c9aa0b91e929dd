//! Pins of the simple logic gates: a name with a direction, and a name with
//! a boolean level.

use vstd::prelude::*;

verus! {

/// Direction of a gate pin.
#[derive(Debug, PartialEq, Eq, Structural, Hash, Clone, Copy)]
pub enum PinType {
    Input,
    Output,
    IO,
}

/// Name and direction of one pin of a gate.
#[derive(Debug, PartialEq, Eq, Hash, Clone, Copy)]
pub struct PinInfo<'s> {
    name: &'s str,
    pin_type: PinType,
}

impl<'s> View for PinInfo<'s> {
    type V = (Seq<char>, PinType);

    closed spec fn view(&self) -> (Seq<char>, PinType) {
        (self.name@, self.pin_type)
    }
}

impl<'s> DeepView for PinInfo<'s> {
    type V = (Seq<char>, PinType);

    open spec fn deep_view(&self) -> (Seq<char>, PinType) {
        self@
    }
}

impl<'s> PinInfo<'s> {
    /// A pin called `name` with direction `t`.
    pub fn new(name: &'s str, t: PinType) -> (r: Self)
        ensures
            r@ == (name@, t),
    {
        PinInfo { name: name, pin_type: t }
    }
}

/// The level carried by the pin called `name`.
#[derive(Debug, PartialEq, Eq, Hash, Clone, Copy)]
pub struct HWPinValue<'s> {
    pub name: &'s str,
    pub value: bool,
}

impl<'s> View for HWPinValue<'s> {
    type V = (Seq<char>, bool);

    open spec fn view(&self) -> (Seq<char>, bool) {
        (self.name@, self.value)
    }
}

impl<'s> DeepView for HWPinValue<'s> {
    type V = (Seq<char>, bool);

    open spec fn deep_view(&self) -> (Seq<char>, bool) {
        self@
    }
}

impl<'s> HWPinValue<'s> {
    /// The level `v` on the pin called `name`.
    pub fn new(name: &'s str, v: bool) -> (r: Self)
        ensures
            r.name@ == name@,
            r.value == v,
    {
        HWPinValue { name: name, value: v }
    }
}

/// The level that a list of pin values gives to the pin called `name`: that of
/// the last entry with this name, and low when there is none.
pub open spec fn level(inputs: Seq<(Seq<char>, bool)>, name: Seq<char>) -> bool
    decreases inputs.len(),
{
    if inputs.len() == 0 {
        false
    } else if inputs.last().0 == name {
        inputs.last().1
    } else {
        level(inputs.drop_last(), name)
    }
}

/// Reads the level of the pin called `name` out of a list of pin values.
pub fn read_level(inputs: &[HWPinValue], name: &str) -> (r: bool)
    ensures
        r == level(inputs.deep_view(), name@),
{
    let mut found = false;
    let mut i: usize = 0;
    while i < inputs.len()
        invariant
            i <= inputs.len(),
            found == level(inputs.deep_view().take(i as int), name@),
        decreases inputs.len() - i,
    {
        if crate::text::same_text(inputs[i].name, name) {
            found = inputs[i].value;
        }
        proof {
            let all = inputs.deep_view();
            assert(all.take(i + 1).drop_last() =~= all.take(i as int));
            assert(all.take(i + 1).last() == inputs@[i as int]@);
        }
        i = i + 1;
    }
    proof {
        assert(inputs.deep_view().take(i as int) =~= inputs.deep_view());
    }
    found
}

} // verus!
