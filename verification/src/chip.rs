//! Simple logic gates: each reads named boolean inputs and answers with the
//! level of its one output pin.

use vstd::prelude::*;
use crate::pin::{HWPinValue, PinInfo, PinType, level, read_level};

verus! {

/// A combinational chip: a fixed list of pins, and a step that turns the
/// levels on its inputs into the levels on its outputs.
pub trait HWChip {
    /// The pins of the chip, by name and direction. A chip that does not say
    /// otherwise has none.
    open spec fn pins(&self) -> Seq<(Seq<char>, PinType)> {
        Seq::empty()
    }

    /// The output levels that the chip answers to the given input levels. A
    /// chip that does not say otherwise answers with none.
    open spec fn outputs(&self, inputs: Seq<(Seq<char>, bool)>) -> Seq<(Seq<char>, bool)> {
        Seq::empty()
    }

    fn get_pin_list(&self) -> (r: Vec<PinInfo>)
        ensures
            r.deep_view() == self.pins(),
    ;

    fn run(&mut self, inputs: &[HWPinValue]) -> (r: Vec<HWPinValue>)
        ensures
            r.deep_view() == old(self).outputs(inputs.deep_view()),
    ;
}

/// The pin list of a gate with two inputs.
pub open spec fn two_input_pins() -> Seq<(Seq<char>, PinType)> {
    seq![("In1"@, PinType::Input), ("In2"@, PinType::Input), ("Out1"@, PinType::Output)]
}

/// The pin list of a gate with one input.
pub open spec fn one_input_pins() -> Seq<(Seq<char>, PinType)> {
    seq![("In1"@, PinType::Input), ("Out1"@, PinType::Output)]
}

fn two_input_pin_list() -> (r: Vec<PinInfo<'static>>)
    ensures
        r.deep_view() == two_input_pins(),
{
    let r = vec![
        PinInfo::new("In1", PinType::Input),
        PinInfo::new("In2", PinType::Input),
        PinInfo::new("Out1", PinType::Output),
    ];
    assert(r.deep_view() =~= two_input_pins());
    r
}

fn single_output(v: bool) -> (r: Vec<HWPinValue<'static>>)
    ensures
        r.deep_view() == seq![("Out1"@, v)],
{
    let r = vec![HWPinValue::new("Out1", v)];
    assert(r.deep_view() =~= seq![("Out1"@, v)]);
    r
}

/// A gate whose output `Out1` is the conjunction of its two inputs.
pub struct AndChip {}

impl AndChip {
    /// A new gate.
    pub fn new() -> (r: Self)
        ensures
            r == (AndChip {  }),
    {
        AndChip {  }
    }
}

impl HWChip for AndChip {
    open spec fn pins(&self) -> Seq<(Seq<char>, PinType)> {
        two_input_pins()
    }

    open spec fn outputs(&self, inputs: Seq<(Seq<char>, bool)>) -> Seq<(Seq<char>, bool)> {
        seq![("Out1"@, level(inputs, "In1"@) && level(inputs, "In2"@))]
    }

    fn get_pin_list(&self) -> (r: Vec<PinInfo>) {
        two_input_pin_list()
    }

    fn run(&mut self, inputs: &[HWPinValue]) -> (r: Vec<HWPinValue>) {
        let i1 = read_level(inputs, "In1");
        let i2 = read_level(inputs, "In2");
        single_output(i1 && i2)
    }
}

/// A gate whose output `Out1` is the disjunction of its two inputs.
pub struct OrChip {}

impl OrChip {
    /// A new gate.
    pub fn new() -> (r: Self)
        ensures
            r == (OrChip {  }),
    {
        OrChip {  }
    }
}

impl HWChip for OrChip {
    open spec fn pins(&self) -> Seq<(Seq<char>, PinType)> {
        two_input_pins()
    }

    open spec fn outputs(&self, inputs: Seq<(Seq<char>, bool)>) -> Seq<(Seq<char>, bool)> {
        seq![("Out1"@, level(inputs, "In1"@) || level(inputs, "In2"@))]
    }

    fn get_pin_list(&self) -> (r: Vec<PinInfo>) {
        two_input_pin_list()
    }

    fn run(&mut self, inputs: &[HWPinValue]) -> (r: Vec<HWPinValue>) {
        let i1 = read_level(inputs, "In1");
        let i2 = read_level(inputs, "In2");
        single_output(i1 || i2)
    }
}

/// A gate whose output `Out1` is high when exactly one of its two inputs is high.
pub struct XorChip {}

impl XorChip {
    /// A new gate.
    pub fn new() -> (r: Self)
        ensures
            r == (XorChip {  }),
    {
        XorChip {  }
    }
}

impl HWChip for XorChip {
    open spec fn pins(&self) -> Seq<(Seq<char>, PinType)> {
        two_input_pins()
    }

    open spec fn outputs(&self, inputs: Seq<(Seq<char>, bool)>) -> Seq<(Seq<char>, bool)> {
        seq![("Out1"@, level(inputs, "In1"@) != level(inputs, "In2"@))]
    }

    fn get_pin_list(&self) -> (r: Vec<PinInfo>) {
        two_input_pin_list()
    }

    fn run(&mut self, inputs: &[HWPinValue]) -> (r: Vec<HWPinValue>) {
        let i1 = read_level(inputs, "In1");
        let i2 = read_level(inputs, "In2");
        single_output(i1 != i2)
    }
}

/// A gate whose output `Out1` is the negation of its input.
pub struct NotChip {}

impl NotChip {
    /// A new gate.
    pub fn new() -> (r: Self)
        ensures
            r == (NotChip {  }),
    {
        NotChip {  }
    }
}

impl HWChip for NotChip {
    open spec fn pins(&self) -> Seq<(Seq<char>, PinType)> {
        one_input_pins()
    }

    open spec fn outputs(&self, inputs: Seq<(Seq<char>, bool)>) -> Seq<(Seq<char>, bool)> {
        seq![("Out1"@, !level(inputs, "In1"@))]
    }

    fn get_pin_list(&self) -> (r: Vec<PinInfo>) {
        let r = vec![PinInfo::new("In1", PinType::Input), PinInfo::new("Out1", PinType::Output)];
        assert(r.deep_view() =~= one_input_pins());
        r
    }

    fn run(&mut self, inputs: &[HWPinValue]) -> (r: Vec<HWPinValue>) {
        let i1 = read_level(inputs, "In1");
        single_output(!i1)
    }
}

/// A gate whose output `Out1` is the negated conjunction of its two inputs.
pub struct NandChip {}

impl NandChip {
    /// A new gate.
    pub fn new() -> (r: Self)
        ensures
            r == (NandChip {  }),
    {
        NandChip {  }
    }
}

impl HWChip for NandChip {
    open spec fn pins(&self) -> Seq<(Seq<char>, PinType)> {
        two_input_pins()
    }

    open spec fn outputs(&self, inputs: Seq<(Seq<char>, bool)>) -> Seq<(Seq<char>, bool)> {
        seq![("Out1"@, !(level(inputs, "In1"@) && level(inputs, "In2"@)))]
    }

    fn get_pin_list(&self) -> (r: Vec<PinInfo>) {
        two_input_pin_list()
    }

    fn run(&mut self, inputs: &[HWPinValue]) -> (r: Vec<HWPinValue>) {
        let i1 = read_level(inputs, "In1");
        let i2 = read_level(inputs, "In2");
        single_output(!(i1 && i2))
    }
}

/// A gate whose output `Out1` is the negated disjunction of its two inputs.
pub struct NorChip {}

impl NorChip {
    /// A new gate.
    pub fn new() -> (r: Self)
        ensures
            r == (NorChip {  }),
    {
        NorChip {  }
    }
}

impl HWChip for NorChip {
    open spec fn pins(&self) -> Seq<(Seq<char>, PinType)> {
        two_input_pins()
    }

    open spec fn outputs(&self, inputs: Seq<(Seq<char>, bool)>) -> Seq<(Seq<char>, bool)> {
        seq![("Out1"@, !(level(inputs, "In1"@) || level(inputs, "In2"@)))]
    }

    fn get_pin_list(&self) -> (r: Vec<PinInfo>) {
        two_input_pin_list()
    }

    fn run(&mut self, inputs: &[HWPinValue]) -> (r: Vec<HWPinValue>) {
        let i1 = read_level(inputs, "In1");
        let i2 = read_level(inputs, "In2");
        single_output(!(i1 || i2))
    }
}

/// A gate whose output `Out1` is high when its two inputs agree.
pub struct XnorChip {}

impl XnorChip {
    /// A new gate.
    pub fn new() -> (r: Self)
        ensures
            r == (XnorChip {  }),
    {
        XnorChip {  }
    }
}

impl HWChip for XnorChip {
    open spec fn pins(&self) -> Seq<(Seq<char>, PinType)> {
        two_input_pins()
    }

    open spec fn outputs(&self, inputs: Seq<(Seq<char>, bool)>) -> Seq<(Seq<char>, bool)> {
        seq![("Out1"@, level(inputs, "In1"@) == level(inputs, "In2"@))]
    }

    fn get_pin_list(&self) -> (r: Vec<PinInfo>) {
        two_input_pin_list()
    }

    fn run(&mut self, inputs: &[HWPinValue]) -> (r: Vec<HWPinValue>) {
        let i1 = read_level(inputs, "In1");
        let i2 = read_level(inputs, "In2");
        single_output(i1 == i2)
    }
}

/// A NAND gate with both inputs tied together is a NOT gate.
pub proof fn lemma_nand_is_not(inputs: Seq<(Seq<char>, bool)>)
    ensures
        (NandChip {  }).outputs(
            seq![("In1"@, level(inputs, "In1"@)), ("In2"@, level(inputs, "In1"@))],
        ) == (NotChip {  }).outputs(inputs),
{
    let v = level(inputs, "In1"@);
    let tied = seq![("In1"@, v), ("In2"@, v)];
    reveal_strlit("In1");
    reveal_strlit("In2");
    assert("In1"@ != "In2"@) by {
        assert("In1"@[2] != "In2"@[2]);
    }
    assert(tied.last() == ("In2"@, v));
    assert(tied.drop_last() =~= seq![("In1"@, v)]);
    assert(tied.drop_last().last() == ("In1"@, v));
    reveal_with_fuel(level, 3);
    assert(level(tied, "In2"@) == v);
    assert(level(tied, "In1"@) == v);
}

} // verus!
