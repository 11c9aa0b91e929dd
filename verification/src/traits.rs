//! The pin model of a board: directions, metadata, pin identities and the
//! three kinds of connection between shorted pins.

use vstd::prelude::*;
use vstd::std_specs::cmp::PartialEqSpecImpl;
use crate::text::same_text;

verus! {

/// Direction of a pin: it consumes values, produces them, or does either
/// depending on the chip's current orientation.
#[derive(Debug, Clone, Copy, PartialEq, Eq, Structural)]
pub enum PinType {
    Input,
    Output,
    IO,
}

impl PinType {
    /// The direction's name.
    pub fn name(&self) -> (r: &'static str)
        ensures
            r@ == match *self {
                PinType::Input => "Input"@,
                PinType::Output => "Output"@,
                PinType::IO => "IO"@,
            },
    {
        match self {
            PinType::Input => "Input",
            PinType::Output => "Output",
            PinType::IO => "IO",
        }
    }
}

/// What a chip tells about one of its pins. The pin's name is the key under
/// which the chip lists this record.
#[derive(Debug, Clone, Copy, PartialEq, Eq)]
pub struct PinMetadata {
    pub pin_type: PinType,
    /// Tag that identifies the type of the values the pin carries.
    pub data_type: &'static str,
    /// Whether the pin's value type has an inactive state.
    pub tristatable: bool,
}

/// Mathematical content of a `PinMetadata`.
pub struct PinSpec {
    pub pin_type: PinType,
    pub data_type: Seq<char>,
    pub tristatable: bool,
}

impl View for PinMetadata {
    type V = PinSpec;

    open spec fn view(&self) -> PinSpec {
        PinSpec {
            pin_type: self.pin_type,
            data_type: self.data_type@,
            tristatable: self.tristatable,
        }
    }
}

impl DeepView for PinMetadata {
    type V = PinSpec;

    open spec fn deep_view(&self) -> PinSpec {
        self@
    }
}

impl PinSpec {
    /// Two pins may be wired together when they carry the same type, they are
    /// not both inputs nor both outputs, and both or neither can be tristated.
    pub open spec fn connectable(self, other: PinSpec) -> bool {
        &&& self.data_type == other.data_type
        &&& !(self.pin_type == PinType::Input && other.pin_type == PinType::Input)
        &&& !(self.pin_type == PinType::Output && other.pin_type == PinType::Output)
        &&& self.tristatable == other.tristatable
    }

    /// The pin may receive values from the board.
    pub open spec fn consumes(self) -> bool {
        self.pin_type == PinType::Input || self.pin_type == PinType::IO
    }

    /// The pin may drive values onto the board.
    pub open spec fn produces(self) -> bool {
        self.pin_type == PinType::Output || self.pin_type == PinType::IO
    }
}

impl PinMetadata {
    /// Tells whether two pins may be wired together.
    pub fn is_connectable(&self, other: &PinMetadata) -> (r: bool)
        ensures
            r == self@.connectable(other@),
    {
        let both_input = self.pin_type == PinType::Input && other.pin_type == PinType::Input;
        let both_output = self.pin_type == PinType::Output && other.pin_type == PinType::Output;
        let one_tristatable = self.tristatable != other.tristatable;
        let both_same_type = same_text(self.data_type, other.data_type);
        !both_input && !both_output && !one_tristatable && both_same_type
    }
}

/// Identity of a pin on a board: a chip's name, and a pin's name on that chip.
pub type PinId = (Seq<char>, Seq<char>);

/// One pin of one chip of a board.
#[derive(Debug, Hash)]
pub struct ChipPin {
    pub chip: String,
    pub pin: String,
}

impl View for ChipPin {
    type V = PinId;

    open spec fn view(&self) -> PinId {
        (self.chip@, self.pin@)
    }
}

impl DeepView for ChipPin {
    type V = PinId;

    open spec fn deep_view(&self) -> PinId {
        self@
    }
}

impl Clone for ChipPin {
    fn clone(&self) -> (r: Self)
        ensures
            r@ == self@,
    {
        ChipPin { chip: self.chip.clone(), pin: self.pin.clone() }
    }
}

impl PartialEq for ChipPin {
    fn eq(&self, other: &ChipPin) -> (r: bool) {
        self.chip == other.chip && self.pin == other.pin
    }
}

impl Eq for ChipPin {
}

impl PartialEqSpecImpl for ChipPin {
    open spec fn obeys_eq_spec() -> bool {
        true
    }

    open spec fn eq_spec(&self, other: &ChipPin) -> bool {
        self@ == other@
    }
}

impl ChipPin {
    /// The pin `pin` of the chip `chip`.
    pub fn new(chip: &str, pin: &str) -> (r: Self)
        ensures
            r@ == (chip@, pin@),
    {
        ChipPin { chip: chip.to_owned(), pin: pin.to_owned() }
    }
}

/// A group of shorted pins, by the way values travel across it.
#[derive(Debug, PartialEq, Eq)]
pub enum ConnectedPins {
    /// One producing pin wired to one consuming pin.
    Pair { source: ChipPin, destination: ChipPin },
    /// One producing pin whose value goes to every other pin of the group.
    Broadcast { source: ChipPin, destinations: Vec<ChipPin> },
    /// A bus of tristatable pins: of its producers at most one is active at
    /// a time, and its value goes to the consumers.
    Tristated { sources: Vec<ChipPin>, destinations: Vec<ChipPin> },
}

/// Mathematical content of a `ConnectedPins`.
pub enum Connection {
    Pair { source: PinId, destination: PinId },
    Broadcast { source: PinId, destinations: Seq<PinId> },
    Tristated { sources: Seq<PinId>, destinations: Seq<PinId> },
}

impl View for ConnectedPins {
    type V = Connection;

    open spec fn view(&self) -> Connection {
        match self {
            ConnectedPins::Pair { source, destination } => Connection::Pair {
                source: source@,
                destination: destination@,
            },
            ConnectedPins::Broadcast { source, destinations } => Connection::Broadcast {
                source: source@,
                destinations: destinations.deep_view(),
            },
            ConnectedPins::Tristated { sources, destinations } => Connection::Tristated {
                sources: sources.deep_view(),
                destinations: destinations.deep_view(),
            },
        }
    }
}

impl DeepView for ConnectedPins {
    type V = Connection;

    open spec fn deep_view(&self) -> Connection {
        self@
    }
}

/// Two producers of one tristated bus that were found active at the same time.
#[derive(Debug, PartialEq, Eq)]
pub struct BusContention {
    /// The producer that was found active first.
    pub active: ChipPin,
    /// The next producer that was found active as well.
    pub other: ChipPin,
}

impl View for BusContention {
    type V = (PinId, PinId);

    open spec fn view(&self) -> (PinId, PinId) {
        (self.active@, self.other@)
    }
}

/// A list of named pin records says exactly what `pins` holds, each name once.
pub open spec fn lists(list: Seq<(Seq<char>, PinSpec)>, pins: Map<Seq<char>, PinSpec>) -> bool {
    &&& forall|i: int|
        0 <= i < list.len() ==> pins.contains_key(#[trigger] list[i].0) && pins[list[i].0]
            == list[i].1
    &&& forall|name: Seq<char>| #[trigger]
        pins.contains_key(name) ==> exists|i: int| 0 <= i < list.len() && #[trigger] list[i].0 == name
    &&& forall|i: int, j: int|
        0 <= i < j < list.len() ==> #[trigger] list[i].0 != #[trigger] list[j].0
}

/// What a board asks of every chip: to list its pins, to hand out and take in
/// pin values, and to tell whether a pin is currently inactive or oriented as
/// an input.
///
/// The contracts speak of the chip's abstract state. A chip that does not say
/// otherwise has no pins and ignores every write.
pub trait ChipInterface {
    /// The values that travel between pins.
    type Value;

    /// What the contracts see of the chip.
    type State;

    /// The chip's current abstract state.
    open spec fn state(&self) -> Self::State {
        arbitrary()
    }

    /// What the chip keeps true of its state between calls.
    open spec fn inv(s: Self::State) -> bool {
        true
    }

    /// The chip's pins by name. Every operation leaves them as they are.
    open spec fn pins(s: Self::State) -> Map<Seq<char>, PinSpec> {
        Map::empty()
    }

    /// The value currently on the pin called `name`.
    open spec fn value(s: Self::State, name: Seq<char>) -> Self::Value {
        arbitrary()
    }

    /// The pin called `name` is tristatable and currently inactive.
    open spec fn tristated(s: Self::State, name: Seq<char>) -> bool {
        false
    }

    /// The pin called `name` is currently oriented as an input.
    open spec fn input_mode(s: Self::State, name: Seq<char>) -> bool {
        false
    }

    /// The state after `v` has been written to the pin called `name`.
    open spec fn written(s: Self::State, name: Seq<char>, v: Self::Value) -> Self::State {
        s
    }

    /// Gives each pin's name with its metadata.
    fn get_pin_list(&self) -> (r: Vec<(String, PinMetadata)>)
        requires
            Self::inv(self.state()),
        ensures
            lists(r.deep_view(), Self::pins(self.state())),
    ;

    /// Returns a copy of the value on a pin, and nothing for an unknown name.
    fn get_pin_value(&self, name: &str) -> (r: Option<Self::Value>)
        requires
            Self::inv(self.state()),
        ensures
            r == if Self::pins(self.state()).contains_key(name@) {
                Some(Self::value(self.state(), name@))
            } else {
                None
            },
    ;

    /// Writes a value to a pin. A write to an unknown name changes nothing.
    fn set_pin_value(&mut self, name: &str, val: &Self::Value)
        requires
            Self::inv(old(self).state()),
        ensures
            Self::inv(final(self).state()),
            final(self).state() == Self::written(old(self).state(), name@, *val),
            Self::pins(final(self).state()) == Self::pins(old(self).state()),
            !Self::pins(old(self).state()).contains_key(name@) ==> final(self).state() == old(
                self,
            ).state(),
    ;

    /// Tells whether a tristatable pin is currently inactive. It never is for
    /// a pin that is not tristatable, nor for an unknown name.
    fn is_pin_tristated(&self, name: &str) -> (r: bool)
        requires
            Self::inv(self.state()),
        ensures
            r == Self::tristated(self.state(), name@),
            r ==> Self::pins(self.state()).contains_key(name@) && Self::pins(
                self.state(),
            )[name@].tristatable,
    ;

    /// Tells whether a pin is currently oriented as an input: the current
    /// orientation of an `IO` pin of a chip, and always so for a name under
    /// which a board exposes several inputs. It never is for an unknown name.
    fn in_input_mode(&self, name: &str) -> (r: bool)
        requires
            Self::inv(self.state()),
        ensures
            r == Self::input_mode(self.state(), name@),
            r ==> Self::pins(self.state()).contains_key(name@),
    ;
}

/// The logic of a chip: one step per clock tick.
///
/// Before a tick the board has set the chip's consuming pins from the pins
/// they are wired to; after it the board collects the producing pins. A chip
/// that does not say otherwise does nothing on a tick and never fails.
pub trait Chip: ChipInterface {
    /// The state after one tick.
    open spec fn ticked(s: Self::State) -> Self::State {
        s
    }

    /// The bus contention, if any, that a tick from this state runs into.
    open spec fn fault(s: Self::State) -> Option<(PinId, PinId)> {
        None
    }

    /// Advances the chip by one step. It fails when a tristated bus inside
    /// the chip has two active producers.
    fn tick(&mut self) -> (r: Result<(), BusContention>)
        requires
            Self::inv(old(self).state()),
        ensures
            Self::inv(final(self).state()),
            final(self).state() == Self::ticked(old(self).state()),
            Self::pins(final(self).state()) == Self::pins(old(self).state()),
            match r {
                Ok(_) => Self::fault(old(self).state()) is None,
                Err(e) => Self::fault(old(self).state()) == Some(e@),
            },
    ;
}

/// A chip that a board can hold: it has pins and it ticks.
pub trait HardwareModule: ChipInterface + Chip {
}

impl<T> HardwareModule for T where T: ChipInterface + Chip {
}

} // verus!
