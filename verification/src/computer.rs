//! The two chips of a small computer, a processor and a memory, with the
//! values that travel between them.

use vstd::prelude::*;
use crate::board::{all_inv, states, Board};
use crate::builder::{added_view, build_spec, exposure_fault};
use crate::description::{lemma_none_true, read, DescriptionError, Fault};
use crate::either::Either;
use crate::plan::{
    lemma_table_lists, lookup, name_flags, table_map, BuildError, BuildFault, PinTable,
};
use crate::shorting::components;
use crate::syntax::{Description, PcbMacroInput};
use crate::text::same_text;
use crate::traits::{
    BusContention, Chip, ChipInterface, Connection, PinId, PinMetadata, PinSpec, PinType,
};

verus! {

/// Whether the memory is asked to work.
#[derive(Clone, Copy, Debug, PartialEq, Eq, Structural)]
pub enum MemState {
    Active,
    Inactive,
}

/// The direction of a memory operation.
#[derive(Clone, Copy, Debug, PartialEq, Eq, Structural)]
pub enum MemMode {
    Read,
    Write,
}

/// A value on a pin of the computer's chips.
#[derive(Clone, Copy, Debug, PartialEq, Eq, Structural)]
pub enum Signal {
    /// A value of a `u8` pin.
    Byte(u8),
    /// A value of a `bool` pin.
    Flag(bool),
    /// A value of an `Option<u8>` pin; `None` is its inactive state.
    Data(Option<u8>),
    /// A value of a `MemState` pin.
    State(MemState),
    /// A value of a `MemMode` pin.
    Mode(MemMode),
}

/// A processor: it addresses a memory, tells it whether to work and in which
/// direction, and exchanges data with it over a bus that either side can
/// drive.
#[derive(Debug)]
pub struct Processor {
    pub address_bus: u8,
    pub intr: bool,
    pub data_bus: Option<u8>,
    pub mem_state: MemState,
    pub mem_mode: MemMode,
    /// Whether the data bus is currently oriented as an input.
    pub data_in: bool,
    pub instr_cache: Vec<u8>,
    pub ax: u8,
    pub bx: u8,
    pub ip: u8,
}

/// The pins of a `Processor`.
pub open spec fn processor_pins() -> PinTable {
    seq![
        (
            "address_bus"@,
            PinSpec { pin_type: PinType::Output, data_type: "u8"@, tristatable: false },
        ),
        (
            "intr"@,
            PinSpec { pin_type: PinType::Input, data_type: "bool"@, tristatable: false },
        ),
        (
            "data_bus"@,
            PinSpec { pin_type: PinType::IO, data_type: "Option<u8>"@, tristatable: true },
        ),
        (
            "mem_state"@,
            PinSpec { pin_type: PinType::Output, data_type: "MemState"@, tristatable: false },
        ),
        (
            "mem_mode"@,
            PinSpec { pin_type: PinType::Output, data_type: "MemMode"@, tristatable: false },
        ),
    ]
}

/// The pins of a `Processor` by name: each of its names, and no other, is a
/// pin.
pub proof fn lemma_processor_pins(name: Seq<char>)
    ensures
        crate::traits::lists(processor_pins(), table_map(processor_pins())),
        table_map(processor_pins()).contains_key(name) <==> name == "address_bus"@
            || name == "intr"@
            || name == "data_bus"@
            || name == "mem_state"@
            || name == "mem_mode"@,
        name == "address_bus"@ ==> table_map(processor_pins())[name] == processor_pins()[0].1,
        name == "intr"@ ==> table_map(processor_pins())[name] == processor_pins()[1].1,
        name == "data_bus"@ ==> table_map(processor_pins())[name] == processor_pins()[2].1,
        name == "mem_state"@ ==> table_map(processor_pins())[name] == processor_pins()[3].1,
        name == "mem_mode"@ ==> table_map(processor_pins())[name] == processor_pins()[4].1,
{
    let table = processor_pins();
    reveal_strlit("address_bus");
    reveal_strlit("intr");
    reveal_strlit("data_bus");
    reveal_strlit("mem_state");
    reveal_strlit("mem_mode");
    assert("address_bus"@ != "intr"@) by {
        assert("address_bus"@.len() != "intr"@.len());
    }
    assert("address_bus"@ != "data_bus"@) by {
        assert("address_bus"@.len() != "data_bus"@.len());
    }
    assert("address_bus"@ != "mem_state"@) by {
        assert("address_bus"@.len() != "mem_state"@.len());
    }
    assert("address_bus"@ != "mem_mode"@) by {
        assert("address_bus"@.len() != "mem_mode"@.len());
    }
    assert("intr"@ != "data_bus"@) by {
        assert("intr"@.len() != "data_bus"@.len());
    }
    assert("intr"@ != "mem_state"@) by {
        assert("intr"@.len() != "mem_state"@.len());
    }
    assert("intr"@ != "mem_mode"@) by {
        assert("intr"@.len() != "mem_mode"@.len());
    }
    assert("data_bus"@ != "mem_state"@) by {
        assert("data_bus"@.len() != "mem_state"@.len());
    }
    assert("data_bus"@ != "mem_mode"@) by {
        assert("data_bus"@[0] != "mem_mode"@[0]);
    }
    assert("mem_state"@ != "mem_mode"@) by {
        assert("mem_state"@.len() != "mem_mode"@.len());
    }
    lemma_table_lists(table);
    assert(table[0].0 == "address_bus"@ && lookup(table, table[0].0) == Some(table[0].1));
    assert(table[1].0 == "intr"@ && lookup(table, table[1].0) == Some(table[1].1));
    assert(table[2].0 == "data_bus"@ && lookup(table, table[2].0) == Some(table[2].1));
    assert(table[3].0 == "mem_state"@ && lookup(table, table[3].0) == Some(table[3].1));
    assert(table[4].0 == "mem_mode"@ && lookup(table, table[4].0) == Some(table[4].1));
    if !(name == "address_bus"@
        || name == "intr"@
        || name == "data_bus"@
        || name == "mem_state"@
        || name == "mem_mode"@) {
        lemma_none_true(name_flags(table, name));
    }
}

impl Default for Processor {
    fn default() -> (r: Self)
        ensures
            r.address_bus == 0,
            !r.intr,
            r.data_bus is None,
            r.mem_state == MemState::Inactive,
            r.mem_mode == MemMode::Read,
            r.data_in,
            r.instr_cache@.len() == 0,
            r.ax == 0,
            r.bx == 0,
            r.ip == 0,
    {
        Processor {
            address_bus: 0,
            intr: false,
            data_bus: None,
            mem_state: MemState::Inactive,
            mem_mode: MemMode::Read,
            data_in: true,
            instr_cache: Vec::new(),
            ax: 0,
            bx: 0,
            ip: 0,
        }
    }
}

impl ChipInterface for Processor {
    type Value = Signal;

    type State = Processor;

    open spec fn state(&self) -> Processor {
        *self
    }

    open spec fn pins(s: Processor) -> Map<Seq<char>, PinSpec> {
        table_map(processor_pins())
    }

    open spec fn value(s: Processor, name: Seq<char>) -> Signal {
        if name == "address_bus"@ {
            Signal::Byte(s.address_bus)
        } else if name == "intr"@ {
            Signal::Flag(s.intr)
        } else if name == "data_bus"@ {
            Signal::Data(s.data_bus)
        } else if name == "mem_state"@ {
            Signal::State(s.mem_state)
        } else if name == "mem_mode"@ {
            Signal::Mode(s.mem_mode)
        } else {
            arbitrary()
        }
    }

    open spec fn tristated(s: Processor, name: Seq<char>) -> bool {
        name == "data_bus"@ && s.data_bus is None
    }

    open spec fn input_mode(s: Processor, name: Seq<char>) -> bool {
        name == "data_bus"@ && s.data_in
    }

    open spec fn written(s: Processor, name: Seq<char>, v: Signal) -> Processor {
        if name == "address_bus"@ {
            match v {
                Signal::Byte(x) => Processor { address_bus: x, ..s },
                _ => s,
            }
        } else if name == "intr"@ {
            match v {
                Signal::Flag(x) => Processor { intr: x, ..s },
                _ => s,
            }
        } else if name == "data_bus"@ {
            match v {
                Signal::Data(x) => Processor { data_bus: x, ..s },
                _ => s,
            }
        } else if name == "mem_state"@ {
            match v {
                Signal::State(x) => Processor { mem_state: x, ..s },
                _ => s,
            }
        } else if name == "mem_mode"@ {
            match v {
                Signal::Mode(x) => Processor { mem_mode: x, ..s },
                _ => s,
            }
        } else {
            s
        }
    }

    fn get_pin_list(&self) -> (r: Vec<(String, PinMetadata)>) {
        let r = vec![
            (
                "address_bus".to_owned(),
                PinMetadata { pin_type: PinType::Output, data_type: "u8", tristatable: false },
            ),
            (
                "intr".to_owned(),
                PinMetadata { pin_type: PinType::Input, data_type: "bool", tristatable: false },
            ),
            (
                "data_bus".to_owned(),
                PinMetadata { pin_type: PinType::IO, data_type: "Option<u8>", tristatable: true },
            ),
            (
                "mem_state".to_owned(),
                PinMetadata { pin_type: PinType::Output, data_type: "MemState", tristatable: false },
            ),
            (
                "mem_mode".to_owned(),
                PinMetadata { pin_type: PinType::Output, data_type: "MemMode", tristatable: false },
            ),
        ];
        proof {
            lemma_processor_pins(Seq::empty());
            assert(r.deep_view() =~= processor_pins());
        }
        r
    }

    fn get_pin_value(&self, name: &str) -> (r: Option<Signal>) {
        proof {
            lemma_processor_pins(name@);
        }
        if same_text(name, "address_bus") {
            Some(Signal::Byte(self.address_bus))
        } else if same_text(name, "intr") {
            Some(Signal::Flag(self.intr))
        } else if same_text(name, "data_bus") {
            Some(Signal::Data(self.data_bus))
        } else if same_text(name, "mem_state") {
            Some(Signal::State(self.mem_state))
        } else if same_text(name, "mem_mode") {
            Some(Signal::Mode(self.mem_mode))
        } else {
            None
        }
    }

    fn set_pin_value(&mut self, name: &str, val: &Signal) {
        proof {
            lemma_processor_pins(name@);
        }
        if same_text(name, "address_bus") {
            match val {
                Signal::Byte(x) => {
                    self.address_bus = *x;
                },
                _ => {},
            }
        } else if same_text(name, "intr") {
            match val {
                Signal::Flag(x) => {
                    self.intr = *x;
                },
                _ => {},
            }
        } else if same_text(name, "data_bus") {
            match val {
                Signal::Data(x) => {
                    self.data_bus = *x;
                },
                _ => {},
            }
        } else if same_text(name, "mem_state") {
            match val {
                Signal::State(x) => {
                    self.mem_state = *x;
                },
                _ => {},
            }
        } else if same_text(name, "mem_mode") {
            match val {
                Signal::Mode(x) => {
                    self.mem_mode = *x;
                },
                _ => {},
            }
        }
    }

    fn is_pin_tristated(&self, name: &str) -> (r: bool) {
        proof {
            lemma_processor_pins(name@);
        }
        same_text(name, "data_bus") && self.data_bus.is_none()
    }

    fn in_input_mode(&self, name: &str) -> (r: bool) {
        proof {
            lemma_processor_pins(name@);
        }
        same_text(name, "data_bus") && self.data_in
    }
}

impl Chip for Processor {
    /// This chip does nothing on a tick.
    fn tick(&mut self) -> (r: Result<(), BusContention>) {
        Ok(())
    }
}

/// A memory: it is told an address, whether to work and in which direction, and
/// exchanges data over a bus that either side can drive.
#[derive(Debug)]
pub struct Memory {
    pub op_mode: MemMode,
    pub address: u8,
    pub data: Option<u8>,
    pub active: MemState,
    /// Whether the data bus is currently oriented as an input.
    pub data_in: bool,
    pub mem: Vec<u8>,
}

/// The pins of a `Memory`.
pub open spec fn memory_pins() -> PinTable {
    seq![
        (
            "op_mode"@,
            PinSpec { pin_type: PinType::Input, data_type: "MemMode"@, tristatable: false },
        ),
        (
            "address"@,
            PinSpec { pin_type: PinType::Input, data_type: "u8"@, tristatable: false },
        ),
        (
            "data"@,
            PinSpec { pin_type: PinType::IO, data_type: "Option<u8>"@, tristatable: true },
        ),
        (
            "active"@,
            PinSpec { pin_type: PinType::Input, data_type: "MemState"@, tristatable: false },
        ),
    ]
}

/// The pins of a `Memory` by name: each of its names, and no other, is a
/// pin.
pub proof fn lemma_memory_pins(name: Seq<char>)
    ensures
        crate::traits::lists(memory_pins(), table_map(memory_pins())),
        table_map(memory_pins()).contains_key(name) <==> name == "op_mode"@
            || name == "address"@
            || name == "data"@
            || name == "active"@,
        name == "op_mode"@ ==> table_map(memory_pins())[name] == memory_pins()[0].1,
        name == "address"@ ==> table_map(memory_pins())[name] == memory_pins()[1].1,
        name == "data"@ ==> table_map(memory_pins())[name] == memory_pins()[2].1,
        name == "active"@ ==> table_map(memory_pins())[name] == memory_pins()[3].1,
{
    let table = memory_pins();
    reveal_strlit("op_mode");
    reveal_strlit("address");
    reveal_strlit("data");
    reveal_strlit("active");
    assert("op_mode"@ != "address"@) by {
        assert("op_mode"@[0] != "address"@[0]);
    }
    assert("op_mode"@ != "data"@) by {
        assert("op_mode"@.len() != "data"@.len());
    }
    assert("op_mode"@ != "active"@) by {
        assert("op_mode"@.len() != "active"@.len());
    }
    assert("address"@ != "data"@) by {
        assert("address"@.len() != "data"@.len());
    }
    assert("address"@ != "active"@) by {
        assert("address"@.len() != "active"@.len());
    }
    assert("data"@ != "active"@) by {
        assert("data"@.len() != "active"@.len());
    }
    lemma_table_lists(table);
    assert(table[0].0 == "op_mode"@ && lookup(table, table[0].0) == Some(table[0].1));
    assert(table[1].0 == "address"@ && lookup(table, table[1].0) == Some(table[1].1));
    assert(table[2].0 == "data"@ && lookup(table, table[2].0) == Some(table[2].1));
    assert(table[3].0 == "active"@ && lookup(table, table[3].0) == Some(table[3].1));
    if !(name == "op_mode"@
        || name == "address"@
        || name == "data"@
        || name == "active"@) {
        lemma_none_true(name_flags(table, name));
    }
}

impl Default for Memory {
    fn default() -> (r: Self)
        ensures
            r.op_mode == MemMode::Read,
            r.address == 0,
            r.data is None,
            r.active == MemState::Inactive,
            r.data_in,
            r.mem@.len() == 0,
    {
        Memory {
            op_mode: MemMode::Read,
            address: 0,
            data: None,
            active: MemState::Inactive,
            data_in: true,
            mem: Vec::new(),
        }
    }
}

impl ChipInterface for Memory {
    type Value = Signal;

    type State = Memory;

    open spec fn state(&self) -> Memory {
        *self
    }

    open spec fn pins(s: Memory) -> Map<Seq<char>, PinSpec> {
        table_map(memory_pins())
    }

    open spec fn value(s: Memory, name: Seq<char>) -> Signal {
        if name == "op_mode"@ {
            Signal::Mode(s.op_mode)
        } else if name == "address"@ {
            Signal::Byte(s.address)
        } else if name == "data"@ {
            Signal::Data(s.data)
        } else if name == "active"@ {
            Signal::State(s.active)
        } else {
            arbitrary()
        }
    }

    open spec fn tristated(s: Memory, name: Seq<char>) -> bool {
        name == "data"@ && s.data is None
    }

    open spec fn input_mode(s: Memory, name: Seq<char>) -> bool {
        name == "data"@ && s.data_in
    }

    open spec fn written(s: Memory, name: Seq<char>, v: Signal) -> Memory {
        if name == "op_mode"@ {
            match v {
                Signal::Mode(x) => Memory { op_mode: x, ..s },
                _ => s,
            }
        } else if name == "address"@ {
            match v {
                Signal::Byte(x) => Memory { address: x, ..s },
                _ => s,
            }
        } else if name == "data"@ {
            match v {
                Signal::Data(x) => Memory { data: x, ..s },
                _ => s,
            }
        } else if name == "active"@ {
            match v {
                Signal::State(x) => Memory { active: x, ..s },
                _ => s,
            }
        } else {
            s
        }
    }

    fn get_pin_list(&self) -> (r: Vec<(String, PinMetadata)>) {
        let r = vec![
            (
                "op_mode".to_owned(),
                PinMetadata { pin_type: PinType::Input, data_type: "MemMode", tristatable: false },
            ),
            (
                "address".to_owned(),
                PinMetadata { pin_type: PinType::Input, data_type: "u8", tristatable: false },
            ),
            (
                "data".to_owned(),
                PinMetadata { pin_type: PinType::IO, data_type: "Option<u8>", tristatable: true },
            ),
            (
                "active".to_owned(),
                PinMetadata { pin_type: PinType::Input, data_type: "MemState", tristatable: false },
            ),
        ];
        proof {
            lemma_memory_pins(Seq::empty());
            assert(r.deep_view() =~= memory_pins());
        }
        r
    }

    fn get_pin_value(&self, name: &str) -> (r: Option<Signal>) {
        proof {
            lemma_memory_pins(name@);
        }
        if same_text(name, "op_mode") {
            Some(Signal::Mode(self.op_mode))
        } else if same_text(name, "address") {
            Some(Signal::Byte(self.address))
        } else if same_text(name, "data") {
            Some(Signal::Data(self.data))
        } else if same_text(name, "active") {
            Some(Signal::State(self.active))
        } else {
            None
        }
    }

    fn set_pin_value(&mut self, name: &str, val: &Signal) {
        proof {
            lemma_memory_pins(name@);
        }
        if same_text(name, "op_mode") {
            match val {
                Signal::Mode(x) => {
                    self.op_mode = *x;
                },
                _ => {},
            }
        } else if same_text(name, "address") {
            match val {
                Signal::Byte(x) => {
                    self.address = *x;
                },
                _ => {},
            }
        } else if same_text(name, "data") {
            match val {
                Signal::Data(x) => {
                    self.data = *x;
                },
                _ => {},
            }
        } else if same_text(name, "active") {
            match val {
                Signal::State(x) => {
                    self.active = *x;
                },
                _ => {},
            }
        }
    }

    fn is_pin_tristated(&self, name: &str) -> (r: bool) {
        proof {
            lemma_memory_pins(name@);
        }
        same_text(name, "data") && self.data.is_none()
    }

    fn in_input_mode(&self, name: &str) -> (r: bool) {
        proof {
            lemma_memory_pins(name@);
        }
        same_text(name, "data") && self.data_in
    }
}

impl Chip for Memory {
    /// This chip does nothing on a tick.
    fn tick(&mut self) -> (r: Result<(), BusContention>) {
        Ok(())
    }
}

/// Why the basic computer could not be assembled.
#[derive(Debug, PartialEq, Eq)]
pub enum ComputerError {
    /// Its description is not valid.
    Description(DescriptionError),
    /// Its chips do not fit its description.
    Build(BuildError),
}

/// The description of the basic computer: a processor and a memory, wired
/// address to address, data bus to data bus, mode to mode and state to
/// state, with the memory's pins shown on the board.
pub const BASIC_COMPUTER: &'static str =
    "BasicComputer {
    chip processor;
    chip memory;

    processor::address_bus - memory::address;
    processor::data_bus - memory::data;
    processor::mem_mode - memory::op_mode;
    processor::mem_state - memory::active;

    expose memory::address as address;
    expose memory::data as data;
    expose memory::op_mode as op_mode;
    expose memory::active as active;
}";

/// Assembles the basic computer from a processor and a memory in their
/// initial states.
pub fn get_basic_computer() -> (r: Result<Board<Either<Processor, Memory>>, ComputerError>)
    ensures
        match r {
            Ok(board) => read(BASIC_COMPUTER@) matches Ok(d) && exposure_fault(d) is None
                && board.names.deep_view() == d.chips && board.exposed_pins.deep_view()
                == d.exposes && all_inv::<Either<Processor, Memory>>(states(board.chips@))
                && exists|groups: Seq<Seq<PinId>>, added: Seq<(Seq<char>, Either<Processor, Memory>)>|
                components(d.connections, groups) && #[trigger] build_spec(d, groups, added)
                    == Ok::<(Seq<Either<Processor, Memory>>, Seq<Connection>), BuildFault>(
                    (board.chips@, board.pin_connections.deep_view()),
                ),
            Err(ComputerError::Description(e)) => read(BASIC_COMPUTER@) == Err::<
                Description,
                Fault,
            >(e@) || (read(BASIC_COMPUTER@) matches Ok(d) && exposure_fault(d) == Some(e@)),
            Err(ComputerError::Build(e)) => read(BASIC_COMPUTER@) matches Ok(d) && exposure_fault(
                d,
            ) is None,
        },
{
    let input = match PcbMacroInput::parse(BASIC_COMPUTER) {
        Ok(input) => input,
        Err(e) => {
            return Err(ComputerError::Description(e));
        },
    };
    let builder = match input.generate::<Either<Processor, Memory>>() {
        Ok(builder) => builder,
        Err(e) => {
            return Err(ComputerError::Description(e));
        },
    };
    let builder = builder.add_chip("processor", Either::Left(Processor::default()));
    let builder = builder.add_chip("memory", Either::Right(Memory::default()));
    let ghost groups = builder.shorted_pins.deep_view();
    let ghost added = added_view(builder.added_chips@);
    match builder.build() {
        Ok(board) => {
            assert(build_spec(input@, groups, added) == Ok::<
                (Seq<Either<Processor, Memory>>, Seq<Connection>),
                BuildFault,
            >((board.chips@, board.pin_connections.deep_view())));
            Ok(board)
        },
        Err(e) => Err(ComputerError::Build(e)),
    }
}

} // verus!
