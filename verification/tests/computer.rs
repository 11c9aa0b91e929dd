use pcb_rs::computer::{get_basic_computer, MemMode, MemState, Memory, Processor, Signal};
use pcb_rs::either::Either;
use pcb_rs::{Chip, ChipInterface, ChipPin, ConnectedPins, PinMetadata, PinType};

#[test]
fn processor_pins() {
    let p = Processor::default();
    let pins = p.get_pin_list();
    assert_eq!(pins.len(), 5);
    assert_eq!(
        pins[0],
        (
            "address_bus".to_string(),
            PinMetadata { pin_type: PinType::Output, data_type: "u8", tristatable: false }
        )
    );
    assert_eq!(
        pins[2],
        (
            "data_bus".to_string(),
            PinMetadata { pin_type: PinType::IO, data_type: "Option<u8>", tristatable: true }
        )
    );
    assert_eq!(p.get_pin_value("address_bus"), Some(Signal::Byte(0)));
    assert_eq!(p.get_pin_value("intr"), Some(Signal::Flag(false)));
    assert_eq!(p.get_pin_value("data_bus"), Some(Signal::Data(None)));
    assert_eq!(p.get_pin_value("mem_state"), Some(Signal::State(MemState::Inactive)));
    assert_eq!(p.get_pin_value("mem_mode"), Some(Signal::Mode(MemMode::Read)));
    assert_eq!(p.get_pin_value("ax"), None);
    assert!(p.is_pin_tristated("data_bus"));
    assert!(!p.is_pin_tristated("intr"));
    assert!(p.in_input_mode("data_bus"));
    assert!(!p.in_input_mode("intr"));
}

#[test]
fn memory_pins_take_values_of_their_type_only() {
    let mut m = Memory::default();
    assert_eq!(m.get_pin_list().len(), 4);
    m.set_pin_value("address", &Signal::Byte(9));
    assert_eq!(m.get_pin_value("address"), Some(Signal::Byte(9)));
    m.set_pin_value("address", &Signal::Flag(true));
    assert_eq!(m.get_pin_value("address"), Some(Signal::Byte(9)));
    m.set_pin_value("op_mode", &Signal::Mode(MemMode::Write));
    assert_eq!(m.op_mode, MemMode::Write);
    m.set_pin_value("active", &Signal::State(MemState::Active));
    assert_eq!(m.active, MemState::Active);
    m.set_pin_value("data", &Signal::Data(Some(3)));
    assert_eq!(m.data, Some(3));
    assert!(!m.is_pin_tristated("data"));
    m.set_pin_value("mem", &Signal::Byte(1));
    assert!(m.mem.is_empty());
    assert_eq!(m.tick(), Ok(()));
    assert_eq!(m.get_pin_value("data"), Some(Signal::Data(Some(3))));
}

#[test]
fn basic_computer() {
    let mut computer = get_basic_computer().unwrap();
    assert_eq!(computer.names, vec!["processor".to_string(), "memory".to_string()]);
    assert_eq!(computer.pin_connections.len(), 4);
    assert_eq!(
        computer.pin_connections[0],
        ConnectedPins::Pair {
            source: ChipPin::new("processor", "address_bus"),
            destination: ChipPin::new("memory", "address")
        }
    );
    assert!(matches!(computer.pin_connections[1], ConnectedPins::Tristated { .. }));
    match computer.get_chip_mut("processor") {
        Some(Either::Left(p)) => {
            p.address_bus = 17;
            p.data_bus = Some(5);
            p.data_in = false;
            p.mem_mode = MemMode::Write;
            p.mem_state = MemState::Active;
        }
        _ => panic!("no processor"),
    }
    // an inactive consumer is passed over
    assert_eq!(computer.tick(), Ok(()));
    match computer.get_chip_mut("memory") {
        Some(Either::Right(m)) => {
            assert_eq!(m.address, 17);
            assert_eq!(m.data, None);
            m.data = Some(0);
        }
        _ => panic!("no memory"),
    }
    assert_eq!(computer.tick(), Ok(()));
    match computer.get_chip("memory") {
        Some(Either::Right(m)) => {
            assert_eq!(m.address, 17);
            assert_eq!(m.data, Some(5));
            assert_eq!(m.op_mode, MemMode::Write);
            assert_eq!(m.active, MemState::Active);
        }
        _ => panic!("no memory"),
    }
    assert_eq!(computer.get_pin_value("address"), Some(Signal::Byte(17)));
    assert_eq!(computer.get_pin_value("data"), Some(Signal::Data(Some(5))));
    let mut names: Vec<String> = computer.get_pin_list().into_iter().map(|(n, _)| n).collect();
    names.sort();
    assert_eq!(names, vec!["active", "address", "data", "op_mode"]);
}

#[test]
fn both_data_buses_driving_is_a_contention() {
    let mut computer = get_basic_computer().unwrap();
    if let Some(Either::Left(p)) = computer.get_chip_mut("processor") {
        p.data_bus = Some(5);
        p.data_in = false;
    }
    if let Some(Either::Right(m)) = computer.get_chip_mut("memory") {
        m.data = Some(6);
        m.data_in = false;
    }
    let failure = computer.tick().unwrap_err();
    assert_eq!(failure.active, ChipPin::new("processor", "data_bus"));
    assert_eq!(failure.other, ChipPin::new("memory", "data"));
}
