use pcb_rs::either::Either;
use pcb_rs::{
    Board, BuildError, BusContention, Chip, ChipInterface, ChipPin, ConnectedPins,
    DescriptionError, PcbMacroInput, PinMetadata, PinType,
};

#[derive(Clone, Debug, PartialEq)]
enum Val {
    U8(u8),
    Bool(bool),
    Opt(Option<u8>),
}

/// A chip that is a bank of named pins. On a tick it counts, and adds one to
/// the pins named in `counting`.
struct Bank {
    pins: Vec<(&'static str, PinMetadata, Val)>,
    reading: Vec<&'static str>,
    counting: Vec<&'static str>,
    ticks: u32,
}

fn meta(pin_type: PinType, value: &Val) -> PinMetadata {
    let (data_type, tristatable) = match value {
        Val::U8(_) => ("u8", false),
        Val::Bool(_) => ("bool", false),
        Val::Opt(_) => ("Option<u8>", true),
    };
    PinMetadata { pin_type, data_type, tristatable }
}

impl Bank {
    fn new(pins: &[(&'static str, PinType, Val)]) -> Self {
        Bank {
            pins: pins.iter().map(|(n, t, v)| (*n, meta(*t, v), v.clone())).collect(),
            reading: vec![],
            counting: vec![],
            ticks: 0,
        }
    }

    fn get(&self, name: &str) -> Val {
        self.get_pin_value(name).unwrap()
    }

    fn set(&mut self, name: &str, v: Val) {
        self.set_pin_value(name, &v);
    }
}

impl ChipInterface for Bank {
    type Value = Val;
    type State = ();

    fn get_pin_list(&self) -> Vec<(String, PinMetadata)> {
        self.pins.iter().map(|(n, m, _)| (n.to_string(), *m)).collect()
    }

    fn get_pin_value(&self, name: &str) -> Option<Val> {
        self.pins.iter().find(|(n, _, _)| *n == name).map(|(_, _, v)| v.clone())
    }

    fn set_pin_value(&mut self, name: &str, val: &Val) {
        for (n, m, v) in self.pins.iter_mut() {
            if *n == name {
                assert_eq!(meta(m.pin_type, val).data_type, m.data_type);
                *v = val.clone();
            }
        }
    }

    fn is_pin_tristated(&self, name: &str) -> bool {
        matches!(self.get_pin_value(name), Some(Val::Opt(None)))
    }

    fn in_input_mode(&self, name: &str) -> bool {
        self.reading.contains(&name)
    }
}

impl Chip for Bank {
    fn tick(&mut self) -> Result<(), BusContention> {
        self.ticks += 1;
        for (n, _, v) in self.pins.iter_mut() {
            if self.counting.contains(n) {
                if let Val::U8(x) = v {
                    *x += 1;
                }
            }
        }
        Ok(())
    }
}

fn pin(chip: &str, pin: &str) -> ChipPin {
    ChipPin::new(chip, pin)
}

fn build(text: &str, chips: Vec<(&str, Bank)>) -> Result<Board<Bank>, BuildError> {
    let mut builder = PcbMacroInput::parse(text).unwrap().generate::<Bank>().unwrap();
    for (name, chip) in chips {
        builder = builder.add_chip(name, chip);
    }
    builder.build()
}

fn out_u8(name: &'static str, v: u8) -> Bank {
    Bank::new(&[(name, PinType::Output, Val::U8(v))])
}

fn in_u8(name: &'static str, v: u8) -> Bank {
    Bank::new(&[(name, PinType::Input, Val::U8(v))])
}

#[test]
fn pair_propagation() {
    let mut board =
        build("B { chip a; chip b; a::o - b::i; }", vec![("a", out_u8("o", 7)), ("b", in_u8("i", 0))])
            .unwrap();
    assert_eq!(
        board.pin_connections,
        vec![ConnectedPins::Pair { source: pin("a", "o"), destination: pin("b", "i") }]
    );
    assert_eq!(board.tick(), Ok(()));
    assert_eq!(board.get_chip("b").unwrap().get("i"), Val::U8(7));
    assert_eq!(board.get_chip("a").unwrap().get("o"), Val::U8(7));
}

#[test]
fn pair_written_with_the_consumer_first() {
    let mut board =
        build("B { chip a; chip b; b::i - a::o; }", vec![("b", in_u8("i", 0)), ("a", out_u8("o", 9))])
            .unwrap();
    assert_eq!(
        board.pin_connections,
        vec![ConnectedPins::Pair { source: pin("a", "o"), destination: pin("b", "i") }]
    );
    board.tick().unwrap();
    assert_eq!(board.get_chip("b").unwrap().get("i"), Val::U8(9));
}

#[test]
fn broadcast() {
    let mut board = build(
        "B { chip src; chip d1; chip d2; src::o - d1::i; src::o - d2::i; }",
        vec![("src", out_u8("o", 5)), ("d1", in_u8("i", 0)), ("d2", in_u8("i", 1))],
    )
    .unwrap();
    assert_eq!(board.pin_connections.len(), 1);
    match &board.pin_connections[0] {
        ConnectedPins::Broadcast { source, destinations } => {
            assert_eq!(*source, pin("src", "o"));
            assert_eq!(destinations.len(), 2);
            assert!(destinations.contains(&pin("d1", "i")));
            assert!(destinations.contains(&pin("d2", "i")));
        }
        other => panic!("not a broadcast: {:?}", other),
    }
    board.tick().unwrap();
    assert_eq!(board.get_chip("d1").unwrap().get("i"), Val::U8(5));
    assert_eq!(board.get_chip("d2").unwrap().get("i"), Val::U8(5));
}

fn bus(a: Option<u8>, b: Option<u8>) -> Board<Bank> {
    build(
        "Bus { chip a; chip b; chip c; a::o - c::i; b::o - c::i; }",
        vec![
            ("a", Bank::new(&[("o", PinType::Output, Val::Opt(a))])),
            ("b", Bank::new(&[("o", PinType::Output, Val::Opt(b))])),
            ("c", Bank::new(&[("i", PinType::Input, Val::Opt(Some(0)))])),
        ],
    )
    .unwrap()
}

#[test]
fn tristate_bus_with_one_active_driver() {
    let mut board = bus(Some(3), None);
    match &board.pin_connections[0] {
        ConnectedPins::Tristated { sources, destinations } => {
            assert_eq!(sources.len(), 2);
            assert_eq!(*destinations, vec![pin("c", "i")]);
        }
        other => panic!("not a tristated bus: {:?}", other),
    }
    assert_eq!(board.tick(), Ok(()));
    assert_eq!(board.get_chip("c").unwrap().get("i"), Val::Opt(Some(3)));
    let mut board = bus(None, Some(4));
    assert_eq!(board.tick(), Ok(()));
    assert_eq!(board.get_chip("c").unwrap().get("i"), Val::Opt(Some(4)));
}

#[test]
fn tristate_bus_contention() {
    let mut board = bus(Some(3), Some(4));
    let failure = board.tick().unwrap_err();
    let mut named = vec![failure.active, failure.other];
    named.sort_by(|x, y| x.chip.cmp(&y.chip));
    assert_eq!(named, vec![pin("a", "o"), pin("b", "o")]);
    assert_eq!(board.get_chip("c").unwrap().get("i"), Val::Opt(Some(0)));
}

#[test]
fn quiescent_tristate_bus_keeps_the_destination() {
    let mut board = bus(None, None);
    assert_eq!(board.tick(), Ok(()));
    assert_eq!(board.get_chip("c").unwrap().get("i"), Val::Opt(Some(0)));
}

#[test]
fn tristated_destination_is_skipped() {
    let mut board = build(
        "Bus { chip a; chip b; chip c; a::o - c::i; b::o - c::i; }",
        vec![
            ("a", Bank::new(&[("o", PinType::Output, Val::Opt(Some(8)))])),
            ("b", Bank::new(&[("o", PinType::Output, Val::Opt(None))])),
            ("c", Bank::new(&[("i", PinType::Input, Val::Opt(None))])),
        ],
    )
    .unwrap();
    assert_eq!(board.tick(), Ok(()));
    assert_eq!(board.get_chip("c").unwrap().get("i"), Val::Opt(None));
}

#[test]
fn io_pin_in_input_mode_is_no_driver() {
    let mut a = Bank::new(&[("d", PinType::IO, Val::Opt(Some(1)))]);
    a.reading = vec!["d"];
    let b = Bank::new(&[("d", PinType::IO, Val::Opt(Some(2)))]);
    let mut board = build("B { chip a; chip b; a::d - b::d; }", vec![("a", a), ("b", b)]).unwrap();
    assert!(matches!(board.pin_connections[0], ConnectedPins::Tristated { .. }));
    assert_eq!(board.tick(), Ok(()));
    assert_eq!(board.get_chip("a").unwrap().get("d"), Val::Opt(Some(2)));
    assert_eq!(board.get_chip("b").unwrap().get("d"), Val::Opt(Some(2)));
}

#[test]
fn build_time_type_mismatch_names_both_pins() {
    let r = build(
        "B { chip a; chip b; a::o - b::i; }",
        vec![("a", out_u8("o", 1)), ("b", Bank::new(&[("i", PinType::Input, Val::Bool(false))]))],
    );
    assert_eq!(
        r.err(),
        Some(BuildError::NotConnectable { first: pin("a", "o"), second: pin("b", "i") })
    );
}

#[test]
fn two_outputs_shorted_are_rejected() {
    let r = build("B { chip a; chip b; a::o - b::o; }", vec![("a", out_u8("o", 1)), ("b", out_u8("o", 2))]);
    assert_eq!(
        r.err(),
        Some(BuildError::NotConnectable { first: pin("a", "o"), second: pin("b", "o") })
    );
}

#[test]
fn two_inputs_shorted_are_rejected() {
    let r = build("B { chip a; chip b; a::i - b::i; }", vec![("a", in_u8("i", 1)), ("b", in_u8("i", 2))]);
    assert_eq!(
        r.err(),
        Some(BuildError::NotConnectable { first: pin("a", "i"), second: pin("b", "i") })
    );
}

#[test]
fn mixed_tristate_pair_is_rejected() {
    let r = build(
        "B { chip a; chip b; a::o - b::i; }",
        vec![
            ("a", Bank::new(&[("o", PinType::Output, Val::Opt(None))])),
            ("b", in_u8("i", 2)),
        ],
    );
    assert!(matches!(r.err(), Some(BuildError::NotConnectable { .. })));
}

#[test]
fn multiple_drivers_without_tristate_are_rejected() {
    // each connection is fine on its own; the group has two producers
    let r = build(
        "B { chip a; chip b; chip c; a::o - c::i; b::o - c::i; }",
        vec![("a", out_u8("o", 1)), ("b", out_u8("o", 2)), ("c", in_u8("i", 0))],
    );
    match r.err() {
        Some(BuildError::MultipleDrivers { pins }) => {
            assert_eq!(pins.len(), 3);
            assert!(pins.contains(&pin("a", "o")));
            assert!(pins.contains(&pin("b", "o")));
            assert!(pins.contains(&pin("c", "i")));
        }
        other => panic!("unexpected: {:?}", other),
    }
}

#[test]
fn missing_chip_and_missing_pin() {
    let r = build("B { chip a; chip b; a::o - b::i; }", vec![("a", out_u8("o", 1))]);
    assert_eq!(r.err(), Some(BuildError::MissingChip { chip: "b".to_string() }));
    let r = build(
        "B { chip a; chip b; a::o - b::i; }",
        vec![("a", out_u8("o", 1)), ("b", in_u8("j", 0))],
    );
    assert_eq!(r.err(), Some(BuildError::MissingPin { pin: pin("b", "i") }));
    let r = build(
        "B { chip a; chip b; a::o - b::i; expose a::x as y; }",
        vec![("a", out_u8("o", 1)), ("b", in_u8("i", 0))],
    );
    assert_eq!(r.err(), Some(BuildError::MissingPin { pin: pin("a", "x") }));
}

#[test]
fn a_chip_added_twice_is_replaced() {
    let mut board = build(
        "B { chip a; chip b; a::o - b::i; }",
        vec![("a", out_u8("o", 1)), ("b", in_u8("i", 0)), ("a", out_u8("o", 2)), ("z", in_u8("i", 0))],
    )
    .unwrap();
    assert_eq!(board.names, vec!["a".to_string(), "b".to_string()]);
    assert_eq!(board.chips.len(), 2);
    board.tick().unwrap();
    assert_eq!(board.get_chip("b").unwrap().get("i"), Val::U8(2));
    assert!(board.get_chip("z").is_none());
}

#[test]
fn fan_in_expose() {
    let text = "B { chip a; chip b; expose a::in1, b::in1 as data; expose a::o as out; }";
    let chips = || {
        vec![
            ("a", Bank::new(&[("in1", PinType::Input, Val::U8(0)), ("o", PinType::Output, Val::U8(4))])),
            ("b", in_u8("in1", 1)),
        ]
    };
    let mut board = build(text, chips()).unwrap();
    assert!(board.pin_connections.is_empty());
    let mut pins = board.get_pin_list();
    pins.sort_by(|x, y| x.0.cmp(&y.0));
    assert_eq!(
        pins,
        vec![
            ("data".to_string(), PinMetadata { pin_type: PinType::Input, data_type: "u8", tristatable: false }),
            ("out".to_string(), PinMetadata { pin_type: PinType::Output, data_type: "u8", tristatable: false }),
        ]
    );
    board.set_pin_value("data", &Val::U8(9));
    assert_eq!(board.get_chip("a").unwrap().get("in1"), Val::U8(9));
    assert_eq!(board.get_chip("b").unwrap().get("in1"), Val::U8(9));
    assert_eq!(board.get_pin_value("data"), Some(Val::U8(9)));
    assert_eq!(board.get_pin_value("out"), Some(Val::U8(4)));
    assert_eq!(board.get_pin_value("nothing"), None);
    board.set_pin_value("nothing", &Val::U8(1));
    assert!(!board.is_pin_tristated("data"));
    assert!(board.in_input_mode("data"));
    assert!(!board.in_input_mode("out"));
    assert!(!board.in_input_mode("nothing"));
    board.tick().unwrap();
    assert_eq!(board.get_chip("a").unwrap().get("in1"), Val::U8(9));
    assert_eq!(board.get_chip("a").unwrap().ticks, 1);
}

#[test]
fn fan_in_expose_skips_tristated_pins() {
    let mut board = build(
        "B { chip a; chip b; expose a::i, b::i as data; expose b::i2 as single; }",
        vec![
            ("a", Bank::new(&[("i", PinType::Input, Val::Opt(None))])),
            (
                "b",
                Bank::new(&[
                    ("i", PinType::Input, Val::Opt(Some(1))),
                    ("i2", PinType::Input, Val::Opt(None)),
                ]),
            ),
        ],
    )
    .unwrap();
    board.set_pin_value("data", &Val::Opt(Some(6)));
    assert_eq!(board.get_chip("a").unwrap().get("i"), Val::Opt(None));
    assert_eq!(board.get_chip("b").unwrap().get("i"), Val::Opt(Some(6)));
    assert_eq!(board.get_pin_value("data"), Some(Val::Opt(None)));
    assert!(board.is_pin_tristated("single"));
    assert!(!board.is_pin_tristated("data"));
}

#[test]
fn fan_in_expose_checks() {
    let r = build(
        "B { chip a; chip b; expose a::i, b::o as data; }",
        vec![("a", in_u8("i", 0)), ("b", out_u8("o", 0))],
    );
    assert_eq!(r.err(), Some(BuildError::ExposedNotInput { pin: pin("b", "o") }));
    let r = build(
        "B { chip a; chip b; expose a::i, b::i as data; }",
        vec![("a", in_u8("i", 0)), ("b", Bank::new(&[("i", PinType::Input, Val::Bool(true))]))],
    );
    assert_eq!(
        r.err(),
        Some(BuildError::ExposedTypeMismatch { pin: pin("b", "i"), first: pin("a", "i") })
    );
    // a single exposed pin may be of any direction
    assert!(build("B { chip b; expose b::o as x; }", vec![("b", out_u8("o", 0))]).is_ok());
}

#[test]
fn fan_in_expose_may_not_be_shorted() {
    let input = PcbMacroInput::parse(
        "B { chip a; chip b; chip c; c::o - a::i; expose b::i, a::i as data; }",
    )
    .unwrap();
    assert_eq!(
        input.generate::<Bank>().err(),
        Some(DescriptionError::ExposedShorted { pin: pin("a", "i"), as_name: "data".to_string() })
    );
    let input =
        PcbMacroInput::parse("B { chip a; chip c; c::o - a::i; expose a::i as data; }").unwrap();
    assert!(input.generate::<Bank>().is_ok());
}

#[test]
fn chips_tick_before_values_travel() {
    let mut a = out_u8("o", 7);
    a.counting = vec!["o"];
    let mut board =
        build("B { chip a; chip b; a::o - b::i; }", vec![("a", a), ("b", in_u8("i", 0))]).unwrap();
    board.tick().unwrap();
    assert_eq!(board.get_chip("b").unwrap().get("i"), Val::U8(8));
    board.tick().unwrap();
    assert_eq!(board.get_chip("b").unwrap().get("i"), Val::U8(9));
    assert_eq!(board.get_chip("a").unwrap().ticks, 2);
    assert_eq!(board.get_chip("b").unwrap().ticks, 2);
}

#[test]
fn a_board_without_connections_only_ticks_its_chips() {
    let mut board =
        build("B { chip a; chip b; }", vec![("a", out_u8("o", 7)), ("b", in_u8("i", 0))]).unwrap();
    assert!(board.pin_connections.is_empty());
    board.tick().unwrap();
    assert_eq!(board.get_chip("a").unwrap().get("o"), Val::U8(7));
    assert_eq!(board.get_chip("b").unwrap().get("i"), Val::U8(0));
    assert_eq!(board.get_chip("a").unwrap().ticks, 1);
    assert_eq!(board.get_chip("b").unwrap().ticks, 1);
}

#[test]
fn a_settled_board_of_idle_chips_stays_as_it_is() {
    let mut board =
        build("B { chip a; chip b; a::o - b::i; }", vec![("a", out_u8("o", 7)), ("b", in_u8("i", 7))])
            .unwrap();
    board.tick().unwrap();
    assert_eq!(board.get_chip("a").unwrap().get("o"), Val::U8(7));
    assert_eq!(board.get_chip("b").unwrap().get("i"), Val::U8(7));
}

#[test]
fn get_chip_mut_changes_the_chip() {
    let mut board =
        build("B { chip a; chip b; a::o - b::i; }", vec![("a", out_u8("o", 7)), ("b", in_u8("i", 0))])
            .unwrap();
    board.get_chip_mut("a").unwrap().set("o", Val::U8(20));
    assert!(board.get_chip_mut("zz").is_none());
    board.tick().unwrap();
    assert_eq!(board.get_chip("b").unwrap().get("i"), Val::U8(20));
}

#[test]
fn building_twice_gives_the_same_plan() {
    let text = "B { chip s; chip d1; chip d2; chip a; chip b;
                    s::o - d1::i; a::o - b::i; d2::i - s::o; }";
    let chips = || {
        vec![
            ("s", out_u8("o", 5)),
            ("d1", in_u8("i", 0)),
            ("d2", in_u8("i", 0)),
            ("a", out_u8("o", 1)),
            ("b", in_u8("i", 0)),
        ]
    };
    let first = build(text, chips()).unwrap();
    let second = build(text, chips()).unwrap();
    assert_eq!(first.pin_connections, second.pin_connections);
    assert_eq!(first.pin_connections.len(), 2);
}

fn entry_pins(c: &ConnectedPins) -> Vec<ChipPin> {
    match c {
        ConnectedPins::Pair { source, destination } => vec![source.clone(), destination.clone()],
        ConnectedPins::Broadcast { source, destinations } => {
            let mut v = vec![source.clone()];
            v.extend(destinations.iter().cloned());
            v
        }
        ConnectedPins::Tristated { sources, destinations } => {
            let mut v = sources.clone();
            v.extend(destinations.iter().cloned());
            v
        }
    }
}

#[test]
fn every_connection_lies_in_one_plan_entry_and_groups_are_uniform() {
    let text = "B { chip s; chip d1; chip d2; chip a; chip b; chip c;
                    s::o - d1::i; a::o - c::i; d2::i - s::o; b::o - c::i; }";
    let input = PcbMacroInput::parse(text).unwrap();
    let connections = input.connections.clone();
    let board = build(
        text,
        vec![
            ("s", out_u8("o", 5)),
            ("d1", in_u8("i", 0)),
            ("d2", in_u8("i", 0)),
            ("a", Bank::new(&[("o", PinType::Output, Val::Opt(None))])),
            ("b", Bank::new(&[("o", PinType::Output, Val::Opt(None))])),
            ("c", Bank::new(&[("i", PinType::Input, Val::Opt(None))])),
        ],
    )
    .unwrap();
    let entries: Vec<Vec<ChipPin>> = board.pin_connections.iter().map(entry_pins).collect();
    for (p, q) in &connections {
        let holding = entries.iter().filter(|e| e.contains(p) && e.contains(q)).count();
        assert_eq!(holding, 1);
    }
    for (i, e) in entries.iter().enumerate() {
        for p in e {
            for (j, f) in entries.iter().enumerate() {
                assert!(i == j || !f.contains(p));
            }
        }
        let kinds: Vec<(&str, bool)> = e
            .iter()
            .map(|p| {
                let chip = board.get_chip(&p.chip).unwrap();
                let m = chip.get_pin_list().into_iter().find(|(n, _)| *n == p.pin).unwrap().1;
                (m.data_type, m.tristatable)
            })
            .collect();
        assert!(kinds.iter().all(|k| *k == kinds[0]));
    }
}

#[test]
fn a_board_is_a_chip_of_a_larger_board() {
    let inner = build(
        "Inner { chip a; chip b; a::o - b::i; expose b::i as seen; expose a::o as given; }",
        vec![("a", out_u8("o", 7)), ("b", in_u8("i", 0))],
    )
    .unwrap();
    let mut builder = PcbMacroInput::parse("Outer { chip inner; chip probe; inner::given - probe::i; }")
        .unwrap()
        .generate::<Either<Board<Bank>, Bank>>()
        .unwrap();
    builder = builder.add_chip("inner", Either::Left(inner));
    builder = builder.add_chip("probe", Either::Right(in_u8("i", 0)));
    let mut outer = builder.build().unwrap();
    assert_eq!(outer.tick(), Ok(()));
    match outer.get_chip("probe") {
        Some(Either::Right(probe)) => assert_eq!(probe.get("i"), Val::U8(7)),
        _ => panic!("no probe"),
    }
    match outer.get_chip("inner") {
        Some(Either::Left(inner)) => {
            assert_eq!(inner.get_pin_value("seen"), Some(Val::U8(7)));
            assert_eq!(inner.get_chip("a").unwrap().ticks, 1);
        }
        _ => panic!("no inner board"),
    }
}

#[test]
fn a_contention_inside_a_board_fails_the_outer_tick() {
    let inner = bus(Some(1), Some(2));
    let mut builder =
        PcbMacroInput::parse("Outer { chip inner; }").unwrap().generate::<Board<Bank>>().unwrap();
    builder = builder.add_chip("inner", inner);
    let mut outer = builder.build().unwrap();
    assert!(outer.tick().is_err());
}
