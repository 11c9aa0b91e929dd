use pcb_rs::plan::{lookup_pin, pin_meta, plan_connections, plan_group, position_of, BuildError};
use pcb_rs::traits::BusContention;
use pcb_rs::{
    get_pin_group, ChipPin, ConnectedPins, GroupError, PcbMacroInput, PinMetadata, PinType,
};

fn md(pin_type: PinType, data_type: &'static str, tristatable: bool) -> PinMetadata {
    PinMetadata { pin_type, data_type, tristatable }
}

fn pin(chip: &str, pin: &str) -> ChipPin {
    ChipPin::new(chip, pin)
}

#[test]
fn connectable_pins() {
    let i = md(PinType::Input, "u8", false);
    let o = md(PinType::Output, "u8", false);
    let io = md(PinType::IO, "u8", false);
    assert!(i.is_connectable(&o));
    assert!(o.is_connectable(&i));
    assert!(io.is_connectable(&io));
    assert!(io.is_connectable(&i));
    assert!(o.is_connectable(&io));
    assert!(!i.is_connectable(&i));
    assert!(!o.is_connectable(&o));
    assert!(!i.is_connectable(&md(PinType::Output, "bool", false)));
    assert!(!i.is_connectable(&md(PinType::Output, "u8", true)));
    assert!(md(PinType::Input, "Option<u8>", true)
        .is_connectable(&md(PinType::Output, "Option<u8>", true)));
}

#[test]
fn pin_type_names() {
    assert_eq!(PinType::Input.name(), "Input");
    assert_eq!(PinType::Output.name(), "Output");
    assert_eq!(PinType::IO.name(), "IO");
}

#[test]
fn one_consumer_and_one_producer_make_a_pair() {
    let i = md(PinType::Input, "u8", false);
    let o = md(PinType::Output, "u8", false);
    assert_eq!(
        get_pin_group(vec![(pin("b", "i"), &i)], vec![(pin("a", "o"), &o)]),
        Ok(ConnectedPins::Pair { source: pin("a", "o"), destination: pin("b", "i") })
    );
}

#[test]
fn one_producer_and_several_consumers_make_a_broadcast() {
    let i = md(PinType::Input, "u8", false);
    let o = md(PinType::Output, "u8", false);
    assert_eq!(
        get_pin_group(
            vec![(pin("b", "i"), &i), (pin("c", "i"), &i)],
            vec![(pin("a", "o"), &o)]
        ),
        Ok(ConnectedPins::Broadcast {
            source: pin("a", "o"),
            destinations: vec![pin("b", "i"), pin("c", "i")]
        })
    );
}

#[test]
fn a_broadcast_leaves_its_source_out_of_the_destinations() {
    let i = md(PinType::Input, "u8", false);
    let io = md(PinType::IO, "u8", false);
    assert_eq!(
        get_pin_group(
            vec![(pin("a", "d"), &io), (pin("b", "i"), &i), (pin("c", "i"), &i)],
            vec![(pin("a", "d"), &io)]
        ),
        Ok(ConnectedPins::Broadcast {
            source: pin("a", "d"),
            destinations: vec![pin("b", "i"), pin("c", "i")]
        })
    );
    // a lone pin that both consumes and produces is no pair
    assert_eq!(
        get_pin_group(vec![(pin("a", "d"), &io)], vec![(pin("a", "d"), &io)]),
        Ok(ConnectedPins::Broadcast { source: pin("a", "d"), destinations: vec![] })
    );
}

#[test]
fn tristatable_pins_make_a_bus() {
    let i = md(PinType::Input, "Option<u8>", true);
    let o = md(PinType::Output, "Option<u8>", true);
    assert_eq!(
        get_pin_group(
            vec![(pin("c", "i"), &i)],
            vec![(pin("a", "o"), &o), (pin("b", "o"), &o)]
        ),
        Ok(ConnectedPins::Tristated {
            sources: vec![pin("a", "o"), pin("b", "o")],
            destinations: vec![pin("c", "i")]
        })
    );
    assert_eq!(
        get_pin_group(vec![(pin("c", "i"), &i), (pin("d", "i"), &i)], vec![]),
        Ok(ConnectedPins::Tristated {
            sources: vec![],
            destinations: vec![pin("c", "i"), pin("d", "i")]
        })
    );
}

#[test]
fn group_failures() {
    let i = md(PinType::Input, "u8", false);
    let o = md(PinType::Output, "u8", false);
    let ti = md(PinType::Input, "u8", true);
    let to = md(PinType::Output, "u8", true);
    assert_eq!(
        get_pin_group(vec![(pin("c", "i"), &i)], vec![(pin("a", "o"), &o), (pin("b", "o"), &o)]),
        Err(GroupError::MultipleDrivers)
    );
    assert_eq!(
        get_pin_group(vec![(pin("c", "i"), &i)], vec![(pin("a", "o"), &to), (pin("b", "o"), &to)]),
        Err(GroupError::MultipleDrivers)
    );
    assert_eq!(
        get_pin_group(vec![(pin("c", "i"), &ti), (pin("d", "i"), &i)], vec![(pin("a", "o"), &o)]),
        Err(GroupError::MixedTristate)
    );
    assert_eq!(
        get_pin_group(vec![(pin("c", "i"), &i), (pin("d", "i"), &i)], vec![(pin("a", "o"), &to)]),
        Err(GroupError::MixedTristate)
    );
    // with one consumer and one producer nothing else is looked at
    assert!(get_pin_group(vec![(pin("c", "i"), &ti)], vec![(pin("a", "o"), &o)]).is_ok());
}

fn tables() -> (Vec<String>, Vec<Vec<(String, PinMetadata)>>) {
    (
        vec!["a".to_string(), "b".to_string()],
        vec![
            vec![
                ("o".to_string(), md(PinType::Output, "u8", false)),
                ("o".to_string(), md(PinType::Input, "bool", false)),
            ],
            vec![("i".to_string(), md(PinType::Input, "u8", false))],
        ],
    )
}

#[test]
fn lookups() {
    let (chips, tables) = tables();
    assert_eq!(position_of(&chips, "a"), Some(0));
    assert_eq!(position_of(&chips, "b"), Some(1));
    assert_eq!(position_of(&chips, "c"), None);
    assert_eq!(lookup_pin(&tables[0], "o"), Some(md(PinType::Output, "u8", false)));
    assert_eq!(lookup_pin(&tables[0], "i"), None);
    assert_eq!(pin_meta(&chips, &tables, &pin("b", "i")), Some(md(PinType::Input, "u8", false)));
    assert_eq!(pin_meta(&chips, &tables, &pin("b", "o")), None);
    assert_eq!(pin_meta(&chips, &tables, &pin("c", "i")), None);
    assert_eq!(pin_meta(&chips, &tables[..1].to_vec(), &pin("b", "i")), None);
}

#[test]
fn plan_from_tables() {
    let (_, tables) = tables();
    let input = PcbMacroInput::parse("B { chip a; chip b; a::o - b::i; }").unwrap();
    let groups = input.get_short_pin_set();
    assert_eq!(
        plan_connections(&input, &groups, &tables),
        Ok(vec![ConnectedPins::Pair { source: pin("a", "o"), destination: pin("b", "i") }])
    );
    assert_eq!(
        plan_group(&input.chips, &tables, &groups[0]),
        Ok(ConnectedPins::Pair { source: pin("a", "o"), destination: pin("b", "i") })
    );
    let input = PcbMacroInput::parse("B { chip a; chip b; a::o - b::x; }").unwrap();
    let groups = input.get_short_pin_set();
    assert_eq!(
        plan_connections(&input, &groups, &tables),
        Err(BuildError::MissingPin { pin: pin("b", "x") })
    );
}

#[test]
fn contention_names_two_pins() {
    let c = BusContention { active: pin("a", "o"), other: pin("b", "o") };
    assert_eq!(c.active, pin("a", "o"));
    assert_ne!(c.active, c.other);
}

#[test]
fn a_group_that_mixes_tristatable_pins_fails_the_plan() {
    let chips = vec!["a".to_string(), "b".to_string(), "c".to_string()];
    let tables = vec![
        vec![("o".to_string(), md(PinType::Output, "u8", false))],
        vec![("i".to_string(), md(PinType::Input, "u8", true))],
        vec![("i".to_string(), md(PinType::Input, "u8", false))],
    ];
    let group = vec![pin("a", "o"), pin("b", "i"), pin("c", "i")];
    assert_eq!(plan_group(&chips, &tables, &group), Err(GroupError::MixedTristate));
    let input = PcbMacroInput::parse("B { chip a; chip b; chip c; }").unwrap();
    assert_eq!(
        plan_connections(&input, &vec![group.clone()], &tables),
        Err(BuildError::MixedTristate { pins: group })
    );
}
