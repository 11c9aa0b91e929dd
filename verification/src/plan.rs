//! The connection plan of a board: the checks on the pins that a description
//! refers to, against the metadata that the chips supply, and the lowering
//! of every group of shorted pins into a connection.

use vstd::prelude::*;
use crate::description::{first_true, is_first_true, lemma_first_true, lemma_none_true};
use crate::syntax::{Description, ExposedPins, Exposure, PcbMacroInput};
use crate::traits::{ChipPin, ConnectedPins, Connection, PinId, PinMetadata, PinSpec, PinType};
use crate::util::{classify, get_pin_group, GroupError};

verus! {

/// The pins of one chip, as the chip lists them.
pub type PinTable = Seq<(Seq<char>, PinSpec)>;

/// For each entry of a list of named records, whether its name is `name`.
pub open spec fn name_flags<T>(list: Seq<(Seq<char>, T)>, name: Seq<char>) -> Seq<bool> {
    Seq::new(list.len(), |i: int| list[i].0 == name)
}

/// For each chip of a roster, whether it is called `chip`.
pub open spec fn chip_flags(chips: Seq<Seq<char>>, chip: Seq<char>) -> Seq<bool> {
    Seq::new(chips.len(), |i: int| chips[i] == chip)
}

/// The place of the first chip called `chip` in a roster.
pub open spec fn position(chips: Seq<Seq<char>>, chip: Seq<char>) -> Option<int> {
    first_true(chip_flags(chips, chip))
}

/// The metadata that a chip's pin list gives for the pin called `name`.
pub open spec fn lookup(table: PinTable, name: Seq<char>) -> Option<PinSpec> {
    match first_true(name_flags(table, name)) {
        Some(i) => Some(table[i].1),
        None => None,
    }
}

/// The pins of one chip, by name.
pub type PinMap = Map<Seq<char>, PinSpec>;

/// The pins that a chip's pin list holds, by name; of two entries under one
/// name the first counts.
pub open spec fn table_map(table: PinTable) -> PinMap {
    Map::new(
        |name: Seq<char>| lookup(table, name) is Some,
        |name: Seq<char>| lookup(table, name).unwrap(),
    )
}

/// The pins that each of a list of pin lists holds.
pub open spec fn table_maps(tables: Seq<PinTable>) -> Seq<PinMap> {
    Seq::new(tables.len(), |i: int| table_map(tables[i]))
}

/// The metadata of a pin of a board, where `maps` holds the pins of each chip
/// of the roster: nothing when no such chip is on the roster or the chip has
/// no such pin.
pub open spec fn meta(chips: Seq<Seq<char>>, maps: Seq<PinMap>, p: PinId) -> Option<PinSpec> {
    match position(chips, p.0) {
        Some(i) => if i < maps.len() && maps[i].contains_key(p.1) {
            Some(maps[i][p.1])
        } else {
            None
        },
        None => None,
    }
}

/// A pin list that holds each name once says exactly what its map holds.
pub proof fn lemma_table_lists(table: PinTable)
    requires
        forall|i: int, j: int|
            0 <= i < j < table.len() ==> #[trigger] table[i].0 != #[trigger] table[j].0,
    ensures
        crate::traits::lists(table, table_map(table)),
        forall|i: int| 0 <= i < table.len() ==> lookup(table, #[trigger] table[i].0) == Some(table[i].1),
{
    let pins = table_map(table);
    assert forall|i: int| 0 <= i < table.len() implies lookup(table, #[trigger] table[i].0) == Some(
        table[i].1,
    ) by {
        let flags = name_flags(table, table[i].0);
        assert(is_first_true(flags, i));
        lemma_first_true(flags, i);
    }
    assert forall|name: Seq<char>| #[trigger] pins.contains_key(name) implies exists|i: int|
        0 <= i < table.len() && #[trigger] table[i].0 == name by {
        let flags = name_flags(table, name);
        let i = first_true(flags)->0;
        assert(is_first_true(flags, i));
        assert(table[i].0 == name);
    }
}

/// Finds the place of a chip in a roster.
pub fn position_of(chips: &Vec<String>, chip: &str) -> (r: Option<usize>)
    ensures
        match r {
            Some(i) => i < chips.len() && position(chips.deep_view(), chip@) == Some(i as int),
            None => position(chips.deep_view(), chip@) is None,
        },
{
    let ghost flags = chip_flags(chips.deep_view(), chip@);
    let mut i: usize = 0;
    while i < chips.len()
        invariant
            i <= chips.len(),
            flags == chip_flags(chips.deep_view(), chip@),
            forall|k: int| 0 <= k < i ==> !flags[k],
        decreases chips.len() - i,
    {
        if crate::text::same_text(chips[i].as_str(), chip) {
            proof {
                assert(is_first_true(flags, i as int));
                lemma_first_true(flags, i as int);
            }
            return Some(i);
        }
        i = i + 1;
    }
    proof {
        lemma_none_true(flags);
    }
    None
}

/// Finds the metadata of a pin in a chip's pin list.
pub fn lookup_pin(table: &Vec<(String, PinMetadata)>, name: &str) -> (r: Option<PinMetadata>)
    ensures
        r.deep_view() == lookup(table.deep_view(), name@),
{
    let ghost flags = name_flags(table.deep_view(), name@);
    let mut i: usize = 0;
    while i < table.len()
        invariant
            i <= table.len(),
            flags == name_flags(table.deep_view(), name@),
            forall|k: int| 0 <= k < i ==> !flags[k],
        decreases table.len() - i,
    {
        if crate::text::same_text(table[i].0.as_str(), name) {
            proof {
                assert(is_first_true(flags, i as int));
                lemma_first_true(flags, i as int);
            }
            return Some(table[i].1);
        }
        i = i + 1;
    }
    proof {
        lemma_none_true(flags);
    }
    None
}

/// Finds the metadata of a pin of a board.
pub fn pin_meta(
    chips: &Vec<String>,
    tables: &Vec<Vec<(String, PinMetadata)>>,
    p: &ChipPin,
) -> (r: Option<PinMetadata>)
    ensures
        r.deep_view() == meta(chips.deep_view(), table_maps(tables.deep_view()), p@),
{
    match position_of(chips, p.chip.as_str()) {
        Some(i) => {
            if i < tables.len() {
                lookup_pin(&tables[i], p.pin.as_str())
            } else {
                None
            }
        },
        None => None,
    }
}

/// Why a board cannot be assembled from a description and the chips added.
#[derive(Debug, PartialEq, Eq)]
pub enum BuildError {
    /// A chip of the description was never added.
    MissingChip { chip: String },
    /// A chip lacks a pin that the description refers to.
    MissingPin { pin: ChipPin },
    /// Two connected pins cannot be wired together.
    NotConnectable { first: ChipPin, second: ChipPin },
    /// A pin that is exposed together with others is not an input.
    ExposedNotInput { pin: ChipPin },
    /// A pin that is exposed together with others carries another type than
    /// the first pin of its entry.
    ExposedTypeMismatch { pin: ChipPin, first: ChipPin },
    /// A group of shorted pins has several producers, and not all of its
    /// pins are tristatable.
    MultipleDrivers { pins: Vec<ChipPin> },
    /// Some pins of a group of shorted pins are tristatable and some are not.
    MixedTristate { pins: Vec<ChipPin> },
}

/// Mathematical content of a `BuildError`.
pub enum BuildFault {
    MissingChip { chip: Seq<char> },
    MissingPin { pin: PinId },
    NotConnectable { first: PinId, second: PinId },
    ExposedNotInput { pin: PinId },
    ExposedTypeMismatch { pin: PinId, first: PinId },
    MultipleDrivers { pins: Seq<PinId> },
    MixedTristate { pins: Seq<PinId> },
}

impl View for BuildError {
    type V = BuildFault;

    open spec fn view(&self) -> BuildFault {
        match self {
            BuildError::MissingChip { chip } => BuildFault::MissingChip { chip: chip@ },
            BuildError::MissingPin { pin } => BuildFault::MissingPin { pin: pin@ },
            BuildError::NotConnectable { first, second } => BuildFault::NotConnectable {
                first: first@,
                second: second@,
            },
            BuildError::ExposedNotInput { pin } => BuildFault::ExposedNotInput { pin: pin@ },
            BuildError::ExposedTypeMismatch { pin, first } => BuildFault::ExposedTypeMismatch {
                pin: pin@,
                first: first@,
            },
            BuildError::MultipleDrivers { pins } => BuildFault::MultipleDrivers {
                pins: pins.deep_view(),
            },
            BuildError::MixedTristate { pins } => BuildFault::MixedTristate {
                pins: pins.deep_view(),
            },
        }
    }
}

impl DeepView for BuildError {
    type V = BuildFault;

    open spec fn deep_view(&self) -> BuildFault {
        self@
    }
}

/// The pins of a list of connections, in order: first and second pin of each.
pub open spec fn ends(connections: Seq<(PinId, PinId)>) -> Seq<PinId>
    decreases connections.len(),
{
    if connections.len() == 0 {
        Seq::empty()
    } else {
        ends(connections.drop_last()).push(connections.last().0).push(connections.last().1)
    }
}

/// The pins of a list of expose entries, in order.
pub open spec fn all_pins(exposes: Seq<Exposure>) -> Seq<PinId>
    decreases exposes.len(),
{
    if exposes.len() == 0 {
        Seq::empty()
    } else {
        all_pins(exposes.drop_last()) + exposes.last().pins
    }
}

/// Every pin that a description refers to: those of its connections, then
/// those of its expose entries.
pub open spec fn referenced(d: Description) -> Seq<PinId> {
    ends(d.connections) + all_pins(d.exposes)
}

/// The pins of the entries that expose several pins under one name, each
/// with the first pin of its entry.
pub open spec fn members(exposes: Seq<Exposure>) -> Seq<(PinId, PinId)>
    decreases exposes.len(),
{
    if exposes.len() == 0 {
        Seq::empty()
    } else if exposes.last().pins.len() > 1 {
        members(exposes.drop_last()) + with_first(exposes.last().pins)
    } else {
        members(exposes.drop_last())
    }
}

/// Each pin of a list with the first pin of the list.
pub open spec fn with_first(pins: Seq<PinId>) -> Seq<(PinId, PinId)> {
    Seq::new(pins.len(), |j: int| (pins[j], pins[0]))
}

fn collect_referenced(input: &PcbMacroInput) -> (r: Vec<ChipPin>)
    ensures
        r.deep_view() == referenced(input@),
{
    let mut pins: Vec<ChipPin> = Vec::new();
    let mut k: usize = 0;
    assert(pins.deep_view() =~= Seq::empty());
    assert(input@.connections.take(0) =~= Seq::empty());
    while k < input.connections.len()
        invariant
            k <= input.connections.len(),
            pins.deep_view() == ends(input@.connections.take(k as int)),
        decreases input.connections.len() - k,
    {
        let ghost before = pins.deep_view();
        pins.push(input.connections[k].0.clone());
        pins.push(input.connections[k].1.clone());
        proof {
            let all = input@.connections;
            assert(all.take(k + 1).drop_last() =~= all.take(k as int));
            assert(all.take(k + 1).last() == all[k as int]);
            assert(pins.deep_view() =~= before.push(all[k as int].0).push(all[k as int].1));
        }
        k = k + 1;
    }
    assert(input@.connections.take(k as int) =~= input@.connections);
    let ghost head = pins.deep_view();
    let mut e: usize = 0;
    assert(input@.exposes.take(0) =~= Seq::empty());
    assert(head + Seq::<PinId>::empty() =~= head);
    while e < input.exposed_pins.len()
        invariant
            e <= input.exposed_pins.len(),
            pins.deep_view() == head + all_pins(input@.exposes.take(e as int)),
        decreases input.exposed_pins.len() - e,
    {
        let ghost before = pins.deep_view();
        let entry = &input.exposed_pins[e];
        let mut j: usize = 0;
        assert(before + entry@.pins.take(0) =~= before);
        while j < entry.pins.len()
            invariant
                j <= entry.pins.len(),
                pins.deep_view() == before + entry@.pins.take(j as int),
            decreases entry.pins.len() - j,
        {
            let ghost so_far = pins.deep_view();
            pins.push(entry.pins[j].clone());
            assert(pins.deep_view() =~= so_far.push(entry@.pins[j as int]));
            assert(entry@.pins.take(j + 1) =~= entry@.pins.take(j as int).push(
                entry@.pins[j as int],
            ));
            assert(before + entry@.pins.take(j + 1) =~= (before + entry@.pins.take(j as int)).push(
                entry@.pins[j as int],
            ));
            j = j + 1;
        }
        proof {
            let all = input@.exposes;
            assert(entry@.pins.take(j as int) =~= entry@.pins);
            assert(all.take(e + 1).drop_last() =~= all.take(e as int));
            assert(all.take(e + 1).last() == entry@);
            assert(head + (all_pins(all.take(e as int)) + entry@.pins) =~= (head + all_pins(
                all.take(e as int),
            )) + entry@.pins);
        }
        e = e + 1;
    }
    assert(input@.exposes.take(e as int) =~= input@.exposes);
    pins
}

fn collect_members(exposes: &Vec<ExposedPins>) -> (r: Vec<(ChipPin, ChipPin)>)
    ensures
        r.deep_view() == members(exposes.deep_view()),
{
    let mut found: Vec<(ChipPin, ChipPin)> = Vec::new();
    let mut e: usize = 0;
    assert(found.deep_view() =~= Seq::empty());
    assert(exposes.deep_view().take(0) =~= Seq::empty());
    while e < exposes.len()
        invariant
            e <= exposes.len(),
            found.deep_view() == members(exposes.deep_view().take(e as int)),
        decreases exposes.len() - e,
    {
        let ghost before = found.deep_view();
        let entry = &exposes[e];
        if entry.pins.len() > 1 {
            let mut j: usize = 0;
            assert(before + with_first(entry@.pins).take(0) =~= before);
            while j < entry.pins.len()
                invariant
                    j <= entry.pins.len(),
                    entry.pins.len() > 1,
                    found.deep_view() == before + with_first(entry@.pins).take(j as int),
                decreases entry.pins.len() - j,
            {
                let ghost so_far = found.deep_view();
                found.push((entry.pins[j].clone(), entry.pins[0].clone()));
                proof {
                    let item = (entry@.pins[j as int], entry@.pins[0]);
                    assert(found.deep_view() =~= so_far.push(item));
                    assert(with_first(entry@.pins).take(j + 1) =~= with_first(entry@.pins).take(
                        j as int,
                    ).push(item));
                    assert(before + with_first(entry@.pins).take(j + 1) =~= (before + with_first(
                        entry@.pins,
                    ).take(j as int)).push(item));
                }
                j = j + 1;
            }
            assert(with_first(entry@.pins).take(j as int) =~= with_first(entry@.pins));
        }
        proof {
            let all = exposes.deep_view();
            assert(all.take(e + 1).drop_last() =~= all.take(e as int));
            assert(all.take(e + 1).last() == entry@);
        }
        e = e + 1;
    }
    assert(exposes.deep_view().take(e as int) =~= exposes.deep_view());
    found
}

/// For each pin of a list, whether the board has no such pin.
pub open spec fn missing_flags(
    chips: Seq<Seq<char>>,
    maps: Seq<PinMap>,
    pins: Seq<PinId>,
) -> Seq<bool> {
    Seq::new(pins.len(), |i: int| meta(chips, maps, pins[i]) is None)
}

/// Both pins exist and may be wired together.
pub open spec fn fits(a: Option<PinSpec>, b: Option<PinSpec>) -> bool {
    match (a, b) {
        (Some(x), Some(y)) => x.connectable(y),
        _ => false,
    }
}

/// For each connection, whether its two pins may not be wired together.
pub open spec fn unfit_flags(
    chips: Seq<Seq<char>>,
    maps: Seq<PinMap>,
    connections: Seq<(PinId, PinId)>,
) -> Seq<bool> {
    Seq::new(
        connections.len(),
        |k: int|
            !fits(meta(chips, maps, connections[k].0), meta(chips, maps, connections[k].1)),
    )
}

/// What is wrong with a pin that is exposed together with others, given the
/// first pin of its entry: it is not an input, or it carries another type
/// than the first pin.
pub open spec fn member_fault(
    chips: Seq<Seq<char>>,
    maps: Seq<PinMap>,
    m: (PinId, PinId),
) -> Option<BuildFault> {
    match meta(chips, maps, m.0) {
        Some(x) => if x.pin_type != PinType::Input {
            Some(BuildFault::ExposedNotInput { pin: m.0 })
        } else {
            match meta(chips, maps, m.1) {
                Some(f) => if x.data_type == f.data_type {
                    None
                } else {
                    Some(BuildFault::ExposedTypeMismatch { pin: m.0, first: m.1 })
                },
                None => Some(BuildFault::ExposedTypeMismatch { pin: m.0, first: m.1 }),
            }
        },
        None => Some(BuildFault::ExposedNotInput { pin: m.0 }),
    }
}

/// For each pin exposed together with others, whether something is wrong
/// with it.
pub open spec fn member_flags(
    chips: Seq<Seq<char>>,
    maps: Seq<PinMap>,
    list: Seq<(PinId, PinId)>,
) -> Seq<bool> {
    Seq::new(list.len(), |m: int| member_fault(chips, maps, list[m]) is Some)
}

/// The pins of a group that may receive values, each with its metadata.
pub open spec fn consumers(
    chips: Seq<Seq<char>>,
    maps: Seq<PinMap>,
    group: Seq<PinId>,
) -> Seq<(PinId, PinSpec)>
    decreases group.len(),
{
    if group.len() == 0 {
        Seq::empty()
    } else {
        let rest = consumers(chips, maps, group.drop_last());
        match meta(chips, maps, group.last()) {
            Some(m) => if m.consumes() {
                rest.push((group.last(), m))
            } else {
                rest
            },
            None => rest,
        }
    }
}

/// The pins of a group that may drive values, each with its metadata.
pub open spec fn producers(
    chips: Seq<Seq<char>>,
    maps: Seq<PinMap>,
    group: Seq<PinId>,
) -> Seq<(PinId, PinSpec)>
    decreases group.len(),
{
    if group.len() == 0 {
        Seq::empty()
    } else {
        let rest = producers(chips, maps, group.drop_last());
        match meta(chips, maps, group.last()) {
            Some(m) => if m.produces() {
                rest.push((group.last(), m))
            } else {
                rest
            },
            None => rest,
        }
    }
}

/// The connection that a group of shorted pins makes on a board.
pub open spec fn group_plan(
    chips: Seq<Seq<char>>,
    maps: Seq<PinMap>,
    group: Seq<PinId>,
) -> Result<Connection, GroupError> {
    classify(consumers(chips, maps, group), producers(chips, maps, group))
}

/// For each group, whether it makes no connection.
pub open spec fn group_flags(
    chips: Seq<Seq<char>>,
    maps: Seq<PinMap>,
    groups: Seq<Seq<PinId>>,
) -> Seq<bool> {
    Seq::new(groups.len(), |g: int| group_plan(chips, maps, groups[g]) is Err)
}

/// The build failure that a group's failure makes.
pub open spec fn group_fault(e: GroupError, pins: Seq<PinId>) -> BuildFault {
    match e {
        GroupError::MultipleDrivers => BuildFault::MultipleDrivers { pins: pins },
        GroupError::MixedTristate => BuildFault::MixedTristate { pins: pins },
    }
}

/// The connection plan of a board: one connection for each group of shorted
/// pins, in the order of the groups. It fails on the first of these: a pin
/// that the description refers to and the board lacks; a connection whose two
/// pins may not be wired together; a pin exposed together with others that is
/// not an input of the first pin's type; a group that makes no connection.
pub open spec fn plan_spec(d: Description, groups: Seq<Seq<PinId>>, maps: Seq<PinMap>) -> Result<
    Seq<Connection>,
    BuildFault,
> {
    let pins = referenced(d);
    let list = members(d.exposes);
    if let Some(i) = first_true(missing_flags(d.chips, maps, pins)) {
        Err(BuildFault::MissingPin { pin: pins[i] })
    } else if let Some(k) = first_true(unfit_flags(d.chips, maps, d.connections)) {
        Err(BuildFault::NotConnectable { first: d.connections[k].0, second: d.connections[k].1 })
    } else if let Some(m) = first_true(member_flags(d.chips, maps, list)) {
        match member_fault(d.chips, maps, list[m]) {
            Some(f) => Err(f),
            None => Ok(Seq::empty()),
        }
    } else if let Some(g) = first_true(group_flags(d.chips, maps, groups)) {
        match group_plan(d.chips, maps, groups[g]) {
            Err(e) => Err(group_fault(e, groups[g])),
            Ok(_) => Ok(Seq::empty()),
        }
    } else {
        Ok(Seq::new(groups.len(), |g: int| group_plan(d.chips, maps, groups[g]).unwrap()))
    }
}

/// The connection plan of a board, where it has one.
pub open spec fn planned(d: Description, groups: Seq<Seq<PinId>>, maps: Seq<PinMap>) -> Seq<
    Connection,
> {
    match plan_spec(d, groups, maps) {
        Ok(plan) => plan,
        Err(_) => Seq::empty(),
    }
}

fn first_missing(
    chips: &Vec<String>,
    tables: &Vec<Vec<(String, PinMetadata)>>,
    pins: &Vec<ChipPin>,
) -> (r: Option<usize>)
    ensures
        match r {
            Some(i) => i < pins.len() && first_true(
                missing_flags(chips.deep_view(), table_maps(tables.deep_view()), pins.deep_view()),
            ) == Some(i as int),
            None => first_true(
                missing_flags(chips.deep_view(), table_maps(tables.deep_view()), pins.deep_view()),
            ) is None,
        },
{
    let ghost flags = missing_flags(chips.deep_view(), table_maps(tables.deep_view()), pins.deep_view());
    let mut i: usize = 0;
    while i < pins.len()
        invariant
            i <= pins.len(),
            flags == missing_flags(chips.deep_view(), table_maps(tables.deep_view()), pins.deep_view()),
            forall|k: int| 0 <= k < i ==> !flags[k],
        decreases pins.len() - i,
    {
        if pin_meta(chips, tables, &pins[i]).is_none() {
            proof {
                assert(is_first_true(flags, i as int));
                lemma_first_true(flags, i as int);
            }
            return Some(i);
        }
        i = i + 1;
    }
    proof {
        lemma_none_true(flags);
    }
    None
}

fn first_unfit(
    chips: &Vec<String>,
    tables: &Vec<Vec<(String, PinMetadata)>>,
    connections: &Vec<(ChipPin, ChipPin)>,
) -> (r: Option<usize>)
    ensures
        match r {
            Some(k) => k < connections.len() && first_true(
                unfit_flags(chips.deep_view(), table_maps(tables.deep_view()), connections.deep_view()),
            ) == Some(k as int),
            None => first_true(
                unfit_flags(chips.deep_view(), table_maps(tables.deep_view()), connections.deep_view()),
            ) is None,
        },
{
    let ghost flags = unfit_flags(
        chips.deep_view(),
        table_maps(tables.deep_view()),
        connections.deep_view(),
    );
    let mut k: usize = 0;
    while k < connections.len()
        invariant
            k <= connections.len(),
            flags == unfit_flags(
                chips.deep_view(),
                table_maps(tables.deep_view()),
                connections.deep_view(),
            ),
            forall|j: int| 0 <= j < k ==> !flags[j],
        decreases connections.len() - k,
    {
        let a = pin_meta(chips, tables, &connections[k].0);
        let b = pin_meta(chips, tables, &connections[k].1);
        let fit = match (a, b) {
            (Some(x), Some(y)) => x.is_connectable(&y),
            _ => false,
        };
        if !fit {
            proof {
                assert(is_first_true(flags, k as int));
                lemma_first_true(flags, k as int);
            }
            return Some(k);
        }
        k = k + 1;
    }
    proof {
        lemma_none_true(flags);
    }
    None
}

fn check_member(
    chips: &Vec<String>,
    tables: &Vec<Vec<(String, PinMetadata)>>,
    m: &(ChipPin, ChipPin),
) -> (r: Option<BuildError>)
    ensures
        r.deep_view() == member_fault(chips.deep_view(), table_maps(tables.deep_view()), (m.0@, m.1@)),
{
    match pin_meta(chips, tables, &m.0) {
        Some(x) => {
            if x.pin_type != PinType::Input {
                Some(BuildError::ExposedNotInput { pin: m.0.clone() })
            } else {
                match pin_meta(chips, tables, &m.1) {
                    Some(f) => {
                        if crate::text::same_text(x.data_type, f.data_type) {
                            None
                        } else {
                            Some(
                                BuildError::ExposedTypeMismatch {
                                    pin: m.0.clone(),
                                    first: m.1.clone(),
                                },
                            )
                        }
                    },
                    None => Some(
                        BuildError::ExposedTypeMismatch { pin: m.0.clone(), first: m.1.clone() },
                    ),
                }
            }
        },
        None => Some(BuildError::ExposedNotInput { pin: m.0.clone() }),
    }
}

fn first_bad_member(
    chips: &Vec<String>,
    tables: &Vec<Vec<(String, PinMetadata)>>,
    list: &Vec<(ChipPin, ChipPin)>,
) -> (r: Option<BuildError>)
    ensures
        match first_true(
            member_flags(chips.deep_view(), table_maps(tables.deep_view()), list.deep_view()),
        ) {
            Some(m) => r.deep_view() == member_fault(
                chips.deep_view(),
                table_maps(tables.deep_view()),
                list.deep_view()[m],
            ) && r is Some,
            None => r is None,
        },
{
    let ghost flags = member_flags(chips.deep_view(), table_maps(tables.deep_view()), list.deep_view());
    let mut m: usize = 0;
    while m < list.len()
        invariant
            m <= list.len(),
            flags == member_flags(chips.deep_view(), table_maps(tables.deep_view()), list.deep_view()),
            forall|j: int| 0 <= j < m ==> !flags[j],
        decreases list.len() - m,
    {
        let found = check_member(chips, tables, &list[m]);
        if found.is_some() {
            proof {
                assert(is_first_true(flags, m as int));
                lemma_first_true(flags, m as int);
            }
            return found;
        }
        m = m + 1;
    }
    proof {
        lemma_none_true(flags);
    }
    None
}

fn group_metas(
    chips: &Vec<String>,
    tables: &Vec<Vec<(String, PinMetadata)>>,
    group: &Vec<ChipPin>,
) -> (r: Vec<Option<PinMetadata>>)
    ensures
        r.len() == group.len(),
        forall|k: int|
            0 <= k < group.len() ==> (#[trigger] r@[k]).deep_view() == meta(
                chips.deep_view(),
                table_maps(tables.deep_view()),
                group.deep_view()[k],
            ),
{
    let mut metas: Vec<Option<PinMetadata>> = Vec::new();
    let mut i: usize = 0;
    while i < group.len()
        invariant
            i <= group.len(),
            metas.len() == i,
            forall|k: int|
                0 <= k < i ==> (#[trigger] metas@[k]).deep_view() == meta(
                    chips.deep_view(),
                    table_maps(tables.deep_view()),
                    group.deep_view()[k],
                ),
        decreases group.len() - i,
    {
        metas.push(pin_meta(chips, tables, &group[i]));
        i = i + 1;
    }
    metas
}

/// Turns one group of shorted pins into its connection.
pub fn plan_group(
    chips: &Vec<String>,
    tables: &Vec<Vec<(String, PinMetadata)>>,
    group: &Vec<ChipPin>,
) -> (r: Result<ConnectedPins, GroupError>)
    ensures
        match r {
            Ok(c) => group_plan(
                chips.deep_view(),
                table_maps(tables.deep_view()),
                group.deep_view(),
            ) == Ok::<
                Connection,
                GroupError,
            >(c@),
            Err(e) => group_plan(
                chips.deep_view(),
                table_maps(tables.deep_view()),
                group.deep_view(),
            ) == Err::<
                Connection,
                GroupError,
            >(e),
        },
{
    let ghost c = chips.deep_view();
    let ghost t = table_maps(tables.deep_view());
    let ghost g = group.deep_view();
    let metas = group_metas(chips, tables, group);
    let mut input: Vec<(ChipPin, &PinMetadata)> = Vec::new();
    let mut output: Vec<(ChipPin, &PinMetadata)> = Vec::new();
    let mut i: usize = 0;
    assert(input.deep_view() =~= Seq::empty());
    assert(output.deep_view() =~= Seq::empty());
    assert(g.take(0) =~= Seq::empty());
    while i < group.len()
        invariant
            i <= group.len(),
            metas.len() == group.len(),
            c == chips.deep_view(),
            t == table_maps(tables.deep_view()),
            g == group.deep_view(),
            forall|k: int|
                0 <= k < group.len() ==> (#[trigger] metas@[k]).deep_view() == meta(c, t, g[k]),
            input.deep_view() == consumers(c, t, g.take(i as int)),
            output.deep_view() == producers(c, t, g.take(i as int)),
        decreases group.len() - i,
    {
        let ghost ins = input.deep_view();
        let ghost outs = output.deep_view();
        proof {
            assert(g.take(i + 1).drop_last() =~= g.take(i as int));
            assert(g.take(i + 1).last() == g[i as int]);
            assert(metas@[i as int].deep_view() == meta(c, t, g[i as int]));
        }
        match &metas[i] {
            Some(m) => {
                if m.pin_type == PinType::Input || m.pin_type == PinType::IO {
                    input.push((group[i].clone(), m));
                    assert(input.deep_view() =~= ins.push((g[i as int], m@)));
                }
                if m.pin_type == PinType::Output || m.pin_type == PinType::IO {
                    output.push((group[i].clone(), m));
                    assert(output.deep_view() =~= outs.push((g[i as int], m@)));
                }
            },
            None => {},
        }
        i = i + 1;
    }
    assert(g.take(i as int) =~= g);
    get_pin_group(input, output)
}

fn clone_pins(pins: &Vec<ChipPin>) -> (r: Vec<ChipPin>)
    ensures
        r.deep_view() == pins.deep_view(),
{
    let mut copy: Vec<ChipPin> = Vec::new();
    let mut i: usize = 0;
    while i < pins.len()
        invariant
            i <= pins.len(),
            copy.len() == i,
            forall|k: int| 0 <= k < i ==> (#[trigger] copy@[k])@ == pins@[k]@,
        decreases pins.len() - i,
    {
        copy.push(pins[i].clone());
        i = i + 1;
    }
    assert(copy.deep_view() =~= pins.deep_view());
    copy
}

/// Checks the pins that a description refers to against the pin lists of the
/// chips, one list for each chip of the roster, and lowers the groups of
/// shorted pins into the connection plan.
pub fn plan_connections(
    input: &PcbMacroInput,
    groups: &Vec<Vec<ChipPin>>,
    tables: &Vec<Vec<(String, PinMetadata)>>,
) -> (r: Result<Vec<ConnectedPins>, BuildError>)
    ensures
        match r {
            Ok(plan) => plan_spec(input@, groups.deep_view(), table_maps(tables.deep_view())) == Ok::<
                Seq<Connection>,
                BuildFault,
            >(plan.deep_view()),
            Err(e) => plan_spec(input@, groups.deep_view(), table_maps(tables.deep_view())) == Err::<
                Seq<Connection>,
                BuildFault,
            >(e@),
        },
{
    let ghost c = input@.chips;
    let ghost t = table_maps(tables.deep_view());
    let ghost gs = groups.deep_view();
    let pins = collect_referenced(input);
    match first_missing(&input.chips, tables, &pins) {
        Some(i) => {
            return Err(BuildError::MissingPin { pin: pins[i].clone() });
        },
        None => {},
    }
    match first_unfit(&input.chips, tables, &input.connections) {
        Some(k) => {
            return Err(
                BuildError::NotConnectable {
                    first: input.connections[k].0.clone(),
                    second: input.connections[k].1.clone(),
                },
            );
        },
        None => {},
    }
    let list = collect_members(&input.exposed_pins);
    match first_bad_member(&input.chips, tables, &list) {
        Some(e) => {
            return Err(e);
        },
        None => {},
    }
    let ghost flags = group_flags(c, t, gs);
    let mut plan: Vec<ConnectedPins> = Vec::new();
    let mut g: usize = 0;
    while g < groups.len()
        invariant
            g <= groups.len(),
            c == input@.chips,
            t == table_maps(tables.deep_view()),
            gs == groups.deep_view(),
            flags == group_flags(c, t, gs),
            first_true(missing_flags(c, t, referenced(input@))) is None,
            first_true(unfit_flags(c, t, input@.connections)) is None,
            first_true(member_flags(c, t, members(input@.exposes))) is None,
            forall|j: int| 0 <= j < g ==> !flags[j],
            plan.len() == g,
            forall|j: int|
                0 <= j < g ==> (#[trigger] plan@[j])@ == group_plan(c, t, gs[j]).unwrap(),
        decreases groups.len() - g,
    {
        match plan_group(&input.chips, tables, &groups[g]) {
            Ok(connection) => {
                plan.push(connection);
            },
            Err(e) => {
                proof {
                    assert(is_first_true(flags, g as int));
                    lemma_first_true(flags, g as int);
                }
                let pins = clone_pins(&groups[g]);
                let failure = match e {
                    GroupError::MultipleDrivers => BuildError::MultipleDrivers { pins: pins },
                    GroupError::MixedTristate => BuildError::MixedTristate { pins: pins },
                };
                proof {
                    assert(gs[g as int] == groups@[g as int].deep_view());
                    assert(failure@ == group_fault(e, gs[g as int]));
                }
                return Err(failure);
            },
        }
        g = g + 1;
    }
    proof {
        lemma_none_true(flags);
        assert(plan.deep_view() =~= Seq::new(
            gs.len(),
            |g: int| group_plan(c, t, gs[g]).unwrap(),
        ));
    }
    Ok(plan)
}

} // verus!
