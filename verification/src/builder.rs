//! From a board description to an assembled board: the description is
//! lowered into groups of shorted pins, chips are added under their names,
//! and the board is built once every check against the chips has passed.

use vstd::prelude::*;
use crate::board::{all_inv, lemma_lookup_lists, states, Board};
use crate::plan::name_flags;
use crate::traits::lists;
use crate::description::{
    first_true, is_first_true, labelled, lemma_first_true, lemma_none_true, DescriptionError,
    Fault,
};
use crate::plan::{
    plan_connections, plan_spec, table_map, table_maps, BuildError, BuildFault, PinMap,
};
use crate::shorting::{components, find_group, is_endpoint, lemma_grouped_iff_endpoint};
use crate::syntax::{Description, ExposedPins, Exposure, PcbMacroInput};
use crate::traits::{ChipInterface, ChipPin, Connection, HardwareModule, PinId, PinMetadata};

verus! {

/// The pins of the entries that expose several pins under one name, each
/// with the external name of its entry.
pub open spec fn fan_in(exposes: Seq<Exposure>) -> Seq<(PinId, Seq<char>)>
    decreases exposes.len(),
{
    if exposes.len() == 0 {
        Seq::empty()
    } else if exposes.last().pins.len() > 1 {
        fan_in(exposes.drop_last()) + labelled(exposes.last())
    } else {
        fan_in(exposes.drop_last())
    }
}

/// For each pin of a list, whether it belongs to some connection.
pub open spec fn shorted_flags(edges: Seq<(PinId, PinId)>, list: Seq<(PinId, Seq<char>)>) -> Seq<
    bool,
> {
    Seq::new(list.len(), |m: int| is_endpoint(edges, list[m].0))
}

/// The first pin, if any, that is exposed together with others and also
/// belongs to a connection.
pub open spec fn exposure_fault(d: Description) -> Option<Fault> {
    let list = fan_in(d.exposes);
    match first_true(shorted_flags(d.connections, list)) {
        Some(m) => Some(Fault::ExposedShorted { pin: list[m].0, as_name: list[m].1 }),
        None => None,
    }
}

fn collect_fan_in(exposes: &Vec<ExposedPins>) -> (r: Vec<(ChipPin, String)>)
    ensures
        r.deep_view() == fan_in(exposes.deep_view()),
{
    let mut found: Vec<(ChipPin, String)> = Vec::new();
    let mut e: usize = 0;
    assert(found.deep_view() =~= Seq::empty());
    assert(exposes.deep_view().take(0) =~= Seq::empty());
    while e < exposes.len()
        invariant
            e <= exposes.len(),
            found.deep_view() == fan_in(exposes.deep_view().take(e as int)),
        decreases exposes.len() - e,
    {
        let ghost before = found.deep_view();
        let entry = &exposes[e];
        if entry.pins.len() > 1 {
            let mut j: usize = 0;
            assert(before + labelled(entry@).take(0) =~= before);
            while j < entry.pins.len()
                invariant
                    j <= entry.pins.len(),
                    found.deep_view() == before + labelled(entry@).take(j as int),
                decreases entry.pins.len() - j,
            {
                let ghost so_far = found.deep_view();
                found.push((entry.pins[j].clone(), entry.as_name.clone()));
                proof {
                    let item = (entry@.pins[j as int], entry@.as_name);
                    assert(found.deep_view() =~= so_far.push(item));
                    assert(labelled(entry@).take(j + 1) =~= labelled(entry@).take(j as int).push(
                        item,
                    ));
                    assert(before + labelled(entry@).take(j + 1) =~= (before + labelled(
                        entry@,
                    ).take(j as int)).push(item));
                }
                j = j + 1;
            }
            assert(labelled(entry@).take(j as int) =~= labelled(entry@));
        }
        proof {
            let all = exposes.deep_view();
            assert(all.take(e + 1).drop_last() =~= all.take(e as int));
            assert(all.take(e + 1).last() == entry@);
        }
        e = e + 1;
    }
    assert(exposes.deep_view().take(e as int) =~= exposes.deep_view());
    found
}

/// A board under construction: the description, its groups of shorted pins,
/// and the chips added so far, each under its name.
pub struct BoardBuilder<C> {
    pub input: PcbMacroInput,
    pub shorted_pins: Vec<Vec<ChipPin>>,
    pub added_chips: Vec<(String, C)>,
}

impl PcbMacroInput {
    /// Lowers the description into a builder for its board: the shorted
    /// groups are computed, and no pin that is exposed together with others
    /// may belong to one of them.
    pub fn generate<C: HardwareModule>(self) -> (r: Result<BoardBuilder<C>, DescriptionError>)
        ensures
            match r {
                Ok(builder) => exposure_fault(self@) is None && builder.input@ == self@
                    && components(self@.connections, builder.shorted_pins.deep_view())
                    && builder.added_chips@.len() == 0,
                Err(e) => exposure_fault(self@) == Some(e@),
            },
    {
        let groups = self.get_short_pin_set();
        let list = collect_fan_in(&self.exposed_pins);
        let ghost flags = shorted_flags(self@.connections, list.deep_view());
        let mut m: usize = 0;
        while m < list.len()
            invariant
                m <= list.len(),
                list.deep_view() == fan_in(self@.exposes),
                components(self@.connections, groups.deep_view()),
                flags == shorted_flags(self@.connections, list.deep_view()),
                forall|j: int| 0 <= j < m ==> !flags[j],
            decreases list.len() - m,
        {
            proof {
                lemma_grouped_iff_endpoint(
                    self@.connections,
                    groups.deep_view(),
                    list.deep_view()[m as int].0,
                );
            }
            if find_group(&groups, &list[m].0).is_some() {
                proof {
                    assert(is_first_true(flags, m as int));
                    lemma_first_true(flags, m as int);
                }
                return Err(
                    DescriptionError::ExposedShorted {
                        pin: list[m].0.clone(),
                        as_name: list[m].1.clone(),
                    },
                );
            }
            m = m + 1;
        }
        proof {
            lemma_none_true(flags);
        }
        Ok(BoardBuilder { input: self, shorted_pins: groups, added_chips: Vec::new() })
    }
}

/// The added chips, each with its name as text.
pub open spec fn added_view<C>(added: Seq<(String, C)>) -> Seq<(Seq<char>, C)> {
    Seq::new(added.len(), |i: int| (added[i].0@, added[i].1))
}

/// The added chips after one more was added under `name`: it takes the place
/// of the chip added under that name before, if there is one.
pub open spec fn with_chip<C>(list: Seq<(Seq<char>, C)>, name: Seq<char>, chip: C) -> Seq<
    (Seq<char>, C),
> {
    match first_true(name_flags(list, name)) {
        Some(i) => list.update(i, (name, chip)),
        None => list.push((name, chip)),
    }
}

/// The chips of a board in the order of the roster from index `r` on, after
/// those in `seated`: each is the first of the remaining added chips under
/// the roster's name. It fails with the first name under which no chip
/// remains.
pub open spec fn seat<C>(
    roster: Seq<Seq<char>>,
    r: int,
    remaining: Seq<(Seq<char>, C)>,
    seated: Seq<C>,
) -> Result<Seq<C>, Seq<char>>
    decreases roster.len() - r,
{
    if r < 0 || r >= roster.len() {
        Ok(seated)
    } else {
        match first_true(name_flags(remaining, roster[r])) {
            Some(i) => seat(roster, r + 1, remaining.remove(i), seated.push(remaining[i].1)),
            None => Err(roster[r]),
        }
    }
}

/// The pins of each chip of a list.
pub open spec fn pin_maps<C: ChipInterface>(chips: Seq<C>) -> Seq<PinMap> {
    Seq::new(chips.len(), |i: int| C::pins(chips[i].state()))
}

fn find_added<C>(added: &Vec<(String, C)>, name: &str) -> (r: Option<usize>)
    ensures
        match r {
            Some(i) => i < added.len() && first_true(name_flags(added_view(added@), name@))
                == Some(i as int),
            None => first_true(name_flags(added_view(added@), name@)) is None,
        },
{
    let ghost flags = name_flags(added_view(added@), name@);
    let mut i: usize = 0;
    while i < added.len()
        invariant
            i <= added.len(),
            flags == name_flags(added_view(added@), name@),
            forall|k: int| 0 <= k < i ==> !flags[k],
        decreases added.len() - i,
    {
        if crate::text::same_text(added[i].0.as_str(), name) {
            proof {
                assert(is_first_true(flags, i as int));
                lemma_first_true(flags, i as int);
            }
            return Some(i);
        }
        i = i + 1;
    }
    proof {
        lemma_none_true(flags);
    }
    None
}

impl<C: HardwareModule> BoardBuilder<C> {
    /// Every chip added so far keeps its invariant.
    pub open spec fn wf(&self) -> bool {
        forall|i: int|
            0 <= i < self.added_chips@.len() ==> C::inv((#[trigger] self.added_chips@[i]).1.state())
    }

    /// Adds a chip under a name. A chip added under the same name before is
    /// replaced.
    pub fn add_chip(self, name: &str, chip: C) -> (r: Self)
        requires
            self.wf(),
            C::inv(chip.state()),
        ensures
            r.wf(),
            r.input == self.input,
            r.shorted_pins == self.shorted_pins,
            added_view(r.added_chips@) == with_chip(added_view(self.added_chips@), name@, chip),
    {
        let ghost before = added_view(self.added_chips@);
        let BoardBuilder { input, shorted_pins, added_chips } = self;
        let mut added_chips = added_chips;
        match find_added(&added_chips, name) {
            Some(i) => {
                let _ = added_chips.remove(i);
                added_chips.insert(i, (name.to_owned(), chip));
                assert(added_view(added_chips@) =~= before.update(i as int, (name@, chip)));
            },
            None => {
                added_chips.push((name.to_owned(), chip));
                assert(added_view(added_chips@) =~= before.push((name@, chip)));
            },
        }
        BoardBuilder { input: input, shorted_pins: shorted_pins, added_chips: added_chips }
    }
}

/// What building a board from a description, its groups of shorted pins and
/// the added chips gives: the chips in the order of the roster, with the
/// connection plan, or the first failure.
pub open spec fn build_spec<C: ChipInterface>(
    d: Description,
    groups: Seq<Seq<PinId>>,
    added: Seq<(Seq<char>, C)>,
) -> Result<(Seq<C>, Seq<Connection>), BuildFault> {
    match seat(d.chips, 0, added, Seq::empty()) {
        Err(name) => Err(BuildFault::MissingChip { chip: name }),
        Ok(chips) => match plan_spec(d, groups, pin_maps(chips)) {
            Err(f) => Err(f),
            Ok(plan) => Ok((chips, plan)),
        },
    }
}

fn seat_chips<C: ChipInterface>(roster: &Vec<String>, added: Vec<(String, C)>) -> (r: Result<
    Vec<C>,
    BuildError,
>)
    requires
        forall|i: int| 0 <= i < added@.len() ==> C::inv((#[trigger] added@[i]).1.state()),
    ensures
        match r {
            Ok(chips) => seat(roster.deep_view(), 0, added_view(added@), Seq::empty()) == Ok::<
                Seq<C>,
                Seq<char>,
            >(chips@) && all_inv::<C>(states(chips@)),
            Err(e) => e matches BuildError::MissingChip { chip } && seat(
                roster.deep_view(),
                0,
                added_view(added@),
                Seq::empty(),
            ) == Err::<Seq<C>, Seq<char>>(chip@),
        },
{
    let ghost start = added_view(added@);
    let mut remaining = added;
    let mut seated: Vec<C> = Vec::new();
    let mut r: usize = 0;
    while r < roster.len()
        invariant
            r <= roster.len(),
            start == added_view(added@),
            forall|i: int|
                0 <= i < remaining@.len() ==> C::inv((#[trigger] remaining@[i]).1.state()),
            all_inv::<C>(states(seated@)),
            seat(roster.deep_view(), 0, start, Seq::empty()) == seat(
                roster.deep_view(),
                r as int,
                added_view(remaining@),
                seated@,
            ),
        decreases roster.len() - r,
    {
        let ghost before = added_view(remaining@);
        let ghost chips = seated@;
        match find_added(&remaining, roster[r].as_str()) {
            Some(i) => {
                let entry = remaining.remove(i);
                assert(C::inv(entry.1.state()));
                seated.push(entry.1);
                proof {
                    assert(added_view(remaining@) =~= before.remove(i as int));
                    assert(seated@ == chips.push(before[i as int].1));
                    assert forall|k: int| 0 <= k < seated@.len() implies C::inv(
                        #[trigger] states(seated@)[k],
                    ) by {
                        if k < chips.len() {
                            assert(states(seated@)[k] == states(chips)[k]);
                        }
                    }
                }
            },
            None => {
                let chip = roster[r].clone();
                assert(chip@ == roster.deep_view()[r as int]);
                return Err(BuildError::MissingChip { chip: chip });
            },
        }
        r = r + 1;
    }
    Ok(seated)
}

fn pin_tables<C: ChipInterface>(chips: &Vec<C>) -> (r: Vec<Vec<(String, PinMetadata)>>)
    requires
        all_inv::<C>(states(chips@)),
    ensures
        table_maps(r.deep_view()) == pin_maps(chips@),
{
    let mut tables: Vec<Vec<(String, PinMetadata)>> = Vec::new();
    let mut i: usize = 0;
    while i < chips.len()
        invariant
            i <= chips.len(),
            all_inv::<C>(states(chips@)),
            tables.len() == i,
            forall|k: int|
                0 <= k < i ==> lists(
                    (#[trigger] tables@[k]).deep_view(),
                    C::pins(chips@[k].state()),
                ),
        decreases chips.len() - i,
    {
        assert(C::inv(states(chips@)[i as int]));
        tables.push(chips[i].get_pin_list());
        i = i + 1;
    }
    proof {
        let maps = table_maps(tables.deep_view());
        assert forall|k: int| 0 <= k < maps.len() implies #[trigger] maps[k] == pin_maps(
            chips@,
        )[k] by {
            let table = tables@[k].deep_view();
            let pins = C::pins(chips@[k].state());
            assert forall|name: Seq<char>|
                table_map(table).contains_key(name) == pins.contains_key(name) && (
                pins.contains_key(name) ==> table_map(table)[name] == pins[name]) by {
                lemma_lookup_lists(table, pins, name);
            }
            assert(table_map(table) =~= pins);
        }
        assert(maps =~= pin_maps(chips@));
    }
    tables
}

impl<C: HardwareModule> BoardBuilder<C> {
    /// Assembles the board. Every chip of the roster must have been added;
    /// then the pins that the description refers to are checked against the
    /// chips, and the groups of shorted pins are lowered into the plan.
    /// Chips added under names that the roster lacks are left out.
    pub fn build(self) -> (r: Result<Board<C>, BuildError>)
        requires
            self.wf(),
        ensures
            match r {
                Ok(board) => build_spec(
                    self.input@,
                    self.shorted_pins.deep_view(),
                    added_view(self.added_chips@),
                ) == Ok::<(Seq<C>, Seq<Connection>), BuildFault>(
                    (board.chips@, board.pin_connections.deep_view()),
                ) && board.names.deep_view() == self.input@.chips
                    && board.exposed_pins.deep_view() == self.input@.exposes && all_inv::<C>(
                    states(board.chips@),
                ),
                Err(e) => build_spec(
                    self.input@,
                    self.shorted_pins.deep_view(),
                    added_view(self.added_chips@),
                ) == Err::<(Seq<C>, Seq<Connection>), BuildFault>(e@),
            },
    {
        let BoardBuilder { input, shorted_pins, added_chips } = self;
        let chips = match seat_chips(&input.chips, added_chips) {
            Ok(chips) => chips,
            Err(e) => {
                return Err(e);
            },
        };
        let tables = pin_tables(&chips);
        let plan = match plan_connections(&input, &shorted_pins, &tables) {
            Ok(plan) => plan,
            Err(e) => {
                return Err(e);
            },
        };
        let PcbMacroInput { name, chips: names, connections, exposed_pins } = input;
        Ok(Board { names: names, chips: chips, pin_connections: plan, exposed_pins: exposed_pins })
    }
}

/// Building twice from one description, with chips that have the same pins
/// in the same places, gives the same plan or the same failure of the plan.
pub proof fn lemma_build_same_plan<C: ChipInterface>(
    d: Description,
    groups: Seq<Seq<PinId>>,
    first: Seq<(Seq<char>, C)>,
    second: Seq<(Seq<char>, C)>,
)
    requires
        seat(d.chips, 0, first, Seq::empty()) matches Ok(a) && seat(
            d.chips,
            0,
            second,
            Seq::empty(),
        ) matches Ok(b) && pin_maps(a) == pin_maps(b),
    ensures
        match (build_spec(d, groups, first), build_spec(d, groups, second)) {
            (Ok(x), Ok(y)) => x.1 == y.1,
            (Err(e), Err(f)) => e == f,
            _ => false,
        },
{
}

} // verus!
