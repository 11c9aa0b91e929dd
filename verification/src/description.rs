//! The rules that a board description must keep, and the reading of a
//! description from text.

use vstd::prelude::*;
use crate::syntax::{parse_tokens, syntax, Description, ExposedPins, Exposure, PcbMacroInput};
use crate::token::{lex, tokenize, LexError};
use crate::traits::{ChipPin, PinId};

verus! {

/// Why a text is not a board description.
#[derive(Debug, PartialEq, Eq)]
pub enum DescriptionError {
    /// The text is not made of tokens.
    Lex(LexError),
    /// The token at this index does not fit the grammar.
    Syntax { token: usize },
    /// No chip is declared.
    NoChips,
    /// A chip is declared twice.
    DuplicateChip { chip: String },
    /// A pin is connected to itself.
    SelfConnection { pin: ChipPin },
    /// A connection or an expose entry names a chip that is not declared.
    UndeclaredChip { chip: String },
    /// An internal pin is exposed a second time.
    ExposedTwice { pin: ChipPin, first: String, second: String },
    /// A pin that is exposed together with others is also part of a
    /// connection.
    ExposedShorted { pin: ChipPin, as_name: String },
}

/// Mathematical content of a `DescriptionError`.
pub enum Fault {
    Lex(LexError),
    Syntax { token: int },
    NoChips,
    DuplicateChip { chip: Seq<char> },
    SelfConnection { pin: PinId },
    UndeclaredChip { chip: Seq<char> },
    ExposedTwice { pin: PinId, first: Seq<char>, second: Seq<char> },
    ExposedShorted { pin: PinId, as_name: Seq<char> },
}

impl View for DescriptionError {
    type V = Fault;

    open spec fn view(&self) -> Fault {
        match self {
            DescriptionError::Lex(e) => Fault::Lex(*e),
            DescriptionError::Syntax { token } => Fault::Syntax { token: *token as int },
            DescriptionError::NoChips => Fault::NoChips,
            DescriptionError::DuplicateChip { chip } => Fault::DuplicateChip { chip: chip@ },
            DescriptionError::SelfConnection { pin } => Fault::SelfConnection { pin: pin@ },
            DescriptionError::UndeclaredChip { chip } => Fault::UndeclaredChip { chip: chip@ },
            DescriptionError::ExposedTwice { pin, first, second } => Fault::ExposedTwice {
                pin: pin@,
                first: first@,
                second: second@,
            },
            DescriptionError::ExposedShorted { pin, as_name } => Fault::ExposedShorted {
                pin: pin@,
                as_name: as_name@,
            },
        }
    }
}

impl DeepView for DescriptionError {
    type V = Fault;

    open spec fn deep_view(&self) -> Fault {
        self@
    }
}

/// `k` is the least index at which `flags` holds.
pub open spec fn is_first_true(flags: Seq<bool>, k: int) -> bool {
    &&& 0 <= k < flags.len()
    &&& flags[k]
    &&& forall|j: int| 0 <= j < k ==> !flags[j]
}

/// The least index at which `flags` holds, if there is one.
pub open spec fn first_true(flags: Seq<bool>) -> Option<int> {
    if exists|k: int| is_first_true(flags, k) {
        Some(choose|k: int| is_first_true(flags, k))
    } else {
        None
    }
}

/// The least index at which a flag holds is the one that `first_true` gives.
pub proof fn lemma_first_true(flags: Seq<bool>, k: int)
    requires
        is_first_true(flags, k),
    ensures
        first_true(flags) == Some(k),
{
    let c = choose|k: int| is_first_true(flags, k);
    if c < k {
        assert(!flags[c]);
    } else if k < c {
        assert(!flags[k]);
    }
}

/// Where no flag holds, `first_true` gives nothing.
pub proof fn lemma_none_true(flags: Seq<bool>)
    requires
        forall|j: int| 0 <= j < flags.len() ==> !flags[j],
    ensures
        first_true(flags) is None,
{
}

/// The element at index `j` also stands at an earlier index.
pub open spec fn repeats<K>(s: Seq<K>, j: int) -> bool {
    exists|i: int| 0 <= i < j && s[i] == s[j]
}

/// For each index, whether its element also stands at an earlier index.
pub open spec fn repeat_flags<K>(s: Seq<K>) -> Seq<bool> {
    Seq::new(s.len(), |j: int| repeats(s, j))
}

/// For each index below `j`, whether its element equals the one at `j`.
pub open spec fn match_flags<K>(s: Seq<K>, j: int) -> Seq<bool> {
    Seq::new(j as nat, |i: int| s[i] == s[j])
}

/// What is wrong with a connection, if anything: it joins a pin to itself,
/// or one of its two chips is not declared.
pub open spec fn connection_fault(chips: Seq<Seq<char>>, c: (PinId, PinId)) -> Option<Fault> {
    if c.0 == c.1 {
        Some(Fault::SelfConnection { pin: c.0 })
    } else if !chips.contains(c.0.0) {
        Some(Fault::UndeclaredChip { chip: c.0.0 })
    } else if !chips.contains(c.1.0) {
        Some(Fault::UndeclaredChip { chip: c.1.0 })
    } else {
        None
    }
}

/// For each connection, whether something is wrong with it.
pub open spec fn connection_flags(chips: Seq<Seq<char>>, connections: Seq<(PinId, PinId)>) -> Seq<
    bool,
> {
    Seq::new(connections.len(), |k: int| connection_fault(chips, connections[k]) is Some)
}

/// The pins of an expose entry, each with the entry's external name.
pub open spec fn labelled(x: Exposure) -> Seq<(PinId, Seq<char>)> {
    Seq::new(x.pins.len(), |j: int| (x.pins[j], x.as_name))
}

/// All exposed pins in the order of the description, each with the external
/// name it is exposed under.
pub open spec fn exposed(exposes: Seq<Exposure>) -> Seq<(PinId, Seq<char>)>
    decreases exposes.len(),
{
    if exposes.len() == 0 {
        Seq::empty()
    } else {
        exposed(exposes.drop_last()) + labelled(exposes.last())
    }
}

/// The internal pins of a list of exposed pins.
pub open spec fn exposed_ids(flat: Seq<(PinId, Seq<char>)>) -> Seq<PinId> {
    Seq::new(flat.len(), |m: int| flat[m].0)
}

/// For each exposed pin, whether its chip is missing from the declared chips.
pub open spec fn undeclared_flags(chips: Seq<Seq<char>>, flat: Seq<(PinId, Seq<char>)>) -> Seq<
    bool,
> {
    Seq::new(flat.len(), |m: int| !chips.contains(flat[m].0.0))
}

impl Description {
    /// The first rule that the description breaks, if any. The rules, in the
    /// order in which they are checked: a chip is declared; no chip is
    /// declared twice; each connection, in order, joins two different pins of
    /// declared chips; each exposed pin, in order, belongs to a declared
    /// chip; no pin is exposed twice.
    pub open spec fn first_fault(self) -> Option<Fault> {
        let flat = exposed(self.exposes);
        if self.chips.len() == 0 {
            Some(Fault::NoChips)
        } else if let Some(j) = first_true(repeat_flags(self.chips)) {
            Some(Fault::DuplicateChip { chip: self.chips[j] })
        } else if let Some(k) = first_true(connection_flags(self.chips, self.connections)) {
            connection_fault(self.chips, self.connections[k])
        } else if let Some(m) = first_true(undeclared_flags(self.chips, flat)) {
            Some(Fault::UndeclaredChip { chip: flat[m].0.0 })
        } else if let Some(m) = first_true(repeat_flags(exposed_ids(flat))) {
            match first_true(match_flags(exposed_ids(flat), m)) {
                Some(i) => Some(
                    Fault::ExposedTwice { pin: flat[m].0, first: flat[i].1, second: flat[m].1 },
                ),
                None => None,
            }
        } else {
            None
        }
    }

    /// The description keeps every rule.
    pub open spec fn valid(self) -> bool {
        &&& self.chips.len() > 0
        &&& forall|i: int, j: int|
            0 <= i < j < self.chips.len() ==> self.chips[i] != self.chips[j]
        &&& forall|k: int|
            0 <= k < self.connections.len() ==> {
                let c = #[trigger] self.connections[k];
                c.0 != c.1 && self.chips.contains(c.0.0) && self.chips.contains(c.1.0)
            }
        &&& forall|m: int|
            0 <= m < exposed(self.exposes).len() ==> self.chips.contains(
                (#[trigger] exposed(self.exposes)[m]).0.0,
            )
        &&& forall|m: int, n: int|
            0 <= m < n < exposed(self.exposes).len() ==> exposed(self.exposes)[m].0 != exposed(
                self.exposes,
            )[n].0
    }
}

/// Where some flag holds, there is a least index at which one does.
pub proof fn lemma_some_first(flags: Seq<bool>, k: int)
    requires
        0 <= k < flags.len(),
        flags[k],
    ensures
        first_true(flags) is Some,
    decreases k,
{
    if exists|j: int| 0 <= j < k && flags[j] {
        let j = choose|j: int| 0 <= j < k && flags[j];
        lemma_some_first(flags, j);
    } else {
        assert(is_first_true(flags, k));
    }
}

/// Where no index is the least at which a flag holds, no flag holds.
pub proof fn lemma_no_first(flags: Seq<bool>)
    requires
        first_true(flags) is None,
    ensures
        forall|j: int| 0 <= j < flags.len() ==> !#[trigger] flags[j],
{
    assert forall|j: int| 0 <= j < flags.len() implies !#[trigger] flags[j] by {
        if flags[j] {
            lemma_some_first(flags, j);
        }
    }
}

/// A description breaks no rule exactly when it is valid.
pub proof fn lemma_valid_iff_no_fault(d: Description)
    ensures
        d.valid() <==> d.first_fault() is None,
{
    let flat = exposed(d.exposes);
    let ids = exposed_ids(flat);
    if d.valid() {
        assert forall|j: int| 0 <= j < d.chips.len() implies !repeat_flags(d.chips)[j] by {}
        lemma_none_true(repeat_flags(d.chips));
        lemma_none_true(connection_flags(d.chips, d.connections));
        lemma_none_true(undeclared_flags(d.chips, flat));
        assert forall|m: int| 0 <= m < ids.len() implies !repeat_flags(ids)[m] by {}
        lemma_none_true(repeat_flags(ids));
    }
    if d.first_fault() is None {
        assert forall|i: int, j: int| 0 <= i < j < d.chips.len() implies d.chips[i]
            != d.chips[j] by {
            if d.chips[i] == d.chips[j] {
                assert(repeat_flags(d.chips)[j]);
                lemma_some_first(repeat_flags(d.chips), j);
            }
        }
        assert forall|k: int| 0 <= k < d.connections.len() implies connection_fault(
            d.chips,
            #[trigger] d.connections[k],
        ) is None by {
            if connection_fault(d.chips, d.connections[k]) is Some {
                let flags = connection_flags(d.chips, d.connections);
                assert(flags[k]);
                lemma_some_first(flags, k);
                let c = first_true(flags)->0;
                assert(is_first_true(flags, c));
            }
        }
        assert forall|m: int| 0 <= m < flat.len() implies d.chips.contains(
            (#[trigger] flat[m]).0.0,
        ) by {
            if !d.chips.contains(flat[m].0.0) {
                assert(undeclared_flags(d.chips, flat)[m]);
                lemma_some_first(undeclared_flags(d.chips, flat), m);
            }
        }
        assert forall|m: int, n: int| 0 <= m < n < flat.len() implies flat[m].0 != flat[n].0 by {
            if flat[m].0 == flat[n].0 {
                assert(ids[m] == ids[n]);
                assert(repeat_flags(ids)[n]);
                lemma_some_first(repeat_flags(ids), n);
                let c = first_true(repeat_flags(ids))->0;
                assert(is_first_true(repeat_flags(ids), c));
                let i = choose|i: int| 0 <= i < c && ids[i] == ids[c];
                assert(match_flags(ids, c)[i]);
                lemma_some_first(match_flags(ids, c), i);
            }
        }
    }
}

fn is_declared(chips: &Vec<String>, chip: &String) -> (r: bool)
    ensures
        r == chips.deep_view().contains(chip@),
{
    let mut i: usize = 0;
    while i < chips.len()
        invariant
            i <= chips.len(),
            forall|k: int| 0 <= k < i ==> chips.deep_view()[k] != chip@,
        decreases chips.len() - i,
    {
        if chips[i] == *chip {
            assert(chips.deep_view()[i as int] == chip@);
            return true;
        }
        i = i + 1;
    }
    false
}

fn earlier_name(chips: &Vec<String>, j: usize) -> (r: Option<usize>)
    requires
        j < chips.len(),
    ensures
        match r {
            Some(i) => is_first_true(match_flags(chips.deep_view(), j as int), i as int),
            None => !repeats(chips.deep_view(), j as int),
        },
{
    let mut i: usize = 0;
    while i < j
        invariant
            i <= j < chips.len(),
            forall|k: int| 0 <= k < i ==> chips.deep_view()[k] != chips.deep_view()[j as int],
        decreases j - i,
    {
        if chips[i] == chips[j] {
            return Some(i);
        }
        i = i + 1;
    }
    None
}

fn first_repeated_name(chips: &Vec<String>) -> (r: Option<usize>)
    ensures
        match r {
            Some(j) => j < chips.len() && first_true(repeat_flags(chips.deep_view())) == Some(
                j as int,
            ),
            None => first_true(repeat_flags(chips.deep_view())) is None,
        },
{
    let mut j: usize = 0;
    while j < chips.len()
        invariant
            j <= chips.len(),
            forall|k: int| 0 <= k < j ==> !repeats(chips.deep_view(), k),
        decreases chips.len() - j,
    {
        let earlier = earlier_name(chips, j);
        if earlier.is_some() {
            proof {
                let s = chips.deep_view();
                let i = earlier->0 as int;
                assert(match_flags(s, j as int)[i]);
                assert(s[i] == s[j as int]);
                assert(is_first_true(repeat_flags(s), j as int));
                lemma_first_true(repeat_flags(s), j as int);
            }
            return Some(j);
        }
        j = j + 1;
    }
    proof {
        lemma_none_true(repeat_flags(chips.deep_view()));
    }
    None
}

fn check_connection(chips: &Vec<String>, c: &(ChipPin, ChipPin)) -> (r: Option<DescriptionError>)
    ensures
        r.deep_view() == connection_fault(chips.deep_view(), (c.0@, c.1@)),
{
    if c.0 == c.1 {
        Some(DescriptionError::SelfConnection { pin: c.0.clone() })
    } else if !is_declared(chips, &c.0.chip) {
        Some(DescriptionError::UndeclaredChip { chip: c.0.chip.clone() })
    } else if !is_declared(chips, &c.1.chip) {
        Some(DescriptionError::UndeclaredChip { chip: c.1.chip.clone() })
    } else {
        None
    }
}

fn check_connections(chips: &Vec<String>, connections: &Vec<(ChipPin, ChipPin)>) -> (r: Option<
    DescriptionError,
>)
    ensures
        match first_true(connection_flags(chips.deep_view(), connections.deep_view())) {
            Some(k) => r.deep_view() == connection_fault(
                chips.deep_view(),
                connections.deep_view()[k],
            ),
            None => r is None,
        },
{
    let ghost flags = connection_flags(chips.deep_view(), connections.deep_view());
    let mut k: usize = 0;
    while k < connections.len()
        invariant
            k <= connections.len(),
            flags == connection_flags(chips.deep_view(), connections.deep_view()),
            forall|j: int| 0 <= j < k ==> !flags[j],
        decreases connections.len() - k,
    {
        let found = check_connection(chips, &connections[k]);
        if found.is_some() {
            proof {
                assert(is_first_true(flags, k as int));
                lemma_first_true(flags, k as int);
            }
            return found;
        }
        k = k + 1;
    }
    proof {
        lemma_none_true(flags);
    }
    None
}

fn flatten(exposes: &Vec<ExposedPins>) -> (r: Vec<(ChipPin, String)>)
    ensures
        r.deep_view() == exposed(exposes.deep_view()),
{
    let mut flat: Vec<(ChipPin, String)> = Vec::new();
    let mut e: usize = 0;
    assert(flat.deep_view() =~= Seq::empty());
    assert(exposes.deep_view().take(0) =~= Seq::empty());
    while e < exposes.len()
        invariant
            e <= exposes.len(),
            flat.deep_view() == exposed(exposes.deep_view().take(e as int)),
        decreases exposes.len() - e,
    {
        let ghost before = flat.deep_view();
        let entry = &exposes[e];
        let mut j: usize = 0;
        while j < entry.pins.len()
            invariant
                j <= entry.pins.len(),
                flat.deep_view() == before + labelled(entry@).take(j as int),
            decreases entry.pins.len() - j,
        {
            let ghost so_far = flat.deep_view();
            flat.push((entry.pins[j].clone(), entry.as_name.clone()));
            assert(flat.deep_view() =~= so_far.push((entry.pins@[j as int]@, entry.as_name@)));
            assert(labelled(entry@).take(j + 1) =~= labelled(entry@).take(j as int).push(
                (entry.pins@[j as int]@, entry.as_name@),
            ));
            j = j + 1;
        }
        proof {
            let all = exposes.deep_view();
            assert(labelled(entry@).take(j as int) =~= labelled(entry@));
            assert(all.take(e + 1).drop_last() =~= all.take(e as int));
            assert(all.take(e + 1).last() == entry@);
        }
        e = e + 1;
    }
    assert(exposes.deep_view().take(e as int) =~= exposes.deep_view());
    flat
}

fn first_undeclared(chips: &Vec<String>, flat: &Vec<(ChipPin, String)>) -> (r: Option<usize>)
    ensures
        match r {
            Some(m) => m < flat.len() && first_true(
                undeclared_flags(chips.deep_view(), flat.deep_view()),
            ) == Some(m as int),
            None => first_true(undeclared_flags(chips.deep_view(), flat.deep_view())) is None,
        },
{
    let ghost flags = undeclared_flags(chips.deep_view(), flat.deep_view());
    let mut m: usize = 0;
    while m < flat.len()
        invariant
            m <= flat.len(),
            flags == undeclared_flags(chips.deep_view(), flat.deep_view()),
            forall|j: int| 0 <= j < m ==> !flags[j],
        decreases flat.len() - m,
    {
        if !is_declared(chips, &flat[m].0.chip) {
            proof {
                assert(is_first_true(flags, m as int));
                lemma_first_true(flags, m as int);
            }
            return Some(m);
        }
        m = m + 1;
    }
    proof {
        lemma_none_true(flags);
    }
    None
}

fn earlier_pin(flat: &Vec<(ChipPin, String)>, m: usize) -> (r: Option<usize>)
    requires
        m < flat.len(),
    ensures
        match r {
            Some(i) => i < m && is_first_true(
                match_flags(exposed_ids(flat.deep_view()), m as int),
                i as int,
            ),
            None => !repeats(exposed_ids(flat.deep_view()), m as int),
        },
{
    let ghost ids = exposed_ids(flat.deep_view());
    let mut i: usize = 0;
    while i < m
        invariant
            i <= m < flat.len(),
            ids == exposed_ids(flat.deep_view()),
            forall|k: int| 0 <= k < i ==> ids[k] != ids[m as int],
        decreases m - i,
    {
        if flat[i].0 == flat[m].0 {
            return Some(i);
        }
        i = i + 1;
    }
    None
}

fn first_repeated_pin(flat: &Vec<(ChipPin, String)>) -> (r: Option<(usize, usize)>)
    ensures
        match r {
            Some((i, m)) => i < m < flat.len() && first_true(
                repeat_flags(exposed_ids(flat.deep_view())),
            ) == Some(m as int) && first_true(
                match_flags(exposed_ids(flat.deep_view()), m as int),
            ) == Some(i as int),
            None => first_true(repeat_flags(exposed_ids(flat.deep_view()))) is None,
        },
{
    let ghost ids = exposed_ids(flat.deep_view());
    let mut m: usize = 0;
    while m < flat.len()
        invariant
            m <= flat.len(),
            ids == exposed_ids(flat.deep_view()),
            forall|k: int| 0 <= k < m ==> !repeats(ids, k),
        decreases flat.len() - m,
    {
        match earlier_pin(flat, m) {
            Some(i) => {
                proof {
                    assert(match_flags(ids, m as int)[i as int]);
                    assert(ids[i as int] == ids[m as int]);
                    assert(is_first_true(repeat_flags(ids), m as int));
                    lemma_first_true(repeat_flags(ids), m as int);
                    lemma_first_true(match_flags(ids, m as int), i as int);
                }
                return Some((i, m));
            },
            None => {},
        }
        m = m + 1;
    }
    proof {
        lemma_none_true(repeat_flags(ids));
    }
    None
}

impl PcbMacroInput {
    /// Finds the first rule that the description breaks.
    pub fn check(&self) -> (r: Option<DescriptionError>)
        ensures
            r.deep_view() == self@.first_fault(),
            r is None <==> self@.valid(),
    {
        proof {
            lemma_valid_iff_no_fault(self@);
        }
        if self.chips.len() == 0 {
            return Some(DescriptionError::NoChips);
        }
        match first_repeated_name(&self.chips) {
            Some(j) => {
                return Some(DescriptionError::DuplicateChip { chip: self.chips[j].clone() });
            },
            None => {},
        }
        let found = check_connections(&self.chips, &self.connections);
        if found.is_some() {
            proof {
                let flags = connection_flags(self@.chips, self@.connections);
                if first_true(flags) is Some {
                    assert(is_first_true(flags, first_true(flags)->0));
                }
            }
            return found;
        }
        proof {
            let flags = connection_flags(self@.chips, self@.connections);
            if first_true(flags) is Some {
                assert(is_first_true(flags, first_true(flags)->0));
            }
        }
        let flat = flatten(&self.exposed_pins);
        match first_undeclared(&self.chips, &flat) {
            Some(m) => {
                return Some(DescriptionError::UndeclaredChip { chip: flat[m].0.chip.clone() });
            },
            None => {},
        }
        match first_repeated_pin(&flat) {
            Some((i, m)) => Some(
                DescriptionError::ExposedTwice {
                    pin: flat[m].0.clone(),
                    first: flat[i].1.clone(),
                    second: flat[m].1.clone(),
                },
            ),
            None => None,
        }
    }
}

/// The description that a text spells, or the first thing wrong with it: with
/// its characters, then with its grammar, then with the rules on chips,
/// connections and exposed pins.
pub open spec fn read(text: Seq<char>) -> Result<Description, Fault> {
    match lex(text) {
        Err(e) => Err(Fault::Lex(e)),
        Ok(tokens) => match syntax(tokens) {
            Err(i) => Err(Fault::Syntax { token: i }),
            Ok(d) => match d.first_fault() {
                Some(f) => Err(f),
                None => Ok(d),
            },
        },
    }
}

impl PcbMacroInput {
    /// Reads a board description from text and checks its rules.
    pub fn parse(text: &str) -> (r: Result<PcbMacroInput, DescriptionError>)
        ensures
            match r {
                Ok(input) => read(text@) == Ok::<Description, Fault>(input@) && input@.valid(),
                Err(e) => read(text@) == Err::<Description, Fault>(e@),
            },
    {
        let tokens = match tokenize(text) {
            Err(e) => {
                return Err(DescriptionError::Lex(e));
            },
            Ok(tokens) => tokens,
        };
        let input = match parse_tokens(&tokens) {
            Err(i) => {
                return Err(DescriptionError::Syntax { token: i });
            },
            Ok(input) => input,
        };
        match input.check() {
            Some(e) => Err(e),
            None => Ok(input),
        }
    }
}

} // verus!
