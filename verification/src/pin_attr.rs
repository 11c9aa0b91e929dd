//! Pins declared on the fields of a chip: what a `pin` attribute says about
//! a field, and whether a field's type is tristatable.

use vstd::prelude::*;
use crate::text::same_text;

verus! {

/// One argument of a `pin` attribute: a path such as `input` or `a::b`, or
/// anything else.
#[derive(Debug, PartialEq, Eq)]
pub enum AttrArg {
    Path(Vec<String>),
    Other,
}

/// Mathematical content of an `AttrArg`.
pub enum Arg {
    Path(Seq<Seq<char>>),
    Other,
}

impl View for AttrArg {
    type V = Arg;

    open spec fn view(&self) -> Arg {
        match self {
            AttrArg::Path(segments) => Arg::Path(segments.deep_view()),
            AttrArg::Other => Arg::Other,
        }
    }
}

impl DeepView for AttrArg {
    type V = Arg;

    open spec fn deep_view(&self) -> Arg {
        self@
    }
}

/// The direction that a `pin` attribute declares. An `IO` pin names the
/// field that tells its current orientation.
#[derive(Debug, PartialEq, Eq)]
pub enum PinKind {
    Input,
    Output,
    IO(String),
}

/// Mathematical content of a `PinKind`.
pub enum Kind {
    Input,
    Output,
    IO(Seq<char>),
}

impl View for PinKind {
    type V = Kind;

    open spec fn view(&self) -> Kind {
        match self {
            PinKind::Input => Kind::Input,
            PinKind::Output => Kind::Output,
            PinKind::IO(latch) => Kind::IO(latch@),
        }
    }
}

impl PinKind {
    /// The direction's name.
    pub fn name(&self) -> (r: &'static str)
        ensures
            r@ == match self@ {
                Kind::Input => "Input"@,
                Kind::Output => "Output"@,
                Kind::IO(_) => "IO"@,
            },
    {
        match self {
            PinKind::Input => "Input",
            PinKind::Output => "Output",
            PinKind::IO(_) => "IO",
        }
    }
}

/// Why a `pin` attribute declares no pin.
#[derive(Debug, Clone, Copy, PartialEq, Eq, Structural)]
pub enum AttrError {
    /// The attribute is not of the form `pin(input)`, `pin(output)` or
    /// `pin(io, latch)`.
    InvalidPinAttr,
    /// An `io` pin lacks the name of its latch field.
    InvalidLatch,
}

/// The direction that the arguments of a `pin` attribute declare: the last
/// segment of the first argument is `input`, `output` or `io`, and an `io`
/// pin has a second argument that is a single name.
pub open spec fn pin_kind(arg: Arg, latch: Option<Arg>) -> Result<Kind, AttrError> {
    match arg {
        Arg::Path(path) => if path.len() == 0 {
            Err(AttrError::InvalidPinAttr)
        } else if path.last() == "input"@ {
            Ok(Kind::Input)
        } else if path.last() == "output"@ {
            Ok(Kind::Output)
        } else if path.last() == "io"@ {
            match latch {
                Some(Arg::Path(name)) => if name.len() == 1 {
                    Ok(Kind::IO(name[0]))
                } else {
                    Err(AttrError::InvalidLatch)
                },
                _ => Err(AttrError::InvalidLatch),
            }
        } else {
            Err(AttrError::InvalidPinAttr)
        },
        Arg::Other => Err(AttrError::InvalidPinAttr),
    }
}

/// Reads the direction of a pin from the arguments of its attribute.
pub fn get_pin_type(nm: &AttrArg, latch: Option<&AttrArg>) -> (r: Result<PinKind, AttrError>)
    ensures
        match r {
            Ok(kind) => pin_kind(nm@, latch.deep_view()) == Ok::<Kind, AttrError>(kind@),
            Err(e) => pin_kind(nm@, latch.deep_view()) == Err::<Kind, AttrError>(e),
        },
{
    match nm {
        AttrArg::Path(path) => {
            if path.len() == 0 {
                return Err(AttrError::InvalidPinAttr);
            }
            let ptype = path[path.len() - 1].as_str();
            assert(ptype@ == path.deep_view().last());
            if same_text(ptype, "input") {
                Ok(PinKind::Input)
            } else if same_text(ptype, "output") {
                Ok(PinKind::Output)
            } else if same_text(ptype, "io") {
                match latch {
                    Some(AttrArg::Path(name)) => {
                        if name.len() != 1 {
                            return Err(AttrError::InvalidLatch);
                        }
                        assert(name.deep_view()[0] == name@[0]@);
                        Ok(PinKind::IO(name[0].clone()))
                    },
                    _ => Err(AttrError::InvalidLatch),
                }
            } else {
                Err(AttrError::InvalidPinAttr)
            }
        },
        AttrArg::Other => Err(AttrError::InvalidPinAttr),
    }
}

/// A type path names the optional type: `Option`, `option::Option` or
/// `std::option::Option` are its first segments.
pub open spec fn tristatable_path(segments: Seq<Seq<char>>) -> bool {
    if segments.len() >= 3 {
        segments[0] == "std"@ && segments[1] == "option"@ && segments[2] == "Option"@
    } else if segments.len() >= 2 {
        segments[0] == "option"@ && segments[1] == "Option"@
    } else if segments.len() >= 1 {
        segments[0] == "Option"@
    } else {
        false
    }
}

/// Tells whether values of the type with this path have an inactive state.
/// A type that is no path has no segments, and is not tristatable.
pub fn pin_is_tristatable(segments: &Vec<String>) -> (r: bool)
    ensures
        r == tristatable_path(segments.deep_view()),
{
    if segments.len() >= 3 {
        same_text(segments[0].as_str(), "std") && same_text(segments[1].as_str(), "option")
            && same_text(segments[2].as_str(), "Option")
    } else if segments.len() >= 2 {
        same_text(segments[0].as_str(), "option") && same_text(segments[1].as_str(), "Option")
    } else if segments.len() >= 1 {
        same_text(segments[0].as_str(), "Option")
    } else {
        false
    }
}

/// A field of a chip with a `pin` attribute: its name, the arguments of the
/// attribute, and its type as a path and as text.
#[derive(Debug, PartialEq, Eq)]
pub struct FieldDecl {
    pub name: String,
    pub args: Vec<AttrArg>,
    pub type_path: Vec<String>,
    pub type_text: String,
}

/// Mathematical content of a `FieldDecl`.
pub struct Field {
    pub name: Seq<char>,
    pub args: Seq<Arg>,
    pub type_path: Seq<Seq<char>>,
    pub type_text: Seq<char>,
}

impl View for FieldDecl {
    type V = Field;

    open spec fn view(&self) -> Field {
        Field {
            name: self.name@,
            args: self.args.deep_view(),
            type_path: self.type_path.deep_view(),
            type_text: self.type_text@,
        }
    }
}

impl DeepView for FieldDecl {
    type V = Field;

    open spec fn deep_view(&self) -> Field {
        self@
    }
}

/// A pin that a field declares.
#[derive(Debug, PartialEq, Eq)]
pub struct PinDecl {
    pub name: String,
    pub pin_type: PinKind,
    pub data_type: String,
    pub tristatable: bool,
}

/// Mathematical content of a `PinDecl`.
pub struct Pin {
    pub name: Seq<char>,
    pub pin_type: Kind,
    pub data_type: Seq<char>,
    pub tristatable: bool,
}

impl View for PinDecl {
    type V = Pin;

    open spec fn view(&self) -> Pin {
        Pin {
            name: self.name@,
            pin_type: self.pin_type@,
            data_type: self.data_type@,
            tristatable: self.tristatable,
        }
    }
}

impl DeepView for PinDecl {
    type V = Pin;

    open spec fn deep_view(&self) -> Pin {
        self@
    }
}

/// The pin that a field declares. With one argument the attribute gives the
/// direction; with more, its last two give the direction and the latch.
pub open spec fn declared_pin(f: Field) -> Result<Pin, AttrError> {
    let n = f.args.len() as int;
    let kind = if n == 0 {
        Err(AttrError::InvalidPinAttr)
    } else if n == 1 {
        pin_kind(f.args[0], None)
    } else {
        pin_kind(f.args[n - 2], Some(f.args[n - 1]))
    };
    match kind {
        Ok(k) => Ok(
            Pin {
                name: f.name,
                pin_type: k,
                data_type: f.type_text,
                tristatable: tristatable_path(f.type_path),
            },
        ),
        Err(e) => Err(e),
    }
}

/// The pins that the fields from index `i` on declare, after those in
/// `done`; the first field that declares none makes the failure.
pub open spec fn declared_pins(fields: Seq<Field>, i: int, done: Seq<Pin>) -> Result<
    Seq<Pin>,
    AttrError,
>
    decreases fields.len() - i,
{
    if i < 0 || i >= fields.len() {
        Ok(done)
    } else {
        match declared_pin(fields[i]) {
            Ok(p) => declared_pins(fields, i + 1, done.push(p)),
            Err(e) => Err(e),
        }
    }
}

fn field_pin(field: &FieldDecl) -> (r: Result<PinDecl, AttrError>)
    ensures
        match r {
            Ok(p) => declared_pin(field@) == Ok::<Pin, AttrError>(p@),
            Err(e) => declared_pin(field@) == Err::<Pin, AttrError>(e),
        },
{
    let n = field.args.len();
    let kind = if n == 0 {
        Err(AttrError::InvalidPinAttr)
    } else if n == 1 {
        get_pin_type(&field.args[0], None)
    } else {
        get_pin_type(&field.args[n - 2], Some(&field.args[n - 1]))
    };
    match kind {
        Ok(k) => Ok(
            PinDecl {
                name: field.name.clone(),
                pin_type: k,
                data_type: field.type_text.clone(),
                tristatable: pin_is_tristatable(&field.type_path),
            },
        ),
        Err(e) => Err(e),
    }
}

/// Reads the pins that the fields of a chip declare, in the order of the
/// fields.
pub fn get_pin_metadata(fields: &Vec<FieldDecl>) -> (r: Result<Vec<PinDecl>, AttrError>)
    ensures
        match r {
            Ok(pins) => declared_pins(fields.deep_view(), 0, Seq::empty()) == Ok::<
                Seq<Pin>,
                AttrError,
            >(pins.deep_view()),
            Err(e) => declared_pins(fields.deep_view(), 0, Seq::empty()) == Err::<
                Seq<Pin>,
                AttrError,
            >(e),
        },
{
    let mut pins: Vec<PinDecl> = Vec::new();
    let mut i: usize = 0;
    assert(pins.deep_view() =~= Seq::empty());
    while i < fields.len()
        invariant
            i <= fields.len(),
            declared_pins(fields.deep_view(), 0, Seq::empty()) == declared_pins(
                fields.deep_view(),
                i as int,
                pins.deep_view(),
            ),
        decreases fields.len() - i,
    {
        let ghost done = pins.deep_view();
        match field_pin(&fields[i]) {
            Ok(p) => {
                let ghost pv = p@;
                pins.push(p);
                assert(pins.deep_view() =~= done.push(pv));
            },
            Err(e) => {
                return Err(e);
            },
        }
        i = i + 1;
    }
    Ok(pins)
}

} // verus!
