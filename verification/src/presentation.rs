//! Presentations: a page's display duration and its transition dictionary,
//! read as data with the defaults filled in.

use crate::number;
use crate::number::{Real, ONE_BITS};
use crate::object::{Dict, Object, ObjectV};
use crate::source::{ObjectSource, SourceV};
use crate::text;
use crate::tree;
use crate::tree::Entries;
use vstd::prelude::*;

verus! {

/// The transition styles: how a presentation reveals the page it moves to.
#[derive(Debug, Clone, Copy, PartialEq, Eq, Structural)]
pub enum TransitionStyle {
    /// Two lines sweep across the screen, along `Dimension` and `Motion`.
    Split,
    /// Evenly spaced lines sweep in the same direction, along `Dimension`.
    Blinds,
    /// A rectangle sweeps inward from the edges or outward from the centre.
    Box,
    /// One line sweeps from one edge to the other, in `TransitionDirection`.
    Wipe,
    /// The old page dissolves into the new one.
    Dissolve,
    /// A dissolve that sweeps across the page as a band.
    Glitter,
    /// `/R`: the new page replaces the old one with no effect, the default.
    Replace,
    /// Changes fly in or out, scaled from `Transition::scale`.
    Fly,
    /// The new page pushes the old one off the screen.
    Push,
    /// The new page slides over the old one.
    Cover,
    /// The old page slides off, uncovering the new one.
    Uncover,
    /// The new page fades in through the old one.
    Fade,
}

/// The style a name denotes.
pub open spec fn style_of(name: Seq<char>) -> Option<TransitionStyle> {
    if name == "Split"@ {
        Some(TransitionStyle::Split)
    } else if name == "Blinds"@ {
        Some(TransitionStyle::Blinds)
    } else if name == "Box"@ {
        Some(TransitionStyle::Box)
    } else if name == "Wipe"@ {
        Some(TransitionStyle::Wipe)
    } else if name == "Dissolve"@ {
        Some(TransitionStyle::Dissolve)
    } else if name == "Glitter"@ {
        Some(TransitionStyle::Glitter)
    } else if name == "R"@ {
        Some(TransitionStyle::Replace)
    } else if name == "Fly"@ {
        Some(TransitionStyle::Fly)
    } else if name == "Push"@ {
        Some(TransitionStyle::Push)
    } else if name == "Cover"@ {
        Some(TransitionStyle::Cover)
    } else if name == "Uncover"@ {
        Some(TransitionStyle::Uncover)
    } else if name == "Fade"@ {
        Some(TransitionStyle::Fade)
    } else {
        None
    }
}

impl TransitionStyle {
    /// The style `/S` names; `None` for a name that is no style.
    pub fn from_name(name: &str) -> (out: Option<TransitionStyle>)
        ensures
            out == style_of(name@),
    {
        if text::same(name, "Split") {
            Some(TransitionStyle::Split)
        } else if text::same(name, "Blinds") {
            Some(TransitionStyle::Blinds)
        } else if text::same(name, "Box") {
            Some(TransitionStyle::Box)
        } else if text::same(name, "Wipe") {
            Some(TransitionStyle::Wipe)
        } else if text::same(name, "Dissolve") {
            Some(TransitionStyle::Dissolve)
        } else if text::same(name, "Glitter") {
            Some(TransitionStyle::Glitter)
        } else if text::same(name, "R") {
            Some(TransitionStyle::Replace)
        } else if text::same(name, "Fly") {
            Some(TransitionStyle::Fly)
        } else if text::same(name, "Push") {
            Some(TransitionStyle::Push)
        } else if text::same(name, "Cover") {
            Some(TransitionStyle::Cover)
        } else if text::same(name, "Uncover") {
            Some(TransitionStyle::Uncover)
        } else if text::same(name, "Fade") {
            Some(TransitionStyle::Fade)
        } else {
            None
        }
    }
}

impl Default for TransitionStyle {
    fn default() -> (out: TransitionStyle)
        ensures
            out == TransitionStyle::Replace,
    {
        TransitionStyle::Replace
    }
}

/// `/Dm`: the dimension a Split or Blinds transition moves along.
#[derive(Debug, Clone, Copy, PartialEq, Eq, Structural)]
pub enum Dimension {
    /// `/H`, the default.
    Horizontal,
    /// `/V`.
    Vertical,
}

/// The dimension a name denotes.
pub open spec fn dimension_of(name: Seq<char>) -> Option<Dimension> {
    if name == "H"@ {
        Some(Dimension::Horizontal)
    } else if name == "V"@ {
        Some(Dimension::Vertical)
    } else {
        None
    }
}

impl Dimension {
    /// The dimension `/Dm` names; `None` for any other name.
    pub fn from_name(name: &str) -> (out: Option<Dimension>)
        ensures
            out == dimension_of(name@),
    {
        if text::same(name, "H") {
            Some(Dimension::Horizontal)
        } else if text::same(name, "V") {
            Some(Dimension::Vertical)
        } else {
            None
        }
    }
}

impl Default for Dimension {
    fn default() -> (out: Dimension)
        ensures
            out == Dimension::Horizontal,
    {
        Dimension::Horizontal
    }
}

/// `/M`: the direction of motion of a Split, Box or Fly transition.
#[derive(Debug, Clone, Copy, PartialEq, Eq, Structural)]
pub enum Motion {
    /// `/I`: inward from the edges of the page, the default.
    Inward,
    /// `/O`: outward from the centre of the page.
    Outward,
}

/// The motion a name denotes.
pub open spec fn motion_of(name: Seq<char>) -> Option<Motion> {
    if name == "I"@ {
        Some(Motion::Inward)
    } else if name == "O"@ {
        Some(Motion::Outward)
    } else {
        None
    }
}

impl Motion {
    /// The motion `/M` names; `None` for any other name.
    pub fn from_name(name: &str) -> (out: Option<Motion>)
        ensures
            out == motion_of(name@),
    {
        if text::same(name, "I") {
            Some(Motion::Inward)
        } else if text::same(name, "O") {
            Some(Motion::Outward)
        } else {
            None
        }
    }
}

impl Default for Motion {
    fn default() -> (out: Motion)
        ensures
            out == Motion::Inward,
    {
        Motion::Inward
    }
}

/// `/Di`: the direction a Wipe, Glitter, Fly, Cover, Uncover or Push
/// transition moves in.
#[derive(Debug, Clone, Copy, PartialEq, Eq, Structural)]
pub enum TransitionDirection {
    /// Degrees counterclockwise from left to right: 0, 90, 180, 270 or 315,
    /// 0 being the default.
    Angle(u32),
    /// The name `None`, meaningful for a Fly transition whose scale is not 1.
    NoDirection,
}

impl Default for TransitionDirection {
    fn default() -> (out: TransitionDirection)
        ensures
            out == TransitionDirection::Angle(0),
    {
        TransitionDirection::Angle(0)
    }
}

/// A transition dictionary with every absent entry at its default.
#[derive(Debug, Clone, PartialEq)]
pub struct Transition {
    /// `/S`, `Replace` when absent or not a listed style.
    pub style: TransitionStyle,
    /// `/D`: the effect's duration in seconds, 1 when absent.
    pub duration: Real,
    /// `/Dm`, horizontal when absent.
    pub dimension: Dimension,
    /// `/M`, inward when absent.
    pub motion: Motion,
    /// `/Di`, left to right when absent.
    pub direction: TransitionDirection,
    /// `/SS`: the starting or ending scale of a Fly transition, 1 when absent.
    pub scale: Real,
    /// `/B`: whether a Fly transition's area is rectangular and opaque.
    pub opaque: bool,
}

impl Default for Transition {
    fn default() -> (out: Transition)
        ensures
            out.style == TransitionStyle::Replace,
            out.duration.bits == ONE_BITS,
            out.dimension == Dimension::Horizontal,
            out.motion == Motion::Inward,
            out.direction == TransitionDirection::Angle(0),
            out.scale.bits == ONE_BITS,
            !out.opaque,
    {
        Transition {
            style: TransitionStyle::Replace,
            duration: Real { bits: ONE_BITS },
            dimension: Dimension::Horizontal,
            motion: Motion::Inward,
            direction: TransitionDirection::Angle(0),
            scale: Real { bits: ONE_BITS },
            opaque: false,
        }
    }
}

/// What a name denotes, or else a default.
pub open spec fn named_or<T>(
    name: Option<Seq<char>>,
    meaning: spec_fn(Seq<char>) -> Option<T>,
    default: T,
) -> T {
    match name {
        Some(name) => match meaning(name) {
            Some(value) => value,
            None => default,
        },
        None => default,
    }
}

/// A number that is 1 by default, as a bit pattern.
pub open spec fn number_or_one(value: Option<nat>) -> nat {
    match value {
        Some(bits) => bits,
        None => ONE_BITS as nat,
    }
}

/// The direction that a `/Di` entry stands for.
pub open spec fn direction_of(value: Option<ObjectV>) -> TransitionDirection {
    match value {
        Some(o) => if o.name() == Some("None"@) {
            TransitionDirection::NoDirection
        } else {
            match o.number() {
                Some(bits) => TransitionDirection::Angle(
                    number::saturated(bits as u64, 0, u32::MAX as int) as u32,
                ),
                None => TransitionDirection::Angle(0),
            }
        },
        None => TransitionDirection::Angle(0),
    }
}

impl Transition {
    /// Whether the record is what the dictionary `d` says.
    pub open spec fn reads(&self, src: SourceV, d: Map<Seq<char>, ObjectV>) -> bool {
        &&& self.style == named_or(
            tree::entry_name(src, d, "S"@),
            |name: Seq<char>| style_of(name),
            TransitionStyle::Replace,
        )
        &&& self.duration.bits == number_or_one(tree::entry_number(src, d, "D"@))
        &&& self.dimension == named_or(
            tree::entry_name(src, d, "Dm"@),
            |name: Seq<char>| dimension_of(name),
            Dimension::Horizontal,
        )
        &&& self.motion == named_or(
            tree::entry_name(src, d, "M"@),
            |name: Seq<char>| motion_of(name),
            Motion::Inward,
        )
        &&& self.direction == direction_of(tree::entry(src, d, "Di"@))
        &&& self.scale.bits == number_or_one(tree::entry_number(src, d, "SS"@))
        &&& self.opaque == (tree::entry_flag(src, d, "B"@) == Some(true))
    }
}

/// How a page takes part in a presentation: its display duration and the
/// transition that reveals it.
#[derive(Debug, Clone, PartialEq)]
pub struct Presentation {
    /// `/Dur`: the seconds the page shows before the presentation advances
    /// on its own; `None` leaves the page waiting for the user.
    pub duration: Option<Real>,
    /// `/Trans`: the transition into this page; `None` without one.
    pub transition: Option<Transition>,
}

impl Presentation {
    /// Whether the record is what the page dictionary `page` says.
    pub open spec fn reads(&self, src: SourceV, page: Map<Seq<char>, ObjectV>) -> bool {
        &&& tree::real_opt(self.duration) == tree::entry_number(src, page, "Dur"@)
        &&& match tree::entry_dict(src, page, "Trans"@) {
            Some(d) => self.transition matches Some(t) && t.reads(src, d),
            None => self.transition is None,
        }
    }
}

/// The presentation entries of the page with dictionary `page`: `None` when it
/// carries neither `/Dur` nor a `/Trans` dictionary, so a plain page is no
/// slide.
pub fn presentation_with<S: ObjectSource>(src: &S, page: &Dict) -> (out: Option<Presentation>)
    ensures
        match out {
            Some(p) => p.reads(src.model(), page@) && (p.duration is Some || p.transition is Some),
            None => tree::entry_number(src.model(), page@, "Dur"@) is None && tree::entry_dict(
                src.model(),
                page@,
                "Trans"@,
            ) is None,
        },
{
    let entries = Entries { src, dict: page };
    let duration = entries.number("Dur");
    let transition = match entries.sub_dict("Trans") {
        Some(dict) => Some(transition_from(src, &dict)),
        None => None,
    };
    if duration.is_none() && transition.is_none() {
        return None;
    }
    Some(Presentation { duration, transition })
}

/// A transition dictionary with defaults: an entry that is absent, or a name
/// that is not listed, takes the default.
fn transition_from<S: ObjectSource>(src: &S, dict: &Dict) -> (out: Transition)
    ensures
        out.reads(src.model(), dict@),
{
    let entries = Entries { src, dict };
    let mut out = Transition::default();
    if let Some(name) = entries.name("S") {
        if let Some(style) = TransitionStyle::from_name(name.as_str()) {
            out.style = style;
        }
    }
    if let Some(duration) = entries.number("D") {
        out.duration = duration;
    }
    if let Some(name) = entries.name("Dm") {
        if let Some(dimension) = Dimension::from_name(name.as_str()) {
            out.dimension = dimension;
        }
    }
    if let Some(name) = entries.name("M") {
        if let Some(motion) = Motion::from_name(name.as_str()) {
            out.motion = motion;
        }
    }
    out.direction = direction(entries.value("Di"));
    if let Some(scale) = entries.number("SS") {
        out.scale = scale;
    }
    if let Some(opaque) = entries.flag("B") {
        out.opaque = opaque;
    }
    out
}

/// The direction that a `/Di` entry stands for.
fn direction(value: Option<Object>) -> (out: TransitionDirection)
    ensures
        out == direction_of(crate::object::owned_view(value)),
{
    match value {
        Some(Object::Name(name)) => if text::same(name.0.as_str(), "None") {
            TransitionDirection::NoDirection
        } else {
            TransitionDirection::Angle(0)
        },
        Some(value) => match value.as_f64() {
            Some(degrees) => TransitionDirection::Angle(degrees.to_u32()),
            None => TransitionDirection::Angle(0),
        },
        None => TransitionDirection::Angle(0),
    }
}

/// The name a style is written as.
pub open spec fn style_name(style: TransitionStyle) -> Seq<char> {
    match style {
        TransitionStyle::Split => "Split"@,
        TransitionStyle::Blinds => "Blinds"@,
        TransitionStyle::Box => "Box"@,
        TransitionStyle::Wipe => "Wipe"@,
        TransitionStyle::Dissolve => "Dissolve"@,
        TransitionStyle::Glitter => "Glitter"@,
        TransitionStyle::Replace => "R"@,
        TransitionStyle::Fly => "Fly"@,
        TransitionStyle::Push => "Push"@,
        TransitionStyle::Cover => "Cover"@,
        TransitionStyle::Uncover => "Uncover"@,
        TransitionStyle::Fade => "Fade"@,
    }
}

/// Law: a style read from a name is the style of that name, and every style is
/// read from its name.
pub proof fn style_names_are_faithful(style: TransitionStyle, name: Seq<char>)
    ensures
        style_of(style_name(style)) == Some(style),
        style_of(name) matches Some(r) ==> style_name(r) == name,
{
    reveal_strlit("Split");
    reveal_strlit("Blinds");
    reveal_strlit("Box");
    reveal_strlit("Wipe");
    reveal_strlit("Dissolve");
    reveal_strlit("Glitter");
    reveal_strlit("R");
    reveal_strlit("Fly");
    reveal_strlit("Push");
    reveal_strlit("Cover");
    reveal_strlit("Uncover");
    reveal_strlit("Fade");
    assert("Split"@[0] == 'S' && "Blinds"@[0] == 'B' && "Box"@[0] == 'B' && "Wipe"@[0] == 'W'
        && "Dissolve"@[0] == 'D' && "Glitter"@[0] == 'G' && "R"@[0] == 'R' && "Fly"@[0] == 'F'
        && "Push"@[0] == 'P' && "Cover"@[0] == 'C' && "Uncover"@[0] == 'U' && "Fade"@[0] == 'F');
    assert("Blinds"@.len() == 6 && "Box"@.len() == 3 && "Fly"@.len() == 3 && "Fade"@.len() == 4);
}

/// Law: H is horizontal and V vertical, I inward and O outward; no other name
/// is a dimension or a motion.
pub proof fn dimensions_and_motions_are_faithful(name: Seq<char>)
    ensures
        dimension_of(name) == Some(Dimension::Horizontal) <==> name == "H"@,
        dimension_of(name) == Some(Dimension::Vertical) <==> name == "V"@,
        motion_of(name) == Some(Motion::Inward) <==> name == "I"@,
        motion_of(name) == Some(Motion::Outward) <==> name == "O"@,
{
    reveal_strlit("H");
    reveal_strlit("V");
    reveal_strlit("I");
    reveal_strlit("O");
    assert("H"@[0] == 'H' && "V"@[0] == 'V' && "I"@[0] == 'I' && "O"@[0] == 'O');
}

/// Law: a direction is the angle that is written, or none where the name None
/// is; nothing, or what is no number, is angle zero.
pub proof fn directions_are_angles(angle: u32)
    ensures
        angle < 0x20_0000 ==> direction_of(Some(ObjectV::Int(angle as i64)))
            == TransitionDirection::Angle(angle),
        direction_of(Some(ObjectV::Name("None"@))) == TransitionDirection::NoDirection,
        direction_of(None) == TransitionDirection::Angle(0),
        direction_of(Some(ObjectV::Null)) == TransitionDirection::Angle(0),
{
    number::small_integers_survive(angle as i64);
    let bits = number::int_bits(angle as i64) as u64;
    assert(number::saturated(bits, i64::MIN as int, i64::MAX as int) == angle);
}

/// Law: which entry says what of a transition, each one alone, and what holds
/// where it is not there.
pub proof fn transitions_say_what_is_written(
    t: Transition,
    src: SourceV,
    d: Map<Seq<char>, ObjectV>,
    style: TransitionStyle,
    number: Real,
    b: bool,
)
    requires
        t.reads(src, d),
    ensures
        tree::has(d, "S"@, ObjectV::Name(style_name(style))) ==> t.style == style,
        !d.contains_key("S"@) ==> t.style == TransitionStyle::Replace,
        tree::has(d, "D"@, ObjectV::Real(number)) ==> t.duration == number,
        !d.contains_key("D"@) ==> t.duration.bits == 0x3ff0_0000_0000_0000,
        tree::has(d, "Dm"@, ObjectV::Name("H"@)) ==> t.dimension == Dimension::Horizontal,
        tree::has(d, "Dm"@, ObjectV::Name("V"@)) ==> t.dimension == Dimension::Vertical,
        !d.contains_key("Dm"@) ==> t.dimension == Dimension::Horizontal,
        tree::has(d, "M"@, ObjectV::Name("I"@)) ==> t.motion == Motion::Inward,
        tree::has(d, "M"@, ObjectV::Name("O"@)) ==> t.motion == Motion::Outward,
        !d.contains_key("M"@) ==> t.motion == Motion::Inward,
        tree::has(d, "Di"@, ObjectV::Name("None"@)) ==> t.direction == TransitionDirection::NoDirection,
        tree::has(d, "Di"@, ObjectV::Int(90)) ==> t.direction == TransitionDirection::Angle(90),
        !d.contains_key("Di"@) ==> t.direction == TransitionDirection::Angle(0),
        tree::has(d, "SS"@, ObjectV::Real(number)) ==> t.scale == number,
        !d.contains_key("SS"@) ==> t.scale.bits == 0x3ff0_0000_0000_0000,
        tree::has(d, "B"@, ObjectV::Bool(b)) ==> t.opaque == b,
        !d.contains_key("B"@) ==> !t.opaque,
{
    style_names_are_faithful(style, style_name(style));
    dimensions_and_motions_are_faithful("H"@);
    dimensions_and_motions_are_faithful("V"@);
    dimensions_and_motions_are_faithful("I"@);
    dimensions_and_motions_are_faithful("O"@);
    directions_are_angles(90);
}

/// Law: which entry says what of a page's presentation.
pub proof fn presentations_say_what_is_written(
    p: Presentation,
    src: SourceV,
    page: Map<Seq<char>, ObjectV>,
    number: Real,
    d: Map<Seq<char>, ObjectV>,
)
    requires
        p.reads(src, page),
    ensures
        tree::has(page, "Dur"@, ObjectV::Real(number)) ==> p.duration == Some(number),
        !page.contains_key("Dur"@) ==> p.duration is None,
        tree::has(page, "Trans"@, ObjectV::Dict(d)) ==> (p.transition matches Some(t) && t.reads(
            src,
            d,
        )),
        !page.contains_key("Trans"@) ==> p.transition is None,
{
}

} // verus!
