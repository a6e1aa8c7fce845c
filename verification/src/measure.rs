//! Measurement properties: a page's `/VP` viewports, each a rectangle with a
//! measure dictionary that maps user space to real-world distances, read as
//! data with the defaults filled in.

use crate::number;
use crate::number::Real;
use crate::object;
use crate::object::{Dict, Object, ObjectV};
use crate::presentation;
use crate::single;
use crate::single::Single;
use crate::source;
use crate::source::{ObjectSource, SourceV};
use crate::text;
use crate::tree;
use crate::tree::{resolved_dict, Entries};
use vstd::prelude::*;

verus! {

/// A rectangle by two opposite corners, the first below and to the left of the
/// second.
#[derive(Debug, Clone, Copy, PartialEq)]
pub struct Bounds {
    pub x0: Single,
    pub y0: Single,
    pub x1: Single,
    pub y1: Single,
}

/// A viewport: a page rectangle with its own measurement scale. Where
/// viewports overlap, the last one in the array whose box contains a point
/// applies to it.
#[derive(Debug, Clone, PartialEq)]
pub struct Viewport {
    /// `/BBox`: the rectangle in default user space, normalized.
    pub bbox: Bounds,
    /// `/Name`: a descriptive title.
    pub name: Option<String>,
    /// `/Measure`: the units of the viewport's coordinate system; `None`
    /// without one.
    pub measure: Option<Measure>,
}

/// A measure dictionary: how distances, areas and angles in a viewport convert
/// to real-world units.
#[derive(Debug, PartialEq)]
pub struct Measure {
    /// `/Subtype`: `RL`, rectilinear, the one kind defined and the default;
    /// any other name is kept as written.
    pub subtype: String,
    /// `/R`: the scale ratio as text, `1in = 0.1 mi` style.
    pub scale_ratio: Option<String>,
    /// `/X`: the number formats for x distances, a chain from the coarsest
    /// unit to the finest.
    pub x: Vec<NumberFormat>,
    /// `/Y`: the formats for y distances, empty when they share `x`'s.
    pub y: Vec<NumberFormat>,
    /// `/D`: the formats for distances.
    pub distance: Vec<NumberFormat>,
    /// `/A`: the formats for areas.
    pub area: Vec<NumberFormat>,
    /// `/T`: the formats for angles.
    pub angle: Vec<NumberFormat>,
    /// `/S`: the formats for slopes.
    pub slope: Vec<NumberFormat>,
    /// `/O`: the origin of the measurement coordinate system in default user
    /// space, `(0, 0)` when absent.
    pub origin: (Real, Real),
    /// `/CYX`: the factor that converts y units to x units when the two
    /// differ.
    pub y_to_x: Option<Real>,
}

/// A number format: one unit of a measurement chain and how its value is
/// shown.
#[derive(Debug, PartialEq)]
pub struct NumberFormat {
    /// `/U`: the unit label.
    pub unit: String,
    /// `/C`: the factor that converts the previous unit of the chain, user
    /// space units for the first, into this one.
    pub conversion: Real,
    /// `/F`: how the fractional part is shown, decimal when absent.
    pub fraction: FractionFormat,
    /// `/D`: the places of a decimal or the denominator of a fraction, 100
    /// when absent.
    pub precision: u32,
    /// `/FD`: whether a fraction keeps the denominator `precision` names
    /// instead of being reduced.
    pub fixed_denominator: bool,
    /// `/RT`: the text between orders of thousands, a comma when absent.
    pub thousands: String,
    /// `/RD`: the decimal point text, a period when absent.
    pub radix: String,
    /// `/PS`: the text before the label, one space when absent.
    pub prefix_spacing: String,
    /// `/SS`: the text after the label, one space when absent.
    pub suffix_spacing: String,
    /// `/O`: where the label goes, after the value when absent.
    pub label: LabelPosition,
}

/// `/F`: how a number format shows the fractional part of a value.
#[derive(Debug, Clone, Copy, PartialEq, Eq, Structural)]
pub enum FractionFormat {
    /// `/D`: as a decimal to `precision` places, the default.
    Decimal,
    /// `/F`: as a fraction over the denominator `precision` names.
    Fraction,
    /// `/R`: rounded to a whole number.
    Round,
    /// `/T`: truncated to a whole number.
    Truncate,
}

/// The format a name denotes.
pub open spec fn fraction_of(name: Seq<char>) -> Option<FractionFormat> {
    if name == "D"@ {
        Some(FractionFormat::Decimal)
    } else if name == "F"@ {
        Some(FractionFormat::Fraction)
    } else if name == "R"@ {
        Some(FractionFormat::Round)
    } else if name == "T"@ {
        Some(FractionFormat::Truncate)
    } else {
        None
    }
}

impl FractionFormat {
    /// The format `/F` names; `None` for a name that is no format.
    pub fn from_name(name: &str) -> (out: Option<FractionFormat>)
        ensures
            out == fraction_of(name@),
    {
        if text::same(name, "D") {
            Some(FractionFormat::Decimal)
        } else if text::same(name, "F") {
            Some(FractionFormat::Fraction)
        } else if text::same(name, "R") {
            Some(FractionFormat::Round)
        } else if text::same(name, "T") {
            Some(FractionFormat::Truncate)
        } else {
            None
        }
    }
}

impl Default for FractionFormat {
    fn default() -> (out: FractionFormat)
        ensures
            out == FractionFormat::Decimal,
    {
        FractionFormat::Decimal
    }
}

/// `/O`: whether a number format's label follows or precedes the value.
#[derive(Debug, Clone, Copy, PartialEq, Eq, Structural)]
pub enum LabelPosition {
    /// `/S`: after the value, the default.
    Suffix,
    /// `/P`: before the value.
    Prefix,
}

/// The position a name denotes.
pub open spec fn position_of(name: Seq<char>) -> Option<LabelPosition> {
    if name == "S"@ {
        Some(LabelPosition::Suffix)
    } else if name == "P"@ {
        Some(LabelPosition::Prefix)
    } else {
        None
    }
}

impl LabelPosition {
    /// The position `/O` names; `None` for any other name.
    pub fn from_name(name: &str) -> (out: Option<LabelPosition>)
        ensures
            out == position_of(name@),
    {
        if text::same(name, "S") {
            Some(LabelPosition::Suffix)
        } else if text::same(name, "P") {
            Some(LabelPosition::Prefix)
        } else {
            None
        }
    }
}

impl Default for LabelPosition {
    fn default() -> (out: LabelPosition)
        ensures
            out == LabelPosition::Suffix,
    {
        LabelPosition::Suffix
    }
}

/// What a number format is.
#[verifier::ext_equal]
pub struct NumberFormatV {
    pub unit: Seq<char>,
    pub conversion: nat,
    pub fraction: FractionFormat,
    pub precision: u32,
    pub fixed_denominator: bool,
    pub thousands: Seq<char>,
    pub radix: Seq<char>,
    pub prefix_spacing: Seq<char>,
    pub suffix_spacing: Seq<char>,
    pub label: LabelPosition,
}

impl View for NumberFormat {
    type V = NumberFormatV;

    open spec fn view(&self) -> NumberFormatV {
        NumberFormatV {
            unit: self.unit@,
            conversion: self.conversion.bits as nat,
            fraction: self.fraction,
            precision: self.precision,
            fixed_denominator: self.fixed_denominator,
            thousands: self.thousands@,
            radix: self.radix@,
            prefix_spacing: self.prefix_spacing@,
            suffix_spacing: self.suffix_spacing@,
            label: self.label,
        }
    }
}

/// What number formats in a row are.
pub open spec fn formats_view(formats: Seq<NumberFormat>) -> Seq<NumberFormatV> {
    Seq::new(formats.len(), |i: int| formats[i]@)
}

/// What a measure is.
#[verifier::ext_equal]
pub struct MeasureV {
    pub subtype: Seq<char>,
    pub scale_ratio: Option<Seq<char>>,
    pub x: Seq<NumberFormatV>,
    pub y: Seq<NumberFormatV>,
    pub distance: Seq<NumberFormatV>,
    pub area: Seq<NumberFormatV>,
    pub angle: Seq<NumberFormatV>,
    pub slope: Seq<NumberFormatV>,
    pub origin: (nat, nat),
    pub y_to_x: Option<nat>,
}

impl View for Measure {
    type V = MeasureV;

    open spec fn view(&self) -> MeasureV {
        MeasureV {
            subtype: self.subtype@,
            scale_ratio: tree::string_opt(self.scale_ratio),
            x: formats_view(self.x@),
            y: formats_view(self.y@),
            distance: formats_view(self.distance@),
            area: formats_view(self.area@),
            angle: formats_view(self.angle@),
            slope: formats_view(self.slope@),
            origin: (self.origin.0.bits as nat, self.origin.1.bits as nat),
            y_to_x: tree::real_opt(self.y_to_x),
        }
    }
}

impl Clone for NumberFormat {
    fn clone(&self) -> (out: NumberFormat)
        ensures
            out@ == self@,
    {
        NumberFormat {
            unit: self.unit.clone(),
            conversion: self.conversion,
            fraction: self.fraction,
            precision: self.precision,
            fixed_denominator: self.fixed_denominator,
            thousands: self.thousands.clone(),
            radix: self.radix.clone(),
            prefix_spacing: self.prefix_spacing.clone(),
            suffix_spacing: self.suffix_spacing.clone(),
            label: self.label,
        }
    }
}

/// A copy of number formats in a row.
fn clone_formats(formats: &Vec<NumberFormat>) -> (out: Vec<NumberFormat>)
    ensures
        formats_view(out@) == formats_view(formats@),
{
    let mut out: Vec<NumberFormat> = Vec::new();
    let mut i: usize = 0;
    while i < formats.len()
        invariant
            i <= formats@.len(),
            out@.len() == i,
            forall|j: int| 0 <= j < i ==> (#[trigger] out@[j])@ == formats@[j]@,
        decreases formats@.len() - i,
    {
        out.push(formats[i].clone());
        i += 1;
    }
    assert(formats_view(out@) =~= formats_view(formats@));
    out
}

impl Clone for Measure {
    fn clone(&self) -> (out: Measure)
        ensures
            out@ == self@,
    {
        Measure {
            subtype: self.subtype.clone(),
            scale_ratio: match &self.scale_ratio {
                Some(ratio) => Some(ratio.clone()),
                None => None,
            },
            x: clone_formats(&self.x),
            y: clone_formats(&self.y),
            distance: clone_formats(&self.distance),
            area: clone_formats(&self.area),
            angle: clone_formats(&self.angle),
            slope: clone_formats(&self.slope),
            origin: self.origin,
            y_to_x: self.y_to_x,
        }
    }
}

/// What a viewport is.
#[verifier::ext_equal]
pub struct ViewportV {
    pub bbox: (u32, u32, u32, u32),
    pub name: Option<Seq<char>>,
    pub measure: Option<MeasureV>,
}

impl View for Viewport {
    type V = ViewportV;

    open spec fn view(&self) -> ViewportV {
        ViewportV {
            bbox: (
                self.bbox.x0.bits,
                self.bbox.y0.bits,
                self.bbox.x1.bits,
                self.bbox.y1.bits,
            ),
            name: tree::string_opt(self.name),
            measure: match self.measure {
                Some(measure) => Some(measure@),
                None => None,
            },
        }
    }
}

/// What viewports in a row are.
pub open spec fn viewports_view(viewports: Seq<Viewport>) -> Seq<ViewportV> {
    Seq::new(viewports.len(), |i: int| viewports[i]@)
}

/// The finite number that an object resolves to, as a bit pattern.
pub open spec fn finite_at(src: SourceV, o: ObjectV) -> Option<nat> {
    match source::resolved(src, o) {
        Ok(v) => match v.number() {
            Some(bits) => if bits % (number::SIGN_BIT as nat) < number::INFINITY_BITS {
                Some(bits)
            } else {
                None
            },
            None => None,
        },
        Err(_) => None,
    }
}

/// The finite numbers that objects resolve to, `None` if one of them is none.
pub open spec fn finite_in(src: SourceV, items: Seq<ObjectV>) -> Option<Seq<nat>>
    decreases items.len(),
{
    if items.len() == 0 {
        Some(Seq::empty())
    } else {
        match (finite_in(src, items.drop_last()), finite_at(src, items.last())) {
            (Some(before), Some(bits)) => Some(before.push(bits)),
            _ => None,
        }
    }
}

/// The finite numbers of an array.
pub open spec fn numbers_at(src: SourceV, value: Option<ObjectV>) -> Option<Seq<nat>> {
    match value {
        Some(ObjectV::Array(items)) => finite_in(src, items),
        _ => None,
    }
}

/// A number narrowed to single precision, as a bit pattern.
pub open spec fn narrow(bits: nat) -> u32 {
    single::narrowed(bits as u64) as u32
}

/// The smaller of two single-precision numbers, by bit patterns.
pub open spec fn lesser(a: u32, b: u32) -> u32 {
    if single::line_position(b) < single::line_position(a) {
        b
    } else {
        a
    }
}

/// The larger of two single-precision numbers, by bit patterns.
pub open spec fn greater(a: u32, b: u32) -> u32 {
    if single::line_position(b) < single::line_position(a) {
        a
    } else {
        b
    }
}

/// A text, or else a default.
pub open spec fn text_or(value: Option<Seq<char>>, default: Seq<char>) -> Seq<char> {
    match value {
        Some(value) => value,
        None => default,
    }
}

/// The number format that a dictionary describes, if it has a label and a
/// factor.
pub open spec fn format_of(src: SourceV, d: Map<Seq<char>, ObjectV>) -> Option<NumberFormatV> {
    match (tree::entry_text(src, d, "U"@), tree::entry_number(src, d, "C"@)) {
        (Some(unit), Some(conversion)) => Some(
            NumberFormatV {
                unit,
                conversion,
                fraction: presentation::named_or(
                    tree::entry_name(src, d, "F"@),
                    |name: Seq<char>| fraction_of(name),
                    FractionFormat::Decimal,
                ),
                precision: match tree::entry_u32(src, d, "D"@) {
                    Some(precision) => precision,
                    None => 100,
                },
                fixed_denominator: tree::entry_flag(src, d, "FD"@) == Some(true),
                thousands: text_or(tree::entry_text(src, d, "RT"@), ","@),
                radix: text_or(tree::entry_text(src, d, "RD"@), "."@),
                prefix_spacing: text_or(tree::entry_text(src, d, "PS"@), " "@),
                suffix_spacing: text_or(tree::entry_text(src, d, "SS"@), " "@),
                label: presentation::named_or(
                    tree::entry_name(src, d, "O"@),
                    |name: Seq<char>| position_of(name),
                    LabelPosition::Suffix,
                ),
            },
        ),
        _ => None,
    }
}

/// The number formats that the entries of an array describe, in order.
pub open spec fn formats_in(src: SourceV, items: Seq<ObjectV>) -> Seq<NumberFormatV>
    decreases items.len(),
{
    if items.len() == 0 {
        Seq::empty()
    } else {
        let before = formats_in(src, items.drop_last());
        match tree::dict_at(src, items.last()) {
            Some(d) => match format_of(src, d) {
                Some(format) => before.push(format),
                None => before,
            },
            None => before,
        }
    }
}

/// The number formats under `key`.
pub open spec fn formats_under(src: SourceV, d: Map<Seq<char>, ObjectV>, key: Seq<char>) -> Seq<
    NumberFormatV,
> {
    match tree::entry(src, d, key) {
        Some(ObjectV::Array(items)) => formats_in(src, items),
        _ => Seq::empty(),
    }
}

/// What a measure dictionary says.
pub open spec fn measure_of(src: SourceV, d: Map<Seq<char>, ObjectV>) -> MeasureV {
    MeasureV {
        subtype: text_or(tree::entry_name(src, d, "Subtype"@), "RL"@),
        scale_ratio: tree::entry_text(src, d, "R"@),
        x: formats_under(src, d, "X"@),
        y: formats_under(src, d, "Y"@),
        distance: formats_under(src, d, "D"@),
        area: formats_under(src, d, "A"@),
        angle: formats_under(src, d, "T"@),
        slope: formats_under(src, d, "S"@),
        origin: match numbers_at(src, tree::entry(src, d, "O"@)) {
            Some(numbers) => if numbers.len() == 2 {
                (numbers[0], numbers[1])
            } else {
                (0, 0)
            },
            None => (0, 0),
        },
        y_to_x: tree::entry_number(src, d, "CYX"@),
    }
}

/// The viewport that a dictionary describes, if it has a box.
pub open spec fn viewport_of(src: SourceV, d: Map<Seq<char>, ObjectV>) -> Option<ViewportV> {
    match numbers_at(src, tree::entry(src, d, "BBox"@)) {
        Some(b) => if b.len() == 4 {
            Some(
                ViewportV {
                    bbox: (
                        lesser(narrow(b[0]), narrow(b[2])),
                        lesser(narrow(b[1]), narrow(b[3])),
                        greater(narrow(b[0]), narrow(b[2])),
                        greater(narrow(b[1]), narrow(b[3])),
                    ),
                    name: tree::entry_text(src, d, "Name"@),
                    measure: match tree::entry_dict(src, d, "Measure"@) {
                        Some(measure) => Some(measure_of(src, measure)),
                        None => None,
                    },
                },
            )
        } else {
            None
        },
        None => None,
    }
}

/// The viewports that the entries of an array describe, in order.
pub open spec fn viewports_in(src: SourceV, items: Seq<ObjectV>) -> Seq<ViewportV>
    decreases items.len(),
{
    if items.len() == 0 {
        Seq::empty()
    } else {
        let before = viewports_in(src, items.drop_last());
        match tree::dict_at(src, items.last()) {
            Some(d) => match viewport_of(src, d) {
                Some(viewport) => before.push(viewport),
                None => before,
            },
            None => before,
        }
    }
}

/// The bit patterns of numbers in a row.
spec fn bits_view(numbers: Seq<Real>) -> Seq<nat> {
    Seq::new(numbers.len(), |i: int| numbers[i].bits as nat)
}

proof fn lemma_not_finite(src: SourceV, items: Seq<ObjectV>, i: int)
    requires
        0 <= i <= items.len(),
        finite_in(src, items.take(i)) is None,
    ensures
        finite_in(src, items) is None,
    decreases items.len() - i,
{
    if i == items.len() {
        assert(items.take(i) =~= items);
    } else {
        assert(items.take(i + 1).drop_last() =~= items.take(i));
        lemma_not_finite(src, items, i + 1);
    }
}

/// The finite numbers of an array, each resolved; `None` when the value is
/// no array or any item is no finite number.
fn numbers_of<S: ObjectSource>(src: &S, value: Option<Object>) -> (out: Option<Vec<Real>>)
    ensures
        match out {
            Some(numbers) => numbers_at(src.model(), object::owned_view(value)) == Some(
                bits_view(numbers@),
            ),
            None => numbers_at(src.model(), object::owned_view(value)) is None,
        },
{
    let items = match value {
        Some(Object::Array(items)) => items,
        _ => {
            return None;
        },
    };
    let ghost all = object::objects_view(items@);
    let mut numbers: Vec<Real> = Vec::new();
    let mut i: usize = 0;
    assert(all.take(0) =~= Seq::<ObjectV>::empty());
    assert(bits_view(numbers@) =~= Seq::<nat>::empty());
    while i < items.len()
        invariant
            i <= items@.len(),
            all == object::objects_view(items@),
            numbers_at(src.model(), object::owned_view(value)) == finite_in(src.model(), all),
            finite_in(src.model(), all.take(i as int)) == Some(bits_view(numbers@)),
        decreases items@.len() - i,
    {
        let ghost before = numbers@;
        proof {
            assert(all.take(i + 1).drop_last() =~= all.take(i as int));
            assert(all.take(i + 1).last() == items@[i as int]@);
        }
        let number = match src.resolve(&items[i]) {
            Ok(item) => item.as_f64(),
            Err(_) => None,
        };
        let finite = match number {
            Some(number) => if number.is_finite() {
                Some(number)
            } else {
                None
            },
            None => None,
        };
        match finite {
            Some(number) => {
                numbers.push(number);
                assert(bits_view(numbers@) =~= bits_view(before).push(number.bits as nat));
            },
            None => {
                proof {
                    lemma_not_finite(src.model(), all, i + 1);
                }
                return None;
            },
        }
        i += 1;
    }
    assert(all.take(i as int) =~= all);
    Some(numbers)
}

/// A text, or else a default.
fn text_else(value: Option<String>, default: &str) -> (out: String)
    ensures
        out@ == text_or(tree::string_opt(value), default@),
{
    match value {
        Some(value) => value,
        None => default.to_owned(),
    }
}

/// The number format that a dictionary describes; `None` without the required
/// `/U` label or `/C` factor.
fn read_format<S: ObjectSource>(src: &S, dict: &Dict) -> (out: Option<NumberFormat>)
    ensures
        match out {
            Some(format) => format_of(src.model(), dict@) == Some(format@),
            None => format_of(src.model(), dict@) is None,
        },
{
    let entries = Entries { src, dict };
    let unit = match entries.text("U") {
        Some(unit) => unit,
        None => {
            return None;
        },
    };
    let conversion = match entries.number("C") {
        Some(conversion) => conversion,
        None => {
            return None;
        },
    };
    let fraction = match entries.name("F") {
        Some(name) => match FractionFormat::from_name(name.as_str()) {
            Some(fraction) => fraction,
            None => FractionFormat::Decimal,
        },
        None => FractionFormat::Decimal,
    };
    let label = match entries.name("O") {
        Some(name) => match LabelPosition::from_name(name.as_str()) {
            Some(label) => label,
            None => LabelPosition::Suffix,
        },
        None => LabelPosition::Suffix,
    };
    Some(
        NumberFormat {
            unit,
            conversion,
            fraction,
            precision: match entries.small("D") {
                Some(precision) => precision,
                None => 100,
            },
            fixed_denominator: match entries.flag("FD") {
                Some(fixed) => fixed,
                None => false,
            },
            thousands: text_else(entries.text("RT"), ","),
            radix: text_else(entries.text("RD"), "."),
            prefix_spacing: text_else(entries.text("PS"), " "),
            suffix_spacing: text_else(entries.text("SS"), " "),
            label,
        },
    )
}

/// The number formats under `key`, in order; a format that is no
/// dictionary, or lacks the required `/U` label or `/C` factor, is skipped.
fn formats_of<S: ObjectSource>(src: &S, dict: &Dict, key: &str) -> (out: Vec<NumberFormat>)
    ensures
        formats_view(out@) == formats_under(src.model(), dict@, key@),
{
    let mut formats: Vec<NumberFormat> = Vec::new();
    assert(formats_view(formats@) =~= Seq::<NumberFormatV>::empty());
    let items = match (Entries { src, dict }).value(key) {
        Some(Object::Array(items)) => items,
        _ => {
            return formats;
        },
    };
    let ghost all = object::objects_view(items@);
    let mut i: usize = 0;
    assert(all.take(0) =~= Seq::<ObjectV>::empty());
    while i < items.len()
        invariant
            i <= items@.len(),
            all == object::objects_view(items@),
            formats_view(formats@) == formats_in(src.model(), all.take(i as int)),
        decreases items@.len() - i,
    {
        let ghost before = formats@;
        proof {
            assert(all.take(i + 1).drop_last() =~= all.take(i as int));
            assert(all.take(i + 1).last() == items@[i as int]@);
        }
        if let Some(dict) = resolved_dict(src, &items[i]) {
            if let Some(format) = read_format(src, &dict) {
                formats.push(format);
                assert(formats_view(formats@) =~= formats_view(before).push(format@));
            }
        }
        i += 1;
    }
    assert(all.take(i as int) =~= all);
    formats
}

/// A measure dictionary with defaults: a subtype other than `RL` keeps its
/// name and whatever rectilinear entries it carries.
pub fn measure_from<S: ObjectSource>(src: &S, dict: &Dict) -> (out: Measure)
    ensures
        out@ == measure_of(src.model(), dict@),
{
    let entries = Entries { src, dict };
    let zero = Real { bits: 0 };
    let origin = match numbers_of(src, entries.value("O")) {
        Some(numbers) => if numbers.len() == 2 {
            (numbers[0], numbers[1])
        } else {
            (zero, zero)
        },
        None => (zero, zero),
    };
    Measure {
        subtype: text_else(entries.name("Subtype"), "RL"),
        scale_ratio: entries.text("R"),
        x: formats_of(src, dict, "X"),
        y: formats_of(src, dict, "Y"),
        distance: formats_of(src, dict, "D"),
        area: formats_of(src, dict, "A"),
        angle: formats_of(src, dict, "T"),
        slope: formats_of(src, dict, "S"),
        origin,
        y_to_x: entries.number("CYX"),
    }
}

/// The smaller and the larger of two numbers.
fn in_order(a: Single, b: Single) -> (out: (Single, Single))
    ensures
        out.0.bits == lesser(a.bits, b.bits),
        out.1.bits == greater(a.bits, b.bits),
{
    if b.is_below(a) {
        (b, a)
    } else {
        (a, b)
    }
}

/// The viewport that a dictionary describes; `None` when its `/BBox` is no
/// array of four finite numbers.
fn read_viewport<S: ObjectSource>(src: &S, dict: &Dict) -> (out: Option<Viewport>)
    ensures
        match out {
            Some(viewport) => viewport_of(src.model(), dict@) == Some(viewport@),
            None => viewport_of(src.model(), dict@) is None,
        },
{
    let entries = Entries { src, dict };
    match numbers_of(src, entries.value("BBox")) {
        Some(b) => if b.len() == 4 {
            let (x0, x1) = in_order(Single::from_real(b[0]), Single::from_real(b[2]));
            let (y0, y1) = in_order(Single::from_real(b[1]), Single::from_real(b[3]));
            let measure = match entries.sub_dict("Measure") {
                Some(measure) => Some(measure_from(src, &measure)),
                None => None,
            };
            Some(
                Viewport { bbox: Bounds { x0, y0, x1, y1 }, name: entries.text("Name"), measure },
            )
        } else {
            None
        },
        None => None,
    }
}

/// The viewports of the `/VP` array of the page with dictionary `page`, in
/// order: empty without one. A viewport that is no dictionary, or whose
/// `/BBox` is no array of four finite numbers, is skipped; a `/Measure` that
/// is no dictionary reads as absent.
pub fn viewports_with<S: ObjectSource>(src: &S, page: &Dict) -> (out: Vec<Viewport>)
    ensures
        viewports_view(out@) == (match tree::entry(src.model(), page@, "VP"@) {
            Some(ObjectV::Array(items)) => viewports_in(src.model(), items),
            _ => Seq::empty(),
        }),
{
    let mut viewports: Vec<Viewport> = Vec::new();
    assert(viewports_view(viewports@) =~= Seq::<ViewportV>::empty());
    let items = match (Entries { src, dict: page }).value("VP") {
        Some(Object::Array(items)) => items,
        _ => {
            return viewports;
        },
    };
    let ghost all = object::objects_view(items@);
    let mut i: usize = 0;
    assert(all.take(0) =~= Seq::<ObjectV>::empty());
    while i < items.len()
        invariant
            i <= items@.len(),
            all == object::objects_view(items@),
            viewports_view(viewports@) == viewports_in(src.model(), all.take(i as int)),
        decreases items@.len() - i,
    {
        let ghost before = viewports@;
        proof {
            assert(all.take(i + 1).drop_last() =~= all.take(i as int));
            assert(all.take(i + 1).last() == items@[i as int]@);
        }
        if let Some(dict) = resolved_dict(src, &items[i]) {
            if let Some(viewport) = read_viewport(src, &dict) {
                viewports.push(viewport);
                assert(viewports_view(viewports@) =~= viewports_view(before).push(viewport@));
            }
        }
        i += 1;
    }
    assert(all.take(i as int) =~= all);
    viewports
}

/// A viewport's box lies the right way round.
pub proof fn boxes_are_normalized(src: SourceV, d: Map<Seq<char>, ObjectV>)
    ensures
        viewport_of(src, d) matches Some(v) ==> single::line_position(v.bbox.0)
            <= single::line_position(v.bbox.2) && single::line_position(v.bbox.1)
            <= single::line_position(v.bbox.3),
{
}

/// The name a fraction format is written as.
pub open spec fn fraction_name(f: FractionFormat) -> Seq<char> {
    match f {
        FractionFormat::Decimal => "D"@,
        FractionFormat::Fraction => "F"@,
        FractionFormat::Round => "R"@,
        FractionFormat::Truncate => "T"@,
    }
}

/// The name a label position is written as.
pub open spec fn position_name(p: LabelPosition) -> Seq<char> {
    match p {
        LabelPosition::Suffix => "S"@,
        LabelPosition::Prefix => "P"@,
    }
}

/// Law: fraction formats and label positions are read back from their names, and
/// no other name is one.
pub proof fn format_names_are_faithful(f: FractionFormat, p: LabelPosition, name: Seq<char>)
    ensures
        fraction_of(fraction_name(f)) == Some(f),
        position_of(position_name(p)) == Some(p),
        fraction_of(name) matches Some(r) ==> fraction_name(r) == name,
        position_of(name) matches Some(r) ==> position_name(r) == name,
{
    reveal_strlit("D");
    reveal_strlit("F");
    reveal_strlit("R");
    reveal_strlit("T");
    reveal_strlit("S");
    reveal_strlit("P");
    assert("D"@[0] == 'D' && "F"@[0] == 'F' && "R"@[0] == 'R' && "T"@[0] == 'T' && "S"@[0] == 'S'
        && "P"@[0] == 'P');
}

/// Law: the corners of a viewport are those that are written, narrowed: of the
/// two columns the one first named is on one side and the other on the other,
/// and so for the rows.
pub proof fn boxes_keep_their_corners(
    src: SourceV,
    d: Map<Seq<char>, ObjectV>,
    x0: Real,
    y0: Real,
    x1: Real,
    y1: Real,
)
    requires
        d.contains_key("BBox"@),
        d["BBox"@] == ObjectV::Array(
            seq![ObjectV::Real(x0), ObjectV::Real(y0), ObjectV::Real(x1), ObjectV::Real(y1)],
        ),
        x0.bits as nat % (number::SIGN_BIT as nat) < number::INFINITY_BITS,
        y0.bits as nat % (number::SIGN_BIT as nat) < number::INFINITY_BITS,
        x1.bits as nat % (number::SIGN_BIT as nat) < number::INFINITY_BITS,
        y1.bits as nat % (number::SIGN_BIT as nat) < number::INFINITY_BITS,
    ensures
        viewport_of(src, d) matches Some(v) && ({
            let a = single::narrowed(x0.bits) as u32;
            let b = single::narrowed(y0.bits) as u32;
            let c = single::narrowed(x1.bits) as u32;
            let e = single::narrowed(y1.bits) as u32;
            &&& (v.bbox.0 == a && v.bbox.2 == c) || (v.bbox.0 == c && v.bbox.2 == a)
            &&& (v.bbox.1 == b && v.bbox.3 == e) || (v.bbox.1 == e && v.bbox.3 == b)
        }),
{
    let items = seq![
        ObjectV::Real(x0),
        ObjectV::Real(y0),
        ObjectV::Real(x1),
        ObjectV::Real(y1),
    ];
    assert(source::resolved(src, d["BBox"@]) == Ok::<ObjectV, source::FaultV>(d["BBox"@]));
    assert(items.drop_last() =~= seq![ObjectV::Real(x0), ObjectV::Real(y0), ObjectV::Real(x1)]);
    assert(items.drop_last().drop_last() =~= seq![ObjectV::Real(x0), ObjectV::Real(y0)]);
    assert(items.drop_last().drop_last().drop_last() =~= seq![ObjectV::Real(x0)]);
    assert(items.drop_last().drop_last().drop_last().drop_last() =~= Seq::<ObjectV>::empty());
    assert forall|r: Real| #[trigger]
        source::resolved(src, ObjectV::Real(r)) == Ok::<ObjectV, source::FaultV>(
            ObjectV::Real(r),
        ) by {}
    reveal_with_fuel(finite_in, 5);
    let numbers = seq![x0.bits as nat, y0.bits as nat, x1.bits as nat, y1.bits as nat];
    assert(finite_in(src, items) == Some(numbers)) by {
        assert(finite_at(src, items[0]) == Some(x0.bits as nat));
        assert(finite_at(src, items[1]) == Some(y0.bits as nat));
        assert(finite_at(src, items[2]) == Some(x1.bits as nat));
        assert(finite_at(src, items[3]) == Some(y1.bits as nat));
        assert(Seq::<nat>::empty().push(x0.bits as nat).push(y0.bits as nat).push(
            x1.bits as nat,
        ).push(y1.bits as nat) =~= numbers);
    }
}

/// Law: a number format without more than its unit and conversion is decimal,
/// precise to a hundredth, grouped by commas, with a point and spaces around,
/// and its label behind the number.
pub proof fn formats_have_defaults(
    src: SourceV,
    d: Map<Seq<char>, ObjectV>,
    unit: Seq<u8>,
    conversion: Real,
)
    requires
        d == Map::<Seq<char>, ObjectV>::empty().insert("U"@, ObjectV::String(unit)).insert(
            "C"@,
            ObjectV::Real(conversion),
        ),
    ensures
        format_of(src, d) matches Some(f) && ({
            &&& f.unit == object::text_chars(unit)
            &&& f.conversion == conversion.bits
            &&& f.fraction == FractionFormat::Decimal
            &&& f.precision == 100
            &&& !f.fixed_denominator
            &&& f.thousands == seq![',']
            &&& f.radix == seq!['.']
            &&& f.prefix_spacing == seq![' ']
            &&& f.suffix_spacing == seq![' ']
            &&& f.label == LabelPosition::Suffix
        }),
{
    reveal_strlit("U");
    reveal_strlit("C");
    reveal_strlit("F");
    reveal_strlit("D");
    reveal_strlit("FD");
    reveal_strlit("RT");
    reveal_strlit("RD");
    reveal_strlit("PS");
    reveal_strlit("SS");
    reveal_strlit("O");
    reveal_strlit(",");
    reveal_strlit(".");
    reveal_strlit(" ");
    assert("U"@[0] == 'U' && "C"@[0] == 'C' && "F"@[0] == 'F' && "D"@[0] == 'D' && "O"@[0] == 'O');
    assert("U"@.len() == 1 && "C"@.len() == 1 && "FD"@.len() == 2 && "RT"@.len() == 2 && "RD"@.len()
        == 2 && "PS"@.len() == 2 && "SS"@.len() == 2);
    assert(","@ =~= seq![',']);
    assert("."@ =~= seq!['.']);
    assert(" "@ =~= seq![' ']);
    assert(source::resolved(src, ObjectV::String(unit)) == Ok::<ObjectV, source::FaultV>(
        ObjectV::String(unit),
    ));
    assert(source::resolved(src, ObjectV::Real(conversion)) == Ok::<ObjectV, source::FaultV>(
        ObjectV::Real(conversion),
    ));
}

/// Law: which entry says what of a measure, and what holds where it is not there.
pub proof fn measures_say_what_is_written(
    src: SourceV,
    d: Map<Seq<char>, ObjectV>,
    name: Seq<char>,
    bytes: Seq<u8>,
    items: Seq<ObjectV>,
    x: Real,
    y: Real,
)
    requires
        x.bits < 0x7ff0_0000_0000_0000,
        y.bits < 0x7ff0_0000_0000_0000,
    ensures
        ({
            let m = measure_of(src, d);
            let list = ObjectV::Array(items);
            let has = |key: Seq<char>, value: ObjectV| tree::has(d, key, value);
            &&& has("Subtype"@, ObjectV::Name(name)) ==> m.subtype == name
            &&& !d.contains_key("Subtype"@) ==> m.subtype == seq!['R', 'L']
            &&& has("R"@, ObjectV::String(bytes)) ==> m.scale_ratio == Some(
                object::text_chars(bytes),
            )
            &&& has("X"@, list) ==> m.x == formats_in(src, items)
            &&& has("Y"@, list) ==> m.y == formats_in(src, items)
            &&& has("D"@, list) ==> m.distance == formats_in(src, items)
            &&& has("A"@, list) ==> m.area == formats_in(src, items)
            &&& has("T"@, list) ==> m.angle == formats_in(src, items)
            &&& has("S"@, list) ==> m.slope == formats_in(src, items)
            &&& !d.contains_key("X"@) ==> m.x.len() == 0
            &&& has("O"@, ObjectV::Array(seq![ObjectV::Real(x), ObjectV::Real(y)]))
                ==> m.origin == (x.bits as nat, y.bits as nat)
            &&& !d.contains_key("O"@) ==> m.origin == (0nat, 0nat)
            &&& has("CYX"@, ObjectV::Real(x)) ==> m.y_to_x == Some(x.bits as nat)
        }),
{
    reveal_strlit("RL");
    assert("RL"@ =~= seq!['R', 'L']);
    let both = seq![ObjectV::Real(x), ObjectV::Real(y)];
    let first = seq![ObjectV::Real(x)];
    assert(both.drop_last() =~= first);
    assert(first.drop_last() =~= Seq::<ObjectV>::empty());
    assert(both.last() == ObjectV::Real(y) && first.last() == ObjectV::Real(x));
    assert(finite_in(src, Seq::<ObjectV>::empty()) == Some(Seq::<nat>::empty()));
    assert(finite_at(src, ObjectV::Real(x)) == Some(x.bits as nat));
    assert(finite_at(src, ObjectV::Real(y)) == Some(y.bits as nat));
    assert(finite_in(src, first) == Some(Seq::<nat>::empty().push(x.bits as nat)));
    assert(finite_in(src, both) == Some(
        Seq::<nat>::empty().push(x.bits as nat).push(y.bits as nat),
    ));
}

/// Law: which entry says what of a number format.
pub proof fn formats_say_what_is_written(
    src: SourceV,
    d: Map<Seq<char>, ObjectV>,
    unit: Seq<u8>,
    conversion: Real,
    bytes: Seq<u8>,
    f: FractionFormat,
    p: LabelPosition,
    precision: u32,
    b: bool,
)
    requires
        tree::has(d, "U"@, ObjectV::String(unit)),
        tree::has(d, "C"@, ObjectV::Real(conversion)),
    ensures
        format_of(src, d) matches Some(r) && ({
            let text = object::text_chars(bytes);
            let has = |key: Seq<char>, value: ObjectV| tree::has(d, key, value);
            &&& r.unit == object::text_chars(unit)
            &&& r.conversion == conversion.bits
            &&& has("F"@, ObjectV::Name(fraction_name(f))) ==> r.fraction == f
            &&& has("D"@, ObjectV::Int(precision as i64)) ==> r.precision == precision
            &&& has("FD"@, ObjectV::Bool(b)) ==> r.fixed_denominator == b
            &&& has("RT"@, ObjectV::String(bytes)) ==> r.thousands == text
            &&& has("RD"@, ObjectV::String(bytes)) ==> r.radix == text
            &&& has("PS"@, ObjectV::String(bytes)) ==> r.prefix_spacing == text
            &&& has("SS"@, ObjectV::String(bytes)) ==> r.suffix_spacing == text
            &&& has("O"@, ObjectV::Name(position_name(p))) ==> r.label == p
        }),
{
    format_names_are_faithful(f, p, fraction_name(f));
    assert(tree::entry_text(src, d, "U"@) == Some(object::text_chars(unit)));
    assert(tree::entry_number(src, d, "C"@) == Some(conversion.bits as nat));
}

/// Law: which entry says what of a viewport, and that formats and viewports come
/// in the order in which they are written.
pub proof fn viewports_say_what_is_written(
    src: SourceV,
    d: Map<Seq<char>, ObjectV>,
    bytes: Seq<u8>,
    m: Map<Seq<char>, ObjectV>,
    items: Seq<ObjectV>,
)
    ensures
        viewport_of(src, d) matches Some(v) ==> {
            &&& tree::has(d, "Name"@, ObjectV::String(bytes)) ==> v.name == Some(
                object::text_chars(bytes),
            )
            &&& tree::has(d, "Measure"@, ObjectV::Dict(m)) ==> v.measure == Some(
                measure_of(src, m),
            )
            &&& !d.contains_key("Measure"@) ==> v.measure is None
        },
        !d.contains_key("BBox"@) ==> viewport_of(src, d) is None,
        viewport_of(src, d) matches Some(v) ==> viewports_in(src, items.push(ObjectV::Dict(d)))
            == viewports_in(src, items).push(v),
        viewports_in(src, items.push(ObjectV::Null)) == viewports_in(src, items),
        format_of(src, d) matches Some(f) ==> formats_in(src, items.push(ObjectV::Dict(d)))
            == formats_in(src, items).push(f),
        formats_in(src, items.push(ObjectV::Null)) == formats_in(src, items),
{
    assert(items.push(ObjectV::Dict(d)).drop_last() =~= items);
    assert(items.push(ObjectV::Null).drop_last() =~= items);
    assert(tree::dict_at(src, ObjectV::Dict(d)) == Some(d));
    assert(tree::dict_at(src, ObjectV::Null) is None);
}

} // verus!
