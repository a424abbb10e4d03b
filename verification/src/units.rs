//! Units of length and angle that packets are declared in.
//!
//! Factors to metres are exact fractions; the factor to radians is the nearest
//! double. An unknown unit is refused, never guessed.

use crate::scalar::Scalar;
use crate::text;
use vstd::prelude::*;
use vstd::string::*;

verus! {

#[derive(Clone, Copy, Debug, PartialEq, Eq, Structural)]
pub enum LengthUnit {
    Meter,
    Millimeter,
    Centimeter,
    Foot,
    Inch,
}

/// The length unit that a normalised name stands for.
pub open spec fn length_named(name: Seq<char>) -> Option<LengthUnit> {
    if name == "m"@ || name == "meter"@ || name == "meters"@ || name == "metre"@ || name
        == "metres"@ {
        Some(LengthUnit::Meter)
    } else if name == "mm"@ || name == "millimeter"@ || name == "millimeters"@ || name
        == "millimetre"@ {
        Some(LengthUnit::Millimeter)
    } else if name == "cm"@ || name == "centimeter"@ || name == "centimeters"@ || name
        == "centimetre"@ {
        Some(LengthUnit::Centimeter)
    } else if name == "ft"@ || name == "foot"@ || name == "feet"@ {
        Some(LengthUnit::Foot)
    } else if name == "in"@ || name == "inch"@ || name == "inches"@ {
        Some(LengthUnit::Inch)
    } else {
        None
    }
}

impl LengthUnit {
    pub open spec fn label_spec(self) -> Seq<char> {
        match self {
            LengthUnit::Meter => "m"@,
            LengthUnit::Millimeter => "mm"@,
            LengthUnit::Centimeter => "cm"@,
            LengthUnit::Foot => "ft"@,
            LengthUnit::Inch => "in"@,
        }
    }

    /// Ten-thousandths of a metre in the unit.
    pub open spec fn ten_thousandths(self) -> int {
        match self {
            LengthUnit::Meter => 10_000,
            LengthUnit::Millimeter => 10,
            LengthUnit::Centimeter => 100,
            LengthUnit::Foot => 3_048,
            LengthUnit::Inch => 254,
        }
    }

    /// The unit that a name stands for, whatever its case and surrounding space.
    pub fn parse(s: &str) -> (r: Option<LengthUnit>)
        ensures
            r == length_named(text::normal(s@)),
    {
        let name = text::normal_chars(s);
        if text::holds(&name, "m") || text::holds(&name, "meter") || text::holds(&name, "meters")
            || text::holds(&name, "metre") || text::holds(&name, "metres") {
            Some(LengthUnit::Meter)
        } else if text::holds(&name, "mm") || text::holds(&name, "millimeter") || text::holds(
            &name,
            "millimeters",
        ) || text::holds(&name, "millimetre") {
            Some(LengthUnit::Millimeter)
        } else if text::holds(&name, "cm") || text::holds(&name, "centimeter") || text::holds(
            &name,
            "centimeters",
        ) || text::holds(&name, "centimetre") {
            Some(LengthUnit::Centimeter)
        } else if text::holds(&name, "ft") || text::holds(&name, "foot") || text::holds(
            &name,
            "feet",
        ) {
            Some(LengthUnit::Foot)
        } else if text::holds(&name, "in") || text::holds(&name, "inch") || text::holds(
            &name,
            "inches",
        ) {
            Some(LengthUnit::Inch)
        } else {
            None
        }
    }

    /// Metres in the unit, as a numerator over ten thousand.
    pub fn to_meters(self) -> (r: (u32, u32))
        ensures
            r.0 == self.ten_thousandths(),
            r.1 == 10_000,
    {
        match self {
            LengthUnit::Meter => (10_000, 10_000),
            LengthUnit::Millimeter => (10, 10_000),
            LengthUnit::Centimeter => (100, 10_000),
            LengthUnit::Foot => (3_048, 10_000),
            LengthUnit::Inch => (254, 10_000),
        }
    }

    /// The unit's short name.
    pub fn label(self) -> (r: &'static str)
        ensures
            r@ == self.label_spec(),
    {
        match self {
            LengthUnit::Meter => "m",
            LengthUnit::Millimeter => "mm",
            LengthUnit::Centimeter => "cm",
            LengthUnit::Foot => "ft",
            LengthUnit::Inch => "in",
        }
    }
}

/// A unit's short name stands for the unit.
pub proof fn law_length_label_parses_back(u: LengthUnit)
    ensures
        length_named(text::normal(u.label_spec())) == Some(u),
{
    reveal_strlit("m");
    reveal_strlit("mm");
    reveal_strlit("cm");
    reveal_strlit("ft");
    reveal_strlit("in");
    reveal_strlit("meter");
    reveal_strlit("meters");
    reveal_strlit("metre");
    reveal_strlit("metres");
    reveal_strlit("millimeter");
    reveal_strlit("millimeters");
    reveal_strlit("millimetre");
    reveal_strlit("centimeter");
    reveal_strlit("centimeters");
    reveal_strlit("centimetre");
    reveal_strlit("foot");
    reveal_strlit("feet");
    reveal_strlit("inch");
    reveal_strlit("inches");
    let s = u.label_spec();
    assert(text::trim_start(s) == s);
    assert(text::trim_end(s) == s);
    assert(text::lower(s) =~= s);
}

#[derive(Clone, Copy, Debug, PartialEq, Eq, Structural)]
pub enum AngleUnit {
    Radian,
    Degree,
}

/// The angle unit that a normalised name stands for.
pub open spec fn angle_named(name: Seq<char>) -> Option<AngleUnit> {
    if name == "rad"@ || name == "radian"@ || name == "radians"@ {
        Some(AngleUnit::Radian)
    } else if name == "deg"@ || name == "degree"@ || name == "degrees"@ {
        Some(AngleUnit::Degree)
    } else {
        None
    }
}

impl AngleUnit {
    pub open spec fn label_spec(self) -> Seq<char> {
        match self {
            AngleUnit::Radian => "rad"@,
            AngleUnit::Degree => "deg"@,
        }
    }

    /// The unit that a name stands for, whatever its case and surrounding space.
    pub fn parse(s: &str) -> (r: Option<AngleUnit>)
        ensures
            r == angle_named(text::normal(s@)),
    {
        let name = text::normal_chars(s);
        if text::holds(&name, "rad") || text::holds(&name, "radian") || text::holds(
            &name,
            "radians",
        ) {
            Some(AngleUnit::Radian)
        } else if text::holds(&name, "deg") || text::holds(&name, "degree") || text::holds(
            &name,
            "degrees",
        ) {
            Some(AngleUnit::Degree)
        } else {
            None
        }
    }

    /// Radians in the unit: one, or the double nearest to a half turn over 180.
    pub fn to_radians(self) -> (r: Scalar)
        ensures
            r.bits == match self {
                AngleUnit::Radian => 0x3ff0_0000_0000_0000u64,
                AngleUnit::Degree => 0x3f91_df46_a252_9d39u64,
            },
    {
        match self {
            AngleUnit::Radian => Scalar { bits: 0x3ff0_0000_0000_0000 },
            AngleUnit::Degree => Scalar { bits: 0x3f91_df46_a252_9d39 },
        }
    }

    /// The unit's short name.
    pub fn label(self) -> (r: &'static str)
        ensures
            r@ == self.label_spec(),
    {
        match self {
            AngleUnit::Radian => "rad",
            AngleUnit::Degree => "deg",
        }
    }
}

/// A unit's short name stands for the unit.
pub proof fn law_angle_label_parses_back(u: AngleUnit)
    ensures
        angle_named(text::normal(u.label_spec())) == Some(u),
{
    reveal_strlit("rad");
    reveal_strlit("radian");
    reveal_strlit("radians");
    reveal_strlit("deg");
    reveal_strlit("degree");
    reveal_strlit("degrees");
    let s = u.label_spec();
    assert(text::trim_start(s) == s);
    assert(text::trim_end(s) == s);
    assert(text::lower(s) =~= s);
}

/// The units declared on a packet.
#[derive(Clone, Copy, Debug, PartialEq, Eq, Structural)]
pub struct UnitSpec {
    pub length: LengthUnit,
    pub angle: AngleUnit,
}

impl UnitSpec {
    /// Metres and radians.
    pub fn si() -> (r: UnitSpec)
        ensures
            r.length == LengthUnit::Meter,
            r.angle == AngleUnit::Radian,
    {
        UnitSpec { length: LengthUnit::Meter, angle: AngleUnit::Radian }
    }
}

/// The units keep their proportions: a metre is a hundred centimetres and a thousand
/// millimetres, a foot is twelve inches, and a hundred inches are 254 centimetres.
pub proof fn law_lengths_keep_their_proportions()
    ensures
        LengthUnit::Meter.ten_thousandths() == 10_000,
        LengthUnit::Meter.ten_thousandths() == 100 * LengthUnit::Centimeter.ten_thousandths(),
        LengthUnit::Meter.ten_thousandths() == 1_000 * LengthUnit::Millimeter.ten_thousandths(),
        LengthUnit::Foot.ten_thousandths() == 12 * LengthUnit::Inch.ten_thousandths(),
        100 * LengthUnit::Inch.ten_thousandths() == 254 * LengthUnit::Centimeter.ten_thousandths(),
{
}

/// Every length unit is known by these names, and by no others.
pub proof fn law_names_of_length_units(name: Seq<char>)
    ensures
        length_named(name) == Some(LengthUnit::Meter) <==> name == "m"@ || name == "meter"@ || name
            == "meters"@ || name == "metre"@ || name == "metres"@,
        length_named(name) == Some(LengthUnit::Millimeter) <==> name == "mm"@ || name
            == "millimeter"@ || name == "millimeters"@ || name == "millimetre"@,
        length_named(name) == Some(LengthUnit::Centimeter) <==> name == "cm"@ || name
            == "centimeter"@ || name == "centimeters"@ || name == "centimetre"@,
        length_named(name) == Some(LengthUnit::Foot) <==> name == "ft"@ || name == "foot"@ || name
            == "feet"@,
        length_named(name) == Some(LengthUnit::Inch) <==> name == "in"@ || name == "inch"@ || name
            == "inches"@,
{
    reveal_strlit("m");
    reveal_strlit("mm");
    reveal_strlit("cm");
    reveal_strlit("ft");
    reveal_strlit("in");
    reveal_strlit("meter");
    reveal_strlit("meters");
    reveal_strlit("metre");
    reveal_strlit("metres");
    reveal_strlit("millimeter");
    reveal_strlit("millimeters");
    reveal_strlit("millimetre");
    reveal_strlit("centimeter");
    reveal_strlit("centimeters");
    reveal_strlit("centimetre");
    reveal_strlit("foot");
    reveal_strlit("feet");
    reveal_strlit("inch");
    reveal_strlit("inches");
    // Names of different units differ in one of their first two letters.
    if name.len() > 1 {
        let first = name[0];
        let second = name[1];
    }
}

/// Every angle unit is known by these names, and by no others.
pub proof fn law_names_of_angle_units(name: Seq<char>)
    ensures
        angle_named(name) == Some(AngleUnit::Radian) <==> name == "rad"@ || name == "radian"@ || name
            == "radians"@,
        angle_named(name) == Some(AngleUnit::Degree) <==> name == "deg"@ || name == "degree"@ || name
            == "degrees"@,
{
    reveal_strlit("rad");
    reveal_strlit("radian");
    reveal_strlit("radians");
    reveal_strlit("deg");
    reveal_strlit("degree");
    reveal_strlit("degrees");
    let first = name[0];
}

} // verus!
