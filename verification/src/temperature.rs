//! Temperatures: a decimal value with the unit it is measured in.

use crate::decimal::{chars_of, Decimal};
use crate::error::FcError;
use crate::exact::{decimal_of_text, is_digit, Exact};
use vstd::prelude::*;
use vstd::std_specs::cmp::PartialEqSpecImpl;
use vstd::string::StringExecFns;

verus! {

/// Temperature unit.
#[derive(Debug, Copy, Clone, PartialEq, Eq, Structural)]
pub enum TUnit {
    /// Fahrenheit
    F,
    /// Celsius
    C,
    /// Not specified in input
    Unknown,
}

impl TUnit {
    /// The letter written behind a value in this unit; none where the unit is
    /// not known.
    pub open spec fn suffix(self) -> Seq<char> {
        match self {
            TUnit::F => seq!['F'],
            TUnit::C => seq!['C'],
            TUnit::Unknown => Seq::<char>::empty(),
        }
    }

    /// The name of the unit.
    pub open spec fn name(self) -> Seq<char> {
        match self {
            TUnit::F => "F"@,
            TUnit::C => "C"@,
            TUnit::Unknown => "Unknown"@,
        }
    }

    /// The name of the unit, as it is shown.
    pub fn to_str(&self) -> (text: &'static str)
        ensures
            text@ == self.name(),
    {
        match self {
            TUnit::F => "F",
            TUnit::C => "C",
            TUnit::Unknown => "Unknown",
        }
    }
}

/// What a [`T`] stands for: a number and its unit.
pub struct Reading {
    pub value: Exact,
    pub unit: TUnit,
}

impl Reading {
    /// This temperature in Celsius, rounded to one decimal place. A Celsius
    /// reading stays as it is, and is not rounded.
    pub open spec fn to_c(self) -> Reading {
        if self.unit == TUnit::C {
            self
        } else {
            Reading { value: self.value.to_celsius(), unit: TUnit::C }
        }
    }

    /// This temperature in Fahrenheit, rounded to one decimal place. A
    /// Fahrenheit reading stays as it is, and is not rounded.
    pub open spec fn to_f(self) -> Reading {
        if self.unit == TUnit::F {
            self
        } else {
            Reading { value: self.value.to_fahrenheit(), unit: TUnit::F }
        }
    }

    /// The readings that this one converts to: the other unit, or, where the
    /// unit is not known, Fahrenheit first and Celsius second.
    pub open spec fn convert(self) -> Seq<Reading> {
        match self.unit {
            TUnit::F => seq![self.to_c()],
            TUnit::C => seq![self.to_f()],
            TUnit::Unknown => seq![self.to_f(), self.to_c()],
        }
    }

    /// The written form: the value and the letter of the unit.
    pub open spec fn text(self) -> Seq<char> {
        self.value.text() + self.unit.suffix()
    }
}

/// The unit that the last character of an input stands for: a unit letter in
/// either case, or a digit where the unit was left out.
pub open spec fn unit_of(last: char) -> Option<TUnit> {
    if last == 'c' || last == 'C' {
        Some(TUnit::C)
    } else if last == 'f' || last == 'F' {
        Some(TUnit::F)
    } else if is_digit(last) {
        Some(TUnit::Unknown)
    } else {
        None
    }
}

/// The temperature that a text stands for, or the reason why it stands for
/// none.
///
/// The last character gives the unit. What is in front of a unit letter, or
/// the whole text where the unit was left out, has to be a decimal numeral.
/// The empty text has no unit.
pub open spec fn parse_text(s: Seq<char>) -> Result<Reading, FcError> {
    if s.len() == 0 {
        Err(FcError::UnitNotRecognized)
    } else {
        match unit_of(s.last()) {
            None => Err(FcError::UnitNotRecognized),
            Some(unit) => {
                let numeral = if unit == TUnit::Unknown {
                    s
                } else {
                    s.drop_last()
                };
                match decimal_of_text(numeral) {
                    Some(value) => Ok(Reading { value, unit }),
                    None => Err(FcError::ValueNotANumber),
                }
            },
        }
    }
}

/// Temperature: an exact decimal value and its unit. Two temperatures are
/// equal if they are the same number in the same unit.
#[derive(Debug)]
pub struct T {
    pub value: Decimal,
    pub unit: TUnit,
}

impl View for T {
    type V = Reading;

    open spec fn view(&self) -> Reading {
        Reading { value: self.value@, unit: self.unit }
    }
}

impl PartialEq for T {
    /// Whether the two are the same number in the same unit.
    fn eq(&self, other: &Self) -> (r: bool) {
        self.unit == other.unit && self.value == other.value
    }
}

impl Eq for T {}

impl PartialEqSpecImpl for T {
    open spec fn obeys_eq_spec() -> bool {
        true
    }

    open spec fn eq_spec(&self, other: &T) -> bool {
        self@ == other@
    }
}

impl Clone for T {
    fn clone(&self) -> (r: Self)
        ensures
            r@ == self@,
            r@.value.canonical(),
    {
        T { value: self.value.clone(), unit: self.unit }
    }
}

impl T {
    /// This temperature in Celsius: `(f - 32) / 1.8`, rounded to one decimal
    /// place with a tie going away from zero. A value of unknown unit is
    /// taken as Fahrenheit. A Celsius value comes back as it is, unrounded.
    pub fn to_c(&self) -> (r: T)
        ensures
            r@ == self@.to_c(),
            self.unit == TUnit::C ==> r@ == self@,
            r@.value.canonical(),
    {
        match self.unit {
            TUnit::C => self.clone(),
            _ => T { value: self.value.affine_tenths(10, 320, true, 18), unit: TUnit::C },
        }
    }

    /// This temperature in Fahrenheit: `c * 1.8 + 32`, rounded to one decimal
    /// place with a tie going away from zero. A value of unknown unit is
    /// taken as Celsius. A Fahrenheit value comes back as it is, unrounded.
    pub fn to_f(&self) -> (r: T)
        ensures
            r@ == self@.to_f(),
            self.unit == TUnit::F ==> r@ == self@,
            r@.value.canonical(),
    {
        match self.unit {
            TUnit::F => self.clone(),
            _ => T { value: self.value.affine_tenths(18, 320, false, 10), unit: TUnit::F },
        }
    }

    /// The letter of the unit, or the empty text where the unit is not known.
    pub fn unit(&self) -> (r: &'static str)
        ensures
            r@ == self.unit.suffix(),
    {
        proof {
            reveal_strlit("C");
            reveal_strlit("F");
            reveal_strlit("");
        }
        let r = match self.unit {
            TUnit::C => "C",
            TUnit::F => "F",
            TUnit::Unknown => "",
        };
        assert(r@ =~= self.unit.suffix());
        r
    }

    /// The value, whatever the unit.
    pub fn value(&self) -> (r: &Decimal)
        ensures
            *r == self.value,
    {
        &self.value
    }

    /// The written form: the value and, where the unit is known, its letter.
    pub fn to_text(&self) -> (r: String)
        ensures
            r@ == self@.text(),
            self@.value.canonical(),
    {
        let mut text = self.value.to_text();
        text.append(self.unit());
        text
    }
}

/// Parse a string input (string slice) to a temperature (T).
///
/// `23C` and `23c` are 23 degrees Celsius, `74F` and `74f` are 74 degrees
/// Fahrenheit, and `74` is 74 degrees of an unknown unit.
pub fn parse_str_to_t(arg: &str) -> (r: Result<T, FcError>)
    ensures
        match r {
            Ok(t) => parse_text(arg@) == Ok::<Reading, FcError>(t@) && t@.value.canonical(),
            Err(e) => parse_text(arg@) == Err::<Reading, FcError>(e),
        },
{
    let chars = chars_of(arg);
    let n = chars.len();
    if n == 0 {
        return Err(FcError::UnitNotRecognized);
    }
    let last = chars[n - 1];
    let unit = if last == 'c' || last == 'C' {
        TUnit::C
    } else if last == 'f' || last == 'F' {
        TUnit::F
    } else if '0' <= last && last <= '9' {
        TUnit::Unknown
    } else {
        return Err(FcError::UnitNotRecognized);
    };
    let end: usize = match unit {
        TUnit::Unknown => n,
        _ => n - 1,
    };
    proof {
        assert(chars@.take(n as int) =~= arg@);
        assert(chars@.take(n - 1) =~= arg@.drop_last());
    }
    match Decimal::from_chars(&chars, end) {
        Some(value) => Ok(T { value, unit }),
        None => Err(FcError::ValueNotANumber),
    }
}

/// Convert an input temperature to one or more output temperatures.
///
/// A Fahrenheit input gives its Celsius reading and a Celsius input its
/// Fahrenheit reading. An input of unknown unit gives both: what it is in
/// Fahrenheit if it was Celsius, then what it is in Celsius if it was
/// Fahrenheit.
pub fn convert(input: T) -> (r: Vec<T>)
    ensures
        r@.len() == input@.convert().len(),
        forall|i: int| 0 <= i < r@.len() ==> (#[trigger] r@[i])@ == input@.convert()[i],
        forall|i: int| 0 <= i < r@.len() ==> (#[trigger] r@[i])@.value.canonical(),
{
    match input.unit {
        TUnit::F => vec![input.to_c()],
        TUnit::C => vec![input.to_f()],
        TUnit::Unknown => vec![input.to_f(), input.to_c()],
    }
}

} // verus!
