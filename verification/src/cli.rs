//! The command line: what the arguments ask for, and the lines that answer.

use crate::decimal::chars_of;
use crate::error::FcError;
use crate::temperature::{parse_str_to_t, parse_text, Reading, TUnit, T};
use vstd::prelude::*;
use vstd::string::StringExecFns;

verus! {

/// What to print when help is asked for.
pub const HELP_MSG: &'static str = "fc -- convert temperature between Fahrenheit and Celsius
Usage:
fc 32C   # output: 32C => 89.6F
fc 32c   # output: 32C => 89.6F
fc 81f   # output: 81F => 27.2C
fc 81F   # output: 81F => 27.2C
fc 32    # output: 32C => 89.6F; 32F => 0C
fc 81    # output: 81C => 177.8F; 81F => 27.2C
fc -f    # print formula
fc -h    # print this help message";

/// The formula from Fahrenheit to Celsius, as it is printed.
pub const FORMULA_F_TO_C: &'static str = "F to C: (f - 32.0) / 1.8";

/// The formula from Celsius to Fahrenheit, as it is printed.
pub const FORMULA_C_TO_F: &'static str = "C to F: c * 1.8 + 32.0";

/// What a command line asks for.
#[derive(Debug, PartialEq, Eq)]
pub enum CmdLineMode {
    ConvertTemperature(T),
    PrintFormula,
    PrintHelp,
}

/// The argument that asks for help.
pub open spec fn help_flag() -> Seq<char> {
    seq!['-', 'h']
}

/// The argument that asks for the formulas.
pub open spec fn formula_flag() -> Seq<char> {
    seq!['-', 'f']
}

/// Whether the text is a dash followed by the given letter.
pub(crate) fn is_flag(arg: &str, letter: char) -> (r: bool)
    ensures
        r == (arg@ == seq!['-', letter]),
{
    let chars = chars_of(arg);
    let r = chars.len() == 2 && chars[0] == '-' && chars[1] == letter;
    proof {
        if r {
            assert(arg@ =~= seq!['-', letter]);
        } else if arg@.len() == 2 {
            assert(seq!['-', letter][0] == '-');
            assert(seq!['-', letter][1] == letter);
        }
    }
    r
}

/// Reads the command line, the program's name included.
///
/// With one argument behind the program's name, `-h` asks for help, `-f` for
/// the formulas, and anything else is read as a temperature to convert. Any
/// other number of arguments is wrong syntax.
pub fn parse_cmdline(args: &Vec<String>) -> (r: Result<CmdLineMode, FcError>)
    ensures
        args@.len() != 2 ==> r == Err::<CmdLineMode, FcError>(FcError::WrongSyntax),
        args@.len() == 2 && args@[1]@ == help_flag() ==> r == Ok::<CmdLineMode, FcError>(
            CmdLineMode::PrintHelp,
        ),
        args@.len() == 2 && args@[1]@ == formula_flag() ==> r == Ok::<CmdLineMode, FcError>(
            CmdLineMode::PrintFormula,
        ),
        args@.len() == 2 && args@[1]@ != help_flag() && args@[1]@ != formula_flag() ==> match r {
            Ok(CmdLineMode::ConvertTemperature(t)) => parse_text(args@[1]@) == Ok::<
                Reading,
                FcError,
            >(t@),
            Ok(_) => false,
            Err(e) => parse_text(args@[1]@) == Err::<Reading, FcError>(e),
        },
{
    if args.len() != 2 {
        return Err(FcError::WrongSyntax);
    }
    let arg = args[1].as_str();
    if is_flag(arg, 'h') {
        Ok(CmdLineMode::PrintHelp)
    } else if is_flag(arg, 'f') {
        Ok(CmdLineMode::PrintFormula)
    } else {
        match parse_str_to_t(arg) {
            Ok(t) => Ok(CmdLineMode::ConvertTemperature(t)),
            Err(e) => Err(e),
        }
    }
}

/// The unit that an output was converted from.
pub open spec fn source_unit(output: TUnit) -> TUnit {
    match output {
        TUnit::C => TUnit::F,
        _ => TUnit::C,
    }
}

/// The line that reports one conversion: the input with the unit it was read
/// in, an arrow, and the output with its unit.
pub open spec fn line_text(input: Reading, output: Reading) -> Seq<char> {
    input.value.text() + source_unit(output.unit).suffix() + seq![' ', '=', '>', ' ']
        + output.text()
}

/// Writes the line that reports one conversion, such as `32C => 89.6F`.
///
/// The input is shown with the unit that the output was converted from, so
/// that an input of unknown unit reads once as Celsius and once as
/// Fahrenheit.
pub fn conversion_line(input: &T, output: &T) -> (line: String)
    ensures
        line@ == line_text(input@, output@),
{
    proof {
        reveal_strlit("C");
        reveal_strlit("F");
        reveal_strlit(" => ");
    }
    let from: &'static str = match output.unit {
        TUnit::C => "F",
        _ => "C",
    };
    assert(from@ =~= source_unit(output.unit).suffix());
    let mut line = input.value.to_text();
    line.append(from);
    line.append(" => ");
    let shown = output.to_text();
    line.append(shown.as_str());
    proof {
        assert(" => "@ =~= seq![' ', '=', '>', ' ']);
        assert(line@ =~= line_text(input@, output@));
    }
    line
}

} // verus!
