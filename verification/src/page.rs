//! The web form: what was submitted, and what the page shows in answer.

use crate::cli::{help_flag, is_flag};
use crate::temperature::{convert, parse_str_to_t, parse_text, T};
use vstd::prelude::*;
use vstd::string::StringExecFns;

verus! {

/// What to print when help is asked for, or when the command line cannot
/// be read.
pub const HELP_MSG: &'static str = "fcweb -- a web app for temperature conversions.

Usage:
fcweb                    # default to 127.0.0.1:8080
fcweb 192.168.12.1:8881  # bind webapp to IP address and port
fcweb -h                 # print this help message";

/// What the command line of the web app asks for.
#[derive(Debug, PartialEq, Eq)]
pub enum CmdLineMode {
    /// Serve at the default address.
    DefaultSocketAddr,
    /// Serve at the address that this text names.
    CustomSocketAddr(String),
    /// Print the message and stop.
    PrintMsg(String),
}

/// Reads the command line of the web app, the program's name included.
///
/// Without an argument the app serves at its default address. One argument
/// is `-h` for help, or else the address to serve at. Anything more gets the
/// help message.
pub fn parse_cmdline(args: &Vec<String>) -> (mode: CmdLineMode)
    ensures
        args@.len() == 1 ==> mode == CmdLineMode::DefaultSocketAddr,
        args@.len() == 2 && args@[1]@ != help_flag() ==> mode is CustomSocketAddr
            && mode->CustomSocketAddr_0@ == args@[1]@,
        args@.len() != 1 && !(args@.len() == 2 && args@[1]@ != help_flag()) ==> mode is PrintMsg
            && mode->PrintMsg_0@ == HELP_MSG@,
{
    if args.len() == 1 {
        CmdLineMode::DefaultSocketAddr
    } else if args.len() == 2 && !is_flag(args[1].as_str(), 'h') {
        CmdLineMode::CustomSocketAddr(args[1].clone())
    } else {
        CmdLineMode::PrintMsg(String::from_str(HELP_MSG))
    }
}

/// The message for an argument that names no address.
pub fn address_error(arg: &str) -> (message: String)
    ensures
        message@ == "Error: Unable to parse "@ + arg@ + " to socket address"@,
{
    let mut message = String::from_str("Error: Unable to parse ");
    message.append(arg);
    message.append(" to socket address");
    message
}

/// A submitted form: the value as it was typed, and the unit if one was
/// chosen.
#[derive(Debug, PartialEq, Eq)]
pub struct TFormData {
    pub value: String,
    pub unit: Option<String>,
}

impl TFormData {
    /// The text that is read as a temperature: the value with the unit
    /// behind it.
    pub open spec fn token(self) -> Seq<char> {
        match self.unit {
            Some(unit) => self.value@ + unit@,
            None => self.value@,
        }
    }
}

/// What the page shows: an error message or nothing, and, after a
/// conversion, the temperature that was read and what it converts to.
#[derive(Debug, PartialEq, Eq)]
pub struct HelloTpl {
    pub error: &'static str,
    pub input: Option<T>,
    pub output: Option<Vec<T>>,
}

/// The page before anything was submitted: no error, no input, no output.
pub fn hello() -> (page: HelloTpl)
    ensures
        page.error@ == Seq::<char>::empty(),
        page.input is None,
        page.output is None,
{
    proof {
        reveal_strlit("");
    }
    let page = HelloTpl { error: "", input: None, output: None };
    assert(page.error@ =~= Seq::<char>::empty());
    page
}

/// The page in answer to a submitted form.
///
/// The value and the unit are joined and read as a temperature. Where that
/// succeeds the page shows the temperature and its conversions, and no
/// error; where it fails the page shows the message of the error and nothing
/// else.
pub fn bye(params: &TFormData) -> (page: HelloTpl)
    ensures
        match parse_text(params.token()) {
            Ok(reading) => {
                &&& page.error@ == Seq::<char>::empty()
                &&& page.input is Some
                &&& page.input->0@ == reading
                &&& page.output is Some
                &&& page.output->0@.len() == reading.convert().len()
                &&& forall|i: int|
                    0 <= i < reading.convert().len() ==> (#[trigger] page.output->0@[i])@
                        == reading.convert()[i]
            },
            Err(e) => {
                &&& page.error@ == e.message()
                &&& page.input is None
                &&& page.output is None
            },
        },
{
    proof {
        reveal_strlit("");
    }
    let mut token = params.value.clone();
    match &params.unit {
        Some(unit) => {
            token.append(unit.as_str());
        },
        None => {},
    }
    assert(token@ =~= params.token());
    match parse_str_to_t(token.as_str()) {
        Ok(t) => {
            let shown = t.clone();
            let output = convert(t);
            let page = HelloTpl { error: "", input: Some(shown), output: Some(output) };
            assert(page.error@ =~= Seq::<char>::empty());
            page
        },
        Err(e) => HelloTpl { error: e.to_str(), input: None, output: None },
    }
}

} // verus!
