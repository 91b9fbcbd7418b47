use fc::cli::{conversion_line, parse_cmdline, CmdLineMode, FORMULA_C_TO_F, FORMULA_F_TO_C, HELP_MSG};
use fc::{convert, parse_str_to_t, Decimal, FcError, TUnit, T};

#[test]
fn fc_parse_cmdline_ok_help_mesg() {
    match parse_cmdline(&vec!["fc".to_string(), "-h".into()]) {
        Ok(CmdLineMode::PrintHelp) => {}
        actual => panic!("Expect {:?}, got {:?} instead", CmdLineMode::PrintHelp, actual),
    }
}

#[test]
fn fc_parse_cmdline_ok_print_formula() {
    match parse_cmdline(&vec!["fc".to_string(), "-f".into()]) {
        Ok(CmdLineMode::PrintFormula) => {}
        actual => panic!("Expect {:?}, got {:?} instead", CmdLineMode::PrintFormula, actual),
    }
}

#[test]
fn fc_parse_cmdline_err_too_little_params() {
    match parse_cmdline(&vec!["fc".to_string()]) {
        Err(FcError::WrongSyntax) => {}
        actual => panic!("Expect {:?}, got {:?} instead", FcError::WrongSyntax, actual),
    }
}

#[test]
fn fc_parse_cmdline_err_too_many_params() {
    match parse_cmdline(&vec!["fc".to_string(), "blah".into(), "blob".into()]) {
        Err(FcError::WrongSyntax) => {}
        actual => panic!("Expect {:?}, got {:?} instead", FcError::WrongSyntax, actual),
    }
}

#[test]
fn main_parse_cmdline_ok_help_mesg() {
    assert_eq!(
        parse_cmdline(&vec!["fc".to_string(), "-h".to_string()]),
        Ok(CmdLineMode::PrintHelp)
    );
}

#[test]
fn main_parse_cmdline_ok_print_formula() {
    assert_eq!(
        parse_cmdline(&vec!["fc".to_string(), "-f".to_string()]),
        Ok(CmdLineMode::PrintFormula)
    );
}

#[test]
fn main_parse_cmdline_err_too_little_params() {
    assert_eq!(parse_cmdline(&vec!["fc".to_string()]), Err(FcError::WrongSyntax));
    assert_eq!(parse_cmdline(&vec![]), Err(FcError::WrongSyntax));
}

#[test]
fn main_parse_cmdline_err_too_many_params() {
    assert_eq!(
        parse_cmdline(&vec!["fc".to_string(), "32C".to_string(), "81F".to_string()]),
        Err(FcError::WrongSyntax)
    );
    assert_eq!(
        parse_cmdline(&vec!["fc".to_string(), "-h".to_string(), "-f".to_string()]),
        Err(FcError::WrongSyntax)
    );
}

#[test]
fn cmdline_reads_a_temperature() {
    assert_eq!(
        parse_cmdline(&vec!["fc".to_string(), "32C".to_string()]),
        Ok(CmdLineMode::ConvertTemperature(T {
            value: Decimal::parse("32").unwrap(),
            unit: TUnit::C
        }))
    );
    assert_eq!(
        parse_cmdline(&vec!["fc".to_string(), "-40".to_string()]),
        Ok(CmdLineMode::ConvertTemperature(T {
            value: Decimal::parse("-40").unwrap(),
            unit: TUnit::Unknown
        }))
    );
}

#[test]
fn cmdline_hands_on_the_error_of_the_temperature() {
    assert_eq!(
        parse_cmdline(&vec!["fc".to_string(), "32K".to_string()]),
        Err(FcError::UnitNotRecognized)
    );
    assert_eq!(
        parse_cmdline(&vec!["fc".to_string(), "warmC".to_string()]),
        Err(FcError::ValueNotANumber)
    );
    assert_eq!(
        parse_cmdline(&vec!["fc".to_string(), "-H".to_string()]),
        Err(FcError::UnitNotRecognized)
    );
    assert_eq!(
        parse_cmdline(&vec!["fc".to_string(), "".to_string()]),
        Err(FcError::UnitNotRecognized)
    );
    assert_eq!(
        parse_cmdline(&vec!["fc".to_string(), "-F".to_string()]),
        Err(FcError::ValueNotANumber)
    );
}

#[test]
fn lines_name_the_unit_that_was_converted_from() {
    let lines = |arg: &str| -> Vec<String> {
        let input = parse_str_to_t(arg).unwrap();
        convert(input.clone()).iter().map(|output| conversion_line(&input, output)).collect()
    };
    assert_eq!(lines("32C"), vec!["32C => 89.6F"]);
    assert_eq!(lines("32c"), vec!["32C => 89.6F"]);
    assert_eq!(lines("81f"), vec!["81F => 27.2C"]);
    assert_eq!(lines("81F"), vec!["81F => 27.2C"]);
    assert_eq!(lines("32"), vec!["32C => 89.6F", "32F => 0C"]);
    assert_eq!(lines("81"), vec!["81C => 177.8F", "81F => 27.2C"]);
    assert_eq!(lines("-40.0"), vec!["-40C => -40F", "-40F => -40C"]);
    assert_eq!(lines("98.60f"), vec!["98.6F => 37C"]);
}

#[test]
fn fixed_texts() {
    assert_eq!(FORMULA_F_TO_C, "F to C: (f - 32.0) / 1.8");
    assert_eq!(FORMULA_C_TO_F, "C to F: c * 1.8 + 32.0");
    assert!(HELP_MSG.starts_with("fc -- convert temperature between Fahrenheit and Celsius"));
    assert!(HELP_MSG.contains("fc -h    # print this help message"));
    assert!(HELP_MSG.contains("fc -f    # print formula"));
}
