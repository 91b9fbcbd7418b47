use fc::{parse_str_to_t, Decimal, FcError, TUnit, T};

fn reading(value: &str, unit: TUnit) -> T {
    T { value: Decimal::parse(value).unwrap(), unit }
}

#[test]
fn fc_lib_parse_string_ok_lowercase_f() {
    assert!(parse_str_to_t("65f").is_ok());
}

#[test]
fn fc_lib_parse_string_ok_uppercase_f() {
    assert!(parse_str_to_t("65F").is_ok());
}

#[test]
fn fc_lib_parse_string_ok_lowercase_c() {
    assert!(parse_str_to_t("23c").is_ok());
}

#[test]
fn fc_lib_parse_string_ok_uppercase_c() {
    assert!(parse_str_to_t("23C").is_ok());
}

#[test]
fn fc_lib_parse_string_ok_no_unit() {
    assert!(parse_str_to_t("30.4").is_ok());
}

#[test]
fn fc_lib_parse_string_err_invalid() {
    match parse_str_to_t("Not even a string") {
        Err(FcError::UnitNotRecognized) => {}
        other => panic!("Expect {:?}, but got {:?} instead", FcError::UnitNotRecognized, other),
    }
}

#[test]
fn fc_lib_parse_string_err_invalid2() {
    match parse_str_to_t("38E") {
        Err(FcError::UnitNotRecognized) => {}
        other => panic!("Expect {:?}, but got {:?} instead", FcError::UnitNotRecognized, other),
    }
}

#[test]
fn fc_lib_parse_string_err_invalid3() {
    match parse_str_to_t("InvalidC") {
        Err(FcError::ValueNotANumber) => {}
        other => panic!("Expect {:?}, but got {:?} instead", FcError::ValueNotANumber, other),
    }
}

#[test]
fn fc_lib_parse_string_err_invalid4() {
    match parse_str_to_t("Invalidf") {
        Err(FcError::ValueNotANumber) => {}
        other => panic!("Expect {:?}, but got {:?} instead", FcError::ValueNotANumber, other),
    }
}

#[test]
fn lib_parse_string_ok_lowercase_f() {
    assert_eq!(parse_str_to_t("65f"), Ok(reading("65", TUnit::F)));
}

#[test]
fn lib_parse_string_ok_uppercase_f() {
    assert_eq!(parse_str_to_t("65F"), Ok(reading("65", TUnit::F)));
}

#[test]
fn lib_parse_string_ok_lowercase_c() {
    assert_eq!(parse_str_to_t("23c"), Ok(reading("23", TUnit::C)));
}

#[test]
fn lib_parse_string_ok_uppercase_c() {
    assert_eq!(parse_str_to_t("23C"), Ok(reading("23", TUnit::C)));
}

#[test]
fn lib_parse_string_ok_no_unit() {
    assert_eq!(parse_str_to_t("30.4"), Ok(reading("30.4", TUnit::Unknown)));
}

#[test]
fn lib_parse_string_err_invalid() {
    match parse_str_to_t("Not even a string") {
        Err(FcError::UnitNotRecognized) => {}
        other => panic!("Expect {:?}, but got {:?} instead", FcError::UnitNotRecognized, other),
    }
}

#[test]
fn lib_parse_string_err_invalid2() {
    match parse_str_to_t("38E") {
        Err(FcError::UnitNotRecognized) => {}
        other => panic!("Expect {:?}, but got {:?} instead", FcError::UnitNotRecognized, other),
    }
}

#[test]
fn lib_parse_string_err_invalid3() {
    match parse_str_to_t("InvalidC") {
        Err(FcError::ValueNotANumber) => {}
        other => panic!("Expect {:?}, but got {:?} instead", FcError::ValueNotANumber, other),
    }
}

#[test]
fn lib_parse_string_err_invalid4() {
    match parse_str_to_t("Invalidf") {
        Err(FcError::ValueNotANumber) => {}
        other => panic!("Expect {:?}, but got {:?} instead", FcError::ValueNotANumber, other),
    }
}

#[test]
fn main_parse_string_ok_lowercase_f() {
    let t = parse_str_to_t("81f").unwrap();
    assert_eq!(t.unit, TUnit::F);
    assert_eq!(t.value.to_text(), "81");
}

#[test]
fn main_parse_string_ok_uppercase_f() {
    let t = parse_str_to_t("81F").unwrap();
    assert_eq!(t.unit, TUnit::F);
    assert_eq!(t.value.to_text(), "81");
}

#[test]
fn main_parse_string_ok_lowercase_c() {
    let t = parse_str_to_t("32c").unwrap();
    assert_eq!(t.unit, TUnit::C);
    assert_eq!(t.value.to_text(), "32");
}

#[test]
fn main_parse_string_ok_uppercase_c() {
    let t = parse_str_to_t("32C").unwrap();
    assert_eq!(t.unit, TUnit::C);
    assert_eq!(t.value.to_text(), "32");
}

#[test]
fn main_parse_string_ok_no_unit() {
    let t = parse_str_to_t("32").unwrap();
    assert_eq!(t.unit, TUnit::Unknown);
    assert_eq!(t.value.to_text(), "32");
}

#[test]
fn main_parse_string_err_invalid() {
    assert_eq!(parse_str_to_t("30INVALID"), Err(FcError::UnitNotRecognized));
}

#[test]
fn main_parse_string_err_invalid2() {
    assert_eq!(parse_str_to_t("abc"), Err(FcError::ValueNotANumber));
}

#[test]
fn parse_reads_each_unit_letter() {
    assert_eq!(parse_str_to_t("23C"), Ok(reading("23.0", TUnit::C)));
    assert_eq!(parse_str_to_t("23c"), Ok(reading("23.0", TUnit::C)));
    assert_eq!(parse_str_to_t("74F"), Ok(reading("74.0", TUnit::F)));
    assert_eq!(parse_str_to_t("74f"), Ok(reading("74.0", TUnit::F)));
    assert_eq!(parse_str_to_t("74"), Ok(reading("74.0", TUnit::Unknown)));
}

#[test]
fn parse_rejects_the_empty_text() {
    assert_eq!(parse_str_to_t(""), Err(FcError::UnitNotRecognized));
}

#[test]
fn parse_rejects_a_unit_without_a_number() {
    assert_eq!(parse_str_to_t("c"), Err(FcError::ValueNotANumber));
    assert_eq!(parse_str_to_t("F"), Err(FcError::ValueNotANumber));
    assert_eq!(parse_str_to_t("-c"), Err(FcError::ValueNotANumber));
    assert_eq!(parse_str_to_t(".f"), Err(FcError::ValueNotANumber));
    assert_eq!(parse_str_to_t("+.f"), Err(FcError::ValueNotANumber));
}

#[test]
fn parse_takes_a_sign_and_a_fraction() {
    assert_eq!(parse_str_to_t("-40c"), Ok(reading("-40", TUnit::C)));
    assert_eq!(parse_str_to_t("+40c"), Ok(reading("40", TUnit::C)));
    assert_eq!(parse_str_to_t("98.6f"), Ok(reading("98.6", TUnit::F)));
    assert_eq!(parse_str_to_t(".5c"), Ok(reading("0.5", TUnit::C)));
    assert_eq!(parse_str_to_t("5.c"), Ok(reading("5", TUnit::C)));
    assert_eq!(parse_str_to_t("-0.50"), Ok(reading("-0.5", TUnit::Unknown)));
}

#[test]
fn parse_rejects_what_is_no_decimal_numeral() {
    assert_eq!(parse_str_to_t("1.2.3c"), Err(FcError::ValueNotANumber));
    assert_eq!(parse_str_to_t("--1c"), Err(FcError::ValueNotANumber));
    assert_eq!(parse_str_to_t("1-1c"), Err(FcError::ValueNotANumber));
    assert_eq!(parse_str_to_t("1 c"), Err(FcError::ValueNotANumber));
    assert_eq!(parse_str_to_t(" 1c"), Err(FcError::ValueNotANumber));
    assert_eq!(parse_str_to_t("1e3c"), Err(FcError::ValueNotANumber));
    assert_eq!(parse_str_to_t("infc"), Err(FcError::ValueNotANumber));
    assert_eq!(parse_str_to_t("nanf"), Err(FcError::ValueNotANumber));
    assert_eq!(parse_str_to_t("1."), Err(FcError::UnitNotRecognized));
    assert_eq!(parse_str_to_t("23°"), Err(FcError::UnitNotRecognized));
    assert_eq!(parse_str_to_t("2٣"), Err(FcError::UnitNotRecognized));
}

#[test]
fn parse_keeps_every_digit() {
    let t = parse_str_to_t("123456789012345678901234567890.000000000000000000000000000001c").unwrap();
    assert_eq!(t.unit, TUnit::C);
    assert_eq!(
        t.value.to_text(),
        "123456789012345678901234567890.000000000000000000000000000001"
    );
}

#[test]
fn equal_numbers_are_equal_values() {
    assert_eq!(Decimal::parse("23"), Decimal::parse("23.0"));
    assert_eq!(Decimal::parse("023.00"), Decimal::parse("+23"));
    assert_eq!(Decimal::parse("-0"), Decimal::parse("0"));
    assert_eq!(Decimal::parse("-0.0"), Decimal::parse("+.0"));
    assert_ne!(Decimal::parse("23"), Decimal::parse("-23"));
    assert_ne!(Decimal::parse("23"), Decimal::parse("2.3"));
}

#[test]
fn text_is_the_shortest_form() {
    assert_eq!(Decimal::parse("007.500").unwrap().to_text(), "7.5");
    assert_eq!(Decimal::parse("-.25").unwrap().to_text(), "-0.25");
    assert_eq!(Decimal::parse("-0").unwrap().to_text(), "0");
    assert_eq!(Decimal::parse("100").unwrap().to_text(), "100");
    assert_eq!(Decimal::parse("0.001").unwrap().to_text(), "0.001");
    assert_eq!(Decimal::parse("10.01").unwrap().to_text(), "10.01");
}

#[test]
fn text_reads_back_as_the_same_temperature() {
    for value in ["0", "-0.5", "23", "98.6", "-459.67", "1000000.000001"] {
        for unit in [TUnit::C, TUnit::F, TUnit::Unknown] {
            let t = reading(value, unit);
            let text = format!("{}{}", t.value.to_text(), t.unit());
            assert_eq!(parse_str_to_t(&text), Ok(t));
        }
    }
}

#[test]
fn a_temperature_is_written_with_its_unit() {
    assert_eq!(reading("23.50", TUnit::C).to_text(), "23.5C");
    assert_eq!(reading("-40", TUnit::F).to_text(), "-40F");
    assert_eq!(reading("74", TUnit::Unknown).to_text(), "74");
    for text in ["23.5C", "-40F", "0.001C", "74", "-0.5"] {
        assert_eq!(parse_str_to_t(text).unwrap().to_text(), text);
    }
}

#[test]
fn error_messages_are_fixed() {
    assert_eq!(FcError::UnitNotRecognized.to_str(), "Unit not recognized!");
    assert_eq!(FcError::ValueNotANumber.to_str(), "Value not a number!");
    assert_eq!(FcError::WrongSyntax.to_str(), "Wrong syntax!");
}

#[test]
fn unit_names_and_letters() {
    assert_eq!(TUnit::F.to_str(), "F");
    assert_eq!(TUnit::C.to_str(), "C");
    assert_eq!(TUnit::Unknown.to_str(), "Unknown");
    assert_eq!(reading("1", TUnit::F).unit(), "F");
    assert_eq!(reading("1", TUnit::C).unit(), "C");
    assert_eq!(reading("1", TUnit::Unknown).unit(), "");
    assert_eq!(reading("1.5", TUnit::C).value(), &Decimal::parse("1.5").unwrap());
}
