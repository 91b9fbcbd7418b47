use fc::page::{bye, hello, HelloTpl, TFormData};
use fc::{Decimal, TUnit, T};

fn reading(value: &str, unit: TUnit) -> T {
    T { value: Decimal::parse(value).unwrap(), unit }
}

fn form(value: &str, unit: Option<&str>) -> TFormData {
    TFormData { value: value.to_string(), unit: unit.map(|u| u.to_string()) }
}

#[test]
fn the_first_page_is_empty() {
    assert_eq!(hello(), HelloTpl { error: "", input: None, output: None });
}

#[test]
fn a_form_with_a_unit_converts_once() {
    assert_eq!(
        bye(&form("23", Some("C"))),
        HelloTpl {
            error: "",
            input: Some(reading("23", TUnit::C)),
            output: Some(vec![reading("73.4", TUnit::F)]),
        }
    );
    assert_eq!(
        bye(&form("73.4", Some("f"))),
        HelloTpl {
            error: "",
            input: Some(reading("73.4", TUnit::F)),
            output: Some(vec![reading("23", TUnit::C)]),
        }
    );
}

#[test]
fn a_form_without_a_unit_converts_both_ways() {
    let expected = HelloTpl {
        error: "",
        input: Some(reading("74", TUnit::Unknown)),
        output: Some(vec![reading("165.2", TUnit::F), reading("23.3", TUnit::C)]),
    };
    assert_eq!(bye(&form("74", None)), expected);
    assert_eq!(bye(&form("74", Some(""))), expected);
}

#[test]
fn a_bad_form_shows_the_error_only() {
    assert_eq!(
        bye(&form("23", Some("K"))),
        HelloTpl { error: "Unit not recognized!", input: None, output: None }
    );
    assert_eq!(
        bye(&form("warm", Some("C"))),
        HelloTpl { error: "Value not a number!", input: None, output: None }
    );
    assert_eq!(
        bye(&form("", None)),
        HelloTpl { error: "Unit not recognized!", input: None, output: None }
    );
    assert_eq!(
        bye(&form("NaN", None)),
        HelloTpl { error: "Unit not recognized!", input: None, output: None }
    );
    assert_eq!(
        bye(&form("inf", None)),
        HelloTpl { error: "Value not a number!", input: None, output: None }
    );
}
