use fc::{convert, Decimal, TUnit, T};

fn reading(value: &str, unit: TUnit) -> T {
    T { value: Decimal::parse(value).unwrap(), unit }
}

fn as_float(value: &Decimal) -> f32 {
    value.to_text().parse::<f32>().unwrap()
}

#[test]
fn fc_lib_convert_ok_from_c() {
    let actual = convert(reading("23.0", TUnit::C));
    assert_eq!(1, actual.len());
    assert_eq!(reading("73.4", TUnit::F), actual[0]);
}

#[test]
fn fc_lib_convert_ok_from_f() {
    let actual = convert(reading("73.4", TUnit::F));
    assert_eq!(1, actual.len());
    assert_eq!(reading("23.0", TUnit::C), actual[0]);
}

#[test]
fn fc_lib_convert_ok_from_unknown() {
    let actual = convert(reading("73.4", TUnit::Unknown));
    assert_eq!(2, actual.len());
    assert_eq!(reading("164.1", TUnit::F), actual[0]);
    assert_eq!(reading("23.0", TUnit::C), actual[1]);
}

#[test]
fn lib_convert_ok_from_c() {
    let actual = convert(T { value: Decimal::parse("23.0").unwrap(), unit: TUnit::C });
    assert_eq!(1, actual.len());
    assert_eq!(T { value: Decimal::parse("73.4").unwrap(), unit: TUnit::F }, actual[0]);
}

#[test]
fn lib_convert_ok_from_f() {
    let actual = convert(T { value: Decimal::parse("73.4").unwrap(), unit: TUnit::F });
    assert_eq!(1, actual.len());
    assert!((23.0 - as_float(&actual[0].value)).abs() <= f32::EPSILON);
}

#[test]
fn lib_convert_ok_from_unknown() {
    let actual = convert(T { value: Decimal::parse("73.4").unwrap(), unit: TUnit::Unknown });
    assert_eq!(2, actual.len());
    assert_eq!(T { value: Decimal::parse("164.1").unwrap(), unit: TUnit::F }, actual[0]);
    assert_eq!(T { value: Decimal::parse("23.0").unwrap(), unit: TUnit::C }, actual[1]);
}

#[test]
fn main_convert_ok_from_c() {
    let actual = convert(reading("32", TUnit::C));
    assert_eq!(actual, vec![reading("89.6", TUnit::F)]);
}

#[test]
fn main_convert_ok_from_f() {
    let actual = convert(reading("81", TUnit::F));
    assert_eq!(actual, vec![reading("27.2", TUnit::C)]);
}

#[test]
fn main_convert_ok_from_unknown() {
    let actual = convert(reading("32", TUnit::Unknown));
    assert_eq!(actual, vec![reading("89.6", TUnit::F), reading("0", TUnit::C)]);
}

#[test]
fn convert_unknown_gives_fahrenheit_then_celsius() {
    let actual = convert(reading("74.0", TUnit::Unknown));
    assert_eq!(actual, vec![reading("165.2", TUnit::F), reading("23.3", TUnit::C)]);
}

#[test]
fn converting_to_the_own_unit_changes_nothing() {
    for value in ["0", "23.456", "-17.77777", "1000000000000000000000.5"] {
        let c = reading(value, TUnit::C);
        assert_eq!(c.to_c(), c);
        let f = reading(value, TUnit::F);
        assert_eq!(f.to_f(), f);
    }
}

#[test]
fn inputs_are_not_rounded() {
    let c = reading("23.456", TUnit::C);
    assert_eq!(c.to_c().value.to_text(), "23.456");
    assert_eq!(c.to_f().value.to_text(), "74.2");
}

#[test]
fn unknown_converts_as_either_unit() {
    let u = reading("74", TUnit::Unknown);
    assert_eq!(u.to_f(), reading("165.2", TUnit::F));
    assert_eq!(u.to_c(), reading("23.3", TUnit::C));
}

#[test]
fn freezing_and_boiling() {
    assert_eq!(reading("0", TUnit::C).to_f(), reading("32", TUnit::F));
    assert_eq!(reading("100", TUnit::C).to_f(), reading("212", TUnit::F));
    assert_eq!(reading("32", TUnit::F).to_c(), reading("0", TUnit::C));
    assert_eq!(reading("212", TUnit::F).to_c(), reading("100", TUnit::C));
    assert_eq!(reading("-40", TUnit::F).to_c(), reading("-40", TUnit::C));
    assert_eq!(reading("-40", TUnit::C).to_f(), reading("-40", TUnit::F));
}

#[test]
fn ties_go_away_from_zero() {
    // 0.25 C is 32.45 F and -35.75 C is -32.35 F, each exactly half way.
    assert_eq!(reading("0.25", TUnit::C).to_f(), reading("32.5", TUnit::F));
    assert_eq!(reading("-35.75", TUnit::C).to_f(), reading("-32.4", TUnit::F));
    // 32.09 F is 0.05 C and 31.91 F is -0.05 C, each exactly half way.
    assert_eq!(reading("32.09", TUnit::F).to_c(), reading("0.1", TUnit::C));
    assert_eq!(reading("31.91", TUnit::F).to_c(), reading("-0.1", TUnit::C));
}

#[test]
fn results_near_zero_have_no_sign() {
    // 31.95 F is -0.0277... C, which rounds to zero.
    let c = reading("31.95", TUnit::F).to_c();
    assert_eq!(c, reading("0", TUnit::C));
    assert_eq!(c.value.to_text(), "0");
    // -17.79 C is -0.022 F.
    assert_eq!(reading("-17.79", TUnit::C).to_f(), reading("0", TUnit::F));
}

#[test]
fn rounding_below_and_above_the_half() {
    assert_eq!(reading("74", TUnit::F).to_c(), reading("23.3", TUnit::C));
    assert_eq!(reading("75", TUnit::F).to_c(), reading("23.9", TUnit::C));
    assert_eq!(reading("0", TUnit::F).to_c(), reading("-17.8", TUnit::C));
    assert_eq!(reading("-459.67", TUnit::F).to_c(), reading("-273.2", TUnit::C));
    assert_eq!(reading("-273.15", TUnit::C).to_f(), reading("-459.7", TUnit::F));
}

#[test]
fn conversion_is_exact_at_any_size() {
    let c = reading("100000000000000000000000000000000000000", TUnit::C);
    assert_eq!(c.to_f().value.to_text(), "180000000000000000000000000000000000032");
    let f = reading("180000000000000000000000000000000000032", TUnit::F);
    assert_eq!(f.to_c().value.to_text(), "100000000000000000000000000000000000000");
    let tiny = reading("0.00000000000000000000000000000000000001", TUnit::C);
    assert_eq!(tiny.to_f().value.to_text(), "32");
    let below = reading("32.04999999999999999999999999999999999999", TUnit::F);
    assert_eq!(below.to_c().value.to_text(), "0");
    let half = reading("32.09000000000000000000000000000000000000", TUnit::F);
    assert_eq!(half.to_c().value.to_text(), "0.1");
}

#[test]
fn round_to_one_dec_takes_the_nearest_tenth() {
    let round = |text: &str| Decimal::parse(text).unwrap().round_to_one_dec().to_text();
    assert_eq!(round("23.33333"), "23.3");
    assert_eq!(round("23.35"), "23.4");
    assert_eq!(round("-23.35"), "-23.4");
    assert_eq!(round("23.349999"), "23.3");
    assert_eq!(round("0.04"), "0");
    assert_eq!(round("-0.04"), "0");
    assert_eq!(round("0.05"), "0.1");
    assert_eq!(round("-0.05"), "-0.1");
    assert_eq!(round("9.96"), "10");
    assert_eq!(round("123456789"), "123456789");
}

#[test]
fn rounding_a_rounded_value_changes_nothing() {
    for text in ["0", "23", "23.4", "-0.1", "-17.8", "165.2", "1000000000000000000000000.9"] {
        let value = Decimal::parse(text).unwrap();
        assert_eq!(value.round_to_one_dec(), value);
    }
    for text in ["23.456", "-0.05", "99.95"] {
        let once = Decimal::parse(text).unwrap().round_to_one_dec();
        assert_eq!(once.round_to_one_dec(), once);
    }
}
