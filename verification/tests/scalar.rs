use yaml2::meta::ScalarStyle;
use yaml2::options::Schema;
use yaml2::scalar::resolve;
use yaml2::value::ValueData;

/// The bits of the number that a text writes, if it writes one.
fn bits(raw: &str) -> u64 {
    raw.parse::<f64>().unwrap_or(0.0).to_bits()
}

fn in_core(raw: &str) -> ValueData {
    resolve(raw, ScalarStyle::Plain, Schema::Core1_2, bits(raw))
}

#[test]
fn core_null_bool() {
    assert!(matches!(in_core("null"), ValueData::Null));
    assert!(matches!(in_core("~"), ValueData::Null));
    assert!(matches!(in_core(""), ValueData::Null));
    assert!(matches!(in_core("true"), ValueData::Bool(true)));
    assert!(matches!(in_core("False"), ValueData::Bool(false)));
}

#[test]
fn core_integers() {
    assert!(matches!(in_core("42"), ValueData::Int(42)));
    assert!(matches!(in_core("-7"), ValueData::Int(-7)));
    assert!(matches!(in_core("0x1F"), ValueData::Int(31)));
    assert!(matches!(in_core("0o17"), ValueData::Int(15)));
}

#[test]
fn core_leading_zero_is_decimal_not_octal() {
    assert!(matches!(in_core("0777"), ValueData::Int(777)));
}

#[test]
fn core_floats() {
    assert!(matches!(in_core("1.5"), ValueData::Float(f) if f64::from_bits(f) == 1.5));
    assert!(matches!(in_core(".5"), ValueData::Float(f) if f64::from_bits(f) == 0.5));
    assert!(matches!(in_core("1e3"), ValueData::Float(f) if f64::from_bits(f) == 1000.0));
    assert!(matches!(in_core(".inf"), ValueData::Float(f) if f64::from_bits(f) == f64::INFINITY));
    assert!(matches!(in_core(".nan"), ValueData::Float(f) if f64::from_bits(f).is_nan()));
}

#[test]
fn core_norway_problem_absent() {
    assert!(matches!(in_core("NO"), ValueData::String(s) if s == "NO"));
    assert!(matches!(in_core("yes"), ValueData::String(s) if s == "yes"));
    assert!(matches!(in_core("on"), ValueData::String(s) if s == "on"));
}

#[test]
fn core_plain_words_are_strings() {
    assert!(matches!(in_core("hello"), ValueData::String(s) if s == "hello"));
    assert!(matches!(in_core("1.2.3"), ValueData::String(s) if s == "1.2.3"));
}

#[test]
fn non_plain_styles_are_always_strings() {
    assert!(matches!(
        resolve("true", ScalarStyle::SingleQuoted, Schema::Core1_2, bits("true")),
        ValueData::String(s) if s == "true"
    ));
    assert!(matches!(
        resolve("42", ScalarStyle::DoubleQuoted, Schema::Core1_2, bits("42")),
        ValueData::String(s) if s == "42"
    ));
}

#[test]
fn integer_overflow_falls_back_to_string() {
    assert!(matches!(
        in_core("99999999999999999999999"),
        ValueData::String(_)
    ));
}
