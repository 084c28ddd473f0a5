use customer_analyzer::cell::{data_to_string, parse_number, trimmed_text, CellErrorType, Data};
use customer_analyzer::decimal::LIMIT;

fn text(s: &str) -> Data {
    Data::String(s.to_string())
}

#[test]
fn reads_every_kind_of_cell_as_text() {
    assert_eq!(data_to_string(&Data::Int(42)), "42");
    assert_eq!(data_to_string(&Data::Int(-7)), "-7");
    assert_eq!(data_to_string(&Data::Float("12.5".to_string())), "12.5");
    assert_eq!(data_to_string(&text(" a ")), " a ");
    assert_eq!(data_to_string(&Data::Bool(true)), "true");
    assert_eq!(data_to_string(&Data::Bool(false)), "false");
    assert_eq!(data_to_string(&Data::DateTime("45000".to_string())), "45000");
    assert_eq!(data_to_string(&Data::DateTimeIso("2024-01-15T10:00:00".to_string())), "2024-01-15T10:00:00");
    assert_eq!(data_to_string(&Data::DurationIso("PT1H".to_string())), "PT1H");
    assert_eq!(data_to_string(&Data::Error(CellErrorType::Div0)), "Div0");
    assert_eq!(data_to_string(&Data::Error(CellErrorType::NA)), "NA");
    assert_eq!(data_to_string(&Data::Error(CellErrorType::Name)), "Name");
    assert_eq!(data_to_string(&Data::Error(CellErrorType::Null)), "Null");
    assert_eq!(data_to_string(&Data::Error(CellErrorType::Num)), "Num");
    assert_eq!(data_to_string(&Data::Error(CellErrorType::Ref)), "Ref");
    assert_eq!(data_to_string(&Data::Error(CellErrorType::Value)), "Value");
    assert_eq!(data_to_string(&Data::Error(CellErrorType::GettingData)), "GettingData");
    assert_eq!(data_to_string(&Data::Empty), "");
    assert_eq!(trimmed_text(&text("  客户编码 ")), "客户编码");
}

#[test]
fn reads_numbers_and_defaults_to_zero() {
    assert_eq!(parse_number(&Data::Float("12.5".to_string())).micros(), 12_500_000);
    assert_eq!(parse_number(&Data::Int(3)).micros(), 3_000_000);
    assert_eq!(parse_number(&Data::Int(-3)).micros(), -3_000_000);
    assert_eq!(parse_number(&text(" 7.25 ")).micros(), 7_250_000);
    assert_eq!(parse_number(&text("abc")).micros(), 0);
    assert_eq!(parse_number(&text("")).micros(), 0);
    assert_eq!(parse_number(&Data::Bool(true)).micros(), 0);
    assert_eq!(parse_number(&Data::DateTime("45000".to_string())).micros(), 0);
    assert_eq!(parse_number(&Data::Empty).micros(), 0);
    assert_eq!(parse_number(&Data::Error(CellErrorType::Num)).micros(), 0);
    assert_eq!(parse_number(&Data::Float("NaN".to_string())).micros(), 0);
}

#[test]
fn whole_numbers_of_any_size_are_exact() {
    assert_eq!(parse_number(&Data::Int(1_000_000_000_000)).micros(), 1_000_000_000_000_000_000);
    assert_eq!(parse_number(&Data::Int(1_000_000_000_001)).micros(), 1_000_000_000_001_000_000);
    assert_eq!(parse_number(&Data::Int(2_000_000_000_000)).micros(), 2_000_000_000_000_000_000);
    assert_eq!(parse_number(&Data::Int(i64::MAX)).micros(), i128::from(i64::MAX) * 1_000_000);
    assert_eq!(parse_number(&Data::Int(i64::MIN)).micros(), i128::from(i64::MIN) * 1_000_000);
    assert_eq!(parse_number(&Data::Float("1000000000000.5".to_string())).micros(), 1_000_000_000_000_500_000);
    assert_eq!(parse_number(&text("2000000000000")).micros(), 2_000_000_000_000_000_000);
}

#[test]
fn numbers_with_exponents_are_read() {
    assert_eq!(parse_number(&text("1e3")).micros(), 1_000_000_000);
    assert_eq!(parse_number(&text(" 1.5E2 ")).micros(), 150_000_000);
    assert_eq!(parse_number(&text("-2e-3")).micros(), -2_000);
    assert_eq!(parse_number(&Data::Float("1e21".to_string())).micros(), 1_000_000_000_000_000_000_000_000_000);
    assert_eq!(parse_number(&Data::Float("1e300".to_string())).micros(), LIMIT);
    assert_eq!(parse_number(&Data::Float("-1e300".to_string())).micros(), -LIMIT);
    assert_eq!(parse_number(&text("1e")).micros(), 0);
}

#[test]
fn infinity_is_held_to_the_limit() {
    assert_eq!(parse_number(&text("inf")).micros(), LIMIT);
    assert_eq!(parse_number(&text("+inf")).micros(), LIMIT);
    assert_eq!(parse_number(&text("-inf")).micros(), -LIMIT);
    assert_eq!(parse_number(&text("infinity")).micros(), LIMIT);
    assert_eq!(parse_number(&text("-Infinity")).micros(), -LIMIT);
    assert_eq!(parse_number(&text(" INF ")).micros(), LIMIT);
    assert_eq!(parse_number(&text("iNfInItY")).micros(), LIMIT);
    assert_eq!(parse_number(&Data::Float("inf".to_string())).micros(), LIMIT);
    assert_eq!(parse_number(&Data::Float("-inf".to_string())).micros(), -LIMIT);
    assert_eq!(parse_number(&Data::Float("1e999".to_string())).micros(), LIMIT);
    for s in ["in", "infi", "infinit", "infinity1", "inff", "i", "+", "-", "--inf", "inf inity", "∞", "nan", "NaN", "-nan", "jnf", "INg"] {
        assert_eq!(parse_number(&text(s)).micros(), 0, "{:?}", s);
    }
}

#[test]
fn text_is_read_as_floating_point_reads_it() {
    let samples = [
        "0", "12", "-3.5", "+.5", "7.", "1e3", "1E-3", "2.5e+2", "abc", "", ".", "e", "1e", "1e+", "+-1",
        "1_000", "1,5", "0x1F", "١٢", "1 2", "inf", "-inf", "infinity", "nan", "1e40", "-1e40",
    ];
    for s in samples {
        let expected = match s.parse::<f64>() {
            Ok(v) if v.is_nan() => 0,
            Ok(v) if v.abs() >= 1e30 => LIMIT * (v.signum() as i128),
            Ok(v) => (v * 1e6).round() as i128,
            Err(_) => 0,
        };
        assert_eq!(parse_number(&text(s)).micros(), expected, "{:?}", s);
    }
}
