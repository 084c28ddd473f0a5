use customer_analyzer::decimal::Decimal;
use customer_analyzer::error::AnalysisError;
use customer_analyzer::row::CachedRow;
use customer_analyzer::trend::{
    analyze_from_cache, get_order_details, growth_rate, parse_dimension, Dimension, FULL_GROWTH,
};

const UNIT: i64 = 1_000_000;

fn row(code: &str, name: &str, month: Option<&str>, pay: i64, recharge: i64) -> CachedRow {
    CachedRow {
        customer_code: code.to_string(),
        customer_name: name.to_string(),
        pay_amount: Decimal::from_micros(i128::from(pay)).unwrap(),
        recharge_deduction: Decimal::from_micros(i128::from(recharge)).unwrap(),
        province: Some("广东".to_string()),
        city: Some(format!("市{}", code)),
        district: None,
        region: Some(format!("广东-市{}", code)),
        month: month.map(|m| m.to_string()),
    }
}

#[test]
fn growth_follows_the_totals_of_the_months() {
    let rows = vec![
        row("A", "甲", Some("2024-01"), 100 * UNIT, 0),
        row("A", "甲", Some("2024-02"), 100 * UNIT, 50 * UNIT),
        row("A", "甲", Some("2024-03"), 0, 0),
        row("A", "甲", Some("2024-04"), 20 * UNIT, 30 * UNIT),
    ];
    let trend = analyze_from_cache(&rows, "customer", "A").unwrap();
    let months: Vec<&str> = trend.monthly_data.iter().map(|m| m.month.as_str()).collect();
    assert_eq!(months, vec!["2024-01", "2024-02", "2024-03", "2024-04"]);
    let totals: Vec<i128> = trend.monthly_data.iter().map(|m| m.total_amount.clamped()).collect();
    assert_eq!(totals, vec![100 * UNIT as i128, 150 * UNIT as i128, 0, 50 * UNIT as i128]);
    let growth: Vec<i128> = trend.monthly_data.iter().map(|m| m.mom_growth_rate).collect();
    assert_eq!(growth, vec![0, 50 * UNIT as i128, -100 * UNIT as i128, 100 * UNIT as i128]);
    assert_eq!(trend.total_amount.clamped(), 300 * UNIT as i128);
    assert_eq!(trend.total_orders, 4);
    assert_eq!(trend.process_time_ms, 0);
}

#[test]
fn months_are_summed_and_put_in_order() {
    let rows = vec![
        row("A", "", Some("2024-03"), 3, 1),
        row("B", "乙", Some("2024-01"), 100, 0),
        row("A", "甲", Some("2024-01"), 5, 0),
        row("A", "甲二", None, 9, 0),
        row("A", "", Some("2024-03"), 4, 0),
        row("A", "", Some("2023-12"), 1, 1),
        row("A", "", None, 1, 0),
    ];
    let trend = analyze_from_cache(&rows, "customer", "A").unwrap();
    let got: Vec<(&str, i128, i128, i128, u64)> = trend
        .monthly_data
        .iter()
        .map(|m| (m.month.as_str(), m.pay_amount.clamped(), m.recharge_deduction.clamped(), m.total_amount.clamped(), m.order_count))
        .collect();
    assert_eq!(
        got,
        vec![
            ("2023-12", 1, 1, 2, 1),
            ("2024-01", 5, 0, 5, 1),
            ("2024-03", 7, 1, 8, 2),
            ("未知月份", 10, 0, 10, 2),
        ]
    );
    for pair in trend.monthly_data.windows(2) {
        assert!(pair[0].month < pair[1].month);
    }
    assert_eq!(trend.monthly_data[0].mom_growth_rate, 0);
    assert_eq!(trend.target_name, "甲");
    assert_eq!(trend.analysis_type, "customer");
    assert_eq!(trend.target, "A");
    assert_eq!(trend.total_orders, 6);
    assert_eq!(trend.total_amount.clamped(), 25);
}

#[test]
fn an_empty_target_fails() {
    assert!(matches!(analyze_from_cache(&Vec::new(), "customer", ""), Err(AnalysisError::NoTarget)));
    let rows = vec![row("", "", None, 1, 1)];
    assert!(matches!(analyze_from_cache(&rows, "province", ""), Err(AnalysisError::NoTarget)));
}

#[test]
fn each_dimension_picks_by_its_field() {
    let rows = vec![row("A", "甲", Some("2024-01"), 1, 0), row("B", "乙", Some("2024-01"), 2, 0)];
    let orders = |kind: &str, target: &str| analyze_from_cache(&rows, kind, target).unwrap().total_orders;
    assert_eq!(orders("customer", "A"), 1);
    assert_eq!(orders("customer", "a"), 0);
    assert_eq!(orders("province", "广东"), 2);
    assert_eq!(orders("city", "市B"), 1);
    assert_eq!(orders("district", "南山"), 0);
    assert_eq!(orders("region", "广东-市A"), 1);
    assert_eq!(orders("country", "广东"), 0);
    assert_eq!(orders("", "A"), 0);
}

#[test]
fn the_target_is_shown_by_name_for_customers_only() {
    let rows = vec![row("A", "", None, 1, 0), row("A", "甲", None, 1, 0), row("A", "乙", None, 1, 0)];
    assert_eq!(analyze_from_cache(&rows, "customer", "A").unwrap().target_name, "甲");
    assert_eq!(analyze_from_cache(&rows, "customer", "Z").unwrap().target_name, "Z");
    assert_eq!(analyze_from_cache(&rows, "province", "广东").unwrap().target_name, "广东");
    let unnamed = vec![row("A", "", None, 1, 0)];
    assert_eq!(analyze_from_cache(&unnamed, "customer", "A").unwrap().target_name, "A");
}

#[test]
fn nothing_matching_gives_an_empty_trend() {
    let trend = analyze_from_cache(&vec![row("A", "甲", None, 1, 0)], "customer", "B").unwrap();
    assert!(trend.monthly_data.is_empty());
    assert_eq!(trend.total_amount.clamped(), 0);
    assert_eq!(trend.total_orders, 0);
}

#[test]
fn growth_is_a_share_of_the_month_before() {
    assert_eq!(growth_rate(100, 150), 50 * UNIT as i128);
    assert_eq!(growth_rate(150, 0), -100 * UNIT as i128);
    assert_eq!(growth_rate(0, 50), FULL_GROWTH);
    assert_eq!(growth_rate(0, 0), 0);
    assert_eq!(growth_rate(0, -5), 0);
    assert_eq!(growth_rate(-10, 50), 0);
    assert_eq!(growth_rate(-10, -50), 0);
    assert_eq!(growth_rate(100, 100), 0);
    assert_eq!(growth_rate(3, 4), 33_333_333);
    assert_eq!(growth_rate(3, 2), -33_333_333);
    assert_eq!(growth_rate(3, 1), -66_666_666);
    assert_eq!(growth_rate(3, -1), -133_333_333);
    assert_eq!(growth_rate(7, 8), 14_285_714);
    assert_eq!(growth_rate(200, 201), 500_000);
}

#[test]
fn growth_stays_within_range() {
    assert_eq!(growth_rate(1, i128::MAX), i128::MAX);
    assert_eq!(growth_rate(1, i128::MIN), i128::MIN);
    assert_eq!(growth_rate(1_000_000, 0), -FULL_GROWTH);
    let edge = i128::MAX / 100_000_000;
    assert_eq!(growth_rate(1, 1 + edge), edge * 100_000_000);
    assert_eq!(growth_rate(1, 2 + edge), i128::MAX);
    assert_eq!(growth_rate(1, 1 - edge), -edge * 100_000_000);
    assert_eq!(growth_rate(1, -edge), i128::MIN);
    assert_eq!(growth_rate(100_000_000, i128::MAX), i128::MAX - 100_000_000);
    assert_eq!(growth_rate(100_000_000, i128::MIN), i128::MIN);
    assert_eq!(growth_rate(100_000_000, i128::MIN + 100_000_000), i128::MIN);
    assert_eq!(growth_rate(100_000_000, i128::MIN + 100_000_005), i128::MIN + 5);
}

#[test]
fn growth_of_large_totals_is_exact() {
    assert_eq!(growth_rate(i128::MAX, 0), -FULL_GROWTH);
    assert_eq!(growth_rate(i128::MAX, i128::MAX), 0);
    assert_eq!(growth_rate(i128::MAX, i128::MIN), -200_000_000);
    assert_eq!(growth_rate(i128::MAX, -i128::MAX), -200_000_000);
    assert_eq!(growth_rate(i128::MAX, 1), -99_999_999);
    assert_eq!(growth_rate(i128::MAX, -1), -100_000_000);
    assert_eq!(growth_rate(i128::MAX - 1, i128::MAX), 0);
    assert_eq!(growth_rate(i128::MAX / 2, i128::MAX), 100_000_000);
    assert_eq!(growth_rate(i128::MAX / 3, i128::MAX), 200_000_000);
    let big = 10_i128.pow(37);
    assert_eq!(growth_rate(3 * big, 4 * big), 33_333_333);
    assert_eq!(growth_rate(3 * big, 2 * big), -33_333_333);
    assert_eq!(growth_rate(3 * big, 1 * big), -66_666_666);
    assert_eq!(growth_rate(3 * big, -big), -133_333_333);
    assert_eq!(growth_rate(7 * big, 8 * big), 14_285_714);
    assert_eq!(growth_rate(8 * big, 7 * big), -12_500_000);
    assert_eq!(growth_rate(big, 10 * big), 900_000_000);
    assert_eq!(growth_rate(big, big + 1), 0);
    assert_eq!(growth_rate(big, big + big / 100_000_000), 1);
    assert_eq!(growth_rate(big, big + big / 100_000_000 - 1), 0);
    assert_eq!(growth_rate(big, big - big / 100_000_000), -1);
    assert_eq!(growth_rate(big, big - big / 100_000_000 + 1), 0);
}

#[test]
fn growth_agrees_with_plain_division() {
    for prev in [1_i128, 2, 3, 7, 10, 99, 100, 101, 12_345, 1_000_000, 999_999_937] {
        for curr in [-1_000_000_007_i128, -100, -3, -1, 0, 1, 2, 3, 50, 100, 150, 99_999, 123_456_789_012] {
            assert_eq!(growth_rate(prev, curr), (curr - prev) * 100_000_000 / prev, "{} to {}", prev, curr);
        }
    }
}

#[test]
fn dimensions_have_words() {
    assert_eq!(parse_dimension("customer"), Some(Dimension::Customer));
    assert_eq!(parse_dimension("province"), Some(Dimension::Province));
    assert_eq!(parse_dimension("city"), Some(Dimension::City));
    assert_eq!(parse_dimension("district"), Some(Dimension::District));
    assert_eq!(parse_dimension("region"), Some(Dimension::Region));
    assert_eq!(parse_dimension("Customer"), None);
    assert_eq!(parse_dimension(""), None);
}

#[test]
fn order_details_are_the_matching_records() {
    let rows = vec![
        row("A", "甲", Some("2024-01"), 1, 0),
        row("B", "乙", Some("2024-01"), 2, 0),
        row("A", "甲", Some("2024-02"), 3, 0),
    ];
    let details = get_order_details(&rows, "customer", "A");
    let pays: Vec<i128> = details.iter().map(|r| r.pay_amount.micros()).collect();
    assert_eq!(pays, vec![1, 3]);
    assert_eq!(get_order_details(&rows, "province", "广东").len(), 3);
    assert_eq!(get_order_details(&rows, "nothing", "A").len(), 0);
    assert_eq!(get_order_details(&rows, "customer", "").len(), 0);
}
