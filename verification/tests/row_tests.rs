use customer_analyzer::cell::Data;
use customer_analyzer::columns::find_column_indices;
use customer_analyzer::row::{parse_customer, parse_row, CachedRow};

fn text(s: &str) -> Data {
    Data::String(s.to_string())
}

fn number(s: &str) -> Data {
    Data::Float(s.to_string())
}

fn full_header() -> Vec<Data> {
    ["客户编码", "客户名称", "支付金额", "充值抵扣", "省", "市", "区", "地区", "日期"]
        .iter()
        .map(|l| text(l))
        .collect()
}

fn parse(cells: Vec<Data>) -> Option<CachedRow> {
    let columns = find_column_indices(&full_header()).unwrap();
    parse_row(&cells, &columns)
}

#[test]
fn a_full_row_gives_a_record() {
    let row = parse(vec![
        text(" C001 "),
        text("甲公司"),
        number("100.5"),
        text("20"),
        text("广东"),
        text("深圳"),
        text("南山"),
        text("华南"),
        text("2024-01-15"),
    ])
    .unwrap();
    assert_eq!(row.customer_code, "C001");
    assert_eq!(row.customer_name, "甲公司");
    assert_eq!(row.pay_amount.micros(), 100_500_000);
    assert_eq!(row.recharge_deduction.micros(), 20_000_000);
    assert_eq!(row.total_amount(), 120_500_000);
    assert_eq!(row.province.as_deref(), Some("广东"));
    assert_eq!(row.city.as_deref(), Some("深圳"));
    assert_eq!(row.district.as_deref(), Some("南山"));
    assert_eq!(row.region.as_deref(), Some("广东-深圳-南山"));
    assert_eq!(row.month.as_deref(), Some("2024-01"));
}

#[test]
fn the_total_is_the_sum_of_the_two_amounts() {
    for (pay, recharge) in [("0", "0"), ("1.5", "2.25"), ("-10", "4"), ("1000000000000", "1000000000000"), ("-1000000000000", "-1000000000000")] {
        let row = parse(vec![text("C"), text(""), number(pay), number(recharge)]).unwrap();
        assert_eq!(row.total_amount(), row.pay_amount.micros() + row.recharge_deduction.micros());
    }
    let row = parse(vec![text("C"), text(""), number("1000000000000"), number("1000000000000")]).unwrap();
    assert_eq!(row.total_amount(), 2_000_000_000_000_000_000);
}

#[test]
fn a_row_without_customer_code_is_dropped() {
    assert!(parse(vec![text(""), text("甲"), number("1"), number("2")]).is_none());
    assert!(parse(vec![text("   "), text("甲"), number("1"), number("2")]).is_none());
    assert!(parse(vec![Data::Empty, text("甲"), number("1"), number("2")]).is_none());
    assert!(parse(vec![]).is_none());
}

#[test]
fn a_numeric_customer_code_reads_in_decimal_form() {
    let row = parse(vec![number("13800138000123"), text("甲"), number("1"), number("2")]).unwrap();
    assert_eq!(row.customer_code, "13800138000123");
    let row = parse(vec![Data::Int(1001), text("甲"), number("1"), number("2")]).unwrap();
    assert_eq!(row.customer_code, "1001");
}

#[test]
fn short_rows_default() {
    let row = parse(vec![text("C001")]).unwrap();
    assert_eq!(row.customer_name, "");
    assert_eq!(row.pay_amount.micros(), 0);
    assert_eq!(row.recharge_deduction.micros(), 0);
    assert_eq!(row.province, None);
    assert_eq!(row.city, None);
    assert_eq!(row.district, None);
    assert_eq!(row.region, None);
    assert_eq!(row.month, None);
}

#[test]
fn amounts_that_cannot_be_read_count_as_zero() {
    let row = parse(vec![text("C001"), text("甲"), text("n/a"), Data::Bool(true)]).unwrap();
    assert_eq!(row.pay_amount.micros(), 0);
    assert_eq!(row.recharge_deduction.micros(), 0);
}

#[test]
fn the_region_joins_what_is_there() {
    let region = |p: &str, c: &str, d: &str, r: &str| {
        parse(vec![text("C"), text(""), number("0"), number("0"), text(p), text(c), text(d), text(r)])
            .unwrap()
            .region
    };
    assert_eq!(region("广东", "深圳", "南山", "华南").as_deref(), Some("广东-深圳-南山"));
    assert_eq!(region("广东", "", "南山", "华南").as_deref(), Some("广东-南山"));
    assert_eq!(region("", "深圳", "", "华南").as_deref(), Some("深圳"));
    assert_eq!(region("", "", "南山", "").as_deref(), Some("南山"));
    assert_eq!(region("", "", "", "华南").as_deref(), Some("华南"));
    assert_eq!(region(" ", " ", " ", " 华南 ").as_deref(), Some("华南"));
    assert_eq!(region("", "", "", ""), None);
}

#[test]
fn a_date_that_cannot_be_read_leaves_no_month() {
    let month = |cell: Data| {
        parse(vec![text("C"), text(""), number("0"), number("0"), text(""), text(""), text(""), text(""), cell])
            .unwrap()
            .month
    };
    assert_eq!(month(text("someday")), None);
    assert_eq!(month(Data::Empty), None);
    assert_eq!(month(Data::DateTime("45000".to_string())).as_deref(), Some("2023-03"));
    assert_eq!(month(text("2024年5月1日")).as_deref(), Some("2024-05"));
}

#[test]
fn a_customer_is_read_with_one_order() {
    let columns = find_column_indices(&full_header()).unwrap();
    let c = parse_customer(&vec![text("C001"), text(" 甲 "), number("1.5"), number("2.5")], &columns).unwrap();
    assert_eq!(c.customer_code, "C001");
    assert_eq!(c.customer_name, "甲");
    assert_eq!(c.pay_amount.clamped(), 1_500_000);
    assert_eq!(c.recharge_deduction.clamped(), 2_500_000);
    assert_eq!(c.total_amount.clamped(), 4_000_000);
    assert_eq!(c.order_count, 1);
    assert!(parse_customer(&vec![text(" ")], &columns).is_none());
}

#[test]
fn a_record_can_be_copied() {
    let row = parse(vec![text("C001"), text("甲"), number("1"), number("2"), text("广东")]).unwrap();
    let copy = row.duplicate();
    assert_eq!(copy.customer_code, row.customer_code);
    assert_eq!(copy.customer_name, row.customer_name);
    assert_eq!(copy.pay_amount.micros(), row.pay_amount.micros());
    assert_eq!(copy.recharge_deduction.micros(), row.recharge_deduction.micros());
    assert_eq!(copy.province, row.province);
    assert_eq!(copy.region, row.region);
    assert_eq!(copy.month, row.month);
}
