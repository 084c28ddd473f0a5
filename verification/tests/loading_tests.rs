use customer_analyzer::cell::Data;
use customer_analyzer::columns::{find_column_indices, Field};
use customer_analyzer::error::AnalysisError;
use customer_analyzer::loading::{load_sheet, normalize_rows};
use customer_analyzer::options::{collect_options, CustomerOption};
use customer_analyzer::sorted::{find_position, insert_sorted, TextSet};

fn text(s: &str) -> Data {
    Data::String(s.to_string())
}

fn header() -> Vec<Data> {
    ["客户编码", "客户名称", "支付金额", "充值抵扣", "省", "市", "区", "地区", "日期"].iter().map(|l| text(l)).collect()
}

fn line(code: &str, name: &str, pay: &str, province: &str, city: &str, date: &str) -> Vec<Data> {
    vec![text(code), text(name), text(pay), text("0"), text(province), text(city), text(""), text("华南"), text(date)]
}

fn sheet() -> Vec<Vec<Data>> {
    vec![
        header(),
        line("B", "乙", "10", "广东", "深圳", "2024-02-01"),
        line("A", "甲旧", "20", "北京", "", "2024-01-01"),
        line("", "无", "30", "上海", "上海", "2024-01-01"),
        line("A", "甲", "40", "广东", "广州", "bad"),
        line("C", "", "50", "", "", ""),
    ]
}

fn pairs(customers: &[CustomerOption]) -> Vec<(String, String)> {
    customers.iter().map(|c| (c.code.clone(), c.name.clone())).collect()
}

#[test]
fn a_sheet_loads_its_records_and_options() {
    let loaded = load_sheet("sales.xlsx", &sheet()).unwrap();
    assert_eq!(loaded.file_path, "sales.xlsx");
    assert_eq!(loaded.total_rows, 5);
    assert_eq!(loaded.load_time_ms, 0);
    let codes: Vec<&str> = loaded.cached_rows.iter().map(|r| r.customer_code.as_str()).collect();
    assert_eq!(codes, vec!["B", "A", "A", "C"]);
    let months: Vec<Option<&str>> = loaded.cached_rows.iter().map(|r| r.month.as_deref()).collect();
    assert_eq!(months, vec![Some("2024-02"), Some("2024-01"), None, None]);
    assert_eq!(
        pairs(&loaded.available_customers),
        vec![
            ("B".to_string(), "乙".to_string()),
            ("A".to_string(), "甲".to_string()),
            ("C".to_string(), "".to_string()),
        ]
    );
    let mut provinces = vec!["广东".to_string(), "北京".to_string()];
    provinces.sort();
    assert_eq!(loaded.available_provinces, provinces);
    let mut cities = vec!["深圳".to_string(), "广州".to_string()];
    cities.sort();
    assert_eq!(loaded.available_cities, cities);
    assert!(loaded.available_districts.is_empty());
    let mut regions = vec!["广东-深圳".to_string(), "北京".to_string(), "广东-广州".to_string(), "华南".to_string()];
    regions.sort();
    assert_eq!(loaded.available_regions, regions);
}

#[test]
fn loading_fails_as_reporting_does() {
    assert!(matches!(load_sheet("x", &Vec::new()), Err(AnalysisError::EmptySheet)));
    let rows = vec![vec![text("客户编码"), text("支付金额")]];
    assert!(matches!(load_sheet("x", &rows), Err(AnalysisError::MissingColumn(Field::RechargeDeduction))));
    let rows = vec![vec![]];
    assert!(matches!(load_sheet("x", &rows), Err(AnalysisError::MissingColumn(Field::PayAmount))));
}

#[test]
fn a_header_alone_loads_nothing() {
    let loaded = load_sheet("x", &vec![header()]).unwrap();
    assert!(loaded.cached_rows.is_empty());
    assert!(loaded.available_customers.is_empty());
    assert!(loaded.available_provinces.is_empty());
    assert_eq!(loaded.total_rows, 0);
}

#[test]
fn rows_normalize_piece_by_piece() {
    let all = sheet();
    let columns = find_column_indices(&all[0]).unwrap();
    let whole = normalize_rows(&all[1..], &columns);
    let mut pieces = normalize_rows(&all[1..3], &columns);
    pieces.extend(normalize_rows(&all[3..], &columns));
    assert_eq!(whole.len(), 4);
    assert_eq!(pieces.len(), whole.len());
    for (a, b) in whole.iter().zip(pieces.iter()) {
        assert_eq!(a.customer_code, b.customer_code);
        assert_eq!(a.total_amount(), b.total_amount());
        assert_eq!(a.region, b.region);
    }
}

#[test]
fn options_leave_out_what_is_empty() {
    let all = sheet();
    let columns = find_column_indices(&all[0]).unwrap();
    let mut rows = normalize_rows(&all[1..], &columns);
    rows[0].customer_code = String::new();
    rows[1].province = Some(String::new());
    let options = collect_options(&rows);
    assert_eq!(
        pairs(&options.customers),
        vec![("A".to_string(), "甲".to_string()), ("C".to_string(), "".to_string())]
    );
    assert_eq!(options.provinces, vec!["广东".to_string()]);
}

#[test]
fn sorted_lists_take_each_text_once() {
    let mut list: Vec<String> = Vec::new();
    for s in ["丙", "b", "a", "b", "", "甲", "a", "乙", "ab"] {
        insert_sorted(&mut list, s);
    }
    let mut expected: Vec<String> = ["", "a", "ab", "b", "丙", "甲", "乙"].iter().map(|s| s.to_string()).collect();
    expected.sort();
    assert_eq!(list, expected);
    assert_eq!(find_position(&list, ""), 0);
    assert_eq!(find_position(&list, "a"), 1);
    assert_eq!(find_position(&list, "aa"), 2);
    assert_eq!(find_position(&list, "c"), 4);
    assert_eq!(find_position(&list, "龥龥"), list.len());
}

#[test]
fn a_set_of_texts_keeps_each_once_in_order() {
    let mut set = TextSet::new();
    let mut plain: Vec<String> = Vec::new();
    for s in ["广东", "北京", "广东", "", "上海", "北京", "a", "B", "a"] {
        set.insert(s);
        insert_sorted(&mut plain, s);
    }
    let list = set.into_vec();
    assert_eq!(list, plain);
    let mut expected: Vec<String> = ["", "B", "a", "上海", "北京", "广东"].iter().map(|s| s.to_string()).collect();
    expected.sort();
    assert_eq!(list, expected);
    assert!(TextSet::new().into_vec().is_empty());
}
