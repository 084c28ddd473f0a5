use customer_analyzer::cell::Data;
use customer_analyzer::columns::{find_column_indices, Field};
use customer_analyzer::customers::{aggregate_rows, CustomerTable};
use customer_analyzer::decimal::Decimal;
use customer_analyzer::error::AnalysisError;
use customer_analyzer::processor::{aggregate_sheet, analyze_sheet, chunk_size, reduce_tables, totals_of_chunk};
use customer_analyzer::ranking::{analyze_table, AnalysisResult};
use customer_analyzer::row::CachedRow;

fn row(code: &str, pay: i64) -> CachedRow {
    CachedRow {
        customer_code: code.to_string(),
        customer_name: String::new(),
        pay_amount: Decimal::from_micros(i128::from(pay)).unwrap(),
        recharge_deduction: Decimal::zero(),
        province: None,
        city: None,
        district: None,
        region: None,
        month: None,
    }
}

fn report(totals: &[i64]) -> AnalysisResult {
    let rows: Vec<CachedRow> = totals.iter().enumerate().map(|(i, t)| row(&format!("C{}", i), *t)).collect();
    analyze_table(&aggregate_rows(&rows), rows.len())
}

fn codes(r: &AnalysisResult) -> Vec<String> {
    r.top20.iter().map(|c| c.customer_code.clone()).collect()
}

fn text(s: &str) -> Data {
    Data::String(s.to_string())
}

fn sheet(rows: &[(&str, &str, &str, &str)]) -> Vec<Vec<Data>> {
    let mut out = vec![vec![text("客户编码"), text("客户名称"), text("支付金额"), text("充值抵扣")]];
    for (code, name, pay, recharge) in rows {
        out.push(vec![text(code), text(name), Data::Float(pay.to_string()), Data::Float(recharge.to_string())]);
    }
    out
}

#[test]
fn lists_all_customers_when_there_are_few() {
    let r = report(&[5, 9, 1]);
    assert_eq!(codes(&r), vec!["C1", "C0", "C2"]);
    assert_eq!(r.total_customers, 3);
    assert_eq!(r.total_amount.clamped(), 15);
    assert_eq!(r.top20_amount.clamped(), 15);
    assert_eq!(r.total_rows, 3);
    assert_eq!(r.process_time_ms, 0);
}

#[test]
fn lists_twenty_when_there_are_more() {
    let totals: Vec<i64> = (1..=30).collect();
    let r = report(&totals);
    assert_eq!(r.top20.len(), 20);
    assert_eq!(r.total_customers, 30);
    let listed: Vec<i128> = r.top20.iter().map(|c| c.total_amount.clamped()).collect();
    let expected: Vec<i128> = (11..=30).rev().collect();
    assert_eq!(listed, expected);
    assert_eq!(r.total_amount.clamped(), (1..=30).sum::<i128>());
    assert_eq!(r.top20_amount.clamped(), (11..=30).sum::<i128>());
    assert!(r.top20_amount.clamped() <= r.total_amount.clamped());
}

#[test]
fn the_length_is_the_smaller_of_twenty_and_the_customers() {
    for n in [0_usize, 1, 19, 20, 21, 45] {
        let totals: Vec<i64> = (0..n as i64).collect();
        let r = report(&totals);
        assert_eq!(r.top20.len(), n.min(20));
        assert_eq!(r.total_customers, n);
        for pair in r.top20.windows(2) {
            assert!(pair[0].total_amount.clamped() >= pair[1].total_amount.clamped());
        }
        assert_eq!(r.top20_amount.clamped(), r.top20.iter().map(|c| c.total_amount.clamped()).sum::<i128>());
    }
}

#[test]
fn equal_totals_keep_the_order_in_which_they_came() {
    let r = report(&[7, 9, 7, 9, 7]);
    assert_eq!(codes(&r), vec!["C1", "C3", "C0", "C2", "C4"]);
    let totals = vec![5_i64; 25];
    let r = report(&totals);
    let expected: Vec<String> = (0..20).map(|i| format!("C{}", i)).collect();
    assert_eq!(codes(&r), expected);
}

#[test]
fn totals_below_zero_outside_the_list_make_it_exceed_the_whole() {
    let mut totals = vec![10_i64; 20];
    totals.push(-1);
    let r = report(&totals);
    assert_eq!(r.top20_amount.clamped(), 200);
    assert_eq!(r.total_amount.clamped(), 199);
    assert!(r.top20_amount.clamped() > r.total_amount.clamped());
}

#[test]
fn an_empty_table_gives_an_empty_report() {
    let r = analyze_table(&CustomerTable::new(), 0);
    assert!(r.top20.is_empty());
    assert_eq!(r.total_customers, 0);
    assert_eq!(r.total_amount.clamped(), 0);
    assert_eq!(r.top20_amount.clamped(), 0);
}

#[test]
fn a_sheet_is_reported() {
    let r = analyze_sheet(&sheet(&[
        ("A", "甲", "100", "10"),
        ("B", "乙", "300", "0"),
        ("", "无", "999", "0"),
        ("A", "", "50.5", "0.5"),
        ("C", "丙", "abc", "1"),
    ]))
    .unwrap();
    assert_eq!(codes(&r), vec!["B", "A", "C"]);
    assert_eq!(r.top20[1].customer_name, "甲");
    assert_eq!(r.top20[1].pay_amount.clamped(), 150_500_000);
    assert_eq!(r.top20[1].recharge_deduction.clamped(), 10_500_000);
    assert_eq!(r.top20[1].total_amount.clamped(), 161_000_000);
    assert_eq!(r.top20[1].order_count, 2);
    assert_eq!(r.total_customers, 3);
    assert_eq!(r.total_amount.clamped(), 462_000_000);
    assert_eq!(r.top20_amount.clamped(), 462_000_000);
    assert_eq!(r.total_rows, 5);
}

#[test]
fn a_sheet_with_a_header_only_gives_an_empty_report() {
    let r = analyze_sheet(&sheet(&[])).unwrap();
    assert!(r.top20.is_empty());
    assert_eq!(r.total_rows, 0);
    assert_eq!(r.total_customers, 0);
}

#[test]
fn a_sheet_without_rows_fails() {
    assert!(matches!(analyze_sheet(&Vec::new()), Err(AnalysisError::EmptySheet)));
}

#[test]
fn a_sheet_without_a_required_column_fails() {
    let rows = vec![vec![text("客户编码"), text("充值抵扣")], vec![text("A"), text("1")]];
    assert!(matches!(analyze_sheet(&rows), Err(AnalysisError::MissingColumn(Field::PayAmount))));
}

#[test]
fn chunks_are_an_even_share_of_at_least_a_thousand_rows() {
    assert_eq!(chunk_size(0, 8), 1000);
    assert_eq!(chunk_size(7999, 8), 1000);
    assert_eq!(chunk_size(8008, 8), 1001);
    assert_eq!(chunk_size(100_000, 8), 12_500);
    assert_eq!(chunk_size(100_000, 0), 100_000);
    assert_eq!(chunk_size(100_000, 1), 100_000);
    assert_eq!(chunk_size(500, 0), 1000);
}

#[test]
fn rows_split_over_threads_give_what_one_thread_gives() {
    let header = vec![text("客户编码"), text("客户名称"), text("支付金额"), text("充值抵扣")];
    let columns = find_column_indices(&header).unwrap();
    let mut rows = Vec::new();
    for i in 0..25_000_u32 {
        let code = format!("C{}", (i * 7919) % 137);
        let name = if i % 3 == 0 { String::new() } else { format!("N{}", i) };
        rows.push(vec![
            text(&code),
            text(&name),
            Data::Float(format!("{}.{:02}", i % 1000, i % 100)),
            Data::Int((i % 13) as i64 - 6),
        ]);
    }
    let one = totals_of_chunk(&rows, &columns);
    let many = aggregate_sheet(&rows, &columns);
    assert_eq!(one.len(), 137);
    assert_eq!(many.len(), one.len());
    for i in 0..one.len() {
        let (a, b) = (one.get(i), many.get(i));
        assert_eq!(a.customer_code, b.customer_code);
        assert_eq!(a.customer_name, b.customer_name);
        assert_eq!(a.pay_amount.clamped(), b.pay_amount.clamped());
        assert_eq!(a.recharge_deduction.clamped(), b.recharge_deduction.clamped());
        assert_eq!(a.total_amount.clamped(), b.total_amount.clamped());
        assert_eq!(a.order_count, b.order_count);
    }
    let mut sheet = vec![header];
    sheet.extend(rows);
    let r = analyze_sheet(&sheet).unwrap();
    let direct = analyze_table(&one, 25_000);
    assert_eq!(codes(&r), codes(&direct));
    assert_eq!(r.total_amount.clamped(), direct.total_amount.clamped());
    assert_eq!(r.top20_amount.clamped(), direct.top20_amount.clamped());
    assert_eq!(r.total_rows, 25_000);
}

#[test]
fn tables_reduce_from_the_first_to_the_last() {
    let header = vec![text("客户编码"), text("客户名称"), text("支付金额"), text("充值抵扣")];
    let columns = find_column_indices(&header).unwrap();
    let line = |code: &str, name: &str, pay: i64| vec![text(code), text(name), Data::Int(pay), Data::Int(0)];
    let first = vec![line("A", "", 1), line("B", "乙", 2)];
    let second = vec![line("C", "丙", 4), line("A", "甲", 8)];
    let parts = vec![totals_of_chunk(&first, &columns), totals_of_chunk(&second, &columns)];
    let table = reduce_tables(&parts);
    let got: Vec<(String, String, i128, u64)> = (0..table.len())
        .map(|i| {
            let e = table.get(i);
            (e.customer_code.clone(), e.customer_name.clone(), e.pay_amount.clamped(), e.order_count)
        })
        .collect();
    assert_eq!(
        got,
        vec![
            ("A".to_string(), "甲".to_string(), 9_000_000, 2),
            ("B".to_string(), "乙".to_string(), 2_000_000, 1),
            ("C".to_string(), "丙".to_string(), 4_000_000, 1),
        ]
    );
    assert_eq!(reduce_tables(&Vec::new()).len(), 0);
}

#[test]
fn eight_threads_give_what_one_thread_gives() {
    let header = vec![text("客户编码"), text("客户名称"), text("支付金额"), text("充值抵扣")];
    let columns = find_column_indices(&header).unwrap();
    let rows: Vec<Vec<Data>> = (0..25_000_u32)
        .map(|i| {
            vec![
                text(&format!("C{}", (i * 31) % 997)),
                text(if i % 5 == 0 { "" } else { "名" }),
                Data::Float(format!("{}.5", i % 89)),
                Data::Int(-((i % 3) as i64)),
            ]
        })
        .collect();
    let one = totals_of_chunk(&rows, &columns);
    for threads in [1_usize, 2, 8] {
        let pool = rayon::ThreadPoolBuilder::new().num_threads(threads).build().unwrap();
        let many = pool.install(|| aggregate_sheet(&rows, &columns));
        assert_eq!(pool.install(rayon::current_num_threads), threads);
        assert_eq!(many.len(), one.len());
        for i in 0..one.len() {
            let (a, b) = (one.get(i), many.get(i));
            assert_eq!(
                (&a.customer_code, &a.customer_name, a.pay_amount.clamped(), a.recharge_deduction.clamped(), a.total_amount.clamped(), a.order_count),
                (&b.customer_code, &b.customer_name, b.pay_amount.clamped(), b.recharge_deduction.clamped(), b.total_amount.clamped(), b.order_count),
                "{} threads, entry {}",
                threads,
                i
            );
        }
    }
}
