use customer_analyzer::customers::{aggregate_rows, aggregate_slice, merge_tables, CustomerTable};
use customer_analyzer::decimal::{Decimal, LIMIT};
use customer_analyzer::row::CachedRow;

fn row(code: &str, name: &str, pay: i128, recharge: i128) -> CachedRow {
    CachedRow {
        customer_code: code.to_string(),
        customer_name: name.to_string(),
        pay_amount: Decimal::from_micros(i128::from(pay)).unwrap(),
        recharge_deduction: Decimal::from_micros(i128::from(recharge)).unwrap(),
        province: None,
        city: None,
        district: None,
        region: None,
        month: None,
    }
}

fn summary(table: &CustomerTable) -> Vec<(String, String, i128, i128, i128, u64)> {
    (0..table.len())
        .map(|i| {
            let e = table.get(i);
            (
                e.customer_code.clone(),
                e.customer_name.clone(),
                e.pay_amount.clamped(),
                e.recharge_deduction.clamped(),
                e.total_amount.clamped(),
                e.order_count,
            )
        })
        .collect()
}

fn sample() -> Vec<CachedRow> {
    vec![
        row("A", "", 100, 1),
        row("B", "乙", 200, 2),
        row("A", "甲", 300, 3),
        row("C", "", -50, 0),
        row("A", "甲二", 5, 5),
        row("B", "", 7, 0),
        row("C", "丙", 50, 0),
    ]
}

#[test]
fn sums_and_counts_by_customer() {
    let table = aggregate_rows(&sample());
    assert_eq!(
        summary(&table),
        vec![
            ("A".to_string(), "甲".to_string(), 405, 9, 414, 3),
            ("B".to_string(), "乙".to_string(), 207, 2, 209, 2),
            ("C".to_string(), "丙".to_string(), 0, 0, 0, 2),
        ]
    );
}

#[test]
fn no_rows_give_an_empty_table() {
    let table = aggregate_rows(&Vec::new());
    assert_eq!(table.len(), 0);
    assert!(table.find("A").is_none());
    assert_eq!(CustomerTable::new().len(), 0);
}

#[test]
fn codes_are_told_apart_exactly() {
    let table = aggregate_rows(&vec![row("a", "", 1, 0), row("A", "", 2, 0), row("a ", "", 4, 0)]);
    assert_eq!(table.len(), 3);
    assert_eq!(table.find("a").unwrap().pay_amount.clamped(), 1);
    assert_eq!(table.find("A").unwrap().pay_amount.clamped(), 2);
    assert_eq!(table.find("a ").unwrap().pay_amount.clamped(), 4);
    assert!(table.find("b").is_none());
}

#[test]
fn order_counts_sum_to_the_number_of_rows() {
    let rows = sample();
    let table = aggregate_rows(&rows);
    let orders: u64 = (0..table.len()).map(|i| table.get(i).order_count).sum();
    assert_eq!(orders, rows.len() as u64);
    let total: i128 = (0..table.len()).map(|i| table.get(i).total_amount.clamped()).sum();
    let expected: i128 = rows.iter().map(|r| r.total_amount() as i128).sum();
    assert_eq!(total, expected);
}

#[test]
fn any_split_into_chunks_gives_the_same_table() {
    let rows = sample();
    let whole = summary(&aggregate_rows(&rows));
    for cut in 0..=rows.len() {
        let left = aggregate_slice(&rows[..cut]);
        let right = aggregate_slice(&rows[cut..]);
        assert_eq!(summary(&merge_tables(left, &right)), whole, "cut at {}", cut);
    }
    for size in 1..=rows.len() {
        let mut table = CustomerTable::new();
        for chunk in rows.chunks(size) {
            table = merge_tables(table, &aggregate_slice(chunk));
        }
        assert_eq!(summary(&table), whole, "chunks of {}", size);
    }
}

#[test]
fn the_first_name_that_is_not_empty_stays() {
    let left = aggregate_rows(&vec![row("A", "", 1, 0)]);
    let right = aggregate_rows(&vec![row("A", "甲", 1, 0), row("A", "乙", 1, 0)]);
    let merged = merge_tables(left, &right);
    assert_eq!(merged.find("A").unwrap().customer_name, "甲");
    let left = aggregate_rows(&vec![row("A", "乙", 1, 0)]);
    let right = aggregate_rows(&vec![row("A", "甲", 1, 0)]);
    assert_eq!(merge_tables(left, &right).find("A").unwrap().customer_name, "乙");
}

#[test]
fn merging_a_table_with_itself_doubles_it() {
    let rows = sample();
    let once = summary(&aggregate_rows(&rows));
    let twice = summary(&merge_tables(aggregate_rows(&rows), &aggregate_rows(&rows)));
    assert_eq!(once.len(), twice.len());
    for (a, b) in once.iter().zip(twice.iter()) {
        assert_eq!(b.0, a.0);
        assert_eq!(b.1, a.1);
        assert_eq!(b.2, 2 * a.2);
        assert_eq!(b.3, 2 * a.3);
        assert_eq!(b.4, 2 * a.4);
        assert_eq!(b.5, 2 * a.5);
    }
}

#[test]
fn amounts_at_the_limit_add_up() {
    let rows: Vec<CachedRow> = (0..50).map(|_| row("A", "", LIMIT, LIMIT)).collect();
    let table = aggregate_rows(&rows);
    let e = table.get(0);
    assert_eq!(e.pay_amount.clamped(), 50 * LIMIT);
    assert_eq!(e.total_amount.clamped(), 100 * LIMIT);
    assert_eq!(e.order_count, 50);
    let copy = e.duplicate();
    assert_eq!(copy.total_amount.clamped(), e.total_amount.clamped());
    table.inspect();
}

#[test]
fn sums_grow_beyond_the_widest_integer() {
    let rows: Vec<CachedRow> = (0..400).map(|_| row("A", "", LIMIT, -LIMIT)).collect();
    let table = aggregate_rows(&rows);
    let e = table.get(0);
    assert_eq!(e.pay_amount.high(), 400_000_000_000_000_000_000);
    assert_eq!(e.pay_amount.low(), 0);
    assert_eq!(e.pay_amount.clamped(), i128::MAX);
    assert_eq!(e.recharge_deduction.high(), -400_000_000_000_000_000_000);
    assert_eq!(e.recharge_deduction.low(), 0);
    assert_eq!(e.recharge_deduction.clamped(), i128::MIN);
    assert_eq!(e.total_amount.clamped(), 0);
    assert_eq!(e.order_count, 400);
    let doubled = merge_tables(aggregate_rows(&rows), &table);
    assert_eq!(doubled.get(0).pay_amount.high(), 800_000_000_000_000_000_000);
    assert_eq!(doubled.get(0).total_amount.clamped(), 0);
    assert_eq!(doubled.get(0).order_count, 800);
}
