use std::cell::{Cell, RefCell};

use customer_analyzer::cell::Data;
use customer_analyzer::columns::Field;
use customer_analyzer::error::{checkpoint, AnalysisError};
use customer_analyzer::loading::{load_excel_file, load_sheet};
use customer_analyzer::processor::{analyze_sheet, process_excel_file};
use customer_analyzer::progress::{count_detail, is_report_due, notice, parsing_progress, ProcessProgress};

fn text(s: &str) -> Data {
    Data::String(s.to_string())
}

fn sheet(rows: usize) -> Vec<Vec<Data>> {
    let mut out = vec![vec![text("客户编码"), text("客户名称"), text("支付金额"), text("充值抵扣"), text("省")]];
    for i in 0..rows {
        out.push(vec![text(&format!("C{}", i % 7)), text("名"), Data::Int(i as i64), Data::Int(1), text("广东")]);
    }
    out
}

fn after(calls: usize) -> (Cell<usize>, usize) {
    (Cell::new(0), calls)
}

#[test]
fn a_checkpoint_stops_only_when_the_work_is_called_off() {
    assert!(checkpoint(false).is_ok());
    assert!(matches!(checkpoint(true), Err(AnalysisError::Cancelled)));
    assert_eq!(AnalysisError::Cancelled.message(), "用户取消操作");
}

#[test]
fn reporting_runs_to_the_end_when_not_called_off() {
    let rows = sheet(50);
    let notices: RefCell<Vec<ProcessProgress>> = RefCell::new(Vec::new());
    let report = process_excel_file(&rows, || false, |n| notices.borrow_mut().push(n)).unwrap();
    let plain = analyze_sheet(&rows).unwrap();
    assert_eq!(report.total_rows, 50);
    assert_eq!(report.total_customers, plain.total_customers);
    assert_eq!(report.total_amount.clamped(), plain.total_amount.clamped());
    assert_eq!(report.top20_amount.clamped(), plain.top20_amount.clamped());
    let codes = |r: &customer_analyzer::ranking::AnalysisResult| -> Vec<String> {
        r.top20.iter().map(|c| c.customer_code.clone()).collect()
    };
    assert_eq!(codes(&report), codes(&plain));
    let seen: Vec<(String, String, u32, String)> =
        notices.into_inner().into_iter().map(|n| (n.step, n.message, n.percent, n.detail)).collect();
    assert_eq!(
        seen,
        vec![
            ("2/4".to_string(), "数据读取完成".to_string(), 30, "共 50 行数据".to_string()),
            ("3/4".to_string(), "正在分析客户数据...".to_string(), 40, "使用多线程并行处理...".to_string()),
            ("3/4".to_string(), "正在合并处理结果...".to_string(), 70, "处理了 1 个数据块".to_string()),
            ("4/4".to_string(), "正在生成排行榜...".to_string(), 85, "发现 7 个不同客户".to_string()),
        ]
    );
}

#[test]
fn reporting_stops_at_each_checkpoint() {
    let rows = sheet(10);
    for stop_at in 1..=3 {
        let (asked, limit) = after(stop_at);
        let told = Cell::new(0_usize);
        let r = process_excel_file(
            &rows,
            || {
                asked.set(asked.get() + 1);
                asked.get() >= limit
            },
            |_| told.set(told.get() + 1),
        );
        assert!(matches!(r, Err(AnalysisError::Cancelled)), "checkpoint {}", stop_at);
        assert_eq!(asked.get(), stop_at);
        assert_eq!(told.get(), [0, 2, 2][stop_at - 1]);
    }
    let (asked, _) = after(0);
    let r = process_excel_file(
        &rows,
        || {
            asked.set(asked.get() + 1);
            false
        },
        |_| {},
    );
    assert!(r.is_ok());
    assert_eq!(asked.get(), 3);
}

#[test]
fn reporting_fails_as_analysing_does() {
    assert!(matches!(process_excel_file(&Vec::new(), || true, |_| {}), Err(AnalysisError::EmptySheet)));
    let rows = vec![vec![text("客户编码"), text("充值抵扣")]];
    assert!(matches!(process_excel_file(&rows, || false, |_| {}), Err(AnalysisError::MissingColumn(Field::PayAmount))));
    assert!(matches!(process_excel_file(&rows, || true, |_| {}), Err(AnalysisError::Cancelled)));
}

#[test]
fn loading_tells_of_its_progress() {
    let rows = sheet(20_001);
    let notices: RefCell<Vec<ProcessProgress>> = RefCell::new(Vec::new());
    let loaded = load_excel_file("big.xlsx", &rows, || false, |n| notices.borrow_mut().push(n)).unwrap();
    let plain = load_sheet("big.xlsx", &rows).unwrap();
    assert_eq!(loaded.file_path, "big.xlsx");
    assert_eq!(loaded.total_rows, 20_001);
    assert_eq!(loaded.cached_rows.len(), plain.cached_rows.len());
    assert_eq!(loaded.available_provinces, plain.available_provinces);
    assert_eq!(loaded.available_customers.len(), 7);
    let seen: Vec<(String, u32, String)> =
        notices.into_inner().into_iter().map(|n| (n.step, n.percent, n.detail)).collect();
    assert_eq!(
        seen,
        vec![
            ("2/3".to_string(), 40, "共 20001 行数据".to_string()),
            ("2/3".to_string(), 40, "已处理 0 / 20001 行".to_string()),
            ("2/3".to_string(), 64, "已处理 10000 / 20001 行".to_string()),
            ("2/3".to_string(), 89, "已处理 20000 / 20001 行".to_string()),
            ("3/3".to_string(), 95, "生成选项列表...".to_string()),
        ]
    );
}

#[test]
fn loading_stops_at_its_checkpoint() {
    let rows = sheet(3);
    let told = Cell::new(0_usize);
    let r = load_excel_file("x", &rows, || true, |_| told.set(told.get() + 1));
    assert!(matches!(r, Err(AnalysisError::Cancelled)));
    assert_eq!(told.get(), 1);
    assert!(matches!(load_excel_file("x", &Vec::new(), || true, |_| {}), Err(AnalysisError::EmptySheet)));
    let headless = vec![vec![text("支付金额")]];
    assert!(matches!(load_excel_file("x", &headless, || false, |_| {}), Err(AnalysisError::MissingColumn(Field::CustomerCode))));
}

#[test]
fn progress_of_parsing_goes_from_forty_to_ninety() {
    assert_eq!(parsing_progress(0, 100).percent, 40);
    assert_eq!(parsing_progress(50, 100).percent, 65);
    assert_eq!(parsing_progress(100, 100).percent, 90);
    assert_eq!(parsing_progress(10_000, 30_000).percent, 56);
    assert_eq!(parsing_progress(1, 3).percent, 56);
    assert_eq!(parsing_progress(0, 0).percent, 90);
    assert_eq!(parsing_progress(5, 3).percent, 90);
    assert_eq!(parsing_progress(usize::MAX, usize::MAX).percent, 90);
    let n = parsing_progress(10_000, 30_000);
    assert_eq!(n.step, "2/3");
    assert_eq!(n.message, "正在解析数据...");
    assert_eq!(n.detail, "已处理 10000 / 30000 行");
    assert!(is_report_due(0));
    assert!(is_report_due(10_000));
    assert!(!is_report_due(1));
    assert!(!is_report_due(9_999));
    assert_eq!(count_detail("共 ", 12, " 行数据"), "共 12 行数据");
    let made = notice("1/3", "开始", 5, "细节".to_string());
    assert_eq!((made.step.as_str(), made.message.as_str(), made.percent, made.detail.as_str()), ("1/3", "开始", 5, "细节"));
}
