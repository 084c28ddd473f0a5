//! What is told of the progress of loading a sheet.

use vstd::prelude::*;
use vstd::string::*;
use crate::text::{append_nat, nat_digits};

verus! {

/// After how many rows the progress of parsing is told again.
pub const REPORT_EVERY: usize = 10000;

/// One notice of progress.
#[derive(Debug)]
pub struct ProcessProgress {
    /// The step of the work, such as `2/3`.
    pub step: String,
    pub message: String,
    /// How far the work is, from 0 to 100.
    pub percent: u32,
    pub detail: String,
}

/// How far the work is when `done` of `total` rows are parsed: parsing
/// takes it from 40 to 90 percent.
pub open spec fn parsing_percent(done: int, total: int) -> int {
    if total > 0 && done <= total {
        40 + done * 50 / total
    } else {
        90
    }
}

/// The words that tell that `done` of `total` rows are parsed.
pub open spec fn parsing_detail(done: nat, total: nat) -> Seq<char> {
    "已处理 "@ + nat_digits(done) + " / "@ + nat_digits(total) + " 行"@
}

/// The words `before`, the number `count` and the words `after`, in a row.
pub open spec fn counted(before: Seq<char>, count: nat, after: Seq<char>) -> Seq<char> {
    before + nat_digits(count) + after
}

/// A notice of the given step, message, percentage and detail.
pub fn notice(step: &str, message: &str, percent: u32, detail: String) -> (n: ProcessProgress)
    ensures
        n.step@ == step@,
        n.message@ == message@,
        n.percent == percent,
        n.detail == detail,
{
    ProcessProgress {
        step: String::from_str(step),
        message: String::from_str(message),
        percent,
        detail,
    }
}

/// Writes the words `before`, the number `count` and the words `after`.
pub fn count_detail(before: &str, count: usize, after: &str) -> (detail: String)
    ensures
        detail@ == counted(before@, count as nat, after@),
{
    let mut detail = String::from_str(before);
    append_nat(&mut detail, count as u64);
    detail.append(after);
    detail
}

/// Tells whether progress is told before row `index` is parsed.
pub fn is_report_due(index: usize) -> (due: bool)
    ensures
        due == (index % REPORT_EVERY == 0),
{
    index % REPORT_EVERY == 0
}

/// The notice that `done` of `total` rows are parsed.
pub fn parsing_progress(done: usize, total: usize) -> (notice: ProcessProgress)
    ensures
        notice.step@ == "2/3"@,
        notice.message@ == "正在解析数据..."@,
        notice.percent == parsing_percent(done as int, total as int),
        40 <= notice.percent <= 90,
        notice.detail@ == parsing_detail(done as nat, total as nat),
{
    let percent: u32 = if total > 0 && done <= total {
        let share: u128 = (done as u128) * 50 / (total as u128);
        assert(share <= 50) by (nonlinear_arith)
            requires
                share as int == (done as int * 50) / (total as int),
                0 <= done <= total,
                total > 0,
        ;
        40 + share as u32
    } else {
        90
    };
    let mut detail = String::from_str("已处理 ");
    append_nat(&mut detail, done as u64);
    detail.append(" / ");
    append_nat(&mut detail, total as u64);
    detail.append(" 行");
    ProcessProgress {
        step: String::from_str("2/3"),
        message: String::from_str("正在解析数据..."),
        percent,
        detail,
    }
}

} // verus!
