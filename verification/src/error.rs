//! The failures that the analyses report.

use vstd::prelude::*;
use vstd::string::*;
use crate::columns::Field;

verus! {

/// Why an analysis could not be made.
#[derive(Debug)]
pub enum AnalysisError {
    /// The sheet has no rows, not even a header.
    EmptySheet,
    /// The header has no column for a required field.
    MissingColumn(Field),
    /// A trend was asked for without a target.
    NoTarget,
    /// A merge was asked for without any source.
    EmptySourceList,
    /// A merge names a source that has not been loaded.
    SourceNotLoaded(String),
    /// The user called the work off, and a checkpoint saw it.
    Cancelled,
}

/// The label under which `field` is looked for first.
pub open spec fn field_label(field: Field) -> Seq<char> {
    match field {
        Field::CustomerCode => "客户编码"@,
        Field::CustomerName => "客户名称"@,
        Field::PayAmount => "支付金额"@,
        Field::RechargeDeduction => "充值抵扣"@,
        Field::Province => "省"@,
        Field::City => "市"@,
        Field::District => "区"@,
        Field::Region => "地区"@,
        Field::Date => "日期"@,
    }
}

/// The message that tells a user of `error`.
pub open spec fn message_of(error: AnalysisError) -> Seq<char> {
    match error {
        AnalysisError::EmptySheet => "Excel文件为空"@,
        AnalysisError::MissingColumn(field) => "缺少必需列: "@ + field_label(field),
        AnalysisError::NoTarget => "请选择分析目标"@,
        AnalysisError::EmptySourceList => "请选择数据源"@,
        AnalysisError::SourceNotLoaded(id) => "数据源尚未加载: "@ + id@,
        AnalysisError::Cancelled => "用户取消操作"@,
    }
}

/// The label under which `field` is looked for first.
pub fn label_of(field: Field) -> (r: &'static str)
    ensures
        r@ == field_label(field),
{
    match field {
        Field::CustomerCode => "客户编码",
        Field::CustomerName => "客户名称",
        Field::PayAmount => "支付金额",
        Field::RechargeDeduction => "充值抵扣",
        Field::Province => "省",
        Field::City => "市",
        Field::District => "区",
        Field::Region => "地区",
        Field::Date => "日期",
    }
}

impl AnalysisError {
    /// The message that tells a user of this failure.
    pub fn message(&self) -> (r: String)
        ensures
            r@ == message_of(*self),
    {
        match self {
            AnalysisError::EmptySheet => String::from_str("Excel文件为空"),
            AnalysisError::MissingColumn(field) => {
                let mut r = String::from_str("缺少必需列: ");
                r.append(label_of(*field));
                r
            },
            AnalysisError::NoTarget => String::from_str("请选择分析目标"),
            AnalysisError::EmptySourceList => String::from_str("请选择数据源"),
            AnalysisError::SourceNotLoaded(id) => {
                let mut r = String::from_str("数据源尚未加载: ");
                r.append(id.as_str());
                r
            },
            AnalysisError::Cancelled => String::from_str("用户取消操作"),
        }
    }
}

/// Stops the work at a checkpoint if the user has called it off. Work is
/// never stopped between checkpoints.
pub fn checkpoint(cancelled: bool) -> (r: Result<(), AnalysisError>)
    ensures
        match r {
            Ok(_) => !cancelled,
            Err(e) => cancelled && e == AnalysisError::Cancelled,
        },
{
    if cancelled {
        Err(AnalysisError::Cancelled)
    } else {
        Ok(())
    }
}

} // verus!
