//! Finding the columns of a sales sheet from its header row.

use vstd::prelude::*;
use crate::cell::{cell_text, trimmed_text, Data};
use crate::error::AnalysisError;
use crate::text::{same_text, trimmed};

verus! {

/// The fields that a sales sheet can hold.
#[derive(Clone, Copy, Debug, PartialEq, Eq, Structural)]
pub enum Field {
    /// The customer's code. Required.
    CustomerCode,
    /// The customer's name.
    CustomerName,
    /// The amount paid. Required.
    PayAmount,
    /// The amount covered by a recharge. Required.
    RechargeDeduction,
    /// The province.
    Province,
    /// The city.
    City,
    /// The district.
    District,
    /// The region, where the sheet gives it directly.
    Region,
    /// The date of the order.
    Date,
}

/// The field that a column labelled `label` holds, by the fixed table of
/// labels; `None` for any other label. Labels are matched exactly.
pub open spec fn field_of_label(label: Seq<char>) -> Option<Field> {
    if label == "客户编码"@ {
        Some(Field::CustomerCode)
    } else if label == "客户名称"@ || label == "客户"@ {
        Some(Field::CustomerName)
    } else if label == "支付金额"@ {
        Some(Field::PayAmount)
    } else if label == "充值抵扣"@ {
        Some(Field::RechargeDeduction)
    } else if label == "省"@ || label == "省份"@ {
        Some(Field::Province)
    } else if label == "市"@ || label == "城市"@ {
        Some(Field::City)
    } else if label == "区"@ || label == "区县"@ || label == "县"@ {
        Some(Field::District)
    } else if label == "地区"@ || label == "区域"@ {
        Some(Field::Region)
    } else if is_date_label(label) {
        Some(Field::Date)
    } else {
        None
    }
}

/// Whether `label` is one of the labels of a date column.
pub open spec fn is_date_label(label: Seq<char>) -> bool {
    ||| label == "日期"@
    ||| label == "订单日期"@
    ||| label == "下单日期"@
    ||| label == "创建时间"@
    ||| label == "下单时间"@
    ||| label == "支付时间"@
    ||| label == "付款时间"@
    ||| label == "交易时间"@
    ||| label == "时间"@
    ||| label == "成交时间"@
    ||| label == "签约时间"@
    ||| label == "出库时间"@
    ||| label == "出库日期"@
    ||| label == "发货时间"@
    ||| label == "发货日期"@
    ||| label == "完成时间"@
    ||| label == "完成日期"@
    ||| label == "结算时间"@
    ||| label == "结算日期"@
}

/// The field that the header cell `cell` names: that of its trimmed text.
pub open spec fn header_field(cell: Data) -> Option<Field> {
    field_of_label(trimmed(cell_text(cell)))
}

/// The first column of `header` that holds `field`, if any does.
pub open spec fn first_column(header: Seq<Data>, field: Field) -> Option<usize>
    decreases header.len(),
{
    if header.len() == 0 {
        None
    } else {
        match first_column(header.drop_last(), field) {
            Some(i) => Some(i),
            None => if header_field(header.last()) == Some(field) {
                Some((header.len() - 1) as usize)
            } else {
                None
            },
        }
    }
}

/// The first required field that `header` lacks, in the order amount paid,
/// customer code, recharge deduction: a header without any required column
/// lacks the amount paid.
pub open spec fn missing_field(header: Seq<Data>) -> Option<Field> {
    if first_column(header, Field::PayAmount) is None {
        Some(Field::PayAmount)
    } else if first_column(header, Field::CustomerCode) is None {
        Some(Field::CustomerCode)
    } else if first_column(header, Field::RechargeDeduction) is None {
        Some(Field::RechargeDeduction)
    } else {
        None
    }
}

/// Where each field stands in a sheet. The three required fields always
/// have a column; the others may have none.
#[derive(Clone, Copy, Debug)]
pub struct ColumnIndices {
    pub customer_code: usize,
    pub customer_name: Option<usize>,
    pub pay_amount: usize,
    pub recharge_deduction: usize,
    pub province: Option<usize>,
    pub city: Option<usize>,
    pub district: Option<usize>,
    pub region: Option<usize>,
    pub date: Option<usize>,
}

impl ColumnIndices {
    /// The column of `field`, if it has one.
    pub open spec fn column(self, field: Field) -> Option<usize> {
        match field {
            Field::CustomerCode => Some(self.customer_code),
            Field::CustomerName => self.customer_name,
            Field::PayAmount => Some(self.pay_amount),
            Field::RechargeDeduction => Some(self.recharge_deduction),
            Field::Province => self.province,
            Field::City => self.city,
            Field::District => self.district,
            Field::Region => self.region,
            Field::Date => self.date,
        }
    }

    /// Whether these are the columns that `header` gives: for every field,
    /// the first column that holds it.
    pub open spec fn resolves(self, header: Seq<Data>) -> bool {
        forall|field: Field| #[trigger] self.column(field) == first_column(header, field)
    }
}

/// The columns that `header` gives: for every field the first column that
/// holds it.
pub open spec fn columns_of(header: Seq<Data>) -> ColumnIndices {
    ColumnIndices {
        customer_code: first_column(header, Field::CustomerCode)->0,
        customer_name: first_column(header, Field::CustomerName),
        pay_amount: first_column(header, Field::PayAmount)->0,
        recharge_deduction: first_column(header, Field::RechargeDeduction)->0,
        province: first_column(header, Field::Province),
        city: first_column(header, Field::City),
        district: first_column(header, Field::District),
        region: first_column(header, Field::Region),
        date: first_column(header, Field::Date),
    }
}

/// The columns found so far, one slot for each field.
struct Slots {
    customer_code: Option<usize>,
    customer_name: Option<usize>,
    pay_amount: Option<usize>,
    recharge_deduction: Option<usize>,
    province: Option<usize>,
    city: Option<usize>,
    district: Option<usize>,
    region: Option<usize>,
    date: Option<usize>,
}

impl Slots {
    /// The column found for `field` so far.
    spec fn slot(self, field: Field) -> Option<usize> {
        match field {
            Field::CustomerCode => self.customer_code,
            Field::CustomerName => self.customer_name,
            Field::PayAmount => self.pay_amount,
            Field::RechargeDeduction => self.recharge_deduction,
            Field::Province => self.province,
            Field::City => self.city,
            Field::District => self.district,
            Field::Region => self.region,
            Field::Date => self.date,
        }
    }

    /// Notes that column `idx` holds `field`, unless an earlier column did.
    fn note(&mut self, field: Field, idx: usize)
        ensures
            forall|f: Field|
                #[trigger] final(self).slot(f) == if f == field && old(self).slot(f) is None {
                    Some(idx)
                } else {
                    old(self).slot(f)
                },
    {
        match field {
            Field::CustomerCode => if self.customer_code.is_none() {
                self.customer_code = Some(idx);
            },
            Field::CustomerName => if self.customer_name.is_none() {
                self.customer_name = Some(idx);
            },
            Field::PayAmount => if self.pay_amount.is_none() {
                self.pay_amount = Some(idx);
            },
            Field::RechargeDeduction => if self.recharge_deduction.is_none() {
                self.recharge_deduction = Some(idx);
            },
            Field::Province => if self.province.is_none() {
                self.province = Some(idx);
            },
            Field::City => if self.city.is_none() {
                self.city = Some(idx);
            },
            Field::District => if self.district.is_none() {
                self.district = Some(idx);
            },
            Field::Region => if self.region.is_none() {
                self.region = Some(idx);
            },
            Field::Date => if self.date.is_none() {
                self.date = Some(idx);
            },
        }
    }
}

/// Tells whether `label` is one of the labels of a date column.
fn labels_date(label: &str) -> (b: bool)
    ensures
        b == is_date_label(label@),
{
    same_text(label, "日期") || same_text(label, "订单日期") || same_text(label, "下单日期")
        || same_text(label, "创建时间") || same_text(label, "下单时间") || same_text(
        label,
        "支付时间",
    ) || same_text(label, "付款时间") || same_text(label, "交易时间") || same_text(label, "时间")
        || same_text(label, "成交时间") || same_text(label, "签约时间") || same_text(
        label,
        "出库时间",
    ) || same_text(label, "出库日期") || same_text(label, "发货时间") || same_text(
        label,
        "发货日期",
    ) || same_text(label, "完成时间") || same_text(label, "完成日期") || same_text(
        label,
        "结算时间",
    ) || same_text(label, "结算日期")
}

/// Looks `label` up in the table of labels.
pub fn field_for_label(label: &str) -> (r: Option<Field>)
    ensures
        r == field_of_label(label@),
{
    if same_text(label, "客户编码") {
        Some(Field::CustomerCode)
    } else if same_text(label, "客户名称") || same_text(label, "客户") {
        Some(Field::CustomerName)
    } else if same_text(label, "支付金额") {
        Some(Field::PayAmount)
    } else if same_text(label, "充值抵扣") {
        Some(Field::RechargeDeduction)
    } else if same_text(label, "省") || same_text(label, "省份") {
        Some(Field::Province)
    } else if same_text(label, "市") || same_text(label, "城市") {
        Some(Field::City)
    } else if same_text(label, "区") || same_text(label, "区县") || same_text(label, "县") {
        Some(Field::District)
    } else if same_text(label, "地区") || same_text(label, "区域") {
        Some(Field::Region)
    } else if labels_date(label) {
        Some(Field::Date)
    } else {
        None
    }
}

/// Finds the columns of a sheet from its header row.
///
/// Each header cell is read as text and trimmed; where several columns carry
/// a label of the same field, the first one counts. Fails if a required
/// field has no column, naming the amount paid if that is missing, else the
/// customer code, else the recharge deduction.
pub fn find_column_indices(header: &Vec<Data>) -> (r: Result<ColumnIndices, AnalysisError>)
    ensures
        match r {
            Ok(columns) => missing_field(header@) is None && columns.resolves(header@) && columns
                == columns_of(header@),
            Err(e) => missing_field(header@) matches Some(field) && e
                == AnalysisError::MissingColumn(field),
        },
{
    let mut slots = Slots {
        customer_code: None,
        customer_name: None,
        pay_amount: None,
        recharge_deduction: None,
        province: None,
        city: None,
        district: None,
        region: None,
        date: None,
    };
    let mut idx: usize = 0;
    while idx < header.len()
        invariant
            idx <= header.len(),
            forall|f: Field| #[trigger] slots.slot(f) == first_column(header@.take(idx as int), f),
        decreases header.len() - idx,
    {
        let label = trimmed_text(&header[idx]);
        let found = field_for_label(label.as_str());
        let ghost before = slots;
        match found {
            Some(field) => {
                slots.note(field, idx);
            },
            None => {},
        }
        proof {
            let next = header@.take(idx + 1);
            assert(next.drop_last() == header@.take(idx as int));
            assert(next.last() == header@[idx as int]);
            assert forall|f: Field| #[trigger]
                slots.slot(f) == first_column(header@.take(idx + 1), f) by {
                assert(before.slot(f) == first_column(header@.take(idx as int), f));
            }
        }
        idx += 1;
    }
    assert(header@.take(idx as int) == header@);
    assert(slots.slot(Field::CustomerCode) == first_column(header@, Field::CustomerCode));
    assert(slots.slot(Field::PayAmount) == first_column(header@, Field::PayAmount));
    assert(slots.slot(Field::RechargeDeduction) == first_column(
        header@,
        Field::RechargeDeduction,
    ));
    let pay_amount = match slots.pay_amount {
        Some(i) => i,
        None => {
            return Err(AnalysisError::MissingColumn(Field::PayAmount));
        },
    };
    let customer_code = match slots.customer_code {
        Some(i) => i,
        None => {
            return Err(AnalysisError::MissingColumn(Field::CustomerCode));
        },
    };
    let recharge_deduction = match slots.recharge_deduction {
        Some(i) => i,
        None => {
            return Err(AnalysisError::MissingColumn(Field::RechargeDeduction));
        },
    };
    let columns = ColumnIndices {
        customer_code,
        customer_name: slots.customer_name,
        pay_amount,
        recharge_deduction,
        province: slots.province,
        city: slots.city,
        district: slots.district,
        region: slots.region,
        date: slots.date,
    };
    assert forall|f: Field| #[trigger] columns.column(f) == first_column(header@, f) by {
        assert(slots.slot(f) == first_column(header@, f));
    }
    assert(columns == columns_of(header@)) by {
        assert(columns.column(Field::CustomerCode) == first_column(header@, Field::CustomerCode));
        assert(columns.column(Field::CustomerName) == first_column(header@, Field::CustomerName));
        assert(columns.column(Field::PayAmount) == first_column(header@, Field::PayAmount));
        assert(columns.column(Field::RechargeDeduction) == first_column(
            header@,
            Field::RechargeDeduction,
        ));
        assert(columns.column(Field::Province) == first_column(header@, Field::Province));
        assert(columns.column(Field::City) == first_column(header@, Field::City));
        assert(columns.column(Field::District) == first_column(header@, Field::District));
        assert(columns.column(Field::Region) == first_column(header@, Field::Region));
        assert(columns.column(Field::Date) == first_column(header@, Field::Date));
    }
    Ok(columns)
}

} // verus!
