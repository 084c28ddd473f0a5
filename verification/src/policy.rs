//! Matching sales against promotion policies: a sale takes the label of the
//! first policy for its product that is in force on the day of the order
//! and whose price after the promotion lies below the settlement price.

use rayon::iter::{IntoParallelRefIterator, ParallelIterator};
use vstd::prelude::*;
use vstd::slice::slice_subrange;
use vstd::string::*;
use crate::cell::{
    cell_number, cell_text, data_to_string, error_name, error_text, parse_number, trimmed_text, Data,
};
use crate::dates::{
    date_of_text, excel_date_to_string, order_date_of, parse_date, parse_date_from_analysis,
    serial_as_text,
};
use crate::decimal::Decimal;
use crate::error::AnalysisError;
use crate::text::{same_text, trim, trimmed};

verus! {

/// The column of the policy sheet that holds the label of the promotion.
pub const ACTIVITY_COLUMN: usize = 17;

/// One sale. Prices, rates and quantities are in millionths.
#[derive(Debug)]
pub struct OutOfPolicyRow {
    pub order_date: String,
    pub sales_order_no: String,
    pub customer_code: String,
    pub customer_name: String,
    pub product_code: String,
    pub generic_name: String,
    pub sales_price: Decimal,
    pub settlement_price: Decimal,
    pub listed_price: Decimal,
    pub is_below_listed: String,
    pub is_in_policy: String,
    /// The label of the promotion that the sale falls under.
    pub policy: String,
    pub base_price_after_policy: Decimal,
    pub gross_margin_rate: Decimal,
    pub sales_quantity: Decimal,
    pub pay_amount: Decimal,
}

/// One promotion policy.
#[derive(Debug)]
pub struct ActivityPolicyRow {
    pub product_code: String,
    /// The label of the promotion.
    pub platform_activity: String,
    /// The first day on which the policy is in force.
    pub start_date: String,
    /// The last day on which the policy is in force.
    pub end_date: String,
    /// The price of the product after the promotion.
    pub activity_price: Decimal,
}

/// The sales of a sheet, each with the label of its policy.
#[derive(Debug)]
pub struct OutOfPolicyResult {
    pub file_path: String,
    pub rows: Vec<OutOfPolicyRow>,
    pub total_rows: usize,
    /// The time the work took, as the caller measured it; zero until then.
    pub load_time_ms: u64,
}

/// The model of an [`OutOfPolicyRow`].
pub struct Sale {
    pub order_date: Seq<char>,
    pub sales_order_no: Seq<char>,
    pub customer_code: Seq<char>,
    pub customer_name: Seq<char>,
    pub product_code: Seq<char>,
    pub generic_name: Seq<char>,
    pub sales_price: int,
    pub settlement_price: int,
    pub listed_price: int,
    pub is_below_listed: Seq<char>,
    pub is_in_policy: Seq<char>,
    pub policy: Seq<char>,
    pub base_price_after_policy: int,
    pub gross_margin_rate: int,
    pub sales_quantity: int,
    pub pay_amount: int,
}

/// The model of an [`ActivityPolicyRow`].
pub struct Policy {
    pub product_code: Seq<char>,
    pub platform_activity: Seq<char>,
    pub start_date: Seq<char>,
    pub end_date: Seq<char>,
    pub activity_price: int,
}

impl View for OutOfPolicyRow {
    type V = Sale;

    open spec fn view(&self) -> Sale {
        Sale {
            order_date: self.order_date@,
            sales_order_no: self.sales_order_no@,
            customer_code: self.customer_code@,
            customer_name: self.customer_name@,
            product_code: self.product_code@,
            generic_name: self.generic_name@,
            sales_price: self.sales_price@,
            settlement_price: self.settlement_price@,
            listed_price: self.listed_price@,
            is_below_listed: self.is_below_listed@,
            is_in_policy: self.is_in_policy@,
            policy: self.policy@,
            base_price_after_policy: self.base_price_after_policy@,
            gross_margin_rate: self.gross_margin_rate@,
            sales_quantity: self.sales_quantity@,
            pay_amount: self.pay_amount@,
        }
    }
}

impl View for ActivityPolicyRow {
    type V = Policy;

    open spec fn view(&self) -> Policy {
        Policy {
            product_code: self.product_code@,
            platform_activity: self.platform_activity@,
            start_date: self.start_date@,
            end_date: self.end_date@,
            activity_price: self.activity_price@,
        }
    }
}

/// The models of `policies`, in order.
pub open spec fn policy_views(policies: Seq<ActivityPolicyRow>) -> Seq<Policy> {
    policies.map_values(|p: ActivityPolicyRow| p@)
}

/// Whether the day `a` is the day `b` or an earlier one.
pub open spec fn day_not_after(a: (int, int, int), b: (int, int, int)) -> bool {
    ||| a.0 < b.0
    ||| a.0 == b.0 && a.1 < b.1
    ||| a.0 == b.0 && a.1 == b.1 && a.2 <= b.2
}

/// Whether `policy` covers a sale of the product `product_code`, ordered
/// on `date` and settled at `price`: it is for that product, both its dates
/// can be read, `date` is neither before the first nor after the last, and
/// `price` is above the price after the promotion.
pub open spec fn policy_applies(policy: Policy, product_code: Seq<char>, date: (int, int, int), price: int) -> bool {
    &&& policy.product_code == product_code
    &&& date_of_text(policy.start_date) matches Some(start) && day_not_after(start, date)
    &&& date_of_text(policy.end_date) matches Some(end) && day_not_after(date, end)
    &&& price > policy.activity_price
}

/// The place of the first of `policies` that covers the sale.
pub open spec fn first_applying(
    policies: Seq<Policy>,
    product_code: Seq<char>,
    date: (int, int, int),
    price: int,
) -> Option<int>
    decreases policies.len(),
{
    if policies.len() == 0 {
        None
    } else {
        match first_applying(policies.drop_last(), product_code, date, price) {
            Some(i) => Some(i),
            None => if policy_applies(policies.last(), product_code, date, price) {
                Some(policies.len() - 1)
            } else {
                None
            },
        }
    }
}

/// The label that `sale` gets from `policies`: that of the first policy
/// that covers it; its own where none does or the day of the order cannot
/// be read.
pub open spec fn label_of(sale: Sale, policies: Seq<Policy>) -> Seq<char> {
    match order_date_of(sale.order_date) {
        Some(date) => match first_applying(
            policies,
            sale.product_code,
            date,
            sale.settlement_price,
        ) {
            Some(i) => policies[i].platform_activity,
            None => sale.policy,
        },
        None => sale.policy,
    }
}

/// `sale` with the label that it gets from `policies`.
pub open spec fn labelled(sale: Sale, policies: Seq<Policy>) -> Sale {
    Sale { policy: label_of(sale, policies), ..sale }
}

/// Whether the header cell `cell` is text that reads `name` when trimmed.
pub open spec fn names_column(cell: Data, name: Seq<char>) -> bool {
    match cell {
        Data::String(s) => trimmed(s@) == name,
        _ => false,
    }
}

/// The column of `header` named `name`: the last one, if several are.
pub open spec fn named_column(header: Seq<Data>, name: Seq<char>) -> Option<usize>
    decreases header.len(),
{
    if header.len() == 0 {
        None
    } else if names_column(header.last(), name) {
        Some((header.len() - 1) as usize)
    } else {
        named_column(header.drop_last(), name)
    }
}

/// The cell of `row` in column `col`, if there is one.
pub open spec fn cell_in(row: Seq<Data>, col: Option<usize>) -> Option<Data> {
    match col {
        Some(i) => if i < row.len() {
            Some(row[i as int])
        } else {
            None
        },
        None => None,
    }
}

/// The cell `cell` of a sale read as text: text is trimmed, an error reads
/// `Error(..)` around its name, a duration reads as nothing, and every
/// other cell reads as it does elsewhere.
pub open spec fn sale_text(cell: Data) -> Seq<char> {
    match cell {
        Data::String(s) => trimmed(s@),
        Data::Error(e) => "Error("@ + error_name(e) + ")"@,
        Data::DurationIso(_) => Seq::empty(),
        _ => cell_text(cell),
    }
}

/// The cell `cell` of a sale read as a date: text is trimmed, a serial day
/// number is written with slashes, everything else reads as nothing.
pub open spec fn sale_date(cell: Data) -> Seq<char> {
    match cell {
        Data::String(s) => trimmed(s@),
        Data::Float(s) => serial_as_text(s@),
        Data::DateTime(s) => serial_as_text(s@),
        _ => Seq::empty(),
    }
}

/// The text in column `col` of `row`; empty where there is no such cell.
pub open spec fn text_in(row: Seq<Data>, col: Option<usize>) -> Seq<char> {
    match cell_in(row, col) {
        Some(c) => sale_text(c),
        None => Seq::empty(),
    }
}

/// The number in column `col` of `row`; zero where there is no such cell.
pub open spec fn number_in(row: Seq<Data>, col: Option<usize>) -> int {
    match cell_in(row, col) {
        Some(c) => cell_number(c),
        None => 0,
    }
}

/// The date in column `col` of `row`; empty where there is no such cell.
pub open spec fn date_in(row: Seq<Data>, col: Option<usize>) -> Seq<char> {
    match cell_in(row, col) {
        Some(c) => sale_date(c),
        None => Seq::empty(),
    }
}

/// Where each field of a sale stands in a sheet of sales.
#[derive(Clone, Copy, Debug)]
pub struct SaleColumns {
    pub order_date: Option<usize>,
    pub sales_order_no: Option<usize>,
    pub customer_code: Option<usize>,
    pub customer_name: Option<usize>,
    pub product_code: Option<usize>,
    pub generic_name: Option<usize>,
    pub sales_price: Option<usize>,
    pub settlement_price: Option<usize>,
    pub listed_price: Option<usize>,
    pub is_below_listed: Option<usize>,
    pub is_in_policy: Option<usize>,
    pub policy: Option<usize>,
    pub base_price_after_policy: Option<usize>,
    pub gross_margin_rate: Option<usize>,
    pub sales_quantity: Option<usize>,
    pub pay_amount: Option<usize>,
}

/// Where each field of a policy stands in a sheet of policies; the label
/// of the promotion always stands in column `ACTIVITY_COLUMN`.
#[derive(Clone, Copy, Debug)]
pub struct PolicyColumns {
    pub product_code: Option<usize>,
    pub start_date: Option<usize>,
    pub end_date: Option<usize>,
    pub activity_price: Option<usize>,
}

/// The columns of a sheet of sales with the header `header`.
pub open spec fn sale_columns_of(header: Seq<Data>) -> SaleColumns {
    SaleColumns {
        order_date: named_column(header, "下单日期"@),
        sales_order_no: named_column(header, "销售单号"@),
        customer_code: named_column(header, "客户编码"@),
        customer_name: named_column(header, "客户名称"@),
        product_code: named_column(header, "商品编码"@),
        generic_name: named_column(header, "通用名"@),
        sales_price: named_column(header, "销售单价/积分"@),
        settlement_price: named_column(header, "结算单价"@),
        listed_price: named_column(header, "挂网价"@),
        is_below_listed: named_column(header, "是否低于挂网"@),
        is_in_policy: named_column(header, "是否活动政策内"@),
        policy: named_column(header, "活动政策"@),
        base_price_after_policy: named_column(header, "活动后底价"@),
        gross_margin_rate: named_column(header, "毛利率(%)"@),
        sales_quantity: named_column(header, "销售数量"@),
        pay_amount: named_column(header, "支付金额"@),
    }
}

/// The columns of a sheet of policies with the header `header`.
pub open spec fn policy_columns_of(header: Seq<Data>) -> PolicyColumns {
    PolicyColumns {
        product_code: named_column(header, "商品编码"@),
        start_date: named_column(header, "开始时间"@),
        end_date: named_column(header, "结束时间"@),
        activity_price: named_column(header, "活动后单价"@),
    }
}

/// The sale that `row` holds in the columns `columns`.
pub open spec fn sale_in(row: Seq<Data>, columns: SaleColumns) -> Sale {
    Sale {
        order_date: date_in(row, columns.order_date),
        sales_order_no: text_in(row, columns.sales_order_no),
        customer_code: text_in(row, columns.customer_code),
        customer_name: text_in(row, columns.customer_name),
        product_code: text_in(row, columns.product_code),
        generic_name: text_in(row, columns.generic_name),
        sales_price: number_in(row, columns.sales_price),
        settlement_price: number_in(row, columns.settlement_price),
        listed_price: number_in(row, columns.listed_price),
        is_below_listed: text_in(row, columns.is_below_listed),
        is_in_policy: text_in(row, columns.is_in_policy),
        policy: text_in(row, columns.policy),
        base_price_after_policy: number_in(row, columns.base_price_after_policy),
        gross_margin_rate: number_in(row, columns.gross_margin_rate),
        sales_quantity: number_in(row, columns.sales_quantity),
        pay_amount: number_in(row, columns.pay_amount),
    }
}

/// The policy that `row` holds in the columns `columns`. The label of the
/// promotion is the trimmed text of the cell in column `ACTIVITY_COLUMN`.
pub open spec fn policy_in(row: Seq<Data>, columns: PolicyColumns) -> Policy {
    Policy {
        product_code: text_in(row, columns.product_code),
        platform_activity: match cell_in(row, Some(ACTIVITY_COLUMN)) {
            Some(c) => trimmed(cell_text(c)),
            None => Seq::empty(),
        },
        start_date: date_in(row, columns.start_date),
        end_date: date_in(row, columns.end_date),
        activity_price: number_in(row, columns.activity_price),
    }
}

/// The sale that `row` holds under the header `header`.
pub open spec fn sale_of(row: Seq<Data>, header: Seq<Data>) -> Sale {
    sale_in(row, sale_columns_of(header))
}

/// The policy that `row` holds under the header `header`.
pub open spec fn policy_of(row: Seq<Data>, header: Seq<Data>) -> Policy {
    policy_in(row, policy_columns_of(header))
}

/// The policies of the data rows of `sheet`, in order.
pub open spec fn policies_of(sheet: Seq<Vec<Data>>) -> Seq<Policy> {
    Seq::new((sheet.len() - 1) as nat, |i: int| policy_of(sheet[i + 1]@, sheet[0]@))
}

/// Finds the column of `header` named `name`.
pub fn column_named(header: &Vec<Data>, name: &str) -> (r: Option<usize>)
    ensures
        r == named_column(header@, name@),
{
    let mut i: usize = header.len();
    assert(header@.take(i as int) == header@);
    while i > 0
        invariant
            i <= header.len(),
            named_column(header@, name@) == named_column(header@.take(i as int), name@),
        decreases i,
    {
        let found = match &header[i - 1] {
            Data::String(s) => {
                let t = trim(s.as_str());
                same_text(t.as_str(), name)
            },
            _ => false,
        };
        proof {
            assert(header@.take(i as int).last() == header@[i - 1]);
            assert(header@.take(i as int).drop_last() == header@.take(i - 1));
        }
        if found {
            return Some(i - 1);
        }
        i -= 1;
    }
    None
}

/// Reads a cell of a sale as text.
fn read_sale_text(cell: &Data) -> (r: String)
    ensures
        r@ == sale_text(*cell),
{
    match cell {
        Data::String(s) => trim(s.as_str()),
        Data::Error(e) => {
            let mut r = String::from_str("Error(");
            let name = error_text(*e);
            r.append(name.as_str());
            r.append(")");
            r
        },
        Data::DurationIso(_) => String::new(),
        _ => data_to_string(cell),
    }
}

/// Reads the text in column `col` of `row`.
pub fn parse_string_cell(row: &Vec<Data>, col: Option<usize>) -> (r: String)
    ensures
        r@ == text_in(row@, col),
{
    match col {
        Some(i) => if i < row.len() {
            read_sale_text(&row[i])
        } else {
            String::new()
        },
        None => String::new(),
    }
}

/// Reads the number in column `col` of `row`.
pub fn parse_float_cell(row: &Vec<Data>, col: Option<usize>) -> (d: Decimal)
    ensures
        d@ == number_in(row@, col),
{
    match col {
        Some(i) => if i < row.len() {
            parse_number(&row[i])
        } else {
            Decimal::zero()
        },
        None => Decimal::zero(),
    }
}

/// Reads the date in column `col` of `row`.
pub fn parse_date_cell(row: &Vec<Data>, col: Option<usize>) -> (r: String)
    ensures
        r@ == date_in(row@, col),
{
    match col {
        Some(i) => if i < row.len() {
            match &row[i] {
                Data::String(s) => trim(s.as_str()),
                Data::Float(s) => excel_date_to_string(s.as_str()),
                Data::DateTime(s) => excel_date_to_string(s.as_str()),
                _ => String::new(),
            }
        } else {
            String::new()
        },
        None => String::new(),
    }
}

/// Reads the date in column `col` of `row`.
pub fn parse_date_cell_to_string(row: &Vec<Data>, col: Option<usize>) -> (r: String)
    ensures
        r@ == date_in(row@, col),
{
    parse_date_cell(row, col)
}

/// Tells whether the day `a` is the day `b` or an earlier one.
fn not_after(a: &crate::calendar::CalendarDate, b: &crate::calendar::CalendarDate) -> (r: bool)
    ensures
        r == day_not_after(a.triple(), b.triple()),
{
    a.is_not_after(b)
}

/// Tells whether `policy` covers the sale.
fn applies(
    policy: &ActivityPolicyRow,
    product_code: &String,
    order_date: &crate::calendar::CalendarDate,
    settlement_price: &Decimal,
) -> (r: bool)
    ensures
        r == policy_applies(policy@, product_code@, order_date.triple(), settlement_price@),
{
    if policy.product_code != *product_code {
        return false;
    }
    let start = match parse_date(policy.start_date.as_str()) {
        Some(d) => d,
        None => {
            return false;
        },
    };
    let end = match parse_date(policy.end_date.as_str()) {
        Some(d) => d,
        None => {
            return false;
        },
    };
    not_after(&start, order_date) && not_after(order_date, &end) && settlement_price.exceeds(
        &policy.activity_price,
    )
}

/// Finds the policy that covers a sale of the product `product_code`,
/// ordered on `order_date` and settled at `settlement_price`: the first in
/// the list that does.
pub fn find_matching_policy<'a>(
    policies: &'a Vec<ActivityPolicyRow>,
    product_code: &String,
    order_date: &crate::calendar::CalendarDate,
    settlement_price: &Decimal,
) -> (r: Option<&'a ActivityPolicyRow>)
    ensures
        match r {
            Some(p) => first_applying(
                policy_views(policies@),
                product_code@,
                order_date.triple(),
                settlement_price@,
            ) matches Some(i) && 0 <= i < policies@.len() && *p == policies@[i],
            None => first_applying(
                policy_views(policies@),
                product_code@,
                order_date.triple(),
                settlement_price@,
            ) is None,
        },
{
    let ghost models = policy_views(policies@);
    let ghost date = order_date.triple();
    let mut i: usize = 0;
    assert(models.take(0) == Seq::<Policy>::empty());
    while i < policies.len()
        invariant
            i <= policies.len(),
            models == policy_views(policies@),
            date == order_date.triple(),
            first_applying(models.take(i as int), product_code@, date, settlement_price@) is None,
        decreases policies.len() - i,
    {
        proof {
            assert(models.take(i + 1).drop_last() == models.take(i as int));
            assert(models.take(i + 1).last() == policies@[i as int]@);
            lemma_first_applying_prefix(models, product_code@, date, settlement_price@, i + 1);
        }
        if applies(&policies[i], product_code, order_date, settlement_price) {
            return Some(&policies[i]);
        }
        i += 1;
    }
    assert(models.take(i as int) == models);
    None
}

/// A policy found among the first ones is the first among all.
pub proof fn lemma_first_applying_prefix(
    policies: Seq<Policy>,
    product_code: Seq<char>,
    date: (int, int, int),
    price: int,
    k: int,
)
    requires
        0 <= k <= policies.len(),
    ensures
        first_applying(policies.take(k), product_code, date, price) is Some ==> first_applying(
            policies,
            product_code,
            date,
            price,
        ) == first_applying(policies.take(k), product_code, date, price),
    decreases policies.len() - k,
{
    if k < policies.len() {
        lemma_first_applying_prefix(policies, product_code, date, price, k + 1);
        assert(policies.take(k + 1).drop_last() == policies.take(k));
    } else {
        assert(policies.take(k) == policies);
    }
}

/// Gives `row` the label of the policy that covers it, if one does.
pub fn annotate(row: &mut OutOfPolicyRow, policies: &Vec<ActivityPolicyRow>) -> (matched: bool)
    ensures
        final(row)@ == labelled(old(row)@, policy_views(policies@)),
        matched == (order_date_of(old(row)@.order_date) matches Some(date) && first_applying(
            policy_views(policies@),
            old(row)@.product_code,
            date,
            old(row)@.settlement_price,
        ) is Some),
{
    match parse_date_from_analysis(row.order_date.as_str()) {
        Some(date) => {
            match find_matching_policy(policies, &row.product_code, &date, &row.settlement_price) {
                Some(policy) => {
                    let ghost found = first_applying(
                        policy_views(policies@),
                        row@.product_code,
                        date.triple(),
                        row@.settlement_price,
                    )->0;
                    assert(policy_views(policies@)[found] == policies@[found]@);
                    row.policy = policy.platform_activity.clone();
                    true
                },
                None => false,
            }
        },
        None => false,
    }
}

/// Finds the columns of a sheet of sales from its header.
pub fn find_sale_columns(header: &Vec<Data>) -> (columns: SaleColumns)
    ensures
        columns == sale_columns_of(header@),
{
    SaleColumns {
        order_date: column_named(header, "下单日期"),
        sales_order_no: column_named(header, "销售单号"),
        customer_code: column_named(header, "客户编码"),
        customer_name: column_named(header, "客户名称"),
        product_code: column_named(header, "商品编码"),
        generic_name: column_named(header, "通用名"),
        sales_price: column_named(header, "销售单价/积分"),
        settlement_price: column_named(header, "结算单价"),
        listed_price: column_named(header, "挂网价"),
        is_below_listed: column_named(header, "是否低于挂网"),
        is_in_policy: column_named(header, "是否活动政策内"),
        policy: column_named(header, "活动政策"),
        base_price_after_policy: column_named(header, "活动后底价"),
        gross_margin_rate: column_named(header, "毛利率(%)"),
        sales_quantity: column_named(header, "销售数量"),
        pay_amount: column_named(header, "支付金额"),
    }
}

/// Finds the columns of a sheet of policies from its header.
pub fn find_policy_columns(header: &Vec<Data>) -> (columns: PolicyColumns)
    ensures
        columns == policy_columns_of(header@),
{
    PolicyColumns {
        product_code: column_named(header, "商品编码"),
        start_date: column_named(header, "开始时间"),
        end_date: column_named(header, "结束时间"),
        activity_price: column_named(header, "活动后单价"),
    }
}

/// Reads the sale that `row` holds in the columns `columns`.
pub fn read_sale(row: &Vec<Data>, columns: &SaleColumns) -> (sale: OutOfPolicyRow)
    ensures
        sale@ == sale_in(row@, *columns),
{
    OutOfPolicyRow {
        order_date: parse_date_cell(row, columns.order_date),
        sales_order_no: parse_string_cell(row, columns.sales_order_no),
        customer_code: parse_string_cell(row, columns.customer_code),
        customer_name: parse_string_cell(row, columns.customer_name),
        product_code: parse_string_cell(row, columns.product_code),
        generic_name: parse_string_cell(row, columns.generic_name),
        sales_price: parse_float_cell(row, columns.sales_price),
        settlement_price: parse_float_cell(row, columns.settlement_price),
        listed_price: parse_float_cell(row, columns.listed_price),
        is_below_listed: parse_string_cell(row, columns.is_below_listed),
        is_in_policy: parse_string_cell(row, columns.is_in_policy),
        policy: parse_string_cell(row, columns.policy),
        base_price_after_policy: parse_float_cell(row, columns.base_price_after_policy),
        gross_margin_rate: parse_float_cell(row, columns.gross_margin_rate),
        sales_quantity: parse_float_cell(row, columns.sales_quantity),
        pay_amount: parse_float_cell(row, columns.pay_amount),
    }
}

/// Reads the policy that `row` holds in the columns `columns`.
pub fn read_policy(row: &Vec<Data>, columns: &PolicyColumns) -> (policy: ActivityPolicyRow)
    ensures
        policy@ == policy_in(row@, *columns),
{
    let platform_activity = if ACTIVITY_COLUMN < row.len() {
        trimmed_text(&row[ACTIVITY_COLUMN])
    } else {
        String::new()
    };
    ActivityPolicyRow {
        product_code: parse_string_cell(row, columns.product_code),
        platform_activity,
        start_date: parse_date_cell_to_string(row, columns.start_date),
        end_date: parse_date_cell_to_string(row, columns.end_date),
        activity_price: parse_float_cell(row, columns.activity_price),
    }
}

/// Reads the sale that `row` holds in the columns `columns`, and gives it
/// the label of the policy that covers it, if one does.
pub fn read_labelled_sale(
    row: &Vec<Data>,
    columns: &SaleColumns,
    policies: &Vec<ActivityPolicyRow>,
) -> (sale: OutOfPolicyRow)
    ensures
        sale@ == labelled(sale_in(row@, *columns), policy_views(policies@)),
{
    let mut sale = read_sale(row, columns);
    annotate(&mut sale, policies);
    sale
}

/// Hands the rows `rows` to the threads of `rayon`: `par_iter` visits the
/// rows, `map` runs `read_labelled_sale` on each, and `collect` gives the
/// results in the order of the rows.
#[verifier::external_body]
fn label_rows(rows: &[Vec<Data>], columns: &SaleColumns, policies: &Vec<ActivityPolicyRow>) -> (sales:
    Vec<OutOfPolicyRow>)
    ensures
        sales@.len() == rows@.len(),
        forall|i: int|
            0 <= i < sales@.len() ==> (#[trigger] sales@[i])@ == labelled(
                sale_in(rows@[i]@, *columns),
                policy_views(policies@),
            ),
{
    rows.par_iter().map(|row| read_labelled_sale(row, columns, policies)).collect()
}

/// Whether `result` holds the sales of `analysis`, each with the label that
/// the policies of `policies` give it.
pub open spec fn annotates(
    result: OutOfPolicyResult,
    file_path: Seq<char>,
    analysis: Seq<Vec<Data>>,
    policies: Seq<Vec<Data>>,
) -> bool {
    &&& result.file_path@ == file_path
    &&& result.total_rows == analysis.len() - 1
    &&& result.load_time_ms == 0
    &&& result.rows@.len() == analysis.len() - 1
    &&& forall|i: int|
        0 <= i < result.rows@.len() ==> (#[trigger] result.rows@[i])@ == labelled(
            sale_of(analysis[i + 1]@, analysis[0]@),
            policies_of(policies),
        )
}

/// Labels the sales of the sheet `analysis` by the policies of the sheet
/// `policies`. In both sheets the first row is the header.
///
/// Fails if either sheet has no rows. Otherwise every data row of
/// `analysis` gives one sale, in order; a sale that a policy covers gets the
/// label of the first such policy, every other sale keeps its own.
pub fn load_out_of_policy_file(
    file_path: &str,
    analysis: &Vec<Vec<Data>>,
    policies: &Vec<Vec<Data>>,
) -> (r: Result<OutOfPolicyResult, AnalysisError>)
    ensures
        match r {
            Ok(result) => analysis@.len() > 0 && policies@.len() > 0 && annotates(
                result,
                file_path@,
                analysis@,
                policies@,
            ),
            Err(e) => (analysis@.len() == 0 || policies@.len() == 0) && e
                == AnalysisError::EmptySheet,
        },
{
    if analysis.len() == 0 || policies.len() == 0 {
        return Err(AnalysisError::EmptySheet);
    }
    let policy_columns = find_policy_columns(&policies[0]);
    let sale_columns = find_sale_columns(&analysis[0]);
    let mut rules: Vec<ActivityPolicyRow> = Vec::new();
    let mut k: usize = 1;
    while k < policies.len()
        invariant
            1 <= k <= policies.len(),
            rules@.len() == k - 1,
            policy_columns == policy_columns_of(policies@[0]@),
            forall|j: int|
                0 <= j < rules@.len() ==> (#[trigger] rules@[j])@ == policy_of(
                    policies@[j + 1]@,
                    policies@[0]@,
                ),
        decreases policies.len() - k,
    {
        rules.push(read_policy(&policies[k], &policy_columns));
        k += 1;
    }
    assert(policy_views(rules@) =~= policies_of(policies@));
    let data = slice_subrange(analysis.as_slice(), 1, analysis.len());
    let rows = label_rows(data, &sale_columns, &rules);
    assert forall|j: int| 0 <= j < rows@.len() implies (#[trigger] rows@[j])@ == labelled(
        sale_of(analysis@[j + 1]@, analysis@[0]@),
        policies_of(policies@),
    ) by {
        assert(data@[j] == analysis@[j + 1]);
    }
    Ok(
        OutOfPolicyResult {
            file_path: String::from_str(file_path),
            total_rows: rows.len(),
            rows,
            load_time_ms: 0,
        },
    )
}

} // verus!
