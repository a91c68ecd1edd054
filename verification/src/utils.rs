//! Row-level helpers shared by the reporting layer: action predicates,
//! derived-column formulas, date parsing and a small reference ledger.

use crate::date::{valid_ymd, Date};
use crate::ledger::{orders_wf, Order};
use crate::rational::{
    add_v, div_v, mul_v, rv_neg, rv_one, rv_zero, sub_v, Rat, Rv,
};
use crate::schema::{Action, Country, Currency};
use crate::Error;
use vstd::prelude::*;
use vstd::string::StrSliceExecFns;

verus! {

/// The row is a buy.
pub fn buy(action: Action) -> (r: bool)
    ensures
        r == (action == Action::Buy),
{
    matches!(action, Action::Buy)
}

/// The row is a sell.
pub fn sell(action: Action) -> (r: bool)
    ensures
        r == (action == Action::Sell),
{
    matches!(action, Action::Sell)
}

/// The row is a split.
pub fn split(action: Action) -> (r: bool)
    ensures
        r == (action == Action::Split),
{
    matches!(action, Action::Split)
}

/// The row moves the position: a buy or a sell.
pub fn buy_or_sell(action: Action) -> (r: bool)
    ensures
        r == (action == Action::Buy || action == Action::Sell),
{
    matches!(action, Action::Buy | Action::Sell)
}

/// The row concerns the average-cost engine: buy, sell or split.
pub fn buy_or_sell_or_split(action: Action) -> (r: bool)
    ensures
        r == crate::perpetual_inventory::is_bss(action),
{
    matches!(action, Action::Buy | Action::Sell | Action::Split)
}

/// The row moves outside capital: a deposit or a withdrawal.
pub fn deposit_and_withdraw(action: Action) -> (r: bool)
    ensures
        r == (action == Action::Deposit || action == Action::Withdraw),
{
    matches!(action, Action::Deposit | Action::Withdraw)
}

/// Quantity with sells counted negative.
pub fn negative_qty_on_sell(action: Action, qty: Rat) -> (r: Rat)
    requires
        qty.wf(),
    ensures
        r.wf(),
        r@ == if action == Action::Sell {
            rv_neg(qty@)
        } else {
            qty@
        },
{
    if sell(action) {
        qty.neg()
    } else {
        qty
    }
}

/// Amount with withdrawals counted negative.
pub fn negative_amount_on_withdraw(action: Action, amount: Rat) -> (r: Rat)
    requires
        amount.wf(),
    ensures
        r.wf(),
        r@ == if action == Action::Withdraw {
            rv_neg(amount@)
        } else {
            amount@
        },
{
    if matches!(action, Action::Withdraw) {
        amount.neg()
    } else {
        amount
    }
}

/// Amount with taxes counted negative.
pub fn negative_amount_on_tax(action: Action, amount: Rat) -> (r: Rat)
    requires
        amount.wf(),
    ensures
        r.wf(),
        r@ == if action == Action::Tax {
            rv_neg(amount@)
        } else {
            amount@
        },
{
    if matches!(action, Action::Tax) {
        amount.neg()
    } else {
        amount
    }
}

pub open spec fn rv_hundred() -> Rv {
    Rv { n: 100, d: 1 }
}

/// Position value at the market price: `market_price * accrued_qty`.
pub open spec fn market_value_v(mp: Rv, qty: Rv) -> Option<Rv> {
    mul_v(mp, qty)
}

pub fn market_value(market_price: Rat, accrued_qty: Rat) -> (r: Option<Rat>)
    requires
        market_price.wf(),
        accrued_qty.wf(),
    ensures
        match r {
            Some(x) => x.wf() && market_value_v(market_price@, accrued_qty@) == Some(x@),
            None => market_value_v(market_price@, accrued_qty@) is None,
        },
{
    market_price.mul(accrued_qty)
}

/// Unrealized gain: `(market_price - average_price) * accrued_qty`.
pub open spec fn paper_profit_v(mp: Rv, ap: Rv, qty: Rv) -> Option<Rv> {
    match sub_v(mp, ap) {
        None => None,
        Some(d) => mul_v(d, qty),
    }
}

pub fn paper_profit(market_price: Rat, average_price: Rat, accrued_qty: Rat) -> (r: Option<Rat>)
    requires
        market_price.wf(),
        average_price.wf(),
        accrued_qty.wf(),
    ensures
        match r {
            Some(x) => x.wf() && paper_profit_v(market_price@, average_price@, accrued_qty@)
                == Some(x@),
            None => paper_profit_v(market_price@, average_price@, accrued_qty@) is None,
        },
{
    match market_price.sub(average_price) {
        None => None,
        Some(d) => d.mul(accrued_qty),
    }
}

/// Unrealized gain rate in percent: `(market_price / average_price - 1) * 100`.
pub open spec fn paper_profit_rate_v(mp: Rv, ap: Rv) -> Option<Rv> {
    match div_v(mp, ap) {
        None => None,
        Some(q) => match sub_v(q, rv_one()) {
            None => None,
            Some(d) => mul_v(d, rv_hundred()),
        },
    }
}

pub fn paper_profit_rate(market_price: Rat, average_price: Rat) -> (r: Option<Rat>)
    requires
        market_price.wf(),
        average_price.wf(),
    ensures
        match r {
            Some(x) => x.wf() && paper_profit_rate_v(market_price@, average_price@) == Some(x@),
            None => paper_profit_rate_v(market_price@, average_price@) is None,
        },
{
    match market_price.div(average_price) {
        None => None,
        Some(q) => match q.sub(Rat::one()) {
            None => None,
            Some(d) => d.mul(Rat::from_int(100)),
        },
    }
}

/// Total gain: unrealized gain plus dividends received.
pub open spec fn profit_v(paper: Rv, dividends: Rv) -> Option<Rv> {
    add_v(paper, dividends)
}

pub fn profit(paper: Rat, dividends: Rat) -> (r: Option<Rat>)
    requires
        paper.wf(),
        dividends.wf(),
    ensures
        match r {
            Some(x) => x.wf() && profit_v(paper@, dividends@) == Some(x@),
            None => profit_v(paper@, dividends@) is None,
        },
{
    paper.add(dividends)
}

/// Gain rate in percent over the amount invested; zero on a zero amount.
pub open spec fn profit_rate_v(p: Rv, amount: Rv) -> Option<Rv> {
    if amount.n == 0 {
        Some(rv_zero())
    } else {
        match div_v(p, amount) {
            None => None,
            Some(q) => mul_v(q, rv_hundred()),
        }
    }
}

pub fn profit_rate(p: Rat, amount: Rat) -> (r: Option<Rat>)
    requires
        p.wf(),
        amount.wf(),
    ensures
        match r {
            Some(x) => x.wf() && profit_rate_v(p@, amount@) == Some(x@),
            None => profit_rate_v(p@, amount@) is None,
        },
{
    if amount.is_zero() {
        Some(Rat::zero())
    } else {
        match p.div(amount) {
            None => None,
            Some(q) => q.mul(Rat::from_int(100)),
        }
    }
}

/// Realized gain of a sell: `(price - average_price) * qty`.
pub open spec fn sell_profit_v(price: Rv, ap: Rv, qty: Rv) -> Option<Rv> {
    match sub_v(price, ap) {
        None => None,
        Some(d) => mul_v(d, qty),
    }
}

pub fn sell_profit(price: Rat, average_price: Rat, qty: Rat) -> (r: Option<Rat>)
    requires
        price.wf(),
        average_price.wf(),
        qty.wf(),
    ensures
        match r {
            Some(x) => x.wf() && sell_profit_v(price@, average_price@, qty@) == Some(x@),
            None => sell_profit_v(price@, average_price@, qty@) is None,
        },
{
    match price.sub(average_price) {
        None => None,
        Some(d) => d.mul(qty),
    }
}

/// Share of the whole portfolio, in percent: `value * 100 / total`.
pub open spec fn allocation_v(value: Rv, total: Rv) -> Option<Rv> {
    match mul_v(value, rv_hundred()) {
        None => None,
        Some(x) => div_v(x, total),
    }
}

pub fn allocation(value: Rat, total: Rat) -> (r: Option<Rat>)
    requires
        value.wf(),
        total.wf(),
    ensures
        match r {
            Some(x) => x.wf() && allocation_v(value@, total@) == Some(x@),
            None => allocation_v(value@, total@) is None,
        },
{
    match value.mul(Rat::from_int(100)) {
        None => None,
        Some(x) => x.div(total),
    }
}

pub open spec fn is_digit(c: char) -> bool {
    48 <= c as int <= 57
}

pub open spec fn digit_val(c: char) -> int {
    c as int - 48
}

/// The string starts with `YYYY-MM-DD`; anything after (a time of day) is
/// ignored.
pub open spec fn date_str_shape(s: Seq<char>) -> bool {
    &&& s.len() >= 10
    &&& is_digit(s[0])
    &&& is_digit(s[1])
    &&& is_digit(s[2])
    &&& is_digit(s[3])
    &&& s[4] == '-'
    &&& is_digit(s[5])
    &&& is_digit(s[6])
    &&& s[7] == '-'
    &&& is_digit(s[8])
    &&& is_digit(s[9])
}

pub open spec fn date_str_year(s: Seq<char>) -> int {
    1000 * digit_val(s[0]) + 100 * digit_val(s[1]) + 10 * digit_val(s[2]) + digit_val(s[3])
}

pub open spec fn date_str_month(s: Seq<char>) -> int {
    10 * digit_val(s[5]) + digit_val(s[6])
}

pub open spec fn date_str_day(s: Seq<char>) -> int {
    10 * digit_val(s[8]) + digit_val(s[9])
}

/// Parses a leading `YYYY-MM-DD` into a date; a time of day may follow and
/// is ignored.  `None` on a malformed prefix or an invalid calendar date.
pub fn str_to_date(s: &str) -> (r: Option<Date>)
    ensures
        match r {
            Some(d) => {
                &&& date_str_shape(s@)
                &&& d.wf()
                &&& d@.year == date_str_year(s@)
                &&& d@.month == date_str_month(s@)
                &&& d@.day == date_str_day(s@)
            },
            None => !(date_str_shape(s@) && valid_ymd(
                date_str_year(s@),
                date_str_month(s@),
                date_str_day(s@),
            )),
        },
{
    if s.unicode_len() < 10 {
        return None;
    }
    let c0 = s.get_char(0) as u32;
    let c1 = s.get_char(1) as u32;
    let c2 = s.get_char(2) as u32;
    let c3 = s.get_char(3) as u32;
    let d1 = s.get_char(4);
    let c5 = s.get_char(5) as u32;
    let c6 = s.get_char(6) as u32;
    let d2 = s.get_char(7);
    let c8 = s.get_char(8) as u32;
    let c9 = s.get_char(9) as u32;
    if !(48 <= c0 && c0 <= 57 && 48 <= c1 && c1 <= 57 && 48 <= c2 && c2 <= 57 && 48 <= c3 && c3
        <= 57 && d1 == '-' && 48 <= c5 && c5 <= 57 && 48 <= c6 && c6 <= 57 && d2 == '-' && 48 <= c8
        && c8 <= 57 && 48 <= c9 && c9 <= 57) {
        return None;
    }
    let year: u32 = 1000 * (c0 - 48) + 100 * (c1 - 48) + 10 * (c2 - 48) + (c3 - 48);
    let month: u8 = (10 * (c5 - 48) + (c6 - 48)) as u8;
    let day: u8 = (10 * (c8 - 48) + (c9 - 48)) as u8;
    Date::from_ymd(year, month, day)
}

/// One reference-ledger row: its calendar day of 2024, action, ticker and
/// the quantity, price and amount values, amounts precomputed as quantity
/// times price.
pub open spec fn mock_row_v(i: int) -> (int, int, Action, Seq<char>, Rv, Rv, Rv) {
    if i == 0 {
        (3, 14, Action::Deposit, "GOOGL"@, Rv { n: 1, d: 1 }, Rv { n: 1000, d: 1 }, Rv { n: 1000, d: 1 })
    } else if i == 1 {
        (4, 15, Action::Buy, "GOOGL"@, Rv { n: 8, d: 1 }, Rv { n: 3445, d: 100 }, Rv { n: 2756, d: 10 })
    } else if i == 2 {
        (5, 16, Action::Dividend, "GOOGL"@, Rv { n: 1, d: 1 }, Rv { n: 134, d: 100 }, Rv { n: 134, d: 100 })
    } else if i == 3 {
        (6, 17, Action::Buy, "GOOGL"@, Rv { n: 4, d: 1 }, Rv { n: 325, d: 10 }, Rv { n: 130, d: 1 })
    } else if i == 4 {
        (7, 18, Action::Buy, "GOOGL"@, Rv { n: 10, d: 1 }, Rv { n: 36, d: 1 }, Rv { n: 360, d: 1 })
    } else if i == 5 {
        (8, 19, Action::Sell, "GOOGL"@, Rv { n: 4, d: 1 }, Rv { n: 354, d: 10 }, Rv { n: 1416, d: 10 })
    } else if i == 6 {
        (9, 20, Action::Sell, "GOOGL"@, Rv { n: 8, d: 1 }, Rv { n: 364, d: 10 }, Rv { n: 2912, d: 10 })
    } else if i == 7 {
        (3, 21, Action::Buy, "APPL"@, Rv { n: 57, d: 10 }, Rv { n: 10748, d: 100 }, Rv { n: 612636, d: 1000 })
    } else if i == 8 {
        (4, 22, Action::Buy, "GOOGL"@, Rv { n: 10, d: 1 }, Rv { n: 343, d: 10 }, Rv { n: 343, d: 1 })
    } else if i == 9 {
        (5, 23, Action::Sell, "APPL"@, Rv { n: 3, d: 1 }, Rv { n: 1346, d: 10 }, Rv { n: 4038, d: 10 })
    } else if i == 10 {
        (6, 24, Action::Buy, "APPL"@, Rv { n: 105, d: 10 }, Rv { n: 956, d: 10 }, Rv { n: 10038, d: 10 })
    } else if i == 11 {
        (7, 25, Action::Dividend, "GOOGL"@, Rv { n: 1, d: 1 }, Rv { n: 192, d: 100 }, Rv { n: 192, d: 100 })
    } else if i == 12 {
        (8, 26, Action::Dividend, "APPL"@, Rv { n: 1, d: 1 }, Rv { n: 275, d: 100 }, Rv { n: 275, d: 100 })
    } else {
        (9, 27, Action::Split, "GOOGL"@, Rv { n: 5, d: 10 }, Rv { n: 0, d: 1 }, Rv { n: 0, d: 1 })
    }
}

/// Row `i` of the reference ledger matches its fixed definition: the 2024
/// date, the action and ticker, and the quantity, price and amount by
/// value; every row is in US dollars on the US market.
pub open spec fn mock_matches(o: Order, i: int) -> bool {
    let m = mock_row_v(i);
    &&& o@.date == (crate::date::DateV { year: 2024, month: m.0, day: m.1 })
    &&& o@.action == m.2
    &&& o@.ticker == m.3
    &&& crate::rational::rv_eq(o@.qty, m.4)
    &&& crate::rational::rv_eq(o@.price, m.5)
    &&& crate::rational::rv_eq(o@.amount, m.6)
    &&& o@.currency == Currency::USD
    &&& o@.country == Country::Usa
}

/// A fixed two-ticker ledger used by the unit tests: deposits, buys, sells,
/// dividends and one split, with dates stepping through 2024 and every
/// amount the exact quantity-times-price product.
pub fn generate_mocking_orders() -> (r: Vec<Order>)
    ensures
        r@.len() == 14,
        orders_wf(r@),
        forall|i: int| 0 <= i < 14 ==> mock_matches(#[trigger] r@[i], i),
{
    let mut v: Vec<Order> = Vec::new();
    v.push(mock_order(3, 14, Action::Deposit, 1, 1, 1000, 1, 1000, 1, "GOOGL"));
    v.push(mock_order(4, 15, Action::Buy, 8, 1, 3445, 100, 2756, 10, "GOOGL"));
    v.push(mock_order(5, 16, Action::Dividend, 1, 1, 134, 100, 134, 100, "GOOGL"));
    v.push(mock_order(6, 17, Action::Buy, 4, 1, 325, 10, 130, 1, "GOOGL"));
    v.push(mock_order(7, 18, Action::Buy, 10, 1, 36, 1, 360, 1, "GOOGL"));
    v.push(mock_order(8, 19, Action::Sell, 4, 1, 354, 10, 1416, 10, "GOOGL"));
    v.push(mock_order(9, 20, Action::Sell, 8, 1, 364, 10, 2912, 10, "GOOGL"));
    v.push(mock_order(3, 21, Action::Buy, 57, 10, 10748, 100, 612636, 1000, "APPL"));
    v.push(mock_order(4, 22, Action::Buy, 10, 1, 343, 10, 343, 1, "GOOGL"));
    v.push(mock_order(5, 23, Action::Sell, 3, 1, 1346, 10, 4038, 10, "APPL"));
    v.push(mock_order(6, 24, Action::Buy, 105, 10, 956, 10, 10038, 10, "APPL"));
    v.push(mock_order(7, 25, Action::Dividend, 1, 1, 192, 100, 192, 100, "GOOGL"));
    v.push(mock_order(8, 26, Action::Dividend, 1, 1, 275, 100, 275, 100, "APPL"));
    v.push(mock_order(9, 27, Action::Split, 5, 10, 0, 1, 0, 1, "GOOGL"));
    proof {
        assert forall|i: int| 0 <= i < 14 implies mock_matches(#[trigger] v@[i], i) by {
            assert(v@[i] == v@[i]);
        }
    }
    v
}

/// One reference-ledger row from plain numerators and denominators.
fn mock_order(
    month: u8,
    day: u8,
    action: Action,
    qty_n: i64,
    qty_d: i64,
    price_n: i64,
    price_d: i64,
    amount_n: i64,
    amount_d: i64,
    ticker: &str,
) -> (r: Order)
    requires
        valid_ymd(2024, month as int, day as int),
        qty_d > 0,
        price_d > 0,
        amount_d > 0,
        0 <= qty_n,
        0 <= price_n,
        0 <= amount_n,
    ensures
        r.wf(),
        r@.date == (crate::date::DateV { year: 2024, month: month as int, day: day as int }),
        r@.action == action,
        r@.ticker == ticker@,
        crate::rational::rv_eq(r@.qty, Rv { n: qty_n as int, d: qty_d as int }),
        crate::rational::rv_eq(r@.price, Rv { n: price_n as int, d: price_d as int }),
        crate::rational::rv_eq(r@.amount, Rv { n: amount_n as int, d: amount_d as int }),
        r@.currency == Currency::USD,
        r@.country == Country::Usa,
{
    let date = match Date::from_ymd(2024, month, day) {
        Some(d) => d,
        None => {
            proof {
                assert(false);
            }
            Date::from_day_number(0).unwrap()
        },
    };
    Order {
        date,
        action,
        ticker: ticker.to_owned(),
        qty: Rat::new(qty_n, qty_d),
        price: Rat::new(price_n, price_d),
        amount: Rat::new(amount_n, amount_d),
        currency: Currency::USD,
        country: Country::Usa,
    }
}

/// One dated value: input to the year-month pivot.
#[derive(Debug)]
pub struct DatedValue {
    pub date: Date,
    pub value: Rat,
}

pub open spec fn dated_values_wf(s: Seq<DatedValue>) -> bool {
    forall|i: int|
        0 <= i < s.len() ==> (#[trigger] s[i]).date.wf() && s[i].value.wf()
}

/// Sum of the values dated in year `y`, month `m`; `None` on overflow.
pub open spec fn month_sum(s: Seq<DatedValue>, y: int, m: int) -> Option<Rv>
    decreases s.len(),
{
    if s.len() == 0 {
        Some(rv_zero())
    } else {
        match month_sum(s.drop_last(), y, m) {
            None => None,
            Some(acc) => if s.last().date@.year == y && s.last().date@.month == m {
                add_v(acc, s.last().value@)
            } else {
                Some(acc)
            },
        }
    }
}

/// Some value is dated in month `m`.
pub open spec fn has_month(s: Seq<DatedValue>, m: int) -> bool {
    exists|i: int| 0 <= i < s.len() && (#[trigger] s[i]).date@.month == m
}

/// The years of the values, row by row.
pub open spec fn value_years(s: Seq<DatedValue>) -> Seq<int>
    decreases s.len(),
{
    if s.len() == 0 {
        Seq::empty()
    } else {
        value_years(s.drop_last()).push(s.last().date@.year)
    }
}

/// Distinct years in order of first occurrence.
pub open spec fn dedup_years(s: Seq<int>) -> Seq<int>
    decreases s.len(),
{
    if s.len() == 0 {
        Seq::empty()
    } else {
        let rest = dedup_years(s.drop_last());
        if rest.contains(s.last()) {
            rest
        } else {
            rest.push(s.last())
        }
    }
}

/// Sum of a vector of rationals, `None` on overflow.
pub open spec fn rats_sum(s: Seq<Rat>) -> Option<Rv>
    decreases s.len(),
{
    if s.len() == 0 {
        Some(rv_zero())
    } else {
        match rats_sum(s.drop_last()) {
            None => None,
            Some(acc) => add_v(acc, s.last()@),
        }
    }
}

/// One pivot row: a year, its value per present month, and the row total.
#[derive(Debug)]
pub struct PivotRow {
    pub year: u32,
    pub values: Vec<Rat>,
    pub total: Rat,
}

/// The years of pivot rows, row by row.
pub open spec fn pivot_years(s: Seq<PivotRow>) -> Seq<int>
    decreases s.len(),
{
    if s.len() == 0 {
        Seq::empty()
    } else {
        pivot_years(s.drop_last()).push(s.last().year as int)
    }
}

/// Sum of column `k` over the pivot rows, `None` on overflow.
pub open spec fn col_sum(rows: Seq<PivotRow>, k: int) -> Option<Rv>
    decreases rows.len(),
{
    if rows.len() == 0 {
        Some(rv_zero())
    } else {
        match col_sum(rows.drop_last(), k) {
            None => None,
            Some(acc) => if 0 <= k < rows.last().values@.len() {
                add_v(acc, rows.last().values@[k]@)
            } else {
                Some(acc)
            },
        }
    }
}

/// Sum of the row totals, `None` on overflow.
pub open spec fn total_sum(rows: Seq<PivotRow>) -> Option<Rv>
    decreases rows.len(),
{
    if rows.len() == 0 {
        Some(rv_zero())
    } else {
        match total_sum(rows.drop_last()) {
            None => None,
            Some(acc) => add_v(acc, rows.last().total@),
        }
    }
}

pub open spec fn months_has(s: Seq<u8>, m: int) -> bool {
    exists|j: int| 0 <= j < s.len() && (#[trigger] s[j]) as int == m
}

/// Values summed by year and month: one column per month that occurs, in
/// calendar order; one row per year, in order of first appearance, with a
/// row total; a totals row per month and a grand total.
#[derive(Debug)]
pub struct PivotTable {
    pub months: Vec<u8>,
    pub rows: Vec<PivotRow>,
    pub month_totals: Vec<Rat>,
    pub grand_total: Rat,
}

/// Sum of the values dated `(y, m)`, walking the data once.
fn month_sum_exec(data: &Vec<DatedValue>, y: u32, m: u8) -> (r: Result<Rat, Error>)
    requires
        dated_values_wf(data@),
    ensures
        match r {
            Ok(x) => x.wf() && month_sum(data@, y as int, m as int) == Some(x@),
            Err(e) => e == Error::Arithmetic && month_sum(data@, y as int, m as int) is None,
        },
{
    let n = data.len();
    let mut acc = Rat::zero();
    let mut i: usize = 0;
    while i < n
        invariant
            n == data.len(),
            i <= n,
            dated_values_wf(data@),
            acc.wf(),
            month_sum(data@.take(i as int), y as int, m as int) == Some(acc@),
        decreases n - i,
    {
        proof {
            data@.lemma_take_succ_push(i as int);
            assert(data@.take(i as int).push(data@[i as int]).drop_last() =~= data@.take(i as int));
        }
        let v = &data[i];
        if v.date.year() == y && v.date.month() == m {
            acc = match acc.add(v.value) {
                Some(a) => a,
                None => {
                    proof {
                        lemma_month_sum_none(data@, y as int, m as int, i as int + 1);
                    }
                    return Err(Error::Arithmetic);
                },
            };
        }
        i = i + 1;
    }
    proof {
        assert(data@.take(n as int) =~= data@);
    }
    Ok(acc)
}

/// A failed sum at a prefix fails the sum of the whole series.
proof fn lemma_month_sum_none(s: Seq<DatedValue>, y: int, m: int, i: int)
    requires
        0 <= i <= s.len(),
        month_sum(s.take(i), y, m) is None,
    ensures
        month_sum(s, y, m) is None,
    decreases s.len() - i,
{
    if i < s.len() {
        s.lemma_take_succ_push(i);
        assert(s.take(i).push(s[i]).drop_last() =~= s.take(i));
        lemma_month_sum_none(s, y, m, i + 1);
    } else {
        assert(s.take(i) =~= s);
    }
}

/// What the pivot promises of its result: months ascending and exactly
/// those that occur; one row per year in first-appearance order; every
/// cell the exact `(year, month)` sum; row, column and grand totals.
pub open spec fn pivot_ok(data: Seq<DatedValue>, t: PivotTable) -> bool {
    &&& forall|k1: int, k2: int|
        0 <= k1 < k2 < t.months@.len() ==> (#[trigger] t.months@[k1]) < (#[trigger] t.months@[k2])
    &&& forall|m: int| 1 <= m <= 12 ==> (months_has(t.months@, m) <==> has_month(data, m))
    &&& pivot_years(t.rows@) == dedup_years(value_years(data))
    &&& forall|k: int|
        0 <= k < t.rows@.len() ==> {
            let row = #[trigger] t.rows@[k];
            &&& row.values@.len() == t.months@.len()
            &&& row.total.wf()
            &&& Some(row.total@) == rats_sum(row.values@)
            &&& forall|mi: int|
                0 <= mi < t.months@.len() ==> (#[trigger] row.values@[mi]).wf() && Some(
                    row.values@[mi]@,
                ) == month_sum(data, row.year as int, t.months@[mi] as int)
        }
    &&& t.month_totals@.len() == t.months@.len()
    &&& forall|mi: int|
        0 <= mi < t.months@.len() ==> (#[trigger] t.month_totals@[mi]).wf() && Some(
            t.month_totals@[mi]@,
        ) == col_sum(t.rows@, mi)
    &&& t.grand_total.wf()
    &&& Some(t.grand_total@) == total_sum(t.rows@)
}

/// Every value is some `(year, month)` cell of the data.
pub open spec fn genuine_cells(data: Seq<DatedValue>, vs: Seq<Rat>) -> bool {
    forall|k: int|
        0 <= k < vs.len() ==> exists|y: int, m: int|
            1 <= m <= 12 && Some((#[trigger] vs[k])@) == #[trigger] month_sum(data, y, m)
}

/// The value is a sum of genuine cells of the data.
pub open spec fn genuine_total(data: Seq<DatedValue>, v: Rat) -> bool {
    exists|ws: Seq<Rat>| #[trigger] genuine_cells(data, ws) && Some(v@) == rats_sum(ws)
}

/// Every value is a sum of genuine cells of the data.
pub open spec fn genuine_totals(data: Seq<DatedValue>, vs: Seq<Rat>) -> bool {
    forall|k: int| 0 <= k < vs.len() ==> genuine_total(data, #[trigger] vs[k])
}

/// Some cell, some sum of cells, or some sum of such sums overflows: the
/// only failures the pivot can produce.
pub open spec fn pivot_arith_overflow(data: Seq<DatedValue>) -> bool {
    ||| exists|y: int, m: int| 1 <= m <= 12 && #[trigger] month_sum(data, y, m) is None
    ||| exists|vs: Seq<Rat>| #[trigger] genuine_cells(data, vs) && rats_sum(vs) is None
    ||| exists|vs: Seq<Rat>| #[trigger] genuine_totals(data, vs) && rats_sum(vs) is None
}

/// Sums the dated values by year and month.
///
/// Columns are the months that occur, ascending; rows are the years in
/// order of first appearance.  Every cell is the exact sum for its year and
/// month, every row carries its total, and the table closes with per-month
/// totals and a grand total.  Fails only on rational overflow.
pub fn pivot_year_months(data: &Vec<DatedValue>) -> (r: Result<PivotTable, Error>)
    requires
        dated_values_wf(data@),
    ensures
        match r {
            Ok(t) => pivot_ok(data@, t),
            Err(e) => e == Error::Arithmetic && pivot_arith_overflow(data@),
        },
{
    let n = data.len();

    // the months that occur, ascending by construction
    let mut months: Vec<u8> = Vec::new();
    let mut m: u8 = 1;
    while m <= 12
        invariant
            1 <= m <= 13,
            dated_values_wf(data@),
            n == data.len(),
            forall|k1: int, k2: int|
                0 <= k1 < k2 < months@.len() ==> (#[trigger] months@[k1]) < (
                #[trigger] months@[k2]),
            forall|k: int| 0 <= k < months@.len() ==> 1 <= (#[trigger] months@[k]) < m,
            forall|m2: int|
                1 <= m2 < m ==> (months_has(months@, m2) <==> has_month(data@, m2)),
        decreases 13 - m,
    {
        let mut present = false;
        let mut i: usize = 0;
        while i < n
            invariant
                n == data.len(),
                i <= n,
                present == (exists|j: int|
                    0 <= j < i && (#[trigger] data@[j]).date@.month == m as int),
            decreases n - i,
        {
            if data[i].date.month() == m {
                present = true;
            }
            i = i + 1;
        }
        let ghost old_months = months@;
        if present {
            months.push(m);
        }
        proof {
            assert forall|m2: int| 1 <= m2 < m as int + 1 implies (months_has(months@, m2)
                <==> has_month(data@, m2)) by {
                if m2 < m as int {
                    if months_has(old_months, m2) {
                        let j0 = choose|j0: int|
                            0 <= j0 < old_months.len() && (#[trigger] old_months[j0]) as int == m2;
                        assert(months@[j0] as int == m2);
                    }
                    if months_has(months@, m2) && !months_has(old_months, m2) {
                        let j0 = choose|j0: int|
                            0 <= j0 < months@.len() && (#[trigger] months@[j0]) as int == m2;
                        assert(j0 == months@.len() - 1 && present);
                        assert(false);
                    }
                } else {
                    if present {
                        assert(months@[months@.len() - 1] as int == m2);
                    } else {
                        if months_has(months@, m2) {
                            let j0 = choose|j0: int|
                                0 <= j0 < months@.len() && (#[trigger] months@[j0]) as int == m2;
                            assert(false);
                        }
                    }
                }
            }
        }
        m = m + 1;
    }

    // the years, in order of first appearance
    let mut years: Vec<u32> = Vec::new();
    let mut i: usize = 0;
    while i < n
        invariant
            n == data.len(),
            i <= n,
            dated_values_wf(data@),
            years_view(years@) == dedup_years(value_years(data@.take(i as int))),
            forall|j1: int, j2: int|
                0 <= j1 < j2 < years@.len() ==> (#[trigger] years@[j1]) != (#[trigger] years@[j2]),
        decreases n - i,
    {
        proof {
            data@.lemma_take_succ_push(i as int);
            assert(data@.take(i as int).push(data@[i as int]).drop_last() =~= data@.take(i as int));
            lemma_years_view_index(years@);
        }
        let y = data[i].date.year();
        let ns = years.len();
        let mut seen = false;
        let mut j: usize = 0;
        while j < ns
            invariant
                ns == years.len(),
                j <= ns,
                seen == (exists|jj: int| 0 <= jj < j && (#[trigger] years@[jj]) == y),
            decreases ns - j,
        {
            if years[j] == y {
                seen = true;
            }
            j = j + 1;
        }
        let ghost old_years = years@;
        if !seen {
            years.push(y);
        }
        proof {
            lemma_years_view_index(old_years);
            lemma_years_view_index(years@);
            let q = value_years(data@.take(i as int));
            let yv = data@[i as int].date@.year;
            assert(q.push(yv).drop_last() =~= q);
            if seen {
                assert(years_view(old_years).contains(yv)) by {
                    let j0 = choose|j0: int|
                        0 <= j0 < old_years.len() && (#[trigger] old_years[j0]) == y;
                    assert(years_view(old_years)[j0] == yv);
                }
            } else {
                assert(!years_view(old_years).contains(yv)) by {
                    if years_view(old_years).contains(yv) {
                        let j0 = choose|j0: int|
                            0 <= j0 < years_view(old_years).len() && years_view(old_years)[j0]
                                == yv;
                        assert(old_years[j0] == y);
                    }
                }
                assert(years_view(years@) =~= years_view(old_years).push(yv));
            }
        }
        i = i + 1;
    }
    proof {
        assert(data@.take(n as int) =~= data@);
    }

    // one row per year
    let nm = months.len();
    let ny = years.len();
    let mut rows: Vec<PivotRow> = Vec::new();
    let mut k: usize = 0;
    while k < ny
        invariant
            ny == years.len(),
            nm == months.len(),
            n == data.len(),
            dated_values_wf(data@),
            forall|k2: int| 0 <= k2 < nm ==> 1 <= (#[trigger] months@[k2]) <= 12,
            k <= ny,
            rows@.len() == k,
            pivot_years(rows@) == years_view(years@).take(k as int),
            forall|k2: int|
                0 <= k2 < k ==> {
                    let row = #[trigger] rows@[k2];
                    &&& row.values@.len() == months@.len()
                    &&& row.total.wf()
                    &&& Some(row.total@) == rats_sum(row.values@)
                    &&& row.year == years@[k2]
                    &&& forall|mi: int|
                        0 <= mi < months@.len() ==> (#[trigger] row.values@[mi]).wf() && Some(
                            row.values@[mi]@,
                        ) == month_sum(data@, row.year as int, months@[mi] as int)
                },
        decreases ny - k,
    {
        let y = years[k];
        let mut values: Vec<Rat> = Vec::new();
        let mut total = Rat::zero();
        let mut mi: usize = 0;
        while mi < nm
            invariant
                nm == months.len(),
                n == data.len(),
                dated_values_wf(data@),
                mi <= nm,
                forall|k2: int| 0 <= k2 < nm ==> 1 <= (#[trigger] months@[k2]) <= 12,
                values@.len() == mi,
                total.wf(),
                Some(total@) == rats_sum(values@),
                forall|m2: int|
                    0 <= m2 < mi ==> (#[trigger] values@[m2]).wf() && Some(values@[m2]@)
                        == month_sum(data@, y as int, months@[m2] as int),
            decreases nm - mi,
        {
            let v = match month_sum_exec(data, y, months[mi]) {
                Ok(v) => v,
                Err(e) => {
                    proof {
                        assert(month_sum(data@, y as int, months@[mi as int] as int) is None);
                    }
                    return Err(e);
                },
            };
            let ghost old_values = values@;
            values.push(v);
            total = match total.add(v) {
                Some(t) => t,
                None => {
                    proof {
                        assert(values@.drop_last() =~= old_values);
                        assert(rats_sum(values@) is None);
                        assert forall|k2: int| 0 <= k2 < values@.len() implies exists|
                            y2: int,
                            m2: int,
                        |
                            1 <= m2 <= 12 && Some((#[trigger] values@[k2])@) == #[trigger] month_sum(
                                data@,
                                y2,
                                m2,
                            ) by {
                            if k2 < values@.len() - 1 {
                                assert(values@[k2] == old_values[k2]);
                                assert(Some(old_values[k2]@) == month_sum(
                                    data@,
                                    y as int,
                                    months@[k2] as int,
                                ));
                            } else {
                                assert(Some(values@[k2]@) == month_sum(
                                    data@,
                                    y as int,
                                    months@[mi as int] as int,
                                ));
                            }
                        }
                        assert(genuine_cells(data@, values@));
                    }
                    return Err(Error::Arithmetic);
                },
            };
            proof {
                assert(values@.drop_last() =~= old_values);
            }
            mi = mi + 1;
        }
        let ghost old_rows = rows@;
        rows.push(PivotRow { year: y, values, total });
        proof {
            assert(rows@.drop_last() =~= old_rows);
            lemma_years_view_index(years@);
            assert(pivot_years(rows@) =~= years_view(years@).take(k as int + 1)) by {
                assert(pivot_years(rows@) =~= pivot_years(old_rows).push(
                    rows@.last().year as int,
                ));
                years_view(years@).lemma_take_succ_push(k as int);
            }
            assert forall|k2: int| 0 <= k2 < k as int + 1 implies {
                let row = #[trigger] rows@[k2];
                &&& row.values@.len() == months@.len()
                &&& row.total.wf()
                &&& Some(row.total@) == rats_sum(row.values@)
                &&& row.year == years@[k2]
                &&& forall|mi2: int|
                    0 <= mi2 < months@.len() ==> (#[trigger] row.values@[mi2]).wf() && Some(
                        row.values@[mi2]@,
                    ) == month_sum(data@, row.year as int, months@[mi2] as int)
            } by {
                if k2 < k as int {
                    assert(rows@[k2] == old_rows[k2]);
                }
            }
        }
        k = k + 1;
    }

    // totals per month and the grand total
    let mut month_totals: Vec<Rat> = Vec::new();
    let mut mi: usize = 0;
    while mi < nm
        invariant
            nm == months.len(),
            ny == rows.len(),
            dated_values_wf(data@),
            mi <= nm,
            month_totals@.len() == mi,
            forall|k2: int| 0 <= k2 < nm ==> 1 <= (#[trigger] months@[k2]) <= 12,
            forall|k2: int|
                0 <= k2 < ny ==> (#[trigger] rows@[k2]).values@.len() == months@.len(),
            forall|k2: int, m2: int|
                0 <= k2 < ny && 0 <= m2 < months@.len() ==> (
                #[trigger] rows@[k2].values@[m2]).wf(),
            forall|k2: int, m2: int|
                0 <= k2 < ny && 0 <= m2 < months@.len() ==> Some(
                    (#[trigger] rows@[k2].values@[m2])@,
                ) == month_sum(data@, rows@[k2].year as int, months@[m2] as int),
            forall|m2: int|
                0 <= m2 < mi ==> (#[trigger] month_totals@[m2]).wf() && Some(month_totals@[m2]@)
                    == col_sum(rows@, m2),
        decreases nm - mi,
    {
        let mut acc = Rat::zero();
        let ghost mut seen: Seq<Rat> = Seq::empty();
        let mut k2: usize = 0;
        while k2 < ny
            invariant
                ny == rows.len(),
                nm == months.len(),
                dated_values_wf(data@),
                k2 <= ny,
                mi < nm,
                acc.wf(),
                forall|k3: int| 0 <= k3 < nm ==> 1 <= (#[trigger] months@[k3]) <= 12,
                forall|k3: int|
                    0 <= k3 < ny ==> (#[trigger] rows@[k3]).values@.len() == months@.len(),
                forall|k3: int, m2: int|
                    0 <= k3 < ny && 0 <= m2 < months@.len() ==> (
                    #[trigger] rows@[k3].values@[m2]).wf(),
                forall|k3: int, m2: int|
                    0 <= k3 < ny && 0 <= m2 < months@.len() ==> Some(
                        (#[trigger] rows@[k3].values@[m2])@,
                    ) == month_sum(data@, rows@[k3].year as int, months@[m2] as int),
                Some(acc@) == col_sum(rows@.take(k2 as int), mi as int),
                Some(acc@) == rats_sum(seen),
                genuine_cells(data@, seen),
            decreases ny - k2,
        {
            proof {
                rows@.lemma_take_succ_push(k2 as int);
                assert(rows@.take(k2 as int).push(rows@[k2 as int]).drop_last() =~= rows@.take(
                    k2 as int,
                ));
            }
            let ghost old_seen = seen;
            let cell = rows[k2].values[mi];
            proof {
                seen = seen.push(cell);
                assert(seen.drop_last() =~= old_seen);
                assert forall|k3: int| 0 <= k3 < seen.len() implies exists|y2: int, m2: int|
                    1 <= m2 <= 12 && Some((#[trigger] seen[k3])@) == #[trigger] month_sum(
                        data@,
                        y2,
                        m2,
                    ) by {
                    if k3 < seen.len() - 1 {
                        assert(seen[k3] == old_seen[k3]);
                        assert(genuine_cells(data@, old_seen));
                    } else {
                        assert(Some(seen[k3]@) == month_sum(
                            data@,
                            rows@[k2 as int].year as int,
                            months@[mi as int] as int,
                        ));
                    }
                }
                assert(genuine_cells(data@, seen));
            }
            acc = match acc.add(cell) {
                Some(a) => a,
                None => {
                    proof {
                        assert(rats_sum(seen) is None);
                    }
                    return Err(Error::Arithmetic);
                },
            };
            k2 = k2 + 1;
        }
        proof {
            assert(rows@.take(ny as int) =~= rows@);
        }
        let ghost old_mt = month_totals@;
        month_totals.push(acc);
        proof {
            assert forall|m2: int| 0 <= m2 < mi as int + 1 implies (
            #[trigger] month_totals@[m2]).wf() && Some(month_totals@[m2]@) == col_sum(
                rows@,
                m2,
            ) by {
                if m2 < mi as int {
                    assert(month_totals@[m2] == old_mt[m2]);
                }
            }
        }
        mi = mi + 1;
    }
    let mut grand = Rat::zero();
    let ghost mut seen_totals: Seq<Rat> = Seq::empty();
    let mut k2: usize = 0;
    while k2 < ny
        invariant
            ny == rows.len(),
            nm == months.len(),
            dated_values_wf(data@),
            k2 <= ny,
            grand.wf(),
            forall|k3: int| 0 <= k3 < nm ==> 1 <= (#[trigger] months@[k3]) <= 12,
            forall|k3: int| 0 <= k3 < ny ==> (#[trigger] rows@[k3]).total.wf(),
            forall|k3: int|
                0 <= k3 < ny ==> (#[trigger] rows@[k3]).values@.len() == months@.len(),
            forall|k3: int, m2: int|
                0 <= k3 < ny && 0 <= m2 < months@.len() ==> Some(
                    (#[trigger] rows@[k3].values@[m2])@,
                ) == month_sum(data@, rows@[k3].year as int, months@[m2] as int),
            forall|k3: int|
                0 <= k3 < ny ==> Some((#[trigger] rows@[k3]).total@) == rats_sum(
                    rows@[k3].values@,
                ),
            Some(grand@) == total_sum(rows@.take(k2 as int)),
            Some(grand@) == rats_sum(seen_totals),
            genuine_totals(data@, seen_totals),
        decreases ny - k2,
    {
        proof {
            rows@.lemma_take_succ_push(k2 as int);
            assert(rows@.take(k2 as int).push(rows@[k2 as int]).drop_last() =~= rows@.take(
                k2 as int,
            ));
        }
        let ghost old_seen = seen_totals;
        let t = rows[k2].total;
        proof {
            seen_totals = seen_totals.push(t);
            assert(seen_totals.drop_last() =~= old_seen);
            // the row total is a sum of genuine cells: its own cell vector
            assert forall|k3: int| 0 <= k3 < rows@[k2 as int].values@.len() implies exists|
                y2: int,
                m2: int,
            |
                1 <= m2 <= 12 && Some(
                    (#[trigger] rows@[k2 as int].values@[k3])@,
                ) == #[trigger] month_sum(data@, y2, m2) by {
                assert(Some(rows@[k2 as int].values@[k3]@) == month_sum(
                    data@,
                    rows@[k2 as int].year as int,
                    months@[k3] as int,
                ));
            }
            assert(genuine_cells(data@, rows@[k2 as int].values@));
            assert(genuine_total(data@, t));
            assert forall|k3: int| 0 <= k3 < seen_totals.len() implies genuine_total(
                data@,
                #[trigger] seen_totals[k3],
            ) by {
                if k3 < seen_totals.len() - 1 {
                    assert(seen_totals[k3] == old_seen[k3]);
                    assert(genuine_totals(data@, old_seen));
                }
            }
            assert(genuine_totals(data@, seen_totals));
        }
        grand = match grand.add(t) {
            Some(g) => g,
            None => {
                proof {
                    assert(rats_sum(seen_totals) is None);
                }
                return Err(Error::Arithmetic);
            },
        };
        k2 = k2 + 1;
    }
    proof {
        assert(rows@.take(ny as int) =~= rows@);
        lemma_years_view_index(years@);
        assert(years_view(years@).take(ny as int) =~= years_view(years@));
    }
    Ok(PivotTable { months, rows, month_totals, grand_total: grand })
}

/// The years of a year vector, as mathematical integers.
pub open spec fn years_view(s: Seq<u32>) -> Seq<int>
    decreases s.len(),
{
    if s.len() == 0 {
        Seq::empty()
    } else {
        years_view(s.drop_last()).push(s.last() as int)
    }
}

proof fn lemma_years_view_index(s: Seq<u32>)
    ensures
        years_view(s).len() == s.len(),
        forall|j: int| 0 <= j < s.len() ==> #[trigger] years_view(s)[j] == s[j] as int,
    decreases s.len(),
{
    if s.len() > 0 {
        lemma_years_view_index(s.drop_last());
        assert forall|j: int| 0 <= j < s.len() implies #[trigger] years_view(s)[j]
            == s[j] as int by {
            if j < s.len() - 1 {
                assert(s.drop_last()[j] == s[j]);
                assert(years_view(s.drop_last())[j] == s.drop_last()[j] as int);
            }
        }
    }
}


} // verus!
