//! Currency normalizer: rewrites the monetary columns of a ledger into one
//! target currency using time-indexed exchange quotes.
//!
//! Rates multiply the selected columns; nothing is rounded here, so chained
//! conversions compound no rounding error.  A missing rate degrades softly
//! to `1`: better an unconverted value than a dropped row.

use crate::date::Date;
use crate::ledger::{orders_wf, Order, OrderV};
use crate::rational::{
    lemma_mul_assoc_v, lemma_mul_congruence, lemma_mul_one_v, lemma_norm_rv_eq, lemma_rv_eq_trans,
    mul_v, rv_eq, rv_mul, rv_one, rv_wf, Rat, Rv,
};
use crate::scraper::{quotes_wf, IScraper, QuoteRow, SearchPeriod};
use crate::schema::{Column, Currency};
use crate::Error;
use vstd::prelude::*;
use vstd::string::StringExecFns;

verus! {

/// One conversion rate, built fresh per normalization call.
#[derive(Debug)]
pub struct ExchangeRate {
    pub from: Currency,
    pub to: Currency,
    pub rate: Rat,
    pub as_of: Date,
}

/// The synthetic pair ticker a quote source uses for a conversion.
pub open spec fn pair_name(from: Currency, to: Currency) -> Seq<char> {
    from.spec_str() + "/"@ + to.spec_str()
}

/// Builds the pair ticker, for example `"USD/GBP"`.
pub fn pair_ticker(from: Currency, to: Currency) -> (r: String)
    ensures
        r@ == pair_name(from, to),
{
    let mut s = from.as_str().to_owned();
    s.append("/");
    s.append(to.as_str());
    s
}

/// The latest quote for ticker `t`: greatest date, later row on a tie.
/// Returns the day number and the price.
pub open spec fn latest_pair_price(quotes: Seq<QuoteRow>, t: Seq<char>) -> Option<(int, Rv)>
    decreases quotes.len(),
{
    if quotes.len() == 0 {
        None
    } else {
        let rest = latest_pair_price(quotes.drop_last(), t);
        let lastq = quotes.last();
        if lastq@.ticker == t {
            match rest {
                None => Some((lastq@.date.dn(), lastq@.price)),
                Some(best) => if lastq@.date.dn() >= best.0 {
                    Some((lastq@.date.dn(), lastq@.price))
                } else {
                    Some(best)
                },
            }
        } else {
            rest
        }
    }
}

/// The rate applied to a row in currency `c`: `1` for the target itself,
/// the latest quoted pair price when one exists, else `1` (soft
/// degradation; the caller logs the data-quality warning).
pub open spec fn row_rate(quotes: Seq<QuoteRow>, c: Currency, target: Currency) -> Rv {
    if c == target {
        rv_one()
    } else {
        match latest_pair_price(quotes, pair_name(c, target)) {
            None => rv_one(),
            Some(best) => best.1,
        }
    }
}

/// A column is multiplied by the rate only when selected.
pub open spec fn scale_col(v: Rv, selected: bool, rate: Rv) -> Option<Rv> {
    if selected {
        mul_v(v, rate)
    } else {
        Some(v)
    }
}

/// One row rewritten into the target currency: the selected columns are
/// multiplied by the rate, the currency column is overwritten, everything
/// else is kept.  `None` on rational overflow.
pub open spec fn scale_row(
    o: OrderV,
    qty_sel: bool,
    price_sel: bool,
    amount_sel: bool,
    rate: Rv,
    target: Currency,
) -> Option<OrderV> {
    match (
        scale_col(o.qty, qty_sel, rate),
        scale_col(o.price, price_sel, rate),
        scale_col(o.amount, amount_sel, rate),
    ) {
        (Some(q), Some(p), Some(a)) => Some(
            OrderV {
                date: o.date,
                action: o.action,
                ticker: o.ticker,
                qty: q,
                price: p,
                amount: a,
                currency: target,
                country: o.country,
            },
        ),
        _ => None,
    }
}

/// Every output row is the input row scaled by its currency's rate.
pub open spec fn rows_scaled(
    t: Seq<Order>,
    quotes: Seq<QuoteRow>,
    qty_sel: bool,
    price_sel: bool,
    amount_sel: bool,
    target: Currency,
    out: Seq<Order>,
) -> bool {
    &&& out.len() == t.len()
    &&& forall|i: int|
        0 <= i < t.len() ==> Some((#[trigger] out[i])@) == scale_row(
            t[i]@,
            qty_sel,
            price_sel,
            amount_sel,
            row_rate(quotes, t[i]@.currency, target),
            target,
        )
}

/// What `normalize` promises of a successful conversion: the output has
/// the input's row count, every row carries the target currency, and the
/// rows either are the input unchanged (all rows already in the target
/// currency) or are the input scaled by the rates of some fetched quote
/// series.
pub open spec fn normalized_rel(
    t: Seq<Order>,
    qty_sel: bool,
    price_sel: bool,
    amount_sel: bool,
    target: Currency,
    out: Seq<Order>,
) -> bool {
    &&& orders_wf(out)
    &&& out.len() == t.len()
    &&& forall|i: int| 0 <= i < out.len() ==> (#[trigger] out[i])@.currency == target
    &&& ((out == t && (forall|i: int|
        0 <= i < t.len() ==> (#[trigger] t[i])@.currency == target)) || exists|
        quotes: Seq<QuoteRow>,
    |
        #[trigger] rows_scaled(t, quotes, qty_sel, price_sel, amount_sel, target, out))
}

/// Some row's scaling by some quote series overflows: the only failure the
/// conversion itself can cause once the quotes are in hand.
pub open spec fn scaling_overflow(
    t: Seq<Order>,
    qty_sel: bool,
    price_sel: bool,
    amount_sel: bool,
    target: Currency,
) -> bool {
    exists|quotes: Seq<QuoteRow>, i: int|
        0 <= i < t.len() && #[trigger] scale_row(
            t[i]@,
            qty_sel,
            price_sel,
            amount_sel,
            row_rate(quotes, t[i]@.currency, target),
            target,
        ) is None
}

/// Registers every foreign currency pair with the quote source and fetches
/// the quotes that drive the rates, anchored to `present_date` (or today)
/// with a three-day look-back to tolerate non-trading days.
pub fn fetch_rates<S: IScraper>(
    currencies: &Vec<Currency>,
    target: Currency,
    scraper: &mut S,
    present_date: Option<Date>,
) -> (r: Result<Vec<QuoteRow>, Error>)
    requires
        old(scraper).inv(),
        present_date matches Some(d) ==> d.wf(),
    ensures
        final(scraper).inv(),
        r matches Ok(q) ==> quotes_wf(q@),
        r matches Err(e) ==> e == Error::Arithmetic || e == Error::Fetch,
        // the only failure the function itself causes is a present date too
        // close to the calendar's start for the look-back window; with no
        // present date the defaults depend on the clock
        r == Err::<Vec<QuoteRow>, Error>(Error::Arithmetic) ==> (present_date is None || (
        present_date matches Some(d) && d@.dn() < 3)),
{
    let m = currencies.len();
    let mut i: usize = 0;
    while i < m
        invariant
            m == currencies.len(),
            scraper.inv(),
        decreases m - i,
    {
        if !(currencies[i] == target) {
            scraper.with_currency(currencies[i], target);
        }
        i = i + 1;
    }
    let start: Option<Date> = match present_date {
        None => None,
        Some(d) => {
            proof {
                crate::date::dn_in_range(d@);
            }
            match d.add_days(-3) {
                Some(s) => Some(s),
                None => {
                    return Err(Error::Arithmetic);
                },
            }
        },
    };
    let period = match SearchPeriod::new(start, present_date, None) {
        Ok(p) => p,
        Err(e) => {
            return Err(e);
        },
    };
    match scraper.load_blocking(period) {
        Ok(d) => Ok(d.quotes),
        Err(_) => Err(Error::Fetch),
    }
}

/// The distinct currencies of the ledger rows, in order of first
/// appearance.
pub fn distinct_currencies(table: &Vec<Order>) -> (r: Vec<Currency>)
    ensures
        forall|k: int|
            0 <= k < table@.len() ==> r@.contains((#[trigger] table@[k])@.currency),
        forall|j: int, j2: int|
            0 <= j < j2 < r@.len() ==> (#[trigger] r@[j]) != (#[trigger] r@[j2]),
{
    let n = table.len();
    let mut currencies: Vec<Currency> = Vec::new();
    let mut i: usize = 0;
    while i < n
        invariant
            n == table.len(),
            i <= n,
            forall|k: int|
                0 <= k < i ==> currencies@.contains((#[trigger] table@[k])@.currency),
            forall|j: int, j2: int|
                0 <= j < j2 < currencies@.len() ==> (#[trigger] currencies@[j]) != (
                #[trigger] currencies@[j2]),
        decreases n - i,
    {
        let c = table[i].currency;
        let m = currencies.len();
        let mut j: usize = 0;
        let mut seen = false;
        while j < m
            invariant
                m == currencies.len(),
                j <= m,
                seen == (exists|jj: int| 0 <= jj < j && (#[trigger] currencies@[jj]) == c),
            decreases m - j,
        {
            if currencies[j] == c {
                seen = true;
            }
            j = j + 1;
        }
        let ghost old_currencies = currencies@;
        if !seen {
            currencies.push(c);
        }
        proof {
            assert forall|k: int| 0 <= k < i as int + 1 implies currencies@.contains(
                (#[trigger] table@[k])@.currency,
            ) by {
                if k == i as int {
                    if seen {
                        let jj = choose|jj: int|
                            0 <= jj < old_currencies.len() && (#[trigger] old_currencies[jj]) == c;
                        assert(currencies@[jj] == c);
                    } else {
                        assert(currencies@[currencies@.len() - 1] == c);
                    }
                } else {
                    let jj = choose|jj: int|
                        0 <= jj < old_currencies.len() && old_currencies[jj]
                            == table@[k]@.currency;
                    assert(currencies@[jj] == table@[k]@.currency);
                }
            }
        }
        i = i + 1;
    }
    currencies
}

/// The rate table of one normalization call: one entry per listed
/// currency, carrying the latest quoted pair rate into `target` (`1` for
/// the target itself and for a pair that was never quoted), stamped with
/// the date the rates were anchored to.
pub fn exchange_rates(
    quotes: &Vec<QuoteRow>,
    currencies: &Vec<Currency>,
    target: Currency,
    as_of: Date,
) -> (r: Vec<ExchangeRate>)
    requires
        quotes_wf(quotes@),
    ensures
        r@.len() == currencies@.len(),
        forall|k: int|
            0 <= k < r@.len() ==> {
                let e = #[trigger] r@[k];
                &&& e.from == currencies@[k]
                &&& e.to == target
                &&& e.as_of == as_of
                &&& e.rate.wf()
                &&& e.rate@ == row_rate(quotes@, currencies@[k], target)
            },
{
    let n = currencies.len();
    let mut out: Vec<ExchangeRate> = Vec::new();
    let mut i: usize = 0;
    while i < n
        invariant
            n == currencies.len(),
            i <= n,
            quotes_wf(quotes@),
            out@.len() == i,
            forall|k: int|
                0 <= k < i ==> {
                    let e = #[trigger] out@[k];
                    &&& e.from == currencies@[k]
                    &&& e.to == target
                    &&& e.as_of == as_of
                    &&& e.rate.wf()
                    &&& e.rate@ == row_rate(quotes@, currencies@[k], target)
                },
        decreases n - i,
    {
        let rate = rate_lookup(quotes, currencies[i], target);
        out.push(ExchangeRate { from: currencies[i], to: target, rate, as_of });
        i = i + 1;
    }
    out
}

/// The latest price of the pair ticker among the quotes, or `1` when the
/// pair was never quoted or the row is already in the target currency.
pub fn rate_lookup(quotes: &Vec<QuoteRow>, c: Currency, target: Currency) -> (r: Rat)
    requires
        quotes_wf(quotes@),
    ensures
        r.wf(),
        r@ == row_rate(quotes@, c, target),
{
    if c == target {
        return Rat::one();
    }
    let pair = pair_ticker(c, target);
    let n = quotes.len();
    let mut best: Option<Rat> = None;
    let mut best_dn: i64 = 0;
    let mut i: usize = 0;
    while i < n
        invariant
            n == quotes.len(),
            i <= n,
            quotes_wf(quotes@),
            pair@ == pair_name(c, target),
            match best {
                None => latest_pair_price(quotes@.take(i as int), pair@) is None,
                Some(b) => b.wf() && latest_pair_price(quotes@.take(i as int), pair@) == Some(
                    (best_dn as int, b@),
                ),
            },
        decreases n - i,
    {
        proof {
            quotes@.lemma_take_succ_push(i as int);
            assert(quotes@.take(i as int).push(quotes@[i as int]).drop_last() =~= quotes@.take(
                i as int,
            ));
        }
        let row = &quotes[i];
        if row.ticker == pair {
            let dn = row.date.day_number();
            match best {
                None => {
                    best = Some(row.price);
                    best_dn = dn;
                },
                Some(_) => {
                    if dn >= best_dn {
                        best = Some(row.price);
                        best_dn = dn;
                    }
                },
            }
        }
        i = i + 1;
    }
    proof {
        assert(quotes@.take(n as int) =~= quotes@);
    }
    match best {
        Some(b) => b,
        None => Rat::one(),
    }
}

/// Rewrites the ledger's monetary columns into `currency`.
///
/// When every row already carries the target currency the input is handed
/// back unchanged and the quote source is never consulted.  Otherwise one
/// quote request is made for all distinct currencies, anchored to
/// `present_date` (or to today when absent) with a three-day look-back to
/// tolerate non-trading days; the selected columns (`Qty`, `Price` or
/// `Amount`) of every row are then multiplied by that row's rate and the
/// currency column is overwritten.  An empty table is rejected; a failed
/// quote fetch is fatal and propagated.
pub fn normalize<S: IScraper>(
    table: Vec<Order>,
    columns: &Vec<Column>,
    currency: Currency,
    scraper: &mut S,
    present_date: Option<Date>,
) -> (r: Result<Vec<Order>, Error>)
    requires
        orders_wf(table@),
        old(scraper).inv(),
        present_date matches Some(d) ==> d.wf(),
    ensures
        final(scraper).inv(),
        table@.len() == 0 <==> r == Err::<Vec<Order>, Error>(Error::EmptyTable),
        (table@.len() > 0 && (forall|i: int|
            0 <= i < table@.len() ==> (#[trigger] table@[i])@.currency == currency)) ==> {
            &&& r == Ok::<Vec<Order>, Error>(table)
            &&& *final(scraper) == *old(scraper)
        },
        match r {
            Ok(out) => normalized_rel(
                table@,
                columns@.contains(Column::Qty),
                columns@.contains(Column::Price),
                columns@.contains(Column::Amount),
                currency,
                out@,
            ),
            Err(e) => e == Error::EmptyTable || e == Error::Arithmetic || e == Error::Fetch,
        },
        // an arithmetic failure is either the look-back window leaving the
        // calendar (clock-dependent when no present date was given) or a
        // row's scaling overflowing
        r == Err::<Vec<Order>, Error>(Error::Arithmetic) ==> (present_date is None || (
        present_date matches Some(d) && d@.dn() < 3) || scaling_overflow(
            table@,
            columns@.contains(Column::Qty),
            columns@.contains(Column::Price),
            columns@.contains(Column::Amount),
            currency,
        )),
{
    if table.len() == 0 {
        return Err(Error::EmptyTable);
    }
    let n = table.len();

    // identity short-circuit: nothing to convert, no quote call
    let mut all_same = true;
    let mut i: usize = 0;
    while i < n
        invariant
            n == table.len(),
            i <= n,
            all_same == (forall|k: int|
                0 <= k < i ==> (#[trigger] table@[k])@.currency == currency),
        decreases n - i,
    {
        if !(table[i].currency == currency) {
            all_same = false;
        }
        i = i + 1;
    }
    if all_same {
        proof {
            assert(normalized_rel(
                table@,
                columns@.contains(Column::Qty),
                columns@.contains(Column::Price),
                columns@.contains(Column::Amount),
                currency,
                table@,
            ));
        }
        return Ok(table);
    }

    // one quote request for all distinct currencies
    let currencies = distinct_currencies(&table);
    let quotes = match fetch_rates(&currencies, currency, scraper, present_date) {
        Ok(q) => q,
        Err(e) => {
            return Err(e);
        },
    };
    // the fetched quotes drive every rate; rows already in the target
    // currency get rate 1
    let r = normalize_with_quotes(table, columns, currency, &quotes);
    proof {
        if r is Err {
            let i0 = choose|i: int|
                0 <= i < table@.len() && #[trigger] scale_row(
                    table@[i]@,
                    columns@.contains(Column::Qty),
                    columns@.contains(Column::Price),
                    columns@.contains(Column::Amount),
                    row_rate(quotes@, table@[i]@.currency, currency),
                    currency,
                ) is None;
            assert(scaling_overflow(
                table@,
                columns@.contains(Column::Qty),
                columns@.contains(Column::Price),
                columns@.contains(Column::Amount),
                currency,
            ));
        }
    }
    r
}

/// The verified tail of `normalize`: applies the fetched quotes to the
/// table.  Split out so the scaling is specified for every possible quote
/// series, whatever the provider returned.
pub fn normalize_with_quotes(
    table: Vec<Order>,
    columns: &Vec<Column>,
    currency: Currency,
    quotes: &Vec<QuoteRow>,
) -> (r: Result<Vec<Order>, Error>)
    requires
        orders_wf(table@),
        quotes_wf(quotes@),
    ensures
        match r {
            Ok(out) => {
                &&& orders_wf(out@)
                &&& out@.len() == table@.len()
                &&& forall|i: int|
                    0 <= i < out@.len() ==> (#[trigger] out@[i])@.currency == currency
                &&& rows_scaled(
                    table@,
                    quotes@,
                    columns@.contains(Column::Qty),
                    columns@.contains(Column::Price),
                    columns@.contains(Column::Amount),
                    currency,
                    out@,
                )
            },
            Err(e) => e == Error::Arithmetic,
        },
        // it fails exactly when some row's scaling overflows
        r is Err <==> exists|i: int|
            0 <= i < table@.len() && #[trigger] scale_row(
                table@[i]@,
                columns@.contains(Column::Qty),
                columns@.contains(Column::Price),
                columns@.contains(Column::Amount),
                row_rate(quotes@, table@[i]@.currency, currency),
                currency,
            ) is None,
{
    let qty_sel = has_column(columns, Column::Qty);
    let price_sel = has_column(columns, Column::Price);
    let amount_sel = has_column(columns, Column::Amount);
    let n = table.len();
    let mut out: Vec<Order> = Vec::new();
    let mut i: usize = 0;
    while i < n
        invariant
            n == table.len(),
            i <= n,
            orders_wf(table@),
            quotes_wf(quotes@),
            qty_sel == columns@.contains(Column::Qty),
            price_sel == columns@.contains(Column::Price),
            amount_sel == columns@.contains(Column::Amount),
            out@.len() == i,
            orders_wf(out@),
            forall|k: int| 0 <= k < i ==> (#[trigger] out@[k])@.currency == currency,
            forall|k: int|
                0 <= k < i ==> Some((#[trigger] out@[k])@) == scale_row(
                    table@[k]@,
                    qty_sel,
                    price_sel,
                    amount_sel,
                    row_rate(quotes@, table@[k]@.currency, currency),
                    currency,
                ),
        decreases n - i,
    {
        let row = &table[i];
        let rate = rate_lookup(quotes, row.currency, currency);
        let ghost rrate = row_rate(quotes@, table@[i as int]@.currency, currency);
        let qty = if qty_sel {
            match row.qty.mul(rate) {
                Some(v) => v,
                None => {
                    proof {
                        assert(scale_col(table@[i as int]@.qty, qty_sel, rrate) is None);
                        assert(scale_row(
                            table@[i as int]@,
                            qty_sel,
                            price_sel,
                            amount_sel,
                            rrate,
                            currency,
                        ) is None);
                    }
                    return Err(Error::Arithmetic);
                },
            }
        } else {
            row.qty
        };
        let price = if price_sel {
            match row.price.mul(rate) {
                Some(v) => v,
                None => {
                    proof {
                        assert(scale_col(table@[i as int]@.price, price_sel, rrate) is None);
                        assert(scale_row(
                            table@[i as int]@,
                            qty_sel,
                            price_sel,
                            amount_sel,
                            rrate,
                            currency,
                        ) is None);
                    }
                    return Err(Error::Arithmetic);
                },
            }
        } else {
            row.price
        };
        let amount = if amount_sel {
            match row.amount.mul(rate) {
                Some(v) => v,
                None => {
                    proof {
                        assert(scale_col(table@[i as int]@.amount, amount_sel, rrate) is None);
                        assert(scale_row(
                            table@[i as int]@,
                            qty_sel,
                            price_sel,
                            amount_sel,
                            rrate,
                            currency,
                        ) is None);
                    }
                    return Err(Error::Arithmetic);
                },
            }
        } else {
            row.amount
        };
        out.push(
            Order {
                date: row.date,
                action: row.action,
                ticker: row.ticker.clone(),
                qty,
                price,
                amount,
                currency,
                country: row.country,
            },
        );
        i = i + 1;
    }
    proof {
        if exists|i: int|
            0 <= i < table@.len() && #[trigger] scale_row(
                table@[i]@,
                qty_sel,
                price_sel,
                amount_sel,
                row_rate(quotes@, table@[i]@.currency, currency),
                currency,
            ) is None {
            let i0 = choose|i: int|
                0 <= i < table@.len() && #[trigger] scale_row(
                    table@[i]@,
                    qty_sel,
                    price_sel,
                    amount_sel,
                    row_rate(quotes@, table@[i]@.currency, currency),
                    currency,
                ) is None;
            assert(Some(out@[i0]@) == scale_row(
                table@[i0]@,
                qty_sel,
                price_sel,
                amount_sel,
                row_rate(quotes@, table@[i0]@.currency, currency),
                currency,
            ));
            assert(false);
        }
    }
    Ok(out)
}

/// Whether the column list selects `c`.
fn has_column(columns: &Vec<Column>, c: Column) -> (r: bool)
    ensures
        r == columns@.contains(c),
{
    let n = columns.len();
    let mut i: usize = 0;
    let mut found = false;
    while i < n
        invariant
            n == columns.len(),
            i <= n,
            found == (exists|j: int| 0 <= j < i && (#[trigger] columns@[j]) == c),
        decreases n - i,
    {
        if columns[i] == c {
            found = true;
        }
        i = i + 1;
    }
    found
}

proof fn lemma_col_round_trip(v: Rv, sel: bool, r1: Rv, r2: Rv, v1: Rv, v2: Rv)
    requires
        rv_wf(v),
        rv_wf(r1),
        rv_wf(r2),
        rv_eq(rv_mul(r1, r2), rv_one()),
        scale_col(v, sel, r1) == Some(v1),
        scale_col(v1, sel, r2) == Some(v2),
    ensures
        rv_eq(v2, v),
{
    if sel {
        let x1 = rv_mul(v, r1);
        assert(x1.d > 0) by (nonlinear_arith)
            requires
                v.d > 0,
                r1.d > 0,
                x1.d == v.d * r1.d,
        ;
        lemma_norm_rv_eq(x1.n, x1.d);
        let x2 = rv_mul(v1, r2);
        assert(x2.d > 0) by (nonlinear_arith)
            requires
                v1.d > 0,
                r2.d > 0,
                x2.d == v1.d * r2.d,
        ;
        lemma_norm_rv_eq(x2.n, x2.d);
        // v2 ~ v1 * r2 ~ (v * r1) * r2 ~ v * (r1 * r2) ~ v
        lemma_mul_congruence(v1, r2, x1, r2);
        let y = rv_mul(x1, r2);
        assert(y.d != 0) by (nonlinear_arith)
            requires
                x1.d > 0,
                r2.d > 0,
                y.d == x1.d * r2.d,
        ;
        lemma_rv_eq_trans(v2, x2, y);
        lemma_mul_assoc_v(v, r1, r2);
        let z = rv_mul(v, rv_mul(r1, r2));
        assert(z.d != 0) by (nonlinear_arith)
            requires
                v.d > 0,
                r1.d > 0,
                r2.d > 0,
                z.d == v.d * (r1.d * r2.d),
        ;
        lemma_rv_eq_trans(v2, y, z);
        lemma_mul_one_v(v, rv_mul(r1, r2));
        lemma_rv_eq_trans(v2, z, v);
    }
}

/// Normalizing a row into another currency and back with reciprocal rates
/// reproduces the original numeric columns exactly; with exact rationals
/// the floating-point tolerance of the round trip is zero.
pub proof fn lemma_scale_round_trip(
    o: OrderV,
    qty_sel: bool,
    price_sel: bool,
    amount_sel: bool,
    r1: Rv,
    r2: Rv,
    t1: Currency,
    t2: Currency,
    o1: OrderV,
    o2: OrderV,
)
    requires
        o.wf(),
        rv_wf(r1),
        rv_wf(r2),
        rv_eq(rv_mul(r1, r2), rv_one()),
        scale_row(o, qty_sel, price_sel, amount_sel, r1, t1) == Some(o1),
        scale_row(o1, qty_sel, price_sel, amount_sel, r2, t2) == Some(o2),
    ensures
        rv_eq(o2.qty, o.qty),
        rv_eq(o2.price, o.price),
        rv_eq(o2.amount, o.amount),
        o2.currency == t2,
        o2.ticker == o.ticker,
        o2.date == o.date,
        o2.action == o.action,
        o2.country == o.country,
{
    lemma_col_round_trip(o.qty, qty_sel, r1, r2, o1.qty, o2.qty);
    lemma_col_round_trip(o.price, price_sel, r1, r2, o1.price, o2.price);
    lemma_col_round_trip(o.amount, amount_sel, r1, r2, o1.amount, o2.amount);
}

} // verus!
