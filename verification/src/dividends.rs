//! Dividend income: the dividend, tax and interest rows of the ledger,
//! aggregated by ticker or pivoted by year and month.

use crate::ledger::{orders_wf, Order, OrderV};
use crate::perpetual_inventory::dedup_firsts;
use crate::rational::{rv_neg, Rat};
use crate::scraper::IScraper;
use crate::schema::{Action, Column, Currency};
use crate::uninvested::amount_sum;
use crate::utils::{pivot_year_months, DatedValue, PivotTable};
use crate::date::Date;
use crate::Error;
use vstd::prelude::*;

verus! {

/// Actions that move dividend-like income.
pub open spec fn is_income(a: Action) -> bool {
    a == Action::Dividend || a == Action::Tax || a == Action::Interest
}

/// The views of the income ledger: dividend, tax and interest rows, taxes
/// counted negative.
pub open spec fn income_rows_v(s: Seq<Order>) -> Seq<OrderV>
    decreases s.len(),
{
    if s.len() == 0 {
        Seq::empty()
    } else {
        let rest = income_rows_v(s.drop_last());
        let o = s.last()@;
        if is_income(o.action) {
            rest.push(
                OrderV {
                    amount: if o.action == Action::Tax {
                        rv_neg(o.amount)
                    } else {
                        o.amount
                    },
                    ..o
                },
            )
        } else {
            rest
        }
    }
}

/// The views of a row vector.
pub open spec fn order_views(s: Seq<Order>) -> Seq<OrderV>
    decreases s.len(),
{
    if s.len() == 0 {
        Seq::empty()
    } else {
        order_views(s.drop_last()).push(s.last()@)
    }
}

/// The tickers of the rows, row by row.
pub open spec fn order_tickers(s: Seq<Order>) -> Seq<Seq<char>>
    decreases s.len(),
{
    if s.len() == 0 {
        Seq::empty()
    } else {
        order_tickers(s.drop_last()).push(s.last()@.ticker)
    }
}

/// The rows of `s` whose ticker is `t`.
pub open spec fn rows_of_ticker(s: Seq<Order>, t: Seq<char>) -> Seq<Order>
    decreases s.len(),
{
    if s.len() == 0 {
        Seq::empty()
    } else {
        let rest = rows_of_ticker(s.drop_last(), t);
        if s.last()@.ticker == t {
            rest.push(s.last())
        } else {
            rest
        }
    }
}

/// Dividend income summed for one ticker.
#[derive(Debug)]
pub struct TickerDividends {
    pub ticker: String,
    pub dividends: Rat,
}

impl Clone for TickerDividends {
    fn clone(&self) -> (r: TickerDividends)
        ensures
            r == *self,
    {
        TickerDividends { ticker: self.ticker.clone(), dividends: self.dividends }
    }
}

/// The tickers of aggregated rows, row by row.
pub open spec fn td_tickers(s: Seq<TickerDividends>) -> Seq<Seq<char>>
    decreases s.len(),
{
    if s.len() == 0 {
        Seq::empty()
    } else {
        td_tickers(s.drop_last()).push(s.last().ticker@)
    }
}

/// The income ledger: dividend, tax and interest rows, taxes negative.
#[derive(Debug)]
pub struct Dividends {
    pub data: Vec<Order>,
}

impl Dividends {
    /// Keeps the dividend, tax and interest rows, taxes counted negative.
    pub fn from_orders(orders: Vec<Order>) -> (r: Dividends)
        requires
            orders_wf(orders@),
        ensures
            orders_wf(r.data@),
            order_views(r.data@) == income_rows_v(orders@),
    {
        let n = orders.len();
        let mut data: Vec<Order> = Vec::new();
        let mut i: usize = 0;
        while i < n
            invariant
                n == orders.len(),
                i <= n,
                orders_wf(orders@),
                orders_wf(data@),
                order_views(data@) == income_rows_v(orders@.take(i as int)),
            decreases n - i,
        {
            proof {
                orders@.lemma_take_succ_push(i as int);
                assert(orders@.take(i as int).push(orders@[i as int]).drop_last() =~= orders@.take(
                    i as int,
                ));
            }
            let o = &orders[i];
            if matches!(o.action, Action::Dividend | Action::Tax | Action::Interest) {
                let signed = if matches!(o.action, Action::Tax) {
                    o.amount.neg()
                } else {
                    o.amount
                };
                let row = Order {
                    date: o.date,
                    action: o.action,
                    ticker: o.ticker.clone(),
                    qty: o.qty,
                    price: o.price,
                    amount: signed,
                    currency: o.currency,
                    country: o.country,
                };
                let ghost old_data = data@;
                data.push(row);
                proof {
                    assert(order_views(data@) =~= order_views(old_data).push(data@.last()@)) by {
                        assert(data@.drop_last() =~= old_data);
                    }
                }
            }
            i = i + 1;
        }
        proof {
            assert(orders@.take(n as int) =~= orders@);
        }
        Dividends { data }
    }

    /// Like `from_orders`, but an order set with no dividend-like rows at
    /// all is rejected.
    pub fn try_from_orders(orders: Vec<Order>) -> (r: Result<Dividends, Error>)
        requires
            orders_wf(orders@),
        ensures
            match r {
                Ok(d) => {
                    &&& orders_wf(d.data@)
                    &&& order_views(d.data@) == income_rows_v(orders@)
                    &&& income_rows_v(orders@).len() > 0
                },
                Err(e) => e == Error::EmptyTable && income_rows_v(orders@).len() == 0,
            },
    {
        let d = Dividends::from_orders(orders);
        proof {
            lemma_order_views_len(d.data@);
        }
        if d.data.len() == 0 {
            Err(Error::EmptyTable)
        } else {
            Ok(d)
        }
    }

    /// Total income per ticker, tickers in order of first appearance.
    pub fn by_ticker(&self) -> (r: Result<Vec<TickerDividends>, Error>)
        requires
            orders_wf(self.data@),
        ensures
            match r {
                Ok(out) => {
                    &&& td_tickers(out@) == dedup_firsts(order_tickers(self.data@))
                    &&& forall|k: int|
                        0 <= k < out@.len() ==> {
                            let e = #[trigger] out@[k];
                            &&& e.dividends.wf()
                            &&& Some(e.dividends@) == amount_sum(
                                rows_of_ticker(self.data@, e.ticker@),
                            )
                        }
                },
                Err(e) => e == Error::Arithmetic,
            },
            // it fails exactly when some ticker's income sum overflows
            r is Err <==> exists|k: int|
                0 <= k < self.data@.len() && amount_sum(
                    rows_of_ticker(self.data@, (#[trigger] self.data@[k])@.ticker),
                ) is None,
    {
        let n = self.data.len();
        let mut out: Vec<TickerDividends> = Vec::new();
        let mut i: usize = 0;
        while i < n
            invariant
                n == self.data.len(),
                i <= n,
                orders_wf(self.data@),
                td_tickers(out@) == dedup_firsts(order_tickers(self.data@.take(i as int))),
                forall|j1: int, j2: int|
                    0 <= j1 < j2 < out@.len() ==> (#[trigger] out@[j1]).ticker@ != (
                    #[trigger] out@[j2]).ticker@,
                forall|k: int|
                    0 <= k < i ==> td_has(out@, (#[trigger] self.data@[k])@.ticker),
                forall|k: int|
                    0 <= k < out@.len() ==> {
                        let e = #[trigger] out@[k];
                        &&& e.dividends.wf()
                        &&& Some(e.dividends@) == amount_sum(
                            rows_of_ticker(self.data@.take(i as int), e.ticker@),
                        )
                    },
            decreases n - i,
        {
            let ghost rows = self.data@;
            let o = &self.data[i];
            let ns = out.len();
            let mut idx: usize = ns;
            let mut j: usize = 0;
            while j < ns
                invariant
                    ns == out.len(),
                    j <= ns,
                    idx == ns || (idx < ns && out@[idx as int].ticker@ == o@.ticker),
                    idx == ns ==> forall|jj: int|
                        0 <= jj < j ==> (#[trigger] out@[jj]).ticker@ != o@.ticker,
                decreases ns - j,
            {
                if idx == ns && out[j].ticker == o.ticker {
                    idx = j;
                }
                j = j + 1;
            }
            let acc: Rat = if idx < ns {
                out[idx].dividends
            } else {
                proof {
                    assert forall|k: int| 0 <= k < rows.take(i as int).len() implies (
                    #[trigger] rows.take(i as int)[k])@.ticker != o@.ticker by {
                        assert(rows.take(i as int)[k] == rows[k]);
                        assert(td_has(out@, rows[k]@.ticker));
                    }
                    lemma_rows_of_ticker_absent(rows.take(i as int), o@.ticker);
                }
                Rat::zero()
            };
            proof {
                assert(Some(acc@) == amount_sum(rows_of_ticker(rows.take(i as int), o@.ticker)));
                lemma_rows_of_ticker_step(rows, o@.ticker, i as int);
                let g = rows_of_ticker(rows.take(i as int), o@.ticker);
                assert(g.push(rows[i as int]).drop_last() =~= g);
            }
            let total = match acc.add(o.amount) {
                Some(t) => t,
                None => {
                    proof {
                        lemma_income_sum_none(rows, o@.ticker, i as int + 1);
                        assert(rows[i as int]@.ticker == o@.ticker);
                    }
                    return Err(Error::Arithmetic);
                },
            };
            let entry = TickerDividends { ticker: o.ticker.clone(), dividends: total };
            let ghost old_out = out@;
            if idx < ns {
                out[idx] = entry;
            } else {
                out.push(entry);
            }
            proof {
                let iv = i as int;
                lemma_order_tickers_step(rows, iv);
                lemma_td_tickers_index(old_out);
                lemma_td_tickers_index(out@);
                let q = order_tickers(rows.take(iv));
                let t = rows[iv]@.ticker;
                assert(q.push(t).drop_last() =~= q);
                if idx < ns {
                    assert(td_tickers(old_out).contains(t)) by {
                        assert(td_tickers(old_out)[idx as int] == t);
                    }
                    assert(td_tickers(out@) =~= td_tickers(old_out));
                } else {
                    assert(!td_tickers(old_out).contains(t)) by {
                        if td_tickers(old_out).contains(t) {
                            let j0 = choose|j0: int|
                                0 <= j0 < td_tickers(old_out).len() && td_tickers(old_out)[j0]
                                    == t;
                            assert(old_out[j0].ticker@ == t);
                        }
                    }
                    assert(td_tickers(out@) =~= td_tickers(old_out).push(t));
                }
                assert forall|k: int| 0 <= k < out@.len() implies {
                    let e = #[trigger] out@[k];
                    &&& e.dividends.wf()
                    &&& Some(e.dividends@) == amount_sum(
                        rows_of_ticker(rows.take(iv + 1), e.ticker@),
                    )
                } by {
                    let e = out@[k];
                    lemma_rows_of_ticker_step(rows, e.ticker@, iv);
                    let g2 = rows_of_ticker(rows.take(iv), e.ticker@);
                    assert(g2.push(rows[iv]).drop_last() =~= g2);
                    if idx < ns {
                        if k != idx as int {
                            assert(out@[k] == old_out[k]);
                            assert(old_out[k].ticker@ != t) by {
                                assert(old_out[idx as int].ticker@ == t);
                            }
                        }
                    } else {
                        if k != out@.len() - 1 {
                            assert(out@[k] == old_out[k]);
                            assert(old_out[k].ticker@ != t);
                        }
                    }
                }
                assert forall|k: int| 0 <= k < iv + 1 implies td_has(
                    out@,
                    (#[trigger] rows[k])@.ticker,
                ) by {
                    if k == iv {
                        if idx < ns {
                            assert(out@[idx as int].ticker@ == t);
                        } else {
                            assert(out@[out@.len() - 1].ticker@ == t);
                        }
                    } else {
                        let j0 = choose|j0: int|
                            0 <= j0 < old_out.len() && (#[trigger] old_out[j0]).ticker@
                                == rows[k]@.ticker;
                        assert(out@[j0].ticker@ == rows[k]@.ticker);
                    }
                }
            }
            i = i + 1;
        }
        proof {
            assert(self.data@.take(n as int) =~= self.data@);
            if exists|k: int|
                0 <= k < self.data@.len() && amount_sum(
                    rows_of_ticker(self.data@, (#[trigger] self.data@[k])@.ticker),
                ) is None {
                let k0 = choose|k: int|
                    0 <= k < self.data@.len() && amount_sum(
                        rows_of_ticker(self.data@, (#[trigger] self.data@[k])@.ticker),
                    ) is None;
                assert(td_has(out@, self.data@[k0]@.ticker));
                let j0 = choose|j: int|
                    0 <= j < out@.len() && (#[trigger] out@[j]).ticker@
                        == self.data@[k0]@.ticker;
                assert(Some(out@[j0].dividends@) == amount_sum(
                    rows_of_ticker(self.data@, out@[j0].ticker@),
                ));
                assert(false);
            }
        }
        Ok(out)
    }

    /// Income summed by year and month: the pivot of the income ledger's
    /// `(date, amount)` points.
    pub fn pivot(&self) -> (r: Result<PivotTable, Error>)
        requires
            orders_wf(self.data@),
        ensures
            match r {
                Ok(t) => crate::utils::pivot_ok(income_points(self.data@), t),
                Err(e) => e == Error::Arithmetic,
            },
    {
        let n = self.data.len();
        let mut values: Vec<DatedValue> = Vec::new();
        let mut i: usize = 0;
        while i < n
            invariant
                n == self.data.len(),
                i <= n,
                orders_wf(self.data@),
                crate::utils::dated_values_wf(values@),
                values@ == income_points(self.data@.take(i as int)),
            decreases n - i,
        {
            proof {
                self.data@.lemma_take_succ_push(i as int);
                assert(self.data@.take(i as int).push(self.data@[i as int]).drop_last()
                    =~= self.data@.take(i as int));
            }
            values.push(DatedValue { date: self.data[i].date, value: self.data[i].amount });
            proof {
                assert(values@.drop_last() =~= income_points(self.data@.take(i as int)));
            }
            i = i + 1;
        }
        proof {
            assert(self.data@.take(n as int) =~= self.data@);
        }
        pivot_year_months(&values)
    }

    /// Rewrites the income amounts and prices into one currency; the
    /// result is exactly a successful `normalize` of the income ledger over
    /// those two columns.
    pub fn normalize_currency<S: IScraper>(
        self,
        scraper: &mut S,
        currency: Currency,
        present_date: Option<Date>,
    ) -> (r: Result<Dividends, Error>)
        requires
            orders_wf(self.data@),
            old(scraper).inv(),
            present_date matches Some(d) ==> d.wf(),
        ensures
            final(scraper).inv(),
            r matches Ok(d) ==> crate::currency::normalized_rel(
                self.data@,
                false,
                true,
                true,
                currency,
                d.data@,
            ),
            r matches Err(e) ==> e == Error::EmptyTable || e == Error::Arithmetic || e
                == Error::Fetch,
            self.data@.len() == 0 <==> r == Err::<Dividends, Error>(Error::EmptyTable),
    {
        let mut columns: Vec<Column> = Vec::new();
        columns.push(Column::Amount);
        columns.push(Column::Price);
        proof {
            assert(columns@.contains(Column::Amount)) by {
                assert(columns@[0] == Column::Amount);
            }
            assert(columns@.contains(Column::Price)) by {
                assert(columns@[1] == Column::Price);
            }
            assert(!columns@.contains(Column::Qty)) by {
                if columns@.contains(Column::Qty) {
                    let j = choose|j: int| 0 <= j < columns@.len() && columns@[j] == Column::Qty;
                    assert(false);
                }
            }
        }
        match crate::currency::normalize(self.data, &columns, currency, scraper, present_date) {
            Ok(data) => Ok(Dividends { data }),
            Err(e) => Err(e),
        }
    }
}

/// The `(date, amount)` points of the income ledger.
pub open spec fn income_points(s: Seq<Order>) -> Seq<DatedValue>
    decreases s.len(),
{
    if s.len() == 0 {
        Seq::empty()
    } else {
        income_points(s.drop_last()).push(
            DatedValue { date: s.last().date, value: s.last().amount },
        )
    }
}

/// A failed income sum at a prefix fails the whole ticker's sum.
proof fn lemma_income_sum_none(s: Seq<Order>, t: Seq<char>, i: int)
    requires
        0 <= i <= s.len(),
        amount_sum(rows_of_ticker(s.take(i), t)) is None,
    ensures
        amount_sum(rows_of_ticker(s, t)) is None,
    decreases s.len() - i,
{
    if i < s.len() {
        lemma_rows_of_ticker_step(s, t, i);
        let g = rows_of_ticker(s.take(i), t);
        assert(g.push(s[i]).drop_last() =~= g);
        lemma_income_sum_none(s, t, i + 1);
    } else {
        assert(s.take(i) =~= s);
    }
}

/// Some aggregated row carries ticker `t`.
pub open spec fn td_has(out: Seq<TickerDividends>, t: Seq<char>) -> bool {
    exists|j: int| 0 <= j < out.len() && (#[trigger] out[j]).ticker@ == t
}

proof fn lemma_order_views_len(s: Seq<Order>)
    ensures
        order_views(s).len() == s.len(),
    decreases s.len(),
{
    if s.len() > 0 {
        lemma_order_views_len(s.drop_last());
    }
}

pub proof fn lemma_rows_of_ticker_absent(s: Seq<Order>, t: Seq<char>)
    requires
        forall|k: int| 0 <= k < s.len() ==> (#[trigger] s[k])@.ticker != t,
    ensures
        rows_of_ticker(s, t).len() == 0,
    decreases s.len(),
{
    if s.len() > 0 {
        assert forall|k: int| 0 <= k < s.drop_last().len() implies (
        #[trigger] s.drop_last()[k])@.ticker != t by {
            assert(s.drop_last()[k] == s[k]);
        }
        lemma_rows_of_ticker_absent(s.drop_last(), t);
    }
}

pub proof fn lemma_rows_of_ticker_step(s: Seq<Order>, t: Seq<char>, i: int)
    requires
        0 <= i < s.len(),
    ensures
        rows_of_ticker(s.take(i + 1), t) == if s[i]@.ticker == t {
            rows_of_ticker(s.take(i), t).push(s[i])
        } else {
            rows_of_ticker(s.take(i), t)
        },
{
    s.lemma_take_succ_push(i);
    assert(s.take(i).push(s[i]).drop_last() =~= s.take(i));
    assert(s.take(i).push(s[i]).last() == s[i]);
}

proof fn lemma_order_tickers_step(s: Seq<Order>, i: int)
    requires
        0 <= i < s.len(),
    ensures
        order_tickers(s.take(i + 1)) == order_tickers(s.take(i)).push(s[i]@.ticker),
{
    s.lemma_take_succ_push(i);
    assert(s.take(i).push(s[i]).drop_last() =~= s.take(i));
    assert(s.take(i).push(s[i]).last() == s[i]);
}

proof fn lemma_td_tickers_index(s: Seq<TickerDividends>)
    ensures
        td_tickers(s).len() == s.len(),
        forall|j: int| 0 <= j < s.len() ==> #[trigger] td_tickers(s)[j] == s[j].ticker@,
    decreases s.len(),
{
    if s.len() > 0 {
        lemma_td_tickers_index(s.drop_last());
        assert forall|j: int| 0 <= j < s.len() implies #[trigger] td_tickers(s)[j]
            == s[j].ticker@ by {
            if j < s.len() - 1 {
                assert(s.drop_last()[j] == s[j]);
                assert(td_tickers(s.drop_last())[j] == s.drop_last()[j].ticker@);
            }
        }
    }
}

} // verus!
