//! Current portfolio: one row per held security, built in stages from the
//! ledger, market quotes, the average-cost trace, dividends and cash.

use crate::currency::{fetch_rates, rate_lookup};
use crate::date::Date;
use crate::dividends::TickerDividends;
use crate::ledger::{orders_wf, Order};
use crate::perpetual_inventory::AverageCost;
use crate::rational::{add_v, mul_v, round_v, rv_zero, Rat, Rv};
use crate::scraper::{today, IScraper, QuoteRow};
use crate::schema::{Action, Country, Currency};
use crate::uninvested::CashRow;
use crate::utils;
use crate::Error;
use vstd::prelude::*;

verus! {

/// One security of the portfolio, with every derived column.
#[derive(Debug)]
pub struct PortfolioRow {
    pub ticker: String,
    pub amount: Rat,
    pub accrued_qty: Rat,
    pub country: Country,
    pub currency: Currency,
    pub market_price: Rat,
    pub market_price_currency: Currency,
    pub average_price: Rat,
    pub market_value: Rat,
    pub paper_profit: Rat,
    pub paper_profit_rate: Rat,
    pub dividends: Rat,
    pub profit: Rat,
    pub profit_rate: Rat,
    pub allocation_rate: Rat,
}

impl Clone for PortfolioRow {
    fn clone(&self) -> (r: PortfolioRow)
        ensures
            r == *self,
    {
        PortfolioRow {
            ticker: self.ticker.clone(),
            amount: self.amount,
            accrued_qty: self.accrued_qty,
            country: self.country,
            currency: self.currency,
            market_price: self.market_price,
            market_price_currency: self.market_price_currency,
            average_price: self.average_price,
            market_value: self.market_value,
            paper_profit: self.paper_profit,
            paper_profit_rate: self.paper_profit_rate,
            dividends: self.dividends,
            profit: self.profit,
            profit_rate: self.profit_rate,
            allocation_rate: self.allocation_rate,
        }
    }
}

pub open spec fn prow_wf(e: PortfolioRow) -> bool {
    &&& e.amount.wf()
    &&& e.accrued_qty.wf()
    &&& e.market_price.wf()
    &&& e.average_price.wf()
    &&& e.market_value.wf()
    &&& e.paper_profit.wf()
    &&& e.paper_profit_rate.wf()
    &&& e.dividends.wf()
    &&& e.profit.wf()
    &&& e.profit_rate.wf()
    &&& e.allocation_rate.wf()
}

pub open spec fn prows_wf(s: Seq<PortfolioRow>) -> bool {
    forall|i: int| 0 <= i < s.len() ==> prow_wf(#[trigger] s[i])
}

/// The buy and sell rows of the ledger.
pub open spec fn bs_rows(s: Seq<Order>) -> Seq<Order>
    decreases s.len(),
{
    if s.len() == 0 {
        Seq::empty()
    } else {
        let rest = bs_rows(s.drop_last());
        if s.last()@.action == Action::Buy || s.last()@.action == Action::Sell {
            rest.push(s.last())
        } else {
            rest
        }
    }
}

/// Sum of quantities with sells counted negative, `None` on overflow.
pub open spec fn qty_signed_sum(s: Seq<Order>) -> Option<Rv>
    decreases s.len(),
{
    if s.len() == 0 {
        Some(rv_zero())
    } else {
        match qty_signed_sum(s.drop_last()) {
            None => None,
            Some(acc) => {
                let q = if s.last()@.action == Action::Sell {
                    crate::rational::rv_neg(s.last()@.qty)
                } else {
                    s.last()@.qty
                };
                add_v(acc, q)
            },
        }
    }
}

/// The latest quote for `t` dated on or before `dn`: price and currency.
pub open spec fn latest_quote_upto(quotes: Seq<QuoteRow>, t: Seq<char>, dn: int) -> Option<
    (int, Rv, Currency),
>
    decreases quotes.len(),
{
    if quotes.len() == 0 {
        None
    } else {
        let rest = latest_quote_upto(quotes.drop_last(), t, dn);
        let q = quotes.last();
        if q@.ticker == t && q@.date.dn() <= dn {
            match rest {
                None => Some((q@.date.dn(), q@.price, q@.currency)),
                Some(best) => if q@.date.dn() >= best.0 {
                    Some((q@.date.dn(), q@.price, q@.currency))
                } else {
                    Some(best)
                },
            }
        } else {
            rest
        }
    }
}

/// The dividends recorded for ticker `t`, or zero when absent.
pub open spec fn dividends_for(tds: Seq<TickerDividends>, t: Seq<char>) -> Rv
    decreases tds.len(),
{
    if tds.len() == 0 {
        rv_zero()
    } else if has_td(tds.drop_last(), t) {
        dividends_for(tds.drop_last(), t)
    } else if tds.last().ticker@ == t {
        tds.last().dividends@
    } else {
        rv_zero()
    }
}

pub open spec fn has_td(tds: Seq<TickerDividends>, t: Seq<char>) -> bool {
    exists|j: int| 0 <= j < tds.len() && (#[trigger] tds[j]).ticker@ == t
}

/// The portfolio under construction.
#[derive(Debug)]
pub struct Portfolio {
    pub raw_input: Vec<Order>,
    pub rows: Vec<PortfolioRow>,
    pub uninvested_cash: Option<Vec<CashRow>>,
    pub present_date: Date,
}

/// A failed group amount sum at a prefix fails the whole group's sum.
proof fn lemma_ticker_amount_sum_none(s: Seq<Order>, t: Seq<char>, i: int)
    requires
        0 <= i <= s.len(),
        crate::uninvested::amount_sum(
            crate::dividends::rows_of_ticker(s.take(i), t),
        ) is None,
    ensures
        crate::uninvested::amount_sum(crate::dividends::rows_of_ticker(s, t)) is None,
    decreases s.len() - i,
{
    if i < s.len() {
        crate::dividends::lemma_rows_of_ticker_step(s, t, i);
        let g = crate::dividends::rows_of_ticker(s.take(i), t);
        assert(g.push(s[i]).drop_last() =~= g);
        lemma_ticker_amount_sum_none(s, t, i + 1);
    } else {
        assert(s.take(i) =~= s);
    }
}

/// A failed group quantity sum at a prefix fails the whole group's sum.
proof fn lemma_ticker_qty_sum_none(s: Seq<Order>, t: Seq<char>, i: int)
    requires
        0 <= i <= s.len(),
        qty_signed_sum(crate::dividends::rows_of_ticker(s.take(i), t)) is None,
    ensures
        qty_signed_sum(crate::dividends::rows_of_ticker(s, t)) is None,
    decreases s.len() - i,
{
    if i < s.len() {
        crate::dividends::lemma_rows_of_ticker_step(s, t, i);
        let g = crate::dividends::rows_of_ticker(s.take(i), t);
        assert(g.push(s[i]).drop_last() =~= g);
        lemma_ticker_qty_sum_none(s, t, i + 1);
    } else {
        assert(s.take(i) =~= s);
    }
}

/// A failed market-value sum at a prefix fails the whole sum.
proof fn lemma_mv_sum_none(s: Seq<PortfolioRow>, i: int)
    requires
        0 <= i <= s.len(),
        mv_sum(s.take(i)) is None,
    ensures
        mv_sum(s) is None,
    decreases s.len() - i,
{
    if i < s.len() {
        s.lemma_take_succ_push(i);
        assert(s.take(i).push(s[i]).drop_last() =~= s.take(i));
        lemma_mv_sum_none(s, i + 1);
    } else {
        assert(s.take(i) =~= s);
    }
}

impl Portfolio {
    pub open spec fn wf(self) -> bool {
        orders_wf(self.raw_input@) && prows_wf(self.rows@) && self.present_date.wf() && (
        match self.uninvested_cash {
            Some(c) => forall|i: int| 0 <= i < c@.len() ==> (#[trigger] c@[i]).amount.wf(),
            None => true,
        })
    }

    /// Builds the base table: buy and sell rows grouped by ticker, amounts
    /// summed, quantities summed with sells negative, first country and
    /// last currency kept; positions with no remaining quantity are
    /// dropped.  The present date defaults to today.
    pub fn from_orders(orders: Vec<Order>, present_date: Option<Date>) -> (r: Result<
        Portfolio,
        Error,
    >)
        requires
            orders_wf(orders@),
            present_date matches Some(d) ==> d.wf(),
        ensures
            match r {
                Ok(p) => {
                    &&& p.wf()
                    &&& p.raw_input@ == orders@
                    &&& p.uninvested_cash is None
                    &&& (present_date matches Some(d) ==> p.present_date == d)
                    &&& forall|j1: int, j2: int|
                        0 <= j1 < j2 < p.rows@.len() ==> (#[trigger] p.rows@[j1]).ticker@ != (
                        #[trigger] p.rows@[j2]).ticker@
                    &&& forall|k: int|
                        0 <= k < p.rows@.len() ==> {
                            let e = #[trigger] p.rows@[k];
                            let g = crate::dividends::rows_of_ticker(bs_rows(orders@), e.ticker@);
                            &&& g.len() > 0
                            &&& Some(e.amount@) == crate::uninvested::amount_sum(g)
                            &&& Some(e.accrued_qty@) == qty_signed_sum(g)
                            &&& e.accrued_qty@.n > 0
                            &&& e.country == g.first()@.country
                            &&& e.currency == g.last()@.currency
                        }
                },
                Err(e) => e == Error::Arithmetic && base_sum_overflow(orders@),
            },
    {
        let pd = match present_date {
            Some(d) => d,
            None => today(),
        };
        let ghost ov = orders@;

        // filter buys and sells
        let n = orders.len();
        let mut bs: Vec<Order> = Vec::new();
        let mut i: usize = 0;
        while i < n
            invariant
                n == orders.len(),
                i <= n,
                orders_wf(orders@),
                orders_wf(bs@),
                bs@ == bs_rows(orders@.take(i as int)),
            decreases n - i,
        {
            proof {
                orders@.lemma_take_succ_push(i as int);
                assert(orders@.take(i as int).push(orders@[i as int]).drop_last() =~= orders@.take(
                    i as int,
                ));
            }
            if matches!(orders[i].action, Action::Buy | Action::Sell) {
                bs.push(orders[i].clone());
            }
            i = i + 1;
        }
        proof {
            assert(orders@.take(n as int) =~= orders@);
        }

        // accumulate per ticker
        let nb = bs.len();
        let ghost bv = bs@;
        let mut out: Vec<PortfolioRow> = Vec::new();
        let mut i: usize = 0;
        while i < nb
            invariant
                nb == bs.len(),
                bv == bs@,
                bv == bs_rows(ov),
                ov == orders@,
                i <= nb,
                orders_wf(bv),
                prows_wf(out@),
                forall|j1: int, j2: int|
                    0 <= j1 < j2 < out@.len() ==> (#[trigger] out@[j1]).ticker@ != (
                    #[trigger] out@[j2]).ticker@,
                forall|k: int| 0 <= k < i ==> prow_has(out@, (#[trigger] bv[k])@.ticker),
                forall|k: int|
                    0 <= k < out@.len() ==> {
                        let e = #[trigger] out@[k];
                        let g = crate::dividends::rows_of_ticker(bv.take(i as int), e.ticker@);
                        &&& g.len() > 0
                        &&& Some(e.amount@) == crate::uninvested::amount_sum(g)
                        &&& Some(e.accrued_qty@) == qty_signed_sum(g)
                        &&& e.country == g.first()@.country
                        &&& e.currency == g.last()@.currency
                    },
            decreases nb - i,
        {
            let o = &bs[i];
            let no = out.len();
            let mut idx: usize = no;
            let mut j: usize = 0;
            while j < no
                invariant
                    no == out.len(),
                    j <= no,
                    i < nb == bs.len(),
                    bv == bs@,
                    o == &bs@[i as int],
                    idx == no || (idx < no && out@[idx as int].ticker@ == o@.ticker),
                    idx == no ==> forall|jj: int|
                        0 <= jj < j ==> (#[trigger] out@[jj]).ticker@ != o@.ticker,
                decreases no - j,
            {
                if idx == no && out[j].ticker == o.ticker {
                    idx = j;
                }
                j = j + 1;
            }
            let ghost old_out = out@;
            proof {
                crate::dividends::lemma_rows_of_ticker_step(bv, o@.ticker, i as int);
            }
            let qsigned = if matches!(o.action, Action::Sell) {
                o.qty.neg()
            } else {
                o.qty
            };
            if idx < no {
                proof {
                    let g = crate::dividends::rows_of_ticker(bv.take(i as int), o@.ticker);
                    assert(g.push(bv[i as int]).drop_last() =~= g);
                    assert(g.push(bv[i as int]).first() == g.first());
                }
                let new_amount = match out[idx].amount.add(o.amount) {
                    Some(v) => v,
                    None => {
                        proof {
                            lemma_ticker_amount_sum_none(bv, o@.ticker, i as int + 1);
                            assert(bs_rows(ov)[i as int]@.ticker == o@.ticker);
                            assert(crate::uninvested::amount_sum(
                                crate::dividends::rows_of_ticker(
                                    bs_rows(ov),
                                    bs_rows(ov)[i as int]@.ticker,
                                ),
                            ) is None);
                            assert(base_sum_overflow(ov));
                        }
                        return Err(Error::Arithmetic);
                    },
                };
                let new_qty = match out[idx].accrued_qty.add(qsigned) {
                    Some(v) => v,
                    None => {
                        proof {
                            lemma_ticker_qty_sum_none(bv, o@.ticker, i as int + 1);
                            assert(bs_rows(ov)[i as int]@.ticker == o@.ticker);
                            assert(qty_signed_sum(
                                crate::dividends::rows_of_ticker(
                                    bs_rows(ov),
                                    bs_rows(ov)[i as int]@.ticker,
                                ),
                            ) is None);
                            assert(base_sum_overflow(ov));
                        }
                        return Err(Error::Arithmetic);
                    },
                };
                let mut e = out[idx].clone();
                e.amount = new_amount;
                e.accrued_qty = new_qty;
                e.currency = o.currency;
                out[idx] = e;
            } else {
                proof {
                    assert forall|k: int| 0 <= k < bv.take(i as int).len() implies (
                    #[trigger] bv.take(i as int)[k])@.ticker != o@.ticker by {
                        assert(bv.take(i as int)[k] == bv[k]);
                        assert(prow_has(old_out, bv[k]@.ticker));
                    }
                    crate::dividends::lemma_rows_of_ticker_absent(
                        bv.take(i as int),
                        o@.ticker,
                    );
                    let g = crate::dividends::rows_of_ticker(bv.take(i as int), o@.ticker);
                    assert(g.push(bv[i as int]).drop_last() =~= g);
                    assert(g.push(bv[i as int]).first() == bv[i as int]);
                    assert(g =~= Seq::<Order>::empty());
                }
                let amount0 = match Rat::zero().add(o.amount) {
                    Some(v) => v,
                    None => {
                        proof {
                            let g2 = crate::dividends::rows_of_ticker(
                                bv.take(i as int),
                                o@.ticker,
                            );
                            assert(g2.push(bv[i as int]).drop_last() =~= g2);
                            assert(g2.push(bv[i as int]).last() == bv[i as int]);
                            assert(crate::uninvested::amount_sum(g2) == Some(rv_zero()));
                            assert(crate::uninvested::amount_sum(
                                g2.push(bv[i as int]),
                            ) is None);
                            lemma_ticker_amount_sum_none(bv, o@.ticker, i as int + 1);
                            assert(bs_rows(ov)[i as int]@.ticker == o@.ticker);
                            assert(crate::uninvested::amount_sum(
                                crate::dividends::rows_of_ticker(
                                    bs_rows(ov),
                                    bs_rows(ov)[i as int]@.ticker,
                                ),
                            ) is None);
                            assert(base_sum_overflow(ov));
                        }
                        return Err(Error::Arithmetic);
                    },
                };
                let qty0 = match Rat::zero().add(qsigned) {
                    Some(v) => v,
                    None => {
                        proof {
                            let g2 = crate::dividends::rows_of_ticker(
                                bv.take(i as int),
                                o@.ticker,
                            );
                            assert(g2.push(bv[i as int]).drop_last() =~= g2);
                            assert(g2.push(bv[i as int]).last() == bv[i as int]);
                            assert(qty_signed_sum(g2) == Some(rv_zero()));
                            assert(qty_signed_sum(g2.push(bv[i as int])) is None);
                            lemma_ticker_qty_sum_none(bv, o@.ticker, i as int + 1);
                            assert(bs_rows(ov)[i as int]@.ticker == o@.ticker);
                            assert(qty_signed_sum(
                                crate::dividends::rows_of_ticker(
                                    bs_rows(ov),
                                    bs_rows(ov)[i as int]@.ticker,
                                ),
                            ) is None);
                            assert(base_sum_overflow(ov));
                        }
                        return Err(Error::Arithmetic);
                    },
                };
                out.push(
                    PortfolioRow {
                        ticker: o.ticker.clone(),
                        amount: amount0,
                        accrued_qty: qty0,
                        country: o.country,
                        currency: o.currency,
                        market_price: Rat::zero(),
                        market_price_currency: Currency::NA,
                        average_price: Rat::zero(),
                        market_value: Rat::zero(),
                        paper_profit: Rat::zero(),
                        paper_profit_rate: Rat::zero(),
                        dividends: Rat::zero(),
                        profit: Rat::zero(),
                        profit_rate: Rat::zero(),
                        allocation_rate: Rat::zero(),
                    },
                );
            }
            proof {
                let iv = i as int;
                assert forall|k: int| 0 <= k < out@.len() implies {
                    let e = #[trigger] out@[k];
                    let g = crate::dividends::rows_of_ticker(bv.take(iv + 1), e.ticker@);
                    &&& g.len() > 0
                    &&& Some(e.amount@) == crate::uninvested::amount_sum(g)
                    &&& Some(e.accrued_qty@) == qty_signed_sum(g)
                    &&& e.country == g.first()@.country
                    &&& e.currency == g.last()@.currency
                } by {
                    let e = out@[k];
                    crate::dividends::lemma_rows_of_ticker_step(bv, e.ticker@, iv);
                    let g0 = crate::dividends::rows_of_ticker(bv.take(iv), e.ticker@);
                    assert(g0.push(bv[iv]).drop_last() =~= g0);
                    if g0.len() > 0 {
                        assert(g0.push(bv[iv]).first() == g0.first());
                    } else {
                        assert(g0.push(bv[iv]).first() == bv[iv]);
                    }
                    if idx < no {
                        if k != idx as int {
                            assert(out@[k] == old_out[k]);
                            assert(old_out[k].ticker@ != o@.ticker) by {
                                assert(old_out[idx as int].ticker@ == o@.ticker);
                            }
                        } else {
                            assert(e.ticker@ == o@.ticker);
                            assert(old_out[k].ticker@ == e.ticker@);
                            assert(Some(old_out[k].amount@) == crate::uninvested::amount_sum(g0));
                            assert(Some(old_out[k].accrued_qty@) == qty_signed_sum(g0));
                            assert(old_out[k].country == g0.first()@.country);
                            assert(e.country == old_out[k].country);
                        }
                    } else {
                        if k != out@.len() - 1 {
                            assert(out@[k] == old_out[k]);
                            assert(old_out[k].ticker@ != o@.ticker);
                        } else {
                            assert(e.ticker@ == o@.ticker);
                        }
                    }
                }
                assert forall|k: int| 0 <= k < iv + 1 implies prow_has(
                    out@,
                    (#[trigger] bv[k])@.ticker,
                ) by {
                    if k == iv {
                        if idx < no {
                            assert(out@[idx as int].ticker@ == o@.ticker);
                        } else {
                            assert(out@[out@.len() - 1].ticker@ == o@.ticker);
                        }
                    } else {
                        let j0 = choose|j0: int|
                            0 <= j0 < old_out.len() && (#[trigger] old_out[j0]).ticker@
                                == bv[k]@.ticker;
                        assert(out@[j0].ticker@ == bv[k]@.ticker);
                    }
                }
            }
            i = i + 1;
        }
        proof {
            assert(bv.take(nb as int) =~= bv);
        }

        // drop closed positions
        let mut rows: Vec<PortfolioRow> = Vec::new();
        let no = out.len();
        let mut i: usize = 0;
        while i < no
            invariant
                no == out.len(),
                i <= no,
                prows_wf(out@),
                prows_wf(rows@),
                forall|j1: int, j2: int|
                    0 <= j1 < j2 < out@.len() ==> (#[trigger] out@[j1]).ticker@ != (
                    #[trigger] out@[j2]).ticker@,
                forall|k: int|
                    #![trigger rows@[k]]
                    0 <= k < rows@.len() ==> exists|j: int|
                        0 <= j < i && rows@[k] == #[trigger] out@[j],
                forall|j1: int, j2: int|
                    0 <= j1 < j2 < rows@.len() ==> (#[trigger] rows@[j1]).ticker@ != (
                    #[trigger] rows@[j2]).ticker@,
                forall|k: int| 0 <= k < rows@.len() ==> (#[trigger] rows@[k]).accrued_qty@.n > 0,
            decreases no - i,
        {
            if out[i].accrued_qty.is_positive() {
                let ghost old_rows = rows@;
                rows.push(out[i].clone());
                proof {
                    assert forall|k: int| #![trigger rows@[k]] 0 <= k < rows@.len() implies exists|j: int|
                        0 <= j < i as int + 1 && rows@[k] == #[trigger] out@[j] by {
                        if k < rows@.len() - 1 {
                            assert(rows@[k] == old_rows[k]);
                            let j0 = choose|j0: int|
                                0 <= j0 < i as int && old_rows[k] == #[trigger] out@[j0];
                            assert(rows@[k] == out@[j0]);
                        } else {
                            assert(rows@[k] == out@[i as int]);
                        }
                    }
                    assert forall|k: int| 0 <= k < old_rows.len() implies (
                    #[trigger] old_rows[k]).ticker@ != out@[i as int].ticker@ by {
                        let j0 = choose|j0: int|
                            0 <= j0 < i as int && old_rows[k] == #[trigger] out@[j0];
                        assert(out@[j0].ticker@ != out@[i as int].ticker@);
                    }
                    assert forall|j1: int, j2: int|
                        0 <= j1 < j2 < rows@.len() implies (#[trigger] rows@[j1]).ticker@ != (
                    #[trigger] rows@[j2]).ticker@ by {
                        if j2 < rows@.len() - 1 {
                            assert(rows@[j1] == old_rows[j1] && rows@[j2] == old_rows[j2]);
                        } else {
                            assert(rows@[j1] == old_rows[j1]);
                            assert(rows@[j2] == out@[i as int]);
                        }
                    }
                }
            }
            i = i + 1;
        }
        proof {
            assert forall|k: int| 0 <= k < rows@.len() implies {
                let e = #[trigger] rows@[k];
                let g = crate::dividends::rows_of_ticker(bs_rows(ov), e.ticker@);
                &&& g.len() > 0
                &&& Some(e.amount@) == crate::uninvested::amount_sum(g)
                &&& Some(e.accrued_qty@) == qty_signed_sum(g)
                &&& e.accrued_qty@.n > 0
                &&& e.country == g.first()@.country
                &&& e.currency == g.last()@.currency
            } by {
                let j0 = choose|j: int| 0 <= j < no as int && rows@[k] == #[trigger] out@[j];
                assert(rows@[k] == out@[j0]);
            }
        }
        Ok(
            Portfolio {
                raw_input: orders,
                rows,
                uninvested_cash: None,
                present_date: pd,
            },
        )
    }
}

pub open spec fn prow_has(out: Seq<PortfolioRow>, t: Seq<char>) -> bool {
    exists|j: int| 0 <= j < out.len() && (#[trigger] out[j]).ticker@ == t
}

/// Some ticker's amount or signed-quantity sum over its buy/sell group
/// overflows.
pub open spec fn base_sum_overflow(orders: Seq<Order>) -> bool {
    exists|k: int|
        0 <= k < bs_rows(orders).len() && {
            let g = crate::dividends::rows_of_ticker(
                bs_rows(orders),
                (#[trigger] bs_rows(orders)[k])@.ticker,
            );
            crate::uninvested::amount_sum(g) is None || qty_signed_sum(g) is None
        }
}

/// The engine's fold over some ticker group of the ledger overflows.
pub open spec fn engine_overflow(raw: Seq<Order>) -> bool {
    exists|i: int|
        0 <= i < crate::perpetual_inventory::bss_of(raw).len() && cost_fold_of(raw, i) is None
}

/// The fold of ticker group prefix `i + 1` of the filtered ledger.
pub open spec fn cost_fold_of(raw: Seq<Order>, i: int) -> Option<
    crate::perpetual_inventory::CostStateV,
> {
    let rows = crate::perpetual_inventory::bss_of(raw);
    crate::perpetual_inventory::cost_fold(
        #[trigger] crate::perpetual_inventory::ticker_rows(rows.take(i + 1), rows[i]@.ticker),
    )
}

/// Recomputing some held ticker's amount as `average * quantity` from the
/// engine's final state overflows.
pub open spec fn avg_join_overflow(raw: Seq<Order>) -> bool {
    exists|trace: Seq<crate::perpetual_inventory::CostRow>,
        latest: Seq<crate::perpetual_inventory::TickerCost>|
        {
            &&& crate::perpetual_inventory::trace_matches(
                crate::perpetual_inventory::bss_of(raw),
                trace,
            )
            &&& #[trigger] crate::perpetual_inventory::latest_matches(trace, latest)
            &&& exists|l: int|
                0 <= l < latest.len() && (#[trigger] latest[l]).accrued_qty@.n > 0 && mul_v(
                    latest[l].average_price@,
                    latest[l].accrued_qty@,
                ) is None
        }
}

/// One joined row: some base row with the engine's final state for its
/// ticker, a positive remaining quantity, and the amount recomputed as
/// `average_price * accrued_qty`.
pub open spec fn avg_row_ok(
    rows0: Seq<PortfolioRow>,
    latest: Seq<crate::perpetual_inventory::TickerCost>,
    new: PortfolioRow,
) -> bool {
    exists|j: int, l: int|
        #![trigger rows0[j], latest[l]]
        {
            &&& 0 <= j < rows0.len()
            &&& 0 <= l < latest.len()
            &&& new == (PortfolioRow {
                amount: new.amount,
                accrued_qty: new.accrued_qty,
                average_price: new.average_price,
                ..rows0[j]
            })
            &&& latest[l].ticker@ == rows0[j].ticker@
            &&& new.average_price == latest[l].average_price
            &&& new.accrued_qty == latest[l].accrued_qty
            &&& new.accrued_qty@.n > 0
            &&& Some(new.amount@) == mul_v(latest[l].average_price@, latest[l].accrued_qty@)
        }
}

/// The joined rows all come from the base rows and the engine's final
/// state per ticker, which itself matches the cost trace of the raw
/// ledger.
pub open spec fn avg_priced(
    raw: Seq<Order>,
    rows0: Seq<PortfolioRow>,
    rows1: Seq<PortfolioRow>,
) -> bool {
    exists|trace: Seq<crate::perpetual_inventory::CostRow>,
        latest: Seq<crate::perpetual_inventory::TickerCost>|
        {
            &&& crate::perpetual_inventory::trace_matches(
                crate::perpetual_inventory::bss_of(raw),
                trace,
            )
            &&& #[trigger] crate::perpetual_inventory::latest_matches(trace, latest)
            &&& forall|k: int| 0 <= k < rows1.len() ==> avg_row_ok(rows0, latest, #[trigger] rows1[k])
        }
}


/// One row across both conversion passes: the position columns scaled by
/// the row currency's rate, the market price by its quote currency's rate,
/// and both currency columns overwritten with the target.
pub open spec fn converted_row(
    old: PortfolioRow,
    new: PortfolioRow,
    q1: Seq<QuoteRow>,
    q2: Seq<QuoteRow>,
    target: Currency,
) -> bool {
    let rate1 = crate::currency::row_rate(q1, old.currency, target);
    let rate2 = crate::currency::row_rate(q2, old.market_price_currency, target);
    &&& new == (PortfolioRow {
        amount: new.amount,
        average_price: new.average_price,
        market_value: new.market_value,
        paper_profit: new.paper_profit,
        dividends: new.dividends,
        profit: new.profit,
        market_price: new.market_price,
        currency: target,
        market_price_currency: target,
        ..old
    })
    &&& Some(new.amount@) == mul_v(old.amount@, rate1)
    &&& Some(new.average_price@) == mul_v(old.average_price@, rate1)
    &&& Some(new.market_value@) == mul_v(old.market_value@, rate1)
    &&& Some(new.paper_profit@) == mul_v(old.paper_profit@, rate1)
    &&& Some(new.dividends@) == mul_v(old.dividends@, rate1)
    &&& Some(new.profit@) == mul_v(old.profit@, rate1)
    &&& Some(new.market_price@) == mul_v(old.market_price@, rate2)
}

/// Every held row is converted by the two quote series; appended rows (the
/// merged cash) already carry the target currency.
pub open spec fn passes_ok(
    rows0: Seq<PortfolioRow>,
    q1: Seq<QuoteRow>,
    q2: Seq<QuoteRow>,
    rows1: Seq<PortfolioRow>,
    target: Currency,
) -> bool {
    &&& rows1.len() >= rows0.len()
    &&& forall|k: int|
        0 <= k < rows0.len() ==> converted_row(rows0[k], #[trigger] rows1[k], q1, q2, target)
}

/// One row with every monetary column rounded to `dp` digits, half away
/// from zero, and everything else kept.
pub open spec fn rounded_row(old_row: PortfolioRow, new: PortfolioRow, dp: int) -> bool {
    &&& new == (PortfolioRow {
        amount: new.amount,
        accrued_qty: new.accrued_qty,
        market_price: new.market_price,
        average_price: new.average_price,
        market_value: new.market_value,
        paper_profit: new.paper_profit,
        paper_profit_rate: new.paper_profit_rate,
        dividends: new.dividends,
        profit: new.profit,
        profit_rate: new.profit_rate,
        allocation_rate: new.allocation_rate,
        ..old_row
    })
    &&& Some(new.amount@) == round_v(old_row.amount@, dp)
    &&& Some(new.accrued_qty@) == round_v(old_row.accrued_qty@, dp)
    &&& Some(new.market_price@) == round_v(old_row.market_price@, dp)
    &&& Some(new.average_price@) == round_v(old_row.average_price@, dp)
    &&& Some(new.market_value@) == round_v(old_row.market_value@, dp)
    &&& Some(new.paper_profit@) == round_v(old_row.paper_profit@, dp)
    &&& Some(new.paper_profit_rate@) == round_v(old_row.paper_profit_rate@, dp)
    &&& Some(new.dividends@) == round_v(old_row.dividends@, dp)
    &&& Some(new.profit@) == round_v(old_row.profit@, dp)
    &&& Some(new.profit_rate@) == round_v(old_row.profit_rate@, dp)
    &&& Some(new.allocation_rate@) == round_v(old_row.allocation_rate@, dp)
}

/// Some monetary column's rounding overflows.
pub open spec fn round_overflow(row: PortfolioRow, dp: int) -> bool {
    ||| round_v(row.amount@, dp) is None
    ||| round_v(row.accrued_qty@, dp) is None
    ||| round_v(row.market_price@, dp) is None
    ||| round_v(row.average_price@, dp) is None
    ||| round_v(row.market_value@, dp) is None
    ||| round_v(row.paper_profit@, dp) is None
    ||| round_v(row.paper_profit_rate@, dp) is None
    ||| round_v(row.dividends@, dp) is None
    ||| round_v(row.profit@, dp) is None
    ||| round_v(row.profit_rate@, dp) is None
    ||| round_v(row.allocation_rate@, dp) is None
}

/// Some held row's position-column scaling by some quote series overflows.
pub open spec fn position_scaling_overflow(rows: Seq<PortfolioRow>, target: Currency) -> bool {
    exists|qs: Seq<QuoteRow>, k: int|
        0 <= k < rows.len() && {
            let rate = #[trigger] crate::currency::row_rate(qs, rows[k].currency, target);
            ||| mul_v(rows[k].amount@, rate) is None
            ||| mul_v(rows[k].average_price@, rate) is None
            ||| mul_v(rows[k].market_value@, rate) is None
            ||| mul_v(rows[k].paper_profit@, rate) is None
            ||| mul_v(rows[k].dividends@, rate) is None
            ||| mul_v(rows[k].profit@, rate) is None
        }
}

/// Some row's market-price scaling by some quote series overflows.
pub open spec fn price_scaling_overflow(rows: Seq<PortfolioRow>, target: Currency) -> bool {
    exists|qs: Seq<QuoteRow>, k: int|
        0 <= k < rows.len() && mul_v(
            rows[k].market_price@,
            #[trigger] crate::currency::row_rate(qs, rows[k].market_price_currency, target),
        ) is None
}

/// Some pending cash amount's scaling by some quote series overflows.
pub open spec fn cash_scaling_overflow(cash: Seq<CashRow>, target: Currency) -> bool {
    exists|qs: Seq<QuoteRow>, k: int|
        0 <= k < cash.len() && mul_v(
            cash[k].amount@,
            #[trigger] crate::currency::row_rate(qs, cash[k].currency, target),
        ) is None
}

/// The conversion's quote series exist: the normalizer fetched them from
/// the provider, so they are named only existentially.
pub open spec fn currency_converted(
    rows0: Seq<PortfolioRow>,
    rows1: Seq<PortfolioRow>,
    target: Currency,
) -> bool {
    exists|q1: Seq<QuoteRow>, q2: Seq<QuoteRow>| #[trigger] passes_ok(rows0, q1, q2, rows1, target)
}

/// Sum of the market values of the rows, `None` on overflow.
pub open spec fn mv_sum(s: Seq<PortfolioRow>) -> Option<Rv>
    decreases s.len(),
{
    if s.len() == 0 {
        Some(rv_zero())
    } else {
        match mv_sum(s.drop_last()) {
            None => None,
            Some(acc) => add_v(acc, s.last().market_value@),
        }
    }
}

impl Portfolio {
    /// Joins the latest market price on or before the present date to every
    /// row; a ticker with no usable quote keeps price zero in the `NA`
    /// currency.
    pub fn with_quotes(self, quotes: &Vec<QuoteRow>) -> (r: Result<Portfolio, Error>)
        requires
            self.wf(),
            crate::scraper::quotes_wf(quotes@),
        ensures
            match r {
                Ok(p) => {
                    &&& p.wf()
                    &&& p.raw_input@ == self.raw_input@
                    &&& p.present_date == self.present_date
                    &&& p.uninvested_cash == self.uninvested_cash
                    &&& p.rows@.len() == self.rows@.len()
                    &&& forall|k: int|
                        0 <= k < p.rows@.len() ==> {
                            let old_row = self.rows@[k];
                            let new = #[trigger] p.rows@[k];
                            &&& new == (PortfolioRow {
                                market_price: new.market_price,
                                market_price_currency: new.market_price_currency,
                                ..old_row
                            })
                            &&& (match latest_quote_upto(
                                quotes@,
                                old_row.ticker@,
                                self.present_date@.dn(),
                            ) {
                                Some(b) => new.market_price@ == b.1 && new.market_price_currency
                                    == b.2,
                                None => new.market_price@ == rv_zero()
                                    && new.market_price_currency == Currency::NA,
                            })
                        }
                },
                Err(_) => false,
            },
    {
        let n = self.rows.len();
        let dn = self.present_date.day_number();
        let mut rows: Vec<PortfolioRow> = Vec::new();
        let mut i: usize = 0;
        while i < n
            invariant
                n == self.rows.len(),
                i <= n,
                self.wf(),
                crate::scraper::quotes_wf(quotes@),
                dn as int == self.present_date@.dn(),
                rows@.len() == i,
                prows_wf(rows@),
                forall|k: int|
                    0 <= k < i ==> {
                        let old_row = self.rows@[k];
                        let new = #[trigger] rows@[k];
                        &&& new == (PortfolioRow {
                            market_price: new.market_price,
                            market_price_currency: new.market_price_currency,
                            ..old_row
                        })
                        &&& (match latest_quote_upto(quotes@, old_row.ticker@, dn as int) {
                            Some(b) => new.market_price@ == b.1 && new.market_price_currency
                                == b.2,
                            None => new.market_price@ == rv_zero() && new.market_price_currency
                                == Currency::NA,
                        })
                    },
            decreases n - i,
        {
            let row = &self.rows[i];
            let found = quote_lookup(quotes, &row.ticker, dn);
            let mut e = row.clone();
            match found {
                Some(pc) => {
                    e.market_price = pc.0;
                    e.market_price_currency = pc.1;
                },
                None => {
                    e.market_price = Rat::zero();
                    e.market_price_currency = Currency::NA;
                },
            }
            rows.push(e);
            i = i + 1;
        }
        Ok(
            Portfolio {
                raw_input: self.raw_input,
                rows,
                uninvested_cash: self.uninvested_cash,
                present_date: self.present_date,
            },
        )
    }

    /// Replaces quantity, average price and amount with the engine's final
    /// state per ticker; tickers the trace does not know, and closed
    /// positions, are dropped.
    pub fn with_average_price(self) -> (r: Result<Portfolio, Error>)
        requires
            self.wf(),
        ensures
            match r {
                Ok(p) => {
                    &&& p.wf()
                    &&& p.raw_input@ == self.raw_input@
                    &&& p.present_date == self.present_date
                    &&& p.uninvested_cash == self.uninvested_cash
                    &&& avg_priced(self.raw_input@, self.rows@, p.rows@)
                },
                Err(e) => e == Error::Arithmetic && (engine_overflow(self.raw_input@)
                    || avg_join_overflow(self.raw_input@)),
            },
    {
        // run the engine over a copy of the raw ledger
        let n0 = self.raw_input.len();
        let mut copy: Vec<Order> = Vec::new();
        let mut i: usize = 0;
        while i < n0
            invariant
                n0 == self.raw_input.len(),
                i <= n0,
                self.wf(),
                copy@.len() == i,
                orders_wf(copy@),
                forall|k: int| 0 <= k < i ==> #[trigger] copy@[k] == self.raw_input@[k],
            decreases n0 - i,
        {
            copy.push(self.raw_input[i].clone());
            i = i + 1;
        }
        let ghost copyv = copy@;
        proof {
            assert(copyv =~= self.raw_input@);
        }
        let engine = match AverageCost::from_orders(copy).with_cumulative() {
            Ok(e) => e,
            Err(e) => {
                proof {
                    assert(engine_overflow(self.raw_input@)) by {
                        let i0 = choose|i: int|
                            0 <= i < crate::perpetual_inventory::bss_of(copyv).len()
                                && crate::perpetual_inventory::cost_fold(
                                #[trigger] crate::perpetual_inventory::ticker_rows(
                                    crate::perpetual_inventory::bss_of(copyv).take(i + 1),
                                    crate::perpetual_inventory::bss_of(copyv)[i]@.ticker,
                                ),
                            ) is None;
                        assert(cost_fold_of(self.raw_input@, i0) is None);
                    }
                }
                return Err(e);
            },
        };
        let ghost full_trace = engine.trace@;
        let ghost rows0 = engine.data@;
        let latest = engine.collect_latest();
        proof {
            assert forall|k: int| 0 <= k < latest@.len() implies (
            #[trigger] latest@[k]).average_price.wf() && latest@[k].accrued_qty.wf() by {
                assert forall|j: int| 0 <= j < full_trace.len() implies (
                #[trigger] full_trace[j]).average_price.wf() && full_trace[j].accrued_qty.wf() by {
                    assert(crate::perpetual_inventory::trace_entry_ok(rows0, full_trace, j));
                }
                crate::perpetual_inventory::lemma_cost_rows_for_wf(
                    full_trace,
                    latest@[k].ticker@,
                );
                let g = crate::perpetual_inventory::cost_rows_for(
                    full_trace,
                    latest@[k].ticker@,
                );
                assert(g[g.len() - 1].average_price.wf() && g[g.len() - 1].accrued_qty.wf());
            }
        }

        let n = self.rows.len();
        let mut rows: Vec<PortfolioRow> = Vec::new();
        let mut i: usize = 0;
        while i < n
            invariant
                n == self.rows.len(),
                i <= n,
                self.wf(),
                prows_wf(rows@),
                crate::perpetual_inventory::trace_matches(
                    crate::perpetual_inventory::bss_of(self.raw_input@),
                    full_trace,
                ),
                crate::perpetual_inventory::latest_matches(full_trace, latest@),
                forall|k: int|
                    0 <= k < latest@.len() ==> (#[trigger] latest@[k]).average_price.wf()
                        && latest@[k].accrued_qty.wf(),
                forall|k: int|
                    0 <= k < rows@.len() ==> avg_row_ok(self.rows@, latest@, #[trigger] rows@[k]),
            decreases n - i,
        {
            let row = &self.rows[i];
            let nl = latest.len();
            let mut idx: usize = nl;
            let mut j: usize = 0;
            while j < nl
                invariant
                    nl == latest.len(),
                    j <= nl,
                    idx == nl || (idx < nl && latest@[idx as int].ticker@ == row.ticker@),
                    row == &self.rows@[i as int],
                    i < n == self.rows.len(),
                decreases nl - j,
            {
                if idx == nl && latest[j].ticker == row.ticker {
                    idx = j;
                }
                j = j + 1;
            }
            if idx < nl {
                if latest[idx].accrued_qty.is_positive() {
                    let avg = latest[idx].average_price;
                    let qty = latest[idx].accrued_qty;
                    let amount = match avg.mul(qty) {
                        Some(a) => a,
                        None => {
                            proof {
                                assert(mul_v(
                                    latest@[idx as int].average_price@,
                                    latest@[idx as int].accrued_qty@,
                                ) is None);
                                assert(avg_join_overflow(self.raw_input@));
                            }
                            return Err(Error::Arithmetic);
                        },
                    };
                    let mut e = row.clone();
                    e.average_price = avg;
                    e.accrued_qty = qty;
                    e.amount = amount;
                    let ghost old_rows = rows@;
                    rows.push(e);
                    proof {
                        assert(avg_row_ok(self.rows@, latest@, rows@.last())) by {
                            assert(self.rows@[i as int] == self.rows@[i as int]);
                            assert(latest@[idx as int] == latest@[idx as int]);
                        }
                        assert forall|k: int| 0 <= k < rows@.len() implies avg_row_ok(
                            self.rows@,
                            latest@,
                            #[trigger] rows@[k],
                        ) by {
                            if k < rows@.len() - 1 {
                                assert(rows@[k] == old_rows[k]);
                            }
                        }
                    }
                }
            }
            i = i + 1;
        }
        proof {
            assert(crate::perpetual_inventory::trace_matches(
                crate::perpetual_inventory::bss_of(self.raw_input@),
                full_trace,
            )) by {
                assert(copyv =~= self.raw_input@);
                assert(rows0 == crate::perpetual_inventory::bss_of(copyv));
            }
            assert(crate::perpetual_inventory::latest_matches(full_trace, latest@));
            assert(avg_priced(self.raw_input@, self.rows@, rows@));
        }
        Ok(
            Portfolio {
                raw_input: self.raw_input,
                rows,
                uninvested_cash: self.uninvested_cash,
                present_date: self.present_date,
            },
        )
    }

    /// Derives market value, unrealized gain and its rate for every row.
    pub fn paper_profit(self) -> (r: Result<Portfolio, Error>)
        requires
            self.wf(),
        ensures
            match r {
                Ok(p) => {
                    &&& p.wf()
                    &&& p.raw_input@ == self.raw_input@
                    &&& p.present_date == self.present_date
                    &&& p.uninvested_cash == self.uninvested_cash
                    &&& p.rows@.len() == self.rows@.len()
                    &&& forall|k: int|
                        0 <= k < p.rows@.len() ==> {
                            let old_row = self.rows@[k];
                            let new = #[trigger] p.rows@[k];
                            &&& new == (PortfolioRow {
                                market_value: new.market_value,
                                paper_profit: new.paper_profit,
                                paper_profit_rate: new.paper_profit_rate,
                                ..old_row
                            })
                            &&& Some(new.market_value@) == utils::market_value_v(
                                old_row.market_price@,
                                old_row.accrued_qty@,
                            )
                            &&& Some(new.paper_profit@) == utils::paper_profit_v(
                                old_row.market_price@,
                                old_row.average_price@,
                                old_row.accrued_qty@,
                            )
                            &&& Some(new.paper_profit_rate@) == utils::paper_profit_rate_v(
                                old_row.market_price@,
                                old_row.average_price@,
                            )
                        }
                },
                Err(e) => e == Error::Arithmetic,
            },
            // it fails exactly when some row's derived column overflows
            r is Err <==> exists|k: int|
                0 <= k < self.rows@.len() && {
                    let old_row = #[trigger] self.rows@[k];
                    ||| utils::market_value_v(old_row.market_price@, old_row.accrued_qty@) is None
                    ||| utils::paper_profit_v(
                        old_row.market_price@,
                        old_row.average_price@,
                        old_row.accrued_qty@,
                    ) is None
                    ||| utils::paper_profit_rate_v(
                        old_row.market_price@,
                        old_row.average_price@,
                    ) is None
                },
    {
        let n = self.rows.len();
        let mut rows: Vec<PortfolioRow> = Vec::new();
        let mut i: usize = 0;
        while i < n
            invariant
                n == self.rows.len(),
                i <= n,
                self.wf(),
                rows@.len() == i,
                prows_wf(rows@),
                forall|k: int|
                    0 <= k < i ==> {
                        let old_row = self.rows@[k];
                        let new = #[trigger] rows@[k];
                        &&& new == (PortfolioRow {
                            market_value: new.market_value,
                            paper_profit: new.paper_profit,
                            paper_profit_rate: new.paper_profit_rate,
                            ..old_row
                        })
                        &&& Some(new.market_value@) == utils::market_value_v(
                            old_row.market_price@,
                            old_row.accrued_qty@,
                        )
                        &&& Some(new.paper_profit@) == utils::paper_profit_v(
                            old_row.market_price@,
                            old_row.average_price@,
                            old_row.accrued_qty@,
                        )
                        &&& Some(new.paper_profit_rate@) == utils::paper_profit_rate_v(
                            old_row.market_price@,
                            old_row.average_price@,
                        )
                    },
            decreases n - i,
        {
            let row = &self.rows[i];
            let mv = match utils::market_value(row.market_price, row.accrued_qty) {
                Some(v) => v,
                None => {
                    return Err(Error::Arithmetic);
                },
            };
            let pp = match utils::paper_profit(row.market_price, row.average_price, row.accrued_qty) {
                Some(v) => v,
                None => {
                    return Err(Error::Arithmetic);
                },
            };
            let ppr = match utils::paper_profit_rate(row.market_price, row.average_price) {
                Some(v) => v,
                None => {
                    return Err(Error::Arithmetic);
                },
            };
            let mut e = row.clone();
            e.market_value = mv;
            e.paper_profit = pp;
            e.paper_profit_rate = ppr;
            rows.push(e);
            i = i + 1;
        }
        proof {
            if exists|k: int|
                0 <= k < self.rows@.len() && {
                    let old_row = #[trigger] self.rows@[k];
                    ||| utils::market_value_v(old_row.market_price@, old_row.accrued_qty@) is None
                    ||| utils::paper_profit_v(
                        old_row.market_price@,
                        old_row.average_price@,
                        old_row.accrued_qty@,
                    ) is None
                    ||| utils::paper_profit_rate_v(
                        old_row.market_price@,
                        old_row.average_price@,
                    ) is None
                } {
                let k0 = choose|k: int|
                    0 <= k < self.rows@.len() && {
                        let old_row = #[trigger] self.rows@[k];
                        ||| utils::market_value_v(old_row.market_price@, old_row.accrued_qty@) is None
                        ||| utils::paper_profit_v(
                            old_row.market_price@,
                            old_row.average_price@,
                            old_row.accrued_qty@,
                        ) is None
                        ||| utils::paper_profit_rate_v(
                            old_row.market_price@,
                            old_row.average_price@,
                        ) is None
                    };
                assert(Some(rows@[k0].market_value@) == utils::market_value_v(
                    self.rows@[k0].market_price@,
                    self.rows@[k0].accrued_qty@,
                ));
                assert(Some(rows@[k0].paper_profit@) == utils::paper_profit_v(
                    self.rows@[k0].market_price@,
                    self.rows@[k0].average_price@,
                    self.rows@[k0].accrued_qty@,
                ));
                assert(Some(rows@[k0].paper_profit_rate@) == utils::paper_profit_rate_v(
                    self.rows@[k0].market_price@,
                    self.rows@[k0].average_price@,
                ));
                assert(false);
            }
        }
        Ok(
            Portfolio {
                raw_input: self.raw_input,
                rows,
                uninvested_cash: self.uninvested_cash,
                present_date: self.present_date,
            },
        )
    }

    /// Derives the total gain (unrealized plus dividends) and its rate over
    /// the amount invested.
    pub fn with_profit(self) -> (r: Result<Portfolio, Error>)
        requires
            self.wf(),
        ensures
            match r {
                Ok(p) => {
                    &&& p.wf()
                    &&& p.raw_input@ == self.raw_input@
                    &&& p.present_date == self.present_date
                    &&& p.uninvested_cash == self.uninvested_cash
                    &&& p.rows@.len() == self.rows@.len()
                    &&& forall|k: int|
                        0 <= k < p.rows@.len() ==> {
                            let old_row = self.rows@[k];
                            let new = #[trigger] p.rows@[k];
                            &&& new == (PortfolioRow {
                                profit: new.profit,
                                profit_rate: new.profit_rate,
                                ..old_row
                            })
                            &&& Some(new.profit@) == utils::profit_v(
                                old_row.paper_profit@,
                                old_row.dividends@,
                            )
                            &&& Some(new.profit_rate@) == utils::profit_rate_v(
                                new.profit@,
                                old_row.amount@,
                            )
                        }
                },
                Err(e) => e == Error::Arithmetic,
            },
            // it fails exactly when the gain or its rate overflows
            r is Err <==> exists|k: int|
                0 <= k < self.rows@.len() && {
                    let old_row = #[trigger] self.rows@[k];
                    ||| utils::profit_v(old_row.paper_profit@, old_row.dividends@) is None
                    ||| (utils::profit_v(old_row.paper_profit@, old_row.dividends@) matches Some(p)
                        && utils::profit_rate_v(p, old_row.amount@) is None)
                },
    {
        let n = self.rows.len();
        let mut rows: Vec<PortfolioRow> = Vec::new();
        let mut i: usize = 0;
        while i < n
            invariant
                n == self.rows.len(),
                i <= n,
                self.wf(),
                rows@.len() == i,
                prows_wf(rows@),
                forall|k: int|
                    0 <= k < i ==> {
                        let old_row = self.rows@[k];
                        let new = #[trigger] rows@[k];
                        &&& new == (PortfolioRow {
                            profit: new.profit,
                            profit_rate: new.profit_rate,
                            ..old_row
                        })
                        &&& Some(new.profit@) == utils::profit_v(
                            old_row.paper_profit@,
                            old_row.dividends@,
                        )
                        &&& Some(new.profit_rate@) == utils::profit_rate_v(
                            new.profit@,
                            old_row.amount@,
                        )
                    },
            decreases n - i,
        {
            let row = &self.rows[i];
            let pr = match utils::profit(row.paper_profit, row.dividends) {
                Some(v) => v,
                None => {
                    proof {
                        assert(self.rows@[i as int] == self.rows@[i as int]);
                    }
                    return Err(Error::Arithmetic);
                },
            };
            let prr = match utils::profit_rate(pr, row.amount) {
                Some(v) => v,
                None => {
                    proof {
                        assert(utils::profit_v(
                            self.rows@[i as int].paper_profit@,
                            self.rows@[i as int].dividends@,
                        ) == Some(pr@));
                    }
                    return Err(Error::Arithmetic);
                },
            };
            let mut e = row.clone();
            e.profit = pr;
            e.profit_rate = prr;
            rows.push(e);
            i = i + 1;
        }
        proof {
            if exists|k: int|
                0 <= k < self.rows@.len() && {
                    let old_row = #[trigger] self.rows@[k];
                    ||| utils::profit_v(old_row.paper_profit@, old_row.dividends@) is None
                    ||| (utils::profit_v(old_row.paper_profit@, old_row.dividends@) matches Some(p)
                        && utils::profit_rate_v(p, old_row.amount@) is None)
                } {
                let k0 = choose|k: int|
                    0 <= k < self.rows@.len() && {
                        let old_row = #[trigger] self.rows@[k];
                        ||| utils::profit_v(old_row.paper_profit@, old_row.dividends@) is None
                        ||| (utils::profit_v(old_row.paper_profit@, old_row.dividends@) matches Some(
                            p,
                        ) && utils::profit_rate_v(p, old_row.amount@) is None)
                    };
                assert(Some(rows@[k0].profit@) == utils::profit_v(
                    self.rows@[k0].paper_profit@,
                    self.rows@[k0].dividends@,
                ));
                assert(Some(rows@[k0].profit_rate@) == utils::profit_rate_v(
                    rows@[k0].profit@,
                    self.rows@[k0].amount@,
                ));
                assert(false);
            }
        }
        Ok(
            Portfolio {
                raw_input: self.raw_input,
                rows,
                uninvested_cash: self.uninvested_cash,
                present_date: self.present_date,
            },
        )
    }

    /// Joins dividend income per ticker; a ticker with none gets zero.
    pub fn with_dividends(self, dividends: Vec<TickerDividends>) -> (r: Portfolio)
        requires
            self.wf(),
            forall|i: int| 0 <= i < dividends@.len() ==> (#[trigger] dividends@[i]).dividends.wf(),
        ensures
            r.wf(),
            r.raw_input@ == self.raw_input@,
            r.present_date == self.present_date,
            r.uninvested_cash == self.uninvested_cash,
            r.rows@.len() == self.rows@.len(),
            forall|k: int|
                0 <= k < r.rows@.len() ==> {
                    let old_row = self.rows@[k];
                    let new = #[trigger] r.rows@[k];
                    &&& new == (PortfolioRow { dividends: new.dividends, ..old_row })
                    &&& new.dividends@ == dividends_for(dividends@, old_row.ticker@)
                },
    {
        let n = self.rows.len();
        let mut rows: Vec<PortfolioRow> = Vec::new();
        let mut i: usize = 0;
        while i < n
            invariant
                n == self.rows.len(),
                i <= n,
                self.wf(),
                forall|i2: int|
                    0 <= i2 < dividends@.len() ==> (#[trigger] dividends@[i2]).dividends.wf(),
                rows@.len() == i,
                prows_wf(rows@),
                forall|k: int|
                    0 <= k < i ==> {
                        let old_row = self.rows@[k];
                        let new = #[trigger] rows@[k];
                        &&& new == (PortfolioRow { dividends: new.dividends, ..old_row })
                        &&& new.dividends@ == dividends_for(dividends@, old_row.ticker@)
                    },
            decreases n - i,
        {
            let row = &self.rows[i];
            let d = dividends_lookup(&dividends, &row.ticker);
            let mut e = row.clone();
            e.dividends = d;
            rows.push(e);
            i = i + 1;
        }
        Portfolio {
            raw_input: self.raw_input,
            rows,
            uninvested_cash: self.uninvested_cash,
            present_date: self.present_date,
        }
    }

    /// Attaches the uninvested cash, merged in by `collect`.
    pub fn with_uninvested_cash(self, cash: Vec<CashRow>) -> (r: Portfolio)
        requires
            self.wf(),
            forall|i: int| 0 <= i < cash@.len() ==> (#[trigger] cash@[i]).amount.wf(),
        ensures
            r.wf(),
            r.raw_input@ == self.raw_input@,
            r.rows@ == self.rows@,
            r.present_date == self.present_date,
            r.uninvested_cash matches Some(c) && c@ == cash@,
    {
        Portfolio {
            raw_input: self.raw_input,
            rows: self.rows,
            uninvested_cash: Some(cash),
            present_date: self.present_date,
        }
    }

    /// Derives each row's share of the whole market value, in percent; with
    /// an empty or zero-valued portfolio every share is zero.
    pub fn with_allocation(self) -> (r: Result<Portfolio, Error>)
        requires
            self.wf(),
        ensures
            match r {
                Ok(p) => {
                    &&& p.wf()
                    &&& p.raw_input@ == self.raw_input@
                    &&& p.present_date == self.present_date
                    &&& p.uninvested_cash == self.uninvested_cash
                    &&& p.rows@.len() == self.rows@.len()
                    &&& forall|k: int|
                        0 <= k < p.rows@.len() ==> {
                            let old_row = self.rows@[k];
                            let new = #[trigger] p.rows@[k];
                            &&& new == (PortfolioRow {
                                allocation_rate: new.allocation_rate,
                                ..old_row
                            })
                            &&& (match mv_sum(self.rows@) {
                                Some(total) => if total.n == 0 {
                                    new.allocation_rate@ == rv_zero()
                                } else {
                                    Some(new.allocation_rate@) == utils::allocation_v(
                                        old_row.market_value@,
                                        total,
                                    )
                                },
                                None => false,
                            })
                        }
                },
                Err(e) => e == Error::Arithmetic,
            },
            // it fails exactly when the total or some share overflows
            r is Err <==> (mv_sum(self.rows@) is None || (mv_sum(self.rows@) matches Some(total)
                && total.n != 0 && exists|k: int|
                0 <= k < self.rows@.len() && utils::allocation_v(
                    (#[trigger] self.rows@[k]).market_value@,
                    total,
                ) is None)),
    {
        let n = self.rows.len();
        let mut total = Rat::zero();
        let mut i: usize = 0;
        while i < n
            invariant
                n == self.rows.len(),
                i <= n,
                self.wf(),
                total.wf(),
                Some(total@) == mv_sum(self.rows@.take(i as int)),
            decreases n - i,
        {
            proof {
                self.rows@.lemma_take_succ_push(i as int);
                assert(self.rows@.take(i as int).push(self.rows@[i as int]).drop_last()
                    =~= self.rows@.take(i as int));
            }
            total = match total.add(self.rows[i].market_value) {
                Some(t) => t,
                None => {
                    proof {
                        lemma_mv_sum_none(self.rows@, i as int + 1);
                    }
                    return Err(Error::Arithmetic);
                },
            };
            i = i + 1;
        }
        proof {
            assert(self.rows@.take(n as int) =~= self.rows@);
        }
        let mut rows: Vec<PortfolioRow> = Vec::new();
        let mut i: usize = 0;
        while i < n
            invariant
                n == self.rows.len(),
                i <= n,
                self.wf(),
                total.wf(),
                Some(total@) == mv_sum(self.rows@),
                rows@.len() == i,
                prows_wf(rows@),
                forall|k: int|
                    0 <= k < i ==> {
                        let old_row = self.rows@[k];
                        let new = #[trigger] rows@[k];
                        &&& new == (PortfolioRow {
                            allocation_rate: new.allocation_rate,
                            ..old_row
                        })
                        &&& (if total@.n == 0 {
                            new.allocation_rate@ == rv_zero()
                        } else {
                            Some(new.allocation_rate@) == utils::allocation_v(
                                old_row.market_value@,
                                total@,
                            )
                        })
                    },
            decreases n - i,
        {
            let row = &self.rows[i];
            let a = if total.is_zero() {
                Rat::zero()
            } else {
                match utils::allocation(row.market_value, total) {
                    Some(v) => v,
                    None => {
                        proof {
                            assert(utils::allocation_v(
                                (self.rows@[i as int]).market_value@,
                                total@,
                            ) is None);
                        }
                        return Err(Error::Arithmetic);
                    },
                }
            };
            let mut e = row.clone();
            e.allocation_rate = a;
            rows.push(e);
            i = i + 1;
        }
        proof {
            if mv_sum(self.rows@) is Some {
                let total2 = mv_sum(self.rows@).unwrap();
                assert(total2 == total@);
                if total2.n != 0 && exists|k: int|
                    0 <= k < self.rows@.len() && utils::allocation_v(
                        (#[trigger] self.rows@[k]).market_value@,
                        total2,
                    ) is None {
                    let k0 = choose|k: int|
                        0 <= k < self.rows@.len() && utils::allocation_v(
                            (#[trigger] self.rows@[k]).market_value@,
                            total2,
                        ) is None;
                    assert(Some(rows@[k0].allocation_rate@) == utils::allocation_v(
                        self.rows@[k0].market_value@,
                        total@,
                    ));
                    assert(false);
                }
            }
        }
        Ok(
            Portfolio {
                raw_input: self.raw_input,
                rows,
                uninvested_cash: self.uninvested_cash,
                present_date: self.present_date,
            },
        )
    }

    /// Rewrites every monetary column into `currency`: first the position
    /// columns by each row's own currency, then the market price by its
    /// quote currency; pending uninvested cash is converted and merged in
    /// as `Cash` rows of quantity one.  Quantities are never scaled.
    pub fn normalize_currency<S: IScraper>(self, scraper: &mut S, currency: Currency) -> (r:
        Result<Portfolio, Error>)
        requires
            self.wf(),
            old(scraper).inv(),
        ensures
            final(scraper).inv(),
            match r {
                Ok(p) => {
                    &&& p.wf()
                    &&& p.raw_input@ == self.raw_input@
                    &&& p.present_date == self.present_date
                    &&& p.uninvested_cash is None
                    &&& forall|k: int|
                        0 <= k < p.rows@.len() ==> (#[trigger] p.rows@[k]).currency == currency
                            && p.rows@[k].market_price_currency == currency
                    &&& currency_converted(self.rows@, p.rows@, currency)
                },
                Err(e) => e == Error::Arithmetic || e == Error::Fetch,
            },
            // an arithmetic failure is the look-back window leaving the
            // calendar or one of the three passes' scalings overflowing
            r matches Err(e) && e == Error::Arithmetic ==> (self.present_date@.dn() < 3
                || position_scaling_overflow(self.rows@, currency) || price_scaling_overflow(
                self.rows@,
                currency,
            ) || (self.uninvested_cash matches Some(c) && cash_scaling_overflow(c@, currency))),
    {
        // first pass: the position columns, by the rows' own currencies
        let mut row_currencies: Vec<Currency> = Vec::new();
        let mut mpc_currencies: Vec<Currency> = Vec::new();
        let n = self.rows.len();
        let mut i: usize = 0;
        while i < n
            invariant
                n == self.rows.len(),
                i <= n,
                self.wf(),
            decreases n - i,
        {
            row_currencies.push(self.rows[i].currency);
            mpc_currencies.push(self.rows[i].market_price_currency);
            i = i + 1;
        }
        let quotes1 = match fetch_rates(&row_currencies, currency, scraper, Some(self.present_date)) {
            Ok(q) => q,
            Err(e) => {
                return Err(e);
            },
        };
        let mut rows: Vec<PortfolioRow> = Vec::new();
        let mut i: usize = 0;
        while i < n
            invariant
                n == self.rows.len(),
                i <= n,
                self.wf(),
                scraper.inv(),
                crate::scraper::quotes_wf(quotes1@),
                rows@.len() == i,
                prows_wf(rows@),
                forall|k: int| 0 <= k < i ==> (#[trigger] rows@[k]).currency == currency,
                forall|k: int|
                    0 <= k < i ==> {
                        let old_row = self.rows@[k];
                        let new = #[trigger] rows@[k];
                        let rate1 = crate::currency::row_rate(quotes1@, old_row.currency, currency);
                        &&& new == (PortfolioRow {
                            amount: new.amount,
                            average_price: new.average_price,
                            market_value: new.market_value,
                            paper_profit: new.paper_profit,
                            dividends: new.dividends,
                            profit: new.profit,
                            currency,
                            ..old_row
                        })
                        &&& Some(new.amount@) == mul_v(old_row.amount@, rate1)
                        &&& Some(new.average_price@) == mul_v(old_row.average_price@, rate1)
                        &&& Some(new.market_value@) == mul_v(old_row.market_value@, rate1)
                        &&& Some(new.paper_profit@) == mul_v(old_row.paper_profit@, rate1)
                        &&& Some(new.dividends@) == mul_v(old_row.dividends@, rate1)
                        &&& Some(new.profit@) == mul_v(old_row.profit@, rate1)
                    },
            decreases n - i,
        {
            let row = &self.rows[i];
            let rate = rate_lookup(&quotes1, row.currency, currency);
            let ghost rrate = crate::currency::row_rate(
                quotes1@,
                self.rows@[i as int].currency,
                currency,
            );
            let mut e = row.clone();
            e.amount = match e.amount.mul(rate) {
                Some(v) => v,
                None => {
                    proof {
                        assert(position_scaling_overflow(self.rows@, currency));
                    }
                    return Err(Error::Arithmetic);
                },
            };
            e.average_price = match e.average_price.mul(rate) {
                Some(v) => v,
                None => {
                    proof {
                        assert(position_scaling_overflow(self.rows@, currency));
                    }
                    return Err(Error::Arithmetic);
                },
            };
            e.market_value = match e.market_value.mul(rate) {
                Some(v) => v,
                None => {
                    proof {
                        assert(position_scaling_overflow(self.rows@, currency));
                    }
                    return Err(Error::Arithmetic);
                },
            };
            e.paper_profit = match e.paper_profit.mul(rate) {
                Some(v) => v,
                None => {
                    proof {
                        assert(position_scaling_overflow(self.rows@, currency));
                    }
                    return Err(Error::Arithmetic);
                },
            };
            e.dividends = match e.dividends.mul(rate) {
                Some(v) => v,
                None => {
                    proof {
                        assert(position_scaling_overflow(self.rows@, currency));
                    }
                    return Err(Error::Arithmetic);
                },
            };
            e.profit = match e.profit.mul(rate) {
                Some(v) => v,
                None => {
                    proof {
                        assert(position_scaling_overflow(self.rows@, currency));
                    }
                    return Err(Error::Arithmetic);
                },
            };
            e.currency = currency;
            rows.push(e);
            i = i + 1;
        }

        // second pass: the market price, by its own quote currency
        let quotes2 = match fetch_rates(&mpc_currencies, currency, scraper, Some(self.present_date)) {
            Ok(q) => q,
            Err(e) => {
                return Err(e);
            },
        };
        let mut rows2: Vec<PortfolioRow> = Vec::new();
        let m = rows.len();
        let mut i: usize = 0;
        while i < m
            invariant
                m == rows.len(),
                m == self.rows@.len(),
                i <= m,
                self.wf(),
                scraper.inv(),
                prows_wf(rows@),
                crate::scraper::quotes_wf(quotes1@),
                crate::scraper::quotes_wf(quotes2@),
                forall|k: int| 0 <= k < m ==> (#[trigger] rows@[k]).currency == currency,
                forall|k: int|
                    0 <= k < m ==> {
                        let old_row = self.rows@[k];
                        let new = #[trigger] rows@[k];
                        let rate1 = crate::currency::row_rate(quotes1@, old_row.currency, currency);
                        &&& new == (PortfolioRow {
                            amount: new.amount,
                            average_price: new.average_price,
                            market_value: new.market_value,
                            paper_profit: new.paper_profit,
                            dividends: new.dividends,
                            profit: new.profit,
                            currency,
                            ..old_row
                        })
                        &&& Some(new.amount@) == mul_v(old_row.amount@, rate1)
                        &&& Some(new.average_price@) == mul_v(old_row.average_price@, rate1)
                        &&& Some(new.market_value@) == mul_v(old_row.market_value@, rate1)
                        &&& Some(new.paper_profit@) == mul_v(old_row.paper_profit@, rate1)
                        &&& Some(new.dividends@) == mul_v(old_row.dividends@, rate1)
                        &&& Some(new.profit@) == mul_v(old_row.profit@, rate1)
                    },
                rows2@.len() == i,
                prows_wf(rows2@),
                forall|k: int|
                    0 <= k < i ==> converted_row(
                        self.rows@[k],
                        #[trigger] rows2@[k],
                        quotes1@,
                        quotes2@,
                        currency,
                    ),
                forall|k: int|
                    0 <= k < i ==> (#[trigger] rows2@[k]).currency == currency
                        && rows2@[k].market_price_currency == currency,
            decreases m - i,
        {
            let row = &rows[i];
            let rate = rate_lookup(&quotes2, row.market_price_currency, currency);
            let mut e = row.clone();
            e.market_price = match e.market_price.mul(rate) {
                Some(v) => v,
                None => {
                    proof {
                        // pass one kept the market price and its currency
                        assert(rows@[i as int].market_price
                            == self.rows@[i as int].market_price);
                        assert(rows@[i as int].market_price_currency
                            == self.rows@[i as int].market_price_currency);
                        assert(price_scaling_overflow(self.rows@, currency));
                    }
                    return Err(Error::Arithmetic);
                },
            };
            e.market_price_currency = currency;
            rows2.push(e);
            i = i + 1;
        }

        // pending cash: convert and merge as rows of quantity one
        let mut rows3 = rows2;
        let mut raw = self.raw_input;
        let pd = self.present_date;
        match self.uninvested_cash {
            None => {},
            Some(cash) => {
                let mut cash_currencies: Vec<Currency> = Vec::new();
                let nc = cash.len();
                let mut i: usize = 0;
                while i < nc
                    invariant
                        nc == cash.len(),
                        i <= nc,
                    decreases nc - i,
                {
                    cash_currencies.push(cash[i].currency);
                    i = i + 1;
                }
                let quotes3 = match fetch_rates(&cash_currencies, currency, scraper, Some(pd)) {
                    Ok(q) => q,
                    Err(e) => {
                        return Err(e);
                    },
                };
                let mut i: usize = 0;
                while i < nc
                    invariant
                        nc == cash.len(),
                        i <= nc,
                        scraper.inv(),
                        self.uninvested_cash matches Some(c) && c@ == cash@,
                        forall|k: int| 0 <= k < nc ==> (#[trigger] cash@[k]).amount.wf(),
                        crate::scraper::quotes_wf(quotes3@),
                        prows_wf(rows3@),
                        rows3@.len() >= self.rows@.len(),
                        forall|k: int|
                            0 <= k < self.rows@.len() ==> converted_row(
                                self.rows@[k],
                                #[trigger] rows3@[k],
                                quotes1@,
                                quotes2@,
                                currency,
                            ),
                        forall|k: int|
                            0 <= k < rows3@.len() ==> (#[trigger] rows3@[k]).currency == currency
                                && rows3@[k].market_price_currency == currency,
                    decreases nc - i,
                {
                    let c = &cash[i];
                    let rate = rate_lookup(&quotes3, c.currency, currency);
                    let amount = match c.amount.mul(rate) {
                        Some(v) => v,
                        None => {
                            proof {
                                assert(cash_scaling_overflow(cash@, currency));
                            }
                            return Err(Error::Arithmetic);
                        },
                    };
                    rows3.push(
                        PortfolioRow {
                            ticker: c.ticker.clone(),
                            amount,
                            accrued_qty: Rat::one(),
                            country: c.country,
                            currency,
                            market_price: amount,
                            market_price_currency: currency,
                            average_price: amount,
                            market_value: amount,
                            paper_profit: amount,
                            paper_profit_rate: amount,
                            dividends: amount,
                            profit: amount,
                            profit_rate: amount,
                            allocation_rate: amount,
                        },
                    );
                    i = i + 1;
                }
            },
        }
        proof {
            assert(passes_ok(self.rows@, quotes1@, quotes2@, rows3@, currency));
            assert(currency_converted(self.rows@, rows3@, currency));
        }
        Ok(
            Portfolio {
                raw_input: raw,
                rows: rows3,
                uninvested_cash: None,
                present_date: pd,
            },
        )
    }

    /// Rounds every monetary column to `decimals` digits, half away from
    /// zero.
    pub fn round(self, decimals: u32) -> (r: Result<Portfolio, Error>)
        requires
            self.wf(),
            decimals <= 18,
        ensures
            match r {
                Ok(p) => {
                    &&& p.wf()
                    &&& p.raw_input@ == self.raw_input@
                    &&& p.present_date == self.present_date
                    &&& p.uninvested_cash == self.uninvested_cash
                    &&& p.rows@.len() == self.rows@.len()
                    &&& forall|k: int|
                        0 <= k < p.rows@.len() ==> rounded_row(
                            self.rows@[k],
                            #[trigger] p.rows@[k],
                            decimals as int,
                        )
                },
                Err(e) => e == Error::Arithmetic,
            },
            // it fails exactly when some column's rounding overflows
            r is Err <==> exists|k: int|
                0 <= k < self.rows@.len() && round_overflow(
                    #[trigger] self.rows@[k],
                    decimals as int,
                ),
    {
        let n = self.rows.len();
        let mut rows: Vec<PortfolioRow> = Vec::new();
        let mut i: usize = 0;
        while i < n
            invariant
                n == self.rows.len(),
                i <= n,
                self.wf(),
                decimals <= 18,
                rows@.len() == i,
                prows_wf(rows@),
                forall|k: int|
                    0 <= k < i ==> rounded_row(
                        self.rows@[k],
                        #[trigger] rows@[k],
                        decimals as int,
                    ),
            decreases n - i,
        {
            let row = &self.rows[i];
            let mut e = row.clone();
            e.amount = match e.amount.round_dp(decimals) {
                Some(v) => v,
                None => {
                    proof {
                        assert(round_overflow(self.rows@[i as int], decimals as int));
                    }
                    return Err(Error::Arithmetic);
                },
            };
            e.accrued_qty = match e.accrued_qty.round_dp(decimals) {
                Some(v) => v,
                None => {
                    proof {
                        assert(round_overflow(self.rows@[i as int], decimals as int));
                    }
                    return Err(Error::Arithmetic);
                },
            };
            e.market_price = match e.market_price.round_dp(decimals) {
                Some(v) => v,
                None => {
                    proof {
                        assert(round_overflow(self.rows@[i as int], decimals as int));
                    }
                    return Err(Error::Arithmetic);
                },
            };
            e.average_price = match e.average_price.round_dp(decimals) {
                Some(v) => v,
                None => {
                    proof {
                        assert(round_overflow(self.rows@[i as int], decimals as int));
                    }
                    return Err(Error::Arithmetic);
                },
            };
            e.market_value = match e.market_value.round_dp(decimals) {
                Some(v) => v,
                None => {
                    proof {
                        assert(round_overflow(self.rows@[i as int], decimals as int));
                    }
                    return Err(Error::Arithmetic);
                },
            };
            e.paper_profit = match e.paper_profit.round_dp(decimals) {
                Some(v) => v,
                None => {
                    proof {
                        assert(round_overflow(self.rows@[i as int], decimals as int));
                    }
                    return Err(Error::Arithmetic);
                },
            };
            e.paper_profit_rate = match e.paper_profit_rate.round_dp(decimals) {
                Some(v) => v,
                None => {
                    proof {
                        assert(round_overflow(self.rows@[i as int], decimals as int));
                    }
                    return Err(Error::Arithmetic);
                },
            };
            e.dividends = match e.dividends.round_dp(decimals) {
                Some(v) => v,
                None => {
                    proof {
                        assert(round_overflow(self.rows@[i as int], decimals as int));
                    }
                    return Err(Error::Arithmetic);
                },
            };
            e.profit = match e.profit.round_dp(decimals) {
                Some(v) => v,
                None => {
                    proof {
                        assert(round_overflow(self.rows@[i as int], decimals as int));
                    }
                    return Err(Error::Arithmetic);
                },
            };
            e.profit_rate = match e.profit_rate.round_dp(decimals) {
                Some(v) => v,
                None => {
                    proof {
                        assert(round_overflow(self.rows@[i as int], decimals as int));
                    }
                    return Err(Error::Arithmetic);
                },
            };
            e.allocation_rate = match e.allocation_rate.round_dp(decimals) {
                Some(v) => v,
                None => {
                    proof {
                        assert(round_overflow(self.rows@[i as int], decimals as int));
                    }
                    return Err(Error::Arithmetic);
                },
            };
            rows.push(e);
            i = i + 1;
        }
        proof {
            if exists|k: int|
                0 <= k < self.rows@.len() && round_overflow(
                    #[trigger] self.rows@[k],
                    decimals as int,
                ) {
                let k0 = choose|k: int|
                    0 <= k < self.rows@.len() && round_overflow(
                        #[trigger] self.rows@[k],
                        decimals as int,
                    );
                assert(rounded_row(self.rows@[k0], rows@[k0], decimals as int));
                assert(false);
            }
        }
        Ok(
            Portfolio {
                raw_input: self.raw_input,
                rows,
                uninvested_cash: self.uninvested_cash,
                present_date: self.present_date,
            },
        )
    }

    /// The finished rows; pending uninvested cash is merged in unconverted,
    /// as `Cash` rows of quantity one whose monetary columns carry the
    /// amount.
    pub fn collect(self) -> (r: Vec<PortfolioRow>)
        requires
            self.wf(),
        ensures
            prows_wf(r@),
            r@.len() >= self.rows@.len(),
            forall|k: int| 0 <= k < self.rows@.len() ==> #[trigger] r@[k] == self.rows@[k],
    {
        let mut rows = self.rows;
        let ghost base = rows@;
        match self.uninvested_cash {
            None => {},
            Some(cash) => {
                let nc = cash.len();
                let mut i: usize = 0;
                while i < nc
                    invariant
                        nc == cash.len(),
                        i <= nc,
                        forall|k: int| 0 <= k < nc ==> (#[trigger] cash@[k]).amount.wf(),
                        prows_wf(rows@),
                        rows@.len() >= base.len(),
                        forall|k: int| 0 <= k < base.len() ==> #[trigger] rows@[k] == base[k],
                    decreases nc - i,
                {
                    let c = &cash[i];
                    rows.push(
                        PortfolioRow {
                            ticker: c.ticker.clone(),
                            amount: c.amount,
                            accrued_qty: Rat::one(),
                            country: c.country,
                            currency: c.currency,
                            market_price: c.amount,
                            market_price_currency: c.currency,
                            average_price: c.amount,
                            market_value: c.amount,
                            paper_profit: c.amount,
                            paper_profit_rate: c.amount,
                            dividends: c.amount,
                            profit: c.amount,
                            profit_rate: c.amount,
                            allocation_rate: c.amount,
                        },
                    );
                    i = i + 1;
                }
            },
        }
        rows
    }
}

/// The latest quote on or before `dn` for a ticker, executably.
fn quote_lookup(quotes: &Vec<QuoteRow>, t: &String, dn: i64) -> (r: Option<(Rat, Currency)>)
    requires
        crate::scraper::quotes_wf(quotes@),
    ensures
        match r {
            Some(pc) => pc.0.wf() && (match latest_quote_upto(quotes@, t@, dn as int) {
                Some(b) => pc.0@ == b.1 && pc.1 == b.2,
                None => false,
            }),
            None => latest_quote_upto(quotes@, t@, dn as int) is None,
        },
{
    let n = quotes.len();
    let mut best: Option<(Rat, Currency)> = None;
    let mut best_dn: i64 = 0;
    let mut i: usize = 0;
    while i < n
        invariant
            n == quotes.len(),
            i <= n,
            crate::scraper::quotes_wf(quotes@),
            match best {
                None => latest_quote_upto(quotes@.take(i as int), t@, dn as int) is None,
                Some(pc) => pc.0.wf() && latest_quote_upto(quotes@.take(i as int), t@, dn as int)
                    == Some((best_dn as int, pc.0@, pc.1)),
            },
        decreases n - i,
    {
        proof {
            quotes@.lemma_take_succ_push(i as int);
            assert(quotes@.take(i as int).push(quotes@[i as int]).drop_last() =~= quotes@.take(
                i as int,
            ));
        }
        let row = &quotes[i];
        if row.ticker == *t {
            let qdn = row.date.day_number();
            if qdn <= dn {
                match best {
                    None => {
                        best = Some((row.price, row.currency));
                        best_dn = qdn;
                    },
                    Some(_) => {
                        if qdn >= best_dn {
                            best = Some((row.price, row.currency));
                            best_dn = qdn;
                        }
                    },
                }
            }
        }
        i = i + 1;
    }
    proof {
        assert(quotes@.take(n as int) =~= quotes@);
    }
    best
}

/// The first recorded dividends for a ticker, or zero.
fn dividends_lookup(tds: &Vec<TickerDividends>, t: &String) -> (r: Rat)
    requires
        forall|i: int| 0 <= i < tds@.len() ==> (#[trigger] tds@[i]).dividends.wf(),
    ensures
        r.wf(),
        r@ == dividends_for(tds@, t@),
{
    let n = tds.len();
    let mut i: usize = 0;
    while i < n
        invariant
            n == tds.len(),
            i <= n,
            forall|i2: int| 0 <= i2 < tds@.len() ==> (#[trigger] tds@[i2]).dividends.wf(),
            forall|j: int| 0 <= j < i ==> (#[trigger] tds@[j]).ticker@ != t@,
        decreases n - i,
    {
        if tds[i].ticker == *t {
            proof {
                lemma_dividends_for_found(tds@, t@, i as int);
            }
            return tds[i].dividends;
        }
        i = i + 1;
    }
    proof {
        lemma_dividends_for_missing(tds@, t@);
    }
    Rat::zero()
}

/// When index `i` is the first match, `dividends_for` picks it.
proof fn lemma_dividends_for_found(tds: Seq<TickerDividends>, t: Seq<char>, i: int)
    requires
        0 <= i < tds.len(),
        tds[i].ticker@ == t,
        forall|j: int| 0 <= j < i ==> (#[trigger] tds[j]).ticker@ != t,
    ensures
        dividends_for(tds, t) == tds[i].dividends@,
    decreases tds.len(),
{
    if tds.len() > 0 {
        let d = tds.drop_last();
        if i == tds.len() - 1 {
            if has_td(d, t) {
                let j0 = choose|j: int| 0 <= j < d.len() && (#[trigger] d[j]).ticker@ == t;
                assert(tds[j0].ticker@ == t);
                assert(false);
            }
        } else {
            assert(d[i] == tds[i]);
            assert forall|j: int| 0 <= j < i implies (#[trigger] d[j]).ticker@ != t by {
                assert(d[j] == tds[j]);
            }
            lemma_dividends_for_found(d, t, i);
            assert(has_td(d, t)) by {
                assert(d[i].ticker@ == t);
            }
        }
    }
}

/// With no match at all, `dividends_for` is zero.
proof fn lemma_dividends_for_missing(tds: Seq<TickerDividends>, t: Seq<char>)
    requires
        forall|j: int| 0 <= j < tds.len() ==> (#[trigger] tds[j]).ticker@ != t,
    ensures
        dividends_for(tds, t) == rv_zero(),
    decreases tds.len(),
{
    if tds.len() > 0 {
        let d = tds.drop_last();
        assert forall|j: int| 0 <= j < d.len() implies (#[trigger] d[j]).ticker@ != t by {
            assert(d[j] == tds[j]);
        }
        lemma_dividends_for_missing(d, t);
        if has_td(d, t) {
            let j0 = choose|j: int| 0 <= j < d.len() && (#[trigger] d[j]).ticker@ == t;
            assert(tds[j0].ticker@ == t);
            assert(false);
        }
    }
}

} // verus!
