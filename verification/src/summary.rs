//! Whole-portfolio summary: capital invested, cost, market value, gains,
//! dividends and cash, with each figure's share of the invested capital.

use crate::currency;
use crate::date::Date;
use crate::dividends::TickerDividends;
use crate::ledger::{orders_wf, Order};
use crate::liquidated::ProfitRow;
use crate::portfolio::{prows_wf, PortfolioRow};
use crate::rational::{add_v, mul_v, round_v, rv_zero, Rat, Rv};
use crate::scraper::IScraper;
use crate::schema::{Column, Currency, Type};
use crate::utils;
use crate::Error;
use vstd::prelude::*;

verus! {

/// Whether a portfolio row is the synthetic cash position.
pub open spec fn is_cash_row(e: PortfolioRow) -> bool {
    e.ticker@ == Type::Cash.spec_str()
}

/// Sum of `average_price * accrued_qty` over the non-cash rows.
pub open spec fn cost_sum(s: Seq<PortfolioRow>) -> Option<Rv>
    decreases s.len(),
{
    if s.len() == 0 {
        Some(rv_zero())
    } else {
        match cost_sum(s.drop_last()) {
            None => None,
            Some(acc) => if is_cash_row(s.last()) {
                Some(acc)
            } else {
                match mul_v(s.last().average_price@, s.last().accrued_qty@) {
                    None => None,
                    Some(c) => add_v(acc, c),
                }
            },
        }
    }
}

/// Sum of `market_price * accrued_qty` over the non-cash rows.
pub open spec fn value_sum(s: Seq<PortfolioRow>) -> Option<Rv>
    decreases s.len(),
{
    if s.len() == 0 {
        Some(rv_zero())
    } else {
        match value_sum(s.drop_last()) {
            None => None,
            Some(acc) => if is_cash_row(s.last()) {
                Some(acc)
            } else {
                match mul_v(s.last().market_price@, s.last().accrued_qty@) {
                    None => None,
                    Some(c) => add_v(acc, c),
                }
            },
        }
    }
}

/// Sum of the unrealized gains over the non-cash rows.
pub open spec fn pp_sum(s: Seq<PortfolioRow>) -> Option<Rv>
    decreases s.len(),
{
    if s.len() == 0 {
        Some(rv_zero())
    } else {
        match pp_sum(s.drop_last()) {
            None => None,
            Some(acc) => if is_cash_row(s.last()) {
                Some(acc)
            } else {
                add_v(acc, s.last().paper_profit@)
            },
        }
    }
}

/// Sum of the amounts of the cash rows.
pub open spec fn cash_sum(s: Seq<PortfolioRow>) -> Option<Rv>
    decreases s.len(),
{
    if s.len() == 0 {
        Some(rv_zero())
    } else {
        match cash_sum(s.drop_last()) {
            None => None,
            Some(acc) => if is_cash_row(s.last()) {
                add_v(acc, s.last().amount@)
            } else {
                Some(acc)
            },
        }
    }
}

/// Whether a realized row carries the synthetic cash ticker.
pub open spec fn is_cash_profit(e: ProfitRow) -> bool {
    e.ticker@ == Type::Cash.spec_str()
}

/// Sum of realized profits, the synthetic `Cash` rows excluded.
pub open spec fn realized_sum(s: Seq<ProfitRow>) -> Option<Rv>
    decreases s.len(),
{
    if s.len() == 0 {
        Some(rv_zero())
    } else {
        match realized_sum(s.drop_last()) {
            None => None,
            Some(acc) => if is_cash_profit(s.last()) {
                Some(acc)
            } else {
                add_v(acc, s.last().profit@)
            },
        }
    }
}

/// A failed partial sum fails the whole one, for each of the summary sums.
proof fn lemma_cost_sum_none(s: Seq<PortfolioRow>, i: int)
    requires
        0 <= i <= s.len(),
        cost_sum(s.take(i)) is None,
    ensures
        cost_sum(s) is None,
    decreases s.len() - i,
{
    if i < s.len() {
        s.lemma_take_succ_push(i);
        assert(s.take(i).push(s[i]).drop_last() =~= s.take(i));
        lemma_cost_sum_none(s, i + 1);
    } else {
        assert(s.take(i) =~= s);
    }
}

proof fn lemma_value_sum_none(s: Seq<PortfolioRow>, i: int)
    requires
        0 <= i <= s.len(),
        value_sum(s.take(i)) is None,
    ensures
        value_sum(s) is None,
    decreases s.len() - i,
{
    if i < s.len() {
        s.lemma_take_succ_push(i);
        assert(s.take(i).push(s[i]).drop_last() =~= s.take(i));
        lemma_value_sum_none(s, i + 1);
    } else {
        assert(s.take(i) =~= s);
    }
}

proof fn lemma_pp_sum_none(s: Seq<PortfolioRow>, i: int)
    requires
        0 <= i <= s.len(),
        pp_sum(s.take(i)) is None,
    ensures
        pp_sum(s) is None,
    decreases s.len() - i,
{
    if i < s.len() {
        s.lemma_take_succ_push(i);
        assert(s.take(i).push(s[i]).drop_last() =~= s.take(i));
        lemma_pp_sum_none(s, i + 1);
    } else {
        assert(s.take(i) =~= s);
    }
}

proof fn lemma_cash_sum_none(s: Seq<PortfolioRow>, i: int)
    requires
        0 <= i <= s.len(),
        cash_sum(s.take(i)) is None,
    ensures
        cash_sum(s) is None,
    decreases s.len() - i,
{
    if i < s.len() {
        s.lemma_take_succ_push(i);
        assert(s.take(i).push(s[i]).drop_last() =~= s.take(i));
        lemma_cash_sum_none(s, i + 1);
    } else {
        assert(s.take(i) =~= s);
    }
}

proof fn lemma_realized_sum_none(s: Seq<ProfitRow>, i: int)
    requires
        0 <= i <= s.len(),
        realized_sum(s.take(i)) is None,
    ensures
        realized_sum(s) is None,
    decreases s.len() - i,
{
    if i < s.len() {
        s.lemma_take_succ_push(i);
        assert(s.take(i).push(s[i]).drop_last() =~= s.take(i));
        lemma_realized_sum_none(s, i + 1);
    } else {
        assert(s.take(i) =~= s);
    }
}

proof fn lemma_dividends_sum_none(s: Seq<TickerDividends>, i: int)
    requires
        0 <= i <= s.len(),
        dividends_sum(s.take(i)) is None,
    ensures
        dividends_sum(s) is None,
    decreases s.len() - i,
{
    if i < s.len() {
        s.lemma_take_succ_push(i);
        assert(s.take(i).push(s[i]).drop_last() =~= s.take(i));
        lemma_dividends_sum_none(s, i + 1);
    } else {
        assert(s.take(i) =~= s);
    }
}

/// Sum of per-ticker dividend income.
pub open spec fn dividends_sum(s: Seq<TickerDividends>) -> Option<Rv>
    decreases s.len(),
{
    if s.len() == 0 {
        Some(rv_zero())
    } else {
        match dividends_sum(s.drop_last()) {
            None => None,
            Some(acc) => add_v(acc, s.last().dividends@),
        }
    }
}

/// The finished summary figures, each rounded to two decimals.
#[derive(Debug)]
pub struct SummaryRow {
    pub primary_capital: Rat,
    pub portfolio_cost: Rat,
    pub market_value: Rat,
    pub paper_profit: Rat,
    pub dividends: Rat,
    pub liquidated_profit: Rat,
    pub net_profit: Rat,
    pub uninvested_cash: Rat,
}

pub open spec fn summary_row_wf(r: SummaryRow) -> bool {
    &&& r.primary_capital.wf()
    &&& r.portfolio_cost.wf()
    &&& r.market_value.wf()
    &&& r.paper_profit.wf()
    &&& r.dividends.wf()
    &&& r.liquidated_profit.wf()
    &&& r.net_profit.wf()
    &&& r.uninvested_cash.wf()
}

/// One line of the transposed report: a figure and its share of the
/// invested capital, in percent.
#[derive(Debug)]
pub struct SummaryEntry {
    pub description: Column,
    pub amount: Rat,
    pub rate: Rat,
}

/// The views of the capital-flow ledger: the deposit and withdrawal rows,
/// withdrawals counted negative.
pub open spec fn cap_flows_v(s: Seq<Order>) -> Seq<crate::ledger::OrderV>
    decreases s.len(),
{
    if s.len() == 0 {
        Seq::empty()
    } else {
        let rest = cap_flows_v(s.drop_last());
        let o = s.last()@;
        if o.action == crate::schema::Action::Deposit || o.action == crate::schema::Action::Withdraw {
            rest.push(
                crate::ledger::OrderV {
                    amount: if o.action == crate::schema::Action::Withdraw {
                        crate::rational::rv_neg(o.amount)
                    } else {
                        o.amount
                    },
                    ..o
                },
            )
        } else {
            rest
        }
    }
}

/// The invested capital was computed: it is the amount sum of a successful
/// conversion of the signed flow ledger.
pub open spec fn capital_ok(orders: Seq<Order>, currency: Currency, p: Rat) -> bool {
    exists|flows: Seq<Order>, out: Seq<Order>|
        {
            &&& crate::dividends::order_views(flows) == cap_flows_v(orders)
            &&& #[trigger] crate::currency::normalized_rel(flows, false, false, true, currency, out)
            &&& Some(p@) == crate::uninvested::amount_sum(out)
        }
}

/// What a successful `finish` of summary `s` returns: each figure of `s`
/// rounded to two decimals, with the net profit derived first.
pub open spec fn finish_ok(s: Summary, row: SummaryRow) -> bool {
    &&& summary_row_wf(row)
    &&& s.dividends is Some
    &&& s.liquidated_profit is Some
    &&& s.primary_capital is Some
    &&& Some(row.portfolio_cost@) == round_v(s.portfolio_cost@, 2)
    &&& Some(row.market_value@) == round_v(s.market_value@, 2)
    &&& Some(row.paper_profit@) == round_v(s.paper_profit@, 2)
    &&& Some(row.uninvested_cash@) == round_v(s.uninvested_cash@, 2)
    &&& Some(row.dividends@) == round_v(s.dividends.unwrap()@, 2)
    &&& Some(row.liquidated_profit@) == round_v(s.liquidated_profit.unwrap()@, 2)
    &&& Some(row.primary_capital@) == round_v(s.primary_capital.unwrap()@, 2)
    &&& (match add_v(s.paper_profit@, s.dividends.unwrap()@) {
        Some(x) => match add_v(x, s.liquidated_profit.unwrap()@) {
            Some(net) => Some(row.net_profit@) == round_v(net, 2),
            None => false,
        },
        None => false,
    })
}

/// The net-profit addition or one of the eight roundings overflows.
pub open spec fn finish_overflow(s: Summary) -> bool {
    match (s.dividends, s.liquidated_profit, s.primary_capital) {
        (Some(dv), Some(lq), Some(pc)) => match add_v(s.paper_profit@, dv@) {
            None => true,
            Some(x) => match add_v(x, lq@) {
                None => true,
                Some(net) => {
                    ||| round_v(pc@, 2) is None
                    ||| round_v(s.portfolio_cost@, 2) is None
                    ||| round_v(s.market_value@, 2) is None
                    ||| round_v(s.paper_profit@, 2) is None
                    ||| round_v(dv@, 2) is None
                    ||| round_v(lq@, 2) is None
                    ||| round_v(net, 2) is None
                    ||| round_v(s.uninvested_cash@, 2) is None
                },
            },
        },
        _ => false,
    }
}

/// A figure's share of the invested capital, in percent, rounded to two
/// decimals; zero when no capital was invested.
pub open spec fn report_rate(amount: Rv, primary: Rv) -> Option<Rv> {
    if primary.n == 0 {
        Some(rv_zero())
    } else {
        match mul_v(amount, crate::utils::rv_hundred()) {
            None => None,
            Some(x) => match crate::rational::div_v(x, primary) {
                None => None,
                Some(q) => round_v(q, 2),
            },
        }
    }
}

/// The transposed report lines, in the fixed order, each carrying its
/// figure and that figure's share of the invested capital.
pub open spec fn entries_ok(row: SummaryRow, out: Seq<SummaryEntry>) -> bool {
    &&& out.len() == 8
    &&& out[0].description == Column::PrimaryCapital && out[0].amount == row.primary_capital
        && Some(out[0].rate@) == report_rate(row.primary_capital@, row.primary_capital@)
    &&& out[1].description == Column::PortfolioCost && out[1].amount == row.portfolio_cost && Some(
        out[1].rate@,
    ) == report_rate(row.portfolio_cost@, row.primary_capital@)
    &&& out[2].description == Column::MarketValue && out[2].amount == row.market_value && Some(
        out[2].rate@,
    ) == report_rate(row.market_value@, row.primary_capital@)
    &&& out[3].description == Column::PaperProfit && out[3].amount == row.paper_profit && Some(
        out[3].rate@,
    ) == report_rate(row.paper_profit@, row.primary_capital@)
    &&& out[4].description == Column::Dividends && out[4].amount == row.dividends && Some(
        out[4].rate@,
    ) == report_rate(row.dividends@, row.primary_capital@)
    &&& out[5].description == Column::LiquidatedProfit && out[5].amount == row.liquidated_profit
        && Some(out[5].rate@) == report_rate(row.liquidated_profit@, row.primary_capital@)
    &&& out[6].description == Column::NetProfit && out[6].amount == row.net_profit && Some(
        out[6].rate@,
    ) == report_rate(row.net_profit@, row.primary_capital@)
    &&& out[7].description == Column::UninvestedCash && out[7].amount == row.uninvested_cash
        && Some(out[7].rate@) == report_rate(row.uninvested_cash@, row.primary_capital@)
}

/// The report of a summary: the finished figures transposed.
pub open spec fn collect_ok(s: Summary, out: Seq<SummaryEntry>) -> bool {
    exists|row: SummaryRow| finish_ok(s, row) && #[trigger] entries_ok(row, out)
}

/// The summary under construction; the optional parts arrive through the
/// `with_*` builders.
#[derive(Debug)]
pub struct Summary {
    pub portfolio_cost: Rat,
    pub market_value: Rat,
    pub paper_profit: Rat,
    pub uninvested_cash: Rat,
    pub dividends: Option<Rat>,
    pub liquidated_profit: Option<Rat>,
    pub primary_capital: Option<Rat>,
}

impl Summary {
    pub open spec fn wf(self) -> bool {
        &&& self.portfolio_cost.wf()
        &&& self.market_value.wf()
        &&& self.paper_profit.wf()
        &&& self.uninvested_cash.wf()
        &&& (self.dividends matches Some(v) ==> v.wf())
        &&& (self.liquidated_profit matches Some(v) ==> v.wf())
        &&& (self.primary_capital matches Some(v) ==> v.wf())
    }

    /// Sums the portfolio: cost and market value of the holdings, their
    /// unrealized gain, and the cash amount of the synthetic `Cash` rows.
    pub fn from_portfolio(portfolio: Vec<PortfolioRow>) -> (r: Result<Summary, Error>)
        requires
            prows_wf(portfolio@),
        ensures
            match r {
                Ok(s) => {
                    &&& s.wf()
                    &&& Some(s.portfolio_cost@) == cost_sum(portfolio@)
                    &&& Some(s.market_value@) == value_sum(portfolio@)
                    &&& Some(s.paper_profit@) == pp_sum(portfolio@)
                    &&& Some(s.uninvested_cash@) == cash_sum(portfolio@)
                    &&& s.dividends is None
                    &&& s.liquidated_profit is None
                    &&& s.primary_capital is None
                },
                Err(e) => e == Error::Arithmetic,
            },
            // it fails exactly when one of the four sums overflows
            r is Err <==> (cost_sum(portfolio@) is None || value_sum(portfolio@) is None
                || pp_sum(portfolio@) is None || cash_sum(portfolio@) is None),
    {
        let cash_name = Type::Cash.as_str().to_owned();
        let n = portfolio.len();
        let mut cost = Rat::zero();
        let mut value = Rat::zero();
        let mut pp = Rat::zero();
        let mut cash = Rat::zero();
        let mut i: usize = 0;
        while i < n
            invariant
                n == portfolio.len(),
                i <= n,
                prows_wf(portfolio@),
                cash_name@ == Type::Cash.spec_str(),
                cost.wf(),
                value.wf(),
                pp.wf(),
                cash.wf(),
                Some(cost@) == cost_sum(portfolio@.take(i as int)),
                Some(value@) == value_sum(portfolio@.take(i as int)),
                Some(pp@) == pp_sum(portfolio@.take(i as int)),
                Some(cash@) == cash_sum(portfolio@.take(i as int)),
            decreases n - i,
        {
            proof {
                portfolio@.lemma_take_succ_push(i as int);
                assert(portfolio@.take(i as int).push(portfolio@[i as int]).drop_last()
                    =~= portfolio@.take(i as int));
            }
            let row = &portfolio[i];
            if row.ticker == cash_name {
                cash = match cash.add(row.amount) {
                    Some(v) => v,
                    None => {
                        proof {
                            lemma_cash_sum_none(portfolio@, i as int + 1);
                        }
                        return Err(Error::Arithmetic);
                    },
                };
            } else {
                let c = match row.average_price.mul(row.accrued_qty) {
                    Some(v) => v,
                    None => {
                        proof {
                            lemma_cost_sum_none(portfolio@, i as int + 1);
                        }
                        return Err(Error::Arithmetic);
                    },
                };
                cost = match cost.add(c) {
                    Some(v) => v,
                    None => {
                        proof {
                            lemma_cost_sum_none(portfolio@, i as int + 1);
                        }
                        return Err(Error::Arithmetic);
                    },
                };
                let mv = match row.market_price.mul(row.accrued_qty) {
                    Some(v) => v,
                    None => {
                        proof {
                            lemma_value_sum_none(portfolio@, i as int + 1);
                        }
                        return Err(Error::Arithmetic);
                    },
                };
                value = match value.add(mv) {
                    Some(v) => v,
                    None => {
                        proof {
                            lemma_value_sum_none(portfolio@, i as int + 1);
                        }
                        return Err(Error::Arithmetic);
                    },
                };
                pp = match pp.add(row.paper_profit) {
                    Some(v) => v,
                    None => {
                        proof {
                            lemma_pp_sum_none(portfolio@, i as int + 1);
                        }
                        return Err(Error::Arithmetic);
                    },
                };
            }
            i = i + 1;
        }
        proof {
            assert(portfolio@.take(n as int) =~= portfolio@);
        }
        Ok(
            Summary {
                portfolio_cost: cost,
                market_value: value,
                paper_profit: pp,
                uninvested_cash: cash,
                dividends: None,
                liquidated_profit: None,
                primary_capital: None,
            },
        )
    }

    /// Adds the realized profit; an empty profit table contributes zero.
    pub fn with_liquidated_profit(&mut self, profit: Vec<ProfitRow>) -> (r: Result<(), Error>)
        requires
            old(self).wf(),
            crate::liquidated::profit_rows_wf(profit@),
        ensures
            final(self).wf(),
            match r {
                Ok(_) => {
                    &&& *final(self) == (Summary {
                        liquidated_profit: final(self).liquidated_profit,
                        ..*old(self)
                    })
                    &&& (final(self).liquidated_profit matches Some(v) && Some(v@) == realized_sum(
                        profit@,
                    ))
                },
                Err(e) => e == Error::Arithmetic && *final(self) == *old(self),
            },
            // it fails exactly when the realized sum overflows
            r is Err <==> realized_sum(profit@) is None,
    {
        let cash_name = Type::Cash.as_str().to_owned();
        let n = profit.len();
        let mut acc = Rat::zero();
        let mut i: usize = 0;
        while i < n
            invariant
                n == profit.len(),
                i <= n,
                *self == *old(self),
                old(self).wf(),
                cash_name@ == Type::Cash.spec_str(),
                crate::liquidated::profit_rows_wf(profit@),
                acc.wf(),
                Some(acc@) == realized_sum(profit@.take(i as int)),
            decreases n - i,
        {
            proof {
                profit@.lemma_take_succ_push(i as int);
                assert(profit@.take(i as int).push(profit@[i as int]).drop_last() =~= profit@.take(
                    i as int,
                ));
            }
            if !(profit[i].ticker == cash_name) {
                acc = match acc.add(profit[i].profit) {
                    Some(v) => v,
                    None => {
                        proof {
                            lemma_realized_sum_none(profit@, i as int + 1);
                        }
                        return Err(Error::Arithmetic);
                    },
                };
            }
            i = i + 1;
        }
        proof {
            assert(profit@.take(n as int) =~= profit@);
        }
        self.liquidated_profit = Some(acc);
        Ok(())
    }

    /// Adds the dividend income; an empty table contributes zero.
    pub fn with_dividends(&mut self, dividends: Vec<TickerDividends>) -> (r: Result<(), Error>)
        requires
            old(self).wf(),
            forall|i: int| 0 <= i < dividends@.len() ==> (#[trigger] dividends@[i]).dividends.wf(),
        ensures
            final(self).wf(),
            match r {
                Ok(_) => {
                    &&& *final(self) == (Summary { dividends: final(self).dividends, ..*old(self) })
                    &&& (final(self).dividends matches Some(v) && Some(v@) == dividends_sum(
                        dividends@,
                    ))
                },
                Err(e) => e == Error::Arithmetic && *final(self) == *old(self),
            },
            // it fails exactly when the dividend sum overflows
            r is Err <==> dividends_sum(dividends@) is None,
    {
        let n = dividends.len();
        let mut acc = Rat::zero();
        let mut i: usize = 0;
        while i < n
            invariant
                n == dividends.len(),
                i <= n,
                *self == *old(self),
                old(self).wf(),
                forall|i2: int|
                    0 <= i2 < dividends@.len() ==> (#[trigger] dividends@[i2]).dividends.wf(),
                acc.wf(),
                Some(acc@) == dividends_sum(dividends@.take(i as int)),
            decreases n - i,
        {
            proof {
                dividends@.lemma_take_succ_push(i as int);
                assert(dividends@.take(i as int).push(dividends@[i as int]).drop_last()
                    =~= dividends@.take(i as int));
            }
            acc = match acc.add(dividends[i].dividends) {
                Some(v) => v,
                None => {
                    proof {
                        lemma_dividends_sum_none(dividends@, i as int + 1);
                    }
                    return Err(Error::Arithmetic);
                },
            };
            i = i + 1;
        }
        proof {
            assert(dividends@.take(n as int) =~= dividends@);
        }
        self.dividends = Some(acc);
        Ok(())
    }

    /// Sums the capital put in and taken out (withdrawals negative), in the
    /// target currency.
    pub fn with_capital_invested<S: IScraper>(
        &mut self,
        orders: Vec<Order>,
        currency: Currency,
        scraper: &mut S,
        present_date: Option<Date>,
    ) -> (r: Result<(), Error>)
        requires
            old(self).wf(),
            orders_wf(orders@),
            old(scraper).inv(),
            present_date matches Some(d) ==> d.wf(),
        ensures
            final(self).wf(),
            final(scraper).inv(),
            r matches Ok(_) ==> *final(self) == (Summary {
                primary_capital: final(self).primary_capital,
                ..*old(self)
            }) && (final(self).primary_capital matches Some(p) && capital_ok(
                orders@,
                currency,
                p,
            )),
            r matches Err(_) ==> *final(self) == *old(self),
            r matches Err(e) ==> e == Error::EmptyTable || e == Error::Arithmetic || e
                == Error::Fetch,
            // a ledger with no deposit or withdrawal has no capital to sum
            cap_flows_v(orders@).len() == 0 <==> r == Err::<(), Error>(Error::EmptyTable),
    {
        // deposits and withdrawals, the latter negative
        let n = orders.len();
        let mut flows: Vec<Order> = Vec::new();
        let mut i: usize = 0;
        while i < n
            invariant
                n == orders.len(),
                i <= n,
                *self == *old(self),
                old(self).wf(),
                orders_wf(orders@),
                orders_wf(flows@),
                crate::dividends::order_views(flows@) == cap_flows_v(orders@.take(i as int)),
            decreases n - i,
        {
            proof {
                orders@.lemma_take_succ_push(i as int);
                assert(orders@.take(i as int).push(orders@[i as int]).drop_last() =~= orders@.take(
                    i as int,
                ));
            }
            let o = &orders[i];
            if utils::deposit_and_withdraw(o.action) {
                let amount = utils::negative_amount_on_withdraw(o.action, o.amount);
                let ghost old_flows = flows@;
                flows.push(
                    Order {
                        date: o.date,
                        action: o.action,
                        ticker: o.ticker.clone(),
                        qty: o.qty,
                        price: o.price,
                        amount,
                        currency: o.currency,
                        country: o.country,
                    },
                );
                proof {
                    assert(crate::dividends::order_views(flows@)
                        =~= crate::dividends::order_views(old_flows).push(flows@.last()@)) by {
                        assert(flows@.drop_last() =~= old_flows);
                    }
                }
            }
            i = i + 1;
        }
        proof {
            assert(orders@.take(n as int) =~= orders@);
            lemma_order_views_len(flows@);
        }
        if flows.len() == 0 {
            return Err(Error::EmptyTable);
        }
        let mut columns: Vec<Column> = Vec::new();
        columns.push(Column::Amount);
        proof {
            assert(columns@.contains(Column::Amount)) by {
                assert(columns@[0] == Column::Amount);
            }
            assert(!columns@.contains(Column::Qty)) by {
                if columns@.contains(Column::Qty) {
                    let j = choose|j: int| 0 <= j < columns@.len() && columns@[j] == Column::Qty;
                    assert(false);
                }
            }
            assert(!columns@.contains(Column::Price)) by {
                if columns@.contains(Column::Price) {
                    let j = choose|j: int| 0 <= j < columns@.len() && columns@[j] == Column::Price;
                    assert(false);
                }
            }
        }
        let ghost flows_v = flows@;
        let normalized = match currency::normalize(flows, &columns, currency, scraper, present_date) {
            Ok(v) => v,
            Err(e) => {
                return Err(e);
            },
        };
        let m = normalized.len();
        let mut acc = Rat::zero();
        let mut i: usize = 0;
        while i < m
            invariant
                m == normalized.len(),
                i <= m,
                *self == *old(self),
                old(self).wf(),
                scraper.inv(),
                cap_flows_v(orders@).len() > 0,
                orders_wf(normalized@),
                acc.wf(),
                Some(acc@) == crate::uninvested::amount_sum(normalized@.take(i as int)),
            decreases m - i,
        {
            proof {
                normalized@.lemma_take_succ_push(i as int);
                assert(normalized@.take(i as int).push(normalized@[i as int]).drop_last()
                    =~= normalized@.take(i as int));
            }
            acc = match acc.add(normalized[i].amount) {
                Some(v) => v,
                None => {
                    return Err(Error::Arithmetic);
                },
            };
            i = i + 1;
        }
        proof {
            assert(normalized@.take(m as int) =~= normalized@);
            assert(capital_ok(orders@, currency, acc)) by {
                assert(crate::currency::normalized_rel(
                    flows_v,
                    false,
                    false,
                    true,
                    currency,
                    normalized@,
                ));
                assert(crate::dividends::order_views(flows_v) == cap_flows_v(orders@));
            }
        }
        self.primary_capital = Some(acc);
        Ok(())
    }

    /// Closes the summary: the net profit is the unrealized gain plus
    /// dividends plus realized profit, and every figure is rounded to two
    /// decimals.  Fails with `InvariantViolation` when a `with_*` component
    /// was never supplied.
    pub fn finish(&mut self) -> (r: Result<SummaryRow, Error>)
        requires
            old(self).wf(),
        ensures
            *final(self) == *old(self),
            match r {
                Ok(row) => finish_ok(*old(self), row),
                Err(e) => e == Error::Arithmetic || e == Error::InvariantViolation,
            },
            // it refuses a summary with a missing component, and otherwise
            // fails exactly when the derivation or a rounding overflows
            r == Err::<SummaryRow, Error>(Error::InvariantViolation) <==> (old(self).dividends
                is None || old(self).liquidated_profit is None || old(self).primary_capital
                is None),
            r == Err::<SummaryRow, Error>(Error::Arithmetic) <==> finish_overflow(*old(self)),
    {
        let dividends = match &self.dividends {
            Some(v) => *v,
            None => {
                return Err(Error::InvariantViolation);
            },
        };
        let liquidated = match &self.liquidated_profit {
            Some(v) => *v,
            None => {
                return Err(Error::InvariantViolation);
            },
        };
        let primary = match &self.primary_capital {
            Some(v) => *v,
            None => {
                return Err(Error::InvariantViolation);
            },
        };
        let x = match self.paper_profit.add(dividends) {
            Some(v) => v,
            None => {
                return Err(Error::Arithmetic);
            },
        };
        let net = match x.add(liquidated) {
            Some(v) => v,
            None => {
                return Err(Error::Arithmetic);
            },
        };
        let row = SummaryRow {
            primary_capital: match primary.round_dp(2) {
                Some(v) => v,
                None => {
                    return Err(Error::Arithmetic);
                },
            },
            portfolio_cost: match self.portfolio_cost.round_dp(2) {
                Some(v) => v,
                None => {
                    return Err(Error::Arithmetic);
                },
            },
            market_value: match self.market_value.round_dp(2) {
                Some(v) => v,
                None => {
                    return Err(Error::Arithmetic);
                },
            },
            paper_profit: match self.paper_profit.round_dp(2) {
                Some(v) => v,
                None => {
                    return Err(Error::Arithmetic);
                },
            },
            dividends: match dividends.round_dp(2) {
                Some(v) => v,
                None => {
                    return Err(Error::Arithmetic);
                },
            },
            liquidated_profit: match liquidated.round_dp(2) {
                Some(v) => v,
                None => {
                    return Err(Error::Arithmetic);
                },
            },
            net_profit: match net.round_dp(2) {
                Some(v) => v,
                None => {
                    return Err(Error::Arithmetic);
                },
            },
            uninvested_cash: match self.uninvested_cash.round_dp(2) {
                Some(v) => v,
                None => {
                    return Err(Error::Arithmetic);
                },
            },
        };
        Ok(row)
    }

    /// The transposed report: one line per figure, each with its share of
    /// the invested capital in percent (zero when no capital was invested).
    pub fn collect(&mut self) -> (r: Result<Vec<SummaryEntry>, Error>)
        requires
            old(self).wf(),
        ensures
            *final(self) == *old(self),
            match r {
                Ok(out) => collect_ok(*old(self), out@) && forall|k: int|
                    0 <= k < out@.len() ==> (#[trigger] out@[k]).amount.wf() && out@[k].rate.wf(),
                Err(e) => e == Error::Arithmetic || e == Error::InvariantViolation,
            },
            r == Err::<Vec<SummaryEntry>, Error>(Error::InvariantViolation) <==> (
            old(self).dividends is None || old(self).liquidated_profit is None || old(
                self,
            ).primary_capital is None),
    {
        let row = match self.finish() {
            Ok(v) => v,
            Err(e) => {
                return Err(e);
            },
        };
        let mut out: Vec<SummaryEntry> = Vec::new();
        let primary = row.primary_capital;
        let e1 = match summary_entry(Column::PrimaryCapital, row.primary_capital, primary) {
            Ok(v) => v,
            Err(e) => {
                return Err(e);
            },
        };
        out.push(e1);
        let e2 = match summary_entry(Column::PortfolioCost, row.portfolio_cost, primary) {
            Ok(v) => v,
            Err(e) => {
                return Err(e);
            },
        };
        out.push(e2);
        let e3 = match summary_entry(Column::MarketValue, row.market_value, primary) {
            Ok(v) => v,
            Err(e) => {
                return Err(e);
            },
        };
        out.push(e3);
        let e4 = match summary_entry(Column::PaperProfit, row.paper_profit, primary) {
            Ok(v) => v,
            Err(e) => {
                return Err(e);
            },
        };
        out.push(e4);
        let e5 = match summary_entry(Column::Dividends, row.dividends, primary) {
            Ok(v) => v,
            Err(e) => {
                return Err(e);
            },
        };
        out.push(e5);
        let e6 = match summary_entry(Column::LiquidatedProfit, row.liquidated_profit, primary) {
            Ok(v) => v,
            Err(e) => {
                return Err(e);
            },
        };
        out.push(e6);
        let e7 = match summary_entry(Column::NetProfit, row.net_profit, primary) {
            Ok(v) => v,
            Err(e) => {
                return Err(e);
            },
        };
        out.push(e7);
        let e8 = match summary_entry(Column::UninvestedCash, row.uninvested_cash, primary) {
            Ok(v) => v,
            Err(e) => {
                return Err(e);
            },
        };
        out.push(e8);
        proof {
            assert(entries_ok(row, out@));
            assert(collect_ok(*old(self), out@));
        }
        Ok(out)
    }
}

proof fn lemma_order_views_len(s: Seq<Order>)
    ensures
        crate::dividends::order_views(s).len() == s.len(),
    decreases s.len(),
{
    if s.len() > 0 {
        lemma_order_views_len(s.drop_last());
    }
}

/// One report line: the amount and its share of the invested capital,
/// rounded to two decimals.
fn summary_entry(description: Column, amount: Rat, primary: Rat) -> (r: Result<
    SummaryEntry,
    Error,
>)
    requires
        amount.wf(),
        primary.wf(),
    ensures
        match r {
            Ok(e) => {
                &&& e.description == description
                &&& e.amount == amount
                &&& e.amount.wf()
                &&& e.rate.wf()
                &&& Some(e.rate@) == report_rate(amount@, primary@)
            },
            Err(e) => e == Error::Arithmetic && report_rate(amount@, primary@) is None,
        },
{
    let rate = if primary.is_zero() {
        Rat::zero()
    } else {
        let x = match amount.mul(Rat::from_int(100)) {
            Some(v) => v,
            None => {
                return Err(Error::Arithmetic);
            },
        };
        let q = match x.div(primary) {
            Some(v) => v,
            None => {
                return Err(Error::Arithmetic);
            },
        };
        match q.round_dp(2) {
            Some(v) => v,
            None => {
                return Err(Error::Arithmetic);
            },
        }
    };
    Ok(SummaryEntry { description, amount, rate })
}

} // verus!
