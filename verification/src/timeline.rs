//! Day-by-day timeline: the whole-portfolio summary recomputed at every
//! step of a date schedule, from the ledger as it stood on each date.

use crate::date::Date;
use crate::dividends::Dividends;
use crate::ledger::{orders_wf, Order};
use crate::liquidated;
use crate::portfolio::Portfolio;
use crate::scraper::{today, IScraper, ScraperData};
use crate::schema::{Action, Currency};
use crate::summary::{summary_row_wf, Summary, SummaryRow};
use crate::uninvested;
use crate::Error;
use vstd::prelude::*;

verus! {

/// A step's summary is genuinely derived: it is the two-decimal closing of
/// a summary whose holdings figures are the component sums of some
/// portfolio rows, whose dividend and realized figures are sums of some
/// per-ticker income and realized-profit tables, and whose invested
/// capital is the converted flow sum of the step's own filtered ledger.
pub open spec fn step_summary_ok(orders: Seq<Order>, currency: Currency, s: SummaryRow) -> bool {
    exists|
        prt: Seq<crate::portfolio::PortfolioRow>,
        tds: Seq<crate::dividends::TickerDividends>,
        prf: Seq<crate::liquidated::ProfitRow>,
        sm: Summary,
    |
        #![trigger crate::summary::finish_ok(sm, s), crate::summary::cost_sum(prt), crate::summary::dividends_sum(tds), crate::summary::realized_sum(prf)]
        {
            &&& crate::summary::finish_ok(sm, s)
            &&& Some(sm.portfolio_cost@) == crate::summary::cost_sum(prt)
            &&& Some(sm.market_value@) == crate::summary::value_sum(prt)
            &&& Some(sm.paper_profit@) == crate::summary::pp_sum(prt)
            &&& Some(sm.uninvested_cash@) == crate::summary::cash_sum(prt)
            &&& (sm.dividends matches Some(d) && Some(d@) == crate::summary::dividends_sum(tds))
            &&& (sm.liquidated_profit matches Some(l) && Some(l@) == crate::summary::realized_sum(
                prf,
            ))
            &&& (sm.primary_capital matches Some(pc) && crate::summary::capital_ok(
                orders,
                currency,
                pc,
            ))
        }
}

/// One timeline step: the summary as of a date.
#[derive(Debug)]
pub struct TimelineEntry {
    pub date: Date,
    pub summary: SummaryRow,
}

/// The timeline builder: a ledger and the reporting currency.
#[derive(Debug)]
pub struct Timeline {
    pub orders: Vec<Order>,
    pub currency: Currency,
}

impl Timeline {
    pub fn from_orders(orders: Vec<Order>, currency: Currency) -> (r: Timeline)
        ensures
            r.orders@ == orders@,
            r.currency == currency,
    {
        Timeline { orders, currency }
    }

    /// Walks from the earliest order date to `date` (today when absent) in
    /// steps of `interval_days`, recomputing dividends, cash, portfolio,
    /// realized profit and the summary from the ledger filtered to each
    /// step; split rows always pass the filter, since they rescale history.
    /// The schedule starts exactly at the earliest order date, advances by
    /// `interval_days` capped at the end, and always closes exactly on the
    /// end.
    pub fn summary<S: IScraper>(
        self,
        scraper: &mut S,
        scraped_data: &ScraperData,
        interval_days: u32,
        date: Option<Date>,
    ) -> (r: Result<Vec<TimelineEntry>, Error>)
        requires
            orders_wf(self.orders@),
            self.orders@.len() > 0,
            1 <= interval_days <= 0x7000_0000,
            old(scraper).inv(),
            scraped_data.wf(),
            date matches Some(d) ==> d.wf(),
        ensures
            final(scraper).inv(),
            match r {
                Ok(entries) => {
                    &&& entries@.len() > 0
                    &&& forall|k: int|
                        0 <= k < entries@.len() ==> (#[trigger] entries@[k]).date.wf()
                            && summary_row_wf(entries@[k].summary)
                    &&& forall|k: int|
                        0 <= k < entries@.len() - 1 ==> (#[trigger] entries@[k]).date@.dn() < entries@[
                            k + 1
                        ].date@.dn()
                    &&& (date matches Some(d) ==> entries@.last().date@.dn() == d@.dn())
                    // the walk starts at the earliest order date
                    &&& forall|j: int|
                        0 <= j < self.orders@.len() ==> entries@[0].date@.dn() <= (
                        #[trigger] self.orders@[j])@.date.dn()
                    &&& exists|j: int|
                        0 <= j < self.orders@.len() && (#[trigger] self.orders@[j])@.date.dn()
                            == entries@[0].date@.dn()
                    // each step advances by the interval, capped at the end
                    &&& forall|k: int|
                        0 <= k < entries@.len() - 1 ==> (#[trigger] entries@[k + 1]).date@.dn() == (
                        if entries@[k].date@.dn() + interval_days <= entries@.last().date@.dn() {
                            entries@[k].date@.dn() + interval_days
                        } else {
                            entries@.last().date@.dn()
                        })
                },
                Err(_) => true,
            },
    {
        let end: Date = match date {
            Some(d) => d,
            None => today(),
        };

        // the earliest order date
        let n = self.orders.len();
        let mut current: Date = self.orders[0].date;
        let mut cur_dn: i64 = current.day_number();
        let mut i: usize = 1;
        while i < n
            invariant
                n == self.orders.len(),
                1 <= i <= n,
                orders_wf(self.orders@),
                current.wf(),
                cur_dn as int == current@.dn(),
                forall|j: int|
                    0 <= j < i ==> cur_dn as int <= (#[trigger] self.orders@[j])@.date.dn(),
                exists|j: int|
                    0 <= j < i && (#[trigger] self.orders@[j])@.date.dn() == cur_dn as int,
            decreases n - i,
        {
            let dn = self.orders[i].date.day_number();
            if dn < cur_dn {
                current = self.orders[i].date;
                cur_dn = dn;
            }
            i = i + 1;
        }
        let ghost start0_dn = cur_dn as int;
        let end_dn = end.day_number();
        if end_dn < cur_dn {
            // nothing to walk: the ledger starts after the requested end
            return Err(Error::EmptyTable);
        }

        let mut entries: Vec<TimelineEntry> = Vec::new();
        loop
            invariant_except_break
                entries@.len() > 0 ==> entries@.last().date@.dn() < cur_dn,
                entries@.len() > 0 ==> cur_dn as int == (
                if entries@.last().date@.dn() + interval_days <= end_dn as int {
                    entries@.last().date@.dn() + interval_days
                } else {
                    end_dn as int
                }),
            invariant
                entries@.len() > 0 ==> entries@[0].date@.dn() == start0_dn,
                entries@.len() == 0 ==> cur_dn as int == start0_dn,
                forall|k: int|
                    0 <= k < entries@.len() - 1 ==> (#[trigger] entries@[k + 1]).date@.dn() == (
                    if entries@[k].date@.dn() + interval_days <= end_dn as int {
                        entries@[k].date@.dn() + interval_days
                    } else {
                        end_dn as int
                    }),
                orders_wf(self.orders@),
                scraper.inv(),
                scraped_data.wf(),
                current.wf(),
                end.wf(),
                cur_dn as int == current@.dn(),
                end_dn as int == end@.dn(),
                cur_dn <= end_dn,
                1 <= interval_days <= 0x7000_0000,
                forall|k: int|
                    0 <= k < entries@.len() ==> (#[trigger] entries@[k]).date.wf()
                        && summary_row_wf(entries@[k].summary),
                forall|k: int|
                    0 <= k < entries@.len() - 1 ==> (#[trigger] entries@[k]).date@.dn() < entries@[
                        k + 1
                    ].date@.dn(),
            ensures
                scraper.inv(),
                entries@.len() > 0,
                entries@[0].date@.dn() == start0_dn,
                forall|k: int|
                    0 <= k < entries@.len() - 1 ==> (#[trigger] entries@[k + 1]).date@.dn() == (
                    if entries@[k].date@.dn() + interval_days <= end_dn as int {
                        entries@[k].date@.dn() + interval_days
                    } else {
                        end_dn as int
                    }),
                forall|k: int|
                    0 <= k < entries@.len() ==> (#[trigger] entries@[k]).date.wf()
                        && summary_row_wf(entries@[k].summary),
                forall|k: int|
                    0 <= k < entries@.len() - 1 ==> (#[trigger] entries@[k]).date@.dn() < entries@[
                        k + 1
                    ].date@.dn(),
                entries@.last().date@.dn() == end@.dn(),
            decreases end_dn - cur_dn + 1,
        {
            // the ledger as of the current date, splits always included
            let no = self.orders.len();
            let mut filtered: Vec<Order> = Vec::new();
            let mut j: usize = 0;
            while j < no
                invariant
                    no == self.orders.len(),
                    j <= no,
                    orders_wf(self.orders@),
                    orders_wf(filtered@),
                    current.wf(),
                    cur_dn as int == current@.dn(),
                decreases no - j,
            {
                let o = &self.orders[j];
                if matches!(o.action, Action::Split) || o.date.day_number() <= cur_dn {
                    filtered.push(o.clone());
                }
                j = j + 1;
            }

            let step = match Timeline::summary_at(
                filtered,
                self.currency,
                scraper,
                scraped_data,
                current,
                end,
            ) {
                Ok(s) => s,
                Err(e) => {
                    return Err(e);
                },
            };
            let ghost old_entries = entries@;
            entries.push(TimelineEntry { date: current, summary: step });
            proof {
                assert forall|k: int| 0 <= k < entries@.len() - 1 implies (
                #[trigger] entries@[k]).date@.dn() < entries@[k + 1].date@.dn() by {
                    if k + 1 < entries@.len() - 1 {
                        assert(entries@[k] == old_entries[k]);
                        assert(entries@[k + 1] == old_entries[k + 1]);
                    } else {
                        if k > 0 {
                            assert(entries@[k] == old_entries[k]);
                        }
                    }
                }
                assert forall|k: int| 0 <= k < entries@.len() - 1 implies (
                #[trigger] entries@[k + 1]).date@.dn() == (
                if entries@[k].date@.dn() + interval_days <= end_dn as int {
                    entries@[k].date@.dn() + interval_days
                } else {
                    end_dn as int
                }) by {
                    if k + 1 < entries@.len() - 1 {
                        assert(entries@[k] == old_entries[k]);
                        assert(entries@[k + 1] == old_entries[k + 1]);
                    } else {
                        if k > 0 {
                            assert(entries@[k] == old_entries[k]);
                        }
                    }
                }
            }
            if cur_dn == end_dn {
                break ;
            }
            let next = match current.add_days(interval_days as i64) {
                Some(d) => d,
                None => {
                    return Err(Error::Arithmetic);
                },
            };
            let next_dn = next.day_number();
            if next_dn > end_dn {
                current = end;
                cur_dn = end_dn;
            } else {
                current = next;
                cur_dn = next_dn;
            }
        }
        Ok(entries)
    }

    /// The income of the filtered ledger per ticker, in the reporting
    /// currency; an empty income ledger has nothing to convert and
    /// contributes an empty table rather than an error.
    fn income_by_ticker<S: IScraper>(
        orders: Vec<Order>,
        currency: Currency,
        scraper: &mut S,
        end: Date,
    ) -> (r: Result<Vec<crate::dividends::TickerDividends>, Error>)
        requires
            orders_wf(orders@),
            old(scraper).inv(),
            end.wf(),
        ensures
            final(scraper).inv(),
            r matches Ok(t) ==> forall|k: int|
                0 <= k < t@.len() ==> (#[trigger] t@[k]).dividends.wf(),
    {
        let income = Dividends::from_orders(orders);
        if income.data.len() == 0 {
            return Ok(Vec::new());
        }
        match income.normalize_currency(scraper, currency, Some(end)) {
            Ok(d) => match d.by_ticker() {
                Ok(t) => Ok(t),
                Err(e) => Err(e),
            },
            Err(e) => Err(e),
        }
    }

    /// One step: dividends, cash, portfolio, realized profit and the
    /// summary of the ledger as of one date, in the reporting currency.
    #[verifier::rlimit(60)]
    fn summary_at<S: IScraper>(
        orders: Vec<Order>,
        currency: Currency,
        scraper: &mut S,
        scraped_data: &ScraperData,
        current: Date,
        end: Date,
    ) -> (r: Result<SummaryRow, Error>)
        requires
            orders_wf(orders@),
            old(scraper).inv(),
            scraped_data.wf(),
            current.wf(),
            end.wf(),
        ensures
            final(scraper).inv(),
            r matches Ok(s) ==> summary_row_wf(s) && step_summary_ok(orders@, currency, s),
    {
        let mut orders_dividends: Vec<Order> = Vec::new();
        let mut orders_cash: Vec<Order> = Vec::new();
        let mut orders_portfolio: Vec<Order> = Vec::new();
        let mut orders_profit: Vec<Order> = Vec::new();
        let mut orders_capital: Vec<Order> = Vec::new();
        let n = orders.len();
        let mut i: usize = 0;
        while i < n
            invariant
                n == orders.len(),
                i <= n,
                orders_wf(orders@),
                orders_wf(orders_dividends@),
                orders_wf(orders_cash@),
                orders_wf(orders_portfolio@),
                orders_wf(orders_profit@),
                orders_wf(orders_capital@),
                orders_capital@.len() == i,
                forall|k: int| 0 <= k < i ==> #[trigger] orders_capital@[k] == orders@[k],
            decreases n - i,
        {
            orders_dividends.push(orders[i].clone());
            orders_cash.push(orders[i].clone());
            orders_portfolio.push(orders[i].clone());
            orders_profit.push(orders[i].clone());
            orders_capital.push(orders[i].clone());
            i = i + 1;
        }

        let tds = match Timeline::income_by_ticker(orders_dividends, currency, scraper, end) {
            Ok(t) => t,
            Err(e) => {
                return Err(e);
            },
        };
        let mut tds_portfolio: Vec<crate::dividends::TickerDividends> = Vec::new();
        let nt = tds.len();
        let mut i: usize = 0;
        while i < nt
            invariant
                nt == tds.len(),
                i <= nt,
                scraper.inv(),
                forall|k: int| 0 <= k < nt ==> (#[trigger] tds@[k]).dividends.wf(),
                forall|k: int|
                    0 <= k < tds_portfolio@.len() ==> (#[trigger] tds_portfolio@[k]).dividends.wf(),
            decreases nt - i,
        {
            tds_portfolio.push(tds[i].clone());
            i = i + 1;
        }

        let cash = match uninvested::Cash::from_orders(orders_cash).collect() {
            Ok(c) => c,
            Err(e) => {
                return Err(e);
            },
        };
        proof {
            assert(forall|k: int| 0 <= k < cash@.len() ==> (#[trigger] cash@[k]).amount.wf());
        }

        let portfolio = match Portfolio::from_orders(orders_portfolio, Some(current)) {
            Ok(p) => p,
            Err(e) => {
                return Err(e);
            },
        };
        let portfolio = match portfolio.with_quotes(&scraped_data.quotes) {
            Ok(p) => p,
            Err(e) => {
                return Err(e);
            },
        };
        let portfolio = match portfolio.with_average_price() {
            Ok(p) => p,
            Err(e) => {
                return Err(e);
            },
        };
        let portfolio = portfolio.with_uninvested_cash(cash);
        let portfolio = match portfolio.normalize_currency(scraper, currency) {
            Ok(p) => p,
            Err(e) => {
                return Err(e);
            },
        };
        let portfolio = match portfolio.paper_profit() {
            Ok(p) => p,
            Err(e) => {
                return Err(e);
            },
        };
        let portfolio = portfolio.with_dividends(tds_portfolio);
        let portfolio = match portfolio.with_profit() {
            Ok(p) => p,
            Err(e) => {
                return Err(e);
            },
        };
        let portfolio = match portfolio.with_allocation() {
            Ok(p) => p,
            Err(e) => {
                return Err(e);
            },
        };
        let rows = portfolio.collect();

        let profit = match liquidated::Profit::from_orders(orders_profit) {
            Ok(p) => p,
            Err(e) => {
                return Err(e);
            },
        };
        let profit = match profit.normalize_currency(scraper, currency, Some(end)) {
            Ok(p) => p,
            Err(e) => {
                return Err(e);
            },
        };

        let ghost prt = rows@;
        let mut summary = match Summary::from_portfolio(rows) {
            Ok(s) => s,
            Err(e) => {
                return Err(e);
            },
        };
        let ghost tds_v = tds@;
        match summary.with_dividends(tds) {
            Ok(_) => {},
            Err(e) => {
                return Err(e);
            },
        }
        let ghost cap_orders = orders_capital@;
        match summary.with_capital_invested(orders_capital, currency, scraper, Some(current)) {
            Ok(_) => {},
            Err(e) => {
                return Err(e);
            },
        }
        let realized = profit.collect();
        let ghost prf = realized@;
        match summary.with_liquidated_profit(realized) {
            Ok(_) => {},
            Err(e) => {
                return Err(e);
            },
        }
        let ghost sm = summary;
        match summary.finish() {
            Ok(row) => {
                proof {
                    assert(crate::summary::finish_ok(sm, row));
                    assert(crate::summary::capital_ok(cap_orders, currency, sm.primary_capital.unwrap()));
                    assert(cap_orders =~= orders@);
                    assert(step_summary_ok(orders@, currency, row));
                }
                Ok(row)
            },
            Err(e) => Err(e),
        }
    }
}

} // verus!
