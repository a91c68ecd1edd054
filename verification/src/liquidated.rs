//! Realized profit: every sell matched against the running average cost at
//! the moment of the sale.
//!
//! The ledger is first put in date order (ties keep row order), the
//! average-cost trace is computed, and the sell rows are grouped by date,
//! ticker, currency, average cost and price, with quantities and amounts
//! summed; the profit of a group is `(price - average_cost) * quantity`.

use crate::date::Date;
use crate::ledger::{orders_wf, sort_by_date, sort_by_date_v, Order};
use crate::perpetual_inventory::{bss_of, trace_matches, AverageCost, CostRow};
use crate::rational::{add_v, mul_v, rv_eq, rv_zero, Rat, Rv};
use crate::schema::{Action, Currency};
use crate::scraper::QuoteRow;
use crate::utils::{pivot_year_months, sell_profit, sell_profit_v, DatedValue, PivotTable};
use crate::Error;
use vstd::prelude::*;

verus! {

/// One realized sale, aggregated over identical sell rows.
#[derive(Debug)]
pub struct ProfitRow {
    pub date: Date,
    pub ticker: String,
    pub qty: Rat,
    pub price: Rat,
    pub amount: Rat,
    pub currency: Currency,
    pub profit: Rat,
}

impl Clone for ProfitRow {
    fn clone(&self) -> (r: ProfitRow)
        ensures
            r == *self,
    {
        ProfitRow {
            date: self.date,
            ticker: self.ticker.clone(),
            qty: self.qty,
            price: self.price,
            amount: self.amount,
            currency: self.currency,
            profit: self.profit,
        }
    }
}

pub open spec fn profit_rows_wf(s: Seq<ProfitRow>) -> bool {
    forall|i: int|
        0 <= i < s.len() ==> {
            let e = #[trigger] s[i];
            &&& e.date.wf()
            &&& e.qty.wf()
            &&& e.price.wf()
            &&& e.amount.wf()
            &&& e.profit.wf()
        }
}

pub open spec fn trace_rows_wf(s: Seq<CostRow>) -> bool {
    forall|i: int|
        0 <= i < s.len() ==> (#[trigger] s[i]).order.wf() && s[i].average_price.wf()
            && s[i].accrued_qty.wf()
}

/// The sell rows of a cost trace.
pub open spec fn sells_of(t: Seq<CostRow>) -> Seq<CostRow>
    decreases t.len(),
{
    if t.len() == 0 {
        Seq::empty()
    } else {
        let rest = sells_of(t.drop_last());
        if t.last().order@.action == Action::Sell {
            rest.push(t.last())
        } else {
            rest
        }
    }
}

/// Two sell rows fall in the same group: same day, ticker and currency,
/// and the same price and average cost by value.
pub open spec fn same_group(a: CostRow, b: CostRow) -> bool {
    &&& a.order@.date.dn() == b.order@.date.dn()
    &&& a.order@.ticker == b.order@.ticker
    &&& a.order@.currency == b.order@.currency
    &&& rv_eq(a.order@.price, b.order@.price)
    &&& rv_eq(a.average_price@, b.average_price@)
}

/// The rows of `t` in the group of `key`.
pub open spec fn group_rows(t: Seq<CostRow>, key: CostRow) -> Seq<CostRow>
    decreases t.len(),
{
    if t.len() == 0 {
        Seq::empty()
    } else {
        let rest = group_rows(t.drop_last(), key);
        if same_group(t.last(), key) {
            rest.push(t.last())
        } else {
            rest
        }
    }
}

/// Sum of the quantities of trace rows, `None` on overflow.
pub open spec fn trace_qty_sum(g: Seq<CostRow>) -> Option<Rv>
    decreases g.len(),
{
    if g.len() == 0 {
        Some(rv_zero())
    } else {
        match trace_qty_sum(g.drop_last()) {
            None => None,
            Some(acc) => add_v(acc, g.last().order@.qty),
        }
    }
}

/// Sum of the amounts of trace rows, `None` on overflow.
pub open spec fn trace_amount_sum(g: Seq<CostRow>) -> Option<Rv>
    decreases g.len(),
{
    if g.len() == 0 {
        Some(rv_zero())
    } else {
        match trace_amount_sum(g.drop_last()) {
            None => None,
            Some(acc) => add_v(acc, g.last().order@.amount),
        }
    }
}

/// Some row of `s` shares the group of `key`.
pub open spec fn has_group(s: Seq<CostRow>, key: CostRow) -> bool {
    exists|j: int| 0 <= j < s.len() && same_group(#[trigger] s[j], key)
}

/// One representative per group, in order of first appearance.
pub open spec fn group_reps(s: Seq<CostRow>) -> Seq<CostRow>
    decreases s.len(),
{
    if s.len() == 0 {
        Seq::empty()
    } else {
        let rest = group_reps(s.drop_last());
        if has_group(rest, s.last()) {
            rest
        } else {
            rest.push(s.last())
        }
    }
}

/// The aggregated output matches the grouped sells: one row per group, in
/// first-appearance order, quantities and amounts summed, and the profit
/// computed from the group's price, average cost and summed quantity.
pub open spec fn profit_rows_match(sells: Seq<CostRow>, out: Seq<ProfitRow>) -> bool {
    let reps = group_reps(sells);
    &&& out.len() == reps.len()
    &&& forall|k: int|
        0 <= k < reps.len() ==> {
            let e = #[trigger] out[k];
            let rep = reps[k];
            let g = group_rows(sells, rep);
            &&& e.date == rep.order.date
            &&& e.ticker@ == rep.order@.ticker
            &&& e.currency == rep.order@.currency
            &&& e.price@ == rep.order@.price
            &&& Some(e.qty@) == trace_qty_sum(g)
            &&& Some(e.amount@) == trace_amount_sum(g)
            &&& (match trace_qty_sum(g) {
                Some(q) => Some(e.profit@) == sell_profit_v(
                    rep.order@.price,
                    rep.average_price@,
                    q,
                ),
                None => false,
            })
        }
}

/// The aggregated rows came from the cost trace of the date-sorted ledger.
pub open spec fn derived_from(orders: Seq<Order>, data: Seq<ProfitRow>) -> bool {
    exists|trace: Seq<CostRow>|
        trace_matches(bss_of(sort_by_date_v(orders)), trace) && #[trigger] profit_rows_match(
            sells_of(trace),
            data,
        )
}

/// Group membership is transitive across a well-formed middle row.
proof fn lemma_same_group_trans(a: CostRow, b: CostRow, c: CostRow)
    requires
        b.order.wf(),
        b.average_price.wf(),
        same_group(a, b),
        same_group(b, c),
    ensures
        same_group(a, c),
{
    crate::rational::lemma_rv_eq_trans(a.order@.price, b.order@.price, c.order@.price);
    crate::rational::lemma_rv_eq_trans(a.average_price@, b.average_price@, c.average_price@);
}

proof fn lemma_group_rows_step(s: Seq<CostRow>, key: CostRow, i: int)
    requires
        0 <= i < s.len(),
    ensures
        group_rows(s.take(i + 1), key) == if same_group(s[i], key) {
            group_rows(s.take(i), key).push(s[i])
        } else {
            group_rows(s.take(i), key)
        },
{
    s.lemma_take_succ_push(i);
    assert(s.take(i).push(s[i]).drop_last() =~= s.take(i));
    assert(s.take(i).push(s[i]).last() == s[i]);
}

proof fn lemma_group_reps_step(s: Seq<CostRow>, i: int)
    requires
        0 <= i < s.len(),
    ensures
        group_reps(s.take(i + 1)) == if has_group(group_reps(s.take(i)), s[i]) {
            group_reps(s.take(i))
        } else {
            group_reps(s.take(i)).push(s[i])
        },
{
    s.lemma_take_succ_push(i);
    assert(s.take(i).push(s[i]).drop_last() =~= s.take(i));
    assert(s.take(i).push(s[i]).last() == s[i]);
}

proof fn lemma_group_rows_absent(s: Seq<CostRow>, key: CostRow)
    requires
        forall|k: int| 0 <= k < s.len() ==> !same_group(#[trigger] s[k], key),
    ensures
        group_rows(s, key).len() == 0,
    decreases s.len(),
{
    if s.len() > 0 {
        assert forall|k: int| 0 <= k < s.drop_last().len() implies !same_group(
            #[trigger] s.drop_last()[k],
            key,
        ) by {
            assert(s.drop_last()[k] == s[k]);
        }
        lemma_group_rows_absent(s.drop_last(), key);
    }
}


/// The running sums agree with the grouped prefix of the sells.
pub open spec fn sums_ok(
    sv: Seq<CostRow>,
    i: int,
    reps: Seq<CostRow>,
    sq: Seq<Rat>,
    sa: Seq<Rat>,
) -> bool {
    forall|k: int|
        0 <= k < reps.len() ==> {
            &&& (#[trigger] sq[k]).wf()
            &&& sa[k].wf()
            &&& Some(sq[k]@) == trace_qty_sum(group_rows(sv.take(i), reps[k]))
            &&& Some(sa[k]@) == trace_amount_sum(group_rows(sv.take(i), reps[k]))
        }
}

/// Every realized row scaled into the target by its own currency's rate:
/// amount and price multiplied, the currency overwritten, the profit and
/// the rest kept.
pub open spec fn profit_rows_scaled(
    t: Seq<ProfitRow>,
    quotes: Seq<QuoteRow>,
    target: crate::schema::Currency,
    out: Seq<ProfitRow>,
) -> bool {
    &&& out.len() == t.len()
    &&& forall|k: int|
        0 <= k < t.len() ==> {
            let rate = crate::currency::row_rate(quotes, t[k].currency, target);
            let new = #[trigger] out[k];
            &&& new == (ProfitRow { amount: new.amount, price: new.price, currency: target, ..t[k] })
            &&& Some(new.amount@) == mul_v(t[k].amount@, rate)
            &&& Some(new.price@) == mul_v(t[k].price@, rate)
        }
}

/// The rows were converted by some fetched quote series.
pub open spec fn converted_profits(
    t: Seq<ProfitRow>,
    target: crate::schema::Currency,
    out: Seq<ProfitRow>,
) -> bool {
    exists|qs: Seq<QuoteRow>| #[trigger] profit_rows_scaled(t, qs, target, out)
}

/// Some row's scaling by some quote series overflows.
pub open spec fn profit_scaling_overflow(t: Seq<ProfitRow>, target: crate::schema::Currency) -> bool {
    exists|qs: Seq<QuoteRow>, k: int|
        0 <= k < t.len() && {
            let rate = #[trigger] crate::currency::row_rate(qs, t[k].currency, target);
            mul_v(t[k].amount@, rate) is None || mul_v(t[k].price@, rate) is None
        }
}

/// The `(date, profit)` points of the realized rows.
pub open spec fn profit_points(s: Seq<ProfitRow>) -> Seq<DatedValue>
    decreases s.len(),
{
    if s.len() == 0 {
        Seq::empty()
    } else {
        profit_points(s.drop_last()).push(
            DatedValue { date: s.last().date, value: s.last().profit },
        )
    }
}

/// Realized-profit rows derived from a ledger.
#[derive(Debug)]
pub struct Profit {
    pub data: Vec<ProfitRow>,
}

impl Profit {
    /// Sorts the ledger by date, runs the average-cost engine, and
    /// aggregates the sell rows into realized-profit rows.  Fails only on
    /// rational overflow.
    pub fn from_orders(orders: Vec<Order>) -> (r: Result<Profit, Error>)
        requires
            orders_wf(orders@),
        ensures
            match r {
                Ok(p) => {
                    &&& profit_rows_wf(p.data@)
                    &&& derived_from(orders@, p.data@)
                },
                Err(e) => e == Error::Arithmetic,
            },
    {
        let sorted = sort_by_date(orders);
        let engine = match AverageCost::from_orders(sorted).with_cumulative() {
            Ok(e) => e,
            Err(e) => {
                return Err(e);
            },
        };
        let ghost rows0 = engine.data@;
        let ghost full_trace = engine.trace@;
        let trace = engine.collect();
        proof {
            assert(trace_rows_wf(trace@)) by {
                assert forall|i: int| 0 <= i < trace@.len() implies (
                #[trigger] trace@[i]).order.wf() && trace@[i].average_price.wf()
                    && trace@[i].accrued_qty.wf() by {
                    assert(crate::perpetual_inventory::trace_entry_ok(rows0, trace@, i));
                }
            }
        }

        // keep the sells
        let n = trace.len();
        let mut sells: Vec<CostRow> = Vec::new();
        let mut i: usize = 0;
        while i < n
            invariant
                n == trace.len(),
                i <= n,
                trace_rows_wf(trace@),
                trace_rows_wf(sells@),
                sells@ == sells_of(trace@.take(i as int)),
            decreases n - i,
        {
            proof {
                trace@.lemma_take_succ_push(i as int);
                assert(trace@.take(i as int).push(trace@[i as int]).drop_last() =~= trace@.take(
                    i as int,
                ));
            }
            if matches!(trace[i].order.action, Action::Sell) {
                sells.push(trace[i].clone());
            }
            i = i + 1;
        }
        proof {
            assert(trace@.take(n as int) =~= trace@);
        }

        // aggregate per group: representatives plus running sums
        let ns = sells.len();
        let ghost sv = sells@;
        let mut reps: Vec<CostRow> = Vec::new();
        let mut sum_q: Vec<Rat> = Vec::new();
        let mut sum_a: Vec<Rat> = Vec::new();
        let mut i: usize = 0;
        while i < ns
            invariant
                ns == sells.len(),
                sv == sells@,
                i <= ns,
                trace_rows_wf(sv),
                trace_rows_wf(reps@),
                reps@ == group_reps(sv.take(i as int)),
                sum_q@.len() == reps@.len(),
                sum_a@.len() == reps@.len(),
                forall|k1: int, k2: int|
                    0 <= k1 < k2 < reps@.len() ==> !same_group(
                        #[trigger] reps@[k1],
                        #[trigger] reps@[k2],
                    ),
                forall|k: int| 0 <= k < i ==> has_group(reps@, #[trigger] sv[k]),
                sums_ok(sv, i as int, reps@, sum_q@, sum_a@),
            decreases ns - i,
        {
            proof {
                lemma_group_reps_step(sv, i as int);
            }
            let row = &sells[i];
            let dn = row.order.date.day_number();
            let no = reps.len();
            let mut idx: usize = no;
            let mut j: usize = 0;
            while j < no
                invariant
                    no == reps.len(),
                    j <= no,
                    sv == sells@,
                    i < ns == sells.len(),
                    trace_rows_wf(sv),
                    trace_rows_wf(reps@),
                    dn as int == sv[i as int].order@.date.dn(),
                    row == &sells@[i as int],
                    idx == no || (idx < no && same_group(reps@[idx as int], sv[i as int])),
                    idx == no ==> forall|jj: int|
                        0 <= jj < j ==> !same_group(#[trigger] reps@[jj], sv[i as int]),
                decreases no - j,
            {
                if idx == no && reps[j].order.date.day_number() == dn && reps[j].order.ticker
                    == row.order.ticker && reps[j].order.currency == row.order.currency
                    && reps[j].order.price == row.order.price && reps[j].average_price
                    == row.average_price {
                    idx = j;
                }
                j = j + 1;
            }
            let ghost reps0 = reps@;
            let ghost sq0 = sum_q@;
            let ghost sa0 = sum_a@;
            let target: usize;
            let acc_q: Rat;
            let acc_a: Rat;
            if idx < no {
                target = idx;
                acc_q = sum_q[idx];
                acc_a = sum_a[idx];
            } else {
                proof {
                    // no earlier sell shares this new group
                    assert forall|k: int| 0 <= k < sv.take(i as int).len() implies !same_group(
                        #[trigger] sv.take(i as int)[k],
                        sv[i as int],
                    ) by {
                        assert(sv.take(i as int)[k] == sv[k]);
                        if same_group(sv[k], sv[i as int]) {
                            assert(has_group(reps0, sv[k]));
                            let j0 = choose|j0: int|
                                0 <= j0 < reps0.len() && same_group(#[trigger] reps0[j0], sv[k]);
                            lemma_same_group_trans(reps0[j0], sv[k], sv[i as int]);
                        }
                    }
                    lemma_group_rows_absent(sv.take(i as int), sv[i as int]);
                }
                target = reps.len();
                reps.push(row.clone());
                sum_q.push(Rat::zero());
                sum_a.push(Rat::zero());
                acc_q = Rat::zero();
                acc_a = Rat::zero();
            }
            proof {
                assert(Some(acc_q@) == trace_qty_sum(
                    group_rows(sv.take(i as int), reps@[target as int]),
                ));
                assert(Some(acc_a@) == trace_amount_sum(
                    group_rows(sv.take(i as int), reps@[target as int]),
                ));
                lemma_group_rows_step(sv, reps@[target as int], i as int);
                let g = group_rows(sv.take(i as int), reps@[target as int]);
                assert(g.push(sv[i as int]).drop_last() =~= g);
            }
            let new_q = match acc_q.add(row.order.qty) {
                Some(v) => v,
                None => {
                    return Err(Error::Arithmetic);
                },
            };
            let new_a = match acc_a.add(row.order.amount) {
                Some(v) => v,
                None => {
                    return Err(Error::Arithmetic);
                },
            };
            sum_q[target] = new_q;
            sum_a[target] = new_a;
            proof {
                let iv = i as int;
                let tv = target as int;
                assert(same_group(reps@[tv], sv[iv]));
                assert forall|k: int| 0 <= k < reps@.len() implies {
                    &&& (#[trigger] sum_q@[k]).wf()
                    &&& sum_a@[k].wf()
                    &&& Some(sum_q@[k]@) == trace_qty_sum(group_rows(sv.take(iv + 1), reps@[k]))
                    &&& Some(sum_a@[k]@) == trace_amount_sum(group_rows(sv.take(iv + 1), reps@[k]))
                } by {
                    lemma_group_rows_step(sv, reps@[k], iv);
                    if k != tv {
                        assert(reps@[k] == reps0[k]);
                        assert(sum_q@[k] == sq0[k] && sum_a@[k] == sa0[k]);
                        assert(Some(sq0[k]@) == trace_qty_sum(group_rows(sv.take(iv), reps0[k])));
                        assert(Some(sa0[k]@) == trace_amount_sum(
                            group_rows(sv.take(iv), reps0[k]),
                        ));
                        if same_group(sv[iv], reps@[k]) {
                            // two distinct representatives would share a group
                            if idx < no {
                                lemma_same_group_trans(reps@[tv], sv[iv], reps@[k]);
                                if tv < k {
                                    assert(!same_group(reps@[tv], reps@[k]));
                                } else {
                                    lemma_same_group_trans(reps@[k], sv[iv], reps@[tv]);
                                    assert(!same_group(reps@[k], reps@[tv]));
                                }
                            } else {
                                assert(!same_group(reps0[k], sv[iv]));
                            }
                            assert(false);
                        }
                    } else {
                        let g2 = group_rows(sv.take(iv), reps@[k]);
                        assert(g2.push(sv[iv]).drop_last() =~= g2);
                    }
                }
                assert forall|k: int| 0 <= k < iv + 1 implies has_group(
                    reps@,
                    #[trigger] sv[k],
                ) by {
                    if k == iv {
                        assert(same_group(reps@[tv], sv[iv]));
                    } else {
                        assert(has_group(reps0, sv[k]));
                        let j0 = choose|j0: int|
                            0 <= j0 < reps0.len() && same_group(#[trigger] reps0[j0], sv[k]);
                        assert(reps@[j0] == reps0[j0]);
                        assert(same_group(reps@[j0], sv[k]));
                    }
                }
                assert(sums_ok(sv, iv + 1, reps@, sum_q@, sum_a@));
            }
            i = i + 1;
        }
        proof {
            assert(sv.take(ns as int) =~= sv);
        }

        // one output row per representative
        let nr = reps.len();
        let mut out: Vec<ProfitRow> = Vec::new();
        let mut k: usize = 0;
        while k < nr
            invariant
                nr == reps.len(),
                sum_q@.len() == nr,
                sum_a@.len() == nr,
                k <= nr,
                sv == sells@,
                trace_rows_wf(reps@),
                reps@ == group_reps(sv),
                sums_ok(sv, sv.len() as int, reps@, sum_q@, sum_a@),
                sv.take(sv.len() as int) == sv,
                out@.len() == k,
                profit_rows_wf(out@),
                forall|k2: int|
                    0 <= k2 < k ==> {
                        let e = #[trigger] out@[k2];
                        let rep = reps@[k2];
                        &&& e.date == rep.order.date
                        &&& e.ticker@ == rep.order@.ticker
                        &&& e.currency == rep.order@.currency
                        &&& e.price@ == rep.order@.price
                        &&& Some(e.qty@) == trace_qty_sum(group_rows(sv, rep))
                        &&& Some(e.amount@) == trace_amount_sum(group_rows(sv, rep))
                        &&& Some(e.profit@) == sell_profit_v(
                            rep.order@.price,
                            rep.average_price@,
                            sum_q@[k2]@,
                        )
                    },
            decreases nr - k,
        {
            let rep = &reps[k];
            let p = match sell_profit(rep.order.price, rep.average_price, sum_q[k]) {
                Some(p) => p,
                None => {
                    return Err(Error::Arithmetic);
                },
            };
            out.push(
                ProfitRow {
                    date: rep.order.date,
                    ticker: rep.order.ticker.clone(),
                    qty: sum_q[k],
                    price: rep.order.price,
                    amount: sum_a[k],
                    currency: rep.order.currency,
                    profit: p,
                },
            );
            k = k + 1;
        }
        proof {
            assert(trace_matches(bss_of(sort_by_date_v(orders@)), full_trace));
            assert(profit_rows_match(sells_of(full_trace), out@));
            assert(derived_from(orders@, out@));
        }
        Ok(Profit { data: out })
    }

    /// The aggregated rows.
    pub fn collect(self) -> (r: Vec<ProfitRow>)
        ensures
            r@ == self.data@,
    {
        self.data
    }

    /// Rewrites the amount and price columns into `currency`, each row by
    /// its own currency's latest quoted rate; the realized profit itself is
    /// kept as computed.
    pub fn normalize_currency<S: crate::scraper::IScraper>(
        self,
        scraper: &mut S,
        currency: crate::schema::Currency,
        present_date: Option<Date>,
    ) -> (r: Result<Profit, Error>)
        requires
            profit_rows_wf(self.data@),
            old(scraper).inv(),
            present_date matches Some(d) ==> d.wf(),
        ensures
            final(scraper).inv(),
            match r {
                Ok(p) => profit_rows_wf(p.data@) && converted_profits(
                    self.data@,
                    currency,
                    p.data@,
                ),
                Err(e) => e == Error::Arithmetic || e == Error::Fetch,
            },
            // an arithmetic failure is the look-back window leaving the
            // calendar (clock-dependent with no present date) or a row's
            // scaling overflowing
            r == Err::<Profit, Error>(Error::Arithmetic) ==> (present_date is None || (
            present_date matches Some(d) && d@.dn() < 3) || profit_scaling_overflow(
                self.data@,
                currency,
            )),
    {
        let n = self.data.len();
        let mut currencies: Vec<crate::schema::Currency> = Vec::new();
        let mut i: usize = 0;
        while i < n
            invariant
                n == self.data.len(),
                i <= n,
                profit_rows_wf(self.data@),
            decreases n - i,
        {
            currencies.push(self.data[i].currency);
            i = i + 1;
        }
        let quotes = match crate::currency::fetch_rates(
            &currencies,
            currency,
            scraper,
            present_date,
        ) {
            Ok(q) => q,
            Err(e) => {
                return Err(e);
            },
        };
        let mut out: Vec<ProfitRow> = Vec::new();
        let mut i: usize = 0;
        while i < n
            invariant
                n == self.data.len(),
                i <= n,
                scraper.inv(),
                profit_rows_wf(self.data@),
                crate::scraper::quotes_wf(quotes@),
                out@.len() == i,
                profit_rows_wf(out@),
                forall|k: int|
                    0 <= k < i ==> {
                        let rate = crate::currency::row_rate(
                            quotes@,
                            self.data@[k].currency,
                            currency,
                        );
                        let new = #[trigger] out@[k];
                        &&& new == (ProfitRow {
                            amount: new.amount,
                            price: new.price,
                            currency,
                            ..self.data@[k]
                        })
                        &&& Some(new.amount@) == mul_v(self.data@[k].amount@, rate)
                        &&& Some(new.price@) == mul_v(self.data@[k].price@, rate)
                    },
            decreases n - i,
        {
            let row = &self.data[i];
            let rate = crate::currency::rate_lookup(&quotes, row.currency, currency);
            let ghost rrate = crate::currency::row_rate(
                quotes@,
                self.data@[i as int].currency,
                currency,
            );
            let amount = match row.amount.mul(rate) {
                Some(v) => v,
                None => {
                    proof {
                        assert(mul_v(self.data@[i as int].amount@, rrate) is None);
                        assert(profit_scaling_overflow(self.data@, currency));
                    }
                    return Err(Error::Arithmetic);
                },
            };
            let price = match row.price.mul(rate) {
                Some(v) => v,
                None => {
                    proof {
                        assert(mul_v(self.data@[i as int].price@, rrate) is None);
                        assert(profit_scaling_overflow(self.data@, currency));
                    }
                    return Err(Error::Arithmetic);
                },
            };
            let mut e = row.clone();
            e.amount = amount;
            e.price = price;
            e.currency = currency;
            out.push(e);
            i = i + 1;
        }
        proof {
            assert(profit_rows_scaled(self.data@, quotes@, currency, out@));
            assert(converted_profits(self.data@, currency, out@));
        }
        Ok(Profit { data: out })
    }

    /// Realized profit summed by year and month: the pivot of the rows'
    /// `(date, profit)` points.
    pub fn pivot(&self) -> (r: Result<PivotTable, Error>)
        requires
            profit_rows_wf(self.data@),
        ensures
            match r {
                Ok(t) => crate::utils::pivot_ok(profit_points(self.data@), t),
                Err(e) => e == Error::Arithmetic,
            },
    {
        let n = self.data.len();
        let mut values: Vec<DatedValue> = Vec::new();
        let mut i: usize = 0;
        while i < n
            invariant
                n == self.data.len(),
                i <= n,
                profit_rows_wf(self.data@),
                crate::utils::dated_values_wf(values@),
                values@ == profit_points(self.data@.take(i as int)),
            decreases n - i,
        {
            proof {
                self.data@.lemma_take_succ_push(i as int);
                assert(self.data@.take(i as int).push(self.data@[i as int]).drop_last()
                    =~= self.data@.take(i as int));
            }
            values.push(DatedValue { date: self.data[i].date, value: self.data[i].profit });
            proof {
                assert(values@.drop_last() =~= profit_points(self.data@.take(i as int)));
            }
            i = i + 1;
        }
        proof {
            assert(self.data@.take(n as int) =~= self.data@);
        }
        pivot_year_months(&values)
    }
}

} // verus!
