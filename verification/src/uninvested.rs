//! Uninvested cash: what deposits, proceeds and dividends left in the
//! account per currency, after buys, withdrawals, taxes and fees.

use crate::ledger::{orders_wf, Order, OrderV};
use crate::rational::{add_v, rv_neg, rv_zero, Rat, Rv};
use crate::schema::{Action, Country, Currency, Type};
use crate::Error;
use vstd::prelude::*;

verus! {

/// Actions that take cash out of the account.
pub open spec fn cash_out(a: Action) -> bool {
    a == Action::Buy || a == Action::Withdraw || a == Action::Tax || a == Action::Fee
}

/// The signed cash movement of a row.
pub open spec fn cash_amount(o: OrderV) -> Rv {
    if cash_out(o.action) {
        rv_neg(o.amount)
    } else {
        o.amount
    }
}

/// The views of the cash ledger derived from `s`: every row but `Ignore`,
/// with its signed amount.
pub open spec fn cash_rows_v(s: Seq<Order>) -> Seq<OrderV>
    decreases s.len(),
{
    if s.len() == 0 {
        Seq::empty()
    } else {
        let rest = cash_rows_v(s.drop_last());
        let o = s.last()@;
        if o.action == Action::Ignore {
            rest
        } else {
            rest.push(OrderV { amount: cash_amount(o), ..o })
        }
    }
}

/// The views of a row vector.
pub open spec fn order_views(s: Seq<Order>) -> Seq<OrderV>
    decreases s.len(),
{
    if s.len() == 0 {
        Seq::empty()
    } else {
        order_views(s.drop_last()).push(s.last()@)
    }
}

/// The rows of `s` in currency `c`.
pub open spec fn currency_rows(s: Seq<Order>, c: Currency) -> Seq<Order>
    decreases s.len(),
{
    if s.len() == 0 {
        Seq::empty()
    } else {
        let rest = currency_rows(s.drop_last(), c);
        if s.last()@.currency == c {
            rest.push(s.last())
        } else {
            rest
        }
    }
}

/// Sum of the amounts of `s`, `None` on overflow.
pub open spec fn amount_sum(s: Seq<Order>) -> Option<Rv>
    decreases s.len(),
{
    if s.len() == 0 {
        Some(rv_zero())
    } else {
        match amount_sum(s.drop_last()) {
            None => None,
            Some(acc) => add_v(acc, s.last()@.amount),
        }
    }
}

/// The currencies of the rows, row by row.
pub open spec fn order_currencies(s: Seq<Order>) -> Seq<Currency>
    decreases s.len(),
{
    if s.len() == 0 {
        Seq::empty()
    } else {
        order_currencies(s.drop_last()).push(s.last()@.currency)
    }
}

/// Distinct currencies in order of first occurrence.
pub open spec fn dedup_currencies(s: Seq<Currency>) -> Seq<Currency>
    decreases s.len(),
{
    if s.len() == 0 {
        Seq::empty()
    } else {
        let rest = dedup_currencies(s.drop_last());
        if rest.contains(s.last()) {
            rest
        } else {
            rest.push(s.last())
        }
    }
}

/// One aggregated cash position.
#[derive(Debug)]
pub struct CashRow {
    pub currency: Currency,
    pub amount: Rat,
    pub ticker: String,
    pub country: Country,
}

impl Clone for CashRow {
    fn clone(&self) -> (r: CashRow)
        ensures
            r == *self,
    {
        CashRow {
            currency: self.currency,
            amount: self.amount,
            ticker: self.ticker.clone(),
            country: self.country,
        }
    }
}

/// The currencies of aggregated cash rows, row by row.
pub open spec fn cash_row_currencies(s: Seq<CashRow>) -> Seq<Currency>
    decreases s.len(),
{
    if s.len() == 0 {
        Seq::empty()
    } else {
        cash_row_currencies(s.drop_last()).push(s.last().currency)
    }
}

/// The cash ledger: all non-ignored rows with signed amounts.
#[derive(Debug)]
pub struct Cash {
    pub data: Vec<Order>,
}

impl Cash {
    /// Derives the signed cash ledger: `Ignore` rows are dropped and buys,
    /// withdrawals, taxes and fees count negative.
    pub fn from_orders(orders: Vec<Order>) -> (r: Cash)
        requires
            orders_wf(orders@),
        ensures
            orders_wf(r.data@),
            order_views(r.data@) == cash_rows_v(orders@),
    {
        let n = orders.len();
        let mut data: Vec<Order> = Vec::new();
        let mut i: usize = 0;
        while i < n
            invariant
                n == orders.len(),
                i <= n,
                orders_wf(orders@),
                orders_wf(data@),
                order_views(data@) == cash_rows_v(orders@.take(i as int)),
            decreases n - i,
        {
            proof {
                orders@.lemma_take_succ_push(i as int);
                assert(orders@.take(i as int).push(orders@[i as int]).drop_last() =~= orders@.take(
                    i as int,
                ));
            }
            let o = &orders[i];
            if !matches!(o.action, Action::Ignore) {
                let signed = if matches!(
                    o.action,
                    Action::Buy | Action::Withdraw | Action::Tax | Action::Fee,
                ) {
                    o.amount.neg()
                } else {
                    o.amount
                };
                let row = Order {
                    date: o.date,
                    action: o.action,
                    ticker: o.ticker.clone(),
                    qty: o.qty,
                    price: o.price,
                    amount: signed,
                    currency: o.currency,
                    country: o.country,
                };
                let ghost old_data = data@;
                data.push(row);
                proof {
                    assert(order_views(data@) =~= order_views(old_data).push(data@.last()@)) by {
                        assert(data@.drop_last() =~= old_data);
                    }
                }
            }
            i = i + 1;
        }
        proof {
            assert(orders@.take(n as int) =~= orders@);
        }
        Cash { data }
    }

    /// Sums the signed amounts per currency, one row per currency in order
    /// of first appearance, tagged with the synthetic `Cash` ticker and the
    /// currency's market country.  Fails only on rational overflow.
    pub fn collect(self) -> (r: Result<Vec<CashRow>, Error>)
        requires
            orders_wf(self.data@),
        ensures
            match r {
                Ok(out) => {
                    &&& cash_row_currencies(out@) == dedup_currencies(
                        order_currencies(self.data@),
                    )
                    &&& forall|k: int|
                        0 <= k < out@.len() ==> {
                            let e = #[trigger] out@[k];
                            &&& e.amount.wf()
                            &&& Some(e.amount@) == amount_sum(
                                currency_rows(self.data@, e.currency),
                            )
                            &&& e.ticker@ == Type::Cash.spec_str()
                            &&& e.country == e.currency.spec_country()
                        }
                },
                Err(e) => e == Error::Arithmetic && exists|c: Currency|
                    amount_sum(#[trigger] currency_rows(self.data@, c)) is None,
            },
    {
        let n = self.data.len();
        let mut out: Vec<CashRow> = Vec::new();
        let mut i: usize = 0;
        while i < n
            invariant
                n == self.data.len(),
                i <= n,
                orders_wf(self.data@),
                cash_row_currencies(out@) == dedup_currencies(
                    order_currencies(self.data@.take(i as int)),
                ),
                forall|j1: int, j2: int|
                    0 <= j1 < j2 < out@.len() ==> (#[trigger] out@[j1]).currency != (
                    #[trigger] out@[j2]).currency,
                forall|k: int| 0 <= k < i ==> out_has(out@, (#[trigger] self.data@[k])@.currency),
                forall|k: int|
                    0 <= k < out@.len() ==> {
                        let e = #[trigger] out@[k];
                        &&& e.amount.wf()
                        &&& Some(e.amount@) == amount_sum(
                            currency_rows(self.data@.take(i as int), e.currency),
                        )
                        &&& e.ticker@ == Type::Cash.spec_str()
                        &&& e.country == e.currency.spec_country()
                    },
            decreases n - i,
        {
            let ghost rows = self.data@;
            let o = &self.data[i];
            let c = o.currency;
            let ns = out.len();
            let mut idx: usize = ns;
            let mut j: usize = 0;
            while j < ns
                invariant
                    ns == out.len(),
                    j <= ns,
                    idx == ns || (idx < ns && out@[idx as int].currency == c),
                    idx == ns ==> forall|jj: int|
                        0 <= jj < j ==> (#[trigger] out@[jj]).currency != c,
                decreases ns - j,
            {
                if idx == ns && out[j].currency == c {
                    idx = j;
                }
                j = j + 1;
            }
            let acc: Rat = if idx < ns {
                out[idx].amount
            } else {
                proof {
                    assert forall|k: int| 0 <= k < rows.take(i as int).len() implies (
                    #[trigger] rows.take(i as int)[k])@.currency != c by {
                        assert(rows.take(i as int)[k] == rows[k]);
                        assert(out_has(out@, rows[k]@.currency));
                    }
                    lemma_currency_rows_absent(rows.take(i as int), c);
                }
                Rat::zero()
            };
            proof {
                assert(Some(acc@) == amount_sum(currency_rows(rows.take(i as int), c)));
                lemma_currency_rows_step(rows, c, i as int);
                let g = currency_rows(rows.take(i as int), c);
                assert(g.push(rows[i as int]).drop_last() =~= g);
            }
            let total = match acc.add(o.amount) {
                Some(t) => t,
                None => {
                    proof {
                        lemma_amount_sum_none(rows, c, i as int + 1);
                    }
                    return Err(Error::Arithmetic);
                },
            };
            let entry = CashRow {
                currency: c,
                amount: total,
                ticker: Type::Cash.as_str().to_owned(),
                country: c.country(),
            };
            let ghost old_out = out@;
            if idx < ns {
                out[idx] = entry;
            } else {
                out.push(entry);
            }
            proof {
                let iv = i as int;
                lemma_order_currencies_step(rows, iv);
                lemma_cash_row_currencies_index(old_out);
                lemma_cash_row_currencies_index(out@);
                let q = order_currencies(rows.take(iv));
                assert(q.push(c).drop_last() =~= q);
                if idx < ns {
                    assert(dedup_currencies(q).contains(c)) by {
                        assert(cash_row_currencies(old_out)[idx as int] == c);
                    }
                    assert(cash_row_currencies(out@) =~= cash_row_currencies(old_out));
                } else {
                    assert(!dedup_currencies(q).contains(c)) by {
                        if dedup_currencies(q).contains(c) {
                            let j0 = choose|j0: int|
                                0 <= j0 < cash_row_currencies(old_out).len()
                                    && cash_row_currencies(old_out)[j0] == c;
                            assert(old_out[j0].currency == c);
                        }
                    }
                    assert(cash_row_currencies(out@) =~= cash_row_currencies(old_out).push(c));
                }
                assert forall|k: int| 0 <= k < out@.len() implies {
                    let e = #[trigger] out@[k];
                    &&& e.amount.wf()
                    &&& Some(e.amount@) == amount_sum(currency_rows(rows.take(iv + 1), e.currency))
                    &&& e.ticker@ == Type::Cash.spec_str()
                    &&& e.country == e.currency.spec_country()
                } by {
                    let e = out@[k];
                    lemma_currency_rows_step(rows, e.currency, iv);
                    let g2 = currency_rows(rows.take(iv), e.currency);
                    assert(g2.push(rows[iv]).drop_last() =~= g2);
                    if idx < ns {
                        if k != idx as int {
                            assert(out@[k] == old_out[k]);
                            assert(old_out[k].currency != c) by {
                                assert(old_out[idx as int].currency == c);
                            }
                        }
                    } else {
                        if k != out@.len() - 1 {
                            assert(out@[k] == old_out[k]);
                            assert(old_out[k].currency != c);
                        }
                    }
                }
                assert forall|k: int| 0 <= k < iv + 1 implies out_has(
                    out@,
                    (#[trigger] rows[k])@.currency,
                ) by {
                    if k == iv {
                        if idx < ns {
                            assert(out@[idx as int].currency == c);
                        } else {
                            assert(out@[out@.len() - 1].currency == c);
                        }
                    } else {
                        let j0 = choose|j0: int|
                            0 <= j0 < old_out.len() && (#[trigger] old_out[j0]).currency
                                == rows[k]@.currency;
                        assert(out@[j0].currency == rows[k]@.currency);
                    }
                }
            }
            i = i + 1;
        }
        proof {
            assert(self.data@.take(n as int) =~= self.data@);
        }
        Ok(out)
    }
}

/// Some aggregated row carries currency `c`.
pub open spec fn out_has(out: Seq<CashRow>, c: Currency) -> bool {
    exists|j: int| 0 <= j < out.len() && (#[trigger] out[j]).currency == c
}

proof fn lemma_currency_rows_absent(s: Seq<Order>, c: Currency)
    requires
        forall|k: int| 0 <= k < s.len() ==> (#[trigger] s[k])@.currency != c,
    ensures
        currency_rows(s, c).len() == 0,
    decreases s.len(),
{
    if s.len() > 0 {
        assert forall|k: int| 0 <= k < s.drop_last().len() implies (
        #[trigger] s.drop_last()[k])@.currency != c by {
            assert(s.drop_last()[k] == s[k]);
        }
        lemma_currency_rows_absent(s.drop_last(), c);
    }
}

proof fn lemma_currency_rows_step(s: Seq<Order>, c: Currency, i: int)
    requires
        0 <= i < s.len(),
    ensures
        currency_rows(s.take(i + 1), c) == if s[i]@.currency == c {
            currency_rows(s.take(i), c).push(s[i])
        } else {
            currency_rows(s.take(i), c)
        },
{
    s.lemma_take_succ_push(i);
    assert(s.take(i).push(s[i]).drop_last() =~= s.take(i));
    assert(s.take(i).push(s[i]).last() == s[i]);
}

proof fn lemma_order_currencies_step(s: Seq<Order>, i: int)
    requires
        0 <= i < s.len(),
    ensures
        order_currencies(s.take(i + 1)) == order_currencies(s.take(i)).push(s[i]@.currency),
{
    s.lemma_take_succ_push(i);
    assert(s.take(i).push(s[i]).drop_last() =~= s.take(i));
    assert(s.take(i).push(s[i]).last() == s[i]);
}

proof fn lemma_cash_row_currencies_index(s: Seq<CashRow>)
    ensures
        cash_row_currencies(s).len() == s.len(),
        forall|j: int|
            0 <= j < s.len() ==> #[trigger] cash_row_currencies(s)[j] == s[j].currency,
    decreases s.len(),
{
    if s.len() > 0 {
        lemma_cash_row_currencies_index(s.drop_last());
        assert forall|j: int| 0 <= j < s.len() implies #[trigger] cash_row_currencies(s)[j]
            == s[j].currency by {
            if j < s.len() - 1 {
                assert(s.drop_last()[j] == s[j]);
                assert(cash_row_currencies(s.drop_last())[j] == s.drop_last()[j].currency);
            }
        }
    }
}

/// A failed sum at a prefix fails the sum of the whole currency group.
proof fn lemma_amount_sum_none(s: Seq<Order>, c: Currency, i: int)
    requires
        0 <= i <= s.len(),
        amount_sum(currency_rows(s.take(i), c)) is None,
    ensures
        amount_sum(currency_rows(s, c)) is None,
    decreases s.len() - i,
{
    if i < s.len() {
        lemma_currency_rows_step(s, c, i);
        let g = currency_rows(s.take(i), c);
        assert(g.push(s[i]).drop_last() =~= g);
        lemma_amount_sum_none(s, c, i + 1);
    } else {
        assert(s.take(i) =~= s);
    }
}

} // verus!
