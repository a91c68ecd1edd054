//! The normalized transaction ledger: one row per broker transaction.

use crate::date::{Date, DateV};
use crate::rational::{rv_wf, Rat, Rv};
use crate::schema::{Action, Country, Currency};
use vstd::prelude::*;

verus! {

/// View of a ledger row.
pub ghost struct OrderV {
    pub date: DateV,
    pub action: Action,
    pub ticker: Seq<char>,
    pub qty: Rv,
    pub price: Rv,
    pub amount: Rv,
    pub currency: Currency,
    pub country: Country,
}

impl OrderV {
    pub open spec fn wf(self) -> bool {
        self.date.valid() && rv_wf(self.qty) && rv_wf(self.price) && rv_wf(self.amount)
    }
}

/// A normalized transaction: what happened, to which security, for how much.
/// The ledger is a value: every stage produces a new derived table and never
/// mutates its input.
#[derive(Debug)]
pub struct Order {
    pub date: Date,
    pub action: Action,
    pub ticker: String,
    pub qty: Rat,
    pub price: Rat,
    pub amount: Rat,
    pub currency: Currency,
    pub country: Country,
}

impl View for Order {
    type V = OrderV;

    open spec fn view(&self) -> OrderV {
        OrderV {
            date: self.date@,
            action: self.action,
            ticker: self.ticker@,
            qty: self.qty@,
            price: self.price@,
            amount: self.amount@,
            currency: self.currency,
            country: self.country,
        }
    }
}

impl Order {
    /// Validity: the date is a real date and every rational is well formed.
    pub open spec fn wf(self) -> bool {
        self@.wf() && self.date.wf() && self.qty.wf() && self.price.wf() && self.amount.wf()
    }
}

impl Clone for Order {
    fn clone(&self) -> (r: Order)
        ensures
            r == *self,
    {
        Order {
            date: self.date,
            action: self.action,
            ticker: self.ticker.clone(),
            qty: self.qty,
            price: self.price,
            amount: self.amount,
            currency: self.currency,
            country: self.country,
        }
    }
}

/// All rows of a ledger are well formed.
pub open spec fn orders_wf(s: Seq<Order>) -> bool {
    forall|i: int| 0 <= i < s.len() ==> (#[trigger] s[i]).wf()
}

/// Stable insertion of `x` into rows sorted by date: `x` lands after every
/// row dated on or before it.
pub open spec fn insert_by_date(s: Seq<Order>, x: Order) -> Seq<Order>
    decreases s.len(),
{
    if s.len() == 0 {
        seq![x]
    } else if s.last()@.date.dn() <= x@.date.dn() {
        s.push(x)
    } else {
        insert_by_date(s.drop_last(), x).push(s.last())
    }
}

/// Stable sort of the ledger by date: equal dates keep their row order,
/// which the average-cost engine depends on.
pub open spec fn sort_by_date_v(s: Seq<Order>) -> Seq<Order>
    decreases s.len(),
{
    if s.len() == 0 {
        Seq::empty()
    } else {
        insert_by_date(sort_by_date_v(s.drop_last()), s.last())
    }
}

/// Stable insertion lands exactly at the found position.
proof fn lemma_insert_by_date_at(s: Seq<Order>, x: Order, j: int)
    requires
        0 <= j <= s.len(),
        j == 0 || s[j - 1]@.date.dn() <= x@.date.dn(),
        forall|k: int| j <= k < s.len() ==> (#[trigger] s[k])@.date.dn() > x@.date.dn(),
    ensures
        insert_by_date(s, x) == s.take(j).push(x) + s.skip(j),
    decreases s.len(),
{
    if s.len() == 0 {
        assert(insert_by_date(s, x) =~= s.take(j).push(x) + s.skip(j));
    } else if j == s.len() {
        assert(s.take(j) =~= s);
        assert(insert_by_date(s, x) =~= s.take(j).push(x) + s.skip(j));
    } else {
        let d = s.drop_last();
        assert(s[s.len() - 1]@.date.dn() > x@.date.dn());
        assert forall|k: int| j <= k < d.len() implies (#[trigger] d[k])@.date.dn()
            > x@.date.dn() by {
            assert(d[k] == s[k]);
        }
        if j > 0 {
            assert(d[j - 1] == s[j - 1]);
        }
        lemma_insert_by_date_at(d, x, j);
        assert(d.take(j) =~= s.take(j));
        assert(insert_by_date(s, x) == (d.take(j).push(x) + d.skip(j)).push(s.last()));
        assert((d.take(j).push(x) + d.skip(j)).push(s.last()) =~= s.take(j).push(x) + s.skip(j));
    }
}

/// Sorts the ledger ascending by date, keeping the row order of equal
/// dates.
pub fn sort_by_date(orders: Vec<Order>) -> (r: Vec<Order>)
    requires
        orders_wf(orders@),
    ensures
        r@ == sort_by_date_v(orders@),
        orders_wf(r@),
{
    let n = orders.len();
    let mut out: Vec<Order> = Vec::new();
    let mut i: usize = 0;
    while i < n
        invariant
            n == orders.len(),
            i <= n,
            orders_wf(orders@),
            orders_wf(out@),
            out@ == sort_by_date_v(orders@.take(i as int)),
        decreases n - i,
    {
        proof {
            orders@.lemma_take_succ_push(i as int);
            assert(orders@.take(i as int).push(orders@[i as int]).drop_last() =~= orders@.take(
                i as int,
            ));
        }
        let x = orders[i].clone();
        let xd = x.date.day_number();
        let mut j: usize = out.len();
        loop
            invariant
                j <= out.len(),
                orders_wf(out@),
                x.wf(),
                xd as int == x@.date.dn(),
                forall|k: int| j <= k < out@.len() ==> (#[trigger] out@[k])@.date.dn() > xd,
            ensures
                j <= out.len(),
                j == 0 || out@[j - 1]@.date.dn() <= xd,
                forall|k: int| j <= k < out@.len() ==> (#[trigger] out@[k])@.date.dn() > xd,
            decreases j,
        {
            if j == 0 {
                break ;
            }
            if out[j - 1].date.day_number() <= xd {
                break ;
            }
            j = j - 1;
        }
        let ghost old_out = out@;
        let ghost jv = j as int;
        out.insert(j, x);
        proof {
            lemma_insert_by_date_at(old_out, x, jv);
            assert(out@ =~= old_out.take(jv).push(x) + old_out.skip(jv));
            assert forall|k: int| 0 <= k < out@.len() implies (#[trigger] out@[k]).wf() by {
                if k < jv {
                    assert(out@[k] == old_out[k]);
                } else if k > jv {
                    assert(out@[k] == old_out[k - 1]);
                }
            }
        }
        i = i + 1;
    }
    proof {
        assert(orders@.take(n as int) =~= orders@);
    }
    out
}

} // verus!
