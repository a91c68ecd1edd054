//! Perpetual-inventory average-cost engine.
//!
//! Consumes the ledger in the order given (callers hand it sorted by date,
//! ties kept in row order), partitions rows by ticker, and threads the
//! running `(average cost, accrued quantity)` state through every buy, sell
//! and split.  A sell never revalues the remaining position; a split keeps
//! the total cost basis.

use crate::ledger::{orders_wf, Order, OrderV};
use crate::rational::{
    add_v, div_v, lemma_add_congruence, lemma_mul_congruence, lemma_norm_rv_eq, lemma_rv_eq_trans,
    mul_v, rv_add, rv_div, rv_eq, rv_mul, rv_sub, rv_wf, rv_zero, sub_v, Rat, Rv,
};
use crate::schema::Action;
use crate::Error;
use vstd::prelude::*;

verus! {

/// Running state for one ticker.
pub ghost struct CostStateV {
    pub avg: Rv,
    pub qty: Rv,
}

/// The actions the engine consumes; everything else is filtered out first.
pub open spec fn is_bss(a: Action) -> bool {
    a == Action::Buy || a == Action::Sell || a == Action::Split
}

/// The rows of `s` whose action is a buy, sell or split, in order.
pub open spec fn bss_of(s: Seq<Order>) -> Seq<Order>
    decreases s.len(),
{
    if s.len() == 0 {
        Seq::empty()
    } else {
        let rest = bss_of(s.drop_last());
        if is_bss(s.last()@.action) {
            rest.push(s.last())
        } else {
            rest
        }
    }
}

/// The rows of `rows` whose ticker is `t`, in order.
pub open spec fn ticker_rows(rows: Seq<Order>, t: Seq<char>) -> Seq<Order>
    decreases rows.len(),
{
    if rows.len() == 0 {
        Seq::empty()
    } else {
        let rest = ticker_rows(rows.drop_last(), t);
        if rows.last()@.ticker == t {
            rest.push(rows.last())
        } else {
            rest
        }
    }
}

/// One step of the average-cost recurrence.
///
/// - Buy of quantity `q` at price `p`: the position grows by `q` and the
///   average becomes `(avg*qty + p*q) / (qty + q)`, guarded against a zero
///   new position, which keeps the old average.
/// - Sell: the quantity shrinks by the sold quantity; the average is
///   untouched — selling never revalues the remaining position.
/// - Split by factor `f` (carried in the quantity column): the average is
///   divided and the quantity multiplied by `f`.
///
/// `None` marks an arithmetic failure: an overflowing reduced value or a
/// zero split factor.
pub open spec fn cost_step(st: CostStateV, o: OrderV) -> Option<CostStateV> {
    if o.action == Action::Buy {
        match add_v(st.qty, o.qty) {
            None => None,
            Some(new_qty) => if new_qty.n == 0 {
                Some(CostStateV { avg: st.avg, qty: new_qty })
            } else {
                match mul_v(st.avg, st.qty) {
                    None => None,
                    Some(c0) => match mul_v(o.price, o.qty) {
                        None => None,
                        Some(c1) => match add_v(c0, c1) {
                            None => None,
                            Some(c) => match div_v(c, new_qty) {
                                None => None,
                                Some(avg) => Some(CostStateV { avg, qty: new_qty }),
                            },
                        },
                    },
                }
            },
        }
    } else if o.action == Action::Sell {
        match sub_v(st.qty, o.qty) {
            None => None,
            Some(new_qty) => Some(CostStateV { avg: st.avg, qty: new_qty }),
        }
    } else if o.action == Action::Split {
        match div_v(st.avg, o.qty) {
            None => None,
            Some(avg) => match mul_v(st.qty, o.qty) {
                None => None,
                Some(qty) => Some(CostStateV { avg, qty }),
            },
        }
    } else {
        None
    }
}

/// Fold of the recurrence over a ticker's rows, from the `(0, 0)` state.
pub open spec fn cost_fold(rows: Seq<Order>) -> Option<CostStateV>
    decreases rows.len(),
{
    if rows.len() == 0 {
        Some(CostStateV { avg: rv_zero(), qty: rv_zero() })
    } else {
        match cost_fold(rows.drop_last()) {
            None => None,
            Some(st) => cost_step(st, rows.last()@),
        }
    }
}

/// A ledger row together with the running state after it.
#[derive(Debug)]
pub struct CostRow {
    pub order: Order,
    pub average_price: Rat,
    pub accrued_qty: Rat,
}

impl Clone for CostRow {
    fn clone(&self) -> (r: CostRow)
        ensures
            r == *self,
    {
        CostRow {
            order: self.order.clone(),
            average_price: self.average_price,
            accrued_qty: self.accrued_qty,
        }
    }
}

/// Trace entry `i` carries row `i` and the fold of that row's ticker group
/// up to and including it.
pub open spec fn trace_entry_ok(rows: Seq<Order>, trace: Seq<CostRow>, i: int) -> bool {
    &&& trace[i].order == rows[i]
    &&& trace[i].average_price.wf()
    &&& trace[i].accrued_qty.wf()
    &&& cost_fold(ticker_rows(rows.take(i + 1), rows[i]@.ticker)) == Some(
        CostStateV { avg: trace[i].average_price@, qty: trace[i].accrued_qty@ },
    )
}

/// The whole trace matches the filtered rows.
pub open spec fn trace_matches(rows: Seq<Order>, trace: Seq<CostRow>) -> bool {
    &&& trace.len() == rows.len()
    &&& forall|i: int| 0 <= i < rows.len() ==> #[trigger] trace_entry_ok(rows, trace, i)
}

/// Latest state of one ticker: the last row of its cost trace.
#[derive(Debug)]
pub struct TickerCost {
    pub ticker: String,
    pub average_price: Rat,
    pub accrued_qty: Rat,
}

impl Clone for TickerCost {
    fn clone(&self) -> (r: TickerCost)
        ensures
            r == *self,
    {
        TickerCost {
            ticker: self.ticker.clone(),
            average_price: self.average_price,
            accrued_qty: self.accrued_qty,
        }
    }
}

/// Some state entry holds ticker `t`.
pub open spec fn has_state(states: Seq<TickerCost>, t: Seq<char>) -> bool {
    exists|j: int| 0 <= j < states.len() && (#[trigger] states[j]).ticker@ == t
}

/// The state table: distinct tickers, each carrying the fold of its group
/// among the first `i` rows, and every ticker seen so far present.
pub open spec fn states_ok(rows: Seq<Order>, states: Seq<TickerCost>, i: int) -> bool {
    &&& forall|j: int|
        0 <= j < states.len() ==> {
            let e = #[trigger] states[j];
            &&& e.average_price.wf()
            &&& e.accrued_qty.wf()
            &&& cost_fold(ticker_rows(rows.take(i), e.ticker@)) == Some(
                CostStateV { avg: e.average_price@, qty: e.accrued_qty@ },
            )
        }
    &&& forall|j1: int, j2: int|
        0 <= j1 < j2 < states.len() ==> (#[trigger] states[j1]).ticker@ != (
        #[trigger] states[j2]).ticker@
    &&& forall|k: int| 0 <= k < i ==> has_state(states, (#[trigger] rows[k])@.ticker)
}

proof fn lemma_bss_step(s: Seq<Order>, i: int)
    requires
        0 <= i < s.len(),
    ensures
        bss_of(s.take(i + 1)) == if is_bss(s[i]@.action) {
            bss_of(s.take(i)).push(s[i])
        } else {
            bss_of(s.take(i))
        },
{
    s.lemma_take_succ_push(i);
    assert(s.take(i).push(s[i]).drop_last() =~= s.take(i));
    assert(s.take(i).push(s[i]).last() == s[i]);
}

proof fn lemma_ticker_rows_step(s: Seq<Order>, t: Seq<char>, i: int)
    requires
        0 <= i < s.len(),
    ensures
        ticker_rows(s.take(i + 1), t) == if s[i]@.ticker == t {
            ticker_rows(s.take(i), t).push(s[i])
        } else {
            ticker_rows(s.take(i), t)
        },
{
    s.lemma_take_succ_push(i);
    assert(s.take(i).push(s[i]).drop_last() =~= s.take(i));
    assert(s.take(i).push(s[i]).last() == s[i]);
}

proof fn lemma_ticker_rows_absent(s: Seq<Order>, t: Seq<char>)
    requires
        forall|k: int| 0 <= k < s.len() ==> (#[trigger] s[k])@.ticker != t,
    ensures
        ticker_rows(s, t).len() == 0,
    decreases s.len(),
{
    if s.len() > 0 {
        assert forall|k: int| 0 <= k < s.drop_last().len() implies (#[trigger] s.drop_last()[k])@.ticker
            != t by {
            assert(s.drop_last()[k] == s[k]);
        }
        lemma_ticker_rows_absent(s.drop_last(), t);
    }
}

proof fn lemma_cost_fold_push(q: Seq<Order>, x: Order)
    ensures
        cost_fold(q.push(x)) == match cost_fold(q) {
            None => None,
            Some(st) => cost_step(st, x@),
        },
{
    assert(q.push(x).drop_last() =~= q);
    assert(q.push(x).last() == x);
}

/// One executable step of the recurrence; mirrors `cost_step` exactly.
fn step_exec(avg: Rat, qty: Rat, o: &Order) -> (r: Result<(Rat, Rat), Error>)
    requires
        avg.wf(),
        qty.wf(),
        o.wf(),
        is_bss(o@.action),
    ensures
        match r {
            Ok(p) => p.0.wf() && p.1.wf() && cost_step(
                CostStateV { avg: avg@, qty: qty@ },
                o@,
            ) == Some(CostStateV { avg: p.0@, qty: p.1@ }),
            Err(e) => e == Error::Arithmetic && cost_step(
                CostStateV { avg: avg@, qty: qty@ },
                o@,
            ) is None,
        },
{
    match o.action {
        Action::Buy => {
            match qty.add(o.qty) {
                None => Err(Error::Arithmetic),
                Some(new_qty) => {
                    if new_qty.is_zero() {
                        Ok((avg, new_qty))
                    } else {
                        match avg.mul(qty) {
                            None => Err(Error::Arithmetic),
                            Some(c0) => match o.price.mul(o.qty) {
                                None => Err(Error::Arithmetic),
                                Some(c1) => match c0.add(c1) {
                                    None => Err(Error::Arithmetic),
                                    Some(c) => match c.div(new_qty) {
                                        None => Err(Error::Arithmetic),
                                        Some(new_avg) => Ok((new_avg, new_qty)),
                                    },
                                },
                            },
                        }
                    }
                },
            }
        },
        Action::Sell => match qty.sub(o.qty) {
            None => Err(Error::Arithmetic),
            Some(new_qty) => Ok((avg, new_qty)),
        },
        Action::Split => match avg.div(o.qty) {
            None => Err(Error::Arithmetic),
            Some(new_avg) => match qty.mul(o.qty) {
                None => Err(Error::Arithmetic),
                Some(new_qty) => Ok((new_avg, new_qty)),
            },
        },
        _ => {
            proof {
                assert(false);
            }
            Err(Error::Arithmetic)
        },
    }
}

/// The average-cost engine over a ledger.
#[derive(Debug)]
pub struct AverageCost {
    /// The rows the trace is computed over.
    pub data: Vec<Order>,
    /// The computed trace; empty until `with_cumulative` ran.
    pub trace: Vec<CostRow>,
}

impl AverageCost {
    /// Wraps a ledger; the trace is computed by `with_cumulative`.
    pub fn from_orders(orders: Vec<Order>) -> (r: AverageCost)
        ensures
            r.data@ == orders@,
            r.trace@ == Seq::<CostRow>::empty(),
    {
        AverageCost { data: orders, trace: Vec::new() }
    }

    /// Alias of `from_orders` for callers holding a bare row vector.
    pub fn new(orders: Vec<Order>) -> (r: AverageCost)
        ensures
            r.data@ == orders@,
            r.trace@ == Seq::<CostRow>::empty(),
    {
        AverageCost::from_orders(orders)
    }

    /// Keeps the buy, sell and split rows and computes the running
    /// average-cost state for each, per ticker, in row order.
    ///
    /// Fails only on rational overflow, and then reports which kind of
    /// failure it was; an unexpected action cannot reach the fold because
    /// the filter runs first.
    pub fn with_cumulative(self) -> (r: Result<AverageCost, Error>)
        requires
            orders_wf(self.data@),
        ensures
            match r {
                Ok(ac) => {
                    &&& ac.data@ == bss_of(self.data@)
                    &&& orders_wf(ac.data@)
                    &&& trace_matches(bss_of(self.data@), ac.trace@)
                },
                Err(e) => {
                    &&& e == Error::Arithmetic
                    &&& exists|i: int|
                        0 <= i < bss_of(self.data@).len() && cost_fold(
                            #[trigger] ticker_rows(
                                bss_of(self.data@).take(i + 1),
                                bss_of(self.data@)[i]@.ticker,
                            ),
                        ) is None
                },
            },
    {
        let n = self.data.len();
        let mut filtered: Vec<Order> = Vec::new();
        let mut i: usize = 0;
        while i < n
            invariant
                n == self.data.len(),
                i <= n,
                orders_wf(self.data@),
                filtered@ == bss_of(self.data@.take(i as int)),
            decreases n - i,
        {
            proof {
                lemma_bss_step(self.data@, i as int);
            }
            let o = &self.data[i];
            match o.action {
                Action::Buy | Action::Sell | Action::Split => {
                    filtered.push(o.clone());
                },
                _ => {},
            }
            i = i + 1;
        }
        proof {
            assert(self.data@.take(n as int) =~= self.data@);
            assert(orders_wf(filtered@)) by {
                lemma_bss_wf(self.data@);
            }
            assert forall|k: int| 0 <= k < filtered@.len() implies is_bss(
                (#[trigger] filtered@[k])@.action,
            ) by {
                lemma_bss_actions(self.data@);
            }
        }

        let rows = filtered;
        let m = rows.len();
        let mut trace: Vec<CostRow> = Vec::new();
        let mut states: Vec<TickerCost> = Vec::new();
        let mut i: usize = 0;
        while i < m
            invariant
                m == rows.len(),
                i <= m,
                rows@ == bss_of(self.data@),
                orders_wf(rows@),
                forall|k: int| 0 <= k < m ==> is_bss((#[trigger] rows@[k])@.action),
                trace@.len() == i,
                forall|k: int| 0 <= k < i ==> #[trigger] trace_entry_ok(rows@, trace@, k),
                states_ok(rows@, states@, i as int),
            decreases m - i,
        {
            let ghost rowsv = rows@;
            let o = &rows[i];
            let ns = states.len();
            let mut idx: usize = ns;
            let mut j: usize = 0;
            while j < ns
                invariant
                    ns == states.len(),
                    j <= ns,
                    idx == ns || (idx < ns && states@[idx as int].ticker@ == o@.ticker),
                    idx == ns ==> forall|jj: int|
                        0 <= jj < j ==> (#[trigger] states@[jj]).ticker@ != o@.ticker,
                decreases ns - j,
            {
                if idx == ns && states[j].ticker == o.ticker {
                    idx = j;
                }
                j = j + 1;
            }
            let avg0: Rat;
            let qty0: Rat;
            if idx < ns {
                avg0 = states[idx].average_price;
                qty0 = states[idx].accrued_qty;
            } else {
                avg0 = Rat::zero();
                qty0 = Rat::zero();
                proof {
                    assert forall|k: int| 0 <= k < rowsv.take(i as int).len() implies (
                    #[trigger] rowsv.take(i as int)[k])@.ticker != o@.ticker by {
                        assert(rowsv.take(i as int)[k] == rowsv[k]);
                        assert(has_state(states@, rowsv[k]@.ticker));
                    }
                    lemma_ticker_rows_absent(rowsv.take(i as int), o@.ticker);
                }
            }
            proof {
                assert(cost_fold(ticker_rows(rowsv.take(i as int), o@.ticker)) == Some(
                    CostStateV { avg: avg0@, qty: qty0@ },
                ));
                lemma_ticker_rows_step(rowsv, o@.ticker, i as int);
                lemma_cost_fold_push(ticker_rows(rowsv.take(i as int), o@.ticker), rowsv[i as int]);
            }
            let avg1: Rat;
            let qty1: Rat;
            match step_exec(avg0, qty0, o) {
                Ok(p) => {
                    avg1 = p.0;
                    qty1 = p.1;
                },
                Err(e) => {
                    proof {
                        assert(cost_fold(
                            ticker_rows(rowsv.take(i as int + 1), rowsv[i as int]@.ticker),
                        ) is None);
                    }
                    return Err(e);
                },
            }
            let entry = TickerCost {
                ticker: o.ticker.clone(),
                average_price: avg1,
                accrued_qty: qty1,
            };
            let ghost old_states = states@;
            let ghost old_trace = trace@;
            if idx < ns {
                states[idx] = entry;
            } else {
                states.push(entry);
            }
            trace.push(CostRow { order: o.clone(), average_price: avg1, accrued_qty: qty1 });
            proof {
                let iv = i as int;
                // the freshly pushed trace entry
                assert(trace_entry_ok(rowsv, trace@, iv));
                // older trace entries are untouched
                assert forall|k: int| 0 <= k < iv implies #[trigger] trace_entry_ok(
                    rowsv,
                    trace@,
                    k,
                ) by {
                    assert(trace@[k] == old_trace[k]);
                    assert(trace_entry_ok(rowsv, old_trace, k));
                }
                // state groups move from prefix i to prefix i + 1
                assert forall|j2: int| 0 <= j2 < states@.len() implies {
                    let e = #[trigger] states@[j2];
                    &&& e.average_price.wf()
                    &&& e.accrued_qty.wf()
                    &&& cost_fold(ticker_rows(rowsv.take(iv + 1), e.ticker@)) == Some(
                        CostStateV { avg: e.average_price@, qty: e.accrued_qty@ },
                    )
                } by {
                    let e = states@[j2];
                    lemma_ticker_rows_step(rowsv, e.ticker@, iv);
                    if idx < ns {
                        if j2 == idx as int {
                            assert(e.ticker@ == o@.ticker);
                        } else {
                            assert(old_states[j2] == e);
                            assert(e.ticker@ != o@.ticker);
                        }
                    } else {
                        if j2 == states@.len() - 1 {
                            assert(e.ticker@ == o@.ticker);
                        } else {
                            assert(old_states[j2] == e);
                            assert(e.ticker@ != o@.ticker);
                        }
                    }
                }
                // every ticker seen among the first i + 1 rows has a state
                assert forall|k: int| 0 <= k < iv + 1 implies has_state(
                    states@,
                    (#[trigger] rowsv[k])@.ticker,
                ) by {
                    if k == iv {
                        if idx < ns {
                            assert(states@[idx as int].ticker@ == o@.ticker);
                        } else {
                            assert(states@[states@.len() - 1].ticker@ == o@.ticker);
                        }
                    } else {
                        assert(has_state(old_states, rowsv[k]@.ticker));
                        let j0 = choose|j0: int|
                            0 <= j0 < old_states.len() && (#[trigger] old_states[j0]).ticker@
                                == rowsv[k]@.ticker;
                        if idx < ns && j0 == idx as int {
                            assert(states@[j0].ticker@ == o@.ticker);
                        } else {
                            assert(states@[j0] == old_states[j0]);
                        }
                    }
                }
            }
            i = i + 1;
        }
        proof {
            assert(rows@.take(m as int) =~= rows@);
        }
        Ok(AverageCost { data: rows, trace })
    }

    /// The full row-by-row trace.
    pub fn collect(self) -> (r: Vec<CostRow>)
        ensures
            r@ == self.trace@,
    {
        self.trace
    }
}

/// The tickers of a trace, row by row.
pub open spec fn cost_tickers(s: Seq<CostRow>) -> Seq<Seq<char>>
    decreases s.len(),
{
    if s.len() == 0 {
        Seq::empty()
    } else {
        cost_tickers(s.drop_last()).push(s.last().order@.ticker)
    }
}

/// The tickers of a latest-state table, row by row.
pub open spec fn latest_tickers(s: Seq<TickerCost>) -> Seq<Seq<char>>
    decreases s.len(),
{
    if s.len() == 0 {
        Seq::empty()
    } else {
        latest_tickers(s.drop_last()).push(s.last().ticker@)
    }
}

/// Distinct values in order of first occurrence.
pub open spec fn dedup_firsts(s: Seq<Seq<char>>) -> Seq<Seq<char>>
    decreases s.len(),
{
    if s.len() == 0 {
        Seq::empty()
    } else {
        let rest = dedup_firsts(s.drop_last());
        if rest.contains(s.last()) {
            rest
        } else {
            rest.push(s.last())
        }
    }
}

/// The trace rows whose ticker is `t`, in order.
pub open spec fn cost_rows_for(s: Seq<CostRow>, t: Seq<char>) -> Seq<CostRow>
    decreases s.len(),
{
    if s.len() == 0 {
        Seq::empty()
    } else {
        let rest = cost_rows_for(s.drop_last(), t);
        if s.last().order@.ticker == t {
            rest.push(s.last())
        } else {
            rest
        }
    }
}

proof fn lemma_latest_tickers_index(s: Seq<TickerCost>)
    ensures
        latest_tickers(s).len() == s.len(),
        forall|j: int| 0 <= j < s.len() ==> #[trigger] latest_tickers(s)[j] == s[j].ticker@,
    decreases s.len(),
{
    if s.len() > 0 {
        lemma_latest_tickers_index(s.drop_last());
        assert forall|j: int| 0 <= j < s.len() implies #[trigger] latest_tickers(s)[j]
            == s[j].ticker@ by {
            if j < s.len() - 1 {
                assert(s.drop_last()[j] == s[j]);
                assert(latest_tickers(s.drop_last())[j] == s.drop_last()[j].ticker@);
            }
        }
    }
}

proof fn lemma_cost_tickers_step(s: Seq<CostRow>, i: int)
    requires
        0 <= i < s.len(),
    ensures
        cost_tickers(s.take(i + 1)) == cost_tickers(s.take(i)).push(s[i].order@.ticker),
{
    s.lemma_take_succ_push(i);
    assert(s.take(i).push(s[i]).drop_last() =~= s.take(i));
    assert(s.take(i).push(s[i]).last() == s[i]);
}

proof fn lemma_cost_rows_for_step(s: Seq<CostRow>, t: Seq<char>, i: int)
    requires
        0 <= i < s.len(),
    ensures
        cost_rows_for(s.take(i + 1), t) == if s[i].order@.ticker == t {
            cost_rows_for(s.take(i), t).push(s[i])
        } else {
            cost_rows_for(s.take(i), t)
        },
{
    s.lemma_take_succ_push(i);
    assert(s.take(i).push(s[i]).drop_last() =~= s.take(i));
    assert(s.take(i).push(s[i]).last() == s[i]);
}

/// Filtering a well-formed trace keeps its rows well formed.
pub proof fn lemma_cost_rows_for_wf(s: Seq<CostRow>, t: Seq<char>)
    requires
        forall|i: int|
            0 <= i < s.len() ==> (#[trigger] s[i]).average_price.wf()
                && s[i].accrued_qty.wf(),
    ensures
        forall|i: int|
            0 <= i < cost_rows_for(s, t).len() ==> (#[trigger] cost_rows_for(s, t)[i]).average_price.wf()
                && cost_rows_for(s, t)[i].accrued_qty.wf(),
    decreases s.len(),
{
    if s.len() > 0 {
        let d = s.drop_last();
        assert forall|i: int| 0 <= i < d.len() implies (#[trigger] d[i]).average_price.wf()
            && d[i].accrued_qty.wf() by {
            assert(d[i] == s[i]);
        }
        lemma_cost_rows_for_wf(d, t);
        assert forall|i: int| 0 <= i < cost_rows_for(s, t).len() implies (
        #[trigger] cost_rows_for(s, t)[i]).average_price.wf() && cost_rows_for(
            s,
            t,
        )[i].accrued_qty.wf() by {
            if i < cost_rows_for(d, t).len() {
                assert(cost_rows_for(s, t)[i] == cost_rows_for(d, t)[i]);
            }
        }
    }
}

/// The latest-state table matches a trace: tickers in order of first
/// appearance, each entry the last state of its ticker's group.
pub open spec fn latest_matches(trace: Seq<CostRow>, out: Seq<TickerCost>) -> bool {
    &&& latest_tickers(out) == dedup_firsts(cost_tickers(trace))
    &&& forall|k: int|
        0 <= k < out.len() ==> {
            let e = #[trigger] out[k];
            let g = cost_rows_for(trace, e.ticker@);
            &&& g.len() > 0
            &&& e.average_price == g.last().average_price
            &&& e.accrued_qty == g.last().accrued_qty
        }
}

impl AverageCost {
    /// The final `(average cost, accrued quantity)` per ticker: the last
    /// trace row of each ticker's group, tickers in order of first
    /// appearance.
    pub fn collect_latest(self) -> (r: Vec<TickerCost>)
        ensures
            latest_matches(self.trace@, r@),
    {
        let n = self.trace.len();
        let mut out: Vec<TickerCost> = Vec::new();
        let mut i: usize = 0;
        while i < n
            invariant
                n == self.trace.len(),
                i <= n,
                latest_tickers(out@) == dedup_firsts(cost_tickers(self.trace@.take(i as int))),
                forall|j1: int, j2: int|
                    0 <= j1 < j2 < out@.len() ==> (#[trigger] out@[j1]).ticker@ != (
                    #[trigger] out@[j2]).ticker@,
                forall|k: int|
                    0 <= k < out@.len() ==> {
                        let e = #[trigger] out@[k];
                        let g = cost_rows_for(self.trace@.take(i as int), e.ticker@);
                        &&& g.len() > 0
                        &&& e.average_price == g.last().average_price
                        &&& e.accrued_qty == g.last().accrued_qty
                    },
            decreases n - i,
        {
            let ghost tr = self.trace@;
            let row = &self.trace[i];
            let ghost t = row.order@.ticker;
            let ns = out.len();
            let mut idx: usize = ns;
            let mut j: usize = 0;
            while j < ns
                invariant
                    ns == out.len(),
                    j <= ns,
                    idx == ns || (idx < ns && out@[idx as int].ticker@ == row.order@.ticker),
                    idx == ns ==> forall|jj: int|
                        0 <= jj < j ==> (#[trigger] out@[jj]).ticker@ != row.order@.ticker,
                decreases ns - j,
            {
                if idx == ns && out[j].ticker == row.order.ticker {
                    idx = j;
                }
                j = j + 1;
            }
            let entry = TickerCost {
                ticker: row.order.ticker.clone(),
                average_price: row.average_price,
                accrued_qty: row.accrued_qty,
            };
            let ghost old_out = out@;
            if idx < ns {
                out[idx] = entry;
            } else {
                out.push(entry);
            }
            proof {
                let iv = i as int;
                lemma_cost_tickers_step(tr, iv);
                lemma_latest_tickers_index(old_out);
                lemma_latest_tickers_index(out@);
                let q = cost_tickers(tr.take(iv));
                assert(q.push(t).drop_last() =~= q);
                assert(q.push(t).last() == t);
                // whether the ticker was present in `out` decides the dedup step
                if idx < ns {
                    assert(latest_tickers(old_out).contains(t)) by {
                        assert(latest_tickers(old_out)[idx as int] == t);
                    }
                    assert(latest_tickers(out@) =~= latest_tickers(old_out));
                } else {
                    assert(!latest_tickers(old_out).contains(t)) by {
                        if latest_tickers(old_out).contains(t) {
                            let j0 = choose|j0: int|
                                0 <= j0 < latest_tickers(old_out).len() && latest_tickers(old_out)[j0]
                                    == t;
                            assert(old_out[j0].ticker@ == t);
                        }
                    }
                    assert(latest_tickers(out@) =~= latest_tickers(old_out).push(t));
                }
                assert(latest_tickers(out@) == dedup_firsts(cost_tickers(tr.take(iv + 1))));
                // each entry still carries the last row of its group
                assert forall|k: int| 0 <= k < out@.len() implies {
                    let e = #[trigger] out@[k];
                    let g = cost_rows_for(tr.take(iv + 1), e.ticker@);
                    &&& g.len() > 0
                    &&& e.average_price == g.last().average_price
                    &&& e.accrued_qty == g.last().accrued_qty
                } by {
                    let e = out@[k];
                    lemma_cost_rows_for_step(tr, e.ticker@, iv);
                    if idx < ns {
                        if k == idx as int {
                            assert(e.ticker@ == t);
                        } else {
                            assert(out@[k] == old_out[k]);
                            assert(old_out[k].ticker@ != t) by {
                                assert(old_out[idx as int].ticker@ == t);
                            }
                        }
                    } else {
                        if k == out@.len() - 1 {
                            assert(e.ticker@ == t);
                        } else {
                            assert(out@[k] == old_out[k]);
                            assert(old_out[k].ticker@ != t);
                        }
                    }
                }
            }
            i = i + 1;
        }
        proof {
            assert(self.trace@.take(n as int) =~= self.trace@);
        }
        out
    }
}

/// Exact (unreduced) sum of `price * quantity` over rows.
pub open spec fn wsum_pq(rows: Seq<Order>) -> Rv
    decreases rows.len(),
{
    if rows.len() == 0 {
        rv_zero()
    } else {
        rv_add(wsum_pq(rows.drop_last()), rv_mul(rows.last()@.price, rows.last()@.qty))
    }
}

/// Exact (unreduced) sum of quantities over rows.
pub open spec fn wsum_q(rows: Seq<Order>) -> Rv
    decreases rows.len(),
{
    if rows.len() == 0 {
        rv_zero()
    } else {
        rv_add(wsum_q(rows.drop_last()), rows.last()@.qty)
    }
}

/// The weighted sums have positive denominators; with positive quantities
/// the quantity sum of a nonempty row set has a positive numerator.
proof fn lemma_wsum_wf(rows: Seq<Order>)
    requires
        orders_wf(rows),
        forall|k: int| 0 <= k < rows.len() ==> (#[trigger] rows[k])@.qty.n > 0,
    ensures
        wsum_pq(rows).d > 0,
        wsum_q(rows).d > 0,
        wsum_q(rows).n >= 0,
        rows.len() > 0 ==> wsum_q(rows).n > 0,
    decreases rows.len(),
{
    if rows.len() > 0 {
        let r = rows.drop_last();
        assert forall|k: int| 0 <= k < r.len() implies (#[trigger] r[k]).wf() && r[k]@.qty.n
            > 0 by {
            assert(r[k] == rows[k]);
        }
        lemma_wsum_wf(r);
        let o = rows.last();
        assert(rows[rows.len() - 1] == o);
        assert(o.wf() && o@.qty.n > 0);
        assert(wsum_pq(rows).d > 0 && wsum_q(rows).d > 0 && wsum_q(rows).n > 0)
            by (nonlinear_arith)
            requires
                wsum_pq(rows) == rv_add(wsum_pq(r), rv_mul(o@.price, o@.qty)),
                wsum_q(rows) == rv_add(wsum_q(r), o@.qty),
                wsum_pq(r).d > 0,
                wsum_q(r).d > 0,
                wsum_q(r).n >= 0,
                o@.price.d > 0,
                o@.qty.d > 0,
                o@.qty.n > 0,
        ;
    }
}

/// Every state a successful fold produces is well formed.
proof fn lemma_cost_fold_wf(rows: Seq<Order>)
    requires
        orders_wf(rows),
        cost_fold(rows) is Some,
    ensures
        rv_wf(cost_fold(rows).unwrap().avg),
        rv_wf(cost_fold(rows).unwrap().qty),
    decreases rows.len(),
{
    if rows.len() > 0 {
        let r = rows.drop_last();
        assert forall|k: int| 0 <= k < r.len() implies (#[trigger] r[k]).wf() by {
            assert(r[k] == rows[k]);
        }
        lemma_cost_fold_wf(r);
        let st = cost_fold(r).unwrap();
        let o = rows.last();
        assert(rows[rows.len() - 1] == o);
        let ov = o@;
        if ov.action == Action::Buy {
            let ex = rv_add(st.qty, ov.qty);
            assert(ex.d > 0) by (nonlinear_arith)
                requires
                    st.qty.d > 0,
                    ov.qty.d > 0,
                    ex.d == st.qty.d * ov.qty.d,
            ;
            lemma_norm_rv_eq(ex.n, ex.d);
            let new_qty = add_v(st.qty, ov.qty).unwrap();
            if new_qty.n != 0 {
                let c0x = rv_mul(st.avg, st.qty);
                assert(c0x.d > 0) by (nonlinear_arith)
                    requires
                        st.avg.d > 0,
                        st.qty.d > 0,
                        c0x.d == st.avg.d * st.qty.d,
                ;
                lemma_norm_rv_eq(c0x.n, c0x.d);
                let c0 = mul_v(st.avg, st.qty).unwrap();
                let c1x = rv_mul(ov.price, ov.qty);
                assert(c1x.d > 0) by (nonlinear_arith)
                    requires
                        ov.price.d > 0,
                        ov.qty.d > 0,
                        c1x.d == ov.price.d * ov.qty.d,
                ;
                lemma_norm_rv_eq(c1x.n, c1x.d);
                let c1 = mul_v(ov.price, ov.qty).unwrap();
                let cx = rv_add(c0, c1);
                assert(cx.d > 0) by (nonlinear_arith)
                    requires
                        c0.d > 0,
                        c1.d > 0,
                        cx.d == c0.d * c1.d,
                ;
                lemma_norm_rv_eq(cx.n, cx.d);
                let c = add_v(c0, c1).unwrap();
                let dvx = rv_div(c, new_qty);
                assert(dvx.d > 0) by (nonlinear_arith)
                    requires
                        c.d > 0,
                        new_qty.n != 0,
                        dvx == if new_qty.n >= 0 {
                            Rv { n: c.n * new_qty.d, d: c.d * new_qty.n }
                        } else {
                            Rv { n: -(c.n * new_qty.d), d: -(c.d * new_qty.n) }
                        },
                ;
                lemma_norm_rv_eq(dvx.n, dvx.d);
            }
        } else if ov.action == Action::Sell {
            let ex = rv_sub(st.qty, ov.qty);
            assert(ex.d > 0) by (nonlinear_arith)
                requires
                    st.qty.d > 0,
                    ov.qty.d > 0,
                    ex.d == st.qty.d * ov.qty.d,
            ;
            lemma_norm_rv_eq(ex.n, ex.d);
        } else {
            let dvx = rv_div(st.avg, ov.qty);
            assert(dvx.d > 0) by (nonlinear_arith)
                requires
                    st.avg.d > 0,
                    ov.qty.n != 0,
                    dvx == if ov.qty.n >= 0 {
                        Rv { n: st.avg.n * ov.qty.d, d: st.avg.d * ov.qty.n }
                    } else {
                        Rv { n: -(st.avg.n * ov.qty.d), d: -(st.avg.d * ov.qty.n) }
                    },
            ;
            lemma_norm_rv_eq(dvx.n, dvx.d);
            let av = div_v(st.avg, ov.qty).unwrap();
            let mx = rv_mul(st.qty, ov.qty);
            assert(mx.d > 0) by (nonlinear_arith)
                requires
                    st.qty.d > 0,
                    ov.qty.d > 0,
                    mx.d == st.qty.d * ov.qty.d,
            ;
            lemma_norm_rv_eq(mx.n, mx.d);
        }
    }
}

/// A sell row never changes the average cost; it only decreases the
/// accrued quantity by the sold quantity.
pub proof fn lemma_sell_invariance(st: CostStateV, o: OrderV)
    requires
        o.action == Action::Sell,
        rv_wf(st.qty),
        rv_wf(o.qty),
        cost_step(st, o) is Some,
    ensures
        cost_step(st, o).unwrap().avg == st.avg,
        rv_eq(cost_step(st, o).unwrap().qty, rv_sub(st.qty, o.qty)),
{
    let ex = rv_sub(st.qty, o.qty);
    assert(ex.d > 0) by (nonlinear_arith)
        requires
            st.qty.d > 0,
            o.qty.d > 0,
            ex.d == st.qty.d * o.qty.d,
    ;
    lemma_norm_rv_eq(ex.n, ex.d);
}

/// Total cost basis `average_cost * accrued_quantity` is unchanged
/// immediately before versus after a split row.
pub proof fn lemma_split_invariance(st: CostStateV, o: OrderV)
    requires
        o.action == Action::Split,
        rv_wf(st.avg),
        rv_wf(st.qty),
        rv_wf(o.qty),
        cost_step(st, o) is Some,
    ensures
        ({
            let new = cost_step(st, o).unwrap();
            rv_eq(rv_mul(new.avg, new.qty), rv_mul(st.avg, st.qty))
        }),
{
    let f = o.qty;
    let a = st.avg;
    let q = st.qty;
    let dv = rv_div(a, f);
    assert(f.n != 0);
    assert(dv.d > 0) by (nonlinear_arith)
        requires
            a.d > 0,
            f.n != 0,
            dv == if f.n >= 0 {
                Rv { n: a.n * f.d, d: a.d * f.n }
            } else {
                Rv { n: -(a.n * f.d), d: -(a.d * f.n) }
            },
    ;
    lemma_norm_rv_eq(dv.n, dv.d);
    let mx = rv_mul(q, f);
    assert(mx.d > 0) by (nonlinear_arith)
        requires
            q.d > 0,
            f.d > 0,
            mx.d == q.d * f.d,
    ;
    lemma_norm_rv_eq(mx.n, mx.d);
    let new = cost_step(st, o).unwrap();
    lemma_mul_congruence(new.avg, new.qty, dv, mx);
    let mid = rv_mul(dv, mx);
    if f.n >= 0 {
        assert(mid.n * (a.d * q.d) == (a.n * q.n) * mid.d) by (nonlinear_arith)
            requires
                mid.n == dv.n * mx.n,
                mid.d == dv.d * mx.d,
                mx.n == q.n * f.n,
                mx.d == q.d * f.d,
                dv.n == a.n * f.d,
                dv.d == a.d * f.n,
        ;
    } else {
        assert(mid.n * (a.d * q.d) == (a.n * q.n) * mid.d) by (nonlinear_arith)
            requires
                mid.n == dv.n * mx.n,
                mid.d == dv.d * mx.d,
                mx.n == q.n * f.n,
                mx.d == q.d * f.d,
                dv.n == -(a.n * f.d),
                dv.d == -(a.d * f.n),
        ;
    }
    assert(rv_eq(mid, rv_mul(a, q)));
    assert(mid.d != 0) by (nonlinear_arith)
        requires
            dv.d > 0,
            mx.d > 0,
            mid.d == dv.d * mx.d,
    ;
    lemma_rv_eq_trans(rv_mul(new.avg, new.qty), mid, rv_mul(a, q));
}

/// `(c / x) * x` is cross-equal to `c`.
proof fn lemma_div_mul_cancel(c: Rv, x: Rv)
    requires
        x.n != 0,
        x.d > 0,
        c.d > 0,
    ensures
        rv_eq(rv_mul(rv_div(c, x), x), c),
{
    let dv = rv_div(c, x);
    assert(rv_eq(rv_mul(dv, x), c)) by (nonlinear_arith)
        requires
            dv == if x.n >= 0 {
                Rv { n: c.n * x.d, d: c.d * x.n }
            } else {
                Rv { n: -(c.n * x.d), d: -(c.d * x.n) }
            },
            x.n != 0,
            x.d > 0,
            c.d > 0,
    ;
}

/// For a sequence of buys with positive quantities, the resulting average
/// cost is the quantity-weighted mean of the buy prices seen so far, and
/// the accrued quantity is the sum of the quantities: the fold state
/// satisfies `avg * (sum of qty) == sum of price * qty` exactly.  Ticker
/// groups are folded independently, so this holds within any group
/// regardless of the other tickers in the ledger.
pub proof fn lemma_buys_weighted_mean(rows: Seq<Order>)
    requires
        orders_wf(rows),
        forall|k: int| 0 <= k < rows.len() ==> (#[trigger] rows[k])@.action == Action::Buy,
        forall|k: int| 0 <= k < rows.len() ==> (#[trigger] rows[k])@.qty.n > 0,
        cost_fold(rows) is Some,
    ensures
        ({
            let st = cost_fold(rows).unwrap();
            &&& rv_eq(st.qty, wsum_q(rows))
            &&& rv_eq(rv_mul(st.avg, wsum_q(rows)), wsum_pq(rows))
            &&& st.qty.n >= 0
        }),
    decreases rows.len(),
{
    lemma_wsum_wf(rows);
    lemma_cost_fold_wf(rows);
    if rows.len() == 0 {
    } else {
        let r = rows.drop_last();
        assert forall|k: int| 0 <= k < r.len() implies (#[trigger] r[k]).wf() && r[k]@.action
            == Action::Buy && r[k]@.qty.n > 0 by {
            assert(r[k] == rows[k]);
        }
        lemma_buys_weighted_mean(r);
        lemma_wsum_wf(r);
        lemma_cost_fold_wf(r);
        let st0 = cost_fold(r).unwrap();
        let o = rows.last();
        assert(rows[rows.len() - 1] == o);
        let ov = o@;
        let p = ov.price;
        let q = ov.qty;
        let q0 = wsum_q(r);
        let p0 = wsum_pq(r);
        let q1 = wsum_q(rows);
        let p1 = wsum_pq(rows);
        // the sign of the fold quantity matches the sign of the sum
        assert(st0.qty.n >= 0);
        // exact new quantity is positive, so the zero guard is not taken
        let exq = rv_add(st0.qty, q);
        assert(exq.n > 0 && exq.d > 0) by (nonlinear_arith)
            requires
                exq == (Rv { n: st0.qty.n * q.d + q.n * st0.qty.d, d: st0.qty.d * q.d }),
                st0.qty.n >= 0,
                st0.qty.d > 0,
                q.n > 0,
                q.d > 0,
        ;
        lemma_norm_rv_eq(exq.n, exq.d);
        let new_qty = add_v(st0.qty, q).unwrap();
        assert(new_qty.n > 0) by (nonlinear_arith)
            requires
                rv_eq(new_qty, exq),
                new_qty.n * exq.d == exq.n * new_qty.d,
                exq.n > 0,
                exq.d > 0,
                new_qty.d > 0,
        ;
        // new quantity is cross-equal to the full quantity sum
        lemma_add_congruence(st0.qty, q, q0, q);
        assert(rv_eq(rv_add(q0, q), q1));
        lemma_rv_eq_trans(new_qty, exq, rv_add(q0, q));
        assert(rv_eq(new_qty, q1));
        // cost numerator is cross-equal to the full price-quantity sum
        let c0x = rv_mul(st0.avg, st0.qty);
        assert(c0x.d > 0) by (nonlinear_arith)
            requires
                st0.avg.d > 0,
                st0.qty.d > 0,
                c0x.d == st0.avg.d * st0.qty.d,
        ;
        lemma_norm_rv_eq(c0x.n, c0x.d);
        let c0 = mul_v(st0.avg, st0.qty).unwrap();
        // avg * qty ~ avg * q0 ~ p0
        lemma_mul_congruence(st0.avg, st0.qty, st0.avg, q0);
        assert(rv_eq(rv_mul(st0.avg, q0), p0));
        assert(rv_mul(st0.avg, q0).d != 0) by (nonlinear_arith)
            requires
                st0.avg.d > 0,
                q0.d > 0,
                rv_mul(st0.avg, q0).d == st0.avg.d * q0.d,
        ;
        lemma_rv_eq_trans(c0x, rv_mul(st0.avg, q0), p0);
        lemma_rv_eq_trans(c0, c0x, p0);
        let c1x = rv_mul(p, q);
        assert(c1x.d > 0) by (nonlinear_arith)
            requires
                p.d > 0,
                q.d > 0,
                c1x.d == p.d * q.d,
        ;
        lemma_norm_rv_eq(c1x.n, c1x.d);
        let c1 = mul_v(p, q).unwrap();
        let cx = rv_add(c0, c1);
        assert(cx.d > 0) by (nonlinear_arith)
            requires
                c0.d > 0,
                c1.d > 0,
                cx.d == c0.d * c1.d,
        ;
        lemma_norm_rv_eq(cx.n, cx.d);
        let c = add_v(c0, c1).unwrap();
        lemma_add_congruence(c0, c1, p0, c1x);
        assert(rv_eq(rv_add(p0, c1x), p1));
        assert(rv_add(p0, c1x).d != 0) by (nonlinear_arith)
            requires
                p0.d > 0,
                c1x.d > 0,
                rv_add(p0, c1x).d == p0.d * c1x.d,
        ;
        lemma_rv_eq_trans(cx, rv_add(p0, c1x), p1);
        lemma_rv_eq_trans(c, cx, p1);
        // the divided average, multiplied back by the quantity sum, gives
        // the price-quantity sum
        let dvx = rv_div(c, new_qty);
        assert(dvx.d > 0) by (nonlinear_arith)
            requires
                c.d > 0,
                new_qty.n > 0,
                dvx == (Rv { n: c.n * new_qty.d, d: c.d * new_qty.n }),
        ;
        lemma_norm_rv_eq(dvx.n, dvx.d);
        let new_avg = div_v(c, new_qty).unwrap();
        let st = cost_fold(rows).unwrap();
        assert(st.avg == new_avg && st.qty == new_qty);
        lemma_mul_congruence(new_avg, q1, dvx, new_qty);
        lemma_div_mul_cancel(c, new_qty);
        assert(rv_mul(dvx, new_qty).d != 0) by (nonlinear_arith)
            requires
                dvx.d > 0,
                new_qty.d > 0,
                rv_mul(dvx, new_qty).d == dvx.d * new_qty.d,
        ;
        lemma_rv_eq_trans(rv_mul(new_avg, q1), rv_mul(dvx, new_qty), c);
        lemma_rv_eq_trans(rv_mul(new_avg, q1), c, p1);
    }
}

/// A group over a prefix is no longer than the whole group.
proof fn lemma_ticker_rows_len_mono(s: Seq<Order>, t: Seq<char>, i: int)
    requires
        0 <= i <= s.len(),
    ensures
        ticker_rows(s.take(i), t).len() <= ticker_rows(s, t).len(),
    decreases s.len() - i,
{
    if i < s.len() {
        lemma_ticker_rows_step(s, t, i);
        lemma_ticker_rows_len_mono(s, t, i + 1);
    } else {
        assert(s.take(i) =~= s);
    }
}

/// The group prefix at a cutoff is a prefix of the whole group.
proof fn lemma_group_prefix(s: Seq<Order>, t: Seq<char>, i: int)
    requires
        0 <= i <= s.len(),
    ensures
        ticker_rows(s.take(i), t) == ticker_rows(s, t).take(
            ticker_rows(s.take(i), t).len() as int,
        ),
    decreases s.len() - i,
{
    if i == s.len() {
        assert(s.take(i) =~= s);
        assert(ticker_rows(s, t).take(ticker_rows(s, t).len() as int) =~= ticker_rows(s, t));
    } else {
        lemma_group_prefix(s, t, i + 1);
        lemma_ticker_rows_step(s, t, i);
        let g = ticker_rows(s.take(i), t);
        let g1 = ticker_rows(s.take(i + 1), t);
        let full = ticker_rows(s, t);
        if s[i]@.ticker == t {
            assert(g1 == g.push(s[i]));
            assert(g1 == full.take(g1.len() as int));
            assert(g1.len() <= full.len()) by {
                lemma_ticker_rows_len_mono(s, t, i + 1);
            }
            assert(g =~= g1.drop_last());
            assert(full.take(g1.len() as int).drop_last() =~= full.take(g1.len() - 1));
            assert(g == full.take(g.len() as int));
        } else {
            assert(g1 == g);
        }
    }
}

/// Ticker groups are computed independently: when two ledgers carry the
/// same rows for ticker `t`, in the same order, the traces' running states
/// for `t` agree row for row — however the other tickers' rows are
/// interleaved around them.  `ia` and `ib` point at the occurrence of the
/// same group position in each ledger.
pub proof fn lemma_ticker_independence(
    a: Seq<Order>,
    ta: Seq<CostRow>,
    b: Seq<Order>,
    tb: Seq<CostRow>,
    t: Seq<char>,
    ia: int,
    ib: int,
)
    requires
        trace_matches(a, ta),
        trace_matches(b, tb),
        ticker_rows(a, t) == ticker_rows(b, t),
        0 <= ia < a.len(),
        0 <= ib < b.len(),
        a[ia]@.ticker == t,
        b[ib]@.ticker == t,
        ticker_rows(a.take(ia), t).len() == ticker_rows(b.take(ib), t).len(),
    ensures
        ta[ia].average_price@ == tb[ib].average_price@,
        ta[ia].accrued_qty@ == tb[ib].accrued_qty@,
{
    lemma_group_prefix(a, t, ia + 1);
    lemma_group_prefix(b, t, ib + 1);
    lemma_ticker_rows_step(a, t, ia);
    lemma_ticker_rows_step(b, t, ib);
    assert(ticker_rows(a.take(ia + 1), t).len() == ticker_rows(b.take(ib + 1), t).len());
    assert(ticker_rows(a.take(ia + 1), t) == ticker_rows(b.take(ib + 1), t));
    assert(trace_entry_ok(a, ta, ia));
    assert(trace_entry_ok(b, tb, ib));
}

/// Rows of `bss_of(s)` are rows of `s`, so they stay well formed.
proof fn lemma_bss_wf(s: Seq<Order>)
    requires
        orders_wf(s),
    ensures
        orders_wf(bss_of(s)),
    decreases s.len(),
{
    if s.len() > 0 {
        assert(orders_wf(s.drop_last())) by {
            assert forall|k: int| 0 <= k < s.drop_last().len() implies (
            #[trigger] s.drop_last()[k]).wf() by {
                assert(s.drop_last()[k] == s[k]);
            }
        }
        lemma_bss_wf(s.drop_last());
    }
}

/// Every row of `bss_of(s)` is a buy, sell or split.
proof fn lemma_bss_actions(s: Seq<Order>)
    ensures
        forall|k: int|
            0 <= k < bss_of(s).len() ==> is_bss((#[trigger] bss_of(s)[k])@.action),
    decreases s.len(),
{
    if s.len() > 0 {
        lemma_bss_actions(s.drop_last());
        assert forall|k: int| 0 <= k < bss_of(s).len() implies is_bss(
            (#[trigger] bss_of(s)[k])@.action,
        ) by {
            if k < bss_of(s.drop_last()).len() {
                assert(bss_of(s)[k] == bss_of(s.drop_last())[k]);
            }
        }
    }
}

} // verus!
