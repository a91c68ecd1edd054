//! Market-data model: quote, split and dividend series, the search period,
//! and the interface a quote provider implements.

use crate::date::{Date, DateV};
use chrono::Datelike;
use crate::rational::{Rat, Rv};
use crate::schema::{Country, Currency};
use crate::Error;
use vstd::prelude::*;

verus! {

/// View of a quote row.
pub ghost struct QuoteRowV {
    pub date: DateV,
    pub ticker: Seq<char>,
    pub price: Rv,
    pub currency: Currency,
}

/// One closing price of a ticker on a date.
#[derive(Debug)]
pub struct QuoteRow {
    pub date: Date,
    pub ticker: String,
    pub price: Rat,
    pub currency: Currency,
}

impl View for QuoteRow {
    type V = QuoteRowV;

    open spec fn view(&self) -> QuoteRowV {
        QuoteRowV {
            date: self.date@,
            ticker: self.ticker@,
            price: self.price@,
            currency: self.currency,
        }
    }
}

impl QuoteRow {
    pub open spec fn wf(self) -> bool {
        self.date.wf() && self.price.wf()
    }
}

impl Clone for QuoteRow {
    fn clone(&self) -> (r: QuoteRow)
        ensures
            r == *self,
    {
        QuoteRow {
            date: self.date,
            ticker: self.ticker.clone(),
            price: self.price,
            currency: self.currency,
        }
    }
}

/// One split event: the factor is carried in the quantity column.
#[derive(Debug)]
pub struct SplitRow {
    pub date: Date,
    pub ticker: String,
    pub qty: Rat,
}

impl SplitRow {
    pub open spec fn wf(self) -> bool {
        self.date.wf() && self.qty.wf()
    }
}

impl Clone for SplitRow {
    fn clone(&self) -> (r: SplitRow)
        ensures
            r == *self,
    {
        SplitRow { date: self.date, ticker: self.ticker.clone(), qty: self.qty }
    }
}

/// One dividend payment per share.
#[derive(Debug)]
pub struct DividendRow {
    pub date: Date,
    pub ticker: String,
    pub price: Rat,
    pub currency: Currency,
}

impl DividendRow {
    pub open spec fn wf(self) -> bool {
        self.date.wf() && self.price.wf()
    }
}

impl Clone for DividendRow {
    fn clone(&self) -> (r: DividendRow)
        ensures
            r == *self,
    {
        DividendRow {
            date: self.date,
            ticker: self.ticker.clone(),
            price: self.price,
            currency: self.currency,
        }
    }
}

pub open spec fn quotes_wf(s: Seq<QuoteRow>) -> bool {
    forall|i: int| 0 <= i < s.len() ==> (#[trigger] s[i]).wf()
}

pub open spec fn splits_wf(s: Seq<SplitRow>) -> bool {
    forall|i: int| 0 <= i < s.len() ==> (#[trigger] s[i]).wf()
}

pub open spec fn dividends_wf(s: Seq<DividendRow>) -> bool {
    forall|i: int| 0 <= i < s.len() ==> (#[trigger] s[i]).wf()
}

/// A `(ticker, date)` key already occurs among the quotes.
pub open spec fn quote_key_in(s: Seq<QuoteRow>, t: Seq<char>, dn: int) -> bool {
    exists|j: int| 0 <= j < s.len() && (#[trigger] s[j])@.ticker == t && s[j]@.date.dn() == dn
}

pub open spec fn split_key_in(s: Seq<SplitRow>, t: Seq<char>, dn: int) -> bool {
    exists|j: int| 0 <= j < s.len() && (#[trigger] s[j]).ticker@ == t && s[j].date@.dn() == dn
}

pub open spec fn dividend_key_in(s: Seq<DividendRow>, t: Seq<char>, dn: int) -> bool {
    exists|j: int| 0 <= j < s.len() && (#[trigger] s[j]).ticker@ == t && s[j].date@.dn() == dn
}

/// Merge of `b` into `a`: rows of `b` whose `(ticker, date)` key is new are
/// appended in order; on a duplicate key the first-seen row wins, so
/// re-merging the same delta is idempotent.  The merged series keeps
/// insertion order rather than date order — a deliberate decision: every
/// consumer (coverage, earliest and latest selection, window filters, rate
/// lookup) is specified order-independently, so sorting the store would
/// add nothing a contract relies on.
pub open spec fn merge_quotes(a: Seq<QuoteRow>, b: Seq<QuoteRow>) -> Seq<QuoteRow>
    decreases b.len(),
{
    if b.len() == 0 {
        a
    } else {
        let m = merge_quotes(a, b.drop_last());
        if quote_key_in(m, b.last()@.ticker, b.last()@.date.dn()) {
            m
        } else {
            m.push(b.last())
        }
    }
}

pub open spec fn merge_splits(a: Seq<SplitRow>, b: Seq<SplitRow>) -> Seq<SplitRow>
    decreases b.len(),
{
    if b.len() == 0 {
        a
    } else {
        let m = merge_splits(a, b.drop_last());
        if split_key_in(m, b.last().ticker@, b.last().date@.dn()) {
            m
        } else {
            m.push(b.last())
        }
    }
}

pub open spec fn merge_dividends(a: Seq<DividendRow>, b: Seq<DividendRow>) -> Seq<DividendRow>
    decreases b.len(),
{
    if b.len() == 0 {
        a
    } else {
        let m = merge_dividends(a, b.drop_last());
        if dividend_key_in(m, b.last().ticker@, b.last().date@.dn()) {
            m
        } else {
            m.push(b.last())
        }
    }
}

/// The three series a quote provider returns.
#[derive(Debug)]
pub struct ScraperData {
    pub quotes: Vec<QuoteRow>,
    pub splits: Vec<SplitRow>,
    pub dividends: Vec<DividendRow>,
}

impl ScraperData {
    pub open spec fn wf(self) -> bool {
        quotes_wf(self.quotes@) && splits_wf(self.splits@) && dividends_wf(self.dividends@)
    }

    pub fn new(quotes: Vec<QuoteRow>, splits: Vec<SplitRow>, dividends: Vec<DividendRow>) -> (r:
        ScraperData)
        ensures
            r.quotes@ == quotes@,
            r.splits@ == splits@,
            r.dividends@ == dividends@,
    {
        ScraperData { quotes, splits, dividends }
    }

    pub fn empty() -> (r: ScraperData)
        ensures
            r.quotes@ == Seq::<QuoteRow>::empty(),
            r.splits@ == Seq::<SplitRow>::empty(),
            r.dividends@ == Seq::<DividendRow>::empty(),
            r.wf(),
    {
        ScraperData { quotes: Vec::new(), splits: Vec::new(), dividends: Vec::new() }
    }

    /// Appends the quote rows whose `(ticker, date)` is not yet present.
    pub fn concat_quotes(&mut self, quotes: Vec<QuoteRow>)
        requires
            quotes_wf(old(self).quotes@),
            quotes_wf(quotes@),
        ensures
            final(self).quotes@ == merge_quotes(old(self).quotes@, quotes@),
            quotes_wf(final(self).quotes@),
            final(self).splits@ == old(self).splits@,
            final(self).dividends@ == old(self).dividends@,
    {
        let n = quotes.len();
        let mut i: usize = 0;
        while i < n
            invariant
                n == quotes.len(),
                i <= n,
                quotes_wf(quotes@),
                quotes_wf(self.quotes@),
                self.quotes@ == merge_quotes(old(self).quotes@, quotes@.take(i as int)),
                self.splits@ == old(self).splits@,
                self.dividends@ == old(self).dividends@,
            decreases n - i,
        {
            proof {
                quotes@.lemma_take_succ_push(i as int);
                assert(quotes@.take(i as int).push(quotes@[i as int]).drop_last() =~= quotes@.take(
                    i as int,
                ));
            }
            let row = &quotes[i];
            let dn = row.date.day_number();
            let m = self.quotes.len();
            let mut j: usize = 0;
            let mut present = false;
            while j < m
                invariant
                    m == self.quotes.len(),
                    j <= m,
                    quotes_wf(self.quotes@),
                    row.wf(),
                    dn as int == row@.date.dn(),
                    present ==> quote_key_in(self.quotes@, row@.ticker, row@.date.dn()),
                    !present ==> forall|jj: int|
                        0 <= jj < j ==> !((#[trigger] self.quotes@[jj])@.ticker == row@.ticker
                            && self.quotes@[jj]@.date.dn() == row@.date.dn()),
                decreases m - j,
            {
                if !present && self.quotes[j].ticker == row.ticker && self.quotes[j].date.day_number()
                    == dn {
                    present = true;
                }
                j = j + 1;
            }
            if !present {
                self.quotes.push(row.clone());
            }
            i = i + 1;
        }
        proof {
            assert(quotes@.take(n as int) =~= quotes@);
        }
    }

    /// Appends the split rows whose `(ticker, date)` is not yet present.
    pub fn concat_splits(&mut self, splits: Vec<SplitRow>)
        requires
            splits_wf(old(self).splits@),
            splits_wf(splits@),
        ensures
            final(self).splits@ == merge_splits(old(self).splits@, splits@),
            splits_wf(final(self).splits@),
            final(self).quotes@ == old(self).quotes@,
            final(self).dividends@ == old(self).dividends@,
    {
        let n = splits.len();
        let mut i: usize = 0;
        while i < n
            invariant
                n == splits.len(),
                i <= n,
                splits_wf(splits@),
                splits_wf(self.splits@),
                self.splits@ == merge_splits(old(self).splits@, splits@.take(i as int)),
                self.quotes@ == old(self).quotes@,
                self.dividends@ == old(self).dividends@,
            decreases n - i,
        {
            proof {
                splits@.lemma_take_succ_push(i as int);
                assert(splits@.take(i as int).push(splits@[i as int]).drop_last() =~= splits@.take(
                    i as int,
                ));
            }
            let row = &splits[i];
            let dn = row.date.day_number();
            let m = self.splits.len();
            let mut j: usize = 0;
            let mut present = false;
            while j < m
                invariant
                    m == self.splits.len(),
                    j <= m,
                    splits_wf(self.splits@),
                    row.wf(),
                    dn as int == row.date@.dn(),
                    present ==> split_key_in(self.splits@, row.ticker@, row.date@.dn()),
                    !present ==> forall|jj: int|
                        0 <= jj < j ==> !((#[trigger] self.splits@[jj]).ticker@ == row.ticker@
                            && self.splits@[jj].date@.dn() == row.date@.dn()),
                decreases m - j,
            {
                if !present && self.splits[j].ticker == row.ticker && self.splits[j].date.day_number()
                    == dn {
                    present = true;
                }
                j = j + 1;
            }
            if !present {
                self.splits.push(row.clone());
            }
            i = i + 1;
        }
        proof {
            assert(splits@.take(n as int) =~= splits@);
        }
    }

    /// Appends the dividend rows whose `(ticker, date)` is not yet present.
    pub fn concat_dividends(&mut self, dividends: Vec<DividendRow>)
        requires
            dividends_wf(old(self).dividends@),
            dividends_wf(dividends@),
        ensures
            final(self).dividends@ == merge_dividends(old(self).dividends@, dividends@),
            dividends_wf(final(self).dividends@),
            final(self).quotes@ == old(self).quotes@,
            final(self).splits@ == old(self).splits@,
    {
        let n = dividends.len();
        let mut i: usize = 0;
        while i < n
            invariant
                n == dividends.len(),
                i <= n,
                dividends_wf(dividends@),
                dividends_wf(self.dividends@),
                self.dividends@ == merge_dividends(old(self).dividends@, dividends@.take(i as int)),
                self.quotes@ == old(self).quotes@,
                self.splits@ == old(self).splits@,
            decreases n - i,
        {
            proof {
                dividends@.lemma_take_succ_push(i as int);
                assert(dividends@.take(i as int).push(dividends@[i as int]).drop_last()
                    =~= dividends@.take(i as int));
            }
            let row = &dividends[i];
            let dn = row.date.day_number();
            let m = self.dividends.len();
            let mut j: usize = 0;
            let mut present = false;
            while j < m
                invariant
                    m == self.dividends.len(),
                    j <= m,
                    dividends_wf(self.dividends@),
                    row.wf(),
                    dn as int == row.date@.dn(),
                    present ==> dividend_key_in(self.dividends@, row.ticker@, row.date@.dn()),
                    !present ==> forall|jj: int|
                        0 <= jj < j ==> !((#[trigger] self.dividends@[jj]).ticker@ == row.ticker@
                            && self.dividends@[jj].date@.dn() == row.date@.dn()),
                decreases m - j,
            {
                if !present && self.dividends[j].ticker == row.ticker
                    && self.dividends[j].date.day_number() == dn {
                    present = true;
                }
                j = j + 1;
            }
            if !present {
                self.dividends.push(row.clone());
            }
            i = i + 1;
        }
        proof {
            assert(dividends@.take(n as int) =~= dividends@);
        }
    }
}

/// The interval a fetch was asked for, one day when absent.
pub open spec fn spec_interval(interval_days: Option<u32>) -> int {
    match interval_days {
        Some(d) => d as int,
        None => 1,
    }
}

/// The requested date window of a fetch.
#[derive(Debug, Clone, Copy)]
pub struct SearchPeriod {
    pub start: Date,
    pub end: Date,
    pub interval_days: u32,
}

impl SearchPeriod {
    pub open spec fn wf(self) -> bool {
        self.start.wf() && self.end.wf()
    }

    /// Builds a period; a missing end defaults to today and a missing start
    /// to the end minus the interval (one day when absent).  Fails only on
    /// an interval beyond the date arithmetic's limit or when the defaulted
    /// start leaves the supported calendar; with both endpoints determined
    /// the failure condition is stated exactly, and with the end defaulted
    /// to today it depends on the clock.
    pub fn new(start: Option<Date>, end: Option<Date>, interval_days: Option<u32>) -> (r: Result<
        SearchPeriod,
        Error,
    >)
        requires
            start matches Some(s) ==> s.wf(),
            end matches Some(e) ==> e.wf(),
        ensures
            match r {
                Ok(p) => {
                    &&& p.wf()
                    &&& (start matches Some(s) ==> p.start == s)
                    &&& (end matches Some(e) ==> p.end == e)
                    &&& p.interval_days as int == spec_interval(interval_days)
                    &&& (start is None && (end matches Some(e) && p.start@.dn() == e@.dn()
                        - p.interval_days) || start is Some || end is None)
                },
                Err(e) => e == Error::Arithmetic,
            },
            spec_interval(interval_days) > 0x7000_0000 ==> r is Err,
            start is Some && spec_interval(interval_days) <= 0x7000_0000 ==> r is Ok,
            (start is None && (end matches Some(e2) && spec_interval(interval_days) <= 0x7000_0000
                && (r is Ok <==> e2@.dn() - spec_interval(interval_days) >= 0))) || start is Some
                || end is None || spec_interval(interval_days) > 0x7000_0000,
    {
        let interval: u32 = match interval_days {
            Some(d) => d,
            None => 1,
        };
        if interval > 0x7000_0000 {
            return Err(Error::Arithmetic);
        }
        let end_date: Date = match end {
            Some(e) => e,
            None => today(),
        };
        let start_date: Date = match start {
            Some(s) => s,
            None => {
                proof {
                    crate::date::dn_in_range(end_date@);
                }
                let sd = match end_date.add_days(-(interval as i64)) {
                    Some(d) => d,
                    None => {
                        return Err(Error::Arithmetic);
                    },
                };
                proof {
                    crate::date::dn_in_range(sd@);
                }
                sd
            },
        };
        Ok(SearchPeriod { start: start_date, end: end_date, interval_days: interval })
    }
}

/// Today's date in the local time zone.
///
/// Relies on `chrono::Local::now` and `chrono::NaiveDate`'s year, month and
/// day accessors.  The clock is an outside fact, so nothing is promised
/// about the value beyond validity; a date outside the supported calendar
/// falls back to the epoch of the day numbering.
#[verifier::external_body]
pub fn today() -> (r: Date)
    ensures
        r.wf(),
{
    let now = chrono::Local::now().date_naive();
    let y = now.year();
    if !(1600..=9999).contains(&y) {
        return Date::from_ymd(1970, 1, 1).unwrap();
    }
    Date::from_ymd(y as u32, now.month() as u8, now.day() as u8).unwrap()
}

/// A quote provider: accumulates tickers and currency pairs, then loads
/// quote, split and dividend history for a period.  The scraper that talks
/// to the network implements this outside the library; the cache decorates
/// any implementation.
pub trait IScraper {
    /// Validity of the provider's own state; every method keeps it.
    spec fn inv(&self) -> bool;

    /// Clears the accumulated ticker set.
    fn reset(&mut self)
        requires
            old(self).inv(),
        ensures
            final(self).inv(),
    ;

    /// Adds tickers (and their market countries, positionally) to the next
    /// request.
    fn with_ticker(&mut self, tickers: &Vec<String>, countries: Option<&Vec<Country>>)
        requires
            old(self).inv(),
        ensures
            final(self).inv(),
    ;

    /// Adds the synthetic pair ticker for a currency conversion to the next
    /// request.
    fn with_currency(&mut self, from: Currency, to: Currency)
        requires
            old(self).inv(),
        ensures
            final(self).inv(),
    ;

    /// Loads history for the accumulated tickers over the period.  Whatever
    /// the provider answers, the rows handed back are well formed.
    fn load_blocking(&mut self, period: SearchPeriod) -> (r: Result<ScraperData, Error>)
        requires
            old(self).inv(),
            period.wf(),
        ensures
            final(self).inv(),
            r matches Ok(d) ==> d.wf(),
    ;
}

} // verus!
