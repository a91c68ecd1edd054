//! Market-data cache: a decorator around a quote provider.
//!
//! The cache keeps every row ever fetched (the store only grows and is
//! never pruned).  A request is served from the store alone when, for every
//! requested ticker, the stored quotes reach back to the window's start and
//! forward to its end — both boundaries moved to the nearest prior weekday,
//! since markets are closed on weekends.  Otherwise the provider is asked
//! exactly once for the span from the earliest stored date (or the
//! requested start when the store is empty) through today, the answer is
//! merged in with first-seen rows winning, and the request is answered from
//! the grown store.  Either way every series the caller sees — quotes,
//! splits and dividends — is narrowed to exactly the requested tickers and
//! window: callers never see more than they asked for, even though the
//! store retains a superset.

use crate::date::Date;
use crate::scraper::{
    dividends_wf, merge_dividends, merge_quotes, merge_splits, quotes_wf, splits_wf, DividendRow,
    IScraper, QuoteRow, ScraperData, SearchPeriod, SplitRow,
};
use crate::schema::{Country, Currency};
use crate::currency::pair_ticker;
use crate::Error;
use vstd::arithmetic::div_mod::{
    lemma_fundamental_div_mod, lemma_fundamental_div_mod_converse_mod,
    lemma_mod_division_less_than_divisor,
};
use vstd::prelude::*;

verus! {

/// Days to step back from a weekend day: day number 0 was a Saturday.
pub open spec fn weekend_shift(dn: int) -> int {
    if dn % 7 == 0 {
        1
    } else if dn % 7 == 1 {
        2
    } else {
        0
    }
}

/// The nearest weekday on or before `dn`.
pub open spec fn prior_weekday(dn: int) -> int {
    dn - weekend_shift(dn)
}

/// Moving a boundary to the nearest prior weekday is monotone.
pub proof fn lemma_prior_weekday_monotone(a: int, b: int)
    requires
        a <= b,
    ensures
        prior_weekday(a) <= prior_weekday(b),
{
    lemma_mod_division_less_than_divisor(a, 7);
    lemma_mod_division_less_than_divisor(b, 7);
    if b - a >= 2 || a == b {
    } else {
        let ra = a % 7;
        let q = a / 7;
        lemma_fundamental_div_mod(a, 7);
        if ra < 6 {
            lemma_fundamental_div_mod_converse_mod(b, 7, q, ra + 1);
        } else {
            lemma_fundamental_div_mod_converse_mod(b, 7, q + 1, 0);
        }
    }
}

/// The views of a vector of ticker names.
pub open spec fn string_views(s: Seq<String>) -> Seq<Seq<char>>
    decreases s.len(),
{
    if s.len() == 0 {
        Seq::empty()
    } else {
        string_views(s.drop_last()).push(s.last()@)
    }
}

pub proof fn lemma_string_views_index(s: Seq<String>)
    ensures
        string_views(s).len() == s.len(),
        forall|j: int| 0 <= j < s.len() ==> #[trigger] string_views(s)[j] == s[j]@,
    decreases s.len(),
{
    if s.len() > 0 {
        lemma_string_views_index(s.drop_last());
        assert forall|j: int| 0 <= j < s.len() implies #[trigger] string_views(s)[j] == s[j]@ by {
            if j < s.len() - 1 {
                assert(s.drop_last()[j] == s[j]);
                assert(string_views(s.drop_last())[j] == s.drop_last()[j]@);
            }
        }
    }
}

/// The stored quotes cover ticker `t` over `[start, end]` (day numbers):
/// some row reaches back to the adjusted start and some row reaches the
/// adjusted end.
pub open spec fn ticker_covered(
    quotes: Seq<QuoteRow>,
    t: Seq<char>,
    start_dn: int,
    end_dn: int,
) -> bool {
    &&& exists|j: int|
        0 <= j < quotes.len() && (#[trigger] quotes[j])@.ticker == t && quotes[j]@.date.dn()
            <= prior_weekday(start_dn)
    &&& exists|j: int|
        0 <= j < quotes.len() && (#[trigger] quotes[j])@.ticker == t && quotes[j]@.date.dn()
            >= prior_weekday(end_dn)
}

/// Every requested ticker is covered over the window.
pub open spec fn covered(
    quotes: Seq<QuoteRow>,
    tickers: Seq<Seq<char>>,
    start_dn: int,
    end_dn: int,
) -> bool {
    forall|k: int|
        0 <= k < tickers.len() ==> ticker_covered(quotes, #[trigger] tickers[k], start_dn, end_dn)
}

/// Cache coverage short-circuit: once the store covers a ticker set over a
/// window, it covers every subset of the tickers over every sub-window, so
/// a second, narrower request never reaches the underlying provider.
pub proof fn lemma_coverage_monotone(
    quotes: Seq<QuoteRow>,
    ts1: Seq<Seq<char>>,
    ts2: Seq<Seq<char>>,
    s1: int,
    e1: int,
    s2: int,
    e2: int,
)
    requires
        covered(quotes, ts1, s1, e1),
        forall|k: int| 0 <= k < ts2.len() ==> ts1.contains(#[trigger] ts2[k]),
        s1 <= s2,
        e2 <= e1,
    ensures
        covered(quotes, ts2, s2, e2),
{
    lemma_prior_weekday_monotone(s1, s2);
    lemma_prior_weekday_monotone(e2, e1);
    assert forall|k: int| 0 <= k < ts2.len() implies ticker_covered(
        quotes,
        #[trigger] ts2[k],
        s2,
        e2,
    ) by {
        let t = ts2[k];
        let k1 = choose|k1: int| 0 <= k1 < ts1.len() && ts1[k1] == t;
        assert(ticker_covered(quotes, ts1[k1], s1, e1));
    }
}

/// A ticker name occurs in the request list.
pub open spec fn has_ticker(tickers: Seq<String>, t: Seq<char>) -> bool {
    exists|j: int| 0 <= j < tickers.len() && (#[trigger] tickers[j])@ == t
}

/// The quote rows for the requested tickers inside the window.
pub open spec fn filter_quotes(
    s: Seq<QuoteRow>,
    tickers: Seq<String>,
    start_dn: int,
    end_dn: int,
) -> Seq<QuoteRow>
    decreases s.len(),
{
    if s.len() == 0 {
        Seq::empty()
    } else {
        let rest = filter_quotes(s.drop_last(), tickers, start_dn, end_dn);
        let row = s.last();
        if has_ticker(tickers, row@.ticker) && start_dn <= row@.date.dn() && row@.date.dn()
            <= end_dn {
            rest.push(row)
        } else {
            rest
        }
    }
}

/// The dividend rows for the requested tickers inside the window.
pub open spec fn filter_dividends(
    s: Seq<DividendRow>,
    tickers: Seq<String>,
    start_dn: int,
    end_dn: int,
) -> Seq<DividendRow>
    decreases s.len(),
{
    if s.len() == 0 {
        Seq::empty()
    } else {
        let rest = filter_dividends(s.drop_last(), tickers, start_dn, end_dn);
        let row = s.last();
        if has_ticker(tickers, row.ticker@) && start_dn <= row.date@.dn() && row.date@.dn()
            <= end_dn {
            rest.push(row)
        } else {
            rest
        }
    }
}

/// The split rows for the requested tickers inside the window.
pub open spec fn filter_splits(
    s: Seq<SplitRow>,
    tickers: Seq<String>,
    start_dn: int,
    end_dn: int,
) -> Seq<SplitRow>
    decreases s.len(),
{
    if s.len() == 0 {
        Seq::empty()
    } else {
        let rest = filter_splits(s.drop_last(), tickers, start_dn, end_dn);
        let row = s.last();
        if has_ticker(tickers, row.ticker@) && start_dn <= row.date@.dn() && row.date@.dn()
            <= end_dn {
            rest.push(row)
        } else {
            rest
        }
    }
}

/// Whether `t` occurs in the ticker list.
fn has_ticker_exec(tickers: &Vec<String>, t: &String) -> (r: bool)
    ensures
        r == has_ticker(tickers@, t@),
{
    let n = tickers.len();
    let mut i: usize = 0;
    let mut found = false;
    while i < n
        invariant
            n == tickers.len(),
            i <= n,
            found == (exists|j: int| 0 <= j < i && (#[trigger] tickers@[j])@ == t@),
        decreases n - i,
    {
        if tickers[i] == *t {
            found = true;
        }
        i = i + 1;
    }
    found
}

/// The caching decorator: wraps any provider and keeps everything it ever
/// returned.
#[derive(Debug)]
pub struct Cache<T> {
    /// The decorated provider.
    pub inner: T,
    /// The persisted store, loaded by the caller before the first request
    /// and written back after each one.
    pub data: ScraperData,
    /// Tickers accumulated for the next request; cleared after every call.
    pub tickers: Vec<String>,
}

impl<T: IScraper> Cache<T> {
    /// Validity: the store rows are well formed and the inner provider's
    /// own invariant holds.
    pub open spec fn wf(self) -> bool {
        self.data.wf() && self.inner.inv()
    }

    /// Wraps `inner`, starting from a store the caller loaded; a missing or
    /// unreadable store is handed in as the empty one.
    pub fn new(inner: T, data: ScraperData) -> (r: Cache<T>)
        requires
            data.wf(),
            inner.inv(),
        ensures
            r.inner == inner,
            r.data == data,
            r.tickers@ == Seq::<String>::empty(),
            r.wf(),
    {
        Cache { inner, data, tickers: Vec::new() }
    }

    /// Whether the store already covers all accumulated tickers over the
    /// window.
    fn cache_valid(&self, start_dn: i64, end_dn: i64) -> (r: bool)
        requires
            self.wf(),
            0 <= start_dn,
            0 <= end_dn,
        ensures
            r == covered(self.data.quotes@, string_views(self.tickers@), start_dn as int, end_dn
                as int),
    {
        proof {
            lemma_string_views_index(self.tickers@);
        }
        let quotes = &self.data.quotes;
        let nq = quotes.len();
        let nt = self.tickers.len();
        let pw_start = prior_weekday_exec(start_dn);
        let pw_end = prior_weekday_exec(end_dn);
        let mut k: usize = 0;
        while k < nt
            invariant
                nt == self.tickers.len(),
                nq == quotes.len(),
                quotes == self.data.quotes,
                self.wf(),
                k <= nt,
                pw_start as int == prior_weekday(start_dn as int),
                pw_end as int == prior_weekday(end_dn as int),
                string_views(self.tickers@).len() == nt,
                forall|j: int|
                    0 <= j < nt ==> #[trigger] string_views(self.tickers@)[j]
                        == self.tickers@[j]@,
                forall|k2: int|
                    0 <= k2 < k ==> ticker_covered(
                        self.data.quotes@,
                        #[trigger] string_views(self.tickers@)[k2],
                        start_dn as int,
                        end_dn as int,
                    ),
            decreases nt - k,
        {
            let t = &self.tickers[k];
            let mut back = false;
            let mut fwd = false;
            let mut j: usize = 0;
            while j < nq
                invariant
                    nq == quotes.len(),
                    quotes == self.data.quotes,
                    self.wf(),
                    j <= nq,
                    pw_start as int == prior_weekday(start_dn as int),
                    pw_end as int == prior_weekday(end_dn as int),
                    t == &self.tickers@[k as int],
                    k < nt == self.tickers.len(),
                    back == (exists|j2: int|
                        0 <= j2 < j && (#[trigger] quotes@[j2])@.ticker == t@
                            && quotes@[j2]@.date.dn() <= prior_weekday(start_dn as int)),
                    fwd == (exists|j2: int|
                        0 <= j2 < j && (#[trigger] quotes@[j2])@.ticker == t@
                            && quotes@[j2]@.date.dn() >= prior_weekday(end_dn as int)),
                decreases nq - j,
            {
                let row = &quotes[j];
                if row.ticker == *t {
                    let dn = row.date.day_number();
                    if dn <= pw_start {
                        back = true;
                    }
                    if dn >= pw_end {
                        fwd = true;
                    }
                }
                proof {
                    if back && !(exists|j2: int|
                        0 <= j2 < j + 1 && (#[trigger] quotes@[j2])@.ticker == t@
                            && quotes@[j2]@.date.dn() <= prior_weekday(start_dn as int)) {
                        assert(false);
                    }
                }
                j = j + 1;
            }
            if !(back && fwd) {
                proof {
                    assert(!ticker_covered(
                        self.data.quotes@,
                        string_views(self.tickers@)[k as int],
                        start_dn as int,
                        end_dn as int,
                    ));
                }
                return false;
            }
            k = k + 1;
        }
        true
    }
}

impl<T: IScraper> Cache<T> {
    /// Narrows the store to the request: every series down to the
    /// accumulated tickers and the window.
    fn filter_window(&self, start_dn: i64, end_dn: i64) -> (r: ScraperData)
        requires
            self.wf(),
        ensures
            r.quotes@ == filter_quotes(
                self.data.quotes@,
                self.tickers@,
                start_dn as int,
                end_dn as int,
            ),
            r.dividends@ == filter_dividends(
                self.data.dividends@,
                self.tickers@,
                start_dn as int,
                end_dn as int,
            ),
            r.splits@ == filter_splits(
                self.data.splits@,
                self.tickers@,
                start_dn as int,
                end_dn as int,
            ),
            r.wf(),
    {
        let nq = self.data.quotes.len();
        let mut quotes: Vec<QuoteRow> = Vec::new();
        let mut i: usize = 0;
        while i < nq
            invariant
                nq == self.data.quotes.len(),
                i <= nq,
                self.wf(),
                quotes_wf(quotes@),
                quotes@ == filter_quotes(
                    self.data.quotes@.take(i as int),
                    self.tickers@,
                    start_dn as int,
                    end_dn as int,
                ),
            decreases nq - i,
        {
            proof {
                self.data.quotes@.lemma_take_succ_push(i as int);
                assert(self.data.quotes@.take(i as int).push(
                    self.data.quotes@[i as int],
                ).drop_last() =~= self.data.quotes@.take(i as int));
            }
            let row = &self.data.quotes[i];
            if has_ticker_exec(&self.tickers, &row.ticker) {
                let dn = row.date.day_number();
                if start_dn <= dn && dn <= end_dn {
                    quotes.push(row.clone());
                }
            }
            i = i + 1;
        }
        let nd = self.data.dividends.len();
        let mut dividends: Vec<DividendRow> = Vec::new();
        let mut i: usize = 0;
        while i < nd
            invariant
                nd == self.data.dividends.len(),
                i <= nd,
                self.wf(),
                dividends_wf(dividends@),
                dividends@ == filter_dividends(
                    self.data.dividends@.take(i as int),
                    self.tickers@,
                    start_dn as int,
                    end_dn as int,
                ),
            decreases nd - i,
        {
            proof {
                self.data.dividends@.lemma_take_succ_push(i as int);
                assert(self.data.dividends@.take(i as int).push(
                    self.data.dividends@[i as int],
                ).drop_last() =~= self.data.dividends@.take(i as int));
            }
            let row = &self.data.dividends[i];
            if has_ticker_exec(&self.tickers, &row.ticker) {
                let dn = row.date.day_number();
                if start_dn <= dn && dn <= end_dn {
                    dividends.push(row.clone());
                }
            }
            i = i + 1;
        }
        let ns = self.data.splits.len();
        let mut splits: Vec<SplitRow> = Vec::new();
        let mut i: usize = 0;
        while i < ns
            invariant
                ns == self.data.splits.len(),
                i <= ns,
                self.wf(),
                splits_wf(splits@),
                splits@ == filter_splits(
                    self.data.splits@.take(i as int),
                    self.tickers@,
                    start_dn as int,
                    end_dn as int,
                ),
            decreases ns - i,
        {
            proof {
                self.data.splits@.lemma_take_succ_push(i as int);
                assert(self.data.splits@.take(i as int).push(
                    self.data.splits@[i as int],
                ).drop_last() =~= self.data.splits@.take(i as int));
            }
            let row = &self.data.splits[i];
            if has_ticker_exec(&self.tickers, &row.ticker) {
                let dn = row.date.day_number();
                if start_dn <= dn && dn <= end_dn {
                    splits.push(row.clone());
                }
            }
            i = i + 1;
        }
        proof {
            assert(self.data.quotes@.take(nq as int) =~= self.data.quotes@);
            assert(self.data.dividends@.take(nd as int) =~= self.data.dividends@);
            assert(self.data.splits@.take(ns as int) =~= self.data.splits@);
        }
        ScraperData { quotes, splits, dividends }
    }

    /// The earliest stored quote date, where the delta fetch starts: the
    /// minimum date over the stored quotes.
    fn earliest_quote(&self) -> (r: Option<Date>)
        requires
            self.wf(),
        ensures
            match r {
                Some(d) => {
                    &&& d.wf()
                    &&& self.data.quotes@.len() > 0
                    &&& forall|j: int|
                        0 <= j < self.data.quotes@.len() ==> d@.dn() <= (
                        #[trigger] self.data.quotes@[j])@.date.dn()
                    &&& exists|j: int|
                        0 <= j < self.data.quotes@.len() && (#[trigger] self.data.quotes@[j])@.date.dn()
                            == d@.dn()
                },
                None => self.data.quotes@.len() == 0,
            },
    {
        let nq = self.data.quotes.len();
        if nq == 0 {
            return None;
        }
        let mut best: Date = self.data.quotes[0].date;
        let mut best_dn: i64 = best.day_number();
        let mut i: usize = 1;
        while i < nq
            invariant
                nq == self.data.quotes.len(),
                1 <= i <= nq,
                self.wf(),
                best.wf(),
                best_dn as int == best@.dn(),
                forall|j: int|
                    0 <= j < i ==> best@.dn() <= (#[trigger] self.data.quotes@[j])@.date.dn(),
                exists|j: int|
                    0 <= j < i && (#[trigger] self.data.quotes@[j])@.date.dn() == best@.dn(),
            decreases nq - i,
        {
            let dn = self.data.quotes[i].date.day_number();
            if dn < best_dn {
                best = self.data.quotes[i].date;
                best_dn = dn;
            }
            i = i + 1;
        }
        Some(best)
    }

    /// Serves a request: from the store alone when it covers every
    /// accumulated ticker over the window, otherwise after one delta fetch
    /// from the earliest stored date (or the requested start) through
    /// today, merged into the store with first-seen rows winning.  Every
    /// series of the result is narrowed to the request either way, and the
    /// accumulated tickers are cleared.  A failed delta fetch is fatal.
    pub fn load(&mut self, period: SearchPeriod) -> (r: Result<ScraperData, Error>)
        requires
            old(self).wf(),
            period.wf(),
        ensures
            final(self).wf(),
            final(self).tickers@ == Seq::<String>::empty(),
            r matches Ok(d) ==> d.wf(),
            // a covered request never reaches the provider: the store is
            // left exactly as it was and the call succeeds
            covered(
                old(self).data.quotes@,
                string_views(old(self).tickers@),
                period.start@.dn(),
                period.end@.dn(),
            ) ==> (final(self).data == old(self).data && r is Ok),
            // the store only grows: afterwards it is the old store with
            // some fetched delta merged in
            exists|dq: Seq<QuoteRow>, ds: Seq<SplitRow>, dd: Seq<DividendRow>|
                {
                    &&& final(self).data.quotes@ == merge_quotes(old(self).data.quotes@, dq)
                    &&& final(self).data.splits@ == merge_splits(old(self).data.splits@, ds)
                    &&& final(self).data.dividends@ == merge_dividends(
                        old(self).data.dividends@,
                        dd,
                    )
                },
            // the caller sees exactly the requested tickers and window
            r matches Ok(out) ==> {
                &&& out.quotes@ == filter_quotes(
                    final(self).data.quotes@,
                    old(self).tickers@,
                    period.start@.dn(),
                    period.end@.dn(),
                )
                &&& out.dividends@ == filter_dividends(
                    final(self).data.dividends@,
                    old(self).tickers@,
                    period.start@.dn(),
                    period.end@.dn(),
                )
                &&& out.splits@ == filter_splits(
                    final(self).data.splits@,
                    old(self).tickers@,
                    period.start@.dn(),
                    period.end@.dn(),
                )
            },
            r matches Err(e) ==> e == Error::Arithmetic || e == Error::Fetch,
    {
        let start_dn = period.start.day_number();
        let end_dn = period.end.day_number();
        proof {
            let ghost eq: Seq<QuoteRow> = Seq::empty();
            let ghost es: Seq<SplitRow> = Seq::empty();
            let ghost ed: Seq<DividendRow> = Seq::empty();
            assert(merge_quotes(self.data.quotes@, eq) == self.data.quotes@);
            assert(merge_splits(self.data.splits@, es) == self.data.splits@);
            assert(merge_dividends(self.data.dividends@, ed) == self.data.dividends@);
        }
        if !self.cache_valid(start_dn, end_dn) {
            let fetch_start = match self.earliest_quote() {
                Some(d) => d,
                None => period.start,
            };
            let p2 = match SearchPeriod::new(Some(fetch_start), None, None) {
                Ok(p) => p,
                Err(e) => {
                    self.tickers.clear();
                    return Err(e);
                },
            };
            let fetched = match self.inner.load_blocking(p2) {
                Ok(d) => d,
                Err(_) => {
                    self.tickers.clear();
                    return Err(Error::Fetch);
                },
            };
            self.data.concat_quotes(fetched.quotes);
            self.data.concat_splits(fetched.splits);
            self.data.concat_dividends(fetched.dividends);
        }
        let out = self.filter_window(start_dn, end_dn);
        self.inner.reset();
        self.tickers.clear();
        Ok(out)
    }
}

impl<T: IScraper> IScraper for Cache<T> {
    open spec fn inv(&self) -> bool {
        self.wf()
    }

    fn reset(&mut self) {
        self.inner.reset();
        self.tickers.clear();
    }

    fn with_ticker(&mut self, tickers: &Vec<String>, countries: Option<&Vec<Country>>) {
        let n = tickers.len();
        let mut i: usize = 0;
        while i < n
            invariant
                n == tickers.len(),
                i <= n,
                self.wf(),
            decreases n - i,
        {
            self.tickers.push(tickers[i].clone());
            i = i + 1;
        }
        self.inner.with_ticker(tickers, countries);
    }

    fn with_currency(&mut self, from: Currency, to: Currency) {
        let value = pair_ticker(from, to);
        if !has_ticker_exec(&self.tickers, &value) {
            self.tickers.push(value);
            self.inner.with_currency(from, to);
        }
    }

    fn load_blocking(&mut self, period: SearchPeriod) -> Result<ScraperData, Error> {
        self.load(period)
    }
}

/// The nearest weekday on or before `dn`, executably.
fn prior_weekday_exec(dn: i64) -> (r: i64)
    requires
        0 <= dn,
    ensures
        r as int == prior_weekday(dn as int),
{
    proof {
        lemma_mod_division_less_than_divisor(dn as int, 7);
    }
    let m = dn % 7;
    if m == 0 {
        dn - 1
    } else if m == 1 {
        dn - 2
    } else {
        dn
    }
}

} // verus!
