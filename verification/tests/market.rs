//! The currency normalizer and the market-data cache, against a scripted
//! quote provider.

use reis_finance::cache::Cache;
use reis_finance::currency::{normalize, normalize_with_quotes};
use reis_finance::date::Date;
use reis_finance::ledger::Order;
use reis_finance::rational::Rat;
use reis_finance::scraper::{IScraper, QuoteRow, ScraperData, SearchPeriod};
use reis_finance::schema::{Action, Column, Country, Currency};
use reis_finance::Error;

/// A scripted provider: serves fixed prices for whatever was registered.
struct MockScraper {
    tickers: Vec<String>,
    loads: usize,
}

impl MockScraper {
    fn new() -> MockScraper {
        MockScraper { tickers: Vec::new(), loads: 0 }
    }

    fn price_of(ticker: &str) -> Rat {
        match ticker {
            "GOOGL" => Rat::new(3387, 100),
            "APPL" => Rat::new(10395, 100),
            "USD/GBP" => Rat::new(87, 100),
            "GBP/USD" => Rat::new(123, 100),
            "BRL/USD" => Rat::new(21, 100),
            "BRL/GBP" => Rat::new(18, 100),
            _ => panic!("no scripted price for {ticker}"),
        }
    }
}

impl IScraper for MockScraper {
    fn inv(&self) -> bool {
        true
    }

    fn reset(&mut self) {
        self.tickers.clear();
    }

    fn with_ticker(&mut self, tickers: &Vec<String>, _countries: Option<&Vec<Country>>) {
        for t in tickers {
            self.tickers.push(t.clone());
        }
    }

    fn with_currency(&mut self, from: Currency, to: Currency) {
        self.tickers.push(format!("{}/{}", from.as_str(), to.as_str()));
    }

    fn load_blocking(&mut self, _period: SearchPeriod) -> Result<ScraperData, Error> {
        self.loads += 1;
        let date = Date::from_ymd(2022, 10, 1).unwrap();
        let mut quotes: Vec<QuoteRow> = Vec::new();
        for t in &self.tickers {
            quotes.push(QuoteRow {
                date,
                ticker: t.clone(),
                price: MockScraper::price_of(t),
                currency: Currency::USD,
            });
        }
        self.tickers.clear();
        Ok(ScraperData::new(quotes, Vec::new(), Vec::new()))
    }
}

fn money_order(ticker: &str, action: Action, amount: Rat, currency: Currency) -> Order {
    Order {
        date: Date::from_ymd(2024, 1, 2).unwrap(),
        action,
        ticker: ticker.to_owned(),
        qty: Rat::zero(),
        price: Rat::zero(),
        amount,
        currency,
        country: Country::Uk,
    }
}

fn currency_orders() -> Vec<Order> {
    vec![
        money_order("CASH", Action::Deposit, Rat::new(1033510, 100), Currency::USD),
        money_order("GOOGL", Action::Buy, Rat::new(439745, 100), Currency::BRL),
        money_order("GOOGL", Action::Buy, Rat::new(209456, 100), Currency::GBP),
        money_order("GOOGL", Action::Sell, Rat::new(356486, 100), Currency::USD),
        money_order("GOOGL", Action::Dividend, Rat::new(7687, 100), Currency::GBP),
        money_order("CASH", Action::Withdraw, Rat::new(15000, 100), Currency::USD),
        money_order("CASH", Action::Tax, Rat::new(398, 100), Currency::BRL),
        money_order("CASH", Action::Fee, Rat::new(156, 100), Currency::GBP),
    ]
}

fn amounts_rounded(rows: &[Order]) -> Vec<Rat> {
    rows.iter().map(|o| o.amount.round_dp(2).unwrap()).collect()
}

#[test]
fn currency_normilize_to_usd() {
    let mut scraper = MockScraper::new();
    let cols = vec![Column::Amount];
    let out = normalize(currency_orders(), &cols, Currency::USD, &mut scraper, None).unwrap();
    let amounts = amounts_rounded(&out);
    let expected = [
        Rat::new(1033510, 100),
        Rat::new(92346, 100),
        Rat::new(257631, 100),
        Rat::new(356486, 100),
        Rat::new(9455, 100),
        Rat::new(15000, 100),
        Rat::new(84, 100),
        Rat::new(192, 100),
    ];
    assert_eq!(amounts.len(), expected.len());
    for (got, want) in amounts.iter().zip(expected.iter()) {
        assert_eq!(got, want);
    }
    for o in &out {
        assert_eq!(o.currency, Currency::USD);
    }
}

#[test]
fn currency_normilize_to_gbp() {
    let mut scraper = MockScraper::new();
    let cols = vec![Column::Amount];
    let out = normalize(currency_orders(), &cols, Currency::GBP, &mut scraper, None).unwrap();
    let amounts = amounts_rounded(&out);
    let expected = [
        Rat::new(899154, 100),
        Rat::new(79154, 100),
        Rat::new(209456, 100),
        Rat::new(310143, 100),
        Rat::new(7687, 100),
        Rat::new(13050, 100),
        Rat::new(72, 100),
        Rat::new(156, 100),
    ];
    for (got, want) in amounts.iter().zip(expected.iter()) {
        assert_eq!(got, want);
    }
    for o in &out {
        assert_eq!(o.currency, Currency::GBP);
    }
}

/// Normalizing a table whose rows already carry the target currency hands
/// the table back unchanged and never consults the quote source.
#[test]
fn normilize_to_same_currency() {
    let mut scraper = MockScraper::new();
    let orders: Vec<Order> = currency_orders()
        .into_iter()
        .map(|mut o| {
            o.currency = Currency::USD;
            o
        })
        .collect();
    let before: Vec<Rat> = orders.iter().map(|o| o.amount).collect();
    let cols = vec![Column::Amount];
    let out = normalize(orders, &cols, Currency::USD, &mut scraper, None).unwrap();
    assert_eq!(scraper.loads, 0);
    for (o, want) in out.iter().zip(before.iter()) {
        assert_eq!(&o.amount, want);
        assert_eq!(o.currency, Currency::USD);
    }
}

/// Converting 150.00 USD to GBP at a quoted USD/GBP rate of 0.87 yields
/// exactly 130.50.
#[test]
fn currency_quoted_conversion() {
    let quotes = vec![QuoteRow {
        date: Date::from_ymd(2024, 1, 2).unwrap(),
        ticker: "USD/GBP".to_owned(),
        price: Rat::new(87, 100),
        currency: Currency::NA,
    }];
    let table = vec![money_order("CASH", Action::Deposit, Rat::new(15000, 100), Currency::USD)];
    let cols = vec![Column::Amount];
    let out = normalize_with_quotes(table, &cols, Currency::GBP, &quotes).unwrap();
    assert_eq!(out[0].amount, Rat::new(13050, 100));
    assert_eq!(out[0].currency, Currency::GBP);
}

/// Converting into another currency and back with exactly reciprocal rates
/// reproduces the original amounts.
#[test]
fn currency_round_trip() {
    let date = Date::from_ymd(2024, 1, 2).unwrap();
    let there = vec![QuoteRow {
        date,
        ticker: "USD/GBP".to_owned(),
        price: Rat::new(4, 5),
        currency: Currency::NA,
    }];
    let back = vec![QuoteRow {
        date,
        ticker: "GBP/USD".to_owned(),
        price: Rat::new(5, 4),
        currency: Currency::NA,
    }];
    let table = vec![
        money_order("CASH", Action::Deposit, Rat::new(1033510, 100), Currency::USD),
        money_order("GOOGL", Action::Buy, Rat::new(439745, 100), Currency::USD),
    ];
    let before: Vec<Rat> = table.iter().map(|o| o.amount).collect();
    let cols = vec![Column::Amount];
    let mid = normalize_with_quotes(table, &cols, Currency::GBP, &there).unwrap();
    let out = normalize_with_quotes(mid, &cols, Currency::USD, &back).unwrap();
    for (o, want) in out.iter().zip(before.iter()) {
        assert_eq!(&o.amount, want);
    }
}

/// A provider that serves a fixed span and counts how often it was asked.
struct SpanScraper {
    tickers: Vec<String>,
    loads: usize,
}

impl IScraper for SpanScraper {
    fn inv(&self) -> bool {
        true
    }

    fn reset(&mut self) {
        self.tickers.clear();
    }

    fn with_ticker(&mut self, tickers: &Vec<String>, _countries: Option<&Vec<Country>>) {
        for t in tickers {
            self.tickers.push(t.clone());
        }
    }

    fn with_currency(&mut self, from: Currency, to: Currency) {
        self.tickers.push(format!("{}/{}", from.as_str(), to.as_str()));
    }

    fn load_blocking(&mut self, _period: SearchPeriod) -> Result<ScraperData, Error> {
        self.loads += 1;
        let mut quotes: Vec<QuoteRow> = Vec::new();
        for t in &self.tickers {
            for (y, m, d) in [(2024u32, 1u8, 1u8), (2024, 6, 1)] {
                quotes.push(QuoteRow {
                    date: Date::from_ymd(y, m, d).unwrap(),
                    ticker: t.clone(),
                    price: Rat::new(1, 1),
                    currency: Currency::USD,
                });
            }
        }
        self.tickers.clear();
        Ok(ScraperData::new(quotes, Vec::new(), Vec::new()))
    }
}

/// After a first call that fetched the span, a second call for a subset
/// range of the same ticker is served from the store: the underlying
/// provider is not asked again.
#[test]
fn cache_coverage_short_circuit() {
    let inner = SpanScraper { tickers: Vec::new(), loads: 0 };
    let mut cache = Cache::new(inner, ScraperData::empty());
    let x = vec!["X".to_owned()];

    cache.with_ticker(&x, None);
    let p1 = SearchPeriod::new(
        Date::from_ymd(2024, 1, 1),
        Date::from_ymd(2024, 6, 1),
        Some(1),
    )
    .unwrap();
    let first = cache.load_blocking(p1).unwrap();
    assert_eq!(cache.inner.loads, 1);
    assert_eq!(first.quotes.len(), 2);

    cache.with_ticker(&x, None);
    let p2 = SearchPeriod::new(
        Date::from_ymd(2024, 2, 1),
        Date::from_ymd(2024, 3, 1),
        Some(1),
    )
    .unwrap();
    let second = cache.load_blocking(p2).unwrap();
    // the store already covered the narrower request: no second fetch
    assert_eq!(cache.inner.loads, 1);
    // and the caller sees only the requested window
    assert_eq!(second.quotes.len(), 0);
}

/// The rate table injects the identity rate for the target and defaults a
/// never-quoted pair to one; a quoted pair carries its latest price.
#[test]
fn exchange_rate_table() {
    let quotes = vec![
        QuoteRow {
            date: Date::from_ymd(2024, 1, 2).unwrap(),
            ticker: "USD/GBP".to_owned(),
            price: Rat::new(85, 100),
            currency: Currency::NA,
        },
        QuoteRow {
            date: Date::from_ymd(2024, 1, 3).unwrap(),
            ticker: "USD/GBP".to_owned(),
            price: Rat::new(87, 100),
            currency: Currency::NA,
        },
    ];
    let currencies = vec![Currency::USD, Currency::GBP, Currency::EUR];
    let as_of = Date::from_ymd(2024, 1, 3).unwrap();
    let rates = reis_finance::currency::exchange_rates(&quotes, &currencies, Currency::GBP, as_of);
    assert_eq!(rates.len(), 3);
    // the later of the two quotes wins
    assert_eq!(rates[0].from, Currency::USD);
    assert_eq!(rates[0].rate, Rat::new(87, 100));
    // the target converts at one
    assert_eq!(rates[1].from, Currency::GBP);
    assert_eq!(rates[1].rate, Rat::new(1, 1));
    // a pair that was never quoted degrades softly to one
    assert_eq!(rates[2].from, Currency::EUR);
    assert_eq!(rates[2].rate, Rat::new(1, 1));
    assert_eq!(rates[2].to, Currency::GBP);
    assert_eq!(rates[2].as_of, as_of);
}

/// An empty table is rejected outright.
#[test]
fn normalize_refuses_empty_table() {
    let mut scraper = MockScraper::new();
    let cols = vec![Column::Amount];
    let err = normalize(Vec::new(), &cols, Currency::USD, &mut scraper, None).unwrap_err();
    assert_eq!(err, Error::EmptyTable);
}
