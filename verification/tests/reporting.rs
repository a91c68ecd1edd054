//! The reporting layer: portfolio stages, uninvested cash, dividend
//! aggregation and the year-month pivot, on the reference ledger.

use reis_finance::date::Date;
use reis_finance::dividends::Dividends;
use reis_finance::ledger::Order;
use reis_finance::portfolio::{Portfolio, PortfolioRow};
use reis_finance::rational::Rat;
use reis_finance::scraper::{IScraper, QuoteRow, ScraperData, SearchPeriod};
use reis_finance::schema::{Action, Country, Currency};
use reis_finance::uninvested::Cash;
use reis_finance::utils::generate_mocking_orders;
use reis_finance::Error;

struct MockScraper {
    tickers: Vec<String>,
}

impl MockScraper {
    fn new() -> MockScraper {
        MockScraper { tickers: Vec::new() }
    }

    fn price_of(ticker: &str) -> Rat {
        match ticker {
            "GOOGL" => Rat::new(3387, 100),
            "APPL" => Rat::new(10395, 100),
            "USD/GBP" => Rat::new(87, 100),
            "GBP/USD" => Rat::new(123, 100),
            "BRL/USD" => Rat::new(21, 100),
            "BRL/GBP" => Rat::new(18, 100),
            _ => panic!("no scripted price for {ticker}"),
        }
    }
}

impl IScraper for MockScraper {
    fn inv(&self) -> bool {
        true
    }

    fn reset(&mut self) {
        self.tickers.clear();
    }

    fn with_ticker(&mut self, tickers: &Vec<String>, _countries: Option<&Vec<Country>>) {
        for t in tickers {
            self.tickers.push(t.clone());
        }
    }

    fn with_currency(&mut self, from: Currency, to: Currency) {
        self.tickers.push(format!("{}/{}", from.as_str(), to.as_str()));
    }

    fn load_blocking(&mut self, _period: SearchPeriod) -> Result<ScraperData, Error> {
        let date = Date::from_ymd(2022, 10, 1).unwrap();
        let mut quotes: Vec<QuoteRow> = Vec::new();
        for t in &self.tickers {
            quotes.push(QuoteRow {
                date,
                ticker: t.clone(),
                price: MockScraper::price_of(t),
                currency: Currency::USD,
            });
        }
        self.tickers.clear();
        Ok(ScraperData::new(quotes, Vec::new(), Vec::new()))
    }
}

fn market_data() -> ScraperData {
    let mut scraper = MockScraper::new();
    scraper.with_ticker(&vec!["GOOGL".to_owned(), "APPL".to_owned()], None);
    scraper
        .load_blocking(SearchPeriod::new(None, None, None).unwrap())
        .unwrap()
}

fn sorted_rows(mut rows: Vec<PortfolioRow>) -> Vec<PortfolioRow> {
    rows.sort_by(|a, b| a.ticker.cmp(&b.ticker));
    rows
}

#[test]
fn portfolio_with_quotes_success() {
    let data = market_data();
    let rows = Portfolio::from_orders(generate_mocking_orders(), None)
        .unwrap()
        .with_quotes(&data.quotes)
        .unwrap()
        .collect();
    let rows = sorted_rows(rows);
    assert_eq!(rows.len(), 2);
    assert_eq!(rows[0].ticker, "APPL");
    assert_eq!(rows[0].amount, Rat::new(2020236, 1000));
    assert_eq!(rows[0].accrued_qty, Rat::new(132, 10));
    assert_eq!(rows[0].market_price, Rat::new(10395, 100));
    assert_eq!(rows[1].ticker, "GOOGL");
    assert_eq!(rows[1].amount, Rat::new(15414, 10));
    assert_eq!(rows[1].accrued_qty, Rat::new(20, 1));
    assert_eq!(rows[1].market_price, Rat::new(3387, 100));
}

#[test]
fn portfolio_with_average_price_success() {
    let data = market_data();
    let rows = Portfolio::from_orders(generate_mocking_orders(), None)
        .unwrap()
        .with_quotes(&data.quotes)
        .unwrap()
        .with_average_price()
        .unwrap()
        .collect();
    let rows = sorted_rows(rows);
    assert_eq!(rows.len(), 2);
    assert_eq!(rows[0].ticker, "APPL");
    assert_eq!(rows[0].amount, Rat::new(1293996, 1000));
    assert_eq!(rows[0].accrued_qty, Rat::new(132, 10));
    assert_eq!(rows[0].market_price, Rat::new(10395, 100));
    assert_eq!(rows[0].average_price, Rat::new(9803, 100));
    assert_eq!(rows[1].ticker, "GOOGL");
    assert_eq!(rows[1].amount, Rat::new(6910, 10));
    assert_eq!(rows[1].accrued_qty, Rat::new(10, 1));
    assert_eq!(rows[1].market_price, Rat::new(3387, 100));
    assert_eq!(rows[1].average_price, Rat::new(6910, 100));
}

#[test]
fn portfolio_with_normalized_currency() {
    let data = market_data();
    let mut scraper = MockScraper::new();
    let rows = Portfolio::from_orders(generate_mocking_orders(), None)
        .unwrap()
        .with_quotes(&data.quotes)
        .unwrap()
        .with_average_price()
        .unwrap()
        .normalize_currency(&mut scraper, Currency::GBP)
        .unwrap()
        .round(2)
        .unwrap()
        .collect();
    let rows = sorted_rows(rows);
    assert_eq!(rows.len(), 2);
    assert_eq!(rows[0].ticker, "APPL");
    assert_eq!(rows[0].amount, Rat::new(112578, 100));
    assert_eq!(rows[0].accrued_qty, Rat::new(132, 10));
    assert_eq!(rows[0].market_price, Rat::new(9044, 100));
    assert_eq!(rows[0].average_price, Rat::new(8529, 100));
    assert_eq!(rows[1].ticker, "GOOGL");
    assert_eq!(rows[1].amount, Rat::new(60117, 100));
    assert_eq!(rows[1].accrued_qty, Rat::new(10, 1));
    assert_eq!(rows[1].market_price, Rat::new(2947, 100));
    assert_eq!(rows[1].average_price, Rat::new(6012, 100));
}

#[test]
fn portfolio_with_dividends_success() {
    let data = market_data();
    let dividends = vec![
        reis_finance::dividends::TickerDividends {
            ticker: "GOOGL".to_owned(),
            dividends: Rat::new(145, 100),
        },
        reis_finance::dividends::TickerDividends {
            ticker: "APPL".to_owned(),
            dividends: Rat::new(984, 100),
        },
    ];
    let rows = Portfolio::from_orders(generate_mocking_orders(), None)
        .unwrap()
        .with_quotes(&data.quotes)
        .unwrap()
        .with_average_price()
        .unwrap()
        .with_dividends(dividends)
        .collect();
    let rows = sorted_rows(rows);
    assert_eq!(rows[0].ticker, "APPL");
    assert_eq!(rows[0].dividends, Rat::new(984, 100));
    assert_eq!(rows[1].ticker, "GOOGL");
    assert_eq!(rows[1].dividends, Rat::new(145, 100));
}

#[test]
fn portfolio_with_capital_gain_success() {
    let data = market_data();
    let rows = Portfolio::from_orders(generate_mocking_orders(), None)
        .unwrap()
        .with_quotes(&data.quotes)
        .unwrap()
        .with_average_price()
        .unwrap()
        .paper_profit()
        .unwrap()
        .round(4)
        .unwrap()
        .collect();
    let rows = sorted_rows(rows);
    assert_eq!(rows[0].ticker, "APPL");
    assert_eq!(rows[0].market_value, Rat::new(137214, 100));
    assert_eq!(rows[0].paper_profit, Rat::new(78144, 1000));
    assert_eq!(rows[0].paper_profit_rate, Rat::new(60390, 10000));
    assert_eq!(rows[1].ticker, "GOOGL");
    assert_eq!(rows[1].market_value, Rat::new(3387, 10));
    assert_eq!(rows[1].paper_profit, Rat::new(-35230, 100));
    assert_eq!(rows[1].paper_profit_rate, Rat::new(-509841, 10000));
}

#[test]
fn uninvested_cash_success() {
    let amounts = [
        Rat::new(1033510, 100),
        Rat::new(203710, 100),
        Rat::new(439745, 100),
        Rat::new(209456, 100),
        Rat::new(356486, 100),
        Rat::new(7687, 100),
        Rat::new(15000, 100),
        Rat::new(398, 100),
        Rat::new(156, 100),
    ];
    let actions = [
        Action::Deposit,
        Action::Deposit,
        Action::Buy,
        Action::Buy,
        Action::Sell,
        Action::Dividend,
        Action::Withdraw,
        Action::Tax,
        Action::Fee,
    ];
    let tickers = [
        "CASH", "CASH", "GOOGL", "GOOGL", "GOOGL", "GOOGL", "CASH", "CASH", "CASH",
    ];
    let mut orders: Vec<Order> = Vec::new();
    for i in 0..9 {
        orders.push(Order {
            date: Date::from_ymd(2024, 1, 2).unwrap(),
            action: actions[i],
            ticker: tickers[i].to_owned(),
            qty: Rat::zero(),
            price: Rat::zero(),
            amount: amounts[i],
            currency: if i % 2 == 0 { Currency::USD } else { Currency::GBP },
            country: Country::Uk,
        });
    }
    let mut rows = Cash::from_orders(orders).collect().unwrap();
    rows.sort_by(|a, b| a.currency.as_str().cmp(b.currency.as_str()));
    assert_eq!(rows.len(), 2);
    assert_eq!(rows[0].currency, Currency::GBP);
    assert_eq!(rows[0].amount, Rat::new(1543, 100));
    assert_eq!(rows[0].ticker, "Cash");
    assert_eq!(rows[0].country, Country::Uk);
    assert_eq!(rows[1].currency, Currency::USD);
    assert_eq!(rows[1].amount, Rat::new(935095, 100));
    assert_eq!(rows[1].ticker, "Cash");
    assert_eq!(rows[1].country, Country::Usa);
}

#[test]
fn dividends_by_ticker_success() {
    let mut rows = Dividends::try_from_orders(generate_mocking_orders())
        .unwrap()
        .by_ticker()
        .unwrap();
    rows.sort_by(|a, b| a.ticker.cmp(&b.ticker));
    assert_eq!(rows.len(), 2);
    assert_eq!(rows[0].ticker, "APPL");
    assert_eq!(rows[0].dividends, Rat::new(275, 100));
    assert_eq!(rows[1].ticker, "GOOGL");
    assert_eq!(rows[1].dividends, Rat::new(326, 100));
}

#[test]
fn dividends_pivot_success() {
    let table = Dividends::try_from_orders(generate_mocking_orders())
        .unwrap()
        .pivot()
        .unwrap();
    // May, July and August of 2024, in calendar order
    assert_eq!(table.months, vec![5u8, 7, 8]);
    assert_eq!(table.rows.len(), 1);
    assert_eq!(table.rows[0].year, 2024);
    assert_eq!(table.rows[0].values[0], Rat::new(134, 100));
    assert_eq!(table.rows[0].values[1], Rat::new(192, 100));
    assert_eq!(table.rows[0].values[2], Rat::new(275, 100));
    assert_eq!(table.rows[0].total, Rat::new(601, 100));
    assert_eq!(table.month_totals[0], Rat::new(134, 100));
    assert_eq!(table.month_totals[1], Rat::new(192, 100));
    assert_eq!(table.month_totals[2], Rat::new(275, 100));
    assert_eq!(table.grand_total, Rat::new(601, 100));
}

/// A ledger with no dividend-like rows cannot seed the income report.
#[test]
fn dividends_require_income_rows() {
    let orders = vec![Order {
        date: Date::from_ymd(2024, 1, 2).unwrap(),
        action: Action::Buy,
        ticker: "GOOGL".to_owned(),
        qty: Rat::new(1, 1),
        price: Rat::new(10, 1),
        amount: Rat::new(10, 1),
        currency: Currency::USD,
        country: Country::Usa,
    }];
    assert_eq!(
        Dividends::try_from_orders(orders).unwrap_err(),
        Error::EmptyTable
    );
}

/// The timeline walks from the first order date to the requested end in
/// fixed steps, closing exactly on the end; with a single-currency ledger
/// the offline pipeline runs whole.
#[test]
fn timeline_summary_steps() {
    let orders = generate_mocking_orders();
    let mut scraper = MockScraper::new();
    let data = market_data();
    let timeline = reis_finance::timeline::Timeline::from_orders(orders, Currency::USD);
    let entries = timeline
        .summary(
            &mut scraper,
            &data,
            30,
            Some(Date::from_ymd(2024, 9, 27).unwrap()),
        )
        .unwrap();
    assert!(entries.len() > 1);
    assert_eq!(entries[0].date, Date::from_ymd(2024, 3, 14).unwrap());
    assert_eq!(
        entries[entries.len() - 1].date,
        Date::from_ymd(2024, 9, 27).unwrap()
    );
    for w in entries.windows(2) {
        assert!(w[0].date.day_number() < w[1].date.day_number());
    }
    // the only outside capital in the ledger is the opening deposit
    assert_eq!(
        entries[entries.len() - 1].summary.primary_capital,
        Rat::new(1000, 1)
    );
}

#[test]
fn portfolio_with_profit_success() {
    let data = market_data();
    let dividends = vec![
        reis_finance::dividends::TickerDividends {
            ticker: "GOOGL".to_owned(),
            dividends: Rat::new(145, 100),
        },
        reis_finance::dividends::TickerDividends {
            ticker: "APPL".to_owned(),
            dividends: Rat::new(984, 100),
        },
    ];
    let rows = Portfolio::from_orders(generate_mocking_orders(), None)
        .unwrap()
        .with_quotes(&data.quotes)
        .unwrap()
        .with_average_price()
        .unwrap()
        .with_dividends(dividends)
        .paper_profit()
        .unwrap()
        .with_profit()
        .unwrap()
        .round(4)
        .unwrap()
        .collect();
    let rows = sorted_rows(rows);
    assert_eq!(rows[0].ticker, "APPL");
    assert_eq!(rows[0].profit, Rat::new(87984, 1000));
    assert_eq!(rows[0].profit_rate, Rat::new(67994, 10000));
    assert_eq!(rows[1].ticker, "GOOGL");
    assert_eq!(rows[1].profit, Rat::new(-35085, 100));
    assert_eq!(rows[1].profit_rate, Rat::new(-507742, 10000));
}
