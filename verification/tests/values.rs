//! The value types: exact rationals, dates, parsing, errors and the
//! summary plumbing.

use reis_finance::date::Date;
use reis_finance::ledger::{sort_by_date, Order};
use reis_finance::liquidated::ProfitRow;
use reis_finance::portfolio::PortfolioRow;
use reis_finance::rational::Rat;
use reis_finance::schema::{Action, Column, Country, Currency, Type};
use reis_finance::summary::Summary;
use reis_finance::utils::str_to_date;
use reis_finance::Error;

#[test]
fn rational_arithmetic_is_exact() {
    let a = Rat::new(3445, 100);
    let b = Rat::new(8, 1);
    let product = a.mul(b).unwrap();
    assert_eq!(product, Rat::new(2756, 10));
    let sum = product.add(Rat::new(130, 1)).unwrap();
    assert_eq!(sum, Rat::new(4056, 10));
    let mean = sum.div(Rat::new(12, 1)).unwrap();
    assert_eq!(mean, Rat::new(338, 10));
}

#[test]
fn rational_round_half_away_from_zero() {
    assert_eq!(Rat::new(25, 1000).round_dp(2).unwrap(), Rat::new(3, 100));
    assert_eq!(Rat::new(-25, 1000).round_dp(2).unwrap(), Rat::new(-3, 100));
    assert_eq!(Rat::new(9234645, 10000).round_dp(2).unwrap(), Rat::new(92346, 100));
    assert_eq!(Rat::new(24, 1000).round_dp(2).unwrap(), Rat::new(2, 100));
}

#[test]
fn rational_overflow_is_reported() {
    let big = Rat::new(0x7fff_ffff_ffff_ffff, 1);
    assert!(big.mul(big).is_none());
    assert!(big.add(Rat::new(1, 3)).is_none());
    // division by zero is refused, not evaluated
    assert!(Rat::new(1, 1).div(Rat::zero()).is_none());
}

#[test]
fn date_day_numbers() {
    let base = Date::from_ymd(1600, 1, 1).unwrap();
    assert_eq!(base.day_number(), 0);
    // four whole Gregorian centuries
    let later = Date::from_ymd(2000, 1, 1).unwrap();
    assert_eq!(later.day_number(), 146097);
    // leap handling around a century year
    assert!(Date::from_ymd(2000, 2, 29).is_some());
    assert!(Date::from_ymd(1900, 2, 29).is_none());
    assert!(Date::from_ymd(2024, 2, 30).is_none());
    let d = Date::from_ymd(2024, 6, 1).unwrap();
    let e = d.add_days(-1).unwrap();
    assert_eq!(e, Date::from_ymd(2024, 5, 31).unwrap());
}

#[test]
fn str_to_date_reads_the_prefix() {
    let d = str_to_date("2024-05-16 10:12:13").unwrap();
    assert_eq!(d, Date::from_ymd(2024, 5, 16).unwrap());
    assert!(str_to_date("2024-13-01").is_none());
    assert!(str_to_date("not a date").is_none());
    assert!(str_to_date("2024-05").is_none());
}

#[test]
fn ledger_sort_is_stable() {
    fn row(day: u8, ticker: &str) -> Order {
        Order {
            date: Date::from_ymd(2024, 3, day).unwrap(),
            action: Action::Buy,
            ticker: ticker.to_owned(),
            qty: Rat::new(1, 1),
            price: Rat::new(1, 1),
            amount: Rat::new(1, 1),
            currency: Currency::USD,
            country: Country::Usa,
        }
    }
    let orders = vec![row(9, "B"), row(2, "A"), row(9, "C"), row(2, "D")];
    let sorted = sort_by_date(orders);
    let tickers: Vec<&str> = sorted.iter().map(|o| o.ticker.as_str()).collect();
    assert_eq!(tickers, vec!["A", "D", "B", "C"]);
}

#[test]
fn error_messages_name_the_failure() {
    assert_eq!(Error::EmptyTable.message(), "argument table must not be empty");
    assert_eq!(Error::Fetch.message(), "market data fetch failed");
}

#[test]
fn schema_round_trips() {
    assert_eq!(Action::Buy.as_str(), "Buy");
    assert_eq!(Column::AveragePrice.as_str(), "AveragePrice");
    assert_eq!(Type::Cash.as_str(), "Cash");
    assert_eq!(Currency::USD.symbol(), "$");
    assert_eq!(Country::from_isin("US0378331005"), Country::Usa);
    assert_eq!(Country::from_isin("GB00B03MLX29"), Country::Uk);
    assert_eq!(Country::from_isin("IE00B4L5Y983"), Country::Ireland);
    assert_eq!(Country::from_isin("XX123"), Country::Unknown);
    assert_eq!(Currency::GBP.country(), Country::Uk);
    assert_eq!(Country::Usa.currency(), Currency::USD);
}

fn plain_prow(ticker: &str, avg: Rat, qty: Rat, mp: Rat, pp: Rat, amount: Rat) -> PortfolioRow {
    PortfolioRow {
        ticker: ticker.to_owned(),
        amount,
        accrued_qty: qty,
        country: Country::Usa,
        currency: Currency::USD,
        market_price: mp,
        market_price_currency: Currency::USD,
        average_price: avg,
        market_value: Rat::zero(),
        paper_profit: pp,
        paper_profit_rate: Rat::zero(),
        dividends: Rat::zero(),
        profit: Rat::zero(),
        profit_rate: Rat::zero(),
        allocation_rate: Rat::zero(),
    }
}

#[test]
fn summary_sums_and_rates() {
    let rows = vec![
        plain_prow(
            "GOOGL",
            Rat::new(10, 1),
            Rat::new(2, 1),
            Rat::new(12, 1),
            Rat::new(4, 1),
            Rat::new(20, 1),
        ),
        plain_prow(
            "Cash",
            Rat::zero(),
            Rat::new(1, 1),
            Rat::zero(),
            Rat::zero(),
            Rat::new(50, 1),
        ),
    ];
    let mut summary = Summary::from_portfolio(rows).unwrap();
    summary.with_dividends(Vec::new()).unwrap();
    let profit = vec![ProfitRow {
        date: Date::from_ymd(2024, 1, 2).unwrap(),
        ticker: "GOOGL".to_owned(),
        qty: Rat::new(1, 1),
        price: Rat::new(11, 1),
        amount: Rat::new(11, 1),
        currency: Currency::USD,
        profit: Rat::new(1, 1),
    }];
    summary.with_liquidated_profit(profit).unwrap();
    summary.primary_capital = Some(Rat::new(100, 1));
    let row = summary.finish().unwrap();
    assert_eq!(row.portfolio_cost, Rat::new(20, 1));
    assert_eq!(row.market_value, Rat::new(24, 1));
    assert_eq!(row.paper_profit, Rat::new(4, 1));
    assert_eq!(row.uninvested_cash, Rat::new(50, 1));
    assert_eq!(row.liquidated_profit, Rat::new(1, 1));
    assert_eq!(row.dividends, Rat::zero());
    // net profit: unrealized + dividends + realized
    assert_eq!(row.net_profit, Rat::new(5, 1));
    let report = summary.collect().unwrap();
    assert_eq!(report.len(), 8);
    // market value share of the invested capital: 24 of 100
    assert_eq!(report[2].description, Column::MarketValue);
    assert_eq!(report[2].rate, Rat::new(24, 1));
}

#[test]
fn summary_refuses_missing_components() {
    let mut summary = Summary::from_portfolio(Vec::new()).unwrap();
    assert_eq!(summary.finish().unwrap_err(), Error::InvariantViolation);
}
