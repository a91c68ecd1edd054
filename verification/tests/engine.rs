//! The average-cost engine and realized profit, on the reference ledger.

use reis_finance::date::Date;
use reis_finance::ledger::Order;
use reis_finance::liquidated::Profit;
use reis_finance::perpetual_inventory::{AverageCost, TickerCost};
use reis_finance::rational::Rat;
use reis_finance::schema::{Action, Country, Currency};
use reis_finance::utils::generate_mocking_orders;

fn latest_sorted(mut latest: Vec<TickerCost>) -> Vec<TickerCost> {
    latest.sort_by(|a, b| a.ticker.cmp(&b.ticker));
    latest
}

#[test]
fn average_cost_success() {
    let orders = generate_mocking_orders();
    let latest = AverageCost::from_orders(orders)
        .with_cumulative()
        .unwrap()
        .collect_latest();
    let latest = latest_sorted(latest);
    assert_eq!(latest.len(), 2);
    assert_eq!(latest[0].ticker, "APPL");
    assert_eq!(latest[0].average_price, Rat::new(9803, 100));
    assert_eq!(latest[0].accrued_qty, Rat::new(132, 10));
    assert_eq!(latest[1].ticker, "GOOGL");
    assert_eq!(latest[1].average_price, Rat::new(6910, 100));
    assert_eq!(latest[1].accrued_qty, Rat::new(10, 1));
}

/// One GOOGL buy of 8 @ 34.45 and a later buy of 4 @ 32.50 accrue 12 units
/// at an average of 33.8; a later sell of 4 leaves 8 units and the same
/// average.
#[test]
fn average_cost_two_buys_then_sell() {
    fn row(day: u8, action: Action, qty: Rat, price: Rat) -> Order {
        let amount = qty.mul(price).unwrap();
        Order {
            date: Date::from_ymd(2024, 1, day).unwrap(),
            action,
            ticker: "GOOGL".to_owned(),
            qty,
            price,
            amount,
            currency: Currency::USD,
            country: Country::Usa,
        }
    }
    let orders = vec![
        row(2, Action::Buy, Rat::new(8, 1), Rat::new(3445, 100)),
        row(3, Action::Buy, Rat::new(4, 1), Rat::new(3250, 100)),
        row(4, Action::Sell, Rat::new(4, 1), Rat::new(3500, 100)),
    ];
    let trace = AverageCost::from_orders(orders)
        .with_cumulative()
        .unwrap()
        .collect();
    assert_eq!(trace.len(), 3);
    // after the second buy: 12 units at 33.8
    assert_eq!(trace[1].accrued_qty, Rat::new(12, 1));
    assert_eq!(trace[1].average_price, Rat::new(338, 10));
    // the sell reduces the position and leaves the average untouched
    assert_eq!(trace[2].accrued_qty, Rat::new(8, 1));
    assert_eq!(trace[2].average_price, Rat::new(338, 10));
}

/// Total cost basis is unchanged across the split in the reference ledger:
/// 34.55 * 20 before equals 69.10 * 10 after.
#[test]
fn average_cost_split_keeps_basis() {
    let orders = generate_mocking_orders();
    let trace = AverageCost::from_orders(orders)
        .with_cumulative()
        .unwrap()
        .collect();
    let googl: Vec<_> = trace.iter().filter(|c| c.order.ticker == "GOOGL").collect();
    let before = googl[googl.len() - 2];
    let after = googl[googl.len() - 1];
    assert_eq!(after.order.action, Action::Split);
    let basis_before = before
        .average_price
        .mul(before.accrued_qty)
        .unwrap();
    let basis_after = after.average_price.mul(after.accrued_qty).unwrap();
    assert_eq!(basis_before, basis_after);
    assert_eq!(after.average_price, Rat::new(6910, 100));
    assert_eq!(after.accrued_qty, Rat::new(10, 1));
}

#[test]
fn realized_profit_success() {
    let orders = generate_mocking_orders();
    let rows = Profit::from_orders(orders).unwrap().collect();
    assert_eq!(rows.len(), 3);
    assert_eq!(rows[0].date, Date::from_ymd(2024, 5, 23).unwrap());
    assert_eq!(rows[0].ticker, "APPL");
    assert_eq!(rows[0].qty, Rat::new(3, 1));
    assert_eq!(rows[0].price, Rat::new(13460, 100));
    assert_eq!(rows[0].amount, Rat::new(4038, 10));
    assert_eq!(rows[0].currency, Currency::USD);
    assert_eq!(rows[0].profit, Rat::new(8136, 100));
    assert_eq!(rows[1].date, Date::from_ymd(2024, 8, 19).unwrap());
    assert_eq!(rows[1].ticker, "GOOGL");
    assert_eq!(rows[1].qty, Rat::new(4, 1));
    assert_eq!(rows[1].price, Rat::new(354, 10));
    assert_eq!(rows[1].amount, Rat::new(1416, 10));
    assert_eq!(rows[1].profit, Rat::new(3025, 1000));
    assert_eq!(rows[2].date, Date::from_ymd(2024, 9, 20).unwrap());
    assert_eq!(rows[2].ticker, "GOOGL");
    assert_eq!(rows[2].qty, Rat::new(8, 1));
    assert_eq!(rows[2].price, Rat::new(364, 10));
    assert_eq!(rows[2].amount, Rat::new(2912, 10));
    assert_eq!(rows[2].profit, Rat::new(1405, 100));
}

#[test]
fn realized_profit_repeated_daily_sell() {
    let orders = generate_mocking_orders();
    let mut doubled: Vec<Order> = Vec::new();
    let mut sells: Vec<Order> = Vec::new();
    for o in &orders {
        let mut c = o.clone();
        if c.action == Action::Sell {
            c.qty = c.qty.div(Rat::new(2, 1)).unwrap();
            sells.push(c.clone());
        }
        doubled.push(c);
    }
    for s in sells {
        doubled.push(s);
    }
    for o in doubled.iter_mut() {
        o.amount = o.price.mul(o.qty).unwrap();
    }
    let rows = Profit::from_orders(doubled).unwrap().collect();
    assert_eq!(rows.len(), 3);
    assert_eq!(rows[0].ticker, "APPL");
    assert_eq!(rows[0].qty, Rat::new(3, 1));
    assert_eq!(rows[0].profit, Rat::new(8136, 100));
    assert_eq!(rows[1].ticker, "GOOGL");
    assert_eq!(rows[1].qty, Rat::new(4, 1));
    assert_eq!(rows[1].profit, Rat::new(3025, 1000));
    assert_eq!(rows[2].ticker, "GOOGL");
    assert_eq!(rows[2].qty, Rat::new(8, 1));
    assert_eq!(rows[2].profit, Rat::new(1405, 100));
}

/// Ticker groups are independent: interleaving another ticker's rows
/// differently leaves a ticker's trace states untouched.
#[test]
fn average_cost_ticker_independence() {
    fn row(day: u8, ticker: &str, action: Action, qty: Rat, price: Rat) -> Order {
        let amount = qty.mul(price).unwrap();
        Order {
            date: Date::from_ymd(2024, 2, day).unwrap(),
            action,
            ticker: ticker.to_owned(),
            qty,
            price,
            amount,
            currency: Currency::USD,
            country: Country::Usa,
        }
    }
    let g1 = row(1, "GOOGL", Action::Buy, Rat::new(8, 1), Rat::new(3445, 100));
    let g2 = row(5, "GOOGL", Action::Buy, Rat::new(4, 1), Rat::new(3250, 100));
    let o1 = row(2, "APPL", Action::Buy, Rat::new(7, 1), Rat::new(100, 1));
    let o2 = row(3, "APPL", Action::Sell, Rat::new(2, 1), Rat::new(110, 1));
    let a = vec![g1.clone(), o1.clone(), o2.clone(), g2.clone()];
    let b = vec![o2, g1, g2, o1];
    let la = latest_sorted(
        AverageCost::from_orders(a).with_cumulative().unwrap().collect_latest(),
    );
    let lb = latest_sorted(
        AverageCost::from_orders(b).with_cumulative().unwrap().collect_latest(),
    );
    // GOOGL's final state is the same in both interleavings
    assert_eq!(la[1].ticker, "GOOGL");
    assert_eq!(lb[1].ticker, "GOOGL");
    assert_eq!(la[1].average_price, lb[1].average_price);
    assert_eq!(la[1].accrued_qty, lb[1].accrued_qty);
    assert_eq!(la[1].average_price, Rat::new(338, 10));
    assert_eq!(la[1].accrued_qty, Rat::new(12, 1));
}
