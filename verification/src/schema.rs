//! Column names and enumerated string domains of the normalized ledger.

use vstd::prelude::*;

verus! {

/// Column names of the ledger and of every derived table.
#[derive(Debug, Clone, Copy, PartialEq, Eq, Structural)]
pub enum Column {
    Date,
    Ticker,
    Qty,
    Price,
    Action,
    Amount,
    Type,
    Tax,
    Commission,
    Country,
    Currency,
    PortfolioCost,
    UninvestedCash,
    AveragePrice,
    MarketPrice,
    MarketPriceCurrency,
    MarketValue,
    Dividends,
    DividendYield,
    PaperProfit,
    PaperProfitRate,
    PrimaryCapital,
    AccruedQty,
    Total,
    Profit,
    ProfitRate,
    LiquidatedProfit,
    NetProfit,
    AllocationRate,
}

impl Column {
    pub open spec fn spec_str(self) -> Seq<char> {
        match self {
            Column::Date => "Date"@,
            Column::Ticker => "Ticker"@,
            Column::Qty => "Qty"@,
            Column::Price => "Price"@,
            Column::Action => "Action"@,
            Column::Amount => "Amount"@,
            Column::Type => "Type"@,
            Column::Tax => "Tax"@,
            Column::Commission => "Commission"@,
            Column::Country => "Country"@,
            Column::Currency => "Currency"@,
            Column::PortfolioCost => "PortfolioCost"@,
            Column::UninvestedCash => "UninvestedCash"@,
            Column::AveragePrice => "AveragePrice"@,
            Column::MarketPrice => "MarketPrice"@,
            Column::MarketPriceCurrency => "MarketPriceCurrency"@,
            Column::MarketValue => "MarketValue"@,
            Column::Dividends => "Dividends"@,
            Column::DividendYield => "DividendYield"@,
            Column::PaperProfit => "PaperProfit"@,
            Column::PaperProfitRate => "PaperProfitRate"@,
            Column::PrimaryCapital => "PrimaryCapital"@,
            Column::AccruedQty => "AccruedQty"@,
            Column::Total => "Total"@,
            Column::Profit => "Profit"@,
            Column::ProfitRate => "ProfitRate"@,
            Column::LiquidatedProfit => "LiquidatedProfit"@,
            Column::NetProfit => "NetProfit"@,
            Column::AllocationRate => "AllocationRate"@,
        }
    }

    pub fn as_str(self) -> (r: &'static str)
        ensures
            r@ == self.spec_str(),
    {
        match self {
            Column::Date => "Date",
            Column::Ticker => "Ticker",
            Column::Qty => "Qty",
            Column::Price => "Price",
            Column::Action => "Action",
            Column::Amount => "Amount",
            Column::Type => "Type",
            Column::Tax => "Tax",
            Column::Commission => "Commission",
            Column::Country => "Country",
            Column::Currency => "Currency",
            Column::PortfolioCost => "PortfolioCost",
            Column::UninvestedCash => "UninvestedCash",
            Column::AveragePrice => "AveragePrice",
            Column::MarketPrice => "MarketPrice",
            Column::MarketPriceCurrency => "MarketPriceCurrency",
            Column::MarketValue => "MarketValue",
            Column::Dividends => "Dividends",
            Column::DividendYield => "DividendYield",
            Column::PaperProfit => "PaperProfit",
            Column::PaperProfitRate => "PaperProfitRate",
            Column::PrimaryCapital => "PrimaryCapital",
            Column::AccruedQty => "AccruedQty",
            Column::Total => "Total",
            Column::Profit => "Profit",
            Column::ProfitRate => "ProfitRate",
            Column::LiquidatedProfit => "LiquidatedProfit",
            Column::NetProfit => "NetProfit",
            Column::AllocationRate => "AllocationRate",
        }
    }
}

/// What a ledger row did.
#[derive(Debug, Clone, Copy, PartialEq, Eq, Structural)]
pub enum Action {
    Sell,
    Buy,
    Split,
    Dividend,
    Deposit,
    Tax,
    Fee,
    Interest,
    Withdraw,
    Ignore,
}

impl Action {
    pub open spec fn spec_str(self) -> Seq<char> {
        match self {
            Action::Sell => "Sell"@,
            Action::Buy => "Buy"@,
            Action::Split => "Split"@,
            Action::Dividend => "Dividend"@,
            Action::Deposit => "Deposit"@,
            Action::Tax => "Tax"@,
            Action::Fee => "Fee"@,
            Action::Interest => "Interest"@,
            Action::Withdraw => "Withdraw"@,
            Action::Ignore => "Ignore"@,
        }
    }

    pub fn as_str(self) -> (r: &'static str)
        ensures
            r@ == self.spec_str(),
    {
        match self {
            Action::Sell => "Sell",
            Action::Buy => "Buy",
            Action::Split => "Split",
            Action::Dividend => "Dividend",
            Action::Deposit => "Deposit",
            Action::Tax => "Tax",
            Action::Fee => "Fee",
            Action::Interest => "Interest",
            Action::Withdraw => "Withdraw",
            Action::Ignore => "Ignore",
        }
    }
}

/// Kind of instrument a ticker refers to.
#[derive(Debug, Clone, Copy, PartialEq, Eq, Structural)]
pub enum Type {
    Stock,
    Fii,
    Etf,
    Cash,
    Other,
}

impl Type {
    pub open spec fn spec_str(self) -> Seq<char> {
        match self {
            Type::Stock => "Stock"@,
            Type::Fii => "Fii"@,
            Type::Etf => "Etf"@,
            Type::Cash => "Cash"@,
            Type::Other => "Other"@,
        }
    }

    pub fn as_str(self) -> (r: &'static str)
        ensures
            r@ == self.spec_str(),
    {
        match self {
            Type::Stock => "Stock",
            Type::Fii => "Fii",
            Type::Etf => "Etf",
            Type::Cash => "Cash",
            Type::Other => "Other",
        }
    }
}

/// Market a security trades in.
#[derive(Debug, Clone, Copy, PartialEq, Eq, Structural)]
pub enum Country {
    Unknown,
    NA,
    Usa,
    Uk,
    Brazil,
    Ireland,
    EU,
}

/// Country encoded by the first two letters of an ISIN.
pub open spec fn spec_from_isin(s: Seq<char>) -> Country {
    if s.len() >= 2 && s[0] == 'U' && s[1] == 'S' {
        Country::Usa
    } else if s.len() >= 2 && s[0] == 'G' && s[1] == 'B' {
        Country::Uk
    } else if s.len() >= 2 && s[0] == 'I' && s[1] == 'E' {
        Country::Ireland
    } else {
        Country::Unknown
    }
}

impl Country {
    pub open spec fn spec_str(self) -> Seq<char> {
        match self {
            Country::Unknown => "Unknown"@,
            Country::NA => "NA"@,
            Country::Usa => "Usa"@,
            Country::Uk => "Uk"@,
            Country::Brazil => "Brazil"@,
            Country::Ireland => "Ireland"@,
            Country::EU => "EU"@,
        }
    }

    pub fn as_str(self) -> (r: &'static str)
        ensures
            r@ == self.spec_str(),
    {
        match self {
            Country::Unknown => "Unknown",
            Country::NA => "NA",
            Country::Usa => "Usa",
            Country::Uk => "Uk",
            Country::Brazil => "Brazil",
            Country::Ireland => "Ireland",
            Country::EU => "EU",
        }
    }

    /// Reads the country off an ISIN prefix.
    pub fn from_isin(isin: &str) -> (r: Country)
        requires
            isin@.len() >= 2,
        ensures
            r == spec_from_isin(isin@),
    {
        let c0 = isin.get_char(0);
        let c1 = isin.get_char(1);
        if c0 == 'U' && c1 == 'S' {
            Country::Usa
        } else if c0 == 'G' && c1 == 'B' {
            Country::Uk
        } else if c0 == 'I' && c1 == 'E' {
            Country::Ireland
        } else {
            Country::Unknown
        }
    }

    /// The currency a country's market quotes in.
    pub fn currency(self) -> (r: Currency)
        ensures
            r == self.spec_currency(),
    {
        match self {
            Country::Unknown => Currency::NA,
            Country::NA => Currency::NA,
            Country::Usa => Currency::USD,
            Country::Uk => Currency::GBP,
            Country::EU => Currency::EUR,
            Country::Brazil => Currency::BRL,
            Country::Ireland => Currency::GBP,
        }
    }

    pub open spec fn spec_currency(self) -> Currency {
        match self {
            Country::Unknown => Currency::NA,
            Country::NA => Currency::NA,
            Country::Usa => Currency::USD,
            Country::Uk => Currency::GBP,
            Country::EU => Currency::EUR,
            Country::Brazil => Currency::BRL,
            Country::Ireland => Currency::GBP,
        }
    }
}

impl Default for Country {
    fn default() -> (r: Country)
        ensures
            r == Country::Unknown,
    {
        Country::Unknown
    }
}

/// ISO-4217-like currency codes, plus a synthetic `NA`.
#[derive(Debug, Clone, Copy, PartialEq, Eq, Structural)]
pub enum Currency {
    BRL,
    EUR,
    GBP,
    GBX,
    USD,
    NA,
}

impl Currency {
    pub open spec fn spec_str(self) -> Seq<char> {
        match self {
            Currency::BRL => "BRL"@,
            Currency::EUR => "EUR"@,
            Currency::GBP => "GBP"@,
            Currency::GBX => "GBX"@,
            Currency::USD => "USD"@,
            Currency::NA => "NA"@,
        }
    }

    pub fn as_str(self) -> (r: &'static str)
        ensures
            r@ == self.spec_str(),
    {
        match self {
            Currency::BRL => "BRL",
            Currency::EUR => "EUR",
            Currency::GBP => "GBP",
            Currency::GBX => "GBX",
            Currency::USD => "USD",
            Currency::NA => "NA",
        }
    }

    pub open spec fn spec_symbol(self) -> Seq<char> {
        match self {
            Currency::BRL => "R$"@,
            Currency::EUR => "€"@,
            Currency::GBP => "£"@,
            Currency::GBX => "£p"@,
            Currency::USD => "$"@,
            Currency::NA => "NA"@,
        }
    }

    /// Display prefix for amounts in this currency.
    pub fn symbol(self) -> (r: &'static str)
        ensures
            r@ == self.spec_symbol(),
    {
        match self {
            Currency::BRL => "R$",
            Currency::EUR => "€",
            Currency::GBP => "£",
            Currency::GBX => "£p",
            Currency::USD => "$",
            Currency::NA => "NA",
        }
    }

    /// The market country a currency belongs to.
    pub fn country(self) -> (r: Country)
        ensures
            r == self.spec_country(),
    {
        match self {
            Currency::NA => Country::NA,
            Currency::USD => Country::Usa,
            Currency::GBP => Country::Uk,
            Currency::GBX => Country::Uk,
            Currency::BRL => Country::Brazil,
            Currency::EUR => Country::EU,
        }
    }

    pub open spec fn spec_country(self) -> Country {
        match self {
            Currency::NA => Country::NA,
            Currency::USD => Country::Usa,
            Currency::GBP => Country::Uk,
            Currency::GBX => Country::Uk,
            Currency::BRL => Country::Brazil,
            Currency::EUR => Country::EU,
        }
    }
}

impl Default for Currency {
    fn default() -> (r: Currency)
        ensures
            r == Currency::BRL,
    {
        Currency::BRL
    }
}

} // verus!
