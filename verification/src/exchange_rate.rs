//! Exchange rates as the vendor reports them and as the oracle stores them.

use vstd::prelude::*;
use vstd::std_specs::cmp::PartialEqSpecImpl;

verus! {

/// Represents a currency.
#[derive(Debug)]
pub struct Currency {
    /// The currency's name.
    pub name: String,
    /// The currency's code. Can be a physical currency using ISO 4217 or a cryptocurrency.
    pub code: String,
}

/// What a [`Currency`] holds, as mathematical values.
pub struct CurrencyView {
    pub name: Seq<char>,
    pub code: Seq<char>,
}

impl View for Currency {
    type V = CurrencyView;

    open spec fn view(&self) -> CurrencyView {
        CurrencyView { name: self.name@, code: self.code@ }
    }
}

impl Clone for Currency {
    fn clone(&self) -> (r: Self)
        ensures
            r == *self,
    {
        Currency { name: self.name.clone(), code: self.code.clone() }
    }
}

impl PartialEq for Currency {
    fn eq(&self, other: &Currency) -> (r: bool) {
        self.name == other.name && self.code == other.code
    }
}

impl PartialEqSpecImpl for Currency {
    open spec fn obeys_eq_spec() -> bool {
        true
    }

    open spec fn eq_spec(&self, other: &Currency) -> bool {
        self@ == other@
    }
}

/// Represents the exchange rate for a currency pair, as fetched from the vendor.
#[derive(Debug)]
pub struct ExchangeRate {
    /// Currency to get the exchange rate for.
    pub from: Currency,
    /// Destination currency for the exchange rate.
    pub to: Currency,
    /// Value of the exchange rate, as the bit pattern of an IEEE-754 double.
    pub rate_bits: u64,
    /// Instant the exchange rate corresponds to, in seconds since the Unix epoch.
    pub date: i64,
}

/// What an [`ExchangeRate`] holds, as mathematical values.
pub struct ExchangeRateView {
    pub from: CurrencyView,
    pub to: CurrencyView,
    pub rate_bits: u64,
    pub date: i64,
}

impl View for ExchangeRate {
    type V = ExchangeRateView;

    open spec fn view(&self) -> ExchangeRateView {
        ExchangeRateView {
            from: self.from@,
            to: self.to@,
            rate_bits: self.rate_bits,
            date: self.date,
        }
    }
}

impl Clone for ExchangeRate {
    fn clone(&self) -> (r: Self)
        ensures
            r == *self,
    {
        ExchangeRate {
            from: self.from.clone(),
            to: self.to.clone(),
            rate_bits: self.rate_bits,
            date: self.date,
        }
    }
}

impl PartialEq for ExchangeRate {
    fn eq(&self, other: &ExchangeRate) -> (r: bool) {
        self.from == other.from && self.to == other.to && self.rate_bits == other.rate_bits
            && self.date == other.date
    }
}

impl PartialEqSpecImpl for ExchangeRate {
    open spec fn obeys_eq_spec() -> bool {
        true
    }

    open spec fn eq_spec(&self, other: &ExchangeRate) -> bool {
        self@ == other@
    }
}

/// One stored observation: the rate of a currency pair at an instant.
#[derive(Debug)]
pub struct ExchangeRateResult {
    /// Currency to get the exchange rate for.
    pub from: String,
    /// Destination currency for the exchange rate.
    pub to: String,
    /// Value of the exchange rate, as the bit pattern of an IEEE-754 double.
    pub rate_bits: u64,
    /// Instant the exchange rate corresponds to, in seconds since the Unix epoch.
    pub date: i64,
}

/// What an [`ExchangeRateResult`] holds, as mathematical values.
pub struct Observation {
    pub from: Seq<char>,
    pub to: Seq<char>,
    pub rate_bits: u64,
    pub date: i64,
}

impl View for ExchangeRateResult {
    type V = Observation;

    open spec fn view(&self) -> Observation {
        Observation { from: self.from@, to: self.to@, rate_bits: self.rate_bits, date: self.date }
    }
}

impl DeepView for ExchangeRateResult {
    type V = Observation;

    open spec fn deep_view(&self) -> Observation {
        self@
    }
}

impl Clone for ExchangeRateResult {
    fn clone(&self) -> (r: Self)
        ensures
            r == *self,
    {
        ExchangeRateResult {
            from: self.from.clone(),
            to: self.to.clone(),
            rate_bits: self.rate_bits,
            date: self.date,
        }
    }
}

impl PartialEq for ExchangeRateResult {
    fn eq(&self, other: &ExchangeRateResult) -> (r: bool) {
        self.from == other.from && self.to == other.to && self.rate_bits == other.rate_bits
            && self.date == other.date
    }
}

impl PartialEqSpecImpl for ExchangeRateResult {
    open spec fn obeys_eq_spec() -> bool {
        true
    }

    open spec fn eq_spec(&self, other: &ExchangeRateResult) -> bool {
        self@ == other@
    }
}

/// The observation that a fetched rate is stored as: the two currency
/// codes, the rate and the instant.
pub open spec fn observed(rate: ExchangeRate) -> Observation {
    Observation {
        from: rate.from.code@,
        to: rate.to.code@,
        rate_bits: rate.rate_bits,
        date: rate.date,
    }
}

/// Bit patterns from this one up are negative, infinite or not a number.
pub const RATE_BITS_END: u64 = 0x7ff0_0000_0000_0000;

impl ExchangeRateResult {
    /// The observation that a fetched rate is stored as: the two currency
    /// codes, the rate and the instant.
    pub fn from_rate(rate: &ExchangeRate) -> (r: ExchangeRateResult)
        ensures
            r@ == observed(*rate),
    {
        ExchangeRateResult {
            from: rate.from.code.clone(),
            to: rate.to.code.clone(),
            rate_bits: rate.rate_bits,
            date: rate.date,
        }
    }

    /// Whether the observation names two different, non-empty currencies and
    /// its rate is finite and not negative.
    pub open spec fn well_formed(o: Observation) -> bool {
        &&& o.from.len() > 0
        &&& o.to.len() > 0
        &&& o.from != o.to
        &&& o.rate_bits < RATE_BITS_END
    }

    /// Tests [`Self::well_formed`].
    pub fn is_well_formed(&self) -> (r: bool)
        ensures
            r == Self::well_formed(self@),
    {
        !self.from.as_str().is_empty() && !self.to.as_str().is_empty() && self.from != self.to
            && self.rate_bits < RATE_BITS_END
    }
}

} // verus!
