//! The values the ledger and the scheduler speak of.

use vstd::prelude::*;
use vstd::string::*;

verus! {

/// A point on the globe. Each coordinate is a whole number of ten-millionths
/// of a degree, so seven decimal places are held exactly.
#[derive(Clone, Copy, Debug, PartialEq, Eq, Structural)]
pub struct Location {
    pub lat: i64,
    pub lon: i64,
}

impl Location {
    pub fn new(lat: i64, lon: i64) -> (location: Self)
        ensures
            location == (Location { lat, lon }),
    {
        Location { lat, lon }
    }

    /// The latitude, in ten-millionths of a degree.
    pub fn lat(&self) -> (lat: i64)
        ensures
            lat == self.lat,
    {
        self.lat
    }

    /// The longitude, in ten-millionths of a degree.
    pub fn lon(&self) -> (lon: i64)
        ensures
            lon == self.lon,
    {
        self.lon
    }
}

/// The alert part of a forecast: its kind and the headline shown to the
/// subscriber.
#[derive(Debug)]
pub struct AlertResponse {
    pub typ: String,
    pub title: String,
}

impl AlertResponse {
    /// Whether the forecast announces precipitation: every kind but
    /// `noprec` does.
    pub fn is_rain(&self) -> (rain: bool)
        ensures
            rain == (self.typ@ != "noprec"@),
    {
        let dry = String::from_str("noprec");
        !self.typ.eq(&dry)
    }
}

/// A forecast as the weather service answers it.
#[derive(Debug)]
pub struct WeatherResponse {
    pub alert: AlertResponse,
}

/// Why a check of the weather failed. Each variant carries the text of the
/// failure it stands for.
#[derive(Debug)]
pub enum CheckError {
    UrlParser(String),
    Request(String),
    Bot(String),
}

impl CheckError {
    /// The heading under which a failure of this kind is reported.
    pub open spec fn heading(&self) -> Seq<char> {
        match self {
            CheckError::UrlParser(_) => "Url parsing failed: "@,
            CheckError::Request(_) => "Error requesting weather: "@,
            CheckError::Bot(_) => "Bot error: "@,
        }
    }

    /// The text of the failure itself.
    pub open spec fn detail(&self) -> Seq<char> {
        match self {
            CheckError::UrlParser(err) => err@,
            CheckError::Request(err) => err@,
            CheckError::Bot(err) => err@,
        }
    }

    /// The failure as one line of text: the heading, then the detail.
    pub fn message(&self) -> (text: String)
        ensures
            text@ == self.heading() + self.detail(),
    {
        match self {
            CheckError::UrlParser(err) => String::from_str("Url parsing failed: ").concat(
                err.as_str(),
            ),
            CheckError::Request(err) => String::from_str("Error requesting weather: ").concat(
                err.as_str(),
            ),
            CheckError::Bot(err) => String::from_str("Bot error: ").concat(err.as_str()),
        }
    }
}

} // verus!
