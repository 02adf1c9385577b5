use vstd::prelude::*;

verus! {

/// The engine's error categories, each with a description.
#[derive(Debug)]
pub enum BotError {
    Config(String),
    MarketData(String),
    Quote(String),
    Execution(String),
}

/// The text of an error: its category followed by its description.
pub open spec fn bot_error_text(error: BotError) -> Seq<char> {
    match error {
        BotError::Config(m) => "configuration error: "@ + m@,
        BotError::MarketData(m) => "market data error: "@ + m@,
        BotError::Quote(m) => "quote error: "@ + m@,
        BotError::Execution(m) => "execution error: "@ + m@,
    }
}

impl BotError {
    /// The error's text, e.g. `configuration error: <description>`.
    pub fn message(&self) -> (text: String)
        ensures
            text@ == bot_error_text(*self),
    {
        match self {
            BotError::Config(m) => String::from_str("configuration error: ").concat(m.as_str()),
            BotError::MarketData(m) => String::from_str("market data error: ").concat(m.as_str()),
            BotError::Quote(m) => String::from_str("quote error: ").concat(m.as_str()),
            BotError::Execution(m) => String::from_str("execution error: ").concat(m.as_str()),
        }
    }
}

} // verus!
