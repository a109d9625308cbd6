//! Logger settings: the log level and the time zone of the timestamps, read
//! from the `logger` section of the configuration.
use crate::text::ascii_lower;
use vstd::prelude::*;

verus! {

/// Severity threshold of the log.
#[derive(PartialEq, Eq, Structural, Clone, Copy, Debug)]
pub enum LogLevel {
    Error,
    Warn,
    Info,
    Debug,
    Trace,
}

/// The level numbered by a digit: `1` is `Error` up to `5`, `Trace`.
pub open spec fn level_of_digit(c: char) -> Option<LogLevel> {
    if c == '1' {
        Some(LogLevel::Error)
    } else if c == '2' {
        Some(LogLevel::Warn)
    } else if c == '3' {
        Some(LogLevel::Info)
    } else if c == '4' {
        Some(LogLevel::Debug)
    } else if c == '5' {
        Some(LogLevel::Trace)
    } else {
        None
    }
}

/// The level of a text that reads as a number from 1 to 5 (an optional
/// `+`, then ASCII digits, all `0` but the last).
pub open spec fn numeric_level(t: Seq<char>) -> Option<LogLevel> {
    let digits = if t.len() > 0 && t[0] == '+' {
        t.drop_first()
    } else {
        t
    };
    if digits.len() > 0 && (forall|i: int| 0 <= i < digits.len() - 1 ==> digits[i] == '0') {
        level_of_digit(digits.last())
    } else {
        None
    }
}

/// The text with its ASCII capitals made small.
pub open spec fn ascii_lowercase_text(t: Seq<char>) -> Seq<char> {
    t.map_values(|c: char| ascii_lower(c))
}

/// The level a text names: a number from 1 to 5, else `error`, `warn`,
/// `info`, `debug` or `trace` in any ASCII case.
pub open spec fn level_named(t: Seq<char>) -> Option<LogLevel> {
    match numeric_level(t) {
        Some(l) => Some(l),
        None => {
            let low = ascii_lowercase_text(t);
            if low == "error"@ {
                Some(LogLevel::Error)
            } else if low == "warn"@ {
                Some(LogLevel::Warn)
            } else if low == "info"@ {
                Some(LogLevel::Info)
            } else if low == "debug"@ {
                Some(LogLevel::Debug)
            } else if low == "trace"@ {
                Some(LogLevel::Trace)
            } else {
                None
            }
        },
    }
}

/// `tracing::Level`'s `FromStr`: a number from 1 to 5 as `usize::from_str`
/// reads it (an optional `+`, then ASCII digits), else one of the five
/// names compared with `eq_ignore_ascii_case`; stated as [`level_named`].
#[verifier::external_body]
fn parse_log_level(text: &str) -> (r: Option<LogLevel>)
    ensures
        r == level_named(text@),
{
    match text.parse::<tracing::Level>() {
        Ok(tracing::Level::ERROR) => Some(LogLevel::Error),
        Ok(tracing::Level::WARN) => Some(LogLevel::Warn),
        Ok(tracing::Level::INFO) => Some(LogLevel::Info),
        Ok(tracing::Level::DEBUG) => Some(LogLevel::Debug),
        Ok(tracing::Level::TRACE) => Some(LogLevel::Trace),
        _ => None,
    }
}

/// The UTC offset, in seconds east of UTC, that `time::UtcOffset::parse`
/// reads from a text in the format `[offset_hour]:[offset_minute]`.
pub uninterp spec fn offset_named(text: Seq<char>) -> Option<i32>;

/// `time::UtcOffset::parse` with the format `[offset_hour]:[offset_minute]`
/// (such as `+08:00` or `-03:30`), as whole seconds east of UTC; `None`
/// when the text does not parse. What the parser accepts is named, not
/// stated.
#[verifier::external_body]
fn parse_utc_offset(text: &str) -> (r: Option<i32>)
    ensures
        r == offset_named(text@),
{
    let format = [
        time::format_description::BorrowedFormatItem::Component(
            time::format_description::Component::OffsetHour(time::format_description::modifier::OffsetHour::default()),
        ),
        time::format_description::BorrowedFormatItem::StringLiteral(":"),
        time::format_description::BorrowedFormatItem::Component(
            time::format_description::Component::OffsetMinute(time::format_description::modifier::OffsetMinute::default()),
        ),
    ];
    time::UtcOffset::parse(text, &format[..]).ok().map(|o| o.whole_seconds())
}

/// Why the logger settings are refused.
#[derive(Debug)]
pub enum LoggerSettingsError {
    /// `logger.level` names no level.
    InvalidLevel { level: String },
    /// `logger.timezone` is not an offset such as `+08:00`.
    InvalidTimezone { timezone: String },
}

impl LoggerSettingsError {
    /// The error's message.
    pub fn message(&self) -> (r: String)
        ensures
            r@ == match self {
                LoggerSettingsError::InvalidLevel { level } => "Invalid log level: "@ + level@,
                LoggerSettingsError::InvalidTimezone { .. } => "Invalid timezone format (expect +HH:MM)"@,
            },
    {
        match self {
            LoggerSettingsError::InvalidLevel { level } => {
                let mut r = String::from_str("Invalid log level: ");
                r.append(level.as_str());
                r
            },
            LoggerSettingsError::InvalidTimezone { .. } => String::from_str("Invalid timezone format (expect +HH:MM)"),
        }
    }
}

/// The logger's level and the UTC offset of its timestamps, in seconds
/// east of UTC: the offset named by `timezone` when given, else UTC. The
/// level is checked first.
pub fn logger_settings(level: &str, timezone: Option<&str>) -> (r: Result<(LogLevel, i32), LoggerSettingsError>)
    ensures
        match level_named(level@) {
            None => r matches Err(LoggerSettingsError::InvalidLevel { level: l }) && l@ == level@,
            Some(lv) => match timezone {
                None => r == Ok::<(LogLevel, i32), LoggerSettingsError>((lv, 0i32)),
                Some(t) => match offset_named(t@) {
                    Some(off) => r == Ok::<(LogLevel, i32), LoggerSettingsError>((lv, off)),
                    None => r matches Err(LoggerSettingsError::InvalidTimezone { timezone: z }) && z@ == t@,
                },
            },
        },
{
    let lv = match parse_log_level(level) {
        Some(lv) => lv,
        None => {
            return Err(LoggerSettingsError::InvalidLevel { level: String::from_str(level) });
        },
    };
    match timezone {
        None => Ok((lv, 0)),
        Some(t) => match parse_utc_offset(t) {
            Some(off) => Ok((lv, off)),
            None => Err(LoggerSettingsError::InvalidTimezone { timezone: String::from_str(t) }),
        },
    }
}

} // verus!
