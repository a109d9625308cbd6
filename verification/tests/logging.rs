use simple_starter::logging::{logger_settings, LogLevel, LoggerSettingsError};

#[test]
fn log_levels_by_name_and_number() {
    assert_eq!(logger_settings("INFO", None).unwrap(), (LogLevel::Info, 0));
    assert_eq!(logger_settings("debug", None).unwrap().0, LogLevel::Debug);
    assert_eq!(logger_settings("TrAcE", None).unwrap().0, LogLevel::Trace);
    assert_eq!(logger_settings("1", None).unwrap().0, LogLevel::Error);
    assert_eq!(logger_settings("+002", None).unwrap().0, LogLevel::Warn);
    for bad in ["verbose", "0", "6", "", "+", "-1", "warning"] {
        match logger_settings(bad, Some("+08:00")) {
            Err(e @ LoggerSettingsError::InvalidLevel { .. }) => {
                assert_eq!(e.message(), format!("Invalid log level: {}", bad));
            },
            other => panic!("unexpected {:?}", other),
        }
    }
}

#[test]
fn timezone_offsets() {
    assert_eq!(logger_settings("info", Some("+08:00")).unwrap(), (LogLevel::Info, 8 * 3600));
    assert_eq!(logger_settings("info", Some("-03:30")).unwrap(), (LogLevel::Info, -(3 * 3600 + 30 * 60)));
    assert_eq!(logger_settings("info", Some("00:00")).unwrap(), (LogLevel::Info, 0));
    match logger_settings("info", Some("UTC+8")) {
        Err(e @ LoggerSettingsError::InvalidTimezone { .. }) => {
            assert_eq!(e.message(), "Invalid timezone format (expect +HH:MM)");
        },
        other => panic!("unexpected {:?}", other),
    }
}
