// Log levels and the thresholds of the two sinks.

use couchbase_lite::logging::{Domain, Level, LogSettings};

#[test]
fn thresholds() {
    let mut settings = LogSettings::new();
    assert!(settings.logs_to_console(Level::Info));
    assert!(settings.logs_to_console(Level::Error));
    assert!(!settings.logs_to_console(Level::Verbose));
    assert!(!settings.logs_to_callback(Level::Error));
    settings.set_callback(true);
    settings.set_callback_level(Level::Verbose);
    settings.set_console_level(Level::Off);
    assert!(settings.logs_to_callback(Level::Verbose));
    assert!(!settings.logs_to_callback(Level::Debug));
    assert!(!settings.logs_to_console(Level::Error));
    assert!(!settings.logs_to_callback(Level::Off));
    settings.set_callback(false);
    assert!(!settings.logs_to_callback(Level::Error));
}

#[test]
fn numbers() {
    for n in 0..=255u8 {
        match Level::from_u8(n) {
            Some(l) => assert_eq!(l.code(), n),
            None => assert!(n > 5),
        }
        match Domain::from_u8(n) {
            Some(d) => assert_eq!(d.code(), n),
            None => assert!(n > 3),
        }
    }
    assert_eq!(Domain::from_u8(2), Some(Domain::Replicator));
    assert_eq!(Level::from_u8(3), Some(Level::Warning));
}
