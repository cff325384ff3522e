use chat_relay::config::log_level;
use chat_relay::config::Config;
use chat_relay::config::LogLevel;
use chat_relay::config::DEFAULT_PORT;

#[test]
fn default_port_is_6969() {
    assert_eq!(DEFAULT_PORT, 6969);
}

#[test]
fn log_level_by_verbosity() {
    assert_eq!(log_level(0), LogLevel::Info);
    assert_eq!(log_level(1), LogLevel::Debug);
    assert_eq!(log_level(2), LogLevel::Trace);
    assert_eq!(log_level(3), LogLevel::Trace);
    assert_eq!(log_level(255), LogLevel::Trace);
}

#[test]
fn config_falls_back_to_the_default_port() {
    assert_eq!(Config::new(None, 0), Config { port: 6969, log_level: LogLevel::Info });
    assert_eq!(Config::new(Some(8080), 1), Config { port: 8080, log_level: LogLevel::Debug });
    assert_eq!(Config::new(Some(0), 9), Config { port: 0, log_level: LogLevel::Trace });
}
