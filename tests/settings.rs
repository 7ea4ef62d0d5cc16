use multimeter::config::{parse_i32, parse_u32, Config, DisplayColor};
use multimeter::window::{calculate_window_position, PositionError};

#[test]
fn config_from_values() {
    let c = Config::new("/dev/ttyUSB0", "9600", "2", "V", "3_3", "1", "h", "g", "0").unwrap();
    assert_eq!(c.port_name, "/dev/ttyUSB0");
    assert_eq!(c.baud_rate, 9600);
    assert_eq!(c.channel_no, 2);
    assert_eq!(c.unit, "V");
    assert_eq!(c.window_position, "3_3");
    assert!(c.scpi_protocol_enabled);
    assert_eq!(c.enable_chart, "h");
    assert_eq!(c.color, DisplayColor::Green);
    assert!(!c.enable_csv_logger);
}

#[test]
fn config_defaults_and_errors() {
    let c = Config::new("p", "115200", "1", "A", "1_1", "0", "", "x", "1").unwrap();
    assert_eq!(c.color, DisplayColor::Red);
    assert!(!c.scpi_protocol_enabled);
    assert!(c.enable_csv_logger);
    let b = Config::new("p", "115200", "1", "A", "1_1", "0", "", "b", "").unwrap();
    assert_eq!(b.color, DisplayColor::Blue);
    assert!(!b.enable_csv_logger);
    assert_eq!(
        Config::new("p", "fast", "1", "A", "1_1", "0", "", "r", "").unwrap_err(),
        "Invalid baud rate"
    );
    assert_eq!(
        Config::new("p", "9600", "-1", "A", "1_1", "0", "", "r", "").unwrap_err(),
        "Invalid channel number"
    );
}

#[test]
fn validators() {
    assert!(Config::validate_number("-12").is_ok());
    assert_eq!(
        Config::validate_number("x1").unwrap_err(),
        "`x1` is not a valid integer!"
    );
    assert!(Config::valid_baud("9600").is_ok());
    assert_eq!(
        Config::valid_baud("-9600").unwrap_err(),
        "Invalid baud rate '-9600' specified"
    );
}

#[test]
fn integer_parsing() {
    assert_eq!(parse_u32("+12"), Some(12));
    assert_eq!(parse_u32("4294967295"), Some(u32::MAX));
    assert_eq!(parse_u32("4294967296"), None);
    assert_eq!(parse_u32(""), None);
    assert_eq!(parse_i32("-2147483648"), Some(i32::MIN));
    assert_eq!(parse_i32("2147483648"), None);
    assert_eq!(parse_i32("-"), None);
}

#[test]
fn window_positions() {
    assert_eq!(calculate_window_position("3_3", 1920, 1080, 900, 150), Ok((750, 600)));
    assert_eq!(calculate_window_position("1_1", 1920, 1080, 900, 150), Ok((0, 60)));
    assert_eq!(calculate_window_position("4_4", 1920, 1080, 900, 150), Ok((1230, 870)));
}

#[test]
fn window_position_errors() {
    assert_eq!(calculate_window_position("33", 1920, 1080, 900, 150), Err(PositionError::Format));
    assert_eq!(calculate_window_position("1_2_3", 1920, 1080, 900, 150), Err(PositionError::Format));
    assert_eq!(calculate_window_position("a_3", 1920, 1080, 900, 150), Err(PositionError::Horizontal));
    assert_eq!(calculate_window_position("3_b", 1920, 1080, 900, 150), Err(PositionError::Vertical));
    assert_eq!(calculate_window_position("5_1", 1920, 1080, 900, 150), Err(PositionError::Sections));
}
