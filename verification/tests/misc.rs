use stm_query_builder::mailto::{mailto_uri, percent_encode};
use stm_query_builder::settings::{Settings, ThemeColor, ThemeMode, FONT_MAX, FONT_MIN};
use stm_query_builder::text::parse_u16;
use stm_query_builder::travel_request::TravelRequestStatus;
use stm_query_builder::user_templates::UserTemplate;
use stm_query_builder::utils::sanitize_identifier;

#[test]
fn percent_encoding() {
    assert_eq!(percent_encode("AZaz09-_.~"), "AZaz09-_.~");
    assert_eq!(percent_encode("a b"), "a%20b");
    assert_eq!(percent_encode("x\r\ny"), "x%0Ay");
    assert_eq!(percent_encode("'{}'=*"), "%27%7B%7D%27%3D%2A");
    assert_eq!(percent_encode("é"), "%C3%A9");
    assert_eq!(percent_encode(""), "");
}

#[test]
fn mailto_link() {
    assert_eq!(
        mailto_uri("SELECT *\nFROM T"),
        "mailto:?subject=SQL%20Query&body=SELECT%20%2A%0AFROM%20T"
    );
}

#[test]
fn sanitize() {
    assert_eq!(sanitize_identifier("emp-id 1_x!"), "empid1_x");
    assert_eq!(sanitize_identifier("Ünïcode_ok"), "Ünïcode_ok");
    assert_eq!(sanitize_identifier(sanitize_identifier("a b-c").as_str()), "abc");
}

#[test]
fn u16_parsing() {
    assert_eq!(parse_u16("14"), Some(14));
    assert_eq!(parse_u16("+7"), Some(7));
    assert_eq!(parse_u16("007"), Some(7));
    assert_eq!(parse_u16("65535"), Some(65535));
    assert_eq!(parse_u16("65536"), None);
    assert_eq!(parse_u16("99999999999"), None);
    assert_eq!(parse_u16("-1"), None);
    assert_eq!(parse_u16("+"), None);
    assert_eq!(parse_u16(""), None);
    assert_eq!(parse_u16("1 2"), None);
    assert_eq!(parse_u16("12a"), None);
}

#[test]
fn settings_defaults_and_names() {
    let s = Settings::default();
    assert_eq!(s.font_size, 14);
    assert_eq!(s.theme_color, ThemeColor::Blue);
    assert_eq!(s.theme_mode, ThemeMode::Light);
    assert_eq!((FONT_MIN, FONT_MAX), (10, 28));
    assert_eq!(ThemeColor::Gray.label(), "Gray");
    assert_eq!(ThemeColor::Green.label(), "Green");
    assert_eq!(ThemeMode::Dark.label(), "Dark");
}

#[test]
fn travel_status_names() {
    assert_eq!(TravelRequestStatus::Draft.as_str(), "draft");
    assert_eq!(TravelRequestStatus::Submitted.as_str(), "submitted");
    assert_eq!(TravelRequestStatus::Approved.as_str(), "approved");
    assert_eq!(TravelRequestStatus::Rejected.as_str(), "rejected");
    assert_eq!(TravelRequestStatus::Settled.as_str(), "settled");
}

#[test]
fn user_template_is_listed_as_own() {
    let u = UserTemplate {
        id: "a".to_string(),
        name: "A".to_string(),
        description: "d".to_string(),
        sql: "SELECT 1".to_string(),
    };
    let t = u.to_query_template();
    assert_eq!(t.id, "a");
    assert_eq!(t.group.as_deref(), Some("My Templates"));
    assert_eq!(t.name, "A");
    assert_eq!(t.description, "d");
    assert_eq!(t.sql, "SELECT 1");
}
