use trackit::query::parse_add_param_raw;

#[test]
fn parse_add_param_raw_present() {
    assert_eq!(parse_add_param_raw("?add=Running"), Some("Running"));
    assert_eq!(parse_add_param_raw("?foo=bar&add=Cycling"), Some("Cycling"));
    assert_eq!(
        parse_add_param_raw("?add=Morning%20Run"),
        Some("Morning%20Run")
    );
}

#[test]
fn parse_add_param_raw_absent() {
    assert_eq!(parse_add_param_raw(""), None);
    assert_eq!(parse_add_param_raw("?foo=bar"), None);
    assert_eq!(parse_add_param_raw("?adding=foo"), None);
}

#[test]
fn add_param_first_match_and_edge_cases() {
    assert_eq!(parse_add_param_raw("add=x&add=y"), Some("x"));
    assert_eq!(parse_add_param_raw("?add="), Some(""));
    assert_eq!(parse_add_param_raw("?a&&add=z&"), Some("z"));
    assert_eq!(parse_add_param_raw("??add=z"), None);
    assert_eq!(parse_add_param_raw("?x=1&add"), None);
}
