use span_circuit_info::config::{
    auth_file_step, certificate_file, locate, panel_of_host, panel_settings, resolve_connection,
    AuthConfig, AuthFileStep, Connection, FileSettings, Located, NoHost, Overrides, PanelConfig,
    PanelNotFound, AUTH_FILE_NAME, CA_CERT_DIR_NAME,
};
use span_circuit_info::table::Table;

fn s(text: &str) -> String {
    text.to_string()
}

fn some(text: &str) -> Option<String> {
    Some(text.to_string())
}

fn panel(hostname: &str, token: Option<String>, port: Option<u16>) -> PanelConfig {
    PanelConfig {
        hostname: s(hostname),
        port,
        hop_passphrase: None,
        ebus_broker_password: None,
        access_token: token,
        access_token_issued_at: Some(1),
    }
}

fn config() -> AuthConfig {
    let mut panels = Table::new();
    panels.insert(s("main"), panel("span-main.local", some("t1"), Some(8443)));
    panels.insert(s("guest"), panel("10.0.0.7", None, None));
    AuthConfig { version: 1, default_panel: s("main"), panels }
}

#[test]
fn places_are_taken_in_order() {
    let all = locate(Some("cli"), Some("env"), Some("home"));
    assert_eq!(all, Some(Located { path: "cli", explicit: true }));
    let env = locate(None, Some("env"), Some("home"));
    assert_eq!(env, Some(Located { path: "env", explicit: true }));
    let home = locate(None, None, Some("home"));
    assert_eq!(home, Some(Located { path: "home", explicit: false }));
    assert_eq!(locate::<&str>(None, None, None), None);
}

#[test]
fn names_in_the_home_directory() {
    assert_eq!(AUTH_FILE_NAME, ".span-auth.json");
    assert_eq!(CA_CERT_DIR_NAME, ".span-ca-certs");
}

#[test]
fn only_a_requested_file_has_to_exist() {
    assert_eq!(auth_file_step(true, true), AuthFileStep::Load);
    assert_eq!(auth_file_step(true, false), AuthFileStep::Load);
    assert_eq!(auth_file_step(false, true), AuthFileStep::Missing);
    assert_eq!(auth_file_step(false, false), AuthFileStep::Skip);
}

#[test]
fn the_default_panel_is_taken() {
    let expected = FileSettings {
        hostname: some("span-main.local"),
        token: some("t1"),
        port: Some(8443),
        panel_name: some("main"),
    };
    assert_eq!(panel_settings(&config(), None), Ok(expected));
}

#[test]
fn a_requested_panel_is_taken() {
    let expected = FileSettings {
        hostname: some("10.0.0.7"),
        token: None,
        port: None,
        panel_name: some("guest"),
    };
    assert_eq!(panel_settings(&config().clone(), Some("guest")), Ok(expected));
}

#[test]
fn an_unknown_panel_is_refused() {
    let error = panel_settings(&config(), Some("attic"));
    assert_eq!(error, Err(PanelNotFound { panel: s("attic") }));
    assert_eq!(
        PanelNotFound { panel: s("attic") }.message(),
        "Error: Panel 'attic' not found in authentication configuration file."
    );
}

#[test]
fn panels_by_their_host_names() {
    assert_eq!(panel_of_host("span-abc.local"), some("abc"));
    assert_eq!(panel_of_host("span-.local"), some(""));
    assert_eq!(panel_of_host("span-nt-é.x.local"), some("nt-é.x"));
    assert_eq!(panel_of_host("span-abc.localhost"), None);
    assert_eq!(panel_of_host("Span-abc.local"), None);
    assert_eq!(panel_of_host("span.local"), None);
    assert_eq!(panel_of_host("10.0.0.7"), None);
    assert_eq!(panel_of_host(""), None);
}

#[test]
fn the_command_line_comes_first() {
    let overrides = Overrides { host: some("1.2.3.4"), token: some("t2"), port: Some(80) };
    let file = FileSettings {
        hostname: some("span-main.local"),
        token: some("t1"),
        port: Some(8443),
        panel_name: some("main"),
    };
    let expected = Connection {
        host: s("1.2.3.4"),
        token: some("t2"),
        port: Some(80),
        panel_name: some("main"),
    };
    assert_eq!(resolve_connection(overrides, file), Ok(expected));
}

#[test]
fn the_file_fills_what_is_left_open() {
    let overrides = Overrides { host: None, token: None, port: None };
    let file = FileSettings {
        hostname: some("10.0.0.7"),
        token: some("t1"),
        port: Some(8443),
        panel_name: some("main"),
    };
    let expected = Connection {
        host: s("10.0.0.7"),
        token: some("t1"),
        port: Some(8443),
        panel_name: some("main"),
    };
    assert_eq!(resolve_connection(overrides, file), Ok(expected));
}

#[test]
fn the_host_name_tells_the_panel() {
    let overrides = Overrides { host: some("span-abc.local"), token: None, port: None };
    let expected = Connection {
        host: s("span-abc.local"),
        token: None,
        port: None,
        panel_name: some("abc"),
    };
    assert_eq!(resolve_connection(overrides, FileSettings::none()), Ok(expected));
    let overrides = Overrides { host: some("10.0.0.7"), token: None, port: None };
    let expected = Connection { host: s("10.0.0.7"), token: None, port: None, panel_name: None };
    assert_eq!(resolve_connection(overrides, FileSettings::none()), Ok(expected));
}

#[test]
fn without_a_host_there_is_no_connection() {
    let overrides = Overrides { host: None, token: some("t"), port: Some(1) };
    assert_eq!(resolve_connection(overrides, FileSettings::none()), Err(NoHost));
}

#[test]
fn certificates_of_panels() {
    assert_eq!(certificate_file(true, Some("main")), some("main.crt"));
    assert_eq!(certificate_file(false, Some("main")), None);
    assert_eq!(certificate_file(true, None), None);
}
