//! The credentials file and the rules that lead from it, and from what is given
//! on the command line, to a panel.
use vstd::prelude::*;

use crate::table::Table;
use crate::text::{chars_of, string_between};

verus! {

/// Holds all credentials and metadata related to a specific SPAN panel
/// configuration.
#[derive(Debug, Clone)]
pub struct PanelConfig {
    pub hostname: String,
    pub port: Option<u16>,
    pub hop_passphrase: Option<String>,
    pub ebus_broker_password: Option<String>,
    pub access_token: Option<String>,
    pub access_token_issued_at: Option<u64>,
}

/// Root structure of the `.span-auth.json` configuration file.
#[derive(Debug, Clone)]
pub struct AuthConfig {
    pub version: u32,
    pub default_panel: String,
    pub panels: Table<PanelConfig>,
}

/// The name of the credentials file in the user's home directory.
pub const AUTH_FILE_NAME: &'static str = ".span-auth.json";

/// The name of the directory with the panels' CA certificates in the user's
/// home directory.
pub const CA_CERT_DIR_NAME: &'static str = ".span-ca-certs";

/// A file or directory, and whether the user asked for it.
#[derive(Debug, PartialEq, Eq)]
pub struct Located<P> {
    pub path: P,
    pub explicit: bool,
}

/// The place of a file or directory: the one given on the command line, or else
/// the one given in the environment, or else the one in the home directory, if
/// there is a home directory. Only the last one was not asked for.
pub fn locate<P>(command_line: Option<P>, environment: Option<P>, home: Option<P>) -> (r: Option<
    Located<P>,
>)
    ensures
        r == match (command_line, environment, home) {
            (Some(path), _, _) => Some(Located { path, explicit: true }),
            (None, Some(path), _) => Some(Located { path, explicit: true }),
            (None, None, Some(path)) => Some(Located { path, explicit: false }),
            (None, None, None) => None,
        },
{
    match command_line {
        Some(path) => Some(Located { path, explicit: true }),
        None => match environment {
            Some(path) => Some(Located { path, explicit: true }),
            None => match home {
                Some(path) => Some(Located { path, explicit: false }),
                None => None,
            },
        },
    }
}

/// What to do about the credentials file.
#[derive(Clone, Copy, Debug, PartialEq, Eq, Structural)]
pub enum AuthFileStep {
    /// Read it.
    Load,
    /// Go on without it.
    Skip,
    /// Give up: it was asked for and is not there.
    Missing,
}

/// What to do about the credentials file: it is read where it exists, and only
/// one that was asked for has to exist.
pub fn auth_file_step(exists: bool, explicit: bool) -> (r: AuthFileStep)
    ensures
        r == (if exists {
            AuthFileStep::Load
        } else if explicit {
            AuthFileStep::Missing
        } else {
            AuthFileStep::Skip
        }),
{
    if exists {
        AuthFileStep::Load
    } else if explicit {
        AuthFileStep::Missing
    } else {
        AuthFileStep::Skip
    }
}

/// What the credentials file says of the panel that is asked.
#[derive(Debug, PartialEq, Eq)]
pub struct FileSettings {
    pub hostname: Option<String>,
    pub token: Option<String>,
    pub port: Option<u16>,
    pub panel_name: Option<String>,
}

impl FileSettings {
    /// The settings where no credentials file is read.
    pub fn none() -> (r: FileSettings)
        ensures
            r.hostname is None,
            r.token is None,
            r.port is None,
            r.panel_name is None,
    {
        FileSettings { hostname: None, token: None, port: None, panel_name: None }
    }
}

/// The credentials file has no panel of this name.
#[derive(Debug, PartialEq, Eq)]
pub struct PanelNotFound {
    pub panel: String,
}

impl PanelNotFound {
    /// The error in words.
    pub fn message(&self) -> (r: String)
        ensures
            r@ == "Error: Panel '"@ + self.panel@
                + "' not found in authentication configuration file."@,
    {
        let mut r = "Error: Panel '".to_owned();
        r.append(self.panel.as_str());
        r.append("' not found in authentication configuration file.");
        r
    }
}

/// The name of the panel that is asked: the requested one, or else the default
/// of the credentials file.
pub open spec fn target_panel(config: AuthConfig, requested: Option<&str>) -> Seq<char> {
    match requested {
        Some(name) => name@,
        None => config.default_panel@,
    }
}

/// A copy of an optional string.
fn copy_of(s: &Option<String>) -> (r: Option<String>)
    ensures
        r == *s,
{
    match s {
        Some(text) => Some(text.clone()),
        None => None,
    }
}

/// What the credentials file says of the panel that is asked.
pub fn panel_settings(config: &AuthConfig, requested: Option<&str>) -> (r: Result<
    FileSettings,
    PanelNotFound,
>)
    ensures
        match r {
            Ok(settings) => {
                let target = target_panel(*config, requested);
                let panel = config.panels@[target];
                &&& config.panels@.dom().contains(target)
                &&& settings.hostname == Some(panel.hostname)
                &&& settings.token == panel.access_token
                &&& settings.port == panel.port
                &&& settings.panel_name is Some
                &&& settings.panel_name->0@ == target
            },
            Err(e) => {
                &&& !config.panels@.dom().contains(target_panel(*config, requested))
                &&& e.panel@ == target_panel(*config, requested)
            },
        },
{
    let target = match requested {
        Some(name) => name.to_owned(),
        None => config.default_panel.clone(),
    };
    match config.panels.get(target.as_str()) {
        Some(panel) => Ok(
            FileSettings {
                hostname: Some(panel.hostname.clone()),
                token: copy_of(&panel.access_token),
                port: panel.port,
                panel_name: Some(target),
            },
        ),
        None => Err(PanelNotFound { panel: target }),
    }
}

/// The host name of a panel.
pub open spec fn host_of_panel(panel: Seq<char>) -> Seq<char> {
    "span-"@ + panel + ".local"@
}

/// The name of the panel with the host name, if that is the host name of a
/// panel.
pub fn panel_of_host(host: &str) -> (r: Option<String>)
    ensures
        match r {
            Some(panel) => host@ == host_of_panel(panel@),
            None => forall|panel: Seq<char>| host@ != #[trigger] host_of_panel(panel),
        },
{
    let chars = chars_of(host);
    let n = chars.len();
    proof {
        reveal_strlit("span-");
        reveal_strlit(".local");
    }
    if n < 11 || chars[0] != 's' || chars[1] != 'p' || chars[2] != 'a' || chars[3] != 'n'
        || chars[4] != '-' || chars[n - 6] != '.' || chars[n - 5] != 'l' || chars[n - 4] != 'o'
        || chars[n - 3] != 'c' || chars[n - 2] != 'a' || chars[n - 1] != 'l' {
        assert forall|panel: Seq<char>| host@ != #[trigger] host_of_panel(panel) by {
            let other = host_of_panel(panel);
            let m = other.len() as int;
            assert(other[0] == 's' && other[1] == 'p' && other[2] == 'a' && other[3] == 'n'
                && other[4] == '-');
            assert(other[m - 6] == '.' && other[m - 5] == 'l' && other[m - 4] == 'o' && other[m
                - 3] == 'c' && other[m - 2] == 'a' && other[m - 1] == 'l');
        }
        return None;
    }
    let panel = string_between(&chars, 5, n - 6);
    assert(host@ =~= host_of_panel(panel@));
    Some(panel)
}

/// What the command line says of the connection.
#[derive(Debug, PartialEq, Eq)]
pub struct Overrides {
    pub host: Option<String>,
    pub token: Option<String>,
    pub port: Option<u16>,
}

/// Where a panel is reached, and how.
#[derive(Debug, PartialEq, Eq)]
pub struct Connection {
    pub host: String,
    pub token: Option<String>,
    pub port: Option<u16>,
    pub panel_name: Option<String>,
}

/// Neither the command line nor the credentials file gives a host.
#[derive(Clone, Copy, Debug, PartialEq, Eq, Structural)]
pub struct NoHost;

/// The first value, or else the second.
pub open spec fn first_of<T>(first: Option<T>, second: Option<T>) -> Option<T> {
    if first is Some {
        first
    } else {
        second
    }
}

/// The first value, or else the second.
fn either<T>(first: Option<T>, second: Option<T>) -> (r: Option<T>)
    ensures
        r == first_of(first, second),
{
    match first {
        Some(value) => Some(value),
        None => second,
    }
}

/// The connection to a panel. What the command line gives takes precedence over
/// what the credentials file gives. Where the file does not tell the name of the
/// panel, it is taken from the host name.
pub fn resolve_connection(overrides: Overrides, file: FileSettings) -> (r: Result<
    Connection,
    NoHost,
>)
    ensures
        r is Ok <==> first_of(overrides.host, file.hostname) is Some,
        r matches Ok(connection) ==> {
            &&& first_of(overrides.host, file.hostname) == Some(connection.host)
            &&& connection.token == first_of(overrides.token, file.token)
            &&& connection.port == first_of(overrides.port, file.port)
            &&& file.panel_name is Some ==> connection.panel_name == file.panel_name
            &&& file.panel_name is None ==> match connection.panel_name {
                Some(panel) => connection.host@ == host_of_panel(panel@),
                None => forall|panel: Seq<char>|
                    connection.host@ != #[trigger] host_of_panel(panel),
            }
        },
{
    let host = match either(overrides.host, file.hostname) {
        Some(host) => host,
        None => return Err(NoHost),
    };
    let panel_name = match file.panel_name {
        Some(panel) => Some(panel),
        None => panel_of_host(host.as_str()),
    };
    Ok(
        Connection {
            host,
            token: either(overrides.token, file.token),
            port: either(overrides.port, file.port),
            panel_name,
        },
    )
}

/// The name of the file with the CA certificate of the panel, where TLS is used
/// and the panel has a name.
pub fn certificate_file(use_tls: bool, panel_name: Option<&str>) -> (r: Option<String>)
    ensures
        match r {
            Some(file) => use_tls && panel_name is Some && file@ == panel_name->0@ + ".crt"@,
            None => !use_tls || panel_name is None,
        },
{
    match panel_name {
        Some(panel) => {
            if use_tls {
                let mut file = panel.to_owned();
                file.append(".crt");
                Some(file)
            } else {
                None
            }
        },
        None => None,
    }
}

/// The host name of a panel determines the panel's name.
pub proof fn law_host_determines_panel(a: Seq<char>, b: Seq<char>)
    requires
        host_of_panel(a) == host_of_panel(b),
    ensures
        a == b,
{
    reveal_strlit("span-");
    reveal_strlit(".local");
    let host = host_of_panel(a);
    assert(a =~= host.subrange(5, host.len() - 6));
    assert(b =~= host.subrange(5, host.len() - 6));
}

/// The requested panel is asked where one is requested, else the default panel.
pub proof fn law_requested_panel_comes_first(config: AuthConfig, name: &str)
    ensures
        target_panel(config, Some(name)) == name@,
        target_panel(config, None) == config.default_panel@,
{
}

/// The host name of a panel is made of `span-`, the name of the panel and
/// `.local`.
pub proof fn law_host_name_of_a_panel(panel: Seq<char>)
    ensures
        host_of_panel(panel) == seq!['s', 'p', 'a', 'n', '-'] + panel + seq![
            '.',
            'l',
            'o',
            'c',
            'a',
            'l',
        ],
{
    reveal_strlit("span-");
    reveal_strlit(".local");
    assert("span-"@ =~= seq!['s', 'p', 'a', 'n', '-']);
    assert(".local"@ =~= seq!['.', 'l', 'o', 'c', 'a', 'l']);
}

/// The first value is taken where it is there, else the second.
pub proof fn law_first_value_comes_first<T>(value: T, second: Option<T>)
    ensures
        first_of(Some(value), second) == Some(value),
        first_of(None, second) == second,
{
}

/// A place is found exactly where some source gives one, it is that of the first
/// source that does, and it counts as asked for exactly where that source is the
/// command line or the environment.
pub proof fn law_first_place_is_taken<P>(
    command_line: Option<P>,
    environment: Option<P>,
    home: Option<P>,
    r: Option<Located<P>>,
)
    requires
        call_ensures(locate::<P>, (command_line, environment, home), r),
    ensures
        r is None <==> command_line is None && environment is None && home is None,
        r matches Some(place) ==> Some(place.path) == first_of(
            command_line,
            first_of(environment, home),
        ),
        r matches Some(place) ==> (place.explicit <==> command_line is Some || environment is Some),
{
}

/// The credentials file is read exactly where it exists, and its absence is an
/// error exactly where it was asked for.
pub proof fn law_credentials_have_to_exist_where_asked_for(
    exists: bool,
    explicit: bool,
    r: AuthFileStep,
)
    requires
        call_ensures(auth_file_step, (exists, explicit), r),
    ensures
        r is Load <==> exists,
        r is Missing <==> !exists && explicit,
{
}

/// The settings are those of the panel of the name, and there are some exactly
/// where the credentials file has such a panel: for every panel of the file, the
/// request for it and the file with it as the default lead to the same settings.
pub proof fn law_settings_are_those_of_the_panel(
    config: AuthConfig,
    name: &str,
    other: AuthConfig,
    r: Result<FileSettings, PanelNotFound>,
    s: Result<FileSettings, PanelNotFound>,
)
    requires
        other.panels@ == config.panels@,
        other.default_panel@ == name@,
        call_ensures(panel_settings, (&config, Some(name)), r),
        call_ensures(panel_settings, (&other, None::<&str>), s),
    ensures
        r is Ok <==> config.panels@.contains_key(name@),
        s is Ok <==> config.panels@.contains_key(name@),
        r matches Ok(settings) ==> s is Ok && settings.hostname == s->Ok_0.hostname
            && settings.token == s->Ok_0.token && settings.port == s->Ok_0.port,
        r matches Ok(settings) ==> settings.hostname == Some(config.panels@[name@].hostname)
            && settings.token == config.panels@[name@].access_token && settings.port
            == config.panels@[name@].port,
        r matches Err(e) ==> e.panel@ == name@,
{
}

/// There is a certificate file exactly where TLS is used and the panel has a
/// name, and it is named by the panel and `.crt`.
pub proof fn law_certificate_is_named_by_the_panel(
    use_tls: bool,
    panel_name: Option<&str>,
    r: Option<String>,
)
    requires
        call_ensures(certificate_file, (use_tls, panel_name), r),
    ensures
        r is Some <==> use_tls && panel_name is Some,
        r is Some ==> r->0@ == panel_name->0@ + seq!['.', 'c', 'r', 't'],
{
    reveal_strlit(".crt");
    assert(".crt"@ =~= seq!['.', 'c', 'r', 't']);
}

}
