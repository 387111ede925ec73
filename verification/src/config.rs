//! Configuration from the process environment and the preopened directories.
//!
//! Nothing sensitive is hard-coded here: the OAuth ids are supplied by whoever
//! registers the app, and the refresh token itself lives only in `token.json`
//! in the state directory.
use vstd::prelude::*;
use vstd::string::*;
use vstd::utf8::*;
use crate::http_client::header_texts;
use crate::text::{eq_ignore_case, opt_is, opt_text, same_ignoring_case, text_eq, texts};

verus! {

/// Configuration of the daemon.
#[derive(Debug)]
pub struct Config {
    pub client_id: Option<String>,
    pub tenant_id: String,
    pub drive_base: String,
    pub basic_auth_secret: Option<String>,
    /// Position of the state directory among the preopened directories. It
    /// must be granted as `--dir <path>::/state`.
    pub state_dir: usize,
}

/// What a [`Config`] stands for.
pub struct ConfigView {
    pub client_id: Option<Seq<char>>,
    pub tenant_id: Seq<char>,
    pub drive_base: Seq<char>,
    pub basic_auth_secret: Option<Seq<char>>,
    pub state_dir: int,
}

impl View for Config {
    type V = ConfigView;

    open spec fn view(&self) -> ConfigView {
        ConfigView {
            client_id: opt_text(self.client_id),
            tenant_id: self.tenant_id@,
            drive_base: self.drive_base@,
            basic_auth_secret: opt_text(self.basic_auth_secret),
            state_dir: self.state_dir as int,
        }
    }
}

/// The value of the first variable with the name.
pub open spec fn variable(vars: Seq<(Seq<char>, Seq<char>)>, name: Seq<char>) -> Option<Seq<char>>
    decreases vars.len(),
{
    if vars.len() == 0 {
        None
    } else if variable(vars.drop_last(), name) is Some {
        variable(vars.drop_last(), name)
    } else if vars.last().0 == name {
        Some(vars.last().1)
    } else {
        None
    }
}

proof fn lemma_variable_stays(vars: Seq<(Seq<char>, Seq<char>)>, name: Seq<char>, k: int)
    requires
        0 <= k <= vars.len(),
        variable(vars.take(k), name) is Some,
    ensures
        variable(vars, name) == variable(vars.take(k), name),
    decreases vars.len() - k,
{
    if k < vars.len() {
        assert(vars.take(k + 1).drop_last() =~= vars.take(k));
        lemma_variable_stays(vars, name, k + 1);
    } else {
        assert(vars.take(k) =~= vars);
    }
}

/// Looks a variable up.
fn env(vars: &Vec<(String, String)>, name: &str) -> (r: Option<String>)
    ensures
        opt_text(r) == variable(header_texts(vars@), name@),
{
    let ghost all = header_texts(vars@);
    for i in 0..vars.len()
        invariant
            all == header_texts(vars@),
            variable(all.take(i as int), name@) is None,
    {
        assert(all.take(i + 1).drop_last() =~= all.take(i as int));
        assert(all.take(i + 1).last() == (vars@[i as int].0@, vars@[i as int].1@));
        if text_eq(vars[i].0.as_str(), name) {
            proof {
                lemma_variable_stays(all, name@, i + 1);
            }
            return Some(vars[i].1.clone());
        }
    }
    assert(all.take(vars@.len() as int) =~= all);
    None
}

/// Minimum accepted length of the shared Basic-auth secret, in bytes.
pub const MIN_BASIC_AUTH_SECRET_LEN: usize = 16;

/// Whether the text is a placeholder that must never be accepted as a secret.
pub open spec fn is_placeholder(s: Seq<char>) -> bool {
    same_ignoring_case("REPLACE_ME"@, s) || same_ignoring_case("changeme"@, s)
        || same_ignoring_case("secret"@, s) || same_ignoring_case("password"@, s)
}

/// The secret to be asked for: none only if that was asked for explicitly, and
/// no short or placeholder one in any case.
pub open spec fn accepted_secret(secret: Option<Seq<char>>, allow_unauthenticated: bool) -> Result<
    Option<Seq<char>>,
    Seq<char>,
> {
    match secret {
        None => if allow_unauthenticated {
            Ok(None)
        } else {
            Err(
                "ONEDRIVE_BASIC_AUTH_SECRET is not set; refusing to serve unauthenticated. Set a secret (>= 16 chars) or ONEDRIVE_ALLOW_UNAUTHENTICATED=1 for local dev"@,
            )
        },
        Some(s) => if encode_utf8(s).len() < MIN_BASIC_AUTH_SECRET_LEN {
            Err("ONEDRIVE_BASIC_AUTH_SECRET is too short (need at least 16 characters)"@)
        } else if is_placeholder(s) {
            Err(
                "ONEDRIVE_BASIC_AUTH_SECRET is a placeholder value; generate a real secret (e.g. `openssl rand -base64 32`)"@,
            )
        } else {
            Ok(Some(s))
        },
    }
}

/// Fails closed: the daemon refuses to serve unless a real shared secret is
/// configured, or the operator explicitly opts out of authentication.
pub fn validate_basic_auth_secret(
    secret: Option<String>,
    allow_unauthenticated: bool,
) -> (r: Result<Option<String>, String>)
    ensures
        match r {
            Ok(s) => accepted_secret(opt_text(secret), allow_unauthenticated) == Ok::<
                Option<Seq<char>>,
                Seq<char>,
            >(opt_text(s)),
            Err(e) => accepted_secret(opt_text(secret), allow_unauthenticated) == Err::<
                Option<Seq<char>>,
                Seq<char>,
            >(e@),
        },
{
    match secret {
        None => {
            if allow_unauthenticated {
                Ok(None)
            } else {
                Err(
                    "ONEDRIVE_BASIC_AUTH_SECRET is not set; refusing to serve unauthenticated. Set a secret (>= 16 chars) or ONEDRIVE_ALLOW_UNAUTHENTICATED=1 for local dev".to_owned(),
                )
            }
        },
        Some(s) => {
            if s.as_str().as_bytes().len() < MIN_BASIC_AUTH_SECRET_LEN {
                Err(
                    "ONEDRIVE_BASIC_AUTH_SECRET is too short (need at least 16 characters)".to_owned(),
                )
            } else if eq_ignore_case("REPLACE_ME", s.as_str()) || eq_ignore_case(
                "changeme",
                s.as_str(),
            ) || eq_ignore_case("secret", s.as_str()) || eq_ignore_case("password", s.as_str()) {
                Err(
                    "ONEDRIVE_BASIC_AUTH_SECRET is a placeholder value; generate a real secret (e.g. `openssl rand -base64 32`)".to_owned(),
                )
            } else {
                Ok(Some(s))
            }
        },
    }
}

/// Without an explicit opt-out no configuration lets requests pass without a
/// secret, and no secret that is accepted is shorter than the minimum.
pub proof fn law_fails_closed(secret: Option<Seq<char>>, allow_unauthenticated: bool)
    ensures
        accepted_secret(secret, false) matches Ok(s) ==> s is Some,
        accepted_secret(secret, allow_unauthenticated) matches Ok(Some(s)) ==> encode_utf8(s).len()
            >= MIN_BASIC_AUTH_SECRET_LEN && !is_placeholder(s) && secret == Some(s),
{
}

/// The position of the first directory with the path.
pub open spec fn directory(paths: Seq<Seq<char>>, path: Seq<char>) -> Option<int>
    decreases paths.len(),
{
    if paths.len() == 0 {
        None
    } else if directory(paths.drop_last(), path) is Some {
        directory(paths.drop_last(), path)
    } else if paths.last() == path {
        Some(paths.len() - 1)
    } else {
        None
    }
}

proof fn lemma_directory_stays(paths: Seq<Seq<char>>, path: Seq<char>, k: int)
    requires
        0 <= k <= paths.len(),
        directory(paths.take(k), path) is Some,
    ensures
        directory(paths, path) == directory(paths.take(k), path),
    decreases paths.len() - k,
{
    if k < paths.len() {
        assert(paths.take(k + 1).drop_last() =~= paths.take(k));
        lemma_directory_stays(paths, path, k + 1);
    } else {
        assert(paths.take(k) =~= paths);
    }
}

fn find_directory(paths: &Vec<String>, path: &str) -> (r: Option<usize>)
    ensures
        match r {
            Some(i) => directory(texts(paths@), path@) == Some(i as int) && i < paths@.len(),
            None => directory(texts(paths@), path@) is None,
        },
{
    let ghost all = texts(paths@);
    for i in 0..paths.len()
        invariant
            all == texts(paths@),
            directory(all.take(i as int), path@) is None,
    {
        assert(all.take(i + 1).drop_last() =~= all.take(i as int));
        assert(all.take(i + 1).last() == paths@[i as int]@);
        if text_eq(paths[i].as_str(), path) {
            proof {
                lemma_directory_stays(all, path@, i + 1);
            }
            return Some(i);
        }
    }
    assert(all.take(paths@.len() as int) =~= all);
    None
}

/// A text or, if there is none, the default.
pub open spec fn or_default(t: Option<Seq<char>>, default: Seq<char>) -> Seq<char> {
    match t {
        Some(t) => t,
        None => default,
    }
}

/// The configuration that variables and directories describe.
pub open spec fn configured(
    vars: Seq<(Seq<char>, Seq<char>)>,
    dirs: Seq<Seq<char>>,
) -> Result<ConfigView, Seq<char>> {
    match accepted_secret(
        variable(vars, "ONEDRIVE_BASIC_AUTH_SECRET"@),
        variable(vars, "ONEDRIVE_ALLOW_UNAUTHENTICATED"@) == Some("1"@),
    ) {
        Err(e) => Err(e),
        Ok(secret) => match directory(dirs, "/state"@) {
            None => Err(
                "no /state preopen found; run wasmtime with --dir <state-dir>::/state"@,
            ),
            Some(i) => Ok(
                ConfigView {
                    client_id: variable(vars, "ONEDRIVE_CLIENT_ID"@),
                    tenant_id: or_default(variable(vars, "ONEDRIVE_TENANT_ID"@), "common"@),
                    drive_base: or_default(variable(vars, "ONEDRIVE_DRIVE_BASE"@), "me/drive"@),
                    basic_auth_secret: secret,
                    state_dir: i,
                },
            ),
        },
    }
}

fn take_or(t: Option<String>, default: &str) -> (r: String)
    ensures
        r@ == or_default(opt_text(t), default@),
{
    match t {
        Some(t) => t,
        None => default.to_owned(),
    }
}

impl Config {
    /// Loads the configuration from the environment variables and the paths
    /// of the preopened directories. A client id is optional, so that a still
    /// valid access token can be used without one.
    pub fn load(vars: &Vec<(String, String)>, dirs: &Vec<String>) -> (r: Result<Self, String>)
        ensures
            match r {
                Ok(c) => configured(header_texts(vars@), texts(dirs@)) == Ok::<
                    ConfigView,
                    Seq<char>,
                >(c@) && c.state_dir < dirs@.len(),
                Err(e) => configured(header_texts(vars@), texts(dirs@)) == Err::<
                    ConfigView,
                    Seq<char>,
                >(e@),
            },
    {
        let client_id = env(vars, "ONEDRIVE_CLIENT_ID");
        let tenant_id = take_or(env(vars, "ONEDRIVE_TENANT_ID"), "common");
        let drive_base = take_or(env(vars, "ONEDRIVE_DRIVE_BASE"), "me/drive");
        let secret = env(vars, "ONEDRIVE_BASIC_AUTH_SECRET");
        let open = opt_is(&env(vars, "ONEDRIVE_ALLOW_UNAUTHENTICATED"), "1");
        let basic_auth_secret = match validate_basic_auth_secret(secret, open) {
            Ok(s) => s,
            Err(e) => {
                return Err(e);
            },
        };
        match find_directory(dirs, "/state") {
            Some(state_dir) => Ok(
                Config { client_id, tenant_id, drive_base, basic_auth_secret, state_dir },
            ),
            None => Err(
                "no /state preopen found; run wasmtime with --dir <state-dir>::/state".to_owned(),
            ),
        }
    }
}

} // verus!
