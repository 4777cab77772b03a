//! Process configuration values and their defaults.
//!
//! Reading option files and command lines is the shell's business; this
//! module holds the configuration shape, the default values, and the
//! usage text.

use vstd::prelude::*;
use vstd::string::StringExecFns;

verus! {

/// Database settings.
#[derive(Debug)]
pub struct DbConfig {
    pub connection_string: String,
    pub run_migrations: bool,
}

/// Web front-end settings.
#[derive(Debug)]
pub struct WebConfig {
    pub bind: String,
    pub base: String,
    pub slack_token: Option<String>,
    pub sharebill_url: Option<String>,
}

/// The whole configuration.
#[derive(Debug)]
pub struct Config {
    pub database: DbConfig,
    pub web: WebConfig,
}

/// The outcome of reading the configuration.
#[derive(Debug)]
pub enum ConfigResult {
    Loaded(Config),
    Help,
    Invalid(String),
}

/// The default database: a volatile in-memory store.
pub fn default_connection_string() -> (r: String)
    ensures
        r@ == ":memory:"@,
{
    ":memory:".to_owned()
}

/// The default bind address of the web front end.
pub fn default_bind() -> (r: String)
    ensures
        r@ == "localhost:3000"@,
{
    "localhost:3000".to_owned()
}

/// The default base URL for links in responses.
pub fn default_base() -> (r: String)
    ensures
        r@ == "http://localhost:3000/"@,
{
    "http://localhost:3000/".to_owned()
}

impl DbConfig {
    /// Database defaults: in-memory store, no migrations.
    pub fn new() -> (r: DbConfig)
        ensures
            r.connection_string@ == ":memory:"@,
            r.run_migrations == false,
    {
        DbConfig { connection_string: default_connection_string(), run_migrations: false }
    }
}

impl WebConfig {
    /// Web defaults: local bind and base, no tokens.
    pub fn new() -> (r: WebConfig)
        ensures
            r.bind@ == "localhost:3000"@,
            r.base@ == "http://localhost:3000/"@,
            r.slack_token is None,
            r.sharebill_url is None,
    {
        WebConfig {
            bind: default_bind(),
            base: default_base(),
            slack_token: None,
            sharebill_url: None,
        }
    }
}

impl Config {
    /// All defaults.
    pub fn new() -> (r: Config)
        ensures
            r.database.connection_string@ == ":memory:"@,
            r.database.run_migrations == false,
            r.web.bind@ == "localhost:3000"@,
            r.web.base@ == "http://localhost:3000/"@,
            r.web.slack_token is None,
            r.web.sharebill_url is None,
    {
        Config { database: DbConfig::new(), web: WebConfig::new() }
    }
}

/// The usage text of the command line.
pub open spec fn usage_text() -> Seq<char> {
    "Usage: fishsticks [options] CONFIG_FILE...\n\
    \n\
    Options:\n\
    -h, --help          print this help menu\n\
    -d, --database DATABASE\n\
    \x20                   specify database file. Use the special value\n\
    \x20                   :memory: to use a volatile in-memory database\n\
    \x20    --migrations    run pending database migrations\n\
    \x20    --bind ADDRESS  specify bind address for the http server. The\n\
    \x20                   default value is localhost:3000\n"@
}

/// The usage text, for printing by the shell.
pub fn write_help() -> (r: String)
    ensures
        r@ == usage_text(),
{
    "Usage: fishsticks [options] CONFIG_FILE...\n\
    \n\
    Options:\n\
    -h, --help          print this help menu\n\
    -d, --database DATABASE\n\
    \x20                   specify database file. Use the special value\n\
    \x20                   :memory: to use a volatile in-memory database\n\
    \x20    --migrations    run pending database migrations\n\
    \x20    --bind ADDRESS  specify bind address for the http server. The\n\
    \x20                   default value is localhost:3000\n".to_owned()
}

} // verus!
