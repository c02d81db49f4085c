//! Where the database is and where its migration scripts live.
use vstd::prelude::*;

use crate::decimal::{decimal, push_decimal};

verus! {

/// The database that holds the service's schema.
pub const DATABASE_NAME: &'static str = "pocket_rocket";

/// The migrations directory used when the configuration names none.
pub const DEFAULT_MIGRATIONS_DIR: &'static str = "./schema";

/// How to reach the database server, and where the migration scripts are.
pub struct DatabaseConfig {
    pub host: String,
    pub port: u16,
    pub username: String,
    pub password: String,
    pub migrations_path: Option<String>,
}

impl DatabaseConfig {
    /// `mysql://<username>:<password>@<host>:<port>`
    pub open spec fn server_url_text(&self) -> Seq<char> {
        "mysql://"@ + self.username@ + ":"@ + self.password@ + "@"@ + self.host@ + ":"@ + decimal(
            self.port as nat,
        )
    }

    /// The URL of the database server, naming no database.
    pub fn server_url(&self) -> (r: String)
        ensures
            r@ == self.server_url_text(),
    {
        let mut url = String::new();
        url.append("mysql://");
        url.append(self.username.as_str());
        url.append(":");
        url.append(self.password.as_str());
        url.append("@");
        url.append(self.host.as_str());
        url.append(":");
        push_decimal(&mut url, self.port as u32);
        assert(url@ =~= self.server_url_text());
        url
    }

    /// The URL of the service's own database on the server.
    pub fn database_url(&self) -> (r: String)
        ensures
            r@ == self.server_url_text() + "/"@ + "pocket_rocket"@,
    {
        let mut url = self.server_url();
        url.append("/");
        url.append(DATABASE_NAME);
        url
    }

    /// The configured migrations directory, or the default one.
    pub fn migrations_dir(&self) -> (r: String)
        ensures
            r@ == match self.migrations_path {
                Some(p) => p@,
                None => "./schema"@,
            },
    {
        match &self.migrations_path {
            Some(p) => p.clone(),
            None => String::from_str(DEFAULT_MIGRATIONS_DIR),
        }
    }
}

/// Brings the schema up to date when the service starts.
pub struct PocketDBMigrationsFairing;

impl PocketDBMigrationsFairing {
    /// The name under which the start-up hook is listed.
    pub fn name(&self) -> (r: &'static str)
        ensures
            r@ == "Database Migrations Fairing"@,
    {
        "Database Migrations Fairing"
    }
}

} // verus!
