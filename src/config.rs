//! Service configuration: where the database is and where to listen.

use crate::text::{chars_of, decimal_text, push_all, push_decimal, push_literal, string_of};
use vstd::prelude::*;

verus! {

#[derive(Clone, Debug, PartialEq, Eq)]
pub struct Config {
    pub db: DbConfig,
    pub server: ServerConfig,
}

#[derive(Clone, Debug, PartialEq, Eq)]
pub struct DbConfig {
    pub host: String,
    pub port: u16,
    pub user: String,
    pub password: String,
    pub database: String,
}

#[derive(Clone, Debug, PartialEq, Eq)]
pub struct ServerConfig {
    pub host: String,
    pub port: u16,
}

impl DbConfig {
    pub open spec fn spec_db_url(&self) -> Seq<char> {
        "postgres://"@ + self.user@ + ":"@ + self.password@ + "@"@ + self.host@ + ":"@ + decimal_text(
            self.port as nat,
        ) + "/"@ + self.database@
    }

    /// `postgres://<user>:<password>@<host>:<port>/<database>`.
    pub fn db_url(&self) -> (r: String)
        ensures
            r@ == self.spec_db_url(),
    {
        let mut out: Vec<char> = Vec::new();
        push_literal(&mut out, "postgres://");
        push_all(&mut out, &chars_of(self.user.as_str()));
        push_literal(&mut out, ":");
        push_all(&mut out, &chars_of(self.password.as_str()));
        push_literal(&mut out, "@");
        push_all(&mut out, &chars_of(self.host.as_str()));
        push_literal(&mut out, ":");
        push_decimal(&mut out, self.port as u32);
        push_literal(&mut out, "/");
        push_all(&mut out, &chars_of(self.database.as_str()));
        assert(out@ =~= self.spec_db_url());
        string_of(&out)
    }
}

impl ServerConfig {
    pub open spec fn spec_listen_address(&self) -> Seq<char> {
        self.host@ + ":"@ + decimal_text(self.port as nat)
    }

    /// `<host>:<port>`.
    pub fn listen_address(&self) -> (r: String)
        ensures
            r@ == self.spec_listen_address(),
    {
        let mut out: Vec<char> = Vec::new();
        push_all(&mut out, &chars_of(self.host.as_str()));
        push_literal(&mut out, ":");
        push_decimal(&mut out, self.port as u32);
        assert(out@ =~= self.spec_listen_address());
        string_of(&out)
    }
}

} // verus!
