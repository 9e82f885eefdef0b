use vstd::prelude::*;
use vstd::string::*;

verus! {

/// Start-up settings of the service, built once and handed to whatever needs them.
pub struct Config {
    pub database_url: String,
    pub token: String,
    pub api_url: String,
    pub proxy_url: Option<String>,
}

impl Default for Config {
    fn default() -> (r: Self)
        ensures
            r.database_url@ == Seq::<char>::empty(),
            r.token@ == Seq::<char>::empty(),
            r.api_url@ == "https://v2.gitlogs.xyz"@,
            r.proxy_url matches Some(p) && p@ == "http://127.0.0.1:3219"@,
    {
        Config {
            database_url: String::new(),
            token: String::new(),
            api_url: String::from_str("https://v2.gitlogs.xyz"),
            proxy_url: Some(String::from_str("http://127.0.0.1:3219")),
        }
    }
}

} // verus!
