//! Client configuration and its rendering to the text written back to disk;
//! reading and writing the file itself is the surrounding program's work.

use vstd::prelude::*;

use crate::url::Url;

verus! {

/// Client configuration: the paste provider's address, an optional API key,
/// and, when the configuration was read from disk, the path it came from
/// (kept as a plain string; the surrounding program does the file work).
#[derive(Debug)]
pub struct Config {
    pub provider: Url,
    pub creds: Option<String>,
    pub handle: Option<String>,
}

impl Config {
    pub fn new() -> (r: Config)
        ensures
            r.provider@.https && r.provider@.base_url == Seq::<char>::empty()
                && r.provider@.is_dogbin,
            r.creds is None,
            r.handle is None,
    {
        Config { provider: Url::new(), creds: None, handle: None }
    }

    /// The full text written back to the configuration file: the provider
    /// line, then a credentials line when an API key is stored.
    pub fn render(&self) -> (r: String)
        ensures
            self.creds is Some ==> r@ == "provider = "@ + self.provider@.base_url + "\n"@
                + "creds = "@ + self.creds->0@ + "\n"@,
            self.creds is None ==> r@ == "provider = "@ + self.provider@.base_url + "\n"@,
    {
        let mut out = self.provider.export();
        match &self.creds {
            Some(cred) => {
                out.append("creds = ");
                out.append(cred.as_str());
                out.append("\n");
            },
            None => {},
        }
        out
    }
}

} // verus!
