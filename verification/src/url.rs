//! The paste provider's address and how it is rendered to a full URL string
//! and to its configuration-file line.

use vstd::prelude::*;

use crate::strutil::{contains_seq, str_contains};

verus! {

/// The address of the paste service, kept as a plain string plus a flag
/// choosing the scheme that is prepended when the string carries none.
#[derive(Debug)]
pub struct Url {
    https: bool,
    base_url: String,
    is_dogbin: bool,
}

/// The mathematical value of a [`Url`].
pub struct UrlView {
    pub https: bool,
    pub base_url: Seq<char>,
    pub is_dogbin: bool,
}

impl View for Url {
    type V = UrlView;

    closed spec fn view(&self) -> UrlView {
        UrlView { https: self.https, base_url: self.base_url@, is_dogbin: self.is_dogbin }
    }
}

/// The full address that [`Url::get`] renders: the base string itself when it
/// already names a scheme, otherwise the stored scheme choice glued in front.
pub open spec fn spec_url_get(u: UrlView) -> Seq<char> {
    if contains_seq(u.base_url, "http"@) {
        u.base_url
    } else if u.https {
        "http"@ + "://"@ + u.base_url
    } else {
        "https"@ + "://"@ + u.base_url
    }
}

impl Url {
    pub fn new() -> (r: Url)
        ensures
            r@ == (UrlView { https: true, base_url: Seq::<char>::empty(), is_dogbin: true }),
    {
        let r = Url { https: true, base_url: String::new(), is_dogbin: true };
        proof {
            assert(r@.base_url =~= Seq::<char>::empty());
        }
        r
    }

    pub fn from_str(base_url: &str) -> (r: Url)
        ensures
            r@ == (UrlView {
                https: contains_seq(base_url@, "https"@),
                base_url: base_url@,
                is_dogbin: true,
            }),
    {
        Url {
            https: str_contains(base_url, "https"),
            base_url: base_url.to_owned(),
            is_dogbin: true,
        }
    }

    /// Renders the address, choosing a scheme prefix when the base string
    /// does not already mention one.
    pub fn get(&self) -> (r: String)
        ensures
            r@ == spec_url_get(self@),
    {
        let pref: &str = if self.https {
            "http"
        } else {
            "https"
        };

        if str_contains(self.base_url.as_str(), "http") {
            self.base_url.clone()
        } else {
            let mut out = pref.to_owned();
            out.append("://");
            out.append(self.base_url.as_str());
            out
        }
    }

    pub fn set_http(self) -> (r: Url)
        ensures
            r@ == (UrlView { https: false, ..self@ }),
    {
        let mut this = self;
        this.https = false;
        this
    }

    /// The configuration-file line that records this provider.
    pub fn export(&self) -> (r: String)
        ensures
            r@ == "provider = "@ + self@.base_url + "\n"@,
    {
        let mut out = "provider = ".to_owned();
        out.append(self.base_url.as_str());
        out.append("\n");
        out
    }

    /// Read access to the stored base string.
    pub fn base(&self) -> (r: &String)
        ensures
            r@ == self@.base_url,
    {
        &self.base_url
    }

    /// Replaces the stored base string, leaving the scheme choice alone.
    pub fn set_base(&mut self, base_url: &str)
        ensures
            final(self)@ == (UrlView { base_url: base_url@, ..old(self)@ }),
    {
        self.base_url = base_url.to_owned();
    }
}

} // verus!
