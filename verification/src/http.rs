//! A plain request to some address: where to, and what. Sending it is the
//! application's part.
use vstd::prelude::*;

verus! {

#[derive(Debug)]
pub struct Http<'a> {
    url: &'a str,
    body: String,
}

impl<'a> Http<'a> {
    pub fn new(url: &'a str, body: String) -> (r: Self)
        ensures
            r.url() == url,
            r.body() == body,
    {
        Self { url, body }
    }

    pub closed spec fn url(&self) -> &'a str {
        self.url
    }

    pub closed spec fn body(&self) -> String {
        self.body
    }

    /// The address to connect to.
    pub fn get_url(&self) -> (r: &'a str)
        ensures
            r == self.url(),
    {
        self.url
    }

    /// The bytes to send, as text.
    pub fn get_body(&self) -> (r: &String)
        ensures
            *r == self.body(),
    {
        &self.body
    }
}

} // verus!
