use vstd::prelude::*;

verus! {

/// A client of the embedding service, holding the credential it sends.
pub struct JinaClient {
    api_key: String,
}

impl JinaClient {
    /// The credential this client was made with.
    pub closed spec fn key(&self) -> Seq<char> {
        self.api_key@
    }

    /// Makes a client that authenticates with `api_key`.
    pub fn new(api_key: &str) -> (r: Self)
        ensures
            r.key() == api_key@,
    {
        JinaClient { api_key: api_key.to_string() }
    }

    /// The credential this client sends.
    pub fn api_key(&self) -> (r: &str)
        ensures
            r@ == self.key(),
    {
        self.api_key.as_str()
    }
}

} // verus!
