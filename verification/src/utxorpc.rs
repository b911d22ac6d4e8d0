use vstd::prelude::*;

verus! {

/// Where the chain stream is read from.
pub struct Listener {
    pub u5c_url: String,
    pub u5c_api_key: Option<String>,
}

impl Listener {
    /// The metadata header that authenticates to the stream provider: the
    /// API key under `dmtr-api-key`, when there is a key.
    pub fn api_key_header(&self) -> (r: Option<(String, String)>)
        ensures
            match self.u5c_api_key {
                Some(k) => (r matches Some(h) && h.0@ == "dmtr-api-key"@ && h.1@ == k@),
                None => r is None,
            },
    {
        match &self.u5c_api_key {
            Some(k) => Some((String::from_str("dmtr-api-key"), k.clone())),
            None => None,
        }
    }
}

} // verus!
