use vstd::prelude::*;

verus! {

/// One stored paste, as far as the registry is concerned.
pub struct Paste {
    /// Unique identifier; its slug is derived from it.
    pub id: u64,
    /// A slug chosen by the submitter, overriding the derived one.
    pub custom_url: Option<String>,
    /// Ciphertext of the content key, kept verbatim.
    pub encrypted_key: Option<String>,
    /// Whether the content was encrypted by the submitting client.
    pub encrypt_client: bool,
    /// The instant (in seconds) from which the paste is expired; `None` means never.
    pub expiration: Option<u64>,
}

/// The custom URL of `p`, as characters.
pub open spec fn custom_of(p: Paste) -> Option<Seq<char>> {
    match p.custom_url {
        Some(u) => Some(u@),
        None => None,
    }
}

/// `p` is expired at `now`: it has an expiration and `now` has reached it.
pub open spec fn expired(p: Paste, now: u64) -> bool {
    match p.expiration {
        Some(e) => now >= e,
        None => false,
    }
}

impl Paste {
    pub fn new(id: u64, custom_url: Option<String>, expiration: Option<u64>) -> (r: Paste)
        ensures
            r.id == id,
            r.custom_url == custom_url,
            r.expiration == expiration,
            r.encrypted_key is None,
            !r.encrypt_client,
    {
        Paste { id, custom_url, encrypted_key: None, encrypt_client: false, expiration }
    }

    pub fn is_expired(&self, now: u64) -> (r: bool)
        ensures
            r == expired(*self, now),
    {
        match self.expiration {
            Some(e) => now >= e,
            None => false,
        }
    }
}

} // verus!
