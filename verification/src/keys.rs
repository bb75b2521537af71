//! Wire-level data model: ETSI keys and the inter-relay transfer envelope.

use vstd::prelude::*;

verus! {

/// One ETSI key: base64 material under a key identifier.
#[derive(Clone)]
pub struct Key {
    pub key: String,
    pub key_id: String,
}

/// The ETSI `keys` response body.
pub struct Keys {
    pub keys: Vec<Key>,
}

impl Keys {
    pub fn keys(self) -> (r: Vec<Key>)
        ensures
            r == self.keys,
    {
        self.keys
    }
}

/// A single requested key identifier of a `dec_keys` call.
pub struct KeyId {
    pub key_id: String,
}

/// The `dec_keys` request body: key identifiers in request order.
pub struct KeyIds {
    pub key_ids: Vec<KeyId>,
}

/// Per-key carrier of the inter-relay envelope.
///
/// `key_id` names the key at the origin-side KME. `key_id_xor` names the
/// hop-local key the sender consumed, if any, and `key` holds the hop payload:
/// the in-flight key masked byte-wise with that hop-local key.
pub struct Prom {
    key_id: String,
    key_id_xor: Option<String>,
    key: Option<Vec<u8>>,
}

impl Prom {
    pub fn new(key_id: String, key_id_xor: Option<String>, key: Option<Vec<u8>>) -> (r: Self)
        ensures
            r.spec_key_id() == key_id@,
            r.spec_key_id_xor() == key_id_xor,
            r.spec_key() == key,
    {
        Self { key_id, key_id_xor, key }
    }

    pub closed spec fn spec_key_id(&self) -> Seq<char> {
        self.key_id@
    }

    pub closed spec fn spec_key_id_xor(&self) -> Option<String> {
        self.key_id_xor
    }

    pub closed spec fn spec_key(&self) -> Option<Vec<u8>> {
        self.key
    }

    pub fn key_id(&self) -> (r: &str)
        ensures
            r@ == self.spec_key_id(),
    {
        self.key_id.as_str()
    }

    pub fn key_id_xor(&self) -> (r: &Option<String>)
        ensures
            *r == self.spec_key_id_xor(),
    {
        &self.key_id_xor
    }

    pub fn key(&self) -> (r: &Option<Vec<u8>>)
        ensures
            *r == self.spec_key(),
    {
        &self.key
    }
}

/// The `POST /info_keys` envelope: sender, quantum-adjacent receiver, the full
/// ordered path of PQKD endpoints, and one carrier per relayed key.
pub struct DataKeys {
    from: String,
    to: String,
    path: Vec<String>,
    keys: Vec<Prom>,
}

impl DataKeys {
    pub fn new(from: String, to: String, path: Vec<String>, keys: Vec<Prom>) -> (r: Self)
        ensures
            r.spec_from() == from@,
            r.spec_to() == to@,
            r.spec_path() == path,
            r.spec_keys() == keys,
    {
        Self { from, to, path, keys }
    }

    pub closed spec fn spec_from(&self) -> Seq<char> {
        self.from@
    }

    pub closed spec fn spec_to(&self) -> Seq<char> {
        self.to@
    }

    pub closed spec fn spec_path(&self) -> Vec<String> {
        self.path
    }

    pub closed spec fn spec_keys(&self) -> Vec<Prom> {
        self.keys
    }

    pub fn from(&self) -> (r: &str)
        ensures
            r@ == self.spec_from(),
    {
        self.from.as_str()
    }

    pub fn to(&self) -> (r: &str)
        ensures
            r@ == self.spec_to(),
    {
        self.to.as_str()
    }

    pub fn path(&self) -> (r: &Vec<String>)
        ensures
            *r == self.spec_path(),
    {
        &self.path
    }

    pub fn keys(&self) -> (r: &Vec<Prom>)
        ensures
            *r == self.spec_keys(),
    {
        &self.keys
    }
}

/// A key buffered at the destination relay: who it came from, its identifier,
/// and the base64 material.
pub struct KeyReceived {
    pub from: String,
    pub key_id: String,
    pub key: String,
}

impl KeyReceived {
    pub fn new(from: String, key_id: String, key: String) -> (r: Self)
        ensures
            r.from == from,
            r.key_id == key_id,
            r.key == key,
    {
        Self { from, key_id, key }
    }
}

} // verus!
