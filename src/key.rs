//! Public keys as the encoding carries them.
use vstd::prelude::*;

verus! {

/// The key material of a public key.
pub struct PublicKeyValue {
    pub public: String,
}

/// A public key: its type, its signature scheme, the hash algorithms its
/// identifier may be computed with, and its material.
pub struct PublicKey {
    pub keytype: String,
    pub scheme: String,
    pub keyid_hash_algorithms: Option<Vec<String>>,
    pub keyval: PublicKeyValue,
}

impl PublicKey {
    pub fn new(
        keytype: String,
        scheme: String,
        keyid_hash_algorithms: Option<Vec<String>>,
        public_key: String,
    ) -> (r: Self)
        ensures
            r.keytype == keytype,
            r.scheme == scheme,
            r.keyid_hash_algorithms == keyid_hash_algorithms,
            r.keyval.public == public_key,
    {
        PublicKey { keytype, scheme, keyid_hash_algorithms, keyval: PublicKeyValue { public: public_key } }
    }

    pub fn public_key(&self) -> (r: &str)
        ensures
            r@ == self.keyval.public@,
    {
        self.keyval.public.as_str()
    }

    pub fn scheme(&self) -> (r: &String)
        ensures
            r == self.scheme,
    {
        &self.scheme
    }

    pub fn keytype(&self) -> (r: &String)
        ensures
            r == self.keytype,
    {
        &self.keytype
    }

    pub fn keyid_hash_algorithms(&self) -> (r: &Option<Vec<String>>)
        ensures
            r == self.keyid_hash_algorithms,
    {
        &self.keyid_hash_algorithms
    }
}

/// A public key together with the identifier that the key layer computed
/// from its material.
pub struct IdentifiedKey {
    pub key_id: String,
    pub key: PublicKey,
}

impl IdentifiedKey {
    pub fn new(key_id: String, key: PublicKey) -> (r: Self)
        ensures
            r.key_id == key_id,
            r.key == key,
    {
        IdentifiedKey { key_id, key }
    }
}

} // verus!
