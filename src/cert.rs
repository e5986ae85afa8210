//! A node's TLS identity for the transport: a self-signed certificate and
//! its private key, both DER-encoded.

use vstd::prelude::*;

verus! {

/// A DER certificate and the PKCS#8 DER key that signed it.
pub struct NodeCert {
    cert_der: Vec<u8>,
    key_der: Vec<u8>,
}

impl NodeCert {
    pub closed spec fn cert(&self) -> Seq<u8> {
        self.cert_der@
    }

    pub closed spec fn key(&self) -> Seq<u8> {
        self.key_der@
    }

    pub fn new(cert_der: Vec<u8>, key_der: Vec<u8>) -> (r: Self)
        ensures
            r.cert() == cert_der@,
            r.key() == key_der@,
    {
        NodeCert { cert_der, key_der }
    }

    pub fn cert_der(&self) -> (r: &Vec<u8>)
        ensures
            r@ == self.cert(),
    {
        &self.cert_der
    }

    pub fn key_der(&self) -> (r: &Vec<u8>)
        ensures
            r@ == self.key(),
    {
        &self.key_der
    }
}

} // verus!
