//! Certificates and keys in PEM files.

use crate::error::ProtocolError;
use vstd::prelude::*;

verus! {

/// The DER forms of the certificates that `rustls_pemfile::certs` finds in
/// this text, or `None` where it reports an error.
pub uninterp spec fn pem_certs(pem: Seq<u8>) -> Option<Seq<Seq<u8>>>;

/// The DER form of the key that `rustls_pemfile::private_key` finds in this
/// text, `Some(None)` where there is none, or `None` where it reports an
/// error.
pub uninterp spec fn pem_private_key(pem: Seq<u8>) -> Option<Option<Seq<u8>>>;

/// The views of these certificates.
pub open spec fn cert_models(certs: Seq<Vec<u8>>) -> Seq<Seq<u8>> {
    certs.map_values(|c: Vec<u8>| c@)
}

/// `rustls_pemfile::certs`, collected: the certificates in `pem` in their
/// order, or the first error.
#[verifier::external_body]
fn certs_in(pem: &[u8]) -> (r: Result<Vec<Vec<u8>>, std::io::Error>)
    ensures
        match r {
            Ok(certs) => pem_certs(pem@) == Some(cert_models(certs@)),
            Err(_) => pem_certs(pem@) is None,
        },
{
    let mut rest = pem;
    rustls_pemfile::certs(&mut rest).map(|cert| Ok(cert?.to_vec())).collect()
}

/// `rustls_pemfile::private_key`: the first private key in `pem`, of whatever
/// kind, if there is one before the first error.
#[verifier::external_body]
fn private_key_in(pem: &[u8]) -> (r: Result<Option<Vec<u8>>, std::io::Error>)
    ensures
        match r {
            Ok(Some(key)) => pem_private_key(pem@) == Some(Some(key@)),
            Ok(None) => pem_private_key(pem@) == Some(None::<Seq<u8>>),
            Err(_) => pem_private_key(pem@) is None,
        },
{
    let mut rest = pem;
    Ok(rustls_pemfile::private_key(&mut rest)?.map(|key| key.secret_der().to_vec()))
}

/// Reads the certificates in a PEM file, given its content.
pub fn read_trusted_certs(pem: &[u8]) -> (r: Result<Vec<Vec<u8>>, ProtocolError>)
    ensures
        match pem_certs(pem@) {
            Some(certs) => r matches Ok(v) && cert_models(v@) == certs,
            None => r == Err::<Vec<Vec<u8>>, ProtocolError>(ProtocolError::MalformedPem),
        },
{
    match certs_in(pem) {
        Ok(certs) => Ok(certs),
        Err(_) => Err(ProtocolError::MalformedPem),
    }
}

/// Reads the private key in a PEM file, given its content.
pub fn read_private_key(pem: &[u8]) -> (r: Result<Vec<u8>, ProtocolError>)
    ensures
        match pem_private_key(pem@) {
            Some(Some(key)) => r matches Ok(v) && v@ == key,
            Some(None) => r == Err::<Vec<u8>, ProtocolError>(ProtocolError::NoPrivateKey),
            None => r == Err::<Vec<u8>, ProtocolError>(ProtocolError::MalformedPem),
        },
{
    match private_key_in(pem) {
        Ok(Some(key)) => Ok(key),
        Ok(None) => Err(ProtocolError::NoPrivateKey),
        Err(_) => Err(ProtocolError::MalformedPem),
    }
}

/// The views of certificates are those of each of them, in their order.
pub proof fn law_cert_models(certs: Seq<Vec<u8>>)
    ensures
        cert_models(certs).len() == certs.len(),
        forall|i: int| 0 <= i < certs.len() ==> #[trigger] cert_models(certs)[i] == certs[i]@,
{
}

} // verus!
