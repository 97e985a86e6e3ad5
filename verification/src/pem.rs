//! Certificates and private keys in PEM.

use crate::model;
use crate::text;
use rustls::pki_types::PrivateKeyDer;
use vstd::prelude::*;

verus! {

/// How a private key is encoded.
#[derive(Debug, Clone, Copy, PartialEq, Eq, Structural)]
pub enum KeyEncoding {
    Pkcs1,
    Sec1,
    Pkcs8,
    /// In a way that is not known here.
    Other,
}

/// A private key in DER.
#[derive(PartialEq, Eq)]
pub struct PrivateKey {
    pub encoding: KeyEncoding,
    pub der: Vec<u8>,
}

/// [`PrivateKey`] with its octets as a sequence.
pub struct KeyModel {
    pub encoding: KeyEncoding,
    pub der: Seq<u8>,
}

impl View for PrivateKey {
    type V = KeyModel;

    open spec fn view(&self) -> KeyModel {
        KeyModel { encoding: self.encoding, der: self.der@ }
    }
}

/// Why a PEM text does not give what was asked for.
#[derive(Debug, Clone, PartialEq, Eq)]
pub enum PemError {
    /// It cannot be read.
    Malformed(String),
    /// There is no private key in it.
    NoPrivateKey,
}

/// [`PemError`] with its text as a sequence.
pub enum PemErrorModel {
    Malformed(Seq<char>),
    NoPrivateKey,
}

impl View for PemError {
    type V = PemErrorModel;

    open spec fn view(&self) -> PemErrorModel {
        match *self {
            PemError::Malformed(m) => PemErrorModel::Malformed(m@),
            PemError::NoPrivateKey => PemErrorModel::NoPrivateKey,
        }
    }
}

impl PemError {
    /// The error in words.
    pub fn message(&self) -> (r: String)
        ensures
            r@ == (match self@ {
                PemErrorModel::Malformed(m) => m,
                PemErrorModel::NoPrivateKey => "no private key in PEM"@,
            }),
    {
        match self {
            PemError::Malformed(m) => m.clone(),
            PemError::NoPrivateKey => text::string_from("no private key in PEM"),
        }
    }
}

// ---- the outside functions ---------------------------------------------------------------------

/// What `rustls_pemfile::certs` yields for a PEM text: the certificates in DER, in their order, or
/// the text of the first error.
pub uninterp spec fn pem_certificates(pem: Seq<u8>) -> Result<Seq<Seq<u8>>, Seq<char>>;

/// What `rustls_pemfile::private_key` gives for a PEM text: the first private key, if there is one,
/// or the text of the error.
pub uninterp spec fn pem_private_key(pem: Seq<u8>) -> Result<Option<KeyModel>, Seq<char>>;

/// The octets of each certificate.
pub open spec fn der_views(v: Seq<Vec<u8>>) -> Seq<Seq<u8>> {
    Seq::new(v.len(), |i: int| v[i]@)
}

/// The views of certificates that were found, or of an error.
pub open spec fn chain_view(r: Result<Vec<Vec<u8>>, String>) -> Result<Seq<Seq<u8>>, Seq<char>> {
    match r {
        Ok(v) => Ok(der_views(v@)),
        Err(e) => Err(e@),
    }
}

/// The views of a key that was found or not, or of an error.
pub open spec fn found_view(r: Result<Option<PrivateKey>, String>) -> Result<
    Option<KeyModel>,
    Seq<char>,
> {
    match r {
        Ok(k) => Ok(model::opt_view(k)),
        Err(e) => Err(e@),
    }
}

/// `rustls_pemfile::certs`, collected up to the first error. The result is a function of the text
/// alone and is given the name [`pem_certificates`]; what it is for a text is not stated.
#[verifier::external_body]
fn certificates_in(pem: &[u8]) -> (r: Result<Vec<Vec<u8>>, String>)
    ensures
        chain_view(r) == pem_certificates(pem@),
{
    let mut rest: &[u8] = pem;
    rustls_pemfile::certs(&mut rest)
        .map(|c| c.map(|der| der.as_ref().to_vec()).map_err(|e| e.to_string()))
        .collect()
}

/// `rustls_pemfile::private_key`. The result is a function of the text alone and is given the name
/// [`pem_private_key`]; what it is for a text is not stated, but for the encoding of a key that is
/// found: it is PKCS #1, SEC1 or PKCS #8.
#[verifier::external_body]
fn private_key_in(pem: &[u8]) -> (r: Result<Option<PrivateKey>, String>)
    ensures
        found_view(r) == pem_private_key(pem@),
        r matches Ok(Some(k)) ==> k.encoding != KeyEncoding::Other,
{
    let mut rest: &[u8] = pem;
    let found = rustls_pemfile::private_key(&mut rest).map_err(|e| e.to_string())?;
    Ok(found.map(|k| PrivateKey {
        encoding: match &k {
            PrivateKeyDer::Pkcs1(_) => KeyEncoding::Pkcs1,
            PrivateKeyDer::Sec1(_) => KeyEncoding::Sec1,
            PrivateKeyDer::Pkcs8(_) => KeyEncoding::Pkcs8,
            _ => KeyEncoding::Other,
        },
        der: k.secret_der().to_vec(),
    }))
}

// ---- reading -----------------------------------------------------------------------------------

/// The certificates of a chain, given what was found.
pub open spec fn chain_found(found: Result<Seq<Seq<u8>>, Seq<char>>) -> Result<
    Seq<Seq<u8>>,
    PemErrorModel,
> {
    match found {
        Ok(v) => Ok(v),
        Err(e) => Err(PemErrorModel::Malformed(e)),
    }
}

/// The key, given what was found. That there is none is an error.
pub open spec fn key_found(found: Result<Option<KeyModel>, Seq<char>>) -> Result<
    KeyModel,
    PemErrorModel,
> {
    match found {
        Ok(Some(k)) => Ok(k),
        Ok(None) => Err(PemErrorModel::NoPrivateKey),
        Err(e) => Err(PemErrorModel::Malformed(e)),
    }
}

/// The views of the certificates of a chain, or of an error.
pub open spec fn certs_view(r: Result<Vec<Vec<u8>>, PemError>) -> Result<
    Seq<Seq<u8>>,
    PemErrorModel,
> {
    match r {
        Ok(v) => Ok(der_views(v@)),
        Err(e) => Err(e@),
    }
}

/// The certificates of a chain, given what was found.
pub fn chain_of(found: Result<Vec<Vec<u8>>, String>) -> (r: Result<Vec<Vec<u8>>, PemError>)
    ensures
        certs_view(r) == chain_found(chain_view(found)),
{
    match found {
        Ok(v) => Ok(v),
        Err(e) => Err(PemError::Malformed(e)),
    }
}

/// The key, given what was found. That there is none is an error.
pub fn first_key(found: Result<Option<PrivateKey>, String>) -> (r: Result<PrivateKey, PemError>)
    ensures
        model::res_view(r) == key_found(found_view(found)),
{
    match found {
        Ok(Some(k)) => Ok(k),
        Ok(None) => Err(PemError::NoPrivateKey),
        Err(e) => Err(PemError::Malformed(e)),
    }
}

/// Reads the certificates of a PEM text, in their order. Other sections are passed over.
pub fn load_certs(pem: &[u8]) -> (r: Result<Vec<Vec<u8>>, PemError>)
    ensures
        certs_view(r) == chain_found(pem_certificates(pem@)),
{
    chain_of(certificates_in(pem))
}

/// Reads the first private key of a PEM text. Other sections are passed over.
pub fn load_private_key(pem: &[u8]) -> (r: Result<PrivateKey, PemError>)
    ensures
        model::res_view(r) == key_found(pem_private_key(pem@)),
        r matches Ok(k) ==> k.encoding != KeyEncoding::Other,
{
    first_key(private_key_in(pem))
}

/// What a server proves its name with: its certificates and the key to the first of them.
pub struct ServerMaterial {
    pub certs: Vec<Vec<u8>>,
    pub key: PrivateKey,
}

/// [`ServerMaterial`] with its contents as sequences.
pub struct MaterialModel {
    pub certs: Seq<Seq<u8>>,
    pub key: KeyModel,
}

impl View for ServerMaterial {
    type V = MaterialModel;

    open spec fn view(&self) -> MaterialModel {
        MaterialModel { certs: der_views(self.certs@), key: self.key@ }
    }
}

/// What a server proves its name with, given what was found in the text with the certificates and in
/// the one with the key. An error of the first is the one that is reported.
pub open spec fn material(
    certs: Result<Seq<Seq<u8>>, Seq<char>>,
    key: Result<Option<KeyModel>, Seq<char>>,
) -> Result<MaterialModel, PemErrorModel> {
    match chain_found(certs) {
        Err(e) => Err(e),
        Ok(certs) => match key_found(key) {
            Err(e) => Err(e),
            Ok(key) => Ok(MaterialModel { certs, key }),
        },
    }
}

/// Reads what a server proves its name with: the certificates of one PEM text and the first private
/// key of another.
pub fn server_material_from_pem(cert_pem: &[u8], key_pem: &[u8]) -> (r: Result<
    ServerMaterial,
    PemError,
>)
    ensures
        model::res_view(r) == material(pem_certificates(cert_pem@), pem_private_key(key_pem@)),
        r matches Ok(m) ==> m.key.encoding != KeyEncoding::Other,
{
    let certs = match load_certs(cert_pem) {
        Ok(v) => v,
        Err(e) => return Err(e),
    };
    match load_private_key(key_pem) {
        Ok(key) => Ok(ServerMaterial { certs, key }),
        Err(e) => Err(e),
    }
}

// ---- laws --------------------------------------------------------------------------------------

/// What a server needs is the whole chain, in its order, and the private key; the chain is looked at
/// first, and each thing that is missing or malformed is said.
pub proof fn law_material_is_the_chain_and_the_key(
    certs: Result<Seq<Seq<u8>>, Seq<char>>,
    key: Result<Option<KeyModel>, Seq<char>>,
)
    ensures
        material(certs, key) is Ok <==> certs is Ok && key is Ok && key->Ok_0 is Some,
        material(certs, key) is Ok ==> material(certs, key)->Ok_0.certs == certs->Ok_0 && material(
            certs,
            key,
        )->Ok_0.key == key->Ok_0->0,
        certs is Err ==> material(certs, key) == Err::<MaterialModel, PemErrorModel>(
            PemErrorModel::Malformed(certs->Err_0),
        ),
        certs is Ok && key is Err ==> material(certs, key) == Err::<MaterialModel, PemErrorModel>(
            PemErrorModel::Malformed(key->Err_0),
        ),
        certs is Ok && key is Ok && key->Ok_0 is None ==> material(certs, key) == Err::<
            MaterialModel,
            PemErrorModel,
        >(PemErrorModel::NoPrivateKey),
        certs is Ok ==> chain_found(certs) == Ok::<Seq<Seq<u8>>, PemErrorModel>(certs->Ok_0),
        certs is Err ==> chain_found(certs) == Err::<Seq<Seq<u8>>, PemErrorModel>(
            PemErrorModel::Malformed(certs->Err_0),
        ),
        key is Ok && key->Ok_0 is Some ==> key_found(key) == Ok::<KeyModel, PemErrorModel>(
            key->Ok_0->0,
        ),
        key is Ok && key->Ok_0 is None ==> key_found(key) == Err::<KeyModel, PemErrorModel>(
            PemErrorModel::NoPrivateKey,
        ),
{
}

} // verus!
