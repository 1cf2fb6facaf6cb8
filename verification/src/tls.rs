//! The TLS server configuration, from PEM-encoded certificates and key.

use vstd::prelude::*;

use tokio_rustls::rustls::pki_types::{CertificateDer, PrivateKeyDer};
use tokio_rustls::rustls::ServerConfig;

verus! {

#[verifier::external_type_specification]
#[verifier::external_body]
pub struct ExServerConfig(ServerConfig);

#[verifier::external_type_specification]
#[verifier::external_body]
pub struct ExPrivateKeyDer<'a>(PrivateKeyDer<'a>);

/// What `rustls_pemfile::certs` yields for the PEM text `pem`, collected:
/// the DER bytes of every certificate section in order, or the text of the
/// first error met.
pub uninterp spec fn pem_certs(pem: Seq<u8>) -> Result<Seq<Seq<u8>>, Seq<char>>;

/// What `rustls_pemfile::private_key` finds in the PEM text `pem`: the
/// secret DER bytes of the first private key section (of any kind), `None`
/// where there is none, or the text of the first error met before one.
pub uninterp spec fn pem_private_key(pem: Seq<u8>) -> Result<Option<Seq<u8>>, Seq<char>>;

/// `rustls_pemfile::certs` over the bytes, collected until the first error;
/// each certificate is given as its DER bytes, an error as its text.
#[verifier::external_body]
fn read_certs(pem: &[u8]) -> (r: Result<Vec<Vec<u8>>, String>)
    ensures
        match r {
            Ok(v) => pem_certs(pem@) == Ok::<Seq<Seq<u8>>, Seq<char>>(v@.map_values(|c: Vec<u8>| c@)),
            Err(e) => pem_certs(pem@) == Err::<Seq<Seq<u8>>, Seq<char>>(e@),
        },
{
    let mut reader = std::io::BufReader::new(pem);
    match rustls_pemfile::certs(&mut reader).collect::<Result<Vec<CertificateDer<'static>>, std::io::Error>>() {
        Ok(certs) => Ok(certs.into_iter().map(|c| c.to_vec()).collect()),
        Err(e) => Err(e.to_string()),
    }
}

/// A private key as rustls takes it, with its secret DER bytes.
struct PrivateKey {
    der: PrivateKeyDer<'static>,
    secret: Ghost<Seq<u8>>,
}

/// A TLS server configuration, with what it was made from: the certificate
/// chain (DER, end entity first), the private key's secret DER bytes,
/// whether client certificates are asked for, and the ALPN protocols offered
/// in order of preference.
pub struct TlsServerConfig {
    inner: ServerConfig,
    chain: Ghost<Seq<Seq<u8>>>,
    key: Ghost<Seq<u8>>,
    client_auth: Ghost<bool>,
    alpn: Ghost<Seq<Seq<u8>>>,
}

impl TlsServerConfig {
    /// The certificate chain served, each certificate as its DER bytes.
    pub closed spec fn chain(&self) -> Seq<Seq<u8>> {
        self.chain@
    }

    /// The secret DER bytes of the private key served.
    pub closed spec fn key(&self) -> Seq<u8> {
        self.key@
    }

    /// Whether clients are asked for a certificate.
    pub closed spec fn client_auth(&self) -> bool {
        self.client_auth@
    }

    /// The ALPN protocols offered, in order of preference.
    pub closed spec fn alpn(&self) -> Seq<Seq<u8>> {
        self.alpn@
    }

    /// The rustls configuration itself, for a TLS acceptor.
    pub fn into_inner(self) -> ServerConfig {
        self.inner
    }
}

/// `rustls_pemfile::private_key` over the bytes: the first private key
/// section, if any, with its secret DER bytes, or the text of the error met
/// before one.
#[verifier::external_body]
fn read_private_key(pem: &[u8]) -> (r: Result<Option<PrivateKey>, String>)
    ensures
        match r {
            Ok(Some(k)) => pem_private_key(pem@) == Ok::<Option<Seq<u8>>, Seq<char>>(Some(k.secret@)),
            Ok(None) => pem_private_key(pem@) == Ok::<Option<Seq<u8>>, Seq<char>>(None),
            Err(e) => pem_private_key(pem@) == Err::<Option<Seq<u8>>, Seq<char>>(e@),
        },
{
    let mut reader = std::io::BufReader::new(pem);
    match rustls_pemfile::private_key(&mut reader) {
        Ok(Some(k)) => Ok(Some(PrivateKey { secret: Ghost(k.secret_der()@), der: k })),
        Ok(None) => Ok(None),
        Err(e) => Err(e.to_string()),
    }
}

/// `ServerConfig::builder().with_no_client_auth().with_single_cert(..)`:
/// on success a server configuration that asks no client certificate,
/// serves this chain of DER certificates with this key and offers no ALPN
/// protocol yet; else the text of the error that refused them. Whether the
/// pair is accepted is not stated.
#[verifier::external_body]
fn single_cert_config(certs: Vec<Vec<u8>>, key: PrivateKey) -> (r: Result<TlsServerConfig, String>)
    ensures
        r matches Ok(c) ==> {
            &&& c.chain() == certs@.map_values(|v: Vec<u8>| v@)
            &&& c.key() == key.secret@
            &&& !c.client_auth()
            &&& c.alpn() == Seq::<Seq<u8>>::empty()
        },
{
    let chain_view = Ghost(certs@.map_values(|v: Vec<u8>| v@));
    let chain: Vec<CertificateDer<'static>> = certs.into_iter().map(CertificateDer::from).collect();
    match ServerConfig::builder().with_no_client_auth().with_single_cert(chain, key.der) {
        Ok(c) => Ok(
            TlsServerConfig {
                inner: c,
                chain: chain_view,
                key: key.secret,
                client_auth: Ghost(false),
                alpn: Ghost(Seq::empty()),
            },
        ),
        Err(e) => Err(e.to_string()),
    }
}

/// Sets the field `alpn_protocols` of the configuration: the protocols
/// offered, in order of preference. Nothing else changes.
#[verifier::external_body]
fn set_alpn_protocols(cfg: &mut TlsServerConfig, protocols: Vec<Vec<u8>>)
    ensures
        final(cfg).alpn() == protocols@.map_values(|p: Vec<u8>| p@),
        final(cfg).chain() == old(cfg).chain(),
        final(cfg).key() == old(cfg).key(),
        final(cfg).client_auth() == old(cfg).client_auth(),
{
    cfg.alpn = Ghost(protocols@.map_values(|p: Vec<u8>| p@));
    cfg.inner.alpn_protocols = protocols;
}

/// The one ALPN protocol that the server offers: `h2`.
pub open spec fn h2_alpn() -> Seq<Seq<u8>> {
    seq![seq![0x68u8, 0x32u8]]
}

/// Why a TLS configuration could not be made.
#[derive(Clone, Debug, PartialEq, Eq)]
pub enum TlsError {
    /// The certificate file did not parse; the parser's message.
    ParseCert { detail: String },
    /// The key file did not parse; the parser's message.
    ParseKey { detail: String },
    /// The key file holds no private key.
    NoPrivateKey,
    /// The certificates and key were refused; rustls's message.
    Build { detail: String },
}

/// Completes what rustls built: a configuration it accepted comes to offer
/// HTTP/2 (`h2`) by ALPN and keeps its chain, key and client policy; a
/// refusal becomes `TlsError::Build` with rustls's message.
pub fn offer_h2(built: Result<TlsServerConfig, String>) -> (r: Result<TlsServerConfig, TlsError>)
    ensures
        match built {
            Ok(c) => r matches Ok(d) && {
                &&& d.alpn() == h2_alpn()
                &&& d.chain() == c.chain()
                &&& d.key() == c.key()
                &&& d.client_auth() == c.client_auth()
            },
            Err(e) => r matches Err(TlsError::Build { detail }) && detail@ == e@,
        },
{
    match built {
        Ok(mut cfg) => {
            let mut protocols: Vec<Vec<u8>> = Vec::new();
            protocols.push(vec![0x68u8, 0x32u8]);
            proof {
                assert(protocols@.map_values(|p: Vec<u8>| p@) =~= h2_alpn());
            }
            set_alpn_protocols(&mut cfg, protocols);
            Ok(cfg)
        },
        Err(detail) => Err(TlsError::Build { detail }),
    }
}

/// Makes the TLS server configuration from the PEM texts of the certificate
/// chain and of the private key: no client certificates, that chain and the
/// first key, HTTP/2 (`h2`) offered by ALPN. The certificates are read
/// first, then the key; whether rustls accepts the pair is its own decision.
pub fn server_config_from_pem(cert_pem: &[u8], key_pem: &[u8]) -> (r: Result<TlsServerConfig, TlsError>)
    ensures
        match pem_certs(cert_pem@) {
            Err(e) => r matches Err(TlsError::ParseCert { detail }) && detail@ == e,
            Ok(chain) => match pem_private_key(key_pem@) {
                Err(e) => r matches Err(TlsError::ParseKey { detail }) && detail@ == e,
                Ok(None) => r matches Err(TlsError::NoPrivateKey),
                Ok(Some(key)) => match r {
                    Ok(c) => {
                        &&& c.chain() == chain
                        &&& c.key() == key
                        &&& !c.client_auth()
                        &&& c.alpn() == h2_alpn()
                    },
                    Err(e) => e is Build,
                },
            },
        },
{
    let certs = match read_certs(cert_pem) {
        Ok(c) => c,
        Err(detail) => return Err(TlsError::ParseCert { detail }),
    };
    let key = match read_private_key(key_pem) {
        Ok(Some(k)) => k,
        Ok(None) => return Err(TlsError::NoPrivateKey),
        Err(detail) => return Err(TlsError::ParseKey { detail }),
    };
    offer_h2(single_cert_config(certs, key))
}

} // verus!
