//! How connections are set up and how they fail.
use crate::config::{TargetConfig, TlsConfig};
use crate::host::{self, host_from_server};
use crate::report::{ErrorCategory, ErrorPhase};
use rustls::pki_types::pem::PemObject;
use rustls::pki_types::{
    CertificateDer, PrivateKeyDer, PrivatePkcs1KeyDer, PrivatePkcs8KeyDer, PrivateSec1KeyDer,
    ServerName,
};
use rustls::{ClientConfig, RootCertStore};
use vstd::prelude::*;
use vstd::string::*;

verus! {

/// The client configuration of the `rustls` crate.
#[verifier::external_type_specification]
#[verifier::external_body]
pub struct ExClientConfig(rustls::ClientConfig);

/// The root certificates of the `rustls` crate.
#[verifier::external_type_specification]
#[verifier::external_body]
pub struct ExRootCertStore(rustls::RootCertStore);

/// Why a connection could not be established, with the cause in words.
#[derive(Debug)]
pub enum ConnectError {
    Tcp(String),
    TlsHandshake(String),
    CaLoad(String),
    ClientCertificateLoad(String),
    ClientKeyLoad(String),
    TlsConfiguration(String),
}

impl ConnectError {
    /// The category of the error.
    pub open spec fn category_of(self) -> ErrorCategory {
        match self {
            ConnectError::Tcp(_) => ErrorCategory::TcpConnectFailed,
            ConnectError::TlsHandshake(_) => ErrorCategory::TlsHandshakeFailed,
            ConnectError::CaLoad(_) => ErrorCategory::CaLoadFailed,
            ConnectError::ClientCertificateLoad(_) => ErrorCategory::ClientCertificateLoadFailed,
            ConnectError::ClientKeyLoad(_) => ErrorCategory::ClientKeyLoadFailed,
            ConnectError::TlsConfiguration(_) => ErrorCategory::TlsConfigurationFailed,
        }
    }

    /// Whether the error is one of TLS.
    pub fn is_tls(&self) -> (result: bool)
        ensures
            result == !(self is Tcp),
    {
        match self {
            ConnectError::Tcp(_) => false,
            _ => true,
        }
    }

    /// What the error is reported as.
    pub fn category(&self) -> (result: ErrorCategory)
        ensures
            result == self.category_of(),
    {
        match self {
            ConnectError::Tcp(_) => ErrorCategory::TcpConnectFailed,
            ConnectError::TlsHandshake(_) => ErrorCategory::TlsHandshakeFailed,
            ConnectError::CaLoad(_) => ErrorCategory::CaLoadFailed,
            ConnectError::ClientCertificateLoad(_) => ErrorCategory::ClientCertificateLoadFailed,
            ConnectError::ClientKeyLoad(_) => ErrorCategory::ClientKeyLoadFailed,
            ConnectError::TlsConfiguration(_) => ErrorCategory::TlsConfigurationFailed,
        }
    }

    /// What was being done when the error came.
    pub fn phase(&self) -> (result: ErrorPhase)
        ensures
            result == (if self is Tcp {
                ErrorPhase::Connect
            } else {
                ErrorPhase::TlsHandshake
            }),
    {
        if self.is_tls() {
            ErrorPhase::TlsHandshake
        } else {
            ErrorPhase::Connect
        }
    }
}

/// Whether a text is a DNS name or an IP address by which a server can be verified.
pub uninterp spec fn valid_server_name(name: Seq<char>) -> bool;

/// Checks a name with `ServerName::try_from`, whose answer is a function of the text.
#[verifier::external_body]
fn is_server_name(name: &str) -> (result: bool)
    ensures
        result == valid_server_name(name@),
{
    ServerName::try_from(name).is_ok()
}

/// The name by which the server is verified: the one configured, or else the host of its address.
pub open spec fn server_name_of(target: TargetConfig) -> Seq<char> {
    match target.sni {
        Some(name) => name@,
        None => host::host_of(target.server@),
    }
}

/// The name by which the server is verified.
fn choose_server_name(target: &TargetConfig) -> (name: String)
    ensures
        name@ == server_name_of(*target),
{
    match &target.sni {
        Some(name) => name.clone(),
        None => host_from_server(target.server.as_str()),
    }
}

/// Decides, once a chosen name has been checked, how to go on after the TCP connection.
pub fn tls_name(enabled: bool, name: String, valid: bool) -> (result: Result<
    Option<String>,
    ConnectError,
>)
    ensures
        match result {
            Ok(None) => !enabled,
            Ok(Some(used)) => enabled && valid && used@ == name@,
            Err(error) => enabled && !valid && error is TlsConfiguration,
        },
{
    if !enabled {
        Ok(None)
    } else if valid {
        Ok(Some(name))
    } else {
        Err(ConnectError::TlsConfiguration("invalid TLS SNI hostname".to_owned()))
    }
}

/// Decides how to go on after the TCP connection: with a TLS handshake that verifies the server by
/// the returned name, or, where TLS is off, not at all.
pub fn tls_server_name(target: &TargetConfig, tls: &TlsConfig) -> (result: Result<
    Option<String>,
    ConnectError,
>)
    ensures
        match result {
            Ok(None) => !tls.enabled,
            Ok(Some(name)) => {
                &&& tls.enabled
                &&& name@ == server_name_of(*target)
                &&& valid_server_name(name@)
            },
            Err(error) => {
                &&& tls.enabled
                &&& !valid_server_name(server_name_of(*target))
                &&& error is TlsConfiguration
            },
        },
{
    let name = choose_server_name(target);
    let valid = is_server_name(name.as_str());
    tls_name(tls.enabled, name, valid)
}

/// A private key, by the format of its bytes.
#[derive(Debug)]
pub enum PrivateKey {
    Pkcs1(Vec<u8>),
    Sec1(Vec<u8>),
    Pkcs8(Vec<u8>),
}

/// What a `PrivateKey` holds.
pub enum KeyView {
    Pkcs1(Seq<u8>),
    Sec1(Seq<u8>),
    Pkcs8(Seq<u8>),
}

impl View for PrivateKey {
    type V = KeyView;

    open spec fn view(&self) -> KeyView {
        match self {
            PrivateKey::Pkcs1(der) => KeyView::Pkcs1(der@),
            PrivateKey::Sec1(der) => KeyView::Sec1(der@),
            PrivateKey::Pkcs8(der) => KeyView::Pkcs8(der@),
        }
    }
}

/// The bytes of some certificates.
pub open spec fn chain_view(chain: Seq<Vec<u8>>) -> Seq<Seq<u8>> {
    Seq::new(chain.len(), |i: int| chain[i]@)
}

/// The certificates that a PEM text holds, in order, unless one of them cannot be read.
pub uninterp spec fn pem_chain(pem: Seq<u8>) -> Option<Seq<Seq<u8>>>;

/// Reads certificates with `CertificateDer::pem_slice_iter`. What it finds is a function of the
/// bytes.
#[verifier::external_body]
fn read_certificates(pem: &[u8]) -> (chain: Option<Vec<Vec<u8>>>)
    ensures
        match chain {
            Some(found) => pem_chain(pem@) == Some(chain_view(found@)),
            None => pem_chain(pem@) is None,
        },
{
    CertificateDer::pem_slice_iter(pem)
        .map(|found| found.ok().map(|certificate| certificate.as_ref().to_vec()))
        .collect()
}

/// The first private key that a PEM text holds.
pub uninterp spec fn pem_key(pem: Seq<u8>) -> Option<KeyView>;

/// Reads a private key with `PrivateKeyDer::from_pem_slice`. What it finds is a function of the
/// bytes.
#[verifier::external_body]
fn read_key(pem: &[u8]) -> (key: Option<PrivateKey>)
    ensures
        match key {
            Some(found) => pem_key(pem@) == Some(found@),
            None => pem_key(pem@) is None,
        },
{
    match PrivateKeyDer::from_pem_slice(pem).ok()? {
        PrivateKeyDer::Pkcs1(key) => Some(PrivateKey::Pkcs1(key.secret_pkcs1_der().to_vec())),
        PrivateKeyDer::Sec1(key) => Some(PrivateKey::Sec1(key.secret_sec1_der().to_vec())),
        PrivateKeyDer::Pkcs8(key) => Some(PrivateKey::Pkcs8(key.secret_pkcs8_der().to_vec())),
        _ => None,
    }
}

/// The certificates that a store trusts, in the order in which they were added.
pub uninterp spec fn roots_of(store: RootCertStore) -> Seq<Seq<u8>>;

/// Whether a certificate can be trusted as a root.
pub uninterp spec fn is_root_certificate(der: Seq<u8>) -> bool;

/// `RootCertStore::empty` trusts nothing.
#[verifier::external_body]
fn no_roots() -> (store: RootCertStore)
    ensures
        roots_of(store) == Seq::<Seq<u8>>::empty(),
{
    RootCertStore::empty()
}

/// Adds a certificate with `RootCertStore::add`, which refuses what it cannot read as one. Whether
/// it does is a function of the bytes.
#[verifier::external_body]
fn add_root(store: &mut RootCertStore, der: Vec<u8>) -> (added: bool)
    ensures
        added == is_root_certificate(der@),
        roots_of(*final(store)) == (if added {
            roots_of(*old(store)).push(der@)
        } else {
            roots_of(*old(store))
        }),
{
    store.add(CertificateDer::from(der)).is_ok()
}

/// The certificates by which a client verifies servers.
pub uninterp spec fn trusted_by(client: ClientConfig) -> Seq<Seq<u8>>;

/// The certificates and the key by which a client identifies itself.
pub uninterp spec fn identity_of(client: ClientConfig) -> Option<(Seq<Seq<u8>>, KeyView)>;

/// Configures a client with `ClientConfig::builder`, `with_root_certificates` and
/// `with_no_client_auth`: it verifies servers by the given roots and does not identify itself. The
/// cryptography provider is the one that the features of the crate select.
#[verifier::external_body]
fn anonymous_client(store: RootCertStore) -> (client: ClientConfig)
    ensures
        trusted_by(client) == roots_of(store),
        identity_of(client) is None,
{
    ClientConfig::builder().with_root_certificates(store).with_no_client_auth()
}

/// Configures a client with `ClientConfig::builder`, `with_root_certificates` and
/// `with_client_auth_cert`: it verifies servers by the given roots and identifies itself by the
/// given certificates and key. The cryptography provider of the process decides whether it takes
/// the key; nothing is claimed of that.
#[verifier::external_body]
fn identified_client(store: RootCertStore, chain: Vec<Vec<u8>>, key: PrivateKey) -> (client: Option<
    ClientConfig,
>)
    ensures
        client matches Some(made) ==> trusted_by(made) == roots_of(store),
        client matches Some(made) ==> identity_of(made) == Some((chain_view(chain@), key@)),
{
    let certificates = chain.into_iter().map(CertificateDer::from).collect();
    let secret = match key {
        PrivateKey::Pkcs1(der) => PrivateKeyDer::from(PrivatePkcs1KeyDer::from(der)),
        PrivateKey::Sec1(der) => PrivateKeyDer::from(PrivateSec1KeyDer::from(der)),
        PrivateKey::Pkcs8(der) => PrivateKeyDer::from(PrivatePkcs8KeyDer::from(der)),
    };
    let builder = ClientConfig::builder().with_root_certificates(store);
    builder.with_client_auth_cert(certificates, secret).ok()
}

/// What the files that a TLS configuration names hold, as far as they could be read.
#[derive(Debug)]
pub struct TlsFiles {
    pub ca: Option<Vec<u8>>,
    pub client_cert: Option<Vec<u8>>,
    pub client_key: Option<Vec<u8>>,
}

/// Whether every certificate of a chain can be trusted as a root.
pub open spec fn all_roots(chain: Seq<Seq<u8>>) -> bool {
    forall|i: int| 0 <= i < chain.len() ==> is_root_certificate(#[trigger] chain[i])
}

/// The category of the first fault of a TLS configuration: a certificate authority has to be named
/// and usable; a client certificate and a client key have to be named both or neither, and then to
/// be readable.
pub open spec fn tls_fault(tls: TlsConfig, files: TlsFiles) -> Option<ErrorCategory> {
    if tls.ca is None {
        Some(ErrorCategory::TlsConfigurationFailed)
    } else if !(files.ca matches Some(pem) && pem_chain(pem@) matches Some(chain) && all_roots(
        chain,
    )) {
        Some(ErrorCategory::CaLoadFailed)
    } else if tls.client_cert is None && tls.client_key is None {
        None
    } else if tls.client_cert is None || tls.client_key is None {
        Some(ErrorCategory::TlsConfigurationFailed)
    } else if !(files.client_cert matches Some(pem) && pem_chain(pem@) is Some) {
        Some(ErrorCategory::ClientCertificateLoadFailed)
    } else if !(files.client_key matches Some(pem) && pem_key(pem@) is Some) {
        Some(ErrorCategory::ClientKeyLoadFailed)
    } else {
        None
    }
}

/// Trusts the certificates of a chain.
fn trust_all(chain: Vec<Vec<u8>>) -> (store: Option<RootCertStore>)
    ensures
        match store {
            Some(filled) => all_roots(chain_view(chain@)) && roots_of(filled) == chain_view(chain@),
            None => !all_roots(chain_view(chain@)),
        },
{
    let ghost all = chain_view(chain@);
    let mut store = no_roots();
    let mut i: usize = 0;
    while i < chain.len()
        invariant
            i <= chain.len(),
            all == chain_view(chain@),
            roots_of(store) == all.take(i as int),
            forall|k: int| 0 <= k < i ==> is_root_certificate(#[trigger] all[k]),
        decreases chain.len() - i,
    {
        let mut der: Vec<u8> = Vec::new();
        der.extend_from_slice(chain[i].as_slice());
        proof {
            assert(der@ =~= all[i as int]);
        }
        if !add_root(&mut store, der) {
            assert(!is_root_certificate(all[i as int]));
            return None;
        }
        proof {
            assert(all.take(i as int).push(all[i as int]) =~= all.take(i + 1));
        }
        i = i + 1;
    }
    assert(all.take(all.len() as int) =~= all);
    Some(store)
}

/// Configures TLS from the files that a configuration names.
///
/// Server certificates are always verified. Of a client certificate and its key the cryptography
/// provider has the last word.
pub fn build_tls_config(tls: &TlsConfig, files: TlsFiles) -> (result: Result<
    ClientConfig,
    ConnectError,
>)
    ensures
        match result {
            Ok(client) => {
                &&& tls_fault(*tls, files) is None
                &&& Some(trusted_by(client)) == pem_chain(files.ca->0@)
                &&& match identity_of(client) {
                    None => tls.client_cert is None,
                    Some((chain, key)) => {
                        &&& tls.client_cert is Some
                        &&& Some(chain) == pem_chain(files.client_cert->0@)
                        &&& Some(key) == pem_key(files.client_key->0@)
                    },
                }
            },
            Err(error) => match tls_fault(*tls, files) {
                Some(category) => error.category_of() == category,
                None => tls.client_cert is Some && error is TlsConfiguration,
            },
        },
{
    if tls.ca.is_none() {
        return Err(
            ConnectError::TlsConfiguration(
                "TLS requires a CA; hostname verification cannot be disabled".to_owned(),
            ),
        );
    }
    let ca = match files.ca {
        Some(pem) => pem,
        None => {
            return Err(ConnectError::CaLoad("opening CA certificate".to_owned()));
        },
    };
    let authorities = match read_certificates(ca.as_slice()) {
        Some(chain) => chain,
        None => {
            return Err(ConnectError::CaLoad("reading CA certificate".to_owned()));
        },
    };
    let store = match trust_all(authorities) {
        Some(store) => store,
        None => {
            return Err(ConnectError::CaLoad("adding CA certificate".to_owned()));
        },
    };
    if tls.client_cert.is_none() && tls.client_key.is_none() {
        return Ok(anonymous_client(store));
    }
    if tls.client_cert.is_none() || tls.client_key.is_none() {
        return Err(
            ConnectError::TlsConfiguration(
                "both client certificate and client key are required for mTLS".to_owned(),
            ),
        );
    }
    let certificate = match files.client_cert {
        Some(pem) => pem,
        None => {
            return Err(
                ConnectError::ClientCertificateLoad("opening client certificate".to_owned()),
            );
        },
    };
    let chain = match read_certificates(certificate.as_slice()) {
        Some(chain) => chain,
        None => {
            return Err(
                ConnectError::ClientCertificateLoad("reading client certificate".to_owned()),
            );
        },
    };
    let secret = match files.client_key {
        Some(pem) => pem,
        None => {
            return Err(ConnectError::ClientKeyLoad("opening client key".to_owned()));
        },
    };
    let key = match read_key(secret.as_slice()) {
        Some(key) => key,
        None => {
            return Err(ConnectError::ClientKeyLoad("reading client private key".to_owned()));
        },
    };
    match identified_client(store, chain, key) {
        Some(client) => Ok(client),
        None => Err(
            ConnectError::TlsConfiguration("configuring client certificate".to_owned()),
        ),
    }
}

/// The server name that is verified is the one that is configured, or else the host of the server.
pub proof fn law_configured_names_win(target: TargetConfig)
    ensures
        target.sni matches Some(name) ==> server_name_of(target) == name@,
        target.sni is None ==> server_name_of(target) == host::host_of(target.server@),
{
}

/// TLS needs a certificate authority whose certificates can all be trusted. A client certificate and
/// its key come together, and both have to be readable. What is wrong is told by its category, and
/// where nothing is, there is no fault.
pub proof fn law_tls_needs_its_files(tls: TlsConfig, files: TlsFiles)
    ensures
        tls_fault(tls, files) is None <==> {
            &&& tls.ca is Some
            &&& (files.ca matches Some(pem) && pem_chain(pem@) matches Some(chain) && forall|i: int|
                0 <= i < chain.len() ==> is_root_certificate(#[trigger] chain[i]))
            &&& (tls.client_cert is Some <==> tls.client_key is Some)
            &&& tls.client_cert is Some ==> (files.client_cert matches Some(pem) && pem_chain(
                pem@,
            ) is Some)
            &&& tls.client_key is Some ==> (files.client_key matches Some(pem) && pem_key(
                pem@,
            ) is Some)
        },
        tls.ca is None ==> tls_fault(tls, files) == Some(ErrorCategory::TlsConfigurationFailed),
        tls.ca is Some && files.ca is None ==> tls_fault(tls, files) == Some(
            ErrorCategory::CaLoadFailed,
        ),
        tls_fault(tls, files) == Some(ErrorCategory::ClientCertificateLoadFailed)
            ==> tls.client_cert is Some && tls.client_key is Some,
        tls_fault(tls, files) == Some(ErrorCategory::ClientKeyLoadFailed) ==> tls.client_cert is Some
            && tls.client_key is Some && files.client_cert is Some,
{
}

/// Every cause of a failed connection is reported by a category of its own.
pub proof fn law_causes_have_categories(error: ConnectError, other: ConnectError)
    requires
        error.category_of() == other.category_of(),
    ensures
        error is Tcp <==> other is Tcp,
        error is TlsHandshake <==> other is TlsHandshake,
        error is CaLoad <==> other is CaLoad,
        error is ClientCertificateLoad <==> other is ClientCertificateLoad,
        error is ClientKeyLoad <==> other is ClientKeyLoad,
        error is TlsConfiguration <==> other is TlsConfiguration,
        error is Tcp ==> error.category_of() == ErrorCategory::TcpConnectFailed,
        error is TlsHandshake ==> error.category_of() == ErrorCategory::TlsHandshakeFailed,
        error is CaLoad ==> error.category_of() == ErrorCategory::CaLoadFailed,
{
}

} // verus!
