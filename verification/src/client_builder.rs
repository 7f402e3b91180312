//! Configuration of a client runtime.

use vstd::prelude::*;

use std::sync::Arc;
use std::time::Duration;

use crate::cred::Cred;

verus! {

/// The AEAD a Noise session runs with.
#[derive(Clone, Copy, Debug, PartialEq, Eq, Structural)]
pub enum Alg {
    Aes256Gcm,
    ChaCha20Poly1305,
}

impl Alg {
    /// The algorithm used when none is chosen.
    pub fn default_alg() -> (a: Alg)
        ensures
            a == Alg::ChaCha20Poly1305,
    {
        Alg::ChaCha20Poly1305
    }
}

/// Why a runtime could not be built.
#[derive(Debug, PartialEq, Eq)]
pub enum BuildError {
    /// A setting without a default was not given; names it.
    MissingRequiredField(&'static str),
}

/// `Duration::from_secs` applied to a number of seconds.
pub uninterp spec fn duration_of_secs(secs: u64) -> Duration;

/// `Duration::from_secs`; the result is named by `duration_of_secs`.
#[verifier::external_body]
fn secs(s: u64) -> (d: Duration)
    ensures
        d == duration_of_secs(s),
{
    Duration::from_secs(s)
}

/// Default keepalive interval, in seconds.
pub const DEFAULT_KEEPALIVE_SECS: u64 = 15;

/// Default handshake timeout, in seconds.
pub const DEFAULT_HANDSHAKE_TIMEOUT_SECS: u64 = 5;

/// Default delay before reconnecting, in seconds.
pub const DEFAULT_RECONNECT_DELAY_SECS: u64 = 3;

/// The settings a client builder holds.
pub struct ClientSettings<T, N> {
    pub transport: T,
    pub network: N,
    pub alg: Option<Alg>,
    pub keepalive: Option<Duration>,
    pub handshake_timeout: Duration,
    pub reconnect_delay: Duration,
    pub cred: Option<Cred>,
    pub encrypt_workers: usize,
    pub decrypt_workers: usize,
}

/// Collects the settings of a client runtime.
pub struct ClientBuilder<T, N> {
    transport: Arc<T>,
    network: Arc<N>,
    alg: Option<Alg>,
    keepalive: Option<Duration>,
    handshake_timeout: Duration,
    reconnect_delay: Duration,
    cred: Option<Cred>,
    encrypt_workers: usize,
    decrypt_workers: usize,
}

impl<T, N> View for ClientBuilder<T, N> {
    type V = ClientSettings<T, N>;

    closed spec fn view(&self) -> ClientSettings<T, N> {
        ClientSettings {
            transport: *self.transport,
            network: *self.network,
            alg: self.alg,
            keepalive: self.keepalive,
            handshake_timeout: self.handshake_timeout,
            reconnect_delay: self.reconnect_delay,
            cred: self.cred,
            encrypt_workers: self.encrypt_workers,
            decrypt_workers: self.decrypt_workers,
        }
    }
}

/// A client runtime's settings, complete.
pub struct Client<T, N> {
    pub transport: Arc<T>,
    pub network: Arc<N>,
    pub alg: Alg,
    pub keepalive: Option<Duration>,
    pub handshake_timeout: Duration,
    pub reconnect_delay: Duration,
    pub cred: Cred,
    pub encrypt_workers: usize,
    pub decrypt_workers: usize,
}

impl<T, N> ClientBuilder<T, N> {
    /// A builder with keepalive every 15 s, a 5 s handshake timeout, a 3 s
    /// reconnect delay, single-task workers, and no algorithm or credential.
    pub fn new(transport: T, network: N) -> (b: Self)
        ensures
            b@ == (ClientSettings {
                transport,
                network,
                alg: None,
                keepalive: Some(duration_of_secs(DEFAULT_KEEPALIVE_SECS)),
                handshake_timeout: duration_of_secs(DEFAULT_HANDSHAKE_TIMEOUT_SECS),
                reconnect_delay: duration_of_secs(DEFAULT_RECONNECT_DELAY_SECS),
                cred: None,
                encrypt_workers: 0,
                decrypt_workers: 0,
            }),
    {
        ClientBuilder {
            transport: Arc::new(transport),
            network: Arc::new(network),
            alg: None,
            keepalive: Some(secs(DEFAULT_KEEPALIVE_SECS)),
            handshake_timeout: secs(DEFAULT_HANDSHAKE_TIMEOUT_SECS),
            reconnect_delay: secs(DEFAULT_RECONNECT_DELAY_SECS),
            cred: None,
            encrypt_workers: 0,
            decrypt_workers: 0,
        }
    }

    /// Sets the encryption algorithm.
    pub fn alg(self, value: Alg) -> (b: Self)
        ensures
            b@ == (ClientSettings { alg: Some(value), ..self@ }),
    {
        ClientBuilder { alg: Some(value), ..self }
    }

    /// Sets the keepalive interval; `None` disables keepalives.
    pub fn keepalive(self, value: Option<Duration>) -> (b: Self)
        ensures
            b@ == (ClientSettings { keepalive: value, ..self@ }),
    {
        ClientBuilder { keepalive: value, ..self }
    }

    /// Sets the handshake timeout.
    pub fn handshake_timeout(self, value: Duration) -> (b: Self)
        ensures
            b@ == (ClientSettings { handshake_timeout: value, ..self@ }),
    {
        ClientBuilder { handshake_timeout: value, ..self }
    }

    /// Sets the delay before reconnecting.
    pub fn reconnect_delay(self, value: Duration) -> (b: Self)
        ensures
            b@ == (ClientSettings { reconnect_delay: value, ..self@ }),
    {
        ClientBuilder { reconnect_delay: value, ..self }
    }

    /// Sets the credential.
    pub fn cred(self, cred: Cred) -> (b: Self)
        ensures
            b@ == (ClientSettings { cred: Some(cred), ..self@ }),
    {
        ClientBuilder { cred: Some(cred), ..self }
    }

    /// Number of parallel encrypt workers on the send path; `0` or `1` keeps
    /// the single-task path.
    pub fn encrypt_workers(self, count: usize) -> (b: Self)
        ensures
            b@ == (ClientSettings { encrypt_workers: count, ..self@ }),
    {
        ClientBuilder { encrypt_workers: count, ..self }
    }

    /// Number of parallel decrypt workers on the receive path; `0` or `1`
    /// keeps the single-task path.
    pub fn decrypt_workers(self, count: usize) -> (b: Self)
        ensures
            b@ == (ClientSettings { decrypt_workers: count, ..self@ }),
    {
        ClientBuilder { decrypt_workers: count, ..self }
    }

    /// The complete settings; fails when no credential was given. Without a
    /// chosen algorithm the default one is used.
    pub fn build(self) -> (r: Result<Client<T, N>, BuildError>)
        ensures
            self@.cred is None <==> r is Err,
            r matches Err(e) ==> e == BuildError::MissingRequiredField("cred"),
            r matches Ok(c) ==> {
                &&& *c.transport == self@.transport
                &&& *c.network == self@.network
                &&& c.alg == (match self@.alg {
                    Some(a) => a,
                    None => Alg::ChaCha20Poly1305,
                })
                &&& c.keepalive == self@.keepalive
                &&& c.handshake_timeout == self@.handshake_timeout
                &&& c.reconnect_delay == self@.reconnect_delay
                &&& Some(c.cred) == self@.cred
                &&& c.encrypt_workers == self@.encrypt_workers
                &&& c.decrypt_workers == self@.decrypt_workers
            },
    {
        let cred = match self.cred {
            Some(c) => c,
            None => {
                return Err(BuildError::MissingRequiredField("cred"));
            },
        };
        let alg = match self.alg {
            Some(a) => a,
            None => Alg::default_alg(),
        };
        Ok(
            Client {
                transport: self.transport,
                network: self.network,
                alg,
                keepalive: self.keepalive,
                handshake_timeout: self.handshake_timeout,
                reconnect_delay: self.reconnect_delay,
                cred,
                encrypt_workers: self.encrypt_workers,
                decrypt_workers: self.decrypt_workers,
            },
        )
    }
}

/// Which tasks a client runtime runs.
#[derive(Clone, Copy, Debug, PartialEq, Eq, Structural)]
pub struct TaskPlan {
    /// Decrypt on a worker pool (else one receive task).
    pub decrypt_pool: bool,
    /// Encrypt on a worker pool (else one send task).
    pub encrypt_pool: bool,
    /// Send keepalives.
    pub keepalive: bool,
}

/// Whether a worker count asks for a pool: `0` and `1` keep the single task.
pub fn wants_pool(workers: usize) -> (r: bool)
    ensures
        r == (workers >= 2),
{
    workers >= 2
}

impl<T, N> Client<T, N> {
    /// The tasks this client runs: a pool on each path whose worker count is
    /// at least 2, and keepalives when an interval is set.
    pub fn task_plan(&self) -> (p: TaskPlan)
        ensures
            p.decrypt_pool == (self.decrypt_workers >= 2),
            p.encrypt_pool == (self.encrypt_workers >= 2),
            p.keepalive == self.keepalive is Some,
    {
        TaskPlan {
            decrypt_pool: wants_pool(self.decrypt_workers),
            encrypt_pool: wants_pool(self.encrypt_workers),
            keepalive: self.keepalive.is_some(),
        }
    }
}

} // verus!
