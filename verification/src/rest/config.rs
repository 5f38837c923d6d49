//! Server configuration with its defaults and validation rules.
use vstd::prelude::*;

use crate::text::{i64_text, int_text, nat_digits, owned, push_char, push_str, u64_text};

verus! {

/// Run mode of a service.
#[derive(Clone, Copy, Debug, PartialEq, Eq, Structural)]
pub enum Mode {
    Dev,
    Test,
    Rt,
    Pre,
    Pro,
}

/// Service-level settings shared by every kind of server.
#[derive(Clone, Debug)]
pub struct ServiceConf {
    pub name: String,
    pub mode: Mode,
}

impl Default for ServiceConf {
    fn default() -> (r: Self)
        ensures
            r.name@ == Seq::<char>::empty(),
            r.mode == Mode::Pro,
    {
        ServiceConf { name: String::new(), mode: Mode::Pro }
    }
}

/// Switches of the built-in middlewares; all on by default.
#[derive(Clone, Debug)]
pub struct MiddlewaresConf {
    pub trace: bool,
    pub log: bool,
    pub prometheus: bool,
    pub max_connections: bool,
    pub breaker: bool,
    pub shedding: bool,
    pub timeout: bool,
    pub recover: bool,
    pub metrics: bool,
    pub max_bytes: bool,
    pub gzip: bool,
}

pub fn default_true() -> (b: bool)
    ensures
        b,
{
    true
}

impl Default for MiddlewaresConf {
    fn default() -> (r: Self)
        ensures
            r.trace && r.log && r.prometheus && r.max_connections && r.breaker && r.shedding
                && r.timeout && r.recover && r.metrics && r.max_bytes && r.gzip,
    {
        MiddlewaresConf {
            trace: true,
            log: true,
            prometheus: true,
            max_connections: true,
            breaker: true,
            shedding: true,
            timeout: true,
            recover: true,
            metrics: true,
            max_bytes: true,
            gzip: true,
        }
    }
}

/// A private key used for request signatures.
#[derive(Clone, Debug)]
pub struct PrivateKeyConf {
    pub fingerprint: String,
    pub key_file: String,
}

impl Default for PrivateKeyConf {
    fn default() -> (r: Self)
        ensures
            r.fingerprint@ == Seq::<char>::empty(),
            r.key_file@ == Seq::<char>::empty(),
    {
        PrivateKeyConf { fingerprint: String::new(), key_file: String::new() }
    }
}

pub fn default_signature_strict() -> (b: bool)
    ensures
        !b,
{
    false
}

/// One hour, in seconds.
pub fn default_signature_expiry_secs() -> (n: u64)
    ensures
        n == 3600,
{
    3600
}

/// Request signature settings.
#[derive(Clone, Debug)]
pub struct SignatureConf {
    pub strict: bool,
    /// Expiry in seconds.
    pub expiry_secs: u64,
    pub private_keys: Vec<PrivateKeyConf>,
}

impl Default for SignatureConf {
    fn default() -> (r: Self)
        ensures
            !r.strict,
            r.expiry_secs == 3600,
            r.private_keys@.len() == 0,
    {
        SignatureConf { strict: false, expiry_secs: 3600, private_keys: Vec::new() }
    }
}

pub fn default_host() -> (s: String)
    ensures
        s@ == "0.0.0.0"@,
{
    owned("0.0.0.0")
}

pub fn default_port() -> (p: u16)
    ensures
        p == 8888,
{
    8888
}

pub fn default_max_connections() -> (n: i64)
    ensures
        n == 10_000,
{
    10_000
}

/// 16 MiB.
pub fn default_max_bytes() -> (n: i64)
    ensures
        n == 16 * 1_048_576,
{
    16 * 1_048_576
}

pub fn default_timeout_ms() -> (t: Option<u64>)
    ensures
        t == Some(3_000u64),
{
    Some(3_000)
}

pub fn default_cpu_threshold() -> (n: i64)
    ensures
        n == 900,
{
    900
}

pub fn default_reuse_port() -> (b: bool)
    ensures
        !b,
{
    false
}

pub fn default_workers() -> (w: Option<usize>)
    ensures
        w is None,
{
    None
}

pub fn default_cpu_affinity() -> (a: Option<Vec<usize>>)
    ensures
        a is None,
{
    None
}

pub fn default_http2() -> (b: bool)
    ensures
        !b,
{
    false
}

pub fn default_http2_h2c() -> (b: bool)
    ensures
        !b,
{
    false
}

pub fn default_http1_keep_alive() -> (b: bool)
    ensures
        b,
{
    true
}

pub fn default_http1_max_buf_size() -> (n: Option<usize>)
    ensures
        n is None,
{
    None
}

pub fn default_tcp_keepalive_secs() -> (n: Option<u64>)
    ensures
        n is None,
{
    None
}

pub fn default_rate_limit() -> (r: Option<RateLimitConf>)
    ensures
        r is None,
{
    None
}

pub fn default_concurrency_limit() -> (n: Option<usize>)
    ensures
        n is None,
{
    None
}

/// Token bucket settings: tokens per second and burst size.
#[derive(Clone, Debug)]
pub struct RateLimitConf {
    pub permits_per_second: u64,
    pub burst: u64,
}

/// Configuration of a REST server.
#[derive(Clone, Debug)]
pub struct RestConf {
    pub service: ServiceConf,
    pub host: String,
    pub port: u16,
    pub cert_file: Option<String>,
    pub key_file: Option<String>,
    pub max_connections: i64,
    pub max_bytes: i64,
    /// Per-request timeout in milliseconds; `None` disables it.
    pub timeout: Option<u64>,
    /// Range `[0, 1000)`.
    pub cpu_threshold: i64,
    pub signature: Option<SignatureConf>,
    pub middlewares: MiddlewaresConf,
    pub trace_ignore_paths: Vec<String>,
    pub workers: Option<usize>,
    pub reuse_port: bool,
    pub cpu_affinity: Option<Vec<usize>>,
    pub http2: bool,
    pub h2c: bool,
    pub http1_keep_alive: bool,
    pub http1_max_buf_size: Option<usize>,
    pub tcp_keepalive_secs: Option<u64>,
    pub rate_limit: Option<RateLimitConf>,
    pub concurrency_limit: Option<usize>,
}

/// The first rule that the configuration breaks, as its message.
pub open spec fn validate_conf(c: RestConf) -> Result<(), Seq<char>> {
    if !(0 <= c.cpu_threshold < 1000) {
        Err("CpuThreshold out of range [0,1000): "@ + int_text(c.cpu_threshold as int))
    } else if c.port == 0 {
        Err("Port must be > 0"@)
    } else if c.workers == Some(0usize) {
        Err("Workers must be >= 1"@)
    } else if c.cpu_affinity is Some && c.cpu_affinity->0@.len() == 0 {
        Err("CpuAffinity cannot be empty when set"@)
    } else if c.h2c && !c.http2 {
        Err("h2c requires http2=true"@)
    } else if c.rate_limit is Some && (c.rate_limit->0.permits_per_second == 0
        || c.rate_limit->0.burst == 0) {
        Err("RateLimit permits_per_second and burst must be > 0"@)
    } else if c.concurrency_limit == Some(0usize) {
        Err("ConcurrencyLimit must be > 0"@)
    } else {
        Ok(())
    }
}

/// The default values of every field.
pub open spec fn is_default_conf(c: RestConf) -> bool {
    &&& c.service.name@ == Seq::<char>::empty()
    &&& c.service.mode == Mode::Pro
    &&& c.host@ == "0.0.0.0"@
    &&& c.port == 8888
    &&& c.cert_file is None
    &&& c.key_file is None
    &&& c.max_connections == 10_000
    &&& c.max_bytes == 16 * 1_048_576
    &&& c.timeout == Some(3_000u64)
    &&& c.cpu_threshold == 900
    &&& c.signature is None
    &&& c.middlewares.trace && c.middlewares.log && c.middlewares.prometheus
        && c.middlewares.max_connections && c.middlewares.breaker && c.middlewares.shedding
        && c.middlewares.timeout && c.middlewares.recover && c.middlewares.metrics
        && c.middlewares.max_bytes && c.middlewares.gzip
    &&& c.trace_ignore_paths@.len() == 0
    &&& c.workers is None
    &&& !c.reuse_port
    &&& c.cpu_affinity is None
    &&& !c.http2
    &&& !c.h2c
    &&& c.http1_keep_alive
    &&& c.http1_max_buf_size is None
    &&& c.tcp_keepalive_secs is None
    &&& c.rate_limit is None
    &&& c.concurrency_limit is None
}

impl Default for RestConf {
    fn default() -> (r: Self)
        ensures
            is_default_conf(r),
    {
        Self::new()
    }
}

impl RestConf {
    /// The default configuration, which is valid.
    pub fn new() -> (r: Self)
        ensures
            is_default_conf(r),
            validate_conf(r) is Ok,
    {
        let conf = RestConf {
            service: ServiceConf::default(),
            host: default_host(),
            port: default_port(),
            cert_file: None,
            key_file: None,
            max_connections: default_max_connections(),
            max_bytes: default_max_bytes(),
            timeout: default_timeout_ms(),
            cpu_threshold: default_cpu_threshold(),
            signature: None,
            middlewares: MiddlewaresConf::default(),
            trace_ignore_paths: Vec::new(),
            workers: default_workers(),
            reuse_port: default_reuse_port(),
            cpu_affinity: default_cpu_affinity(),
            http2: default_http2(),
            h2c: default_http2_h2c(),
            http1_keep_alive: default_http1_keep_alive(),
            http1_max_buf_size: default_http1_max_buf_size(),
            tcp_keepalive_secs: default_tcp_keepalive_secs(),
            rate_limit: default_rate_limit(),
            concurrency_limit: default_concurrency_limit(),
        };
        let checked = conf.validate();
        assert(checked is Ok);
        conf
    }

    /// `host:port`.
    pub fn addr_string(&self) -> (s: String)
        ensures
            s@ == self.host@ + seq![':'] + nat_digits(self.port as nat),
    {
        let mut s = self.host.clone();
        push_char(&mut s, ':');
        let p = u64_text(self.port as u64);
        push_str(&mut s, p.as_str());
        s
    }

    /// Checks the configuration; the error names the first broken rule.
    pub fn validate(&self) -> (r: Result<(), String>)
        ensures
            match r {
                Ok(()) => validate_conf(*self) is Ok,
                Err(m) => validate_conf(*self) == Err::<(), Seq<char>>(m@),
            },
    {
        if !(0 <= self.cpu_threshold && self.cpu_threshold < 1000) {
            let mut m = owned("CpuThreshold out of range [0,1000): ");
            let t = i64_text(self.cpu_threshold);
            push_str(&mut m, t.as_str());
            return Err(m);
        }
        if self.port == 0 {
            return Err(owned("Port must be > 0"));
        }
        if let Some(w) = self.workers {
            if w == 0 {
                return Err(owned("Workers must be >= 1"));
            }
        }
        if let Some(aff) = &self.cpu_affinity {
            if aff.len() == 0 {
                return Err(owned("CpuAffinity cannot be empty when set"));
            }
        }
        if self.h2c && !self.http2 {
            return Err(owned("h2c requires http2=true"));
        }
        if let Some(rl) = &self.rate_limit {
            if rl.permits_per_second == 0 || rl.burst == 0 {
                return Err(owned("RateLimit permits_per_second and burst must be > 0"));
            }
        }
        if let Some(c) = self.concurrency_limit {
            if c == 0 {
                return Err(owned("ConcurrencyLimit must be > 0"));
            }
        }
        Ok(())
    }
}

/// The default configuration passes validation.
pub proof fn law_default_conf_is_valid(c: RestConf)
    requires
        is_default_conf(c),
    ensures
        validate_conf(c) is Ok,
{
}

} // verus!
