//! Configuration values that the resolver core reads, and their defaults.
use vstd::prelude::*;
use vstd::string::*;

verus! {

/// Where the resolver listens.
#[derive(Debug, Clone)]
pub struct ListenConfig {
    pub address: String,
    pub port: u16,
}

/// An upstream server for forwarding.
#[derive(Debug, Clone)]
pub struct UpstreamConfig {
    pub name: String,
    pub address: String,
    pub port: u16,
    pub timeout_ms: u64,
}

/// Answer-cache settings.
#[derive(Debug, Clone, Copy)]
pub struct CacheConfig {
    pub max_entries: usize,
    pub serve_stale: bool,
    pub stale_ttl_secs: u64,
}

/// Query-journal settings.
#[derive(Debug, Clone)]
pub struct JournalConfig {
    pub enabled: bool,
    pub path: Option<String>,
    pub max_entries: usize,
    pub retention_hours: u64,
}

/// Negative-cache settings.
#[derive(Debug, Clone, Copy)]
pub struct NegativeCacheConfig {
    pub enabled: bool,
    pub speculative: bool,
    pub default_ttl: u32,
}

/// EDNS settings: the private-use option code that the resolver reads.
#[derive(Debug, Clone, Copy)]
pub struct EdnsConfig {
    pub enabled: bool,
    pub custom_option_code: u16,
}

/// Web UI settings.
#[derive(Debug, Clone)]
pub struct WebConfig {
    pub enabled: bool,
    pub address: String,
    pub port: u16,
}

/// Whether responses carry the feature-annotation TXT record.
#[derive(Debug, Clone, Copy)]
pub struct NekoCommentConfig {
    pub enabled: bool,
}

impl Default for NekoCommentConfig {
    fn default() -> (r: Self)
        ensures
            r.enabled,
    {
        NekoCommentConfig { enabled: true }
    }
}

pub fn default_timeout_ms() -> (r: u64)
    ensures
        r == 2000,
{
    2000
}

pub fn default_max_entries() -> (r: usize)
    ensures
        r == 100_000,
{
    100_000
}

pub fn default_stale_ttl() -> (r: u64)
    ensures
        r == 86400,
{
    86400
}

pub fn default_true() -> (r: bool)
    ensures
        r,
{
    true
}

pub fn default_min_ttl() -> (r: u32)
    ensures
        r == 30,
{
    30
}

pub fn default_max_ttl() -> (r: u32)
    ensures
        r == 86400,
{
    86400
}

pub fn default_prefetch_interval() -> (r: u64)
    ensures
        r == 10,
{
    10
}

pub fn default_trust_interval() -> (r: u64)
    ensures
        r == 60,
{
    60
}

pub fn default_journal_max() -> (r: usize)
    ensures
        r == 1_000_000,
{
    1_000_000
}

pub fn default_journal_retention() -> (r: u64)
    ensures
        r == 168,
{
    168
}

pub fn default_neg_ttl() -> (r: u32)
    ensures
        r == 300,
{
    300
}

pub fn default_edns_code() -> (r: u16)
    ensures
        r == 65001,
{
    65001
}

pub fn default_web_address() -> (r: String)
    ensures
        r@ == "0.0.0.0"@,
{
    String::from_str("0.0.0.0")
}

pub fn default_web_port() -> (r: u16)
    ensures
        r == 8053,
{
    8053
}

} // verus!
