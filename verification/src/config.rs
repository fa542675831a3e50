use vstd::prelude::*;

verus! {

/// Capture settings for a network interface.
pub struct Interface {
    pub read_buffer_size: usize,
}

impl Default for Interface {
    fn default() -> (r: Self)
        ensures
            r.read_buffer_size == 4096,
    {
        Interface { read_buffer_size: 4096 }
    }
}

/// Settings of the byte-total cache.
pub struct TotalDataSizeCacheConfig {
    pub entiry_ttl: u64,
    pub max_size: Option<usize>,
}

impl Default for TotalDataSizeCacheConfig {
    fn default() -> (r: Self)
        ensures
            r.entiry_ttl == 13,
            r.max_size == Some(30usize),
    {
        TotalDataSizeCacheConfig { entiry_ttl: 13, max_size: Some(30) }
    }
}

/// Settings of the distinct-port cache.
pub struct PortsTouchedCacheConfig {
    pub entiry_ttl: u64,
    pub max_size: Option<usize>,
}

impl Default for PortsTouchedCacheConfig {
    fn default() -> (r: Self)
        ensures
            r.entiry_ttl == 13,
            r.max_size == Some(30usize),
    {
        PortsTouchedCacheConfig { entiry_ttl: 13, max_size: Some(30) }
    }
}

/// Settings of the SYN-count cache.
pub struct TcpSynFloodCacheConfig {
    pub entiry_ttl: u64,
    pub max_size: Option<usize>,
}

impl Default for TcpSynFloodCacheConfig {
    fn default() -> (r: Self)
        ensures
            r.entiry_ttl == 13,
            r.max_size == Some(30usize),
    {
        TcpSynFloodCacheConfig { entiry_ttl: 13, max_size: Some(30) }
    }
}

/// Settings of all caches, and of the event channel that feeds them.
pub struct Cache {
    pub queue_channel_bound: usize,
    pub total_data_size: TotalDataSizeCacheConfig,
    pub ports_touched: PortsTouchedCacheConfig,
    pub tcp_syn_flood: TcpSynFloodCacheConfig,
}

impl Default for Cache {
    fn default() -> (r: Self)
        ensures
            r.queue_channel_bound == 0,
            r.total_data_size.entiry_ttl == 13,
            r.total_data_size.max_size == Some(30usize),
            r.ports_touched.entiry_ttl == 13,
            r.ports_touched.max_size == Some(30usize),
            r.tcp_syn_flood.entiry_ttl == 13,
            r.tcp_syn_flood.max_size == Some(30usize),
    {
        Cache {
            queue_channel_bound: 0,
            total_data_size: TotalDataSizeCacheConfig::default(),
            ports_touched: PortsTouchedCacheConfig::default(),
            tcp_syn_flood: TcpSynFloodCacheConfig::default(),
        }
    }
}

/// Settings of the byte-total analyzer.
pub struct UploadedDataSizesAnalyzerConfig {
    pub cycle: u64,
    pub trigger_size: u32,
}

impl Default for UploadedDataSizesAnalyzerConfig {
    fn default() -> (r: Self)
        ensures
            r.cycle == 5,
            r.trigger_size == 5000000,
    {
        UploadedDataSizesAnalyzerConfig { cycle: 5, trigger_size: 5000000 }
    }
}

/// Settings of the port-activity analyzer.
pub struct PortsActivityAnalyzerConfig {
    pub cycle: u64,
    pub trigger_count: usize,
}

impl Default for PortsActivityAnalyzerConfig {
    fn default() -> (r: Self)
        ensures
            r.cycle == 5,
            r.trigger_count == 20,
    {
        PortsActivityAnalyzerConfig { cycle: 5, trigger_count: 20 }
    }
}

/// Settings of the DNS analyzer: which query names alert, by exact match.
pub struct DnsAnalyzerConfig {
    pub cycle: u64,
    pub malicious_domains: Vec<String>,
}

impl Default for DnsAnalyzerConfig {
    fn default() -> (r: Self)
        ensures
            r.cycle == 1,
            r.malicious_domains@.len() == 2,
            r.malicious_domains@[0]@ == "google.com"@,
            r.malicious_domains@[1]@ == "gmail.com"@,
    {
        let mut malicious_domains: Vec<String> = Vec::new();
        malicious_domains.push("google.com".to_owned());
        malicious_domains.push("gmail.com".to_owned());
        DnsAnalyzerConfig { cycle: 1, malicious_domains }
    }
}

/// Settings of the SYN-flood analyzer.
pub struct TcpSynFloodAnalyzerConfig {
    pub cycle: u64,
    pub trigger_count: u32,
}

impl Default for TcpSynFloodAnalyzerConfig {
    fn default() -> (r: Self)
        ensures
            r.cycle == 5,
            r.trigger_count == 50,
    {
        TcpSynFloodAnalyzerConfig { cycle: 5, trigger_count: 50 }
    }
}

/// Settings of all analyzers.
pub struct Analyzer {
    pub uploaded_data_sizes: UploadedDataSizesAnalyzerConfig,
    pub ports_activity: PortsActivityAnalyzerConfig,
    pub dns: DnsAnalyzerConfig,
    pub tcp_syn_flood: TcpSynFloodAnalyzerConfig,
}

impl Default for Analyzer {
    fn default() -> (r: Self)
        ensures
            r.uploaded_data_sizes.cycle == 5,
            r.uploaded_data_sizes.trigger_size == 5000000,
            r.ports_activity.cycle == 5,
            r.ports_activity.trigger_count == 20,
            r.dns.cycle == 1,
            r.dns.malicious_domains@.len() == 2,
            r.dns.malicious_domains@[0]@ == "google.com"@,
            r.dns.malicious_domains@[1]@ == "gmail.com"@,
            r.tcp_syn_flood.cycle == 5,
            r.tcp_syn_flood.trigger_count == 50,
    {
        Analyzer {
            uploaded_data_sizes: UploadedDataSizesAnalyzerConfig::default(),
            ports_activity: PortsActivityAnalyzerConfig::default(),
            dns: DnsAnalyzerConfig::default(),
            tcp_syn_flood: TcpSynFloodAnalyzerConfig::default(),
        }
    }
}

/// The whole configuration, as the configuration file supplies it.
pub struct Config {
    pub interface: Interface,
    pub cache: Cache,
    pub analyzer: Analyzer,
}

impl Default for Config {
    fn default() -> (r: Self)
        ensures
            r.interface.read_buffer_size == 4096,
            r.cache.queue_channel_bound == 0,
            r.cache.total_data_size.entiry_ttl == 13,
            r.cache.total_data_size.max_size == Some(30usize),
            r.cache.ports_touched.entiry_ttl == 13,
            r.cache.ports_touched.max_size == Some(30usize),
            r.cache.tcp_syn_flood.entiry_ttl == 13,
            r.cache.tcp_syn_flood.max_size == Some(30usize),
            r.analyzer.uploaded_data_sizes.trigger_size == 5000000,
            r.analyzer.ports_activity.trigger_count == 20,
            r.analyzer.tcp_syn_flood.trigger_count == 50,
            r.analyzer.dns.malicious_domains@.len() == 2,
            r.analyzer.dns.malicious_domains@[0]@ == "google.com"@,
            r.analyzer.dns.malicious_domains@[1]@ == "gmail.com"@,
    {
        Config {
            interface: Interface::default(),
            cache: Cache::default(),
            analyzer: Analyzer::default(),
        }
    }
}

} // verus!
