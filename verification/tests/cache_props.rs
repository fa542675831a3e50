use netmon::analyzers::{
    dns_analyzer, ports_activity_analyzer, syn_flood_analyzer, uploaded_data_sizes_analyzer, Alert,
};
use netmon::caches::{cache, cache_event, CachableEvent, Caches, IpAddress, IpPair};
use netmon::config::{
    Config, DnsAnalyzerConfig, PortsActivityAnalyzerConfig, TcpSynFloodAnalyzerConfig,
    UploadedDataSizesAnalyzerConfig,
};

fn v4(a: u8, b: u8, c: u8, d: u8) -> IpAddress {
    IpAddress::V4(
        ((a as u32) << 24) | ((b as u32) << 16) | ((c as u32) << 8) | (d as u32),
    )
}

fn fresh_caches() -> Caches {
    Caches::from_config(&Config::default())
}

fn size_cfg(trigger_size: u32) -> UploadedDataSizesAnalyzerConfig {
    UploadedDataSizesAnalyzerConfig { cycle: 5, trigger_size }
}

fn ports_cfg(trigger_count: usize) -> PortsActivityAnalyzerConfig {
    PortsActivityAnalyzerConfig { cycle: 5, trigger_count }
}

fn syn_cfg(trigger_count: u32) -> TcpSynFloodAnalyzerConfig {
    TcpSynFloodAnalyzerConfig { cycle: 5, trigger_count }
}

fn dns_cfg(domains: &[&str]) -> DnsAnalyzerConfig {
    DnsAnalyzerConfig {
        cycle: 1,
        malicious_domains: domains.iter().map(|d| d.to_string()).collect(),
    }
}

#[test]
fn aggregation_sums_contributions() {
    let mut caches = fresh_caches();
    let dst = v4(10, 0, 0, 5);
    for size in [100u32, 250, 4096, 1, 0] {
        cache_event(&mut caches, CachableEvent::IpSize(dst, size), 1);
    }
    assert_eq!(caches.total_data_size.map.get(&dst), Some(&4447u32));
}

#[test]
fn aggregation_saturates_at_ceiling() {
    let mut caches = fresh_caches();
    let dst = v4(10, 0, 0, 5);
    cache_event(&mut caches, CachableEvent::IpSize(dst, u32::MAX - 10), 1);
    cache_event(&mut caches, CachableEvent::IpSize(dst, 100), 1);
    assert_eq!(caches.total_data_size.map.get(&dst), Some(&u32::MAX));
}

#[test]
fn threshold_exact_value_does_not_alert() {
    let mut caches = fresh_caches();
    let dst = v4(10, 0, 0, 5);
    cache_event(&mut caches, CachableEvent::IpSize(dst, 5_000_000), 1);
    let alerts = uploaded_data_sizes_analyzer(&mut caches.total_data_size, &size_cfg(5_000_000), 1);
    assert!(alerts.is_empty());
    // The non-alerting entry stays and keeps accumulating.
    assert_eq!(caches.total_data_size.map.get(&dst), Some(&5_000_000u32));
}

#[test]
fn threshold_one_over_alerts() {
    let mut caches = fresh_caches();
    let dst = v4(10, 0, 0, 5);
    cache_event(&mut caches, CachableEvent::IpSize(dst, 5_000_001), 1);
    let alerts = uploaded_data_sizes_analyzer(&mut caches.total_data_size, &size_cfg(5_000_000), 1);
    assert_eq!(alerts.len(), 1);
    match &alerts[0] {
        Alert::UploadedDataSize { dst: d, size } => {
            assert_eq!(*d, v4(10, 0, 0, 5));
            assert_eq!(*size, 5_000_001);
        }
        _ => panic!("wrong alert kind"),
    }
}

#[test]
fn repeated_port_does_not_raise_count() {
    let mut caches = fresh_caches();
    let pair = IpPair::new(v4(1, 2, 3, 4), v4(5, 6, 7, 8));
    for _ in 0..10 {
        cache_event(&mut caches, CachableEvent::Port(pair, 443), 1);
    }
    assert_eq!(caches.ports_touched.map.get(&pair).unwrap().len(), 1);
}

#[test]
fn exactly_trigger_count_ports_does_not_alert() {
    let mut caches = fresh_caches();
    let pair = IpPair::new(v4(1, 2, 3, 4), v4(5, 6, 7, 8));
    for port in 1..=20u16 {
        cache_event(&mut caches, CachableEvent::Port(pair, port), 1);
    }
    let alerts = ports_activity_analyzer(&mut caches.ports_touched, &ports_cfg(20), 1);
    assert!(alerts.is_empty());
}

#[test]
fn one_more_distinct_port_alerts() {
    let mut caches = fresh_caches();
    let pair = IpPair::new(v4(1, 2, 3, 4), v4(5, 6, 7, 8));
    for port in 1..=21u16 {
        cache_event(&mut caches, CachableEvent::Port(pair, port), 1);
    }
    let alerts = ports_activity_analyzer(&mut caches.ports_touched, &ports_cfg(20), 1);
    assert_eq!(alerts.len(), 1);
    match &alerts[0] {
        Alert::PortsActivity { src, dst, count } => {
            assert_eq!(*src, v4(1, 2, 3, 4));
            assert_eq!(*dst, v4(5, 6, 7, 8));
            assert_eq!(*count, 21);
        }
        _ => panic!("wrong alert kind"),
    }
}

#[test]
fn alerting_key_is_evicted_once_and_restarts_from_zero() {
    let mut caches = fresh_caches();
    let dst = v4(10, 0, 0, 5);
    let cfg = size_cfg(5_000_000);
    cache_event(&mut caches, CachableEvent::IpSize(dst, 6_000_000), 1);
    let alerts = uploaded_data_sizes_analyzer(&mut caches.total_data_size, &cfg, 1);
    assert_eq!(alerts.len(), 1);
    // The triggering key left with its alert.
    assert!(caches.total_data_size.map.get(&dst).is_none());
    // A later small contribution accumulates from zero and does not re-alert.
    cache_event(&mut caches, CachableEvent::IpSize(dst, 1_000), 2);
    let alerts = uploaded_data_sizes_analyzer(&mut caches.total_data_size, &cfg, 2);
    assert!(alerts.is_empty());
    assert_eq!(caches.total_data_size.map.get(&dst), Some(&1_000u32));
}

#[test]
fn syn_flood_counts_and_alerts_strictly_over_trigger() {
    let mut caches = fresh_caches();
    let src = v4(9, 8, 7, 6);
    for _ in 0..50 {
        cache_event(&mut caches, CachableEvent::TcpSyn(src), 1);
    }
    let alerts = syn_flood_analyzer(&mut caches.tcp_syn_flood, &syn_cfg(50), 1);
    assert!(alerts.is_empty());
    let other = v4(6, 7, 8, 9);
    for _ in 0..51 {
        cache_event(&mut caches, CachableEvent::TcpSyn(other), 2);
    }
    let alerts = syn_flood_analyzer(&mut caches.tcp_syn_flood, &syn_cfg(50), 2);
    assert_eq!(alerts.len(), 1);
    match &alerts[0] {
        Alert::TcpSynFlood { src: s, count } => {
            assert_eq!(*s, v4(6, 7, 8, 9));
            assert_eq!(*count, 51);
        }
        _ => panic!("wrong alert kind"),
    }
}

#[test]
fn entry_older_than_ttl_is_gone_after_cleanup() {
    let mut caches = fresh_caches();
    let dst = v4(10, 0, 0, 5);
    // Default TTL is 13 seconds.
    cache_event(&mut caches, CachableEvent::IpSize(dst, 42), 0);
    caches.total_data_size.map.cleanup(13);
    assert_eq!(caches.total_data_size.map.get(&dst), Some(&42u32));
    caches.total_data_size.map.cleanup(14);
    assert!(caches.total_data_size.map.get(&dst).is_none());
}

#[test]
fn capacity_bound_removes_oldest_first() {
    // A long TTL keeps age out of the picture; the bound stays at 30 entries.
    let mut cfg = Config::default();
    cfg.cache.total_data_size.entiry_ttl = 1000;
    let mut caches = Caches::from_config(&cfg);
    // Write 40 distinct keys at distinct times, newest last.
    for k in 0..40u32 {
        cache_event(&mut caches, CachableEvent::IpSize(IpAddress::V4(k), 1), 100 + k as u64);
    }
    assert_eq!(caches.total_data_size.map.len(), 40);
    caches.total_data_size.map.cleanup(140);
    assert_eq!(caches.total_data_size.map.len(), 30);
    // The ten least-recently-written keys left; the thirty newest stayed.
    for k in 0..10u32 {
        assert!(caches.total_data_size.map.get(&IpAddress::V4(k)).is_none());
    }
    for k in 10..40u32 {
        assert!(caches.total_data_size.map.get(&IpAddress::V4(k)).is_some());
    }
}

#[test]
fn dns_cache_is_empty_after_every_pass() {
    let mut caches = fresh_caches();
    let src = v4(9, 9, 9, 9);
    cache_event(&mut caches, CachableEvent::Dns(src, "example.org".to_string()), 1);
    // No configured domain matches: still a full reset.
    let alerts = dns_analyzer(&mut caches.dns, &dns_cfg(&["google.com"]));
    assert!(alerts.is_empty());
    assert_eq!(caches.dns.map.len(), 0);
    cache_event(&mut caches, CachableEvent::Dns(src, "google.com".to_string()), 2);
    let alerts = dns_analyzer(&mut caches.dns, &dns_cfg(&["google.com"]));
    assert_eq!(alerts.len(), 1);
    assert_eq!(caches.dns.map.len(), 0);
}

#[test]
fn dns_match_is_exact_not_suffix() {
    let mut caches = fresh_caches();
    let src = v4(9, 9, 9, 9);
    cache_event(&mut caches, CachableEvent::Dns(src, "mail.google.com".to_string()), 1);
    let alerts = dns_analyzer(&mut caches.dns, &dns_cfg(&["google.com"]));
    assert!(alerts.is_empty());
    cache_event(&mut caches, CachableEvent::Dns(src, "google.com".to_string()), 2);
    let alerts = dns_analyzer(&mut caches.dns, &dns_cfg(&["google.com"]));
    assert_eq!(alerts.len(), 1);
    match &alerts[0] {
        Alert::MaliciousDns { src: s, query_name } => {
            assert_eq!(*s, v4(9, 9, 9, 9));
            assert_eq!(query_name, "google.com");
        }
        _ => panic!("wrong alert kind"),
    }
}

#[test]
fn repeated_dns_name_is_kept_once() {
    let mut caches = fresh_caches();
    let src = v4(9, 9, 9, 9);
    for _ in 0..3 {
        cache_event(&mut caches, CachableEvent::Dns(src, "google.com".to_string()), 1);
    }
    // One recorded name yields one alert for one configured domain.
    let alerts = dns_analyzer(&mut caches.dns, &dns_cfg(&["google.com"]));
    assert_eq!(alerts.len(), 1);
}

#[test]
fn scenario_three_large_datagrams_alert_once_and_evict() {
    let mut caches = fresh_caches();
    let dst = v4(10, 0, 0, 5);
    let cfg = size_cfg(5_000_000);
    for _ in 0..3 {
        cache(&mut caches, CachableEvent::IpSize(dst, 2_000_000), 1);
    }
    let alerts = uploaded_data_sizes_analyzer(&mut caches.total_data_size, &cfg, 1);
    assert_eq!(alerts.len(), 1);
    match &alerts[0] {
        Alert::UploadedDataSize { dst: d, size } => {
            assert_eq!(*d, v4(10, 0, 0, 5));
            assert_eq!(*size, 6_000_000);
        }
        _ => panic!("wrong alert kind"),
    }
    assert!(caches.total_data_size.map.get(&dst).is_none());
}

#[test]
fn default_config_matches_documented_defaults() {
    let cfg = Config::default();
    assert_eq!(cfg.interface.read_buffer_size, 4096);
    assert_eq!(cfg.cache.total_data_size.entiry_ttl, 13);
    assert_eq!(cfg.cache.total_data_size.max_size, Some(30));
    assert_eq!(cfg.cache.ports_touched.entiry_ttl, 13);
    assert_eq!(cfg.cache.ports_touched.max_size, Some(30));
    assert_eq!(cfg.cache.tcp_syn_flood.entiry_ttl, 13);
    assert_eq!(cfg.cache.tcp_syn_flood.max_size, Some(30));
    assert_eq!(cfg.analyzer.uploaded_data_sizes.cycle, 5);
    assert_eq!(cfg.analyzer.uploaded_data_sizes.trigger_size, 5_000_000);
    assert_eq!(cfg.analyzer.ports_activity.trigger_count, 20);
    assert_eq!(cfg.analyzer.dns.cycle, 1);
    assert_eq!(cfg.analyzer.dns.malicious_domains, vec!["google.com", "gmail.com"]);
    assert_eq!(cfg.analyzer.tcp_syn_flood.cycle, 5);
    assert_eq!(cfg.analyzer.tcp_syn_flood.trigger_count, 50);
}

#[test]
fn events_for_distinct_keys_do_not_disturb_each_other() {
    let mut caches = fresh_caches();
    let a = v4(1, 1, 1, 1);
    let b = v4(2, 2, 2, 2);
    cache_event(&mut caches, CachableEvent::IpSize(a, 10), 1);
    cache_event(&mut caches, CachableEvent::IpSize(b, 20), 1);
    cache_event(&mut caches, CachableEvent::IpSize(a, 5), 1);
    assert_eq!(caches.total_data_size.map.get(&a), Some(&15u32));
    assert_eq!(caches.total_data_size.map.get(&b), Some(&20u32));
}
