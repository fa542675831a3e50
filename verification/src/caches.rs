use vstd::prelude::*;

use vstd::map::*;

use crate::config::{
    Config, DnsAnalyzerConfig, PortsTouchedCacheConfig, TcpSynFloodCacheConfig,
    TotalDataSizeCacheConfig,
};
use crate::ttl_map::TtlCache;
use crate::ttl_map::distinct_seq;
use crate::ttl_map::key_index;
use crate::ttl_map::lemma_key_index;

verus! {

/// A network address, either IPv4 or IPv6, held as a plain integer so that
/// equality is structural and contracts can speak of it directly.
#[derive(PartialEq, Eq, Structural, Clone, Copy, Debug, Hash)]
pub enum IpAddress {
    V4(u32),
    V6(u128),
}

/// A directed pair of addresses identifying a flow for the port-activity metric.
#[derive(PartialEq, Eq, Structural, Clone, Copy, Debug, Hash)]
pub struct IpPair {
    pub src: IpAddress,
    pub dst: IpAddress,
}

impl IpPair {
    pub fn new(src: IpAddress, dst: IpAddress) -> (r: Self)
        ensures
            r.src == src,
            r.dst == dst,
    {
        IpPair { src, dst }
    }
}

/// A key a cache can look entries up by: executable equality that agrees
/// with mathematical equality.
pub trait CacheKey: Sized + Copy {
    fn key_eq(&self, other: &Self) -> (r: bool)
        ensures
            r == (*self == *other),
    ;
}

impl CacheKey for IpAddress {
    fn key_eq(&self, other: &Self) -> (r: bool)
        ensures
            r == (*self == *other),
    {
        *self == *other
    }
}

impl CacheKey for IpPair {
    fn key_eq(&self, other: &Self) -> (r: bool)
        ensures
            r == (*self == *other),
    {
        *self == *other
    }
}

/// Addition that stops at the counter's ceiling instead of wrapping.
pub open spec fn sat_add(a: u32, b: u32) -> u32 {
    if a + b <= u32::MAX {
        (a + b) as u32
    } else {
        u32::MAX
    }
}

/// String values of `s` are pairwise distinct, compared by their characters.
pub open spec fn distinct_str_views(s: Seq<String>) -> bool {
    forall|i: int, j: int| 0 <= i < s.len() && 0 <= j < s.len() && s[i]@ == s[j]@ ==> i == j
}

/// Cumulative bytes seen per destination address.
pub struct TotalDataSizeCache {
    pub map: TtlCache<IpAddress, u32>,
}

impl TotalDataSizeCache {
    pub fn from_config(cfg: &TotalDataSizeCacheConfig) -> (r: Self)
        ensures
            r.map.wf(),
            r.map.entry_seq().len() == 0,
            r.map.dirty_seq().len() == 0,
            r.map.ttl == cfg.entiry_ttl,
            r.map.max_size == cfg.max_size,
    {
        TotalDataSizeCache { map: TtlCache::new(cfg.entiry_ttl, cfg.max_size) }
    }
}

impl Default for TotalDataSizeCache {
    fn default() -> (r: Self)
        ensures
            r.map.wf(),
            r.map.entry_seq().len() == 0,
            r.map.dirty_seq().len() == 0,
            r.map.ttl == 13,
            r.map.max_size == Some(30usize),
    {
        let cfg = TotalDataSizeCacheConfig::default();
        TotalDataSizeCache::from_config(&cfg)
    }
}

/// Distinct destination ports touched per address pair.
pub struct PortsTouchedCache {
    pub map: TtlCache<IpPair, Vec<u16>>,
}

impl PortsTouchedCache {
    pub fn from_config(cfg: &PortsTouchedCacheConfig) -> (r: Self)
        ensures
            r.map.wf(),
            r.map.entry_seq().len() == 0,
            r.map.dirty_seq().len() == 0,
            r.map.ttl == cfg.entiry_ttl,
            r.map.max_size == cfg.max_size,
    {
        PortsTouchedCache { map: TtlCache::new(cfg.entiry_ttl, cfg.max_size) }
    }
}

impl Default for PortsTouchedCache {
    fn default() -> (r: Self)
        ensures
            r.map.wf(),
            r.map.entry_seq().len() == 0,
            r.map.dirty_seq().len() == 0,
            r.map.ttl == 13,
            r.map.max_size == Some(30usize),
    {
        let cfg = PortsTouchedCacheConfig::default();
        PortsTouchedCache::from_config(&cfg)
    }
}

/// Query names seen per source address. This cache has no age or size bound:
/// the DNS analyzer wipes it whole after every pass, so its growth is bounded
/// by the analyzer's cycle length. Age-based eviction is never run on it.
pub struct DnsCache {
    pub map: TtlCache<IpAddress, Vec<String>>,
}

impl DnsCache {
    pub fn new() -> (r: Self)
        ensures
            r.map.wf(),
            r.map.entry_seq().len() == 0,
            r.map.dirty_seq().len() == 0,
    {
        DnsCache { map: TtlCache::new(0, None) }
    }

    /// Drop every entry.
    pub fn clear(&mut self)
        ensures
            final(self).map.wf(),
            final(self).map.entry_seq().len() == 0,
            final(self).map.dirty_seq().len() == 0,
            forall|k: IpAddress| !final(self).map.contains_key(k),
    {
        self.map = TtlCache::new(0, None);
    }
}

impl Default for DnsCache {
    fn default() -> (r: Self)
        ensures
            r.map.wf(),
            r.map.entry_seq().len() == 0,
            r.map.dirty_seq().len() == 0,
    {
        DnsCache::new()
    }
}

/// SYN segments seen per source address.
pub struct TcpSynFloodCache {
    pub map: TtlCache<IpAddress, u32>,
}

impl TcpSynFloodCache {
    pub fn from_config(cfg: &TcpSynFloodCacheConfig) -> (r: Self)
        ensures
            r.map.wf(),
            r.map.entry_seq().len() == 0,
            r.map.dirty_seq().len() == 0,
            r.map.ttl == cfg.entiry_ttl,
            r.map.max_size == cfg.max_size,
    {
        TcpSynFloodCache { map: TtlCache::new(cfg.entiry_ttl, cfg.max_size) }
    }
}

impl Default for TcpSynFloodCache {
    fn default() -> (r: Self)
        ensures
            r.map.wf(),
            r.map.entry_seq().len() == 0,
            r.map.dirty_seq().len() == 0,
            r.map.ttl == 13,
            r.map.max_size == Some(30usize),
    {
        let cfg = TcpSynFloodCacheConfig::default();
        TcpSynFloodCache::from_config(&cfg)
    }
}

/// One decoded observation, ready to be folded into a cache.
pub enum CachableEvent {
    IpSize(IpAddress, u32),
    Port(IpPair, u16),
    Dns(IpAddress, String),
    TcpSyn(IpAddress),
}

/// What an event says, with the query name as its character sequence.
pub ghost enum EventView {
    IpSize(IpAddress, u32),
    Port(IpPair, u16),
    Dns(IpAddress, Seq<char>),
    TcpSyn(IpAddress),
}

impl View for CachableEvent {
    type V = EventView;

    open spec fn view(&self) -> EventView {
        match self {
            CachableEvent::IpSize(ip, size) => EventView::IpSize(*ip, *size),
            CachableEvent::Port(pair, port) => EventView::Port(*pair, *port),
            CachableEvent::Dns(ip, name) => EventView::Dns(*ip, name@),
            CachableEvent::TcpSyn(ip) => EventView::TcpSyn(*ip),
        }
    }
}

/// The four per-metric stores, one instance each for the process lifetime.
pub struct Caches {
    pub total_data_size: TotalDataSizeCache,
    pub ports_touched: PortsTouchedCache,
    pub dns: DnsCache,
    pub tcp_syn_flood: TcpSynFloodCache,
}

impl Caches {
    /// Every store is well formed; port lists hold pairwise-distinct ports and
    /// name lists pairwise-distinct names.
    pub open spec fn wf(self) -> bool {
        &&& self.total_data_size.map.wf()
        &&& self.ports_touched.map.wf()
        &&& self.dns.map.wf()
        &&& self.tcp_syn_flood.map.wf()
        &&& forall|j: int|
            0 <= j < self.ports_touched.map.entry_seq().len() ==> distinct_seq(
                (#[trigger] self.ports_touched.map.entry_seq()[j]).value@,
            )
        &&& forall|j: int|
            0 <= j < self.dns.map.entry_seq().len() ==> distinct_str_views(
                (#[trigger] self.dns.map.entry_seq()[j]).value@,
            )
    }

    pub fn from_config(cfg: &Config) -> (r: Self)
        ensures
            r.wf(),
            r.total_data_size.map.entry_seq().len() == 0,
            r.ports_touched.map.entry_seq().len() == 0,
            r.dns.map.entry_seq().len() == 0,
            r.tcp_syn_flood.map.entry_seq().len() == 0,
            r.total_data_size.map.ttl == cfg.cache.total_data_size.entiry_ttl,
            r.total_data_size.map.max_size == cfg.cache.total_data_size.max_size,
            r.ports_touched.map.ttl == cfg.cache.ports_touched.entiry_ttl,
            r.ports_touched.map.max_size == cfg.cache.ports_touched.max_size,
            r.tcp_syn_flood.map.ttl == cfg.cache.tcp_syn_flood.entiry_ttl,
            r.tcp_syn_flood.map.max_size == cfg.cache.tcp_syn_flood.max_size,
    {
        Caches {
            total_data_size: TotalDataSizeCache::from_config(&cfg.cache.total_data_size),
            ports_touched: PortsTouchedCache::from_config(&cfg.cache.ports_touched),
            dns: DnsCache::new(),
            tcp_syn_flood: TcpSynFloodCache::from_config(&cfg.cache.tcp_syn_flood),
        }
    }
}

fn copy_ports(v: &Vec<u16>) -> (r: Vec<u16>)
    ensures
        r@ == v@,
{
    let mut out: Vec<u16> = Vec::new();
    let mut i: usize = 0;
    while i < v.len()
        invariant
            0 <= i <= v@.len(),
            out@ == v@.take(i as int),
        decreases v@.len() - i,
    {
        out.push(v[i]);
        proof {
            assert(out@ =~= v@.take(i + 1 as int));
        }
        i += 1;
    }
    proof {
        assert(out@ =~= v@);
    }
    out
}

fn contains_port(v: &Vec<u16>, port: u16) -> (r: bool)
    ensures
        r == v@.contains(port),
{
    let mut i: usize = 0;
    while i < v.len()
        invariant
            0 <= i <= v@.len(),
            forall|j: int| 0 <= j < i ==> v@[j] != port,
        decreases v@.len() - i,
    {
        if v[i] == port {
            return true;
        }
        i += 1;
    }
    false
}

fn copy_names(v: &Vec<String>) -> (r: Vec<String>)
    ensures
        r@ == v@,
{
    let mut out: Vec<String> = Vec::new();
    let mut i: usize = 0;
    while i < v.len()
        invariant
            0 <= i <= v@.len(),
            out@ == v@.take(i as int),
        decreases v@.len() - i,
    {
        out.push(v[i].clone());
        proof {
            assert(out@ =~= v@.take(i + 1 as int));
        }
        i += 1;
    }
    proof {
        assert(out@ =~= v@);
    }
    out
}

pub(crate) fn contains_name(v: &Vec<String>, name: &String) -> (r: bool)
    ensures
        r == (exists|j: int| 0 <= j < v@.len() && (#[trigger] v@[j])@ == name@),
{
    let mut i: usize = 0;
    while i < v.len()
        invariant
            0 <= i <= v@.len(),
            forall|j: int| 0 <= j < i ==> (#[trigger] v@[j])@ != name@,
        decreases v@.len() - i,
    {
        if v[i].eq(name) {
            return true;
        }
        i += 1;
    }
    false
}

/// What the port list under `pair` holds after a touch of `port`: the same
/// ports, with `port` appended if it was new.
pub open spec fn ports_after(old_ports: Seq<u16>, port: u16) -> Seq<u16> {
    if old_ports.contains(port) {
        old_ports
    } else {
        old_ports.push(port)
    }
}

/// Some string of `names` reads as `name`.
pub open spec fn names_contain(names: Seq<String>, name: Seq<char>) -> bool {
    exists|j: int| 0 <= j < names.len() && (#[trigger] names[j])@ == name
}

/// The name list grew by `name` exactly when it was new.
pub open spec fn names_after_ok(names0: Seq<String>, names1: Seq<String>, name: Seq<char>) -> bool {
    &&& names_contain(names0, name) ==> names1 == names0
    &&& !names_contain(names0, name) ==> names1.len() == names0.len() + 1 && names1.take(
        names0.len() as int,
    ) == names0 && names1.last()@ == name
}

/// The byte-total store read as a mathematical map from key to counter.
pub open spec fn counter_map_view(c: TtlCache<IpAddress, u32>) -> Map<IpAddress, u32> {
    Map::new(|k: IpAddress| c.contains_key(k), |k: IpAddress| c.value_of(k))
}

/// The byte total of a cache entry, with the entry's absence read as zero.
pub open spec fn counter_or_zero(c: TtlCache<IpAddress, u32>, k: IpAddress) -> u32 {
    if c.contains_key(k) {
        c.value_of(k)
    } else {
        0u32
    }
}

/// The port list of a cache entry, with the entry's absence read as empty.
pub open spec fn ports_or_empty(c: TtlCache<IpPair, Vec<u16>>, k: IpPair) -> Seq<u16> {
    if c.contains_key(k) {
        c.value_of(k)@
    } else {
        Seq::<u16>::empty()
    }
}

/// The name list of a cache entry, with the entry's absence read as empty.
pub open spec fn names_or_empty(c: TtlCache<IpAddress, Vec<String>>, k: IpAddress) -> Seq<String> {
    if c.contains_key(k) {
        c.value_of(k)@
    } else {
        Seq::<String>::empty()
    }
}

/// Apply one decoded event to the store it belongs to: counters add,
/// port and name lists take set-insertions, and the touched key is stamped
/// with `now` and marked dirty. The DNS store's dirty marks are never read:
/// its analyzer walks the whole map and then wipes it.
pub fn cache_event(caches: &mut Caches, event: CachableEvent, now: u64)
    requires
        old(caches).wf(),
    ensures
        final(caches).wf(),
        event@ matches EventView::IpSize(ip, size) ==> {
            let c0 = old(caches).total_data_size.map;
            let c1 = final(caches).total_data_size.map;
            &&& final(caches).ports_touched == old(caches).ports_touched
            &&& final(caches).dns == old(caches).dns
            &&& final(caches).tcp_syn_flood == old(caches).tcp_syn_flood
            &&& c1.ttl == c0.ttl && c1.max_size == c0.max_size
            &&& c1.contains_key(ip)
            &&& c1.value_of(ip) == sat_add(counter_or_zero(c0, ip), size)
            &&& c1.write_time_of(ip) == now
            &&& c1.is_dirty(ip)
            &&& forall|k: IpAddress| k != ip ==> c1.contains_key(k) == c0.contains_key(k)
            &&& forall|k: IpAddress|
                k != ip && c0.contains_key(k) ==> c1.value_of(k) == c0.value_of(k)
                    && c1.write_time_of(k) == c0.write_time_of(k)
            &&& forall|k: IpAddress| k != ip ==> c1.is_dirty(k) == c0.is_dirty(k)
            &&& counter_map_view(c1) == apply_size_events(
                counter_map_view(c0),
                seq![(ip, size)],
            )
        },
        event@ matches EventView::Port(pair, port) ==> {
            let c0 = old(caches).ports_touched.map;
            let c1 = final(caches).ports_touched.map;
            &&& final(caches).total_data_size == old(caches).total_data_size
            &&& final(caches).dns == old(caches).dns
            &&& final(caches).tcp_syn_flood == old(caches).tcp_syn_flood
            &&& c1.ttl == c0.ttl && c1.max_size == c0.max_size
            &&& c1.contains_key(pair)
            &&& c1.value_of(pair)@ == ports_after(ports_or_empty(c0, pair), port)
            &&& c1.write_time_of(pair) == now
            &&& c1.is_dirty(pair)
            &&& forall|k: IpPair| k != pair ==> c1.contains_key(k) == c0.contains_key(k)
            &&& forall|k: IpPair|
                k != pair && c0.contains_key(k) ==> c1.value_of(k) == c0.value_of(k)
                    && c1.write_time_of(k) == c0.write_time_of(k)
            &&& forall|k: IpPair| k != pair ==> c1.is_dirty(k) == c0.is_dirty(k)
        },
        event@ matches EventView::Dns(ip, name) ==> {
            let c0 = old(caches).dns.map;
            let c1 = final(caches).dns.map;
            &&& final(caches).total_data_size == old(caches).total_data_size
            &&& final(caches).ports_touched == old(caches).ports_touched
            &&& final(caches).tcp_syn_flood == old(caches).tcp_syn_flood
            &&& c1.contains_key(ip)
            &&& names_after_ok(names_or_empty(c0, ip), c1.value_of(ip)@, name)
            &&& forall|k: IpAddress| k != ip ==> c1.contains_key(k) == c0.contains_key(k)
            &&& forall|k: IpAddress|
                k != ip && c0.contains_key(k) ==> c1.value_of(k) == c0.value_of(k)
        },
        event@ matches EventView::TcpSyn(ip) ==> {
            let c0 = old(caches).tcp_syn_flood.map;
            let c1 = final(caches).tcp_syn_flood.map;
            &&& final(caches).total_data_size == old(caches).total_data_size
            &&& final(caches).ports_touched == old(caches).ports_touched
            &&& final(caches).dns == old(caches).dns
            &&& c1.ttl == c0.ttl && c1.max_size == c0.max_size
            &&& c1.contains_key(ip)
            &&& c1.value_of(ip) == sat_add(counter_or_zero(c0, ip), 1u32)
            &&& c1.write_time_of(ip) == now
            &&& c1.is_dirty(ip)
            &&& forall|k: IpAddress| k != ip ==> c1.contains_key(k) == c0.contains_key(k)
            &&& forall|k: IpAddress|
                k != ip && c0.contains_key(k) ==> c1.value_of(k) == c0.value_of(k)
                    && c1.write_time_of(k) == c0.write_time_of(k)
            &&& forall|k: IpAddress| k != ip ==> c1.is_dirty(k) == c0.is_dirty(k)
        },
{
    match event {
        CachableEvent::IpSize(ip, size) => {
            let cur: u32 = match caches.total_data_size.map.get(&ip) {
                Some(v) => *v,
                None => 0,
            };
            let next: u32 = if cur <= u32::MAX - size {
                cur + size
            } else {
                u32::MAX
            };
            caches.total_data_size.map.set_value(ip, next, now);
            proof {
                let c0 = old(caches).total_data_size.map;
                let c1 = caches.total_data_size.map;
                let ev = seq![(ip, size)];
                assert(ev.drop_last() =~= Seq::<(IpAddress, u32)>::empty());
                assert(apply_size_events(counter_map_view(c0), ev.drop_last())
                    == counter_map_view(c0));
                assert_maps_equal!(
                    counter_map_view(c1),
                    apply_size_events(counter_map_view(c0), ev),
                    k => {
                        if k == ip {
                            assert(c1.contains_key(ip));
                            assert(counter_map_view(c0).dom().contains(ip)
                                == c0.contains_key(ip));
                        } else {
                            assert(c1.contains_key(k) == c0.contains_key(k));
                        }
                    }
                );
            }
        },
        CachableEvent::Port(pair, port) => {
            let mut ports: Vec<u16> = match caches.ports_touched.map.get(&pair) {
                Some(v) => copy_ports(v),
                None => Vec::new(),
            };
            let ghost ports0 = ports@;
            proof {
                let c0 = caches.ports_touched.map;
                if c0.contains_key(pair) {
                    lemma_key_index(c0.entry_seq(), pair);
                    assert(distinct_seq(c0.entry_seq()[key_index(c0.entry_seq(), pair)].value@));
                    assert(ports0 == c0.value_of(pair)@);
                }
                assert(distinct_seq(ports0));
            }
            if !contains_port(&ports, port) {
                ports.push(port);
                proof {
                    assert forall|i: int, j: int|
                        0 <= i < ports@.len() && 0 <= j < ports@.len() && ports@[i] == ports@[j]
                        implies i == j by {
                        let m = ports@.len() - 1;
                        if i < m && j == m {
                            assert(ports0[i] == port);
                            assert(ports0.contains(port));
                        } else if i == m && j < m {
                            assert(ports0[j] == port);
                            assert(ports0.contains(port));
                        } else if i < m && j < m {
                            assert(ports0[i] == ports0[j]);
                        }
                    }
                }
            }
            let ghost ports1 = ports@;
            caches.ports_touched.map.set_value(pair, ports, now);
            proof {
                let c0 = old(caches).ports_touched.map;
                let c1 = caches.ports_touched.map;
                assert(distinct_seq(ports1));
                assert forall|j: int| 0 <= j < c1.entry_seq().len() implies distinct_seq(
                    (#[trigger] c1.entry_seq()[j]).value@,
                ) by {
                    let k = c1.entry_seq()[j].key;
                    assert(c1.contains_key(k)) by {
                        assert(c1.entry_seq()[j].key == k);
                    }
                    lemma_key_index(c1.entry_seq(), k);
                    assert(j == key_index(c1.entry_seq(), k));
                    if k == pair {
                        assert(c1.value_of(pair)@ == ports1);
                    } else {
                        assert(c0.contains_key(k));
                        lemma_key_index(c0.entry_seq(), k);
                        assert(distinct_seq(
                            c0.entry_seq()[key_index(c0.entry_seq(), k)].value@,
                        ));
                        assert(c1.value_of(k) == c0.value_of(k));
                    }
                }
            }
        },
        CachableEvent::Dns(ip, name) => {
            let mut names: Vec<String> = match caches.dns.map.get(&ip) {
                Some(v) => copy_names(v),
                None => Vec::new(),
            };
            let ghost names0 = names@;
            proof {
                let c0 = caches.dns.map;
                if c0.contains_key(ip) {
                    lemma_key_index(c0.entry_seq(), ip);
                    assert(distinct_str_views(
                        c0.entry_seq()[key_index(c0.entry_seq(), ip)].value@,
                    ));
                    assert(names0 == c0.value_of(ip)@);
                }
                assert(distinct_str_views(names0));
            }
            if !contains_name(&names, &name) {
                names.push(name);
                proof {
                    assert forall|i: int, j: int|
                        0 <= i < names@.len() && 0 <= j < names@.len() && names@[i]@ == names@[j]@
                        implies i == j by {
                        let m = names@.len() - 1;
                        if i < m && j == m {
                            assert(names0[i]@ == names@[m]@);
                        } else if i == m && j < m {
                            assert(names0[j]@ == names@[m]@);
                        } else if i < m && j < m {
                            assert(names0[i]@ == names0[j]@);
                        }
                    }
                    assert(names@.take(names0.len() as int) =~= names0);
                }
            }
            let ghost names1 = names@;
            caches.dns.map.set_value(ip, names, now);
            proof {
                let c0 = old(caches).dns.map;
                let c1 = caches.dns.map;
                assert(distinct_str_views(names1));
                assert forall|j: int| 0 <= j < c1.entry_seq().len() implies distinct_str_views(
                    (#[trigger] c1.entry_seq()[j]).value@,
                ) by {
                    let k = c1.entry_seq()[j].key;
                    assert(c1.contains_key(k)) by {
                        assert(c1.entry_seq()[j].key == k);
                    }
                    lemma_key_index(c1.entry_seq(), k);
                    assert(j == key_index(c1.entry_seq(), k));
                    if k == ip {
                        assert(c1.value_of(ip)@ == names1);
                    } else {
                        assert(c0.contains_key(k));
                        lemma_key_index(c0.entry_seq(), k);
                        assert(distinct_str_views(
                            c0.entry_seq()[key_index(c0.entry_seq(), k)].value@,
                        ));
                        assert(c1.value_of(k) == c0.value_of(k));
                    }
                }
            }
        },
        CachableEvent::TcpSyn(ip) => {
            let cur: u32 = match caches.tcp_syn_flood.map.get(&ip) {
                Some(v) => *v,
                None => 0,
            };
            let next: u32 = if cur <= u32::MAX - 1 {
                cur + 1
            } else {
                u32::MAX
            };
            caches.tcp_syn_flood.map.set_value(ip, next, now);
        },
    }
}

/// The exact sum of a sequence of byte counts.
pub open spec fn byte_sum(sizes: Seq<u32>) -> int
    decreases sizes.len(),
{
    if sizes.len() == 0 {
        0
    } else {
        byte_sum(sizes.drop_last()) + sizes.last()
    }
}

/// The counter value after folding a sequence of contributions into `start`,
/// one per event, exactly as the event applier adds them.
pub open spec fn accumulate(start: u32, sizes: Seq<u32>) -> u32
    decreases sizes.len(),
{
    if sizes.len() == 0 {
        start
    } else {
        sat_add(accumulate(start, sizes.drop_last()), sizes.last())
    }
}

/// Law: for any sequence of byte-count contributions to one destination whose
/// sum fits the counter, applying them all, starting from a fresh entry,
/// leaves the destination's cached total equal to their exact sum.
pub proof fn lemma_aggregation(sizes: Seq<u32>)
    requires
        byte_sum(sizes) <= u32::MAX,
    ensures
        accumulate(0, sizes) as int == byte_sum(sizes),
    decreases sizes.len(),
{
    if sizes.len() > 0 {
        assert(byte_sum(sizes.drop_last()) <= u32::MAX);
        lemma_aggregation(sizes.drop_last());
    }
}

/// The sizes of the byte-count events for `dst`, in arrival order.
pub open spec fn sizes_for(events: Seq<(IpAddress, u32)>, dst: IpAddress) -> Seq<u32>
    decreases events.len(),
{
    if events.len() == 0 {
        Seq::empty()
    } else {
        let rest = sizes_for(events.drop_last(), dst);
        if events.last().0 == dst {
            rest.push(events.last().1)
        } else {
            rest
        }
    }
}

/// What the byte-total map holds after the applier drains `events` in arrival
/// order, one upsert per event, exactly as `cache_event` makes them.
pub open spec fn apply_size_events(
    m: Map<IpAddress, u32>,
    events: Seq<(IpAddress, u32)>,
) -> Map<IpAddress, u32>
    decreases events.len(),
{
    if events.len() == 0 {
        m
    } else {
        let m1 = apply_size_events(m, events.drop_last());
        let dst = events.last().0;
        m1.insert(
            dst,
            sat_add(
                if m1.dom().contains(dst) {
                    m1[dst]
                } else {
                    0u32
                },
                events.last().1,
            ),
        )
    }
}

/// Law: however the producers' events interleave in the channel, the single
/// applier loses none of them. After a drain, a destination that started
/// absent holds exactly the fold of its own contributions, whatever events
/// for other keys stand between them.
pub proof fn lemma_no_lost_updates(
    m: Map<IpAddress, u32>,
    events: Seq<(IpAddress, u32)>,
    dst: IpAddress,
)
    requires
        !m.dom().contains(dst),
    ensures
        sizes_for(events, dst).len() > 0 ==> apply_size_events(m, events).dom().contains(dst)
            && apply_size_events(m, events)[dst] == accumulate(0, sizes_for(events, dst)),
        sizes_for(events, dst).len() == 0 ==> !apply_size_events(m, events).dom().contains(dst),
    decreases events.len(),
{
    if events.len() > 0 {
        lemma_no_lost_updates(m, events.drop_last(), dst);
        let rest = sizes_for(events.drop_last(), dst);
        if events.last().0 == dst {
            assert(sizes_for(events, dst) == rest.push(events.last().1));
            assert(rest.push(events.last().1).drop_last() =~= rest);
            assert(accumulate(0, rest.push(events.last().1)) == sat_add(
                accumulate(0, rest),
                events.last().1,
            ));
            if rest.len() == 0 {
                assert(accumulate(0, rest) == 0);
            }
        }
    }
}

/// Law: a port touch records its port, and touching a port already recorded
/// leaves the distinct-port list unchanged, so repeats never raise the count.
pub proof fn lemma_port_touch_idempotent(ports: Seq<u16>, port: u16)
    ensures
        ports_after(ports, port).contains(port),
        ports_after(ports_after(ports, port), port) == ports_after(ports, port),
        ports_after(ports, port).len() == ports.len() + (if ports.contains(port) {
            0int
        } else {
            1int
        }),
{
    if !ports.contains(port) {
        assert(ports.push(port)[ports.len() as int] == port);
        assert(ports.push(port).contains(port));
    }
}

/// Route one event into the store it belongs to; what the event applier
/// calls for each event it drains, in arrival order.
pub fn cache(caches: &mut Caches, event: CachableEvent, now: u64)
    requires
        old(caches).wf(),
    ensures
        final(caches).wf(),
        event@ matches EventView::IpSize(ip, size) ==> {
            let c0 = old(caches).total_data_size.map;
            let c1 = final(caches).total_data_size.map;
            &&& final(caches).ports_touched == old(caches).ports_touched
            &&& final(caches).dns == old(caches).dns
            &&& final(caches).tcp_syn_flood == old(caches).tcp_syn_flood
            &&& c1.contains_key(ip)
            &&& c1.value_of(ip) == sat_add(counter_or_zero(c0, ip), size)
            &&& c1.write_time_of(ip) == now
            &&& c1.is_dirty(ip)
            &&& forall|k: IpAddress| k != ip ==> c1.contains_key(k) == c0.contains_key(k)
            &&& forall|k: IpAddress|
                k != ip && c0.contains_key(k) ==> c1.value_of(k) == c0.value_of(k)
            &&& counter_map_view(c1) == apply_size_events(
                counter_map_view(c0),
                seq![(ip, size)],
            )
        },
        event@ matches EventView::Port(pair, port) ==> {
            let c0 = old(caches).ports_touched.map;
            let c1 = final(caches).ports_touched.map;
            &&& final(caches).total_data_size == old(caches).total_data_size
            &&& final(caches).dns == old(caches).dns
            &&& final(caches).tcp_syn_flood == old(caches).tcp_syn_flood
            &&& c1.contains_key(pair)
            &&& c1.value_of(pair)@ == ports_after(ports_or_empty(c0, pair), port)
            &&& c1.is_dirty(pair)
            &&& forall|k: IpPair| k != pair ==> c1.contains_key(k) == c0.contains_key(k)
            &&& forall|k: IpPair|
                k != pair && c0.contains_key(k) ==> c1.value_of(k) == c0.value_of(k)
        },
        event@ matches EventView::Dns(ip, name) ==> {
            let c0 = old(caches).dns.map;
            let c1 = final(caches).dns.map;
            &&& final(caches).total_data_size == old(caches).total_data_size
            &&& final(caches).ports_touched == old(caches).ports_touched
            &&& final(caches).tcp_syn_flood == old(caches).tcp_syn_flood
            &&& c1.contains_key(ip)
            &&& names_after_ok(names_or_empty(c0, ip), c1.value_of(ip)@, name)
        },
        event@ matches EventView::TcpSyn(ip) ==> {
            let c0 = old(caches).tcp_syn_flood.map;
            let c1 = final(caches).tcp_syn_flood.map;
            &&& final(caches).total_data_size == old(caches).total_data_size
            &&& final(caches).ports_touched == old(caches).ports_touched
            &&& final(caches).dns == old(caches).dns
            &&& c1.contains_key(ip)
            &&& c1.value_of(ip) == sat_add(counter_or_zero(c0, ip), 1u32)
            &&& c1.is_dirty(ip)
        },
{
    cache_event(caches, event, now);
}

} // verus!
