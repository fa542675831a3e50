use vstd::prelude::*;

use crate::caches::{
    DnsCache, IpAddress, IpPair, PortsTouchedCache, TcpSynFloodCache, TotalDataSizeCache,
    contains_name, names_contain,
};
use crate::config::{
    DnsAnalyzerConfig, PortsActivityAnalyzerConfig, TcpSynFloodAnalyzerConfig,
    UploadedDataSizesAnalyzerConfig,
};
use crate::ttl_map::{lemma_fresh_count_le_len, Entry, TtlCache, spec_fresh};

verus! {

/// One threshold crossing, ready for the alert sink. Transient: produced by an
/// analyzer pass, handed out, never stored.
pub enum Alert {
    UploadedDataSize { dst: IpAddress, size: u32 },
    PortsActivity { src: IpAddress, dst: IpAddress, count: usize },
    MaliciousDns { src: IpAddress, query_name: String },
    TcpSynFlood { src: IpAddress, count: u32 },
}

/// The alerts one byte-total pass emits: one per dirty key whose total
/// strictly exceeds the trigger, in dirty order.
pub open spec fn size_alerts(
    c: TtlCache<IpAddress, u32>,
    dirty: Seq<IpAddress>,
    trigger: u32,
) -> Seq<Alert>
    decreases dirty.len(),
{
    if dirty.len() == 0 {
        Seq::empty()
    } else {
        let rest = size_alerts(c, dirty.drop_last(), trigger);
        if c.value_of(dirty.last()) > trigger {
            rest.push(
                Alert::UploadedDataSize { dst: dirty.last(), size: c.value_of(dirty.last()) },
            )
        } else {
            rest
        }
    }
}

/// The alerts one port-activity pass emits: one per dirty pair that touched
/// strictly more distinct ports than the trigger, in dirty order.
pub open spec fn port_alerts(
    c: TtlCache<IpPair, Vec<u16>>,
    dirty: Seq<IpPair>,
    trigger: usize,
) -> Seq<Alert>
    decreases dirty.len(),
{
    if dirty.len() == 0 {
        Seq::empty()
    } else {
        let rest = port_alerts(c, dirty.drop_last(), trigger);
        if c.value_of(dirty.last())@.len() > trigger {
            rest.push(
                Alert::PortsActivity {
                    src: dirty.last().src,
                    dst: dirty.last().dst,
                    count: c.value_of(dirty.last())@.len() as usize,
                },
            )
        } else {
            rest
        }
    }
}

/// The alerts one SYN-flood pass emits: one per dirty source whose SYN count
/// strictly exceeds the trigger, in dirty order.
pub open spec fn syn_alerts(
    c: TtlCache<IpAddress, u32>,
    dirty: Seq<IpAddress>,
    trigger: u32,
) -> Seq<Alert>
    decreases dirty.len(),
{
    if dirty.len() == 0 {
        Seq::empty()
    } else {
        let rest = syn_alerts(c, dirty.drop_last(), trigger);
        if c.value_of(dirty.last()) > trigger {
            rest.push(Alert::TcpSynFlood { src: dirty.last(), count: c.value_of(dirty.last()) })
        } else {
            rest
        }
    }
}

/// A dirty key whose accumulated counter strictly exceeds the trigger.
pub open spec fn counter_triggered(c: TtlCache<IpAddress, u32>, k: IpAddress, trigger: u32) -> bool {
    c.is_dirty(k) && c.value_of(k) > trigger
}

/// A dirty pair whose distinct-port count strictly exceeds the trigger.
pub open spec fn ports_triggered(c: TtlCache<IpPair, Vec<u16>>, k: IpPair, trigger: usize) -> bool {
    c.is_dirty(k) && c.value_of(k)@.len() > trigger
}

/// One analysis pass over the byte-total cache: alert on every dirty key
/// strictly over `trigger_size`, clear the dirty set, evict the keys that
/// alerted, then run the age and size cleanup.
pub fn uploaded_data_sizes_analyzer(
    cache: &mut TotalDataSizeCache,
    cfg: &UploadedDataSizesAnalyzerConfig,
    now: u64,
) -> (alerts: Vec<Alert>)
    requires
        old(cache).map.wf(),
    ensures
        final(cache).map.wf(),
        alerts@ == size_alerts(old(cache).map, old(cache).map.dirty_seq(), cfg.trigger_size),
        final(cache).map.dirty_seq().len() == 0,
        final(cache).map.ttl == old(cache).map.ttl,
        final(cache).map.max_size == old(cache).map.max_size,
        forall|k: IpAddress|
            counter_triggered(old(cache).map, k, cfg.trigger_size) ==> !final(cache).map.contains_key(k),
        forall|k: IpAddress| #[trigger]
            final(cache).map.contains_key(k) ==> old(cache).map.contains_key(k) && final(cache).map.value_of(k) == old(cache).map.value_of(k) && final(cache).map.write_time_of(k)
                == old(cache).map.write_time_of(k) && spec_fresh(
                old(cache).map.write_time_of(k),
                now,
                old(cache).map.ttl,
            ) && !counter_triggered(old(cache).map, k, cfg.trigger_size),
        old(cache).map.max_size matches Some(m) ==> final(cache).map.entry_seq().len() <= m,
        old(cache).map.max_size is None ==> forall|k: IpAddress| #[trigger]
            final(cache).map.contains_key(k) == (old(cache).map.contains_key(k)
                && !counter_triggered(old(cache).map, k, cfg.trigger_size) && spec_fresh(
                old(cache).map.write_time_of(k),
                now,
                old(cache).map.ttl,
            )),
        (old(cache).map.max_size matches Some(m) && old(cache).map.entry_seq().len() <= m)
            ==> forall|k: IpAddress| #[trigger]
                final(cache).map.contains_key(k) == (old(cache).map.contains_key(k)
                    && !counter_triggered(old(cache).map, k, cfg.trigger_size) && spec_fresh(
                    old(cache).map.write_time_of(k),
                    now,
                    old(cache).map.ttl,
                )),
        forall|k1: IpAddress, k2: IpAddress|
            #[trigger] old(cache).map.contains_key(k1) && !counter_triggered(
                old(cache).map,
                k1,
                cfg.trigger_size,
            ) && spec_fresh(old(cache).map.write_time_of(k1), now, old(cache).map.ttl) && !final(cache).map.contains_key(k1) && #[trigger] final(cache).map.contains_key(k2) ==> old(cache).map.write_time_of(k1) <= old(cache).map.write_time_of(k2),
{
    let ghost c0 = cache.map;
    let dirty = cache.map.dirty_keys();
    let mut alerts: Vec<Alert> = Vec::new();
    let mut triggered: Vec<IpAddress> = Vec::new();
    let mut i: usize = 0;
    while i < dirty.len()
        invariant
            0 <= i <= dirty@.len(),
            cache.map == c0,
            c0.wf(),
            dirty@ == c0.dirty_seq(),
            alerts@ == size_alerts(c0, dirty@.take(i as int), cfg.trigger_size),
            forall|j: int|
                0 <= j < triggered@.len() ==> c0.dirty_seq().contains(#[trigger] triggered@[j])
                    && c0.value_of(triggered@[j]) > cfg.trigger_size,
            forall|l: int|
                0 <= l < i && c0.value_of(#[trigger] dirty@[l]) > cfg.trigger_size
                    ==> triggered@.contains(dirty@[l]),
        decreases dirty@.len() - i,
    {
        let ip = dirty[i];
        proof {
            assert(c0.dirty_seq()[i as int] == ip);
            assert(c0.is_dirty(ip)) by {
                assert(c0.dirty_seq().contains(ip));
            }
            assert(c0.contains_key(ip));
        }
        let ghost tpre = triggered@;
        let size: u32 = match cache.map.get(&ip) {
            Some(v) => *v,
            None => {
                proof {
                    assert(false);
                }
                0
            },
        };
        if size > cfg.trigger_size {
            alerts.push(Alert::UploadedDataSize { dst: ip, size });
            triggered.push(ip);
        }
        proof {
            assert(dirty@.take(i + 1 as int).drop_last() =~= dirty@.take(i as int));
            assert(dirty@.take(i + 1 as int).last() == ip);
            assert(alerts@ == size_alerts(c0, dirty@.take(i + 1 as int), cfg.trigger_size));
            assert forall|l: int|
                0 <= l < i + 1 && c0.value_of(#[trigger] dirty@[l]) > cfg.trigger_size implies
                triggered@.contains(dirty@[l]) by {
                if l < i {
                    assert(tpre.contains(dirty@[l]));
                    let t = choose|t: int| 0 <= t < tpre.len() && tpre[t] == dirty@[l];
                    assert(triggered@[t] == dirty@[l]);
                } else {
                    assert(triggered@[triggered@.len() - 1] == ip);
                }
            }
        }
        i += 1;
    }
    proof {
        assert(dirty@.take(dirty@.len() as int) =~= dirty@);
    }
    cache.map.clear_dirty();
    cache.map.evict_all(&triggered);
    let ghost c2 = cache.map;
    cache.map.cleanup(now);
    proof {
        assert forall|k: IpAddress|
            counter_triggered(c0, k, cfg.trigger_size) implies !cache.map.contains_key(k) by {
            assert(c0.dirty_seq().contains(k));
            let l = choose|l: int| 0 <= l < c0.dirty_seq().len() && c0.dirty_seq()[l] == k;
            assert(triggered@.contains(k));
            assert(!c2.contains_key(k));
        }
        assert forall|k: IpAddress| #[trigger] cache.map.contains_key(k) implies c0.contains_key(
            k,
        ) && cache.map.value_of(k) == c0.value_of(k) && cache.map.write_time_of(k)
            == c0.write_time_of(k) && spec_fresh(c0.write_time_of(k), now, c0.ttl)
            && !counter_triggered(c0, k, cfg.trigger_size) by {
            assert(c2.contains_key(k));
            if counter_triggered(c0, k, cfg.trigger_size) {
                assert(c0.dirty_seq().contains(k));
                let l = choose|l: int| 0 <= l < c0.dirty_seq().len() && c0.dirty_seq()[l] == k;
                assert(triggered@.contains(k));
                assert(false);
            }
        }
        if c0.max_size is None {
            assert forall|k: IpAddress| #[trigger]
                cache.map.contains_key(k) == (c0.contains_key(k) && !counter_triggered(
                    c0,
                    k,
                    cfg.trigger_size,
                ) && spec_fresh(c0.write_time_of(k), now, c0.ttl)) by {
                if c0.contains_key(k) && !counter_triggered(c0, k, cfg.trigger_size)
                    && spec_fresh(c0.write_time_of(k), now, c0.ttl) {
                    if triggered@.contains(k) {
                        let t = choose|t: int|
                            0 <= t < triggered@.len() && triggered@[t] == k;
                        assert(c0.is_dirty(k)) by {
                            assert(c0.dirty_seq().contains(k));
                        }
                        assert(false);
                    }
                    assert(c2.contains_key(k));
                    assert(cache.map.contains_key(k));
                }
            }
        }
        if c0.max_size matches Some(m) && c0.entry_seq().len() <= m {
            lemma_fresh_count_le_len(c2.entry_seq(), now, c2.ttl);
            assert forall|k: IpAddress| #[trigger]
                cache.map.contains_key(k) == (c0.contains_key(k) && !counter_triggered(
                    c0,
                    k,
                    cfg.trigger_size,
                ) && spec_fresh(c0.write_time_of(k), now, c0.ttl)) by {
                if c0.contains_key(k) && !counter_triggered(c0, k, cfg.trigger_size)
                    && spec_fresh(c0.write_time_of(k), now, c0.ttl) {
                    if triggered@.contains(k) {
                        let t = choose|t: int| 0 <= t < triggered@.len() && triggered@[t] == k;
                        assert(c0.is_dirty(k)) by {
                            assert(c0.dirty_seq().contains(k));
                        }
                        assert(false);
                    }
                    assert(c2.contains_key(k));
                    assert(cache.map.contains_key(k));
                }
            }
        }
        assert forall|k1: IpAddress, k2: IpAddress|
            #[trigger] c0.contains_key(k1) && !counter_triggered(c0, k1, cfg.trigger_size)
                && spec_fresh(c0.write_time_of(k1), now, c0.ttl) && !cache.map.contains_key(k1)
                && #[trigger] cache.map.contains_key(k2) implies c0.write_time_of(k1)
            <= c0.write_time_of(k2) by {
            if triggered@.contains(k1) {
                assert(c0.is_dirty(k1)) by {
                    assert(c0.dirty_seq().contains(k1));
                }
                assert(false);
            }
            assert(c2.contains_key(k1));
            assert(c2.write_time_of(k1) == c0.write_time_of(k1));
            assert(c2.contains_key(k2));
        }
    }
    alerts
}

/// One analysis pass over the port-activity cache: alert on every dirty pair
/// that touched strictly more than `trigger_count` distinct ports, clear the
/// dirty set, evict the pairs that alerted, then run the age and size cleanup.
pub fn ports_activity_analyzer(
    cache: &mut PortsTouchedCache,
    cfg: &PortsActivityAnalyzerConfig,
    now: u64,
) -> (alerts: Vec<Alert>)
    requires
        old(cache).map.wf(),
    ensures
        final(cache).map.wf(),
        alerts@ == port_alerts(old(cache).map, old(cache).map.dirty_seq(), cfg.trigger_count),
        final(cache).map.dirty_seq().len() == 0,
        final(cache).map.ttl == old(cache).map.ttl,
        final(cache).map.max_size == old(cache).map.max_size,
        forall|k: IpPair|
            ports_triggered(old(cache).map, k, cfg.trigger_count) ==> !final(cache).map.contains_key(k),
        forall|k: IpPair| #[trigger]
            final(cache).map.contains_key(k) ==> old(cache).map.contains_key(k) && final(cache).map.value_of(k) == old(cache).map.value_of(k) && final(cache).map.write_time_of(k)
                == old(cache).map.write_time_of(k) && spec_fresh(
                old(cache).map.write_time_of(k),
                now,
                old(cache).map.ttl,
            ) && !ports_triggered(old(cache).map, k, cfg.trigger_count),
        old(cache).map.max_size matches Some(m) ==> final(cache).map.entry_seq().len() <= m,
        old(cache).map.max_size is None ==> forall|k: IpPair| #[trigger]
            final(cache).map.contains_key(k) == (old(cache).map.contains_key(k)
                && !ports_triggered(old(cache).map, k, cfg.trigger_count) && spec_fresh(
                old(cache).map.write_time_of(k),
                now,
                old(cache).map.ttl,
            )),
        (old(cache).map.max_size matches Some(m) && old(cache).map.entry_seq().len() <= m)
            ==> forall|k: IpPair| #[trigger]
                final(cache).map.contains_key(k) == (old(cache).map.contains_key(k)
                    && !ports_triggered(old(cache).map, k, cfg.trigger_count) && spec_fresh(
                    old(cache).map.write_time_of(k),
                    now,
                    old(cache).map.ttl,
                )),
        forall|k1: IpPair, k2: IpPair|
            #[trigger] old(cache).map.contains_key(k1) && !ports_triggered(
                old(cache).map,
                k1,
                cfg.trigger_count,
            ) && spec_fresh(old(cache).map.write_time_of(k1), now, old(cache).map.ttl)
                && !final(cache).map.contains_key(k1) && #[trigger] final(cache).map.contains_key(
                k2,
            ) ==> old(cache).map.write_time_of(k1) <= old(cache).map.write_time_of(k2),
{
    let ghost c0 = cache.map;
    let dirty = cache.map.dirty_keys();
    let mut alerts: Vec<Alert> = Vec::new();
    let mut triggered: Vec<IpPair> = Vec::new();
    let mut i: usize = 0;
    while i < dirty.len()
        invariant
            0 <= i <= dirty@.len(),
            cache.map == c0,
            c0.wf(),
            dirty@ == c0.dirty_seq(),
            alerts@ == port_alerts(c0, dirty@.take(i as int), cfg.trigger_count),
            forall|j: int|
                0 <= j < triggered@.len() ==> c0.dirty_seq().contains(#[trigger] triggered@[j])
                    && c0.value_of(triggered@[j])@.len() > cfg.trigger_count,
            forall|l: int|
                0 <= l < i && c0.value_of(#[trigger] dirty@[l])@.len() > cfg.trigger_count
                    ==> triggered@.contains(dirty@[l]),
        decreases dirty@.len() - i,
    {
        let pair = dirty[i];
        proof {
            assert(c0.dirty_seq()[i as int] == pair);
            assert(c0.is_dirty(pair)) by {
                assert(c0.dirty_seq().contains(pair));
            }
            assert(c0.contains_key(pair));
        }
        let ghost tpre = triggered@;
        let count: usize = match cache.map.get(&pair) {
            Some(v) => v.len(),
            None => {
                proof {
                    assert(false);
                }
                0
            },
        };
        if count > cfg.trigger_count {
            alerts.push(Alert::PortsActivity { src: pair.src, dst: pair.dst, count });
            triggered.push(pair);
        }
        proof {
            assert(dirty@.take(i + 1 as int).drop_last() =~= dirty@.take(i as int));
            assert(dirty@.take(i + 1 as int).last() == pair);
            assert(alerts@ == port_alerts(c0, dirty@.take(i + 1 as int), cfg.trigger_count));
            assert forall|l: int|
                0 <= l < i + 1 && c0.value_of(#[trigger] dirty@[l])@.len() > cfg.trigger_count
                implies triggered@.contains(dirty@[l]) by {
                if l < i {
                    assert(tpre.contains(dirty@[l]));
                    let t = choose|t: int| 0 <= t < tpre.len() && tpre[t] == dirty@[l];
                    assert(triggered@[t] == dirty@[l]);
                } else {
                    assert(triggered@[triggered@.len() - 1] == pair);
                }
            }
        }
        i += 1;
    }
    proof {
        assert(dirty@.take(dirty@.len() as int) =~= dirty@);
    }
    cache.map.clear_dirty();
    cache.map.evict_all(&triggered);
    let ghost c2 = cache.map;
    cache.map.cleanup(now);
    proof {
        assert forall|k: IpPair|
            ports_triggered(c0, k, cfg.trigger_count) implies !cache.map.contains_key(k) by {
            assert(c0.dirty_seq().contains(k));
            let l = choose|l: int| 0 <= l < c0.dirty_seq().len() && c0.dirty_seq()[l] == k;
            assert(triggered@.contains(k));
            assert(!c2.contains_key(k));
        }
        assert forall|k: IpPair| #[trigger] cache.map.contains_key(k) implies c0.contains_key(k)
            && cache.map.value_of(k) == c0.value_of(k) && cache.map.write_time_of(k)
            == c0.write_time_of(k) && spec_fresh(c0.write_time_of(k), now, c0.ttl)
            && !ports_triggered(c0, k, cfg.trigger_count) by {
            assert(c2.contains_key(k));
            if ports_triggered(c0, k, cfg.trigger_count) {
                assert(c0.dirty_seq().contains(k));
                let l = choose|l: int| 0 <= l < c0.dirty_seq().len() && c0.dirty_seq()[l] == k;
                assert(triggered@.contains(k));
                assert(false);
            }
        }
        if c0.max_size is None {
            assert forall|k: IpPair| #[trigger]
                cache.map.contains_key(k) == (c0.contains_key(k) && !ports_triggered(
                    c0,
                    k,
                    cfg.trigger_count,
                ) && spec_fresh(c0.write_time_of(k), now, c0.ttl)) by {
                if c0.contains_key(k) && !ports_triggered(c0, k, cfg.trigger_count) && spec_fresh(
                    c0.write_time_of(k),
                    now,
                    c0.ttl,
                ) {
                    if triggered@.contains(k) {
                        let t = choose|t: int| 0 <= t < triggered@.len() && triggered@[t] == k;
                        assert(c0.is_dirty(k)) by {
                            assert(c0.dirty_seq().contains(k));
                        }
                        assert(false);
                    }
                    assert(c2.contains_key(k));
                    assert(cache.map.contains_key(k));
                }
            }
        }
        if c0.max_size matches Some(m) && c0.entry_seq().len() <= m {
            lemma_fresh_count_le_len(c2.entry_seq(), now, c2.ttl);
            assert forall|k: IpPair| #[trigger]
                cache.map.contains_key(k) == (c0.contains_key(k) && !ports_triggered(
                    c0,
                    k,
                    cfg.trigger_count,
                ) && spec_fresh(c0.write_time_of(k), now, c0.ttl)) by {
                if c0.contains_key(k) && !ports_triggered(c0, k, cfg.trigger_count) && spec_fresh(
                    c0.write_time_of(k),
                    now,
                    c0.ttl,
                ) {
                    if triggered@.contains(k) {
                        let t = choose|t: int| 0 <= t < triggered@.len() && triggered@[t] == k;
                        assert(c0.is_dirty(k)) by {
                            assert(c0.dirty_seq().contains(k));
                        }
                        assert(false);
                    }
                    assert(c2.contains_key(k));
                    assert(cache.map.contains_key(k));
                }
            }
        }
        assert forall|k1: IpPair, k2: IpPair|
            #[trigger] c0.contains_key(k1) && !ports_triggered(c0, k1, cfg.trigger_count)
                && spec_fresh(c0.write_time_of(k1), now, c0.ttl) && !cache.map.contains_key(k1)
                && #[trigger] cache.map.contains_key(k2) implies c0.write_time_of(k1)
            <= c0.write_time_of(k2) by {
            if triggered@.contains(k1) {
                assert(c0.is_dirty(k1)) by {
                    assert(c0.dirty_seq().contains(k1));
                }
                assert(false);
            }
            assert(c2.contains_key(k1));
            assert(c2.write_time_of(k1) == c0.write_time_of(k1));
            assert(c2.contains_key(k2));
        }
    }
    alerts
}

/// One analysis pass over the SYN-flood cache: alert on every dirty source
/// whose SYN count strictly exceeds `trigger_count`, clear the dirty set,
/// evict the sources that alerted, then run the age and size cleanup.
pub fn syn_flood_analyzer(
    cache: &mut TcpSynFloodCache,
    cfg: &TcpSynFloodAnalyzerConfig,
    now: u64,
) -> (alerts: Vec<Alert>)
    requires
        old(cache).map.wf(),
    ensures
        final(cache).map.wf(),
        alerts@ == syn_alerts(old(cache).map, old(cache).map.dirty_seq(), cfg.trigger_count),
        final(cache).map.dirty_seq().len() == 0,
        final(cache).map.ttl == old(cache).map.ttl,
        final(cache).map.max_size == old(cache).map.max_size,
        forall|k: IpAddress|
            counter_triggered(old(cache).map, k, cfg.trigger_count) ==> !final(cache).map.contains_key(k),
        forall|k: IpAddress| #[trigger]
            final(cache).map.contains_key(k) ==> old(cache).map.contains_key(k) && final(cache).map.value_of(k) == old(cache).map.value_of(k) && final(cache).map.write_time_of(k)
                == old(cache).map.write_time_of(k) && spec_fresh(
                old(cache).map.write_time_of(k),
                now,
                old(cache).map.ttl,
            ) && !counter_triggered(old(cache).map, k, cfg.trigger_count),
        old(cache).map.max_size matches Some(m) ==> final(cache).map.entry_seq().len() <= m,
        old(cache).map.max_size is None ==> forall|k: IpAddress| #[trigger]
            final(cache).map.contains_key(k) == (old(cache).map.contains_key(k)
                && !counter_triggered(old(cache).map, k, cfg.trigger_count) && spec_fresh(
                old(cache).map.write_time_of(k),
                now,
                old(cache).map.ttl,
            )),
        (old(cache).map.max_size matches Some(m) && old(cache).map.entry_seq().len() <= m)
            ==> forall|k: IpAddress| #[trigger]
                final(cache).map.contains_key(k) == (old(cache).map.contains_key(k)
                    && !counter_triggered(old(cache).map, k, cfg.trigger_count) && spec_fresh(
                    old(cache).map.write_time_of(k),
                    now,
                    old(cache).map.ttl,
                )),
        forall|k1: IpAddress, k2: IpAddress|
            #[trigger] old(cache).map.contains_key(k1) && !counter_triggered(
                old(cache).map,
                k1,
                cfg.trigger_count,
            ) && spec_fresh(old(cache).map.write_time_of(k1), now, old(cache).map.ttl)
                && !final(cache).map.contains_key(k1) && #[trigger] final(cache).map.contains_key(
                k2,
            ) ==> old(cache).map.write_time_of(k1) <= old(cache).map.write_time_of(k2),
{
    let ghost c0 = cache.map;
    let dirty = cache.map.dirty_keys();
    let mut alerts: Vec<Alert> = Vec::new();
    let mut triggered: Vec<IpAddress> = Vec::new();
    let mut i: usize = 0;
    while i < dirty.len()
        invariant
            0 <= i <= dirty@.len(),
            cache.map == c0,
            c0.wf(),
            dirty@ == c0.dirty_seq(),
            alerts@ == syn_alerts(c0, dirty@.take(i as int), cfg.trigger_count),
            forall|j: int|
                0 <= j < triggered@.len() ==> c0.dirty_seq().contains(#[trigger] triggered@[j])
                    && c0.value_of(triggered@[j]) > cfg.trigger_count,
            forall|l: int|
                0 <= l < i && c0.value_of(#[trigger] dirty@[l]) > cfg.trigger_count
                    ==> triggered@.contains(dirty@[l]),
        decreases dirty@.len() - i,
    {
        let ip = dirty[i];
        proof {
            assert(c0.dirty_seq()[i as int] == ip);
            assert(c0.is_dirty(ip)) by {
                assert(c0.dirty_seq().contains(ip));
            }
            assert(c0.contains_key(ip));
        }
        let ghost tpre = triggered@;
        let count: u32 = match cache.map.get(&ip) {
            Some(v) => *v,
            None => {
                proof {
                    assert(false);
                }
                0
            },
        };
        if count > cfg.trigger_count {
            alerts.push(Alert::TcpSynFlood { src: ip, count });
            triggered.push(ip);
        }
        proof {
            assert(dirty@.take(i + 1 as int).drop_last() =~= dirty@.take(i as int));
            assert(dirty@.take(i + 1 as int).last() == ip);
            assert(alerts@ == syn_alerts(c0, dirty@.take(i + 1 as int), cfg.trigger_count));
            assert forall|l: int|
                0 <= l < i + 1 && c0.value_of(#[trigger] dirty@[l]) > cfg.trigger_count implies
                triggered@.contains(dirty@[l]) by {
                if l < i {
                    assert(tpre.contains(dirty@[l]));
                    let t = choose|t: int| 0 <= t < tpre.len() && tpre[t] == dirty@[l];
                    assert(triggered@[t] == dirty@[l]);
                } else {
                    assert(triggered@[triggered@.len() - 1] == ip);
                }
            }
        }
        i += 1;
    }
    proof {
        assert(dirty@.take(dirty@.len() as int) =~= dirty@);
    }
    cache.map.clear_dirty();
    cache.map.evict_all(&triggered);
    let ghost c2 = cache.map;
    cache.map.cleanup(now);
    proof {
        assert forall|k: IpAddress|
            counter_triggered(c0, k, cfg.trigger_count) implies !cache.map.contains_key(k) by {
            assert(c0.dirty_seq().contains(k));
            let l = choose|l: int| 0 <= l < c0.dirty_seq().len() && c0.dirty_seq()[l] == k;
            assert(triggered@.contains(k));
            assert(!c2.contains_key(k));
        }
        assert forall|k: IpAddress| #[trigger] cache.map.contains_key(k) implies c0.contains_key(
            k,
        ) && cache.map.value_of(k) == c0.value_of(k) && cache.map.write_time_of(k)
            == c0.write_time_of(k) && spec_fresh(c0.write_time_of(k), now, c0.ttl)
            && !counter_triggered(c0, k, cfg.trigger_count) by {
            assert(c2.contains_key(k));
            if counter_triggered(c0, k, cfg.trigger_count) {
                assert(c0.dirty_seq().contains(k));
                let l = choose|l: int| 0 <= l < c0.dirty_seq().len() && c0.dirty_seq()[l] == k;
                assert(triggered@.contains(k));
                assert(false);
            }
        }
        if c0.max_size is None {
            assert forall|k: IpAddress| #[trigger]
                cache.map.contains_key(k) == (c0.contains_key(k) && !counter_triggered(
                    c0,
                    k,
                    cfg.trigger_count,
                ) && spec_fresh(c0.write_time_of(k), now, c0.ttl)) by {
                if c0.contains_key(k) && !counter_triggered(c0, k, cfg.trigger_count)
                    && spec_fresh(c0.write_time_of(k), now, c0.ttl) {
                    if triggered@.contains(k) {
                        let t = choose|t: int| 0 <= t < triggered@.len() && triggered@[t] == k;
                        assert(c0.is_dirty(k)) by {
                            assert(c0.dirty_seq().contains(k));
                        }
                        assert(false);
                    }
                    assert(c2.contains_key(k));
                    assert(cache.map.contains_key(k));
                }
            }
        }
        if c0.max_size matches Some(m) && c0.entry_seq().len() <= m {
            lemma_fresh_count_le_len(c2.entry_seq(), now, c2.ttl);
            assert forall|k: IpAddress| #[trigger]
                cache.map.contains_key(k) == (c0.contains_key(k) && !counter_triggered(
                    c0,
                    k,
                    cfg.trigger_count,
                ) && spec_fresh(c0.write_time_of(k), now, c0.ttl)) by {
                if c0.contains_key(k) && !counter_triggered(c0, k, cfg.trigger_count)
                    && spec_fresh(c0.write_time_of(k), now, c0.ttl) {
                    if triggered@.contains(k) {
                        let t = choose|t: int| 0 <= t < triggered@.len() && triggered@[t] == k;
                        assert(c0.is_dirty(k)) by {
                            assert(c0.dirty_seq().contains(k));
                        }
                        assert(false);
                    }
                    assert(c2.contains_key(k));
                    assert(cache.map.contains_key(k));
                }
            }
        }
        assert forall|k1: IpAddress, k2: IpAddress|
            #[trigger] c0.contains_key(k1) && !counter_triggered(c0, k1, cfg.trigger_count)
                && spec_fresh(c0.write_time_of(k1), now, c0.ttl) && !cache.map.contains_key(k1)
                && #[trigger] cache.map.contains_key(k2) implies c0.write_time_of(k1)
            <= c0.write_time_of(k2) by {
            if triggered@.contains(k1) {
                assert(c0.is_dirty(k1)) by {
                    assert(c0.dirty_seq().contains(k1));
                }
                assert(false);
            }
            assert(c2.contains_key(k1));
            assert(c2.write_time_of(k1) == c0.write_time_of(k1));
            assert(c2.contains_key(k2));
        }
    }
    alerts
}

/// The DNS hits of one source: one per configured domain its recorded names
/// contain, in configuration order, as (source, name) pairs.
pub open spec fn dns_hits_for_entry(
    key: IpAddress,
    names: Seq<String>,
    domains: Seq<String>,
) -> Seq<(IpAddress, Seq<char>)>
    decreases domains.len(),
{
    if domains.len() == 0 {
        Seq::empty()
    } else {
        dns_hits_for_entry(key, names, domains.drop_last()) + (if names_contain(
            names,
            domains.last()@,
        ) {
            seq![(key, domains.last()@)]
        } else {
            Seq::empty()
        })
    }
}

/// All DNS hits of one pass: sources in cache order, domains in
/// configuration order, exact string match only.
pub open spec fn dns_hits(
    entries: Seq<Entry<IpAddress, Vec<String>>>,
    domains: Seq<String>,
) -> Seq<(IpAddress, Seq<char>)>
    decreases entries.len(),
{
    if entries.len() == 0 {
        Seq::empty()
    } else {
        dns_hits(entries.drop_last(), domains) + dns_hits_for_entry(
            entries.last().key,
            entries.last().value@,
            domains,
        )
    }
}

/// Every alert is a malicious-DNS alert for the matching hit.
pub open spec fn alerts_match_hits(alerts: Seq<Alert>, hits: Seq<(IpAddress, Seq<char>)>) -> bool {
    &&& alerts.len() == hits.len()
    &&& forall|t: int|
        0 <= t < alerts.len() ==> ((#[trigger] alerts[t]) matches Alert::MaliciousDns {
            src,
            query_name,
        } && src == hits[t].0 && query_name@ == hits[t].1)
}

/// One analysis pass over the DNS cache: alert on every (source, domain)
/// pair whose recorded names contain the configured domain, by exact string
/// match; then wipe the whole map, whether or not anything matched.
pub fn dns_analyzer(cache: &mut DnsCache, cfg: &DnsAnalyzerConfig) -> (alerts: Vec<Alert>)
    requires
        old(cache).map.wf(),
    ensures
        final(cache).map.wf(),
        final(cache).map.entry_seq().len() == 0,
        final(cache).map.dirty_seq().len() == 0,
        forall|k: IpAddress| !final(cache).map.contains_key(k),
        alerts_match_hits(
            alerts@,
            dns_hits(old(cache).map.entry_seq(), cfg.malicious_domains@),
        ),
{
    let ghost c0 = cache.map;
    let ghost es = cache.map.entry_seq();
    let ghost domains = cfg.malicious_domains@;
    let mut alerts: Vec<Alert> = Vec::new();
    let mut i: usize = 0;
    while i < cache.map.entries.len()
        invariant
            0 <= i <= es.len(),
            cache.map == c0,
            es == c0.entry_seq(),
            c0.wf(),
            domains == cfg.malicious_domains@,
            alerts_match_hits(alerts@, dns_hits(es.take(i as int), domains)),
        decreases es.len() - i,
    {
        let ghost outer_base = dns_hits(es.take(i as int), domains);
        let src = cache.map.entries[i].key;
        let mut d: usize = 0;
        while d < cfg.malicious_domains.len()
            invariant
                0 <= i < es.len(),
                0 <= d <= domains.len(),
                cache.map == c0,
                es == c0.entry_seq(),
                c0.wf(),
                domains == cfg.malicious_domains@,
                src == es[i as int].key,
                outer_base == dns_hits(es.take(i as int), domains),
                alerts_match_hits(
                    alerts@,
                    outer_base + dns_hits_for_entry(
                        es[i as int].key,
                        es[i as int].value@,
                        domains.take(d as int),
                    ),
                ),
            decreases domains.len() - d,
        {
            let domain = &cfg.malicious_domains[d];
            let hit = contains_name(&cache.map.entries[i].value, domain);
            if hit {
                alerts.push(Alert::MaliciousDns { src, query_name: domain.clone() });
            }
            proof {
                assert(domains.take(d + 1 as int).drop_last() =~= domains.take(d as int));
                assert(domains.take(d + 1 as int).last() == domains[d as int]);
                assert(hit == names_contain(es[i as int].value@, domains[d as int]@));
            }
            d += 1;
        }
        proof {
            assert(domains.take(domains.len() as int) =~= domains);
            assert(es.take(i + 1 as int).drop_last() =~= es.take(i as int));
            assert(es.take(i + 1 as int).last() == es[i as int]);
        }
        i += 1;
    }
    proof {
        assert(es.take(es.len() as int) =~= es);
    }
    cache.clear();
    alerts
}

} // verus!
