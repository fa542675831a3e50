use vstd::prelude::*;

use vstd::slice::slice_subrange;

use crate::caches::{CachableEvent, EventView, IpAddress, IpPair};
use crate::dns::{dns_question_names, dns_questions_of};

verus! {

broadcast use vstd::seq::group_seq_axioms;

/// The big-endian value of the `n` bytes of `s` starting at `i`.
pub open spec fn be_bytes(s: Seq<u8>, i: int, n: nat) -> int
    decreases n,
{
    if n == 0 {
        0
    } else {
        be_bytes(s, i, (n - 1) as nat) * 256 + s[i + n - 1]
    }
}

pub open spec fn pow256(n: nat) -> int
    decreases n,
{
    if n == 0 {
        1
    } else {
        256 * pow256((n - 1) as nat)
    }
}

pub proof fn lemma_be_bytes_bound(s: Seq<u8>, i: int, n: nat)
    requires
        0 <= i,
        i + n <= s.len(),
    ensures
        0 <= be_bytes(s, i, n) < pow256(n),
    decreases n,
{
    if n > 0 {
        lemma_be_bytes_bound(s, i, (n - 1) as nat);
        assert(be_bytes(s, i, (n - 1) as nat) * 256 <= (pow256((n - 1) as nat) - 1) * 256) by (nonlinear_arith)
            requires
                be_bytes(s, i, (n - 1) as nat) <= pow256((n - 1) as nat) - 1,
        ;
        assert(be_bytes(s, i, (n - 1) as nat) * 256 >= 0) by (nonlinear_arith)
            requires
                be_bytes(s, i, (n - 1) as nat) >= 0,
        ;
    }
}

pub proof fn lemma_pow256_mono(a: nat, b: nat)
    requires
        a <= b,
    ensures
        1 <= pow256(a) <= pow256(b),
    decreases b,
{
    if a == b {
        if a == 0 {
        } else {
            lemma_pow256_mono((a - 1) as nat, (a - 1) as nat);
        }
    } else {
        lemma_pow256_mono(a, (b - 1) as nat);
        assert(pow256(b) == 256 * pow256((b - 1) as nat));
    }
}

proof fn lemma_be_bytes_unfold(s: Seq<u8>, i: int, n: nat)
    requires
        n >= 1,
    ensures
        be_bytes(s, i, n) == be_bytes(s, i, (n - 1) as nat) * 256 + s[i + n - 1],
        be_bytes(s, i, 1) == s[i],
{
    assert(be_bytes(s, i, 1) == be_bytes(s, i, 0) * 256 + s[i]);
    assert(be_bytes(s, i, 0) == 0);
}

fn read_be16(p: &[u8], i: usize) -> (r: u16)
    requires
        i + 2 <= p@.len(),
    ensures
        r as int == be_bytes(p@, i as int, 2),
{
    proof {
        vstd::slice::axiom_spec_len::<u8>(p);
        lemma_be_bytes_unfold(p@, i as int, 2);
        lemma_be_bytes_unfold(p@, i as int, 1);
    }
    (p[i] as u16) * 256 + (p[i + 1] as u16)
}

fn read_be32(p: &[u8], i: usize) -> (r: u32)
    requires
        i + 4 <= p@.len(),
    ensures
        r as int == be_bytes(p@, i as int, 4),
{
    proof {
        vstd::slice::axiom_spec_len::<u8>(p);
    }
    let hi = read_be16(p, i);
    let lo = read_be16(p, i + 2);
    proof {
        lemma_be_bytes_unfold(p@, i as int, 4);
        lemma_be_bytes_unfold(p@, i as int, 3);
        lemma_be_bytes_unfold(p@, i as int, 2);
        lemma_be_bytes_unfold(p@, i as int, 1);
        lemma_be_bytes_unfold(p@, i + 2, 2);
        lemma_be_bytes_unfold(p@, i + 2, 1);
        lemma_be_bytes_bound(p@, i as int, 2);
        lemma_be_bytes_bound(p@, i + 2, 2);
        assert((be_bytes(p@, i as int, 2) * 256 + p@[i + 2]) * 256 == be_bytes(p@, i as int, 2)
            * 65536 + p@[i + 2] * 256) by (nonlinear_arith);
    }
    (hi as u32) * 65536 + (lo as u32)
}

fn read_be128(p: &[u8], i: usize) -> (r: u128)
    requires
        i + 16 <= p@.len(),
    ensures
        r as int == be_bytes(p@, i as int, 16),
{
    proof {
        vstd::slice::axiom_spec_len::<u8>(p);
        assert(pow256(16) == 0x1_0000_0000_0000_0000_0000_0000_0000_0000) by {
            reveal_with_fuel(pow256, 17);
        }
    }
    let mut acc: u128 = 0;
    let mut k: usize = 0;
    while k < 16
        invariant
            0 <= k <= 16,
            i + 16 <= p@.len(),
            p@.len() <= usize::MAX,
            acc as int == be_bytes(p@, i as int, k as nat),
            pow256(16) == 0x1_0000_0000_0000_0000_0000_0000_0000_0000,
        decreases 16 - k,
    {
        proof {
            lemma_be_bytes_bound(p@, i as int, k as nat);
            lemma_be_bytes_unfold(p@, i as int, (k + 1) as nat);
            lemma_pow256_mono((k + 1) as nat, 16);
            assert(pow256((k + 1) as nat) == 256 * pow256(k as nat));
            assert(acc * 256 <= (pow256(k as nat) - 1) * 256) by (nonlinear_arith)
                requires
                    acc <= pow256(k as nat) - 1,
            ;
        }
        acc = acc * 256 + (p[i + k] as u128);
        k += 1;
    }
    acc
}

/// The first `n` query events of a question list, in question order.
pub open spec fn dns_event_seq(src: IpAddress, qs: Seq<Seq<char>>, n: nat) -> Seq<EventView> {
    Seq::new(n, |t: int| EventView::Dns(src, qs[t]))
}

/// The events one DNS payload yields: one query event per question name of a
/// message that parses and is not itself a response (its QR header bit clear).
pub open spec fn dns_events(payload: Seq<u8>, pair: IpPair) -> Seq<EventView> {
    if payload.len() >= 12 && payload[2] & 0x80 == 0 {
        match dns_questions_of(payload) {
            Option::Some(qs) => dns_event_seq(pair.src, qs, qs.len()),
            Option::None => Seq::empty(),
        }
    } else {
        Seq::empty()
    }
}

/// The transport payload of a TCP segment: what follows the data offset.
pub open spec fn tcp_payload(s: Seq<u8>) -> Seq<u8> {
    let off = ((s[12] >> 4) as int) * 4;
    if s.len() <= off {
        Seq::empty()
    } else {
        s.subrange(off, s.len() as int)
    }
}

/// The events one TCP segment yields: the destination port touched, a SYN
/// observation when the SYN flag is set, then whatever its payload yields.
pub open spec fn tcp_events(s: Seq<u8>, pair: IpPair) -> Seq<EventView> {
    if s.len() >= 20 {
        let base = seq![EventView::Port(pair, be_bytes(s, 2, 2) as u16)];
        let with_syn = if s[13] & 0x02 != 0 {
            base.push(EventView::TcpSyn(pair.src))
        } else {
            base
        };
        with_syn + dns_events(tcp_payload(s), pair)
    } else {
        Seq::empty()
    }
}

/// The events one UDP datagram yields: the destination port touched, then
/// whatever its payload yields.
pub open spec fn udp_events(s: Seq<u8>, pair: IpPair) -> Seq<EventView> {
    if s.len() >= 8 {
        seq![EventView::Port(pair, be_bytes(s, 2, 2) as u16)] + dns_events(
            s.subrange(8, s.len() as int),
            pair,
        )
    } else {
        Seq::empty()
    }
}

/// The events one IP payload yields, by its transport protocol number.
pub open spec fn layer4_events(s: Seq<u8>, protocol: u8, pair: IpPair) -> Seq<EventView> {
    if protocol == 6 {
        tcp_events(s, pair)
    } else if protocol == 17 {
        udp_events(s, pair)
    } else {
        Seq::empty()
    }
}

/// The payload of an IPv4 datagram: what lies between the header, whose size
/// the header-length field gives, and the end the total-length field gives,
/// clipped to the buffer.
pub open spec fn ipv4_payload(s: Seq<u8>) -> Seq<u8> {
    let off = ((s[0] & 0x0f) as int) * 4;
    let tl = be_bytes(s, 2, 2);
    let plen = if tl >= off {
        tl - off
    } else {
        0
    };
    let end = if off + plen <= s.len() {
        off + plen
    } else {
        s.len() as int
    };
    if s.len() <= off {
        Seq::empty()
    } else {
        s.subrange(off, end)
    }
}

/// The events one IPv4 datagram yields: its declared total length counted
/// against the destination, then its transport payload's events.
pub open spec fn ipv4_events(s: Seq<u8>) -> Seq<EventView> {
    if s.len() >= 20 {
        let dst = IpAddress::V4(be_bytes(s, 16, 4) as u32);
        let src = IpAddress::V4(be_bytes(s, 12, 4) as u32);
        let pair = IpPair { src, dst };
        seq![EventView::IpSize(dst, be_bytes(s, 2, 2) as u32)] + layer4_events(
            ipv4_payload(s),
            s[9],
            pair,
        )
    } else {
        Seq::empty()
    }
}

/// The payload of an IPv6 datagram: what follows the fixed header, up to the
/// declared payload length, clipped to the buffer.
pub open spec fn ipv6_payload(s: Seq<u8>) -> Seq<u8> {
    let plen = be_bytes(s, 4, 2);
    let end = if 40 + plen <= s.len() {
        40 + plen
    } else {
        s.len() as int
    };
    if s.len() <= 40 {
        Seq::empty()
    } else {
        s.subrange(40, end)
    }
}

/// The events one IPv6 datagram yields: its declared payload length counted
/// against the destination, then its payload's events by the next header.
pub open spec fn ipv6_events(s: Seq<u8>) -> Seq<EventView> {
    if s.len() >= 40 {
        let dst = IpAddress::V6(be_bytes(s, 24, 16) as u128);
        let src = IpAddress::V6(be_bytes(s, 8, 16) as u128);
        let pair = IpPair { src, dst };
        seq![EventView::IpSize(dst, be_bytes(s, 4, 2) as u32)] + layer4_events(
            ipv6_payload(s),
            s[6],
            pair,
        )
    } else {
        Seq::empty()
    }
}

/// The events one Ethernet payload yields, by its EtherType.
pub open spec fn layer3_events(s: Seq<u8>, protocol: u16) -> Seq<EventView> {
    if protocol == 0x0800 {
        ipv4_events(s)
    } else if protocol == 0x86DD {
        ipv6_events(s)
    } else {
        Seq::empty()
    }
}

/// The events one raw Ethernet frame yields: nothing for a frame too short
/// for an Ethernet header, else its payload's events by its EtherType.
pub open spec fn frame_events(s: Seq<u8>) -> Seq<EventView> {
    if s.len() >= 14 {
        layer3_events(s.subrange(14, s.len() as int), be_bytes(s, 12, 2) as u16)
    } else {
        Seq::empty()
    }
}

/// The observations of a sequence of events.
pub open spec fn views_of(s: Seq<CachableEvent>) -> Seq<EventView>
    decreases s.len(),
{
    if s.len() == 0 {
        Seq::empty()
    } else {
        views_of(s.drop_last()).push(s.last()@)
    }
}

/// `views_of` maps each event to its observation, position by position.
pub proof fn lemma_views_of(s: Seq<CachableEvent>)
    ensures
        views_of(s).len() == s.len(),
        forall|t: int| 0 <= t < s.len() ==> #[trigger] views_of(s)[t] == s[t]@,
    decreases s.len(),
{
    if s.len() > 0 {
        lemma_views_of(s.drop_last());
        assert forall|t: int| 0 <= t < s.len() implies #[trigger] views_of(s)[t] == s[t]@ by {
            if t < s.len() - 1 {
                assert(s.drop_last()[t] == s[t]);
                assert(views_of(s)[t] == views_of(s.drop_last())[t]);
            }
        }
    }
}

/// Decode the innermost stage: a transport payload that may be a DNS message.
/// Appends one query event per question of a non-response message that parses.
pub fn handel_layer5(payload: &[u8], ip_set: &IpPair, out: &mut Vec<CachableEvent>)
    ensures
        views_of(final(out)@) == views_of(old(out)@) + dns_events(payload@, *ip_set),
{
    let ghost base = views_of(out@);
    proof {
        lemma_views_of(out@);
    }
    if payload.len() >= 12 && payload[2] & 0x80 == 0 {
        match dns_question_names(payload) {
            Option::Some(names) => {
                let ghost qs = dns_questions_of(payload@)->0;
                proof {
                    assert(base + dns_event_seq(ip_set.src, qs, 0) =~= base);
                }
                let mut i: usize = 0;
                while i < names.len()
                    invariant
                        0 <= i <= names@.len(),
                        names@.len() == qs.len(),
                        forall|t: int|
                            0 <= t < names@.len() ==> (#[trigger] names@[t])@ == qs[t],
                        views_of(out@) == base + dns_event_seq(ip_set.src, qs, i as nat),
                    decreases names@.len() - i,
                {
                    let name = names[i].clone();
                    let ghost nview = name@;
                    let ghost vpre = out@;
                    out.push(CachableEvent::Dns(ip_set.src, name));
                    proof {
                        lemma_views_of(out@);
                        lemma_views_of(vpre);
                        assert(nview == qs[i as int]);
                        assert(views_of(vpre).len() == vpre.len());
                        assert(base.len() + i == vpre.len());
                        assert forall|j: int|
                            0 <= j < i + 1 implies dns_event_seq(ip_set.src, qs, (i + 1) as nat)[j]
                            == EventView::Dns(ip_set.src, qs[j]) by {}
                        assert forall|j: int|
                            0 <= j < i implies dns_event_seq(ip_set.src, qs, i as nat)[j]
                            == EventView::Dns(ip_set.src, qs[j]) by {}
                        let rhs = base + dns_event_seq(ip_set.src, qs, (i + 1) as nat);
                        assert forall|t: int| 0 <= t < views_of(out@).len() implies views_of(
                            out@,
                        )[t] == rhs[t] by {
                            assert(views_of(out@)[t] == out@[t]@);
                            if t < vpre.len() {
                                assert(out@[t] == vpre[t]);
                                assert(views_of(vpre)[t] == vpre[t]@);
                                assert(views_of(vpre)[t] == (base + dns_event_seq(
                                    ip_set.src,
                                    qs,
                                    i as nat,
                                ))[t]);
                            } else {
                                assert(t == vpre.len());
                                assert(out@[t]@ == EventView::Dns(ip_set.src, nview));
                                assert(rhs[t] == dns_event_seq(ip_set.src, qs, (i + 1) as nat)[
                                    i as int]);
                            }
                        }
                        assert(views_of(out@) =~= rhs);
                    }
                    i += 1;
                }
                proof {
                    assert(dns_event_seq(ip_set.src, qs, names@.len()) == dns_events(
                        payload@,
                        *ip_set,
                    ));
                }
            },
            Option::None => {
                proof {
                    assert(views_of(out@) =~= base + dns_events(payload@, *ip_set));
                }
            },
        }
    } else {
        proof {
            assert(views_of(out@) =~= base + dns_events(payload@, *ip_set));
        }
    }
}

/// Decode the transport layer of one IP payload and append its events.
pub fn handel_layer4(payload: &[u8], protocol: u8, ip_set: IpPair, out: &mut Vec<CachableEvent>)
    ensures
        views_of(final(out)@) == views_of(old(out)@) + layer4_events(payload@, protocol, ip_set),
{
    let ghost base = views_of(out@);
    proof {
        lemma_views_of(out@);
    }
    if protocol == 6 {
        if payload.len() >= 20 {
            let port = read_be16(payload, 2);
            proof {
                lemma_be_bytes_bound(payload@, 2, 2);
                assert(port == be_bytes(payload@, 2, 2) as u16);
            }
            out.push(CachableEvent::Port(ip_set, port));
            if payload[13] & 0x02 != 0 {
                out.push(CachableEvent::TcpSyn(ip_set.src));
            }
            let ghost mid_events = out@;
            proof {
                lemma_views_of(out@);
                assert(views_of(mid_events) =~= base + (if payload@[13] & 0x02 != 0 {
                    seq![
                        EventView::Port(ip_set, be_bytes(payload@, 2, 2) as u16),
                        EventView::TcpSyn(ip_set.src),
                    ]
                } else {
                    seq![EventView::Port(ip_set, be_bytes(payload@, 2, 2) as u16)]
                }));
            }
            let off = ((payload[12] >> 4) as usize) * 4;
            let rest = if payload.len() <= off {
                slice_subrange(payload, 0, 0)
            } else {
                slice_subrange(payload, off, payload.len())
            };
            proof {
                if payload@.len() <= off {
                    assert(rest@ =~= tcp_payload(payload@));
                } else {
                    assert(rest@ == tcp_payload(payload@));
                }
            }
            handel_layer5(rest, &ip_set, out);
            proof {
                assert(views_of(out@) =~= base + tcp_events(payload@, ip_set));
            }
        }
    } else if protocol == 17 {
        if payload.len() >= 8 {
            let port = read_be16(payload, 2);
            proof {
                lemma_be_bytes_bound(payload@, 2, 2);
                assert(port == be_bytes(payload@, 2, 2) as u16);
            }
            out.push(CachableEvent::Port(ip_set, port));
            let ghost mid_events = out@;
            proof {
                lemma_views_of(out@);
                assert(views_of(mid_events) =~= base + seq![
                    EventView::Port(ip_set, be_bytes(payload@, 2, 2) as u16),
                ]);
            }
            let rest = slice_subrange(payload, 8, payload.len());
            handel_layer5(rest, &ip_set, out);
            proof {
                assert(views_of(out@) =~= base + udp_events(payload@, ip_set));
            }
        }
    }
    proof {
        assert(views_of(out@) =~= base + layer4_events(payload@, protocol, ip_set));
    }
}

/// Decode the network layer of one Ethernet payload and append its events.
pub fn handel_layer3(payload: &[u8], protocol: u16, out: &mut Vec<CachableEvent>)
    ensures
        views_of(final(out)@) == views_of(old(out)@) + layer3_events(payload@, protocol),
{
    let ghost base = views_of(out@);
    proof {
        lemma_views_of(out@);
    }
    if protocol == 0x0800 {
        if payload.len() >= 20 {
            let dst = IpAddress::V4(read_be32(payload, 16));
            let src = IpAddress::V4(read_be32(payload, 12));
            let total_length = read_be16(payload, 2);
            proof {
                lemma_be_bytes_bound(payload@, 16, 4);
                lemma_be_bytes_bound(payload@, 12, 4);
                lemma_be_bytes_bound(payload@, 2, 2);
            }
            out.push(CachableEvent::IpSize(dst, total_length as u32));
            let ghost mid_events = out@;
            proof {
                lemma_views_of(out@);
                assert(views_of(mid_events) =~= base + seq![
                    EventView::IpSize(
                        IpAddress::V4(be_bytes(payload@, 16, 4) as u32),
                        be_bytes(payload@, 2, 2) as u32,
                    ),
                ]);
            }
            let ip_set = IpPair::new(src, dst);
            let off = ((payload[0] & 0x0f) as usize) * 4;
            let tl = total_length as usize;
            let plen = if tl >= off {
                tl - off
            } else {
                0
            };
            let end = if off + plen <= payload.len() {
                off + plen
            } else {
                payload.len()
            };
            let rest = if payload.len() <= off {
                slice_subrange(payload, 0, 0)
            } else {
                slice_subrange(payload, off, end)
            };
            proof {
                if payload@.len() <= off {
                    assert(rest@ =~= ipv4_payload(payload@));
                } else {
                    assert(rest@ == ipv4_payload(payload@));
                }
            }
            handel_layer4(rest, payload[9], ip_set, out);
            proof {
                assert(views_of(out@) =~= base + ipv4_events(payload@));
            }
        }
    } else if protocol == 0x86DD {
        if payload.len() >= 40 {
            let dst = IpAddress::V6(read_be128(payload, 24));
            let src = IpAddress::V6(read_be128(payload, 8));
            let payload_length = read_be16(payload, 4);
            proof {
                lemma_be_bytes_bound(payload@, 24, 16);
                lemma_be_bytes_bound(payload@, 8, 16);
                lemma_be_bytes_bound(payload@, 4, 2);
            }
            out.push(CachableEvent::IpSize(dst, payload_length as u32));
            let ghost mid_events = out@;
            proof {
                lemma_views_of(out@);
                assert(views_of(mid_events) =~= base + seq![
                    EventView::IpSize(
                        IpAddress::V6(be_bytes(payload@, 24, 16) as u128),
                        be_bytes(payload@, 4, 2) as u32,
                    ),
                ]);
            }
            let ip_set = IpPair::new(src, dst);
            let plen = payload_length as usize;
            let end = if 40 + plen <= payload.len() {
                40 + plen
            } else {
                payload.len()
            };
            let rest = slice_subrange(payload, 40, end);
            proof {
                assert(rest@ == ipv6_payload(payload@));
            }
            handel_layer4(rest, payload[6], ip_set, out);
            proof {
                assert(views_of(out@) =~= base + ipv6_events(payload@));
            }
        }
    }
    proof {
        assert(views_of(out@) =~= base + layer3_events(payload@, protocol));
    }
}

/// Decode one raw Ethernet frame and append every event it yields. A frame
/// too short for an Ethernet header yields nothing; so does a malformed or
/// foreign header at any deeper layer.
pub fn decode_frame(frame: &[u8], out: &mut Vec<CachableEvent>)
    ensures
        views_of(final(out)@) == views_of(old(out)@) + frame_events(frame@),
{
    let ghost base = views_of(out@);
    if frame.len() >= 14 {
        let ethertype = read_be16(frame, 12);
        let rest = slice_subrange(frame, 14, frame.len());
        handel_layer3(rest, ethertype, out);
        proof {
            lemma_be_bytes_bound(frame@, 12, 2);
            assert(views_of(out@) =~= base + frame_events(frame@));
        }
    } else {
        proof {
            assert(views_of(out@) =~= base + frame_events(frame@));
        }
    }
}

} // verus!
