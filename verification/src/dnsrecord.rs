//! Resource records: a tagged variant per record type sharing the common
//! envelope (owner name, type, class, TTL, rdata length), plus type-specific
//! rdata. Unrecognized type codes are kept as an opaque variant whose payload
//! is skipped by exactly its stated length, so the cursor always lands on the
//! next record.

use vstd::prelude::*;
use crate::buffer::{
    BytePacketBuffer, DnsError, PACKET_SIZE, encoded_qname, labels_ok, spec_qname,
    spec_u16, spec_u32, wf_name, with_bytes,
};
use crate::querytype::QueryType;

verus! {

/// An IPv4 address as its four dotted octets.
#[derive(Clone, Copy, Debug, PartialEq, Eq, Structural)]
pub struct Ipv4 {
    pub o0: u8,
    pub o1: u8,
    pub o2: u8,
    pub o3: u8,
}

/// An IPv6 address as its eight big-endian 16-bit groups.
#[derive(Clone, Copy, Debug, PartialEq, Eq, Structural)]
pub struct Ipv6 {
    pub g0: u16,
    pub g1: u16,
    pub g2: u16,
    pub g3: u16,
    pub g4: u16,
    pub g5: u16,
    pub g6: u16,
    pub g7: u16,
}

#[derive(Clone, Debug, PartialEq, Eq)]
pub enum DNSRecord {
    UNKNOWN { domain: Vec<u8>, qtype: u16, data_len: u16, ttl: u32 },
    A { domain: Vec<u8>, addr: Ipv4, ttl: u32 },
    NS { domain: Vec<u8>, host: Vec<u8>, ttl: u32 },
    CNAME { domain: Vec<u8>, host: Vec<u8>, ttl: u32 },
    MX { domain: Vec<u8>, priority: u16, host: Vec<u8>, ttl: u32 },
    AAAA { domain: Vec<u8>, addr: Ipv6, ttl: u32 },
}

/// The mathematical shape of a record: names as byte sequences.
pub enum RecView {
    Unknown { domain: Seq<u8>, qtype: u16, data_len: u16, ttl: u32 },
    A { domain: Seq<u8>, addr: Ipv4, ttl: u32 },
    NS { domain: Seq<u8>, host: Seq<u8>, ttl: u32 },
    CNAME { domain: Seq<u8>, host: Seq<u8>, ttl: u32 },
    MX { domain: Seq<u8>, priority: u16, host: Seq<u8>, ttl: u32 },
    AAAA { domain: Seq<u8>, addr: Ipv6, ttl: u32 },
}

impl View for DNSRecord {
    type V = RecView;

    open spec fn view(&self) -> RecView {
        match self {
            DNSRecord::UNKNOWN { domain, qtype, data_len, ttl } => (RecView::Unknown {
                domain: domain@,
                qtype: *qtype,
                data_len: *data_len,
                ttl: *ttl,
            }),
            DNSRecord::A { domain, addr, ttl } => (RecView::A {
                domain: domain@,
                addr: *addr,
                ttl: *ttl,
            }),
            DNSRecord::NS { domain, host, ttl } => (RecView::NS {
                domain: domain@,
                host: host@,
                ttl: *ttl,
            }),
            DNSRecord::CNAME { domain, host, ttl } => (RecView::CNAME {
                domain: domain@,
                host: host@,
                ttl: *ttl,
            }),
            DNSRecord::MX { domain, priority, host, ttl } => (RecView::MX {
                domain: domain@,
                priority: *priority,
                host: host@,
                ttl: *ttl,
            }),
            DNSRecord::AAAA { domain, addr, ttl } => (RecView::AAAA {
                domain: domain@,
                addr: *addr,
                ttl: *ttl,
            }),
        }
    }
}

/// What decoding one resource record at `pos` yields: the record and the
/// position of the byte after it. `None` is a failed decode: a malformed
/// name or any read or skip past the end of the buffer.
pub open spec fn spec_record_at(buf: Seq<u8>, pos: int) -> Option<(RecView, int)> {
    match spec_qname(buf, pos, 0) {
        None => None,
        Some((nm, rp)) => {
            if rp + 10 > PACKET_SIZE {
                None
            } else {
                let t = spec_u16(buf, rp);
                let ttl = spec_u32(buf, rp + 4);
                let dlen = spec_u16(buf, rp + 8);
                let rd = rp + 10;
                match QueryType::spec_from_num(t) {
                    QueryType::A => {
                        if rd + 4 <= PACKET_SIZE {
                            Some(((RecView::A {
                                domain: nm,
                                addr: Ipv4 {
                                    o0: buf[rd],
                                    o1: buf[rd + 1],
                                    o2: buf[rd + 2],
                                    o3: buf[rd + 3],
                                },
                                ttl: ttl,
                            }), rd + 4))
                        } else {
                            None
                        }
                    }
                    QueryType::AAAA => {
                        if rd + 16 <= PACKET_SIZE {
                            Some(((RecView::AAAA {
                                domain: nm,
                                addr: Ipv6 {
                                    g0: spec_u16(buf, rd),
                                    g1: spec_u16(buf, rd + 2),
                                    g2: spec_u16(buf, rd + 4),
                                    g3: spec_u16(buf, rd + 6),
                                    g4: spec_u16(buf, rd + 8),
                                    g5: spec_u16(buf, rd + 10),
                                    g6: spec_u16(buf, rd + 12),
                                    g7: spec_u16(buf, rd + 14),
                                },
                                ttl: ttl,
                            }), rd + 16))
                        } else {
                            None
                        }
                    }
                    QueryType::NS => {
                        match spec_qname(buf, rd, 0) {
                            Some((h, hr)) => Some(((RecView::NS {
                                domain: nm,
                                host: h,
                                ttl: ttl,
                            }), hr)),
                            None => None,
                        }
                    }
                    QueryType::CNAME => {
                        match spec_qname(buf, rd, 0) {
                            Some((h, hr)) => Some(((RecView::CNAME {
                                domain: nm,
                                host: h,
                                ttl: ttl,
                            }), hr)),
                            None => None,
                        }
                    }
                    QueryType::MX => {
                        if rd + 2 > PACKET_SIZE {
                            None
                        } else {
                            match spec_qname(buf, rd + 2, 0) {
                                Some((h, hr)) => Some(((RecView::MX {
                                    domain: nm,
                                    priority: spec_u16(buf, rd),
                                    host: h,
                                    ttl: ttl,
                                }), hr)),
                                None => None,
                            }
                        }
                    }
                    QueryType::UNKNOWN(code) => {
                        if rd + dlen <= PACKET_SIZE {
                            Some(((RecView::Unknown {
                                domain: nm,
                                qtype: code,
                                data_len: dlen,
                                ttl: ttl,
                            }), rd + dlen))
                        } else {
                            None
                        }
                    }
                }
            }
        }
    }
}

/// The two big-endian bytes of a 16-bit value.
pub open spec fn u16_bytes(v: u16) -> Seq<u8> {
    seq![(v / 256) as u8, (v % 256) as u8]
}

/// The four big-endian bytes of a 32-bit value.
pub open spec fn u32_bytes(v: u32) -> Seq<u8> {
    seq![
        (v / 0x1000000) as u8,
        ((v / 0x10000) % 256) as u8,
        ((v / 256) % 256) as u8,
        (v % 256) as u8,
    ]
}

/// The record envelope as written, with a zero placeholder where the rdata
/// length will be patched in: owner name, type code, constant class 1, TTL.
pub open spec fn env_bytes(domain: Seq<u8>, tnum: u16, ttl: u32) -> Seq<u8> {
    encoded_qname(domain) + u16_bytes(tnum) + u16_bytes(1) + u32_bytes(ttl)
        + seq![0u8, 0u8]
}

/// A complete serialized record: envelope, patched rdata length, payload.
pub open spec fn full_bytes(domain: Seq<u8>, tnum: u16, ttl: u32, rdata: Seq<u8>)
    -> Seq<u8> {
    encoded_qname(domain) + u16_bytes(tnum) + u16_bytes(1) + u32_bytes(ttl)
        + u16_bytes(rdata.len() as u16) + rdata
}

/// Write a record's envelope at the cursor, leaving a zero placeholder for
/// the rdata length, and hand back the placeholder's position for the patch.
#[verifier::loop_isolation(false)]
fn write_envelope(buffer: &mut BytePacketBuffer, domain: &Vec<u8>, tnum: u16, ttl: u32)
    -> (r: Result<usize, DnsError>)
    requires
        old(buffer).wf(),
    ensures
        final(buffer).wf(),
        match r {
            Ok(lenpos) => labels_ok(domain@)
                && old(buffer).pos + env_bytes(domain@, tnum, ttl).len() <= PACKET_SIZE
                && final(buffer).buf@ == with_bytes(old(buffer).buf@,
                    old(buffer).pos as int, env_bytes(domain@, tnum, ttl))
                && lenpos == old(buffer).pos + encoded_qname(domain@).len() + 8
                && final(buffer).pos == old(buffer).pos
                    + env_bytes(domain@, tnum, ttl).len(),
            Err(e) => (e == DnsError::MalformedName ==> !labels_ok(domain@))
                && (e == DnsError::EndOfBuffer ==>
                    old(buffer).pos + env_bytes(domain@, tnum, ttl).len() > PACKET_SIZE)
                && (e == DnsError::MalformedName || e == DnsError::EndOfBuffer),
        },
{
    let ghost buf0 = buffer.buf@;
    let ghost pos0 = buffer.pos as int;
    match buffer.write_qname(domain) {
        Ok(()) => {}
        Err(e) => return Err(e),
    }
    match buffer.write_u16(tnum) {
        Ok(()) => {}
        Err(e) => return Err(e),
    }
    match buffer.write_u16(1) {
        Ok(()) => {}
        Err(e) => return Err(e),
    }
    match buffer.write_u32(ttl) {
        Ok(()) => {}
        Err(e) => return Err(e),
    }
    let lenpos = buffer.pos;
    match buffer.write_u16(0) {
        Ok(()) => {}
        Err(e) => return Err(e),
    }
    proof {
        assert(buffer.buf@ =~= with_bytes(buf0, pos0, env_bytes(domain@, tnum, ttl)));
    }
    Ok(lenpos)
}

impl DNSRecord {
    /// The owner name of the record, whichever variant it is.
    pub open spec fn spec_domain(self) -> Seq<u8> {
        match self {
            DNSRecord::UNKNOWN { domain, .. } => domain@,
            DNSRecord::A { domain, .. } => domain@,
            DNSRecord::NS { domain, .. } => domain@,
            DNSRecord::CNAME { domain, .. } => domain@,
            DNSRecord::MX { domain, .. } => domain@,
            DNSRecord::AAAA { domain, .. } => domain@,
        }
    }

    /// The record's time to live.
    pub open spec fn spec_ttl(self) -> u32 {
        match self {
            DNSRecord::UNKNOWN { ttl, .. } => ttl,
            DNSRecord::A { ttl, .. } => ttl,
            DNSRecord::NS { ttl, .. } => ttl,
            DNSRecord::CNAME { ttl, .. } => ttl,
            DNSRecord::MX { ttl, .. } => ttl,
            DNSRecord::AAAA { ttl, .. } => ttl,
        }
    }

    /// The wire type code of the record's variant.
    pub open spec fn spec_qtype_num(self) -> u16 {
        match self {
            DNSRecord::UNKNOWN { qtype, .. } => qtype,
            DNSRecord::A { .. } => 1,
            DNSRecord::NS { .. } => 2,
            DNSRecord::CNAME { .. } => 5,
            DNSRecord::MX { .. } => 15,
            DNSRecord::AAAA { .. } => 28,
        }
    }

    /// The record's type-specific payload bytes (empty for the opaque
    /// variant, whose payload was never retained).
    pub open spec fn spec_rdata(self) -> Seq<u8> {
        match self {
            DNSRecord::UNKNOWN { .. } => Seq::empty(),
            DNSRecord::A { addr, .. } => seq![addr.o0, addr.o1, addr.o2, addr.o3],
            DNSRecord::NS { host, .. } => encoded_qname(host@),
            DNSRecord::CNAME { host, .. } => encoded_qname(host@),
            DNSRecord::MX { priority, host, .. } => (u16_bytes(priority)
                + encoded_qname(host@)),
            DNSRecord::AAAA { addr, .. } => (u16_bytes(addr.g0) + u16_bytes(addr.g1)
                + u16_bytes(addr.g2) + u16_bytes(addr.g3) + u16_bytes(addr.g4)
                + u16_bytes(addr.g5) + u16_bytes(addr.g6) + u16_bytes(addr.g7)),
        }
    }

    /// The exact bytes this record serializes to; the opaque variant is not
    /// expected to be written and serializes to nothing.
    pub open spec fn spec_bytes(self) -> Seq<u8> {
        match self {
            DNSRecord::UNKNOWN { .. } => Seq::empty(),
            _ => full_bytes(self.spec_domain(), self.spec_qtype_num(),
                self.spec_ttl(), self.spec_rdata()),
        }
    }

    /// Every name in the record encodes: each of its labels fits the length
    /// field.
    pub open spec fn names_ok(self) -> bool {
        match self {
            DNSRecord::UNKNOWN { .. } => true,
            DNSRecord::NS { domain, host, .. } => labels_ok(domain@) && labels_ok(host@),
            DNSRecord::CNAME { domain, host, .. } => (labels_ok(domain@)
                && labels_ok(host@)),
            DNSRecord::MX { domain, host, .. } => labels_ok(domain@) && labels_ok(host@),
            _ => labels_ok(self.spec_domain()),
        }
    }

    /// Decode one resource record at the cursor and leave the cursor on the
    /// byte after it; an unrecognized type code is kept, its payload skipped
    /// by exactly the stated rdata length.
    #[verifier::rlimit(100)]
    pub fn read(buffer: &mut BytePacketBuffer) -> (r: Result<DNSRecord, DnsError>)
        requires
            old(buffer).wf(),
        ensures
            final(buffer).wf(),
            final(buffer).buf@ == old(buffer).buf@,
            match r {
                Ok(rec) => spec_record_at(old(buffer).buf@, old(buffer).pos as int)
                    == Some((rec@, final(buffer).pos as int)),
                Err(e) => spec_record_at(old(buffer).buf@, old(buffer).pos as int)
                    is None
                    && (e == DnsError::EndOfBuffer || e == DnsError::MalformedName),
            },
    {
        let domain = match buffer.read_qname() {
            Ok(v) => v,
            Err(e) => return Err(e),
        };
        let type_num = match buffer.read_u16() {
            Ok(v) => v,
            Err(e) => return Err(e),
        };
        let qtype = QueryType::from_num(type_num);
        match buffer.read_u16() {
            Ok(_) => {}
            Err(e) => return Err(e),
        }
        let ttl = match buffer.read_u32() {
            Ok(v) => v,
            Err(e) => return Err(e),
        };
        let data_len = match buffer.read_u16() {
            Ok(v) => v,
            Err(e) => return Err(e),
        };

        match qtype {
            QueryType::A => {
                let o0 = match buffer.read_u8() {
                    Ok(v) => v,
                    Err(e) => return Err(e),
                };
                let o1 = match buffer.read_u8() {
                    Ok(v) => v,
                    Err(e) => return Err(e),
                };
                let o2 = match buffer.read_u8() {
                    Ok(v) => v,
                    Err(e) => return Err(e),
                };
                let o3 = match buffer.read_u8() {
                    Ok(v) => v,
                    Err(e) => return Err(e),
                };
                Ok(DNSRecord::A { domain, addr: Ipv4 { o0, o1, o2, o3 }, ttl })
            }
            QueryType::AAAA => {
                let g0 = match buffer.read_u16() {
                    Ok(v) => v,
                    Err(e) => return Err(e),
                };
                let g1 = match buffer.read_u16() {
                    Ok(v) => v,
                    Err(e) => return Err(e),
                };
                let g2 = match buffer.read_u16() {
                    Ok(v) => v,
                    Err(e) => return Err(e),
                };
                let g3 = match buffer.read_u16() {
                    Ok(v) => v,
                    Err(e) => return Err(e),
                };
                let g4 = match buffer.read_u16() {
                    Ok(v) => v,
                    Err(e) => return Err(e),
                };
                let g5 = match buffer.read_u16() {
                    Ok(v) => v,
                    Err(e) => return Err(e),
                };
                let g6 = match buffer.read_u16() {
                    Ok(v) => v,
                    Err(e) => return Err(e),
                };
                let g7 = match buffer.read_u16() {
                    Ok(v) => v,
                    Err(e) => return Err(e),
                };
                Ok(DNSRecord::AAAA {
                    domain,
                    addr: Ipv6 { g0, g1, g2, g3, g4, g5, g6, g7 },
                    ttl,
                })
            }
            QueryType::NS => {
                let host = match buffer.read_qname() {
                    Ok(v) => v,
                    Err(e) => return Err(e),
                };
                Ok(DNSRecord::NS { domain, host, ttl })
            }
            QueryType::CNAME => {
                let host = match buffer.read_qname() {
                    Ok(v) => v,
                    Err(e) => return Err(e),
                };
                Ok(DNSRecord::CNAME { domain, host, ttl })
            }
            QueryType::MX => {
                let priority = match buffer.read_u16() {
                    Ok(v) => v,
                    Err(e) => return Err(e),
                };
                let host = match buffer.read_qname() {
                    Ok(v) => v,
                    Err(e) => return Err(e),
                };
                Ok(DNSRecord::MX { domain, priority, host, ttl })
            }
            QueryType::UNKNOWN(code) => {
                match buffer.step(data_len as usize) {
                    Ok(()) => {}
                    Err(e) => return Err(e),
                }
                Ok(DNSRecord::UNKNOWN { domain, qtype: code, data_len, ttl })
            }
        }
    }

    /// Encode the record at the cursor: envelope with a placeholder rdata
    /// length, the type-specific payload, then the placeholder patched with
    /// the payload's actual byte count. The opaque variant writes nothing,
    /// since its payload was never retained.
    pub fn write(&self, buffer: &mut BytePacketBuffer) -> (r: Result<(), DnsError>)
        requires
            old(buffer).wf(),
        ensures
            final(buffer).wf(),
            match r {
                Ok(()) => self.names_ok()
                    && old(buffer).pos + self.spec_bytes().len() <= PACKET_SIZE
                    && final(buffer).buf@ == with_bytes(old(buffer).buf@,
                        old(buffer).pos as int, self.spec_bytes())
                    && final(buffer).pos == old(buffer).pos + self.spec_bytes().len(),
                Err(e) => (e == DnsError::MalformedName ==> !self.names_ok())
                    && (e == DnsError::EndOfBuffer ==>
                        old(buffer).pos + self.spec_bytes().len() > PACKET_SIZE)
                    && (e == DnsError::MalformedName || e == DnsError::EndOfBuffer),
            },
    {
        match self {
            DNSRecord::UNKNOWN { .. } => {
                proof {
                    assert(buffer.buf@ =~= with_bytes(buffer.buf@,
                        buffer.pos as int, self.spec_bytes()));
                }
                Ok(())
            }
            DNSRecord::A { domain, addr, ttl } => {
                let rdata = ipv4_rdata(addr);
                write_plain_rr(buffer, domain, 1, *ttl, &rdata)
            }
            DNSRecord::NS { domain, host, ttl } => {
                write_host_rr(buffer, domain, 2, *ttl, host)
            }
            DNSRecord::CNAME { domain, host, ttl } => {
                write_host_rr(buffer, domain, 5, *ttl, host)
            }
            DNSRecord::MX { domain, priority, host, ttl } => {
                write_mx_rr(buffer, domain, *ttl, *priority, host)
            }
            DNSRecord::AAAA { domain, addr, ttl } => {
                let rdata = ipv6_rdata(addr);
                write_plain_rr(buffer, domain, 28, *ttl, &rdata)
            }
        }
    }
}

/// An A record's payload: the four address octets in order.
fn ipv4_rdata(addr: &Ipv4) -> (r: Vec<u8>)
    ensures
        r@ == seq![addr.o0, addr.o1, addr.o2, addr.o3],
{
    let mut v: Vec<u8> = Vec::new();
    v.push(addr.o0);
    v.push(addr.o1);
    v.push(addr.o2);
    v.push(addr.o3);
    proof {
        assert(v@ =~= seq![addr.o0, addr.o1, addr.o2, addr.o3]);
    }
    v
}

/// An AAAA record's payload: the eight groups, big-endian each.
fn ipv6_rdata(addr: &Ipv6) -> (r: Vec<u8>)
    ensures
        r@ == u16_bytes(addr.g0) + u16_bytes(addr.g1) + u16_bytes(addr.g2)
            + u16_bytes(addr.g3) + u16_bytes(addr.g4) + u16_bytes(addr.g5)
            + u16_bytes(addr.g6) + u16_bytes(addr.g7),
{
    let mut v: Vec<u8> = Vec::new();
    v.push((addr.g0 / 256) as u8);
    v.push((addr.g0 % 256) as u8);
    v.push((addr.g1 / 256) as u8);
    v.push((addr.g1 % 256) as u8);
    v.push((addr.g2 / 256) as u8);
    v.push((addr.g2 % 256) as u8);
    v.push((addr.g3 / 256) as u8);
    v.push((addr.g3 % 256) as u8);
    v.push((addr.g4 / 256) as u8);
    v.push((addr.g4 % 256) as u8);
    v.push((addr.g5 / 256) as u8);
    v.push((addr.g5 % 256) as u8);
    v.push((addr.g6 / 256) as u8);
    v.push((addr.g6 % 256) as u8);
    v.push((addr.g7 / 256) as u8);
    v.push((addr.g7 % 256) as u8);
    proof {
        assert(v@ =~= u16_bytes(addr.g0) + u16_bytes(addr.g1) + u16_bytes(addr.g2)
            + u16_bytes(addr.g3) + u16_bytes(addr.g4) + u16_bytes(addr.g5)
            + u16_bytes(addr.g6) + u16_bytes(addr.g7));
    }
    v
}

/// Write a record whose payload is a fixed run of raw bytes.
#[verifier::loop_isolation(false)]
fn write_plain_rr(buffer: &mut BytePacketBuffer, domain: &Vec<u8>, tnum: u16,
    ttl: u32, rdata: &Vec<u8>) -> (r: Result<(), DnsError>)
    requires
        old(buffer).wf(),
        rdata@.len() <= 16,
    ensures
        final(buffer).wf(),
        match r {
            Ok(()) => labels_ok(domain@)
                && old(buffer).pos + full_bytes(domain@, tnum, ttl, rdata@).len()
                    <= PACKET_SIZE
                && final(buffer).buf@ == with_bytes(old(buffer).buf@,
                    old(buffer).pos as int, full_bytes(domain@, tnum, ttl, rdata@))
                && final(buffer).pos == old(buffer).pos
                    + full_bytes(domain@, tnum, ttl, rdata@).len(),
            Err(e) => (e == DnsError::MalformedName ==> !labels_ok(domain@))
                && (e == DnsError::EndOfBuffer ==> old(buffer).pos
                    + full_bytes(domain@, tnum, ttl, rdata@).len() > PACKET_SIZE)
                && (e == DnsError::MalformedName || e == DnsError::EndOfBuffer),
        },
{
    let ghost buf0 = buffer.buf@;
    let ghost pos0 = buffer.pos as int;
    let lenpos = match write_envelope(buffer, domain, tnum, ttl) {
        Ok(v) => v,
        Err(e) => return Err(e),
    };
    let ghost done = env_bytes(domain@, tnum, ttl);
    let mut i: usize = 0;
    while i < rdata.len()
        invariant
            i <= rdata@.len(),
            buffer.wf(),
            buffer.pos == pos0 + done.len() + i,
            buffer.buf@ == with_bytes(buf0, pos0, done + rdata@.subrange(0, i as int)),
        decreases rdata@.len() - i,
    {
        let b = rdata[i];
        match buffer.write_u8(b) {
            Ok(()) => {}
            Err(e) => {
                proof {
                    assert(full_bytes(domain@, tnum, ttl, rdata@).len()
                        == done.len() + rdata@.len());
                }
                return Err(DnsError::EndOfBuffer);
            }
        }
        i = i + 1;
        proof {
            assert(buffer.buf@ =~= with_bytes(buf0, pos0,
                done + rdata@.subrange(0, i as int)));
        }
    }
    proof {
        assert(rdata@.subrange(0, rdata@.len() as int) =~= rdata@);
    }
    let size = buffer.pos - (lenpos + 2);
    match buffer.set_u16(lenpos, size as u16) {
        Ok(()) => {}
        Err(e) => {
            return Err(DnsError::EndOfBuffer);
        }
    }
    proof {
        assert(buffer.buf@ =~= with_bytes(buf0, pos0,
            full_bytes(domain@, tnum, ttl, rdata@)));
    }
    Ok(())
}

/// Write a record whose payload is one uncompressed domain name.
fn write_host_rr(buffer: &mut BytePacketBuffer, domain: &Vec<u8>, tnum: u16,
    ttl: u32, host: &Vec<u8>) -> (r: Result<(), DnsError>)
    requires
        old(buffer).wf(),
    ensures
        final(buffer).wf(),
        match r {
            Ok(()) => labels_ok(domain@) && labels_ok(host@)
                && old(buffer).pos
                    + full_bytes(domain@, tnum, ttl, encoded_qname(host@)).len()
                    <= PACKET_SIZE
                && final(buffer).buf@ == with_bytes(old(buffer).buf@,
                    old(buffer).pos as int,
                    full_bytes(domain@, tnum, ttl, encoded_qname(host@)))
                && final(buffer).pos == old(buffer).pos
                    + full_bytes(domain@, tnum, ttl, encoded_qname(host@)).len(),
            Err(e) => (e == DnsError::MalformedName
                    ==> !(labels_ok(domain@) && labels_ok(host@)))
                && (e == DnsError::EndOfBuffer ==> old(buffer).pos
                    + full_bytes(domain@, tnum, ttl, encoded_qname(host@)).len()
                    > PACKET_SIZE)
                && (e == DnsError::MalformedName || e == DnsError::EndOfBuffer),
        },
{
    let ghost buf0 = buffer.buf@;
    let ghost pos0 = buffer.pos as int;
    let lenpos = match write_envelope(buffer, domain, tnum, ttl) {
        Ok(v) => v,
        Err(e) => return Err(e),
    };
    match buffer.write_qname(host) {
        Ok(()) => {}
        Err(e) => return Err(e),
    }
    let size = buffer.pos - (lenpos + 2);
    match buffer.set_u16(lenpos, size as u16) {
        Ok(()) => {}
        Err(e) => {
            return Err(DnsError::EndOfBuffer);
        }
    }
    proof {
        assert(buffer.buf@ =~= with_bytes(buf0, pos0,
            full_bytes(domain@, tnum, ttl, encoded_qname(host@))));
    }
    Ok(())
}

/// Write a mail-exchange record: a 16-bit priority, then the exchange host
/// as an uncompressed name.
fn write_mx_rr(buffer: &mut BytePacketBuffer, domain: &Vec<u8>, ttl: u32,
    priority: u16, host: &Vec<u8>) -> (r: Result<(), DnsError>)
    requires
        old(buffer).wf(),
    ensures
        final(buffer).wf(),
        match r {
            Ok(()) => labels_ok(domain@) && labels_ok(host@)
                && old(buffer).pos + full_bytes(domain@, 15, ttl,
                    u16_bytes(priority) + encoded_qname(host@)).len() <= PACKET_SIZE
                && final(buffer).buf@ == with_bytes(old(buffer).buf@,
                    old(buffer).pos as int, full_bytes(domain@, 15, ttl,
                        u16_bytes(priority) + encoded_qname(host@)))
                && final(buffer).pos == old(buffer).pos + full_bytes(domain@, 15,
                    ttl, u16_bytes(priority) + encoded_qname(host@)).len(),
            Err(e) => (e == DnsError::MalformedName
                    ==> !(labels_ok(domain@) && labels_ok(host@)))
                && (e == DnsError::EndOfBuffer ==> old(buffer).pos
                    + full_bytes(domain@, 15, ttl,
                        u16_bytes(priority) + encoded_qname(host@)).len()
                    > PACKET_SIZE)
                && (e == DnsError::MalformedName || e == DnsError::EndOfBuffer),
        },
{
    let ghost buf0 = buffer.buf@;
    let ghost pos0 = buffer.pos as int;
    let lenpos = match write_envelope(buffer, domain, 15, ttl) {
        Ok(v) => v,
        Err(e) => return Err(e),
    };
    match buffer.write_u16(priority) {
        Ok(()) => {}
        Err(e) => return Err(e),
    }
    proof {
        assert(buffer.buf@ =~= with_bytes(buf0, pos0,
            env_bytes(domain@, 15, ttl) + u16_bytes(priority)));
    }
    match buffer.write_qname(host) {
        Ok(()) => {}
        Err(e) => return Err(e),
    }
    let size = buffer.pos - (lenpos + 2);
    match buffer.set_u16(lenpos, size as u16) {
        Ok(()) => {}
        Err(e) => {
            return Err(DnsError::EndOfBuffer);
        }
    }
    proof {
        assert(buffer.buf@ =~= with_bytes(buf0, pos0,
            full_bytes(domain@, 15, ttl, u16_bytes(priority) + encoded_qname(host@))));
    }
    Ok(())
}


/// A 32-bit value split into its four big-endian bytes spells itself again.
pub proof fn lemma_u32_bytes_roundtrip(x: u32)
    ensures
        ((x / 0x1000000) as u8) * 0x1000000 + (((x / 0x10000) % 256) as u8) * 0x10000
            + (((x / 256) % 256) as u8) * 256 + ((x % 256) as u8) == x,
{
    assert(((x / 0x1000000) as u8) * 0x1000000
        + (((x / 0x10000) % 256) as u8) * 0x10000
        + (((x / 256) % 256) as u8) * 256 + ((x % 256) as u8) == x) by (bit_vector);
}

impl DNSRecord {
    /// A record that encodes to bytes that decode back: any variant but the
    /// opaque one (whose payload was never retained), with well-formed names
    /// throughout.
    pub open spec fn encodable(self) -> bool {
        match self {
            DNSRecord::UNKNOWN { .. } => false,
            DNSRecord::A { domain, .. } => wf_name(domain@),
            DNSRecord::AAAA { domain, .. } => wf_name(domain@),
            DNSRecord::NS { domain, host, .. } => wf_name(domain@) && wf_name(host@),
            DNSRecord::CNAME { domain, host, .. } => (wf_name(domain@)
                && wf_name(host@)),
            DNSRecord::MX { domain, host, .. } => wf_name(domain@) && wf_name(host@),
        }
    }
}

/// Record round trip: decoding the bytes an encodable record serializes to
/// yields the same record and lands on the byte after it.
#[verifier::rlimit(100)]
pub proof fn lemma_record_roundtrip(rec: DNSRecord, buf: Seq<u8>, pos: int)
    requires
        rec.encodable(),
        buf.len() == PACKET_SIZE,
        0 <= pos,
        pos + rec.spec_bytes().len() <= PACKET_SIZE,
        buf.subrange(pos, pos + rec.spec_bytes().len()) == rec.spec_bytes(),
    ensures
        spec_record_at(buf, pos) == Some((rec@, pos + rec.spec_bytes().len() as int)),
{
    let whole = rec.spec_bytes();
    let domain = rec.spec_domain();
    let tnum = rec.spec_qtype_num();
    let ttl = rec.spec_ttl();
    let rdata = rec.spec_rdata();
    let encd = encoded_qname(domain);
    let ll = encd.len() as int;
    let tail = u16_bytes(tnum) + u16_bytes(1) + u32_bytes(ttl)
        + u16_bytes(rdata.len() as u16) + rdata;
    assert(whole =~= encd + tail);
    assert(whole.subrange(0, ll) =~= encd);
    crate::buffer::lemma_nested_bytes(buf, pos, whole, 0, encd);
    crate::buffer::lemma_qname_roundtrip(buf, pos, domain, 0);
    let rp = pos + ll;
    assert forall|j: int| 0 <= j < tail.len() implies whole[ll + j] == tail[j] by {}
    crate::buffer::lemma_byte_at(buf, pos, whole, ll);
    crate::buffer::lemma_byte_at(buf, pos, whole, ll + 1);
    crate::buffer::lemma_byte_at(buf, pos, whole, ll + 4);
    crate::buffer::lemma_byte_at(buf, pos, whole, ll + 5);
    crate::buffer::lemma_byte_at(buf, pos, whole, ll + 6);
    crate::buffer::lemma_byte_at(buf, pos, whole, ll + 7);
    crate::buffer::lemma_byte_at(buf, pos, whole, ll + 8);
    crate::buffer::lemma_byte_at(buf, pos, whole, ll + 9);
    crate::dnsheader::lemma_u16_bytes_roundtrip(tnum);
    assert(spec_u16(buf, rp) == tnum);
    lemma_u32_bytes_roundtrip(ttl);
    assert(spec_u32(buf, rp + 4) == ttl);
    crate::querytype::lemma_querytype_roundtrip(QueryType::spec_from_num(tnum));
    let rd = rp + 10;
    assert(whole.subrange(ll + 10, ll + 10 + rdata.len()) =~= rdata);
    crate::buffer::lemma_nested_bytes(buf, pos, whole, ll + 10, rdata);
    match rec {
        DNSRecord::UNKNOWN { .. } => {
            assert(false);
        }
        DNSRecord::A { addr, .. } => {
            crate::buffer::lemma_byte_at(buf, rd, rdata, 0);
            crate::buffer::lemma_byte_at(buf, rd, rdata, 1);
            crate::buffer::lemma_byte_at(buf, rd, rdata, 2);
            crate::buffer::lemma_byte_at(buf, rd, rdata, 3);
        }
        DNSRecord::AAAA { addr, .. } => {
            let groups = seq![addr.g0, addr.g1, addr.g2, addr.g3, addr.g4, addr.g5,
                addr.g6, addr.g7];
            assert forall|g: int| 0 <= g < 8 implies
                spec_u16(buf, rd + 2 * g) == groups[g] by {
                assert(rdata[2 * g] == (groups[g] / 256) as u8
                    && rdata[2 * g + 1] == (groups[g] % 256) as u8);
                crate::buffer::lemma_byte_at(buf, rd, rdata, 2 * g);
                crate::buffer::lemma_byte_at(buf, rd, rdata, 2 * g + 1);
                crate::dnsheader::lemma_u16_bytes_roundtrip(groups[g]);
            }
        }
        DNSRecord::NS { host, .. } => {
            crate::buffer::lemma_qname_roundtrip(buf, rd, host@, 0);
        }
        DNSRecord::CNAME { host, .. } => {
            crate::buffer::lemma_qname_roundtrip(buf, rd, host@, 0);
        }
        DNSRecord::MX { priority, host, .. } => {
            let ench = encoded_qname(host@);
            crate::buffer::lemma_byte_at(buf, rd, rdata, 0);
            crate::buffer::lemma_byte_at(buf, rd, rdata, 1);
            crate::dnsheader::lemma_u16_bytes_roundtrip(priority);
            assert(spec_u16(buf, rd) == priority);
            assert(rdata.subrange(2, 2 + ench.len() as int) =~= ench);
            crate::buffer::lemma_nested_bytes(buf, rd, rdata, 2, ench);
            crate::buffer::lemma_qname_roundtrip(buf, rd + 2, host@, 0);
        }
    }
}

} // verus!
