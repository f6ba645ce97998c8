//! The 12-byte DNS message header: id, two bit-packed flag bytes, and the
//! four section counts. The counts are derived data: the packet codec
//! overwrites them from the actual section lengths before this codec writes
//! them out.

use vstd::prelude::*;
use crate::buffer::{BytePacketBuffer, DnsError, PACKET_SIZE, spec_u16, with_bytes};
use crate::resultcode::ResultCode;

verus! {

#[derive(Clone, Debug, PartialEq, Eq, Structural)]
pub struct DNSHeader {
    pub id: u16,

    pub recursion_desired: bool,
    pub truncated: bool,
    pub auth_ansr: bool,
    pub op_code: u8,
    pub response: bool,

    pub res_code: ResultCode,
    pub checking: bool,
    pub authed_data: bool,
    pub z: bool,
    pub recursion_available: bool,

    pub question: u16,
    pub answer: u16,
    pub auth_entries: u16,
    pub res_entries: u16,
}

/// A flag as the bit it packs to.
pub open spec fn b2u(b: bool) -> u8 {
    if b {
        1
    } else {
        0
    }
}

impl DNSHeader {
    /// The opcode fits its four-bit field and the result code is canonical.
    pub open spec fn wf(self) -> bool {
        &&& self.op_code < 16
        &&& self.res_code.wf()
    }

    /// The high flags byte: response bit, opcode, authoritative-answer,
    /// truncation and recursion-desired bits.
    pub open spec fn pack_high(self) -> u8 {
        b2u(self.recursion_desired) | (b2u(self.truncated) << 1)
            | (b2u(self.auth_ansr) << 2) | ((self.op_code & 0x0F) << 3)
            | (b2u(self.response) << 7)
    }

    /// The low flags byte: recursion-available, reserved, authenticated-data
    /// and checking-disabled bits, and the four-bit response code.
    pub open spec fn pack_low(self) -> u8 {
        (self.res_code.spec_to_num() & 0x0F) | (b2u(self.checking) << 4)
            | (b2u(self.authed_data) << 5) | (b2u(self.z) << 6)
            | (b2u(self.recursion_available) << 7)
    }

    /// The exact 12 bytes this header serializes to.
    pub open spec fn spec_bytes(self) -> Seq<u8> {
        seq![
            (self.id / 256) as u8,
            (self.id % 256) as u8,
            self.pack_high(),
            self.pack_low(),
            (self.question / 256) as u8,
            (self.question % 256) as u8,
            (self.answer / 256) as u8,
            (self.answer % 256) as u8,
            (self.auth_entries / 256) as u8,
            (self.auth_entries % 256) as u8,
            (self.res_entries / 256) as u8,
            (self.res_entries % 256) as u8,
        ]
    }

    /// The header spelled by the 12 bytes at `pos`.
    pub open spec fn spec_at(buf: Seq<u8>, pos: int) -> DNSHeader {
        let a = buf[pos + 2];
        let b = buf[pos + 3];
        DNSHeader {
            id: spec_u16(buf, pos),
            recursion_desired: a & 0x01 != 0,
            truncated: a & 0x02 != 0,
            auth_ansr: a & 0x04 != 0,
            op_code: (a >> 3) & 0x0F,
            response: a & 0x80 != 0,
            res_code: ResultCode::spec_from_num(b & 0x0F),
            checking: b & 0x10 != 0,
            authed_data: b & 0x20 != 0,
            z: b & 0x40 != 0,
            recursion_available: b & 0x80 != 0,
            question: spec_u16(buf, pos + 4),
            answer: spec_u16(buf, pos + 6),
            auth_entries: spec_u16(buf, pos + 8),
            res_entries: spec_u16(buf, pos + 10),
        }
    }

    /// The fresh header: all flags clear, all counts zero.
    pub open spec fn spec_new() -> DNSHeader {
        DNSHeader {
            id: 0u16,
            recursion_desired: false,
            truncated: false,
            auth_ansr: false,
            op_code: 0u8,
            response: false,
            res_code: ResultCode::NOERROR,
            checking: false,
            authed_data: false,
            z: false,
            recursion_available: false,
            question: 0u16,
            answer: 0u16,
            auth_entries: 0u16,
            res_entries: 0u16,
        }
    }

    /// A fresh header: all flags clear, all counts zero.
    pub fn new() -> (r: DNSHeader)
        ensures
            r == (DNSHeader {
                id: 0u16,
                recursion_desired: false,
                truncated: false,
                auth_ansr: false,
                op_code: 0u8,
                response: false,
                res_code: ResultCode::NOERROR,
                checking: false,
                authed_data: false,
                z: false,
                recursion_available: false,
                question: 0u16,
                answer: 0u16,
                auth_entries: 0u16,
                res_entries: 0u16,
            }),
            r.wf(),
    {
        DNSHeader {
            id: 0,

            recursion_desired: false,
            truncated: false,
            auth_ansr: false,
            op_code: 0,
            response: false,

            res_code: ResultCode::NOERROR,
            checking: false,
            authed_data: false,
            z: false,
            recursion_available: false,

            question: 0,
            answer: 0,
            auth_entries: 0,
            res_entries: 0,
        }
    }

    /// Decode the 12 header bytes under the cursor into `self`.
    pub fn read(&mut self, buffer: &mut BytePacketBuffer) -> (r: Result<(), DnsError>)
        requires
            old(buffer).wf(),
        ensures
            final(buffer).wf(),
            final(buffer).buf@ == old(buffer).buf@,
            match r {
                Ok(()) => old(buffer).pos + 12 <= PACKET_SIZE
                    && final(buffer).pos == old(buffer).pos + 12
                    && *final(self) == DNSHeader::spec_at(old(buffer).buf@,
                        old(buffer).pos as int)
                    && final(self).wf(),
                Err(e) => e == DnsError::EndOfBuffer
                    && old(buffer).pos + 12 > PACKET_SIZE,
            },
    {
        let id = match buffer.read_u16() {
            Ok(v) => v,
            Err(e) => return Err(e),
        };
        let a = match buffer.read_u8() {
            Ok(v) => v,
            Err(e) => return Err(e),
        };
        let b = match buffer.read_u8() {
            Ok(v) => v,
            Err(e) => return Err(e),
        };

        self.id = id;
        self.recursion_desired = a & 0x01 != 0;
        self.truncated = a & 0x02 != 0;
        self.auth_ansr = a & 0x04 != 0;
        self.op_code = (a >> 3) & 0x0F;
        self.response = a & 0x80 != 0;

        self.res_code = ResultCode::from_num(b & 0x0F);
        self.checking = b & 0x10 != 0;
        self.authed_data = b & 0x20 != 0;
        self.z = b & 0x40 != 0;
        self.recursion_available = b & 0x80 != 0;

        self.question = match buffer.read_u16() {
            Ok(v) => v,
            Err(e) => return Err(e),
        };
        self.answer = match buffer.read_u16() {
            Ok(v) => v,
            Err(e) => return Err(e),
        };
        self.auth_entries = match buffer.read_u16() {
            Ok(v) => v,
            Err(e) => return Err(e),
        };
        self.res_entries = match buffer.read_u16() {
            Ok(v) => v,
            Err(e) => return Err(e),
        };
        proof {
            assert((a >> 3) & 0x0F < 16) by (bit_vector);
            assert(b & 0x0F < 16) by (bit_vector);
        }
        Ok(())
    }

    /// Encode the header's 12 bytes at the cursor. The counts go out exactly
    /// as the caller set them; the packet codec syncs them first.
    #[verifier::rlimit(60)]
    pub fn write(&mut self, buffer: &mut BytePacketBuffer) -> (r: Result<(), DnsError>)
        requires
            old(buffer).wf(),
        ensures
            final(buffer).wf(),
            *final(self) == *old(self),
            match r {
                Ok(()) => old(buffer).pos + 12 <= PACKET_SIZE
                    && final(buffer).pos == old(buffer).pos + 12
                    && final(buffer).buf@ == with_bytes(old(buffer).buf@,
                        old(buffer).pos as int, old(self).spec_bytes()),
                Err(e) => e == DnsError::EndOfBuffer
                    && old(buffer).pos + 12 > PACKET_SIZE,
            },
    {
        let ghost buf0 = buffer.buf@;
        let ghost pos0 = buffer.pos as int;
        match buffer.write_u16(self.id) {
            Ok(()) => {}
            Err(e) => return Err(e),
        }
        let rd: u8 = if self.recursion_desired { 1 } else { 0 };
        let tc: u8 = if self.truncated { 1 } else { 0 };
        let aa: u8 = if self.auth_ansr { 1 } else { 0 };
        let qr: u8 = if self.response { 1 } else { 0 };
        let a: u8 = rd | (tc << 1) | (aa << 2) | ((self.op_code & 0x0F) << 3)
            | (qr << 7);
        match buffer.write_u8(a) {
            Ok(()) => {}
            Err(e) => return Err(e),
        }
        let cd: u8 = if self.checking { 1 } else { 0 };
        let ad: u8 = if self.authed_data { 1 } else { 0 };
        let zf: u8 = if self.z { 1 } else { 0 };
        let ra: u8 = if self.recursion_available { 1 } else { 0 };
        let rc: u8 = self.res_code.to_num();
        let b: u8 = (rc & 0x0F) | (cd << 4) | (ad << 5) | (zf << 6) | (ra << 7);
        match buffer.write_u8(b) {
            Ok(()) => {}
            Err(e) => return Err(e),
        }
        match buffer.write_u16(self.question) {
            Ok(()) => {}
            Err(e) => return Err(e),
        }
        match buffer.write_u16(self.answer) {
            Ok(()) => {}
            Err(e) => return Err(e),
        }
        match buffer.write_u16(self.auth_entries) {
            Ok(()) => {}
            Err(e) => return Err(e),
        }
        match buffer.write_u16(self.res_entries) {
            Ok(()) => {}
            Err(e) => return Err(e),
        }
        proof {
            assert(buffer.buf@ =~= with_bytes(buf0, pos0, self.spec_bytes()));
        }
        Ok(())
    }
}

/// Header round trip: decoding the 12 bytes a well-formed header packs to
/// gives back that header, field for field.
pub proof fn lemma_header_roundtrip(h: DNSHeader, buf: Seq<u8>, pos: int)
    requires
        h.wf(),
        buf.len() == PACKET_SIZE,
        0 <= pos,
        pos + 12 <= PACKET_SIZE,
        buf.subrange(pos, pos + 12) == h.spec_bytes(),
    ensures
        DNSHeader::spec_at(buf, pos) == h,
{
    assert(forall|k: int| 0 <= k < 12
        ==> #[trigger] buf.subrange(pos, pos + 12)[k] == buf[pos + k]);
    lemma_u16_bytes_roundtrip(h.id);
    lemma_u16_bytes_roundtrip(h.question);
    lemma_u16_bytes_roundtrip(h.answer);
    lemma_u16_bytes_roundtrip(h.auth_entries);
    lemma_u16_bytes_roundtrip(h.res_entries);
    let rd = b2u(h.recursion_desired);
    let tc = b2u(h.truncated);
    let aa = b2u(h.auth_ansr);
    let op = h.op_code;
    let qr = b2u(h.response);
    assert({
        let a = rd | (tc << 1) | (aa << 2) | ((op & 0x0F) << 3) | (qr << 7);
        &&& (a & 0x01 != 0) == (rd == 1)
        &&& (a & 0x02 != 0) == (tc == 1)
        &&& (a & 0x04 != 0) == (aa == 1)
        &&& ((a >> 3) & 0x0F) == op
        &&& (a & 0x80 != 0) == (qr == 1)
    }) by (bit_vector)
        requires
            rd <= 1,
            tc <= 1,
            aa <= 1,
            op <= 15,
            qr <= 1,
    ;
    let cd = b2u(h.checking);
    let ad = b2u(h.authed_data);
    let zf = b2u(h.z);
    let ra = b2u(h.recursion_available);
    let rc = h.res_code.spec_to_num();
    assert({
        let b = (rc & 0x0F) | (cd << 4) | (ad << 5) | (zf << 6) | (ra << 7);
        &&& (b & 0x0F) == rc
        &&& (b & 0x10 != 0) == (cd == 1)
        &&& (b & 0x20 != 0) == (ad == 1)
        &&& (b & 0x40 != 0) == (zf == 1)
        &&& (b & 0x80 != 0) == (ra == 1)
    }) by (bit_vector)
        requires
            rc <= 15,
            cd <= 1,
            ad <= 1,
            zf <= 1,
            ra <= 1,
    ;
    crate::resultcode::lemma_resultcode_roundtrip(h.res_code);
}

/// A 16-bit value split into its two big-endian bytes spells itself again.
pub proof fn lemma_u16_bytes_roundtrip(x: u16)
    ensures
        ((x / 256) as u8) * 256 + ((x % 256) as u8) == x,
{
    assert(((x / 256) as u8) * 256 + ((x % 256) as u8) == x) by (bit_vector);
}

} // verus!
