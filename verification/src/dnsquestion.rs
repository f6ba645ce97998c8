//! The question section entry: a domain name and a query type. The query
//! class is the constant "Internet" (1) on the wire: written as a constant,
//! read and discarded, never modeled as a field.

use vstd::prelude::*;
use crate::buffer::{
    BytePacketBuffer, DnsError, PACKET_SIZE, encoded_qname, labels_ok, spec_qname,
    spec_u16, wf_name, with_bytes,
};
use crate::querytype::QueryType;

verus! {

#[derive(Clone, Debug, PartialEq, Eq)]
pub struct DNSQuestion {
    pub name: Vec<u8>,
    pub query_type: QueryType,
}

/// The mathematical shape of a question: the name as a byte sequence.
pub struct QuestionView {
    pub name: Seq<u8>,
    pub query_type: QueryType,
}

impl View for DNSQuestion {
    type V = QuestionView;

    open spec fn view(&self) -> QuestionView {
        QuestionView { name: self.name@, query_type: self.query_type }
    }
}

/// What decoding one question at `pos` yields: the question and the position
/// of the byte after it; `None` is a failed decode.
pub open spec fn spec_question_at(buf: Seq<u8>, pos: int) -> Option<(QuestionView, int)> {
    match spec_qname(buf, pos, 0) {
        Some((nm, rp)) => {
            if rp + 4 <= PACKET_SIZE {
                Some(((QuestionView {
                    name: nm,
                    query_type: QueryType::spec_from_num(spec_u16(buf, rp)),
                }), rp + 4))
            } else {
                None
            }
        }
        None => None,
    }
}

impl DNSQuestion {
    /// Dotted labels each 1 to 63 bytes (or the empty root name), and a
    /// canonical query type.
    pub open spec fn wf(self) -> bool {
        &&& wf_name(self.name@)
        &&& self.query_type.wf()
    }

    /// The exact bytes this question serializes to: the uncompressed name,
    /// the type code, and the constant class 1.
    pub open spec fn spec_bytes(self) -> Seq<u8> {
        encoded_qname(self.name@)
            + seq![
                (self.query_type.spec_to_num() / 256) as u8,
                (self.query_type.spec_to_num() % 256) as u8,
                0u8,
                1u8,
            ]
    }

    pub fn new(name: Vec<u8>, query_type: QueryType) -> (r: DNSQuestion)
        ensures
            r.name == name,
            r.query_type == query_type,
    {
        DNSQuestion { name, query_type }
    }

    /// Decode a question at the cursor: compressed name, type code, and the
    /// class, which is read and dropped.
    pub fn read(&mut self, buffer: &mut BytePacketBuffer) -> (r: Result<(), DnsError>)
        requires
            old(buffer).wf(),
        ensures
            final(buffer).wf(),
            final(buffer).buf@ == old(buffer).buf@,
            match r {
                Ok(()) => (match spec_qname(old(buffer).buf@, old(buffer).pos as int, 0) {
                    Some((nm, rp)) => rp + 4 <= PACKET_SIZE
                        && final(self).name@ == nm
                        && final(self).query_type
                            == QueryType::spec_from_num(spec_u16(old(buffer).buf@, rp))
                        && final(self).query_type.wf()
                        && final(buffer).pos == rp + 4,
                    None => false,
                }),
                Err(e) => (match spec_qname(old(buffer).buf@, old(buffer).pos as int, 0) {
                    Some((nm, rp)) => e == DnsError::EndOfBuffer && rp + 4 > PACKET_SIZE,
                    None => e == DnsError::EndOfBuffer || e == DnsError::MalformedName,
                }),
            },
    {
        let name = match buffer.read_qname() {
            Ok(v) => v,
            Err(e) => return Err(e),
        };
        self.name = name;
        let type_num = match buffer.read_u16() {
            Ok(v) => v,
            Err(e) => return Err(e),
        };
        self.query_type = QueryType::from_num(type_num);
        match buffer.read_u16() {
            Ok(_) => {}
            Err(e) => return Err(e),
        }
        Ok(())
    }

    /// Encode the question at the cursor: uncompressed name, type code, and
    /// the constant class 1.
    pub fn write(&self, buffer: &mut BytePacketBuffer) -> (r: Result<(), DnsError>)
        requires
            old(buffer).wf(),
        ensures
            final(buffer).wf(),
            match r {
                Ok(()) => labels_ok(self.name@)
                    && old(buffer).pos + self.spec_bytes().len() <= PACKET_SIZE
                    && final(buffer).buf@ == with_bytes(old(buffer).buf@,
                        old(buffer).pos as int, self.spec_bytes())
                    && final(buffer).pos == old(buffer).pos + self.spec_bytes().len(),
                Err(e) => (e == DnsError::MalformedName ==> !labels_ok(self.name@))
                    && (e == DnsError::EndOfBuffer ==>
                        old(buffer).pos + self.spec_bytes().len() > PACKET_SIZE)
                    && (e == DnsError::MalformedName || e == DnsError::EndOfBuffer),
            },
    {
        let ghost buf0 = buffer.buf@;
        let ghost pos0 = buffer.pos as int;
        match buffer.write_qname(&self.name) {
            Ok(()) => {}
            Err(e) => return Err(e),
        }
        let type_num = self.query_type.to_num();
        match buffer.write_u16(type_num) {
            Ok(()) => {}
            Err(e) => return Err(e),
        }
        match buffer.write_u16(1) {
            Ok(()) => {}
            Err(e) => return Err(e),
        }
        proof {
            assert(buffer.buf@ =~= with_bytes(buf0, pos0, self.spec_bytes()));
        }
        Ok(())
    }
}

/// Question round trip: decoding the bytes a well-formed question writes
/// yields the same name and query type and lands right after the entry.
pub proof fn lemma_question_roundtrip(q: DNSQuestion, buf: Seq<u8>, pos: int)
    requires
        q.wf(),
        buf.len() == PACKET_SIZE,
        0 <= pos,
        pos + q.spec_bytes().len() <= PACKET_SIZE,
        buf.subrange(pos, pos + q.spec_bytes().len()) == q.spec_bytes(),
    ensures
        (match spec_qname(buf, pos, 0) {
            Some((nm, rp)) => nm == q.name@
                && rp == pos + encoded_qname(q.name@).len()
                && rp + 4 <= pos + q.spec_bytes().len()
                && QueryType::spec_from_num(spec_u16(buf, rp)) == q.query_type,
            None => false,
        }),
{
    let enc = encoded_qname(q.name@);
    let qb = q.spec_bytes();
    let sect = buf.subrange(pos, pos + qb.len() as int);
    assert forall|k: int| 0 <= k < enc.len() implies
        #[trigger] buf.subrange(pos, pos + enc.len() as int)[k] == enc[k] by {
        assert(sect[k] == buf[pos + k]);
        assert(qb[k] == enc[k]);
    }
    assert(buf.subrange(pos, pos + enc.len() as int) =~= enc);
    crate::buffer::lemma_qname_roundtrip(buf, pos, q.name@, 0);
    let rp = pos + enc.len() as int;
    assert(buf[rp] == qb[enc.len() as int]) by {
        assert(sect[enc.len() as int] == buf[pos + enc.len()]);
    }
    assert(buf[rp + 1] == qb[enc.len() as int + 1]) by {
        assert(sect[enc.len() as int + 1] == buf[pos + enc.len() + 1]);
    }
    crate::dnsheader::lemma_u16_bytes_roundtrip(q.query_type.spec_to_num());
    crate::querytype::lemma_querytype_roundtrip(q.query_type);
}

} // verus!
