//! Whole DNS messages: the header and the four record sections in wire
//! order. On decode the header's counts drive how many entries to parse; on
//! encode the counts are overwritten from the actual section lengths first,
//! so the sequences, not the counts, are the source of truth.

use vstd::prelude::*;
use crate::buffer::{
    BytePacketBuffer, DnsError, PACKET_SIZE, labels_ok, with_bytes,
};
use crate::dnsheader::DNSHeader;
use crate::dnsquestion::{DNSQuestion, QuestionView, spec_question_at};
use crate::dnsrecord::{DNSRecord, Ipv4, RecView, spec_record_at};
use crate::querytype::QueryType;

verus! {

#[derive(Clone, Debug, PartialEq, Eq)]
pub struct DNSPacket {
    pub header: DNSHeader,
    pub questions: Vec<DNSQuestion>,
    pub answers: Vec<DNSRecord>,
    pub authorities: Vec<DNSRecord>,
    pub resources: Vec<DNSRecord>,
}

/// The mathematical shape of a packet.
pub struct PacketView {
    pub header: DNSHeader,
    pub questions: Seq<QuestionView>,
    pub answers: Seq<RecView>,
    pub authorities: Seq<RecView>,
    pub resources: Seq<RecView>,
}

/// The views of a question sequence.
pub open spec fn qviews(qs: Seq<DNSQuestion>) -> Seq<QuestionView> {
    qs.map_values(|q: DNSQuestion| q@)
}

/// The views of a record sequence.
pub open spec fn rviews(rs: Seq<DNSRecord>) -> Seq<RecView> {
    rs.map_values(|r: DNSRecord| r@)
}

impl View for DNSPacket {
    type V = PacketView;

    open spec fn view(&self) -> PacketView {
        PacketView {
            header: self.header,
            questions: qviews(self.questions@),
            answers: rviews(self.answers@),
            authorities: rviews(self.authorities@),
            resources: rviews(self.resources@),
        }
    }
}

/// What decoding `n` consecutive questions at `pos` yields.
pub open spec fn spec_questions_at(buf: Seq<u8>, pos: int, n: int)
    -> Option<(Seq<QuestionView>, int)>
    decreases n, when n >= 0
{
    if n <= 0 {
        Some((Seq::empty(), pos))
    } else {
        match spec_question_at(buf, pos) {
            Some((q, p2)) => {
                match spec_questions_at(buf, p2, n - 1) {
                    Some((qs, pe)) => Some((seq![q] + qs, pe)),
                    None => None,
                }
            }
            None => None,
        }
    }
}

/// What decoding `n` consecutive resource records at `pos` yields.
pub open spec fn spec_records_at(buf: Seq<u8>, pos: int, n: int)
    -> Option<(Seq<RecView>, int)>
    decreases n, when n >= 0
{
    if n <= 0 {
        Some((Seq::empty(), pos))
    } else {
        match spec_record_at(buf, pos) {
            Some((r, p2)) => {
                match spec_records_at(buf, p2, n - 1) {
                    Some((rs, pe)) => Some((seq![r] + rs, pe)),
                    None => None,
                }
            }
            None => None,
        }
    }
}

/// What decoding a whole packet at `pos` yields: header, then exactly as many
/// questions, answers, authority and additional records as the header counts
/// say, in that fixed order.
pub open spec fn spec_packet_at(buf: Seq<u8>, pos: int) -> Option<(PacketView, int)> {
    if !(0 <= pos && pos + 12 <= PACKET_SIZE) {
        None
    } else {
        let h = DNSHeader::spec_at(buf, pos);
        match spec_questions_at(buf, pos + 12, h.question as int) {
            None => None,
            Some((qs, p1)) => match spec_records_at(buf, p1, h.answer as int) {
                None => None,
                Some((ans, p2)) => match spec_records_at(buf, p2,
                    h.auth_entries as int) {
                    None => None,
                    Some((auth, p3)) => match spec_records_at(buf, p3,
                        h.res_entries as int) {
                        None => None,
                        Some((res, p4)) => Some(((PacketView {
                            header: h,
                            questions: qs,
                            answers: ans,
                            authorities: auth,
                            resources: res,
                        }), p4)),
                    },
                },
            },
        }
    }
}

/// Decode `n` consecutive questions at the cursor.
#[verifier::loop_isolation(false)]
fn read_questions(buffer: &mut BytePacketBuffer, n: u16)
    -> (r: Result<Vec<DNSQuestion>, DnsError>)
    requires
        old(buffer).wf(),
    ensures
        final(buffer).wf(),
        final(buffer).buf@ == old(buffer).buf@,
        match r {
            Ok(qs) => spec_questions_at(old(buffer).buf@, old(buffer).pos as int,
                n as int) == Some((qviews(qs@), final(buffer).pos as int))
                && (forall|k: int| 0 <= k < qs@.len()
                    ==> (#[trigger] qs@[k]).query_type.wf()),
            Err(e) => spec_questions_at(old(buffer).buf@, old(buffer).pos as int,
                n as int) is None
                && (e == DnsError::EndOfBuffer || e == DnsError::MalformedName),
        },
{
    let ghost buf0 = buffer.buf@;
    let ghost pos0 = buffer.pos as int;
    let mut out: Vec<DNSQuestion> = Vec::new();
    let mut i: u16 = 0;
    proof {
        assert(qviews(out@) =~= Seq::<QuestionView>::empty());
    }
    while i < n
        invariant
            i <= n,
            buffer.wf(),
            buffer.buf@ == buf0,
            forall|k: int| 0 <= k < out@.len()
                ==> (#[trigger] out@[k]).query_type.wf(),
            (match spec_questions_at(buf0, buffer.pos as int, n - i) {
                Some((rest, pe)) => spec_questions_at(buf0, pos0, n as int)
                    == Some((qviews(out@) + rest, pe)),
                None => spec_questions_at(buf0, pos0, n as int) is None,
            }),
        decreases n - i,
    {
        let ghost posi = buffer.pos as int;
        let mut question = DNSQuestion::new(Vec::new(), QueryType::UNKNOWN(0));
        match question.read(buffer) {
            Ok(()) => {}
            Err(e) => {
                proof {
                    assert(spec_question_at(buf0, posi) is None);
                }
                return Err(e);
            }
        }
        proof {
            assert(spec_question_at(buf0, posi) == Some((question@,
                buffer.pos as int)));
        }
        out.push(question);
        i = i + 1;
        proof {
            assert(qviews(out@) =~= qviews(out@.drop_last()).push(out@.last()@));
            match spec_questions_at(buf0, buffer.pos as int, n - i) {
                Some((rest, pe)) => {
                    assert(qviews(out@) + rest
                        =~= qviews(out@.drop_last()) + (seq![question@] + rest));
                }
                None => {}
            }
        }
    }
    Ok(out)
}

/// Decode `n` consecutive resource records at the cursor.
#[verifier::loop_isolation(false)]
fn read_records(buffer: &mut BytePacketBuffer, n: u16)
    -> (r: Result<Vec<DNSRecord>, DnsError>)
    requires
        old(buffer).wf(),
    ensures
        final(buffer).wf(),
        final(buffer).buf@ == old(buffer).buf@,
        match r {
            Ok(rs) => spec_records_at(old(buffer).buf@, old(buffer).pos as int,
                n as int) == Some((rviews(rs@), final(buffer).pos as int)),
            Err(e) => spec_records_at(old(buffer).buf@, old(buffer).pos as int,
                n as int) is None
                && (e == DnsError::EndOfBuffer || e == DnsError::MalformedName),
        },
{
    let ghost buf0 = buffer.buf@;
    let ghost pos0 = buffer.pos as int;
    let mut out: Vec<DNSRecord> = Vec::new();
    let mut i: u16 = 0;
    proof {
        assert(rviews(out@) =~= Seq::<RecView>::empty());
    }
    while i < n
        invariant
            i <= n,
            buffer.wf(),
            buffer.buf@ == buf0,
            (match spec_records_at(buf0, buffer.pos as int, n - i) {
                Some((rest, pe)) => spec_records_at(buf0, pos0, n as int)
                    == Some((rviews(out@) + rest, pe)),
                None => spec_records_at(buf0, pos0, n as int) is None,
            }),
        decreases n - i,
    {
        let ghost posi = buffer.pos as int;
        let rec = match DNSRecord::read(buffer) {
            Ok(v) => v,
            Err(e) => {
                return Err(e);
            }
        };
        out.push(rec);
        i = i + 1;
        proof {
            assert(rviews(out@) =~= rviews(out@.drop_last()).push(out@.last()@));
            match spec_records_at(buf0, buffer.pos as int, n - i) {
                Some((rest, pe)) => {
                    assert(rviews(out@) + rest
                        =~= rviews(out@.drop_last()) + (seq![out@.last()@] + rest));
                }
                None => {}
            }
        }
    }
    Ok(out)
}

impl DNSPacket {
    /// An empty packet: fresh header, all four sections empty.
    pub fn new() -> (r: DNSPacket)
        ensures
            r.header == DNSHeader::spec_new(),
            r.questions@.len() == 0,
            r.answers@.len() == 0,
            r.authorities@.len() == 0,
            r.resources@.len() == 0,
    {
        DNSPacket {
            header: DNSHeader::new(),
            questions: Vec::new(),
            answers: Vec::new(),
            authorities: Vec::new(),
            resources: Vec::new(),
        }
    }

    /// Decode a whole packet at the cursor: header, then the counts taken
    /// from it drive how many questions and records of each section follow.
    pub fn read(buffer: &mut BytePacketBuffer) -> (r: Result<DNSPacket, DnsError>)
        requires
            old(buffer).wf(),
        ensures
            final(buffer).wf(),
            final(buffer).buf@ == old(buffer).buf@,
            match r {
                Ok(p) => spec_packet_at(old(buffer).buf@, old(buffer).pos as int)
                    == Some((p@, final(buffer).pos as int))
                    && p.header.wf()
                    && (forall|k: int| 0 <= k < p.questions@.len()
                        ==> (#[trigger] p.questions@[k]).query_type.wf()),
                Err(e) => spec_packet_at(old(buffer).buf@, old(buffer).pos as int)
                    is None
                    && (e == DnsError::EndOfBuffer || e == DnsError::MalformedName),
            },
    {
        let mut header = DNSHeader::new();
        match header.read(buffer) {
            Ok(()) => {}
            Err(e) => return Err(e),
        }
        let questions = match read_questions(buffer, header.question) {
            Ok(v) => v,
            Err(e) => return Err(e),
        };
        let answers = match read_records(buffer, header.answer) {
            Ok(v) => v,
            Err(e) => return Err(e),
        };
        let authorities = match read_records(buffer, header.auth_entries) {
            Ok(v) => v,
            Err(e) => return Err(e),
        };
        let resources = match read_records(buffer, header.res_entries) {
            Ok(v) => v,
            Err(e) => return Err(e),
        };
        Ok(DNSPacket { header, questions, answers, authorities, resources })
    }

    /// The header with its four counts overwritten from the actual section
    /// lengths: what encoding syncs before it serializes.
    pub open spec fn synced_header(self) -> DNSHeader {
        DNSHeader {
            question: self.questions@.len() as u16,
            answer: self.answers@.len() as u16,
            auth_entries: self.authorities@.len() as u16,
            res_entries: self.resources@.len() as u16,
            ..self.header
        }
    }

    /// The packet with its header counts synced: how encoding leaves `self`.
    pub open spec fn synced(self) -> DNSPacket {
        DNSPacket { header: self.synced_header(), ..self }
    }

    /// The exact bytes this packet serializes to: synced header, questions,
    /// then the three record sections in wire order.
    pub open spec fn spec_bytes(self) -> Seq<u8> {
        self.synced_header().spec_bytes() + cat_question_bytes(self.questions@)
            + cat_record_bytes(self.answers@) + cat_record_bytes(self.authorities@)
            + cat_record_bytes(self.resources@)
    }

    /// Every name in every section encodes: each label fits its length field.
    pub open spec fn names_ok(self) -> bool {
        &&& (forall|k: int| 0 <= k < self.questions@.len()
            ==> labels_ok((#[trigger] self.questions@[k]).name@))
        &&& (forall|k: int| 0 <= k < self.answers@.len()
            ==> (#[trigger] self.answers@[k]).names_ok())
        &&& (forall|k: int| 0 <= k < self.authorities@.len()
            ==> (#[trigger] self.authorities@[k]).names_ok())
        &&& (forall|k: int| 0 <= k < self.resources@.len()
            ==> (#[trigger] self.resources@[k]).names_ok())
    }

    /// Encode the packet at the cursor. The header's counts are first
    /// overwritten from the actual section lengths, then the header and each
    /// section go out in wire order.
    pub fn write(&mut self, buffer: &mut BytePacketBuffer) -> (r: Result<(), DnsError>)
        requires
            old(buffer).wf(),
            old(self).questions@.len() <= 0xFFFF,
            old(self).answers@.len() <= 0xFFFF,
            old(self).authorities@.len() <= 0xFFFF,
            old(self).resources@.len() <= 0xFFFF,
        ensures
            final(buffer).wf(),
            *final(self) == old(self).synced(),
            match r {
                Ok(()) => old(self).names_ok()
                    && old(buffer).pos + old(self).spec_bytes().len() <= PACKET_SIZE
                    && final(buffer).buf@ == with_bytes(old(buffer).buf@,
                        old(buffer).pos as int, old(self).spec_bytes())
                    && final(buffer).pos == old(buffer).pos
                        + old(self).spec_bytes().len(),
                Err(e) => (e == DnsError::MalformedName ==> !old(self).names_ok())
                    && (e == DnsError::EndOfBuffer ==>
                        old(buffer).pos + old(self).spec_bytes().len() > PACKET_SIZE)
                    && (e == DnsError::MalformedName || e == DnsError::EndOfBuffer),
            },
    {
        let ghost buf0 = buffer.buf@;
        let ghost pos0 = buffer.pos as int;
        let ghost whole = old(self).spec_bytes();
        self.header.question = self.questions.len() as u16;
        self.header.answer = self.answers.len() as u16;
        self.header.auth_entries = self.authorities.len() as u16;
        self.header.res_entries = self.resources.len() as u16;
        proof {
            assert(*self == old(self).synced());
            assert(self.header == old(self).synced_header());
        }
        match self.header.write(buffer) {
            Ok(()) => {}
            Err(e) => return Err(e),
        }
        match write_questions_section(buffer, &self.questions) {
            Ok(()) => {}
            Err(e) => return Err(e),
        }
        proof {
            assert(buffer.buf@ =~= with_bytes(buf0, pos0,
                self.header.spec_bytes() + cat_question_bytes(self.questions@)));
        }
        match write_records_section(buffer, &self.answers) {
            Ok(()) => {}
            Err(e) => return Err(e),
        }
        proof {
            assert(buffer.buf@ =~= with_bytes(buf0, pos0,
                self.header.spec_bytes() + cat_question_bytes(self.questions@)
                    + cat_record_bytes(self.answers@)));
        }
        match write_records_section(buffer, &self.authorities) {
            Ok(()) => {}
            Err(e) => return Err(e),
        }
        proof {
            assert(buffer.buf@ =~= with_bytes(buf0, pos0,
                self.header.spec_bytes() + cat_question_bytes(self.questions@)
                    + cat_record_bytes(self.answers@)
                    + cat_record_bytes(self.authorities@)));
        }
        match write_records_section(buffer, &self.resources) {
            Ok(()) => {}
            Err(e) => return Err(e),
        }
        proof {
            assert(buffer.buf@ =~= with_bytes(buf0, pos0, whole));
        }
        Ok(())
    }

    /// The first A-record address in the answer section, if any: when several
    /// equally valid answers arrive, any one of them is correct.
    pub fn get_random_a(&self) -> (r: Option<Ipv4>)
        ensures
            r == spec_first_a(self.answers@),
    {
        let n = self.answers.len();
        let mut i: usize = 0;
        proof {
            assert(self.answers@.skip(0) =~= self.answers@);
        }
        while i < n
            invariant
                i <= n,
                n == self.answers@.len(),
                spec_first_a(self.answers@.skip(i as int))
                    == spec_first_a(self.answers@),
            decreases n - i,
        {
            proof {
                assert(self.answers@.skip(i as int)[0] == self.answers@[i as int]);
                assert(self.answers@.skip(i as int).skip(1)
                    =~= self.answers@.skip(i + 1));
            }
            match &self.answers[i] {
                DNSRecord::A { addr, .. } => {
                    return Some(*addr);
                }
                _ => {}
            }
            i = i + 1;
        }
        proof {
            assert(self.answers@.skip(n as int) =~= Seq::<DNSRecord>::empty());
        }
        None
    }

    /// All name servers in the authority section that are authoritative for
    /// the queried name, as (owner name, name-server host) pairs in section
    /// order.
    pub fn get_ns(&self, qname: &Vec<u8>) -> (r: Vec<(Vec<u8>, Vec<u8>)>)
        ensures
            pair_views(r@) == spec_ns_pairs(self.authorities@, qname@),
    {
        let n = self.authorities.len();
        let mut out: Vec<(Vec<u8>, Vec<u8>)> = Vec::new();
        let mut i: usize = 0;
        proof {
            assert(pair_views(out@) =~= Seq::<(Seq<u8>, Seq<u8>)>::empty());
            assert(self.authorities@.skip(0) =~= self.authorities@);
        }
        while i < n
            invariant
                i <= n,
                n == self.authorities@.len(),
                pair_views(out@) + spec_ns_pairs(self.authorities@.skip(i as int),
                    qname@) == spec_ns_pairs(self.authorities@, qname@),
            decreases n - i,
        {
            proof {
                assert(self.authorities@.skip(i as int)[0]
                    == self.authorities@[i as int]);
                assert(self.authorities@.skip(i as int).skip(1)
                    =~= self.authorities@.skip(i + 1));
            }
            let ghost prev = out@;
            match &self.authorities[i] {
                DNSRecord::NS { domain, host, .. } => {
                    if name_ends_with(qname, domain) {
                        let pair = (clone_bytes(domain), clone_bytes(host));
                        out.push(pair);
                        proof {
                            assert(pair_views(out@)
                                =~= pair_views(prev).push((domain@, host@)));
                            assert(pair_views(out@)
                                + spec_ns_pairs(self.authorities@.skip(i + 1), qname@)
                                =~= pair_views(prev) + (seq![(domain@, host@)]
                                    + spec_ns_pairs(self.authorities@.skip(i + 1),
                                        qname@)));
                        }
                    }
                }
                _ => {}
            }
            i = i + 1;
        }
        proof {
            assert(self.authorities@.skip(n as int) =~= Seq::<DNSRecord>::empty());
            assert(pair_views(out@) + Seq::<(Seq<u8>, Seq<u8>)>::empty()
                =~= pair_views(out@));
        }
        out
    }

    /// The address of the first authoritative name server that has a glue A
    /// record in the additional section: servers commonly bundle the address
    /// of a referred-to name server, saving a resolution round trip.
    pub fn get_resolved_ns(&self, qname: &Vec<u8>) -> (r: Option<Ipv4>)
        ensures
            r == spec_resolved_ns(spec_ns_pairs(self.authorities@, qname@),
                self.resources@),
    {
        let pairs = self.get_ns(qname);
        let n = pairs.len();
        let mut i: usize = 0;
        proof {
            assert(pair_views(pairs@).len() == n);
            assert(pair_views(pairs@).skip(0) =~= pair_views(pairs@));
        }
        while i < n
            invariant
                i <= n,
                n == pairs@.len(),
                pair_views(pairs@) == spec_ns_pairs(self.authorities@, qname@),
                spec_resolved_ns(pair_views(pairs@).skip(i as int), self.resources@)
                    == spec_resolved_ns(pair_views(pairs@), self.resources@),
            decreases n - i,
        {
            proof {
                assert(pair_views(pairs@).skip(i as int)[0]
                    == pair_views(pairs@)[i as int]);
                assert(pair_views(pairs@).skip(i as int).skip(1)
                    =~= pair_views(pairs@).skip(i + 1));
            }
            match self.find_a(&pairs[i].1) {
                Some(addr) => {
                    return Some(addr);
                }
                None => {}
            }
            i = i + 1;
        }
        proof {
            assert(pair_views(pairs@).skip(n as int)
                =~= Seq::<(Seq<u8>, Seq<u8>)>::empty());
        }
        None
    }

    /// The host name of the first authoritative name server, glue or not:
    /// what the resolver must go and resolve itself when no glue was bundled.
    pub fn get_unresolved_ns(&self, qname: &Vec<u8>) -> (r: Option<Vec<u8>>)
        ensures
            (match r {
                Some(h) => spec_ns_pairs(self.authorities@, qname@).len() > 0
                    && h@ == spec_ns_pairs(self.authorities@, qname@)[0].1,
                None => spec_ns_pairs(self.authorities@, qname@).len() == 0,
            }),
    {
        let mut pairs = self.get_ns(qname);
        if pairs.len() > 0 {
            let (_, host) = pairs.remove(0);
            Some(host)
        } else {
            None
        }
    }

    /// The first A record in the additional section owned by `host`.
    fn find_a(&self, host: &Vec<u8>) -> (r: Option<Ipv4>)
        ensures
            r == spec_a_for(host@, self.resources@),
    {
        let n = self.resources.len();
        let mut i: usize = 0;
        proof {
            assert(self.resources@.skip(0) =~= self.resources@);
        }
        while i < n
            invariant
                i <= n,
                n == self.resources@.len(),
                spec_a_for(host@, self.resources@.skip(i as int))
                    == spec_a_for(host@, self.resources@),
            decreases n - i,
        {
            proof {
                assert(self.resources@.skip(i as int)[0] == self.resources@[i as int]);
                assert(self.resources@.skip(i as int).skip(1)
                    =~= self.resources@.skip(i + 1));
            }
            match &self.resources[i] {
                DNSRecord::A { domain, addr, .. } => {
                    if bytes_eq(domain, host) {
                        return Some(*addr);
                    }
                }
                _ => {}
            }
            i = i + 1;
        }
        proof {
            assert(self.resources@.skip(n as int) =~= Seq::<DNSRecord>::empty());
        }
        None
    }
}

/// The serialized bytes of a run of questions, in order.
pub open spec fn cat_question_bytes(qs: Seq<DNSQuestion>) -> Seq<u8>
    decreases qs.len(),
{
    if qs.len() == 0 {
        Seq::empty()
    } else {
        qs[0].spec_bytes() + cat_question_bytes(qs.skip(1))
    }
}

/// The serialized bytes of a run of records, in order.
pub open spec fn cat_record_bytes(rs: Seq<DNSRecord>) -> Seq<u8>
    decreases rs.len(),
{
    if rs.len() == 0 {
        Seq::empty()
    } else {
        rs[0].spec_bytes() + cat_record_bytes(rs.skip(1))
    }
}

/// The first A-record address in a record sequence.
pub open spec fn spec_first_a(rs: Seq<DNSRecord>) -> Option<Ipv4>
    decreases rs.len(),
{
    if rs.len() == 0 {
        None
    } else {
        match rs[0] {
            DNSRecord::A { addr, .. } => Some(addr),
            _ => spec_first_a(rs.skip(1)),
        }
    }
}

/// One name is a suffix of another.
pub open spec fn spec_ends_with(q: Seq<u8>, d: Seq<u8>) -> bool {
    d.len() <= q.len() && q.subrange(q.len() - d.len(), q.len() as int) == d
}

/// The (owner, host) pairs of the NS records among `auth` whose owner name is
/// a suffix of `qname`, in section order.
pub open spec fn spec_ns_pairs(auth: Seq<DNSRecord>, qname: Seq<u8>)
    -> Seq<(Seq<u8>, Seq<u8>)>
    decreases auth.len(),
{
    if auth.len() == 0 {
        Seq::empty()
    } else {
        let rest = spec_ns_pairs(auth.skip(1), qname);
        match auth[0] {
            DNSRecord::NS { domain, host, .. } => {
                if spec_ends_with(qname, domain@) {
                    seq![(domain@, host@)] + rest
                } else {
                    rest
                }
            }
            _ => rest,
        }
    }
}

/// The first A record among `res` owned by `host`, if any.
pub open spec fn spec_a_for(host: Seq<u8>, res: Seq<DNSRecord>) -> Option<Ipv4>
    decreases res.len(),
{
    if res.len() == 0 {
        None
    } else {
        match res[0] {
            DNSRecord::A { domain, addr, .. } => {
                if domain@ == host {
                    Some(addr)
                } else {
                    spec_a_for(host, res.skip(1))
                }
            }
            _ => spec_a_for(host, res.skip(1)),
        }
    }
}

/// Glue lookup over the pairs in order: the first pair whose host owns an A
/// record in the additional section gives its address.
pub open spec fn spec_resolved_ns(pairs: Seq<(Seq<u8>, Seq<u8>)>,
    res: Seq<DNSRecord>) -> Option<Ipv4>
    decreases pairs.len(),
{
    if pairs.len() == 0 {
        None
    } else {
        match spec_a_for(pairs[0].1, res) {
            Some(a) => Some(a),
            None => spec_resolved_ns(pairs.skip(1), res),
        }
    }
}

/// The views of a sequence of name pairs.
pub open spec fn pair_views(ps: Seq<(Vec<u8>, Vec<u8>)>) -> Seq<(Seq<u8>, Seq<u8>)> {
    ps.map_values(|p: (Vec<u8>, Vec<u8>)| (p.0@, p.1@))
}

/// Question-run round trip: decoding the concatenated encodings of
/// well-formed questions yields those questions, in order.
pub proof fn lemma_questions_roundtrip(qs: Seq<DNSQuestion>, buf: Seq<u8>, pos: int)
    requires
        buf.len() == PACKET_SIZE,
        forall|k: int| 0 <= k < qs.len() ==> (#[trigger] qs[k]).wf(),
        0 <= pos,
        pos + cat_question_bytes(qs).len() <= PACKET_SIZE,
        buf.subrange(pos, pos + cat_question_bytes(qs).len())
            == cat_question_bytes(qs),
    ensures
        spec_questions_at(buf, pos, qs.len() as int)
            == Some((qviews(qs), pos + cat_question_bytes(qs).len() as int)),
    decreases qs.len(),
{
    let whole = cat_question_bytes(qs);
    if qs.len() == 0 {
        assert(qviews(qs) =~= Seq::<QuestionView>::empty());
    } else {
        let q = qs[0];
        let qb = q.spec_bytes();
        let rest = cat_question_bytes(qs.skip(1));
        assert(whole == qb + rest);
        assert(whole.subrange(0, qb.len() as int) =~= qb);
        crate::buffer::lemma_nested_bytes(buf, pos, whole, 0, qb);
        crate::dnsquestion::lemma_question_roundtrip(q, buf, pos);
        assert(spec_question_at(buf, pos) == Some((q@, pos + qb.len() as int)));
        assert(whole.subrange(qb.len() as int, (qb.len() + rest.len()) as int) =~= rest);
        crate::buffer::lemma_nested_bytes(buf, pos, whole, qb.len() as int, rest);
        assert(forall|k: int| 0 <= k < qs.skip(1).len()
            ==> (#[trigger] qs.skip(1)[k]) == qs[k + 1]);
        lemma_questions_roundtrip(qs.skip(1), buf, pos + qb.len() as int);
        assert(qviews(qs) =~= seq![q@] + qviews(qs.skip(1)));
    }
}

/// Record-run round trip: decoding the concatenated encodings of encodable
/// records yields those records, in order.
pub proof fn lemma_records_roundtrip(rs: Seq<DNSRecord>, buf: Seq<u8>, pos: int)
    requires
        buf.len() == PACKET_SIZE,
        forall|k: int| 0 <= k < rs.len() ==> (#[trigger] rs[k]).encodable(),
        0 <= pos,
        pos + cat_record_bytes(rs).len() <= PACKET_SIZE,
        buf.subrange(pos, pos + cat_record_bytes(rs).len()) == cat_record_bytes(rs),
    ensures
        spec_records_at(buf, pos, rs.len() as int)
            == Some((rviews(rs), pos + cat_record_bytes(rs).len() as int)),
    decreases rs.len(),
{
    let whole = cat_record_bytes(rs);
    if rs.len() == 0 {
        assert(rviews(rs) =~= Seq::<RecView>::empty());
    } else {
        let rec = rs[0];
        let rb = rec.spec_bytes();
        let rest = cat_record_bytes(rs.skip(1));
        assert(whole == rb + rest);
        assert(whole.subrange(0, rb.len() as int) =~= rb);
        crate::buffer::lemma_nested_bytes(buf, pos, whole, 0, rb);
        crate::dnsrecord::lemma_record_roundtrip(rec, buf, pos);
        assert(whole.subrange(rb.len() as int, (rb.len() + rest.len()) as int) =~= rest);
        crate::buffer::lemma_nested_bytes(buf, pos, whole, rb.len() as int, rest);
        assert(forall|k: int| 0 <= k < rs.skip(1).len()
            ==> (#[trigger] rs.skip(1)[k]) == rs[k + 1]);
        lemma_records_roundtrip(rs.skip(1), buf, pos + rb.len() as int);
        assert(rviews(rs) =~= seq![rec@] + rviews(rs.skip(1)));
    }
}

impl DNSPacket {
    /// A packet whose encoding decodes back: a well-formed header, questions
    /// with well-formed names and canonical types, encodable records in all
    /// three record sections, and section lengths that fit the 16-bit counts.
    pub open spec fn encodable(self) -> bool {
        &&& self.header.wf()
        &&& self.questions@.len() <= 0xFFFF
        &&& self.answers@.len() <= 0xFFFF
        &&& self.authorities@.len() <= 0xFFFF
        &&& self.resources@.len() <= 0xFFFF
        &&& (forall|k: int| 0 <= k < self.questions@.len()
            ==> (#[trigger] self.questions@[k]).wf())
        &&& (forall|k: int| 0 <= k < self.answers@.len()
            ==> (#[trigger] self.answers@[k]).encodable())
        &&& (forall|k: int| 0 <= k < self.authorities@.len()
            ==> (#[trigger] self.authorities@[k]).encodable())
        &&& (forall|k: int| 0 <= k < self.resources@.len()
            ==> (#[trigger] self.resources@[k]).encodable())
    }
}

/// Packet round trip: decoding the bytes an encodable packet serializes to
/// yields the packet back, semantically: encoding overwrites the header
/// counts from the section lengths, so what comes back is the packet with its
/// counts synced.
#[verifier::rlimit(100)]
pub proof fn lemma_packet_roundtrip(p: DNSPacket, buf: Seq<u8>, pos: int)
    requires
        p.encodable(),
        buf.len() == PACKET_SIZE,
        0 <= pos,
        pos + p.spec_bytes().len() <= PACKET_SIZE,
        buf.subrange(pos, pos + p.spec_bytes().len()) == p.spec_bytes(),
    ensures
        spec_packet_at(buf, pos) == Some((p.synced()@, pos + p.spec_bytes().len() as int)),
{
    let whole = p.spec_bytes();
    let hb = p.synced_header().spec_bytes();
    let cq = cat_question_bytes(p.questions@);
    let ca = cat_record_bytes(p.answers@);
    let cau = cat_record_bytes(p.authorities@);
    let cr = cat_record_bytes(p.resources@);
    assert(hb.len() == 12);
    assert(whole.subrange(0, 12) =~= hb);
    crate::buffer::lemma_nested_bytes(buf, pos, whole, 0, hb);
    crate::dnsheader::lemma_header_roundtrip(p.synced_header(), buf, pos);
    let h = DNSHeader::spec_at(buf, pos);
    assert(h == p.synced_header());
    assert(h.question as int == p.questions@.len());
    assert(h.answer as int == p.answers@.len());
    assert(h.auth_entries as int == p.authorities@.len());
    assert(h.res_entries as int == p.resources@.len());
    let p1 = pos + 12;
    assert(whole.subrange(12, (12 + cq.len()) as int) =~= cq);
    crate::buffer::lemma_nested_bytes(buf, pos, whole, 12, cq);
    lemma_questions_roundtrip(p.questions@, buf, p1);
    let p2 = p1 + cq.len() as int;
    assert(whole.subrange((12 + cq.len()) as int, (12 + cq.len() + ca.len()) as int) =~= ca);
    crate::buffer::lemma_nested_bytes(buf, pos, whole, (12 + cq.len()) as int, ca);
    lemma_records_roundtrip(p.answers@, buf, p2);
    let p3 = p2 + ca.len() as int;
    assert(whole.subrange((12 + cq.len() + ca.len()) as int,
        (12 + cq.len() + ca.len() + cau.len()) as int) =~= cau);
    crate::buffer::lemma_nested_bytes(buf, pos, whole,
        (12 + cq.len() + ca.len()) as int, cau);
    lemma_records_roundtrip(p.authorities@, buf, p3);
    let p4 = p3 + cau.len() as int;
    assert(whole.subrange((12 + cq.len() + ca.len() + cau.len()) as int,
        (12 + cq.len() + ca.len() + cau.len() + cr.len()) as int) =~= cr);
    crate::buffer::lemma_nested_bytes(buf, pos, whole,
        (12 + cq.len() + ca.len() + cau.len()) as int, cr);
    lemma_records_roundtrip(p.resources@, buf, p4);
}

/// The round trip stated end to end over the codec's own contracts: the
/// buffer `write` leaves behind an encodable packet decodes, from the same
/// position, to exactly that packet with its header counts synced.
pub proof fn lemma_packet_write_then_read(p: DNSPacket, buf0: Seq<u8>, pos: int)
    requires
        p.encodable(),
        buf0.len() == PACKET_SIZE,
        0 <= pos,
        pos + p.spec_bytes().len() <= PACKET_SIZE,
    ensures
        spec_packet_at(with_bytes(buf0, pos, p.spec_bytes()), pos)
            == Some((p.synced()@, pos + p.spec_bytes().len() as int)),
{
    let buf = with_bytes(buf0, pos, p.spec_bytes());
    assert(buf.subrange(pos, pos + p.spec_bytes().len()) =~= p.spec_bytes());
    lemma_packet_roundtrip(p, buf, pos);
}

/// Byte-for-byte equality of two names.
fn bytes_eq(a: &Vec<u8>, b: &Vec<u8>) -> (r: bool)
    ensures
        r == (a@ == b@),
{
    if a.len() != b.len() {
        proof {
            assert(a@ != b@);
        }
        return false;
    }
    let n = a.len();
    let mut i: usize = 0;
    while i < n
        invariant
            i <= n,
            n == a@.len() && n == b@.len(),
            forall|k: int| 0 <= k < i ==> a@[k] == b@[k],
        decreases n - i,
    {
        if a[i] != b[i] {
            return false;
        }
        i = i + 1;
    }
    proof {
        assert(a@ =~= b@);
    }
    true
}

/// Whether `suffix` is a byte suffix of `name`.
#[verifier::loop_isolation(false)]
fn name_ends_with(name: &Vec<u8>, suffix: &Vec<u8>) -> (r: bool)
    ensures
        r == spec_ends_with(name@, suffix@),
{
    if suffix.len() > name.len() {
        return false;
    }
    let off = name.len() - suffix.len();
    let n = suffix.len();
    let mut i: usize = 0;
    while i < n
        invariant
            i <= n,
            n == suffix@.len(),
            off == name@.len() - suffix@.len(),
            forall|k: int| 0 <= k < i ==> name@[off + k] == suffix@[k],
        decreases n - i,
    {
        if name[off + i] != suffix[i] {
            proof {
                assert(name@.subrange(name@.len() - suffix@.len(),
                    name@.len() as int)[i as int] == name@[off + i]);
            }
            return false;
        }
        i = i + 1;
    }
    proof {
        assert(name@.subrange(name@.len() - suffix@.len(), name@.len() as int)
            =~= suffix@);
    }
    true
}

/// Copy a name.
fn clone_bytes(v: &Vec<u8>) -> (r: Vec<u8>)
    ensures
        r@ == v@,
{
    let n = v.len();
    let mut out: Vec<u8> = Vec::new();
    let mut i: usize = 0;
    while i < n
        invariant
            i <= n,
            n == v@.len(),
            out@ == v@.subrange(0, i as int),
        decreases n - i,
    {
        let b = v[i];
        out.push(b);
        i = i + 1;
        proof {
            assert(out@ =~= v@.subrange(0, i as int));
        }
    }
    proof {
        assert(out@ =~= v@);
    }
    out
}

/// Write a run of questions at the cursor, in order.
#[verifier::loop_isolation(false)]
fn write_questions_section(buffer: &mut BytePacketBuffer, qs: &Vec<DNSQuestion>)
    -> (r: Result<(), DnsError>)
    requires
        old(buffer).wf(),
    ensures
        final(buffer).wf(),
        match r {
            Ok(()) => (forall|k: int| 0 <= k < qs@.len()
                    ==> labels_ok((#[trigger] qs@[k]).name@))
                && old(buffer).pos + cat_question_bytes(qs@).len() <= PACKET_SIZE
                && final(buffer).buf@ == with_bytes(old(buffer).buf@,
                    old(buffer).pos as int, cat_question_bytes(qs@))
                && final(buffer).pos == old(buffer).pos
                    + cat_question_bytes(qs@).len(),
            Err(e) => (e == DnsError::MalformedName ==> !(forall|k: int|
                    0 <= k < qs@.len()
                        ==> labels_ok((#[trigger] qs@[k]).name@)))
                && (e == DnsError::EndOfBuffer ==>
                    old(buffer).pos + cat_question_bytes(qs@).len() > PACKET_SIZE)
                && (e == DnsError::MalformedName || e == DnsError::EndOfBuffer),
        },
{
    let ghost buf0 = buffer.buf@;
    let ghost pos0 = buffer.pos as int;
    let ghost mut done: Seq<u8> = Seq::empty();
    let n = qs.len();
    let mut i: usize = 0;
    proof {
        assert(with_bytes(buf0, pos0, done) =~= buf0);
        assert(qs@.skip(0) =~= qs@);
    }
    while i < n
        invariant
            i <= n,
            n == qs@.len(),
            buffer.wf(),
            buffer.pos == pos0 + done.len(),
            buffer.buf@ == with_bytes(buf0, pos0, done),
            cat_question_bytes(qs@) == done + cat_question_bytes(qs@.skip(i as int)),
            forall|k: int| 0 <= k < i ==> labels_ok((#[trigger] qs@[k]).name@),
        decreases n - i,
    {
        proof {
            assert(qs@.skip(i as int)[0] == qs@[i as int]);
            assert(qs@.skip(i as int).skip(1) =~= qs@.skip(i + 1));
        }
        match qs[i].write(buffer) {
            Ok(()) => {}
            Err(e) => {
                proof {
                    assert(cat_question_bytes(qs@).len() >= done.len()
                        + qs@[i as int].spec_bytes().len());
                }
                return Err(e);
            }
        }
        proof {
            done = done + qs@[i as int].spec_bytes();
            assert(buffer.buf@ =~= with_bytes(buf0, pos0, done));
            assert(cat_question_bytes(qs@)
                =~= done + cat_question_bytes(qs@.skip(i + 1)));
        }
        i = i + 1;
    }
    proof {
        assert(qs@.skip(n as int) =~= Seq::<DNSQuestion>::empty());
        assert(cat_question_bytes(qs@) =~= done);
    }
    Ok(())
}

/// Write a run of records at the cursor, in order.
#[verifier::loop_isolation(false)]
fn write_records_section(buffer: &mut BytePacketBuffer, rs: &Vec<DNSRecord>)
    -> (r: Result<(), DnsError>)
    requires
        old(buffer).wf(),
    ensures
        final(buffer).wf(),
        match r {
            Ok(()) => (forall|k: int| 0 <= k < rs@.len()
                    ==> (#[trigger] rs@[k]).names_ok())
                && old(buffer).pos + cat_record_bytes(rs@).len() <= PACKET_SIZE
                && final(buffer).buf@ == with_bytes(old(buffer).buf@,
                    old(buffer).pos as int, cat_record_bytes(rs@))
                && final(buffer).pos == old(buffer).pos + cat_record_bytes(rs@).len(),
            Err(e) => (e == DnsError::MalformedName ==> !(forall|k: int|
                    0 <= k < rs@.len() ==> (#[trigger] rs@[k]).names_ok()))
                && (e == DnsError::EndOfBuffer ==>
                    old(buffer).pos + cat_record_bytes(rs@).len() > PACKET_SIZE)
                && (e == DnsError::MalformedName || e == DnsError::EndOfBuffer),
        },
{
    let ghost buf0 = buffer.buf@;
    let ghost pos0 = buffer.pos as int;
    let ghost mut done: Seq<u8> = Seq::empty();
    let n = rs.len();
    let mut i: usize = 0;
    proof {
        assert(with_bytes(buf0, pos0, done) =~= buf0);
        assert(rs@.skip(0) =~= rs@);
    }
    while i < n
        invariant
            i <= n,
            n == rs@.len(),
            buffer.wf(),
            buffer.pos == pos0 + done.len(),
            buffer.buf@ == with_bytes(buf0, pos0, done),
            cat_record_bytes(rs@) == done + cat_record_bytes(rs@.skip(i as int)),
            forall|k: int| 0 <= k < i ==> (#[trigger] rs@[k]).names_ok(),
        decreases n - i,
    {
        proof {
            assert(rs@.skip(i as int)[0] == rs@[i as int]);
            assert(rs@.skip(i as int).skip(1) =~= rs@.skip(i + 1));
        }
        match rs[i].write(buffer) {
            Ok(()) => {}
            Err(e) => {
                proof {
                    assert(cat_record_bytes(rs@).len() >= done.len()
                        + rs@[i as int].spec_bytes().len());
                }
                return Err(e);
            }
        }
        proof {
            done = done + rs@[i as int].spec_bytes();
            assert(buffer.buf@ =~= with_bytes(buf0, pos0, done));
            assert(cat_record_bytes(rs@)
                =~= done + cat_record_bytes(rs@.skip(i + 1)));
        }
        i = i + 1;
    }
    proof {
        assert(rs@.skip(n as int) =~= Seq::<DNSRecord>::empty());
        assert(cat_record_bytes(rs@) =~= done);
    }
    Ok(())
}

} // verus!
