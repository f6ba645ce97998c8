//! The delegation-following resolution algorithm as a state machine. The
//! library decides; the caller performs each `Query` action over UDP and
//! hands the decoded response back to `resolve_step`. Nested resolution of a
//! glue-less name server is an explicit frame stack instead of recursion, and
//! the stack is capped so a malicious referral chain ends in `Failed` (the
//! caller answers SERVFAIL) rather than unbounded work.

use vstd::prelude::*;
use crate::dnspacket::{DNSPacket, spec_first_a, spec_ns_pairs, spec_resolved_ns};
use crate::dnsrecord::Ipv4;
use crate::querytype::QueryType;
use crate::resultcode::ResultCode;

verus! {

/// Cap on pending nested name-server resolutions.
pub const MAX_DEPTH: usize = 16;

/// One outstanding lookup: what is being asked, which server is being asked,
/// and, when a nested lookup is under way, the referral response to fall back
/// to if that nested lookup yields no address.
pub struct Frame {
    pub qname: Vec<u8>,
    pub qtype: QueryType,
    pub ns: Ipv4,
    pub saved: Option<DNSPacket>,
}

/// The resolver's whole state: a stack of lookups, innermost last.
pub struct Resolver {
    pub frames: Vec<Frame>,
}

/// What the caller must do next: send one query and come back with the
/// response, deliver the finished packet, or give up (depth cap exceeded; the
/// caller answers as it would for any failed resolution).
pub enum ResolveAction {
    Query { server: Ipv4, qname: Vec<u8>, qtype: QueryType },
    Done(DNSPacket),
    Failed,
}

/// The mathematical shape of an action: the query name as a byte sequence.
pub enum ActionView {
    Query { server: Ipv4, qname: Seq<u8>, qtype: QueryType },
    Done(DNSPacket),
    Failed,
}

impl View for ResolveAction {
    type V = ActionView;

    open spec fn view(&self) -> ActionView {
        match self {
            ResolveAction::Query { server, qname, qtype } => (ActionView::Query {
                server: *server,
                qname: qname@,
                qtype: *qtype,
            }),
            ResolveAction::Done(p) => ActionView::Done(*p),
            ResolveAction::Failed => ActionView::Failed,
        }
    }
}

/// The root name server every resolution starts from.
pub open spec fn spec_root_ns() -> Ipv4 {
    Ipv4 { o0: 198, o1: 41, o2: 0, o3: 4 }
}

/// A response that ends the active lookup: a non-empty answer section with no
/// error, or an authoritative NXDOMAIN, whatever else the response carries.
pub open spec fn spec_terminal(p: DNSPacket) -> bool {
    ||| (p.answers@.len() > 0 && p.header.res_code == ResultCode::NOERROR)
    ||| p.header.res_code == ResultCode::NXDOMAIN
}

/// The glue address the active lookup would switch to, if the response
/// bundles one.
pub open spec fn spec_glue(p: DNSPacket, qname: Seq<u8>) -> Option<Ipv4> {
    spec_resolved_ns(spec_ns_pairs(p.authorities@, qname), p.resources@)
}

/// The first authoritative name-server host named by the response, glue or
/// not.
pub open spec fn spec_ns_host(p: DNSPacket, qname: Seq<u8>) -> Option<Seq<u8>> {
    let pairs = spec_ns_pairs(p.authorities@, qname);
    if pairs.len() == 0 {
        None
    } else {
        Some(pairs[0].1)
    }
}

/// How a finished lookup result propagates down the frame stack: with no
/// frames left it is the final answer; otherwise the waiting lookup takes any
/// address out of it and retries, or, with no address, finishes in turn with
/// the referral response it had saved.
pub open spec fn spec_finish(frames: Seq<Frame>, result: DNSPacket)
    -> (Seq<Frame>, ActionView)
    decreases frames.len(),
{
    if frames.len() == 0 {
        (frames, ActionView::Done(result))
    } else {
        let parent = frames.last();
        match spec_first_a(result.answers@) {
            Some(a) => (frames.update(frames.len() - 1, Frame {
                ns: a,
                qname: parent.qname,
                qtype: parent.qtype,
                saved: parent.saved,
            }), ActionView::Query {
                server: a,
                qname: parent.qname@,
                qtype: parent.qtype,
            }),
            None => {
                match parent.saved {
                    Some(saved) => spec_finish(frames.drop_last(), saved),
                    None => spec_finish(frames.drop_last(), result),
                }
            }
        }
    }
}

/// NXDOMAIN short-circuit: a response whose code is NXDOMAIN is terminal for
/// the active lookup whatever else it carries — `resolve_step` then finishes
/// at once instead of following any authority data it may hold.
pub proof fn lemma_nxdomain_is_terminal(p: DNSPacket)
    ensures
        p.header.res_code == ResultCode::NXDOMAIN ==> spec_terminal(p),
{
}

/// The root name server every resolution starts from.
pub fn root_ns() -> (r: Ipv4)
    ensures
        r == spec_root_ns(),
{
    Ipv4 { o0: 198, o1: 41, o2: 0, o3: 4 }
}

/// Copy a name.
fn clone_name(v: &Vec<u8>) -> (r: Vec<u8>)
    ensures
        r@ == v@,
{
    let n = v.len();
    let mut out: Vec<u8> = Vec::new();
    let mut i: usize = 0;
    while i < n
        invariant
            i <= n,
            n == v@.len(),
            out@ == v@.subrange(0, i as int),
        decreases n - i,
    {
        let b = v[i];
        out.push(b);
        i = i + 1;
        proof {
            assert(out@ =~= v@.subrange(0, i as int));
        }
    }
    proof {
        assert(out@ =~= v@);
    }
    out
}

impl Resolver {
    /// Begin resolving `(qname, qtype)`: one frame, aimed at the root server.
    /// The caller performs the returned query.
    pub fn start(qname: Vec<u8>, qtype: QueryType) -> (r: (Resolver, ResolveAction))
        ensures
            r.0.frames@.len() == 1,
            r.0.frames@[0].qname@ == qname@,
            r.0.frames@[0].qtype == qtype,
            r.0.frames@[0].ns == spec_root_ns(),
            r.0.frames@[0].saved is None,
            r.1@ == (ActionView::Query {
                server: spec_root_ns(),
                qname: qname@,
                qtype: qtype,
            }),
    {
        let action_name = clone_name(&qname);
        let frame = Frame { qname, qtype, ns: root_ns(), saved: None };
        let mut frames: Vec<Frame> = Vec::new();
        frames.push(frame);
        (Resolver { frames }, ResolveAction::Query {
            server: root_ns(),
            qname: action_name,
            qtype,
        })
    }

    /// Feed the response to the pending query in and decide the next step:
    /// a terminal response (any non-empty NOERROR answer, or NXDOMAIN, at
    /// once) finishes the active lookup; a referral with glue retargets it; a
    /// referral without glue opens a nested lookup for the name server's own
    /// address, root-up, unless the depth cap is reached; a response with no
    /// usable name server finishes with what the server sent.
    pub fn resolve_step(&mut self, response: DNSPacket) -> (r: ResolveAction)
        requires
            old(self).frames@.len() > 0,
        ensures
            ({
                let fr0 = old(self).frames@;
                let f = fr0.last();
                let terminal = spec_terminal(response);
                let glue = spec_glue(response, f.qname@);
                let host = spec_ns_host(response, f.qname@);
                &&& (terminal ==> (final(self).frames@, r@)
                    == spec_finish(fr0.drop_last(), response))
                &&& (!terminal && glue is Some ==> {
                    &&& final(self).frames@ =~= fr0.update(fr0.len() - 1, Frame {
                        ns: glue->Some_0,
                        qname: f.qname,
                        qtype: f.qtype,
                        saved: f.saved,
                    })
                    &&& r@ == (ActionView::Query {
                        server: glue->Some_0,
                        qname: f.qname@,
                        qtype: f.qtype,
                    })
                })
                &&& (!terminal && glue is None && host is Some
                    && fr0.len() < MAX_DEPTH ==> {
                    &&& final(self).frames@.len() == fr0.len() + 1
                    &&& final(self).frames@[fr0.len() - 1].qname@ == f.qname@
                    &&& final(self).frames@[fr0.len() - 1].qtype == f.qtype
                    &&& final(self).frames@[fr0.len() - 1].ns == f.ns
                    &&& final(self).frames@[fr0.len() - 1].saved == Some(response)
                    &&& final(self).frames@.last().qname@ == host->Some_0
                    &&& final(self).frames@.last().qtype == QueryType::A
                    &&& final(self).frames@.last().ns == spec_root_ns()
                    &&& final(self).frames@.last().saved is None
                    &&& (forall|k: int| 0 <= k < fr0.len() - 1
                        ==> final(self).frames@[k] == fr0[k])
                    &&& r@ == (ActionView::Query {
                        server: spec_root_ns(),
                        qname: host->Some_0,
                        qtype: QueryType::A,
                    })
                })
                &&& (!terminal && glue is None && host is Some
                    && fr0.len() >= MAX_DEPTH ==> {
                    &&& final(self).frames@ == fr0
                    &&& r@ == ActionView::Failed
                })
                &&& (!terminal && glue is None && host is None
                    ==> (final(self).frames@, r@)
                        == spec_finish(fr0.drop_last(), response))
            }),
    {
        let ghost fr0 = self.frames@;
        let n = self.frames.len();
        let terminal = (response.answers.len() > 0
            && response.header.res_code == ResultCode::NOERROR)
            || response.header.res_code == ResultCode::NXDOMAIN;
        if terminal {
            let _ = self.frames.pop();
            proof {
                assert(self.frames@ =~= fr0.drop_last());
            }
            return self.finish(response);
        }
        let glue = {
            let f = &self.frames[n - 1];
            self_glue(&response, &f.qname)
        };
        match glue {
            Some(addr) => {
                let mut f = match self.frames.pop() {
                    Some(v) => v,
                    None => {
                        proof {
                            assert(false);
                        }
                        return ResolveAction::Failed;
                    }
                };
                f.ns = addr;
                let qname = clone_name(&f.qname);
                let qtype = f.qtype;
                self.frames.push(f);
                proof {
                    assert(self.frames@ =~= fr0.update(fr0.len() - 1, Frame {
                        ns: addr,
                        qname: fr0.last().qname,
                        qtype: fr0.last().qtype,
                        saved: fr0.last().saved,
                    }));
                }
                return ResolveAction::Query { server: addr, qname, qtype };
            }
            None => {}
        }
        let host = {
            let f = &self.frames[n - 1];
            response.get_unresolved_ns(&f.qname)
        };
        match host {
            Some(host) => {
                if n >= MAX_DEPTH {
                    return ResolveAction::Failed;
                }
                let mut f = match self.frames.pop() {
                    Some(v) => v,
                    None => {
                        proof {
                            assert(false);
                        }
                        return ResolveAction::Failed;
                    }
                };
                f.saved = Some(response);
                self.frames.push(f);
                let action_name = clone_name(&host);
                self.frames.push(Frame {
                    qname: host,
                    qtype: QueryType::A,
                    ns: root_ns(),
                    saved: None,
                });
                return ResolveAction::Query {
                    server: root_ns(),
                    qname: action_name,
                    qtype: QueryType::A,
                };
            }
            None => {}
        }
        let _ = self.frames.pop();
        proof {
            assert(self.frames@ =~= fr0.drop_last());
        }
        self.finish(response)
    }

    /// Propagate a finished lookup result down the stack, exactly as
    /// `spec_finish` says.
    #[verifier::loop_isolation(false)]
    fn finish(&mut self, result: DNSPacket) -> (r: ResolveAction)
        ensures
            (final(self).frames@, r@) == spec_finish(old(self).frames@, result),
    {
        let mut res = result;
        loop
            invariant
                spec_finish(old(self).frames@, result)
                    == spec_finish(self.frames@, res),
            decreases self.frames@.len(),
        {
            if self.frames.len() == 0 {
                return ResolveAction::Done(res);
            }
            let ghost frpre = self.frames@;
            match res.get_random_a() {
                Some(a) => {
                    let mut parent = match self.frames.pop() {
                        Some(v) => v,
                        None => {
                            proof {
                                assert(false);
                            }
                            return ResolveAction::Failed;
                        }
                    };
                    parent.ns = a;
                    let qname = clone_name(&parent.qname);
                    let qtype = parent.qtype;
                    self.frames.push(parent);
                    proof {
                        assert(self.frames@ =~= frpre.update(frpre.len() - 1, Frame {
                            ns: a,
                            qname: frpre.last().qname,
                            qtype: frpre.last().qtype,
                            saved: frpre.last().saved,
                        }));
                    }
                    return ResolveAction::Query { server: a, qname, qtype };
                }
                None => {
                    let parent = match self.frames.pop() {
                        Some(v) => v,
                        None => {
                            proof {
                                assert(false);
                            }
                            return ResolveAction::Failed;
                        }
                    };
                    proof {
                        assert(self.frames@ =~= frpre.drop_last());
                    }
                    match parent.saved {
                        Some(saved) => {
                            res = saved;
                        }
                        None => {}
                    }
                }
            }
        }
    }
}

/// The glue address of the first authoritative name server in the response
/// that has a matching additional A record.
fn self_glue(response: &DNSPacket, qname: &Vec<u8>) -> (r: Option<Ipv4>)
    ensures
        r == spec_glue(*response, qname@),
{
    response.get_resolved_ns(qname)
}

/// Build the reply to one incoming request: the id is echoed, recursion
/// flags and the response bit are set; a request without a question is
/// refused with FORMERR; a failed resolution answers SERVFAIL; a resolved
/// outcome contributes its response code and all three record sections, and
/// the question is echoed back.
pub fn build_reply(request: &DNSPacket, outcome: Option<DNSPacket>) -> (r: DNSPacket)
    ensures
        r.header.id == request.header.id,
        r.header.recursion_desired,
        r.header.recursion_available,
        r.header.response,
        request.questions@.len() == 0 ==> r.header.res_code == ResultCode::FORMERR
            && r.questions@.len() == 0 && r.answers@.len() == 0
            && r.authorities@.len() == 0 && r.resources@.len() == 0,
        request.questions@.len() > 0 && outcome is None
            ==> r.header.res_code == ResultCode::SERVFAIL
            && r.questions@.len() == 0 && r.answers@.len() == 0
            && r.authorities@.len() == 0 && r.resources@.len() == 0,
        request.questions@.len() > 0 && outcome is Some ==> {
            &&& r.header.res_code == outcome->Some_0.header.res_code
            &&& r.questions@.len() == 1
            &&& r.questions@[0]@ == request.questions@.last()@
            &&& r.answers@ == outcome->Some_0.answers@
            &&& r.authorities@ == outcome->Some_0.authorities@
            &&& r.resources@ == outcome->Some_0.resources@
        },
{
    let mut packet = DNSPacket::new();
    packet.header.id = request.header.id;
    packet.header.recursion_desired = true;
    packet.header.recursion_available = true;
    packet.header.response = true;

    if request.questions.len() == 0 {
        packet.header.res_code = ResultCode::FORMERR;
        return packet;
    }
    match outcome {
        Some(result) => {
            let question = &request.questions[request.questions.len() - 1];
            packet.questions.push(clone_question(question));
            packet.header.res_code = result.header.res_code;
            packet.answers = result.answers;
            packet.authorities = result.authorities;
            packet.resources = result.resources;
        }
        None => {
            packet.header.res_code = ResultCode::SERVFAIL;
        }
    }
    packet
}

/// Copy one question out of the request to echo it in the reply.
fn clone_question(q: &crate::dnsquestion::DNSQuestion)
    -> (r: crate::dnsquestion::DNSQuestion)
    ensures
        r@ == q@,
{
    crate::dnsquestion::DNSQuestion {
        name: clone_name(&q.name),
        query_type: q.query_type,
    }
}

} // verus!
