//! Fixed-capacity byte buffer with a read/write cursor, the unit every codec
//! works on. Capacity is 512 bytes, the classic DNS UDP datagram limit; any
//! access past the capacity fails with `EndOfBuffer` instead of panicking.

use vstd::prelude::*;

verus! {

/// Failures the codec can report. `EndOfBuffer` is any read, write or seek
/// past the fixed capacity; `MalformedName` is a label length out of range or
/// a compression-pointer chain longer than the jump cap.
#[derive(Clone, Copy, Debug, PartialEq, Eq, Structural)]
pub enum DnsError {
    EndOfBuffer,
    MalformedName,
}

/// Size of the buffer: the non-EDNS DNS datagram limit.
pub const PACKET_SIZE: usize = 512;

pub struct BytePacketBuffer {
    pub buf: Vec<u8>,
    pub pos: usize,
}

impl BytePacketBuffer {
    /// The buffer always holds exactly `PACKET_SIZE` bytes and the cursor
    /// never passes the capacity.
    pub open spec fn wf(&self) -> bool {
        &&& self.buf@.len() == PACKET_SIZE
        &&& self.pos <= PACKET_SIZE
    }

    /// A zeroed buffer with the cursor at the start.
    pub fn new() -> (r: Self)
        ensures
            r.wf(),
            r.pos == 0,
            r.buf@ == Seq::new(PACKET_SIZE as nat, |i: int| 0u8),
    {
        let mut buf: Vec<u8> = Vec::new();
        let mut i: usize = 0;
        while i < PACKET_SIZE
            invariant
                i <= PACKET_SIZE,
                buf@ == Seq::new(i as nat, |j: int| 0u8),
            decreases PACKET_SIZE - i,
        {
            buf.push(0u8);
            i = i + 1;
            proof {
                assert(buf@ =~= Seq::new(i as nat, |j: int| 0u8));
            }
        }
        BytePacketBuffer { buf, pos: 0 }
    }

    /// A buffer loaded with the given bytes: the first `PACKET_SIZE` bytes of
    /// `data` (zero-padded if `data` is shorter), cursor at the start.
    pub fn from_bytes(data: &Vec<u8>) -> (r: Self)
        ensures
            r.wf(),
            r.pos == 0,
            r.buf@ == Seq::new(PACKET_SIZE as nat,
                |i: int| if i < data@.len() { data@[i] } else { 0u8 }),
    {
        let mut buf: Vec<u8> = Vec::new();
        let mut i: usize = 0;
        while i < PACKET_SIZE
            invariant
                i <= PACKET_SIZE,
                buf@ == Seq::new(i as nat,
                    |j: int| if j < data@.len() { data@[j] } else { 0u8 }),
            decreases PACKET_SIZE - i,
        {
            if i < data.len() {
                let b = data[i];
                buf.push(b);
            } else {
                buf.push(0u8);
            }
            i = i + 1;
            proof {
                assert(buf@ =~= Seq::new(i as nat,
                    |j: int| if j < data@.len() { data@[j] } else { 0u8 }));
            }
        }
        BytePacketBuffer { buf, pos: 0 }
    }

    /// Move the cursor to an absolute position.
    pub fn seek(&mut self, pos: usize) -> (r: Result<(), DnsError>)
        requires
            old(self).wf(),
        ensures
            final(self).wf(),
            final(self).buf@ == old(self).buf@,
            match r {
                Ok(()) => pos <= PACKET_SIZE && final(self).pos == pos,
                Err(e) => e == DnsError::EndOfBuffer && pos > PACKET_SIZE
                    && final(self).pos == old(self).pos,
            },
    {
        if pos > PACKET_SIZE {
            return Err(DnsError::EndOfBuffer);
        }
        self.pos = pos;
        Ok(())
    }

    /// Advance the cursor by `n` bytes without reading them.
    pub fn step(&mut self, n: usize) -> (r: Result<(), DnsError>)
        requires
            old(self).wf(),
        ensures
            final(self).wf(),
            final(self).buf@ == old(self).buf@,
            match r {
                Ok(()) => old(self).pos + n <= PACKET_SIZE
                    && final(self).pos == old(self).pos + n,
                Err(e) => e == DnsError::EndOfBuffer
                    && old(self).pos + n > PACKET_SIZE
                    && final(self).pos == old(self).pos,
            },
    {
        if n > PACKET_SIZE - self.pos {
            return Err(DnsError::EndOfBuffer);
        }
        self.pos = self.pos + n;
        Ok(())
    }

    /// Read one byte at an absolute position; the cursor does not move.
    pub fn get(&self, pos: usize) -> (r: Result<u8, DnsError>)
        requires
            self.wf(),
        ensures
            match r {
                Ok(v) => pos < PACKET_SIZE && v == self.buf@[pos as int],
                Err(e) => e == DnsError::EndOfBuffer && pos >= PACKET_SIZE,
            },
    {
        if pos >= PACKET_SIZE {
            return Err(DnsError::EndOfBuffer);
        }
        Ok(self.buf[pos])
    }

    /// Copy out `len` bytes starting at an absolute position; the cursor does
    /// not move.
    pub fn get_range(&self, start: usize, len: usize) -> (r: Result<Vec<u8>, DnsError>)
        requires
            self.wf(),
        ensures
            match r {
                Ok(v) => start + len <= PACKET_SIZE
                    && v@ == self.buf@.subrange(start as int, start + len),
                Err(e) => e == DnsError::EndOfBuffer && start + len > PACKET_SIZE,
            },
    {
        if start > PACKET_SIZE || len > PACKET_SIZE - start {
            return Err(DnsError::EndOfBuffer);
        }
        let mut out: Vec<u8> = Vec::new();
        let mut i: usize = 0;
        while i < len
            invariant
                self.wf(),
                i <= len,
                start + len <= PACKET_SIZE,
                out@ == self.buf@.subrange(start as int, start + i),
            decreases len - i,
        {
            let b = self.buf[start + i];
            out.push(b);
            i = i + 1;
            proof {
                assert(out@ =~= self.buf@.subrange(start as int, start + i));
            }
        }
        Ok(out)
    }

    /// Overwrite one byte at an absolute position; the cursor does not move.
    pub fn set(&mut self, pos: usize, val: u8) -> (r: Result<(), DnsError>)
        requires
            old(self).wf(),
        ensures
            final(self).wf(),
            final(self).pos == old(self).pos,
            match r {
                Ok(()) => pos < PACKET_SIZE
                    && final(self).buf@ == old(self).buf@.update(pos as int, val),
                Err(e) => e == DnsError::EndOfBuffer && pos >= PACKET_SIZE
                    && final(self).buf@ == old(self).buf@,
            },
    {
        if pos >= PACKET_SIZE {
            return Err(DnsError::EndOfBuffer);
        }
        self.buf.set(pos, val);
        Ok(())
    }

    /// Overwrite two bytes at an absolute position with a big-endian value;
    /// the cursor does not move. Used to patch a record's length field.
    pub fn set_u16(&mut self, pos: usize, val: u16) -> (r: Result<(), DnsError>)
        requires
            old(self).wf(),
        ensures
            final(self).wf(),
            final(self).pos == old(self).pos,
            match r {
                Ok(()) => pos + 2 <= PACKET_SIZE
                    && final(self).buf@ == old(self).buf@
                        .update(pos as int, (val / 256) as u8)
                        .update(pos + 1, (val % 256) as u8),
                Err(e) => e == DnsError::EndOfBuffer && pos + 2 > PACKET_SIZE
                    && final(self).buf@ == old(self).buf@,
            },
    {
        if pos >= PACKET_SIZE - 1 {
            return Err(DnsError::EndOfBuffer);
        }
        self.buf.set(pos, (val / 256) as u8);
        self.buf.set(pos + 1, (val % 256) as u8);
        Ok(())
    }

    /// Read the byte under the cursor and advance it.
    pub fn read_u8(&mut self) -> (r: Result<u8, DnsError>)
        requires
            old(self).wf(),
        ensures
            final(self).wf(),
            final(self).buf@ == old(self).buf@,
            match r {
                Ok(v) => old(self).pos < PACKET_SIZE
                    && v == old(self).buf@[old(self).pos as int]
                    && final(self).pos == old(self).pos + 1,
                Err(e) => e == DnsError::EndOfBuffer
                    && old(self).pos >= PACKET_SIZE
                    && final(self).pos == old(self).pos,
            },
    {
        if self.pos >= PACKET_SIZE {
            return Err(DnsError::EndOfBuffer);
        }
        let v = self.buf[self.pos];
        self.pos = self.pos + 1;
        Ok(v)
    }

    /// Read two bytes under the cursor as a big-endian value and advance.
    pub fn read_u16(&mut self) -> (r: Result<u16, DnsError>)
        requires
            old(self).wf(),
        ensures
            final(self).wf(),
            final(self).buf@ == old(self).buf@,
            match r {
                Ok(v) => old(self).pos + 2 <= PACKET_SIZE
                    && v == spec_u16(old(self).buf@, old(self).pos as int)
                    && final(self).pos == old(self).pos + 2,
                Err(e) => e == DnsError::EndOfBuffer
                    && old(self).pos + 2 > PACKET_SIZE
                    && final(self).pos == old(self).pos,
            },
    {
        if self.pos >= PACKET_SIZE - 1 {
            return Err(DnsError::EndOfBuffer);
        }
        let hi = self.buf[self.pos];
        let lo = self.buf[self.pos + 1];
        self.pos = self.pos + 2;
        Ok((hi as u16) * 256 + (lo as u16))
    }

    /// Read four bytes under the cursor as a big-endian value and advance.
    pub fn read_u32(&mut self) -> (r: Result<u32, DnsError>)
        requires
            old(self).wf(),
        ensures
            final(self).wf(),
            final(self).buf@ == old(self).buf@,
            match r {
                Ok(v) => old(self).pos + 4 <= PACKET_SIZE
                    && v == spec_u32(old(self).buf@, old(self).pos as int)
                    && final(self).pos == old(self).pos + 4,
                Err(e) => e == DnsError::EndOfBuffer
                    && old(self).pos + 4 > PACKET_SIZE
                    && final(self).pos == old(self).pos,
            },
    {
        if self.pos > PACKET_SIZE - 4 || self.pos >= PACKET_SIZE {
            return Err(DnsError::EndOfBuffer);
        }
        let b0 = self.buf[self.pos];
        let b1 = self.buf[self.pos + 1];
        let b2 = self.buf[self.pos + 2];
        let b3 = self.buf[self.pos + 3];
        self.pos = self.pos + 4;
        Ok((b0 as u32) * 0x1000000 + (b1 as u32) * 0x10000 + (b2 as u32) * 256
            + (b3 as u32))
    }

    /// Decode a possibly-compressed domain name at the cursor, following
    /// compression pointers as RFC 1035 prescribes, and leave the cursor on
    /// the byte after the name (after the first pointer if the name was
    /// compressed). At most `MAX_JUMPS` pointer jumps are followed, so a
    /// pointer cycle fails with `MalformedName` instead of looping.
    #[verifier::loop_isolation(false)]
    pub fn read_qname(&mut self) -> (r: Result<Vec<u8>, DnsError>)
        requires
            old(self).wf(),
        ensures
            final(self).wf(),
            final(self).buf@ == old(self).buf@,
            match r {
                Ok(name) => spec_qname(old(self).buf@, old(self).pos as int, 0)
                    == Some((name@, final(self).pos as int)),
                Err(e) => spec_qname(old(self).buf@, old(self).pos as int, 0) is None
                    && (e == DnsError::EndOfBuffer || e == DnsError::MalformedName),
            },
    {
        let mut local_pos: usize = self.pos;
        let mut jumps: usize = 0;
        let mut jumped: bool = false;
        let mut resume: usize = 0;
        let mut name: Vec<u8> = Vec::new();
        loop
            invariant
                self.wf(),
                self.buf@ == old(self).buf@,
                local_pos <= PACKET_SIZE,
                jumps <= MAX_JUMPS,
                jumped ==> resume <= PACKET_SIZE,
                ({
                    let cur = spec_qname(self.buf@, local_pos as int, jumps as int);
                    let top = spec_qname(self.buf@, old(self).pos as int, 0);
                    match cur {
                        Some((rest, rp)) => top == Some((name_join(name@, rest),
                            if jumped { resume as int } else { rp })),
                        None => top is None,
                    }
                }),
            decreases MAX_JUMPS - jumps, PACKET_SIZE - local_pos,
        {
            if local_pos >= PACKET_SIZE {
                return Err(DnsError::EndOfBuffer);
            }
            let len = self.buf[local_pos];
            if len == 0 {
                if jumped {
                    self.pos = resume;
                } else {
                    self.pos = local_pos + 1;
                }
                return Ok(name);
            } else if len & 0xC0 == 0xC0 {
                if jumps >= MAX_JUMPS {
                    return Err(DnsError::MalformedName);
                }
                if local_pos + 1 >= PACKET_SIZE {
                    return Err(DnsError::EndOfBuffer);
                }
                let b2 = self.buf[local_pos + 1];
                proof {
                    assert(len & 0x3F < 64) by (bit_vector);
                }
                let offset = ((len & 0x3F) as usize) * 256 + (b2 as usize);
                if offset >= PACKET_SIZE {
                    return Err(DnsError::EndOfBuffer);
                }
                if !jumped {
                    resume = local_pos + 2;
                    jumped = true;
                }
                local_pos = offset;
                jumps = jumps + 1;
            } else if len & 0xC0 != 0 {
                return Err(DnsError::MalformedName);
            } else {
                let llen = len as usize;
                if local_pos + 1 + llen > PACKET_SIZE {
                    return Err(DnsError::EndOfBuffer);
                }
                let ghost prev_name = name@;
                let ghost label = self.buf@.subrange(local_pos + 1,
                    local_pos + 1 + llen as int);
                if name.len() > 0 {
                    name.push(DOT);
                }
                let mut i: usize = 0;
                while i < llen
                    invariant
                        i <= llen,
                        self.wf(),
                        local_pos + 1 + llen <= PACKET_SIZE,
                        name@ == prev_name
                            + (if prev_name.len() > 0 { seq![DOT] }
                               else { Seq::<u8>::empty() })
                            + label.subrange(0, i as int),
                    decreases llen - i,
                {
                    let b = self.buf[local_pos + 1 + i];
                    name.push(b);
                    i = i + 1;
                }
                proof {
                    assert(label.len() == llen && llen > 0);
                    assert(name@ =~= name_join(prev_name, label));
                    match spec_qname(self.buf@, local_pos + 1 + llen as int, jumps as int) {
                        Some((rest2, rp2)) => {
                            lemma_name_join_assoc(prev_name, label, rest2);
                        }
                        None => {}
                    }
                }
                local_pos = local_pos + 1 + llen;
            }
        }
    }

    /// Encode a domain name at the cursor, uncompressed: each dot-separated
    /// label as a length byte plus its raw bytes, then a single zero
    /// terminator. Fails with `MalformedName` if any label is longer than 63
    /// bytes and with `EndOfBuffer` if the encoding does not fit.
    #[verifier::loop_isolation(false)]
    #[verifier::rlimit(60)]
    pub fn write_qname(&mut self, name: &Vec<u8>) -> (r: Result<(), DnsError>)
        requires
            old(self).wf(),
        ensures
            final(self).wf(),
            match r {
                Ok(()) => labels_ok(name@)
                    && old(self).pos + encoded_qname(name@).len() <= PACKET_SIZE
                    && final(self).buf@ == with_bytes(old(self).buf@,
                        old(self).pos as int, encoded_qname(name@))
                    && final(self).pos == old(self).pos + encoded_qname(name@).len(),
                Err(e) => (e == DnsError::MalformedName ==> !labels_ok(name@))
                    && (e == DnsError::EndOfBuffer ==>
                        old(self).pos + encoded_qname(name@).len() > PACKET_SIZE)
                    && (e == DnsError::MalformedName || e == DnsError::EndOfBuffer),
            },
    {
        let ghost buf0 = self.buf@;
        let ghost pos0 = self.pos as int;
        let ghost mut done: Seq<u8> = Seq::empty();
        let total: usize = name.len();
        let mut cur: usize = 0;
        proof {
            assert(name@.skip(0) =~= name@);
            assert(with_bytes(buf0, pos0, done) =~= buf0);
        }
        while cur < total
            invariant
                cur <= total,
                self.wf(),
                self.pos == pos0 + done.len(),
                self.buf@ == with_bytes(buf0, pos0, done),
                encoded_qname(name@) == done + encoded_qname(name@.skip(cur as int)),
                labels_ok(name@) == labels_ok(name@.skip(cur as int)),
            decreases total - cur,
        {
            let ghost rest = name@.skip(cur as int);
            let mut j: usize = cur;
            while j < total && name[j] != DOT
                invariant
                    cur <= j <= total,
                    forall|k: int| cur <= k < j ==> name@[k] != DOT,
                decreases total - j,
            {
                j = j + 1;
            }
            proof {
                assert(forall|k: int| 0 <= k < j - cur
                    ==> rest[k] == name@[cur + k] && name@[cur + k] != DOT);
                lemma_label_end_is(rest, j - cur);
                lemma_enc_step(rest);
            }
            let llen: usize = j - cur;
            if llen > 63 {
                return Err(DnsError::MalformedName);
            }
            match self.write_u8(llen as u8) {
                Ok(()) => {}
                Err(_) => {
                    return Err(DnsError::EndOfBuffer);
                }
            }
            proof {
                done = done.push(llen as u8);
                assert(self.buf@ =~= with_bytes(buf0, pos0, done));
            }
            let ghost done1 = done;
            let mut i: usize = cur;
            while i < j
                invariant
                    cur <= i <= j,
                    self.wf(),
                    self.pos == pos0 + done1.len() + (i - cur),
                    self.buf@ == with_bytes(buf0, pos0,
                        done1 + name@.subrange(cur as int, i as int)),
                decreases j - i,
            {
                let b = name[i];
                match self.write_u8(b) {
                    Ok(()) => {}
                    Err(_) => {
                        proof {
                            assert(encoded_qname(rest).len() >= 1 + llen + 1);
                        }
                        return Err(DnsError::EndOfBuffer);
                    }
                }
                i = i + 1;
                proof {
                    assert(self.buf@ =~= with_bytes(buf0, pos0,
                        done1 + name@.subrange(cur as int, i as int)));
                }
            }
            proof {
                done = done1 + name@.subrange(cur as int, j as int);
                assert(rest.subrange(0, llen as int)
                    =~= name@.subrange(cur as int, j as int));
                if j < total {
                    assert(rest.skip(llen + 1) =~= name@.skip(j + 1));
                    assert(encoded_qname(name@)
                        =~= done + encoded_qname(name@.skip(j + 1)));
                } else {
                    assert(rest =~= name@.subrange(cur as int, j as int));
                    assert(name@.skip(total as int) =~= Seq::<u8>::empty());
                    assert(encoded_qname(Seq::<u8>::empty()) =~= seq![0u8]);
                    assert(encoded_qname(name@)
                        =~= done + encoded_qname(name@.skip(total as int)));
                }
            }
            if j < total {
                cur = j + 1;
            } else {
                cur = total;
            }
        }
        proof {
            assert(name@.skip(total as int) =~= Seq::<u8>::empty());
            assert(encoded_qname(Seq::<u8>::empty()) =~= seq![0u8]);
        }
        match self.write_u8(0) {
            Ok(()) => {}
            Err(_) => {
                return Err(DnsError::EndOfBuffer);
            }
        }
        proof {
            done = done.push(0u8);
            assert(done =~= encoded_qname(name@));
            assert(self.buf@ =~= with_bytes(buf0, pos0, done));
        }
        Ok(())
    }

    /// Write one byte at the cursor and advance it.
    pub fn write_u8(&mut self, val: u8) -> (r: Result<(), DnsError>)
        requires
            old(self).wf(),
        ensures
            final(self).wf(),
            match r {
                Ok(()) => old(self).pos < PACKET_SIZE
                    && final(self).buf@ == old(self).buf@.update(old(self).pos as int, val)
                    && final(self).pos == old(self).pos + 1,
                Err(e) => e == DnsError::EndOfBuffer
                    && old(self).pos >= PACKET_SIZE
                    && final(self).buf@ == old(self).buf@
                    && final(self).pos == old(self).pos,
            },
    {
        if self.pos >= PACKET_SIZE {
            return Err(DnsError::EndOfBuffer);
        }
        self.buf.set(self.pos, val);
        self.pos = self.pos + 1;
        Ok(())
    }

    /// Write two bytes big-endian at the cursor and advance it. Nothing is
    /// written unless both bytes fit.
    pub fn write_u16(&mut self, val: u16) -> (r: Result<(), DnsError>)
        requires
            old(self).wf(),
        ensures
            final(self).wf(),
            match r {
                Ok(()) => old(self).pos + 2 <= PACKET_SIZE
                    && final(self).buf@ == old(self).buf@
                        .update(old(self).pos as int, (val / 256) as u8)
                        .update(old(self).pos + 1, (val % 256) as u8)
                    && final(self).pos == old(self).pos + 2
                    && spec_u16(final(self).buf@, old(self).pos as int) == val,
                Err(e) => e == DnsError::EndOfBuffer
                    && old(self).pos + 2 > PACKET_SIZE
                    && final(self).buf@ == old(self).buf@
                    && final(self).pos == old(self).pos,
            },
    {
        if self.pos >= PACKET_SIZE - 1 {
            return Err(DnsError::EndOfBuffer);
        }
        self.buf.set(self.pos, (val / 256) as u8);
        self.buf.set(self.pos + 1, (val % 256) as u8);
        self.pos = self.pos + 2;
        Ok(())
    }

    /// Write four bytes big-endian at the cursor and advance it. Nothing is
    /// written unless all four bytes fit.
    #[verifier::rlimit(60)]
    pub fn write_u32(&mut self, val: u32) -> (r: Result<(), DnsError>)
        requires
            old(self).wf(),
        ensures
            final(self).wf(),
            match r {
                Ok(()) => old(self).pos + 4 <= PACKET_SIZE
                    && final(self).buf@ == old(self).buf@
                        .update(old(self).pos as int, (val / 0x1000000) as u8)
                        .update(old(self).pos + 1, ((val / 0x10000) % 256) as u8)
                        .update(old(self).pos + 2, ((val / 256) % 256) as u8)
                        .update(old(self).pos + 3, (val % 256) as u8)
                    && final(self).pos == old(self).pos + 4
                    && spec_u32(final(self).buf@, old(self).pos as int) == val,
                Err(e) => e == DnsError::EndOfBuffer
                    && old(self).pos + 4 > PACKET_SIZE
                    && final(self).buf@ == old(self).buf@
                    && final(self).pos == old(self).pos,
            },
    {
        if self.pos > PACKET_SIZE - 4 || self.pos >= PACKET_SIZE {
            return Err(DnsError::EndOfBuffer);
        }
        self.buf.set(self.pos, (val / 0x1000000) as u8);
        self.buf.set(self.pos + 1, ((val / 0x10000) % 256) as u8);
        self.buf.set(self.pos + 2, ((val / 256) % 256) as u8);
        self.buf.set(self.pos + 3, (val % 256) as u8);
        self.pos = self.pos + 4;
        Ok(())
    }
}

/// Cap on compression-pointer jumps while decoding one name, so that a
/// maliciously crafted pointer cycle is rejected instead of looping.
pub const MAX_JUMPS: usize = 5;

/// The byte value of the label separator `.`.
pub const DOT: u8 = 46;

/// Dotted join of two name fragments; an empty fragment dissolves.
pub open spec fn name_join(a: Seq<u8>, b: Seq<u8>) -> Seq<u8> {
    if a.len() == 0 {
        b
    } else if b.len() == 0 {
        a
    } else {
        a + seq![DOT] + b
    }
}

/// Joining is associative as long as the middle fragment is not empty (and a
/// decoded label never is).
pub proof fn lemma_name_join_assoc(a: Seq<u8>, l: Seq<u8>, b: Seq<u8>)
    requires
        l.len() > 0,
    ensures
        name_join(name_join(a, l), b) == name_join(a, name_join(l, b)),
{
    if a.len() == 0 {
    } else if b.len() == 0 {
    } else {
        assert(name_join(name_join(a, l), b) =~= name_join(a, name_join(l, b)));
    }
}

/// What decoding a possibly-compressed domain name at `pos` yields, with
/// `jumps` pointer jumps already taken: the dotted name together with the
/// position at which sequential reading resumes (for a compressed name, the
/// byte after the two-byte pointer). `None` is a malformed name: a label
/// length with exactly one of the two top bits set, more than `MAX_JUMPS`
/// pointer jumps, or any read past the end of the buffer.
pub open spec fn spec_qname(buf: Seq<u8>, pos: int, jumps: int) -> Option<(Seq<u8>, int)>
    decreases MAX_JUMPS - jumps, PACKET_SIZE - pos,
        when 0 <= pos <= PACKET_SIZE && 0 <= jumps <= MAX_JUMPS
{
    if pos >= PACKET_SIZE {
        None
    } else {
        let len = buf[pos];
        if len == 0 {
            Some((Seq::empty(), pos + 1))
        } else if len & 0xC0 == 0xC0 {
            if jumps >= MAX_JUMPS {
                None
            } else if pos + 2 > PACKET_SIZE {
                None
            } else {
                let offset = (len & 0x3F) * 256 + buf[pos + 1];
                if offset >= PACKET_SIZE {
                    None
                } else {
                    match spec_qname(buf, offset as int, jumps + 1) {
                        Some((name, _)) => Some((name, pos + 2)),
                        None => None,
                    }
                }
            }
        } else if len & 0xC0 != 0 {
            None
        } else if pos + 1 + len > PACKET_SIZE {
            None
        } else {
            let label = buf.subrange(pos + 1, pos + 1 + len);
            match spec_qname(buf, pos + 1 + len, jumps) {
                Some((rest, rpos)) => Some((name_join(label, rest), rpos)),
                None => None,
            }
        }
    }
}

/// Index of the first `.` in a name, or the name's length if there is none;
/// the end of the name's first label either way.
pub open spec fn label_end(s: Seq<u8>) -> int
    decreases s.len(),
{
    if s.len() == 0 {
        0
    } else if s[0] == DOT {
        0
    } else {
        let rest = label_end(s.skip(1));
        if 0 <= rest <= s.len() - 1 {
            1 + rest
        } else {
            s.len() as int
        }
    }
}

/// `label_end` indeed points at the first dot (or the end).
pub proof fn lemma_label_end(s: Seq<u8>)
    ensures
        0 <= label_end(s) <= s.len(),
        label_end(s) < s.len() ==> s[label_end(s)] == DOT,
        forall|k: int| 0 <= k < label_end(s) ==> s[k] != DOT,
    decreases s.len(),
{
    if s.len() == 0 {
    } else if s[0] == DOT {
    } else {
        lemma_label_end(s.skip(1));
        assert(forall|k: int| 1 <= k < label_end(s)
            ==> s[k] == s.skip(1)[k - 1] && s.skip(1)[k - 1] != DOT);
    }
}

/// Every dot-separated label of the name fits a six-bit length field.
pub open spec fn labels_ok(s: Seq<u8>) -> bool
    decreases s.len(),
{
    if s.len() == 0 {
        true
    } else {
        let d = label_end(s);
        if !(0 <= d <= s.len()) {
            false
        } else {
            d <= 63 && (d == s.len() || labels_ok(s.skip(d + 1)))
        }
    }
}

/// The uncompressed wire encoding of a name's labels: for each dot-separated
/// label a length byte and the raw bytes, without the closing zero.
pub open spec fn encode_labels(s: Seq<u8>) -> Seq<u8>
    decreases s.len(),
{
    if s.len() == 0 {
        Seq::empty()
    } else {
        let d = label_end(s);
        if !(0 <= d <= s.len()) {
            Seq::empty()
        } else if d == s.len() {
            seq![d as u8] + s
        } else {
            seq![d as u8] + s.subrange(0, d) + encode_labels(s.skip(d + 1))
        }
    }
}

/// The full uncompressed wire encoding of a name: its labels, then the zero
/// terminator.
pub open spec fn encoded_qname(s: Seq<u8>) -> Seq<u8> {
    encode_labels(s) + seq![0u8]
}

/// `label_end` is the unique boundary with no dot before it and a dot (or the
/// end of the name) at it.
pub proof fn lemma_label_end_is(s: Seq<u8>, m: int)
    requires
        0 <= m <= s.len(),
        forall|k: int| 0 <= k < m ==> s[k] != DOT,
        m < s.len() ==> s[m] == DOT,
    ensures
        label_end(s) == m,
    decreases s.len(),
{
    if s.len() == 0 {
    } else if s[0] == DOT {
        assert(m == 0);
    } else {
        assert(m >= 1);
        assert(forall|k: int| 0 <= k < m - 1 ==> s.skip(1)[k] == s[k + 1] && s[k + 1] != DOT);
        lemma_label_end_is(s.skip(1), m - 1);
    }
}

/// One step of the label encoding: the first label's length byte and bytes,
/// then the encoding of what follows the dot (or the bare terminator).
pub proof fn lemma_enc_step(s: Seq<u8>)
    requires
        s.len() > 0,
    ensures
        0 <= label_end(s) <= s.len(),
        label_end(s) == s.len() ==> encoded_qname(s)
            == seq![label_end(s) as u8] + s + seq![0u8],
        label_end(s) < s.len() ==> encoded_qname(s)
            == seq![label_end(s) as u8] + s.subrange(0, label_end(s))
                + encoded_qname(s.skip(label_end(s) + 1)),
        encoded_qname(s).len() >= 2,
{
    lemma_label_end(s);
    let d = label_end(s);
    if d == s.len() {
        assert(encoded_qname(s) =~= seq![d as u8] + s + seq![0u8]);
    } else {
        assert(encoded_qname(s) =~= seq![d as u8] + s.subrange(0, d)
            + encoded_qname(s.skip(d + 1)));
    }
}

/// A well-formed domain name: empty (the root), or dot-separated labels that
/// are each 1 to 63 bytes long, with no leading, trailing or doubled dot.
pub open spec fn wf_name(s: Seq<u8>) -> bool
    decreases s.len(),
{
    if s.len() == 0 {
        true
    } else {
        let d = label_end(s);
        &&& 1 <= d <= 63
        &&& (d == s.len() || (d + 1 < s.len() && wf_name(s.skip(d + 1))))
    }
}

/// Name round trip: decoding an uncompressed encoding of a well-formed name,
/// wherever it sits in a buffer and however many pointer jumps were already
/// spent, yields exactly that name and resumes right after its terminator.
pub proof fn lemma_qname_roundtrip(buf: Seq<u8>, pos: int, s: Seq<u8>, jumps: int)
    requires
        buf.len() == PACKET_SIZE,
        wf_name(s),
        0 <= jumps <= MAX_JUMPS,
        0 <= pos,
        pos + encoded_qname(s).len() <= PACKET_SIZE,
        buf.subrange(pos, pos + encoded_qname(s).len()) == encoded_qname(s),
    ensures
        spec_qname(buf, pos, jumps) == Some((s, pos + encoded_qname(s).len() as int)),
    decreases s.len(),
{
    let enc = encoded_qname(s);
    if s.len() == 0 {
        assert(encode_labels(s) =~= Seq::<u8>::empty());
        assert(enc =~= seq![0u8]);
        assert(buf[pos] == buf.subrange(pos, pos + 1)[0]);
        assert(buf[pos] == 0);
    } else {
        lemma_enc_step(s);
        lemma_label_end(s);
        let d = label_end(s);
        let sub = if d == s.len() { Seq::<u8>::empty() } else { s.skip(d + 1) };
        let enc_rest = encoded_qname(sub);
        if d == s.len() {
            assert(encode_labels(sub) =~= Seq::<u8>::empty());
            assert(enc_rest =~= seq![0u8]);
            assert(enc =~= seq![d as u8] + s.subrange(0, d) + enc_rest);
        } else {
            assert(enc =~= seq![d as u8] + s.subrange(0, d) + enc_rest);
        }
        assert(wf_name(sub));
        let len_byte = buf[pos];
        assert(len_byte == enc[0]) by {
            assert(buf.subrange(pos, pos + enc.len() as int)[0] == buf[pos]);
        }
        assert(len_byte == d as u8);
        assert({
            let x = len_byte;
            x <= 63 ==> (x & 0xC0 == 0)
        }) by (bit_vector);
        assert(len_byte != 0 && len_byte & 0xC0 == 0);
        assert(pos + 1 + d + enc_rest.len() == pos + enc.len());
        assert(len_byte as int == d);
        let label = buf.subrange(pos + 1, pos + 1 + len_byte as int);
        let sect = buf.subrange(pos, pos + enc.len() as int);
        assert forall|k: int| 0 <= k < d implies label[k] == s.subrange(0, d)[k] by {
            assert(label[k] == buf[pos + 1 + k]);
            assert(sect[1 + k] == buf[pos + 1 + k]);
            assert(enc[1 + k] == s.subrange(0, d)[k]);
        }
        assert(label =~= s.subrange(0, d));
        let tailr = buf.subrange(pos + 1 + d, pos + 1 + d + enc_rest.len() as int);
        assert forall|k: int| 0 <= k < enc_rest.len() implies tailr[k] == enc_rest[k] by {
            assert(tailr[k] == buf[pos + 1 + d + k]);
            assert(sect[1 + d + k] == buf[pos + 1 + d + k]);
            assert(enc[1 + d + k] == enc_rest[k]);
        }
        assert(tailr =~= enc_rest);
        lemma_qname_roundtrip(buf, pos + 1 + d, sub, jumps);
        if d == s.len() {
            assert(name_join(label, sub) == s);
        } else {
            assert(s[d] == DOT);
            assert(name_join(label, sub) =~= s);
        }
    }
}

/// A slice of a known byte run is itself known: if `whole` sits at `pos` and
/// `part` is a piece of `whole`, then `part` sits at `pos + off`.
pub proof fn lemma_nested_bytes(buf: Seq<u8>, pos: int, whole: Seq<u8>, off: int,
    part: Seq<u8>)
    requires
        0 <= pos,
        pos + whole.len() <= buf.len(),
        buf.subrange(pos, pos + whole.len()) == whole,
        0 <= off,
        off + part.len() <= whole.len(),
        whole.subrange(off, off + part.len()) == part,
    ensures
        buf.subrange(pos + off, pos + off + part.len()) == part,
{
    assert forall|k: int| 0 <= k < part.len() implies
        buf.subrange(pos + off, pos + off + part.len() as int)[k] == part[k] by {
        assert(buf.subrange(pos, pos + whole.len() as int)[off + k]
            == buf[pos + off + k]);
        assert(whole.subrange(off, off + part.len() as int)[k] == whole[off + k]);
    }
    assert(buf.subrange(pos + off, pos + off + part.len() as int) =~= part);
}

/// One byte of a known byte run is itself known.
pub proof fn lemma_byte_at(buf: Seq<u8>, pos: int, whole: Seq<u8>, j: int)
    requires
        0 <= pos,
        pos + whole.len() <= buf.len(),
        buf.subrange(pos, pos + whole.len()) == whole,
        0 <= j < whole.len(),
    ensures
        buf[pos + j] == whole[j],
{
    assert(buf.subrange(pos, pos + whole.len() as int)[j] == buf[pos + j]);
}

/// A buffer with `bytes` laid over it starting at `pos`.
pub open spec fn with_bytes(buf: Seq<u8>, pos: int, bytes: Seq<u8>) -> Seq<u8> {
    Seq::new(buf.len(), |i: int|
        if pos <= i < pos + bytes.len() { bytes[i - pos] } else { buf[i] })
}

/// The big-endian 16-bit value spelled by two adjacent bytes of a buffer.
pub open spec fn spec_u16(buf: Seq<u8>, pos: int) -> u16 {
    (buf[pos] * 256 + buf[pos + 1]) as u16
}

/// The big-endian 32-bit value spelled by four adjacent bytes of a buffer.
pub open spec fn spec_u32(buf: Seq<u8>, pos: int) -> u32 {
    (buf[pos] * 0x1000000 + buf[pos + 1] * 0x10000 + buf[pos + 2] * 256
        + buf[pos + 3]) as u32
}

} // verus!
