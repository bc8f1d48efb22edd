//! The wire framing one connection speaks: a stream of packets, each a
//! 4-byte little-endian length followed by exactly that many payload
//! bytes. A `PacketReader` accumulates whatever byte chunks the
//! transport hands over and yields a packet only once all of it has
//! arrived; a short read is never mistaken for a complete packet.

use vstd::prelude::*;

verus! {

/// The unsigned little-endian value of a 4-byte header.
pub open spec fn le_u32(b: Seq<u8>) -> int
    recommends
        b.len() == 4,
{
    b[0] + 0x100 * b[1] + 0x10000 * b[2] + 0x1000000 * b[3]
}

/// The 4 little-endian header bytes of a length value.
pub open spec fn le_bytes(l: int) -> Seq<u8>
    recommends
        0 <= l <= u32::MAX,
{
    seq![
        (l % 0x100) as u8,
        ((l / 0x100) % 0x100) as u8,
        ((l / 0x10000) % 0x100) as u8,
        ((l / 0x1000000) % 0x100) as u8,
    ]
}

/// The encoding of one packet: header bytes, then the payload.
pub open spec fn spec_encode(p: Seq<u8>) -> Seq<u8> {
    le_bytes(p.len() as int) + p
}

/// What a buffered byte sequence yields: `None` while no complete
/// packet has arrived, otherwise the first packet's payload and the
/// bytes that remain buffered after it.
pub open spec fn spec_next(s: Seq<u8>) -> Option<(Seq<u8>, Seq<u8>)> {
    if s.len() < 4 {
        None
    } else {
        let l = le_u32(s.take(4));
        if s.len() >= 4 + l {
            Some((s.subrange(4, 4 + l), s.skip(4 + l)))
        } else {
            None
        }
    }
}

proof fn lemma_le_decompose(l: u32)
    ensures
        l % 0x100 + 0x100 * ((l / 0x100) % 0x100) + 0x10000 * ((l / 0x10000) % 0x100)
            + 0x1000000 * ((l / 0x1000000) % 0x100) == l,
        (l / 0x1000000) % 0x100 == l / 0x1000000,
{
    assert(l % 0x100 + 0x100 * ((l / 0x100) % 0x100) + 0x10000 * ((l / 0x10000) % 0x100)
        + 0x1000000 * ((l / 0x1000000) % 0x100) == l) by (bit_vector);
    assert((l / 0x1000000) % 0x100 == l / 0x1000000) by (bit_vector);
}

/// Law: the header bytes of a length decode back to that length.
pub proof fn lemma_le_round_trip(l: int)
    requires
        0 <= l <= u32::MAX,
    ensures
        le_u32(le_bytes(l)) == l,
{
    lemma_le_decompose(l as u32);
}

/// Law (framing round-trip): encoding a payload of any length up to
/// `u32::MAX` and then decoding yields exactly that payload back, with
/// nothing left buffered.
pub proof fn lemma_round_trip(p: Seq<u8>)
    requires
        p.len() <= u32::MAX,
    ensures
        spec_next(spec_encode(p)) == Some((p, Seq::<u8>::empty())),
{
    let e = spec_encode(p);
    let l = p.len() as int;
    assert(e.take(4) =~= le_bytes(l));
    lemma_le_round_trip(l);
    assert(e.subrange(4, 4 + l) =~= p);
    assert(e.skip(4 + l) =~= Seq::<u8>::empty());
}

/// Law (no short read completes): no strict prefix of a packet's
/// encoding yields a packet; until the final byte has arrived the
/// reader reports "not yet complete".
pub proof fn lemma_short_read(p: Seq<u8>, k: int)
    requires
        p.len() <= u32::MAX,
        0 <= k < spec_encode(p).len(),
    ensures
        spec_next(spec_encode(p).take(k)) is None,
{
    let e = spec_encode(p);
    let s = e.take(k);
    if k >= 4 {
        assert(s.take(4) =~= le_bytes(p.len() as int));
        lemma_le_round_trip(p.len() as int);
        assert(s.len() < 4 + p.len());
    }
}

/// Law (reads may arrive in pieces): a stream split at any point and
/// fed as two chunks accumulates to the same buffered bytes as the
/// whole stream fed at once, so packet extraction cannot tell the two
/// apart.
pub proof fn lemma_feed_split(s: Seq<u8>, k: int)
    requires
        0 <= k <= s.len(),
    ensures
        s.take(k) + s.skip(k) == s,
{
    assert(s.take(k) + s.skip(k) =~= s);
}

/// Accumulates the bytes a connection has delivered so far and parses
/// complete packets out of them.
pub struct PacketReader {
    buf: Vec<u8>,
}

impl View for PacketReader {
    type V = Seq<u8>;

    closed spec fn view(&self) -> Seq<u8> {
        self.buf@
    }
}

impl PacketReader {
    /// A reader that has received nothing yet.
    pub fn new() -> (r: PacketReader)
        ensures
            r@ == Seq::<u8>::empty(),
    {
        PacketReader { buf: Vec::new() }
    }

    /// Appends one chunk of received bytes, however short the
    /// underlying read was.
    pub fn feed(&mut self, chunk: &[u8])
        ensures
            final(self)@ == old(self)@ + chunk@,
    {
        let n = chunk.len();
        let mut i: usize = 0;
        while i < n
            invariant
                i <= n,
                n == chunk@.len(),
                self@ == old(self)@ + chunk@.take(i as int),
            decreases n - i,
        {
            self.buf.push(chunk[i]);
            i = i + 1;
            assert(old(self)@ + chunk@.take(i - 1) + seq![chunk@[i - 1]] =~= old(self)@
                + chunk@.take(i as int));
        }
        assert(old(self)@ + chunk@.take(n as int) =~= old(self)@ + chunk@);
    }

    /// Extracts the first complete packet, if all of it has arrived:
    /// exactly the payload that `spec_next` names, leaving exactly the
    /// bytes after it buffered. Returns `None`, changing nothing, while
    /// the buffered bytes still end inside a header or a payload.
    pub fn next_packet(&mut self) -> (r: Option<Vec<u8>>)
        ensures
            match spec_next(old(self)@) {
                None => r is None && final(self)@ == old(self)@,
                Some((payload, rest)) => r is Some && r->Some_0@ == payload && final(self)@
                    == rest,
            },
    {
        if self.buf.len() < 4 {
            return None;
        }
        let b0 = self.buf[0] as u32;
        let b1 = self.buf[1] as u32;
        let b2 = self.buf[2] as u32;
        let b3 = self.buf[3] as u32;
        let l32: u32 = b0 + 0x100 * b1 + 0x10000 * b2 + 0x1000000 * b3;
        assert(l32 == le_u32(self@.take(4)));
        let l = l32 as usize;
        if self.buf.len() - 4 < l {
            return None;
        }
        let buf_len = self.buf.len();
        let mut payload: Vec<u8> = Vec::new();
        let mut i: usize = 0;
        while i < l
            invariant
                i <= l,
                4 + l <= buf_len,
                buf_len == self.buf@.len(),
                payload@ == self.buf@.subrange(4, 4 + i as int),
            decreases l - i,
        {
            payload.push(self.buf[4 + i]);
            i = i + 1;
            assert(self.buf@.subrange(4, 4 + i - 1) + seq![self.buf@[4 + i - 1]]
                =~= self.buf@.subrange(4, 4 + i as int));
        }
        let mut rest: Vec<u8> = Vec::new();
        let mut j: usize = 4 + l;
        while j < self.buf.len()
            invariant
                4 + l <= j <= buf_len,
                buf_len == self.buf@.len(),
                rest@ == self.buf@.subrange(4 + l as int, j as int),
            decreases self.buf@.len() - j,
        {
            rest.push(self.buf[j]);
            j = j + 1;
            assert(self.buf@.subrange(4 + l as int, j - 1) + seq![self.buf@[j - 1]]
                =~= self.buf@.subrange(4 + l as int, j as int));
        }
        assert(rest@ =~= self.buf@.skip(4 + l as int));
        self.buf = rest;
        Some(payload)
    }
}

/// Encodes one packet for the wire: the payload's length as a 4-byte
/// little-endian header, then the payload itself.
pub fn encode_packet(payload: &Vec<u8>) -> (r: Vec<u8>)
    requires
        payload@.len() <= u32::MAX,
    ensures
        r@ == spec_encode(payload@),
{
    let l: u32 = payload.len() as u32;
    let mut r: Vec<u8> = Vec::new();
    r.push((l % 0x100) as u8);
    r.push(((l / 0x100) % 0x100) as u8);
    r.push(((l / 0x10000) % 0x100) as u8);
    r.push(((l / 0x1000000) % 0x100) as u8);
    assert(r@ =~= le_bytes(payload@.len() as int));
    let n = payload.len();
    let mut i: usize = 0;
    while i < n
        invariant
            i <= n,
            n == payload@.len(),
            r@ == le_bytes(payload@.len() as int) + payload@.take(i as int),
        decreases n - i,
    {
        r.push(payload[i]);
        i = i + 1;
        assert(le_bytes(payload@.len() as int) + payload@.take(i - 1) + seq![payload@[i - 1]]
            =~= le_bytes(payload@.len() as int) + payload@.take(i as int));
    }
    assert(le_bytes(payload@.len() as int) + payload@.take(n as int) =~= spec_encode(payload@));
    r
}

} // verus!
