//! Reassembly of incoming frames from the bytes read off the serial line.

use vstd::prelude::*;
use vstd::arithmetic::div_mod::lemma_fundamental_div_mod;
use crate::frame::{checksum_prefix, frame_body, frame_bytes, le24, spec_checksum, DIR_FROM_DEVICE, DIR_TO_DEVICE, FRAME_START};

verus! {

/// A frame header from the device starts at position `i` of `s`.
pub open spec fn header_at(s: Seq<u8>, i: int) -> bool {
    0 <= i && i + 1 < s.len() && s[i] == FRAME_START && s[i + 1] == DIR_FROM_DEVICE
}

/// `s` after dropping leading bytes, one at a time, until a header from
/// the device stands at its front or fewer than two bytes are left.
pub open spec fn synced(s: Seq<u8>) -> Seq<u8>
    decreases s.len(),
{
    if s.len() < 2 || header_at(s, 0) {
        s
    } else {
        synced(s.drop_first())
    }
}

/// The 24-bit little-endian length field at bytes 2..5.
pub open spec fn length_field(s: Seq<u8>) -> int {
    s[2] as int + s[3] as int * 256 + s[4] as int * 65536
}

/// The frame of length `n` at the front of `t` carries a correct checksum
/// and ends in CR LF.
pub open spec fn frame_checks(t: Seq<u8>, n: int) -> bool {
    &&& spec_checksum(t.take(n - 3)) == t[n - 3]
    &&& t[n - 2] == 0x0D
    &&& t[n - 1] == 0x0A
}

/// Buffers on which one parsing attempt fails on its arithmetic: a complete
/// frame at the front whose length field is below 3, or below 9 while its
/// checksum and trailer are correct.
pub open spec fn parse_panics(s: Seq<u8>) -> bool {
    let t = synced(s);
    let n = length_field(t);
    &&& t.len() >= 5
    &&& n <= t.len()
    &&& (n < 3 || (n < 9 && frame_checks(t, n)))
}

/// One parsing attempt on buffer `s`: the buffer left behind, and the
/// message type and data of the frame taken from its front, if one was.
pub open spec fn parse_step(s: Seq<u8>) -> (Seq<u8>, Option<(u8, Seq<u8>)>) {
    let t = synced(s);
    if t.len() < 5 {
        (t, None)
    } else {
        let n = length_field(t);
        if t.len() < n {
            (t, None)
        } else if !frame_checks(t, n) {
            (t.drop_first(), None)
        } else {
            (t.skip(n), Some((t[5], t.subrange(6, n - 3))))
        }
    }
}

/// Copy of `v[lo..hi]`.
pub fn copy_range(v: &Vec<u8>, lo: usize, hi: usize) -> (r: Vec<u8>)
    requires
        lo <= hi <= v.len(),
    ensures
        r@ == v@.subrange(lo as int, hi as int),
{
    let mut r: Vec<u8> = Vec::new();
    let mut i: usize = lo;
    while i < hi
        invariant
            lo <= i <= hi <= v.len(),
            r@ == v@.subrange(lo as int, i as int),
        decreases hi - i,
    {
        r.push(v[i]);
        proof {
            assert(v@.subrange(lo as int, i + 1) =~= v@.subrange(lo as int, i as int).push(v@[i as int]));
        }
        i = i + 1;
    }
    r
}

/// Drops leading bytes until a header from the device is at the front.
fn sync_front(buf: &mut Vec<u8>)
    ensures
        final(buf)@ == synced(old(buf)@),
{
    loop
        invariant
            synced(buf@) == synced(old(buf)@),
        ensures
            buf@ == synced(old(buf)@),
        decreases buf@.len(),
    {
        if buf.len() < 2 {
            break;
        }
        if buf[0] == FRAME_START && buf[1] == DIR_FROM_DEVICE {
            break;
        }
        let ghost before = buf@;
        buf.remove(0);
        assert(buf@ =~= before.drop_first());
    }
}

/// Buffer of bytes read from the device, not yet taken as frames.
pub struct FrameReader {
    buf: Vec<u8>,
}

impl View for FrameReader {
    type V = Seq<u8>;

    closed spec fn view(&self) -> Seq<u8> {
        self.buf@
    }
}

impl FrameReader {
    /// An empty reader.
    pub fn new() -> (r: FrameReader)
        ensures
            r@ == Seq::<u8>::empty(),
    {
        FrameReader { buf: Vec::with_capacity(2048) }
    }

    /// Appends bytes read from the line.
    pub fn feed(&mut self, chunk: &[u8])
        ensures
            final(self)@ == old(self)@ + chunk@,
    {
        let mut i: usize = 0;
        while i < chunk.len()
            invariant
                i <= chunk.len(),
                self@ == old(self)@ + chunk@.take(i as int),
            decreases chunk.len() - i,
        {
            self.buf.push(chunk[i]);
            proof {
                assert(chunk@.take(i + 1) =~= chunk@.take(i as int).push(chunk@[i as int]));
                assert(old(self)@ + chunk@.take(i + 1) =~= (old(self)@ + chunk@.take(i as int)).push(chunk@[i as int]));
            }
            i = i + 1;
        }
        assert(chunk@.take(chunk.len() as int) =~= chunk@);
    }

    /// The buffered bytes.
    pub fn buffered(&self) -> (r: Vec<u8>)
        ensures
            r@ == self@,
    {
        copy_range(&self.buf, 0, self.buf.len())
    }

    /// Whether the next parsing attempt would meet a length field that the
    /// frame format cannot have (see `parse_panics`).
    pub fn parse_would_panic(&self) -> (r: bool)
        ensures
            r == parse_panics(self@),
    {
        let mut t = copy_range(&self.buf, 0, self.buf.len());
        assert(t@ =~= self@);
        sync_front(&mut t);
        if t.len() < 5 {
            return false;
        }
        let n: usize = (t[2] as usize) + (t[3] as usize) * 256 + (t[4] as usize) * 65536;
        if t.len() < n {
            return false;
        }
        if n < 3 {
            return true;
        }
        if n >= 9 {
            return false;
        }
        let expected = checksum_prefix(t.as_slice(), n - 3);
        expected == t[n - 3] && t[n - 2] == 0x0D && t[n - 1] == 0x0A
    }

    /// One attempt to take a frame from the front of the buffer: first drop
    /// bytes up to a header, then take the frame if it is complete, or drop
    /// the header's first byte if the frame's checksum or trailer is wrong.
    pub fn try_parse(&mut self) -> (r: Option<(u8, Vec<u8>)>)
        requires
            !parse_panics(old(self)@),
        ensures
            final(self)@ == parse_step(old(self)@).0,
            r.deep_view() == parse_step(old(self)@).1,
    {
        sync_front(&mut self.buf);
        if self.buf.len() < 5 {
            return None;
        }
        let length: usize = (self.buf[2] as usize) + (self.buf[3] as usize) * 256
            + (self.buf[4] as usize) * 65536;
        if self.buf.len() < length {
            return None;
        }
        let expected = checksum_prefix(self.buf.as_slice(), length - 3);
        if expected != self.buf[length - 3] {
            self.buf.remove(0);
            return None;
        }
        if self.buf[length - 2] != 0x0D || self.buf[length - 1] != 0x0A {
            self.buf.remove(0);
            return None;
        }
        let msg_type = self.buf[5];
        let data = copy_range(&self.buf, 6, length - 3);
        let rest = copy_range(&self.buf, length, self.buf.len());
        self.buf = rest;
        Some((msg_type, data))
    }

    /// Takes the next frame after `chunk` was read from the line: appends
    /// it, then makes one parsing attempt.
    pub fn read_frame(&mut self, chunk: &[u8]) -> (r: Option<(u8, Vec<u8>)>)
        requires
            !parse_panics(old(self)@ + chunk@),
        ensures
            final(self)@ == parse_step(old(self)@ + chunk@).0,
            r.deep_view() == parse_step(old(self)@ + chunk@).1,
    {
        self.feed(chunk);
        self.try_parse()
    }
}


/// `synced(s)` is `s` with its first `k` bytes dropped, where no header
/// starts before `k`.
pub proof fn lemma_synced_skip(s: Seq<u8>) -> (k: int)
    ensures
        0 <= k <= s.len(),
        synced(s) == s.skip(k),
        forall|i: int| 0 <= i < k ==> !header_at(s, i),
        synced(s).len() >= 2 ==> header_at(synced(s), 0),
    decreases s.len(),
{
    if s.len() < 2 || header_at(s, 0) {
        assert(s.skip(0) =~= s);
        0
    } else {
        let k1 = lemma_synced_skip(s.drop_first());
        assert(s.drop_first().skip(k1) =~= s.skip(k1 + 1));
        assert forall|i: int| 0 <= i < k1 + 1 implies !header_at(s, i) by {
            if i > 0 {
                assert(!header_at(s.drop_first(), i - 1));
            }
        }
        k1 + 1
    }
}

/// Dropping bytes in front of which no header starts leaves the same
/// synchronised buffer.
pub proof fn lemma_synced_skips_garbage(g: Seq<u8>, s: Seq<u8>)
    requires
        forall|i: int| 0 <= i < g.len() ==> !header_at(g + s, i),
        s.len() >= 2,
    ensures
        synced(g + s) == synced(s),
    decreases g.len(),
{
    if g.len() == 0 {
        assert(g + s =~= s);
    } else {
        assert(!header_at(g + s, 0));
        assert((g + s).drop_first() =~= g.drop_first() + s);
        assert forall|i: int| 0 <= i < g.drop_first().len() implies !header_at(g.drop_first() + s, i) by {
            assert(!header_at(g + s, i + 1));
            assert((g + s)[i + 1] == (g.drop_first() + s)[i]);
            assert((g + s)[i + 2] == (g.drop_first() + s)[i + 1]);
        }
        lemma_synced_skips_garbage(g.drop_first(), s);
    }
}

/// The length field reads back the 24-bit value written by `le24`.
pub proof fn lemma_le24_roundtrip(n: nat)
    requires
        n < 16777216,
    ensures
        le24(n)[0] as int + le24(n)[1] as int * 256 + le24(n)[2] as int * 65536 == n,
{
    let a = n % 256;
    let q = n / 256;
    let b = q % 256;
    let c = q / 256;
    lemma_fundamental_div_mod(n as int, 256);
    lemma_fundamental_div_mod(q as int, 256);
    assert(c == n / 65536) by (nonlinear_arith)
        requires
            n == a + 256 * q,
            q == b + 256 * c,
            0 <= a < 256,
            0 <= b < 256,
    ;
    assert(c < 256) by (nonlinear_arith)
        requires
            n < 16777216,
            c == n / 65536,
    ;
}

/// A value read from three bytes is written back by `le24` to the same bytes.
pub proof fn lemma_le24_of_bytes(b0: u8, b1: u8, b2: u8)
    ensures
        le24((b0 as int + b1 as int * 256 + b2 as int * 65536) as nat) == seq![b0, b1, b2],
{
    let n = b0 as int + b1 as int * 256 + b2 as int * 65536;
    assert(n % 256 == b0 as int) by (nonlinear_arith)
        requires
            n == b0 as int + b1 as int * 256 + b2 as int * 65536,
            0 <= b0 < 256,
    ;
    assert(n / 256 == b1 as int + b2 as int * 256) by (nonlinear_arith)
        requires
            n == b0 as int + b1 as int * 256 + b2 as int * 65536,
            0 <= b0 < 256,
    ;
    let q = b1 as int + b2 as int * 256;
    assert(q % 256 == b1 as int) by (nonlinear_arith)
        requires
            q == b1 as int + b2 as int * 256,
            0 <= b1 < 256,
    ;
    assert(n / 65536 == b2 as int) by (nonlinear_arith)
        requires
            n == b0 as int + b1 as int * 256 + b2 as int * 65536,
            0 <= b0 < 256,
            0 <= b1 < 256,
    ;
    assert(le24(n as nat) =~= seq![b0, b1, b2]);
}

/// Facts about a device frame followed by other bytes.
proof fn lemma_frame_layout(m: u8, p: Seq<u8>, rest: Seq<u8>)
    requires
        p.len() + 9 < 16777216,
    ensures
        ({
            let s = frame_bytes(DIR_FROM_DEVICE, m, p) + rest;
            let n = p.len() + 9int;
            &&& header_at(s, 0)
            &&& synced(s) == s
            &&& s.len() >= 5
            &&& length_field(s) == n
            &&& n <= s.len()
            &&& frame_checks(s, n)
            &&& s.skip(n) == rest
            &&& s[5] == m
            &&& s.subrange(6, n - 3) == p
        }),
{
    let s = frame_bytes(DIR_FROM_DEVICE, m, p) + rest;
    let n = p.len() + 9int;
    let body = frame_body(DIR_FROM_DEVICE, m, p);
    lemma_le24_roundtrip(n as nat);
    assert(s[2] == le24(n as nat)[0]);
    assert(s[3] == le24(n as nat)[1]);
    assert(s[4] == le24(n as nat)[2]);
    assert(s.take(n - 3) =~= body);
    assert(s.skip(n) =~= rest);
    assert(s.subrange(6, n - 3) =~= p);
}

/// A complete frame from the device at the front of the buffer is taken
/// whole: its message type and data come out, and the bytes after it stay.
pub proof fn law_parse_takes_frame(m: u8, p: Seq<u8>, rest: Seq<u8>)
    requires
        p.len() + 9 < 16777216,
    ensures
        !parse_panics(frame_bytes(DIR_FROM_DEVICE, m, p) + rest),
        parse_step(frame_bytes(DIR_FROM_DEVICE, m, p) + rest) == (rest, Some((m, p))),
{
    lemma_frame_layout(m, p, rest);
}

/// Bytes before a frame in which no header starts are skipped, and the
/// frame after them is taken as if they had not been there.
pub proof fn law_parse_skips_noise(g: Seq<u8>, m: u8, p: Seq<u8>, rest: Seq<u8>)
    requires
        p.len() + 9 < 16777216,
        forall|i: int| 0 <= i < g.len() ==> !header_at(g + frame_bytes(DIR_FROM_DEVICE, m, p) + rest, i),
    ensures
        !parse_panics(g + frame_bytes(DIR_FROM_DEVICE, m, p) + rest),
        parse_step(g + frame_bytes(DIR_FROM_DEVICE, m, p) + rest) == (rest, Some((m, p))),
{
    let f = frame_bytes(DIR_FROM_DEVICE, m, p) + rest;
    lemma_frame_layout(m, p, rest);
    assert(g + frame_bytes(DIR_FROM_DEVICE, m, p) + rest =~= g + f);
    lemma_synced_skips_garbage(g, f);
}

/// A frame that has only partly arrived is left in the buffer untouched,
/// and nothing is taken.
pub proof fn law_parse_waits_for_rest(m: u8, p: Seq<u8>, k: int)
    requires
        p.len() + 9 < 16777216,
        0 <= k < p.len() + 9,
    ensures
        ({
            let q = frame_bytes(DIR_FROM_DEVICE, m, p).take(k);
            &&& !parse_panics(q)
            &&& parse_step(q) == (q, None::<(u8, Seq<u8>)>)
        }),
{
    let f = frame_bytes(DIR_FROM_DEVICE, m, p);
    let q = f.take(k);
    lemma_frame_layout(m, p, Seq::empty());
    assert(f + Seq::<u8>::empty() =~= f);
    if k >= 2 {
        assert(header_at(q, 0));
    }
    if k >= 5 {
        assert(length_field(q) == length_field(f));
    }
}

/// Every frame taken is a well-formed frame from the device that stood in
/// the buffer: the buffer was some skipped bytes, that frame, and the bytes
/// left behind.
pub proof fn law_parse_sound(s: Seq<u8>)
    requires
        !parse_panics(s),
        parse_step(s).1 is Some,
    ensures
        ({
            let (m, d) = parse_step(s).1.unwrap();
            exists|k: int|
                0 <= k <= s.len() && #[trigger] s.skip(k) == frame_bytes(DIR_FROM_DEVICE, m, d)
                    + parse_step(s).0
        }),
{
    let k = lemma_synced_skip(s);
    let t = synced(s);
    let n = length_field(t);
    let (m, d) = parse_step(s).1.unwrap();
    assert(header_at(t, 0));
    lemma_le24_of_bytes(t[2], t[3], t[4]);
    assert(d.len() + 9 == n);
    let body = frame_body(DIR_FROM_DEVICE, m, d);
    assert(t.take(n - 3) =~= body);
    assert(t =~= frame_bytes(DIR_FROM_DEVICE, m, d) + t.skip(n));
}

/// The buffer left by a parsing attempt is what remains of the old buffer
/// after some bytes were taken from its front: nothing is added or reordered.
pub proof fn law_parse_keeps_suffix(s: Seq<u8>)
    requires
        !parse_panics(s),
    ensures
        exists|k: int| 0 <= k <= s.len() && #[trigger] s.skip(k) == parse_step(s).0,
{
    let k = lemma_synced_skip(s);
    let t = synced(s);
    if t.len() < 5 || t.len() < length_field(t) {
        assert(s.skip(k) == parse_step(s).0);
    } else if !frame_checks(t, length_field(t)) {
        assert(s.skip(k + 1) =~= t.drop_first());
    } else {
        let n = length_field(t);
        assert(s.skip(k + n) =~= t.skip(n));
    }
}


/// The length field of every frame the library builds reads back as the
/// frame's length, and its checksum byte is the checksum of all bytes
/// before it.
pub proof fn law_built_frame_fields(m: u8, p: Seq<u8>)
    requires
        p.len() + 9 < 16777216,
    ensures
        ({
            let f = frame_bytes(DIR_TO_DEVICE, m, p);
            &&& length_field(f) == f.len()
            &&& f[f.len() - 3] == spec_checksum(f.take(f.len() - 3))
        }),
{
    let f = frame_bytes(DIR_TO_DEVICE, m, p);
    let n = p.len() + 9int;
    lemma_le24_roundtrip(n as nat);
    assert(f[2] == le24(n as nat)[0]);
    assert(f[3] == le24(n as nat)[1]);
    assert(f[4] == le24(n as nat)[2]);
    assert(f.take(f.len() - 3) =~= frame_body(DIR_TO_DEVICE, m, p));
}

} // verus!
