//! How events travel on a TCP stream: each encoded event is cut into frames of
//! `TCP_EVENT_BYTES` bytes, each carrying a flag for the last frame, a length and
//! a payload.
use vstd::prelude::*;

verus! {

/// Size of every frame on the wire: a flag byte, a length byte and a payload area.
pub const TCP_EVENT_BYTES: usize = 255;

/// Size of the payload area of a frame.
pub const FRAME_PAYLOAD: usize = 253;

/// Number of frames that carry `n` bytes.
pub open spec fn frame_count(n: nat) -> nat {
    ((n + 252) / 253) as nat
}

/// Where frame `k` of a message of `n` bytes stops reading.
pub open spec fn frame_end(n: int, k: int) -> int {
    if n - k * 253 > 253 { k * 253 + 253 } else { n }
}

/// Frame `k` of message `b`: the flag (1 on the last frame, else 0), the payload
/// length plus 2, the payload, and zeros up to `TCP_EVENT_BYTES`.
pub open spec fn frame_of(b: Seq<u8>, k: int) -> Seq<u8> {
    let start = k * 253;
    let end = frame_end(b.len() as int, k);
    seq![if end == b.len() { 1u8 } else { 0u8 }, (end - start + 2) as u8]
        + b.subrange(start, end)
        + Seq::new((253 - (end - start)) as nat, |i: int| 0u8)
}

/// The payload a frame carries: the bytes from 2 up to its length byte.
pub open spec fn frame_payload(f: Seq<u8>) -> Seq<u8> {
    f.subrange(2, f[1] as int)
}

/// The payloads of a list of frames, concatenated in order.
pub open spec fn decode_frames(fs: Seq<Seq<u8>>) -> Seq<u8>
    decreases fs.len(),
{
    if fs.len() == 0 {
        Seq::empty()
    } else {
        decode_frames(fs.drop_last()) + frame_payload(fs.last())
    }
}

/// The frames of message `b`, in order.
pub open spec fn frames_of(b: Seq<u8>) -> Seq<Seq<u8>> {
    Seq::new(frame_count(b.len()), |k: int| frame_of(b, k))
}

proof fn lemma_frame_count(n: nat)
    requires
        n > 0,
    ensures
        frame_count(n) >= 1,
        (frame_count(n) - 1) * 253 < n <= frame_count(n) * 253,
{
    vstd::arithmetic::div_mod::lemma_fundamental_div_mod((n + 252) as int, 253);
}

/// Splits a message into frames of `TCP_EVENT_BYTES` bytes.
pub fn byte_vector(bytes: &[u8]) -> (r: Vec<Vec<u8>>)
    requires
        bytes@.len() > 0,
    ensures
        r@.len() == frame_count(bytes@.len()),
        forall|k: int| 0 <= k < r@.len() ==> #[trigger] r@[k]@ == frame_of(bytes@, k),
{
    let n = bytes.len();
    proof { lemma_frame_count(n as nat); }
    let mut buffer: Vec<Vec<u8>> = Vec::new();
    let mut start: usize = 0;
    while start < n
        invariant
            n == bytes@.len(),
            n > 0,
            (frame_count(n as nat) - 1) * 253 < n <= frame_count(n as nat) * 253,
            start <= buffer@.len() * 253,
            start < n ==> start == buffer@.len() * 253,
            buffer@.len() > 0 ==> (buffer@.len() - 1) * 253 < n,
            start <= n,
            forall|k: int| 0 <= k < buffer@.len() ==> #[trigger] buffer@[k]@ == frame_of(bytes@, k),
        decreases n - start,
    {
        let end = if n - start > FRAME_PAYLOAD { start + FRAME_PAYLOAD } else { n };
        let ghost k = buffer@.len() as int;
        assert(end == frame_end(n as int, k));
        let len = end - start;
        let mut buf: Vec<u8> = Vec::new();
        if end == n {
            buf.push(1);
        } else {
            buf.push(0);
        }
        buf.push((len + 2) as u8);
        let mut i = start;
        while i < end
            invariant
                start <= i <= end <= n,
                n == bytes@.len(),
                buf@ =~= seq![if end == n { 1u8 } else { 0u8 }, (len + 2) as u8] + bytes@.subrange(start as int, i as int),
            decreases end - i,
        {
            buf.push(bytes[i]);
            i = i + 1;
        }
        let mut pad: usize = 0;
        while pad < FRAME_PAYLOAD - len
            invariant
                len <= FRAME_PAYLOAD,
                pad <= FRAME_PAYLOAD - len,
                buf@ =~= seq![if end == n { 1u8 } else { 0u8 }, (len + 2) as u8] + bytes@.subrange(start as int, end as int)
                    + Seq::new(pad as nat, |j: int| 0u8),
            decreases FRAME_PAYLOAD - len - pad,
        {
            buf.push(0);
            pad = pad + 1;
        }
        proof {
            let f = frame_of(bytes@, k);
            let head = seq![if end == n { 1u8 } else { 0u8 }, (len + 2) as u8];
            assert(head =~= seq![if frame_end(n as int, k) == n { 1u8 } else { 0u8 }, (frame_end(n as int, k) - k * 253 + 2) as u8]);
            assert(Seq::new(pad as nat, |j: int| 0u8) =~= Seq::new((253 - (frame_end(n as int, k) - k * 253)) as nat, |i: int| 0u8));
            assert(buf@ =~= f);
        }
        buffer.push(buf);
        start = end;
    }
    proof {
        let k = buffer@.len();
        assert(k == frame_count(n as nat)) by (nonlinear_arith)
            requires
                (frame_count(n as nat) - 1) * 253 < n <= frame_count(n as nat) * 253,
                n <= k * 253,
                k > 0 ==> (k - 1) * 253 < n;
    }
    buffer
}

/// Appends the payload of one received frame to `buffer`; answers whether the
/// frame is the last of its message.
pub fn read_frame(buffer: &mut Vec<u8>, frame: &[u8]) -> (completed: bool)
    requires
        frame@.len() == TCP_EVENT_BYTES,
        2 <= frame@[1],
    ensures
        final(buffer)@ == old(buffer)@ + frame_payload(frame@),
        completed == (frame@[0] == 1),
{
    let completed = frame[0] == 1;
    let end = frame[1] as usize;
    let mut i: usize = 2;
    while i < end
        invariant
            frame@.len() == TCP_EVENT_BYTES,
            2 <= end <= frame@.len(),
            end == frame@[1],
            2 <= i <= end,
            buffer@ =~= old(buffer)@ + frame@.subrange(2, i as int),
        decreases end - i,
    {
        buffer.push(frame[i]);
        i = i + 1;
    }
    completed
}

proof fn lemma_payload_of_frame(b: Seq<u8>, k: int)
    requires
        b.len() > 0,
        0 <= k,
        k * 253 < b.len(),
    ensures
        frame_of(b, k).len() == TCP_EVENT_BYTES,
        2 <= frame_of(b, k)[1],
        frame_of(b, k)[1] == frame_end(b.len() as int, k) - k * 253 + 2,
        frame_payload(frame_of(b, k)) == b.subrange(k * 253, frame_end(b.len() as int, k)),
        frame_of(b, k)[0] == (if frame_end(b.len() as int, k) == b.len() { 1u8 } else { 0u8 }),
{
    let f = frame_of(b, k);
    let end = frame_end(b.len() as int, k);
    assert(f[1] == (end - k * 253 + 2) as u8);
    assert(frame_payload(f) =~= b.subrange(k * 253, end));
}

proof fn lemma_decode_prefix(b: Seq<u8>, j: int)
    requires
        b.len() > 0,
        0 <= j <= frame_count(b.len()),
    ensures
        decode_frames(frames_of(b).take(j)) == b.subrange(0, if j * 253 < b.len() { j * 253 } else { b.len() as int }),
    decreases j,
{
    lemma_frame_count(b.len());
    if j == 0 {
        assert(frames_of(b).take(0) =~= Seq::<Seq<u8>>::empty());
        assert(b.subrange(0, 0) =~= Seq::<u8>::empty());
    } else {
        lemma_decode_prefix(b, j - 1);
        let fs = frames_of(b).take(j);
        assert(fs.drop_last() =~= frames_of(b).take(j - 1));
        assert((j - 1) * 253 < b.len()) by (nonlinear_arith)
            requires
                j <= frame_count(b.len()),
                (frame_count(b.len()) - 1) * 253 < b.len();
        lemma_payload_of_frame(b, j - 1);
        assert(fs.last() == frame_of(b, j - 1));
        let end = frame_end(b.len() as int, j - 1);
        assert(end == if j * 253 < b.len() { j * 253 } else { b.len() as int });
        assert(b.subrange(0, (j - 1) * 253) + b.subrange((j - 1) * 253, end) =~= b.subrange(0, end));
    }
}

/// Reading the frames of a non-empty message in order gives the message back;
/// every frame is one the reader accepts, and only the last is flagged as last.
pub proof fn lemma_frames_roundtrip(b: Seq<u8>)
    requires
        b.len() > 0,
    ensures
        frame_count(b.len()) >= 1,
        decode_frames(frames_of(b)) == b,
        forall|k: int| 0 <= k < frame_count(b.len()) ==> (#[trigger] frame_of(b, k)).len() == TCP_EVENT_BYTES
            && 2 <= frame_of(b, k)[1],
        forall|k: int| 0 <= k < frame_count(b.len()) - 1 ==> (#[trigger] frame_of(b, k))[0] == 0,
        frame_of(b, frame_count(b.len()) - 1)[0] == 1,
{
    lemma_frame_count(b.len());
    let c = frame_count(b.len()) as int;
    lemma_decode_prefix(b, c);
    assert(frames_of(b).take(c) =~= frames_of(b));
    assert(b.subrange(0, b.len() as int) =~= b);
    assert forall|k: int| 0 <= k < c implies (#[trigger] frame_of(b, k)).len() == TCP_EVENT_BYTES
        && 2 <= frame_of(b, k)[1] by {
        assert(k * 253 < b.len()) by (nonlinear_arith)
            requires k < c, (c - 1) * 253 < b.len();
        lemma_payload_of_frame(b, k);
    }
    assert forall|k: int| 0 <= k < c - 1 implies (#[trigger] frame_of(b, k))[0] == 0 by {
        assert(k * 253 + 253 < b.len()) by (nonlinear_arith)
            requires k < c - 1, (c - 1) * 253 < b.len();
        lemma_payload_of_frame(b, k);
    }
    lemma_payload_of_frame(b, c - 1);
    assert(b.len() - (c - 1) * 253 <= 253) by (nonlinear_arith)
        requires b.len() <= c * 253;
}

} // verus!
