//! Facts about the decoder over whole byte streams.
use vstd::prelude::*;
use crate::scan::{ScanResult, LENGTH_SIZE, scan_spec, first_match, matches_at, le_u16, lemma_first_match_found};
use crate::record::{TargetData, FrameError, ANGLE_BIAS, RECORD_SIZE, decode_spec, direction_code, record_spec, field_at, bad_direction, record_count};
use crate::radar::{ingest_spec, ingest_step, keep_last, records_of};

verus! {

/// The offsets a scan reports lie within the buffer, in order, and a consumed
/// frame spans at least its header, length field and footer.
pub proof fn lemma_scan_bounds(buf: Seq<u8>, header: Seq<u8>, footer: Seq<u8>)
    requires
        buf.len() <= usize::MAX,
    ensures
        match scan_spec(buf, header, footer) {
            ScanResult::FooterMismatch { consumed } => {
                &&& header.len() + LENGTH_SIZE + footer.len() <= consumed <= buf.len()
            },
            ScanResult::Complete { payload_start, payload_end, consumed } => {
                &&& header.len() + LENGTH_SIZE <= payload_start <= payload_end
                &&& payload_end + footer.len() == consumed
                &&& consumed <= buf.len()
            },
            _ => true,
        },
{
    match first_match(buf, header, 0) {
        Some(h) => lemma_first_match_found(buf, header, 0, h),
        None => {},
    }
}


/// The two little-endian bytes of a payload length.
pub open spec fn le_bytes(n: int) -> Seq<u8> {
    seq![(n % 256) as u8, (n / 256) as u8]
}

/// A whole frame around `payload`.
pub open spec fn frame_of(header: Seq<u8>, footer: Seq<u8>, payload: Seq<u8>) -> Seq<u8> {
    header + le_bytes(payload.len() as int) + payload + footer
}

/// The five bytes that encode one record.
pub open spec fn record_bytes(t: TargetData) -> Seq<u8> {
    seq![(t.angle + ANGLE_BIAS) as u8, t.distance, direction_code(t.direction), t.speed, t.snr]
}

/// The records, encoded one after another.
pub open spec fn encode_records(recs: Seq<TargetData>) -> Seq<u8> {
    Seq::new((RECORD_SIZE * recs.len()) as nat, |i: int| record_bytes(recs[i / RECORD_SIZE as int])[i % RECORD_SIZE as int])
}

/// A payload with the given count byte, status byte and records.
pub open spec fn payload_of(count: u8, status: u8, recs: Seq<TargetData>) -> Seq<u8> {
    seq![count, status] + encode_records(recs)
}

/// Successive calls, one per chunk, starting from buffer `buf`: the buffer
/// left at the end and all records returned, in order.
pub open spec fn feed(buf: Seq<u8>, chunks: Seq<Seq<u8>>, header: Seq<u8>, footer: Seq<u8>) -> (Seq<u8>, Seq<TargetData>)
    decreases chunks.len(),
{
    if chunks.len() == 0 {
        (buf, Seq::empty())
    } else {
        let (b1, r1) = ingest_step(buf, chunks[0], header, footer);
        let (b2, r2) = feed(b1, chunks.drop_first(), header, footer);
        (b2, r1 + r2)
    }
}

proof fn lemma_first_match_at(buf: Seq<u8>, pat: Seq<u8>, from: int, p: int)
    requires
        0 <= from <= p,
        matches_at(buf, pat, p),
        forall|i: int| from <= i < p ==> !matches_at(buf, pat, i),
    ensures
        first_match(buf, pat, from) == Some(p),
    decreases p - from,
{
    if from < p {
        lemma_first_match_at(buf, pat, from + 1, p);
    }
}

proof fn lemma_first_match_absent(buf: Seq<u8>, pat: Seq<u8>, from: int)
    requires
        0 <= from,
        forall|i: int| from <= i ==> !matches_at(buf, pat, i),
    ensures
        first_match(buf, pat, from) == None::<int>,
    decreases buf.len() + 1 - from,
{
    if from + pat.len() <= buf.len() {
        lemma_first_match_absent(buf, pat, from + 1);
    }
}

proof fn lemma_le_bytes(n: int)
    requires
        0 <= n < 65536,
    ensures
        le_u16(le_bytes(n)[0], le_bytes(n)[1]) == n,
{
}

/// A whole frame behind bytes in which no header starts is consumed through
/// its footer, and yields what its payload decodes to.
proof fn lemma_frame_at(pre: Seq<u8>, header: Seq<u8>, footer: Seq<u8>, payload: Seq<u8>, rest: Seq<u8>)
    requires
        header.len() > 0,
        payload.len() < 65536,
        (pre + frame_of(header, footer, payload) + rest).len() <= usize::MAX,
        forall|i: int| 0 <= i < pre.len() ==> !matches_at(pre + frame_of(header, footer, payload) + rest, header, i),
    ensures
        ingest_spec(pre + frame_of(header, footer, payload) + rest, header, footer)
            == (rest, records_of(decode_spec(payload))),
{
    let buf = pre + frame_of(header, footer, payload) + rest;
    let p = pre.len() as int;
    let hl = header.len() as int;
    let len_at = p + hl;
    let start = len_at + 2;
    let end = start + payload.len();
    let footer_end = end + footer.len();
    assert(buf.subrange(p, p + hl) =~= header);
    lemma_first_match_at(buf, header, 0, p);
    lemma_le_bytes(payload.len() as int);
    assert(buf[len_at] == le_bytes(payload.len() as int)[0]);
    assert(buf[len_at + 1] == le_bytes(payload.len() as int)[1]);
    assert(buf.subrange(end, footer_end) =~= footer);
    assert(buf.subrange(start, end) =~= payload);
    assert(buf.subrange(footer_end, buf.len() as int) =~= rest);
}

/// A frame that has only partly arrived behind bytes in which no header starts
/// waits for more, or, while its header is not yet whole, is cut to the bytes
/// that may begin a header.
proof fn lemma_frame_prefix(pre: Seq<u8>, header: Seq<u8>, footer: Seq<u8>, payload: Seq<u8>, m: int)
    requires
        header.len() > 0,
        payload.len() < 65536,
        0 <= m < frame_of(header, footer, payload).len(),
        (pre + frame_of(header, footer, payload).take(m)).len() <= usize::MAX,
        forall|i: int| 0 <= i < pre.len() ==> !matches_at(pre + frame_of(header, footer, payload).take(m), header, i),
    ensures
        ({
            let buf = pre + frame_of(header, footer, payload).take(m);
            ingest_spec(buf, header, footer) == if m < header.len() {
                (keep_last(buf, header.len() - 1), Seq::<TargetData>::empty())
            } else {
                (buf, Seq::<TargetData>::empty())
            }
        }),
{
    let frame = frame_of(header, footer, payload);
    let buf = pre + frame.take(m);
    let p = pre.len() as int;
    let hl = header.len() as int;
    if m < hl {
        lemma_first_match_absent(buf, header, 0);
    } else {
        assert(buf.subrange(p, p + hl) =~= header);
        lemma_first_match_at(buf, header, 0, p);
        if buf.len() >= p + hl + 2 {
            lemma_le_bytes(payload.len() as int);
            assert(buf[p + hl] == le_bytes(payload.len() as int)[0]);
            assert(buf[p + hl + 1] == le_bytes(payload.len() as int)[1]);
        }
    }
}

/// The positions of a window of `s` whose counterpart in `s` lies before `g`
/// hold no header when none starts before `g` in `s`.
proof fn lemma_window_no_match(s: Seq<u8>, header: Seq<u8>, from: int, to: int, g: int)
    requires
        0 <= from <= to <= s.len(),
        forall|i: int| 0 <= i < g ==> !matches_at(s, header, i),
    ensures
        forall|i: int| 0 <= i && from + i < g ==> !matches_at(s.subrange(from, to), header, i),
{
    let w = s.subrange(from, to);
    assert forall|i: int| 0 <= i && from + i < g implies !matches_at(w, header, i) by {
        if matches_at(w, header, i) {
            assert(w.subrange(i, i + header.len()) =~= s.subrange(from + i, from + i + header.len()));
            assert(matches_at(s, header, from + i));
        }
    }
}

/// Chunks that hold no bytes change nothing and return nothing.
proof fn lemma_feed_nothing(buf: Seq<u8>, chunks: Seq<Seq<u8>>, header: Seq<u8>, footer: Seq<u8>)
    requires
        chunks.flatten().len() == 0,
    ensures
        feed(buf, chunks, header, footer) == (buf, Seq::<TargetData>::empty()),
    decreases chunks.len(),
{
    if chunks.len() > 0 {
        assert(chunks.flatten() == chunks[0] + chunks.drop_first().flatten());
        lemma_feed_nothing(buf, chunks.drop_first(), header, footer);
        assert(Seq::<TargetData>::empty() + Seq::<TargetData>::empty() =~= Seq::<TargetData>::empty());
    }
}

/// Feeding the rest of a stream made of bytes `g` in which no header starts,
/// then one frame, from a buffer that holds bytes `from..to` of it.
proof fn lemma_feed_stream(
    g: Seq<u8>,
    header: Seq<u8>,
    footer: Seq<u8>,
    payload: Seq<u8>,
    chunks: Seq<Seq<u8>>,
    from: int,
    to: int,
)
    requires
        header.len() > 0,
        payload.len() < 65536,
        (g + frame_of(header, footer, payload)).len() <= usize::MAX,
        forall|i: int| 0 <= i < g.len() ==> !matches_at(g + frame_of(header, footer, payload), header, i),
        0 <= from <= g.len(),
        from <= to < (g + frame_of(header, footer, payload)).len(),
        chunks.flatten() == (g + frame_of(header, footer, payload)).subrange(to, (g + frame_of(header, footer, payload)).len() as int),
    ensures
        feed((g + frame_of(header, footer, payload)).subrange(from, to), chunks, header, footer)
            == (Seq::<u8>::empty(), records_of(decode_spec(payload))),
    decreases chunks.len(),
{
    let frame = frame_of(header, footer, payload);
    let s = g + frame;
    let n = s.len() as int;
    let gl = g.len() as int;
    let hl = header.len() as int;
    let buf = s.subrange(from, to);
    assert(chunks.len() > 0) by {
        if chunks.len() == 0 {
            assert(chunks.flatten().len() == 0);
        }
    }
    let c = chunks[0];
    let tail = chunks.drop_first();
    assert(chunks.flatten() == c + tail.flatten());
    let to2 = to + c.len();
    assert(c =~= s.subrange(to, to2)) by {
        assert forall|j: int| 0 <= j < c.len() implies c[j] == s.subrange(to, to2)[j] by {
            assert((c + tail.flatten())[j] == c[j]);
        }
    }
    assert(tail.flatten() =~= s.subrange(to2, n)) by {
        assert forall|j: int| 0 <= j < tail.flatten().len() implies tail.flatten()[j] == s.subrange(to2, n)[j] by {
            assert((c + tail.flatten())[c.len() + j] == tail.flatten()[j]);
        }
    }
    if c.len() == 0 {
        assert(tail.len() < chunks.len());
        lemma_feed_stream(g, header, footer, payload, tail, from, to);
        assert(Seq::<TargetData>::empty() + records_of(decode_spec(payload)) =~= records_of(decode_spec(payload)));
    } else {
        let buf2 = s.subrange(from, to2);
        assert(buf + c =~= buf2);
        let cut = if to2 < gl { to2 } else { gl };
        let pre = s.subrange(from, cut);
        let m = to2 - cut;
        lemma_window_no_match(s, header, from, to2, gl);
        if to2 == n {
            assert(buf2 =~= pre + frame + Seq::<u8>::empty());
            lemma_frame_at(pre, header, footer, payload, Seq::<u8>::empty());
            lemma_feed_nothing(Seq::<u8>::empty(), tail, header, footer);
            assert(records_of(decode_spec(payload)) + Seq::<TargetData>::empty() =~= records_of(decode_spec(payload)));
        } else {
            assert(buf2 =~= pre + frame.take(m));
            lemma_frame_prefix(pre, header, footer, payload, m);
            if m < hl {
                let from2 = if buf2.len() > hl - 1 { to2 - (hl - 1) } else { from };
                assert(keep_last(buf2, hl - 1) =~= s.subrange(from2, to2));
                lemma_feed_stream(g, header, footer, payload, tail, from2, to2);
            } else {
                lemma_feed_stream(g, header, footer, payload, tail, from, to2);
            }
            assert(Seq::<TargetData>::empty() + records_of(decode_spec(payload)) =~= records_of(decode_spec(payload)));
        }
    }
}


/// Each byte of an encoded record list is the matching byte of its record.
proof fn lemma_encoded_field(recs: Seq<TargetData>, k: int, j: int)
    requires
        0 <= k < recs.len(),
        0 <= j < 5,
    ensures
        encode_records(recs)[5 * k + j] == record_bytes(recs[k])[j],
{
    vstd::arithmetic::div_mod::lemma_fundamental_div_mod_converse(5 * k + j, 5, k, j);
    assert(5 * k + j < 5 * recs.len()) by (nonlinear_arith)
        requires
            0 <= k < recs.len(),
            0 <= j < 5,
    ;
}

/// Records encoded behind a matching count decode to themselves, in order.
pub proof fn lemma_decode_encoded(status: u8, recs: Seq<TargetData>)
    requires
        recs.len() <= 255,
    ensures
        decode_spec(payload_of(recs.len() as u8, status, recs)) == Ok::<Seq<TargetData>, FrameError>(recs),
{
    let p = payload_of(recs.len() as u8, status, recs);
    let n = recs.len() as int;
    assert(p.len() == 2 + 5 * n);
    vstd::arithmetic::div_mod::lemma_fundamental_div_mod_converse(5 * n, 5, n, 0);
    assert(record_count(p) == n);
    assert forall|k: int| 0 <= k < n implies !#[trigger] bad_direction(p, k) && record_spec(p, k) == recs[k] by {
        lemma_encoded_field(recs, k, 0);
        lemma_encoded_field(recs, k, 1);
        lemma_encoded_field(recs, k, 2);
        lemma_encoded_field(recs, k, 3);
        lemma_encoded_field(recs, k, 4);
        assert(p[field_at(k, 0)] == encode_records(recs)[5 * k + 0]);
        assert(p[field_at(k, 1)] == encode_records(recs)[5 * k + 1]);
        assert(p[field_at(k, 2)] == encode_records(recs)[5 * k + 2]);
        assert(p[field_at(k, 3)] == encode_records(recs)[5 * k + 3]);
        assert(p[field_at(k, 4)] == encode_records(recs)[5 * k + 4]);
    }
    assert(Seq::new(n as nat, |k: int| record_spec(p, k)) =~= recs);
}

/// Round trip: a frame built from records, fed to a fresh decoder in any split
/// into chunks, yields exactly those records, in order, and leaves nothing
/// buffered.
pub proof fn lemma_round_trip(header: Seq<u8>, footer: Seq<u8>, status: u8, recs: Seq<TargetData>, chunks: Seq<Seq<u8>>)
    requires
        header.len() > 0,
        recs.len() <= 255,
        frame_of(header, footer, payload_of(recs.len() as u8, status, recs)).len() <= usize::MAX,
        chunks.flatten() == frame_of(header, footer, payload_of(recs.len() as u8, status, recs)),
    ensures
        feed(Seq::empty(), chunks, header, footer) == (Seq::<u8>::empty(), recs),
{
    let payload = payload_of(recs.len() as u8, status, recs);
    let g = Seq::<u8>::empty();
    let s = g + frame_of(header, footer, payload);
    assert(s =~= frame_of(header, footer, payload));
    assert(s.subrange(0, 0) =~= Seq::<u8>::empty());
    assert(s.subrange(0, s.len() as int) =~= s);
    lemma_feed_stream(g, header, footer, payload, chunks, 0, 0);
    lemma_decode_encoded(status, recs);
}

/// Resynchronisation: after bytes in which no header starts, a frame built from
/// records, all fed to a fresh decoder in any split into chunks, yields exactly
/// those records and leaves nothing buffered.
pub proof fn lemma_resync(
    garbage: Seq<u8>,
    header: Seq<u8>,
    footer: Seq<u8>,
    status: u8,
    recs: Seq<TargetData>,
    chunks: Seq<Seq<u8>>,
)
    requires
        header.len() > 0,
        recs.len() <= 255,
        (garbage + frame_of(header, footer, payload_of(recs.len() as u8, status, recs))).len() <= usize::MAX,
        forall|i: int| 0 <= i < garbage.len()
            ==> !#[trigger] matches_at(garbage + frame_of(header, footer, payload_of(recs.len() as u8, status, recs)), header, i),
        chunks.flatten() == garbage + frame_of(header, footer, payload_of(recs.len() as u8, status, recs)),
    ensures
        feed(Seq::empty(), chunks, header, footer) == (Seq::<u8>::empty(), recs),
{
    let payload = payload_of(recs.len() as u8, status, recs);
    let s = garbage + frame_of(header, footer, payload);
    assert(s.subrange(0, 0) =~= Seq::<u8>::empty());
    assert(s.subrange(0, s.len() as int) =~= s);
    lemma_feed_stream(garbage, header, footer, payload, chunks, 0, 0);
    lemma_decode_encoded(status, recs);
}

/// Progress: a call that meets a wrong footer or a whole frame shortens the
/// buffer, as it stands after the new bytes were appended, by exactly the bytes
/// consumed, which are at least a header, a length field and a footer.
pub proof fn lemma_progress(buf: Seq<u8>, bytes: Seq<u8>, header: Seq<u8>, footer: Seq<u8>)
    requires
        header.len() > 0,
        bytes.len() > 0,
        (buf + bytes).len() <= usize::MAX,
    ensures
        match scan_spec(buf + bytes, header, footer) {
            ScanResult::FooterMismatch { consumed } | ScanResult::Complete { consumed, .. } => {
                &&& consumed >= header.len() + LENGTH_SIZE + footer.len()
                &&& ingest_step(buf, bytes, header, footer).0.len() == (buf + bytes).len() - consumed
                &&& ingest_step(buf, bytes, header, footer).0.len() < (buf + bytes).len()
            },
            _ => true,
        },
{
    lemma_scan_bounds(buf + bytes, header, footer);
}

/// Bounded memory: while what is buffered and what arrives hold no header,
/// the buffer never grows past one byte short of a header.
pub proof fn lemma_bounded_without_header(buf: Seq<u8>, bytes: Seq<u8>, header: Seq<u8>, footer: Seq<u8>)
    requires
        header.len() > 0,
        buf.len() <= header.len() - 1,
        forall|i: int| !matches_at(buf + bytes, header, i),
    ensures
        ingest_step(buf, bytes, header, footer).0.len() <= header.len() - 1,
{
    lemma_first_match_absent(buf + bytes, header, 0);
}

proof fn lemma_feed_without_header(
    stream: Seq<u8>,
    header: Seq<u8>,
    footer: Seq<u8>,
    chunks: Seq<Seq<u8>>,
    from: int,
    to: int,
)
    requires
        header.len() > 0,
        forall|i: int| !#[trigger] matches_at(stream, header, i),
        0 <= from <= to <= stream.len(),
        to - from <= header.len() - 1,
        chunks.flatten() == stream.subrange(to, stream.len() as int),
    ensures
        feed(stream.subrange(from, to), chunks, header, footer).0.len() <= header.len() - 1,
        feed(stream.subrange(from, to), chunks, header, footer).1 == Seq::<TargetData>::empty(),
    decreases chunks.len(),
{
    if chunks.len() > 0 {
        let n = stream.len() as int;
        let hl = header.len() as int;
        let c = chunks[0];
        let tail = chunks.drop_first();
        assert(chunks.flatten() == c + tail.flatten());
        let to2 = to + c.len();
        assert(c =~= stream.subrange(to, to2)) by {
            assert forall|j: int| 0 <= j < c.len() implies c[j] == stream.subrange(to, to2)[j] by {
                assert((c + tail.flatten())[j] == c[j]);
            }
        }
        assert(tail.flatten() =~= stream.subrange(to2, n)) by {
            assert forall|j: int| 0 <= j < tail.flatten().len() implies tail.flatten()[j] == stream.subrange(to2, n)[j] by {
                assert((c + tail.flatten())[c.len() + j] == tail.flatten()[j]);
            }
        }
        if c.len() == 0 {
            lemma_feed_without_header(stream, header, footer, tail, from, to);
        } else {
            let buf2 = stream.subrange(from, to2);
            assert(stream.subrange(from, to) + c =~= buf2);
            lemma_window_no_match(stream, header, from, to2, n);
            assert forall|i: int| 0 <= i implies !matches_at(buf2, header, i) by {
                if from + i >= n {
                    assert(i + hl > buf2.len());
                }
            }
            lemma_first_match_absent(buf2, header, 0);
            let from2 = if buf2.len() > hl - 1 { to2 - (hl - 1) } else { from };
            assert(keep_last(buf2, hl - 1) =~= stream.subrange(from2, to2));
            lemma_feed_without_header(stream, header, footer, tail, from2, to2);
        }
        assert(Seq::<TargetData>::empty() + Seq::<TargetData>::empty() =~= Seq::<TargetData>::empty());
    }
}

/// Bounded memory over many calls: however a stream that holds no header is
/// split into chunks, feeding it to a fresh decoder returns nothing and leaves
/// at most one byte short of a header buffered.
pub proof fn lemma_bounded_memory(stream: Seq<u8>, header: Seq<u8>, footer: Seq<u8>, chunks: Seq<Seq<u8>>)
    requires
        header.len() > 0,
        forall|i: int| !#[trigger] matches_at(stream, header, i),
        chunks.flatten() == stream,
    ensures
        feed(Seq::empty(), chunks, header, footer).0.len() <= header.len() - 1,
        feed(Seq::empty(), chunks, header, footer).1 == Seq::<TargetData>::empty(),
{
    assert(stream.subrange(0, 0) =~= Seq::<u8>::empty());
    assert(stream.subrange(0, stream.len() as int) =~= stream);
    lemma_feed_without_header(stream, header, footer, chunks, 0, 0);
}

/// A frame whose count byte differs from the number of records it holds yields
/// nothing and is consumed through its footer; a valid frame right behind it
/// then decodes on the next call that brings bytes.
pub proof fn lemma_count_mismatch(
    header: Seq<u8>,
    footer: Seq<u8>,
    count: u8,
    status: u8,
    recs: Seq<TargetData>,
    next_status: u8,
    next_recs: Seq<TargetData>,
    tail: Seq<u8>,
    more: Seq<u8>,
)
    requires
        header.len() > 0,
        recs.len() <= 255,
        count != recs.len(),
        next_recs.len() <= 255,
        more.len() > 0,
        (frame_of(header, footer, payload_of(count, status, recs))
            + frame_of(header, footer, payload_of(next_recs.len() as u8, next_status, next_recs))
            + tail + more).len() <= usize::MAX,
    ensures
        decode_spec(payload_of(count, status, recs)) == Err::<Seq<TargetData>, FrameError>(FrameError::CountMismatch),
        ({
            let next = frame_of(header, footer, payload_of(next_recs.len() as u8, next_status, next_recs)) + tail;
            &&& ingest_spec(frame_of(header, footer, payload_of(count, status, recs)) + next, header, footer)
                == (next, Seq::<TargetData>::empty())
            &&& ingest_step(next, more, header, footer) == (tail + more, next_recs)
        }),
{
    let p = payload_of(count, status, recs);
    let v = payload_of(recs.len() as u8, status, recs);
    let q = payload_of(next_recs.len() as u8, next_status, next_recs);
    let next = frame_of(header, footer, q) + tail;
    lemma_decode_encoded(status, recs);
    lemma_decode_encoded(next_status, next_recs);
    assert forall|k: int| 0 <= k < record_count(p) implies #[trigger] bad_direction(p, k) == bad_direction(v, k) by {
        assert(p[field_at(k, 2)] == v[field_at(k, 2)]);
    }
    let pre = Seq::<u8>::empty();
    assert(pre + frame_of(header, footer, p) + next =~= frame_of(header, footer, p) + next);
    lemma_frame_at(pre, header, footer, p, next);
    assert(pre + frame_of(header, footer, q) + (tail + more) =~= next + more);
    lemma_frame_at(pre, header, footer, q, tail + more);
}

/// A frame holding a record whose direction byte is neither 0 nor 1 yields
/// nothing and is consumed through its footer.
pub proof fn lemma_invalid_direction(header: Seq<u8>, footer: Seq<u8>, payload: Seq<u8>, k: int, rest: Seq<u8>)
    requires
        header.len() > 0,
        payload.len() < 65536,
        payload.len() >= 2,
        (payload.len() - 2) % 5 == 0,
        0 <= k < record_count(payload),
        payload[field_at(k, 2)] > 1,
        (frame_of(header, footer, payload) + rest).len() <= usize::MAX,
    ensures
        decode_spec(payload) == Err::<Seq<TargetData>, FrameError>(FrameError::InvalidDirection),
        ingest_spec(frame_of(header, footer, payload) + rest, header, footer) == (rest, Seq::<TargetData>::empty()),
{
    assert(bad_direction(payload, k));
    let pre = Seq::<u8>::empty();
    assert(pre + frame_of(header, footer, payload) + rest =~= frame_of(header, footer, payload) + rest);
    lemma_frame_at(pre, header, footer, payload, rest);
}

} // verus!
