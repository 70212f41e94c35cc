//! The stateful decoder: bytes in, target records out.
use vstd::prelude::*;
use crate::record::{TargetData, FrameError, parse_frame, decode_spec};
use crate::scan::{ScanResult, scan_frame, scan_spec};

verus! {

/// The marker a frame starts with, unless another is configured.
pub open spec fn default_header() -> Seq<u8> {
    seq![0xF4u8, 0xF3u8, 0xF2u8, 0xF1u8]
}

/// The marker a frame ends with, unless another is configured.
pub open spec fn default_footer() -> Seq<u8> {
    seq![0xF8u8, 0xF7u8, 0xF6u8, 0xF5u8]
}

/// The records a decoded payload contributes: all of them, or none if it was rejected.
pub open spec fn records_of(d: Result<Seq<TargetData>, FrameError>) -> Seq<TargetData> {
    match d {
        Ok(v) => v,
        Err(_) => Seq::empty(),
    }
}

/// The last `n` bytes of `buf`, or all of it if it is shorter.
pub open spec fn keep_last(buf: Seq<u8>, n: int) -> Seq<u8> {
    if buf.len() > n {
        buf.subrange(buf.len() - n, buf.len() as int)
    } else {
        buf
    }
}

/// One scan of a buffer: the buffer left afterwards and the records produced.
///
/// With no header, only the last `header.len() - 1` bytes are kept, in case they
/// begin a header that is still arriving. An incomplete frame leaves the buffer
/// as it is. A frame with a wrong footer, and a whole frame whatever its payload
/// decodes to, is removed through its footer.
pub open spec fn ingest_spec(buf: Seq<u8>, header: Seq<u8>, footer: Seq<u8>) -> (Seq<u8>, Seq<TargetData>) {
    match scan_spec(buf, header, footer) {
        ScanResult::NoHeader => (keep_last(buf, header.len() - 1), Seq::empty()),
        ScanResult::Incomplete => (buf, Seq::empty()),
        ScanResult::FooterMismatch { consumed } => (
            buf.subrange(consumed as int, buf.len() as int),
            Seq::empty(),
        ),
        ScanResult::Complete { payload_start, payload_end, consumed } => (
            buf.subrange(consumed as int, buf.len() as int),
            records_of(decode_spec(buf.subrange(payload_start as int, payload_end as int))),
        ),
    }
}

/// One call that hands over `bytes`: nothing happens when there are none,
/// otherwise they are appended and the result is scanned once.
pub open spec fn ingest_step(buf: Seq<u8>, bytes: Seq<u8>, header: Seq<u8>, footer: Seq<u8>) -> (Seq<u8>, Seq<TargetData>) {
    if bytes.len() == 0 {
        (buf, Seq::empty())
    } else {
        ingest_spec(buf + bytes, header, footer)
    }
}

/// Removes the first `n` bytes of `buf`.
fn drain_prefix(buf: &mut Vec<u8>, n: usize)
    requires
        n <= old(buf)@.len(),
    ensures
        final(buf)@ == old(buf)@.subrange(n as int, old(buf)@.len() as int),
{
    let tail = buf.split_off(n);
    *buf = tail;
}

/// Decoder state for one sensor: the frame markers and the bytes received but
/// not yet used.
pub struct Radar {
    header: Vec<u8>,
    footer: Vec<u8>,
    buffer: Vec<u8>,
}

impl Radar {
    /// Bytes received and kept for a later call.
    pub closed spec fn buffered(&self) -> Seq<u8> {
        self.buffer@
    }

    /// The marker a frame starts with.
    pub closed spec fn header_marker(&self) -> Seq<u8> {
        self.header@
    }

    /// The marker a frame ends with.
    pub closed spec fn footer_marker(&self) -> Seq<u8> {
        self.footer@
    }

    /// A decoder always has a header to look for.
    pub open spec fn wf(&self) -> bool {
        self.header_marker().len() > 0
    }

    /// A decoder for the default frame markers, with nothing buffered.
    pub fn new() -> (r: Radar)
        ensures
            r.wf(),
            r.header_marker() == default_header(),
            r.footer_marker() == default_footer(),
            r.buffered() == Seq::<u8>::empty(),
    {
        let mut header: Vec<u8> = Vec::new();
        header.push(0xF4);
        header.push(0xF3);
        header.push(0xF2);
        header.push(0xF1);
        let mut footer: Vec<u8> = Vec::new();
        footer.push(0xF8);
        footer.push(0xF7);
        footer.push(0xF6);
        footer.push(0xF5);
        proof {
            assert(header@ =~= default_header());
            assert(footer@ =~= default_footer());
        }
        Radar { header, footer, buffer: Vec::new() }
    }

    /// A decoder for other frame markers; there is none for an empty header.
    pub fn with_markers(header: Vec<u8>, footer: Vec<u8>) -> (r: Option<Radar>)
        ensures
            match r {
                Some(d) => {
                    &&& header@.len() > 0
                    &&& d.wf()
                    &&& d.header_marker() == header@
                    &&& d.footer_marker() == footer@
                    &&& d.buffered() == Seq::<u8>::empty()
                },
                None => header@.len() == 0,
            },
    {
        if header.len() == 0 {
            None
        } else {
            Some(Radar { header, footer, buffer: Vec::new() })
        }
    }

    /// Drops every buffered byte.
    pub fn flush(&mut self)
        ensures
            final(self).buffered() == Seq::<u8>::empty(),
            final(self).header_marker() == old(self).header_marker(),
            final(self).footer_marker() == old(self).footer_marker(),
    {
        self.buffer.clear();
    }

    /// Takes newly received bytes, scans for one frame, and returns the records
    /// of that frame if it was complete and valid. At most one frame is consumed
    /// per call; frames already buffered behind it wait for the next call.
    pub fn read_targets(&mut self, new_bytes: &[u8]) -> (r: Vec<TargetData>)
        requires
            old(self).wf(),
        ensures
            final(self).wf(),
            final(self).header_marker() == old(self).header_marker(),
            final(self).footer_marker() == old(self).footer_marker(),
            (final(self).buffered(), r@) == ingest_step(
                old(self).buffered(),
                new_bytes@,
                old(self).header_marker(),
                old(self).footer_marker(),
            ),
            new_bytes@.len() == 0 ==> final(self).buffered() == old(self).buffered() && r@.len() == 0,
    {
        if new_bytes.len() == 0 {
            return Vec::new();
        }
        self.buffer.extend_from_slice(new_bytes);
        let total = self.buffer.len();
        let ghost buf = self.buffer@;
        proof {
            assert(buf =~= old(self).buffered() + new_bytes@);
        }
        let scanned = scan_frame(self.buffer.as_slice(), self.header.as_slice(), self.footer.as_slice());
        match scanned {
            ScanResult::NoHeader => {
                let keep: usize = self.header.len() - 1;
                if total > keep {
                    drain_prefix(&mut self.buffer, total - keep);
                }
                Vec::new()
            },
            ScanResult::Incomplete => Vec::new(),
            ScanResult::FooterMismatch { consumed } => {
                proof {
                    crate::laws::lemma_scan_bounds(buf, self.header@, self.footer@);
                }
                drain_prefix(&mut self.buffer, consumed);
                Vec::new()
            },
            ScanResult::Complete { payload_start, payload_end, consumed } => {
                proof {
                    crate::laws::lemma_scan_bounds(buf, self.header@, self.footer@);
                }
                let payload = vstd::slice::slice_subrange(self.buffer.as_slice(), payload_start, payload_end);
                let decoded = parse_frame(payload);
                drain_prefix(&mut self.buffer, consumed);
                match decoded {
                    Ok(targets) => targets,
                    Err(_) => Vec::new(),
                }
            },
        }
    }
}

} // verus!
