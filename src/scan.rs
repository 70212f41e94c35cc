//! Locating one frame (header, length, payload, footer) in buffered bytes.
use vstd::prelude::*;

verus! {

/// Width in bytes of the little-endian payload length that follows the header.
pub const LENGTH_SIZE: usize = 2;

/// Outcome of looking for one frame at the front of a buffer.
#[derive(Debug, Clone, Copy, PartialEq, Eq, Structural)]
pub enum ScanResult {
    /// The header occurs nowhere in the buffer.
    NoHeader,
    /// A header was found but the rest of the frame has not all arrived.
    Incomplete,
    /// A whole frame's worth of bytes is present but the footer is wrong;
    /// `consumed` bytes, through the expected footer, are to be dropped.
    FooterMismatch { consumed: usize },
    /// A whole frame: its payload spans `payload_start..payload_end`, and the
    /// frame ends `consumed` bytes into the buffer.
    Complete { payload_start: usize, payload_end: usize, consumed: usize },
}

/// Whether `pat` occurs in `buf` starting at index `i`.
pub open spec fn matches_at(buf: Seq<u8>, pat: Seq<u8>, i: int) -> bool {
    0 <= i && i + pat.len() <= buf.len() && buf.subrange(i, i + pat.len()) == pat
}

/// The first index at or after `from` where `pat` occurs in `buf`.
pub open spec fn first_match(buf: Seq<u8>, pat: Seq<u8>, from: int) -> Option<int>
    decreases buf.len() + 1 - from,
{
    if from < 0 || from + pat.len() > buf.len() {
        None
    } else if matches_at(buf, pat, from) {
        Some(from)
    } else {
        first_match(buf, pat, from + 1)
    }
}

/// The little-endian value of two bytes.
pub open spec fn le_u16(lo: u8, hi: u8) -> int {
    lo as int + 256 * hi as int
}

/// The frame that starts with the first header in `buf`, as far as it is present.
pub open spec fn scan_spec(buf: Seq<u8>, header: Seq<u8>, footer: Seq<u8>) -> ScanResult {
    match first_match(buf, header, 0) {
        None => ScanResult::NoHeader,
        Some(h) => {
            let len_at = h + header.len();
            if buf.len() < len_at + LENGTH_SIZE {
                ScanResult::Incomplete
            } else {
                let start = len_at + LENGTH_SIZE;
                let end = start + le_u16(buf[len_at], buf[len_at + 1]);
                let footer_end = end + footer.len();
                if buf.len() < footer_end {
                    ScanResult::Incomplete
                } else if buf.subrange(end, footer_end) == footer {
                    ScanResult::Complete {
                        payload_start: start as usize,
                        payload_end: end as usize,
                        consumed: footer_end as usize,
                    }
                } else {
                    ScanResult::FooterMismatch { consumed: footer_end as usize }
                }
            }
        },
    }
}

/// A first match is a match, and lies at or after where the search began.
pub proof fn lemma_first_match_found(buf: Seq<u8>, pat: Seq<u8>, from: int, i: int)
    requires
        first_match(buf, pat, from) == Some(i),
    ensures
        from <= i,
        matches_at(buf, pat, i),
    decreases buf.len() + 1 - from,
{
    if !(from < 0 || from + pat.len() > buf.len()) && !matches_at(buf, pat, from) {
        lemma_first_match_found(buf, pat, from + 1, i);
    }
}

/// Whether `pat` occurs in `buf` at index `i`, which leaves room for it.
fn matches_here(buf: &[u8], pat: &[u8], i: usize) -> (r: bool)
    requires
        i + pat@.len() <= buf@.len(),
    ensures
        r == matches_at(buf@, pat@, i as int),
{
    let len = buf.len();
    let mut j: usize = 0;
    while j < pat.len()
        invariant
            len == buf@.len(),
            i + pat@.len() <= buf@.len(),
            j <= pat@.len(),
            forall|t: int| 0 <= t < j ==> buf@[i + t] == pat@[t],
        decreases pat@.len() - j,
    {
        if buf[i + j] != pat[j] {
            assert(buf@.subrange(i as int, i + pat@.len())[j as int] != pat@[j as int]);
            return false;
        }
        j = j + 1;
    }
    assert(buf@.subrange(i as int, i + pat@.len()) =~= pat@);
    true
}

/// Index of the first occurrence of `pat` in `buf`.
pub fn find_first(buf: &[u8], pat: &[u8]) -> (r: Option<usize>)
    ensures
        match r {
            Some(i) => first_match(buf@, pat@, 0) == Some(i as int),
            None => first_match(buf@, pat@, 0) == None::<int>,
        },
{
    if pat.len() > buf.len() {
        return None;
    }
    let last: usize = buf.len() - pat.len();
    let mut i: usize = 0;
    while i <= last
        invariant
            last + pat@.len() == buf@.len(),
            i <= last + 1,
            first_match(buf@, pat@, 0) == first_match(buf@, pat@, i as int),
        decreases last + 1 - i,
    {
        if matches_here(buf, pat, i) {
            return Some(i);
        }
        if i == last {
            return None;
        }
        i = i + 1;
    }
    None
}

/// Looks for the frame that starts at the first `header` in `buf`.
pub fn scan_frame(buf: &[u8], header: &[u8], footer: &[u8]) -> (r: ScanResult)
    ensures
        r == scan_spec(buf@, header@, footer@),
{
    let h = match find_first(buf, header) {
        None => {
            return ScanResult::NoHeader;
        },
        Some(h) => h,
    };
    proof {
        lemma_first_match_found(buf@, header@, 0, h as int);
    }
    let len = buf.len();
    let len_at = h + header.len();
    if len - len_at < LENGTH_SIZE {
        return ScanResult::Incomplete;
    }
    let frame_length: usize = buf[len_at] as usize + 256 * (buf[len_at + 1] as usize);
    let start = len_at + LENGTH_SIZE;
    if len - start < frame_length {
        return ScanResult::Incomplete;
    }
    assert(frame_length == le_u16(buf@[len_at as int], buf@[len_at + 1]));
    let end = start + frame_length;
    if len - end < footer.len() {
        return ScanResult::Incomplete;
    }
    let footer_end = end + footer.len();
    if matches_here(buf, footer, end) {
        ScanResult::Complete { payload_start: start, payload_end: end, consumed: footer_end }
    } else {
        ScanResult::FooterMismatch { consumed: footer_end }
    }
}

} // verus!
