//! How a segment's bytes are read as a run of records.

use vstd::prelude::*;

verus! {

/// A record format, as far as recovery needs it: where a record starts, how long is it?
pub trait RecordParser {
    /// The length of the record that starts at `pos` in `bytes`, or `None` where no
    /// whole record starts there.
    spec fn record_len(&self, bytes: Seq<u8>, pos: nat) -> Option<nat>;

    /// Computes `record_len` on the bytes of a mapping.
    fn parse(&self, mapping: &[u8], pos: usize) -> (r: Option<usize>)
        ensures
            r matches Some(n) ==> self.record_len(mapping@, pos as nat) == Some(n as nat),
            r is None ==> self.record_len(mapping@, pos as nat) is None,
    ;
}

/// Where a scan that starts at `pos` stops: it steps over one record after another
/// and stops at the first position where no record starts, or where the record
/// found is empty or would end behind the last byte.
pub open spec fn scan_end<P: RecordParser>(parser: &P, bytes: Seq<u8>, pos: nat) -> nat
    decreases bytes.len() - pos,
{
    match parser.record_len(bytes, pos) {
        Some(n) => if n > 0 && pos + n <= bytes.len() {
            scan_end(parser, bytes, pos + n)
        } else {
            pos
        },
        None => pos,
    }
}

/// A scan never stops before the position it starts from, nor behind the last byte
/// when it starts inside the bytes.
pub proof fn lemma_scan_end_bounds<P: RecordParser>(parser: &P, bytes: Seq<u8>, pos: nat)
    requires
        pos <= bytes.len(),
    ensures
        pos <= scan_end(parser, bytes, pos) <= bytes.len(),
    decreases bytes.len() - pos,
{
    match parser.record_len(bytes, pos) {
        Some(n) => {
            if n > 0 && pos + n <= bytes.len() {
                lemma_scan_end_bounds(parser, bytes, pos + n);
            }
        },
        None => {},
    }
}

/// A scan that stopped at `used` goes the same way up to `used` over other bytes
/// of the same number, where each record that it stepped over still starts
/// there with the same length.
pub proof fn lemma_scan_frame<P: RecordParser>(
    parser: &P,
    before: Seq<u8>,
    after: Seq<u8>,
    pos: nat,
    used: nat,
)
    requires
        before.len() == after.len(),
        pos <= used <= before.len(),
        scan_end(parser, before, pos) == used,
        forall|p: nat|
            pos <= p && (#[trigger] parser.record_len(before, p) matches Some(m) && p + m <= used)
                ==> parser.record_len(after, p) == parser.record_len(before, p),
    ensures
        scan_end(parser, after, pos) == scan_end(parser, after, used),
    decreases used - pos,
{
    if pos < used {
        match parser.record_len(before, pos) {
            Some(m) => {
                if m > 0 && pos + m <= before.len() {
                    lemma_scan_end_bounds(parser, before, pos + m);
                    lemma_scan_frame(parser, before, after, pos + m, used);
                }
            },
            None => {},
        }
    }
}

/// Whether every byte from `from` on is zero.
pub open spec fn zero_from(bytes: Seq<u8>, from: nat) -> bool {
    forall|i: int| from <= i < bytes.len() ==> bytes[i] == 0
}

} // verus!
