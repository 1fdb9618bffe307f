//! The FTSS ("Frame TimeStamp Sync") MP4 atom that carries the frame
//! timestamps of an exported video.
//!
//! Format:
//! - 4 bytes: atom size (big-endian)
//! - 4 bytes: 'FTSS'
//! - 1 byte: version (1)
//! - 4 bytes: frame count (big-endian)
//! - N * 8 bytes: timestamps as f64 (big-endian)
//!
//! Timestamps are handled here as the IEEE-754 bit patterns of the `f64`
//! values (`f64::to_bits`), which is exactly what the atom stores.

use vstd::prelude::*;
use crate::byte_order::{
    be_u32_bytes, be_u32_to_bytes, be_u32_value, be_u64_bytes, be_u64_to_bytes, be_u64_value,
    lemma_be_u32_roundtrip, lemma_be_u64_roundtrip, read_be_u32, read_be_u64,
};

verus! {

pub const FTSS_VERSION: u8 = 1;

/// FTSS atom type bytes (Frame TimeStamp Sync)
pub open spec fn ftss_type() -> Seq<u8> {
    seq![0x46u8, 0x54u8, 0x53u8, 0x53u8]
}

/// Why no timestamps could be read from an MP4 file.
#[derive(Debug, Clone, Copy, PartialEq, Eq, Structural)]
pub enum FtssError {
    /// FTSS atom too small
    TooSmall,
    /// Unsupported FTSS version; holds the version found
    UnsupportedVersion(u8),
    /// No FTSS atom found in MP4 file
    NotFound,
}

/// The timestamps, each as eight big-endian bytes, in order.
pub open spec fn be_u64_concat(ts: Seq<u64>) -> Seq<u8>
    decreases ts.len(),
{
    if ts.len() == 0 {
        Seq::empty()
    } else {
        be_u64_concat(ts.drop_last()) + be_u64_bytes(ts.last())
    }
}

/// The complete FTSS atom for `ts`. Size and count are stored as `u32`,
/// truncated as the conversions `as u32` truncate.
pub open spec fn spec_ftss_atom(ts: Seq<u64>) -> Seq<u8> {
    be_u32_bytes((13 + 8 * ts.len()) as u32) + ftss_type() + seq![FTSS_VERSION] + be_u32_bytes(
        ts.len() as u32,
    ) + be_u64_concat(ts)
}

proof fn lemma_be_u64_concat_len(ts: Seq<u64>)
    ensures
        be_u64_concat(ts).len() == 8 * ts.len(),
        forall|i: int|
            0 <= i < ts.len() ==> #[trigger] be_u64_concat(ts).subrange(8 * i, 8 * i + 8)
                == be_u64_bytes(ts[i]),
    decreases ts.len(),
{
    if ts.len() > 0 {
        let init = ts.drop_last();
        lemma_be_u64_concat_len(init);
        lemma_be_u64_roundtrip(ts.last());
        let c = be_u64_concat(ts);
        assert forall|i: int| 0 <= i < ts.len() implies #[trigger] c.subrange(8 * i, 8 * i + 8)
            == be_u64_bytes(ts[i]) by {
            if i < init.len() {
                assert(c.subrange(8 * i, 8 * i + 8) =~= be_u64_concat(init).subrange(8 * i, 8 * i + 8));
            } else {
                assert(c.subrange(8 * i, 8 * i + 8) =~= be_u64_bytes(ts.last()));
            }
        }
    }
}

/// Build the FTSS atom binary data
pub fn build_ftss_atom(timestamps: &[u64]) -> (r: Vec<u8>)
    requires
        13 + 8 * timestamps.len() <= usize::MAX,
    ensures
        r@ == spec_ftss_atom(timestamps@),
{
    let frame_count = timestamps.len() as u32;
    let atom_size = 13 + timestamps.len() * 8;  // header + version + count + timestamps
    let mut data: Vec<u8> = Vec::new();
    // Atom header
    data.append(&mut be_u32_to_bytes(atom_size as u32));
    data.push(0x46);
    data.push(0x54);
    data.push(0x53);
    data.push(0x53);
    // Atom data
    data.push(FTSS_VERSION);
    data.append(&mut be_u32_to_bytes(frame_count));
    let ghost header = data@;
    assert(header =~= be_u32_bytes((13 + 8 * timestamps@.len()) as u32) + ftss_type() + seq![
        FTSS_VERSION,
    ] + be_u32_bytes(timestamps@.len() as u32));
    let mut i: usize = 0;
    while i < timestamps.len()
        invariant
            i <= timestamps.len(),
            data@ == header + be_u64_concat(timestamps@.take(i as int)),
        decreases timestamps.len() - i,
    {
        data.append(&mut be_u64_to_bytes(timestamps[i]));
        i = i + 1;
        proof {
            let t = timestamps@.take(i as int);
            assert(t.drop_last() =~= timestamps@.take(i - 1));
        }
    }
    assert(timestamps@.take(timestamps.len() as int) =~= timestamps@);
    data
}

/// The first top-level atom of type `ty` at or after `pos`: the atoms are
/// walked by their `u32` sizes; a size of zero, or an atom running past the
/// end, ends the walk.
pub open spec fn spec_find_atom(data: Seq<u8>, ty: Seq<u8>, pos: int) -> Option<(int, int)>
    decreases data.len() - pos,
{
    if pos < 0 || pos + 8 > data.len() {
        None
    } else {
        let size = be_u32_value(data.subrange(pos, pos + 4));
        if size == 0 {
            None
        } else if data.subrange(pos + 4, pos + 8) == ty {
            Some((pos, size))
        } else if pos + size > data.len() {
            None
        } else {
            proof {
                lemma_be_u32_value_range(data.subrange(pos, pos + 4));
            }
            spec_find_atom(data, ty, pos + size)
        }
    }
}

pub proof fn lemma_be_u32_value_range(b: Seq<u8>)
    requires
        b.len() >= 4,
    ensures
        0 <= be_u32_value(b) <= u32::MAX,
{
}

/// A found atom lies at or after the start of the walk, its header within
/// the data, and its size is a positive `u32`.
pub proof fn lemma_find_atom_bounds(data: Seq<u8>, ty: Seq<u8>, pos: int)
    ensures
        spec_find_atom(data, ty, pos) matches Some((p, s)) ==> pos <= p && p + 8 <= data.len() && 0
            < s <= u32::MAX,
    decreases data.len() - pos,
{
    if 0 <= pos && pos + 8 <= data.len() {
        let size = be_u32_value(data.subrange(pos, pos + 4));
        lemma_be_u32_value_range(data.subrange(pos, pos + 4));
        if size != 0 && data.subrange(pos + 4, pos + 8) != ty && pos + size <= data.len() {
            lemma_find_atom_bounds(data, ty, pos + size);
        }
    }
}

/// Find an atom by type, returning (start_position, size)
pub fn find_atom(data: &[u8], atom_type: &[u8; 4], start: usize) -> (r: Option<(usize, usize)>)
    ensures
        match spec_find_atom(data@, atom_type@, start as int) {
            Some((p, size)) => r matches Some((a, b)) && a == p && b == size,
            None => r is None,
        },
{
    proof {
        lemma_find_atom_bounds(data@, atom_type@, start as int);
    }
    let mut pos = start;
    while pos <= data.len() && data.len() - pos >= 8
        invariant
            spec_find_atom(data@, atom_type@, start as int) == spec_find_atom(
                data@,
                atom_type@,
                pos as int,
            ),
        decreases data.len() - pos,
    {
        let size = read_be_u32(&data[pos..pos + 4]) as usize;
        if size == 0 {
            return None;  // Invalid atom
        }
        let atype = &data[pos + 4..pos + 8];
        if atype[0] == atom_type[0] && atype[1] == atom_type[1] && atype[2] == atom_type[2]
            && atype[3] == atom_type[3] {
            assert(atype@ =~= atom_type@);
            return Some((pos, size));
        }
        proof {
            if atype@ == atom_type@ {
                assert(atype@[0] == atom_type@[0] && atype@[1] == atom_type@[1]);
                assert(atype@[2] == atom_type@[2] && atype@[3] == atom_type@[3]);
            }
        }
        if data.len() - pos < size {
            return None;
        }
        pos = pos + size;
    }
    None
}

/// Whether the FTSS atom that `read_timestamps` finds is cut off before the
/// version and count it announces (a file `read_timestamps` does not accept).
pub open spec fn spec_ftss_truncated(data: Seq<u8>) -> bool {
    match spec_find_atom(data, ftss_type(), 0) {
        Some((pos, size)) => size >= 13 && (pos + 9 > data.len() || (data[pos + 8] == FTSS_VERSION
            && pos + 13 > data.len())),
        None => false,
    }
}

/// The timestamps of the first FTSS atom: as many of the announced frames as
/// the data holds.
pub open spec fn spec_read_timestamps(data: Seq<u8>) -> Result<Seq<u64>, FtssError> {
    match spec_find_atom(data, ftss_type(), 0) {
        None => Err(FtssError::NotFound),
        Some((pos, size)) => {
            if size < 13 {
                Err(FtssError::TooSmall)
            } else if data[pos + 8] != FTSS_VERSION {
                Err(FtssError::UnsupportedVersion(data[pos + 8]))
            } else {
                let count = be_u32_value(data.subrange(pos + 9, pos + 13));
                let ts_start = pos + 13;
                let n = if ts_start + 8 * count <= data.len() {
                    count
                } else {
                    (data.len() - ts_start) / 8
                };
                Ok(
                    Seq::new(
                        n as nat,
                        |i: int| be_u64_value(data.subrange(ts_start + 8 * i, ts_start + 8 * i + 8))
                            as u64,
                    ),
                )
            }
        },
    }
}

/// Whether the FTSS atom of an MP4 file's contents is cut off before its
/// version and count.
pub fn ftss_truncated(data: &[u8]) -> (r: bool)
    ensures
        r == spec_ftss_truncated(data@),
{
    let ftss: [u8; 4] = [0x46, 0x54, 0x53, 0x53];
    assert(ftss@ =~= ftss_type());
    proof {
        lemma_find_atom_bounds(data@, ftss_type(), 0);
    }
    match find_atom(data, &ftss, 0) {
        Some((pos, size)) => size >= 13 && (data.len() - pos < 9 || (data[pos + 8] == FTSS_VERSION
            && data.len() - pos < 13)),
        None => false,
    }
}

/// Read timestamps from the contents of an MP4 file, from its FTSS atom
pub fn read_timestamps(data: &[u8]) -> (r: Result<Vec<u64>, FtssError>)
    requires
        !spec_ftss_truncated(data@),
    ensures
        match spec_read_timestamps(data@) {
            Ok(ts) => r matches Ok(v) && v@ == ts,
            Err(e) => r == Err::<Vec<u64>, FtssError>(e),
        },
{
    let ftss: [u8; 4] = [0x46, 0x54, 0x53, 0x53];
    assert(ftss@ =~= ftss_type());
    proof {
        lemma_find_atom_bounds(data@, ftss_type(), 0);
    }
    // Find FTSS atom (scan from beginning)
    let found = find_atom(data, &ftss, 0);
    assert(spec_find_atom(data@, ftss@, 0) == spec_find_atom(data@, ftss_type(), 0));
    if let Some((ftss_start, ftss_size)) = found {
        proof {
            let sf = spec_find_atom(data@, ftss_type(), 0);
            assert(sf is Some);
            let (p, sz) = sf.unwrap();
            assert(p == ftss_start);
            assert(p + 8 <= data.len());
        }
        let content_start = ftss_start + 8;  // Skip atom header
        if ftss_size < 13 {
            // Minimum: header(8) + version(1) + count(4)
            return Err(FtssError::TooSmall);
        }
        let version = data[content_start];
        if version != FTSS_VERSION {
            return Err(FtssError::UnsupportedVersion(version));
        }
        let frame_count = read_be_u32(&data[content_start + 1..content_start + 5]) as usize;
        let ts_start = content_start + 5;
        let ghost d = data@;
        let ghost count = frame_count as int;
        let ghost n = if ts_start + 8 * count <= d.len() {
            count
        } else {
            (d.len() - ts_start) / 8
        };
        let mut timestamps: Vec<u64> = Vec::new();
        let mut i: usize = 0;
        while i < frame_count
            invariant
                ts_start <= data.len(),
                i <= frame_count,
                i <= n,
                n == (if ts_start + 8 * count <= d.len() {
                    count
                } else {
                    (d.len() - ts_start) / 8
                }),
                count == frame_count,
                d == data@,
                timestamps@ == Seq::new(
                    i as nat,
                    |j: int| be_u64_value(d.subrange(ts_start + 8 * j, ts_start + 8 * j + 8)) as u64,
                ),
            ensures
                timestamps@ == Seq::new(
                    n as nat,
                    |j: int| be_u64_value(d.subrange(ts_start + 8 * j, ts_start + 8 * j + 8)) as u64,
                ),
            decreases frame_count - i,
        {
            if data.len() - ts_start < 8 || data.len() - ts_start - 8 < i * 8 {
                assert(i == n);
                break;
            }
            let offset = ts_start + i * 8;
            let ts = read_be_u64(&data[offset..offset + 8]);
            timestamps.push(ts);
            i = i + 1;
            proof {
                assert(timestamps@ =~= Seq::new(
                    i as nat,
                    |j: int| be_u64_value(d.subrange(ts_start + 8 * j, ts_start + 8 * j + 8)) as u64,
                ));
            }
        }
        return Ok(timestamps);
    }
    Err(FtssError::NotFound)
}

/// The top-level atoms of `pre` from `pos` on follow one another up to its
/// end exactly, none of them an FTSS atom.
pub open spec fn atoms_tile(pre: Seq<u8>, pos: int) -> bool
    decreases pre.len() - pos,
{
    if pos == pre.len() {
        true
    } else if pos < 0 || pos + 8 > pre.len() {
        false
    } else {
        let size = be_u32_value(pre.subrange(pos, pos + 4));
        if size <= 0 || pre.subrange(pos + 4, pos + 8) == ftss_type() || pos + size > pre.len() {
            false
        } else {
            atoms_tile(pre, pos + size)
        }
    }
}

proof fn lemma_find_appended_atom(pre: Seq<u8>, atom: Seq<u8>, pos: int)
    requires
        atoms_tile(pre, pos),
        0 <= pos,
        atom.len() >= 8,
        be_u32_value(atom.subrange(0, 4)) > 0,
        atom.subrange(4, 8) == ftss_type(),
    ensures
        spec_find_atom(pre + atom, ftss_type(), pos) == Some(
            (pre.len() as int, be_u32_value(atom.subrange(0, 4))),
        ),
    decreases pre.len() - pos,
{
    let data = pre + atom;
    if pos == pre.len() {
        assert(data.subrange(pos, pos + 4) =~= atom.subrange(0, 4));
        assert(data.subrange(pos + 4, pos + 8) =~= atom.subrange(4, 8));
    } else {
        assert(data.subrange(pos, pos + 4) =~= pre.subrange(pos, pos + 4));
        assert(data.subrange(pos + 4, pos + 8) =~= pre.subrange(pos + 4, pos + 8));
        let size = be_u32_value(pre.subrange(pos, pos + 4));
        lemma_find_appended_atom(pre, atom, pos + size);
    }
}

/// Appended to the top-level atoms of an MP4 file, the FTSS atom built for
/// `ts` is the one `read_timestamps` finds, and it reads back exactly `ts`.
pub proof fn law_ftss_roundtrip(pre: Seq<u8>, ts: Seq<u64>)
    requires
        atoms_tile(pre, 0),
        13 + 8 * ts.len() <= u32::MAX,
    ensures
        !spec_ftss_truncated(pre + spec_ftss_atom(ts)),
        spec_read_timestamps(pre + spec_ftss_atom(ts)) == Ok::<Seq<u64>, FtssError>(ts),
{
    let atom = spec_ftss_atom(ts);
    let data = pre + atom;
    let n = ts.len();
    let size = (13 + 8 * n) as u32;
    lemma_be_u32_roundtrip(size);
    lemma_be_u32_roundtrip(n as u32);
    lemma_be_u64_concat_len(ts);
    assert(atom.subrange(0, 4) =~= be_u32_bytes(size));
    assert(atom.subrange(4, 8) =~= ftss_type());
    lemma_find_appended_atom(pre, atom, 0);
    let pos = pre.len() as int;
    assert(data[pos + 8] == FTSS_VERSION);
    assert(data.subrange(pos + 9, pos + 13) =~= be_u32_bytes(n as u32));
    let ts_start = pos + 13;
    assert(data.len() == ts_start + 8 * n);
    let read = Seq::new(
        n as nat,
        |i: int| be_u64_value(data.subrange(ts_start + 8 * i, ts_start + 8 * i + 8)) as u64,
    );
    assert forall|i: int| 0 <= i < n implies read[i] == ts[i] by {
        lemma_be_u64_roundtrip(ts[i]);
        assert(data.subrange(ts_start + 8 * i, ts_start + 8 * i + 8) =~= be_u64_concat(ts).subrange(
            8 * i,
            8 * i + 8,
        ));
    }
    assert(read =~= ts);
}

// ---- Listing timestamps ----

/// A row of a timestamp listing: frame `index` with its delta taken from
/// frame `prev`, or the gap between the first and last rows.
#[derive(Debug, Clone, Copy, PartialEq, Eq, Structural)]
pub enum TimestampRow {
    Frame { index: usize, prev: usize },
    Gap,
}

/// How many rows a short listing shows at each end.
pub const SHOWN_AT_EACH_END: usize = 5;

/// The row of frame `i`, its delta taken from the frame before (frame 0
/// from itself).
pub open spec fn frame_row(i: int) -> TimestampRow {
    TimestampRow::Frame { index: i as usize, prev: if i == 0 { 0 } else { (i - 1) as usize } }
}

/// The rows listing `n` timestamps: all of them, or the first five, a gap
/// where more than ten are left out of view, and the last five (which may
/// repeat some of the first where there are fewer than ten).
pub open spec fn spec_timestamp_rows(n: nat, all: bool) -> Seq<TimestampRow> {
    if all {
        Seq::new(n, |i: int| frame_row(i))
    } else {
        let k: nat = if n < 5 { n } else { 5 };
        let head = Seq::new(k, |i: int| frame_row(i));
        let gap = if n > 10 { seq![TimestampRow::Gap] } else { Seq::empty() };
        let tail = if n > 5 { Seq::new(5, |j: int| frame_row(n - 5 + j)) } else { Seq::empty() };
        head + gap + tail
    }
}

fn push_frame_rows(rows: &mut Vec<TimestampRow>, from: usize, to: usize)
    requires
        from <= to,
    ensures
        final(rows)@ == old(rows)@ + Seq::new((to - from) as nat, |j: int| frame_row(from + j)),
{
    let ghost base = old(rows)@;
    let mut i = from;
    while i < to
        invariant
            from <= i <= to,
            rows@ == base + Seq::new((i - from) as nat, |j: int| frame_row(from + j)),
        decreases to - i,
    {
        let prev = if i == 0 { 0 } else { i - 1 };
        rows.push(TimestampRow::Frame { index: i, prev });
        i = i + 1;
        assert(rows@ =~= base + Seq::new((i - from) as nat, |j: int| frame_row(from + j)));
    }
}

/// The rows of a listing of `count` timestamps (see `spec_timestamp_rows`).
pub fn timestamp_rows(count: usize, all: bool) -> (r: Vec<TimestampRow>)
    ensures
        r@ == spec_timestamp_rows(count as nat, all),
{
    let mut rows: Vec<TimestampRow> = Vec::new();
    if all {
        push_frame_rows(&mut rows, 0, count);
        assert(rows@ =~= spec_timestamp_rows(count as nat, all));
        return rows;
    }
    let show = if count < SHOWN_AT_EACH_END { count } else { SHOWN_AT_EACH_END };
    push_frame_rows(&mut rows, 0, show);
    let ghost head = rows@;
    if count > 2 * SHOWN_AT_EACH_END {
        rows.push(TimestampRow::Gap);
    }
    let ghost with_gap = rows@;
    if count > SHOWN_AT_EACH_END {
        push_frame_rows(&mut rows, count - SHOWN_AT_EACH_END, count);
    }
    proof {
        let n = count as nat;
        let k: nat = if n < 5 { n } else { 5 };
        assert(head =~= Seq::new(k, |i: int| frame_row(i)));
        let gap = if n > 10 { seq![TimestampRow::Gap] } else { Seq::empty() };
        assert(with_gap =~= head + gap);
        let tail = if n > 5 { Seq::new(5, |j: int| frame_row(n - 5 + j)) } else { Seq::<TimestampRow>::empty() };
        assert(rows@ =~= head + gap + tail);
    }
    rows
}

} // verus!
