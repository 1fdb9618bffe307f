//! Low-level MCAP binary format parsing for selective/indexed reading.
//!
//! Parses the MCAP footer, summary section, and individual chunk records
//! to enable reading only the data needed (e.g., specific topics) without
//! downloading or scanning the entire file.

use std::collections::HashMap;
use std::io::Read;
use vstd::prelude::*;
use vstd::slice::slice_to_vec;
use crate::byte_order::{
    le_u16_bytes, le_u16_value, le_u32_bytes, le_u32_value, le_u64_bytes, le_u64_value,
    lemma_le_u16_roundtrip, lemma_le_u32_roundtrip, lemma_le_u64_roundtrip, read_le_u16,
    read_le_u32, read_le_u64,
};
use crate::text::{lossy_string, str_is, lossy_text};
use vstd::utf8::{decode_utf8, encode_utf8, encode_utf8_decode_utf8, encode_utf8_valid_utf8};

verus! {

broadcast use vstd::std_specs::hash::group_hash_axioms;

// MCAP record opcodes
pub const OP_FOOTER: u8 = 0x02;
pub const OP_SCHEMA: u8 = 0x03;
pub const OP_CHANNEL: u8 = 0x04;
pub const OP_MESSAGE: u8 = 0x05;
pub const OP_CHUNK: u8 = 0x06;
pub const OP_CHUNK_INDEX: u8 = 0x08;
pub const OP_STATISTICS: u8 = 0x0B;

/// Size of the MCAP footer record (opcode + length + content) + trailing magic
pub const FOOTER_PLUS_MAGIC: usize = 37;

/// The eight magic bytes that open and close an MCAP file.
pub open spec fn mcap_magic() -> Seq<u8> {
    seq![0x89u8, 0x4Du8, 0x43u8, 0x41u8, 0x50u8, 0x30u8, 0x0Du8, 0x0Au8]
}

#[derive(Debug, Clone, Copy, PartialEq, Eq, Structural)]
pub struct McapFooter {
    pub summary_start: u64,
}

#[derive(Debug, Clone)]
pub struct ChannelInfo {
    pub id: u16,
    pub schema_id: u16,
    pub topic: String,
}

pub struct ChannelInfoView {
    pub id: u16,
    pub schema_id: u16,
    pub topic: Seq<char>,
}

impl View for ChannelInfo {
    type V = ChannelInfoView;

    open spec fn view(&self) -> ChannelInfoView {
        ChannelInfoView { id: self.id, schema_id: self.schema_id, topic: self.topic@ }
    }
}

#[derive(Debug, Clone)]
pub struct SchemaInfo {
    pub id: u16,
    pub name: String,
}

pub struct SchemaInfoView {
    pub id: u16,
    pub name: Seq<char>,
}

impl View for SchemaInfo {
    type V = SchemaInfoView;

    open spec fn view(&self) -> SchemaInfoView {
        SchemaInfoView { id: self.id, name: self.name@ }
    }
}

#[derive(Debug, Clone)]
pub struct ChunkIndexInfo {
    pub chunk_start_offset: u64,
    pub chunk_length: u64,
    pub channel_ids: Vec<u16>,
}

pub struct ChunkIndexInfoView {
    pub chunk_start_offset: u64,
    pub chunk_length: u64,
    pub channel_ids: Seq<u16>,
}

impl View for ChunkIndexInfo {
    type V = ChunkIndexInfoView;

    open spec fn view(&self) -> ChunkIndexInfoView {
        ChunkIndexInfoView {
            chunk_start_offset: self.chunk_start_offset,
            chunk_length: self.chunk_length,
            channel_ids: self.channel_ids@,
        }
    }
}

pub struct McapSummary {
    pub channels: Vec<ChannelInfo>,
    pub schemas: Vec<SchemaInfo>,
    pub chunk_indexes: Vec<ChunkIndexInfo>,
    pub channel_message_counts: HashMap<u16, u64>,
}

pub struct McapSummaryView {
    pub channels: Seq<ChannelInfoView>,
    pub schemas: Seq<SchemaInfoView>,
    pub chunk_indexes: Seq<ChunkIndexInfoView>,
    pub channel_message_counts: Map<u16, u64>,
}

impl View for McapSummary {
    type V = McapSummaryView;

    open spec fn view(&self) -> McapSummaryView {
        summary_view(
            self.channels@,
            self.schemas@,
            self.chunk_indexes@,
            self.channel_message_counts@,
        )
    }
}

/// The summary made of these parts, each record by its view.
pub open spec fn summary_view(
    channels: Seq<ChannelInfo>,
    schemas: Seq<SchemaInfo>,
    chunk_indexes: Seq<ChunkIndexInfo>,
    counts: Map<u16, u64>,
) -> McapSummaryView {
    McapSummaryView {
        channels: channels.map_values(|c: ChannelInfo| c@),
        schemas: schemas.map_values(|s: SchemaInfo| s@),
        chunk_indexes: chunk_indexes.map_values(|c: ChunkIndexInfo| c@),
        channel_message_counts: counts,
    }
}

#[derive(Debug, Clone)]
pub struct RawMessage {
    pub log_time: u64,  // nanoseconds
    pub data: Vec<u8>,  // CDR-encoded payload
}

pub struct RawMessageView {
    pub log_time: u64,
    pub data: Seq<u8>,
}

impl View for RawMessage {
    type V = RawMessageView;

    open spec fn view(&self) -> RawMessageView {
        RawMessageView { log_time: self.log_time, data: self.data@ }
    }
}

/// Why the footer at the end of an MCAP file could not be read.
#[derive(Debug, Clone, Copy, PartialEq, Eq, Structural)]
pub enum FooterError {
    /// Data too short for MCAP footer
    TooShort,
    /// Invalid MCAP magic at end of file
    BadMagic,
    /// The record before the magic is not a footer; holds its opcode
    NotFooter(u8),
    /// The file has no summary section
    NoSummary,
}

// ---- Fixed-width values at a position ----

/// Little-endian `u16` at `pos` of `d`.
pub open spec fn u16_at(d: Seq<u8>, pos: int) -> u16 {
    le_u16_value(d.subrange(pos, pos + 2)) as u16
}

/// Little-endian `u32` at `pos` of `d`.
pub open spec fn u32_at(d: Seq<u8>, pos: int) -> u32 {
    le_u32_value(d.subrange(pos, pos + 4)) as u32
}

/// Little-endian `u64` at `pos` of `d`.
pub open spec fn u64_at(d: Seq<u8>, pos: int) -> u64 {
    le_u64_value(d.subrange(pos, pos + 8)) as u64
}

fn read_u16_at(d: &[u8], pos: usize) -> (r: u16)
    requires
        pos + 2 <= d.len(),
    ensures
        r == u16_at(d@, pos as int),
{
    read_le_u16(&d[pos..pos + 2])
}

fn read_u32_at(d: &[u8], pos: usize) -> (r: u32)
    requires
        pos + 4 <= d.len(),
    ensures
        r == u32_at(d@, pos as int),
{
    read_le_u32(&d[pos..pos + 4])
}

fn read_u64_at(d: &[u8], pos: usize) -> (r: u64)
    requires
        pos + 8 <= d.len(),
    ensures
        r == u64_at(d@, pos as int),
{
    read_le_u64(&d[pos..pos + 8])
}

fn is_mcap_magic(s: &[u8]) -> (r: bool)
    ensures
        r == (s@ == mcap_magic()),
{
    if s.len() != 8 {
        return false;
    }
    let r = s[0] == 0x89 && s[1] == 0x4D && s[2] == 0x43 && s[3] == 0x41 && s[4] == 0x50 && s[5]
        == 0x30 && s[6] == 0x0D && s[7] == 0x0A;
    proof {
        if r {
            assert(s@ =~= mcap_magic());
        } else {
            assert(s@ != mcap_magic()) by {
                if s@ == mcap_magic() {
                    assert(s@[0] == 0x89 && s@[1] == 0x4D && s@[2] == 0x43 && s@[3] == 0x41);
                }
            }
        }
    }
    r
}

// ---- Footer ----

/// The footer record that, with the closing magic, ends `tail`.
pub open spec fn spec_parse_footer(tail: Seq<u8>) -> Result<McapFooter, FooterError> {
    if tail.len() < FOOTER_PLUS_MAGIC {
        Err(FooterError::TooShort)
    } else {
        let record = tail.subrange(tail.len() - FOOTER_PLUS_MAGIC, tail.len() as int);
        if record.subrange(29, 37) != mcap_magic() {
            Err(FooterError::BadMagic)
        } else if record[0] != OP_FOOTER {
            Err(FooterError::NotFooter(record[0]))
        } else if u64_at(record, 9) == 0 {
            Err(FooterError::NoSummary)
        } else {
            Ok(McapFooter { summary_start: u64_at(record, 9) })
        }
    }
}

/// The end of a file as written: anything before, then the Footer record
/// (its opcode, content length 20, summary start, summary offset start and
/// summary CRC, all little-endian) and the closing magic.
pub open spec fn footer_tail_bytes(
    before: Seq<u8>,
    summary_start: u64,
    summary_offset_start: u64,
    summary_crc: u32,
) -> Seq<u8> {
    before + seq![OP_FOOTER] + le_u64_bytes(20) + le_u64_bytes(summary_start) + le_u64_bytes(
        summary_offset_start,
    ) + le_u32_bytes(summary_crc) + mcap_magic()
}

/// A file ending in a Footer record and the magic gives back the summary
/// start that the footer was written with (and `NoSummary` where it is 0,
/// as a file without a summary writes it), not the offset start or CRC
/// that follow it.
#[verifier::spinoff_prover]
pub proof fn law_footer_roundtrip(
    before: Seq<u8>,
    summary_start: u64,
    summary_offset_start: u64,
    summary_crc: u32,
)
    ensures
        spec_parse_footer(footer_tail_bytes(before, summary_start, summary_offset_start, summary_crc))
            == if summary_start == 0 {
            Err::<McapFooter, FooterError>(FooterError::NoSummary)
        } else {
            Ok::<McapFooter, FooterError>(McapFooter { summary_start })
        },
{
    let t = footer_tail_bytes(before, summary_start, summary_offset_start, summary_crc);
    let n = before.len() as int;
    lemma_le_u64_roundtrip(summary_start);
    let a1 = before + seq![OP_FOOTER] + le_u64_bytes(20);
    let a2 = a1 + le_u64_bytes(summary_start);
    let a3 = a2 + le_u64_bytes(summary_offset_start);
    let a4 = a3 + le_u32_bytes(summary_crc);
    assert(t == a4 + mcap_magic());
    assert(a1.len() == n + 9);
    assert(t.len() == n + 37);
    let record = t.subrange(n, n + 37);
    assert(record.subrange(29, 37) =~= mcap_magic());
    assert(record[0] == OP_FOOTER);
    assert(record.subrange(9, 17) =~= le_u64_bytes(summary_start));
}

/// Parse the MCAP footer from the last [FOOTER_PLUS_MAGIC] bytes of the file.
pub fn parse_footer(tail: &[u8]) -> (r: Result<McapFooter, FooterError>)
    ensures
        r == spec_parse_footer(tail@),
{
    if tail.len() < FOOTER_PLUS_MAGIC {
        return Err(FooterError::TooShort);
    }
    let start = tail.len() - FOOTER_PLUS_MAGIC;
    let record = &tail[start..tail.len()];
    // Verify trailing magic
    if !is_mcap_magic(&record[29..37]) {
        return Err(FooterError::BadMagic);
    }
    // Footer opcode
    if record[0] != OP_FOOTER {
        return Err(FooterError::NotFooter(record[0]));
    }
    let summary_start = read_u64_at(record, 9);
    if summary_start == 0 {
        return Err(FooterError::NoSummary);
    }
    Ok(McapFooter { summary_start })
}

/// How many bytes to fetch from the end of the file to get the footer.
pub fn footer_size() -> (r: u64)
    ensures
        r == FOOTER_PLUS_MAGIC,
{
    FOOTER_PLUS_MAGIC as u64
}

// ---- Summary records ----

/// An MCAP string at `pos`: a `u32` length, then that many bytes, decoded as
/// lossy UTF-8.
pub open spec fn mcap_string(r: Seq<u8>, pos: int) -> Option<(Seq<char>, int)> {
    if pos + 4 > r.len() {
        None
    } else {
        let len = u32_at(r, pos);
        let p = pos + 4;
        if len == 0 {
            Some((Seq::empty(), p))
        } else if p + len > r.len() {
            None
        } else {
            Some((lossy_text(r.subrange(p, p + len)), p + len))
        }
    }
}

/// A Schema record's id and name.
pub open spec fn spec_schema_record(r: Seq<u8>) -> Option<SchemaInfoView> {
    if r.len() < 2 {
        None
    } else {
        match mcap_string(r, 2) {
            None => None,
            Some((name, _)) => Some(SchemaInfoView { id: u16_at(r, 0), name }),
        }
    }
}

/// A Channel record's id, schema id and topic.
pub open spec fn spec_channel_record(r: Seq<u8>) -> Option<ChannelInfoView> {
    if r.len() < 4 {
        None
    } else {
        match mcap_string(r, 4) {
            None => None,
            Some((topic, _)) => Some(
                ChannelInfoView { id: u16_at(r, 0), schema_id: u16_at(r, 2), topic },
            ),
        }
    }
}

/// A ChunkIndex record: after the message start and end times, the chunk's
/// offset and length, then the channel ids of its message index map (ten
/// bytes per entry), when the map lies within the record.
pub open spec fn spec_chunk_index_record(r: Seq<u8>) -> Option<ChunkIndexInfoView> {
    if r.len() < 36 {
        None
    } else {
        let map_bytes = u32_at(r, 32);
        Some(
            ChunkIndexInfoView {
                chunk_start_offset: u64_at(r, 16),
                chunk_length: u64_at(r, 24),
                channel_ids: if 36 + map_bytes <= r.len() {
                    Seq::new((map_bytes / 10) as nat, |i: int| u16_at(r, 36 + 10 * i))
                } else {
                    Seq::empty()
                },
            },
        )
    }
}

/// An MCAP string as written: its UTF-8 byte length as a little-endian
/// `u32`, then its UTF-8 bytes.
pub open spec fn mcap_string_bytes(s: Seq<char>) -> Seq<u8> {
    le_u32_bytes(encode_utf8(s).len() as u32) + encode_utf8(s)
}

/// `d` holds `piece` from `pos` on.
pub open spec fn bytes_at(d: Seq<u8>, pos: int, piece: Seq<u8>) -> bool {
    &&& 0 <= pos
    &&& pos + piece.len() <= d.len()
    &&& d.subrange(pos, pos + piece.len()) == piece
}

/// A piece held in `d` holds each of its parts.
proof fn lemma_bytes_part(d: Seq<u8>, pos: int, piece: Seq<u8>, start: int, end: int)
    requires
        bytes_at(d, pos, piece),
        0 <= start <= end <= piece.len(),
    ensures
        bytes_at(d, pos + start, piece.subrange(start, end)),
{
    assert(d.subrange(pos + start, pos + end) =~= piece.subrange(start, end)) by {
        assert forall|i: int| 0 <= i < end - start implies d.subrange(pos + start, pos + end)[i]
            == piece.subrange(start, end)[i] by {
            assert(d.subrange(pos, pos + piece.len())[start + i] == piece[start + i]);
        }
    }
}

/// Two pieces held one after the other are each held.
proof fn lemma_bytes_split(d: Seq<u8>, pos: int, x: Seq<u8>, y: Seq<u8>)
    requires
        bytes_at(d, pos, x + y),
    ensures
        bytes_at(d, pos, x),
        bytes_at(d, pos + x.len(), y),
{
    lemma_bytes_part(d, pos, x + y, 0, x.len() as int);
    lemma_bytes_part(d, pos, x + y, x.len() as int, (x + y).len() as int);
    assert((x + y).subrange(0, x.len() as int) =~= x);
    assert((x + y).subrange(x.len() as int, (x + y).len() as int) =~= y);
}

/// A string written at `pos` reads back as that string.
proof fn lemma_read_mcap_string(d: Seq<u8>, pos: int, s: Seq<char>)
    requires
        bytes_at(d, pos, mcap_string_bytes(s)),
        encode_utf8(s).len() <= u32::MAX,
    ensures
        mcap_string(d, pos) == Some((s, pos + mcap_string_bytes(s).len())),
{
    broadcast use encode_utf8_valid_utf8, encode_utf8_decode_utf8;

    let t = encode_utf8(s);
    lemma_le_u32_roundtrip(t.len() as u32);
    lemma_bytes_split(d, pos, le_u32_bytes(t.len() as u32), t);
    if t.len() == 0 {
        assert(t =~= Seq::<u8>::empty());
        assert(decode_utf8(t) =~= Seq::<char>::empty());
    }
}

/// A Channel record written from an id, a schema id and a topic (then any
/// further bytes) reads back as those, the ids not confused.
pub proof fn law_channel_record_roundtrip(id: u16, schema_id: u16, topic: Seq<char>, tail: Seq<u8>)
    requires
        encode_utf8(topic).len() <= u32::MAX,
    ensures
        spec_channel_record(le_u16_bytes(id) + le_u16_bytes(schema_id) + mcap_string_bytes(topic) + tail)
            == Some(ChannelInfoView { id, schema_id, topic }),
{
    broadcast use encode_utf8_decode_utf8;

    let r = le_u16_bytes(id) + le_u16_bytes(schema_id) + mcap_string_bytes(topic) + tail;
    lemma_le_u16_roundtrip(id);
    lemma_le_u16_roundtrip(schema_id);
    assert(r.subrange(0, r.len() as int) =~= r);
    lemma_bytes_split(r, 0, le_u16_bytes(id) + le_u16_bytes(schema_id) + mcap_string_bytes(topic), tail);
    lemma_bytes_split(r, 0, le_u16_bytes(id) + le_u16_bytes(schema_id), mcap_string_bytes(topic));
    lemma_bytes_split(r, 0, le_u16_bytes(id), le_u16_bytes(schema_id));
    lemma_read_mcap_string(r, 4, topic);
}

/// A Schema record written from an id and a name (then any further bytes)
/// reads back as those.
pub proof fn law_schema_record_roundtrip(id: u16, name: Seq<char>, tail: Seq<u8>)
    requires
        encode_utf8(name).len() <= u32::MAX,
    ensures
        spec_schema_record(le_u16_bytes(id) + mcap_string_bytes(name) + tail) == Some(
            SchemaInfoView { id, name },
        ),
{
    let r = le_u16_bytes(id) + mcap_string_bytes(name) + tail;
    lemma_le_u16_roundtrip(id);
    assert(r.subrange(0, r.len() as int) =~= r);
    lemma_bytes_split(r, 0, le_u16_bytes(id) + mcap_string_bytes(name), tail);
    lemma_bytes_split(r, 0, le_u16_bytes(id), mcap_string_bytes(name));
    lemma_read_mcap_string(r, 2, name);
}

/// Byte `k` (below 10) of an entry of a ChunkIndex record's
/// message-index-offset map: the channel id as a little-endian `u16`, then
/// the offset as a little-endian `u64`.
pub open spec fn offset_entry_byte(e: (u16, u64), k: int) -> u8 {
    if k < 2 {
        le_u16_bytes(e.0)[k]
    } else {
        le_u64_bytes(e.1)[k - 2]
    }
}

/// The bytes of a message-index-offset map's entries, in order.
pub open spec fn offset_entries_bytes(entries: Seq<(u16, u64)>) -> Seq<u8> {
    Seq::new(10 * entries.len(), |j: int| offset_entry_byte(entries[j / 10], j % 10))
}

/// The content of a ChunkIndex record: start and end time, chunk start
/// offset and chunk length (each a little-endian `u64`), the byte length of
/// the message-index-offset map (a little-endian `u32`) and its entries,
/// then the rest of the record (`tail`: index length, compression, sizes).
pub open spec fn chunk_index_record_bytes(
    start_time: u64,
    end_time: u64,
    chunk_start_offset: u64,
    chunk_length: u64,
    entries: Seq<(u16, u64)>,
    tail: Seq<u8>,
) -> Seq<u8> {
    le_u64_bytes(start_time) + le_u64_bytes(end_time) + le_u64_bytes(chunk_start_offset)
        + le_u64_bytes(chunk_length) + le_u32_bytes((10 * entries.len()) as u32)
        + offset_entries_bytes(entries) + tail
}

/// A ChunkIndex record written from its chunk's offset and length and the
/// (channel id, offset) entries of its map reads back as that chunk, with
/// exactly the channel ids of the entries, in order.
#[verifier::spinoff_prover]
pub proof fn law_chunk_index_roundtrip(
    start_time: u64,
    end_time: u64,
    chunk_start_offset: u64,
    chunk_length: u64,
    entries: Seq<(u16, u64)>,
    tail: Seq<u8>,
)
    requires
        10 * entries.len() <= u32::MAX,
    ensures
        spec_chunk_index_record(
            chunk_index_record_bytes(
                start_time,
                end_time,
                chunk_start_offset,
                chunk_length,
                entries,
                tail,
            ),
        ) == Some(
            ChunkIndexInfoView {
                chunk_start_offset,
                chunk_length,
                channel_ids: entries.map_values(|e: (u16, u64)| e.0),
            },
        ),
{
    let r = chunk_index_record_bytes(start_time, end_time, chunk_start_offset, chunk_length, entries, tail);
    let n = entries.len();
    let m = offset_entries_bytes(entries);
    lemma_le_u64_roundtrip(start_time);
    lemma_le_u64_roundtrip(end_time);
    lemma_le_u64_roundtrip(chunk_start_offset);
    lemma_le_u64_roundtrip(chunk_length);
    lemma_le_u32_roundtrip((10 * n) as u32);
    let head = le_u64_bytes(start_time) + le_u64_bytes(end_time) + le_u64_bytes(chunk_start_offset)
        + le_u64_bytes(chunk_length) + le_u32_bytes((10 * n) as u32);
    assert(head.len() == 36);
    assert(r =~= head + m + tail);
    assert(r.subrange(16, 24) =~= le_u64_bytes(chunk_start_offset));
    assert(r.subrange(24, 32) =~= le_u64_bytes(chunk_length));
    assert(r.subrange(32, 36) =~= le_u32_bytes((10 * n) as u32));
    let ids = Seq::new(((10 * n) as u32 / 10) as nat, |i: int| u16_at(r, 36 + 10 * i));
    assert forall|i: int| 0 <= i < n implies #[trigger] ids[i] == entries[i].0 by {
        lemma_entry_id(entries, i);
        assert(r.subrange(36 + 10 * i, 36 + 10 * i + 2) =~= m.subrange(10 * i, 10 * i + 2));
    }
    assert(ids =~= entries.map_values(|e: (u16, u64)| e.0));
}

/// Entry `i` of a written map starts with its channel id.
proof fn lemma_entry_id(entries: Seq<(u16, u64)>, i: int)
    requires
        0 <= i < entries.len(),
    ensures
        10 * i + 2 <= offset_entries_bytes(entries).len(),
        offset_entries_bytes(entries).subrange(10 * i, 10 * i + 2) == le_u16_bytes(entries[i].0),
        le_u16_value(le_u16_bytes(entries[i].0)) == entries[i].0,
{
    let n = entries.len();
    let m = offset_entries_bytes(entries);
    lemma_le_u16_roundtrip(entries[i].0);
    assert(10 * i + 2 <= 10 * n) by (nonlinear_arith)
        requires
            0 <= i < n,
    ;
    assert((10 * i) / 10 == i && (10 * i) % 10 == 0) by (nonlinear_arith)
        requires
            0 <= i,
    ;
    assert((10 * i + 1) / 10 == i && (10 * i + 1) % 10 == 1) by (nonlinear_arith)
        requires
            0 <= i,
    ;
    assert(m.subrange(10 * i, 10 * i + 2) =~= le_u16_bytes(entries[i].0));
}

/// Entry `i` of a written map holds its value after the channel id.
proof fn lemma_entry_value(entries: Seq<(u16, u64)>, i: int)
    requires
        0 <= i < entries.len(),
    ensures
        10 * i + 10 <= offset_entries_bytes(entries).len(),
        offset_entries_bytes(entries).subrange(10 * i + 2, 10 * i + 10) == le_u64_bytes(entries[i].1),
        le_u64_value(le_u64_bytes(entries[i].1)) == entries[i].1,
{
    let n = entries.len();
    let m = offset_entries_bytes(entries);
    lemma_le_u64_roundtrip(entries[i].1);
    assert(10 * i + 10 <= 10 * n) by (nonlinear_arith)
        requires
            0 <= i < n,
    ;
    assert(m.subrange(10 * i + 2, 10 * i + 10) =~= le_u64_bytes(entries[i].1)) by {
        assert forall|j: int| 0 <= j < 8 implies m.subrange(10 * i + 2, 10 * i + 10)[j]
            == le_u64_bytes(entries[i].1)[j] by {
            assert((10 * i + 2 + j) / 10 == i && (10 * i + 2 + j) % 10 == j + 2) by (nonlinear_arith)
                requires
                    0 <= i,
                    0 <= j < 8,
            ;
            assert(10 * i + 2 + j < 10 * n) by (nonlinear_arith)
                requires
                    0 <= i < n,
                    0 <= j < 8,
            ;
            assert(m[10 * i + 2 + j] == offset_entry_byte(entries[(10 * i + 2 + j) / 10], (10 * i + 2
                + j) % 10));
        }
    }
}

/// The message counts of (channel id, count) entries, a later entry for a
/// channel replacing an earlier one.
pub open spec fn entries_map(entries: Seq<(u16, u64)>) -> Map<u16, u64>
    decreases entries.len(),
{
    if entries.len() == 0 {
        Map::empty()
    } else {
        entries_map(entries.drop_last()).insert(entries.last().0, entries.last().1)
    }
}

proof fn lemma_count_entries(r: Seq<u8>, entries: Seq<(u16, u64)>, k: nat)
    requires
        k <= entries.len(),
        bytes_at(r, 46, offset_entries_bytes(entries)),
    ensures
        spec_count_entries(r, 46 + 10 * k as int, 46 + 10 * entries.len() as int, entries_map(entries.take(k as int)))
            == entries_map(entries),
    decreases entries.len() - k,
{
    let n = entries.len();
    let m = offset_entries_bytes(entries);
    if k < n {
        lemma_entry_id(entries, k as int);
        lemma_entry_value(entries, k as int);
        lemma_bytes_part(r, 46, m, 10 * k as int, 10 * k as int + 2);
        lemma_bytes_part(r, 46, m, 10 * k as int + 2, 10 * k as int + 10);
        assert(entries.take(k as int + 1).drop_last() =~= entries.take(k as int));
        assert(entries.take(k as int + 1).last() == entries[k as int]);
        lemma_count_entries(r, entries, k + 1);
    } else {
        assert(entries.take(k as int) =~= entries);
    }
}

/// The channel message counts of a Statistics record written from its 42
/// bytes of totals and times (`totals`) and the (channel id, count) entries
/// of its map read back as exactly those counts (a later entry for a channel
/// replacing an earlier one).
#[verifier::spinoff_prover]
pub proof fn law_statistics_counts_roundtrip(totals: Seq<u8>, entries: Seq<(u16, u64)>, tail: Seq<u8>)
    requires
        totals.len() == 42,
        10 * entries.len() <= u32::MAX,
    ensures
        spec_statistics_counts(
            totals + le_u32_bytes((10 * entries.len()) as u32) + offset_entries_bytes(entries) + tail,
        ) == Some(entries_map(entries)),
{
    let n = entries.len();
    let m = offset_entries_bytes(entries);
    let a = totals + le_u32_bytes((10 * n) as u32);
    let r = a + m + tail;
    lemma_le_u32_roundtrip((10 * n) as u32);
    assert(r.subrange(0, r.len() as int) =~= r);
    lemma_bytes_split(r, 0, a + m, tail);
    lemma_bytes_split(r, 0, a, m);
    lemma_bytes_split(r, 0, totals, le_u32_bytes((10 * n) as u32));
    assert(entries.take(0) =~= Seq::<(u16, u64)>::empty());
    lemma_count_entries(r, entries, 0);
}

/// A summary section holding just one ChunkIndex record (opcode, then the
/// content length as a little-endian `u64`, then the content written as in
/// `law_chunk_index_roundtrip`) lists that one chunk, with exactly the
/// channel ids of its entries.
pub proof fn law_summary_chunk_index(
    start_time: u64,
    end_time: u64,
    chunk_start_offset: u64,
    chunk_length: u64,
    entries: Seq<(u16, u64)>,
    tail: Seq<u8>,
)
    requires
        10 * entries.len() <= u32::MAX,
        36 + 10 * entries.len() + tail.len() <= usize::MAX,
    ensures
        ({
            let rec = chunk_index_record_bytes(
                start_time,
                end_time,
                chunk_start_offset,
                chunk_length,
                entries,
                tail,
            );
            spec_parse_summary(seq![OP_CHUNK_INDEX] + le_u64_bytes(rec.len() as u64) + rec).chunk_indexes
                == seq![
                ChunkIndexInfoView {
                    chunk_start_offset,
                    chunk_length,
                    channel_ids: entries.map_values(|e: (u16, u64)| e.0),
                },
            ]
        }),
{
    let rec = chunk_index_record_bytes(start_time, end_time, chunk_start_offset, chunk_length, entries, tail);
    law_chunk_index_roundtrip(start_time, end_time, chunk_start_offset, chunk_length, entries, tail);
    let d = seq![OP_CHUNK_INDEX] + le_u64_bytes(rec.len() as u64) + rec;
    lemma_le_u64_roundtrip(rec.len() as u64);
    assert(d.subrange(1, 9) =~= le_u64_bytes(rec.len() as u64));
    assert(record_len(d, 0) == rec.len());
    assert(d.subrange(9, 9 + rec.len() as int) =~= rec);
    assert(d[0] == OP_CHUNK_INDEX);
    let acc = summary_with(empty_summary(), OP_CHUNK_INDEX, rec);
    assert(spec_summary_from(d, 9 + rec.len() as int, acc) == acc);
}

/// The entries from `pos` to `end` of a channel-count map, inserted in order.
pub open spec fn spec_count_entries(r: Seq<u8>, pos: int, end: int, m: Map<u16, u64>) -> Map<
    u16,
    u64,
>
    decreases end - pos,
{
    if pos + 10 <= end {
        spec_count_entries(r, pos + 10, end, m.insert(u16_at(r, pos), u64_at(r, pos + 2)))
    } else {
        m
    }
}

/// The per-channel message counts of a Statistics record: empty for a record
/// under 40 bytes, unreadable for one under 46, otherwise the map that
/// follows the 42 bytes of totals (empty if it overruns the record).
pub open spec fn spec_statistics_counts(r: Seq<u8>) -> Option<Map<u16, u64>> {
    if r.len() < 40 {
        Some(Map::empty())
    } else if r.len() < 46 {
        None
    } else {
        let map_bytes = u32_at(r, 42);
        if 46 + map_bytes <= r.len() {
            Some(spec_count_entries(r, 46, 46 + map_bytes, Map::empty()))
        } else {
            Some(Map::empty())
        }
    }
}

/// Content length of the record whose opcode is at `pos`.
pub open spec fn record_len(data: Seq<u8>, pos: int) -> int {
    (u64_at(data, pos + 1) as usize) as int
}

/// `acc` with the record `rec`, of kind `opcode`, taken in: schemas,
/// channels and chunk indexes that decode are appended, and readable
/// statistics replace the counts; other records are ignored.
pub open spec fn summary_with(acc: McapSummaryView, opcode: u8, rec: Seq<u8>) -> McapSummaryView {
    if opcode == OP_SCHEMA && spec_schema_record(rec) is Some {
        McapSummaryView { schemas: acc.schemas.push(spec_schema_record(rec).unwrap()), ..acc }
    } else if opcode == OP_CHANNEL && spec_channel_record(rec) is Some {
        McapSummaryView { channels: acc.channels.push(spec_channel_record(rec).unwrap()), ..acc }
    } else if opcode == OP_CHUNK_INDEX && spec_chunk_index_record(rec) is Some {
        McapSummaryView {
            chunk_indexes: acc.chunk_indexes.push(spec_chunk_index_record(rec).unwrap()),
            ..acc
        }
    } else if opcode == OP_STATISTICS && spec_statistics_counts(rec) is Some {
        McapSummaryView { channel_message_counts: spec_statistics_counts(rec).unwrap(), ..acc }
    } else {
        acc
    }
}

/// The summary gathered from the records from `pos` on: each record is an
/// opcode, a `u64` content length and the content; the walk stops at the
/// first record that does not fit.
pub open spec fn spec_summary_from(data: Seq<u8>, pos: int, acc: McapSummaryView) -> McapSummaryView
    decreases data.len() - pos,
{
    if pos < 0 || pos + 9 > data.len() {
        acc
    } else {
        let p = pos + 9;
        let len = record_len(data, pos);
        if p + len > data.len() {
            acc
        } else {
            spec_summary_from(data, p + len, summary_with(acc, data[pos], data.subrange(p, p + len)))
        }
    }
}

pub open spec fn empty_summary() -> McapSummaryView {
    McapSummaryView {
        channels: Seq::empty(),
        schemas: Seq::empty(),
        chunk_indexes: Seq::empty(),
        channel_message_counts: Map::empty(),
    }
}

/// The summary that a summary section holds.
pub open spec fn spec_parse_summary(data: Seq<u8>) -> McapSummaryView {
    spec_summary_from(data, 0, empty_summary())
}

fn read_mcap_string(r: &[u8], pos: usize) -> (res: Option<(String, usize)>)
    ensures
        match mcap_string(r@, pos as int) {
            Some((v, p)) => res matches Some((s, q)) && s@ == v && q == p,
            None => res is None,
        },
{
    if pos > r.len() || r.len() - pos < 4 {
        return None;
    }
    let len = read_u32_at(r, pos) as usize;
    let p = pos + 4;
    if len == 0 {
        return Some((String::new(), p));
    }
    if r.len() - p < len {
        return None;
    }
    Some((lossy_string(&r[p..p + len]), p + len))
}

fn parse_schema_record(data: &[u8]) -> (r: Option<SchemaInfo>)
    ensures
        match spec_schema_record(data@) {
            Some(v) => r matches Some(s) && s@ == v,
            None => r is None,
        },
{
    if data.len() < 2 {
        return None;
    }
    let id = read_u16_at(data, 0);
    // skip encoding + data fields — we only need id and name
    match read_mcap_string(data, 2) {
        Some((name, _)) => Some(SchemaInfo { id, name }),
        None => None,
    }
}

fn parse_channel_record(data: &[u8]) -> (r: Option<ChannelInfo>)
    ensures
        match spec_channel_record(data@) {
            Some(v) => r matches Some(c) && c@ == v,
            None => r is None,
        },
{
    if data.len() < 4 {
        return None;
    }
    let id = read_u16_at(data, 0);
    let schema_id = read_u16_at(data, 2);
    // skip message_encoding + metadata — we only need id, schema_id, topic
    match read_mcap_string(data, 4) {
        Some((topic, _)) => Some(ChannelInfo { id, schema_id, topic }),
        None => None,
    }
}

fn parse_chunk_index_record(data: &[u8]) -> (r: Option<ChunkIndexInfo>)
    ensures
        match spec_chunk_index_record(data@) {
            Some(v) => r matches Some(c) && c@ == v,
            None => r is None,
        },
{
    if data.len() < 36 {
        return None;
    }
    let chunk_start_offset = read_u64_at(data, 16);
    let chunk_length = read_u64_at(data, 24);
    // message_index_offsets: Map<uint16, uint64>
    //   serialized as: entries_byte_length(u32) + entries
    //   each entry: channel_id(u16) + offset(u64) = 10 bytes
    let map_bytes = read_u32_at(data, 32) as usize;
    let mut channel_ids: Vec<u16> = Vec::new();
    if map_bytes <= data.len() - 36 {
        let map_end = 36 + map_bytes;
        let mut pos: usize = 36;
        while map_end - pos >= 10
            invariant
                map_end == 36 + map_bytes,
                map_end <= data.len(),
                36 <= pos <= map_end,
                (pos - 36) % 10 == 0,
                channel_ids@ == Seq::new(((pos - 36) / 10) as nat, |i: int| u16_at(data@, 36 + 10 * i)),
            decreases map_end - pos,
        {
            let ch_id = read_u16_at(data, pos);
            channel_ids.push(ch_id);
            pos = pos + 10;
            proof {
                assert(channel_ids@ =~= Seq::new(((pos - 36) / 10) as nat, |i: int| u16_at(data@, 36 + 10 * i)));
            }
        }
        assert((pos - 36) / 10 == map_bytes / 10);
    }
    Some(ChunkIndexInfo { chunk_start_offset, chunk_length, channel_ids })
}

fn parse_statistics_channel_counts(data: &[u8]) -> (r: Option<HashMap<u16, u64>>)
    ensures
        match spec_statistics_counts(data@) {
            Some(m) => r matches Some(h) && h@ == m,
            None => r is None,
        },
{
    if data.len() < 40 {
        return Some(HashMap::new());
    }
    // Skip to channel_message_counts map:
    //   message_count(8) + schema_count(2) + channel_count(4) +
    //   attachment_count(4) + metadata_count(4) + chunk_count(4) +
    //   message_start_time(8) + message_end_time(8) = 42 bytes
    if data.len() < 46 {
        return None;
    }
    let map_bytes = read_u32_at(data, 42) as usize;
    let mut counts: HashMap<u16, u64> = HashMap::new();
    if map_bytes <= data.len() - 46 {
        let map_end = 46 + map_bytes;
        let mut pos: usize = 46;
        while map_end - pos >= 10
            invariant
                map_end == 46 + map_bytes,
                map_end <= data.len(),
                46 <= pos <= map_end,
                spec_count_entries(data@, 46, map_end as int, Map::empty()) == spec_count_entries(
                    data@,
                    pos as int,
                    map_end as int,
                    counts@,
                ),
            decreases map_end - pos,
        {
            let ch_id = read_u16_at(data, pos);
            let count = read_u64_at(data, pos + 2);
            counts.insert(ch_id, count);
            pos = pos + 10;
        }
    }
    Some(counts)
}

/// Parse the summary section to extract channels, schemas, chunk indexes, and statistics.
pub fn parse_summary(data: &[u8]) -> (r: McapSummary)
    ensures
        r@ == spec_parse_summary(data@),
{
    let mut channels: Vec<ChannelInfo> = Vec::new();
    let mut schemas: Vec<SchemaInfo> = Vec::new();
    let mut chunk_indexes: Vec<ChunkIndexInfo> = Vec::new();
    let mut channel_message_counts: HashMap<u16, u64> = HashMap::new();
    let mut pos: usize = 0;
    proof {
        assert(channels@.map_values(|c: ChannelInfo| c@) =~= Seq::empty());
        assert(schemas@.map_values(|s: SchemaInfo| s@) =~= Seq::empty());
        assert(chunk_indexes@.map_values(|c: ChunkIndexInfo| c@) =~= Seq::empty());
    }
    loop
        invariant
            pos <= data.len(),
            spec_parse_summary(data@) == spec_summary_from(
                data@,
                pos as int,
                summary_view(channels@, schemas@, chunk_indexes@, channel_message_counts@),
            ),
        ensures
            spec_parse_summary(data@) == summary_view(
                channels@,
                schemas@,
                chunk_indexes@,
                channel_message_counts@,
            ),
        decreases data.len() - pos,
    {
        if data.len() - pos < 9 {
            break;
        }
        let opcode = data[pos];
        let content_len = #[verifier::truncate] (read_u64_at(data, pos + 1) as usize);
        let p = pos + 9;
        if content_len > data.len() - p {
            break;
        }
        let record_data = &data[p..p + content_len];
        let ghost acc = summary_view(channels@, schemas@, chunk_indexes@, channel_message_counts@);
        if opcode == OP_SCHEMA {
            if let Some(s) = parse_schema_record(record_data) {
                let ghost before = schemas@;
                schemas.push(s);
                assert(schemas@.map_values(|s: SchemaInfo| s@) =~= before.map_values(
                    |s: SchemaInfo| s@,
                ).push(s@));
            }
        } else if opcode == OP_CHANNEL {
            if let Some(c) = parse_channel_record(record_data) {
                let ghost before = channels@;
                channels.push(c);
                assert(channels@.map_values(|c: ChannelInfo| c@) =~= before.map_values(
                    |c: ChannelInfo| c@,
                ).push(c@));
            }
        } else if opcode == OP_CHUNK_INDEX {
            if let Some(ci) = parse_chunk_index_record(record_data) {
                let ghost before = chunk_indexes@;
                chunk_indexes.push(ci);
                assert(chunk_indexes@.map_values(|c: ChunkIndexInfo| c@) =~= before.map_values(
                    |c: ChunkIndexInfo| c@,
                ).push(ci@));
            }
        } else if opcode == OP_STATISTICS {
            if let Some(counts) = parse_statistics_channel_counts(record_data) {
                channel_message_counts = counts;
            }
        }
        // DataEnd, SummaryOffset and the like are skipped
        proof {
            let now = summary_view(channels@, schemas@, chunk_indexes@, channel_message_counts@);
            assert(now == summary_with(acc, opcode, record_data@));
        }
        pos = p + content_len;
    }
    McapSummary { channels, schemas, chunk_indexes, channel_message_counts }
}

// ---- Chunks ----

/// Why the messages of a chunk record could not be extracted.
#[derive(Debug, Clone)]
pub enum ChunkError {
    /// Chunk record too short
    TooShort,
    /// The record is not a chunk; holds its opcode
    NotChunk(u8),
    /// The chunk header ends early
    UnexpectedEof,
    /// Chunk records data extends beyond record boundary
    RecordsOutOfBounds,
    /// Unsupported chunk compression; holds its name
    UnsupportedCompression(String),
    /// The compressed records could not be decompressed
    Decompression,
}

pub enum ChunkErrorView {
    TooShort,
    NotChunk(u8),
    UnexpectedEof,
    RecordsOutOfBounds,
    UnsupportedCompression(Seq<char>),
    Decompression,
}

impl View for ChunkError {
    type V = ChunkErrorView;

    open spec fn view(&self) -> ChunkErrorView {
        match self {
            ChunkError::TooShort => ChunkErrorView::TooShort,
            ChunkError::NotChunk(op) => ChunkErrorView::NotChunk(*op),
            ChunkError::UnexpectedEof => ChunkErrorView::UnexpectedEof,
            ChunkError::RecordsOutOfBounds => ChunkErrorView::RecordsOutOfBounds,
            ChunkError::UnsupportedCompression(name) => ChunkErrorView::UnsupportedCompression(
                name@,
            ),
            ChunkError::Decompression => ChunkErrorView::Decompression,
        }
    }
}

#[verifier::external_type_specification]
#[verifier::external_body]
pub struct ExIoError(std::io::Error);

/// What `lz4_flex::frame::FrameDecoder`, read to the end, makes of a
/// complete LZ4 frame stream; `None` where it reports an error.
pub uninterp spec fn lz4_frame_decoded(input: Seq<u8>) -> Option<Seq<u8>>;

/// What `zstd::decode_all` makes of a zstd stream; `None` where it reports an
/// error.
pub uninterp spec fn zstd_decoded(input: Seq<u8>) -> Option<Seq<u8>>;

/// `lz4_flex::frame::FrameDecoder::new(input)` read to its end.
#[verifier::external_body]
fn lz4_frame_decompress(input: &[u8]) -> (r: Result<Vec<u8>, std::io::Error>)
    ensures
        match lz4_frame_decoded(input@) {
            Some(out) => r matches Ok(v) && v@ == out,
            None => r is Err,
        },
        r matches Ok(v) ==> v@.len() <= isize::MAX,
{
    let mut decoder = lz4_flex::frame::FrameDecoder::new(input);
    let mut buf = Vec::new();
    decoder.read_to_end(&mut buf)?;
    Ok(buf)
}

/// `zstd::decode_all(input)`.
#[verifier::external_body]
fn zstd_decompress(input: &[u8]) -> (r: Result<Vec<u8>, std::io::Error>)
    ensures
        match zstd_decoded(input@) {
            Some(out) => r matches Ok(v) && v@ == out,
            None => r is Err,
        },
        r matches Ok(v) ==> v@.len() <= isize::MAX,
{
    zstd::decode_all(input)
}

/// The compression name and the bounds of the compressed records of a chunk
/// record (opcode, record length, message start and end times, uncompressed
/// size and CRC, compression string, records length, records).
pub open spec fn spec_chunk_parts(record: Seq<u8>) -> Result<(Seq<char>, int, int), ChunkErrorView> {
    if record.len() < 9 {
        Err(ChunkErrorView::TooShort)
    } else if record[0] != OP_CHUNK {
        Err(ChunkErrorView::NotChunk(record[0]))
    } else if record.len() < 41 {
        Err(ChunkErrorView::UnexpectedEof)
    } else {
        let comp_len = u32_at(record, 37);
        let p = 41 + comp_len;
        if p + 8 > record.len() {
            Err(ChunkErrorView::UnexpectedEof)
        } else {
            let start = p + 8;
            let end = start + (u64_at(record, p) as usize);
            if end > record.len() {
                Err(ChunkErrorView::RecordsOutOfBounds)
            } else {
                Ok((lossy_text(record.subrange(41, p)), start, end))
            }
        }
    }
}

/// The records that `compressed` holds under the named compression.
pub open spec fn spec_decompress(compression: Seq<char>, compressed: Seq<u8>) -> Result<
    Seq<u8>,
    ChunkErrorView,
> {
    if compression == ""@ || compression == "none"@ {
        Ok(compressed)
    } else if compression == "lz4"@ {
        match lz4_frame_decoded(compressed) {
            Some(out) => Ok(out),
            None => Err(ChunkErrorView::Decompression),
        }
    } else if compression == "zstd"@ {
        match zstd_decoded(compressed) {
            Some(out) => Ok(out),
            None => Err(ChunkErrorView::Decompression),
        }
    } else {
        Err(ChunkErrorView::UnsupportedCompression(compression))
    }
}

/// The messages, on the channels in `filter`, among the records from `pos`
/// on; the walk stops at the first record that does not fit. A message record
/// is a channel id, a sequence number, log and publish times, then the
/// payload.
pub open spec fn spec_records_messages(data: Seq<u8>, pos: int, filter: Seq<u16>) -> Seq<
    RawMessageView,
>
    decreases data.len() - pos,
{
    if pos < 0 || pos + 9 > data.len() {
        Seq::empty()
    } else {
        let p = pos + 9;
        let len = record_len(data, pos);
        if p + len > data.len() {
            Seq::empty()
        } else {
            let rest = spec_records_messages(data, p + len, filter);
            if data[pos] == OP_MESSAGE && len >= 22 && filter.contains(u16_at(data, p)) {
                seq![RawMessageView { log_time: u64_at(data, p + 6), data: data.subrange(p + 22, p + len) }]
                    + rest
            } else {
                rest
            }
        }
    }
}

/// A Message record as written: its opcode and content length (a
/// little-endian `u64`), then the channel id (`u16`), sequence number
/// (`u32`), log time and publish time (`u64`s), all little-endian, and the
/// payload.
pub open spec fn message_record_bytes(m: (u16, u32, u64, u64, Seq<u8>)) -> Seq<u8> {
    seq![OP_MESSAGE] + le_u64_bytes((22 + m.4.len()) as u64) + le_u16_bytes(m.0) + le_u32_bytes(m.1)
        + le_u64_bytes(m.2) + le_u64_bytes(m.3) + m.4
}

/// Message records written one after another.
pub open spec fn message_records_bytes(ms: Seq<(u16, u32, u64, u64, Seq<u8>)>) -> Seq<u8>
    decreases ms.len(),
{
    if ms.len() == 0 {
        Seq::empty()
    } else {
        message_record_bytes(ms[0]) + message_records_bytes(ms.drop_first())
    }
}

/// The log time and payload of each of the written messages whose channel
/// is in `filter`, in order.
pub open spec fn messages_on_channels(ms: Seq<(u16, u32, u64, u64, Seq<u8>)>, filter: Seq<u16>) -> Seq<
    RawMessageView,
>
    decreases ms.len(),
{
    if ms.len() == 0 {
        Seq::empty()
    } else {
        let rest = messages_on_channels(ms.drop_first(), filter);
        if filter.contains(ms[0].0) {
            seq![RawMessageView { log_time: ms[0].2, data: ms[0].4 }] + rest
        } else {
            rest
        }
    }
}

/// Walking the records that follow a prefix is walking them alone.
proof fn lemma_records_shift(x: Seq<u8>, y: Seq<u8>, q: int, filter: Seq<u16>)
    requires
        0 <= q,
    ensures
        spec_records_messages(x + y, x.len() + q, filter) == spec_records_messages(y, q, filter),
    decreases y.len() - q,
{
    let d = x + y;
    let n = x.len() as int;
    if q + 9 <= y.len() {
        assert(d.subrange(n + q + 1, n + q + 9) =~= y.subrange(q + 1, q + 9));
        let p = q + 9;
        let len = record_len(y, q);
        assert(record_len(d, n + q) == len);
        assert(d[n + q] == y[q]);
        if p + len <= y.len() {
            lemma_records_shift(x, y, p + len, filter);
            if len >= 22 {
                assert(d.subrange(n + p, n + p + 2) =~= y.subrange(p, p + 2));
                assert(d.subrange(n + p + 6, n + p + 14) =~= y.subrange(p + 6, p + 14));
                assert(d.subrange(n + p + 22, n + p + len) =~= y.subrange(p + 22, p + len));
            }
        }
    }
}

/// The fields of a written Message record, followed by anything, read back.
#[verifier::spinoff_prover]
proof fn lemma_message_head(m: (u16, u32, u64, u64, Seq<u8>), tail: Seq<u8>)
    requires
        22 + m.4.len() <= usize::MAX,
    ensures
        ({
            let d = message_record_bytes(m) + tail;
            &&& message_record_bytes(m).len() == 31 + m.4.len()
            &&& d[0] == OP_MESSAGE
            &&& record_len(d, 0) == 22 + m.4.len()
            &&& u16_at(d, 9) == m.0
            &&& u64_at(d, 15) == m.2
            &&& d.subrange(31, 31 + m.4.len() as int) == m.4
        }),
{
    let head = message_record_bytes(m);
    let d = head + tail;
    let len = (22 + m.4.len()) as u64;
    lemma_le_u64_roundtrip(len);
    lemma_le_u16_roundtrip(m.0);
    lemma_le_u64_roundtrip(m.2);
    let a1 = seq![OP_MESSAGE] + le_u64_bytes(len);
    let a2 = a1 + le_u16_bytes(m.0);
    let a3 = a2 + le_u32_bytes(m.1);
    let a4 = a3 + le_u64_bytes(m.2);
    let a5 = a4 + le_u64_bytes(m.3);
    assert(head == a5 + m.4);
    assert(d.subrange(0, d.len() as int) =~= d);
    lemma_bytes_split(d, 0, head, tail);
    lemma_bytes_split(d, 0, a5, m.4);
    lemma_bytes_split(d, 0, a4, le_u64_bytes(m.3));
    lemma_bytes_split(d, 0, a3, le_u64_bytes(m.2));
    lemma_bytes_split(d, 0, a2, le_u32_bytes(m.1));
    lemma_bytes_split(d, 0, a1, le_u16_bytes(m.0));
    lemma_bytes_split(d, 0, seq![OP_MESSAGE], le_u64_bytes(len));
}

/// Message records written one after another read back as the log times
/// and payloads of those messages whose channel is in `filter`, in order:
/// no message is lost, added or moved, and none is taken from a channel
/// outside the filter.
#[verifier::spinoff_prover]
pub proof fn law_message_records_roundtrip(
    ms: Seq<(u16, u32, u64, u64, Seq<u8>)>,
    filter: Seq<u16>,
)
    requires
        forall|i: int| 0 <= i < ms.len() ==> 22 + (#[trigger] ms[i]).4.len() <= usize::MAX,
    ensures
        spec_records_messages(message_records_bytes(ms), 0, filter) == messages_on_channels(ms, filter),
    decreases ms.len(),
{
    if ms.len() > 0 {
        let m = ms[0];
        let rest = ms.drop_first();
        assert forall|i: int| 0 <= i < rest.len() implies 22 + (#[trigger] rest[i]).4.len()
            <= usize::MAX by {
            assert(rest[i] == ms[i + 1]);
        }
        law_message_records_roundtrip(rest, filter);
        let head = message_record_bytes(m);
        let tail = message_records_bytes(rest);
        let d = head + tail;
        lemma_records_shift(head, tail, 0, filter);
        lemma_message_head(m, tail);
        assert(head.len() == 9 + record_len(d, 0));
        assert(spec_records_messages(d, 0, filter) == (if filter.contains(m.0) {
            seq![RawMessageView { log_time: m.2, data: m.4 }] + spec_records_messages(tail, 0, filter)
        } else {
            spec_records_messages(tail, 0, filter)
        }));
        assert(head.len() + 0 == 9 + record_len(d, 0));
    }
}

/// The messages of a chunk record on the channels in `filter`.
pub open spec fn spec_extract_messages_from_chunk(record: Seq<u8>, filter: Seq<u16>) -> Result<
    Seq<RawMessageView>,
    ChunkErrorView,
> {
    match spec_chunk_parts(record) {
        Err(e) => Err(e),
        Ok((compression, start, end)) => match spec_decompress(
            compression,
            record.subrange(start, end),
        ) {
            Err(e) => Err(e),
            Ok(records) => Ok(spec_records_messages(records, 0, filter)),
        },
    }
}

/// A Chunk record as written: opcode, record length, message start and end
/// times, uncompressed size (little-endian `u64`s), CRC (`u32`), the
/// compression name as a string, then the records' length (`u64`) and the
/// records.
pub open spec fn chunk_record_bytes(
    record_length: u64,
    start_time: u64,
    end_time: u64,
    uncompressed_size: u64,
    crc: u32,
    compression: Seq<char>,
    records: Seq<u8>,
) -> Seq<u8> {
    seq![OP_CHUNK] + le_u64_bytes(record_length) + le_u64_bytes(start_time) + le_u64_bytes(end_time)
        + le_u64_bytes(uncompressed_size) + le_u32_bytes(crc) + mcap_string_bytes(compression)
        + le_u64_bytes(records.len() as u64) + records
}

/// Where the parts of a written Chunk record lie.
#[verifier::spinoff_prover]
proof fn lemma_chunk_layout(
    record_length: u64,
    start_time: u64,
    end_time: u64,
    uncompressed_size: u64,
    crc: u32,
    compression: Seq<char>,
    records: Seq<u8>,
)
    ensures
        ({
            let r = chunk_record_bytes(
                record_length,
                start_time,
                end_time,
                uncompressed_size,
                crc,
                compression,
                records,
            );
            let l = mcap_string_bytes(compression).len() as int;
            &&& r.len() == 37 + l + 8 + records.len()
            &&& r[0] == OP_CHUNK
            &&& bytes_at(r, 37, mcap_string_bytes(compression))
            &&& bytes_at(r, 37 + l, le_u64_bytes(records.len() as u64))
            &&& bytes_at(r, 37 + l + 8, records)
        }),
{
    let r = chunk_record_bytes(record_length, start_time, end_time, uncompressed_size, crc, compression, records);
    let name = mcap_string_bytes(compression);
    let a1 = seq![OP_CHUNK] + le_u64_bytes(record_length) + le_u64_bytes(start_time) + le_u64_bytes(
        end_time,
    ) + le_u64_bytes(uncompressed_size) + le_u32_bytes(crc);
    let a2 = a1 + name;
    let a3 = a2 + le_u64_bytes(records.len() as u64);
    assert(r == a3 + records);
    assert(a1.len() == 37);
    assert(r.subrange(0, r.len() as int) =~= r);
    lemma_bytes_split(r, 0, a3, records);
    lemma_bytes_split(r, 0, a2, le_u64_bytes(records.len() as u64));
    lemma_bytes_split(r, 0, a1, name);
    assert(r[0] == a1[0]);
}

/// The parts of a written Chunk record read back: its compression name and
/// the bounds of its records.
#[verifier::spinoff_prover]
proof fn lemma_chunk_parts(r: Seq<u8>, compression: Seq<char>, records: Seq<u8>)
    requires
        encode_utf8(compression).len() <= u32::MAX,
        records.len() <= usize::MAX,
        ({
            let l = mcap_string_bytes(compression).len() as int;
            &&& r.len() == 37 + l + 8 + records.len()
            &&& r[0] == OP_CHUNK
            &&& bytes_at(r, 37, mcap_string_bytes(compression))
            &&& bytes_at(r, 37 + l, le_u64_bytes(records.len() as u64))
            &&& bytes_at(r, 37 + l + 8, records)
        }),
    ensures
        ({
            let p = 37 + mcap_string_bytes(compression).len() as int + 8;
            &&& spec_chunk_parts(r) == Ok::<(Seq<char>, int, int), ChunkErrorView>(
                (compression, p, p + records.len() as int),
            )
            &&& r.subrange(p, p + records.len() as int) == records
        }),
{
    lemma_le_u64_roundtrip(records.len() as u64);
    lemma_read_mcap_string(r, 37, compression);
}

/// A Chunk record written without compression (named "" or "none") around
/// written Message records gives back the log times and payloads of those
/// messages whose channel is in `filter`, in order.
#[verifier::spinoff_prover]
pub proof fn law_uncompressed_chunk_roundtrip(
    record_length: u64,
    start_time: u64,
    end_time: u64,
    uncompressed_size: u64,
    crc: u32,
    compression: Seq<char>,
    ms: Seq<(u16, u32, u64, u64, Seq<u8>)>,
    filter: Seq<u16>,
)
    requires
        compression == ""@ || compression == "none"@,
        encode_utf8(compression).len() <= u32::MAX,
        forall|i: int| 0 <= i < ms.len() ==> 22 + (#[trigger] ms[i]).4.len() <= usize::MAX,
        message_records_bytes(ms).len() <= usize::MAX,
    ensures
        spec_extract_messages_from_chunk(
            chunk_record_bytes(
                record_length,
                start_time,
                end_time,
                uncompressed_size,
                crc,
                compression,
                message_records_bytes(ms),
            ),
            filter,
        ) == Ok::<Seq<RawMessageView>, ChunkErrorView>(messages_on_channels(ms, filter)),
{
    let records = message_records_bytes(ms);
    lemma_chunk_layout(record_length, start_time, end_time, uncompressed_size, crc, compression, records);
    let r = chunk_record_bytes(record_length, start_time, end_time, uncompressed_size, crc, compression, records);
    lemma_chunk_parts(r, compression, records);
    let p = 37 + mcap_string_bytes(compression).len() as int + 8;
    assert(spec_decompress(compression, r.subrange(p, p + records.len() as int))
        == Ok::<Seq<u8>, ChunkErrorView>(records));
    law_message_records_roundtrip(ms, filter);
}

pub open spec fn messages_view(msgs: Seq<RawMessage>) -> Seq<RawMessageView> {
    msgs.map_values(|m: RawMessage| m@)
}

/// Whether `id` is one of the channel ids in `filter`.
pub fn contains_channel(filter: &[u16], id: u16) -> (r: bool)
    ensures
        r == filter@.contains(id),
{
    let mut i: usize = 0;
    while i < filter.len()
        invariant
            i <= filter.len(),
            forall|j: int| 0 <= j < i ==> filter@[j] != id,
        decreases filter.len() - i,
    {
        if filter[i] == id {
            assert(filter@[i as int] == id);
            return true;
        }
        i = i + 1;
    }
    false
}

/// Message extraction from decompressed chunk records.
pub fn extract_messages_from_records(data: &[u8], channel_filter: &[u16]) -> (r: Vec<RawMessage>)
    ensures
        messages_view(r@) == spec_records_messages(data@, 0, channel_filter@),
        forall|i: int| 0 <= i < r.len() ==> (#[trigger] r@[i]).data.len() <= data.len(),
{
    let mut messages: Vec<RawMessage> = Vec::new();
    let mut pos: usize = 0;
    proof {
        assert(messages_view(messages@) =~= Seq::empty());
    }
    loop
        invariant
            pos <= data.len(),
            spec_records_messages(data@, 0, channel_filter@) == messages_view(messages@)
                + spec_records_messages(data@, pos as int, channel_filter@),
            forall|i: int| 0 <= i < messages.len() ==> (#[trigger] messages@[i]).data.len() <= data.len(),
        ensures
            spec_records_messages(data@, 0, channel_filter@) == messages_view(messages@),
            forall|i: int| 0 <= i < messages.len() ==> (#[trigger] messages@[i]).data.len() <= data.len(),
        decreases data.len() - pos,
    {
        if data.len() - pos < 9 {
            assert(messages_view(messages@) + Seq::<RawMessageView>::empty() =~= messages_view(messages@));
            break;
        }
        let opcode = data[pos];
        let content_len = #[verifier::truncate] (read_u64_at(data, pos + 1) as usize);
        let p = pos + 9;
        if content_len > data.len() - p {
            assert(messages_view(messages@) + Seq::<RawMessageView>::empty() =~= messages_view(messages@));
            break;
        }
        // Message record: opcode 0x05
        // Layout: channel_id(2) + sequence(4) + log_time(8) + publish_time(8) + data(rest)
        if opcode == OP_MESSAGE && content_len >= 22 {
            let ch_id = read_u16_at(data, p);
            if contains_channel(channel_filter, ch_id) {
                let log_time = read_u64_at(data, p + 6);
                let payload = slice_to_vec(&data[p + 22..p + content_len]);
                let ghost before = messages@;
                let m = RawMessage { log_time, data: payload };
                messages.push(m);
                proof {
                    assert(messages_view(messages@) =~= messages_view(before).push(m@));
                    let rest = spec_records_messages(data@, (p + content_len) as int, channel_filter@);
                    assert(messages_view(before) + (seq![m@] + rest) =~= messages_view(messages@)
                        + rest);
                }
            }
        }
        pos = p + content_len;
    }
    messages
}

/// Extract messages for specific channels from a downloaded chunk record.
///
/// `chunk_record` must start with the chunk opcode byte (0x06).
pub fn extract_messages_from_chunk(chunk_record: &[u8], channel_filter: &[u16]) -> (r: Result<
    Vec<RawMessage>,
    ChunkError,
>)
    ensures
        match spec_extract_messages_from_chunk(chunk_record@, channel_filter@) {
            Ok(msgs) => r matches Ok(v) && messages_view(v@) == msgs,
            Err(e) => r matches Err(e2) && e2@ == e,
        },
        chunk_record.len() <= isize::MAX ==> (r matches Ok(v) ==> forall|i: int|
            0 <= i < v.len() ==> (#[trigger] v@[i]).data.len() <= isize::MAX),
{
    if chunk_record.len() < 9 {
        return Err(ChunkError::TooShort);
    }
    if chunk_record[0] != OP_CHUNK {
        return Err(ChunkError::NotChunk(chunk_record[0]));
    }
    // message start and end times, uncompressed size and CRC, then the
    // compression string
    if chunk_record.len() < 41 {
        return Err(ChunkError::UnexpectedEof);
    }
    let comp_len = read_u32_at(chunk_record, 37) as usize;
    if chunk_record.len() - 41 < comp_len {
        return Err(ChunkError::UnexpectedEof);
    }
    let p = 41 + comp_len;
    let compression = lossy_string(&chunk_record[41..p]);
    // Compressed records data
    if chunk_record.len() - p < 8 {
        return Err(ChunkError::UnexpectedEof);
    }
    let records_length = #[verifier::truncate] (read_u64_at(chunk_record, p) as usize);
    let data_start = p + 8;
    if records_length > chunk_record.len() - data_start {
        return Err(ChunkError::RecordsOutOfBounds);
    }
    let compressed = &chunk_record[data_start..data_start + records_length];
    // Decompress
    let decompressed = if str_is(compression.as_str(), "") || str_is(compression.as_str(), "none") {
        slice_to_vec(compressed)
    } else if str_is(compression.as_str(), "lz4") {
        match lz4_frame_decompress(compressed) {
            Ok(v) => v,
            Err(_) => return Err(ChunkError::Decompression),
        }
    } else if str_is(compression.as_str(), "zstd") {
        match zstd_decompress(compressed) {
            Ok(v) => v,
            Err(_) => return Err(ChunkError::Decompression),
        }
    } else {
        return Err(ChunkError::UnsupportedCompression(compression));
    };
    // Parse message records from decompressed data
    Ok(extract_messages_from_records(decompressed.as_slice(), channel_filter))
}

} // verus!
