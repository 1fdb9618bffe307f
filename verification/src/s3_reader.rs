//! Reading MCAP recordings from S3-compatible storage: `s3c://` URLs,
//! AWS Signature V4 request signing, and the selection of what to download
//! from a recording's summary.

use vstd::prelude::*;
use vstd::utf8::encode_utf8;
use std::collections::HashMap;
use crate::mcap_index::{
    footer_size, FOOTER_PLUS_MAGIC, contains_channel, extract_messages_from_chunk, messages_view, spec_extract_messages_from_chunk,
    ChannelInfoView, ChunkError, ChunkErrorView, ChunkIndexInfoView, McapSummary, McapSummaryView,
    RawMessage, RawMessageView, SchemaInfoView,
};
use crate::mcap_reader::{
    frame_of, frames_view, metadata_infos_view, spec_frame_of, spec_image_kind, spec_metadata_kind,
    topic_infos_view, MetadataTopicInfo, MetadataTopicInfoView, TopicInfo, TopicInfoView,
    VideoFrame, VideoFrameView,
};
use crate::ros2_msgs::{CdrError, ImageMessageType, MetadataMessageType};
use crate::sorting::{lemma_to_multiset_map, sort_by_key, sorted_by_key};
use crate::text::{lemma_lex_total, lemma_lex_transitive, lex_le, str_le,
    decimal, padded_decimal, push_decimal, push_padded_decimal, push_str, str_chars,
    string_from_chars,
};

verus! {

broadcast use vstd::string::group_string_axioms, vstd::std_specs::hash::group_hash_axioms;

// ---- Character-sequence helpers ----

/// The first position at or after `i` where `s` holds `c`.
pub open spec fn index_from(s: Seq<char>, c: char, i: int) -> Option<int>
    decreases s.len() - i,
{
    if i < 0 || i >= s.len() {
        None
    } else if s[i] == c {
        Some(i)
    } else {
        index_from(s, c, i + 1)
    }
}

/// The first position where `s` holds `c`.
pub open spec fn first_index_of(s: Seq<char>, c: char) -> Option<int> {
    index_from(s, c, 0)
}

proof fn lemma_index_from_bounds(s: Seq<char>, c: char, i: int)
    ensures
        index_from(s, c, i) matches Some(k) ==> 0 <= i <= k < s.len() && s[k] == c,
    decreases s.len() - i,
{
    if 0 <= i < s.len() && s[i] != c {
        lemma_index_from_bounds(s, c, i + 1);
    }
}

/// The position of the first `c` in `s`.
fn find_char(s: &[char], c: char) -> (r: Option<usize>)
    ensures
        match first_index_of(s@, c) {
            Some(k) => r == Some(k as usize) && 0 <= k < s.len() && s@[k] == c,
            None => r is None,
        },
{
    proof {
        lemma_index_from_bounds(s@, c, 0);
    }
    let mut i: usize = 0;
    while i < s.len()
        invariant
            i <= s.len(),
            index_from(s@, c, 0) == index_from(s@, c, i as int),
        decreases s.len() - i,
    {
        if s[i] == c {
            return Some(i);
        }
        i = i + 1;
    }
    None
}

/// Whether `s` starts with `p`.
fn chars_start_with(s: &[char], p: &[char]) -> (r: bool)
    ensures
        r == p@.is_prefix_of(s@),
{
    if p.len() > s.len() {
        return false;
    }
    let mut i: usize = 0;
    while i < p.len()
        invariant
            p.len() <= s.len(),
            i <= p.len(),
            forall|j: int| 0 <= j < i ==> s@[j] == p@[j],
        decreases p.len() - i,
    {
        if s[i] != p[i] {
            assert(s@.subrange(0, p.len() as int)[i as int] != p@[i as int]);
            return false;
        }
        i = i + 1;
    }
    assert(p@ =~= s@.subrange(0, p.len() as int));
    true
}

// ---- s3c:// URLs ----

/// Parsed s3c:// URL
#[derive(Debug, Clone)]
pub struct S3Url {
    pub bucket: String,
    pub key: String,
}

/// Why a string is not an `s3c://bucket/key` URL.
#[derive(Debug, Clone, Copy, PartialEq, Eq, Structural)]
pub enum S3UrlError {
    /// It does not start with `s3c://`.
    MissingScheme,
    /// No `/` separates the bucket from the key.
    MissingKey,
    /// The bucket or the key is empty.
    EmptyPart,
}

/// The bucket and key of an `s3c://bucket/key` URL: the bucket runs up to
/// the first `/` after the scheme, the key is all that follows it.
pub open spec fn spec_parse_s3_url(url: Seq<char>) -> Result<(Seq<char>, Seq<char>), S3UrlError> {
    if !"s3c://"@.is_prefix_of(url) {
        Err(S3UrlError::MissingScheme)
    } else {
        let rest = url.skip("s3c://"@.len() as int);
        match first_index_of(rest, '/') {
            None => Err(S3UrlError::MissingKey),
            Some(i) => {
                let bucket = rest.take(i);
                let key = rest.skip(i + 1);
                if bucket.len() == 0 || key.len() == 0 {
                    Err(S3UrlError::EmptyPart)
                } else {
                    Ok((bucket, key))
                }
            },
        }
    }
}

impl S3Url {
    /// Parse an s3c:// URL into bucket and key
    ///
    /// Format: s3c://bucket/path/to/object.mcap
    pub fn parse(url: &str) -> (r: Result<Self, S3UrlError>)
        ensures
            match spec_parse_s3_url(url@) {
                Ok((bucket, key)) => r matches Ok(u) && u.bucket@ == bucket && u.key@ == key,
                Err(e) => r matches Err(e2) && e2 == e,
            },
    {
        let cs = str_chars(url);
        let scheme = str_chars("s3c://");
        if !chars_start_with(cs.as_slice(), scheme.as_slice()) {
            return Err(S3UrlError::MissingScheme);
        }
        let rest = &cs.as_slice()[scheme.len()..cs.len()];
        proof {
            assert(rest@ =~= url@.skip("s3c://"@.len() as int));
        }
        let i = match find_char(rest, '/') {
            None => {
                return Err(S3UrlError::MissingKey);
            },
            Some(i) => i,
        };
        let bucket = &rest[0..i];
        let key = &rest[i + 1..rest.len()];
        proof {
            assert(bucket@ =~= rest@.take(i as int));
            assert(key@ =~= rest@.skip(i + 1));
        }
        if bucket.len() == 0 || key.len() == 0 {
            return Err(S3UrlError::EmptyPart);
        }
        Ok(S3Url { bucket: string_from_chars(bucket), key: string_from_chars(key) })
    }
}

/// Check if a string is an s3c:// URL.
pub fn is_s3_url(s: &str) -> (r: bool)
    ensures
        r == "s3c://"@.is_prefix_of(s@),
{
    let cs = str_chars(s);
    let scheme = str_chars("s3c://");
    chars_start_with(cs.as_slice(), scheme.as_slice())
}

/// Position of the first `c` in `a + seq![c] + b`, where `a` holds no `c`.
proof fn lemma_index_after_prefix(a: Seq<char>, b: Seq<char>, c: char, i: int)
    requires
        0 <= i <= a.len(),
        forall|k: int| 0 <= k < a.len() ==> a[k] != c,
    ensures
        index_from(a + seq![c] + b, c, i) == Some(a.len() as int),
    decreases a.len() - i,
{
    let s = a + seq![c] + b;
    if i < a.len() {
        assert(s[i] == a[i]);
        lemma_index_after_prefix(a, b, c, i + 1);
    } else {
        assert(s[i] == c);
    }
}

/// A URL written as `s3c://`, a bucket without `/`, `/`, and a key parses
/// back to that bucket and key, where neither is empty.
pub proof fn law_s3_url_roundtrip(bucket: Seq<char>, key: Seq<char>)
    requires
        bucket.len() > 0,
        key.len() > 0,
        forall|k: int| 0 <= k < bucket.len() ==> bucket[k] != '/',
    ensures
        spec_parse_s3_url("s3c://"@ + bucket + "/"@ + key) == Ok::<_, S3UrlError>((bucket, key)),
{
    let url = "s3c://"@ + bucket + "/"@ + key;
    let scheme = "s3c://"@;
    assert(scheme.is_prefix_of(url)) by {
        assert(url.subrange(0, scheme.len() as int) =~= scheme);
    }
    let rest = url.skip(scheme.len() as int);
    reveal_strlit("/");
    assert(rest =~= bucket + seq!['/'] + key);
    lemma_index_after_prefix(bucket, key, '/', 0);
    assert(rest.take(bucket.len() as int) =~= bucket);
    assert(rest.skip(bucket.len() + 1int) =~= key);
}

/// A string is an s3c:// URL exactly when parsing does not refuse it for
/// its scheme.
pub proof fn law_is_s3_url_agrees_with_parse(s: Seq<char>)
    ensures
        "s3c://"@.is_prefix_of(s) <==> !(spec_parse_s3_url(s) == Err::<(Seq<char>, Seq<char>), S3UrlError>(
            S3UrlError::MissingScheme,
        )),
{
}

// ---- The client ----

/// `s` without its trailing slashes.
pub open spec fn trim_end_slashes(s: Seq<char>) -> Seq<char>
    decreases s.len(),
{
    if s.len() > 0 && s.last() == '/' {
        trim_end_slashes(s.drop_last())
    } else {
        s
    }
}

/// S3-compatible storage client using AWS Signature V4
pub struct S3Client {
    endpoint: String,
    access_key: String,
    secret_key: String,
    region: String,
}

pub struct S3ClientView {
    pub endpoint: Seq<char>,
    pub access_key: Seq<char>,
    pub secret_key: Seq<char>,
    pub region: Seq<char>,
}

impl View for S3Client {
    type V = S3ClientView;

    closed spec fn view(&self) -> S3ClientView {
        S3ClientView {
            endpoint: self.endpoint@,
            access_key: self.access_key@,
            secret_key: self.secret_key@,
            region: self.region@,
        }
    }
}

impl S3Client {
    /// A client for the storage at `endpoint` (trailing slashes dropped),
    /// signing with the given credentials for region `us-east-1`.
    pub fn new(endpoint: &str, access_key: &str, secret_key: &str) -> (r: Self)
        ensures
            r@.endpoint == trim_end_slashes(endpoint@),
            r@.access_key == access_key@,
            r@.secret_key == secret_key@,
            r@.region == "us-east-1"@,
    {
        let cs = str_chars(endpoint);
        let mut e: usize = cs.len();
        assert(cs@.take(e as int) =~= cs@);
        while e > 0 && cs[e - 1] == '/'
            invariant
                cs@ == endpoint@,
                e <= cs.len(),
                trim_end_slashes(endpoint@) == trim_end_slashes(cs@.take(e as int)),
            decreases e,
        {
            assert(cs@.take(e as int).drop_last() =~= cs@.take(e - 1));
            e = e - 1;
        }
        S3Client {
            endpoint: string_from_chars(&cs.as_slice()[0..e]),
            access_key: access_key.to_string(),
            secret_key: secret_key.to_string(),
            region: "us-east-1".to_string(),
        }
    }
}

/// The host of an endpoint URL: what follows `https://` or `http://` (if
/// either begins it), up to the first `/`.
pub open spec fn spec_extract_host(endpoint: Seq<char>) -> Seq<char> {
    let without_scheme = if "https://"@.is_prefix_of(endpoint) {
        endpoint.skip("https://"@.len() as int)
    } else if "http://"@.is_prefix_of(endpoint) {
        endpoint.skip("http://"@.len() as int)
    } else {
        endpoint
    };
    match first_index_of(without_scheme, '/') {
        Some(i) => without_scheme.take(i),
        None => without_scheme,
    }
}

/// The host part of an endpoint URL.
pub fn extract_host(endpoint: &str) -> (r: String)
    ensures
        r@ == spec_extract_host(endpoint@),
{
    let cs = str_chars(endpoint);
    let https = str_chars("https://");
    let http = str_chars("http://");
    let start: usize = if chars_start_with(cs.as_slice(), https.as_slice()) {
        https.len()
    } else if chars_start_with(cs.as_slice(), http.as_slice()) {
        http.len()
    } else {
        0
    };
    let rest = &cs.as_slice()[start..cs.len()];
    proof {
        if start == 0 {
            assert(rest@ =~= endpoint@);
        } else if start == https.len() {
            assert(rest@ =~= endpoint@.skip("https://"@.len() as int));
        } else {
            assert(rest@ =~= endpoint@.skip("http://"@.len() as int));
        }
    }
    match find_char(rest, '/') {
        Some(i) => {
            let host = &rest[0..i];
            assert(host@ =~= rest@.take(i as int));
            string_from_chars(host)
        },
        None => string_from_chars(rest),
    }
}

// ---- URI path encoding ----

/// Bytes that stand for themselves in a URI path: letters, digits, `-`,
/// `_`, `.`, `~` and `/`.
pub open spec fn uri_unreserved(b: u8) -> bool {
    (65 <= b <= 90) || (97 <= b <= 122) || (48 <= b <= 57) || b == 45 || b == 95 || b == 46
        || b == 126 || b == 47
}

/// The upper-case hexadecimal digit for `d` (below 16).
pub open spec fn upper_hex_digit(d: nat) -> char {
    if d < 10 {
        (48 + d) as char
    } else {
        (55 + d) as char
    }
}

/// How one byte is written in an encoded URI path.
pub open spec fn uri_encode_byte(b: u8) -> Seq<char> {
    if uri_unreserved(b) {
        seq![b as char]
    } else {
        seq!['%', upper_hex_digit((b / 16) as nat), upper_hex_digit((b % 16) as nat)]
    }
}

/// Percent-encoding of a byte string, byte by byte.
pub open spec fn uri_encode(bytes: Seq<u8>) -> Seq<char>
    decreases bytes.len(),
{
    if bytes.len() == 0 {
        Seq::empty()
    } else {
        uri_encode(bytes.drop_last()) + uri_encode_byte(bytes.last())
    }
}

fn upper_hex_digit_exec(d: u8) -> (c: char)
    requires
        d < 16,
    ensures
        c == upper_hex_digit(d as nat),
{
    if d < 10 {
        (48u8 + d) as char
    } else {
        (55u8 + d) as char
    }
}

/// Percent-encode the UTF-8 bytes of a URI path, keeping unreserved bytes.
pub fn encode_uri_path(s: &str) -> (r: String)
    ensures
        r@ == uri_encode(encode_utf8(s@)),
{
    let bytes = s.as_bytes();
    let mut out: Vec<char> = Vec::new();
    let mut i: usize = 0;
    while i < bytes.len()
        invariant
            i <= bytes.len(),
            out@ == uri_encode(bytes@.take(i as int)),
        decreases bytes.len() - i,
    {
        let b = bytes[i];
        let ghost before = out@;
        let is_unreserved = (65 <= b && b <= 90) || (97 <= b && b <= 122) || (48 <= b && b <= 57)
            || b == 45 || b == 95 || b == 46 || b == 126 || b == 47;
        if is_unreserved {
            out.push(b as char);
        } else {
            out.push('%');
            out.push(upper_hex_digit_exec(b / 16));
            out.push(upper_hex_digit_exec(b % 16));
        }
        proof {
            assert(bytes@.take(i + 1).drop_last() =~= bytes@.take(i as int));
            assert(out@ =~= before + uri_encode_byte(b));
        }
        i = i + 1;
    }
    assert(bytes@.take(bytes.len() as int) =~= bytes@);
    string_from_chars(out.as_slice())
}

/// The character is a byte that stands for itself in a URI path.
pub open spec fn unreserved_char(c: char) -> bool {
    '\0' <= c <= '\u{7f}' && uri_unreserved(c as u8)
}

/// Percent-encoding leaves a path of unreserved characters as it is.
pub proof fn law_uri_encode_keeps_unreserved(s: Seq<char>)
    requires
        forall|i: int| 0 <= i < s.len() ==> unreserved_char(#[trigger] s[i]),
    ensures
        uri_encode(encode_utf8(s)) == s,
    decreases s.len(),
{
    assert forall|i: int| 0 <= i < s.len() implies '\0' <= #[trigger] s[i] <= '\u{7f}' by {
        assert(unreserved_char(s[i]));
    }
    assert(vstd::utf8::is_ascii_chars(s));
    vstd::utf8::is_ascii_chars_encode_utf8(s);
    let bytes = encode_utf8(s);
    if s.len() > 0 {
        let init = s.drop_last();
        law_uri_encode_keeps_unreserved(init);
        assert(vstd::utf8::is_ascii_chars(init));
        vstd::utf8::is_ascii_chars_encode_utf8(init);
        assert(bytes.drop_last() =~= encode_utf8(init));
        let c = s[s.len() - 1];
        assert(unreserved_char(c));
        assert(bytes.last() == c as u8);
        assert((c as int) < 128);
        assert((c as u8) as int == c as int);
        assert(((c as u8) as char) == c);
        assert(uri_encode(bytes) =~= s);
    }
}

// ---- Dates ----

/// The civil (proleptic Gregorian) date `days` days after 1970-01-01, as
/// (year, month, day), by Howard Hinnant's `civil_from_days`.
pub open spec fn spec_days_to_ymd(days: int) -> (int, int, int) {
    let z = days + 719468;
    let era = z / 146097;
    let doe = z - era * 146097;
    let yoe = (doe - doe / 1460 + doe / 36524 - doe / 146096) / 365;
    let y = yoe + era * 400;
    let doy = doe - (365 * yoe + yoe / 4 - yoe / 100);
    let mp = (5 * doy + 2) / 153;
    let d = doy - (153 * mp + 2) / 5 + 1;
    let m = if mp < 10 {
        mp + 3
    } else {
        mp - 9
    };
    (
        if m <= 2 {
            y + 1
        } else {
            y
        },
        m,
        d,
    )
}

/// Within an era, the day of the year lies in 0..=365.
proof fn lemma_day_of_year(doe: u32)
    by (bit_vector)
    requires
        doe < 146097,
    ensures
        ({
            let yoe = (doe - doe / 1460 + doe / 36524 - doe / 146096) / 365;
            &&& doe / 1460 + doe / 146096 <= doe
            &&& 365 * yoe + yoe / 4 - yoe / 100 <= doe
            &&& doe - (365 * yoe + yoe / 4 - yoe / 100) <= 365
            &&& yoe <= 399
        }),
{
}

/// The most days that month `m` can have.
pub open spec fn max_days_in_month(m: int) -> int {
    if m == 2 {
        29
    } else if m == 4 || m == 6 || m == 9 || m == 11 {
        30
    } else {
        31
    }
}

/// Whether `y` is a leap year of the Gregorian calendar.
pub open spec fn is_leap_year(y: int) -> bool {
    y % 4 == 0 && (y % 100 != 0 || y % 400 == 0)
}

/// The days since 1970-01-01 of a civil date (Howard Hinnant's
/// `days_from_civil`).
pub open spec fn spec_days_from_civil(y: int, m: int, d: int) -> int {
    let yy = if m <= 2 { y - 1 } else { y };
    let era = yy / 400;
    let yoe = yy - era * 400;
    let mp = (m + 9) % 12;
    let doy = (153 * mp + 2) / 5 + d - 1;
    let doe = yoe * 365 + yoe / 4 - yoe / 100 + doy;
    era * 146097 + doe - 719468
}

/// The date that `days_to_ymd` gives converts back to the same day count:
/// no two days get the same date.
pub proof fn law_days_to_ymd_roundtrip(days: u64)
    requires
        days + 719468 <= u64::MAX,
    ensures
        ({
            let (y, m, d) = spec_days_to_ymd(days as int);
            spec_days_from_civil(y, m, d) == days
        }),
{
    let z = days + 719468;
    let era = z / 146097;
    let doe = z - era * 146097;
    assert(0 <= doe < 146097);
    lemma_day_of_year(doe as u32);
    let yoe = (doe - doe / 1460 + doe / 36524 - doe / 146096) / 365;
    assert(0 <= yoe <= 399);
    let doy = doe - (365 * yoe + yoe / 4 - yoe / 100);
    assert(0 <= doy <= 365);
    let mp = (5 * doy + 2) / 153;
    assert(0 <= mp <= 11);
    let (y, m, d) = spec_days_to_ymd(days as int);
    let yy = if m <= 2 { y - 1 } else { y };
    assert(yy == yoe + era * 400);
    assert(yy / 400 == era) by {
        assert(0 <= yy - era * 400 < 400);
    }
    assert((m + 9) % 12 == mp);
}

/// Within an era, only the last day of a March-based year that ends in a
/// leap February is its 366th day.
proof fn lemma_leap_day(doe: u32)
    by (bit_vector)
    requires
        doe < 146097,
    ensures
        ({
            let yoe = (doe - doe / 1460 + doe / 36524 - doe / 146096) / 365;
            let doy = doe - (365 * yoe + yoe / 4 - yoe / 100);
            doy == 365 ==> (yoe + 1) % 4 == 0 && ((yoe + 1) % 100 != 0 || (yoe + 1) % 400 == 0)
        }),
{
}

/// `days_to_ymd` gives a valid date: a month from 1 to 12, a day within the
/// month, and the 29th of February only in a leap year.
#[verifier::spinoff_prover]
pub proof fn law_days_to_ymd_valid_date(days: u64)
    requires
        days + 719468 <= u64::MAX,
    ensures
        ({
            let (y, m, d) = spec_days_to_ymd(days as int);
            &&& 1 <= m <= 12
            &&& 1 <= d <= max_days_in_month(m)
            &&& (m == 2 && d == 29 ==> is_leap_year(y))
        }),
{
    let z = days + 719468;
    let era = z / 146097;
    let doe = z - era * 146097;
    lemma_day_of_year(doe as u32);
    lemma_leap_day(doe as u32);
    let yoe = (doe - doe / 1460 + doe / 36524 - doe / 146096) / 365;
    let doy = doe - (365 * yoe + yoe / 4 - yoe / 100);
    let (y, m, d) = spec_days_to_ymd(days as int);
    if m == 2 && d == 29 {
        assert(doy == 365);
        assert(y == (yoe + 1) + era * 400);
        assert(y % 4 == (yoe + 1) % 4);
        assert(y % 100 == (yoe + 1) % 100);
        assert(y % 400 == (yoe + 1) % 400);
    }
}

/// Convert days since the Unix epoch to (year, month, day).
pub fn days_to_ymd(days: u64) -> (r: (u32, u32, u32))
    requires
        days + 719468 <= u64::MAX,
    ensures
        r.0 == spec_days_to_ymd(days as int).0 as u32,
        r.1 == spec_days_to_ymd(days as int).1,
        r.2 == spec_days_to_ymd(days as int).2,
        1 <= r.1 <= 12,
        1 <= r.2 <= max_days_in_month(r.1 as int),
{
    let z = days + 719468;
    let era = z / 146097;
    let doe = z - era * 146097;
    proof {
        lemma_day_of_year(doe as u32);
    }
    let yoe = (doe - doe / 1460 + doe / 36524 - doe / 146096) / 365;
    let y = yoe + era * 400;
    let doy = doe - (365 * yoe + yoe / 4 - yoe / 100);
    let mp = (5 * doy + 2) / 153;
    let d = doy - (153 * mp + 2) / 5 + 1;
    let m = if mp < 10 {
        mp + 3
    } else {
        mp - 9
    };
    let y = if m <= 2 {
        y + 1
    } else {
        y
    };
    (#[verifier::truncate] (y as u32), m as u32, d as u32)
}

/// A point in time as the two date strings that request signing uses.
#[derive(Debug, Clone)]
pub struct UtcTimestamp {
    /// `YYYYMMDDTHHMMSSZ`
    pub amz_date: String,
    /// `YYYYMMDD`
    pub date_stamp: String,
}

/// `YYYYMMDD` for the day `secs` seconds after the Unix epoch.
pub open spec fn spec_date_stamp(secs: u64) -> Seq<char> {
    let ymd = spec_days_to_ymd((secs / 86400) as int);
    padded_decimal((ymd.0 as u32) as nat, 4) + padded_decimal(ymd.1 as nat, 2) + padded_decimal(
        ymd.2 as nat,
        2,
    )
}

/// `YYYYMMDDTHHMMSSZ` for the moment `secs` seconds after the Unix epoch.
pub open spec fn spec_amz_date(secs: u64) -> Seq<char> {
    let t = secs % 86400;
    spec_date_stamp(secs) + "T"@ + padded_decimal((t / 3600) as nat, 2) + padded_decimal(
        ((t % 3600) / 60) as nat,
        2,
    ) + padded_decimal((t % 60) as nat, 2) + "Z"@
}

/// The signing date strings for `secs` seconds after the Unix epoch.
pub fn utc_timestamp(secs: u64) -> (r: UtcTimestamp)
    ensures
        r.amz_date@ == spec_amz_date(secs),
        r.date_stamp@ == spec_date_stamp(secs),
{
    let days = secs / 86400;
    let time_of_day = secs % 86400;
    let hours = time_of_day / 3600;
    let minutes = (time_of_day % 3600) / 60;
    let seconds = time_of_day % 60;
    let (year, month, day) = days_to_ymd(days);
    let mut date: Vec<char> = Vec::new();
    push_padded_decimal(&mut date, year as u64, 4);
    push_padded_decimal(&mut date, month as u64, 2);
    push_padded_decimal(&mut date, day as u64, 2);
    let mut amz: Vec<char> = date.clone();
    push_str(&mut amz, "T");
    push_padded_decimal(&mut amz, hours, 2);
    push_padded_decimal(&mut amz, minutes, 2);
    push_padded_decimal(&mut amz, seconds, 2);
    push_str(&mut amz, "Z");
    proof {
        assert(date@ =~= spec_date_stamp(secs));
        assert(amz@ =~= spec_amz_date(secs));
    }
    UtcTimestamp {
        amz_date: string_from_chars(amz.as_slice()),
        date_stamp: string_from_chars(date.as_slice()),
    }
}

#[verifier::external_type_specification]
#[verifier::external_body]
pub struct ExSystemTime(std::time::SystemTime);

/// `SystemTime::now()`: the system clock's reading. Nothing is claimed of
/// it: it is the time.
#[verifier::external_body]
fn system_time_now() -> (r: std::time::SystemTime) {
    std::time::SystemTime::now()
}

/// `SystemTime::duration_since(UNIX_EPOCH)`: how long after the Unix epoch
/// `t` lies, `None` where it lies before. Nothing is claimed of the value.
#[verifier::external_body]
fn since_unix_epoch(t: &std::time::SystemTime) -> (r: Option<core::time::Duration>) {
    t.duration_since(std::time::UNIX_EPOCH).ok()
}

/// `Duration::as_secs`: the whole seconds of a duration. Nothing is claimed
/// of the value.
#[verifier::external_body]
fn whole_seconds(d: &core::time::Duration) -> (r: u64) {
    d.as_secs()
}

/// The signing date strings for now; `None` where the system clock reads
/// earlier than the Unix epoch.
pub fn utc_now() -> (r: Option<UtcTimestamp>)
    ensures
        r matches Some(t) ==> exists|secs: u64|
            t.amz_date@ == spec_amz_date(secs) && t.date_stamp@ == spec_date_stamp(secs),
{
    match since_unix_epoch(&system_time_now()) {
        Some(d) => Some(utc_timestamp(whole_seconds(&d))),
        None => None,
    }
}

// ---- Request signing ----

/// The lower-case hexadecimal digit for `d` (below 16).
pub open spec fn lower_hex_digit(d: nat) -> char {
    if d < 10 {
        (48 + d) as char
    } else {
        (87 + d) as char
    }
}

/// Lower-case hexadecimal of a byte string, two digits per byte, most
/// significant digit first.
pub open spec fn lower_hex(bytes: Seq<u8>) -> Seq<char>
    decreases bytes.len(),
{
    if bytes.len() == 0 {
        Seq::empty()
    } else {
        lower_hex(bytes.drop_last()) + seq![
            lower_hex_digit((bytes.last() / 16) as nat),
            lower_hex_digit((bytes.last() % 16) as nat),
        ]
    }
}

/// Whether `c` is a lower-case hexadecimal digit (`0`-`9`, `a`-`f`).
pub open spec fn is_lower_hex_digit(c: char) -> bool {
    (48 <= (c as u32) <= 57) || (97 <= (c as u32) <= 102)
}

/// The hexadecimal of `n` bytes is `2 * n` lower-case hexadecimal digits.
pub proof fn lemma_lower_hex_digits(bytes: Seq<u8>)
    ensures
        lower_hex(bytes).len() == 2 * bytes.len(),
        forall|i: int| 0 <= i < lower_hex(bytes).len() ==> is_lower_hex_digit(#[trigger] lower_hex(bytes)[i]),
    decreases bytes.len(),
{
    if bytes.len() > 0 {
        lemma_lower_hex_digits(bytes.drop_last());
        let hi = (bytes.last() / 16) as nat;
        let lo = (bytes.last() % 16) as nat;
        assert(is_lower_hex_digit(lower_hex_digit(hi)));
        assert(is_lower_hex_digit(lower_hex_digit(lo)));
        let prev = lower_hex(bytes.drop_last());
        assert forall|i: int| 0 <= i < lower_hex(bytes).len() implies is_lower_hex_digit(
            #[trigger] lower_hex(bytes)[i],
        ) by {
            if i < prev.len() {
                assert(lower_hex(bytes)[i] == prev[i]);
            }
        }
    }
}

/// `hex::encode`: each byte as two lower-case hexadecimal digits, in order.
#[verifier::external_body]
fn hex_encode(bytes: &[u8]) -> (r: String)
    ensures
        r@ == lower_hex(bytes@),
{
    hex::encode(bytes)
}

/// The SHA-256 digest of `data`.
pub uninterp spec fn sha256_digest(data: Seq<u8>) -> Seq<u8>;

/// `sha2::Sha256::digest`: the 32-byte SHA-256 digest of `data`.
#[verifier::external_body]
fn sha256(data: &[u8]) -> (r: Vec<u8>)
    ensures
        r@ == sha256_digest(data@),
        r@.len() == 32,
{
    <sha2::Sha256 as sha2::Digest>::digest(data).to_vec()
}

/// The HMAC-SHA256 tag of `data` under `key`.
pub uninterp spec fn hmac_sha256_tag(key: Seq<u8>, data: Seq<u8>) -> Seq<u8>;

/// `hmac::Hmac<Sha256>` keyed with `key` (which takes a key of any length)
/// over `data`: the 32-byte tag.
#[verifier::external_body]
fn hmac_sha256(key: &[u8], data: &[u8]) -> (r: Vec<u8>)
    ensures
        r@ == hmac_sha256_tag(key@, data@),
        r@.len() == 32,
{
    let mut mac = <hmac::Hmac<sha2::Sha256> as hmac::Mac>::new_from_slice(key).expect("HMAC key length error");
    hmac::Mac::update(&mut mac, data);
    hmac::Mac::finalize(mac).into_bytes().to_vec()
}

/// The SigV4 signing key for a secret, a date and a region (service `s3`).
pub open spec fn spec_signing_key(secret_key: Seq<char>, date_stamp: Seq<char>, region: Seq<char>) -> Seq<u8> {
    let k_date = hmac_sha256_tag(encode_utf8("AWS4"@ + secret_key), encode_utf8(date_stamp));
    let k_region = hmac_sha256_tag(k_date, encode_utf8(region));
    let k_service = hmac_sha256_tag(k_region, encode_utf8("s3"@));
    hmac_sha256_tag(k_service, encode_utf8("aws4_request"@))
}

/// The headers signed in every request.
pub open spec fn signed_headers() -> Seq<char> {
    "host;x-amz-content-sha256;x-amz-date"@
}

/// The payload hash sent with every request.
pub open spec fn unsigned_payload() -> Seq<char> {
    "UNSIGNED-PAYLOAD"@
}

/// The canonical request of a path-style request for `key` in `bucket`.
pub open spec fn spec_canonical_request(
    method: Seq<char>,
    bucket: Seq<char>,
    key: Seq<char>,
    host: Seq<char>,
    amz_date: Seq<char>,
) -> Seq<char> {
    let canonical_uri = "/"@ + bucket + "/"@ + uri_encode(encode_utf8(key));
    let canonical_headers = "host:"@ + host + "\nx-amz-content-sha256:"@ + unsigned_payload()
        + "\nx-amz-date:"@ + amz_date + "\n"@;
    method + "\n"@ + canonical_uri + "\n"@ + ""@ + "\n"@ + canonical_headers + "\n"@
        + signed_headers() + "\n"@ + unsigned_payload()
}

/// The credential scope of a date and a region.
pub open spec fn spec_credential_scope(date_stamp: Seq<char>, region: Seq<char>) -> Seq<char> {
    date_stamp + "/"@ + region + "/s3/aws4_request"@
}

/// The signature of a request: the lower-case hexadecimal of the HMAC tag of
/// its string to sign under the signing key.
pub open spec fn spec_signature(
    client: S3ClientView,
    method: Seq<char>,
    bucket: Seq<char>,
    key: Seq<char>,
    amz_date: Seq<char>,
    date_stamp: Seq<char>,
) -> Seq<char> {
    let scope = spec_credential_scope(date_stamp, client.region);
    let canonical = spec_canonical_request(
        method,
        bucket,
        key,
        spec_extract_host(client.endpoint),
        amz_date,
    );
    let string_to_sign = "AWS4-HMAC-SHA256\n"@ + amz_date + "\n"@ + scope + "\n"@ + lower_hex(
        sha256_digest(encode_utf8(canonical)),
    );
    lower_hex(
        hmac_sha256_tag(
            spec_signing_key(client.secret_key, date_stamp, client.region),
            encode_utf8(string_to_sign),
        ),
    )
}

/// The `Authorization` header value of a request.
pub open spec fn spec_authorization(
    client: S3ClientView,
    method: Seq<char>,
    bucket: Seq<char>,
    key: Seq<char>,
    amz_date: Seq<char>,
    date_stamp: Seq<char>,
) -> Seq<char> {
    let scope = spec_credential_scope(date_stamp, client.region);
    let signature = spec_signature(client, method, bucket, key, amz_date, date_stamp);
    "AWS4-HMAC-SHA256 Credential="@ + client.access_key + "/"@ + scope + ", SignedHeaders="@
        + signed_headers() + ", Signature="@ + signature
}

/// The UTF-8 bytes of the characters `cs`.
fn utf8_of(cs: &Vec<char>) -> (r: Vec<u8>)
    ensures
        r@ == encode_utf8(cs@),
{
    let s = string_from_chars(cs.as_slice());
    let b = s.as_str().as_bytes();
    vstd::slice::slice_to_vec(b)
}

impl S3Client {
    /// Derive the AWS SigV4 signing key.
    pub fn derive_signing_key(&self, date_stamp: &str) -> (r: Vec<u8>)
        ensures
            r@ == spec_signing_key(self@.secret_key, date_stamp@, self@.region),
    {
        let mut secret: Vec<char> = Vec::new();
        push_str(&mut secret, "AWS4");
        push_str(&mut secret, self.secret_key.as_str());
        let k_date = hmac_sha256(utf8_of(&secret).as_slice(), date_stamp.as_bytes());
        let k_region = hmac_sha256(k_date.as_slice(), self.region.as_str().as_bytes());
        let k_service = hmac_sha256(k_region.as_slice(), "s3".as_bytes());
        hmac_sha256(k_service.as_slice(), "aws4_request".as_bytes())
    }

    /// Sign an S3 request using AWS Signature V4 (path-style addressing):
    /// the `Authorization`, `x-amz-date` and `x-amz-content-sha256` headers.
    pub fn sign_request(&self, method: &str, bucket: &str, key: &str, now: &UtcTimestamp) -> (r: Vec<
        (String, String),
    >)
        ensures
            r.len() == 3,
            r@[0].0@ == "Authorization"@,
            r@[0].1@ == spec_authorization(
                self@,
                method@,
                bucket@,
                key@,
                now.amz_date@,
                now.date_stamp@,
            ),
            r@[1].0@ == "x-amz-date"@,
            r@[1].1@ == now.amz_date@,
            r@[2].0@ == "x-amz-content-sha256"@,
            r@[2].1@ == unsigned_payload(),
            spec_signature(self@, method@, bucket@, key@, now.amz_date@, now.date_stamp@).len()
                == 64,
            forall|i: int|
                0 <= i < 64 ==> is_lower_hex_digit(
                    #[trigger] spec_signature(
                        self@,
                        method@,
                        bucket@,
                        key@,
                        now.amz_date@,
                        now.date_stamp@,
                    )[i],
                ),
    {
        let host = extract_host(self.endpoint.as_str());
        let encoded_key = encode_uri_path(key);
        let mut canonical: Vec<char> = Vec::new();
        push_str(&mut canonical, method);
        push_str(&mut canonical, "\n");
        push_str(&mut canonical, "/");
        push_str(&mut canonical, bucket);
        push_str(&mut canonical, "/");
        push_str(&mut canonical, encoded_key.as_str());
        push_str(&mut canonical, "\n");
        push_str(&mut canonical, "");
        push_str(&mut canonical, "\n");
        push_str(&mut canonical, "host:");
        push_str(&mut canonical, host.as_str());
        push_str(&mut canonical, "\nx-amz-content-sha256:");
        push_str(&mut canonical, "UNSIGNED-PAYLOAD");
        push_str(&mut canonical, "\nx-amz-date:");
        push_str(&mut canonical, now.amz_date.as_str());
        push_str(&mut canonical, "\n");
        push_str(&mut canonical, "\n");
        push_str(&mut canonical, "host;x-amz-content-sha256;x-amz-date");
        push_str(&mut canonical, "\n");
        push_str(&mut canonical, "UNSIGNED-PAYLOAD");
        proof {
            assert(canonical@ =~= spec_canonical_request(
                method@,
                bucket@,
                key@,
                spec_extract_host(self@.endpoint),
                now.amz_date@,
            ));
        }
        let mut scope: Vec<char> = Vec::new();
        push_str(&mut scope, now.date_stamp.as_str());
        push_str(&mut scope, "/");
        push_str(&mut scope, self.region.as_str());
        push_str(&mut scope, "/s3/aws4_request");
        let digest = sha256(utf8_of(&canonical).as_slice());
        let digest_hex = hex_encode(digest.as_slice());
        let mut to_sign: Vec<char> = Vec::new();
        push_str(&mut to_sign, "AWS4-HMAC-SHA256\n");
        push_str(&mut to_sign, now.amz_date.as_str());
        push_str(&mut to_sign, "\n");
        let ghost scope_start = to_sign@;
        let mut k: usize = 0;
        while k < scope.len()
            invariant
                k <= scope.len(),
                to_sign@ == scope_start + scope@.take(k as int),
            decreases scope.len() - k,
        {
            to_sign.push(scope[k]);
            k = k + 1;
            assert(to_sign@ =~= scope_start + scope@.take(k as int));
        }
        assert(scope@.take(scope.len() as int) =~= scope@);
        push_str(&mut to_sign, "\n");
        push_str(&mut to_sign, digest_hex.as_str());
        let signing_key = self.derive_signing_key(now.date_stamp.as_str());
        let tag = hmac_sha256(signing_key.as_slice(), utf8_of(&to_sign).as_slice());
        let signature = hex_encode(tag.as_slice());
        proof {
            lemma_lower_hex_digits(tag@);
        }
        let mut auth: Vec<char> = Vec::new();
        push_str(&mut auth, "AWS4-HMAC-SHA256 Credential=");
        push_str(&mut auth, self.access_key.as_str());
        push_str(&mut auth, "/");
        let ghost scope_at = auth@;
        let mut j: usize = 0;
        while j < scope.len()
            invariant
                j <= scope.len(),
                auth@ == scope_at + scope@.take(j as int),
            decreases scope.len() - j,
        {
            auth.push(scope[j]);
            j = j + 1;
            assert(auth@ =~= scope_at + scope@.take(j as int));
        }
        push_str(&mut auth, ", SignedHeaders=");
        push_str(&mut auth, "host;x-amz-content-sha256;x-amz-date");
        push_str(&mut auth, ", Signature=");
        push_str(&mut auth, signature.as_str());
        proof {
            assert(scope@ =~= spec_credential_scope(now.date_stamp@, self@.region));
            assert(to_sign@ =~= "AWS4-HMAC-SHA256\n"@ + now.amz_date@ + "\n"@ + scope@ + "\n"@
                + lower_hex(sha256_digest(encode_utf8(canonical@))));
            assert(auth@ =~= spec_authorization(
                self@,
                method@,
                bucket@,
                key@,
                now.amz_date@,
                now.date_stamp@,
            ));
        }
        let mut headers: Vec<(String, String)> = Vec::new();
        headers.push(("Authorization".to_string(), string_from_chars(auth.as_slice())));
        headers.push(("x-amz-date".to_string(), now.amz_date.clone()));
        headers.push(("x-amz-content-sha256".to_string(), "UNSIGNED-PAYLOAD".to_string()));
        headers
    }

    /// The path-style URL of an object: endpoint, bucket and encoded key.
    pub fn object_url(&self, url: &S3Url) -> (r: String)
        ensures
            r@ == self@.endpoint + "/"@ + url.bucket@ + "/"@ + uri_encode(encode_utf8(url.key@)),
    {
        let mut out: Vec<char> = Vec::new();
        push_str(&mut out, self.endpoint.as_str());
        push_str(&mut out, "/");
        push_str(&mut out, url.bucket.as_str());
        push_str(&mut out, "/");
        let encoded = encode_uri_path(url.key.as_str());
        push_str(&mut out, encoded.as_str());
        assert(out@ =~= self@.endpoint + "/"@ + url.bucket@ + "/"@ + uri_encode(
            encode_utf8(url.key@),
        ));
        string_from_chars(out.as_slice())
    }
}

/// The `Range` header value for the bytes `start..=end`.
pub fn range_header(start: u64, end: u64) -> (r: String)
    ensures
        r@ == "bytes="@ + decimal(start as nat) + "-"@ + decimal(end as nat),
{
    let mut out: Vec<char> = Vec::new();
    push_str(&mut out, "bytes=");
    push_decimal(&mut out, start);
    push_str(&mut out, "-");
    push_decimal(&mut out, end);
    string_from_chars(out.as_slice())
}

// ---- Reading the summary ----

/// The byte range (both ends included) of the footer record and closing
/// magic at the end of a file of `file_size` bytes; `None` where the file is
/// too small to hold them.
pub fn footer_range(file_size: u64) -> (r: Option<(u64, u64)>)
    ensures
        match r {
            Some((start, end)) => file_size >= FOOTER_PLUS_MAGIC && start == file_size
                - FOOTER_PLUS_MAGIC && end == file_size - 1,
            None => file_size < FOOTER_PLUS_MAGIC,
        },
{
    let size = footer_size();
    if file_size < size {
        None
    } else {
        Some((file_size - size, file_size - 1))
    }
}

// ---- Topics from a recording's summary ----

/// The schema names by schema id; where an id repeats, the last schema
/// with it counts.
pub open spec fn schema_names(schemas: Seq<SchemaInfoView>) -> Map<u16, Seq<char>>
    decreases schemas.len(),
{
    if schemas.len() == 0 {
        Map::empty()
    } else {
        schema_names(schemas.drop_last()).insert(schemas.last().id, schemas.last().name)
    }
}

pub open spec fn schema_map_view(m: Map<u16, &str>) -> Map<u16, Seq<char>> {
    m.map_values(|s: &str| s@)
}

/// Map schema ids to schema names.
pub fn build_schema_map(summary: &McapSummary) -> (r: HashMap<u16, &str>)
    ensures
        schema_map_view(r@) == schema_names(summary@.schemas),
{
    let mut m: HashMap<u16, &str> = HashMap::new();
    let mut i: usize = 0;
    while i < summary.schemas.len()
        invariant
            i <= summary.schemas.len(),
            schema_map_view(m@) == schema_names(summary@.schemas.take(i as int)),
        decreases summary.schemas.len() - i,
    {
        let sch = &summary.schemas[i];
        m.insert(sch.id, sch.name.as_str());
        proof {
            let t = summary@.schemas.take(i + 1);
            assert(t.drop_last() =~= summary@.schemas.take(i as int));
            assert(t.last() == summary.schemas@[i as int]@);
            assert(schema_map_view(m@) =~= schema_names(t));
        }
        i = i + 1;
    }
    assert(summary@.schemas.take(summary.schemas.len() as int) =~= summary@.schemas);
    m
}

/// The schema name of a schema id, empty where no schema has it.
pub open spec fn schema_name_of(names: Map<u16, Seq<char>>, id: u16) -> Seq<char> {
    if names.contains_key(id) {
        names[id]
    } else {
        Seq::empty()
    }
}

fn lookup_schema<'a>(m: &HashMap<u16, &'a str>, id: u16) -> (r: &'a str)
    ensures
        r@ == schema_name_of(schema_map_view(m@), id),
{
    match m.get(&id) {
        Some(s) => *s,
        None => {
            proof {
                reveal_strlit("");
            }
            ""
        },
    }
}

/// The message count that the summary's statistics give a channel (0
/// where they give none).
pub open spec fn channel_count(s: McapSummaryView, id: u16) -> u64 {
    if s.channel_message_counts.contains_key(id) {
        s.channel_message_counts[id]
    } else {
        0
    }
}

fn lookup_count(summary: &McapSummary, id: u16) -> (r: u64)
    ensures
        r == channel_count(summary@, id),
{
    match summary.channel_message_counts.get(&id) {
        Some(c) => *c,
        None => 0,
    }
}

/// The position where a stable insertion by name puts an entry named
/// `name`: after every entry from `i` on whose name is at most `name`.
pub open spec fn upper_bound_from(names: Seq<Seq<char>>, name: Seq<char>, i: int) -> int
    decreases names.len() - i,
{
    if i < 0 || i >= names.len() {
        names.len() as int
    } else if !lex_le(names[i], name) {
        i
    } else {
        upper_bound_from(names, name, i + 1)
    }
}

proof fn lemma_upper_bound_props(names: Seq<Seq<char>>, name: Seq<char>, i: int)
    requires
        0 <= i <= names.len(),
    ensures
        i <= upper_bound_from(names, name, i) <= names.len(),
        forall|k: int|
            i <= k < upper_bound_from(names, name, i) ==> lex_le(#[trigger] names[k], name),
        upper_bound_from(names, name, i) < names.len() ==> !lex_le(
            names[upper_bound_from(names, name, i)],
            name,
        ),
    decreases names.len() - i,
{
    if i < names.len() && lex_le(names[i], name) {
        lemma_upper_bound_props(names, name, i + 1);
    }
}

/// The video-topic entries of the summary's channels, in channel order.
pub open spec fn s3_video_candidates(s: McapSummaryView, n: nat) -> Seq<TopicInfoView>
    decreases n,
{
    if n == 0 {
        Seq::empty()
    } else {
        let prev = s3_video_candidates(s, (n - 1) as nat);
        let c = s.channels[n - 1];
        let name = schema_name_of(schema_names(s.schemas), c.schema_id);
        if spec_image_kind(name) is Some {
            prev.push(
                TopicInfoView {
                    name: c.topic,
                    schema_name: name,
                    message_count: channel_count(s, c.id) as usize,
                    message_type: spec_image_kind(name),
                },
            )
        } else {
            prev
        }
    }
}

/// The entries sorted stably by name (entries of equal names keep their
/// order), as insertion sort leaves them.
pub open spec fn stable_sort_topics(s: Seq<TopicInfoView>) -> Seq<TopicInfoView>
    decreases s.len(),
{
    if s.len() == 0 {
        Seq::empty()
    } else {
        let sorted = stable_sort_topics(s.drop_last());
        let names = sorted.map_values(|t: TopicInfoView| t.name);
        sorted.insert(upper_bound_from(names, s.last().name, 0), s.last())
    }
}

/// The entries are in order of name.
pub open spec fn topics_sorted_by_name(s: Seq<TopicInfoView>) -> bool {
    forall|i: int, j: int| 0 <= i < j < s.len() ==> lex_le(#[trigger] s[i].name, #[trigger] s[j].name)
}

proof fn lemma_insert_topic_sorted(sorted: Seq<TopicInfoView>, x: TopicInfoView)
    requires
        topics_sorted_by_name(sorted),
    ensures
        ({
            let names = sorted.map_values(|t: TopicInfoView| t.name);
            topics_sorted_by_name(sorted.insert(upper_bound_from(names, x.name, 0), x))
        }),
{
    let names = sorted.map_values(|t: TopicInfoView| t.name);
    lemma_upper_bound_props(names, x.name, 0);
    let u = upper_bound_from(names, x.name, 0);
    let r = sorted.insert(u, x);
    assert forall|i: int, j: int| 0 <= i < j < r.len() implies lex_le(
        #[trigger] r[i].name,
        #[trigger] r[j].name,
    ) by {
        if j < u {
            assert(r[i] == sorted[i] && r[j] == sorted[j]);
        } else if j == u {
            assert(r[i] == sorted[i] && names[i] == sorted[i].name);
        } else if i < u {
            assert(r[i] == sorted[i] && r[j] == sorted[j - 1]);
        } else if i == u {
            assert(r[j] == sorted[j - 1]);
            assert(names[u] == sorted[u].name);
            lemma_lex_total(sorted[u].name, x.name, 0);
            if j - 1 > u {
                lemma_lex_transitive(x.name, sorted[u].name, sorted[j - 1].name, 0);
            }
        } else {
            assert(r[i] == sorted[i - 1] && r[j] == sorted[j - 1]);
        }
    }
}

/// The listing of a summary's topics is in order of name and holds every
/// candidate entry, as often as it occurs.
pub proof fn law_s3_topics_sorted(s: Seq<TopicInfoView>)
    ensures
        topics_sorted_by_name(stable_sort_topics(s)),
        stable_sort_topics(s).to_multiset() == s.to_multiset(),
    decreases s.len(),
{
    if s.len() > 0 {
        law_s3_topics_sorted(s.drop_last());
        let sorted = stable_sort_topics(s.drop_last());
        let names = sorted.map_values(|t: TopicInfoView| t.name);
        lemma_insert_topic_sorted(sorted, s.last());
        lemma_upper_bound_props(names, s.last().name, 0);
        vstd::seq_lib::to_multiset_insert(sorted, upper_bound_from(names, s.last().name, 0), s.last());
        assert(s =~= s.drop_last().push(s.last()));
        vstd::seq_lib::to_multiset_build(s.drop_last(), s.last());
        assert(stable_sort_topics(s) == sorted.insert(upper_bound_from(names, s.last().name, 0), s.last()));
    } else {
        assert(s =~= Seq::<TopicInfoView>::empty());
        assert(stable_sort_topics(s) =~= Seq::<TopicInfoView>::empty());
    }
}

/// Inserts `x` after every entry whose name is at most its own.
fn insert_topic_stable(v: &mut Vec<TopicInfo>, x: TopicInfo)
    ensures
        topic_infos_view(final(v)@) == ({
            let old_views = topic_infos_view(old(v)@);
            let names = old_views.map_values(|t: TopicInfoView| t.name);
            old_views.insert(upper_bound_from(names, x@.name, 0), x@)
        }),
{
    let ghost old_views = topic_infos_view(v@);
    let ghost names = old_views.map_values(|t: TopicInfoView| t.name);
    proof {
        lemma_upper_bound_props(names, x@.name, 0);
    }
    let mut p: usize = 0;
    while p < v.len() && str_le(v[p].name.as_str(), x.name.as_str())
        invariant
            p <= v.len(),
            old_views == topic_infos_view(v@),
            names == old_views.map_values(|t: TopicInfoView| t.name),
            names.len() == v.len(),
            upper_bound_from(names, x@.name, 0) == upper_bound_from(names, x@.name, p as int),
        decreases v.len() - p,
    {
        assert(names[p as int] == v@[p as int].name@);
        p = p + 1;
    }
    proof {
        if p < v.len() {
            assert(names[p as int] == v@[p as int].name@);
        }
    }
    v.insert(p, x);
    assert(topic_infos_view(v@) =~= old_views.insert(p as int, x@));
}

impl S3Client {
    /// The video topics that a recording's summary lists, sorted by name.
    pub fn list_video_topics(&self, summary: &McapSummary) -> (r: Vec<TopicInfo>)
        ensures
            topic_infos_view(r@) == stable_sort_topics(
                s3_video_candidates(summary@, summary@.channels.len()),
            ),
    {
        let schema_map = build_schema_map(summary);
        let mut topics: Vec<TopicInfo> = Vec::new();
        let mut i: usize = 0;
        while i < summary.channels.len()
            invariant
                i <= summary.channels.len(),
                schema_map_view(schema_map@) == schema_names(summary@.schemas),
                topic_infos_view(topics@) == stable_sort_topics(
                    s3_video_candidates(summary@, i as nat),
                ),
            decreases summary.channels.len() - i,
        {
            let ch = &summary.channels[i];
            let schema_name = lookup_schema(&schema_map, ch.schema_id);
            let msg_type = ImageMessageType::from_schema_name(schema_name);
            proof {
                assert(summary@.channels[i as int] == ch@);
            }
            if msg_type.is_some() {
                let count = lookup_count(summary, ch.id);
                let info = TopicInfo {
                    name: ch.topic.clone(),
                    schema_name: schema_name.to_string(),
                    message_count: #[verifier::truncate] (count as usize),
                    message_type: msg_type,
                };
                insert_topic_stable(&mut topics, info);
                proof {
                    let c = s3_video_candidates(summary@, (i + 1) as nat);
                    assert(c.drop_last() =~= s3_video_candidates(summary@, i as nat));
                }
            }
            i = i + 1;
        }
        topics
    }
}

/// The metadata-topic entries of the summary's channels, in channel order.
pub open spec fn s3_metadata_candidates(s: McapSummaryView, n: nat) -> Seq<MetadataTopicInfoView>
    decreases n,
{
    if n == 0 {
        Seq::empty()
    } else {
        let prev = s3_metadata_candidates(s, (n - 1) as nat);
        let c = s.channels[n - 1];
        let name = schema_name_of(schema_names(s.schemas), c.schema_id);
        if spec_metadata_kind(name) is Some {
            prev.push(
                MetadataTopicInfoView {
                    name: c.topic,
                    schema_name: name,
                    message_count: channel_count(s, c.id) as usize,
                    message_type: spec_metadata_kind(name)->0,
                },
            )
        } else {
            prev
        }
    }
}

/// The entries sorted stably by name (entries of equal names keep their
/// order), as insertion sort leaves them.
pub open spec fn stable_sort_metadata_topics(s: Seq<MetadataTopicInfoView>) -> Seq<MetadataTopicInfoView>
    decreases s.len(),
{
    if s.len() == 0 {
        Seq::empty()
    } else {
        let sorted = stable_sort_metadata_topics(s.drop_last());
        let names = sorted.map_values(|t: MetadataTopicInfoView| t.name);
        sorted.insert(upper_bound_from(names, s.last().name, 0), s.last())
    }
}

/// The entries are in order of name.
pub open spec fn metadata_sorted_by_name(s: Seq<MetadataTopicInfoView>) -> bool {
    forall|i: int, j: int| 0 <= i < j < s.len() ==> lex_le(#[trigger] s[i].name, #[trigger] s[j].name)
}

proof fn lemma_insert_metadata_sorted(sorted: Seq<MetadataTopicInfoView>, x: MetadataTopicInfoView)
    requires
        metadata_sorted_by_name(sorted),
    ensures
        ({
            let names = sorted.map_values(|t: MetadataTopicInfoView| t.name);
            metadata_sorted_by_name(sorted.insert(upper_bound_from(names, x.name, 0), x))
        }),
{
    let names = sorted.map_values(|t: MetadataTopicInfoView| t.name);
    lemma_upper_bound_props(names, x.name, 0);
    let u = upper_bound_from(names, x.name, 0);
    let r = sorted.insert(u, x);
    assert forall|i: int, j: int| 0 <= i < j < r.len() implies lex_le(
        #[trigger] r[i].name,
        #[trigger] r[j].name,
    ) by {
        if j < u {
            assert(r[i] == sorted[i] && r[j] == sorted[j]);
        } else if j == u {
            assert(r[i] == sorted[i] && names[i] == sorted[i].name);
        } else if i < u {
            assert(r[i] == sorted[i] && r[j] == sorted[j - 1]);
        } else if i == u {
            assert(r[j] == sorted[j - 1]);
            assert(names[u] == sorted[u].name);
            lemma_lex_total(sorted[u].name, x.name, 0);
            if j - 1 > u {
                lemma_lex_transitive(x.name, sorted[u].name, sorted[j - 1].name, 0);
            }
        } else {
            assert(r[i] == sorted[i - 1] && r[j] == sorted[j - 1]);
        }
    }
}

/// The listing of a summary's metadata topics is in order of name and holds every
/// candidate entry, as often as it occurs.
pub proof fn law_s3_metadata_topics_sorted(s: Seq<MetadataTopicInfoView>)
    ensures
        metadata_sorted_by_name(stable_sort_metadata_topics(s)),
        stable_sort_metadata_topics(s).to_multiset() == s.to_multiset(),
    decreases s.len(),
{
    if s.len() > 0 {
        law_s3_metadata_topics_sorted(s.drop_last());
        let sorted = stable_sort_metadata_topics(s.drop_last());
        let names = sorted.map_values(|t: MetadataTopicInfoView| t.name);
        lemma_insert_metadata_sorted(sorted, s.last());
        lemma_upper_bound_props(names, s.last().name, 0);
        vstd::seq_lib::to_multiset_insert(sorted, upper_bound_from(names, s.last().name, 0), s.last());
        assert(s =~= s.drop_last().push(s.last()));
        vstd::seq_lib::to_multiset_build(s.drop_last(), s.last());
        assert(stable_sort_metadata_topics(s) == sorted.insert(upper_bound_from(names, s.last().name, 0), s.last()));
    } else {
        assert(s =~= Seq::<MetadataTopicInfoView>::empty());
        assert(stable_sort_metadata_topics(s) =~= Seq::<MetadataTopicInfoView>::empty());
    }
}

/// Inserts `x` after every entry whose name is at most its own.
fn insert_metadata_topic_stable(v: &mut Vec<MetadataTopicInfo>, x: MetadataTopicInfo)
    ensures
        metadata_infos_view(final(v)@) == ({
            let old_views = metadata_infos_view(old(v)@);
            let names = old_views.map_values(|t: MetadataTopicInfoView| t.name);
            old_views.insert(upper_bound_from(names, x@.name, 0), x@)
        }),
{
    let ghost old_views = metadata_infos_view(v@);
    let ghost names = old_views.map_values(|t: MetadataTopicInfoView| t.name);
    proof {
        lemma_upper_bound_props(names, x@.name, 0);
    }
    let mut p: usize = 0;
    while p < v.len() && str_le(v[p].name.as_str(), x.name.as_str())
        invariant
            p <= v.len(),
            old_views == metadata_infos_view(v@),
            names == old_views.map_values(|t: MetadataTopicInfoView| t.name),
            names.len() == v.len(),
            upper_bound_from(names, x@.name, 0) == upper_bound_from(names, x@.name, p as int),
        decreases v.len() - p,
    {
        assert(names[p as int] == v@[p as int].name@);
        p = p + 1;
    }
    proof {
        if p < v.len() {
            assert(names[p as int] == v@[p as int].name@);
        }
    }
    v.insert(p, x);
    assert(metadata_infos_view(v@) =~= old_views.insert(p as int, x@));
}

impl S3Client {
    /// The metadata topics that a recording's summary lists, sorted by name.
    pub fn list_metadata_topics(&self, summary: &McapSummary) -> (r: Vec<MetadataTopicInfo>)
        ensures
            metadata_infos_view(r@) == stable_sort_metadata_topics(
                s3_metadata_candidates(summary@, summary@.channels.len()),
            ),
    {
        let schema_map = build_schema_map(summary);
        let mut topics: Vec<MetadataTopicInfo> = Vec::new();
        let mut i: usize = 0;
        while i < summary.channels.len()
            invariant
                i <= summary.channels.len(),
                schema_map_view(schema_map@) == schema_names(summary@.schemas),
                metadata_infos_view(topics@) == stable_sort_metadata_topics(
                    s3_metadata_candidates(summary@, i as nat),
                ),
            decreases summary.channels.len() - i,
        {
            let ch = &summary.channels[i];
            let schema_name = lookup_schema(&schema_map, ch.schema_id);
            let msg_type = MetadataMessageType::from_schema_name(schema_name);
            proof {
                assert(summary@.channels[i as int] == ch@);
            }
            if let Some(msg_type) = msg_type {
                let count = lookup_count(summary, ch.id);
                let info = MetadataTopicInfo {
                    name: ch.topic.clone(),
                    schema_name: schema_name.to_string(),
                    message_count: #[verifier::truncate] (count as usize),
                    message_type: msg_type,
                };
                insert_metadata_topic_stable(&mut topics, info);
                proof {
                    let c = s3_metadata_candidates(summary@, (i + 1) as nat);
                    assert(c.drop_last() =~= s3_metadata_candidates(summary@, i as nat));
                }
            }
            i = i + 1;
        }
        topics
    }
}

// ---- Frames from selected chunks ----

/// Why extracting frames from a recording in storage failed.
#[derive(Debug)]
pub enum S3Error {
    /// No channel has the topic; holds the topics of all channels.
    TopicNotFound { topic: String, available: Vec<String> },
    /// The schema of the topic's first channel names no image type.
    NotImageTopic { topic: String, schema_name: String },
    /// A downloaded chunk could not be read.
    Chunk(ChunkError),
    /// A message of the topic could not be decoded.
    Cdr(CdrError),
    /// The chunks hold no message of the topic.
    NoFrames { topic: String },
}

pub enum S3ErrorView {
    TopicNotFound { topic: Seq<char>, available: Seq<Seq<char>> },
    NotImageTopic { topic: Seq<char>, schema_name: Seq<char> },
    Chunk(ChunkErrorView),
    Cdr(CdrError),
    NoFrames { topic: Seq<char> },
}

pub open spec fn strings_view(v: Seq<String>) -> Seq<Seq<char>> {
    v.map_values(|s: String| s@)
}

impl View for S3Error {
    type V = S3ErrorView;

    open spec fn view(&self) -> S3ErrorView {
        match self {
            S3Error::TopicNotFound { topic, available } => S3ErrorView::TopicNotFound {
                topic: topic@,
                available: strings_view(available@),
            },
            S3Error::NotImageTopic { topic, schema_name } => S3ErrorView::NotImageTopic {
                topic: topic@,
                schema_name: schema_name@,
            },
            S3Error::Chunk(e) => S3ErrorView::Chunk(e@),
            S3Error::Cdr(e) => S3ErrorView::Cdr(*e),
            S3Error::NoFrames { topic } => S3ErrorView::NoFrames { topic: topic@ },
        }
    }
}

/// The ids of the first `n` channels that carry `topic`, in order.
pub open spec fn topic_channel_ids(channels: Seq<ChannelInfoView>, topic: Seq<char>, n: nat) -> Seq<u16>
    decreases n,
{
    if n == 0 {
        Seq::empty()
    } else {
        let prev = topic_channel_ids(channels, topic, (n - 1) as nat);
        if channels[n - 1].topic == topic {
            prev.push(channels[n - 1].id)
        } else {
            prev
        }
    }
}

/// The first of the first `n` channels that carries `topic`.
pub open spec fn first_topic_channel(channels: Seq<ChannelInfoView>, topic: Seq<char>, n: nat) -> Option<
    ChannelInfoView,
>
    decreases n,
{
    if n == 0 {
        None
    } else {
        match first_topic_channel(channels, topic, (n - 1) as nat) {
            Some(c) => Some(c),
            None => if channels[n - 1].topic == topic {
                Some(channels[n - 1])
            } else {
                None
            },
        }
    }
}

/// The chunk holds a message of one of the channels `ids`.
pub open spec fn chunk_relevant(ci: ChunkIndexInfoView, ids: Seq<u16>) -> bool {
    exists|k: int| 0 <= k < ci.channel_ids.len() && ids.contains(#[trigger] ci.channel_ids[k])
}

/// Those of the first `n` chunks that hold a message of the channels `ids`.
pub open spec fn relevant_chunks(chunks: Seq<ChunkIndexInfoView>, ids: Seq<u16>, n: nat) -> Seq<
    ChunkIndexInfoView,
>
    decreases n,
{
    if n == 0 {
        Seq::empty()
    } else {
        let prev = relevant_chunks(chunks, ids, (n - 1) as nat);
        if chunk_relevant(chunks[n - 1], ids) {
            prev.push(chunks[n - 1])
        } else {
            prev
        }
    }
}

/// The byte range of a chunk, both ends included.
pub open spec fn chunk_range(ci: ChunkIndexInfoView) -> (u64, u64) {
    (ci.chunk_start_offset, (ci.chunk_start_offset + ci.chunk_length - 1) as u64)
}

/// The offset just past the chunk is a `u64` above zero, so that its last
/// byte has an offset.
pub open spec fn range_fits(ci: ChunkIndexInfoView) -> bool {
    1 <= ci.chunk_start_offset + ci.chunk_length <= u64::MAX
}

/// What to download for the frames of `topic`: the ids of its channels,
/// the image type that the schema of its first channel names, and the
/// chunks that hold its messages, in summary order.
pub open spec fn spec_plan_frames(s: McapSummaryView, topic: Seq<char>) -> Result<
    (Seq<u16>, ImageMessageType, Seq<ChunkIndexInfoView>),
    S3ErrorView,
> {
    let ids = topic_channel_ids(s.channels, topic, s.channels.len());
    if ids.len() == 0 {
        Err(
            S3ErrorView::TopicNotFound {
                topic,
                available: s.channels.map_values(|c: ChannelInfoView| c.topic),
            },
        )
    } else {
        let ch = first_topic_channel(s.channels, topic, s.channels.len())->0;
        let name = schema_name_of(schema_names(s.schemas), ch.schema_id);
        match spec_image_kind(name) {
            None => Err(S3ErrorView::NotImageTopic { topic, schema_name: name }),
            Some(kind) => Ok((ids, kind, relevant_chunks(s.chunk_indexes, ids, s.chunk_indexes.len()))),
        }
    }
}

/// Every chunk that holds a message of `topic` has a byte range.
pub open spec fn plan_fits(s: McapSummaryView, topic: Seq<char>) -> bool {
    let ids = topic_channel_ids(s.channels, topic, s.channels.len());
    forall|i: int|
        0 <= i < s.chunk_indexes.len() && chunk_relevant(s.chunk_indexes[i], ids) ==> range_fits(
            #[trigger] s.chunk_indexes[i],
        )
}

/// The channel `id` carries `topic`.
pub open spec fn carries_topic(channels: Seq<ChannelInfoView>, topic: Seq<char>, id: u16) -> bool {
    exists|j: int| 0 <= j < channels.len() && (#[trigger] channels[j]).topic == topic && channels[j].id == id
}

proof fn lemma_topic_channel_ids(channels: Seq<ChannelInfoView>, topic: Seq<char>, n: nat, id: u16)
    requires
        n <= channels.len(),
    ensures
        topic_channel_ids(channels, topic, n).contains(id) <==> exists|j: int|
            0 <= j < n && (#[trigger] channels[j]).topic == topic && channels[j].id == id,
    decreases n,
{
    if n > 0 {
        lemma_topic_channel_ids(channels, topic, (n - 1) as nat, id);
        let prev = topic_channel_ids(channels, topic, (n - 1) as nat);
        if channels[n - 1].topic == topic {
            assert(prev.push(channels[n - 1].id).contains(id) <==> (prev.contains(id) || channels[n
                - 1].id == id)) by {
                if prev.push(channels[n - 1].id).contains(id) {
                    let k = choose|k: int| 0 <= k < prev.len() + 1 && #[trigger] prev.push(channels[n - 1].id)[k] == id;
                    if k < prev.len() {
                        assert(prev[k] == id);
                    }
                }
                if prev.contains(id) {
                    let k = choose|k: int| 0 <= k < prev.len() && #[trigger] prev[k] == id;
                    assert(prev.push(channels[n - 1].id)[k] == id);
                }
                if channels[n - 1].id == id {
                    assert(prev.push(channels[n - 1].id)[prev.len() as int] == id);
                }
            }
        }
    }
}

proof fn lemma_relevant_chunks_filter(
    chunks: Seq<ChunkIndexInfoView>,
    ids: Seq<u16>,
    pred: spec_fn(ChunkIndexInfoView) -> bool,
    n: nat,
)
    requires
        n <= chunks.len(),
        forall|c: ChunkIndexInfoView| #[trigger] pred(c) == chunk_relevant(c, ids),
    ensures
        relevant_chunks(chunks, ids, n) == chunks.take(n as int).filter(pred),
    decreases n,
{
    reveal(Seq::filter);
    if n > 0 {
        lemma_relevant_chunks_filter(chunks, ids, pred, (n - 1) as nat);
        assert(chunks.take(n as int).drop_last() =~= chunks.take(n - 1));
        assert(chunks.take(n as int).last() == chunks[n - 1]);
    }
}

/// The plan for a topic lists exactly the ids of the channels that carry
/// the topic, and exactly the chunks, in summary order, whose message index
/// names one of those channels; each chunk's byte range runs from its start
/// offset over its length.
pub proof fn law_plan_selects_topic_chunks(s: McapSummaryView, topic: Seq<char>)
    requires
        spec_plan_frames(s, topic) is Ok,
    ensures
        ({
            let (ids, _, chunks) = spec_plan_frames(s, topic)->Ok_0;
            &&& forall|id: u16| ids.contains(id) <==> carries_topic(s.channels, topic, id)
            &&& chunks == s.chunk_indexes.filter(
                |c: ChunkIndexInfoView|
                    exists|k: int|
                        0 <= k < c.channel_ids.len() && carries_topic(
                            s.channels,
                            topic,
                            #[trigger] c.channel_ids[k],
                        ),
            )
            &&& forall|i: int|
                0 <= i < chunks.len() && range_fits(#[trigger] chunks[i]) ==> chunk_range(chunks[i])
                    == (chunks[i].chunk_start_offset, (chunks[i].chunk_start_offset
                    + chunks[i].chunk_length - 1) as u64)
        }),
{
    let ids = topic_channel_ids(s.channels, topic, s.channels.len());
    assert forall|id: u16| ids.contains(id) <==> carries_topic(s.channels, topic, id) by {
        lemma_topic_channel_ids(s.channels, topic, s.channels.len(), id);
    }
    let pred = |c: ChunkIndexInfoView|
        exists|k: int|
            0 <= k < c.channel_ids.len() && carries_topic(s.channels, topic, #[trigger] c.channel_ids[k]);
    assert forall|c: ChunkIndexInfoView| #[trigger] pred(c) == chunk_relevant(c, ids) by {
        if pred(c) {
            let k = choose|k: int|
                0 <= k < c.channel_ids.len() && carries_topic(s.channels, topic, #[trigger] c.channel_ids[k]);
            assert(ids.contains(c.channel_ids[k]));
        }
        if chunk_relevant(c, ids) {
            let k = choose|k: int| 0 <= k < c.channel_ids.len() && ids.contains(#[trigger] c.channel_ids[k]);
            assert(carries_topic(s.channels, topic, c.channel_ids[k]));
        }
    }
    lemma_relevant_chunks_filter(s.chunk_indexes, ids, pred, s.chunk_indexes.len());
    assert(s.chunk_indexes.take(s.chunk_indexes.len() as int) =~= s.chunk_indexes);
}

/// What to download for the frames of a topic.
pub struct S3FramePlan {
    pub channel_ids: Vec<u16>,
    pub kind: ImageMessageType,
    /// The byte ranges of the chunks to download, both ends included.
    pub ranges: Vec<(u64, u64)>,
}

proof fn lemma_first_topic_channel(channels: Seq<ChannelInfoView>, topic: Seq<char>, n: nat)
    requires
        n <= channels.len(),
    ensures
        topic_channel_ids(channels, topic, n).len() > 0 <==> first_topic_channel(
            channels,
            topic,
            n,
        ) is Some,
        first_topic_channel(channels, topic, n) matches Some(c) ==> c.topic == topic,
    decreases n,
{
    if n > 0 {
        lemma_first_topic_channel(channels, topic, (n - 1) as nat);
    }
}

/// The ids of the channels of `topic`, and the first such channel's schema id.
fn topic_channels(summary: &McapSummary, topic: &str) -> (r: (Vec<u16>, Option<u16>))
    ensures
        r.0@ == topic_channel_ids(summary@.channels, topic@, summary@.channels.len()),
        match first_topic_channel(summary@.channels, topic@, summary@.channels.len()) {
            Some(c) => r.1 == Some(c.schema_id),
            None => r.1 is None,
        },
{
    let mut ids: Vec<u16> = Vec::new();
    let mut first: Option<u16> = None;
    let mut i: usize = 0;
    while i < summary.channels.len()
        invariant
            i <= summary.channels.len(),
            ids@ == topic_channel_ids(summary@.channels, topic@, i as nat),
            match first_topic_channel(summary@.channels, topic@, i as nat) {
                Some(c) => first == Some(c.schema_id),
                None => first is None,
            },
        decreases summary.channels.len() - i,
    {
        let ch = &summary.channels[i];
        proof {
            assert(summary@.channels[i as int] == ch@);
        }
        if crate::text::str_is(ch.topic.as_str(), topic) {
            ids.push(ch.id);
            if first.is_none() {
                first = Some(ch.schema_id);
            }
        }
        i = i + 1;
    }
    (ids, first)
}

/// Whether the chunk holds a message of one of the channels `ids`.
fn chunk_has_channel(channel_ids: &Vec<u16>, ids: &Vec<u16>) -> (r: bool)
    ensures
        r == (exists|k: int| 0 <= k < channel_ids.len() && ids@.contains(#[trigger] channel_ids@[k])),
{
    let mut k: usize = 0;
    while k < channel_ids.len()
        invariant
            k <= channel_ids.len(),
            forall|j: int| 0 <= j < k ==> !ids@.contains(#[trigger] channel_ids@[j]),
        decreases channel_ids.len() - k,
    {
        if contains_channel(ids.as_slice(), channel_ids[k]) {
            return true;
        }
        k = k + 1;
    }
    false
}

impl S3Client {
    /// What to download for the frames of `topic`, from a recording's summary.
    pub fn plan_frames(&self, summary: &McapSummary, topic: &str) -> (r: Result<
        S3FramePlan,
        S3Error,
    >)
        requires
            plan_fits(summary@, topic@),
        ensures
            match spec_plan_frames(summary@, topic@) {
                Ok((ids, kind, chunks)) => r matches Ok(p) && p.channel_ids@ == ids && p.kind
                    == kind && p.ranges@ == chunks.map_values(|c: ChunkIndexInfoView| chunk_range(c)),
                Err(e) => r matches Err(e2) && e2@ == e,
            },
    {
        let (ids, first) = topic_channels(summary, topic);
        proof {
            lemma_first_topic_channel(summary@.channels, topic@, summary@.channels.len());
        }
        let schema_id = match first {
            Some(id) => id,
            None => {
                let mut available: Vec<String> = Vec::new();
                let mut i: usize = 0;
                while i < summary.channels.len()
                    invariant
                        i <= summary.channels.len(),
                        strings_view(available@) == summary@.channels.take(i as int).map_values(
                            |c: ChannelInfoView| c.topic,
                        ),
                    decreases summary.channels.len() - i,
                {
                    let ghost before = available@;
                    available.push(summary.channels[i].topic.clone());
                    proof {
                        assert(strings_view(available@) =~= strings_view(before).push(
                            summary.channels@[i as int].topic@,
                        ));
                        assert(summary@.channels.take(i + 1).map_values(
                            |c: ChannelInfoView| c.topic,
                        ) =~= summary@.channels.take(i as int).map_values(
                            |c: ChannelInfoView| c.topic,
                        ).push(summary.channels@[i as int].topic@));
                    }
                    i = i + 1;
                }
                assert(summary@.channels.take(summary.channels.len() as int) =~= summary@.channels);
                return Err(S3Error::TopicNotFound { topic: topic.to_string(), available });
            },
        };
        let schema_map = build_schema_map(summary);
        let schema_name = lookup_schema(&schema_map, schema_id);
        let kind = match ImageMessageType::from_schema_name(schema_name) {
            Some(k) => k,
            None => {
                return Err(
                    S3Error::NotImageTopic {
                        topic: topic.to_string(),
                        schema_name: schema_name.to_string(),
                    },
                );
            },
        };
        let mut ranges: Vec<(u64, u64)> = Vec::new();
        let mut j: usize = 0;
        while j < summary.chunk_indexes.len()
            invariant
                j <= summary.chunk_indexes.len(),
                plan_fits(summary@, topic@),
                ids@ == topic_channel_ids(summary@.channels, topic@, summary@.channels.len()),
                ranges@ == relevant_chunks(summary@.chunk_indexes, ids@, j as nat).map_values(
                    |c: ChunkIndexInfoView| chunk_range(c),
                ),
            decreases summary.chunk_indexes.len() - j,
        {
            let ci = &summary.chunk_indexes[j];
            proof {
                assert(summary@.chunk_indexes[j as int] == ci@);
            }
            if chunk_has_channel(&ci.channel_ids, &ids) {
                proof {
                    let k = choose|k: int| 0 <= k < ci.channel_ids.len() && ids@.contains(#[trigger] ci.channel_ids@[k]);
                    assert(ci@.channel_ids[k] == ci.channel_ids@[k]);
                    assert(chunk_relevant(summary@.chunk_indexes[j as int], ids@));
                    assert(range_fits(summary@.chunk_indexes[j as int]));
                }
                let ghost before = ranges@;
                ranges.push((ci.chunk_start_offset, ci.chunk_start_offset + ci.chunk_length - 1));
                proof {
                    let rel = relevant_chunks(summary@.chunk_indexes, ids@, (j + 1) as nat);
                    assert(rel.map_values(|c: ChunkIndexInfoView| chunk_range(c)) =~= before.push(
                        chunk_range(ci@),
                    ));
                }
            } else {
                proof {
                    assert(!chunk_relevant(summary@.chunk_indexes[j as int], ids@));
                }
            }
            j = j + 1;
        }
        Ok(S3FramePlan { channel_ids: ids, kind, ranges })
    }
}

/// The frames that the messages `msgs` decode to, numbered from `start`;
/// or the first decoding error.
pub open spec fn raw_frames(msgs: Seq<RawMessageView>, kind: ImageMessageType, start: nat) -> Result<
    Seq<VideoFrameView>,
    CdrError,
>
    decreases msgs.len(),
{
    if msgs.len() == 0 {
        Ok(Seq::empty())
    } else {
        match raw_frames(msgs.drop_last(), kind, start) {
            Err(e) => Err(e),
            Ok(fs) => match spec_frame_of(kind, msgs.last().data, (start + fs.len()) as u64) {
                Ok(f) => Ok(fs.push(f)),
                Err(e) => Err(e),
            },
        }
    }
}

/// The frames of the first `n` downloaded chunks, in order and numbered
/// from 0; or the first error met.
pub open spec fn chunk_frames(
    chunks: Seq<Seq<u8>>,
    ids: Seq<u16>,
    kind: ImageMessageType,
    n: nat,
) -> Result<Seq<VideoFrameView>, S3ErrorView>
    decreases n,
{
    if n == 0 {
        Ok(Seq::empty())
    } else {
        match chunk_frames(chunks, ids, kind, (n - 1) as nat) {
            Err(e) => Err(e),
            Ok(frames) => match spec_extract_messages_from_chunk(chunks[n - 1], ids) {
                Err(e) => Err(S3ErrorView::Chunk(e)),
                Ok(msgs) => match raw_frames(msgs, kind, frames.len()) {
                    Err(e) => Err(S3ErrorView::Cdr(e)),
                    Ok(fs) => Ok(frames + fs),
                },
            },
        }
    }
}

proof fn lemma_chunk_frames_stop(
    chunks: Seq<Seq<u8>>,
    ids: Seq<u16>,
    kind: ImageMessageType,
    n: nat,
    m: nat,
)
    requires
        n <= m,
        chunk_frames(chunks, ids, kind, n) is Err,
    ensures
        chunk_frames(chunks, ids, kind, m) == chunk_frames(chunks, ids, kind, n),
    decreases m - n,
{
    if n < m {
        lemma_chunk_frames_stop(chunks, ids, kind, n, (m - 1) as nat);
    }
}

/// What `extract_frames` gives for the chunks downloaded by the plan: the
/// plan's error, the first error met in the chunks, `NoFrames` where they
/// hold no frame, or the frames sorted by time.
pub open spec fn s3_frames_extracted(
    s: McapSummaryView,
    topic: Seq<char>,
    chunks: Seq<Seq<u8>>,
    r: Result<Seq<VideoFrame>, S3ErrorView>,
) -> bool {
    match spec_plan_frames(s, topic) {
        Err(e) => r == Err::<Seq<VideoFrame>, S3ErrorView>(e),
        Ok((ids, kind, _)) => match chunk_frames(chunks, ids, kind, chunks.len()) {
            Err(e) => r == Err::<Seq<VideoFrame>, S3ErrorView>(e),
            Ok(frames) => if frames.len() == 0 {
                r == Err::<Seq<VideoFrame>, S3ErrorView>(S3ErrorView::NoFrames { topic })
            } else {
                r matches Ok(v) && frames_view(v).to_multiset() == frames.to_multiset()
                    && sorted_by_key(v)
            },
        },
    }
}

/// The frames that `extract_frames` returns from downloaded chunks are in
/// order of real time: a frame's seconds and nanoseconds, read as one count
/// of nanoseconds, never exceed those of a later frame; frames of the same
/// time keep their order of decoding (their numbers increase).
pub proof fn law_s3_frames_in_time_order(
    s: McapSummaryView,
    topic: Seq<char>,
    chunks: Seq<Seq<u8>>,
    v: Seq<VideoFrame>,
)
    requires
        s3_frames_extracted(s, topic, chunks, Ok::<Seq<VideoFrame>, S3ErrorView>(v)),
    ensures
        forall|i: int, j: int|
            0 <= i < j < v.len() ==> {
                let a = (#[trigger] v[i]).stamp;
                let b = (#[trigger] v[j]).stamp;
                &&& a.sec * 1_000_000_000 + a.nanosec <= b.sec * 1_000_000_000 + b.nanosec
                &&& (a.sec * 1_000_000_000 + a.nanosec == b.sec * 1_000_000_000 + b.nanosec
                    ==> v[i].sequence <= v[j].sequence)
            },
{
    assert forall|i: int, j: int| 0 <= i < j < v.len() implies {
        let a = (#[trigger] v[i]).stamp;
        let b = (#[trigger] v[j]).stamp;
        &&& a.sec * 1_000_000_000 + a.nanosec <= b.sec * 1_000_000_000 + b.nanosec
        &&& (a.sec * 1_000_000_000 + a.nanosec == b.sec * 1_000_000_000 + b.nanosec
            ==> v[i].sequence <= v[j].sequence)
    } by {
        assert(<VideoFrame as crate::sorting::KeyOrder>::key_le(v[i], v[j]));
    }
}

pub open spec fn chunks_view(chunks: Seq<Vec<u8>>) -> Seq<Seq<u8>> {
    chunks.map_values(|c: Vec<u8>| c@)
}

proof fn lemma_raw_frames_stop(msgs: Seq<RawMessageView>, kind: ImageMessageType, start: nat, n: int, m: int)
    requires
        0 <= n <= m <= msgs.len(),
        raw_frames(msgs.take(n), kind, start) is Err,
    ensures
        raw_frames(msgs.take(m), kind, start) == raw_frames(msgs.take(n), kind, start),
    decreases m - n,
{
    if n < m {
        lemma_raw_frames_stop(msgs, kind, start, n, m - 1);
        assert(msgs.take(m).drop_last() =~= msgs.take(m - 1));
    }
}

/// Appends the frames of decoded messages, numbering them on from the
/// frames already there.
fn push_raw_frames(frames: &mut Vec<VideoFrame>, msgs: &Vec<RawMessage>, kind: ImageMessageType) -> (r:
    Result<(), CdrError>)
    requires
        forall|i: int| 0 <= i < msgs.len() ==> (#[trigger] msgs@[i]).data.len() <= isize::MAX,
    ensures
        match raw_frames(messages_view(msgs@), kind, old(frames).len() as nat) {
            Ok(fs) => r is Ok && frames_view(final(frames)@) == frames_view(old(frames)@) + fs,
            Err(e) => r == Err::<(), CdrError>(e),
        },
{
    let ghost base = frames_view(frames@);
    let ghost start = frames.len() as nat;
    let mut k: usize = 0;
    assert(messages_view(msgs@).take(0) =~= Seq::<RawMessageView>::empty());
    assert(base + Seq::<VideoFrameView>::empty() =~= base);
    while k < msgs.len()
        invariant
            k <= msgs.len(),
            forall|i: int| 0 <= i < msgs.len() ==> (#[trigger] msgs@[i]).data.len() <= isize::MAX,
            base.len() == start,
            start == old(frames)@.len(),
            base == frames_view(old(frames)@),
            raw_frames(messages_view(msgs@).take(k as int), kind, start) matches Ok(fs) && frames_view(
                frames@,
            ) == base + fs,
        decreases msgs.len() - k,
    {
        let ghost fs = raw_frames(messages_view(msgs@).take(k as int), kind, start)->Ok_0;
        let ghost before = frames@;
        let ghost t = messages_view(msgs@).take(k + 1);
        proof {
            assert(t.drop_last() =~= messages_view(msgs@).take(k as int));
            assert(t.last() == msgs@[k as int]@);
            assert(frames_view(frames@).len() == frames@.len());
        }
        let f = match frame_of(kind, msgs[k].data.as_slice(), frames.len() as u64) {
            Ok(f) => f,
            Err(e) => {
                proof {
                    assert(raw_frames(t, kind, start) == Err::<Seq<VideoFrameView>, CdrError>(e));
                    lemma_raw_frames_stop(messages_view(msgs@), kind, start, k + 1, msgs.len() as int);
                    assert(messages_view(msgs@).take(msgs.len() as int) =~= messages_view(msgs@));
                }
                return Err(e);
            },
        };
        frames.push(f);
        proof {
            assert(frames_view(frames@) =~= frames_view(before).push(f@));
            assert(frames_view(frames@) =~= base + fs.push(f@));
        }
        k = k + 1;
    }
    assert(messages_view(msgs@).take(msgs.len() as int) =~= messages_view(msgs@));
    Ok(())
}

impl S3Client {
    /// Extract the video frames of `topic` from the chunks that `plan_frames`
    /// selected, downloaded in order, sorted by time.
    pub fn extract_frames(&self, summary: &McapSummary, topic: &str, chunks: &[Vec<u8>]) -> (r:
        Result<Vec<VideoFrame>, S3Error>)
        requires
            plan_fits(summary@, topic@),
            spec_plan_frames(summary@, topic@) matches Ok((_, _, rel)) ==> chunks.len() == rel.len(),
            forall|i: int| 0 <= i < chunks.len() ==> (#[trigger] chunks@[i]).len() <= isize::MAX,
        ensures
            s3_frames_extracted(
                summary@,
                topic@,
                chunks_view(chunks@),
                match r {
                    Ok(v) => Ok(v@),
                    Err(e) => Err(e@),
                },
            ),
    {
        let plan = self.plan_frames(summary, topic)?;
        let ghost cv = chunks_view(chunks@);
        let mut frames: Vec<VideoFrame> = Vec::new();
        let mut j: usize = 0;
        assert(frames_view(frames@) =~= Seq::<VideoFrameView>::empty());
        while j < chunks.len()
            invariant
                j <= chunks.len(),
                cv == chunks_view(chunks@),
                cv.len() == chunks.len(),
                forall|i: int| 0 <= i < chunks.len() ==> (#[trigger] chunks@[i]).len() <= isize::MAX,
                chunk_frames(cv, plan.channel_ids@, plan.kind, j as nat) == Ok::<_, S3ErrorView>(
                    frames_view(frames@),
                ),
                spec_plan_frames(summary@, topic@) matches Ok((ids, kind, _)) && ids
                    == plan.channel_ids@ && kind == plan.kind,
            decreases chunks.len() - j,
        {
            proof {
                assert(cv[j as int] == chunks@[j as int]@);
                assert(chunks@[j as int].len() <= isize::MAX);
            }
            let msgs = match extract_messages_from_chunk(chunks[j].as_slice(), plan.channel_ids.as_slice()) {
                Ok(m) => m,
                Err(e) => {
                    proof {
                        assert(chunk_frames(cv, plan.channel_ids@, plan.kind, (j + 1) as nat)
                            == Err::<Seq<VideoFrameView>, S3ErrorView>(S3ErrorView::Chunk(e@)));
                        lemma_chunk_frames_stop(cv, plan.channel_ids@, plan.kind, (j + 1) as nat, chunks.len() as nat);
                    }
                    return Err(S3Error::Chunk(e));
                },
            };
            let ghost before = frames_view(frames@);
            match push_raw_frames(&mut frames, &msgs, plan.kind) {
                Ok(()) => {},
                Err(e) => {
                    proof {
                        assert(chunk_frames(cv, plan.channel_ids@, plan.kind, (j + 1) as nat)
                            == Err::<Seq<VideoFrameView>, S3ErrorView>(S3ErrorView::Cdr(e)));
                        lemma_chunk_frames_stop(cv, plan.channel_ids@, plan.kind, (j + 1) as nat, chunks.len() as nat);
                    }
                    return Err(S3Error::Cdr(e));
                },
            }
            j = j + 1;
        }
        proof {
            assert(frames_view(frames@).len() == frames@.len());
        }
        if frames.len() == 0 {
            return Err(S3Error::NoFrames { topic: topic.to_string() });
        }
        let ghost unsorted = frames@;
        sort_by_key(&mut frames);
        proof {
            lemma_to_multiset_map(frames@, unsorted, |f: VideoFrame| f@);
        }
        Ok(frames)
    }
}

/// Whether every chunk holding a message of `topic` has a byte range
/// (see `plan_fits`).
pub fn chunk_ranges_fit(summary: &McapSummary, topic: &str) -> (r: bool)
    ensures
        r == plan_fits(summary@, topic@),
{
    let (ids, _) = topic_channels(summary, topic);
    let mut j: usize = 0;
    while j < summary.chunk_indexes.len()
        invariant
            j <= summary.chunk_indexes.len(),
            ids@ == topic_channel_ids(summary@.channels, topic@, summary@.channels.len()),
            forall|i: int|
                0 <= i < j && chunk_relevant(summary@.chunk_indexes[i], ids@) ==> range_fits(
                    #[trigger] summary@.chunk_indexes[i],
                ),
        decreases summary.chunk_indexes.len() - j,
    {
        let ci = &summary.chunk_indexes[j];
        proof {
            assert(summary@.chunk_indexes[j as int] == ci@);
        }
        if chunk_has_channel(&ci.channel_ids, &ids) {
            proof {
                let k = choose|k: int| 0 <= k < ci.channel_ids.len() && ids@.contains(#[trigger] ci.channel_ids@[k]);
                assert(ci@.channel_ids[k] == ci.channel_ids@[k]);
                assert(chunk_relevant(summary@.chunk_indexes[j as int], ids@));
            }
            if ci.chunk_start_offset > u64::MAX - ci.chunk_length || ci.chunk_start_offset
                + ci.chunk_length < 1 {
                assert(!range_fits(summary@.chunk_indexes[j as int]));
                return false;
            }
        }
        j = j + 1;
    }
    true
}

} // verus!
