//! Segment entries and their one-line text codec.
//!
//! An entry describes one stored media chunk (or the initialization-header
//! chunk). It is persisted as a single delimited text line:
//! `url|sequence|duration|size|timestamp_ms|is_header\n`. The duration is
//! seconds held as an integral count of centiseconds: encoding always writes
//! two decimal places, decoding accepts zero, one or two.

use vstd::prelude::*;
use vstd::string::*;
use crate::time::{rfc3339_representable, rfc3339_utc, utc_seconds_rfc3339};
use crate::digits::{
    dec_rep, i64_dec_val, i64_to_dec, int_rep, lemma_int_rep, lemma_len_rep, lemma_u64_rep,
    len_dec_val, len_rep, len_to_dec, no_char, offset_seconds, parse_i64, parse_len,
    parse_u64_field, str_eq, u64_field_val, u64_to_dec, valid_i64_dec, valid_len_dec,
    valid_u64_field,
};

verus! {

/// The mathematical value of one segment entry.
pub ghost struct EntryModel {
    pub url: Seq<char>,
    pub sequence: u64,
    pub length: u64,
    pub size: u64,
    pub ts: i64,
    pub is_header: bool,
}

/// One stored chunk of a recording: an opaque content reference, the
/// producer-assigned sequence number, the duration in centiseconds, the size
/// in bytes, the timestamp in milliseconds since the epoch, and whether this
/// is the initialization-header chunk.
#[derive(Debug)]
pub struct TsEntry {
    pub url: String,
    pub sequence: u64,
    /// Duration in centiseconds (hundredths of a second).
    pub length: u64,
    pub size: u64,
    /// Milliseconds since the Unix epoch.
    pub ts: i64,
    pub is_header: bool,
}

impl View for TsEntry {
    type V = EntryModel;

    open spec fn view(&self) -> EntryModel {
        EntryModel {
            url: self.url@,
            sequence: self.sequence,
            length: self.length,
            size: self.size,
            ts: self.ts,
            is_header: self.is_header,
        }
    }
}

impl Clone for TsEntry {
    fn clone(&self) -> (r: Self)
        ensures
            r@ == self@,
    {
        TsEntry {
            url: self.url.clone(),
            sequence: self.sequence,
            length: self.length,
            size: self.size,
            ts: self.ts,
            is_header: self.is_header,
        }
    }
}

/// A line that does not decode into exactly six well-typed fields is invalid.
#[derive(Debug, Clone, Copy, PartialEq, Eq, Structural)]
pub enum EntryError {
    InvalidFormat,
}

/// Splits a character sequence at every occurrence of `sep`.
pub open spec fn split_on(s: Seq<char>, sep: char) -> Seq<Seq<char>>
    decreases s.len(),
{
    if s.len() == 0 {
        seq![s]
    } else if s[0] == sep {
        seq![Seq::<char>::empty()] + split_on(s.drop_first(), sep)
    } else {
        let rest = split_on(s.drop_first(), sep);
        seq![seq![s[0]] + rest[0]] + rest.skip(1)
    }
}

/// The number of occurrences of `c` in `s`.
pub open spec fn count_char(s: Seq<char>, c: char) -> nat
    decreases s.len(),
{
    if s.len() == 0 {
        0
    } else {
        (if s[0] == c {
            1nat
        } else {
            0nat
        }) + count_char(s.drop_first(), c)
    }
}

pub proof fn lemma_split_on_nonempty(s: Seq<char>, sep: char)
    ensures
        split_on(s, sep).len() >= 1,
    decreases s.len(),
{
    if s.len() > 0 {
        lemma_split_on_nonempty(s.drop_first(), sep);
    }
}

/// Splitting yields one more part than there are separators.
pub proof fn lemma_split_on_count(s: Seq<char>, sep: char)
    ensures
        split_on(s, sep).len() == count_char(s, sep) + 1,
    decreases s.len(),
{
    if s.len() > 0 {
        lemma_split_on_count(s.drop_first(), sep);
        lemma_split_on_nonempty(s.drop_first(), sep);
    }
}

/// A sequence without the separator splits into itself alone.
pub proof fn lemma_split_whole(s: Seq<char>, sep: char)
    requires
        no_char(s, sep),
    ensures
        split_on(s, sep) == seq![s],
    decreases s.len(),
{
    if s.len() > 0 {
        assert(no_char(s.drop_first(), sep));
        lemma_split_whole(s.drop_first(), sep);
        assert(seq![s[0]] + s.drop_first() =~= s);
        assert(split_on(s, sep) =~~= seq![s]);
    }
}

/// Splitting around one separator: a separator-free prefix becomes the first
/// part and the rest splits independently.
pub proof fn lemma_split_at_sep(a: Seq<char>, b: Seq<char>, sep: char)
    requires
        no_char(a, sep),
    ensures
        split_on(a + seq![sep] + b, sep) == seq![a] + split_on(b, sep),
    decreases a.len(),
{
    let s = a + seq![sep] + b;
    if a.len() == 0 {
        assert(s.drop_first() =~= b);
        assert(s[0] == sep);
        assert(split_on(s, sep) =~~= seq![a] + split_on(b, sep));
    } else {
        assert(s[0] == a[0]);
        assert(a[0] != sep);
        assert(s.drop_first() =~= a.drop_first() + seq![sep] + b);
        assert(no_char(a.drop_first(), sep));
        lemma_split_at_sep(a.drop_first(), b, sep);
        lemma_split_on_nonempty(b, sep);
        let rest = split_on(s.drop_first(), sep);
        assert(rest == seq![a.drop_first()] + split_on(b, sep));
        assert(rest[0] == a.drop_first());
        assert(rest.skip(1) =~= split_on(b, sep));
        assert(seq![s[0]] + rest[0] =~= a);
        assert(split_on(s, sep) =~~= seq![a] + split_on(b, sep));
    }
}

/// The line body: the line with one trailing newline removed, if present.
pub open spec fn strip_newline(s: Seq<char>) -> Seq<char> {
    if s.len() > 0 && s.last() == '\n' {
        s.drop_last()
    } else {
        s
    }
}

pub open spec fn bool_rep(b: bool) -> Seq<char> {
    if b {
        "true"@
    } else {
        "false"@
    }
}

/// The unique text encoding of an entry: six delimited fields, newline
/// terminated.
pub open spec fn encode_model(e: EntryModel) -> Seq<char> {
    e.url + seq!['|'] + dec_rep(e.sequence as nat) + seq!['|'] + len_rep(e.length as nat)
        + seq!['|'] + dec_rep(e.size as nat) + seq!['|'] + int_rep(e.ts as int) + seq!['|']
        + bool_rep(e.is_header) + seq!['\n']
}

/// The entry denoted by a log line, or `None` when the line does not consist
/// of exactly six well-typed delimited fields.
pub open spec fn decode_model(line: Seq<char>) -> Option<EntryModel> {
    let body = strip_newline(line);
    let parts = split_on(body, '|');
    if parts.len() == 6 && valid_u64_field(parts[1]) && valid_len_dec(parts[2]) && valid_u64_field(
        parts[3],
    ) && valid_i64_dec(parts[4]) && (parts[5] == "true"@ || parts[5] == "false"@) {
        Some(
            EntryModel {
                url: parts[0],
                sequence: u64_field_val(parts[1]) as u64,
                length: len_dec_val(parts[2]) as u64,
                size: u64_field_val(parts[3]) as u64,
                ts: i64_dec_val(parts[4]) as i64,
                is_header: parts[5] == "true"@,
            },
        )
    } else {
        None
    }
}

/// Start of part `k` among the parts delimited by the separator positions
/// `ps`.
pub open spec fn part_lo(ps: Seq<int>, k: int) -> int {
    if k == 0 {
        0
    } else {
        ps[k - 1] + 1
    }
}

/// End (exclusive) of part `k`.
pub open spec fn part_hi(ps: Seq<int>, k: int, len: int) -> int {
    if k == ps.len() {
        len
    } else {
        ps[k]
    }
}

/// If `ps` lists, in increasing order, exactly the positions of the
/// separator in `s`, then splitting yields the subranges between them.
pub proof fn lemma_split_by_positions(s: Seq<char>, ps: Seq<int>, sep: char)
    requires
        forall|k: int| 0 <= k < ps.len() ==> 0 <= #[trigger] ps[k] < s.len() && s[ps[k]] == sep,
        forall|k1: int, k2: int| 0 <= k1 < k2 < ps.len() ==> ps[k1] < ps[k2],
        forall|j: int| 0 <= j < s.len() && s[j] == sep ==> ps.contains(j),
    ensures
        split_on(s, sep).len() == ps.len() + 1,
        forall|k: int|
            0 <= k <= ps.len() ==> #[trigger] split_on(s, sep)[k] == s.subrange(
                part_lo(ps, k),
                part_hi(ps, k, s.len() as int),
            ),
    decreases ps.len(),
{
    if ps.len() == 0 {
        assert(no_char(s, sep));
        lemma_split_whole(s, sep);
        assert(s.subrange(0, s.len() as int) =~= s);
    } else {
        let p0 = ps[0];
        let a = s.subrange(0, p0);
        let b = s.skip(p0 + 1);
        assert(no_char(a, sep)) by {
            assert forall|i: int| 0 <= i < a.len() implies #[trigger] a[i] != sep by {
                if a[i] == sep {
                    assert(s[i] == sep);
                    assert(ps.contains(i));
                    let k = choose|k: int| 0 <= k < ps.len() && ps[k] == i;
                    if k > 0 {
                        assert(ps[0] < ps[k]);
                    }
                }
            }
        }
        assert(s =~= a + seq![sep] + b);
        lemma_split_at_sep(a, b, sep);
        let ps2 = ps.skip(1).map_values(|p: int| p - (p0 + 1));
        assert forall|k: int| 0 <= k < ps2.len() implies 0 <= #[trigger] ps2[k] < b.len()
            && b[ps2[k]] == sep by {
            assert(ps2[k] == ps[k + 1] - (p0 + 1));
            assert(ps[0] < ps[k + 1]);
        }
        assert forall|k1: int, k2: int| 0 <= k1 < k2 < ps2.len() implies ps2[k1] < ps2[k2] by {
            assert(ps[k1 + 1] < ps[k2 + 1]);
        }
        assert forall|j: int| 0 <= j < b.len() && b[j] == sep implies ps2.contains(j) by {
            assert(s[j + p0 + 1] == sep);
            assert(ps.contains(j + p0 + 1));
            let k = choose|k: int| 0 <= k < ps.len() && ps[k] == j + p0 + 1;
            assert(k > 0) by {
                if k == 0 {
                    assert(ps[0] == j + p0 + 1);
                }
            }
            assert(ps2[k - 1] == j);
        }
        lemma_split_by_positions(b, ps2, sep);
        assert(split_on(s, sep) == seq![a] + split_on(b, sep));
        assert(split_on(s, sep).len() == ps.len() + 1);
        assert forall|k: int| 0 <= k <= ps.len() implies #[trigger] split_on(s, sep)[k]
            == s.subrange(part_lo(ps, k), part_hi(ps, k, s.len() as int)) by {
            if k == 0 {
                assert(split_on(s, sep)[0] == a);
            } else {
                assert(split_on(s, sep)[k] == split_on(b, sep)[k - 1]);
                assert(split_on(b, sep)[k - 1] == b.subrange(
                    part_lo(ps2, k - 1),
                    part_hi(ps2, k - 1, b.len() as int),
                ));
                assert(b.subrange(part_lo(ps2, k - 1), part_hi(ps2, k - 1, b.len() as int)) =~= s.subrange(
                    part_lo(ps, k),
                    part_hi(ps, k, s.len() as int),
                ));
            }
        }
    }
}

impl TsEntry {
    /// Decodes one log line. Fails with `InvalidFormat` unless the line holds
    /// exactly six delimited fields, each of its declared type; no partial
    /// success.
    pub fn from(line: &str) -> (r: Result<TsEntry, EntryError>)
        ensures
            match r {
                Ok(e) => decode_model(line@) == Some(e@),
                Err(err) => decode_model(line@) is None && err == EntryError::InvalidFormat,
            },
    {
        let n = line.unicode_len();
        let body_end = if n > 0 && line.get_char(n - 1) == '\n' {
            n - 1
        } else {
            n
        };
        let body = line.substring_char(0, body_end);
        proof {
            assert(body@ =~= strip_newline(line@));
        }
        let m = body.unicode_len();
        let mut bars: Vec<usize> = Vec::new();
        let mut i: usize = 0;
        proof {
            assert(body@.skip(0) =~= body@);
        }
        while i < m
            invariant
                0 <= i <= m,
                m == body@.len(),
                forall|k: int|
                    0 <= k < bars@.len() ==> (#[trigger] bars@[k]) < i && body@[bars@[k] as int]
                        == '|',
                forall|k1: int, k2: int| 0 <= k1 < k2 < bars@.len() ==> bars@[k1] < bars@[k2],
                forall|j: int| 0 <= j < i && body@[j] == '|' ==> bars@.contains(j as usize),
                bars@.len() + count_char(body@.skip(i as int), '|') == count_char(body@, '|'),
            decreases m - i,
        {
            proof {
                assert(body@.skip(i as int).drop_first() =~= body@.skip(i as int + 1));
                assert(body@.skip(i as int)[0] == body@[i as int]);
            }
            let c = body.get_char(i);
            if c == '|' {
                let ghost old_bars = bars@;
                bars.push(i);
                proof {
                    assert(bars@ == old_bars.push(i));
                    assert forall|j: int|
                        0 <= j < i + 1 && body@[j] == '|' implies bars@.contains(j as usize) by {
                        if j < i {
                            let k = choose|k: int| 0 <= k < old_bars.len() && old_bars[k] == j;
                            assert(bars@[k] == j as usize);
                        } else {
                            assert(bars@[bars@.len() - 1] == i);
                        }
                    }
                }
            }
            i = i + 1;
        }
        proof {
            assert(body@.skip(m as int) =~= Seq::<char>::empty());
            lemma_split_on_count(body@, '|');
        }
        if bars.len() != 5 {
            return Err(EntryError::InvalidFormat);
        }
        let b0 = bars[0];
        let b1 = bars[1];
        let b2 = bars[2];
        let b3 = bars[3];
        let b4 = bars[4];
        let ghost ps = bars@.map_values(|u: usize| u as int);
        proof {
            assert forall|j: int| 0 <= j < body@.len() && body@[j] == '|' implies ps.contains(
                j,
            ) by {
                assert(bars@.contains(j as usize));
                let k = choose|k: int| 0 <= k < bars@.len() && bars@[k] == j as usize;
                assert(ps[k] == j);
            }
            lemma_split_by_positions(body@, ps, '|');
        }
        let p0 = body.substring_char(0, b0);
        let p1 = body.substring_char(b0 + 1, b1);
        let p2 = body.substring_char(b1 + 1, b2);
        let p3 = body.substring_char(b2 + 1, b3);
        let p4 = body.substring_char(b3 + 1, b4);
        let p5 = body.substring_char(b4 + 1, m);
        proof {
            let parts = split_on(body@, '|');
            assert(parts[0] == body@.subrange(part_lo(ps, 0), part_hi(ps, 0, m as int)));
            assert(p0@ == parts[0]);
            assert(p1@ == parts[1]);
            assert(p2@ == parts[2]);
            assert(p3@ == parts[3]);
            assert(p4@ == parts[4]);
            assert(p5@ == parts[5]);
        }
        let sequence = match parse_u64_field(p1) {
            Some(v) => v,
            None => {
                return Err(EntryError::InvalidFormat);
            },
        };
        let length = match parse_len(p2) {
            Some(v) => v,
            None => {
                return Err(EntryError::InvalidFormat);
            },
        };
        let size = match parse_u64_field(p3) {
            Some(v) => v,
            None => {
                return Err(EntryError::InvalidFormat);
            },
        };
        let ts = match parse_i64(p4) {
            Some(v) => v,
            None => {
                return Err(EntryError::InvalidFormat);
            },
        };
        let is_header = if str_eq(p5, "true") {
            true
        } else if str_eq(p5, "false") {
            false
        } else {
            return Err(EntryError::InvalidFormat);
        };
        let url = String::from_str(p0);
        Ok(TsEntry { url, sequence, length, size, ts, is_header })
    }

    /// Encodes the entry as its unique log line, newline terminated.
    pub fn encode(&self) -> (r: String)
        ensures
            r@ == encode_model(self@),
    {
        let mut s = String::from_str(self.url.as_str());
        s.append("|");
        s.append(u64_to_dec(self.sequence).as_str());
        s.append("|");
        s.append(len_to_dec(self.length).as_str());
        s.append("|");
        s.append(u64_to_dec(self.size).as_str());
        s.append("|");
        s.append(i64_to_dec(self.ts).as_str());
        s.append("|");
        if self.is_header {
            s.append("true");
        } else {
            s.append("false");
        }
        s.append("\n");
        proof {
            reveal_strlit("|");
            reveal_strlit("\n");
            assert(s@ =~= encode_model(self@));
        }
        s
    }
}

/// The wall-clock timestamp tag of an entry: the RFC 3339 rendering of its
/// millisecond timestamp, floored to whole seconds.
pub open spec fn date_time_model(ts: i64) -> Seq<char> {
    "#EXT-X-PROGRAM-DATE-TIME:"@ + rfc3339_utc(ts as int / 1000) + "\n"@
}

/// The manifest text contributed by one entry: nothing for a header entry;
/// otherwise an optional discontinuity marker, an optional wall-clock tag, a
/// duration tag and the content reference.
pub open spec fn segment_model(e: EntryModel, continuous: bool, force_time: bool) -> Seq<char> {
    if e.is_header {
        Seq::<char>::empty()
    } else {
        (if !continuous {
            "#EXT-X-DISCONTINUITY\n"@
        } else {
            Seq::<char>::empty()
        }) + (if !continuous || force_time {
            date_time_model(e.ts)
        } else {
            Seq::<char>::empty()
        }) + "#EXTINF:"@ + len_rep(e.length as nat) + ",\n"@ + e.url + "\n"@
    }
}

impl TsEntry {
    /// The wall-clock timestamp tag for this entry.
    pub fn date_time(&self) -> (r: String)
        requires
            rfc3339_representable(self@.ts as int / 1000),
        ensures
            r@ == date_time_model(self.ts),
    {
        let secs = offset_seconds(self.ts, 0);
        let rfc = utc_seconds_rfc3339(secs);
        let mut s = String::from_str("#EXT-X-PROGRAM-DATE-TIME:");
        s.append(rfc.as_str());
        s.append("\n");
        proof {
            assert(s@ =~= date_time_model(self.ts));
        }
        s
    }

    /// Renders this entry as one manifest segment. When `continuous` is
    /// false a discontinuity marker and a wall-clock tag are emitted; when
    /// `force_time` is true the wall-clock tag is emitted regardless.
    pub fn to_segment(&self, continuous: bool, force_time: bool) -> (r: String)
        requires
            !self@.is_header && (!continuous || force_time) ==> rfc3339_representable(
                self@.ts as int / 1000,
            ),
        ensures
            r@ == segment_model(self@, continuous, force_time),
    {
        if self.is_header {
            let r = String::new();
            proof {
                assert(r@ =~= segment_model(self@, continuous, force_time));
            }
            return r;
        }
        let mut content = if continuous {
            String::new()
        } else {
            String::from_str("#EXT-X-DISCONTINUITY\n")
        };
        if !continuous || force_time {
            let dt = self.date_time();
            content.append(dt.as_str());
        }
        content.append("#EXTINF:");
        content.append(len_to_dec(self.length).as_str());
        content.append(",\n");
        content.append(self.url.as_str());
        content.append("\n");
        proof {
            assert(content@ =~= segment_model(self@, continuous, force_time));
        }
        content
    }
}

/// Round trip: decoding an encoded entry restores the entry exactly, for
/// every entry whose `url` does not contain the field delimiter.
#[verifier::rlimit(100)]
pub proof fn lemma_encode_decode_round_trip(e: EntryModel)
    requires
        no_char(e.url, '|'),
    ensures
        decode_model(encode_model(e)) == Some(e),
{
    reveal_strlit("true");
    reveal_strlit("false");
    let f1 = dec_rep(e.sequence as nat);
    let f2 = len_rep(e.length as nat);
    let f3 = dec_rep(e.size as nat);
    let f4 = int_rep(e.ts as int);
    let f5 = bool_rep(e.is_header);
    lemma_u64_rep(e.sequence as nat);
    lemma_len_rep(e.length as nat);
    lemma_u64_rep(e.size as nat);
    lemma_int_rep(e.ts as int);
    assert(no_char(f5, '|'));
    let line = encode_model(e);
    let body = e.url + seq!['|'] + f1 + seq!['|'] + f2 + seq!['|'] + f3 + seq!['|'] + f4
        + seq!['|'] + f5;
    assert(line =~= body + seq!['\n']);
    assert(line.last() == '\n');
    assert(strip_newline(line) =~= body);
    let r4 = f5;
    let r3 = f4 + seq!['|'] + r4;
    let r2 = f3 + seq!['|'] + r3;
    let r1 = f2 + seq!['|'] + r2;
    let r0 = f1 + seq!['|'] + r1;
    assert(body =~= e.url + seq!['|'] + r0);
    lemma_split_at_sep(e.url, r0, '|');
    assert(r0 =~= f1 + seq!['|'] + r1);
    lemma_split_at_sep(f1, r1, '|');
    assert(r1 =~= f2 + seq!['|'] + r2);
    lemma_split_at_sep(f2, r2, '|');
    assert(r2 =~= f3 + seq!['|'] + r3);
    lemma_split_at_sep(f3, r3, '|');
    assert(r3 =~= f4 + seq!['|'] + r4);
    lemma_split_at_sep(f4, r4, '|');
    lemma_split_whole(f5, '|');
    let parts = split_on(body, '|');
    assert(parts =~~= seq![e.url, f1, f2, f3, f4, f5]);
    assert(f5 == "true"@ || f5 == "false"@);
    assert("true"@ != "false"@) by {
        assert("true"@.len() == 4);
        assert("false"@.len() == 5);
    }
    assert(parts[5] == "true"@ <==> e.is_header);
    assert(decode_model(line) == Some(e));
}

} // verus!
