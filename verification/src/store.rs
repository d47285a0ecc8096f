//! The in-memory segment index and manifest synthesis.
//!
//! An `EntryStore` is rebuilt from a full replay of a session's append-only
//! log and updated incrementally on each new append. Manifest generation is a
//! pure function of the index snapshot, the output-mode flags and an optional
//! time range.

use vstd::prelude::*;
use vstd::string::*;
use crate::Range;
use crate::digits::{dec_rep, offset_seconds, u64_to_dec};
use crate::entry::{decode_model, segment_model, EntryModel, TsEntry};
use crate::time::rfc3339_representable;

verus! {

/// The mathematical value of the index: the retained header, the ordered
/// non-header entries, the running aggregates over every observed append,
/// the maximum sequence seen, and the reserved continuation sequence.
pub ghost struct StoreModel {
    pub header: Option<EntryModel>,
    pub entries: Seq<EntryModel>,
    pub total_duration: int,
    pub total_size: int,
    pub last_sequence: u64,
    pub continue_sequence: u64,
}

/// Addition saturating at `u128::MAX`, used for the running aggregates.
pub open spec fn sat_add_u128(a: int, b: int) -> int {
    if a + b > u128::MAX {
        u128::MAX as int
    } else {
        a + b
    }
}

/// Addition saturating at `u64::MAX`.
pub open spec fn sat_add_u64(a: int, b: int) -> int {
    if a + b > u64::MAX {
        u64::MAX as int
    } else {
        a + b
    }
}

/// The value of a freshly created, empty index.
pub open spec fn init_model() -> StoreModel {
    StoreModel {
        header: None,
        entries: Seq::<EntryModel>::empty(),
        total_duration: 0,
        total_size: 0,
        last_sequence: 0,
        continue_sequence: 0,
    }
}

/// One observed append: a header entry overwrites the header slot, any other
/// entry extends the ordered sequence; aggregates and the running maximum
/// update unconditionally.
pub open spec fn apply_model(s: StoreModel, e: EntryModel) -> StoreModel {
    StoreModel {
        header: if e.is_header {
            Some(e)
        } else {
            s.header
        },
        entries: if e.is_header {
            s.entries
        } else {
            s.entries.push(e)
        },
        total_duration: sat_add_u128(s.total_duration, e.length as int),
        total_size: sat_add_u128(s.total_size, e.size as int),
        last_sequence: if e.sequence > s.last_sequence {
            e.sequence
        } else {
            s.last_sequence
        },
        continue_sequence: s.continue_sequence,
    }
}

/// Replay of log lines in file order: each line that decodes is applied,
/// each line that does not is skipped.
pub open spec fn replay_model(s: StoreModel, lines: Seq<Seq<char>>) -> StoreModel
    decreases lines.len(),
{
    if lines.len() == 0 {
        s
    } else {
        let s1 = match decode_model(lines[0]) {
            Some(e) => apply_model(s, e),
            None => s,
        };
        replay_model(s1, lines.skip(1))
    }
}

/// The number of lines a replay skips: those that fail to decode.
pub open spec fn skipped_count(lines: Seq<Seq<char>>) -> nat
    decreases lines.len(),
{
    if lines.len() == 0 {
        0
    } else {
        (if decode_model(lines[0]) is None {
            1nat
        } else {
            0nat
        }) + skipped_count(lines.skip(1))
    }
}

/// The index value after a full load: the replay of all lines, with the
/// continuation sequence reserved 100 past the maximum sequence seen.
pub open spec fn load_model(lines: Seq<Seq<char>>) -> StoreModel {
    let s = replay_model(init_model(), lines);
    StoreModel { continue_sequence: sat_add_u64(s.last_sequence as int, 100) as u64, ..s }
}

/// The in-memory segment index of one recording session.
pub struct EntryStore {
    header: Option<TsEntry>,
    entries: Vec<TsEntry>,
    total_duration: u128,
    total_size: u128,
    last_sequence: u64,
    /// The next sequence number safe to hand the producer after a restart,
    /// reserved with a gap of 100 so it cannot collide with any segment
    /// already accounted for.
    pub continue_sequence: u64,
}

pub open spec fn entries_view(v: Seq<TsEntry>) -> Seq<EntryModel> {
    v.map_values(|e: TsEntry| e@)
}

impl View for EntryStore {
    type V = StoreModel;

    closed spec fn view(&self) -> StoreModel {
        StoreModel {
            header: match self.header {
                Some(h) => Some(h@),
                None => None,
            },
            entries: entries_view(self.entries@),
            total_duration: self.total_duration as int,
            total_size: self.total_size as int,
            last_sequence: self.last_sequence,
            continue_sequence: self.continue_sequence,
        }
    }
}

impl EntryStore {
    /// An empty index, observing no appends yet.
    pub fn new() -> (r: Self)
        ensures
            r@ == init_model(),
    {
        let r = EntryStore {
            header: None,
            entries: Vec::new(),
            total_duration: 0,
            total_size: 0,
            last_sequence: 0,
            continue_sequence: 0,
        };
        proof {
            assert(entries_view(r.entries@) =~= Seq::<EntryModel>::empty());
        }
        r
    }

    /// Applies one appended entry to the index, keeping it consistent with
    /// the log without a full reload. The caller persists the encoded entry
    /// separately; this updates only the in-memory state.
    pub fn add_entry(&mut self, entry: TsEntry)
        ensures
            final(self)@ == apply_model(old(self)@, entry@),
    {
        let ghost em = entry@;
        let length = entry.length;
        let size = entry.size;
        let sequence = entry.sequence;
        let ghost old_entries = self.entries@;
        if entry.is_header {
            self.header = Some(entry);
        } else {
            self.entries.push(entry);
            proof {
                assert(entries_view(self.entries@) =~= entries_view(old_entries).push(em));
            }
        }
        if self.total_duration > u128::MAX - (length as u128) {
            self.total_duration = u128::MAX;
        } else {
            self.total_duration = self.total_duration + (length as u128);
        }
        if self.total_size > u128::MAX - (size as u128) {
            self.total_size = u128::MAX;
        } else {
            self.total_size = self.total_size + (size as u128);
        }
        if self.last_sequence < sequence {
            self.last_sequence = sequence;
        }
    }

    /// Rebuilds the index from the lines of a session log, in file order. A
    /// line that fails to decode is skipped and counted, never fatal; the
    /// returned count is the number of skipped lines. Afterwards the
    /// continuation sequence is reserved 100 past the maximum sequence seen.
    pub fn load(&mut self, lines: &Vec<String>) -> (skipped: usize)
        requires
            old(self)@ == init_model(),
        ensures
            final(self)@ == load_model(lines@.map_values(|l: String| l@)),
            skipped == skipped_count(lines@.map_values(|l: String| l@)),
    {
        let ghost ls = lines@.map_values(|l: String| l@);
        let mut skipped: usize = 0;
        let mut i: usize = 0;
        proof {
            assert(ls.take(0) =~= Seq::<Seq<char>>::empty());
        }
        while i < lines.len()
            invariant
                0 <= i <= lines.len(),
                ls == lines@.map_values(|l: String| l@),
                ls.len() == lines@.len(),
                self@ == replay_model(init_model(), ls.take(i as int)),
                skipped == skipped_count(ls.take(i as int)),
                skipped <= i,
            decreases lines.len() - i,
        {
            proof {
                assert(ls.take(i as int + 1) =~= ls.take(i as int).push(ls[i as int]));
                assert(ls[i as int] == lines@[i as int]@);
                lemma_replay_snoc(init_model(), ls.take(i as int), ls[i as int]);
                lemma_skipped_snoc(ls.take(i as int), ls[i as int]);
            }
            let line = &lines[i];
            match TsEntry::from(line.as_str()) {
                Ok(entry) => {
                    self.add_entry(entry);
                },
                Err(_) => {
                    skipped = skipped + 1;
                },
            }
            i = i + 1;
        }
        proof {
            assert(ls.take(lines@.len() as int) =~= ls);
        }
        if self.last_sequence > u64::MAX - 100 {
            self.continue_sequence = u64::MAX;
        } else {
            self.continue_sequence = self.last_sequence + 100;
        }
        skipped
    }

    /// The currently retained header entry, if any.
    pub fn get_header(&self) -> (r: Option<&TsEntry>)
        ensures
            match r {
                Some(h) => self@.header == Some(h@),
                None => self@.header is None,
            },
    {
        self.header.as_ref()
    }

    /// Total duration, in centiseconds, over every observed append (header
    /// entries included), saturating at `u128::MAX`.
    pub fn total_duration(&self) -> (r: u128)
        ensures
            r as int == self@.total_duration,
    {
        self.total_duration
    }

    /// Total size, in bytes, over every observed append (header entries
    /// included), saturating at `u128::MAX`.
    pub fn total_size(&self) -> (r: u128)
        ensures
            r as int == self@.total_size,
    {
        self.total_size
    }

    /// The maximum sequence number observed so far.
    pub fn last_sequence(&self) -> (r: u64)
        ensures
            r == self@.last_sequence,
    {
        self.last_sequence
    }

    /// The timestamp of the last stored non-header entry, if any.
    pub fn last_ts(&self) -> (r: Option<i64>)
        ensures
            match r {
                Some(t) => self@.entries.len() > 0 && t == self@.entries.last().ts,
                None => self@.entries.len() == 0,
            },
    {
        if self.entries.len() == 0 {
            None
        } else {
            Some(self.entries[self.entries.len() - 1].ts)
        }
    }

    /// The timestamp of the first stored non-header entry, if any.
    pub fn first_ts(&self) -> (r: Option<i64>)
        ensures
            match r {
                Some(t) => self@.entries.len() > 0 && t == self@.entries[0].ts,
                None => self@.entries.len() == 0,
            },
    {
        if self.entries.len() == 0 {
            None
        } else {
            Some(self.entries[0].ts)
        }
    }

    /// Whether every stored entry's timestamp can be rendered as wall-clock
    /// text: the condition manifest generation relies on. The capture
    /// pipeline's clock always satisfies it; callers that replay foreign
    /// logs test it before asking for a manifest.
    pub fn timestamps_representable(&self) -> (r: bool)
        ensures
            r == (forall|i: int|
                0 <= i < self@.entries.len() ==> rfc3339_representable(
                    (#[trigger] self@.entries[i]).ts as int / 1000,
                )),
    {
        let mut i: usize = 0;
        while i < self.entries.len()
            invariant
                0 <= i <= self.entries.len(),
                self@.entries.len() == self.entries.len(),
                forall|k: int|
                    0 <= k < i ==> rfc3339_representable(
                        (#[trigger] self@.entries[k]).ts as int / 1000,
                    ),
            decreases self.entries.len() - i,
        {
            proof {
                assert(self@.entries[i as int] == self.entries@[i as int]@);
            }
            let secs = offset_seconds(self.entries[i].ts, 0);
            if secs < -8_000_000_000_000i64 || secs > 8_000_000_000_000i64 {
                proof {
                    assert(!rfc3339_representable(self@.entries[i as int].ts as int / 1000));
                }
                return false;
            }
            i = i + 1;
        }
        true
    }

    /// Synthesizes the playlist for this index snapshot. `vod` selects a
    /// finalized playlist (with end-of-list tag) over a live one;
    /// `force_time` stamps every included segment with wall-clock time;
    /// `range` restricts inclusion to entries whose whole-second offset from
    /// the first entry lies inside it.
    pub fn manifest(&self, vod: bool, force_time: bool, range: Option<Range>) -> (r: String)
        requires
            forall|i: int|
                0 <= i < self@.entries.len() ==> rfc3339_representable(
                    (#[trigger] self@.entries[i]).ts as int / 1000,
                ),
        ensures
            r@ == manifest_model(self@, vod, force_time, range),
    {
        let mut m = String::from_str("#EXTM3U\n");
        m.append("#EXT-X-VERSION:6\n");
        if vod {
            m.append("#EXT-X-PLAYLIST-TYPE:VOD\n");
        } else {
            m.append("#EXT-X-PLAYLIST-TYPE:EVENT\n");
        }
        proof {
            assert(m@ =~= playlist_head(vod));
        }
        if self.entries.len() == 0 {
            if vod {
                m.append("#EXT-X-ENDLIST");
            }
            proof {
                assert(m@ =~= manifest_model(self@, vod, force_time, range));
            }
            return m;
        }
        let first_length = self.entries[0].length;
        let td: u64 = (((first_length as u128) + 50) / 100) as u64;
        m.append("#EXT-X-TARGETDURATION:");
        m.append(u64_to_dec(td).as_str());
        m.append("\n");
        match &self.header {
            Some(h) => {
                m.append("#EXT-X-MAP:URI=\"");
                m.append(h.url.as_str());
                m.append("\"\n");
            },
            None => {},
        }
        let first_ts = self.entries[0].ts;
        let mut previous_seq = self.entries[0].sequence;
        let ghost pre = m@;
        proof {
            assert(pre =~= playlist_head(vod) + target_duration_tag(self@.entries[0])
                + map_tag(self@.header));
            assert(self@.entries.skip(0) =~= self@.entries);
        }
        let mut i: usize = 0;
        while i < self.entries.len()
            invariant
                0 <= i <= self.entries.len(),
                self@.entries.len() == self.entries.len(),
                first_ts == self@.entries[0].ts,
                forall|k: int|
                    0 <= k < self@.entries.len() ==> rfc3339_representable(
                        (#[trigger] self@.entries[k]).ts as int / 1000,
                    ),
                pre + segments_model(
                    self@.entries,
                    self@.entries[0].sequence,
                    first_ts as int,
                    force_time,
                    range,
                ) == m@ + segments_model(
                    self@.entries.skip(i as int),
                    previous_seq,
                    first_ts as int,
                    force_time,
                    range,
                ),
            decreases self.entries.len() - i,
        {
            proof {
                assert(self@.entries.skip(i as int)[0] == self@.entries[i as int]);
                assert(self@.entries.skip(i as int).skip(1) =~= self@.entries.skip(i as int + 1));
                assert(self@.entries[i as int] == self.entries@[i as int]@);
            }
            let e = &self.entries[i];
            let disc = e.sequence < previous_seq || e.sequence - previous_seq > 1;
            previous_seq = e.sequence;
            let off = offset_seconds(e.ts, first_ts);
            let selected = match range {
                Some(r) => r.is_in(off),
                None => true,
            };
            if selected {
                let seg = e.to_segment(!disc, force_time);
                m.append(seg.as_str());
            }
            i = i + 1;
        }
        proof {
            assert(self@.entries.skip(self.entries@.len() as int) =~= Seq::<EntryModel>::empty());
        }
        if vod {
            m.append("#EXT-X-ENDLIST");
        }
        proof {
            assert(m@ =~= manifest_model(self@, vod, force_time, range));
        }
        m
    }
}

/// The fixed manifest header: playlist marker, version, playlist type.
pub open spec fn playlist_head(vod: bool) -> Seq<char> {
    "#EXTM3U\n"@ + "#EXT-X-VERSION:6\n"@ + if vod {
        "#EXT-X-PLAYLIST-TYPE:VOD\n"@
    } else {
        "#EXT-X-PLAYLIST-TYPE:EVENT\n"@
    }
}

/// The end-of-list tag, present exactly for VOD manifests.
pub open spec fn end_tag(vod: bool) -> Seq<char> {
    if vod {
        "#EXT-X-ENDLIST"@
    } else {
        Seq::<char>::empty()
    }
}

/// The target duration: the first entry's duration rounded to the nearest
/// whole second.
pub open spec fn target_duration_tag(first: EntryModel) -> Seq<char> {
    "#EXT-X-TARGETDURATION:"@ + dec_rep(((first.length + 50) / 100) as nat) + "\n"@
}

/// The initialization-segment reference, pointing at the retained header's
/// content, when a header is present.
pub open spec fn map_tag(header: Option<EntryModel>) -> Seq<char> {
    match header {
        Some(h) => "#EXT-X-MAP:URI=\""@ + h.url + "\"\n"@,
        None => Seq::<char>::empty(),
    }
}

/// Whether a segment follows a break in the sequence stream: its sequence
/// decreases or jumps by more than one.
pub open spec fn discontinuous(prev: u64, cur: u64) -> bool {
    cur < prev || cur - prev > 1
}

/// Whether an offset lies in the (inclusive) selection window.
pub open spec fn in_range(range: Option<Range>, off: int) -> bool {
    match range {
        Some(r) => r.x <= off <= r.y,
        None => true,
    }
}

/// The manifest text of the stored entries: discontinuity is tracked across
/// the full ordered sequence, while the range decides only inclusion.
pub open spec fn segments_model(
    entries: Seq<EntryModel>,
    prev: u64,
    first_ts: int,
    force_time: bool,
    range: Option<Range>,
) -> Seq<char>
    decreases entries.len(),
{
    if entries.len() == 0 {
        Seq::<char>::empty()
    } else {
        let e = entries[0];
        let disc = discontinuous(prev, e.sequence);
        let tail = segments_model(entries.skip(1), e.sequence, first_ts, force_time, range);
        let off = (e.ts - first_ts) / 1000;
        if in_range(range, off) {
            segment_model(e, !disc, force_time) + tail
        } else {
            tail
        }
    }
}

/// The full manifest of an index snapshot.
pub open spec fn manifest_model(
    s: StoreModel,
    vod: bool,
    force_time: bool,
    range: Option<Range>,
) -> Seq<char> {
    if s.entries.len() == 0 {
        playlist_head(vod) + end_tag(vod)
    } else {
        let first = s.entries[0];
        playlist_head(vod) + target_duration_tag(first) + map_tag(s.header) + segments_model(
            s.entries,
            first.sequence,
            first.ts as int,
            force_time,
            range,
        ) + end_tag(vod)
    }
}

/// The entries denoted by the lines that decode, in file order.
pub open spec fn decoded_entries(lines: Seq<Seq<char>>) -> Seq<EntryModel>
    decreases lines.len(),
{
    if lines.len() == 0 {
        Seq::<EntryModel>::empty()
    } else {
        (match decode_model(lines[0]) {
            Some(e) => seq![e],
            None => Seq::<EntryModel>::empty(),
        }) + decoded_entries(lines.skip(1))
    }
}

/// The maximum sequence number over a sequence of entries; 0 when empty.
pub open spec fn max_seq_of(es: Seq<EntryModel>) -> u64
    decreases es.len(),
{
    if es.len() == 0 {
        0u64
    } else {
        let rest = max_seq_of(es.skip(1));
        if es[0].sequence > rest {
            es[0].sequence
        } else {
            rest
        }
    }
}

/// How many lines decode to a non-header entry.
pub open spec fn count_valid_nonheader(lines: Seq<Seq<char>>) -> nat
    decreases lines.len(),
{
    if lines.len() == 0 {
        0
    } else {
        (match decode_model(lines[0]) {
            Some(e) => if !e.is_header {
                1nat
            } else {
                0nat
            },
            None => 0nat,
        }) + count_valid_nonheader(lines.skip(1))
    }
}

/// How many lines decode at all.
pub open spec fn count_decodable(lines: Seq<Seq<char>>) -> nat
    decreases lines.len(),
{
    if lines.len() == 0 {
        0
    } else {
        (if decode_model(lines[0]) is Some {
            1nat
        } else {
            0nat
        }) + count_decodable(lines.skip(1))
    }
}

pub open spec fn seq_ends_with(s: Seq<char>, suffix: Seq<char>) -> bool {
    suffix.len() <= s.len() && s.skip(s.len() - suffix.len()) == suffix
}

/// A replay raises the running maximum to the maximum sequence among the
/// decoded entries.
proof fn lemma_replay_last_sequence(s: StoreModel, lines: Seq<Seq<char>>)
    ensures
        replay_model(s, lines).last_sequence == (if max_seq_of(decoded_entries(lines))
            > s.last_sequence {
            max_seq_of(decoded_entries(lines))
        } else {
            s.last_sequence
        }),
    decreases lines.len(),
{
    if lines.len() > 0 {
        let s1 = match decode_model(lines[0]) {
            Some(e) => apply_model(s, e),
            None => s,
        };
        lemma_replay_last_sequence(s1, lines.skip(1));
        match decode_model(lines[0]) {
            Some(e) => {
                assert(decoded_entries(lines) == seq![e] + decoded_entries(lines.skip(1)));
                assert((seq![e] + decoded_entries(lines.skip(1)))[0] == e);
                assert((seq![e] + decoded_entries(lines.skip(1))).skip(1) =~= decoded_entries(
                    lines.skip(1),
                ));
            },
            None => {
                assert(decoded_entries(lines) =~= decoded_entries(lines.skip(1)));
            },
        }
    }
}

/// A replay adds exactly the decoded non-header lines to the entry sequence.
proof fn lemma_replay_entries_len(s: StoreModel, lines: Seq<Seq<char>>)
    ensures
        replay_model(s, lines).entries.len() == s.entries.len() + count_valid_nonheader(lines),
    decreases lines.len(),
{
    if lines.len() > 0 {
        let s1 = match decode_model(lines[0]) {
            Some(e) => apply_model(s, e),
            None => s,
        };
        lemma_replay_entries_len(s1, lines.skip(1));
    }
}

proof fn lemma_skipped_decodable(lines: Seq<Seq<char>>)
    ensures
        skipped_count(lines) + count_decodable(lines) == lines.len(),
    decreases lines.len(),
{
    if lines.len() > 0 {
        lemma_skipped_decodable(lines.skip(1));
    }
}

/// Replay idempotence: a load is a function of the log lines alone, so
/// replaying one unchanged log twice yields identical ordered entries and
/// aggregates.
pub proof fn lemma_replay_idempotent(lines1: Seq<Seq<char>>, lines2: Seq<Seq<char>>)
    requires
        lines1 == lines2,
    ensures
        load_model(lines1) == load_model(lines2),
{
}

/// After a load, the continuation sequence is exactly 100 past the maximum
/// sequence number over all decoded entries (for maxima within reach of the
/// reservation gap).
pub proof fn lemma_continue_sequence(lines: Seq<Seq<char>>)
    requires
        max_seq_of(decoded_entries(lines)) <= u64::MAX - 100,
    ensures
        load_model(lines).last_sequence == max_seq_of(decoded_entries(lines)),
        load_model(lines).continue_sequence == max_seq_of(decoded_entries(lines)) + 100,
{
    lemma_replay_last_sequence(init_model(), lines);
}

/// Every entry's sequence is bounded by the maximum, and a nonzero maximum
/// is attained by some entry.
proof fn lemma_max_seq_bounds(es: Seq<EntryModel>)
    ensures
        forall|i: int| 0 <= i < es.len() ==> (#[trigger] es[i]).sequence <= max_seq_of(es),
        max_seq_of(es) == 0 || exists|i: int|
            0 <= i < es.len() && (#[trigger] es[i]).sequence == max_seq_of(es),
    decreases es.len(),
{
    if es.len() > 0 {
        lemma_max_seq_bounds(es.skip(1));
        assert forall|i: int| 0 <= i < es.len() implies (#[trigger] es[i]).sequence <= max_seq_of(
            es,
        ) by {
            if i > 0 {
                assert(es.skip(1)[i - 1] == es[i]);
                assert(es.skip(1)[i - 1].sequence <= max_seq_of(es.skip(1)));
            }
        }
        if max_seq_of(es) != 0 {
            if es[0].sequence == max_seq_of(es) {
                assert(es[0].sequence == max_seq_of(es));
            } else {
                let j = choose|j: int|
                    0 <= j < es.skip(1).len() && (#[trigger] es.skip(1)[j]).sequence == max_seq_of(
                        es.skip(1),
                    );
                assert(es[j + 1].sequence == max_seq_of(es));
            }
        }
    }
}

/// The maximum sequence is independent of the order of the entries: two
/// loads over the same multiset of decoded entries reserve the same
/// continuation sequence.
pub proof fn lemma_max_seq_order_independent(e1: Seq<EntryModel>, e2: Seq<EntryModel>)
    requires
        e1.to_multiset() == e2.to_multiset(),
    ensures
        max_seq_of(e1) == max_seq_of(e2),
{
    broadcast use vstd::seq_lib::group_to_multiset_ensures;

    lemma_max_seq_bounds(e1);
    lemma_max_seq_bounds(e2);
    let m1 = max_seq_of(e1);
    let m2 = max_seq_of(e2);
    if m1 != 0 {
        let i = choose|i: int| 0 <= i < e1.len() && (#[trigger] e1[i]).sequence == m1;
        assert(e1.contains(e1[i]));
        assert(e1.to_multiset().count(e1[i]) > 0);
        assert(e2.to_multiset().count(e1[i]) > 0);
        assert(e2.contains(e1[i]));
        let j = choose|j: int| 0 <= j < e2.len() && e2[j] == e1[i];
        assert(e2[j].sequence <= m2);
    }
    if m2 != 0 {
        let i = choose|i: int| 0 <= i < e2.len() && (#[trigger] e2[i]).sequence == m2;
        assert(e2.contains(e2[i]));
        assert(e2.to_multiset().count(e2[i]) > 0);
        assert(e1.to_multiset().count(e2[i]) > 0);
        assert(e1.contains(e2[i]));
        let j = choose|j: int| 0 <= j < e1.len() && e1[j] == e2[i];
        assert(e1[j].sequence <= m1);
    }
}

/// Header precedence: after two header appends, only the later header is
/// retained, and the ordered entries are untouched.
pub proof fn lemma_header_precedence(s: StoreModel, h1: EntryModel, h2: EntryModel)
    requires
        h1.is_header,
        h2.is_header,
    ensures
        apply_model(apply_model(s, h1), h2).header == Some(h2),
        apply_model(apply_model(s, h1), h2).entries == s.entries,
{
}

/// Corrupt-line tolerance: a load stores exactly one entry per line that
/// decodes to a non-header entry and reports exactly one diagnostic per line
/// that fails to decode; a malformed line never aborts the replay.
pub proof fn lemma_corrupt_tolerance(lines: Seq<Seq<char>>)
    ensures
        load_model(lines).entries.len() == count_valid_nonheader(lines),
        skipped_count(lines) + count_decodable(lines) == lines.len(),
{
    lemma_replay_entries_len(init_model(), lines);
    lemma_skipped_decodable(lines);
}

/// Empty store: with no stored segments the manifest is exactly the fixed
/// header tags, plus the end-of-list tag when VOD; no segment lines.
pub proof fn lemma_empty_manifest(s: StoreModel, vod: bool, force_time: bool, range: Option<Range>)
    requires
        s.entries.len() == 0,
    ensures
        manifest_model(s, vod, force_time, range) == playlist_head(vod) + end_tag(vod),
{
}

/// Every rendered segment either contributes nothing or ends with a newline.
proof fn lemma_segments_end_newline(
    entries: Seq<EntryModel>,
    prev: u64,
    first_ts: int,
    force_time: bool,
    range: Option<Range>,
)
    ensures
        segments_model(entries, prev, first_ts, force_time, range).len() == 0 || segments_model(
            entries,
            prev,
            first_ts,
            force_time,
            range,
        ).last() == '\n',
    decreases entries.len(),
{
    reveal_strlit("\n");
    if entries.len() > 0 {
        let e = entries[0];
        let disc = discontinuous(prev, e.sequence);
        lemma_segments_end_newline(entries.skip(1), e.sequence, first_ts, force_time, range);
        if !e.is_header {
            assert(segment_model(e, !disc, force_time).last() == '\n');
        }
    }
}

/// The end-of-list tag closes the manifest if and only if the manifest is a
/// VOD one, independent of entry count and selection range.
pub proof fn lemma_vod_endlist(s: StoreModel, vod: bool, force_time: bool, range: Option<Range>)
    ensures
        vod <==> seq_ends_with(manifest_model(s, vod, force_time, range), "#EXT-X-ENDLIST"@),
{
    let m = manifest_model(s, vod, force_time, range);
    let tag = "#EXT-X-ENDLIST"@;
    reveal_strlit("#EXT-X-ENDLIST");
    if vod {
        assert(m.skip(m.len() - tag.len()) =~= tag);
    } else {
        reveal_strlit("#EXTM3U\n");
        reveal_strlit("#EXT-X-VERSION:6\n");
        reveal_strlit("#EXT-X-PLAYLIST-TYPE:EVENT\n");
        reveal_strlit("\n");
        reveal_strlit("\"\n");
        assert(m.len() > 0 && m.last() == '\n') by {
            if s.entries.len() == 0 {
                assert(m =~= playlist_head(vod));
            } else {
                let first = s.entries[0];
                let segs = segments_model(
                    s.entries,
                    first.sequence,
                    first.ts as int,
                    force_time,
                    range,
                );
                lemma_segments_end_newline(
                    s.entries,
                    first.sequence,
                    first.ts as int,
                    force_time,
                    range,
                );
                assert(m =~= playlist_head(vod) + target_duration_tag(first) + map_tag(s.header)
                    + segs);
                if segs.len() == 0 {
                    match s.header {
                        Some(h) => {
                            assert(map_tag(s.header).last() == '\n');
                        },
                        None => {
                            assert(target_duration_tag(first).last() == '\n');
                        },
                    }
                }
            }
        }
        if seq_ends_with(m, tag) {
            assert(m.skip(m.len() - tag.len()) == tag);
            assert(m.last() == tag[tag.len() - 1]);
        }
    }
}

/// Replaying one more line applies it to the replay of the lines before it.
proof fn lemma_replay_snoc(s: StoreModel, lines: Seq<Seq<char>>, x: Seq<char>)
    ensures
        replay_model(s, lines.push(x)) == (match decode_model(x) {
            Some(e) => apply_model(replay_model(s, lines), e),
            None => replay_model(s, lines),
        }),
    decreases lines.len(),
{
    let p = lines.push(x);
    if lines.len() == 0 {
        assert(p[0] == x);
        assert(p.skip(1) =~= Seq::<Seq<char>>::empty());
        let s1 = match decode_model(x) {
            Some(e) => apply_model(s, e),
            None => s,
        };
        assert(replay_model(s, p) == replay_model(s1, p.skip(1)));
        assert(replay_model(s1, Seq::<Seq<char>>::empty()) == s1);
        assert(replay_model(s, lines) == s);
    } else {
        assert(p[0] == lines[0]);
        assert(p.skip(1) =~= lines.skip(1).push(x));
        let s1 = match decode_model(lines[0]) {
            Some(e) => apply_model(s, e),
            None => s,
        };
        assert(replay_model(s, p) == replay_model(s1, p.skip(1)));
        assert(replay_model(s, lines) == replay_model(s1, lines.skip(1)));
        lemma_replay_snoc(s1, lines.skip(1), x);
    }
}

/// Skipping one more line counts it exactly when it fails to decode.
proof fn lemma_skipped_snoc(lines: Seq<Seq<char>>, x: Seq<char>)
    ensures
        skipped_count(lines.push(x)) == skipped_count(lines) + (if decode_model(x) is None {
            1nat
        } else {
            0nat
        }),
    decreases lines.len(),
{
    let p = lines.push(x);
    if lines.len() == 0 {
        assert(p[0] == x);
        assert(p.skip(1) =~= Seq::<Seq<char>>::empty());
        assert(skipped_count(p) == (if decode_model(x) is None {
            1nat
        } else {
            0nat
        }) + skipped_count(p.skip(1)));
        assert(skipped_count(Seq::<Seq<char>>::empty()) == 0);
        assert(skipped_count(lines) == 0);
    } else {
        assert(p[0] == lines[0]);
        assert(p.skip(1) =~= lines.skip(1).push(x));
        assert(skipped_count(p) == (if decode_model(lines[0]) is None {
            1nat
        } else {
            0nat
        }) + skipped_count(p.skip(1)));
        assert(skipped_count(lines) == (if decode_model(lines[0]) is None {
            1nat
        } else {
            0nat
        }) + skipped_count(lines.skip(1)));
        lemma_skipped_snoc(lines.skip(1), x);
    }
}

} // verus!
