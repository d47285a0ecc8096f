//! Subtitle assembly: SRT rendering of transcribed audio segments.
//!
//! The speech-to-text engine itself is an external collaborator; this module
//! owns the deterministic text it is turned into: numbered blocks with
//! `HH:MM:SS,mmm` time ranges.

use vstd::prelude::*;
use vstd::string::*;
use crate::digits::{dec_rep, digit_char, digit_str, u64_to_dec};

verus! {

/// The mathematical value of one transcribed segment.
pub ghost struct SubtitleSegmentModel {
    pub text: Seq<char>,
    pub start_cs: i64,
    pub end_cs: i64,
}

/// One transcribed segment: its text and its start and end offsets into the
/// audio, in centiseconds.
#[derive(Debug)]
pub struct SubtitleSegment {
    pub text: String,
    pub start_cs: i64,
    pub end_cs: i64,
}

impl View for SubtitleSegment {
    type V = SubtitleSegmentModel;

    open spec fn view(&self) -> SubtitleSegmentModel {
        SubtitleSegmentModel { text: self.text@, start_cs: self.start_cs, end_cs: self.end_cs }
    }
}

/// A number padded with `0` to at least two digits.
pub open spec fn pad2_rep(n: int) -> Seq<char> {
    if n < 10 {
        seq!['0'] + dec_rep(n as nat)
    } else {
        dec_rep(n as nat)
    }
}

/// An SRT timestamp `HH:MM:SS,mmm` for an offset in centiseconds; the
/// millisecond digit below centisecond precision is always zero.
pub open spec fn srt_time_rep(cs: int) -> Seq<char> {
    pad2_rep(cs / 360000) + ":"@ + pad2_rep((cs % 360000) / 6000) + ":"@ + pad2_rep(
        (cs % 6000) / 100,
    ) + ","@ + seq![
        digit_char(((cs % 6000) % 100 / 10) as int),
        digit_char(((cs % 6000) % 10) as int),
        '0',
    ]
}

/// One numbered SRT block: index line, time-range line, the text, and a
/// blank separator line.
pub open spec fn srt_block_rep(idx: nat, seg: SubtitleSegmentModel) -> Seq<char> {
    dec_rep(idx) + "\n"@ + srt_time_rep(seg.start_cs as int) + " --> "@ + srt_time_rep(
        seg.end_cs as int,
    ) + "\n"@ + seg.text + "\n\n"@
}

/// The SRT text of a run of segments, numbered from `next_idx`.
pub open spec fn srt_rep(segs: Seq<SubtitleSegmentModel>, next_idx: nat) -> Seq<char>
    decreases segs.len(),
{
    if segs.len() == 0 {
        Seq::<char>::empty()
    } else {
        srt_block_rep(next_idx, segs[0]) + srt_rep(segs.skip(1), next_idx + 1)
    }
}

/// Formats a nonnegative centisecond offset as an SRT timestamp.
pub fn format_time(cs: i64) -> (r: String)
    requires
        cs >= 0,
    ensures
        r@ == srt_time_rep(cs as int),
{
    let c = cs as u64;
    let mut s = pad2(c / 360000);
    s.append(":");
    s.append(pad2((c % 360000) / 6000).as_str());
    s.append(":");
    s.append(pad2((c % 6000) / 100).as_str());
    s.append(",");
    let r = c % 6000;
    s.append(digit_str(r % 100 / 10));
    s.append(digit_str(r % 10));
    s.append("0");
    proof {
        reveal_strlit(":");
        reveal_strlit(",");
        reveal_strlit("0");
        assert(s@ =~= srt_time_rep(cs as int));
    }
    s
}

fn pad2(n: u64) -> (r: String)
    ensures
        r@ == pad2_rep(n as int),
{
    if n < 10 {
        let mut s = String::from_str("0");
        s.append(digit_str(n));
        proof {
            reveal_strlit("0");
            assert(s@ =~= pad2_rep(n as int));
        }
        s
    } else {
        u64_to_dec(n)
    }
}

/// Assembles the SRT text of transcribed segments, numbered from 1 in order.
pub fn render_srt(segments: &Vec<SubtitleSegment>) -> (r: String)
    requires
        forall|i: int|
            0 <= i < segments@.len() ==> (#[trigger] segments@[i]).start_cs >= 0
                && segments@[i].end_cs >= 0,
    ensures
        r@ == srt_rep(segments@.map_values(|s: SubtitleSegment| s@), 1),
{
    let ghost model = segments@.map_values(|s: SubtitleSegment| s@);
    let mut m = String::new();
    let mut i: usize = 0;
    proof {
        assert(model.skip(0) =~= model);
    }
    while i < segments.len()
        invariant
            0 <= i <= segments.len(),
            model == segments@.map_values(|s: SubtitleSegment| s@),
            model.len() == segments@.len(),
            forall|k: int|
                0 <= k < segments@.len() ==> (#[trigger] segments@[k]).start_cs >= 0
                    && segments@[k].end_cs >= 0,
            srt_rep(model, 1) == m@ + srt_rep(model.skip(i as int), i as nat + 1),
        decreases segments.len() - i,
    {
        proof {
            assert(model.skip(i as int)[0] == model[i as int]);
            assert(model.skip(i as int).skip(1) =~= model.skip(i as int + 1));
            assert(model[i as int] == segments@[i as int]@);
        }
        let seg = &segments[i];
        let ghost before = m@;
        m.append(u64_to_dec((i as u64) + 1).as_str());
        m.append("\n");
        m.append(format_time(seg.start_cs).as_str());
        m.append(" --> ");
        m.append(format_time(seg.end_cs).as_str());
        m.append("\n");
        m.append(seg.text.as_str());
        m.append("\n\n");
        proof {
            assert(m@ =~= before + srt_block_rep(i as nat + 1, model[i as int]));
        }
        i = i + 1;
    }
    proof {
        assert(model.skip(model.len() as int) =~= Seq::<SubtitleSegmentModel>::empty());
    }
    m
}

} // verus!
