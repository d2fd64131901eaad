use vstd::prelude::*;
use vstd::slice::slice_subrange;
use vstd::slice::slice_to_vec;

use crate::telegram::{
    calculate_fcs, concat_frames, fcs, lemma_fcs_three, sd1_frame, sd2_data_len_ok, sd2_frame, sd4_frame,
    telegram_views, FrameType, Telegram, END_DELIMITER, SD1_START_DELIMITER, SD2_START_DELIMITER,
    SD4_START_DELIMITER,
};

verus! {

/// Length of an SD1 frame.
pub const SD1_FRAME_LEN: usize = 6;

/// Length of an SD4 frame.
pub const SD4_FRAME_LEN: usize = 3;

/// SD2: `68 LE LE 68 | DA SA FC DATA... (LE bytes) | FCS 16`; the header is the first four bytes.
pub const SD2_HEADER_LEN: usize = 4;

/// Bytes of an SD2 frame besides the LE bytes it counts: header, FCS and ED.
pub const SD2_FRAME_OVERHEAD: usize = SD2_HEADER_LEN + 2;

/// Smallest valid LE: DA, SA, FC and one data byte.
pub const SD2_MIN_LE: u8 = 4;

/// Largest valid LE: DA, SA, FC and 246 data bytes.
pub const SD2_MAX_LE: u8 = 249;

/// The longest frame on the wire: an SD2 frame with 246 data bytes.
pub const MAX_FRAME_LEN: usize = 255;

/// What the parser is waiting for.
#[derive(Debug, PartialEq, Eq, Clone, Copy)]
pub enum ParserState {
    WaitingForStart,
    ReadingSd1,
    ReadingSd2,
    ReadingSd4,
}

// ---------------------------------------------------------------------------
// The model: which telegrams a byte stream holds.
// ---------------------------------------------------------------------------

/// Whether `b` opens a frame.
pub open spec fn is_start_byte(b: u8) -> bool {
    b == SD1_START_DELIMITER || b == SD2_START_DELIMITER || b == SD4_START_DELIMITER
}

/// The frame type that the start delimiter `b` opens.
pub open spec fn frame_type_of(b: u8) -> FrameType {
    if b == SD1_START_DELIMITER {
        FrameType::SD1
    } else if b == SD2_START_DELIMITER {
        FrameType::SD2
    } else {
        FrameType::SD4
    }
}

/// Both length bytes of an SD2 header agree, and LE is in 4..=249
/// (1..=246 data bytes besides DA, SA and FC).
pub open spec fn sd2_le_valid(le: u8, le_repeated: u8) -> bool {
    le == le_repeated && SD2_MIN_LE <= le <= SD2_MAX_LE
}

/// `c` is a complete, well-formed SD1 frame.
pub open spec fn valid_sd1(c: Seq<u8>) -> bool {
    &&& c.len() == SD1_FRAME_LEN
    &&& c[0] == SD1_START_DELIMITER
    &&& c[5] == END_DELIMITER
    &&& c[4] == fcs(c.subrange(1, 4))
}

/// `c` is a complete, well-formed SD2 frame.
pub open spec fn valid_sd2(c: Seq<u8>) -> bool {
    &&& c.len() >= SD2_HEADER_LEN
    &&& sd2_le_valid(c[1], c[2])
    &&& c[0] == SD2_START_DELIMITER
    &&& c[3] == SD2_START_DELIMITER
    &&& c.len() == c[1] + SD2_FRAME_OVERHEAD
    &&& c[c.len() - 1] == END_DELIMITER
    &&& c[c.len() - 2] == fcs(c.subrange(4, c.len() - 2))
}

/// A complete, well-formed frame of the given type.
pub open spec fn is_frame(t: (FrameType, Seq<u8>)) -> bool {
    ||| t.0 == FrameType::SD1 && valid_sd1(t.1)
    ||| t.0 == FrameType::SD2 && valid_sd2(t.1)
    ||| t.0 == FrameType::SD4 && t.1.len() == SD4_FRAME_LEN && t.1[0] == SD4_START_DELIMITER
}

/// How far the bytes after a start delimiter decide a frame.
pub enum CandidateStatus {
    /// More bytes are needed before the frame can be judged.
    Incomplete,
    /// The bytes so far cannot begin a valid frame.
    Rejected,
    /// A valid frame of `candidate_frame_len` bytes begins here.
    Accepted,
}

/// The length that the frame opened by `s[0]` has.
pub open spec fn candidate_frame_len(s: Seq<u8>) -> nat {
    if s[0] == SD1_START_DELIMITER {
        SD1_FRAME_LEN as nat
    } else if s[0] == SD2_START_DELIMITER {
        (s[1] + SD2_FRAME_OVERHEAD) as nat
    } else {
        SD4_FRAME_LEN as nat
    }
}

/// Judges the bytes `s`, which begin with a start delimiter, as a frame
/// candidate. An SD2 header is judged as soon as the bytes it covers are there.
pub open spec fn candidate_status(s: Seq<u8>) -> CandidateStatus {
    if s[0] == SD1_START_DELIMITER {
        if s.len() < SD1_FRAME_LEN {
            CandidateStatus::Incomplete
        } else if valid_sd1(s.take(SD1_FRAME_LEN as int)) {
            CandidateStatus::Accepted
        } else {
            CandidateStatus::Rejected
        }
    } else if s[0] == SD2_START_DELIMITER {
        if s.len() < 3 {
            CandidateStatus::Incomplete
        } else if !sd2_le_valid(s[1], s[2]) {
            CandidateStatus::Rejected
        } else if s.len() < SD2_HEADER_LEN {
            CandidateStatus::Incomplete
        } else if s[3] != SD2_START_DELIMITER {
            CandidateStatus::Rejected
        } else if s.len() < s[1] + SD2_FRAME_OVERHEAD {
            CandidateStatus::Incomplete
        } else if valid_sd2(s.take(s[1] + SD2_FRAME_OVERHEAD)) {
            CandidateStatus::Accepted
        } else {
            CandidateStatus::Rejected
        }
    } else {
        if s.len() < SD4_FRAME_LEN {
            CandidateStatus::Incomplete
        } else {
            CandidateStatus::Accepted
        }
    }
}

/// The telegrams that the byte stream `s` holds, in order, and the bytes at its
/// end that may still become a frame.
///
/// Bytes that cannot open a frame are skipped. A valid frame is taken whole. A
/// candidate that turns out invalid is given up, and the search for a frame
/// goes on from the byte after its start delimiter, so frames hidden inside it
/// are still found.
pub open spec fn parse_stream(s: Seq<u8>) -> (Seq<(FrameType, Seq<u8>)>, Seq<u8>)
    decreases s.len(),
{
    if s.len() == 0 {
        (Seq::empty(), Seq::empty())
    } else if !is_start_byte(s[0]) {
        parse_stream(s.drop_first())
    } else {
        match candidate_status(s) {
            CandidateStatus::Incomplete => (Seq::empty(), s),
            CandidateStatus::Rejected => parse_stream(s.drop_first()),
            CandidateStatus::Accepted => {
                let n = candidate_frame_len(s);
                let rest = parse_stream(s.skip(n as int));
                (seq![(frame_type_of(s[0]), s.take(n as int))] + rest.0, rest.1)
            },
        }
    }
}

/// Bytes that may still become a frame: nothing, or a start delimiter and
/// bytes that do not yet decide the frame.
pub open spec fn is_pending(b: Seq<u8>) -> bool {
    b.len() == 0 || (is_start_byte(b[0]) && candidate_status(b) is Incomplete)
}

/// The parser state that belongs to the pending bytes `b`.
pub open spec fn state_for(b: Seq<u8>) -> ParserState {
    if b.len() == 0 {
        ParserState::WaitingForStart
    } else if b[0] == SD1_START_DELIMITER {
        ParserState::ReadingSd1
    } else if b[0] == SD2_START_DELIMITER {
        ParserState::ReadingSd2
    } else {
        ParserState::ReadingSd4
    }
}


// ---------------------------------------------------------------------------
// Lemmas about the model
// ---------------------------------------------------------------------------

/// An accepted frame fits inside the bytes that were judged.
proof fn lemma_accepted_len(s: Seq<u8>)
    requires
        s.len() > 0,
        is_start_byte(s[0]),
        candidate_status(s) is Accepted,
    ensures
        3 <= candidate_frame_len(s) <= s.len(),
        candidate_frame_len(s) <= MAX_FRAME_LEN,
{
}

/// Once a candidate is decided, later bytes do not change the decision.
proof fn lemma_status_stable(s: Seq<u8>, x: Seq<u8>)
    requires
        s.len() > 0,
        is_start_byte(s[0]),
        !(candidate_status(s) is Incomplete),
    ensures
        (s + x)[0] == s[0],
        candidate_status(s + x) == candidate_status(s),
        candidate_frame_len(s + x) == candidate_frame_len(s),
        candidate_status(s) is Accepted ==> (s + x).take(candidate_frame_len(s) as int) == s.take(
            candidate_frame_len(s) as int,
        ),
{
    let t = s + x;
    assert(t[0] == s[0]);
    if s[0] == SD1_START_DELIMITER {
        assert(t.take(6) =~= s.take(6));
    } else if s[0] == SD2_START_DELIMITER {
        assert(t[1] == s[1]);
        assert(t[2] == s[2]);
        if s.len() >= 4 {
            assert(t[3] == s[3]);
        }
        if s.len() >= s[1] + 6 {
            assert(t.take(s[1] + 6) =~= s.take(s[1] + 6));
        }
    } else {
        assert(t.take(3) =~= s.take(3));
    }
}

/// The empty stream holds nothing.
proof fn lemma_parse_empty()
    ensures
        parse_stream(Seq::<u8>::empty()) == (
            Seq::<(FrameType, Seq<u8>)>::empty(),
            Seq::<u8>::empty(),
        ),
{
}

/// A stream that is exactly one valid frame holds that frame and leaves nothing.
proof fn lemma_single_frame(c: Seq<u8>)
    requires
        c.len() > 0,
        is_start_byte(c[0]),
        candidate_status(c) is Accepted,
        candidate_frame_len(c) == c.len(),
    ensures
        parse_stream(c) == (seq![(frame_type_of(c[0]), c)], Seq::<u8>::empty()),
{
    let n = c.len() as int;
    assert(c.take(n) =~= c);
    assert(c.skip(n) =~= Seq::<u8>::empty());
    lemma_parse_empty();
    assert(seq![(frame_type_of(c[0]), c)] + Seq::<(FrameType, Seq<u8>)>::empty() =~= seq![
        (frame_type_of(c[0]), c),
    ]);
}

/// Pending bytes hold no telegram and stay pending.
proof fn lemma_pending_parses_to_itself(b: Seq<u8>)
    requires
        is_pending(b),
    ensures
        parse_stream(b) == (Seq::<(FrameType, Seq<u8>)>::empty(), b),
{
}

/// Pending bytes are shorter than the longest frame.
proof fn lemma_pending_bounded(b: Seq<u8>)
    requires
        is_pending(b),
    ensures
        b.len() < MAX_FRAME_LEN,
{
}

/// What a stream leaves pending is pending, and no longer than the stream.
proof fn lemma_parse_stream_rest(s: Seq<u8>)
    ensures
        is_pending(parse_stream(s).1),
        parse_stream(s).1.len() <= s.len(),
    decreases s.len(),
{
    if s.len() == 0 {
    } else if !is_start_byte(s[0]) {
        lemma_parse_stream_rest(s.drop_first());
    } else {
        match candidate_status(s) {
            CandidateStatus::Incomplete => {},
            CandidateStatus::Rejected => {
                lemma_parse_stream_rest(s.drop_first());
            },
            CandidateStatus::Accepted => {
                lemma_accepted_len(s);
                lemma_parse_stream_rest(s.skip(candidate_frame_len(s) as int));
            },
        }
    }
}

/// Parsing is incremental: parsing `s + x` gives the telegrams of `s`, then
/// those of what `s` left pending followed by `x`.
pub proof fn lemma_parse_stream_append(s: Seq<u8>, x: Seq<u8>)
    ensures
        parse_stream(s + x).0 == parse_stream(s).0 + parse_stream(parse_stream(s).1 + x).0,
        parse_stream(s + x).1 == parse_stream(parse_stream(s).1 + x).1,
    decreases s.len(),
{
    if s.len() == 0 {
        assert(s + x =~= x);
        assert(parse_stream(s).1 + x =~= x);
        assert(parse_stream(s).0 + parse_stream(x).0 =~= parse_stream(x).0);
    } else if !is_start_byte(s[0]) {
        assert((s + x)[0] == s[0]);
        assert((s + x).drop_first() =~= s.drop_first() + x);
        lemma_parse_stream_append(s.drop_first(), x);
    } else {
        match candidate_status(s) {
            CandidateStatus::Incomplete => {
                assert(parse_stream(s).0 + parse_stream(s + x).0 =~= parse_stream(s + x).0);
            },
            CandidateStatus::Rejected => {
                lemma_status_stable(s, x);
                assert((s + x).drop_first() =~= s.drop_first() + x);
                lemma_parse_stream_append(s.drop_first(), x);
            },
            CandidateStatus::Accepted => {
                lemma_status_stable(s, x);
                lemma_accepted_len(s);
                let n = candidate_frame_len(s) as int;
                assert((s + x).skip(n) =~= s.skip(n) + x);
                lemma_parse_stream_append(s.skip(n), x);
                let head = seq![(frame_type_of(s[0]), s.take(n))];
                let r = parse_stream(s.skip(n));
                assert(head + (r.0 + parse_stream(r.1 + x).0) =~= (head + r.0) + parse_stream(
                    r.1 + x,
                ).0);
            },
        }
    }
}

/// Parsing one more byte: the telegrams so far, then those that the pending
/// bytes and the new byte complete. With the contract of `Parser::push`, this
/// says that a parser fed a stream byte by byte returns, over all its calls,
/// exactly the telegrams `parse_stream` finds in that stream.
pub proof fn lemma_parse_stream_push(s: Seq<u8>, b: u8)
    ensures
        parse_stream(s.push(b)).0 == parse_stream(s).0 + parse_stream(parse_stream(s).1.push(b)).0,
        parse_stream(s.push(b)).1 == parse_stream(parse_stream(s).1.push(b)).1,
{
    let x = seq![b];
    lemma_parse_stream_append(s, x);
    assert(s + x =~= s.push(b));
    assert(parse_stream(s).1 + x =~= parse_stream(s).1.push(b));
}

proof fn lemma_views_append(a: Seq<Telegram>, b: Seq<Telegram>)
    ensures
        telegram_views(a + b) == telegram_views(a) + telegram_views(b),
{
    assert(telegram_views(a + b) =~= telegram_views(a) + telegram_views(b));
}

/// Bytes that cannot open a frame are skipped.
proof fn lemma_skip_non_start(s: Seq<u8>, k: int)
    requires
        0 <= k <= s.len(),
        forall|i: int| 0 <= i < k ==> !is_start_byte(#[trigger] s[i]),
    ensures
        parse_stream(s) == parse_stream(s.skip(k)),
    decreases k,
{
    if k > 0 {
        assert(!is_start_byte(s[0]));
        assert(s.drop_first().skip(k - 1) =~= s.skip(k));
        lemma_skip_non_start(s.drop_first(), k - 1);
    } else {
        assert(s.skip(0) =~= s);
    }
}

// ---------------------------------------------------------------------------
// Laws of the model
// ---------------------------------------------------------------------------

/// The telegram constructors build well-formed frames.
pub proof fn lemma_built_frames_are_frames(da: u8, sa: u8, fc: u8, data: Seq<u8>)
    ensures
        is_frame((FrameType::SD1, sd1_frame(da, sa, fc))),
        is_frame((FrameType::SD4, sd4_frame(da, sa))),
        sd2_data_len_ok(data.len()) ==> is_frame((FrameType::SD2, sd2_frame(da, sa, fc, data))),
{
    assert(sd1_frame(da, sa, fc).subrange(1, 4) =~= seq![da, sa, fc]);
    if sd2_data_len_ok(data.len()) {
        let f = sd2_frame(da, sa, fc, data);
        assert(f.subrange(4, f.len() - 2) =~= seq![da, sa, fc] + data);
    }
}

/// A well-formed frame at the head of a stream is parsed as that frame, and
/// parsing goes on right after it.
pub proof fn lemma_frame_parses(t: (FrameType, Seq<u8>), rest: Seq<u8>)
    requires
        is_frame(t),
    ensures
        parse_stream(t.1 + rest) == (seq![t] + parse_stream(rest).0, parse_stream(rest).1),
{
    let s = t.1 + rest;
    let n = t.1.len() as int;
    assert(s[0] == t.1[0]);
    if t.0 == FrameType::SD1 {
        assert(s.take(6) =~= t.1);
    } else if t.0 == FrameType::SD2 {
        assert(s[1] == t.1[1]);
        assert(s[2] == t.1[2]);
        assert(s[3] == t.1[3]);
        assert(s.take(n) =~= t.1);
    } else {
        assert(s.take(3) =~= t.1);
    }
    assert(candidate_status(s) is Accepted);
    assert(candidate_frame_len(s) == n);
    assert(s.take(n) =~= t.1);
    assert(s.skip(n) =~= rest);
}


/// Well-formed frames sent back to back are parsed as exactly those frames,
/// with nothing left pending.
pub proof fn lemma_frames_back_to_back(ts: Seq<(FrameType, Seq<u8>)>)
    requires
        forall|i: int| 0 <= i < ts.len() ==> is_frame(#[trigger] ts[i]),
    ensures
        parse_stream(concat_frames(ts)) == (ts, Seq::<u8>::empty()),
    decreases ts.len(),
{
    if ts.len() == 0 {
        lemma_parse_empty();
        assert(ts =~= Seq::<(FrameType, Seq<u8>)>::empty());
    } else {
        let rest = ts.drop_first();
        assert forall|i: int| 0 <= i < rest.len() implies is_frame(#[trigger] rest[i]) by {
            assert(rest[i] == ts[i + 1]);
        }
        lemma_frames_back_to_back(rest);
        lemma_frame_parses(ts[0], concat_frames(rest));
        assert(seq![ts[0]] + rest =~= ts);
    }
}

/// Every telegram found in a stream is a well-formed frame.
pub proof fn lemma_found_telegrams_are_frames(s: Seq<u8>)
    ensures
        forall|i: int|
            0 <= i < parse_stream(s).0.len() ==> is_frame(#[trigger] parse_stream(s).0[i]),
    decreases s.len(),
{
    if s.len() == 0 {
    } else if !is_start_byte(s[0]) {
        lemma_found_telegrams_are_frames(s.drop_first());
        assert(parse_stream(s) == parse_stream(s.drop_first()));
    } else {
        match candidate_status(s) {
            CandidateStatus::Incomplete => {},
            CandidateStatus::Rejected => {
                lemma_found_telegrams_are_frames(s.drop_first());
                assert(parse_stream(s) == parse_stream(s.drop_first()));
            },
            CandidateStatus::Accepted => {
                lemma_accepted_len(s);
                let n = candidate_frame_len(s) as int;
                lemma_found_telegrams_are_frames(s.skip(n));
                let head = (frame_type_of(s[0]), s.take(n));
                if s[0] == SD2_START_DELIMITER {
                    assert(head.1 =~= s.take(s[1] + SD2_FRAME_OVERHEAD));
                }
                assert(is_frame(head));
                let r = parse_stream(s.skip(n)).0;
                assert(parse_stream(s).0 == seq![head] + r);
                assert forall|i: int|
                    0 <= i < parse_stream(s).0.len() implies is_frame(
                    #[trigger] parse_stream(s).0[i],
                ) by {
                    if i > 0 {
                        assert(parse_stream(s).0[i] == r[i - 1]);
                    } else {
                        assert(parse_stream(s).0[i] == head);
                    }
                }
            },
        }
    }
}

/// Every telegram found in a stream, parsed again on its own, is found again
/// unchanged, with nothing left pending.
pub proof fn lemma_found_telegrams_reparse(s: Seq<u8>, i: int)
    requires
        0 <= i < parse_stream(s).0.len(),
    ensures
        parse_stream(parse_stream(s).0[i].1) == (
            seq![parse_stream(s).0[i]],
            Seq::<u8>::empty(),
        ),
{
    lemma_found_telegrams_are_frames(s);
    let t = parse_stream(s).0[i];
    lemma_frame_parses(t, Seq::<u8>::empty());
    lemma_parse_empty();
    assert(t.1 + Seq::<u8>::empty() =~= t.1);
    assert(seq![t] + Seq::<(FrameType, Seq<u8>)>::empty() =~= seq![t]);
}

/// A frame is only reported once its last byte arrives: every proper prefix
/// of a well-formed frame holds no telegram and stays pending.
pub proof fn lemma_frame_prefix_pending(t: (FrameType, Seq<u8>), k: int)
    requires
        is_frame(t),
        0 <= k < t.1.len(),
    ensures
        parse_stream(t.1.take(k)) == (Seq::<(FrameType, Seq<u8>)>::empty(), t.1.take(k)),
{
    let p = t.1.take(k);
    if k == 0 {
        assert(p =~= Seq::<u8>::empty());
        lemma_parse_empty();
    } else {
        assert(p[0] == t.1[0]);
        if k >= 2 {
            assert(p[1] == t.1[1]);
        }
        if k >= 3 {
            assert(p[2] == t.1[2]);
        }
        if k >= 4 {
            assert(p[3] == t.1[3]);
        }
        assert(candidate_status(p) is Incomplete);
    }
}

/// Bytes that cannot open a frame are skipped: a run of them in front of a
/// stream changes nothing.
pub proof fn lemma_noise_is_skipped(noise: Seq<u8>, s: Seq<u8>)
    requires
        forall|i: int| 0 <= i < noise.len() ==> !is_start_byte(#[trigger] noise[i]),
    ensures
        parse_stream(noise + s) == parse_stream(s),
{
    let t = noise + s;
    assert forall|i: int| 0 <= i < noise.len() implies !is_start_byte(#[trigger] t[i]) by {
        assert(t[i] == noise[i]);
    }
    lemma_skip_non_start(t, noise.len() as int);
    assert(t.skip(noise.len() as int) =~= s);
}

/// The bytes left pending are the last bytes of the stream.
proof fn lemma_pending_is_suffix(s: Seq<u8>)
    ensures
        parse_stream(s).1.len() <= s.len(),
        parse_stream(s).1 == s.skip(s.len() - parse_stream(s).1.len()),
    decreases s.len(),
{
    if s.len() == 0 {
        assert(s.skip(0) =~= s);
    } else if !is_start_byte(s[0]) {
        lemma_pending_is_suffix(s.drop_first());
        let p = parse_stream(s).1;
        assert(s.drop_first().skip(s.drop_first().len() - p.len()) =~= s.skip(s.len() - p.len()));
    } else {
        match candidate_status(s) {
            CandidateStatus::Incomplete => {
                assert(s.skip(0) =~= s);
            },
            CandidateStatus::Rejected => {
                lemma_pending_is_suffix(s.drop_first());
                let p = parse_stream(s).1;
                assert(s.drop_first().skip(s.drop_first().len() - p.len()) =~= s.skip(
                    s.len() - p.len(),
                ));
            },
            CandidateStatus::Accepted => {
                lemma_accepted_len(s);
                let n = candidate_frame_len(s) as int;
                lemma_pending_is_suffix(s.skip(n));
                let p = parse_stream(s).1;
                assert(s.skip(n).skip(s.skip(n).len() - p.len()) =~= s.skip(s.len() - p.len()));
            },
        }
    }
}

/// `t` stands in `s` at index `i`.
pub open spec fn occurs_at(s: Seq<u8>, t: Seq<u8>, i: int) -> bool {
    0 <= i && i + t.len() <= s.len() && s.subrange(i, i + t.len()) == t
}

/// Every telegram found in a stream is a run of consecutive bytes of it.
pub proof fn lemma_found_telegrams_are_slices(s: Seq<u8>, j: int)
    requires
        0 <= j < parse_stream(s).0.len(),
    ensures
        exists|i: int| #[trigger] occurs_at(s, parse_stream(s).0[j].1, i),
    decreases s.len(),
{
    let t = parse_stream(s).0[j].1;
    if !is_start_byte(s[0]) || candidate_status(s) is Rejected {
        assert(parse_stream(s) == parse_stream(s.drop_first()));
        lemma_found_telegrams_are_slices(s.drop_first(), j);
        let i = choose|i: int| #[trigger] occurs_at(s.drop_first(), t, i);
        assert(s.subrange(i + 1, i + 1 + t.len()) =~= s.drop_first().subrange(i, i + t.len()));
        assert(occurs_at(s, t, i + 1));
    } else {
        lemma_accepted_len(s);
        let n = candidate_frame_len(s) as int;
        let r = parse_stream(s.skip(n)).0;
        assert(parse_stream(s).0 == seq![(frame_type_of(s[0]), s.take(n))] + r);
        if j == 0 {
            assert(s.subrange(0, n) =~= s.take(n));
            assert(occurs_at(s, t, 0));
        } else {
            assert(parse_stream(s).0[j] == r[j - 1]);
            lemma_found_telegrams_are_slices(s.skip(n), j - 1);
            let i = choose|i: int| #[trigger] occurs_at(s.skip(n), t, i);
            assert(s.subrange(n + i, n + i + t.len()) =~= s.skip(n).subrange(i, i + t.len()));
            assert(occurs_at(s, t, n + i));
        }
    }
}

/// The bytes that a parser made by `Parser::new` holds after being fed `s`
/// one byte at a time: by the contract of `Parser::push`, each call leaves
/// `parse_stream` of what it held followed by the new byte.
pub open spec fn fed_pending(s: Seq<u8>) -> Seq<u8>
    decreases s.len(),
{
    if s.len() == 0 {
        Seq::empty()
    } else {
        parse_stream(fed_pending(s.drop_last()).push(s.last())).1
    }
}

/// What the call of `Parser::push` with byte `k` of `s` returns, when a parser
/// made by `Parser::new` is fed `s` one byte at a time.
pub open spec fn fed_step(s: Seq<u8>, k: int) -> Seq<(FrameType, Seq<u8>)> {
    parse_stream(fed_pending(s.take(k)).push(s[k])).0
}

/// Everything that a parser made by `Parser::new` returns, call after call,
/// when fed `s` one byte at a time.
pub open spec fn fed_outputs(s: Seq<u8>) -> Seq<(FrameType, Seq<u8>)>
    decreases s.len(),
{
    if s.len() == 0 {
        Seq::empty()
    } else {
        fed_outputs(s.drop_last()) + fed_step(s, s.len() - 1)
    }
}

/// A parser fed a stream one byte at a time returns, over all its calls,
/// exactly the telegrams that `parse_stream` finds in the stream, and holds
/// what it leaves pending.
pub proof fn lemma_feeding_is_parsing(s: Seq<u8>)
    ensures
        fed_pending(s) == parse_stream(s).1,
        fed_outputs(s) == parse_stream(s).0,
    decreases s.len(),
{
    if s.len() == 0 {
        lemma_parse_empty();
    } else {
        let h = s.drop_last();
        lemma_feeding_is_parsing(h);
        assert(s.take(s.len() - 1) =~= h);
        assert(h.push(s.last()) =~= s);
        lemma_parse_stream_push(h, s.last());
    }
}

/// A well-formed frame fed one byte at a time to a parser made by
/// `Parser::new` gives nothing on each byte but the last, and the frame itself
/// on the last. This holds of every frame that `Telegram::new_sd1`, `new_sd2`
/// and `new_sd4` build (`lemma_built_frames_are_frames`).
pub proof fn lemma_frame_fed_byte_by_byte(t: (FrameType, Seq<u8>), k: int)
    requires
        is_frame(t),
        0 <= k < t.1.len(),
    ensures
        k < t.1.len() - 1 ==> fed_step(t.1, k) == Seq::<(FrameType, Seq<u8>)>::empty(),
        k == t.1.len() - 1 ==> fed_step(t.1, k) == seq![t],
{
    let b = t.1;
    lemma_feeding_is_parsing(b.take(k));
    lemma_frame_prefix_pending(t, k);
    assert(b.take(k).push(b[k]) =~= b.take(k + 1));
    if k < b.len() - 1 {
        lemma_frame_prefix_pending(t, k + 1);
    } else {
        assert(b.take(k + 1) =~= b);
        lemma_frame_parses(t, Seq::<u8>::empty());
        assert(b + Seq::<u8>::empty() =~= b);
        lemma_parse_empty();
        assert(seq![t] + Seq::<(FrameType, Seq<u8>)>::empty() =~= seq![t]);
    }
}

/// Every telegram that a call of `Parser::push` returns, for a parser made by
/// `Parser::new` and fed `s`, is a run of consecutive bytes fed so far, and
/// parsed again on its own it is found again unchanged.
pub proof fn lemma_fed_telegrams_genuine(s: Seq<u8>, k: int, j: int)
    requires
        0 <= k < s.len(),
        0 <= j < fed_step(s, k).len(),
    ensures
        exists|i: int| #[trigger] occurs_at(s.take(k + 1), fed_step(s, k)[j].1, i),
        parse_stream(fed_step(s, k)[j].1) == (seq![fed_step(s, k)[j]], Seq::<u8>::empty()),
{
    let h = s.take(k);
    lemma_feeding_is_parsing(h);
    lemma_pending_is_suffix(h);
    let p = parse_stream(h).1;
    let c = p.push(s[k]);
    let start = k - p.len();
    assert(c =~= s.subrange(start, k + 1));
    lemma_found_telegrams_reparse(c, j);
    lemma_found_telegrams_are_slices(c, j);
    let t = fed_step(s, k)[j].1;
    let i = choose|i: int| #[trigger] occurs_at(c, t, i);
    assert(s.take(k + 1).subrange(start + i, start + i + t.len()) =~= c.subrange(i, i + t.len()));
    assert(occurs_at(s.take(k + 1), t, start + i));
}

/// Noise and frames in turn: `noise[0]`, frame 0, `noise[1]`, frame 1, ...,
/// the last noise.
pub open spec fn interleave(noise: Seq<Seq<u8>>, ts: Seq<(FrameType, Seq<u8>)>) -> Seq<u8>
    decreases ts.len(),
{
    if noise.len() == 0 {
        Seq::empty()
    } else if ts.len() == 0 {
        noise[0]
    } else {
        noise[0] + ts[0].1 + interleave(noise.drop_first(), ts.drop_first())
    }
}

/// Well-formed frames with runs of bytes that cannot open a frame around and
/// between them are found in order, and nothing is left pending; so a parser
/// fed such a stream returns exactly those frames (`lemma_feeding_is_parsing`).
pub proof fn lemma_frames_among_noise(noise: Seq<Seq<u8>>, ts: Seq<(FrameType, Seq<u8>)>)
    requires
        noise.len() == ts.len() + 1,
        forall|i: int| 0 <= i < ts.len() ==> is_frame(#[trigger] ts[i]),
        forall|i: int, j: int|
            0 <= i < noise.len() && 0 <= j < noise[i].len() ==> !is_start_byte(
                #[trigger] noise[i][j],
            ),
    ensures
        parse_stream(interleave(noise, ts)) == (ts, Seq::<u8>::empty()),
    decreases ts.len(),
{
    let g = noise[0];
    assert forall|j: int| 0 <= j < g.len() implies !is_start_byte(#[trigger] g[j]) by {
        assert(noise[0][j] == g[j]);
    }
    if ts.len() == 0 {
        lemma_noise_is_skipped(g, Seq::<u8>::empty());
        assert(g + Seq::<u8>::empty() =~= g);
        lemma_parse_empty();
        assert(ts =~= Seq::<(FrameType, Seq<u8>)>::empty());
    } else {
        let rn = noise.drop_first();
        let rt = ts.drop_first();
        assert forall|i: int| 0 <= i < rt.len() implies is_frame(#[trigger] rt[i]) by {
            assert(rt[i] == ts[i + 1]);
        }
        assert forall|i: int, j: int|
            0 <= i < rn.len() && 0 <= j < rn[i].len() implies !is_start_byte(
            #[trigger] rn[i][j],
        ) by {
            assert(rn[i] == noise[i + 1]);
        }
        lemma_frames_among_noise(rn, rt);
        let rest = interleave(rn, rt);
        assert(g + ts[0].1 + rest =~= g + (ts[0].1 + rest));
        lemma_noise_is_skipped(g, ts[0].1 + rest);
        lemma_frame_parses(ts[0], rest);
        assert(seq![ts[0]] + rt =~= ts);
    }
}

// ---------------------------------------------------------------------------
// The parser
// ---------------------------------------------------------------------------

/// A byte-at-a-time PROFIBUS-DP telegram parser.
pub struct Parser {
    state: ParserState,
    buffer: Vec<u8>,
}

impl View for Parser {
    type V = Seq<u8>;

    /// The bytes of the frame candidate that waits for more input.
    closed spec fn view(&self) -> Seq<u8> {
        self.buffer@
    }
}

impl Parser {
    /// The buffer holds pending bytes, and the state follows from them.
    pub closed spec fn wf(&self) -> bool {
        &&& is_pending(self.buffer@)
        &&& self.state == state_for(self.buffer@)
    }

    pub fn new() -> (p: Self)
        ensures
            p.wf(),
            p@ == Seq::<u8>::empty(),
    {
        Self { state: ParserState::WaitingForStart, buffer: Vec::new() }
    }

    /// What the parser waits for.
    pub fn state(&self) -> (s: ParserState)
        requires
            self.wf(),
        ensures
            s == state_for(self@),
    {
        self.state
    }

    /// Feeds one byte and returns every telegram completed by this byte: usually
    /// none or one, but more when a failed candidate is replayed and contains
    /// several frames.
    ///
    /// There is no timeout: an incomplete candidate is kept until later bytes
    /// complete or break it.
    pub fn push(&mut self, byte: u8) -> (out: Vec<Telegram>)
        requires
            old(self).wf(),
        ensures
            final(self).wf(),
            telegram_views(out@) == parse_stream(old(self)@.push(byte)).0,
            final(self)@ == parse_stream(old(self)@.push(byte)).1,
            final(self)@.len() < MAX_FRAME_LEN,
        decreases old(self)@.len() + 1, 4int,
    {
        proof {
            lemma_pending_bounded(self.buffer@);
        }
        let ghost c = self.buffer@.push(byte);
        let out = match self.state {
            ParserState::WaitingForStart => {
                self.start_candidate(byte);
                proof {
                    assert(c =~= seq![byte]);
                    if !is_start_byte(byte) {
                        assert(c.drop_first() =~= Seq::<u8>::empty());
                        lemma_parse_empty();
                    } else {
                        lemma_pending_parses_to_itself(c);
                    }
                }
                Vec::new()
            },
            ParserState::ReadingSd1 => {
                self.buffer.push(byte);
                if self.buffer.len() < SD1_FRAME_LEN {
                    proof {
                        lemma_pending_parses_to_itself(c);
                    }
                    Vec::new()
                } else {
                    self.finish_sd1_candidate()
                }
            },
            ParserState::ReadingSd2 => {
                self.buffer.push(byte);
                proof {
                    assert(self.buffer@.drop_last() =~= old(self)@);
                }
                self.advance_sd2_candidate()
            },
            ParserState::ReadingSd4 => {
                self.buffer.push(byte);
                if self.buffer.len() < SD4_FRAME_LEN {
                    proof {
                        lemma_pending_parses_to_itself(c);
                    }
                    Vec::new()
                } else {
                    self.finish_sd4_candidate()
                }
            },
        };
        proof {
            assert(telegram_views(Seq::<Telegram>::empty()) =~= Seq::empty());
            lemma_parse_stream_rest(c);
            lemma_pending_bounded(self.buffer@);
        }
        out
    }

    fn start_candidate(&mut self, byte: u8)
        requires
            old(self).wf(),
            old(self)@.len() == 0,
        ensures
            final(self).wf(),
            is_start_byte(byte) ==> final(self)@ == seq![byte],
            !is_start_byte(byte) ==> final(self)@ == Seq::<u8>::empty(),
    {
        let state = if byte == SD1_START_DELIMITER {
            ParserState::ReadingSd1
        } else if byte == SD2_START_DELIMITER {
            ParserState::ReadingSd2
        } else if byte == SD4_START_DELIMITER {
            ParserState::ReadingSd4
        } else {
            return ;
        };
        self.buffer.push(byte);
        self.state = state;
    }

    fn is_start_delimiter(byte: u8) -> (r: bool)
        ensures
            r == is_start_byte(byte),
    {
        byte == SD1_START_DELIMITER || byte == SD2_START_DELIMITER || byte == SD4_START_DELIMITER
    }

    fn take_candidate(&mut self) -> (candidate: Vec<u8>)
        ensures
            candidate@ == old(self)@,
            final(self)@ == Seq::<u8>::empty(),
            final(self).wf(),
    {
        self.state = ParserState::WaitingForStart;
        let mut candidate = Vec::new();
        std::mem::swap(&mut candidate, &mut self.buffer);
        candidate
    }

    fn finish_sd1_candidate(&mut self) -> (out: Vec<Telegram>)
        requires
            old(self)@.len() == SD1_FRAME_LEN,
            old(self)@[0] == SD1_START_DELIMITER,
        ensures
            final(self).wf(),
            telegram_views(out@) == parse_stream(old(self)@).0,
            final(self)@ == parse_stream(old(self)@).1,
        decreases old(self)@.len(), 2int,
    {
        let candidate = self.take_candidate();
        let ghost c = candidate@;
        proof {
            assert(c.take(6) =~= c);
        }
        if Self::validate_sd1(candidate.as_slice()) {
            let t = Telegram::new_sd1(candidate[1], candidate[2], candidate[3]);
            proof {
                assert(c.subrange(1, 4) =~= seq![c[1], c[2], c[3]]);
                assert(sd1_frame(c[1], c[2], c[3]) =~= c);
                lemma_single_frame(c);
            }
            let out = vec![t];
            proof {
                assert(telegram_views(out@) =~= seq![(FrameType::SD1, c)]);
            }
            return out;
        }
        self.recover_from(candidate.as_slice())
    }

    fn finish_sd4_candidate(&mut self) -> (out: Vec<Telegram>)
        requires
            old(self)@.len() == SD4_FRAME_LEN,
            old(self)@[0] == SD4_START_DELIMITER,
        ensures
            final(self).wf(),
            telegram_views(out@) == parse_stream(old(self)@).0,
            final(self)@ == parse_stream(old(self)@).1,
    {
        let candidate = self.take_candidate();
        let ghost c = candidate@;
        // Every three bytes starting with 0xDC are structurally a valid SD4;
        // there's no FCS or end delimiter to check.
        let t = Telegram::new_sd4(candidate[1], candidate[2]);
        proof {
            assert(sd4_frame(c[1], c[2]) =~= c);
            lemma_single_frame(c);
        }
        let out = vec![t];
        proof {
            assert(telegram_views(out@) =~= seq![(FrameType::SD4, c)]);
        }
        out
    }

    // Checks the SD2 header as soon as the bytes it covers have arrived, so an
    // impossible header fails immediately instead of waiting for LE + 6 bytes.
    fn advance_sd2_candidate(&mut self) -> (out: Vec<Telegram>)
        requires
            old(self)@.len() >= 2,
            old(self)@[0] == SD2_START_DELIMITER,
            candidate_status(old(self)@.drop_last()) is Incomplete,
            old(self).state == ParserState::ReadingSd2,
        ensures
            final(self).wf(),
            telegram_views(out@) == parse_stream(old(self)@).0,
            final(self)@ == parse_stream(old(self)@).1,
        decreases old(self)@.len(), 3int,
    {
        let len = self.buffer.len();
        let ghost c = self.buffer@;
        proof {
            let d = c.drop_last();
            assert(d[0] == c[0]);
            if d.len() >= 2 {
                assert(d[1] == c[1]);
            }
            if d.len() >= 3 {
                assert(d[2] == c[2]);
            }
            if d.len() >= 4 {
                assert(d[3] == c[3]);
            }
        }

        let header_is_bad = if len == 3 {
            !Self::sd2_le_is_valid(self.buffer[1], self.buffer[2])
        } else if len == 4 {
            self.buffer[3] != SD2_START_DELIMITER
        } else {
            false
        };

        if header_is_bad {
            let candidate = self.take_candidate();
            return self.recover_from(candidate.as_slice());
        }
        // Past this point the header is valid, so LE is known to be in range.

        if len >= SD2_HEADER_LEN && len == self.buffer[1] as usize + SD2_FRAME_OVERHEAD {
            return self.finish_sd2_candidate();
        }
        proof {
            assert(candidate_status(c) is Incomplete);
            lemma_pending_parses_to_itself(c);
            assert(telegram_views(Seq::<Telegram>::empty()) =~= Seq::empty());
        }
        Vec::new()
    }

    fn finish_sd2_candidate(&mut self) -> (out: Vec<Telegram>)
        requires
            old(self)@.len() >= SD2_HEADER_LEN,
            old(self)@[0] == SD2_START_DELIMITER,
            sd2_le_valid(old(self)@[1], old(self)@[2]),
            old(self)@[3] == SD2_START_DELIMITER,
            old(self)@.len() == old(self)@[1] + SD2_FRAME_OVERHEAD,
        ensures
            final(self).wf(),
            telegram_views(out@) == parse_stream(old(self)@).0,
            final(self)@ == parse_stream(old(self)@).1,
        decreases old(self)@.len(), 2int,
    {
        let candidate = self.take_candidate();
        let ghost c = candidate@;
        proof {
            assert(c.take(c.len() as int) =~= c);
        }
        match Self::parse_sd2(candidate.as_slice()) {
            Some(t) => {
                proof {
                    lemma_single_frame(c);
                }
                let out = vec![t];
                proof {
                    assert(telegram_views(out@) =~= seq![(FrameType::SD2, c)]);
                }
                out
            },
            None => self.recover_from(candidate.as_slice()),
        }
    }

    fn validate_sd1(candidate: &[u8]) -> (r: bool)
        ensures
            r == valid_sd1(candidate@),
    {
        candidate.len() == SD1_FRAME_LEN && candidate[0] == SD1_START_DELIMITER && candidate[5]
            == END_DELIMITER && candidate[4] == calculate_fcs(slice_subrange(candidate, 1, 4))
    }

    fn sd2_le_is_valid(le: u8, le_repeated: u8) -> (r: bool)
        ensures
            r == sd2_le_valid(le, le_repeated),
    {
        le == le_repeated && SD2_MIN_LE <= le && le <= SD2_MAX_LE
    }

    fn validate_sd2(candidate: &[u8]) -> (r: bool)
        ensures
            r == valid_sd2(candidate@),
    {
        if candidate.len() < SD2_HEADER_LEN {
            return false;
        }
        let len = candidate.len();

        Self::sd2_le_is_valid(candidate[1], candidate[2]) && candidate[0] == SD2_START_DELIMITER
            && candidate[3] == SD2_START_DELIMITER && len == candidate[1] as usize
            + SD2_FRAME_OVERHEAD && candidate[len - 1] == END_DELIMITER && candidate[len - 2]
            == calculate_fcs(slice_subrange(candidate, 4, len - 2))
    }

    fn parse_sd2(candidate: &[u8]) -> (r: Option<Telegram>)
        ensures
            r is Some <==> valid_sd2(candidate@),
            r matches Some(t) ==> t@ == (FrameType::SD2, candidate@),
            forall|da: u8, sa: u8, fc: u8, data: Seq<u8>|
                sd2_data_len_ok(data.len()) && candidate@ == #[trigger] sd2_frame(da, sa, fc, data)
                    ==> r is Some,
    {
        proof {
            assert forall|da: u8, sa: u8, fc: u8, data: Seq<u8>|
                sd2_data_len_ok(data.len()) && candidate@ == #[trigger] sd2_frame(
                    da,
                    sa,
                    fc,
                    data,
                ) implies valid_sd2(candidate@) by {
                lemma_built_frames_are_frames(da, sa, fc, data);
            }
        }
        if !Self::validate_sd2(candidate) {
            return None;
        }
        let data_end = candidate.len() - 2;
        let data = slice_to_vec(slice_subrange(candidate, 7, data_end));
        let ghost c = candidate@;
        proof {
            assert(sd2_data_len_ok(data@.len()));
            assert(seq![c[4], c[5], c[6]] + data@ =~= c.subrange(4, c.len() - 2));
            assert(sd2_frame(c[4], c[5], c[6], data@) =~= c);
        }
        // A validated LE guarantees a data length new_sd2 accepts.
        Telegram::new_sd2(candidate[4], candidate[5], candidate[6], data).ok()
    }

    // Looks for the earliest plausible SD1/SD2/SD4 start after the first byte of
    // the failed candidate and replays everything from there through the normal
    // state machine, collecting every telegram that replay produces.
    //
    // Recovery always restarts from a later byte in the failed candidate, so
    // each nested candidate is shorter than the candidate that caused it.
    #[verifier::spinoff_prover]
    #[verifier::rlimit(40)]
    fn recover_from(&mut self, candidate: &[u8]) -> (out: Vec<Telegram>)
        requires
            old(self).wf(),
            old(self)@.len() == 0,
            candidate@.len() > 0,
        ensures
            final(self).wf(),
            telegram_views(out@) == parse_stream(candidate@.drop_first()).0,
            final(self)@ == parse_stream(candidate@.drop_first()).1,
            telegram_views(out@) == fed_outputs(candidate@.drop_first()),
            final(self)@ == fed_pending(candidate@.drop_first()),
        decreases candidate@.len(), 1int,
    {
        proof {
            lemma_feeding_is_parsing(candidate@.drop_first());
        }
        let ghost c = candidate@;
        let len = candidate.len();
        let mut offset: usize = 1;
        while offset < len && !Self::is_start_delimiter(candidate[offset])
            invariant
                1 <= offset <= len,
                len == c.len(),
                c == candidate@,
                forall|i: int| 1 <= i < offset ==> !is_start_byte(#[trigger] c[i]),
            decreases len - offset,
        {
            offset += 1;
        }
        proof {
            assert forall|i: int| 0 <= i < offset - 1 implies !is_start_byte(
                #[trigger] c.drop_first()[i],
            ) by {
                assert(c.drop_first()[i] == c[i + 1]);
            }
            lemma_skip_non_start(c.drop_first(), offset - 1);
            assert(c.drop_first().skip(offset - 1) =~= c.subrange(offset as int, len as int));
        }
        if offset == len {
            proof {
                assert(c.subrange(offset as int, len as int) =~= Seq::<u8>::empty());
                assert(telegram_views(Seq::<Telegram>::empty()) =~= Seq::empty());
            }
            return Vec::new();
        }

        let mut recovered: Vec<Telegram> = Vec::new();
        let mut i = offset;
        proof {
            assert(c.subrange(offset as int, offset as int) =~= Seq::<u8>::empty());
            assert(telegram_views(recovered@) =~= Seq::empty());
        }
        while i < len
            invariant
                offset <= i <= len,
                1 <= offset,
                len == c.len(),
                c == candidate@,
                self.wf(),
                self@ == parse_stream(c.subrange(offset as int, i as int)).1,
                telegram_views(recovered@) == parse_stream(c.subrange(offset as int, i as int)).0,
            decreases len - i,
        {
            proof {
                lemma_parse_stream_rest(c.subrange(offset as int, i as int));
            }
            let mut produced = self.push(candidate[i]);
            proof {
                let s = c.subrange(offset as int, i as int);
                lemma_parse_stream_push(s, c[i as int]);
                assert(s.push(c[i as int]) =~= c.subrange(offset as int, i + 1));
                lemma_views_append(recovered@, produced@);
            }
            recovered.append(&mut produced);
            i += 1;
        }
        proof {
            assert(c.subrange(offset as int, len as int) =~= c.subrange(offset as int, c.len() as int));
        }
        recovered
    }
}

// ---------------------------------------------------------------------------
// Laws of the checks and of recovery
// ---------------------------------------------------------------------------

/// A complete SD1 frame is exactly `10 DA SA FC FCS 16` with FCS equal to
/// DA + SA + FC wrapped to 8 bits.
pub proof fn lemma_valid_sd1_means(c: Seq<u8>)
    ensures
        valid_sd1(c) <==> (c.len() == 6 && c[0] == 0x10 && c[5] == 0x16 && c[4] as nat == (c[1]
            + c[2] + c[3]) % 256),
{
    if c.len() == 6 {
        assert(c.subrange(1, 4) =~= seq![c[1], c[2], c[3]]);
        lemma_fcs_three(c[1], c[2], c[3]);
    }
}

/// A complete SD2 frame is exactly `68 LE LE 68 DA SA FC DATA.. FCS 16` with
/// LE in 4..=249, the frame LE + 6 bytes long, and FCS equal to the FCS of
/// DA, SA, FC and all data bytes (the sum of them all, wrapped to 8 bits:
/// `lemma_fcs_is_wrapping_sum`).
pub proof fn lemma_valid_sd2_means(c: Seq<u8>)
    ensures
        valid_sd2(c) <==> (c.len() >= 10 && c[0] == 0x68 && c[1] == c[2] && 4 <= c[1] <= 249
            && c[3] == 0x68 && c.len() == c[1] + 6 && c[c.len() - 1] == 0x16 && c[c.len() - 2]
            == fcs(c.subrange(4, c.len() - 2))),
{
}

/// When a candidate fails, the search for a frame goes on at the very next
/// byte after its start delimiter: nothing else of it is skipped.
pub proof fn lemma_rejected_resumes_next_byte(s: Seq<u8>)
    requires
        s.len() > 0,
        is_start_byte(s[0]),
        candidate_status(s) is Rejected,
    ensures
        parse_stream(s) == parse_stream(s.drop_first()),
{
}

/// A well-formed frame right behind a start delimiter whose candidate fails
/// is still found: the stray delimiter costs nothing but itself. For example
/// `10 10 05 02 49 50 16` yields the SD1 frame `10 05 02 49 50 16`, and
/// `68 DC 05 02` yields the SD4 frame `DC 05 02`.
pub proof fn lemma_frame_after_rejected_start(d: u8, f: (FrameType, Seq<u8>), rest: Seq<u8>)
    requires
        is_frame(f),
        is_start_byte(d),
        candidate_status(seq![d] + f.1) is Rejected,
    ensures
        parse_stream(seq![d] + f.1 + rest) == (seq![f] + parse_stream(rest).0, parse_stream(
            rest,
        ).1),
{
    let c = seq![d] + f.1;
    lemma_status_stable(c, rest);
    assert((c + rest)[0] == d);
    assert((c + rest).drop_first() =~= f.1 + rest);
    lemma_frame_parses(f, rest);
}

/// The two examples of `lemma_frame_after_rejected_start` hold.
pub proof fn lemma_stray_delimiter_examples()
    ensures
        parse_stream(seq![0x10u8, 0x10, 0x05, 0x02, 0x49, 0x50, 0x16]).0 == seq![
            (FrameType::SD1, seq![0x10u8, 0x05, 0x02, 0x49, 0x50, 0x16]),
        ],
        parse_stream(seq![0x68u8, 0xDC, 0x05, 0x02]).0 == seq![
            (FrameType::SD4, seq![0xDCu8, 0x05, 0x02]),
        ],
{
    let f1 = (FrameType::SD1, seq![0x10u8, 0x05, 0x02, 0x49, 0x50, 0x16]);
    lemma_valid_sd1_means(f1.1);
    assert(is_frame(f1));
    let c1 = seq![0x10u8] + f1.1;
    assert(c1 =~= seq![0x10u8, 0x10, 0x05, 0x02, 0x49, 0x50, 0x16]);
    assert(c1.take(6) =~= seq![0x10u8, 0x10, 0x05, 0x02, 0x49, 0x50]);
    lemma_valid_sd1_means(c1.take(6));
    assert(candidate_status(c1) is Rejected);
    lemma_frame_after_rejected_start(0x10, f1, Seq::<u8>::empty());
    assert(c1 + Seq::<u8>::empty() =~= c1);
    lemma_parse_empty();
    assert(seq![f1] + Seq::<(FrameType, Seq<u8>)>::empty() =~= seq![f1]);

    let f4 = (FrameType::SD4, seq![0xDCu8, 0x05, 0x02]);
    let c4 = seq![0x68u8] + f4.1;
    assert(c4 =~= seq![0x68u8, 0xDC, 0x05, 0x02]);
    assert(candidate_status(c4) is Rejected);
    lemma_frame_after_rejected_start(0x68, f4, Seq::<u8>::empty());
    assert(c4 + Seq::<u8>::empty() =~= c4);
    assert(seq![f4] + Seq::<(FrameType, Seq<u8>)>::empty() =~= seq![f4]);
}

} // verus!
