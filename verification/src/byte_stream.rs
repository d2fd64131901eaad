use vstd::prelude::*;

use crate::telegram::{concat_frames, telegram_views, FrameType, Telegram};

verus! {

/// The bytes of a list of telegrams, handed out one at a time.
pub struct ByteStream {
    telegrams: Vec<Telegram>,
    telegram_index: usize,
    byte_index: usize,
}

/// The bytes of a list of frames split after its first `i` frames.
proof fn lemma_concat_split(v: Seq<(FrameType, Seq<u8>)>, i: int)
    requires
        0 <= i <= v.len(),
    ensures
        concat_frames(v) == concat_frames(v.take(i)) + concat_frames(v.skip(i)),
    decreases i,
{
    if i == 0 {
        assert(v.take(0) =~= Seq::<(FrameType, Seq<u8>)>::empty());
        assert(v.skip(0) =~= v);
        assert(Seq::<u8>::empty() + concat_frames(v) =~= concat_frames(v));
    } else {
        let w = v.drop_first();
        lemma_concat_split(w, i - 1);
        assert(v.take(i).drop_first() =~= w.take(i - 1));
        assert(v.take(i)[0] == v[0]);
        assert(w.skip(i - 1) =~= v.skip(i));
        assert(v[0].1 + (concat_frames(w.take(i - 1)) + concat_frames(w.skip(i - 1))) =~= (v[0].1
            + concat_frames(w.take(i - 1))) + concat_frames(w.skip(i - 1)));
    }
}

/// The bytes of the frames after the first `i`: frame `i`, then the rest.
proof fn lemma_concat_skip(v: Seq<(FrameType, Seq<u8>)>, i: int)
    requires
        0 <= i < v.len(),
    ensures
        concat_frames(v.skip(i)) == v[i].1 + concat_frames(v.skip(i + 1)),
{
    let w = v.skip(i);
    assert(w.drop_first() =~= v.skip(i + 1));
    assert(w[0] == v[i]);
}

impl View for ByteStream {
    /// All the bytes of the stream, and how many of them were handed out.
    type V = (Seq<u8>, nat);

    closed spec fn view(&self) -> (Seq<u8>, nat) {
        (self.all_bytes(), self.position())
    }
}

impl ByteStream {
    /// The bytes of all telegrams, one telegram after the other.
    closed spec fn all_bytes(&self) -> Seq<u8> {
        concat_frames(telegram_views(self.telegrams@))
    }

    /// How many bytes were handed out.
    closed spec fn position(&self) -> nat {
        (concat_frames(telegram_views(self.telegrams@).take(self.telegram_index as int)).len()
            + self.byte_index) as nat
    }

    /// The position lies inside the list of telegrams.
    pub closed spec fn wf(&self) -> bool {
        &&& self.telegram_index <= self.telegrams@.len()
        &&& self.telegram_index < self.telegrams@.len() ==> self.byte_index
            <= self.telegrams@[self.telegram_index as int]@.1.len()
        &&& self.telegram_index == self.telegrams@.len() ==> self.byte_index == 0
    }

    /// Telegrams not yet finished, the measure of `next`.
    pub closed spec fn telegrams_left(&self) -> nat {
        (self.telegrams@.len() - self.telegram_index) as nat
    }

    /// The bytes still to come are the bytes of the telegrams from the
    /// current one on, less those of the current one already handed out.
    proof fn lemma_remaining(&self)
        requires
            self.wf(),
        ensures
            self.position() <= self.all_bytes().len(),
            self.all_bytes().skip(self.position() as int) == concat_frames(
                telegram_views(self.telegrams@).skip(self.telegram_index as int),
            ).skip(self.byte_index as int),
    {
        let v = telegram_views(self.telegrams@);
        let i = self.telegram_index as int;
        lemma_concat_split(v, i);
        let head = concat_frames(v.take(i));
        let tail = concat_frames(v.skip(i));
        if i < v.len() {
            lemma_concat_skip(v, i);
            assert(v[i] == self.telegrams@[i]@);
        } else {
            assert(v.skip(i) =~= Seq::<(FrameType, Seq<u8>)>::empty());
        }
        assert((head + tail).skip(head.len() + self.byte_index) =~= tail.skip(
            self.byte_index as int,
        ));
    }

    pub fn new(telegrams: Vec<Telegram>) -> (s: Self)
        ensures
            s.wf(),
            s@ == (concat_frames(telegram_views(telegrams@)), 0nat),
    {
        let s = Self { telegrams, telegram_index: 0, byte_index: 0 };
        proof {
            assert(telegram_views(s.telegrams@).take(0) =~= Seq::<(FrameType, Seq<u8>)>::empty());
        }
        s
    }

    /// The next byte, or `None` once every telegram has been handed out: after
    /// `k` bytes, the next is byte `k` of all the telegrams' bytes.
    pub fn next(&mut self) -> (r: Option<u8>)
        requires
            old(self).wf(),
        ensures
            final(self).wf(),
            final(self)@.1 <= final(self)@.0.len(),
            old(self)@.1 >= old(self)@.0.len() ==> r is None && final(self)@ == old(self)@,
            old(self)@.1 < old(self)@.0.len() ==> r == Some(old(self)@.0[old(self)@.1 as int])
                && final(self)@ == (old(self)@.0, old(self)@.1 + 1),
        decreases old(self).telegrams_left(),
    {
        proof {
            self.lemma_remaining();
        }
        let ghost all = self.all_bytes();
        let ghost pos = self.position();
        let ghost v = telegram_views(self.telegrams@);
        if self.telegram_index >= self.telegrams.len() {
            proof {
                assert(v.take(self.telegram_index as int) =~= v);
            }
            return None;
        }
        let bytes = self.telegrams[self.telegram_index].bytes();
        proof {
            lemma_concat_skip(v, self.telegram_index as int);
            assert(v[self.telegram_index as int] == self.telegrams@[self.telegram_index as int]@);
        }

        if self.byte_index < bytes.len() {
            let byte = bytes[self.byte_index];
            proof {
                let i = self.telegram_index as int;
                let cur = v[i].1;
                let later = concat_frames(v.skip(i + 1));
                assert(cur == bytes@);
                assert((cur + later).skip(self.byte_index as int)[0] == cur[self.byte_index as int]);
                assert(all.skip(pos as int).len() > 0);
                assert(pos < all.len());
                assert(all.skip(pos as int)[0] == all[pos as int]);
            }
            self.byte_index += 1;
            Some(byte)
        } else {
            let ghost i = self.telegram_index as int;
            proof {
                lemma_concat_split(v.take(i + 1), i);
                assert(v.take(i + 1).take(i) =~= v.take(i));
                assert(v.take(i + 1).skip(i) =~= seq![v[i]]);
                assert(seq![v[i]].skip(1) =~= Seq::<(FrameType, Seq<u8>)>::empty());
                assert(concat_frames(seq![v[i]]) =~= v[i].1 + concat_frames(
                    seq![v[i]].drop_first(),
                ));
                assert(seq![v[i]].drop_first() =~= Seq::<(FrameType, Seq<u8>)>::empty());
                assert(v[i].1 + Seq::<u8>::empty() =~= v[i].1);
            }
            self.byte_index = 0;
            self.telegram_index += 1;
            self.next()
        }
    }
}

/// Nanoseconds in the longest duration std can hold: `u64::MAX` seconds and
/// 999 999 999 nanoseconds.
pub const MAX_DURATION_NANOS: u128 = 18446744073709551615999999999;

/// Bits on the wire per PROFIBUS character: start, eight data, parity, stop.
pub const BITS_PER_CHARACTER: u128 = 11;

/// Nanoseconds per second.
pub const NANOS_PER_SECOND: u128 = 1000000000;

/// 2^52: a double's significand holds 53 bits, so it lies in [2^52, 2^53)
/// once scaled by a power of two.
pub const DOUBLE_SIGNIFICAND_MIN: u128 = 4503599627370496;

/// `n / d` rounded to the nearest integer, ties to even.
pub open spec fn round_half_even(n: nat, d: nat) -> nat
    recommends
        d > 0,
{
    let q = n / d;
    let r = n % d;
    if 2 * r > d || (2 * r == d && q % 2 == 1) {
        q + 1
    } else {
        q
    }
}

/// Doubles `den` until `11 * den / baud_rate` reaches 2^52: then the double
/// nearest to `11 / baud_rate` is a 53-bit integer over `den`.
pub open spec fn double_scale(baud_rate: nat, den: nat) -> nat
    decreases (if BITS_PER_CHARACTER * den < DOUBLE_SIGNIFICAND_MIN * baud_rate {
        DOUBLE_SIGNIFICAND_MIN * baud_rate - BITS_PER_CHARACTER * den
    } else {
        0
    }),
{
    if den == 0 || BITS_PER_CHARACTER * den >= DOUBLE_SIGNIFICAND_MIN * baud_rate {
        den
    } else {
        double_scale(baud_rate, 2 * den)
    }
}

/// The time one character takes at `baud_rate` bits per second, in
/// nanoseconds: 11 bit times, taken as the double nearest to `11 / baud_rate`
/// seconds (ties to even), then rounded to the nearest nanosecond (ties to
/// even). This is what `Duration::from_secs_f64(11.0 / baud_rate as f64)`
/// gives, computed exactly with integers.
pub open spec fn character_time_nanos(baud_rate: nat) -> nat {
    let den = double_scale(baud_rate, 1);
    let significand = round_half_even((BITS_PER_CHARACTER * den) as nat, baud_rate);
    round_half_even((NANOS_PER_SECOND * significand) as nat, den)
}

/// `n / d` rounded to the nearest integer, ties to even.
fn div_round_half_even(n: u128, d: u128) -> (r: u128)
    requires
        0 < d < 0x8000_0000_0000_0000_0000_0000_0000_0000,
        n < 0xffff_ffff_ffff_ffff_ffff_ffff_ffff_ffff,
    ensures
        r == round_half_even(n as nat, d as nat),
{
    let q = n / d;
    let r = n % d;
    proof {
        assert(q <= n) by (nonlinear_arith)
            requires
                q == n / d,
                d > 0,
        ;
    }
    if 2 * r > d || (2 * r == d && q % 2 == 1) {
        q + 1
    } else {
        q
    }
}

/// Where the doubling of `double_scale` stops.
proof fn lemma_double_scale(baud_rate: nat, den: nat)
    requires
        baud_rate > 0,
        den > 0,
        BITS_PER_CHARACTER * den < 2 * DOUBLE_SIGNIFICAND_MIN * baud_rate,
    ensures
        double_scale(baud_rate, den) > 0,
        BITS_PER_CHARACTER * double_scale(baud_rate, den) >= DOUBLE_SIGNIFICAND_MIN * baud_rate,
        BITS_PER_CHARACTER * double_scale(baud_rate, den) < 2 * DOUBLE_SIGNIFICAND_MIN
            * baud_rate,
    decreases (if BITS_PER_CHARACTER * den < DOUBLE_SIGNIFICAND_MIN * baud_rate {
        DOUBLE_SIGNIFICAND_MIN * baud_rate - BITS_PER_CHARACTER * den
    } else {
        0
    }),
{
    if BITS_PER_CHARACTER * den < DOUBLE_SIGNIFICAND_MIN * baud_rate {
        assert(BITS_PER_CHARACTER * (2 * den) < 2 * DOUBLE_SIGNIFICAND_MIN * baud_rate)
            by (nonlinear_arith)
            requires
                11 * den < 4503599627370496 * baud_rate,
        ;
        lemma_double_scale(baud_rate, 2 * den);
    }
}

/// A character always takes some time: at every baud rate that a `u32` can
/// hold, the character time is at least one nanosecond.
pub proof fn lemma_character_time_positive(baud_rate: u32)
    requires
        baud_rate > 0,
    ensures
        character_time_nanos(baud_rate as nat) >= 1,
{
    let b = baud_rate as nat;
    lemma_double_scale(b, 1);
    let den = double_scale(b, 1);
    let m = round_half_even((BITS_PER_CHARACTER * den) as nat, b);
    assert(m >= DOUBLE_SIGNIFICAND_MIN) by (nonlinear_arith)
        requires
            b > 0,
            11 * den >= 4503599627370496 * b,
            m >= (11 * den) / b,
    ;
    assert(NANOS_PER_SECOND * m >= den) by (nonlinear_arith)
        requires
            b > 0,
            b <= 0xffff_ffff,
            11 * den < 2 * 4503599627370496 * b,
            m >= 4503599627370496,
    ;
    assert((NANOS_PER_SECOND * m) / (den as int) >= 1) by (nonlinear_arith)
        requires
            den > 0,
            NANOS_PER_SECOND * m >= den,
    ;
}

/// A byte with the time at which it starts on the wire, in nanoseconds
/// after the first byte of the stream.
#[derive(Debug, PartialEq, Eq, Clone, Copy)]
pub struct TimedByte {
    pub byte: u8,
    pub timestamp: u128,
}

/// A byte stream with timestamps, as sent at a fixed baud rate with no gaps.
pub struct TimedByteStream {
    byte_stream: ByteStream,
    character_time: u128,
    elapsed_time: u128,
    start: Ghost<nat>,
}

impl View for TimedByteStream {
    /// All the bytes of the underlying byte stream, how many of them it has
    /// handed out, the character time, and how many it had handed out when the
    /// clock started.
    type V = (Seq<u8>, nat, nat, nat);

    closed spec fn view(&self) -> (Seq<u8>, nat, nat, nat) {
        (self.byte_stream@.0, self.byte_stream@.1, self.character_time as nat, self.start@)
    }
}

impl TimedByteStream {
    /// The clock stands at one character time per byte sent, and a character
    /// takes some time.
    pub closed spec fn wf(&self) -> bool {
        &&& self.byte_stream.wf()
        &&& self.byte_stream@.1 <= self.byte_stream@.0.len()
        &&& self.character_time > 0
        &&& self.start@ <= self.byte_stream@.1
        &&& self.elapsed_time == (self.byte_stream@.1 - self.start@) * self.character_time
    }

    pub fn new(byte_stream: ByteStream, baud_rate: u32) -> (r: Result<Self, String>)
        requires
            byte_stream.wf(),
        ensures
            r is Err <==> baud_rate == 0,
            r matches Err(e) ==> e@ == "Baud rate must be greater than zero."@,
            r matches Ok(s) ==> s.wf() && s@ == (
                byte_stream@.0,
                byte_stream@.1,
                character_time_nanos(baud_rate as nat),
                byte_stream@.1,
            ),
            r matches Ok(s) ==> s@.2 > 0,
    {
        if baud_rate == 0 {
            return Err(String::from_str("Baud rate must be greater than zero."));
        }
        let baud = baud_rate as u128;
        let target = DOUBLE_SIGNIFICAND_MIN * baud;
        let mut den: u128 = 1;
        while BITS_PER_CHARACTER * den < target
            invariant
                baud == baud_rate as u128,
                1 <= baud <= 0xffff_ffff,
                target == DOUBLE_SIGNIFICAND_MIN * baud,
                den >= 1,
                BITS_PER_CHARACTER * den < 2 * target,
                double_scale(baud as nat, den as nat) == double_scale(baud as nat, 1),
            decreases (if BITS_PER_CHARACTER * den < target {
                target - BITS_PER_CHARACTER * den
            } else {
                0
            }),
        {
            assert(BITS_PER_CHARACTER * (2 * den) == 2 * (BITS_PER_CHARACTER * den));
            den = den * 2;
        }
        proof {
            assert(double_scale(baud as nat, den as nat) == den);
            lemma_double_scale(baud as nat, 1);
            lemma_character_time_positive(baud_rate);
            assert(den * 11 < 2 * 4503599627370496 * 0x1_0000_0000);
        }
        let significand = div_round_half_even(BITS_PER_CHARACTER * den, baud);
        proof {
            assert(significand <= 2 * 4503599627370496) by (nonlinear_arith)
                requires
                    baud > 0,
                    11 * den < 2 * 4503599627370496 * baud,
                    significand <= (11 * den as int) / (baud as int) + 1,
            ;
        }
        let character_time = div_round_half_even(NANOS_PER_SECOND * significand, den);
        proof {
            assert(character_time == character_time_nanos(baud_rate as nat));
        }
        // The byte stream starts at its first byte: nothing was sent yet.
        proof {
            byte_stream.lemma_remaining();
        }
        let ghost start = byte_stream@.1;
        let stream = Self { byte_stream, character_time, elapsed_time: 0, start: Ghost(start) };
        proof {
            assert(stream.byte_stream@.1 <= stream.byte_stream@.0.len());
            assert(character_time > 0);
            assert(stream.byte_stream@.1 - stream.start@ == 0);
            assert(0 * stream.character_time == 0);
        }
        Ok(stream)
    }

    /// The time one character takes on the wire, in nanoseconds.
    pub fn character_time(&self) -> (t: u128)
        ensures
            t == self@.2,
    {
        self.character_time
    }

    /// The next byte of the underlying stream with its timestamp: the `k`-th
    /// byte sent (counting from zero) is stamped `k` character times after the
    /// first.
    pub fn next(&mut self) -> (r: Option<TimedByte>)
        requires
            old(self).wf(),
            old(self)@.1 < old(self)@.0.len() ==> (old(self)@.1 - old(self)@.3 + 1) * old(
                self,
            )@.2 <= MAX_DURATION_NANOS,
        ensures
            final(self).wf(),
            old(self)@.1 >= old(self)@.0.len() ==> r is None && final(self)@ == old(self)@,
            old(self)@.1 < old(self)@.0.len() ==> r == Some(
                TimedByte {
                    byte: old(self)@.0[old(self)@.1 as int],
                    timestamp: ((old(self)@.1 - old(self)@.3) * old(self)@.2) as u128,
                },
            ) && final(self)@ == (old(self)@.0, old(self)@.1 + 1, old(self)@.2, old(self)@.3),
    {
        let ghost sent = (self.byte_stream@.1 - self.start@) as nat;
        let byte = match self.byte_stream.next() {
            Some(b) => b,
            None => return None,
        };
        let timed_byte = TimedByte { byte, timestamp: self.elapsed_time };
        proof {
            assert((sent + 1) * self.character_time == sent * self.character_time
                + self.character_time) by (nonlinear_arith);
        }
        self.elapsed_time = self.elapsed_time + self.character_time;
        Some(timed_byte)
    }
}

} // verus!
