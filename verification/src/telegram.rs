use vstd::prelude::*;

verus! {

/// Start delimiter of a fixed-length frame without data (SD1).
pub const SD1_START_DELIMITER: u8 = 0x10;

/// Start delimiter of a variable-length frame with data (SD2).
pub const SD2_START_DELIMITER: u8 = 0x68;

/// Start delimiter of a token frame (SD4).
pub const SD4_START_DELIMITER: u8 = 0xDC;

/// End delimiter closing SD1 and SD2 frames.
pub const END_DELIMITER: u8 = 0x16;

/// Fewest data bytes an SD2 frame carries.
pub const SD2_MIN_DATA_LEN: usize = 1;

/// Most data bytes an SD2 frame carries.
pub const SD2_MAX_DATA_LEN: usize = 246;

/// LE counts DA, SA and FC besides the data bytes.
pub const SD2_LE_OVERHEAD: usize = 3;

/// The sum of all bytes, as a natural number.
pub open spec fn byte_sum(bytes: Seq<u8>) -> nat
    decreases bytes.len(),
{
    if bytes.len() == 0 {
        0
    } else {
        byte_sum(bytes.drop_last()) + bytes.last() as nat
    }
}

/// The frame check sequence of `bytes`: their sum modulo 256.
pub open spec fn fcs(bytes: Seq<u8>) -> u8 {
    (byte_sum(bytes) % 256) as u8
}

/// Calculates the FCS by summing all supplied bytes, wrapping the result to 8 bits.
pub fn calculate_fcs(bytes: &[u8]) -> (result: u8)
    ensures
        result == fcs(bytes@),
{
    let mut sum: u8 = 0;
    let mut i: usize = 0;
    while i < bytes.len()
        invariant
            i <= bytes@.len(),
            sum == fcs(bytes@.take(i as int)),
        decreases bytes@.len() - i,
    {
        proof {
            assert(bytes@.take(i + 1).drop_last() =~= bytes@.take(i as int));
        }
        sum = sum.wrapping_add(bytes[i]);
        i += 1;
    }
    proof {
        assert(bytes@.take(bytes@.len() as int) =~= bytes@);
    }
    sum
}


/// The kind of a PROFIBUS-DP telegram, named after its start delimiter.
#[derive(Debug, PartialEq, Eq, Copy, Clone, Structural)]
pub enum FrameType {
    SD1,
    SD2,
    SD4,
}

impl FrameType {
    /// The name of the frame type, as printed: `SD1`, `SD2` or `SD4`.
    pub fn to_string(&self) -> (s: String)
        ensures
            s@ == frame_type_text(*self),
    {
        match self {
            FrameType::SD1 => {
                proof {
                    reveal_strlit("SD1");
                }
                String::from_str("SD1")
            },
            FrameType::SD2 => {
                proof {
                    reveal_strlit("SD2");
                }
                String::from_str("SD2")
            },
            FrameType::SD4 => {
                proof {
                    reveal_strlit("SD4");
                }
                String::from_str("SD4")
            },
        }
    }
}

/// The name of a frame type.
pub open spec fn frame_type_text(t: FrameType) -> Seq<char> {
    match t {
        FrameType::SD1 => seq!['S', 'D', '1'],
        FrameType::SD2 => seq!['S', 'D', '2'],
        FrameType::SD4 => seq!['S', 'D', '4'],
    }
}

/// The upper-case hexadecimal digit of `n`, which is below 16.
pub open spec fn hex_digit(n: int) -> char {
    if n < 10 {
        (48 + n) as char
    } else {
        (55 + n) as char
    }
}

/// A byte as two upper-case hexadecimal digits and a space.
pub open spec fn byte_text(b: u8) -> Seq<char> {
    seq![hex_digit((b / 16) as int), hex_digit((b % 16) as int), ' ']
}

/// Each byte as two upper-case hexadecimal digits followed by a space.
pub open spec fn bytes_text(bytes: Seq<u8>) -> Seq<char>
    decreases bytes.len(),
{
    if bytes.len() == 0 {
        Seq::empty()
    } else {
        bytes_text(bytes.drop_last()) + byte_text(bytes.last())
    }
}

/// How a telegram is printed: its frame type, a colon, then its bytes in hex,
/// such as `SD4: DC 05 02 `.
pub open spec fn telegram_text(t: (FrameType, Seq<u8>)) -> Seq<char> {
    frame_type_text(t.0) + seq![':', ' '] + bytes_text(t.1)
}

/// Appends the upper-case hexadecimal digit of `n`.
fn push_hex_digit(text: &mut String, n: u8)
    requires
        n < 16,
    ensures
        final(text)@ == old(text)@.push(hex_digit(n as int)),
{
    let digits = "0123456789ABCDEF";
    proof {
        reveal_strlit("0123456789ABCDEF");
        assert(digits.is_ascii());
    }
    let digit = digits.substring_ascii(n as usize, n as usize + 1);
    proof {
        assert(digit@ =~= seq![hex_digit(n as int)]);
    }
    text.append(digit);
}

/// The bytes of an SD1 frame: `10 DA SA FC FCS 16`.
pub open spec fn sd1_frame(da: u8, sa: u8, fc: u8) -> Seq<u8> {
    seq![SD1_START_DELIMITER, da, sa, fc, fcs(seq![da, sa, fc]), END_DELIMITER]
}

/// The bytes of an SD2 frame: `68 LE LE 68 DA SA FC DATA.. FCS 16`.
pub open spec fn sd2_frame(da: u8, sa: u8, fc: u8, data: Seq<u8>) -> Seq<u8> {
    let le = (SD2_LE_OVERHEAD + data.len()) as u8;
    seq![SD2_START_DELIMITER, le, le, SD2_START_DELIMITER, da, sa, fc] + data + seq![
        fcs(seq![da, sa, fc] + data),
        END_DELIMITER,
    ]
}

/// The bytes of an SD4 (token) frame: `DC DA SA`.
pub open spec fn sd4_frame(da: u8, sa: u8) -> Seq<u8> {
    seq![SD4_START_DELIMITER, da, sa]
}

/// Whether an SD2 frame may carry `n` data bytes.
pub open spec fn sd2_data_len_ok(n: nat) -> bool {
    SD2_MIN_DATA_LEN <= n <= SD2_MAX_DATA_LEN
}

/// A telegram: its frame type and the bytes that go on the wire.
pub struct Telegram {
    frame_type: FrameType,
    bytes: Vec<u8>,
}

impl View for Telegram {
    type V = (FrameType, Seq<u8>);

    closed spec fn view(&self) -> (FrameType, Seq<u8>) {
        (self.frame_type, self.bytes@)
    }
}

/// The views of a list of telegrams.
pub open spec fn telegram_views(ts: Seq<Telegram>) -> Seq<(FrameType, Seq<u8>)> {
    ts.map_values(|t: Telegram| t@)
}

/// The bytes of a list of telegrams, one after the other.
pub open spec fn concat_frames(ts: Seq<(FrameType, Seq<u8>)>) -> Seq<u8>
    decreases ts.len(),
{
    if ts.len() == 0 {
        Seq::empty()
    } else {
        ts[0].1 + concat_frames(ts.drop_first())
    }
}

impl Telegram {
    pub fn new(frame_type: FrameType, bytes: Vec<u8>) -> (t: Self)
        ensures
            t@ == (frame_type, bytes@),
    {
        Self { frame_type, bytes }
    }

    /// The frame type this telegram was built as.
    pub fn frame_type(&self) -> (t: FrameType)
        ensures
            t == self@.0,
    {
        self.frame_type
    }

    pub fn bytes(&self) -> (b: &[u8])
        ensures
            b@ == self@.1,
    {
        self.bytes.as_slice()
    }

    /// The telegram as printed: its frame type, a colon, then its bytes in
    /// hex, such as `SD4: DC 05 02 `.
    pub fn to_string(&self) -> (s: String)
        ensures
            s@ == telegram_text(self@),
    {
        let mut text = self.frame_type.to_string();
        proof {
            reveal_strlit(": ");
        }
        text.append(": ");
        let ghost head = text@;
        let mut i: usize = 0;
        while i < self.bytes.len()
            invariant
                i <= self.bytes@.len(),
                text@ == head + bytes_text(self.bytes@.take(i as int)),
            decreases self.bytes@.len() - i,
        {
            let b = self.bytes[i];
            proof {
                assert(self.bytes@.take(i + 1).drop_last() =~= self.bytes@.take(i as int));
            }
            push_hex_digit(&mut text, b / 16);
            push_hex_digit(&mut text, b % 16);
            proof {
                reveal_strlit(" ");
            }
            text.append(" ");
            proof {
                assert(text@ =~= head + bytes_text(self.bytes@.take(i + 1)));
            }
            i += 1;
        }
        proof {
            assert(self.bytes@.take(self.bytes@.len() as int) =~= self.bytes@);
            assert(text@ =~= telegram_text(self@));
        }
        text
    }

    /// Builds an SD1 frame: `SD1 DA SA FC FCS ED`.
    pub fn new_sd1(da: u8, sa: u8, fc: u8) -> (t: Self)
        ensures
            t@ == (FrameType::SD1, sd1_frame(da, sa, fc)),
    {
        let header = [da, sa, fc];
        let fcs = calculate_fcs(&header);
        proof {
            assert(header@ =~= seq![da, sa, fc]);
        }
        let bytes = vec![SD1_START_DELIMITER, da, sa, fc, fcs, END_DELIMITER];
        proof {
            assert(bytes@ =~= sd1_frame(da, sa, fc));
        }
        Self::new(FrameType::SD1, bytes)
    }

    /// Builds an SD2 frame: `SD2 LE LEr SD2 DA SA FC DATA FCS ED`, or fails when
    /// `data` holds fewer than one or more than 246 bytes.
    pub fn new_sd2(da: u8, sa: u8, fc: u8, data: Vec<u8>) -> (r: Result<Self, String>)
        ensures
            r is Ok <==> sd2_data_len_ok(data@.len()),
            r matches Ok(t) ==> t@ == (FrameType::SD2, sd2_frame(da, sa, fc, data@)),
            data@.len() < SD2_MIN_DATA_LEN ==> (r matches Err(e) && e@
                == "SD2 requires at least one data byte."@),
            data@.len() > SD2_MAX_DATA_LEN ==> (r matches Err(e) && e@
                == "SD2 cannot contain more than 246 data bytes."@),
    {
        if data.len() < SD2_MIN_DATA_LEN {
            return Err(String::from_str("SD2 requires at least one data byte."));
        }
        if data.len() > SD2_MAX_DATA_LEN {
            return Err(String::from_str("SD2 cannot contain more than 246 data bytes."));
        }
        // LE covers DA + SA + FC + DATA.
        let le = (SD2_LE_OVERHEAD + data.len()) as u8;

        let mut covered = vec![da, sa, fc];
        let mut i: usize = 0;
        while i < data.len()
            invariant
                i <= data@.len(),
                covered@ =~= seq![da, sa, fc] + data@.take(i as int),
            decreases data@.len() - i,
        {
            covered.push(data[i]);
            i += 1;
        }
        proof {
            assert(data@.take(data@.len() as int) =~= data@);
        }
        let fcs = calculate_fcs(covered.as_slice());

        let mut bytes = vec![SD2_START_DELIMITER, le, le, SD2_START_DELIMITER, da, sa, fc];
        let ghost header = bytes@;
        let mut i: usize = 0;
        while i < data.len()
            invariant
                i <= data@.len(),
                bytes@ =~= header + data@.take(i as int),
            decreases data@.len() - i,
        {
            bytes.push(data[i]);
            i += 1;
        }
        bytes.push(fcs);
        bytes.push(END_DELIMITER);
        proof {
            assert(bytes@ =~= sd2_frame(da, sa, fc, data@));
        }
        Ok(Self::new(FrameType::SD2, bytes))
    }

    /// Builds an SD4 (token) frame: `SD4 DA SA`.
    pub fn new_sd4(da: u8, sa: u8) -> (t: Self)
        ensures
            t@ == (FrameType::SD4, sd4_frame(da, sa)),
    {
        let bytes = vec![SD4_START_DELIMITER, da, sa];
        proof {
            assert(bytes@ =~= sd4_frame(da, sa));
        }
        Self::new(FrameType::SD4, bytes)
    }
}

// ---------------------------------------------------------------------------
// Laws of the frame check sequence, the frame layouts and the text form
// ---------------------------------------------------------------------------

/// The byte sum of two runs of bytes is the sum of their byte sums.
proof fn lemma_byte_sum_append(a: Seq<u8>, b: Seq<u8>)
    ensures
        byte_sum(a + b) == byte_sum(a) + byte_sum(b),
    decreases b.len(),
{
    if b.len() == 0 {
        assert(a + b =~= a);
    } else {
        assert((a + b).drop_last() =~= a + b.drop_last());
        assert((a + b).last() == b.last());
        lemma_byte_sum_append(a, b.drop_last());
    }
}

/// The FCS of nothing is 0, of one byte is that byte, and of two runs of
/// bytes one after the other is the sum of their FCSs, modulo 256. These
/// three facts pin the FCS down as the sum of all bytes, wrapped to 8 bits.
pub proof fn lemma_fcs_is_wrapping_sum(a: Seq<u8>, b: Seq<u8>, x: u8)
    ensures
        fcs(Seq::<u8>::empty()) == 0,
        fcs(seq![x]) == x,
        fcs(a + b) as nat == (fcs(a) as nat + fcs(b) as nat) % 256,
{
    assert(seq![x].drop_last() =~= Seq::<u8>::empty());
    lemma_byte_sum_append(a, b);
    let sa = byte_sum(a);
    let sb = byte_sum(b);
    assert((sa + sb) % 256 == ((sa % 256) + (sb % 256)) % 256) by (nonlinear_arith);
}

/// The FCS of three bytes is their sum wrapped to 8 bits.
pub proof fn lemma_fcs_three(x: u8, y: u8, z: u8)
    ensures
        fcs(seq![x, y, z]) as nat == (x + y + z) % 256,
{
    let s = seq![x, y, z];
    assert(s.drop_last() =~= seq![x, y]);
    assert(seq![x, y].drop_last() =~= seq![x]);
    assert(seq![x].drop_last() =~= Seq::<u8>::empty());
    assert(byte_sum(Seq::<u8>::empty()) == 0);
    assert(byte_sum(seq![x]) == x);
    assert(byte_sum(seq![x, y]) == x + y);
    assert(byte_sum(s) == x + y + z);
}

/// An SD1 frame is `10 DA SA FC FCS 16`, where FCS is DA + SA + FC wrapped
/// to 8 bits.
pub proof fn lemma_sd1_frame_layout(da: u8, sa: u8, fc: u8)
    ensures
        sd1_frame(da, sa, fc).len() == 6,
        sd1_frame(da, sa, fc)[0] == 0x10,
        sd1_frame(da, sa, fc)[1] == da,
        sd1_frame(da, sa, fc)[2] == sa,
        sd1_frame(da, sa, fc)[3] == fc,
        sd1_frame(da, sa, fc)[4] as nat == (da + sa + fc) % 256,
        sd1_frame(da, sa, fc)[5] == 0x16,
{
    lemma_fcs_three(da, sa, fc);
}

/// An SD2 frame is `68 LE LE 68 DA SA FC DATA.. FCS 16`: LE counts DA, SA,
/// FC and the data, and FCS covers DA, SA, FC and every data byte: it is
/// DA + SA + FC plus the FCS of the data, wrapped to 8 bits.
pub proof fn lemma_sd2_frame_layout(da: u8, sa: u8, fc: u8, data: Seq<u8>)
    requires
        sd2_data_len_ok(data.len()),
    ensures
        sd2_frame(da, sa, fc, data).len() == data.len() + 9,
        sd2_frame(da, sa, fc, data)[0] == 0x68,
        sd2_frame(da, sa, fc, data)[1] as nat == data.len() + 3,
        sd2_frame(da, sa, fc, data)[2] as nat == data.len() + 3,
        sd2_frame(da, sa, fc, data)[3] == 0x68,
        sd2_frame(da, sa, fc, data)[4] == da,
        sd2_frame(da, sa, fc, data)[5] == sa,
        sd2_frame(da, sa, fc, data)[6] == fc,
        forall|i: int| 0 <= i < data.len() ==> sd2_frame(da, sa, fc, data)[7 + i] == data[i],
        sd2_frame(da, sa, fc, data)[data.len() + 7int] == fcs(seq![da, sa, fc] + data),
        sd2_frame(da, sa, fc, data)[data.len() + 7int] as nat == ((da + sa + fc) % 256 + fcs(data))
            % 256,
        sd2_frame(da, sa, fc, data)[data.len() + 8int] == 0x16,
{
    let f = sd2_frame(da, sa, fc, data);
    lemma_fcs_is_wrapping_sum(seq![da, sa, fc], data, 0);
    lemma_fcs_three(da, sa, fc);
    assert forall|i: int| 0 <= i < data.len() implies f[7 + i] == data[i] by {}
}

/// The sixteen hexadecimal digits, in order, as they are printed.
pub proof fn lemma_hex_digits(n: int)
    requires
        0 <= n < 16,
    ensures
        hex_digit(n) == "0123456789ABCDEF"@[n],
{
    reveal_strlit("0123456789ABCDEF");
}

/// A byte prints as its high digit, its low digit, and a space.
pub proof fn lemma_byte_text_digits(b: u8)
    ensures
        byte_text(b) == seq![
            "0123456789ABCDEF"@[(b / 16) as int],
            "0123456789ABCDEF"@[(b % 16) as int],
            ' ',
        ],
{
    lemma_hex_digits((b / 16) as int);
    lemma_hex_digits((b % 16) as int);
}

/// Different digit values print as different digits.
proof fn lemma_hex_digit_injective(n: int, m: int)
    requires
        0 <= n < 16,
        0 <= m < 16,
        hex_digit(n) == hex_digit(m),
    ensures
        n == m,
{
    lemma_hex_digits(n);
    lemma_hex_digits(m);
    reveal_strlit("0123456789ABCDEF");
}

/// Different bytes print as different text, so a printed byte can be read back.
pub proof fn lemma_byte_text_injective(b: u8, c: u8)
    requires
        byte_text(b) == byte_text(c),
    ensures
        b == c,
{
    assert(byte_text(b)[0] == byte_text(c)[0]);
    assert(byte_text(b)[1] == byte_text(c)[1]);
    lemma_hex_digit_injective((b / 16) as int, (c / 16) as int);
    lemma_hex_digit_injective((b % 16) as int, (c % 16) as int);
}

} // verus!
