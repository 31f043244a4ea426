//! Hex encoding and timestamps.

use vstd::prelude::*;

verus! {

/// The lowercase hex digit for `n < 16`.
pub open spec fn hex_digit(n: u8) -> char
    recommends
        n < 16,
{
    if n < 10 {
        ((n + 48) as u8) as char
    } else {
        ((n + 87) as u8) as char
    }
}

/// One byte in lowercase hex, without a leading zero: one digit below 16, two otherwise.
pub open spec fn byte_hex(b: u8) -> Seq<char> {
    if b < 16 {
        seq![hex_digit(b)]
    } else {
        seq![hex_digit(b / 16), hex_digit(b % 16)]
    }
}

/// The bytes one after another, each as `byte_hex` writes it.
pub open spec fn hex_text(bytes: Seq<u8>) -> Seq<char>
    decreases bytes.len(),
{
    if bytes.len() == 0 {
        Seq::empty()
    } else {
        hex_text(bytes.drop_last()) + byte_hex(bytes.last())
    }
}

/// Relies on `String::push`: the character is appended at the end.
#[verifier::external_body]
pub(crate) fn push_char(s: &mut String, c: char)
    ensures
        final(s)@ == old(s)@.push(c),
{
    s.push(c);
}

fn digit_char(n: u8) -> (c: char)
    requires
        n < 16,
    ensures
        c == hex_digit(n),
{
    if n < 10 {
        (n + 48) as char
    } else {
        (n + 87) as char
    }
}

/// Performs hex-related conversions.
pub struct Hex;

impl Hex {
    /// Writes each byte in lowercase hex, in order (a byte below 16 takes one digit).
    pub fn from_bytes(bytes: &[u8]) -> (s: String)
        ensures
            s@ == hex_text(bytes@),
    {
        let mut s = String::new();
        let mut i: usize = 0;
        while i < bytes.len()
            invariant
                i <= bytes@.len(),
                s@ == hex_text(bytes@.subrange(0, i as int)),
            decreases bytes@.len() - i,
        {
            let b = bytes[i];
            proof {
                let prefix = bytes@.subrange(0, i as int + 1);
                assert(prefix.drop_last() =~= bytes@.subrange(0, i as int));
                assert(prefix.last() == b);
            }
            if b >= 16 {
                push_char(&mut s, digit_char(b / 16));
            }
            push_char(&mut s, digit_char(b % 16));
            i = i + 1;
        }
        proof {
            assert(bytes@.subrange(0, bytes@.len() as int) =~= bytes@);
        }
        s
    }
}

/// A wall-clock instant as nanoseconds since the Unix epoch.
#[derive(Debug, Clone, Copy, PartialEq, Eq, Structural)]
pub struct Timestamp(pub u64);

impl Timestamp {
    pub fn new(nanos: u64) -> (t: Timestamp)
        ensures
            t.0 == nanos,
    {
        Timestamp(nanos)
    }

    /// The nanoseconds since the epoch that this instant stands for.
    pub fn nanos(&self) -> (n: u64)
        ensures
            n == self.0,
    {
        self.0
    }

    /// The current time, or `None` when the clock reads before the epoch or past
    /// what 64 bits of nanoseconds hold.
    pub fn current_nanos() -> Option<Timestamp> {
        let reading = match since_epoch(&clock_now()) {
            Some(d) => Some(duration_nanos(&d)),
            None => None,
        };
        Self::from_clock_reading(reading)
    }

    /// The instant for a clock reading in nanoseconds since the epoch (`None`: the
    /// clock read before the epoch), or `None` when it does not fit in 64 bits.
    pub fn from_clock_reading(reading: Option<u128>) -> (t: Option<Timestamp>)
        ensures
            t == (match reading {
                Some(n) => if n <= u64::MAX as u128 { Some(Timestamp(n as u64)) } else { None },
                None => None,
            }),
    {
        match reading {
            Some(n) => {
                if n <= u64::MAX as u128 {
                    Some(Timestamp(n as u64))
                } else {
                    None
                }
            },
            None => None,
        }
    }
}

#[verifier::external_type_specification]
#[verifier::external_body]
pub struct ExSystemTime(std::time::SystemTime);

/// Relies on `SystemTime::now`: the system clock's current reading.
#[verifier::external_body]
fn clock_now() -> std::time::SystemTime {
    std::time::SystemTime::now()
}

/// Relies on `SystemTime::duration_since`: the time elapsed since the Unix epoch, or
/// `None` when the reading is earlier.
#[verifier::external_body]
fn since_epoch(t: &std::time::SystemTime) -> Option<std::time::Duration> {
    t.duration_since(std::time::UNIX_EPOCH).ok()
}

/// Relies on `Duration::as_nanos`: the whole nanoseconds in the duration.
#[verifier::external_body]
fn duration_nanos(d: &std::time::Duration) -> u128 {
    d.as_nanos()
}

} // verus!
