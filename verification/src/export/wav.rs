//! Samples as .wav files: their names and their frames.
use crate::formats::base::{Sample, SampleView};
use crate::formats::bytes::le16;
use crate::text::{
    alphanumeric, chars_of, decimal, push_decimal_padded, trim, trimmed, zero_padded,
};
use vstd::prelude::*;

verus! {

/// A character of a file name: letters, digits, `-`, `_` and spaces stay, others become `_`.
pub open spec fn safe_char(c: char) -> char {
    if alphanumeric(c) || c == '-' || c == '_' || c == ' ' {
        c
    } else {
        '_'
    }
}

/// A name made fit for a file name, or another where nothing is left of it.
pub open spec fn safe_or(name: Seq<char>, other: Seq<char>) -> Seq<char> {
    let safe = trimmed(name.map_values(|c: char| safe_char(c)));
    if safe.len() == 0 {
        other
    } else {
        safe
    }
}

/// A sample's name made fit for a file name.
pub open spec fn safe_name(name: Seq<char>) -> Seq<char> {
    safe_or(name, "sample"@)
}

pub(crate) fn make_safe(name: &str, other: &str) -> (r: String)
    ensures
        r@ == safe_or(name@, other@),
{
    let chars: Vec<char> = chars_of(name);
    let mut safe: String = String::new();
    let mut i: usize = 0;
    while i < chars.len()
        invariant
            i <= chars.len(),
            chars@ == name@,
            safe@ == chars@.take(i as int).map_values(|c: char| safe_char(c)),
        decreases chars.len() - i,
    {
        let c: char = chars[i];
        if c.is_alphanumeric() || c == '-' || c == '_' || c == ' ' {
            safe.push(c);
        } else {
            safe.push('_');
        }
        i += 1;
        assert(safe@ =~= chars@.take(i as int).map_values(|c: char| safe_char(c)));
    }
    assert(chars@.take(i as int) =~= name@);
    let trimmed_name: String = trim(safe.as_str());
    if trimmed_name.as_str().is_empty() {
        other.to_owned()
    } else {
        trimmed_name
    }
}

/// The name of a sample's .wav file.
pub open spec fn wav_filename(s: SampleView) -> Seq<char> {
    zero_padded(decimal(s.index as int), 2) + "_"@ + safe_name(s.name) + ".wav"@
}

/// The name of a sample's .wav file.
pub fn sample_wav_filename(sample: &Sample) -> (r: String)
    ensures
        r@ == wav_filename(sample@),
{
    let name: String = make_safe(sample.name.as_str(), "sample");
    let mut out: String = String::new();
    push_decimal_padded(&mut out, sample.index as u64, 2);
    assert(out@ =~= zero_padded(decimal(sample.index as int), 2));
    out.append("_");
    out.append(name.as_str());
    out.append(".wav");
    out
}

/// A 16-bit number with its sign.
pub open spec fn signed16(n: int) -> int {
    if n >= 0x8000 {
        n - 0x1_0000
    } else {
        n
    }
}

/// The frames of 16-bit little-endian PCM; an odd byte at the end is dropped.
pub open spec fn frames_of(pcm: Seq<u8>) -> Seq<i16> {
    Seq::new(pcm.len() / 2, |i: int| signed16(le16(pcm, 2 * i)) as i16)
}

/// The frames of a sample: mono, 16 bits.
pub fn sample_frames(sample: &Sample) -> (r: Vec<i16>)
    ensures
        r@ == frames_of(sample.pcm16@),
{
    let data: &[u8] = sample.pcm16.as_slice();
    let total: usize = data.len();
    let n: usize = total / 2;
    let mut out: Vec<i16> = Vec::new();
    let mut i: usize = 0;
    while i < n
        invariant
            i <= n,
            n == total / 2,
            total == data@.len(),
            data@ == sample.pcm16@,
            out@ == frames_of(data@).take(i as int),
        decreases n - i,
    {
        let raw: i32 = data[2 * i] as i32 + 256 * data[2 * i + 1] as i32;
        out.push(
            if raw >= 0x8000 {
                (raw - 0x1_0000) as i16
            } else {
                raw as i16
            },
        );
        i += 1;
        assert(out@ =~= frames_of(data@).take(i as int));
    }
    assert(out@ =~= frames_of(data@));
    out
}

} // verus!
