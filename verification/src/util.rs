//! Shared constants and the wide-string conversion the host expects.
use vstd::prelude::*;

verus! {

/// Result of waiting for stream data: data is ready.
pub const WAIT_OBJECT_0: u32 = 0x0000_0000;

/// Result of waiting for stream data: the stream is gone.
pub const WAIT_ABANDONED: u32 = 0x0000_0080;

/// Result of waiting for stream data: nothing arrived in time.
pub const WAIT_TIMEOUT: u32 = 0x0000_0102;

/// Win32 `BOOL` true.
pub const TRUE: i32 = 1;

/// Win32 `BOOL` false.
pub const FALSE: i32 = 0;

/// The tuner's name.
pub const TUNER_NAME: &'static str = "BonDriver_Mirakurun";

/// Size of one transport stream read (188 * 256 bytes).
pub const TSDATASIZE: usize = 48128;

/// One more than the number of tuning spaces offered.
pub const SPACE_NUM: usize = 8;

/// How many received chunks the queue keeps at most.
pub const ASYNCBUFFSIZE: usize = (0x0020_0000 / TSDATASIZE) * 2;

/// Seconds to wait for the server after a wake-on-LAN packet.
pub const MAGICPACKET_WAIT_SECONDS: u64 = 20;

/// The UTF-16 code units of one character (a scalar value is at most
/// `0x10ffff`, so no unit is truncated).
pub open spec fn utf16_char(c: char) -> Seq<u16> {
    let v = c as u32;
    if v < 0x10000 {
        seq![v as u16]
    } else {
        let u = v - 0x10000;
        seq![(0xd800 + u / 0x400) as u16, (0xdc00 + u % 0x400) as u16]
    }
}

/// `str::encode_utf16`: the UTF-16 code units of a string.
pub open spec fn utf16(s: Seq<char>) -> Seq<u16>
    decreases s.len(),
{
    if s.len() == 0 {
        Seq::empty()
    } else {
        utf16(s.drop_last()) + utf16_char(s.last())
    }
}

/// Whether `c` is a Unicode scalar value (every `char` is one).
pub open spec fn is_scalar(c: char) -> bool {
    let v = c as u32;
    v <= 0x10ffff && !(0xd800 <= v <= 0xdfff)
}

/// The code points that UTF-16 code units stand for, read from the end: a
/// low surrogate after a high one is one code point, any other unit is
/// its own.
pub open spec fn utf16_code_points(u: Seq<u16>) -> Seq<u32>
    decreases u.len(),
{
    if u.len() == 0 {
        Seq::empty()
    } else if u.len() >= 2 && 0xdc00 <= u.last() <= 0xdfff && 0xd800 <= u[u.len() - 2] <= 0xdbff {
        utf16_code_points(u.subrange(0, u.len() - 2)).push(
            (0x10000 + (u[u.len() - 2] - 0xd800) * 0x400 + (u.last() - 0xdc00)) as u32,
        )
    } else {
        utf16_code_points(u.drop_last()).push(u.last() as u32)
    }
}

/// The UTF-16 form of a string reads back as the string: every character
/// of the Basic Multilingual Plane is one unit of its own value, and every
/// other one a surrogate pair that decodes to it.
pub proof fn lemma_utf16_reads_back(s: Seq<char>)
    requires
        forall|i: int| 0 <= i < s.len() ==> is_scalar(#[trigger] s[i]),
    ensures
        utf16_code_points(utf16(s)) == s.map_values(|c: char| c as u32),
    decreases s.len(),
{
    if s.len() > 0 {
        let p = s.drop_last();
        assert forall|i: int| 0 <= i < p.len() implies is_scalar(#[trigger] p[i]) by {
            assert(p[i] == s[i]);
        }
        lemma_utf16_reads_back(p);
        let c = s.last();
        assert(is_scalar(s[s.len() - 1]));
        let v = c as u32;
        let u = utf16(s);
        assert(u == utf16(p) + utf16_char(c));
        if v < 0x10000 {
            assert(utf16_char(c) == seq![v as u16]);
            assert(u.drop_last() =~= utf16(p));
            assert(u.last() == v as u16);
        } else {
            let w = v - 0x10000;
            assert(0 <= w / 0x400 <= 0x3ff);
            assert(w == (w / 0x400) * 0x400 + w % 0x400);
            assert(u.subrange(0, u.len() - 2) =~= utf16(p));
            assert(u[u.len() - 2] == (0xd800 + w / 0x400) as u16);
            assert(u.last() == (0xdc00 + w % 0x400) as u16);
        }
        assert(s.map_values(|c: char| c as u32) =~= p.map_values(|c: char| c as u32).push(v));
    }
}

/// The UTF-16 form of `s`, ending with a NUL unit, as wide-string
/// Windows APIs take it.
pub fn to_wide(s: &str) -> (r: Vec<u16>)
    ensures
        r@ == utf16(s@).push(0u16),
{
    let mut out: Vec<u16> = Vec::new();
    for c in it: s.chars()
        invariant
            it.seq() == s@,
            out@ == utf16(it.seq().take(it.index() as int)),
    {
        assert(it.seq().take(it.index() + 1).drop_last() =~= it.seq().take(it.index() as int));
        let v = #[verifier::truncate] (c as u32);
        if v < 0x10000 {
            out.push(v as u16);
        } else {
            let u = v - 0x10000;
            out.push(#[verifier::truncate] ((0xd800 + u / 0x400) as u16));
            out.push((0xdc00 + u % 0x400) as u16);
        }
        assert(out@ =~= utf16(it.seq().take(it.index() + 1)));
    }
    assert(s@.take(s@.len() as int) =~= s@);
    out.push(0);
    out
}

} // verus!
