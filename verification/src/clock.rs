//! The clock reading: what becomes of the formatted local time.

use vstd::prelude::*;
use crate::status::ClockState;

verus! {

/// The length of a formatted reading, `YYYY-MM-DD hh:mm:ss AM`.
pub const CLOCK_LEN: usize = 22;

/// The reading shown when the local time cannot be had or formatted:
/// `1970-01-01 12:00:00 AM`.
pub open spec fn epoch_bytes() -> Seq<u8> {
    seq![
        '1' as u8, '9' as u8, '7' as u8, '0' as u8, '-' as u8, '0' as u8, '1' as u8, '-' as u8,
        '0' as u8, '1' as u8, ' ' as u8, '1' as u8, '2' as u8, ':' as u8, '0' as u8, '0' as u8,
        ':' as u8, '0' as u8, '0' as u8, ' ' as u8, 'A' as u8, 'M' as u8,
    ]
}

/// The clock reading for the result of formatting the local time into
/// `buf`: `localtime_ok` tells whether the local time was had, `written`
/// how many bytes the formatter reports. A reading of 0 or more than 22
/// bytes, or no local time, gives the epoch reading; otherwise the first
/// 22 bytes of `buf` count.
pub fn from_strftime(localtime_ok: bool, written: usize, buf: &[u8]) -> (res: ClockState)
    requires
        buf@.len() >= CLOCK_LEN,
    ensures
        res.wf(),
        !localtime_ok || written == 0 || written > CLOCK_LEN ==> res@ == (epoch_bytes(), 22u8),
        localtime_ok && 0 < written <= CLOCK_LEN ==> res@ == (buf@.take(22), 22u8),
{
    if !localtime_ok || written == 0 || written > CLOCK_LEN {
        let epoch: [u8; 22] = [
            '1' as u8, '9' as u8, '7' as u8, '0' as u8, '-' as u8, '0' as u8, '1' as u8, '-' as u8,
            '0' as u8, '1' as u8, ' ' as u8, '1' as u8, '2' as u8, ':' as u8, '0' as u8, '0' as u8,
            ':' as u8, '0' as u8, '0' as u8, ' ' as u8, 'A' as u8, 'M' as u8,
        ];
        assert(epoch@ =~= epoch_bytes());
        return ClockState::from_bytes(epoch, 22);
    }
    let mut out: [u8; 22] = [0u8; 22];
    let mut i: usize = 0;
    while i < CLOCK_LEN
        invariant
            i <= CLOCK_LEN,
            buf@.len() >= CLOCK_LEN,
            forall|j: int| 0 <= j < i ==> out@[j] == buf@[j],
        decreases CLOCK_LEN - i,
    {
        out[i] = buf[i];
        i = i + 1;
    }
    assert(out@ =~= buf@.take(22));
    ClockState::from_bytes(out, 22)
}

} // verus!
