//! The volume as `wpctl get-volume` reports it.

use vstd::prelude::*;
use crate::status::VolumeState;
use crate::text::{contains, fields, occurs_in, trim, trimmed};

verus! {

/// The first reading that is there.
pub open spec fn first_reading(readings: Seq<Option<u16>>) -> Option<u16>
    decreases readings.len(),
{
    if readings.len() == 0 {
        None
    } else {
        match readings[0] {
            Some(p) => Some(p),
            None => first_reading(readings.drop_first()),
        }
    }
}

/// Reads the output of `wpctl get-volume`. `readings[i]` is the volume
/// percentage that the `i`-th whitespace-separated field of `stdout` reads as,
/// when it reads as a number. The volume is the first such reading, muted
/// when `stdout` holds `[MUTED]`; with none it fails with
/// ``missing volume in `<trimmed stdout>` ``.
pub fn parse(stdout: &str, readings: &Vec<Option<u16>>) -> (res: Result<VolumeState, String>)
    requires
        readings@.len() == fields(stdout@).len(),
    ensures
        match first_reading(readings@) {
            Some(p) => res matches Ok(v) && v@ == (p, true, occurs_in(stdout@, "[MUTED]"@)),
            None => res matches Err(m) && m@ == "missing volume in `"@ + trimmed(stdout@) + "`"@,
        },
{
    let muted = contains(stdout, "[MUTED]");
    let mut i: usize = 0;
    assert(readings@.skip(0) =~= readings@);
    while i < readings.len()
        invariant
            i <= readings.len(),
            muted == occurs_in(stdout@, "[MUTED]"@),
            first_reading(readings@) == first_reading(readings@.skip(i as int)),
        decreases readings.len() - i,
    {
        assert(readings@.skip(i as int).drop_first() =~= readings@.skip(i + 1));
        if let Some(p) = readings[i] {
            return Ok(VolumeState::new(p, muted));
        }
        i = i + 1;
    }
    assert(readings@.skip(i as int).len() == 0);
    let mut m = String::from_str("missing volume in `");
    let t = trim(stdout);
    m.append(t.as_str());
    m.append("`");
    Err(m)
}


/// The volume to show after one poll. `outcome` is `None` when the poll timed
/// out, else what reading `wpctl` gave; anything but a reading shows the
/// volume as unknown.
pub fn volume_after_poll(outcome: Option<Result<VolumeState, String>>) -> (res: VolumeState)
    ensures
        match outcome {
            Some(Ok(v)) => res == v,
            _ => res@ == (0u16, false, false),
        },
{
    match outcome {
        Some(Ok(v)) => v,
        _ => VolumeState::unknown(),
    }
}

} // verus!
