use vstd::prelude::*;

verus! {

/// The sample of a clip heard at `time`: the clip plays from `begin` up to
/// (not including) `end`, starting `offset` samples into its audio; nothing
/// is heard before its first sample or past its last.
pub open spec fn clip_sample(time: int, begin: int, end: int, offset: int, n_samples: int) -> Option<int> {
    if begin <= time < end && 0 <= time - begin + offset < n_samples {
        Some(time - begin + offset)
    } else {
        None
    }
}

/// Which sample of a clip's audio plays at `time` (see `clip_sample`).
pub fn clip_sample_index(time: i64, begin: i64, end: i64, offset: i64, n_samples: usize) -> (res: Option<usize>)
    requires
        begin <= time < end ==> time - begin <= i64::MAX && i64::MIN <= time - begin + offset <= i64::MAX,
    ensures
        match clip_sample(time as int, begin as int, end as int, offset as int, n_samples as int) {
            Some(s) => res == Some(s as usize),
            None => res is None,
        },
{
    if time >= begin && time < end {
        let idx = time - begin + offset;
        if idx < 0 {
            return None;
        }
        if (idx as u64) >= (n_samples as u64) {
            return None;
        }
        Some(idx as usize)
    } else {
        None
    }
}

/// The playback position after a frame is drawn: it goes back to the start
/// when it is before the start or past the graphic's length in samples.
pub fn wrap_playback_time(time: i64, len_in_samples: i64) -> (res: i64)
    ensures
        res == (if time < 0 || time > len_in_samples {
            0
        } else {
            time
        }),
        0 <= res,
        res <= len_in_samples || res == 0,
{
    let mut time = time;
    if time < 0 {
        time = 0;
    }
    if time > len_in_samples {
        time = 0;
    }
    time
}

/// How many samples to generate next when exporting audio: up to 1024 at a
/// time, never past the end.
pub fn export_block_size(time: i64, len_in_samples: i64) -> (res: usize)
    requires
        0 <= time < len_in_samples,
    ensures
        res == (if len_in_samples - time < 1024 {
            len_in_samples - time
        } else {
            1024
        }),
        0 < res <= 1024,
{
    let left = len_in_samples - time;
    if left < 1024 {
        left as usize
    } else {
        1024
    }
}

/// While a clip keeps playing, each next sample of time plays the next
/// sample of its audio.
pub proof fn law_clip_plays_in_order(time: int, begin: int, end: int, offset: int, n_samples: int)
    requires
        clip_sample(time, begin, end, offset, n_samples) is Some,
        clip_sample(time + 1, begin, end, offset, n_samples) is Some,
    ensures
        clip_sample(time + 1, begin, end, offset, n_samples)->0 == clip_sample(time, begin, end, offset, n_samples)->0
            + 1,
{
}

} // verus!
