use vstd::prelude::*;

verus! {

/// The largest of `shift` and the negations of `positions`: the smallest
/// shift no smaller than `shift` that keeps every position at zero or later.
pub open spec fn clamped_shift(shift: int, positions: Seq<int>) -> int
    decreases positions.len(),
{
    if positions.len() == 0 {
        shift
    } else {
        let rest = clamped_shift(shift, positions.drop_last());
        let last = -positions.last();
        if last > rest {
            last
        } else {
            rest
        }
    }
}

proof fn lemma_clamped_shift(shift: int, positions: Seq<int>)
    ensures
        clamped_shift(shift, positions) >= shift,
        forall|i: int| 0 <= i < positions.len() ==> clamped_shift(shift, positions) >= -positions[i],
        clamped_shift(shift, positions) == shift || exists|i: int|
            0 <= i < positions.len() && clamped_shift(shift, positions) == -positions[i],
    decreases positions.len(),
{
    if positions.len() > 0 {
        let rest = positions.drop_last();
        lemma_clamped_shift(shift, rest);
        assert forall|i: int| 0 <= i < positions.len() - 1 implies positions[i] == rest[i] by {}
        let r = clamped_shift(shift, rest);
        if r != shift {
            let w = choose|w: int| 0 <= w < rest.len() && r == -rest[w];
            assert(positions[w] == rest[w]);
        }
    }
}

/// The frame times as integers.
pub open spec fn times_of(times: Seq<i32>) -> Seq<int> {
    times.map_values(|t: i32| t as int)
}

/// The sound begins as integers.
pub open spec fn begins_of(begins: Seq<i64>) -> Seq<int> {
    begins.map_values(|t: i64| t as int)
}

/// How far a frame drag may move the selected frames: the number of frames
/// `shift` the drag asks for, raised so that no frame goes before time zero.
pub fn clamp_frame_shift(shift: i32, times: &Vec<i32>) -> (res: i32)
    requires
        forall|i: int| 0 <= i < times@.len() ==> #[trigger] times@[i] > i32::MIN,
    ensures
        res == clamped_shift(shift as int, times_of(times@)),
{
    let mut res = shift;
    let mut i: usize = 0;
    while i < times.len()
        invariant
            i <= times@.len(),
            forall|k: int| 0 <= k < times@.len() ==> #[trigger] times@[k] > i32::MIN,
            res == clamped_shift(shift as int, times_of(times@).subrange(0, i as int)),
        decreases times@.len() - i,
    {
        proof {
            assert(times_of(times@).subrange(0, i + 1).drop_last() =~= times_of(times@).subrange(0, i as int));
        }
        let neg = -times[i];
        if neg > res {
            res = neg;
        }
        i += 1;
    }
    proof {
        assert(times_of(times@).subrange(0, times@.len() as int) =~= times_of(times@));
    }
    res
}

/// How far a sound drag may move the selected sounds: the number of samples
/// `shift` the drag asks for, raised so that no sound begins before zero.
pub fn clamp_sound_shift(shift: i64, begins: &Vec<i64>) -> (res: i64)
    requires
        forall|i: int| 0 <= i < begins@.len() ==> #[trigger] begins@[i] > i64::MIN,
    ensures
        res == clamped_shift(shift as int, begins_of(begins@)),
{
    let mut res = shift;
    let mut i: usize = 0;
    while i < begins.len()
        invariant
            i <= begins@.len(),
            forall|k: int| 0 <= k < begins@.len() ==> #[trigger] begins@[k] > i64::MIN,
            res == clamped_shift(shift as int, begins_of(begins@).subrange(0, i as int)),
        decreases begins@.len() - i,
    {
        proof {
            assert(begins_of(begins@).subrange(0, i + 1).drop_last() =~= begins_of(begins@).subrange(0, i as int));
        }
        let neg = -begins[i];
        if neg > res {
            res = neg;
        }
        i += 1;
    }
    proof {
        assert(begins_of(begins@).subrange(0, begins@.len() as int) =~= begins_of(begins@));
    }
    res
}

/// After a clamped shift every shifted position is at zero or later, the
/// shift is never smaller than the one asked for, and it is exactly the one
/// asked for when that already keeps every position at zero or later.
pub proof fn law_clamped_shift_keeps_positions_nonnegative(shift: int, positions: Seq<int>)
    ensures
        clamped_shift(shift, positions) >= shift,
        forall|i: int|
            0 <= i < positions.len() ==> #[trigger] positions[i] + clamped_shift(shift, positions) >= 0,
        (forall|i: int| 0 <= i < positions.len() ==> positions[i] + shift >= 0) ==> clamped_shift(
            shift,
            positions,
        ) == shift,
{
    lemma_clamped_shift(shift, positions);
    if clamped_shift(shift, positions) != shift && (forall|i: int|
        0 <= i < positions.len() ==> positions[i] + shift >= 0) {
        let w = choose|w: int| 0 <= w < positions.len() && clamped_shift(shift, positions) == -positions[w];
        assert(positions[w] + shift >= 0);
    }
}

/// Frame `x` is moved before frame `y`: when shifting later (`shift > 0`) the
/// later frames go first, otherwise the earlier ones; equal times keep the
/// order in which the frames were given.
pub open spec fn moved_before(times: Seq<i32>, shift: i32, x: usize, y: usize) -> bool {
    if shift > 0 {
        times[x as int] > times[y as int] || (times[x as int] == times[y as int] && x < y)
    } else {
        times[x as int] < times[y as int] || (times[x as int] == times[y as int] && x < y)
    }
}

fn stays_ahead(t: i32, ti: i32, shift: i32) -> (r: bool)
    ensures
        r == (if shift > 0 {
            t >= ti
        } else {
            t <= ti
        }),
{
    if shift > 0 {
        t >= ti
    } else {
        t <= ti
    }
}

/// The order in which to move the selected frames, given their times, so
/// that none is set onto a time a frame not yet moved still holds.
pub fn frame_move_order(times: &Vec<i32>, shift: i32) -> (order: Vec<usize>)
    ensures
        order@.len() == times@.len(),
        order@.to_multiset() == Seq::new(times@.len(), |i: int| i as usize).to_multiset(),
        forall|i: int| 0 <= i < order@.len() ==> #[trigger] order@[i] < times@.len(),
        forall|i: int, j: int|
            0 <= i < j < order@.len() ==> moved_before(times@, shift, #[trigger] order@[i], #[trigger] order@[j]),
{
    let mut order: Vec<usize> = Vec::new();
    let mut i: usize = 0;
    proof {
        broadcast use vstd::seq_lib::group_to_multiset_ensures;
        assert(Seq::new(0, |k: int| k as usize) =~= Seq::<usize>::empty());
        assert(order@ =~= Seq::<usize>::empty());
    }
    while i < times.len()
        invariant
            i <= times@.len(),
            order@.len() == i,
            order@.to_multiset() == Seq::new(i as nat, |k: int| k as usize).to_multiset(),
            forall|t: int| 0 <= t < order@.len() ==> #[trigger] order@[t] < i,
            forall|t: int, u: int|
                0 <= t < u < order@.len() ==> moved_before(times@, shift, #[trigger] order@[t], #[trigger] order@[u]),
        decreases times@.len() - i,
    {
        let ti = times[i];
        let mut p: usize = 0;
        while p < order.len() && stays_ahead(times[order[p]], ti, shift)
            invariant
                p <= order@.len(),
                i < times@.len(),
                ti == times@[i as int],
                forall|t: int| 0 <= t < order@.len() ==> #[trigger] order@[t] < i,
                forall|t: int| 0 <= t < p ==> (if shift > 0 {
                    times@[#[trigger] order@[t] as int] >= ti
                } else {
                    times@[order@[t] as int] <= ti
                }),
            decreases order@.len() - p,
        {
            p += 1;
        }
        let ghost prev = order@;
        order.insert(p, i);
        proof {
            broadcast use vstd::seq_lib::group_to_multiset_ensures;
            let l = prev.subrange(0, p as int);
            let r = prev.subrange(p as int, prev.len() as int);
            assert(order@ =~= l.push(i) + r);
            assert(prev =~= l + r);
            vstd::seq_lib::lemma_multiset_commutative(l.push(i), r);
            vstd::seq_lib::lemma_multiset_commutative(l, r);
            assert(Seq::new((i + 1) as nat, |k: int| k as usize) =~= Seq::new(i as nat, |k: int| k as usize).push(i));
            assert(order@.to_multiset() =~= Seq::new((i + 1) as nat, |k: int| k as usize).to_multiset());
            assert forall|t: int, u: int| 0 <= t < u < order@.len() implies moved_before(
                times@,
                shift,
                #[trigger] order@[t],
                #[trigger] order@[u],
            ) by {
                if u < p {
                    assert(order@[t] == prev[t] && order@[u] == prev[u]);
                } else if u == p {
                    assert(order@[t] == prev[t]);
                } else if t < p {
                    assert(order@[t] == prev[t] && order@[u] == prev[u - 1]);
                } else if t == p {
                    assert(order@[u] == prev[u - 1]);
                    if u - 1 > p {
                        assert(moved_before(times@, shift, prev[p as int], prev[u - 1]));
                    }
                } else {
                    assert(order@[t] == prev[t - 1] && order@[u] == prev[u - 1]);
                }
            }
        }
        i += 1;
    }
    order
}

/// `moves` takes the frames in `order`, a stable order for moving them by
/// `shift`, each with its time moved by `shift`.
pub open spec fn move_plan(frames: Seq<(u64, i32)>, shift: i32, order: Seq<usize>, moves: Seq<(u64, i32)>) -> bool {
    &&& order.len() == frames.len()
    &&& moves.len() == frames.len()
    &&& order.to_multiset() == Seq::new(frames.len(), |i: int| i as usize).to_multiset()
    &&& forall|i: int, j: int|
        0 <= i < j < order.len() ==> moved_before(
            frames.map_values(|f: (u64, i32)| f.1),
            shift,
            #[trigger] order[i],
            #[trigger] order[j],
        )
    &&& forall|i: int|
        0 <= i < order.len() ==> #[trigger] moves[i] == (
            frames[order[i] as int].0,
            (frames[order[i] as int].1 + shift) as i32,
        )
}

/// The moves to make for a frame drag, in order: each selected frame (key,
/// time) with its time moved by `shift`, later frames first when shifting
/// later and earlier frames first otherwise. With a nonzero shift, no frame
/// is ever moved onto the old time of a frame that comes after it.
pub fn plan_frame_moves(frames: &Vec<(u64, i32)>, shift: i32) -> (moves: Vec<(u64, i32)>)
    requires
        forall|i: int|
            0 <= i < frames@.len() ==> i32::MIN <= #[trigger] frames@[i].1 + shift <= i32::MAX,
    ensures
        moves@.len() == frames@.len(),
        exists|order: Seq<usize>| #[trigger] move_plan(frames@, shift, order, moves@),
        shift != 0 ==> forall|i: int, j: int|
            0 <= i < j < moves@.len() ==> #[trigger] moves@[i].1 != #[trigger] moves@[j].1 - shift,
{
    let mut times: Vec<i32> = Vec::new();
    let mut i: usize = 0;
    while i < frames.len()
        invariant
            i <= frames@.len(),
            times@ == frames@.map_values(|f: (u64, i32)| f.1).subrange(0, i as int),
        decreases frames@.len() - i,
    {
        times.push(frames[i].1);
        proof {
            assert(frames@.map_values(|f: (u64, i32)| f.1).subrange(0, i + 1) =~= frames@.map_values(|f: (u64, i32)| f.1).subrange(0, i as int).push(frames@[i as int].1));
        }
        i += 1;
    }
    proof {
        assert(times@ =~= frames@.map_values(|f: (u64, i32)| f.1));
    }
    let order = frame_move_order(&times, shift);
    let mut moves: Vec<(u64, i32)> = Vec::new();
    let mut k: usize = 0;
    while k < order.len()
        invariant
            k <= order@.len(),
            order@.len() == frames@.len(),
            times@ == frames@.map_values(|f: (u64, i32)| f.1),
            order@.to_multiset() == Seq::new(times@.len(), |i: int| i as usize).to_multiset(),
            forall|t: int| 0 <= t < order@.len() ==> #[trigger] order@[t] < frames@.len(),
            forall|t: int|
                0 <= t < frames@.len() ==> i32::MIN <= #[trigger] frames@[t].1 + shift <= i32::MAX,
            moves@.len() == k,
            forall|t: int|
                0 <= t < k ==> #[trigger] moves@[t] == (
                    frames@[order@[t] as int].0,
                    (frames@[order@[t] as int].1 + shift) as i32,
                ),
        decreases order@.len() - k,
    {
        let f = frames[order[k]];
        moves.push((f.0, f.1 + shift));
        k += 1;
    }
    proof {
        assert(move_plan(frames@, shift, order@, moves@));
        assert forall|i: int, j: int| shift != 0 && 0 <= i < j < moves@.len() implies #[trigger] moves@[i].1
            != #[trigger] moves@[j].1 - shift by {
            assert(moved_before(times@, shift, order@[i], order@[j]));
        }
    }
    moves
}

} // verus!
