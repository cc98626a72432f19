//! Which frame of an animated emote is shown.
use vstd::prelude::*;

verus! {

/// How long one round through the frames takes.
pub open spec fn total_delay(delays: Seq<u32>) -> nat
    decreases delays.len(),
{
    if delays.len() == 0 {
        0
    } else {
        total_delay(delays.drop_last()) + delays.last() as nat
    }
}

/// When a frame begins, in milliseconds from the beginning of a round: after the delays of the frames
/// before it.
pub open spec fn starts_at(delays: Seq<u32>, i: int) -> nat {
    total_delay(delays.take(i))
}

/// A frame is shown at a time of a round: it has begun and not ended.
pub open spec fn shown_at(delays: Seq<u32>, t: int, i: int) -> bool {
    0 <= i < delays.len() && starts_at(delays, i) <= t < starts_at(delays, i) + delays[i]
}

/// The frame that is shown at a time of a round.
pub open spec fn frame_in_round(delays: Seq<u32>, t: int) -> int {
    choose|i: int| shown_at(delays, t, i)
}

/// The frame that is shown after `elapsed` milliseconds; the frames go round. Frames without a delay are
/// never shown, except for the first where there is nothing else.
pub open spec fn frame_at(delays: Seq<u32>, elapsed: nat) -> int {
    if delays.len() <= 1 || total_delay(delays) == 0 {
        0
    } else {
        frame_in_round(delays, (elapsed % total_delay(delays)) as int)
    }
}

/// A frame begins when the one before it ends.
proof fn lemma_next_start(delays: Seq<u32>, i: int)
    requires
        0 <= i < delays.len(),
    ensures
        starts_at(delays, i + 1) == starts_at(delays, i) + delays[i],
{
    assert(delays.take(i + 1).drop_last() =~= delays.take(i));
}

/// No frame begins before an earlier one.
proof fn lemma_starts_rise(delays: Seq<u32>, i: int, j: int)
    requires
        0 <= i <= j <= delays.len(),
    ensures
        starts_at(delays, i) <= starts_at(delays, j),
    decreases j - i,
{
    if i < j {
        lemma_starts_rise(delays, i, j - 1);
        lemma_next_start(delays, j - 1);
    }
}

/// Of two frames, the one that is shown later in a round is not the earlier one.
proof fn lemma_shown_in_order(delays: Seq<u32>, t: int, i: int, u: int, j: int)
    requires
        shown_at(delays, t, i),
        shown_at(delays, u, j),
        t <= u,
    ensures
        i <= j,
{
    if j < i {
        lemma_next_start(delays, j);
        lemma_starts_rise(delays, j + 1, i);
    }
}

/// At every time of a round a frame is shown.
proof fn lemma_some_frame(delays: Seq<u32>, t: int, n: int) -> (r: int)
    requires
        0 <= n <= delays.len(),
        0 <= t < starts_at(delays, n),
    ensures
        shown_at(delays, t, r),
    decreases n,
{
    if n == 0 {
        assert(delays.take(0) =~= Seq::<u32>::empty());
        0
    } else {
        lemma_next_start(delays, n - 1);
        if starts_at(delays, n - 1) <= t {
            n - 1
        } else {
            lemma_some_frame(delays, t, n - 1)
        }
    }
}

/// The frame after `elapsed` milliseconds is shown at that time of the round.
proof fn lemma_frame_shown(delays: Seq<u32>, elapsed: nat)
    requires
        delays.len() > 1,
        total_delay(delays) > 0,
    ensures
        shown_at(delays, (elapsed % total_delay(delays)) as int, frame_at(delays, elapsed)),
{
    let t = (elapsed % total_delay(delays)) as int;
    assert(delays.take(delays.len() as int) =~= delays);
    vstd::arithmetic::div_mod::lemma_mod_bound(elapsed as int, total_delay(delays) as int);
    let i = lemma_some_frame(delays, t, delays.len() as int);
    assert(shown_at(delays, t, i));
}

/// A round takes at most as long as all frames with the longest delay.
proof fn lemma_total_bound(delays: Seq<u32>)
    ensures
        total_delay(delays) <= delays.len() * u32::MAX,
    decreases delays.len(),
{
    if delays.len() > 0 {
        lemma_total_bound(delays.drop_last());
        assert(delays.len() * u32::MAX == (delays.len() - 1) * u32::MAX + u32::MAX) by (nonlinear_arith);
    }
}

/// The frame that is shown after `elapsed_ms` milliseconds, where each frame is shown as long as its
/// delay says.
#[must_use]
pub fn frame_index_at(delays: &[u32], elapsed_ms: u128) -> (r: usize)
    ensures
        r == frame_at(delays@, elapsed_ms as nat),
{
    let n: usize = delays.len();
    if n <= 1 {
        return 0;
    }
    let mut total: u128 = 0;
    let mut i: usize = 0;
    assert(delays@.take(0) =~= Seq::<u32>::empty());
    while i < n
        invariant
            n == delays@.len(),
            i <= n,
            total == total_delay(delays@.take(i as int)),
            total <= i * u32::MAX,
        decreases n - i,
    {
        proof {
            assert(delays@.take(i + 1).drop_last() =~= delays@.take(i as int));
            assert(delays@.take(i + 1).last() == delays@[i as int]);
            lemma_total_bound(delays@.take(i + 1));
            assert((i + 1) * u32::MAX <= 0x1_0000_0000_0000_0000_0000_0000) by (nonlinear_arith)
                requires
                    i < 0x1_0000_0000_0000_0000,
            ;
        }
        total = total + delays[i] as u128;
        i = i + 1;
    }
    assert(delays@.take(n as int) =~= delays@);
    if total == 0 {
        return 0;
    }
    let mut t: u128 = elapsed_ms % total;
    let ghost at = (elapsed_ms as nat % total_delay(delays@)) as int;
    let ghost shown = frame_at(delays@, elapsed_ms as nat);
    let mut k: usize = 0;
    proof {
        lemma_frame_shown(delays@, elapsed_ms as nat);
    }
    while k < n
        invariant
            n == delays@.len(),
            k <= n,
            t == at - starts_at(delays@, k as int),
            shown_at(delays@, at, shown),
            shown == frame_at(delays@, elapsed_ms as nat),
        decreases n - k,
    {
        let d: u128 = delays[k] as u128;
        proof {
            lemma_next_start(delays@, k as int);
        }
        if t < d {
            proof {
                assert(shown_at(delays@, at, k as int));
                lemma_shown_in_order(delays@, at, k as int, at, shown);
                lemma_shown_in_order(delays@, at, shown, at, k as int);
            }
            return k;
        }
        t = t - d;
        k = k + 1;
    }
    proof {
        lemma_next_start(delays@, shown);
        lemma_starts_rise(delays@, shown + 1, n as int);
    }
    0
}

/// The frame that is shown is one of the emote's.
pub proof fn frame_is_one_of_them(delays: Seq<u32>, elapsed: nat)
    requires
        delays.len() > 0,
    ensures
        0 <= frame_at(delays, elapsed) < delays.len(),
{
    if delays.len() > 1 && total_delay(delays) > 0 {
        lemma_frame_shown(delays, elapsed);
    }
}

/// Each frame is shown as long as its delay says: from when the delays of the frames before it are over
/// until its own is over, too.
pub proof fn frames_last_their_delays(delays: Seq<u32>, elapsed: nat, i: int)
    requires
        delays.len() > 1,
        0 <= i < delays.len(),
        starts_at(delays, i) <= elapsed % total_delay(delays) < starts_at(delays, i) + delays[i],
    ensures
        frame_at(delays, elapsed) == i,
{
    lemma_next_start(delays, i);
    lemma_starts_rise(delays, i + 1, delays.len() as int);
    assert(delays.take(delays.len() as int) =~= delays);
    lemma_frame_shown(delays, elapsed);
    let t = (elapsed % total_delay(delays)) as int;
    lemma_shown_in_order(delays, t, i, t, frame_at(delays, elapsed));
    lemma_shown_in_order(delays, t, frame_at(delays, elapsed), t, i);
}

/// Within a round the animation never steps back.
pub proof fn animation_never_steps_back(delays: Seq<u32>, earlier: nat, later: nat)
    requires
        earlier <= later,
        total_delay(delays) > 0,
        earlier / total_delay(delays) == later / total_delay(delays),
    ensures
        frame_at(delays, earlier) <= frame_at(delays, later),
{
    if delays.len() > 1 {
        let round = total_delay(delays) as int;
        lemma_frame_shown(delays, earlier);
        lemma_frame_shown(delays, later);
        vstd::arithmetic::div_mod::lemma_fundamental_div_mod(earlier as int, round);
        vstd::arithmetic::div_mod::lemma_fundamental_div_mod(later as int, round);
        lemma_shown_in_order(
            delays,
            (earlier % total_delay(delays)) as int,
            frame_at(delays, earlier),
            (later % total_delay(delays)) as int,
            frame_at(delays, later),
        );
    }
}

/// After a whole round the same frame is shown.
pub proof fn animation_goes_round(delays: Seq<u32>, elapsed: nat)
    ensures
        frame_at(delays, elapsed + total_delay(delays)) == frame_at(delays, elapsed),
{
    if total_delay(delays) > 0 {
        vstd::arithmetic::div_mod::lemma_mod_add_multiples_vanish(
            elapsed as int,
            total_delay(delays) as int,
        );
        assert((total_delay(delays) + elapsed) as int % total_delay(delays) as int == elapsed as int
            % total_delay(delays) as int);
    }
}

} // verus!
