//! The congestion simulation: a pure state-transition loop over the pair
//! (window size, threshold), one step per cycle.

use vstd::prelude::*;
use vstd::string::StrSliceExecFns;

verus! {

/// The congestion-control variant. The two differ only in the window value
/// assigned immediately after a loss: Reno snaps the window to the halved
/// threshold, Tahoe restarts it at 1.
#[derive(Debug, Clone, Copy, PartialEq, Eq, Structural)]
pub enum Algorithm {
    Reno,
    Tahoe,
}

/// The four characters of "reno", each in either ASCII case.
pub open spec fn names_reno(s: Seq<char>) -> bool {
    &&& s.len() == 4
    &&& (s[0] == 'r' || s[0] == 'R')
    &&& (s[1] == 'e' || s[1] == 'E')
    &&& (s[2] == 'n' || s[2] == 'N')
    &&& (s[3] == 'o' || s[3] == 'O')
}

impl Algorithm {
    /// True exactly on the Reno variant.
    pub fn is_reno(&self) -> (r: bool)
        ensures
            r == (*self is Reno),
    {
        matches!(self, Algorithm::Reno)
    }

    /// Parses an algorithm name: "reno" in any mix of ASCII case names Reno;
    /// every other string names Tahoe (the permissive default).
    pub fn from_name(s: &str) -> (r: Algorithm)
        ensures
            r == (if names_reno(s@) {
                Algorithm::Reno
            } else {
                Algorithm::Tahoe
            }),
    {
        if s.unicode_len() == 4 {
            let c0 = s.get_char(0);
            let c1 = s.get_char(1);
            let c2 = s.get_char(2);
            let c3 = s.get_char(3);
            if (c0 == 'r' || c0 == 'R') && (c1 == 'e' || c1 == 'E') && (c2 == 'n' || c2 == 'N')
                && (c3 == 'o' || c3 == 'O') {
                Algorithm::Reno
            } else {
                Algorithm::Tahoe
            }
        } else {
            Algorithm::Tahoe
        }
    }
}

impl From<String> for Algorithm {
    /// The same permissive parse, from an owned name.
    fn from(s: String) -> (r: Algorithm) {
        Algorithm::from_name(s.as_str())
    }
}

impl vstd::std_specs::convert::FromSpecImpl<String> for Algorithm {
    open spec fn obeys_from_spec() -> bool {
        true
    }

    open spec fn from_spec(s: String) -> Algorithm {
        if names_reno(s@) {
            Algorithm::Reno
        } else {
            Algorithm::Tahoe
        }
    }
}

/// Whether cycle `c` is declared lossy by the schedule: some entry of
/// `losses` equals `c`. Duplicate entries change nothing, and entries that
/// no cycle index reaches are simply never asked about.
pub open spec fn is_loss_cycle(losses: Seq<u16>, c: int) -> bool {
    exists|i: int| 0 <= i < losses.len() && losses[i] == c
}

/// One simulation step from the state (w, t). A lossy cycle halves the
/// threshold and resets the window: to the new threshold under Reno, to 1
/// under Tahoe. Otherwise a window below the threshold doubles but never
/// overshoots the threshold (slow start), and a window at or above it grows
/// by one and drags the threshold along with it (congestion avoidance).
/// Counter growth saturates at u16::MAX rather than wrapping.
pub open spec fn next_state(w: u16, t: u16, lossy: bool, reno: bool) -> (u16, u16) {
    if lossy {
        let th = t / 2;
        if reno {
            (th, th)
        } else {
            (1u16, th)
        }
    } else if w < t {
        (
            if 2 * (w as int) >= t as int {
                t
            } else {
                (2 * (w as int)) as u16
            },
            t,
        )
    } else {
        if w == u16::MAX {
            (u16::MAX, u16::MAX)
        } else {
            ((w + 1) as u16, (w + 1) as u16)
        }
    }
}

/// The state reached after `c` cycles from the initial state (w0, t0):
/// position 0 is the initial state itself, and each later position applies
/// one `next_state` step for the preceding cycle.
pub open spec fn state_at(w0: u16, t0: u16, losses: Seq<u16>, reno: bool, c: nat) -> (u16, u16)
    decreases c,
{
    if c == 0 {
        (w0, t0)
    } else {
        let prev = state_at(w0, t0, losses, reno, (c - 1) as nat);
        next_state(prev.0, prev.1, is_loss_cycle(losses, c - 1), reno)
    }
}

/// The window size after `c` cycles.
pub open spec fn window_at(w0: u16, t0: u16, losses: Seq<u16>, reno: bool, c: nat) -> u16 {
    state_at(w0, t0, losses, reno, c).0
}

/// The threshold after `c` cycles.
pub open spec fn threshold_at(w0: u16, t0: u16, losses: Seq<u16>, reno: bool, c: nat) -> u16 {
    state_at(w0, t0, losses, reno, c).1
}

/// The full window-size series: positions 0 through `cycles`.
pub open spec fn windows_of(w0: u16, t0: u16, cycles: nat, losses: Seq<u16>, reno: bool) -> Seq<
    u16,
> {
    Seq::new(cycles + 1, |i: int| window_at(w0, t0, losses, reno, i as nat))
}

/// The full threshold series: positions 0 through `cycles`.
pub open spec fn thresholds_of(w0: u16, t0: u16, cycles: nat, losses: Seq<u16>, reno: bool) -> Seq<
    u16,
> {
    Seq::new(cycles + 1, |i: int| threshold_at(w0, t0, losses, reno, i as nat))
}

/// Whether some entry of `losses` equals `cycle`.
pub fn has_loss(losses: &[u16], cycle: usize) -> (r: bool)
    ensures
        r == is_loss_cycle(losses@, cycle as int),
{
    let mut i: usize = 0;
    while i < losses.len()
        invariant
            i <= losses@.len(),
            forall|j: int| 0 <= j < i ==> losses@[j] != cycle,
        decreases losses@.len() - i,
    {
        if losses[i] as usize == cycle {
            assert(losses@[i as int] == cycle);
            return true;
        }
        i = i + 1;
    }
    false
}

/// Runs the simulation: starting from the given initial window size and
/// threshold, applies `cycles` steps of `next_state` and records every
/// state visited. Position 0 of both series holds the initial state and
/// position c + 1 the state after cycle c, so both have length
/// `cycles + 1`. The function accepts every input and never fails; window
/// growth saturates at u16::MAX instead of wrapping.
pub fn algorithm(
    initial_window_size: u16,
    initial_threshold: u16,
    cycles: usize,
    losses: &[u16],
    is_reno: bool,
) -> (r: (Vec<u16>, Vec<u16>))
    ensures
        r.0@ == windows_of(initial_window_size, initial_threshold, cycles as nat, losses@, is_reno),
        r.1@ == thresholds_of(
            initial_window_size,
            initial_threshold,
            cycles as nat,
            losses@,
            is_reno,
        ),
        r.0@.len() == cycles + 1,
        r.1@.len() == cycles + 1,
        r.0@[0] == initial_window_size,
        r.1@[0] == initial_threshold,
{
    let mut window_size: u16 = initial_window_size;
    let mut threshold: u16 = initial_threshold;

    let mut window_sizes: Vec<u16> = Vec::new();
    let mut thresholds: Vec<u16> = Vec::new();
    window_sizes.push(window_size);
    thresholds.push(threshold);

    let mut cycle: usize = 0;
    while cycle < cycles
        invariant
            cycle <= cycles,
            window_sizes@.len() == cycle + 1,
            thresholds@.len() == cycle + 1,
            window_size == window_at(
                initial_window_size,
                initial_threshold,
                losses@,
                is_reno,
                cycle as nat,
            ),
            threshold == threshold_at(
                initial_window_size,
                initial_threshold,
                losses@,
                is_reno,
                cycle as nat,
            ),
            forall|i: int|
                0 <= i <= cycle ==> window_sizes@[i] == window_at(
                    initial_window_size,
                    initial_threshold,
                    losses@,
                    is_reno,
                    i as nat,
                ),
            forall|i: int|
                0 <= i <= cycle ==> thresholds@[i] == threshold_at(
                    initial_window_size,
                    initial_threshold,
                    losses@,
                    is_reno,
                    i as nat,
                ),
        decreases cycles - cycle,
    {
        if has_loss(losses, cycle) {
            threshold = threshold / 2;
            if is_reno {
                window_size = threshold;
            } else {
                window_size = 1;
            }
        } else if window_size < threshold {
            window_size = if window_size <= u16::MAX / 2 {
                window_size * 2
            } else {
                u16::MAX
            };
            if window_size > threshold {
                window_size = threshold;
            }
        } else {
            if window_size < u16::MAX {
                window_size = window_size + 1;
            }
            threshold = window_size;
        }

        cycle = cycle + 1;
        window_sizes.push(window_size);
        thresholds.push(threshold);
    }

    proof {
        assert(window_sizes@ =~= windows_of(
            initial_window_size,
            initial_threshold,
            cycles as nat,
            losses@,
            is_reno,
        ));
        assert(thresholds@ =~= thresholds_of(
            initial_window_size,
            initial_threshold,
            cycles as nat,
            losses@,
            is_reno,
        ));
    }
    (window_sizes, thresholds)
}

/// On a lossy cycle the threshold halves (integer division), and the window
/// becomes the new threshold under Reno or 1 under Tahoe.
pub proof fn lemma_loss_cycle(w0: u16, t0: u16, cycles: nat, losses: Seq<u16>, reno: bool, c: nat)
    requires
        c < cycles,
        is_loss_cycle(losses, c as int),
    ensures
        ({
            let ws = windows_of(w0, t0, cycles, losses, reno);
            let ts = thresholds_of(w0, t0, cycles, losses, reno);
            &&& ts[c as int + 1] == ts[c as int] / 2
            &&& ws[c as int + 1] == (if reno {
                ts[c as int + 1]
            } else {
                1u16
            })
        }),
{
}

/// On a non-loss cycle whose window is below the threshold, the window
/// doubles but never past the threshold, which itself stays unchanged.
pub proof fn lemma_slow_start_cycle(
    w0: u16,
    t0: u16,
    cycles: nat,
    losses: Seq<u16>,
    reno: bool,
    c: nat,
)
    requires
        c < cycles,
        !is_loss_cycle(losses, c as int),
        window_at(w0, t0, losses, reno, c) < threshold_at(w0, t0, losses, reno, c),
    ensures
        ({
            let ws = windows_of(w0, t0, cycles, losses, reno);
            let ts = thresholds_of(w0, t0, cycles, losses, reno);
            &&& ws[c as int + 1] as int == (if 2 * (ws[c as int] as int) <= ts[c as int] as int {
                2 * (ws[c as int] as int)
            } else {
                ts[c as int] as int
            })
            &&& ts[c as int + 1] == ts[c as int]
        }),
{
}

/// On a non-loss cycle whose window is at or above the threshold (and below
/// the saturation bound), the window grows by one and the threshold becomes
/// that new window.
pub proof fn lemma_congestion_avoidance_cycle(
    w0: u16,
    t0: u16,
    cycles: nat,
    losses: Seq<u16>,
    reno: bool,
    c: nat,
)
    requires
        c < cycles,
        !is_loss_cycle(losses, c as int),
        window_at(w0, t0, losses, reno, c) >= threshold_at(w0, t0, losses, reno, c),
        window_at(w0, t0, losses, reno, c) < u16::MAX,
    ensures
        ({
            let ws = windows_of(w0, t0, cycles, losses, reno);
            let ts = thresholds_of(w0, t0, cycles, losses, reno);
            &&& ws[c as int + 1] as int == ws[c as int] as int + 1
            &&& ts[c as int + 1] == ws[c as int + 1]
        }),
{
}

/// The simulation is a pure function of its inputs: any two result pairs
/// that satisfy its contract on the same inputs are identical.
pub proof fn lemma_deterministic(
    w0: u16,
    t0: u16,
    cycles: nat,
    losses: Seq<u16>,
    reno: bool,
    ws1: Seq<u16>,
    ts1: Seq<u16>,
    ws2: Seq<u16>,
    ts2: Seq<u16>,
)
    requires
        ws1 == windows_of(w0, t0, cycles, losses, reno),
        ts1 == thresholds_of(w0, t0, cycles, losses, reno),
        ws2 == windows_of(w0, t0, cycles, losses, reno),
        ts2 == thresholds_of(w0, t0, cycles, losses, reno),
    ensures
        ws1 == ws2,
        ts1 == ts2,
{
}

proof fn lemma_state_same_losses(
    w0: u16,
    t0: u16,
    losses1: Seq<u16>,
    losses2: Seq<u16>,
    reno: bool,
    c: nat,
)
    requires
        forall|k: int| 0 <= k < c ==> is_loss_cycle(losses1, k) == is_loss_cycle(losses2, k),
    ensures
        state_at(w0, t0, losses1, reno, c) == state_at(w0, t0, losses2, reno, c),
    decreases c,
{
    if c > 0 {
        lemma_state_same_losses(w0, t0, losses1, losses2, reno, (c - 1) as nat);
    }
}

/// Two loss schedules that declare the same cycles below `cycles` lossy
/// yield identical series: entries at or beyond the cycle count are never
/// reached and never influence the output.
pub proof fn lemma_losses_agree_below_cycles(
    w0: u16,
    t0: u16,
    cycles: nat,
    losses1: Seq<u16>,
    losses2: Seq<u16>,
    reno: bool,
)
    requires
        forall|k: int| 0 <= k < cycles ==> is_loss_cycle(losses1, k) == is_loss_cycle(losses2, k),
    ensures
        windows_of(w0, t0, cycles, losses1, reno) == windows_of(w0, t0, cycles, losses2, reno),
        thresholds_of(w0, t0, cycles, losses1, reno) == thresholds_of(w0, t0, cycles, losses2, reno),
{
    assert forall|i: nat| i <= cycles implies #[trigger] state_at(w0, t0, losses1, reno, i)
        == state_at(w0, t0, losses2, reno, i) by {
        lemma_state_same_losses(w0, t0, losses1, losses2, reno, i);
    }
    assert(windows_of(w0, t0, cycles, losses1, reno) =~= windows_of(
        w0,
        t0,
        cycles,
        losses2,
        reno,
    ));
    assert(thresholds_of(w0, t0, cycles, losses1, reno) =~= thresholds_of(
        w0,
        t0,
        cycles,
        losses2,
        reno,
    ));
}

/// Appending one loss entry at or beyond the cycle count leaves both series
/// unchanged: such an entry is never reached.
pub proof fn lemma_unreachable_loss_entry(
    w0: u16,
    t0: u16,
    cycles: nat,
    losses: Seq<u16>,
    extra: u16,
    reno: bool,
)
    requires
        cycles <= extra,
    ensures
        windows_of(w0, t0, cycles, losses.push(extra), reno) == windows_of(
            w0,
            t0,
            cycles,
            losses,
            reno,
        ),
        thresholds_of(w0, t0, cycles, losses.push(extra), reno) == thresholds_of(
            w0,
            t0,
            cycles,
            losses,
            reno,
        ),
{
    assert forall|k: int|
        0 <= k < cycles implies is_loss_cycle(losses.push(extra), k) == is_loss_cycle(
        losses,
        k,
    ) by {
        if is_loss_cycle(losses.push(extra), k) {
            let i = choose|i: int|
                0 <= i < losses.push(extra).len() && losses.push(extra)[i] == k;
            if i < losses.len() {
                assert(losses[i] == k);
            } else {
                assert(losses.push(extra)[i] == extra);
            }
        }
        if is_loss_cycle(losses, k) {
            let i = choose|i: int| 0 <= i < losses.len() && losses[i] == k;
            assert(losses.push(extra)[i] == k);
        }
    }
    lemma_losses_agree_below_cycles(w0, t0, cycles, losses.push(extra), losses, reno);
}

} // verus!

