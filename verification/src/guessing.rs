//! The number-guessing game: a player thinks of a number and answers
//! whether each guess is too high, right, or too low; a strategy finds the
//! number by bisection.
use vstd::prelude::*;

verus! {

/// The player who holds the secret number and keeps the guesses asked.
pub struct Player {
    secret: u32,
    asked: Vec<u32>,
}

impl Player {
    pub closed spec fn secret_number(&self) -> u32 {
        self.secret
    }

    /// The guesses asked so far, in order.
    pub closed spec fn questions(&self) -> Seq<int> {
        self.asked@.map_values(|g: u32| g as int)
    }

    /// A player holding `secret`, asked nothing yet.
    pub fn new(secret: u32) -> (p: Player)
        ensures
            p.secret_number() == secret,
            p.questions() == Seq::<int>::empty(),
    {
        let p = Player { secret, asked: Vec::new() };
        assert(p.questions() =~= Seq::<int>::empty());
        p
    }

    /// The number of questions asked so far.
    pub fn steps(&self) -> (n: usize)
        ensures
            n == self.questions().len(),
    {
        self.asked.len()
    }
}

/// The player's answer to a guess.
pub trait PlayerTrait {
    fn ask_to_compare(&mut self, guess: u32) -> i32;
}

impl PlayerTrait for Player {
    /// -1 when the secret is below `guess`, 0 when it is `guess`, 1 when it
    /// is above; the guess is recorded.
    fn ask_to_compare(&mut self, guess: u32) -> (r: i32)
        ensures
            final(self).secret_number() == old(self).secret_number(),
            final(self).questions() == old(self).questions().push(guess as int),
            r == if old(self).secret_number() < guess {
                -1
            } else if old(self).secret_number() == guess {
                0int
            } else {
                1
            },
    {
        self.asked.push(guess);
        assert(self.questions() =~= old(self).questions().push(guess as int));
        if self.secret < guess {
            -1
        } else if self.secret == guess {
            0
        } else {
            1
        }
    }
}

/// A way to find the player's number between `min` and `max`. The bisection
/// sums `min + max` must fit in `u32`.
pub trait Strategy {
    fn guess_the_number(player: &mut Player, min: u32, max: u32) -> (r: u32)
        requires
            search_fits(old(player).secret_number() as int, min as int, max as int),
    ;
}

/// Bisection.
pub struct Part2 {}

/// Whether bisection for `secret` from `lo..=hi` keeps every sum `lo + hi`
/// within `u32`.
pub open spec fn search_fits(secret: int, lo: int, hi: int) -> bool
    decreases hi - lo + 1,
{
    if lo > hi || hi - lo + 1 < 0 {
        true
    } else {
        let g = (lo + hi) / 2;
        &&& lo + hi <= u32::MAX
        &&& if secret < g {
            search_fits(secret, lo, g - 1)
        } else if secret == g {
            true
        } else {
            search_fits(secret, g + 1, hi)
        }
    }
}

/// The guesses that bisection for `secret` asks on `lo..=hi`: the middle,
/// then the guesses on the half where the answer sends it, until it hits the
/// secret or the range is empty.
pub open spec fn probes(secret: int, lo: int, hi: int) -> Seq<int>
    decreases hi - lo + 1,
{
    if lo > hi {
        Seq::empty()
    } else {
        let g = (lo + hi) / 2;
        if secret < g {
            seq![g] + probes(secret, lo, g - 1)
        } else if secret == g {
            seq![g]
        } else {
            seq![g] + probes(secret, g + 1, hi)
        }
    }
}

/// The largest `k` with `2^k <= s`, for `s >= 1`.
pub open spec fn log2_floor(s: int) -> int
    decreases s,
{
    if s <= 1 {
        0
    } else {
        1 + log2_floor(s / 2)
    }
}

pub proof fn lemma_log2_floor_monotonic(a: int, b: int)
    requires
        1 <= a <= b,
    ensures
        0 <= log2_floor(a) <= log2_floor(b),
    decreases b,
{
    if a > 1 {
        lemma_log2_floor_monotonic(a / 2, b / 2);
    } else if b > 1 {
        lemma_log2_floor_monotonic(1, b / 2);
    }
}

/// Every guess of bisection lies in the range searched.
pub proof fn law_probes_within_range(secret: int, lo: int, hi: int)
    ensures
        forall|k: int| 0 <= k < probes(secret, lo, hi).len() ==> lo <= #[trigger] probes(secret, lo, hi)[k] <= hi,
    decreases hi - lo + 1,
{
    if lo <= hi {
        let g = (lo + hi) / 2;
        let ps = probes(secret, lo, hi);
        if secret != g {
            let (l, h) = if secret < g { (lo, g - 1) } else { (g + 1, hi) };
            let rest = probes(secret, l, h);
            law_probes_within_range(secret, l, h);
            assert(ps == seq![g] + rest);
            assert forall|k: int| 0 <= k < ps.len() implies lo <= #[trigger] ps[k] <= hi by {
                if k > 0 {
                    assert(ps[k] == rest[k - 1]);
                }
            }
        }
    }
}

/// Bisection never asks the same guess twice.
pub proof fn law_probes_distinct(secret: int, lo: int, hi: int)
    ensures
        forall|a: int, b: int| 0 <= a < b < probes(secret, lo, hi).len()
            ==> #[trigger] probes(secret, lo, hi)[a] != #[trigger] probes(secret, lo, hi)[b],
    decreases hi - lo + 1,
{
    if lo <= hi {
        let g = (lo + hi) / 2;
        let ps = probes(secret, lo, hi);
        if secret != g {
            let (l, h) = if secret < g { (lo, g - 1) } else { (g + 1, hi) };
            let rest = probes(secret, l, h);
            law_probes_distinct(secret, l, h);
            law_probes_within_range(secret, l, h);
            assert(ps == seq![g] + rest);
            assert forall|a: int, b: int| 0 <= a < b < ps.len() implies #[trigger] ps[a] != #[trigger] ps[b] by {
                assert(ps[b] == rest[b - 1]);
                if a > 0 {
                    assert(ps[a] == rest[a - 1]);
                }
            }
        }
    }
}

/// When the secret lies in the range, bisection's last guess is the secret;
/// otherwise no guess is.
pub proof fn law_probes_end_at_secret(secret: int, lo: int, hi: int)
    ensures
        lo <= secret <= hi ==> probes(secret, lo, hi).len() > 0
            && probes(secret, lo, hi).last() == secret,
        !(lo <= secret <= hi) ==> forall|k: int| 0 <= k < probes(secret, lo, hi).len()
            ==> #[trigger] probes(secret, lo, hi)[k] != secret,
    decreases hi - lo + 1,
{
    law_probes_within_range(secret, lo, hi);
    if lo <= hi {
        let g = (lo + hi) / 2;
        if secret != g {
            let (l, h) = if secret < g { (lo, g - 1) } else { (g + 1, hi) };
            law_probes_end_at_secret(secret, l, h);
        }
    }
}

/// Bisection asks nothing on an empty range, and at most
/// `log2_floor(hi - lo + 1) + 1` guesses otherwise: each answer at least
/// halves the range.
pub proof fn law_probes_count(secret: int, lo: int, hi: int)
    ensures
        lo > hi ==> probes(secret, lo, hi).len() == 0,
        lo <= hi ==> probes(secret, lo, hi).len() <= log2_floor(hi - lo + 1) + 1,
    decreases hi - lo + 1,
{
    if lo <= hi {
        let g = (lo + hi) / 2;
        let s = hi - lo + 1;
        if secret != g {
            let (l, h) = if secret < g { (lo, g - 1) } else { (g + 1, hi) };
            law_probes_count(secret, l, h);
            if l <= h {
                assert(h - l + 1 <= s / 2);
                lemma_log2_floor_monotonic(h - l + 1, s / 2);
                assert(log2_floor(s) == 1 + log2_floor(s / 2));
            }
        }
        lemma_log2_floor_monotonic(1, s);
    }
}

impl Strategy for Part2 {
    /// Bisection on `min..=max`: the secret when it lies there, 0 otherwise.
    /// The guesses asked are exactly those of `probes`: each in the range,
    /// none twice, the secret last when it is in the range, none on an empty
    /// range, and at most `log2_floor(max - min + 1) + 1` of them.
    fn guess_the_number(player: &mut Player, min: u32, max: u32) -> (r: u32)
        ensures
            final(player).secret_number() == old(player).secret_number(),
            r == if min <= old(player).secret_number() <= max {
                old(player).secret_number()
            } else {
                0
            },
            final(player).questions()
                == old(player).questions() + probes(old(player).secret_number() as int, min as int, max as int),
            ({
                let asked = probes(old(player).secret_number() as int, min as int, max as int);
                &&& forall|k: int| 0 <= k < asked.len() ==> min <= #[trigger] asked[k] <= max
                &&& forall|a: int, b: int| 0 <= a < b < asked.len() ==> #[trigger] asked[a] != #[trigger] asked[b]
                &&& min <= old(player).secret_number() <= max ==> asked.len() > 0
                    && asked.last() == old(player).secret_number()
                &&& min > max ==> asked.len() == 0
                &&& min <= max ==> asked.len() <= log2_floor(max - min + 1) + 1
            }),
    {
        proof {
            let secret = old(player).secret_number() as int;
            law_probes_within_range(secret, min as int, max as int);
            law_probes_distinct(secret, min as int, max as int);
            law_probes_end_at_secret(secret, min as int, max as int);
            law_probes_count(secret, min as int, max as int);
        }
        let ghost secret = player.secret_number();
        let ghost start = player.questions();
        let ghost all = probes(secret as int, min as int, max as int);
        let mut lo = min;
        let mut hi = max;
        assert(player.questions() + probes(secret as int, lo as int, hi as int) =~= start + all);
        while lo <= hi
            invariant
                player.secret_number() == secret,
                old(player).secret_number() == secret,
                old(player).questions() == start,
                all == probes(secret as int, min as int, max as int),
                search_fits(secret as int, lo as int, hi as int),
                player.questions() + probes(secret as int, lo as int, hi as int) == start + all,
                min <= secret <= max <==> lo <= secret <= hi,
                min <= lo,
                hi <= max,
            decreases hi + 1 - lo,
        {
            let guess = (lo + hi) / 2;
            let ghost before = player.questions();
            let ghost rest = probes(secret as int, lo as int, hi as int);
            let result = player.ask_to_compare(guess);
            if result == -1 {
                hi = guess - 1;
            } else if result == 0 {
                assert(rest =~= seq![guess as int]);
                assert(player.questions() =~= before + rest);
                proof {
                    law_probes_within_range(secret as int, min as int, max as int);
                    law_probes_distinct(secret as int, min as int, max as int);
                    law_probes_end_at_secret(secret as int, min as int, max as int);
                    law_probes_count(secret as int, min as int, max as int);
                }
                return guess;
            } else if result == 1 {
                lo = guess + 1;
            }
            assert(player.questions() + probes(secret as int, lo as int, hi as int) =~= before + rest);
        }
        assert(player.questions() =~= player.questions() + probes(secret as int, lo as int, hi as int));
        0
    }
}

} // verus!
