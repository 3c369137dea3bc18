//! When participants start.
use crate::binary64::{self, Binary64};
use crate::config::{RampStep, RampStrategy, SchedulerConfig};
use crate::duration::{self, Duration, MAX_NANOS, NANOS_PER_SEC};
use rand::rngs::StdRng;
use rand::seq::SliceRandom;
use rand::SeedableRng;
use vstd::arithmetic::div_mod::*;
use vstd::arithmetic::power2::*;
use vstd::prelude::*;

verus! {

/// The number 1 - 2^-32.
pub const BELOW_ONE_BITS: u64 = 0x3fef_ffff_ffe0_0000;

/// The number 2^64 - 2^32.
pub const BELOW_TWO_64_BITS: u64 = 0x43ef_ffff_ffe0_0000;

/// Why participants cannot be scheduled.
#[derive(Clone, Copy, Debug, PartialEq, Eq, Structural)]
pub enum SchedulerError {
    /// The steps are not ordered, or one of them wants more clients than there are.
    InvalidSteps,
}

/// The part of the way that a participant has before it, as a binary64 number.
pub open spec fn part_of_ramp(index: nat, clients: nat) -> Binary64 {
    Binary64 { bits: binary64::rounded(index, clients) }
}

/// When a participant starts whose ramp is linear.
pub open spec fn linear_delay(ramp_up: nat, index: nat, clients: nat) -> Option<nat> {
    duration::scaled_nanos(ramp_up, part_of_ramp(index, clients))
}

/// Whether steps are ordered by time and by clients, and none wants more clients than there are.
pub open spec fn valid_steps(steps: Seq<RampStep>, clients: nat) -> bool {
    &&& forall|i: int| 0 <= i < steps.len() ==> (#[trigger] steps[i]).clients <= clients
    &&& forall|i: int, j: int|
        0 <= i < j < steps.len() ==> (#[trigger] steps[i]).at@ <= (#[trigger] steps[j]).at@
            && steps[i].clients <= steps[j].clients
}

/// When a participant starts whose ramp goes by steps: with the first step that wants more
/// clients than there are before it, or else with the last step.
pub open spec fn step_delay(steps: Seq<RampStep>, index: nat) -> nat
    decreases steps.len(),
{
    if steps.len() == 0 {
        0
    } else if index < steps[0].clients || steps.len() == 1 {
        steps[0].at@
    } else {
        step_delay(steps.drop_first(), index)
    }
}

/// The spans of some durations.
pub open spec fn spans(delays: Seq<Duration>) -> Seq<nat> {
    Seq::new(delays.len(), |i: int| delays[i]@)
}

/// The order into which `count` items are shuffled: which item comes to each position.
pub uninterp spec fn shuffle_order(count: nat, seed: u64) -> Seq<int>;

/// Whether an order names each of `count` positions once.
pub open spec fn is_order(order: Seq<int>, count: nat) -> bool {
    &&& order.len() == count
    &&& forall|i: int| 0 <= i < count ==> 0 <= #[trigger] order[i] < count
    &&& forall|i: int, j: int|
        0 <= i < j < count ==> #[trigger] order[i] != #[trigger] order[j]
}

/// Whether `after` holds the items of `before` in the given order.
pub open spec fn ordered_by(before: Seq<Duration>, after: Seq<Duration>, order: Seq<int>) -> bool {
    &&& is_order(order, before.len())
    &&& after.len() == before.len()
    &&& forall|i: int| 0 <= i < after.len() ==> #[trigger] after[i] == before[order[i]]
}

/// Shuffles delays with `SliceRandom::shuffle` and the generator `StdRng::seed_from_u64`.
///
/// Every delay comes to one position. To which, depends on how many there are and on the seed
/// alone in the version that is used; another version of the crate may choose another order.
#[verifier::external_body]
fn shuffle(delays: &mut Vec<Duration>, seed: u64)
    ensures
        ordered_by(old(delays)@, final(delays)@, shuffle_order(old(delays)@.len(), seed)),
{
    let mut generator = StdRng::seed_from_u64(seed);
    delays.shuffle(&mut generator);
}

/// Whether delays are those of a schedule.
pub open spec fn is_schedule(delays: Seq<nat>, clients: nat, scheduler: SchedulerConfig) -> bool {
    &&& delays.len() == clients
    &&& match scheduler.strategy {
        RampStrategy::Immediate => forall|i: int| 0 <= i < clients ==> #[trigger] delays[i] == 0,
        RampStrategy::Linear => forall|i: int|
            0 <= i < clients ==> linear_delay(scheduler.ramp_up@, i as nat, clients) == Some(
                #[trigger] delays[i],
            ),
        RampStrategy::Step => forall|i: int|
            0 <= i < clients ==> #[trigger] delays[i] == step_delay(scheduler.steps@, i as nat),
        RampStrategy::Randomized => {
            let order = shuffle_order(
                clients,
                match scheduler.seed {
                    Some(seed) => seed,
                    None => 0,
                },
            );
            &&& is_order(order, clients)
            &&& forall|i: int|
                0 <= i < clients ==> linear_delay(
                    scheduler.ramp_up@,
                    order[i] as nat,
                    clients,
                ) == Some(#[trigger] delays[i])
        },
    }
}

/// The patterns of 1 - 2^-32 and of 2^64 - 2^32.
proof fn lemma_bounds()
    ensures
        binary64::units(BELOW_ONE_BITS) == pow2(1074) - pow2(1042),
        binary64::units(BELOW_TWO_64_BITS) == (pow2(64) - pow2(32)) * pow2(1074),
        pow2(32) == 0x1_0000_0000,
        pow2(64) == 0x1_0000_0000_0000_0000,
        pow2(1074) == pow2(32) * pow2(1042),
        pow2(1042) > 0,
{
    lemma2_to64();
    lemma2_to64_rest();
    lemma_pow2_adds(32, 1042);
    lemma_pow2_adds(21, 1021);
    lemma_pow2_adds(11, 1074);
    lemma_pow2_pos(1042);
    let w = 0x10_0000_0000_0000nat;
    assert(BELOW_ONE_BITS / 0x10_0000_0000_0000 == 1022);
    assert(BELOW_ONE_BITS % 0x10_0000_0000_0000 == 0xf_ffff_ffe0_0000);
    assert(BELOW_TWO_64_BITS / 0x10_0000_0000_0000 == 1086);
    assert(BELOW_TWO_64_BITS % 0x10_0000_0000_0000 == 0xf_ffff_ffe0_0000);
    let p = pow2(1021);
    let q = pow2(1042);
    assert(q == 0x20_0000 * p);
    assert((w + 0xf_ffff_ffe0_0000) * p == 0xffff_ffff * (0x20_0000 * p)) by (nonlinear_arith)
        requires
            w == 0x10_0000_0000_0000,
    ;
    assert(0xffff_ffff * q == 0x1_0000_0000 * q - q);
    let r = pow2(1074);
    assert(pow2(1085) == 0x800 * r);
    assert((w + 0xf_ffff_ffe0_0000) * (0x800 * r) == 0xffff_ffff_0000_0000 * r)
        by (nonlinear_arith)
        requires
            w == 0x10_0000_0000_0000,
    ;
}

/// A part of the ramp is less than the whole, so that every participant has a delay.
proof fn lemma_delay_exists(ramp_up: nat, index: nat, clients: nat)
    requires
        index < clients <= u32::MAX,
        binary64::units(duration::seconds_bits(ramp_up)) <= pow2(64) * pow2(1074),
    ensures
        linear_delay(ramp_up, index, clients) is Some,
        binary64::units(part_of_ramp(index, clients).bits) + pow2(1042) <= pow2(1074),
{
    let part = binary64::rounded(index, clients);
    let seconds = duration::seconds_bits(ramp_up);
    let f = binary64::units(part);
    let s = binary64::units(seconds);
    let p = pow2(1074);
    let q = pow2(1042);
    lemma_bounds();
    assert(index * p <= clients * (p - q)) by (nonlinear_arith)
        requires
            index + 1 <= clients,
            clients <= 0x1_0000_0000,
            p == 0x1_0000_0000 * q,
    ;
    binary64::lemma_rounded_nearest(index, clients);
    binary64::lemma_nearest_bounded(index, clients, part, BELOW_ONE_BITS);
    let num = f * s;
    let den = pow2(2148);
    lemma_pow2_pos(2148);
    lemma_pow2_adds(1074, 1074);
    assert(den == p * p);
    assert(num <= (p - q) * (0x1_0000_0000_0000_0000 * p)) by (nonlinear_arith)
        requires
            num == f * s,
            f <= p - q,
            s <= 0x1_0000_0000_0000_0000 * p,
    ;
    let bound = (0x1_0000_0000_0000_0000 - 0x1_0000_0000) * p;
    assert((p - q) * (0x1_0000_0000_0000_0000 * p) == bound * p) by (nonlinear_arith)
        requires
            p == 0x1_0000_0000 * q,
            bound == (0x1_0000_0000_0000_0000 - 0x1_0000_0000) * p,
    ;
    assert(num * p <= den * bound) by (nonlinear_arith)
        requires
            num <= bound * p,
            den == p * p,
    ;
    binary64::lemma_rounded_nearest(num, den);
    binary64::lemma_nearest_bounded(num, den, binary64::rounded(num, den), BELOW_TWO_64_BITS);
    assert(bound < 0x1_0000_0000_0000_0000 * p) by (nonlinear_arith)
        requires
            bound == (0x1_0000_0000_0000_0000 - 0x1_0000_0000) * p,
            p > 0,
    ;
    binary64::lemma_landmarks();
    binary64::lemma_units_order(BELOW_ONE_BITS, binary64::INFINITY_BITS);
}

/// The delays of a linear ramp.
fn linear_delays(clients: u32, ramp_up: &Duration) -> (delays: Vec<Duration>)
    ensures
        delays.len() == clients,
        forall|i: int|
            0 <= i < clients ==> linear_delay(ramp_up@, i as nat, clients as nat) == Some(
                (#[trigger] delays@[i])@,
            ),
{
    let mut delays: Vec<Duration> = Vec::new();
    let mut index: u32 = 0;
    while index < clients
        invariant
            index <= clients,
            delays.len() == index,
            forall|i: int|
                0 <= i < index ==> linear_delay(ramp_up@, i as nat, clients as nat) == Some(
                    (#[trigger] delays@[i])@,
                ),
        decreases clients - index,
    {
        let part = Binary64::from_ratio(index, clients);
        let seconds = ramp_up.as_secs_binary64();
        proof {
            lemma_delay_exists(ramp_up@, index as nat, clients as nat);
        }
        match ramp_up.mul_binary64(&part) {
            Some(delay) => {
                delays.push(delay);
            },
            None => {},
        }
        index = index + 1;
    }
    delays
}

/// The last step that comes before a participant decides its delay.
proof fn lemma_step_delay(steps: Seq<RampStep>, index: nat, clients: nat, k: int)
    requires
        valid_steps(steps, clients),
        0 <= k < steps.len(),
        k > 0 ==> steps[k - 1].clients <= index,
        index < steps[k].clients || k == steps.len() - 1,
    ensures
        step_delay(steps, index) == steps[k].at@,
    decreases k,
{
    if k > 0 {
        let rest = steps.drop_first();
        assert(steps[0].clients <= index) by {
            if k > 1 {
                assert(steps[0].clients <= steps[k - 1].clients);
            }
        }
        assert forall|i: int| 0 <= i < rest.len() implies (#[trigger] rest[i]).clients <= clients by {
            assert(rest[i] == steps[i + 1]);
        }
        assert forall|i: int, j: int| 0 <= i < j < rest.len() implies (#[trigger] rest[i]).at@ <= (
        #[trigger] rest[j]).at@ && rest[i].clients <= rest[j].clients by {
            assert(rest[i] == steps[i + 1] && rest[j] == steps[j + 1]);
        }
        lemma_step_delay(rest, index, clients, k - 1);
    }
}

/// The delays of a ramp by steps.
fn step_delays(clients: u32, scheduler: &SchedulerConfig) -> (result: Result<
    Vec<Duration>,
    SchedulerError,
>)
    ensures
        match result {
            Ok(delays) => {
                &&& valid_steps(scheduler.steps@, clients as nat)
                &&& delays.len() == clients
                &&& forall|i: int|
                    0 <= i < clients ==> (#[trigger] delays@[i])@ == step_delay(
                        scheduler.steps@,
                        i as nat,
                    )
            },
            Err(SchedulerError::InvalidSteps) => !valid_steps(scheduler.steps@, clients as nat),
        },
{
    let ghost steps = scheduler.steps@;
    if !steps_are_valid(&scheduler.steps, clients) {
        return Err(SchedulerError::InvalidSteps);
    }
    let mut previous_at = Duration::zero();
    let mut delays: Vec<Duration> = Vec::new();
    let mut k: usize = 0;
    while k < scheduler.steps.len()
        invariant
            k <= scheduler.steps.len(),
            steps == scheduler.steps@,
            valid_steps(steps, clients as nat),
            previous_at@ == (if k == 0 {
                0
            } else {
                steps[k - 1].at@
            }),
            delays.len() == (if k == 0 {
                0
            } else {
                steps[k - 1].clients
            }),
            forall|i: int|
                0 <= i < delays.len() ==> (#[trigger] delays@[i])@ == step_delay(steps, i as nat),
        decreases scheduler.steps.len() - k,
    {
        let step = scheduler.steps[k];
        let ghost first = delays.len();
        while delays.len() < step.clients as usize
            invariant
                k < steps.len(),
                step == steps[k as int],
                valid_steps(steps, clients as nat),
                first <= delays.len() <= step.clients,
                k > 0 ==> steps[k - 1].clients <= first,
                forall|i: int|
                    0 <= i < delays.len() ==> (#[trigger] delays@[i])@ == step_delay(
                        steps,
                        i as nat,
                    ),
            decreases step.clients - delays.len(),
        {
            proof {
                lemma_step_delay(steps, delays.len() as nat, clients as nat, k as int);
            }
            delays.push(step.at);
        }
        previous_at = step.at;
        k = k + 1;
    }
    while delays.len() < clients as usize
        invariant
            steps == scheduler.steps@,
            valid_steps(steps, clients as nat),
            delays.len() <= clients,
            previous_at@ == (if steps.len() == 0 {
                0
            } else {
                steps.last().at@
            }),
            steps.len() > 0 ==> steps.last().clients <= delays.len(),
            forall|i: int|
                0 <= i < delays.len() ==> (#[trigger] delays@[i])@ == step_delay(steps, i as nat),
        decreases clients - delays.len(),
    {
        proof {
            if steps.len() > 0 {
                let last = steps.len() - 1;
                if last > 0 {
                    assert(steps[last - 1].clients <= steps[last].clients);
                }
                lemma_step_delay(steps, delays.len() as nat, clients as nat, last);
            }
        }
        delays.push(previous_at);
    }
    Ok(delays)
}

/// Whether steps are ordered and none wants more clients than there are.
fn steps_are_valid(steps: &Vec<RampStep>, clients: u32) -> (result: bool)
    ensures
        result == valid_steps(steps@, clients as nat),
{
    let mut previous_at = Duration::zero();
    let mut previous_clients: u32 = 0;
    let mut k: usize = 0;
    while k < steps.len()
        invariant
            k <= steps.len(),
            previous_at@ == (if k == 0 {
                0
            } else {
                steps@[k - 1].at@
            }),
            previous_clients == (if k == 0 {
                0
            } else {
                steps@[k - 1].clients
            }),
            forall|i: int| 0 <= i < k ==> (#[trigger] steps@[i]).clients <= clients,
            forall|i: int, j: int|
                0 <= i < j < k ==> (#[trigger] steps@[i]).at@ <= (#[trigger] steps@[j]).at@
                    && steps@[i].clients <= steps@[j].clients,
        decreases steps.len() - k,
    {
        let step = steps[k];
        assert(step == steps@[k as int]);
        if previous_at.exceeds(&step.at) || step.clients < previous_clients || step.clients
            > clients {
            proof {
                if k > 0 {
                    assert(steps@[k - 1].at@ > steps@[k as int].at@ || steps@[k - 1].clients
                        > steps@[k as int].clients || step.clients > clients);
                }
            }
            return false;
        }
        proof {
            assert forall|i: int, j: int| 0 <= i < j < k + 1 implies (#[trigger] steps@[i]).at@ <= (
            #[trigger] steps@[j]).at@ && steps@[i].clients <= steps@[j].clients by {
                if j == k && i < k - 1 {
                    assert(steps@[i].at@ <= steps@[k - 1].at@);
                    assert(steps@[i].clients <= steps@[k - 1].clients);
                }
            }
        }
        previous_at = step.at;
        previous_clients = step.clients;
        k = k + 1;
    }
    true
}

/// When each participant starts.
pub fn start_delays(clients: u32, scheduler: &SchedulerConfig) -> (result: Result<
    Vec<Duration>,
    SchedulerError,
>)
    ensures
        match result {
            Ok(delays) => {
                &&& scheduler.strategy == RampStrategy::Step ==> valid_steps(
                    scheduler.steps@,
                    clients as nat,
                )
                &&& is_schedule(spans(delays@), clients as nat, *scheduler)
            },
            Err(SchedulerError::InvalidSteps) => {
                &&& scheduler.strategy == RampStrategy::Step
                &&& !valid_steps(scheduler.steps@, clients as nat)
            },
        },
{
    match scheduler.strategy {
        RampStrategy::Immediate => {
            let mut delays: Vec<Duration> = Vec::new();
            while delays.len() < clients as usize
                invariant
                    delays.len() <= clients,
                    forall|i: int| 0 <= i < delays.len() ==> (#[trigger] delays@[i])@ == 0,
                decreases clients - delays.len(),
            {
                delays.push(Duration::zero());
            }
            Ok(delays)
        },
        RampStrategy::Linear => Ok(linear_delays(clients, &scheduler.ramp_up)),
        RampStrategy::Step => step_delays(clients, scheduler),
        RampStrategy::Randomized => {
            let mut delays = linear_delays(clients, &scheduler.ramp_up);
            let seed = match scheduler.seed {
                Some(seed) => seed,
                None => 0,
            };
            let ghost before = delays@;
            shuffle(&mut delays, seed);
            proof {
                let order = shuffle_order(clients as nat, seed);
                assert forall|i: int| 0 <= i < clients implies linear_delay(
                    scheduler.ramp_up@,
                    order[i] as nat,
                    clients as nat,
                ) == Some(#[trigger] spans(delays@)[i]) by {
                    assert(delays@[i] == before[order[i]]);
                }
            }
            Ok(delays)
        },
    }
}

/// A quotient rounded to an integer grows with its numerator.
proof fn lemma_half_even_grows(num: nat, larger: nat, den: nat)
    requires
        num <= larger,
        den > 0,
    ensures
        binary64::half_even(num, den) <= binary64::half_even(larger, den),
{
    lemma_fundamental_div_mod(num as int, den as int);
    lemma_fundamental_div_mod(larger as int, den as int);
    lemma_div_is_ordered(num as int, larger as int, den as int);
    if num / den == larger / den {
        assert(num % den <= larger % den);
    }
}

/// In a linear ramp nobody starts before one who comes earlier.
pub proof fn law_linear_delays_grow(ramp_up: nat, index: nat, later: nat, clients: nat)
    requires
        index <= later < clients,
        linear_delay(ramp_up, index, clients) is Some,
        linear_delay(ramp_up, later, clients) is Some,
    ensures
        linear_delay(ramp_up, index, clients)->0 <= linear_delay(ramp_up, later, clients)->0,
{
    let a = part_of_ramp(index, clients);
    let b = part_of_ramp(later, clients);
    let s = binary64::units(duration::seconds_bits(ramp_up));
    assert(index * clients <= later * clients) by (nonlinear_arith)
        requires
            index <= later,
    ;
    binary64::lemma_rounded_monotone(index, clients, later, clients);
    binary64::lemma_rounded_nearest(index, clients);
    binary64::lemma_rounded_nearest(later, clients);
    let x = binary64::units(a.bits) * s;
    let y = binary64::units(b.bits) * s;
    let p = pow2(2148);
    lemma_pow2_pos(2148);
    lemma_pow2_pos(1074);
    assert(x * p <= y * p) by (nonlinear_arith)
        requires
            x == binary64::units(a.bits) * s,
            y == binary64::units(b.bits) * s,
            binary64::units(a.bits) <= binary64::units(b.bits),
    ;
    binary64::lemma_rounded_monotone(x, p, y, p);
    let u = binary64::units(duration::scaled_bits(ramp_up, a)) * NANOS_PER_SEC as nat;
    let v = binary64::units(duration::scaled_bits(ramp_up, b)) * NANOS_PER_SEC as nat;
    lemma_half_even_grows(u, v, pow2(1074));
}

/// What three roundings add to a span is less than what a part of it leaves out.
proof fn lemma_part_stays_within(nanos: nat, x: nat, s: nat, f: nat, p: nat, q: nat, k: nat, n: nat)
    requires
        nanos > 0,
        p == 0x1_0000_0000 * q,
        q >= 0x100_0000_0000_0000,
        k == 0x20_0000_0000_0000,
        n == 1_000_000_000,
        f + q <= p,
        n * s * ((k - 1) * (k - 1)) <= (nanos * p + 2 * n) * (k * k),
        p * x * (k - 1) <= f * s * k + p * 0x10_0000_0000_0000,
    ensures
        n * x <= nanos * p,
{
    let m = (k - 1) as nat;
    let w = 0x10_0000_0000_0000nat;
    let r = nanos * p;
    let y = n * x;
    let kk = k * k;
    let kkk = k * kk;
    let mm = m * m;
    let mmm = m * mm;
    let t = (r + 2 * n) * kkk;
    let z = n * mm;
    // One more rounding, together with the part that is taken.
    assert(p * (y * mmm) == z * (p * x * m)) by (nonlinear_arith)
        requires
            y == n * x,
            z == n * mm,
            mmm == m * mm,
    ;
    assert(z * (p * x * m) <= z * (f * s * k + p * w)) by (nonlinear_arith)
        requires
            p * x * m <= f * s * k + p * w,
    ;
    assert(z * (f * s * k + p * w) == (f * k) * (n * s * mm) + z * (p * w)) by (nonlinear_arith)
        requires
            z == n * mm,
    ;
    assert((f * k) * (n * s * mm) <= (f * k) * ((r + 2 * n) * kk)) by (nonlinear_arith)
        requires
            n * s * mm <= (r + 2 * n) * kk,
    ;
    assert((f * k) * ((r + 2 * n) * kk) == f * t) by (nonlinear_arith)
        requires
            t == (r + 2 * n) * kkk,
            kkk == k * kk,
    ;
    assert(f * t <= p * t - q * t) by (nonlinear_arith)
        requires
            f + q <= p,
    ;
    assert(q * (r * kkk) <= q * t) by (nonlinear_arith)
        requires
            t == (r + 2 * n) * kkk,
    ;
    assert(z * (p * w) <= p * (n * kkk)) by (nonlinear_arith)
        requires
            z == n * mm,
            mm <= kk,
            w <= k,
            kkk == k * kk,
    {
        assert(mm * w <= kk * k);
        assert(z * (p * w) == (p * n) * (mm * w));
        assert(p * (n * kkk) == (p * n) * (kk * k));
    }
    assert(p * t + p * (n * kkk) == p * ((r + 3 * n) * kkk)) by (nonlinear_arith)
        requires
            t == (r + 2 * n) * kkk,
    ;
    assert(0x1_0000_0000 * (y * mmm) <= 0x1_0000_0000 * ((r + 3 * n) * kkk) - r * kkk)
        by (nonlinear_arith)
        requires
            p * (y * mmm) <= p * ((r + 3 * n) * kkk) - q * (r * kkk),
            p == 0x1_0000_0000 * q,
            q > 0,
    {
        assert(q * (0x1_0000_0000 * (y * mmm)) <= q * (0x1_0000_0000 * ((r + 3 * n) * kkk) - r
            * kkk));
    }
    assert(r >= p) by (nonlinear_arith)
        requires
            r == nanos * p,
            nanos > 0,
    ;
    if y > r {
        assert(kkk <= mmm + 3 * kk) by (nonlinear_arith)
            requires
                k == m + 1,
                kk == k * k,
                kkk == k * kk,
                mm == m * m,
                mmm == m * mm,
        {
            assert(kk == mm + 2 * m + 1);
            assert(k * kk == m * kk + kk);
            assert(m * kk == m * mm + 2 * mm + m);
        }
        assert(y * mmm >= r * mmm) by (nonlinear_arith)
            requires
                y > r,
        ;
        let c = r * kk;
        assert(r * mmm >= r * kkk - 3 * c) by (nonlinear_arith)
            requires
                kkk <= mmm + 3 * kk,
                c == r * kk,
        ;
        assert(r * kkk == 0x20_0000_0000_0000 * c) by (nonlinear_arith)
            requires
                kkk == 0x20_0000_0000_0000 * kk,
                c == r * kk,
        ;
        assert((r + 3 * n) * kkk == r * kkk + 3 * (n * kkk)) by (nonlinear_arith);
        assert(c >= 0x1_0000_0000 * 0x100_0000_0000_0000 * kk) by (nonlinear_arith)
            requires
                r >= 0x1_0000_0000 * 0x100_0000_0000_0000,
                c == r * kk,
        ;
        assert(false);
    }
}

/// A participant of a linear ramp has a delay, and it lies within the ramp.
proof fn lemma_delay_within(ramp_up: nat, index: nat, clients: nat)
    requires
        index < clients <= u32::MAX,
        ramp_up <= MAX_NANOS,
    ensures
        linear_delay(ramp_up, index, clients) matches Some(delay) && delay <= ramp_up,
        index == 0 || ramp_up == 0 ==> linear_delay(ramp_up, index, clients) == Some(0nat),
{
    let p = pow2(1074);
    let q = pow2(1042);
    let n = NANOS_PER_SEC as nat;
    let f = binary64::units(part_of_ramp(index, clients).bits);
    let s = binary64::units(duration::seconds_bits(ramp_up));
    let x = binary64::units(duration::scaled_bits(ramp_up, part_of_ramp(index, clients)));
    duration::lemma_seconds_bounded(ramp_up);
    lemma_delay_exists(ramp_up, index, clients);
    lemma_bounds();
    lemma_pow2_pos(1074);
    lemma_pow2_pos(2148);
    lemma_pow2_adds(1074, 1074);
    binary64::lemma_nearest_zero(clients);
    binary64::lemma_nearest_zero(1);
    binary64::lemma_nearest_zero(n);
    binary64::lemma_nearest_zero(p);
    binary64::lemma_nearest_zero(pow2(2148));
    if index == 0 || ramp_up == 0 {
        assert(f * s == 0) by (nonlinear_arith)
            requires
                f == 0 || s == 0,
        ;
        duration::lemma_half_even_bounded(x * n, p, 0);
    } else {
        let k = 0x20_0000_0000_0000nat;
        let w = 0x10_0000_0000_0000nat;
        duration::lemma_seconds_error(ramp_up, p, k, n);
        binary64::lemma_rounded_error(f * s, p * p);
        assert(p * x * (k - 1) <= f * s * k + p * w) by (nonlinear_arith)
            requires
                (p * p) * x * (k - 1) <= (f * s) * p * k + (p * p) * w,
                p > 0,
        {
            assert(p * (p * x * (k - 1)) <= p * (f * s * k + p * w));
        }
        lemma2_to64();
        lemma2_to64_rest();
        lemma_pow2_adds(56, 986);
        lemma_pow2_pos(986);
        assert(q >= 0x100_0000_0000_0000) by (nonlinear_arith)
            requires
                q == 0x100_0000_0000_0000 * pow2(986),
                pow2(986) > 0,
        ;
        lemma_part_stays_within(ramp_up, x, s, f, p, q, k, n);
        assert(x * n == n * x) by (nonlinear_arith);
        duration::lemma_half_even_bounded(x * n, p, ramp_up);
    }
}

/// In a linear ramp the first participant starts at once, and everyone within the ramp.
pub proof fn law_linear_ramp_stays_within(ramp_up: nat, index: nat, clients: nat)
    requires
        index < clients <= u32::MAX,
        ramp_up <= MAX_NANOS,
    ensures
        linear_delay(ramp_up, 0, clients) == Some(0nat),
        linear_delay(ramp_up, index, clients) matches Some(delay) && delay <= ramp_up,
{
    lemma_delay_within(ramp_up, 0, clients);
    lemma_delay_within(ramp_up, index, clients);
}

/// A linear ramp is even: the part of it that lies before a participant is the part of the
/// participants that come before it, to two nanoseconds and one part in 2^50.
pub proof fn law_linear_ramp_is_even(ramp_up: nat, index: nat, clients: nat)
    requires
        index < clients <= u32::MAX,
        ramp_up <= MAX_NANOS,
    ensures
        linear_delay(ramp_up, index, clients) is Some,
        index * ramp_up * 0x4_0000_0000_0000 <= clients * (linear_delay(ramp_up, index, clients)->0
            + 2) * 0x4_0000_0000_0001,
        clients * linear_delay(ramp_up, index, clients)->0 * 0x4_0000_0000_0000 <= (index * ramp_up
            + 2 * clients) * 0x4_0000_0000_0001,
{
    let p = pow2(1074);
    let k = 0x20_0000_0000_0000nat;
    let n = NANOS_PER_SEC as nat;
    let factor = part_of_ramp(index, clients);
    let f = binary64::units(factor.bits);
    let bits = duration::scaled_bits(ramp_up, factor);
    let x = binary64::units(bits);
    lemma_delay_within(ramp_up, index, clients);
    duration::lemma_seconds_bounded(ramp_up);
    lemma_delay_exists(ramp_up, index, clients);
    lemma_bounds();
    lemma_pow2_pos(1074);
    duration::lemma_large(p);
    let delay = linear_delay(ramp_up, index, clients)->0;
    assert(factor.bits != 0x8000_0000_0000_0000) by {
        binary64::lemma_rounded_nearest(index, clients);
    }
    assert(delay == duration::span_of(bits));
    duration::lemma_scaled_close(ramp_up, factor.bits, p, k, n);
    duration::lemma_half_even_close(x * n, p);
    assert(x * n == n * x) by (nonlinear_arith);
    binary64::lemma_rounded_nearest(index, clients);
    assert(factor.bits < 0x7ff0_0000_0000_0000);
    binary64::lemma_rounded_loss(index, clients);
    binary64::lemma_rounded_error(index, clients);
    let y = n * x;
    let a = f * ramp_up;
    let b = index * ramp_up;
    lemma_even_lower(index, clients, ramp_up, f, a, b, y, delay, p, k);
    lemma_even_upper(index, clients, ramp_up, f, a, b, y, delay, p, k);
}

/// A delay is not much less than its part of the ramp.
proof fn lemma_even_lower(
    index: nat,
    clients: nat,
    ramp_up: nat,
    f: nat,
    a: nat,
    b: nat,
    y: nat,
    delay: nat,
    p: nat,
    k: nat,
)
    requires
        k == 0x20_0000_0000_0000,
        p >= 0x1_0000_0000_0000_0000_0000_0000_0000_0000_0000_0000_0000_0000_0000_0000_0000_0000nat,
        ramp_up <= MAX_NANOS,
        a == f * ramp_up,
        b == index * ramp_up,
        index * p * (k - 2) <= clients * f * (k - 1) + clients * 0x10_0000_0000_0000,
        a * ((k - 2) * (k - 2) * (k - 2)) <= y * ((k - 1) * (k - 1) * (k - 1)) + p,
        y <= delay * p + p,
    ensures
        b * 0x4_0000_0000_0000 <= clients * (delay + 2) * 0x4_0000_0000_0001,
{
    let w = 0x10_0000_0000_0000nat;
    let q = 0x4_0000_0000_0000nat;
    let i = (k - 1) as nat;
    let h = (k - 2) as nat;
    let j = i * i * i;
    let m = h * h * h;
    assert(p * (b * h) <= clients * (a * i + ramp_up * w)) by (nonlinear_arith)
        requires
            index * p * h <= clients * f * i + clients * w,
            a == f * ramp_up,
            b == index * ramp_up,
    {
        assert(ramp_up * (index * p * h) <= ramp_up * (clients * f * i + clients * w));
    }
    let c = a * i + ramp_up * w;
    assert(p * (b * (h * m)) <= clients * (c * m)) by (nonlinear_arith)
        requires
            p * (b * h) <= clients * c,
    {
        assert((p * (b * h)) * m <= (clients * c) * m);
    }
    assert(c * m == (a * m) * i + ramp_up * (w * m)) by (nonlinear_arith)
        requires
            c == a * i + ramp_up * w,
    ;
    assert((a * m) * i <= (y * j + p) * i) by (nonlinear_arith)
        requires
            a * m <= y * j + p,
    ;
    assert(y * j <= (delay * p + p) * j) by (nonlinear_arith)
        requires
            y <= delay * p + p,
    ;
    assert((y * j + p) * i <= p * ((delay + 1) * (i * j)) + p * i) by (nonlinear_arith)
        requires
            y * j <= (delay * p + p) * j,
    {
        assert((y * j + p) * i <= ((delay * p + p) * j + p) * i);
        assert(((delay * p + p) * j + p) * i == p * ((delay + 1) * (i * j)) + p * i);
    }
    assert(ramp_up * (w * m) + p * i <= p * (i * j)) by (nonlinear_arith)
        requires
            ramp_up <= 18_446_744_073_709_551_615_999_999_999,
            w == 0x10_0000_0000_0000,
            i == 0x1f_ffff_ffff_ffff,
            h == 0x1f_ffff_ffff_fffe,
            m == h * h * h,
            j == i * i * i,
            p
                >= 0x1_0000_0000_0000_0000_0000_0000_0000_0000_0000_0000_0000_0000_0000_0000_0000_0000nat,
    {
        assert(ramp_up * (w * m) <= 18_446_744_073_709_551_615_999_999_999 * (w * m));
        assert(18_446_744_073_709_551_615_999_999_999 * (w * m) <= p * (w * w));
        assert(w * w + i <= i * j);
        assert(p * (w * w + i) <= p * (i * j));
    }
    assert(p * ((delay + 1) * (i * j)) + p * (i * j) == p * ((delay + 2) * (i * j)))
        by (nonlinear_arith);
    let d = (delay + 2) * (i * j);
    assert(clients * (c * m) <= clients * (p * d)) by (nonlinear_arith)
        requires
            c * m <= p * d,
    ;
    assert(b * (h * m) <= clients * d) by (nonlinear_arith)
        requires
            p * (b * (h * m)) <= clients * (p * d),
            p > 0,
    {
        assert(p * (b * (h * m)) <= p * (clients * d));
    }
    assert((i * j) * q <= (h * m) * (q + 1)) by (nonlinear_arith)
        requires
            i == 0x1f_ffff_ffff_ffff,
            h == 0x1f_ffff_ffff_fffe,
            m == h * h * h,
            j == i * i * i,
            q == 0x4_0000_0000_0000,
    ;
    let e = clients * (delay + 2);
    assert(clients * d == e * (i * j)) by (nonlinear_arith)
        requires
            d == (delay + 2) * (i * j),
            e == clients * (delay + 2),
    ;
    duration::lemma_cancel(b, e, h * m, i * j, q);
}

/// A delay is not much more than its part of the ramp.
proof fn lemma_even_upper(
    index: nat,
    clients: nat,
    ramp_up: nat,
    f: nat,
    a: nat,
    b: nat,
    y: nat,
    delay: nat,
    p: nat,
    k: nat,
)
    requires
        k == 0x20_0000_0000_0000,
        p >= 0x1_0000_0000_0000_0000_0000_0000_0000_0000_0000_0000_0000_0000_0000_0000_0000_0000nat,
        ramp_up <= MAX_NANOS,
        a == f * ramp_up,
        b == index * ramp_up,
        clients * f * (k - 1) <= index * p * k + clients * 0x10_0000_0000_0000,
        y * ((k - 1) * (k - 1) * (k - 1)) <= a * (k * k * k) + p,
        delay * p <= y + p,
    ensures
        clients * delay * 0x4_0000_0000_0000 <= (b + 2 * clients) * 0x4_0000_0000_0001,
{
    let w = 0x10_0000_0000_0000nat;
    let q = 0x4_0000_0000_0000nat;
    let i = (k - 1) as nat;
    let j = i * i * i;
    let l = k * k * k;
    let left = clients * f * i;
    let right = index * p * k + clients * w;
    assert(ramp_up * left <= ramp_up * right) by (nonlinear_arith)
        requires
            left <= right,
    ;
    assert(ramp_up * left == clients * (a * i)) by (nonlinear_arith)
        requires
            left == clients * f * i,
            a == f * ramp_up,
    ;
    assert(ramp_up * right == p * (b * k) + clients * (ramp_up * w)) by (nonlinear_arith)
        requires
            right == index * p * k + clients * w,
            b == index * ramp_up,
    ;
    assert((delay * p) * j <= (y + p) * j) by (nonlinear_arith)
        requires
            delay * p <= y + p,
    ;
    assert((delay * p) * j <= a * l + p + p * j) by {
        assert((y + p) * j == y * j + p * j) by (nonlinear_arith);
    }
    let r = a * l + p + p * j;
    assert(clients * ((delay * p) * j * i) <= clients * (r * i)) by (nonlinear_arith)
        requires
            (delay * p) * j <= r,
    {
        assert((delay * p) * j * i <= r * i);
    }
    assert(clients * (r * i) == clients * (a * i) * l + clients * (p * i) + clients * (p * (i * j)))
        by (nonlinear_arith)
        requires
            r == a * l + p + p * j,
    ;
    assert(clients * (a * i) * l <= p * (b * (k * l)) + clients * (ramp_up * (w * l)))
        by (nonlinear_arith)
        requires
            clients * (a * i) <= p * (b * k) + clients * (ramp_up * w),
    {
        assert(clients * (a * i) * l <= (p * (b * k) + clients * (ramp_up * w)) * l);
    }
    assert(ramp_up * (w * l) + p * i + p * (i * j) <= p * (2 * (k * l))) by (nonlinear_arith)
        requires
            ramp_up <= 18_446_744_073_709_551_615_999_999_999,
            w == 0x10_0000_0000_0000,
            k == 0x20_0000_0000_0000,
            i == 0x1f_ffff_ffff_ffff,
            l == k * k * k,
            j == i * i * i,
            p
                >= 0x1_0000_0000_0000_0000_0000_0000_0000_0000_0000_0000_0000_0000_0000_0000_0000_0000nat,
    {
        assert(ramp_up * (w * l) <= 18_446_744_073_709_551_615_999_999_999 * (w * l));
        assert(18_446_744_073_709_551_615_999_999_999 * (w * l) <= p * (w * w));
        assert(w * w + i + i * j <= 2 * (k * l));
        assert(p * (w * w + i + i * j) <= p * (2 * (k * l)));
    }
    let t = ramp_up * (w * l) + p * i + p * (i * j);
    assert(clients * t <= clients * (p * (2 * (k * l)))) by (nonlinear_arith)
        requires
            t <= p * (2 * (k * l)),
    ;
    assert(clients * t == clients * (ramp_up * (w * l)) + clients * (p * i) + clients * (p * (i
        * j))) by (nonlinear_arith)
        requires
            t == ramp_up * (w * l) + p * i + p * (i * j),
    ;
    let e = clients * delay;
    let g = b + 2 * clients;
    assert(e * (i * j) <= g * (k * l)) by (nonlinear_arith)
        requires
            clients * ((delay * p) * j * i) <= p * (b * (k * l)) + clients * (p * (2 * (k * l))),
            e == clients * delay,
            g == b + 2 * clients,
            p > 0,
    {
        assert(clients * ((delay * p) * j * i) == p * (e * (i * j)));
        assert(p * (b * (k * l)) + clients * (p * (2 * (k * l))) == p * (g * (k * l)));
    }
    assert((k * l) * q <= (i * j) * (q + 1)) by (nonlinear_arith)
        requires
            k == 0x20_0000_0000_0000,
            i == 0x1f_ffff_ffff_ffff,
            l == k * k * k,
            j == i * i * i,
            q == 0x4_0000_0000_0000,
    ;
    duration::lemma_cancel(e, g, i * j, k * l, q);
}

/// In a schedule whose ramp is linear or randomized everyone starts within the ramp, and in a linear
/// one the first participant starts at once.
pub proof fn law_ramp_bounds_the_schedule(
    delays: Seq<nat>,
    clients: nat,
    scheduler: SchedulerConfig,
    index: int,
)
    requires
        is_schedule(delays, clients, scheduler),
        scheduler.strategy == RampStrategy::Linear || scheduler.strategy
            == RampStrategy::Randomized,
        0 <= index < clients <= u32::MAX,
        scheduler.ramp_up@ <= MAX_NANOS,
    ensures
        delays[index] <= scheduler.ramp_up@,
        scheduler.strategy == RampStrategy::Linear ==> delays[0] == 0,
{
    let ramp_up = scheduler.ramp_up@;
    if scheduler.strategy == RampStrategy::Linear {
        law_linear_ramp_stays_within(ramp_up, index as nat, clients);
        assert(linear_delay(ramp_up, 0, clients) == Some(delays[0]));
        assert(linear_delay(ramp_up, index as nat, clients) == Some(delays[index]));
    } else {
        let order = shuffle_order(
            clients,
            match scheduler.seed {
                Some(seed) => seed,
                None => 0,
            },
        );
        assert(0 <= order[index] < clients);
        law_linear_ramp_stays_within(ramp_up, order[index] as nat, clients);
        assert(linear_delay(ramp_up, order[index] as nat, clients) == Some(delays[index]));
    }
}

/// A randomized schedule is the linear one in another order. The order is that of the seed, and no
/// seed counts as zero: whoever schedules again gets the same delays.
pub proof fn law_randomized_is_linear_in_another_order(
    randomized: Seq<nat>,
    again: Seq<nat>,
    linear: Seq<nat>,
    clients: nat,
    scheduler: SchedulerConfig,
    unseeded: SchedulerConfig,
)
    requires
        scheduler.strategy == RampStrategy::Randomized,
        unseeded.strategy == RampStrategy::Randomized,
        unseeded.ramp_up == scheduler.ramp_up,
        unseeded.seed == scheduler.seed || (unseeded.seed is None && scheduler.seed == Some(0u64)),
        is_schedule(randomized, clients, scheduler),
        is_schedule(again, clients, unseeded),
        is_schedule(
            linear,
            clients,
            SchedulerConfig { strategy: RampStrategy::Linear, ..scheduler },
        ),
    ensures
        again == randomized,
        exists|order: Seq<int>| #[trigger]
            is_order(order, clients) && forall|i: int|
                0 <= i < clients ==> #[trigger] randomized[i] == linear[order[i]],
{
    let order = shuffle_order(
        clients,
        match scheduler.seed {
            Some(seed) => seed,
            None => 0,
        },
    );
    assert(is_order(order, clients));
    assert forall|i: int| 0 <= i < clients implies #[trigger] randomized[i] == linear[order[i]]
        && again[i] == randomized[i] by {
        assert(0 <= order[i] < clients);
        let delay = linear_delay(scheduler.ramp_up@, order[i] as nat, clients);
        assert(delay == Some(randomized[i]));
        assert(delay == Some(again[i]));
        assert(delay == Some(linear[order[i]]));
    }
    assert(again =~= randomized);
}

/// A participant that a step wants has started when the step's time has come.
pub proof fn law_steps_are_reached(steps: Seq<RampStep>, clients: nat, k: int, index: nat)
    requires
        valid_steps(steps, clients),
        0 <= k < steps.len(),
        index < steps[k].clients,
    ensures
        step_delay(steps, index) <= steps[k].at@,
    decreases k,
{
    if k > 0 && index < steps[k - 1].clients {
        law_steps_are_reached(steps, clients, k - 1, index);
        assert(steps[k - 1].at@ <= steps[k].at@);
    } else {
        lemma_step_delay(steps, index, clients, k);
    }
}

/// In a ramp by steps nobody starts before one who comes earlier.
pub proof fn law_step_delays_grow(steps: Seq<RampStep>, clients: nat, index: nat, later: nat)
    requires
        valid_steps(steps, clients),
        index <= later,
    ensures
        step_delay(steps, index) <= step_delay(steps, later),
    decreases steps.len(),
{
    if steps.len() > 1 {
        let rest = steps.drop_first();
        assert forall|i: int| 0 <= i < rest.len() implies (#[trigger] rest[i]).clients <= clients by {
            assert(rest[i] == steps[i + 1]);
        }
        assert forall|i: int, j: int| 0 <= i < j < rest.len() implies (#[trigger] rest[i]).at@ <= (
        #[trigger] rest[j]).at@ && rest[i].clients <= rest[j].clients by {
            assert(rest[i] == steps[i + 1] && rest[j] == steps[j + 1]);
        }
        law_step_delays_grow(rest, clients, index, later);
        lemma_not_before_first(rest, later, steps[0].at@);
    }
}

/// No participant starts before a time that no step comes before.
proof fn lemma_not_before_first(steps: Seq<RampStep>, index: nat, at: nat)
    requires
        steps.len() > 0,
        forall|i: int| 0 <= i < steps.len() ==> at <= (#[trigger] steps[i]).at@,
    ensures
        at <= step_delay(steps, index),
    decreases steps.len(),
{
    if steps.len() > 1 {
        assert(at <= steps[0].at@);
        let rest = steps.drop_first();
        assert forall|i: int| 0 <= i < rest.len() implies at <= (#[trigger] rest[i]).at@ by {
            assert(rest[i] == steps[i + 1]);
        }
        lemma_not_before_first(rest, index, at);
    }
}

/// Shuffling neither adds nor drops a delay: every participant of the linear ramp starts, each at
/// its own time.
pub proof fn law_shuffling_keeps_delays(before: Seq<Duration>, after: Seq<Duration>, order: Seq<int>)
    requires
        ordered_by(before, after, order),
    ensures
        before.to_multiset() == after.to_multiset(),
    decreases before.len(),
{
    before.to_multiset_ensures();
    after.to_multiset_ensures();
    if before.len() > 0 {
        let last = before.len() - 1;
        let from = order[last];
        let item = after[last];
        let shorter = before.remove(from);
        let rest = order.drop_last().map_values(
            |at: int|
                if at > from {
                    at - 1
                } else {
                    at
                },
        );
        assert forall|i: int| 0 <= i < last implies 0 <= #[trigger] rest[i] < last by {
            assert(order[i] != order[last]);
        }
        assert forall|i: int, j: int| 0 <= i < j < last implies #[trigger] rest[i]
            != #[trigger] rest[j] by {
            assert(order[i] != order[j]);
            assert(order[i] != order[last] && order[j] != order[last]);
        }
        let shorter_after = after.drop_last();
        assert forall|i: int| 0 <= i < last implies #[trigger] shorter_after[i]
            == shorter[rest[i]] by {
            assert(after[i] == before[order[i]]);
            assert(order[i] != order[last]);
        }
        law_shuffling_keeps_delays(shorter, shorter_after, rest);
        shorter.to_multiset_ensures();
        shorter_after.to_multiset_ensures();
        assert(shorter_after.push(item) =~= after);
        assert(shorter.to_multiset() == before.to_multiset().remove(before[from]));
        assert(shorter_after.push(item).to_multiset() == shorter_after.to_multiset().insert(item));
        assert(before.to_multiset().count(item) > 0) by {
            assert(before.contains(before[from]));
        }
        assert(before.to_multiset() =~= shorter.to_multiset().insert(item));
    } else {
        assert(before =~= after);
    }
}

/// A participant of a ramp by steps starts exactly with the first step that wants more clients than
/// there are before it; one whom no step wants starts with the last step, and without steps everyone
/// starts at once.
pub proof fn law_steps_start_at_their_time(steps: Seq<RampStep>, clients: nat, k: int, index: nat)
    requires
        valid_steps(steps, clients),
        0 <= k < steps.len(),
        forall|i: int| 0 <= i < k ==> (#[trigger] steps[i]).clients <= index,
    ensures
        index < steps[k].clients ==> step_delay(steps, index) == steps[k].at@,
        k == steps.len() - 1 ==> step_delay(steps, index) == steps[k].at@,
        step_delay(Seq::empty(), index) == 0,
{
    if index < steps[k].clients || k == steps.len() - 1 {
        if k > 0 {
            assert(steps[k - 1].clients <= index);
        }
        lemma_step_delay(steps, index, clients, k);
    }
}

/// Without a ramp everyone starts at once, and every schedule has a time for each participant.
pub proof fn law_immediate_starts_at_once(
    delays: Seq<nat>,
    clients: nat,
    scheduler: SchedulerConfig,
    index: int,
)
    requires
        is_schedule(delays, clients, scheduler),
        0 <= index < clients,
    ensures
        delays.len() == clients,
        scheduler.strategy == RampStrategy::Immediate ==> delays[index] == 0,
{
}

/// Steps are valid just where each comes no earlier than the one before it and wants no fewer clients,
/// and the last of them wants no more clients than there are.
pub proof fn law_steps_climb(steps: Seq<RampStep>, clients: nat)
    ensures
        valid_steps(steps, clients) <==> {
            &&& forall|i: int|
                #![trigger steps[i]]
                0 < i < steps.len() ==> steps[i - 1].at@ <= steps[i].at@ && steps[i - 1].clients
                    <= steps[i].clients
            &&& steps.len() > 0 ==> steps.last().clients <= clients
        },
    decreases steps.len(),
{
    let climbs = forall|i: int|
        #![trigger steps[i]]
        0 < i < steps.len() ==> steps[i - 1].at@ <= steps[i].at@ && steps[i - 1].clients
            <= steps[i].clients;
    if climbs && (steps.len() > 0 ==> steps.last().clients <= clients) {
        assert forall|i: int, j: int| 0 <= i < j < steps.len() implies (#[trigger] steps[i]).at@ <= (
        #[trigger] steps[j]).at@ && steps[i].clients <= steps[j].clients by {
            lemma_steps_climb(steps, i, j);
        }
        assert forall|i: int| 0 <= i < steps.len() implies (#[trigger] steps[i]).clients
            <= clients by {
            let last = steps.len() - 1;
            if i < last {
                assert(steps[i].clients <= steps[last].clients);
            }
        }
    }
    if valid_steps(steps, clients) && steps.len() > 0 {
        assert(steps[steps.len() - 1].clients <= clients);
    }
}

/// Of steps that climb one by one a later one comes no earlier and wants no fewer clients.
proof fn lemma_steps_climb(steps: Seq<RampStep>, i: int, j: int)
    requires
        0 <= i < j < steps.len(),
        forall|i: int|
            #![trigger steps[i]]
            0 < i < steps.len() ==> steps[i - 1].at@ <= steps[i].at@ && steps[i - 1].clients
                <= steps[i].clients,
    ensures
        steps[i].at@ <= steps[j].at@,
        steps[i].clients <= steps[j].clients,
    decreases j - i,
{
    assert(steps[j - 1].at@ <= steps[j].at@ && steps[j - 1].clients <= steps[j].clients);
    if i < j - 1 {
        lemma_steps_climb(steps, i, j - 1);
    }
}

} // verus!
