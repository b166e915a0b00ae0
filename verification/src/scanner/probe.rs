//! Probing one address.
use crate::float_bits::Single;
use crate::model::IpQuality;
use crate::net::IpAddr;
use crate::text::{chars_of, has_prefix, lines, lines_of, slice_of, starts_with, string_of, views};
use vstd::prelude::*;

verus! {

/// The seconds a probe may take.
pub const TIMEOUT_SECS: u64 = 2;

/// The seconds a probe may take to connect.
pub const CONNECT_TIMEOUT_SECS: u64 = 1;

/// How often an address is probed.
pub const PROBE_COUNT: usize = 5;

/// The pause between two probes of an address.
pub const PROBE_PAUSE_MS: u64 = 50;

/// The sum of some values.
pub open spec fn total(values: Seq<u128>) -> int
    decreases values.len(),
{
    if values.len() == 0 {
        0
    } else {
        total(values.drop_last()) + values.last()
    }
}

/// A value as the signed number with the same bits.
pub open spec fn signed(value: u128) -> int {
    if value <= i128::MAX {
        value as int
    } else {
        value - u128::MAX - 1
    }
}

/// The distance of two values.
pub open spec fn distance(a: u128, b: u128) -> int {
    if signed(a) >= signed(b) {
        signed(a) - signed(b)
    } else {
        signed(b) - signed(a)
    }
}

/// The sum of the distances between neighbours.
pub open spec fn total_change(values: Seq<u128>) -> int
    decreases values.len(),
{
    if values.len() < 2 {
        0
    } else {
        total_change(values.drop_last()) + distance(values[values.len() - 2], values.last())
    }
}

/// The whole part of the mean, of a sum that stops growing at the largest
/// value there is; zero of nothing.
pub open spec fn mean_of(values: Seq<u128>) -> int {
    if values.len() == 0 {
        0
    } else if total(values) <= u128::MAX {
        total(values) / (values.len() as int)
    } else {
        u128::MAX as int / (values.len() as int)
    }
}

/// The whole part of the mean, of a sum that stops growing at the largest
/// value there is; zero where there is no value.
pub fn calculate_average(values: &[u128]) -> (mean: u128)
    ensures
        mean == mean_of(values@),
{
    if values.len() == 0 {
        return 0;
    }
    let mut sum: u128 = 0;
    let mut i: usize = 0;
    while i < values.len()
        invariant
            i <= values@.len(),
            total(values@.take(i as int)) >= 0,
            sum == if total(values@.take(i as int)) <= u128::MAX {
                total(values@.take(i as int))
            } else {
                u128::MAX as int
            },
        decreases values@.len() - i,
    {
        assert(values@.take(i + 1).drop_last() =~= values@.take(i as int));
        assert(values@.take(i + 1).last() == values@[i as int]);
        sum = sum.saturating_add(values[i]);
        i = i + 1;
    }
    assert(values@.take(i as int) =~= values@);
    sum / values.len() as u128
}

proof fn lemma_total_change_grows(values: Seq<u128>, n: int)
    requires
        0 <= n <= values.len(),
    ensures
        0 <= total_change(values.take(n)) <= total_change(values),
    decreases values.len(),
{
    if n == values.len() {
        assert(values.take(n) =~= values);
        if n >= 2 {
            lemma_total_change_grows(values.drop_last(), n - 1);
            assert(values.drop_last().take(n - 1) =~= values.drop_last());
        }
    } else {
        lemma_total_change_grows(values.drop_last(), n);
        assert(values.drop_last().take(n) =~= values.take(n));
        if values.len() < 2 {
            assert(values.take(n).len() < 2);
        }
    }
}

/// The whole part of the mean distance between neighbours; zero where there
/// are fewer than two values.
pub open spec fn jitter_of(values: Seq<u128>) -> int {
    if values.len() < 2 {
        0
    } else {
        total_change(values) / (values.len() - 1)
    }
}

proof fn lemma_total_change_from_start(values: Seq<u128>)
    requires
        values.len() >= 2,
    ensures
        total_change(values) == distance(values[0], values[1]) + total_change(values.drop_first()),
    decreases values.len(),
{
    if values.len() == 2 {
        assert(total_change(values.drop_last()) == 0);
        assert(total_change(values.drop_first()) == 0);
    } else {
        lemma_total_change_from_start(values.drop_last());
        assert(values.drop_last().drop_first() =~= values.drop_first().drop_last());
    }
}

proof fn lemma_total_change_reversed(values: Seq<u128>)
    ensures
        total_change(values.reverse()) == total_change(values),
    decreases values.len(),
{
    if values.len() >= 2 {
        let reversed = values.reverse();
        lemma_total_change_from_start(values);
        lemma_total_change_reversed(values.drop_first());
        assert(reversed.drop_last() =~= values.drop_first().reverse());
        assert(reversed.last() == values[0]);
        assert(reversed[reversed.len() - 2] == values[1]);
    }
}

/// The jitter is the same from the last latency to the first.
pub proof fn jitter_is_kept_by_reversal(values: Seq<u128>)
    ensures
        jitter_of(values.reverse()) == jitter_of(values),
{
    lemma_total_change_reversed(values);
}

proof fn lemma_total_change_shifted(values: Seq<u128>, shifted: Seq<u128>, by: int)
    requires
        shifted.len() == values.len(),
        forall|i: int|
            0 <= i < values.len() ==> signed(#[trigger] shifted[i]) == signed(values[i]) + by,
    ensures
        total_change(shifted) == total_change(values),
    decreases values.len(),
{
    if values.len() >= 2 {
        let n = values.len() as int;
        assert(signed(shifted[n - 1]) == signed(values[n - 1]) + by);
        assert(signed(shifted[n - 2]) == signed(values[n - 2]) + by);
        assert forall|i: int| 0 <= i < n - 1 implies signed(#[trigger] shifted.drop_last()[i])
            == signed(values.drop_last()[i]) + by by {
            assert(signed(shifted[i]) == signed(values[i]) + by);
        }
        lemma_total_change_shifted(values.drop_last(), shifted.drop_last(), by);
    }
}

/// The jitter is the same where every latency grows by as much.
pub proof fn jitter_is_kept_by_shifts(values: Seq<u128>, shifted: Seq<u128>, by: int)
    requires
        shifted.len() == values.len(),
        forall|i: int|
            0 <= i < values.len() ==> signed(#[trigger] shifted[i]) == signed(values[i]) + by,
    ensures
        jitter_of(shifted) == jitter_of(values),
{
    lemma_total_change_shifted(values, shifted, by);
}

proof fn lemma_total_change_bound(values: Seq<u128>, low: int, high: int)
    requires
        values.len() >= 1,
        forall|i: int| 0 <= i < values.len() ==> low <= signed(#[trigger] values[i]) <= high,
    ensures
        0 <= total_change(values) <= (values.len() - 1) * (high - low),
    decreases values.len(),
{
    if values.len() >= 2 {
        let n = values.len() as int;
        assert(low <= signed(values[n - 1]) <= high);
        assert(low <= signed(values[n - 2]) <= high);
        assert forall|i: int| 0 <= i < n - 1 implies low <= signed(
            #[trigger] values.drop_last()[i],
        ) <= high by {
            assert(low <= signed(values[i]) <= high);
        }
        lemma_total_change_bound(values.drop_last(), low, high);
        assert((n - 1) * (high - low) == (n - 2) * (high - low) + (high - low))
            by (nonlinear_arith);
    }
}

/// The jitter is at most the distance between the smallest latency and the
/// largest.
pub proof fn jitter_is_bounded_by_spread(values: Seq<u128>, low: int, high: int)
    requires
        low <= high,
        forall|i: int| 0 <= i < values.len() ==> low <= signed(#[trigger] values[i]) <= high,
    ensures
        0 <= jitter_of(values) <= high - low,
{
    if values.len() >= 2 {
        lemma_total_change_bound(values, low, high);
        let sum = total_change(values);
        let n = values.len() - 1;
        let spread = high - low;
        assert(0 <= sum / n <= spread) by (nonlinear_arith)
            requires
                n >= 1,
                0 <= sum <= n * spread,
        ;
    }
}

/// The signed number with the same bits.
fn to_signed(value: u128) -> (r: i128)
    ensures
        r == signed(value),
{
    if value <= 0x7FFF_FFFF_FFFF_FFFF_FFFF_FFFF_FFFF_FFFF {
        value as i128
    } else {
        -1 - (u128::MAX - value) as i128
    }
}

/// The whole part of the mean distance between neighbours; zero where there
/// are fewer than two values.
pub fn calculate_jitter(latencies: &[u128]) -> (jitter: u128)
    requires
        total_change(latencies@) <= i128::MAX,
    ensures
        jitter == jitter_of(latencies@),
{
    if latencies.len() < 2 {
        return 0;
    }
    let mut sum: u128 = 0;
    let mut i: usize = 1;
    assert(total_change(latencies@.take(1)) == 0);
    while i < latencies.len()
        invariant
            1 <= i <= latencies@.len(),
            total_change(latencies@) <= i128::MAX,
            sum == total_change(latencies@.take(i as int)),
        decreases latencies@.len() - i,
    {
        assert(latencies@.take(i + 1).drop_last() =~= latencies@.take(i as int));
        assert(latencies@.take(i + 1).last() == latencies@[i as int]);
        assert(latencies@.take(i + 1)[i - 1] == latencies@[i - 1]);
        proof {
            lemma_total_change_grows(latencies@, i + 1);
            lemma_total_change_grows(latencies@, i as int);
        }
        let earlier: i128 = to_signed(latencies[i - 1]);
        let later: i128 = to_signed(latencies[i]);
        let step: i128 = if earlier >= later {
            earlier - later
        } else {
            later - earlier
        };
        sum = sum + step as u128;
        i = i + 1;
    }
    assert(latencies@.take(i as int) =~= latencies@);
    sum / (latencies.len() - 1) as u128
}

/// The data centre that the lines of a trace name: what follows `colo=` on the
/// first line that starts so.
pub open spec fn colo_of(lines: Seq<Seq<char>>) -> Option<Seq<char>>
    decreases lines.len(),
{
    if lines.len() == 0 {
        None
    } else if starts_with(lines[0], "colo="@) {
        Some(lines[0].skip("colo="@.len() as int))
    } else {
        colo_of(lines.drop_first())
    }
}

/// Reads the data centre off a trace.
pub fn parse_colo(body: &str) -> (r: Option<String>)
    ensures
        match r {
            Some(colo) => colo_of(lines_of(body@)) == Some(colo@),
            None => colo_of(lines_of(body@)) is None,
        },
{
    let all: Vec<Vec<char>> = lines(&chars_of(body));
    let prefix: Vec<char> = chars_of("colo=");
    let ghost texts: Seq<Seq<char>> = lines_of(body@);
    let mut i: usize = 0;
    assert(texts.skip(0) =~= texts);
    while i < all.len()
        invariant
            i <= all@.len(),
            views(all@) == texts,
            prefix@ == "colo="@,
            colo_of(texts.skip(i as int)) == colo_of(texts),
            texts == lines_of(body@),
        decreases all@.len() - i,
    {
        assert(texts[i as int] == all@[i as int]@);
        assert(texts.skip(i as int)[0] == texts[i as int]);
        if has_prefix(&all[i], &prefix) {
            let rest: Vec<char> = slice_of(&all[i], prefix.len(), all[i].len());
            assert(rest@ =~= texts[i as int].skip(prefix@.len() as int));
            return Some(string_of(&rest));
        }
        assert(texts.skip(i as int).drop_first() =~= texts.skip(i + 1));
        i = i + 1;
    }
    None
}

/// What one probe found: the latency and the data centre, where the answer was
/// a success and names a data centre.
pub open spec fn probe_result(status: u16, latency_ms: u128, body: Option<Seq<char>>) -> Option<
    (u128, Seq<char>),
> {
    match body {
        Some(text) if 200 <= status < 300 => match colo_of(lines_of(text)) {
            Some(colo) => Some((latency_ms, colo)),
            None => None,
        },
        _ => None,
    }
}

/// Judges the answer to one probe. `body` is nothing where it could not be
/// read.
pub fn judge_probe(status: u16, latency_ms: u128, body: Option<&str>) -> (r: Option<(u128, String)>)
    ensures
        match body {
            Some(text) => (match r {
                Some(found) => probe_result(status, latency_ms, Some(text@)) == Some(
                    (found.0, found.1@),
                ),
                None => probe_result(status, latency_ms, Some(text@)) is None,
            }),
            None => r is None,
        },
{
    if status < 200 || status >= 300 {
        return None;
    }
    match body {
        Some(text) => match parse_colo(text) {
            Some(colo) => Some((latency_ms, colo)),
            None => None,
        },
        None => None,
    }
}

/// The probes of one address so far.
#[derive(Debug)]
pub struct ProbeRun {
    /// The latencies of the probes that succeeded, in order.
    pub latencies: Vec<u128>,
    /// The data centre of the latest probe that succeeded.
    pub last_colo: String,
    /// How many probes were made.
    pub probes: usize,
}

/// The latencies of the probes that succeeded.
pub open spec fn latencies_of(outcomes: Seq<Option<(u128, Seq<char>)>>) -> Seq<u128>
    decreases outcomes.len(),
{
    if outcomes.len() == 0 {
        Seq::empty()
    } else {
        match outcomes.last() {
            Some(found) => latencies_of(outcomes.drop_last()).push(found.0),
            None => latencies_of(outcomes.drop_last()),
        }
    }
}

/// The data centre of the latest probe that succeeded; empty where none did.
pub open spec fn last_colo_of(outcomes: Seq<Option<(u128, Seq<char>)>>) -> Seq<char>
    decreases outcomes.len(),
{
    if outcomes.len() == 0 {
        Seq::empty()
    } else {
        match outcomes.last() {
            Some(found) => found.1,
            None => last_colo_of(outcomes.drop_last()),
        }
    }
}

/// The outcome of a probe, with the data centre as a text.
pub open spec fn outcome_view(outcome: Option<(u128, String)>) -> Option<(u128, Seq<char>)> {
    match outcome {
        Some(found) => Some((found.0, found.1@)),
        None => None,
    }
}

/// The pause before the next probe of an address; none where there is no next.
pub open spec fn pause_before_next(probes: usize) -> Option<u64> {
    if probes < PROBE_COUNT {
        Some(PROBE_PAUSE_MS)
    } else {
        None
    }
}

impl ProbeRun {
    /// Whether this is what the given outcomes leave.
    pub open spec fn holds(self, outcomes: Seq<Option<(u128, Seq<char>)>>) -> bool {
        &&& self.probes == outcomes.len()
        &&& self.latencies@ == latencies_of(outcomes)
        &&& self.last_colo@ == last_colo_of(outcomes)
    }

    /// No probe yet.
    pub fn new() -> (run: ProbeRun)
        ensures
            run.holds(Seq::empty()),
            run.probes == 0,
            run.latencies@.len() == 0,
            run.last_colo@.len() == 0,
    {
        let run: ProbeRun = ProbeRun {
            latencies: Vec::new(),
            last_colo: String::new(),
            probes: 0,
        };
        assert(run.last_colo@ =~= Seq::<char>::empty());
        run
    }

    /// Takes in the outcome of a probe, and says how many milliseconds to wait
    /// before the next one: nothing where it was the last.
    pub fn record(&mut self, outcome: Option<(u128, String)>) -> (pause_ms: Option<u64>)
        requires
            old(self).probes < PROBE_COUNT,
        ensures
            final(self).probes == old(self).probes + 1,
            final(self).latencies@ == match outcome {
                Some(found) => old(self).latencies@.push(found.0),
                None => old(self).latencies@,
            },
            final(self).last_colo == match outcome {
                Some(found) => found.1,
                None => old(self).last_colo,
            },
            pause_ms == pause_before_next(final(self).probes),
            forall|outcomes: Seq<Option<(u128, Seq<char>)>>| #[trigger]
                old(self).holds(outcomes) ==> final(self).holds(
                    outcomes.push(outcome_view(outcome)),
                ),
    {
        let ghost earlier: ProbeRun = *self;
        self.probes = self.probes + 1;
        if let Some((latency, colo)) = outcome {
            self.latencies.push(latency);
            self.last_colo = colo;
        }
        proof {
            assert forall|outcomes: Seq<Option<(u128, Seq<char>)>>| #[trigger]
                earlier.holds(outcomes) implies self.holds(
                outcomes.push(outcome_view(outcome)),
            ) by {
                assert(outcomes.push(outcome_view(outcome)).drop_last() =~= outcomes);
            }
        }
        if self.probes < PROBE_COUNT {
            Some(PROBE_PAUSE_MS)
        } else {
            None
        }
    }

    /// Turns a finished run into a record of the address; nothing where no
    /// probe succeeded.
    pub fn quality(self, ip: IpAddr, score: Single, now: i128) -> (r: Option<IpQuality>)
        requires
            self.latencies@.len() <= PROBE_COUNT,
            total_change(self.latencies@) <= i128::MAX,
        ensures
            r is None <==> self.latencies@.len() == 0,
            r matches Some(q) ==> {
                &&& q.ip == ip
                &&& q.latency == mean_of(self.latencies@) % 0x1_0000_0000_0000_0000
                &&& q.jitter == jitter_of(self.latencies@) % 0x1_0000_0000_0000_0000
                &&& q.loss_rate == loss_rate_spec(self.latencies@.len() as int)
                &&& q.score == score
                &&& q.colo == self.last_colo
                &&& q.last_updated == now
            },
    {
        if self.latencies.len() == 0 {
            return None;
        }
        let loss: Single = loss_rate(self.latencies.len());
        let average: u128 = calculate_average(self.latencies.as_slice());
        let jitter: u128 = calculate_jitter(self.latencies.as_slice());
        Some(IpQuality::new(ip, average, jitter, loss, self.last_colo, score, now))
    }
}

/// One minus the part of the probes that succeeded, rounded to single
/// precision.
pub open spec fn loss_rate_spec(successes: int) -> Single {
    if successes == 0 {
        Single { bits: 0x3F80_0000 }
    } else if successes == 1 {
        Single { bits: 0x3F4C_CCCD }
    } else if successes == 2 {
        Single { bits: 0x3F19_999A }
    } else if successes == 3 {
        Single { bits: 0x3ECC_CCCC }
    } else if successes == 4 {
        Single { bits: 0x3E4C_CCCC }
    } else {
        Single { bits: 0 }
    }
}

/// The part of the probes that failed.
pub fn loss_rate(successes: usize) -> (rate: Single)
    requires
        successes <= PROBE_COUNT,
    ensures
        rate == loss_rate_spec(successes as int),
{
    if successes == 0 {
        Single { bits: 0x3F80_0000 }
    } else if successes == 1 {
        Single { bits: 0x3F4C_CCCD }
    } else if successes == 2 {
        Single { bits: 0x3F19_999A }
    } else if successes == 3 {
        Single { bits: 0x3ECC_CCCC }
    } else if successes == 4 {
        Single { bits: 0x3E4C_CCCC }
    } else {
        Single { bits: 0 }
    }
}

/// The sum of values is that of the parts they fall into.
pub proof fn totals_add_up(a: Seq<u128>, b: Seq<u128>, value: u128)
    ensures
        total(a + b) == total(a) + total(b),
        total(seq![value]) == value,
        total(Seq::empty()) == 0,
    decreases b.len(),
{
    reveal_with_fuel(total, 2);
    assert(seq![value].drop_last() =~= Seq::<u128>::empty());
    if b.len() == 0 {
        assert(a + b =~= a);
    } else {
        totals_add_up(a, b.drop_last(), value);
        assert((a + b).drop_last() =~= a + b.drop_last());
    }
}

/// The mean, as often as there are values, is the sum but for less than one of
/// each; it lies between the smallest and the largest value.
pub proof fn mean_shares_the_sum(values: Seq<u128>, low: u128, high: u128)
    requires
        values.len() > 0,
        total(values) <= u128::MAX,
        forall|i: int| 0 <= i < values.len() ==> low <= #[trigger] values[i] <= high,
    ensures
        mean_of(values) * values.len() <= total(values) < (mean_of(values) + 1) * values.len(),
        low <= mean_of(values) <= high,
{
    lemma_total_between(values, low, high);
    let sum: int = total(values);
    let n: int = values.len() as int;
    let mean: int = mean_of(values);
    assert(mean * n <= sum < (mean + 1) * n) by (nonlinear_arith)
        requires
            n > 0,
            mean == sum / n,
    ;
    assert(low <= mean <= high) by (nonlinear_arith)
        requires
            n > 0,
            mean * n <= sum < (mean + 1) * n,
            low * n <= sum <= high * n,
    ;
}

/// A sum of values between two bounds.
proof fn lemma_total_between(values: Seq<u128>, low: u128, high: u128)
    requires
        forall|i: int| 0 <= i < values.len() ==> low <= #[trigger] values[i] <= high,
    ensures
        low * values.len() <= total(values) <= high * values.len(),
    decreases values.len(),
{
    if values.len() > 0 {
        assert forall|i: int| 0 <= i < values.drop_last().len() implies low
            <= #[trigger] values.drop_last()[i] <= high by {
            assert(values.drop_last()[i] == values[i]);
        }
        lemma_total_between(values.drop_last(), low, high);
        let n: int = values.len() - 1;
        assert(values[n] == values.last());
        assert(low * (n + 1) == low * n + low) by (nonlinear_arith);
        assert(high * (n + 1) == high * n + high) by (nonlinear_arith);
    } else {
        assert(low * 0 == 0 && high * 0 == 0);
    }
}

/// The changes along values are those along the parts they fall into and that
/// from the one part to the other. A change counts by its size, whichever way
/// it goes.
pub proof fn changes_add_up(a: Seq<u128>, b: Seq<u128>, x: u128, y: u128)
    requires
        a.len() > 0,
        b.len() > 0,
        x <= y <= i128::MAX,
    ensures
        total_change(a + b) == total_change(a) + distance(a.last(), b[0]) + total_change(b),
        total_change(seq![x]) == 0,
        distance(x, y) == y - x && distance(y, x) == y - x,
    decreases b.len(),
{
    reveal_with_fuel(total_change, 2);
    let whole: Seq<u128> = a + b;
    assert(whole.last() == b.last());
    if b.len() == 1 {
        assert(whole.drop_last() =~= a);
        assert(whole[whole.len() - 2] == a.last());
    } else {
        changes_add_up(a, b.drop_last(), x, y);
        assert(whole.drop_last() =~= a + b.drop_last());
        assert(whole[whole.len() - 2] == b[b.len() - 2]);
    }
}

/// The jitter, as often as there are neighbours, is the sum of the changes but
/// for less than one of each.
pub proof fn jitter_shares_the_changes(values: Seq<u128>)
    ensures
        values.len() < 2 ==> jitter_of(values) == 0,
        values.len() >= 2 ==> jitter_of(values) * (values.len() - 1) <= total_change(values) < (
        jitter_of(values) + 1) * (values.len() - 1),
{
    if values.len() >= 2 {
        let sum: int = total_change(values);
        let n: int = values.len() - 1;
        let jitter: int = jitter_of(values);
        assert(jitter * n <= sum < (jitter + 1) * n) by (nonlinear_arith)
            requires
                n > 0,
                jitter == sum / n,
        ;
    }
}

/// The data centre is what follows `colo=` on the first line that starts so,
/// and there is none where no line does.
pub proof fn first_data_centre_is_read(lines: Seq<Seq<char>>)
    ensures
        colo_of(lines) matches Some(colo) ==> exists|i: int|
            0 <= i < lines.len() && #[trigger] lines[i] == "colo="@ + colo && forall|j: int|
                0 <= j < i ==> !starts_with(#[trigger] lines[j], "colo="@),
        colo_of(lines) is None ==> forall|j: int|
            0 <= j < lines.len() ==> !starts_with(#[trigger] lines[j], "colo="@),
    decreases lines.len(),
{
    if lines.len() > 0 {
        if starts_with(lines[0], "colo="@) {
            let colo: Seq<char> = lines[0].skip("colo="@.len() as int);
            assert(lines[0] =~= "colo="@ + colo);
        } else {
            let rest: Seq<Seq<char>> = lines.drop_first();
            first_data_centre_is_read(rest);
            if let Some(colo) = colo_of(rest) {
                let i = choose|i: int|
                    0 <= i < rest.len() && #[trigger] rest[i] == "colo="@ + colo && forall|j: int|
                        0 <= j < i ==> !starts_with(#[trigger] rest[j], "colo="@);
                assert(lines[i + 1] == "colo="@ + colo);
                assert forall|j: int| 0 <= j < i + 1 implies !starts_with(
                    #[trigger] lines[j],
                    "colo="@,
                ) by {
                    if j > 0 {
                        assert(rest[j - 1] == lines[j]);
                    }
                }
            } else {
                assert forall|j: int| 0 <= j < lines.len() implies !starts_with(
                    #[trigger] lines[j],
                    "colo="@,
                ) by {
                    if j > 0 {
                        assert(rest[j - 1] == lines[j]);
                    }
                }
            }
        }
    }
}

/// A probe finds something if and only if the status is one of success, and a
/// body is there and names a data centre. It finds the latency and that data
/// centre.
pub proof fn success_needs_a_data_centre(status: u16, latency_ms: u128, body: Option<Seq<char>>)
    ensures
        probe_result(status, latency_ms, body) is Some <==> status >= 200 && status <= 299
            && body is Some && colo_of(lines_of(body->0)) is Some,
        probe_result(status, latency_ms, body) matches Some(found) ==> found.0 == latency_ms
            && Some(found.1) == colo_of(lines_of(body->0)),
{
}

/// An address is probed five times, with fifty milliseconds between.
pub proof fn probes_are_five(probes: usize)
    ensures
        probes < 5 ==> pause_before_next(probes) == Some(50u64),
        probes >= 5 ==> pause_before_next(probes) is None,
{
}

/// The latencies are those of the probes that found something, in order, and
/// the data centre is that of the last of these.
pub proof fn outcomes_add_up(
    a: Seq<Option<(u128, Seq<char>)>>,
    b: Seq<Option<(u128, Seq<char>)>>,
    found: (u128, Seq<char>),
)
    requires
        forall|i: int| 0 <= i < b.len() ==> (#[trigger] b[i]) is None,
    ensures
        latencies_of(a.push(Some(found)) + b) == latencies_of(a).push(found.0),
        last_colo_of(a.push(Some(found)) + b) == found.1,
        latencies_of(b) == Seq::<u128>::empty(),
        last_colo_of(b) == Seq::<char>::empty(),
    decreases b.len(),
{
    let whole: Seq<Option<(u128, Seq<char>)>> = a.push(Some(found)) + b;
    if b.len() == 0 {
        assert(whole =~= a.push(Some(found)));
        assert(whole.drop_last() =~= a);
    } else {
        assert forall|i: int| 0 <= i < b.drop_last().len() implies (#[trigger] b.drop_last()[i])
            is None by {
            assert(b[i] is None);
        }
        outcomes_add_up(a, b.drop_last(), found);
        assert(whole.drop_last() =~= a.push(Some(found)) + b.drop_last());
        assert(b[b.len() - 1] is None);
    }
}

/// The value of a pattern without a sign, from one eighth up to less than two,
/// in parts of two to the power of minus twenty-six.
pub open spec fn in_parts(value: Single) -> int {
    let fraction = 0x80_0000 + value.bits % 0x80_0000;
    if value.bits / 0x80_0000 == 127 {
        fraction * 8
    } else if value.bits / 0x80_0000 == 126 {
        fraction * 4
    } else if value.bits / 0x80_0000 == 125 {
        fraction * 2
    } else if value.bits / 0x80_0000 == 124 {
        fraction
    } else {
        0
    }
}

/// The loss is one fifth for each of the five probes that did not succeed, but
/// for what rounding does.
pub proof fn loss_is_a_fifth_of_each(successes: int)
    requires
        0 <= successes <= 5,
    ensures
        -8 <= 5 * in_parts(loss_rate_spec(successes)) - (5 - successes) * 0x400_0000 <= 8,
        successes == 5 ==> loss_rate_spec(successes).bits == 0,
        successes == 0 ==> loss_rate_spec(successes).bits == 0x3F80_0000,
{
    if successes == 0 {
        assert(5 * in_parts(loss_rate_spec(0)) == 5 * 0x400_0000);
    } else if successes == 1 {
        assert(in_parts(loss_rate_spec(1)) == 4 * 0xCC_CCCD);
    } else if successes == 2 {
        assert(in_parts(loss_rate_spec(2)) == 4 * 0x99_999A);
    } else if successes == 3 {
        assert(in_parts(loss_rate_spec(3)) == 2 * 0xCC_CCCC);
    } else if successes == 4 {
        assert(in_parts(loss_rate_spec(4)) == 0xCC_CCCC);
    } else {
        assert(successes == 5);
    }
}

/// A sum that grows too large stays at the largest value, and the mean shares
/// that.
pub proof fn large_sums_stop_growing(values: Seq<u128>)
    requires
        values.len() > 0,
        total(values) > u128::MAX,
    ensures
        mean_of(values) * values.len() <= u128::MAX < (mean_of(values) + 1) * values.len(),
{
    let n: int = values.len() as int;
    let mean: int = mean_of(values);
    assert(mean * n <= u128::MAX < (mean + 1) * n) by (nonlinear_arith)
        requires
            n > 0,
            mean == u128::MAX as int / n,
    ;
}

/// A value that has the sign bit counts as the negative number of these bits.
pub proof fn sign_bit_makes_negative(value: u128)
    ensures
        value < 0x8000_0000_0000_0000_0000_0000_0000_0000 ==> signed(value) == value,
        value >= 0x8000_0000_0000_0000_0000_0000_0000_0000 ==> signed(value) == value
            - 0x1_0000_0000_0000_0000_0000_0000_0000_0000,
{
}

} // verus!
