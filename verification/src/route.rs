//! Routing rules: which quantizer a frame goes through, chosen from its
//! colour census, its pixel count, the speed setting and the policy.

use vstd::prelude::*;

verus! {

/// Which quantization route a frame takes.
#[derive(Debug, Clone, Copy, PartialEq, Eq, Structural)]
pub enum Route {
    /// At most 256 unique colours: exact palette, lossless w.r.t. the input frame.
    Exact,
    /// Median-cut + weighted k-means over the colour histogram.
    Histogram { iters: usize },
    /// NeuQuant trained on the frequency-capped unique-colour stream.
    UniqueStream { cap: u32 },
    /// NeuQuant trained on all pixels with a sampling factor.
    PixelStream { samplefac: i32 },
}

/// Quantization policy: the shipped content routing, or a forced route.
#[derive(Debug, Clone, Copy, PartialEq, Eq, Structural)]
pub enum Policy {
    /// Content-routed defaults (see `route_auto`).
    Auto,
    /// NeuQuant on every pixel with the caller's sampling factor.
    Upstream,
    /// k-means with a fixed iteration count.
    Kmeans { iters: usize },
    /// NeuQuant on the unique-colour stream, each colour capped at `cap` copies.
    Unique { cap: u32 },
    /// NeuQuant on all pixels with a sampling budget of `pixels`.
    Budget { pixels: usize },
}

/// Above this many unique colours the k-means route hands off to NeuQuant.
pub const KMEANS_MAX_UNIQUE: usize = 65536;
/// NeuQuant sampling budget of the high-diversity route.
pub const NQ_SAMPLE_BUDGET: usize = 125000;
/// Largest NeuQuant sampling factor.
pub const MAX_SAMPLEFAC: i32 = 30;

/// `ceil(a / b)` for `a >= 0`, `b > 0`.
pub open spec fn ceil_div(a: int, b: int) -> int {
    if a % b == 0 {
        a / b
    } else {
        a / b + 1
    }
}

/// `v` clamped to `lo..=hi`.
pub open spec fn clamp(v: int, lo: int, hi: int) -> int {
    if v < lo {
        lo
    } else if v > hi {
        hi
    } else {
        v
    }
}

/// Sampling factor for `pixels` pixels under a budget: `ceil(pixels / budget)`
/// (truncated to 32 bits) clamped to `speed..=30`.
pub open spec fn budget_samplefac(pixels: int, budget: int, speed: int) -> i32 {
    clamp(ceil_div(pixels, budget) as i32 as int, speed, MAX_SAMPLEFAC as int) as i32
}

/// The shipped routing: k-means iteration count tiers by colour diversity,
/// very high diversity goes to budget-sampled NeuQuant.
pub open spec fn route_auto_spec(unique: int, pixels: int, speed: int) -> Route {
    if unique <= KMEANS_MAX_UNIQUE {
        Route::Histogram {
            iters: if unique <= 32768 {
                3
            } else if unique <= 49152 {
                2
            } else {
                1
            },
        }
    } else {
        Route::PixelStream {
            samplefac: budget_samplefac(pixels, NQ_SAMPLE_BUDGET as int, speed),
        }
    }
}

/// The route a frame takes under a policy.
pub open spec fn select_route_spec(policy: Policy, unique: int, pixels: int, speed: int) -> Route {
    if unique <= 256 {
        Route::Exact
    } else {
        match policy {
            Policy::Auto => route_auto_spec(unique, pixels, speed),
            Policy::Upstream => Route::PixelStream { samplefac: speed as i32 },
            Policy::Kmeans { iters } => Route::Histogram { iters },
            Policy::Unique { cap } => Route::UniqueStream { cap },
            Policy::Budget { pixels: budget } => Route::PixelStream {
                samplefac: budget_samplefac(pixels, budget as int, speed),
            },
        }
    }
}

/// The policy can route a frame with `unique` colours at this speed (a budget
/// must be positive; a clamped sampling factor needs `speed <= 30`).
pub open spec fn policy_routable(policy: Policy, unique: int, speed: int) -> bool {
    match policy {
        Policy::Auto => unique > KMEANS_MAX_UNIQUE ==> speed <= MAX_SAMPLEFAC,
        Policy::Budget { pixels } => pixels > 0 && speed <= MAX_SAMPLEFAC,
        _ => true,
    }
}

/// `ceil(pixels / budget)` truncated to 32 bits, clamped to `speed..=30`.
fn budget_factor(pixels: usize, budget: usize, speed: i32) -> (s: i32)
    requires
        budget > 0,
        speed <= MAX_SAMPLEFAC,
    ensures
        s == budget_samplefac(pixels as int, budget as int, speed as int),
{
    let q = if pixels % budget == 0 {
        pixels / budget
    } else {
        proof {
            if budget >= 2 {
                vstd::arithmetic::div_mod::lemma_div_is_ordered_by_denominator(
                    pixels as int,
                    2,
                    budget as int,
                );
            }
        }
        pixels / budget + 1
    };
    let v = #[verifier::truncate] (q as i32);
    if v < speed {
        speed
    } else if v > MAX_SAMPLEFAC {
        MAX_SAMPLEFAC
    } else {
        v
    }
}

/// The shipped routing: k-means iteration count tiers by colour diversity
/// (more unique colours, costlier iterations, fewer of them); very high
/// diversity hands off to budget-sampled NeuQuant.
pub fn route_auto(unique: usize, pixels: usize, speed: i32) -> (r: Route)
    requires
        unique > KMEANS_MAX_UNIQUE ==> speed <= MAX_SAMPLEFAC,
    ensures
        r == route_auto_spec(unique as int, pixels as int, speed as int),
{
    if unique <= KMEANS_MAX_UNIQUE {
        let iters = if unique <= 32768 {
            3
        } else if unique <= 49152 {
            2
        } else {
            1
        };
        Route::Histogram { iters }
    } else {
        let samplefac = budget_factor(pixels, NQ_SAMPLE_BUDGET, speed);
        Route::PixelStream { samplefac }
    }
}

/// The route a frame with `unique` colours and `pixels` pixels takes under `policy`.
pub fn select_route(policy: Policy, unique: usize, pixels: usize, speed: i32) -> (r: Route)
    requires
        unique > 256 ==> policy_routable(policy, unique as int, speed as int),
    ensures
        r == select_route_spec(policy, unique as int, pixels as int, speed as int),
        unique > 256 && policy == Policy::Upstream ==> r == (Route::PixelStream { samplefac: speed }),
        unique <= 256 ==> r == Route::Exact,
{
    if unique <= 256 {
        return Route::Exact;
    }
    match policy {
        Policy::Auto => route_auto(unique, pixels, speed),
        Policy::Upstream => Route::PixelStream { samplefac: speed },
        Policy::Kmeans { iters } => Route::Histogram { iters },
        Policy::Unique { cap } => Route::UniqueStream { cap },
        Policy::Budget { pixels: budget } => Route::PixelStream {
            samplefac: budget_factor(pixels, budget, speed),
        },
    }
}

/// More unique colours never buy more k-means iterations: the auto route's
/// iteration count does not grow with colour diversity.
pub proof fn lemma_auto_iters_monotone(u1: int, u2: int, pixels: int, speed: int)
    requires
        u1 <= u2 <= KMEANS_MAX_UNIQUE,
    ensures
        route_auto_spec(u1, pixels, speed) matches Route::Histogram { iters: a }
            && route_auto_spec(u2, pixels, speed) matches Route::Histogram { iters: b } && a
            >= b,
{
}

/// Above 65,536 unique colours the auto route hands NeuQuant a sampling factor
/// in `speed..=30` that keeps the sampled pixels within the sampling budget,
/// unless the factor is capped at 30.
pub proof fn lemma_auto_budget(unique: int, pixels: int, speed: int)
    requires
        unique > KMEANS_MAX_UNIQUE,
        0 <= pixels,
        ceil_div(pixels, NQ_SAMPLE_BUDGET as int) <= i32::MAX,
        1 <= speed <= MAX_SAMPLEFAC,
    ensures
        route_auto_spec(unique, pixels, speed) matches Route::PixelStream { samplefac: f } && speed
            <= f <= MAX_SAMPLEFAC && (f < MAX_SAMPLEFAC ==> pixels <= f * NQ_SAMPLE_BUDGET),
{
    let b = NQ_SAMPLE_BUDGET as int;
    let q = ceil_div(pixels, b);
    assert(q * b >= pixels) by {
        vstd::arithmetic::div_mod::lemma_fundamental_div_mod(pixels, b);
    }
    assert(q >= 0);
    assert(q as i32 as int == q);
}

/// The auto route uses the histogram exactly up to 65,536 unique colours,
/// and above that its sampling factor never shrinks as the pixel count grows
/// (as long as `ceil(pixels / 125000)` fits in an `i32`).
pub proof fn lemma_auto_split_and_factor(u: int, p1: int, p2: int, speed: int)
    requires
        0 <= p1 <= p2,
        ceil_div(p2, NQ_SAMPLE_BUDGET as int) <= i32::MAX,
        1 <= speed <= MAX_SAMPLEFAC,
    ensures
        route_auto_spec(u, p1, speed) is Histogram <==> u <= KMEANS_MAX_UNIQUE,
        u > KMEANS_MAX_UNIQUE ==> (route_auto_spec(u, p1, speed) matches Route::PixelStream {
            samplefac: f1,
        } && route_auto_spec(u, p2, speed) matches Route::PixelStream { samplefac: f2 } && f1
            <= f2),
{
    let b = NQ_SAMPLE_BUDGET as int;
    let q1 = ceil_div(p1, b);
    let q2 = ceil_div(p2, b);
    assert(q1 <= q2) by {
        vstd::arithmetic::div_mod::lemma_div_is_ordered(p1, p2, b);
        vstd::arithmetic::div_mod::lemma_fundamental_div_mod(p1, b);
        vstd::arithmetic::div_mod::lemma_fundamental_div_mod(p2, b);
    }
    assert(q1 >= 0);
    assert(q1 as i32 as int == q1);
    assert(q2 as i32 as int == q2);
}

/// A forced policy takes its own route above 256 colours, whatever the pixel
/// count: `upstream` trains NeuQuant on every pixel at the caller's speed,
/// `kmeans:<n>` runs `n` k-means iterations, `unique:<cap>` trains on the
/// capped unique-colour stream. At most 256 colours always go exact.
pub proof fn lemma_forced_policies(unique: int, pixels: int, speed: i32, iters: usize, cap: u32)
    ensures
        unique > 256 ==> select_route_spec(Policy::Upstream, unique, pixels, speed as int)
            == (Route::PixelStream { samplefac: speed }),
        unique > 256 ==> select_route_spec((Policy::Kmeans { iters }), unique, pixels, speed as int)
            == (Route::Histogram { iters }),
        unique > 256 ==> select_route_spec((Policy::Unique { cap }), unique, pixels, speed as int)
            == (Route::UniqueStream { cap }),
        unique <= 256 ==> forall|p: Policy|
            #[trigger] select_route_spec(p, unique, pixels, speed as int) == Route::Exact,
{
}

// ---------------------------------------------------------------------------
// Policy settings.
// ---------------------------------------------------------------------------

/// Why a policy setting was refused.
#[derive(Debug, Clone, Copy, PartialEq, Eq, Structural)]
pub enum PolicyError {
    /// `kmeans:` not followed by an iteration count.
    BadKmeans,
    /// `unique:` not followed by a cap.
    BadUnique,
    /// `budget:` not followed by a pixel budget.
    BadBudget,
    /// None of `auto`, `upstream`, `kmeans:<iters>`, `unique:<cap>`, `budget:<pixels>`.
    Unknown,
}

/// `"auto"`.
pub open spec fn word_auto() -> Seq<u8> {
    seq![97u8, 117u8, 116u8, 111u8]
}

/// `"upstream"`.
pub open spec fn word_upstream() -> Seq<u8> {
    seq![117u8, 112u8, 115u8, 116u8, 114u8, 101u8, 97u8, 109u8]
}

/// `"kmeans:"`.
pub open spec fn word_kmeans() -> Seq<u8> {
    seq![107u8, 109u8, 101u8, 97u8, 110u8, 115u8, 58u8]
}

/// `"unique:"`.
pub open spec fn word_unique() -> Seq<u8> {
    seq![117u8, 110u8, 105u8, 113u8, 117u8, 101u8, 58u8]
}

/// `"budget:"`.
pub open spec fn word_budget() -> Seq<u8> {
    seq![98u8, 117u8, 100u8, 103u8, 101u8, 116u8, 58u8]
}

/// Every byte is an ASCII digit.
pub open spec fn all_digits(s: Seq<u8>) -> bool {
    forall|i: int| 0 <= i < s.len() ==> 48u8 <= #[trigger] s[i] <= 57u8
}

/// Value of a string of ASCII digits.
pub open spec fn decimal_value(s: Seq<u8>) -> int
    decreases s.len(),
{
    if s.len() == 0 {
        0
    } else {
        decimal_value(s.drop_last()) * 10 + (s.last() - 48u8)
    }
}

/// The digits of an unsigned number: a leading `+` is dropped when a digit
/// may follow it.
pub open spec fn unsigned_digits(s: Seq<u8>) -> Seq<u8> {
    if s.len() >= 2 && s[0] == 43u8 {
        s.drop_first()
    } else {
        s
    }
}

/// What `str::parse` gives for an unsigned integer type whose largest value
/// is `max`: an optional `+`, then at least one digit, and no overflow.
pub open spec fn parse_unsigned(s: Seq<u8>, max: int) -> Option<int> {
    let d = unsigned_digits(s);
    if d.len() >= 1 && all_digits(d) && decimal_value(d) <= max {
        Some(decimal_value(d))
    } else {
        None
    }
}

/// The policy a setting names.
pub open spec fn policy_spec(s: Seq<u8>) -> Result<Policy, PolicyError> {
    if s == word_auto() {
        Ok(Policy::Auto)
    } else if s == word_upstream() {
        Ok(Policy::Upstream)
    } else if word_kmeans().is_prefix_of(s) {
        match parse_unsigned(s.skip(7), usize::MAX as int) {
            Some(v) => Ok(Policy::Kmeans { iters: v as usize }),
            None => Err(PolicyError::BadKmeans),
        }
    } else if word_unique().is_prefix_of(s) {
        match parse_unsigned(s.skip(7), u32::MAX as int) {
            Some(v) => Ok(Policy::Unique { cap: v as u32 }),
            None => Err(PolicyError::BadUnique),
        }
    } else if word_budget().is_prefix_of(s) {
        match parse_unsigned(s.skip(7), usize::MAX as int) {
            Some(v) => Ok(Policy::Budget { pixels: v as usize }),
            None => Err(PolicyError::BadBudget),
        }
    } else {
        Err(PolicyError::Unknown)
    }
}

/// `s[start..]` begins with `word`.
fn starts_with_at(s: &[u8], word: &[u8]) -> (r: bool)
    ensures
        r == word@.is_prefix_of(s@),
{
    if word.len() > s.len() {
        return false;
    }
    let mut i: usize = 0;
    while i < word.len()
        invariant
            i <= word@.len() <= s@.len(),
            forall|j: int| 0 <= j < i ==> word@[j] == s@[j],
        decreases word@.len() - i,
    {
        if word[i] != s[i] {
            proof {
                assert(s@.subrange(0, word@.len() as int)[i as int] == s@[i as int]);
            }
            return false;
        }
        i += 1;
    }
    assert(word@ =~= s@.subrange(0, word@.len() as int));
    true
}

/// `s` is exactly `word`.
fn equals_word(s: &[u8], word: &[u8]) -> (r: bool)
    ensures
        r == (s@ == word@),
{
    let p = starts_with_at(s, word);
    if p && s.len() == word.len() {
        assert(s@ =~= word@);
        true
    } else {
        false
    }
}

proof fn lemma_decimal_push(s: Seq<u8>, b: u8)
    ensures
        decimal_value(s.push(b)) == decimal_value(s) * 10 + (b - 48u8),
{
    assert(s.push(b).drop_last() =~= s);
}

proof fn lemma_decimal_nonneg(s: Seq<u8>)
    requires
        all_digits(s),
    ensures
        decimal_value(s) >= 0,
    decreases s.len(),
{
    if s.len() > 0 {
        assert(all_digits(s.drop_last())) by {
            assert forall|i: int| 0 <= i < s.drop_last().len() implies 48u8
                <= #[trigger] s.drop_last()[i] <= 57u8 by {
                assert(s.drop_last()[i] == s[i]);
            }
        }
        lemma_decimal_nonneg(s.drop_last());
        assert(s[s.len() - 1] >= 48u8);
    }
}

/// Parses the unsigned decimal `s[start..]` the way `str::parse` does for an
/// integer type whose largest value is `max`.
fn parse_unsigned_from(s: &[u8], start: usize, max: usize) -> (r: Option<usize>)
    requires
        start <= s@.len(),
        max >= 9,
    ensures
        r is Some <==> parse_unsigned(s@.skip(start as int), max as int) is Some,
        r is Some ==> r->0 == parse_unsigned(s@.skip(start as int), max as int)->0,
{
    let ghost t = s@.skip(start as int);
    let mut i = start;
    if s.len() - start >= 2 && s[start] == 43u8 {
        i = start + 1;
    }
    let ghost d = s@.skip(i as int);
    assert(d =~= unsigned_digits(t));
    if i >= s.len() {
        return None;
    }
    let mut acc: usize = 0;
    let mut j = i;
    while j < s.len()
        invariant
            i <= j <= s@.len(),
            i < s@.len(),
            max >= 9,
            d == s@.skip(i as int),
            d == unsigned_digits(t),
            t == s@.skip(start as int),
            all_digits(d.take(j - i)),
            acc == decimal_value(d.take(j - i)),
            acc <= max,
        decreases s@.len() - j,
    {
        let b = s[j];
        assert(d.take(j - i + 1) =~= d.take(j - i).push(b));
        proof {
            lemma_decimal_push(d.take(j - i), b);
        }
        if b < 48u8 || b > 57u8 {
            assert(!all_digits(d)) by {
                assert(d[j - i] == b);
            }
            return None;
        }
        let v = (b - 48u8) as usize;
        assert(all_digits(d.take(j - i + 1))) by {
            assert forall|q: int| 0 <= q < d.take(j - i + 1).len() implies 48u8
                <= #[trigger] d.take(j - i + 1)[q] <= 57u8 by {
                if q < j - i {
                    assert(d.take(j - i + 1)[q] == d.take(j - i)[q]);
                }
            }
        }
        if acc > (max - v) / 10 {
            proof {
                assert(acc * 10 + v > max) by (nonlinear_arith)
                    requires
                        acc > (max - v) / 10,
                        0 <= v <= max,
                ;
                // Digits only add value, so the whole number is too large too.
                lemma_decimal_grows(d, j - i + 1);
            }
            return None;
        }
        proof {
            assert(acc * 10 + v <= max) by (nonlinear_arith)
                requires
                    acc <= (max - v) / 10,
                    0 <= v,
            ;
        }
        acc = acc * 10 + v;
        j += 1;
    }
    assert(d.take(j - i) =~= d);
    Some(acc)
}

/// A number written with more digits is at least as large as its prefix.
proof fn lemma_decimal_grows(d: Seq<u8>, n: int)
    requires
        0 <= n <= d.len(),
        all_digits(d.take(n)),
    ensures
        all_digits(d) ==> decimal_value(d) >= decimal_value(d.take(n)),
    decreases d.len() - n,
{
    if n < d.len() && all_digits(d) {
        assert(all_digits(d.take(n + 1))) by {
            assert forall|q: int| 0 <= q < d.take(n + 1).len() implies 48u8
                <= #[trigger] d.take(n + 1)[q] <= 57u8 by {
                assert(d.take(n + 1)[q] == d[q]);
            }
        }
        lemma_decimal_grows(d, n + 1);
        assert(d.take(n + 1) =~= d.take(n).push(d[n]));
        lemma_decimal_push(d.take(n), d[n]);
        lemma_decimal_nonneg(d.take(n));
    }
    if n == d.len() {
        assert(d.take(n) =~= d);
    }
}

/// The policy a setting names: `auto`, `upstream`, `kmeans:<iters>`,
/// `unique:<cap>` or `budget:<pixels>`; anything else is refused.
pub fn policy_from_setting(setting: &[u8]) -> (r: Result<Policy, PolicyError>)
    ensures
        r == policy_spec(setting@),
{
    let auto: [u8; 4] = [97u8, 117u8, 116u8, 111u8];
    let upstream: [u8; 8] = [117u8, 112u8, 115u8, 116u8, 114u8, 101u8, 97u8, 109u8];
    let kmeans: [u8; 7] = [107u8, 109u8, 101u8, 97u8, 110u8, 115u8, 58u8];
    let unique: [u8; 7] = [117u8, 110u8, 105u8, 113u8, 117u8, 101u8, 58u8];
    let budget: [u8; 7] = [98u8, 117u8, 100u8, 103u8, 101u8, 116u8, 58u8];
    assert(auto@ =~= word_auto());
    assert(upstream@ =~= word_upstream());
    assert(kmeans@ =~= word_kmeans());
    assert(unique@ =~= word_unique());
    assert(budget@ =~= word_budget());
    if equals_word(setting, auto.as_slice()) {
        Ok(Policy::Auto)
    } else if equals_word(setting, upstream.as_slice()) {
        Ok(Policy::Upstream)
    } else if starts_with_at(setting, kmeans.as_slice()) {
        match parse_unsigned_from(setting, 7, usize::MAX) {
            Some(v) => Ok(Policy::Kmeans { iters: v }),
            None => Err(PolicyError::BadKmeans),
        }
    } else if starts_with_at(setting, unique.as_slice()) {
        match parse_unsigned_from(setting, 7, u32::MAX as usize) {
            Some(v) => Ok(Policy::Unique { cap: v as u32 }),
            None => Err(PolicyError::BadUnique),
        }
    } else if starts_with_at(setting, budget.as_slice()) {
        match parse_unsigned_from(setting, 7, usize::MAX) {
            Some(v) => Ok(Policy::Budget { pixels: v }),
            None => Err(PolicyError::BadBudget),
        }
    } else {
        Err(PolicyError::Unknown)
    }
}

} // verus!
