//! Decisions of the DRTIO-over-EEM serdes calibration: which delay tap to
//! use on each lane and how many bitslips to apply.
//!
//! The calibration measures, for a delay tap, how many samples of the lane
//! read low and how many read high; the low rate is `low / (low + high)`.
//! Rates are compared here exactly, as fractions of those counts.

use vstd::prelude::*;

verus! {

/// The counts of low and high samples measured at one delay tap.
#[derive(Clone, Copy)]
pub struct LowRate {
    pub low: u32,
    pub high: u32,
}

/// Number of samples of a measurement.
pub open spec fn total(r: LowRate) -> int {
    r.low + r.high
}

/// The low rate is below 0.1.
pub open spec fn below_tenth(r: LowRate) -> bool {
    total(r) > 0 && 10 * r.low < total(r)
}

/// The low rate is at least 0.5.
pub open spec fn at_least_half(r: LowRate) -> bool {
    total(r) > 0 && 2 * r.low >= total(r)
}

/// `|2 * low - total|`: the distance of the low rate from 0.5 is this over `2 * total`.
pub open spec fn dev_num(r: LowRate) -> int {
    if 2 * r.low >= total(r) {
        2 * r.low - total(r)
    } else {
        total(r) - 2 * r.low
    }
}

/// The low rate lies less than 0.5 away from 0.5 (strictly between 0 and 1).
pub open spec fn near_half(r: LowRate) -> bool {
    total(r) > 0 && dev_num(r) < total(r)
}

/// The low rate of `a` lies strictly closer to 0.5 than that of `b`,
/// compared exactly, as fractions of the sample counts. Computed in `f64`,
/// as `|0.5 - low / (low + high)|`, the two distances are rounded first and
/// can come out otherwise: for 3/10 against 7/10 the exact distances are
/// equal, while in `f64` 0.7 - 0.5 is smaller than 0.5 - 0.3. Every choice
/// of a delay tap here (`get_rising_crossover`, `best_of_window`) goes by
/// this exact comparison.
pub open spec fn closer(a: LowRate, b: LowRate) -> bool {
    total(a) > 0 && total(b) > 0 && dev_num(a) * total(b) < dev_num(b) * total(a)
}

/// Being closer to 0.5 is transitive across a rate that is not closer.
pub proof fn lemma_closer_trans(a: LowRate, b: LowRate, c: LowRate)
    requires
        closer(a, b),
        total(c) > 0,
        !closer(c, b),
    ensures
        closer(a, c),
{
    let (da, db, dc) = (dev_num(a), dev_num(b), dev_num(c));
    let (ta, tb, tc) = (total(a), total(b), total(c));
    assert(da * tc < dc * ta) by (nonlinear_arith)
        requires
            da * tb < db * ta,
            dc * tb >= db * tc,
            ta > 0,
            tb > 0,
            tc > 0,
            da >= 0,
            db >= 0,
            dc >= 0,
    {
        assert(da * tb * tc < db * ta * tc);
        assert(db * tc * ta <= dc * tb * ta);
        assert(da * tc * tb < dc * ta * tb);
    }
}

/// A rate closer to 0.5 than one near it is near it too.
pub proof fn lemma_closer_near(a: LowRate, b: LowRate)
    requires
        closer(a, b),
        near_half(b),
    ensures
        near_half(a),
{
    let (da, db) = (dev_num(a), dev_num(b));
    let (ta, tb) = (total(a), total(b));
    assert(da < ta) by (nonlinear_arith)
        requires
            da * tb < db * ta,
            db < tb,
            ta > 0,
            tb > 0,
            da >= 0,
            db >= 0,
    {
        assert(db * ta < tb * ta);
    }
}

pub fn is_below_tenth(r: &LowRate) -> (b: bool)
    ensures
        b == below_tenth(*r),
{
    let t = r.low as u64 + r.high as u64;
    t > 0 && 10 * (r.low as u64) < t
}

pub fn is_at_least_half(r: &LowRate) -> (b: bool)
    ensures
        b == at_least_half(*r),
{
    let t = r.low as u64 + r.high as u64;
    t > 0 && 2 * (r.low as u64) >= t
}

fn deviation(r: &LowRate) -> (d: u64)
    ensures
        d == dev_num(*r),
        d <= total(*r),
{
    let t = r.low as u64 + r.high as u64;
    let l2 = 2 * (r.low as u64);
    if l2 >= t {
        l2 - t
    } else {
        t - l2
    }
}

pub fn is_near_half(r: &LowRate) -> (b: bool)
    ensures
        b == near_half(*r),
{
    let t = r.low as u64 + r.high as u64;
    t > 0 && deviation(r) < t
}

pub fn is_closer(a: &LowRate, b: &LowRate) -> (c: bool)
    ensures
        c == closer(*a, *b),
{
    let ta = a.low as u64 + a.high as u64;
    let tb = b.low as u64 + b.high as u64;
    if ta == 0 || tb == 0 {
        return false;
    }
    let da = deviation(a);
    let db = deviation(b);
    assert(da * tb <= 0x2_0000_0000 * 0x2_0000_0000) by (nonlinear_arith)
        requires
            da <= ta,
            ta <= 0x2_0000_0000,
            tb <= 0x2_0000_0000,
    ;
    assert(db * ta <= 0x2_0000_0000 * 0x2_0000_0000) by (nonlinear_arith)
        requires
            db <= tb,
            ta <= 0x2_0000_0000,
            tb <= 0x2_0000_0000,
    ;
    (da as u128) * (tb as u128) < (db as u128) * (ta as u128)
}

/// `b` is the first tap of `t` whose low rate is below 0.1.
pub open spec fn first_begin(t: Seq<LowRate>, b: int) -> bool {
    &&& 0 <= b < t.len()
    &&& below_tenth(t[b])
    &&& forall|j: int| 0 <= j < b ==> !below_tenth(#[trigger] t[j])
}

/// `e` is the first tap from `b` on whose low rate is at least 0.5.
pub open spec fn first_end(t: Seq<LowRate>, b: int, e: int) -> bool {
    &&& b <= e < t.len()
    &&& at_least_half(t[e])
    &&& forall|j: int| b <= j < e ==> !at_least_half(#[trigger] t[j])
}

/// `k` is the first tap of `b..=e` whose low rate is closest to 0.5, among
/// those less than 0.5 away from it; 0 when there is none.
pub open spec fn nearest_in(t: Seq<LowRate>, b: int, e: int, k: int) -> bool {
    if exists|j: int| b <= j <= e && near_half(#[trigger] t[j]) {
        &&& b <= k <= e
        &&& near_half(t[k])
        &&& forall|j: int| b <= j < k ==> !near_half(#[trigger] t[j]) || closer(t[k], t[j])
        &&& forall|j: int| k < j <= e ==> !closer(#[trigger] t[j], t[k])
    } else {
        k == 0
    }
}

/// The rising edge of the low rate over the taps `t`: from the first tap
/// below 0.1 (`b`) to the first one after it at 0.5 or more (`e`), and the
/// tap `k` of that stretch nearest to 0.5.
pub open spec fn crossover(t: Seq<LowRate>, b: int, e: int, k: int) -> bool {
    first_begin(t, b) && first_end(t, b, e) && nearest_in(t, b, e, k)
}

/// The tap nearest to 0.5 on the first rising edge of the low rate and the
/// tap that ends the edge, if the rate rises from below 0.1 to 0.5.
pub open spec fn rising_crossover(t: Seq<LowRate>) -> Option<(int, int)> {
    if exists|b: int, e: int, k: int| crossover(t, b, e, k) {
        let (b, e, k) = choose|b: int, e: int, k: int| crossover(t, b, e, k);
        Some((k, e))
    } else {
        None
    }
}

/// There is one crossover at most.
pub proof fn lemma_crossover_unique(t: Seq<LowRate>, b1: int, e1: int, k1: int, b2: int, e2: int, k2: int)
    requires
        crossover(t, b1, e1, k1),
        crossover(t, b2, e2, k2),
    ensures
        b1 == b2 && e1 == e2 && k1 == k2,
{
    if b1 < b2 {
        assert(!below_tenth(t[b1]));
    }
    if b2 < b1 {
        assert(!below_tenth(t[b2]));
    }
    if e1 < e2 {
        assert(!at_least_half(t[e1]));
    }
    if e2 < e1 {
        assert(!at_least_half(t[e2]));
    }
    if exists|j: int| b1 <= j <= e1 && near_half(#[trigger] t[j]) {
        if k1 < k2 {
            assert(!near_half(t[k1]) || closer(t[k2], t[k1]));
        }
        if k2 < k1 {
            assert(!near_half(t[k2]) || closer(t[k1], t[k2]));
        }
    }
}

/// The crossover, when there is one, is what `rising_crossover` gives.
pub proof fn lemma_rising_crossover(t: Seq<LowRate>, b: int, e: int, k: int)
    requires
        crossover(t, b, e, k),
    ensures
        rising_crossover(t) == Some((k, e)),
{
    let (b2, e2, k2) = choose|b: int, e: int, k: int| crossover(t, b, e, k);
    lemma_crossover_unique(t, b, e, k, b2, e2, k2);
}

/// Finds the first rising edge of the low rate over the taps of `table`
/// and its tap nearest to 0.5, as `rising_crossover` describes: the index
/// of that tap and of the tap that ends the edge.
pub fn get_rising_crossover(table: &[LowRate]) -> (r: Option<(usize, usize)>)
    ensures
        match rising_crossover(table@) {
            Some((k, e)) => r == Some((k as usize, e as usize)),
            None => r is None,
        },
{
    let ghost t = table@;
    let mut begun = false;
    let ghost mut b: int = 0;
    let mut min: Option<LowRate> = None;
    let mut best_idx: usize = 0;
    let mut tap: usize = 0;
    while tap < table.len()
        invariant
            t == table@,
            tap <= t.len(),
            !begun ==> forall|j: int| 0 <= j < tap ==> !below_tenth(#[trigger] t[j]),
            !begun ==> best_idx == 0 && min is None,
            begun ==> first_begin(t, b) && b < tap,
            begun ==> forall|j: int| b <= j < tap ==> !at_least_half(#[trigger] t[j]),
            begun ==> nearest_in(t, b, tap - 1, best_idx as int),
            begun ==> (min is None <==> !exists|j: int| b <= j < tap && near_half(#[trigger] t[j])),
            begun && min is Some ==> min == Some(t[best_idx as int]),
        decreases t.len() - tap,
    {
        let low_rate = &table[tap];
        if !begun && is_below_tenth(low_rate) {
            begun = true;
            proof {
                b = tap as int;
            }
        }
        if begun {
            let ghost old_best = best_idx as int;
            let ghost old_min = min;
            let update = match min {
                None => is_near_half(low_rate),
                Some(m) => is_closer(low_rate, &m),
            };
            if update {
                min = Some(*low_rate);
                best_idx = tap;
            }
            proof {
                let i = tap as int;
                if update {
                    match old_min {
                        Some(m) => {
                            lemma_closer_near(t[i], m);
                            assert forall|j: int| b <= j < i implies !near_half(#[trigger] t[j]) || closer(t[i], t[j]) by {
                                if near_half(t[j]) {
                                    if j < old_best {
                                        lemma_closer_trans(t[i], t[old_best], t[j]);
                                    } else if j == old_best {
                                    } else {
                                        lemma_closer_trans(t[i], t[old_best], t[j]);
                                    }
                                }
                            }
                        },
                        None => {},
                    }
                    assert(exists|j: int| b <= j <= i && near_half(#[trigger] t[j]));
                } else {
                    match old_min {
                        Some(m) => {
                            assert(exists|j: int| b <= j <= i - 1 && near_half(#[trigger] t[j]));
                        },
                        None => {
                            assert(!near_half(t[i]));
                            assert(!exists|j: int| b <= j <= i && near_half(#[trigger] t[j]));
                        },
                    }
                }
            }
            // The ratio will not be any closer to 50% after this
            // within the same slope
            if is_at_least_half(low_rate) {
                proof {
                    lemma_rising_crossover(t, b, tap as int, best_idx as int);
                }
                return Some((best_idx, tap));
            }
        }
        tap = tap + 1;
    }
    proof {
        if exists|b2: int, e2: int, k2: int| crossover(t, b2, e2, k2) {
            let (b2, e2, k2) = choose|b2: int, e2: int, k2: int| crossover(t, b2, e2, k2);
            if begun {
                assert(b2 == b) by {
                    if b2 < b {
                        assert(!below_tenth(t[b2]));
                    }
                    if b < b2 {
                        assert(!below_tenth(t[b]));
                    }
                }
                assert(!at_least_half(t[e2]));
            } else {
                assert(!below_tenth(t[b2]));
            }
        }
    }
    None
}

/// A rising edge ends after the tap where it begins.
pub proof fn lemma_rising_crossover_end(t: Seq<LowRate>)
    ensures
        rising_crossover(t) matches Some((k, e)) ==> 0 <= e < t.len() && 0 <= k <= e,
{
    if exists|b: int, e: int, k: int| crossover(t, b, e, k) {
        let (b, e, k) = choose|b: int, e: int, k: int| crossover(t, b, e, k);
        if !exists|j: int| b <= j <= e && near_half(#[trigger] t[j]) {
            assert(k == 0);
        }
    }
}

/// The delay tap for lane 0 chosen from the low rates `t` of all taps:
/// searching from tap `start`, the tap nearest to 0.5 on the next rising
/// edge, unless it lies below tap 5 from where the search began (then the
/// search goes on after that edge, since the same edge may not appear on the
/// other lanes); `None` when no edge qualifies.
pub open spec fn delay_search(t: Seq<LowRate>, start: int) -> Option<int>
    decreases t.len() - start,
{
    if start < 0 || start > t.len() {
        None
    } else {
        match rising_crossover(t.subrange(start, t.len() as int)) {
            None => None,
            Some((k, e)) => {
                proof {
                    lemma_rising_crossover_end(t.subrange(start, t.len() as int));
                }
                if k < 5 {
                    delay_search(t, start + e + 1)
                } else {
                    Some(start + k)
                }
            },
        }
    }
}

/// How the search for lane 0's delay tap moves on. From tap `start`, take the
/// next rising edge: it begins at the first tap below 0.1 (`start + b`),
/// ends at the first tap from there at 0.5 or more (`start + e`), and has
/// its tap nearest to 0.5 at `start + k`. If that tap lies fewer than 5 taps
/// from `start`, the edge is skipped and the search goes on from the tap just
/// after the edge ends, `start + e + 1`; otherwise the search chooses
/// `start + k`. With no such edge from `start` on, it chooses nothing.
pub proof fn law_delay_search_resumes_after_the_edge(t: Seq<LowRate>, start: int, b: int, e: int, k: int)
    requires
        0 <= start <= t.len(),
    ensures
        crossover(t.subrange(start, t.len() as int), b, e, k) && k < 5 ==> delay_search(t, start)
            == delay_search(t, start + e + 1),
        crossover(t.subrange(start, t.len() as int), b, e, k) && k >= 5 ==> delay_search(t, start) == Some(
            start + k,
        ),
        (forall|b2: int, e2: int, k2: int| !crossover(t.subrange(start, t.len() as int), b2, e2, k2))
            ==> delay_search(t, start) is None,
{
    if crossover(t.subrange(start, t.len() as int), b, e, k) {
        lemma_rising_crossover(t.subrange(start, t.len() as int), b, e, k);
    }
}

/// Chooses the delay tap of lane 0 from the low rates measured at each tap,
/// as `delay_search` from tap 0 describes; `None` when no tap qualifies.
pub fn find_delay(table: &[LowRate]) -> (r: Option<usize>)
    ensures
        match delay_search(table@, 0) {
            Some(d) => r == Some(d as usize),
            None => r is None,
        },
        r matches Some(d) ==> 5 <= d < table@.len(),
{
    let ghost t = table@;
    let mut start_search_idx: usize = 0;
    while start_search_idx <= table.len()
        invariant
            t == table@,
            start_search_idx <= t.len() + 1,
            delay_search(t, 0) == delay_search(t, start_search_idx as int),
            start_search_idx > t.len() ==> delay_search(t, start_search_idx as int) is None,
        decreases t.len() + 1 - start_search_idx,
    {
        let rest = vstd::slice::slice_subrange(table, start_search_idx, table.len());
        proof {
            lemma_rising_crossover_end(rest@);
        }
        match get_rising_crossover(rest) {
            Some((opt_idx, end_tap)) => {
                if opt_idx < 5 {
                    // The same edge may not appear in other lanes due to skew
                    // 5 taps is very conservative, generally it is 1 or 2
                    start_search_idx = start_search_idx + end_tap + 1;
                } else {
                    return Some(opt_idx + start_search_idx);
                }
            },
            None => return None,
        }
    }
    None
}

/// The delay tap of the `k`-th measurement around tap `best`: `best - 2 + k`
/// (as the 8-bit tap index, modulo 256).
pub open spec fn window_tap_spec(best: u8, k: int) -> u8 {
    ((best + k - 2 + 256) % 256) as u8
}

/// The delay tap of the `k`-th of the five measurements around tap `best`.
pub fn window_tap(best: u8, k: u8) -> (r: u8)
    requires
        best <= 125,
        k < 5,
    ensures
        r == window_tap_spec(best, k as int),
{
    let index = (best as i8 + (k as i8 - 2)) as u8;
    assert(index == window_tap_spec(best, k as int)) by (bit_vector)
        requires
            index == (best as i8 + (k as i8 - 2)) as u8,
            best <= 125,
            k < 5,
    ;
    index
}

/// The delay tap chosen for a lane from the five measurements `w` at taps
/// `best - 2 ..= best + 2`: the first nearest to 0.5, among those less than
/// 0.5 away from it; tap 0 when there is none.
pub open spec fn window_choice(best: u8, w: Seq<LowRate>) -> u8 {
    if exists|k: int| 0 <= k < 5 && near_half(#[trigger] w[k]) {
        let k = choose|k: int| nearest_in(w, 0, 4, k);
        window_tap_spec(best, k)
    } else {
        0
    }
}

/// Chooses the delay tap of another lane from its low rates measured at the
/// taps `best - 2 ..= best + 2` around lane 0's tap `best`.
pub fn best_of_window(best: u8, w: &[LowRate; 5]) -> (r: u8)
    requires
        best <= 125,
    ensures
        r == window_choice(best, w@),
{
    let ghost t = w@;
    let mut min: Option<LowRate> = None;
    let mut min_k: u8 = 0;
    let mut min_idx: u8 = 0;
    let mut k: u8 = 0;
    while k < 5
        invariant
            t == w@,
            t.len() == 5,
            best <= 125,
            k <= 5,
            min is None <==> !exists|j: int| 0 <= j < k && near_half(#[trigger] t[j]),
            min is None ==> min_idx == 0,
            min is Some ==> min == Some(t[min_k as int]) && min_idx == window_tap_spec(best, min_k as int),
            min is Some ==> nearest_in(t, 0, k - 1, min_k as int),
        decreases 5 - k,
    {
        let index = window_tap(best, k);
        let low_rate = &w[k as usize];
        let ghost old_k = min_k as int;
        let ghost old_min = min;
        let update = match min {
            None => is_near_half(low_rate),
            Some(m) => is_closer(low_rate, &m),
        };
        if update {
            min = Some(*low_rate);
            min_k = k;
            min_idx = index;
        }
        proof {
            let i = k as int;
            if update {
                match old_min {
                    Some(m) => {
                        lemma_closer_near(t[i], m);
                        assert forall|j: int| 0 <= j < i implies !near_half(#[trigger] t[j]) || closer(t[i], t[j]) by {
                            if near_half(t[j]) && j != old_k {
                                lemma_closer_trans(t[i], t[old_k], t[j]);
                            }
                        }
                    },
                    None => {},
                }
                assert(exists|j: int| 0 <= j <= i && near_half(#[trigger] t[j]));
            } else {
                match old_min {
                    Some(m) => {
                        assert(exists|j: int| 0 <= j <= i - 1 && near_half(#[trigger] t[j]));
                    },
                    None => {
                        assert(!near_half(t[i]));
                    },
                }
            }
        }
        k = k + 1;
    }
    proof {
        if min is Some {
            let k2 = choose|k: int| nearest_in(t, 0, 4, k);
            assert(nearest_in(t, 0, 4, min_k as int));
            lemma_nearest_unique(t, 0, 4, min_k as int, k2);
        }
    }
    min_idx
}

/// There is one nearest tap at most.
pub proof fn lemma_nearest_unique(t: Seq<LowRate>, b: int, e: int, k1: int, k2: int)
    requires
        nearest_in(t, b, e, k1),
        nearest_in(t, b, e, k2),
    ensures
        k1 == k2,
{
    if exists|j: int| b <= j <= e && near_half(#[trigger] t[j]) {
        if k1 < k2 {
            assert(!near_half(t[k1]) || closer(t[k2], t[k1]));
        }
        if k2 < k1 {
            assert(!near_half(t[k2]) || closer(t[k1], t[k2]));
        }
    }
}

/// The search for the bitslip of lane 0: tries the settings 0 to 9 in turn,
/// each one bitslip further than the one before, the last five with the
/// decoder inverted.
#[derive(Clone, Copy)]
pub struct BitslipSearch {
    pub slip: u8,
}

/// What to do after a setting has been tried.
pub enum BitslipStep {
    /// The comma was found with this many bitslips.
    Found(u8),
    /// No setting found the comma.
    Exhausted,
    /// Apply one more bitslip and try this setting.
    Next(BitslipSearch),
}

impl BitslipSearch {
    pub fn new() -> (s: BitslipSearch)
        ensures
            s.slip == 0,
    {
        BitslipSearch { slip: 0 }
    }

    /// Whether the decoder is inverted for the current setting.
    pub fn invert(&self) -> (r: bool)
        ensures
            r == (self.slip >= 5),
    {
        self.slip >= 5
    }

    /// Decides on the comma detector's reading `comma` for the current setting.
    pub fn on_comma(&self, comma: u8) -> (r: BitslipStep)
        requires
            self.slip <= 9,
        ensures
            comma == 1 ==> (r matches BitslipStep::Found(n) && n == self.slip),
            comma != 1 && self.slip == 9 ==> r is Exhausted,
            comma != 1 && self.slip < 9 ==> (r matches BitslipStep::Next(n) && n.slip == self.slip + 1),
    {
        if comma == 1 {
            BitslipStep::Found(self.slip)
        } else if self.slip == 9 {
            BitslipStep::Exhausted
        } else {
            BitslipStep::Next(BitslipSearch { slip: self.slip + 1 })
        }
    }
}

/// The delay taps of the four EEM lanes, as kept in flash.
#[derive(Clone, Copy)]
pub struct SerdesConfig {
    pub delay: [u8; 4],
}

/// The configuration that a flash record holds: its first four bytes.
pub open spec fn parse_config(b: Seq<u8>) -> Option<Seq<u8>> {
    if b.len() >= 4 {
        Some(b.subrange(0, 4))
    } else {
        None
    }
}

impl SerdesConfig {
    /// The bytes stored in flash: the four delay taps.
    pub fn as_bytes(&self) -> (r: &[u8])
        ensures
            r@ == self.delay@,
    {
        self.delay.as_slice()
    }

    /// The configuration held by a flash record; `None` when it is shorter
    /// than a configuration.
    pub fn from_bytes(record: &[u8]) -> (r: Option<SerdesConfig>)
        ensures
            match parse_config(record@) {
                Some(d) => r matches Some(c) && c.delay@ == d,
                None => r is None,
            },
    {
        if record.len() < 4 {
            return None;
        }
        let delay = [record[0], record[1], record[2], record[3]];
        assert(delay@ =~= record@.subrange(0, 4));
        Some(SerdesConfig { delay })
    }
}

/// A configuration written to flash reads back unchanged.
pub proof fn law_config_reads_back(c: SerdesConfig)
    ensures
        parse_config(c.delay@) == Some(c.delay@),
{
    assert(c.delay@.subrange(0, 4) =~= c.delay@);
}

} // verus!
