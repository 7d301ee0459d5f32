use vstd::prelude::*;
use vstd::string::StringSliceAdditionalSpecFns;
use crate::parse::{as_nats, list_values, parse_values};

verus! {

/// One whole probability, counted in parts: a probability `p` is held as the
/// integer `p * SCALE`, so that nine decimal places are kept exactly.
pub const SCALE: u64 = 1_000_000_000;

/// Why a set of quadrant probabilities was refused.
#[derive(Debug, Clone, Copy, PartialEq, Eq, Structural)]
pub enum ProbabilityError {
    /// A value is not a decimal number of at most nine decimal places.
    Malformed,
    /// The text does not hold exactly four values.
    WrongCount,
    /// The four values do not add up to one.
    BadSum,
}

/// Weights of the four quadrants, in the fixed order top-left, top-right,
/// bottom-left, bottom-right, each counted in parts of `SCALE`.
#[derive(Debug, Clone, Copy)]
pub struct Propabilities {
    pub weights: [u64; 4],
}

pub open spec fn sum4(w: Seq<u64>) -> int {
    w[0] + w[1] + w[2] + w[3]
}

/// Weight of quadrant `q` once the quadrants marked in `tried` are set aside.
pub open spec fn open_weight(w: Seq<u64>, tried: Seq<bool>, q: int) -> int {
    if tried[q] {
        0
    } else {
        w[q] as int
    }
}

/// Total weight of the quadrants before `q` that are not marked in `tried`.
pub open spec fn cum_weight(w: Seq<u64>, tried: Seq<bool>, q: int) -> int
    decreases q,
{
    if q <= 0 {
        0
    } else {
        cum_weight(w, tried, q - 1) + open_weight(w, tried, q - 1)
    }
}

/// Inverse of the cumulative distribution over the quadrants not yet tried:
/// the quadrant whose slice of `[0, total)` holds `r`.
pub fn select_quarter(weights: [u64; 4], tried: [bool; 4], r: u64) -> (q: u8)
    requires
        forall|i: int| 0 <= i < 4 ==> weights@[i] <= 2 * SCALE,
        r < cum_weight(weights@, tried@, 4),
    ensures
        q < 4,
        !tried@[q as int],
        cum_weight(weights@, tried@, q as int) <= r < cum_weight(weights@, tried@, q as int + 1),
{
    let mut acc: u64 = 0;
    let mut q: usize = 0;
    while q < 4
        invariant
            q <= 4,
            acc == cum_weight(weights@, tried@, q as int),
            acc <= r,
            acc <= q * 2 * SCALE,
            r < cum_weight(weights@, tried@, 4),
            forall|i: int| 0 <= i < 4 ==> weights@[i] <= 2 * SCALE,
        decreases 4 - q,
    {
        if !tried[q] {
            if r < acc + weights[q] {
                return q as u8;
            }
            acc = acc + weights[q];
        }
        q = q + 1;
    }
    proof {
        assert(false);
    }
    3
}

/// Relies on fastrand::u64: a value drawn from the range `0..bound`, which is
/// never empty here.
#[verifier::external_body]
fn random_below(bound: u64) -> (r: u64)
    requires
        bound > 0,
    ensures
        r < bound,
{
    fastrand::u64(0..bound)
}

impl Propabilities {
    /// The four weights add up to one whole.
    pub open spec fn wf(&self) -> bool {
        sum4(self.weights@) == SCALE as int
    }

    /// Accepts four weights exactly when they add up to `SCALE`.
    pub fn new(vals: [u64; 4]) -> (r: Result<Propabilities, ProbabilityError>)
        ensures
            sum4(vals@) == SCALE as int <==> r is Ok,
            r is Ok ==> r->Ok_0.weights == vals && r->Ok_0.wf(),
            r is Err ==> r->Err_0 == ProbabilityError::BadSum,
    {
        if vals[0] > SCALE || vals[1] > SCALE || vals[2] > SCALE || vals[3] > SCALE {
            return Err(ProbabilityError::BadSum);
        }
        if vals[0] + vals[1] + vals[2] + vals[3] != SCALE {
            return Err(ProbabilityError::BadSum);
        }
        Ok(Propabilities { weights: vals })
    }

    /// Reads four probabilities written `[a, b, c, d]`. Text that is not a
    /// bracketed list, or a field that is not a decimal number whose digits
    /// past the ninth decimal place are all zero, is `Malformed`; a
    /// list of other than four fields is `WrongCount`; four values whose sum
    /// is not exactly one are `BadSum`.
    pub fn from_str(s: &str) -> (r: Result<Propabilities, ProbabilityError>)
        ensures
            list_values(s.spec_bytes()) is None <==> r == Err::<Propabilities, ProbabilityError>(
                ProbabilityError::Malformed,
            ),
            (list_values(s.spec_bytes()) matches Some(vs) && vs.len() != 4) <==> r == Err::<
                Propabilities,
                ProbabilityError,
            >(ProbabilityError::WrongCount),
            r is Ok <==> (list_values(s.spec_bytes()) matches Some(vs) && vs.len() == 4
                && vs[0] + vs[1] + vs[2] + vs[3] == SCALE),
            r is Ok ==> as_nats(r->Ok_0.weights@) == list_values(s.spec_bytes())->Some_0 && r->Ok_0.wf(),
    {
        let b = s.as_bytes();
        match parse_values(b) {
            None => Err(ProbabilityError::Malformed),
            Some(vals) => {
                if vals.len() != 4 {
                    return Err(ProbabilityError::WrongCount);
                }
                let arr = [vals[0], vals[1], vals[2], vals[3]];
                let r = Propabilities::new(arr);
                proof {
                    assert(as_nats(arr@) =~= as_nats(vals@));
                }
                r
            },
        }
    }

    /// Draws a quadrant: with `r` uniform in `[0, SCALE)`, quadrant 0 when
    /// `r < p0`, else 1 when `r < p0 + p1`, else 2 when `r < p0 + p1 + p2`,
    /// else 3. A quadrant of weight zero is never drawn.
    pub fn get_random_quarter(&self) -> (q: u8)
        requires
            self.wf(),
        ensures
            q < 4,
            self.weights@[q as int] > 0,
    {
        let r = random_below(SCALE);
        let none = [false; 4];
        proof {
            assert(none@ =~= seq![false, false, false, false]);
            reveal_with_fuel(cum_weight, 5);
        }
        select_quarter(self.weights, none, r)
    }

    /// Draws one of the quadrants not marked in `tried`, with chances in
    /// proportion to their weights, by handing a value drawn below the total
    /// weight of those quadrants to `pick_quarter`. With `fold_b` the
    /// top-right quadrant is folded onto the bottom-left one, which takes its
    /// weight as well. Where every quadrant left has weight zero, the first of
    /// them is taken.
    ///
    /// This is the distribution of drawing with `get_random_quarter` again
    /// and again until an untried quadrant comes up, reached in one draw.
    pub fn next_quarter(&self, tried: [bool; 4], fold_b: bool) -> (q: u8)
        requires
            self.wf(),
            !(tried@[0] && tried@[1] && tried@[2] && tried@[3]),
            fold_b ==> tried@[1],
        ensures
            q < 4,
            !tried@[q as int],
            cum_weight(folded(self.weights@, fold_b), tried@, 4) == 0 ==> forall|k: int|
                0 <= k < q ==> tried@[k],
            cum_weight(folded(self.weights@, fold_b), tried@, 4) > 0 ==> folded(self.weights@, fold_b)[q as int]
                > 0,
    {
        let f = folded_weights(self.weights, fold_b);
        let total = open_total(f, tried);
        let r = if total == 0 {
            0
        } else {
            random_below(total)
        };
        pick_quarter(self.weights, tried, fold_b, r)
    }
}

/// The weights as drawn with `fold_b`: the bottom-left quadrant then also
/// takes the weight of the top-right one.
pub open spec fn folded(w: Seq<u64>, fold_b: bool) -> Seq<u64> {
    if fold_b {
        seq![w[0], w[1], (w[1] + w[2]) as u64, w[3]]
    } else {
        w
    }
}

fn folded_weights(w: [u64; 4], fold_b: bool) -> (f: [u64; 4])
    requires
        forall|i: int| 0 <= i < 4 ==> w@[i] <= SCALE,
    ensures
        f@ == folded(w@, fold_b),
        forall|i: int| 0 <= i < 4 ==> f@[i] <= 2 * SCALE,
{
    if fold_b {
        let f = [w[0], w[1], w[1] + w[2], w[3]];
        assert(f@ =~= folded(w@, fold_b));
        f
    } else {
        w
    }
}

/// Total weight of the quadrants not marked in `tried`.
fn open_total(weights: [u64; 4], tried: [bool; 4]) -> (t: u64)
    requires
        forall|i: int| 0 <= i < 4 ==> weights@[i] <= 2 * SCALE,
    ensures
        t == cum_weight(weights@, tried@, 4),
{
    let mut total: u64 = 0;
    let mut i: usize = 0;
    while i < 4
        invariant
            i <= 4,
            total == cum_weight(weights@, tried@, i as int),
            total <= i * 2 * SCALE,
            forall|j: int| 0 <= j < 4 ==> weights@[j] <= 2 * SCALE,
        decreases 4 - i,
    {
        if !tried[i] {
            total = total + weights[i];
        }
        i = i + 1;
    }
    total
}

/// Chooses among the quadrants not marked in `tried`, with the top-right
/// weight folded onto the bottom-left quadrant when `fold_b`: the quadrant
/// whose slice of the cumulative folded weights holds `r`, or, where all of
/// them weigh zero, the first of them.
pub fn pick_quarter(weights: [u64; 4], tried: [bool; 4], fold_b: bool, r: u64) -> (q: u8)
    requires
        forall|i: int| 0 <= i < 4 ==> weights@[i] <= SCALE,
        !(tried@[0] && tried@[1] && tried@[2] && tried@[3]),
        fold_b ==> tried@[1],
        cum_weight(folded(weights@, fold_b), tried@, 4) == 0 || r < cum_weight(
            folded(weights@, fold_b),
            tried@,
            4,
        ),
    ensures
        q < 4,
        !tried@[q as int],
        cum_weight(folded(weights@, fold_b), tried@, 4) == 0 ==> forall|k: int| 0 <= k < q ==> tried@[k],
        cum_weight(folded(weights@, fold_b), tried@, 4) > 0 ==> cum_weight(folded(weights@, fold_b), tried@, q as int)
            <= r < cum_weight(folded(weights@, fold_b), tried@, q as int + 1),
        cum_weight(folded(weights@, fold_b), tried@, 4) > 0 ==> folded(weights@, fold_b)[q as int] > 0,
{
    let f = folded_weights(weights, fold_b);
    let total = open_total(f, tried);
    if total == 0 {
        let mut j: usize = 0;
        while j < 3 && tried[j]
            invariant
                j <= 3,
                forall|k: int| 0 <= k < j ==> tried@[k],
                !(tried@[0] && tried@[1] && tried@[2] && tried@[3]),
            decreases 3 - j,
        {
            j = j + 1;
        }
        j as u8
    } else {
        let q = select_quarter(f, tried, r);
        assert(cum_weight(f@, tried@, q as int + 1) == cum_weight(f@, tried@, q as int) + open_weight(
            f@,
            tried@,
            q as int,
        ));
        q
    }
}

} // verus!
