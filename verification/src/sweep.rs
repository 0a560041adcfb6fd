//! Detection of access patterns over chunk coordinates, and prediction of the next chunks.

use vstd::prelude::*;
use crate::chunk_cache::coords_of;

verus! {

/// Sweep context to enable adaptive prefetching based on detected access patterns.
///
/// The caller is responsible for maintaining the `SweepContext` across multiple reads on the same
/// dataset. After each read, the context will contain updated sweep detection state and any
/// predicted next-chunk coordinates.
pub struct SweepContext {
    /// Sliding window of recent chunk coordinates.
    pub history: Vec<Vec<u64>>,
    /// Maximum window size.
    pub window_size: usize,
    /// Currently detected sweep direction label.
    pub direction: &'static str,
    /// How many chunks ahead to predict.
    pub prefetch_count: usize,
    /// Predicted next chunk coordinates (populated after each read).
    pub predicted_next: Vec<Vec<u64>>,
}

/// The content of a [`SweepContext`].
pub struct SweepModel {
    pub history: Seq<Seq<u64>>,
    pub window_size: usize,
    pub direction: &'static str,
    pub prefetch_count: usize,
    pub predicted_next: Seq<Seq<u64>>,
}

impl View for SweepContext {
    type V = SweepModel;

    open spec fn view(&self) -> SweepModel {
        SweepModel {
            history: coords_of(self.history@),
            window_size: self.window_size,
            direction: self.direction,
            prefetch_count: self.prefetch_count,
            predicted_next: coords_of(self.predicted_next@),
        }
    }
}

/// The number of steps, among the first `n`, that change the coordinate along axis `d`.
pub open spec fn changes_along(h: Seq<Seq<u64>>, d: int, n: int) -> nat
    decreases n,
{
    if n <= 0 {
        0
    } else {
        changes_along(h, d, n - 1) + if h[n][d] != h[n - 1][d] {
            1nat
        } else {
            0
        }
    }
}

/// The number of steps that change the coordinate along axis `d`.
pub open spec fn activity(h: Seq<Seq<u64>>, d: int) -> nat {
    changes_along(h, d, h.len() - 1)
}

/// The axis among the first `n` that changes most often; the last one of several.
pub open spec fn busiest(h: Seq<Seq<u64>>, n: int) -> int
    decreases n,
{
    if n <= 1 {
        0
    } else {
        let j = busiest(h, n - 1);
        if activity(h, n - 1) >= activity(h, j) {
            n - 1
        } else {
            j
        }
    }
}

/// The most changes along an axis among the first `n`, other than `best`.
pub open spec fn other_activity(h: Seq<Seq<u64>>, best: int, n: int) -> nat
    decreases n,
{
    if n <= 0 {
        0
    } else {
        let m = other_activity(h, best, n - 1);
        if n - 1 != best && activity(h, n - 1) > m {
            activity(h, n - 1)
        } else {
            m
        }
    }
}

/// The quotient, rounded toward zero.
pub open spec fn toward_zero(a: int, b: int) -> int {
    if a >= 0 {
        a / b
    } else {
        -((-a) / b)
    }
}

/// A coordinate as a signed integer of 64 bits: the upper half of the coordinates is below zero.
pub open spec fn signed(x: u64) -> int {
    if x <= i64::MAX {
        x as int
    } else {
        x - 0x1_0000_0000_0000_0000
    }
}

/// Whether a signed integer fits in 64 bits.
pub open spec fn fits_signed(x: int) -> bool {
    i64::MIN <= x <= i64::MAX
}

/// The average step along axis `d`, over the steps that change it.
pub open spec fn average_step(h: Seq<Seq<u64>>, d: int) -> int {
    toward_zero(signed(h.last()[d]) - signed(h[0][d]), activity(h, d) as int)
}

/// The coordinates that `last` leads to with steps from the `i`-th to the `n`-th along axis `d`, up
/// to the first one below zero.
pub open spec fn predictions(last: Seq<u64>, d: int, step: int, i: int, n: int) -> Seq<Seq<u64>>
    decreases n + 1 - i,
{
    let next = signed(last[d]) + step * i;
    if i > n || next < 0 {
        Seq::empty()
    } else {
        seq![last.update(d, next as u64)] + predictions(last, d, step, i + 1, n)
    }
}

/// Whether the predictions from the `i`-th to the `n`-th step, up to the first one below zero, and
/// the ways to them fit in 64 bits.
pub open spec fn predictions_fit(last: u64, step: int, i: int, n: int) -> bool
    decreases n + 1 - i,
{
    let next = signed(last) + step * i;
    i > n || (fits_signed(step * i) && fits_signed(next) && (next < 0 || predictions_fit(
        last,
        step,
        i + 1,
        n,
    )))
}

/// Whether the steps along axis `d`, and their sums, fit in 64 bits.
pub open spec fn steps_fit(h: Seq<Seq<u64>>, d: int) -> bool {
    forall|i: int|
        1 <= i < h.len() ==> fits_signed(signed((#[trigger] h[i])[d]) - signed(h[i - 1][d]))
            && fits_signed(signed(h[i][d]) - signed(h[0][d]))
}

impl SweepModel {
    /// A new context.
    pub open spec fn empty(window_size: usize, prefetch_count: usize) -> SweepModel {
        SweepModel {
            history: Seq::empty(),
            window_size,
            direction: "random",
            prefetch_count,
            predicted_next: Seq::empty(),
        }
    }

    /// The history with one more access; the oldest one leaves a full window.
    pub open spec fn next_history(self, coord: Seq<u64>) -> Seq<Seq<u64>> {
        if self.history.len() >= self.window_size {
            self.history.subrange(1, self.history.len() as int).push(coord)
        } else {
            self.history.push(coord)
        }
    }

    /// Whether the history shows a sweep along one axis: at least three accesses, along that axis
    /// at least half of the steps change the coordinate, and at least twice as many as along any
    /// other.
    pub open spec fn sweeps(h: Seq<Seq<u64>>, ndims: int) -> bool {
        let best = busiest(h, ndims);
        let most = activity(h, best);
        let other = other_activity(h, best, ndims);
        &&& h.len() >= 3
        &&& ndims > 0
        &&& forall|i: int| 0 <= i < h.len() ==> (#[trigger] h[i]).len() >= ndims
        &&& most >= h.len() as int / 2
        &&& other == 0 || most >= 2 * other
    }

    /// The name of a sweep along axis `d`.
    pub open spec fn direction_of(d: int, ndims: int) -> &'static str {
        if d == ndims - 1 {
            "row_major"
        } else if d == 0 {
            "column_major"
        } else {
            "slice_major"
        }
    }

    /// The context after one more access.
    pub open spec fn recorded(self, coord: Seq<u64>, ndims: int) -> SweepModel {
        let h = self.next_history(coord);
        let best = busiest(h, ndims);
        let step = average_step(h, best);
        if !SweepModel::sweeps(h, ndims) {
            SweepModel { history: h, direction: "random", predicted_next: Seq::empty(), ..self }
        } else {
            SweepModel {
                history: h,
                direction: SweepModel::direction_of(best, ndims),
                predicted_next: if step == 0 {
                    Seq::empty()
                } else {
                    predictions(h.last(), best, step, 1, self.prefetch_count as int)
                },
                ..self
            }
        }
    }

    /// Whether an access can be recorded: there is room for it in the window.
    pub open spec fn can_record(self) -> bool {
        self.history.len() > 0 || self.window_size > 0
    }

    /// Whether the predictions behind one more access can be computed: where a sweep is seen, the
    /// steps along its axis fit in 64 bits, and so do the predictions.
    pub open spec fn predictable(self, coord: Seq<u64>, ndims: int) -> bool {
        let h = self.next_history(coord);
        let best = busiest(h, ndims);
        let step = average_step(h, best);
        SweepModel::sweeps(h, ndims) ==> {
            &&& steps_fit(h, best)
            &&& step != 0 ==> predictions_fit(h.last()[best], step, 1, self.prefetch_count as int)
        }
    }

    /// The context after the first `n` of the given accesses.
    #[verifier::opaque]
    pub open spec fn after(self, coords: Seq<Seq<u64>>, ndims: int, n: int) -> SweepModel
        decreases n,
    {
        if n <= 0 {
            self
        } else {
            self.after(coords, ndims, n - 1).recorded(coords[n - 1], ndims)
        }
    }

    /// The number of coordinates that are predicted in the course of the first `n` of the given
    /// accesses.
    pub open spec fn predicted(self, coords: Seq<Seq<u64>>, ndims: int, n: int) -> nat
        decreases n,
    {
        if n <= 0 {
            0
        } else {
            self.predicted(coords, ndims, n - 1) + self.after(
                coords,
                ndims,
                n,
            ).predicted_next.len()
        }
    }
}

/// What each of the given accesses makes of the context.
pub proof fn law_accesses_follow(s: SweepModel, coords: Seq<Seq<u64>>, ndims: int, k: int)
    requires
        0 <= k,
    ensures
        s.after(coords, ndims, 0) == s,
        s.after(coords, ndims, k + 1) == s.after(coords, ndims, k).recorded(coords[k], ndims),
{
    reveal_with_fuel(SweepModel::after, 2);
}

/// There are at most as many predictions as steps.
pub proof fn lemma_predictions_len(last: Seq<u64>, d: int, step: int, i: int, n: int)
    requires
        i <= n + 1,
    ensures
        predictions(last, d, step, i, n).len() <= n + 1 - i,
    decreases n + 1 - i,
{
    if !(i > n || signed(last[d]) + step * i < 0) {
        lemma_predictions_len(last, d, step, i + 1, n);
    }
}

/// Recording keeps the context ready for the next access, and predicts at most as many coordinates
/// as it was asked for.
pub proof fn law_recorded(s: SweepModel, coord: Seq<u64>, ndims: int)
    requires
        s.can_record(),
    ensures
        s.recorded(coord, ndims).can_record(),
        s.recorded(coord, ndims).prefetch_count == s.prefetch_count,
        s.recorded(coord, ndims).predicted_next.len() <= s.prefetch_count,
        s.recorded(coord, ndims).history.last() == coord,
        s.history.len() <= s.window_size && s.window_size > 0 ==> s.recorded(
            coord,
            ndims,
        ).history.len() <= s.window_size,
{
    let h = s.next_history(coord);
    if SweepModel::sweeps(h, ndims) {
        let best = busiest(h, ndims);
        lemma_predictions_len(
            h.last(),
            best,
            average_step(h, best),
            1,
            s.prefetch_count as int,
        );
    }
}

proof fn lemma_busiest(h: Seq<Seq<u64>>, n: int)
    requires
        n >= 1,
    ensures
        0 <= busiest(h, n) < n,
    decreases n,
{
    if n > 1 {
        lemma_busiest(h, n - 1);
    }
}

proof fn lemma_activity_bound(h: Seq<Seq<u64>>, d: int, n: int)
    requires
        n >= 0,
    ensures
        changes_along(h, d, n) <= n,
    decreases n,
{
    if n > 0 {
        lemma_activity_bound(h, d, n - 1);
    }
}

proof fn lemma_other_activity(h: Seq<Seq<u64>>, best: int, n: int, m: int)
    requires
        0 <= n <= m,
        best == busiest(h, m),
    ensures
        other_activity(h, best, n) <= activity(h, best),
    decreases n,
{
    if n > 0 {
        lemma_other_activity(h, best, n - 1, m);
        lemma_busiest_is_most(h, m, n - 1);
    }
}

proof fn lemma_busiest_is_most(h: Seq<Seq<u64>>, n: int, d: int)
    requires
        0 <= d < n,
    ensures
        activity(h, d) <= activity(h, busiest(h, n)),
    decreases n,
{
    if n > 1 && d < n - 1 {
        lemma_busiest_is_most(h, n - 1, d);
    }
}

/// The coordinate as a signed integer.
fn to_signed(x: u64) -> (r: i64)
    ensures
        r == signed(x),
{
    if x <= i64::MAX as u64 {
        x as i64
    } else {
        -((u64::MAX - x) as i64) - 1
    }
}

/// The quotient, rounded toward zero.
fn signed_quotient(a: i64, b: u64) -> (q: i64)
    requires
        b > 0,
    ensures
        q == toward_zero(a as int, b as int),
{
    if a >= 0 {
        let n: u64 = a as u64;
        proof {
            lemma_quotient_bound(n as int, b as int);
        }
        (n / b) as i64
    } else {
        let n: u64 = (-(a + 1)) as u64 + 1;
        assert(n == -a);
        proof {
            lemma_quotient_bound(n as int, b as int);
        }
        let q: u64 = n / b;
        if q == 0 {
            0
        } else {
            -((q - 1) as i64) - 1
        }
    }
}

proof fn lemma_quotient_bound(a: int, b: int)
    requires
        a >= 0,
        b > 0,
    ensures
        0 <= a / b <= a,
{
    vstd::arithmetic::div_mod::lemma_div_is_ordered_by_denominator(a, 1, b);
    vstd::arithmetic::div_mod::lemma_div_basics(a);
    vstd::arithmetic::div_mod::lemma_div_pos_is_pos(a, b);
}

impl SweepContext {
    /// Create a new sweep context with the given window size and prefetch count.
    pub fn new(window_size: usize, prefetch_count: usize) -> (s: Self)
        ensures
            s@ == SweepModel::empty(window_size, prefetch_count),
    {
        let s = SweepContext {
            history: Vec::new(),
            window_size,
            direction: "random",
            prefetch_count,
            predicted_next: Vec::new(),
        };
        assert(s@.history =~= Seq::<Seq<u64>>::empty());
        assert(s@.predicted_next =~= Seq::<Seq<u64>>::empty());
        s
    }

    /// Create with default settings (window=12, prefetch=4).
    pub fn with_defaults() -> (s: Self)
        ensures
            s@ == SweepModel::empty(12, 4),
    {
        SweepContext::new(12, 4)
    }

    /// The number of steps that change the coordinate along axis `d`.
    fn count_changes(&self, d: usize) -> (n: usize)
        requires
            self.history@.len() >= 1,
            forall|i: int| 0 <= i < self.history@.len() ==> d < (#[trigger] self.history@[i])@.len(),
        ensures
            n == activity(self@.history, d as int),
            n < self.history@.len(),
    {
        let ghost h = self@.history;
        let mut n: usize = 0;
        let mut k: usize = 1;
        while k < self.history.len()
            invariant
                1 <= k <= self.history@.len(),
                h == self@.history,
                forall|i: int|
                    0 <= i < self.history@.len() ==> d < (#[trigger] self.history@[i])@.len(),
                n == changes_along(h, d as int, k - 1),
                n <= k - 1,
            decreases self.history@.len() - k,
        {
            assert(h[k as int] == self.history@[k as int]@);
            assert(h[k - 1] == self.history@[k - 1]@);
            if self.history[k][d] != self.history[k - 1][d] {
                n += 1;
            }
            k += 1;
        }
        n
    }

    /// Whether all recorded coordinates have `ndims` axes.
    fn has_axes(&self, ndims: usize) -> (r: bool)
        ensures
            r == forall|i: int|
                0 <= i < self.history@.len() ==> (#[trigger] self.history@[i])@.len() >= ndims,
    {
        let mut k: usize = 0;
        while k < self.history.len()
            invariant
                k <= self.history@.len(),
                forall|i: int| 0 <= i < k ==> (#[trigger] self.history@[i])@.len() >= ndims,
            decreases self.history@.len() - k,
        {
            if self.history[k].len() < ndims {
                assert(self.history@[k as int]@.len() < ndims);
                return false;
            }
            k += 1;
        }
        true
    }

    /// The axis that changes most often, the changes along it, and the most along another.
    fn rank_axes(&self, ndims: usize) -> (r: (usize, usize, usize))
        requires
            ndims > 0,
            self.history@.len() >= 1,
            forall|i: int|
                0 <= i < self.history@.len() ==> (#[trigger] self.history@[i])@.len() >= ndims,
        ensures
            r.0 == busiest(self@.history, ndims as int),
            r.0 < ndims,
            r.1 == activity(self@.history, r.0 as int),
            r.2 == other_activity(self@.history, r.0 as int, ndims as int),
    {
        let ghost h = self@.history;
        let mut best: usize = 0;
        let mut most: usize = self.count_changes(0);
        let mut d: usize = 1;
        while d < ndims
            invariant
                1 <= d <= ndims,
                h == self@.history,
                self.history@.len() >= 1,
                forall|i: int|
                    0 <= i < self.history@.len() ==> (#[trigger] self.history@[i])@.len() >= ndims,
                best < d,
                best == busiest(h, d as int),
                most == activity(h, best as int),
            decreases ndims - d,
        {
            let n: usize = self.count_changes(d);
            if n >= most {
                best = d;
                most = n;
            }
            d += 1;
        }
        let mut other: usize = 0;
        d = 0;
        while d < ndims
            invariant
                d <= ndims,
                h == self@.history,
                self.history@.len() >= 1,
                forall|i: int|
                    0 <= i < self.history@.len() ==> (#[trigger] self.history@[i])@.len() >= ndims,
                other == other_activity(h, best as int, d as int),
            decreases ndims - d,
        {
            if d != best {
                let n: usize = self.count_changes(d);
                if n > other {
                    other = n;
                }
            }
            d += 1;
        }
        (best, most, other)
    }

    /// Record a chunk coordinate access and update predictions.
    pub fn record(&mut self, coord: Vec<u64>, ndims: usize)
        requires
            old(self)@.can_record(),
            old(self)@.predictable(coord@, ndims as int),
        ensures
            final(self)@ == old(self)@.recorded(coord@, ndims as int),
    {
        let ghost before = self@;
        if self.history.len() >= self.window_size {
            assert(before.history.len() == self.history@.len());
            self.history.remove(0);
        }
        self.history.push(coord);
        let ghost h = before.next_history(coord@);
        assert(self@.history =~= h);
        self.predicted_next.clear();
        assert(self@.predicted_next =~= Seq::<Seq<u64>>::empty());
        self.direction = "random";
        if self.history.len() < 3 || ndims == 0 {
            return;
        }
        if !self.has_axes(ndims) {
            proof {
                let i = choose|i: int|
                    0 <= i < self.history@.len() && (#[trigger] self.history@[i])@.len() < ndims;
                assert(h[i].len() < ndims);
            }
            return;
        }
        assert forall|i: int| 0 <= i < h.len() implies (#[trigger] h[i]).len() >= ndims by {
            assert(h[i] == self.history@[i]@);
        }
        let (best, most, other) = self.rank_axes(ndims);
        proof {
            lemma_other_activity(h, best as int, ndims as int, ndims as int);
            lemma_activity_bound(h, best as int, h.len() - 1);
        }
        let threshold: usize = self.history.len() / 2;
        if most < threshold {
            return;
        }
        if other > 0 && most - other < other {
            return;
        }
        assert(SweepModel::sweeps(h, ndims as int));
        self.direction = if best == ndims - 1 {
            "row_major"
        } else if best == 0 {
            "column_major"
        } else {
            "slice_major"
        };
        assert(before.predictable(coord@, ndims as int));
        assert(fits_signed(signed(h[h.len() - 1][best as int]) - signed(h[0][best as int])));
        self.predict(best, most);
    }

    /// Predict the next chunks along axis `best`.
    fn predict(&mut self, best: usize, most: usize)
        requires
            ({
                let h = old(self)@.history;
                let step = average_step(h, best as int);
                &&& fits_signed(signed(h.last()[best as int]) - signed(h[0][best as int]))
                &&& step != 0 ==> predictions_fit(
                    h.last()[best as int],
                    step,
                    1,
                    old(self)@.prefetch_count as int,
                )
            }),
            old(self)@.predicted_next.len() == 0,
            old(self).history@.len() >= 3,
            forall|i: int|
                0 <= i < old(self).history@.len() ==> best < (#[trigger] old(
                    self,
                ).history@[i])@.len(),
            most == activity(old(self)@.history, best as int),
            most > 0,
            most < old(self).history@.len(),
        ensures
            final(self)@ == (SweepModel {
                predicted_next: ({
                    let h = old(self)@.history;
                    let step = average_step(h, best as int);
                    if step == 0 {
                        Seq::empty()
                    } else {
                        predictions(
                            h.last(),
                            best as int,
                            step,
                            1,
                            old(self)@.prefetch_count as int,
                        )
                    }
                }),
                ..old(self)@
            }),
    {
        let ghost h = self@.history;
        let n: usize = self.history.len();
        assert(h[0] == self.history@[0]@);
        assert(h[n - 1] == self.history@[n - 1]@);
        let first: i64 = to_signed(self.history[0][best]);
        let last: i64 = to_signed(self.history[n - 1][best]);
        assert(first == signed(h[0][best as int]) && last == signed(h.last()[best as int]));
        // The average step, rounded toward zero
        let step: i64 = signed_quotient(last - first, most as u64);
        assert(step == average_step(h, best as int));
        if step == 0 {
            assert(self@.predicted_next =~= Seq::<Seq<u64>>::empty());
            return;
        }
        let ghost goal = predictions(
            h.last(),
            best as int,
            step as int,
            1,
            self.prefetch_count as int,
        );
        let count: u64 = self.prefetch_count as u64;
        let mut i: u64 = 1;
        let mut way: i64 = 0;
        assert(self@.predicted_next + goal =~= goal);
        assert(step * 0 == 0);
        while i <= count
            invariant
                1 <= i <= count + 1,
                count == self.prefetch_count,
                step != 0,
                step == average_step(h, best as int),
                h == old(self)@.history,
                goal == predictions(
                    h.last(),
                    best as int,
                    step as int,
                    1,
                    old(self)@.prefetch_count as int,
                ),
                n == self.history@.len(),
                n >= 3,
                h == self@.history,
                best < h.last().len(),
                last == signed(h.last()[best as int]),
                way == step * (i - 1),
                predictions_fit(
                    h.last()[best as int],
                    step as int,
                    i as int,
                    self.prefetch_count as int,
                ),
                self@ == (SweepModel { predicted_next: self@.predicted_next, ..old(self)@ }),
                self@.predicted_next + predictions(
                    h.last(),
                    best as int,
                    step as int,
                    i as int,
                    self.prefetch_count as int,
                ) =~= goal,
            decreases count + 1 - i,
        {
            proof {
                assert(step * (i - 1) + step == step * i) by (nonlinear_arith);
            }
            way = way + step;
            let new_val: i64 = last + way;
            if new_val < 0 {
                assert(self@.predicted_next + Seq::<Seq<u64>>::empty() =~= self@.predicted_next);
                return;
            }
            let ghost made = self@.predicted_next;
            assert(h[n - 1] == self.history@[n - 1]@);
            let mut pred = self.history[n - 1].clone();
            assert(pred@ =~= h.last());
            pred.set(best, new_val as u64);
            let ghost p = pred@;
            self.predicted_next.push(pred);
            assert(self@.predicted_next =~= made.push(p));
            assert(self@.history =~= h);
            proof {
                let rest = predictions(
                    h.last(),
                    best as int,
                    step as int,
                    i + 1,
                    self.prefetch_count as int,
                );
                assert(made.push(p) + rest =~= made + (seq![p] + rest));
            }
            proof {
                assert(i <= way || i <= -way) by (nonlinear_arith)
                    requires
                        step != 0,
                        way == step * i,
                        i >= 1,
                ;
            }
            i += 1;
        }
        assert(self@.predicted_next + Seq::<Seq<u64>>::empty() =~= self@.predicted_next);
    }
}

} // verus!
