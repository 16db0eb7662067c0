//! Standardization, batch gradient descent, and its convergence policy.
//!
//! Every executable function returns exactly the value of a spec-level
//! mirror of the algorithm, so the whole training run is a deterministic
//! function of the observation set and the hyperparameters.

use vstd::prelude::*;
use crate::fixed::{
    SCALE, fx_add, fx_div, fx_div_count, fx_mul, fx_of_count, fx_sqrt, fx_sub,
    lemma_square_nonneg, lemma_t_div_nonneg, s_add, s_div, s_div_count, s_mul, s_sqrt, s_sub, sat,
};
use crate::model::{Entry, LinearRegresser, TrainError, TrainedPredictor, s_delta, s_predict};

verus! {

/// The mileage column of an observation set.
pub open spec fn kms_of(data: Seq<Entry>) -> Seq<int> {
    data.map(|i: int, e: Entry| e.km as int)
}

/// The price column of an observation set.
pub open spec fn prices_of(data: Seq<Entry>) -> Seq<int> {
    data.map(|i: int, e: Entry| e.price as int)
}

/// The integer values of a vector of fixed-point numbers.
pub open spec fn ints_of(s: Seq<i64>) -> Seq<int> {
    s.map(|i: int, v: i64| v as int)
}

/// Left-to-right saturating sum of a sequence of values.
pub open spec fn s_sum(s: Seq<int>) -> int
    decreases s.len(),
{
    if s.len() == 0 {
        0
    } else {
        s_add(s_sum(s.drop_last()), s.last())
    }
}

/// The mean: the saturating sum divided by the element count.
pub open spec fn s_mean(s: Seq<int>) -> int
    recommends
        s.len() > 0,
{
    s_div_count(s_sum(s), s.len() as int)
}

/// Saturating sum of squared deviations from `m`.
pub open spec fn s_sq_dev_sum(s: Seq<int>, m: int) -> int
    decreases s.len(),
{
    if s.len() == 0 {
        0
    } else {
        s_add(
            s_sq_dev_sum(s.drop_last(), m),
            s_mul(s_sub(s.last(), m), s_sub(s.last(), m)),
        )
    }
}

/// The population standard deviation: squared deviations from the mean,
/// divided by the element count (not count minus one), square-rooted.
pub open spec fn s_std_dev(s: Seq<int>) -> int
    recommends
        s.len() > 0,
{
    s_sqrt(s_div_count(s_sq_dev_sum(s, s_mean(s)), s.len() as int))
}

proof fn lemma_s_sum_take(s: Seq<int>, i: int)
    requires
        0 <= i < s.len(),
    ensures
        s_sum(s.take(i + 1)) == s_add(s_sum(s.take(i)), s[i]),
{
    assert(s.take(i + 1).drop_last() =~= s.take(i));
    assert(s.take(i + 1).last() == s[i]);
}

proof fn lemma_sq_dev_take(s: Seq<int>, m: int, i: int)
    requires
        0 <= i < s.len(),
    ensures
        s_sq_dev_sum(s.take(i + 1), m) == s_add(
            s_sq_dev_sum(s.take(i), m),
            s_mul(s_sub(s[i], m), s_sub(s[i], m)),
        ),
{
    assert(s.take(i + 1).drop_last() =~= s.take(i));
    assert(s.take(i + 1).last() == s[i]);
}

/// Returns the mean and the population standard deviation of a non-empty
/// vector of fixed-point values.
pub fn mean_std(values: &Vec<i64>) -> (r: (i64, i64))
    requires
        values@.len() > 0,
    ensures
        r.0 as int == s_mean(ints_of(values@)),
        r.1 as int == s_std_dev(ints_of(values@)),
        r.1 >= 0,
{
    let n = values.len();
    let ghost vs = ints_of(values@);
    let mut sum: i64 = 0;
    let mut idx: usize = 0;
    while idx < n
        invariant
            idx <= n,
            n == values@.len(),
            vs == ints_of(values@),
            sum as int == s_sum(vs.take(idx as int)),
        decreases n - idx,
    {
        proof {
            lemma_s_sum_take(vs, idx as int);
        }
        sum = fx_add(sum, values[idx]);
        idx += 1;
    }
    proof {
        assert(vs.take(n as int) =~= vs);
    }
    let mean = fx_div_count(sum, n);
    let mut sq: i64 = 0;
    idx = 0;
    while idx < n
        invariant
            idx <= n,
            n == values@.len(),
            vs == ints_of(values@),
            mean as int == s_mean(vs),
            sq as int == s_sq_dev_sum(vs.take(idx as int), mean as int),
            sq >= 0,
        decreases n - idx,
    {
        proof {
            lemma_sq_dev_take(vs, mean as int, idx as int);
            lemma_square_nonneg(s_sub(vs[idx as int], mean as int));
        }
        let d = fx_sub(values[idx], mean);
        sq = fx_add(sq, fx_mul(d, d));
        idx += 1;
    }
    proof {
        assert(vs.take(n as int) =~= vs);
        lemma_t_div_nonneg(sq as int, n as int);
    }
    let variance = fx_div_count(sq, n);
    let sd = fx_sqrt(variance);
    (mean, sd)
}

/// The residual of the predictor `(t0, t1)` on one observation.
pub open spec fn s_err(t0: int, t1: int, e: Entry) -> int {
    s_sub(s_predict(t0, t1, e.km as int), e.price as int)
}

/// Batch error sum over an observation set.
pub open spec fn s_sum_err(data: Seq<Entry>, t0: int, t1: int) -> int
    decreases data.len(),
{
    if data.len() == 0 {
        0
    } else {
        s_add(s_sum_err(data.drop_last(), t0, t1), s_err(t0, t1, data.last()))
    }
}

/// Batch error sum weighted by the mileage of each observation.
pub open spec fn s_sum_err_km(data: Seq<Entry>, t0: int, t1: int) -> int
    decreases data.len(),
{
    if data.len() == 0 {
        0
    } else {
        s_add(
            s_sum_err_km(data.drop_last(), t0, t1),
            s_mul(s_err(t0, t1, data.last()), data.last().km as int),
        )
    }
}

/// One synchronous batch gradient-descent update: both coefficients step
/// from the same pre-update state.
pub open spec fn s_step(data: Seq<Entry>, lr: int, weight: int, t0: int, t1: int) -> (int, int) {
    let f = s_mul(lr, weight);
    (
        s_sub(t0, s_mul(f, s_sum_err(data, t0, t1))),
        s_sub(t1, s_mul(f, s_sum_err_km(data, t0, t1))),
    )
}

/// Runs up to `k` descent updates with the early-stop rule. Returns the
/// final coefficients, the number of updates actually performed, and
/// whether the early stop triggered.
pub open spec fn s_run(
    data: Seq<Entry>,
    lr: int,
    weight: int,
    thr: int,
    t0: int,
    t1: int,
    k: nat,
) -> (int, int, int, bool)
    decreases k,
{
    if k == 0 {
        (t0, t1, 0, false)
    } else {
        let next = s_step(data, lr, weight, t0, t1);
        let d = s_delta(next.0, next.1, t0, t1);
        if thr > 0 && d < thr {
            (next.0, next.1, 1, true)
        } else {
            let rest = s_run(data, lr, weight, thr, next.0, next.1, (k - 1) as nat);
            (rest.0, rest.1, rest.2 + 1, rest.3)
        }
    }
}

/// Saturating sum of squared residuals over an observation set.
pub open spec fn s_sq_err_sum(data: Seq<Entry>, t0: int, t1: int) -> int
    decreases data.len(),
{
    if data.len() == 0 {
        0
    } else {
        s_add(
            s_sq_err_sum(data.drop_last(), t0, t1),
            s_mul(s_err(t0, t1, data.last()), s_err(t0, t1, data.last())),
        )
    }
}

/// The root-mean-square residual of `(t0, t1)` over an observation set.
pub open spec fn s_rmse(data: Seq<Entry>, t0: int, t1: int) -> int
    recommends
        data.len() > 0,
{
    s_sqrt(s_div_count(s_sq_err_sum(data, t0, t1), data.len() as int))
}

/// An observation standardized to zero mean and unit deviation.
pub open spec fn s_standardized(
    data: Seq<Entry>,
    km_mean: int,
    km_std: int,
    p_mean: int,
    p_std: int,
) -> Seq<Entry>
    recommends
        km_std != 0,
        p_std != 0,
{
    data.map(
        |i: int, e: Entry| Entry {
            km: s_div(s_sub(e.km as int, km_mean), km_std) as i64,
            price: s_div(s_sub(e.price as int, p_mean), p_std) as i64,
        },
    )
}

/// The weight `1 / m` given to the batch error sums.
pub open spec fn s_weight(m: int) -> int {
    s_div(SCALE as int, sat(m * SCALE))
}

/// Whether training short-circuits to the zero result without computing.
pub open spec fn s_short_circuit(data: Seq<Entry>, lr: int, iters: nat) -> bool {
    data.len() == 0 || lr <= 0 || iters == 0
}

/// Whether a feature of the observation set has zero variance, so that
/// standardization would divide by zero.
pub open spec fn s_degenerate(data: Seq<Entry>) -> bool {
    s_std_dev(kms_of(data)) == 0 || s_std_dev(prices_of(data)) == 0
}

/// The full training run on a non-degenerate observation set: it returns
/// `(iterations used, rmse, theta_0, theta_1)`.
pub open spec fn s_train(data: Seq<Entry>, lr: int, iters: nat, thr: int) -> (int, int, int, int)
    recommends
        data.len() > 0,
        !s_degenerate(data),
{
    let km_mean = s_mean(kms_of(data));
    let km_std = s_std_dev(kms_of(data));
    let p_mean = s_mean(prices_of(data));
    let p_std = s_std_dev(prices_of(data));
    let sd = s_standardized(data, km_mean, km_std, p_mean, p_std);
    let weight = s_weight(data.len() as int);
    let r = s_run(sd, lr, weight, thr, p_mean, s_div(p_std, km_std), iters);
    let t1f = s_mul(s_div(p_std, km_std), r.1);
    let t0f = s_add(s_sub(p_mean, s_mul(t1f, km_mean)), s_mul(p_std, r.0));
    let used = if r.3 {
        r.2 - 1
    } else {
        iters as int
    };
    (used, s_rmse(data, t0f, t1f), t0f, t1f)
}

proof fn lemma_err_sums_take(data: Seq<Entry>, t0: int, t1: int, i: int)
    requires
        0 <= i < data.len(),
    ensures
        s_sum_err(data.take(i + 1), t0, t1) == s_add(
            s_sum_err(data.take(i), t0, t1),
            s_err(t0, t1, data[i]),
        ),
        s_sum_err_km(data.take(i + 1), t0, t1) == s_add(
            s_sum_err_km(data.take(i), t0, t1),
            s_mul(s_err(t0, t1, data[i]), data[i].km as int),
        ),
{
    assert(data.take(i + 1).drop_last() =~= data.take(i));
    assert(data.take(i + 1).last() == data[i]);
}

proof fn lemma_sq_err_take(data: Seq<Entry>, t0: int, t1: int, i: int)
    requires
        0 <= i < data.len(),
    ensures
        s_sq_err_sum(data.take(i + 1), t0, t1) == s_add(
            s_sq_err_sum(data.take(i), t0, t1),
            s_mul(s_err(t0, t1, data[i]), s_err(t0, t1, data[i])),
        ),
{
    assert(data.take(i + 1).drop_last() =~= data.take(i));
    assert(data.take(i + 1).last() == data[i]);
}

/// The descent performs at most `k` updates, performs exactly `k` when
/// the early stop never triggers, and at least one when it does.
pub proof fn lemma_run_bounds(
    data: Seq<Entry>,
    lr: int,
    weight: int,
    thr: int,
    t0: int,
    t1: int,
    k: nat,
)
    ensures
        0 <= s_run(data, lr, weight, thr, t0, t1, k).2 <= k,
        s_run(data, lr, weight, thr, t0, t1, k).3 ==> s_run(data, lr, weight, thr, t0, t1, k).2
            >= 1,
        !s_run(data, lr, weight, thr, t0, t1, k).3 ==> s_run(data, lr, weight, thr, t0, t1, k).2
            == k,
    decreases k,
{
    if k > 0 {
        let next = s_step(data, lr, weight, t0, t1);
        lemma_run_bounds(data, lr, weight, thr, next.0, next.1, (k - 1) as nat);
    }
}

/// The root-mean-square residual of a fixed-point predictor over a
/// non-empty observation set.
pub fn rmse(data: &Vec<Entry>, predictor: &TrainedPredictor) -> (r: i64)
    requires
        data@.len() > 0,
    ensures
        r as int == s_rmse(data@, predictor.theta_0 as int, predictor.theta_1 as int),
        r >= 0,
{
    let n = data.len();
    let ghost t0 = predictor.theta_0 as int;
    let ghost t1 = predictor.theta_1 as int;
    let mut acc: i64 = 0;
    let mut idx: usize = 0;
    while idx < n
        invariant
            idx <= n,
            n == data@.len(),
            t0 == predictor.theta_0 as int,
            t1 == predictor.theta_1 as int,
            acc as int == s_sq_err_sum(data@.take(idx as int), t0, t1),
            acc >= 0,
        decreases n - idx,
    {
        proof {
            lemma_sq_err_take(data@, t0, t1, idx as int);
            lemma_square_nonneg(s_err(t0, t1, data@[idx as int]));
        }
        let d = fx_sub(predictor.predict(data[idx].km), data[idx].price);
        acc = fx_add(acc, fx_mul(d, d));
        idx += 1;
    }
    proof {
        assert(data@.take(n as int) =~= data@);
        lemma_t_div_nonneg(acc as int, n as int);
    }
    fx_sqrt(fx_div_count(acc, n))
}

/// What [`LinearRegresser::train`] promises of its result: the zero
/// result on the short-circuit inputs, the named error on a
/// zero-variance feature, and otherwise exactly the outcome of
/// [`s_train`], with the iteration count within budget.
pub open spec fn train_contract(
    reg: LinearRegresser,
    r: Result<(usize, i64, TrainedPredictor), TrainError>,
) -> bool {
    let short = s_short_circuit(reg.data@, reg.learning_rate as int, reg.iterations as nat);
    &&& short ==> r == Ok::<(usize, i64, TrainedPredictor), TrainError>(
        (0usize, 0i64, TrainedPredictor { theta_0: 0i64, theta_1: 0i64 }),
    )
    &&& !short && s_degenerate(reg.data@) ==> r == Err::<(usize, i64, TrainedPredictor),
        TrainError,
    >(TrainError::ZeroVariance)
    &&& !short && !s_degenerate(reg.data@) ==> (r matches Ok(t) && {
        let out = s_train(
            reg.data@,
            reg.learning_rate as int,
            reg.iterations as nat,
            reg.delta_threshold as int,
        );
        &&& t.0 as int == out.0
        &&& t.1 as int == out.1
        &&& t.2.theta_0 as int == out.2
        &&& t.2.theta_1 as int == out.3
        &&& t.0 <= reg.iterations
    })
}

/// Training is deterministic: two runs on equal observation sets and
/// equal hyperparameters return equal results.
pub proof fn lemma_train_deterministic(
    a: LinearRegresser,
    b: LinearRegresser,
    r1: Result<(usize, i64, TrainedPredictor), TrainError>,
    r2: Result<(usize, i64, TrainedPredictor), TrainError>,
)
    requires
        a.data@ == b.data@,
        a.learning_rate == b.learning_rate,
        a.iterations == b.iterations,
        a.delta_threshold == b.delta_threshold,
        train_contract(a, r1),
        train_contract(b, r2),
    ensures
        r1 == r2,
{
    let short = s_short_circuit(a.data@, a.learning_rate as int, a.iterations as nat);
    if !short && !s_degenerate(a.data@) {
        let t1 = r1->Ok_0;
        let t2 = r2->Ok_0;
        assert(t1.0 == t2.0);
        assert(t1.1 == t2.1);
        assert(t1.2 == t2.2);
        assert(r1 == r2);
    }
}

/// When the early stop triggers, the final coefficients came from a
/// single update of some previous state, and the convergence delta
/// between the two is below the threshold.
pub proof fn lemma_early_stop_delta(
    data: Seq<Entry>,
    lr: int,
    weight: int,
    thr: int,
    t0: int,
    t1: int,
    k: nat,
)
    ensures
        s_run(data, lr, weight, thr, t0, t1, k).3 ==> exists|p0: int, p1: int| {
            let r = s_run(data, lr, weight, thr, t0, t1, k);
            &&& (r.0, r.1) == #[trigger] s_step(data, lr, weight, p0, p1)
            &&& s_delta(r.0, r.1, p0, p1) < thr
            &&& thr > 0
        },
    decreases k,
{
    let r = s_run(data, lr, weight, thr, t0, t1, k);
    if k > 0 && r.3 {
        let next = s_step(data, lr, weight, t0, t1);
        let d = s_delta(next.0, next.1, t0, t1);
        if thr > 0 && d < thr {
            assert((r.0, r.1) == s_step(data, lr, weight, t0, t1));
        } else {
            lemma_early_stop_delta(data, lr, weight, thr, next.0, next.1, (k - 1) as nat);
        }
    }
}

/// The reported root-mean-square residual is exactly [`s_rmse`] of the
/// de-standardized predictor over the original, unstandardized data.
pub proof fn lemma_rmse_consistent(data: Seq<Entry>, lr: int, iters: nat, thr: int)
    requires
        data.len() > 0,
    ensures
        ({
            let out = s_train(data, lr, iters, thr);
            out.1 == s_rmse(data, out.2, out.3)
        }),
{
}

impl LinearRegresser {
    /// Fits the model by batch gradient descent on standardized features.
    ///
    /// An empty observation set, a nonpositive learning rate or a zero
    /// iteration budget short-circuit to the zero result. A zero-variance
    /// feature is rejected with [`TrainError::ZeroVariance`], since its
    /// standardization would divide by zero. Otherwise the run returns
    /// the iteration count actually used (never more than the budget),
    /// the root-mean-square residual over the original data, and the
    /// de-standardized predictor, exactly as [`s_train`] describes.
    pub fn train(&self) -> (r: Result<(usize, i64, TrainedPredictor), TrainError>)
        ensures
            train_contract(*self, r),
    {
        if self.data.len() == 0 || self.learning_rate <= 0 || self.iterations == 0 {
            return Ok((0, 0, TrainedPredictor { theta_0: 0, theta_1: 0 }));
        }
        let m = self.data.len();
        let mut kms: Vec<i64> = Vec::new();
        let mut prices: Vec<i64> = Vec::new();
        let mut i: usize = 0;
        while i < m
            invariant
                i <= m,
                m == self.data@.len(),
                kms@.len() == i,
                prices@.len() == i,
                forall|j: int| 0 <= j < i ==> kms@[j] == self.data@[j].km,
                forall|j: int| 0 <= j < i ==> prices@[j] == self.data@[j].price,
            decreases m - i,
        {
            kms.push(self.data[i].km);
            prices.push(self.data[i].price);
            i += 1;
        }
        proof {
            assert(ints_of(kms@) =~= kms_of(self.data@));
            assert(ints_of(prices@) =~= prices_of(self.data@));
        }
        let (km_mean, km_std) = mean_std(&kms);
        let (price_mean, price_std) = mean_std(&prices);
        if km_std == 0 || price_std == 0 {
            return Err(TrainError::ZeroVariance);
        }
        let ghost km_mean_i = km_mean as int;
        let ghost km_std_i = km_std as int;
        let ghost p_mean_i = price_mean as int;
        let ghost p_std_i = price_std as int;
        let ghost sd = s_standardized(self.data@, km_mean_i, km_std_i, p_mean_i, p_std_i);
        let mut data2: Vec<Entry> = Vec::new();
        i = 0;
        while i < m
            invariant
                i <= m,
                m == self.data@.len(),
                km_std != 0,
                price_std != 0,
                km_mean_i == km_mean as int,
                km_std_i == km_std as int,
                p_mean_i == price_mean as int,
                p_std_i == price_std as int,
                sd == s_standardized(self.data@, km_mean_i, km_std_i, p_mean_i, p_std_i),
                data2@.len() == i,
                forall|j: int| 0 <= j < i ==> data2@[j] == sd[j],
            decreases m - i,
        {
            let e = self.data[i];
            data2.push(
                Entry {
                    km: fx_div(fx_sub(e.km, km_mean), km_std),
                    price: fx_div(fx_sub(e.price, price_mean), price_std),
                },
            );
            i += 1;
        }
        proof {
            assert(data2@ =~= sd);
        }
        let mfx = fx_of_count(m);
        let weight = fx_div(SCALE, mfx);
        let mut prediction = TrainedPredictor {
            theta_0: price_mean,
            theta_1: fx_div(price_std, km_std),
        };
        let ghost lr_i = self.learning_rate as int;
        let ghost thr_i = self.delta_threshold as int;
        let ghost w_i = weight as int;
        let ghost iters_n = self.iterations as nat;
        let ghost init0 = prediction.theta_0 as int;
        let ghost init1 = prediction.theta_1 as int;
        let ghost full = s_run(sd, lr_i, w_i, thr_i, init0, init1, iters_n);
        let iters = self.iterations;
        let lr = self.learning_rate;
        let thr = self.delta_threshold;
        let mut early: Option<usize> = None;
        let mut stopped = false;
        i = 0;
        while i < iters && !stopped
            invariant
                i <= iters,
                iters == iters_n,
                m == data2@.len(),
                m > 0,
                data2@ == sd,
                lr as int == lr_i,
                thr as int == thr_i,
                weight as int == w_i,
                !stopped ==> early.is_none() && {
                    let rem = s_run(
                        sd,
                        lr_i,
                        w_i,
                        thr_i,
                        prediction.theta_0 as int,
                        prediction.theta_1 as int,
                        (iters - i) as nat,
                    );
                    rem.0 == full.0 && rem.1 == full.1 && rem.2 + i == full.2 && rem.3 == full.3
                },
                stopped ==> prediction.theta_0 as int == full.0 && prediction.theta_1 as int
                    == full.1 && full.3 && i == full.2 && (early matches Some(j) && j + 1
                    == full.2),
            decreases iters - i,
        {
            let ghost p0 = prediction.theta_0 as int;
            let ghost p1 = prediction.theta_1 as int;
            let mut sum_e: i64 = 0;
            let mut sum_ek: i64 = 0;
            let mut j: usize = 0;
            while j < m
                invariant
                    j <= m,
                    m == data2@.len(),
                    p0 == prediction.theta_0 as int,
                    p1 == prediction.theta_1 as int,
                    sum_e as int == s_sum_err(data2@.take(j as int), p0, p1),
                    sum_ek as int == s_sum_err_km(data2@.take(j as int), p0, p1),
                decreases m - j,
            {
                proof {
                    lemma_err_sums_take(data2@, p0, p1, j as int);
                }
                let predicted = prediction.predict(data2[j].km);
                let errv = fx_sub(predicted, data2[j].price);
                sum_e = fx_add(sum_e, errv);
                sum_ek = fx_add(sum_ek, fx_mul(errv, data2[j].km));
                j += 1;
            }
            proof {
                assert(data2@.take(m as int) =~= data2@);
            }
            let f = fx_mul(lr, weight);
            let t = TrainedPredictor {
                theta_0: fx_sub(prediction.theta_0, fx_mul(f, sum_e)),
                theta_1: fx_sub(prediction.theta_1, fx_mul(f, sum_ek)),
            };
            let d = t.delta(&prediction);
            proof {
                assert((t.theta_0 as int, t.theta_1 as int) == s_step(sd, lr_i, w_i, p0, p1));
            }
            prediction = t;
            if thr > 0 && d < thr {
                early = Some(i);
                stopped = true;
            }
            i += 1;
        }
        let used: usize = match early {
            Some(j) => j,
            None => iters,
        };
        let t1f = fx_mul(fx_div(price_std, km_std), prediction.theta_1);
        let t0f = fx_add(
            fx_sub(price_mean, fx_mul(t1f, km_mean)),
            fx_mul(price_std, prediction.theta_0),
        );
        let final_predictor = TrainedPredictor { theta_0: t0f, theta_1: t1f };
        proof {
            lemma_run_bounds(sd, lr_i, w_i, thr_i, init0, init1, iters_n);
        }
        let deviation = rmse(&self.data, &final_predictor);
        Ok((used, deviation, final_predictor))
    }
}

} // verus!
