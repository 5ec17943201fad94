use vstd::prelude::*;

use crate::features::{decodes, gray_resized, preprocess_image};
use crate::model::ImageClassifier;

verus! {

/// Failure of a classification request.
#[derive(Debug, PartialEq, Eq, Structural)]
pub enum PredictError {
    /// The persisted model could not be read back.
    ModelLoad,
    /// The query image could not be decoded.
    ImageProcessing,
    /// The model holds no training samples.
    EmptyModel,
    /// `k` is zero or exceeds the number of training samples.
    InvalidK,
}

/// Squared Euclidean distance over the first `i` positions.
pub open spec fn dist2_to(a: Seq<u8>, b: Seq<u8>, i: int) -> int
    decreases i,
{
    if i <= 0 {
        0
    } else {
        dist2_to(a, b, i - 1) + (a[i - 1] - b[i - 1]) * (a[i - 1] - b[i - 1])
    }
}

/// Squared Euclidean distance between two feature vectors of equal length.
/// The intensities stand for the values `p / 255`, a fixed positive scaling,
/// so this integer distance orders vectors exactly as the Euclidean distance
/// over the normalized values does, ties included.
pub open spec fn dist2(a: Seq<u8>, b: Seq<u8>) -> int {
    dist2_to(a, b, a.len() as int)
}

/// The distances from a query to every training vector of a model.
pub open spec fn dists_of(m: ImageClassifier, q: Seq<u8>) -> Seq<int> {
    Seq::new(m.x_train@.len(), |i: int| dist2(q, m.rows()[i]))
}

/// Computes the squared Euclidean distance between two vectors.
pub fn squared_distance(a: &Vec<u8>, b: &Vec<u8>) -> (d: u128)
    requires
        a@.len() == b@.len(),
    ensures
        d as int == dist2(a@, b@),
{
    let n = a.len();
    let mut sum: u128 = 0;
    let mut j: usize = 0;
    while j < n
        invariant
            n == a@.len() == b@.len(),
            j <= n,
            sum as int == dist2_to(a@, b@, j as int),
            sum <= 65025 * j,
        decreases n - j,
    {
        let x = a[j];
        let y = b[j];
        let diff: u128 = if x >= y {
            (x - y) as u128
        } else {
            (y - x) as u128
        };
        proof {
            assert(diff <= 255);
            assert(diff * diff <= 65025) by (nonlinear_arith)
                requires
                    diff <= 255,
            ;
            assert(diff as int * diff as int == (a@[j as int] - b@[j as int]) * (a@[j as int]
                - b@[j as int])) by (nonlinear_arith)
                requires
                    diff as int == a@[j as int] - b@[j as int] || diff as int == b@[j as int]
                        - a@[j as int],
            ;
        }
        sum = sum + diff * diff;
        j = j + 1;
    }
    sum
}

/// Strict preference order on training indices for a fixed distance table:
/// smaller distance first, and on equal distance the lower index.
pub open spec fn better(d: Seq<int>, i: int, j: int) -> bool {
    d[i] < d[j] || (d[i] == d[j] && i < j)
}

/// `s` lists the `k` nearest training indices for distance table `d`, in
/// preference order. These conditions pin `s` uniquely
/// (`lemma_selection_unique`): it is strictly sorted by preference, and any
/// index preferred to a listed one is listed before it.
pub open spec fn is_selection(d: Seq<int>, k: int, s: Seq<usize>) -> bool {
    &&& s.len() == k
    &&& forall|m: int| 0 <= m < k ==> (#[trigger] s[m]) < d.len()
    &&& forall|m1: int, m2: int|
        0 <= m1 < m2 < k ==> better(d, #[trigger] s[m1] as int, #[trigger] s[m2] as int)
    &&& forall|m: int, j: int|
        #![trigger s[m], d[j]]
        0 <= m < k && 0 <= j < d.len() && better(d, j, s[m] as int) ==> s.subrange(0, m).contains(
            j as usize,
        )
}

/// Law: the conditions of `is_selection` pin the selected indices uniquely,
/// so nearest-neighbour selection is deterministic for a fixed distance table.
pub proof fn lemma_selection_unique(d: Seq<int>, k: int, s1: Seq<usize>, s2: Seq<usize>)
    requires
        is_selection(d, k, s1),
        is_selection(d, k, s2),
    ensures
        s1 =~= s2,
    decreases k,
{
    if k > 0 {
        let p1 = s1.subrange(0, k - 1);
        let p2 = s2.subrange(0, k - 1);
        assert(is_selection(d, k - 1, p1)) by {
            assert forall|m: int, j: int|
                #![trigger p1[m], d[j]]
                0 <= m < k - 1 && 0 <= j < d.len() && better(d, j, p1[m] as int) implies p1
                .subrange(0, m).contains(j as usize) by {
                assert(p1[m] == s1[m]);
                assert(s1.subrange(0, m).contains(j as usize));
                assert(p1.subrange(0, m) =~= s1.subrange(0, m));
            }
        }
        assert(is_selection(d, k - 1, p2)) by {
            assert forall|m: int, j: int|
                #![trigger p2[m], d[j]]
                0 <= m < k - 1 && 0 <= j < d.len() && better(d, j, p2[m] as int) implies p2
                .subrange(0, m).contains(j as usize) by {
                assert(p2[m] == s2[m]);
                assert(s2.subrange(0, m).contains(j as usize));
                assert(p2.subrange(0, m) =~= s2.subrange(0, m));
            }
        }
        lemma_selection_unique(d, k - 1, p1, p2);
        let a = s1[k - 1];
        let b = s2[k - 1];
        if a != b {
            if better(d, a as int, b as int) {
                assert(s2.subrange(0, k - 1).contains(a));
                let t = choose|t: int| 0 <= t < k - 1 && #[trigger] s2.subrange(0, k - 1)[t] == a;
                assert(s1[t] == a);
                assert(better(d, s1[t] as int, s1[k - 1] as int));
                assert(false);
            } else {
                assert(better(d, b as int, a as int));
                assert(s1.subrange(0, k - 1).contains(b));
                let t = choose|t: int| 0 <= t < k - 1 && #[trigger] s1.subrange(0, k - 1)[t] == b;
                assert(s2[t] == b);
                assert(better(d, s2[t] as int, s2[k - 1] as int));
                assert(false);
            }
        }
        assert forall|i: int| 0 <= i < k implies s1[i] == s2[i] by {
            if i < k - 1 {
                assert(p1[i] == p2[i]);
            }
        }
    }
}

/// The distance table as mathematical integers.
pub open spec fn ints_of(d: Seq<u128>) -> Seq<int> {
    Seq::new(d.len(), |i: int| d[i] as int)
}

/// Number of `false` entries in a sequence of flags.
spec fn num_false(c: Seq<bool>) -> int
    decreases c.len(),
{
    if c.len() == 0 {
        0
    } else {
        num_false(c.drop_last()) + if c.last() {
            0int
        } else {
            1int
        }
    }
}

proof fn lemma_num_false_all_true(c: Seq<bool>)
    requires
        forall|i: int| 0 <= i < c.len() ==> c[i],
    ensures
        num_false(c) == 0,
    decreases c.len(),
{
    if c.len() > 0 {
        lemma_num_false_all_true(c.drop_last());
    }
}

proof fn lemma_num_false_update(c: Seq<bool>, b: int)
    requires
        0 <= b < c.len(),
        !c[b],
    ensures
        num_false(c.update(b, true)) == num_false(c) - 1,
    decreases c.len(),
{
    let cu = c.update(b, true);
    if b == c.len() - 1 {
        assert(cu.drop_last() =~= c.drop_last());
    } else {
        assert(cu.drop_last() =~= c.drop_last().update(b, true));
        lemma_num_false_update(c.drop_last(), b);
    }
}

/// Picks the `k` nearest training indices, nearest first, breaking distance
/// ties in favour of the lower index.
pub fn select_k_nearest(dists: &Vec<u128>, k: usize) -> (s: Vec<usize>)
    requires
        k <= dists@.len(),
    ensures
        is_selection(ints_of(dists@), k as int, s@),
{
    let n = dists.len();
    let ghost d = ints_of(dists@);
    let mut chosen: Vec<bool> = Vec::new();
    let mut i: usize = 0;
    while i < n
        invariant
            chosen@.len() == i,
            i <= n,
            forall|t: int| 0 <= t < i ==> !chosen@[t],
            num_false(chosen@) == i,
        decreases n - i,
    {
        proof {
            assert(chosen@.push(false).drop_last() =~= chosen@);
        }
        chosen.push(false);
        i = i + 1;
    }
    let mut s: Vec<usize> = Vec::new();
    let mut m: usize = 0;
    while m < k
        invariant
            n == dists@.len(),
            d == ints_of(dists@),
            k <= n,
            chosen@.len() == n,
            s@.len() == m,
            m <= k,
            forall|t: int| 0 <= t < m ==> (#[trigger] s@[t]) < n,
            forall|i2: int| 0 <= i2 < n ==> (#[trigger] chosen@[i2] <==> s@.contains(i2 as usize)),
            forall|m1: int, m2: int|
                0 <= m1 < m2 < m ==> better(d, #[trigger] s@[m1] as int, #[trigger] s@[m2] as int),
            forall|t: int, j: int|
                #![trigger s@[t], d[j]]
                0 <= t < m && 0 <= j < n && better(d, j, s@[t] as int) ==> s@.subrange(0,
                t,
                ).contains(j as usize),
            num_false(chosen@) == n - m,
        decreases k - m,
    {
        let mut best: usize = n;
        let mut j: usize = 0;
        while j < n
            invariant
                n == dists@.len(),
                d == ints_of(dists@),
                chosen@.len() == n,
                j <= n,
                best == n || (best < j && !chosen@[best as int]),
                best == n ==> forall|t: int| 0 <= t < j ==> chosen@[t],
                best < n ==> forall|t: int|
                    0 <= t < j && !chosen@[t] && t != best ==> better(d, best as int, t),
            decreases n - j,
        {
            if !chosen[j] {
                if best == n || dists[j] < dists[best] {
                    best = j;
                }
            }
            j = j + 1;
        }
        proof {
            if best == n {
                lemma_num_false_all_true(chosen@);
                assert(false);
            }
        }
        let b = best;
        let ghost s_old = s@;
        let ghost chosen_old = chosen@;
        proof {
            lemma_num_false_update(chosen@, b as int);
        }
        chosen.set(b, true);
        s.push(b);
        proof {
            let mi = m as int;
            assert(s@[mi] == b);
            assert(forall|t: int| 0 <= t < mi ==> s@[t] == s_old[t]);
            // the flags still mirror membership in the selection
            assert forall|i2: int| 0 <= i2 < n implies (#[trigger] chosen@[i2] <==> s@.contains(
                i2 as usize,
            )) by {
                if chosen@[i2] {
                    if i2 == b {
                        assert(s@[mi] == i2 as usize);
                    } else {
                        assert(chosen_old[i2]);
                        let t = choose|t: int|
                            0 <= t < s_old.len() && s_old[t] == i2 as usize;
                        assert(s@[t] == i2 as usize);
                    }
                }
                if s@.contains(i2 as usize) {
                    let t = choose|t: int| 0 <= t < s@.len() && s@[t] == i2 as usize;
                    if t < mi {
                        assert(s_old[t] == i2 as usize);
                        assert(s_old.contains(i2 as usize));
                    } else {
                        assert(i2 == b);
                    }
                }
            }
            // every earlier pick is preferred to the new one
            assert forall|m1: int| 0 <= m1 < mi implies better(d, s@[m1] as int, b as int) by {
                let v = s_old[m1] as int;
                assert(s_old.contains(s_old[m1]));
                assert(chosen_old[v]);
                assert(v != b);
                if !better(d, v, b as int) {
                    assert(better(d, b as int, v));
                    assert(s_old.subrange(0, m1).contains(b as usize));
                    let t = choose|t: int|
                        0 <= t < m1 && s_old.subrange(0, m1)[t] == b as usize;
                    assert(s_old[t] == b as usize);
                    assert(s_old.contains(b as usize));
                    assert(chosen_old[b as int]);
                    assert(false);
                }
            }
            // nothing outside the new prefix is preferred to the new pick
            assert forall|t: int, j2: int|
                #![trigger s@[t], d[j2]]
                0 <= t < mi + 1 && 0 <= j2 < n && better(d, j2, s@[t] as int) implies s@.subrange(
                0,
                t,
            ).contains(j2 as usize) by {
                if t < mi {
                    assert(s_old.subrange(0, t).contains(j2 as usize));
                    assert(s@.subrange(0, t) =~= s_old.subrange(0, t));
                } else {
                    assert(s@[t] == b);
                    assert(j2 != b);
                    if !chosen_old[j2] {
                        assert(better(d, b as int, j2));
                        assert(false);
                    }
                    assert(s_old.contains(j2 as usize));
                    let t2 = choose|t2: int|
                        0 <= t2 < s_old.len() && s_old[t2] == j2 as usize;
                    assert(s@.subrange(0, mi) =~= s_old);
                    assert(s@.subrange(0, mi)[t2] == j2 as usize);
                }
            }
        }
        m = m + 1;
    }
    s
}

/// How many of the selected samples carry the good label.
pub open spec fn good_count(labels: Seq<i32>, s: Seq<usize>) -> int
    decreases s.len(),
{
    if s.len() == 0 {
        0
    } else {
        good_count(labels, s.drop_last()) + if labels[s.last() as int] == 1 {
            1int
        } else {
            0int
        }
    }
}

/// The majority label over the selected samples; an exact tie (possible only
/// for even `k`) goes to good (1) by convention.
pub open spec fn vote(labels: Seq<i32>, s: Seq<usize>) -> i32 {
    if 2 * good_count(labels, s) >= s.len() {
        1i32
    } else {
        0i32
    }
}

/// Majority vote over the labels of the selected samples.
pub fn majority_vote(labels: &Vec<i32>, s: &Vec<usize>) -> (r: i32)
    requires
        forall|t: int| 0 <= t < s@.len() ==> (#[trigger] s@[t]) < labels@.len(),
    ensures
        r == vote(labels@, s@),
{
    let k = s.len();
    let mut count: usize = 0;
    let mut t: usize = 0;
    while t < k
        invariant
            k == s@.len(),
            t <= k,
            count <= t,
            forall|t2: int| 0 <= t2 < k ==> (#[trigger] s@[t2]) < labels@.len(),
            count as int == good_count(labels@, s@.subrange(0, t as int)),
        decreases k - t,
    {
        proof {
            assert(s@.subrange(0, t as int + 1).drop_last() =~= s@.subrange(0, t as int));
            assert(s@.subrange(0, t as int + 1).last() == s@[t as int]);
        }
        if labels[s[t]] == 1 {
            count = count + 1;
        }
        t = t + 1;
    }
    proof {
        assert(s@.subrange(0, k as int) =~= s@);
    }
    if count >= k - count {
        1
    } else {
        0
    }
}

/// Classifies an already encoded query vector against the model: the `k`
/// nearest training vectors by squared distance (ties to the lower insertion
/// index) vote on the label, and an exact vote tie goes to good.
pub fn predict(model: &ImageClassifier, query: &Vec<u8>) -> (r: Result<i32, PredictError>)
    requires
        model.wf(),
        query@.len() == model.num_features(),
    ensures
        model.num_samples() == 0 ==> r == Err::<i32, PredictError>(PredictError::EmptyModel),
        model.num_samples() > 0 && (model.k == 0 || model.k > model.num_samples()) ==> r
            == Err::<i32, PredictError>(PredictError::InvalidK),
        1 <= model.k <= model.num_samples() ==> exists|s: Seq<usize>|
            is_selection(dists_of(*model, query@), model.k as int, s) && r == Ok::<
                i32,
                PredictError,
            >(vote(model.y_train@, s)),
{
    let n = model.x_train.len();
    if n == 0 {
        return Err(PredictError::EmptyModel);
    }
    if model.k == 0 || model.k > n {
        return Err(PredictError::InvalidK);
    }
    let mut ds: Vec<u128> = Vec::new();
    let mut i: usize = 0;
    while i < n
        invariant
            n == model.x_train@.len(),
            model.wf(),
            query@.len() == model.num_features(),
            i <= n,
            ds@.len() == i,
            forall|t: int|
                0 <= t < i ==> (#[trigger] ds@[t]) as int == dist2(query@, model.rows()[t]),
        decreases n - i,
    {
        let dist = squared_distance(query, &model.x_train[i]);
        ds.push(dist);
        i = i + 1;
    }
    let sel = select_k_nearest(&ds, model.k);
    proof {
        assert(ints_of(ds@) =~= dists_of(*model, query@));
    }
    let lab = majority_vote(&model.y_train, &sel);
    Ok(lab)
}

/// Classifies an image, given as its raw file bytes, against a model: the
/// query is encoded at the model's resolution and predicted as in `predict`.
pub fn classify_image(model: &ImageClassifier, image_bytes: &Vec<u8>) -> (r: Result<
    i32,
    PredictError,
>)
    requires
        model.wf(),
    ensures
        model.num_samples() == 0 ==> r == Err::<i32, PredictError>(PredictError::EmptyModel),
        model.num_samples() > 0 && (model.k == 0 || model.k > model.num_samples()) ==> r
            == Err::<i32, PredictError>(PredictError::InvalidK),
        1 <= model.k <= model.num_samples() ==> {
            &&& (r == Err::<i32, PredictError>(PredictError::ImageProcessing) <==> !decodes(
                image_bytes@,
            ))
            &&& decodes(image_bytes@) ==> exists|s: Seq<usize>|
                is_selection(
                    dists_of(
                        *model,
                        gray_resized(image_bytes@, model.target_width, model.target_height),
                    ),
                    model.k as int,
                    s,
                ) && r == Ok::<i32, PredictError>(vote(model.y_train@, s))
        },
{
    let n = model.x_train.len();
    if n == 0 {
        return Err(PredictError::EmptyModel);
    }
    if model.k == 0 || model.k > n {
        return Err(PredictError::InvalidK);
    }
    let f = model.x_train[0].len();
    proof {
        assert(f == model.num_features());
    }
    match preprocess_image(image_bytes, model.target_width, model.target_height) {
        Ok(q) => predict(model, &q),
        Err(_) => Err(PredictError::ImageProcessing),
    }
}

/// Law: the vote, and with it the predicted label, is the same for any two
/// selections over one distance table — prediction is deterministic for a
/// fixed model and query.
pub proof fn lemma_predict_deterministic(
    d: Seq<int>,
    labels: Seq<i32>,
    k: int,
    s1: Seq<usize>,
    s2: Seq<usize>,
)
    requires
        is_selection(d, k, s1),
        is_selection(d, k, s2),
    ensures
        vote(labels, s1) == vote(labels, s2),
{
    lemma_selection_unique(d, k, s1, s2);
}

proof fn lemma_good_count_all_good(labels: Seq<i32>, s: Seq<usize>)
    requires
        forall|i: int| 0 <= i < labels.len() ==> labels[i] == 1,
        forall|t: int| 0 <= t < s.len() ==> (#[trigger] s[t]) < labels.len(),
    ensures
        good_count(labels, s) == s.len(),
    decreases s.len(),
{
    if s.len() > 0 {
        lemma_good_count_all_good(labels, s.drop_last());
    }
}

/// Law: a model whose training samples all carry the good label predicts good
/// for every query and every valid k.
pub proof fn lemma_single_class_good(m: ImageClassifier, q: Seq<u8>, s: Seq<usize>)
    requires
        m.wf(),
        forall|i: int| 0 <= i < m.y_train@.len() ==> m.y_train@[i] == 1,
        1 <= m.k <= m.num_samples(),
        is_selection(dists_of(m, q), m.k as int, s),
    ensures
        vote(m.y_train@, s) == 1,
{
    assert(dists_of(m, q).len() == m.y_train@.len());
    lemma_good_count_all_good(m.y_train@, s);
}

proof fn lemma_dist2_to_nonneg(a: Seq<u8>, b: Seq<u8>, i: int)
    ensures
        dist2_to(a, b, i) >= 0,
    decreases i,
{
    if i > 0 {
        lemma_dist2_to_nonneg(a, b, i - 1);
        assert((a[i - 1] - b[i - 1]) * (a[i - 1] - b[i - 1]) >= 0) by (nonlinear_arith);
    }
}

proof fn lemma_dist2_to_zero(a: Seq<u8>, b: Seq<u8>, i: int)
    requires
        0 <= i <= a.len(),
        i <= b.len(),
    ensures
        dist2_to(a, b, i) == 0 <==> (forall|j: int| 0 <= j < i ==> a[j] == b[j]),
    decreases i,
{
    if i > 0 {
        lemma_dist2_to_zero(a, b, i - 1);
        lemma_dist2_to_nonneg(a, b, i - 1);
        let x = a[i - 1] - b[i - 1];
        assert(x * x >= 0 && (x * x == 0 <==> x == 0)) by (nonlinear_arith);
    }
}

/// Law: the squared distance of two equally long vectors is zero exactly when
/// they are equal.
pub proof fn lemma_dist2_zero_iff_eq(a: Seq<u8>, b: Seq<u8>)
    requires
        a.len() == b.len(),
    ensures
        dist2(a, b) == 0 <==> a =~= b,
{
    lemma_dist2_to_zero(a, b, a.len() as int);
}

/// Law: if the query vector equals exactly one training vector, the k = 1
/// prediction returns that vector's label.
pub proof fn lemma_unique_match_k1(m: ImageClassifier, q: Seq<u8>, i0: int, s: Seq<usize>)
    requires
        m.wf(),
        q.len() == m.num_features(),
        0 <= i0 < m.num_samples(),
        m.rows()[i0] == q,
        forall|j: int| 0 <= j < m.num_samples() && j != i0 ==> m.rows()[j] != q,
        is_selection(dists_of(m, q), 1, s),
    ensures
        s =~= seq![i0 as usize],
        vote(m.y_train@, s) == m.y_train@[i0],
{
    let d = dists_of(m, q);
    lemma_dist2_zero_iff_eq(q, m.rows()[i0]);
    assert(d[i0] == 0);
    assert forall|j: int| 0 <= j < d.len() && j != i0 implies d[j] > 0 by {
        lemma_dist2_zero_iff_eq(q, m.rows()[j]);
        lemma_dist2_to_nonneg(q, m.rows()[j], q.len() as int);
    }
    let s0 = s[0] as int;
    if s0 != i0 {
        assert(better(d, i0, s0));
        assert(s.subrange(0, 0).contains(i0 as usize));
        assert(false);
    }
    assert(s =~= seq![i0 as usize]);
    assert(s.drop_last() =~= Seq::<usize>::empty());
    assert(good_count(m.y_train@, s.drop_last()) == 0) by {
        reveal_with_fuel(good_count, 1);
    }
    assert(s.last() == i0 as usize);
    assert(good_count(m.y_train@, s) == if m.y_train@[i0] == 1 {
        1int
    } else {
        0int
    });
}

} // verus!

