//! The assignments of values to the parameters of a line: every parameter
//! takes each value from 0 to its largest one.
use vstd::prelude::*;

verus! {

/// The largest values of a table of parameters.
pub open spec fn maxes_of(params: Seq<(Seq<u8>, i32)>) -> Seq<i32> {
    params.map_values(|p: (Seq<u8>, i32)| p.1)
}

/// `prefix` put before each of `tails`.
pub open spec fn extend(prefix: Seq<i32>, tails: Seq<Seq<i32>>) -> Seq<Seq<i32>> {
    tails.map_values(|t: Seq<i32>| prefix + t)
}

/// Each value from `v` to `m`, in increasing order, put before each of
/// `tails`.
pub open spec fn values_from(v: int, m: int, tails: Seq<Seq<i32>>) -> Seq<Seq<i32>>
    decreases m - v + 1,
{
    if v > m {
        seq![]
    } else {
        extend(seq![v as i32], tails) + values_from(v + 1, m, tails)
    }
}

/// The assignments of values to the parameters from `from` on: parameter
/// `j` takes the values `0..=maxes[j]`; the earlier parameter varies
/// slowest.
pub open spec fn combinations(maxes: Seq<i32>, from: int) -> Seq<Seq<i32>>
    decreases maxes.len() - from,
{
    if from < 0 || from >= maxes.len() {
        seq![seq![]]
    } else {
        values_from(0, maxes[from] as int, combinations(maxes, from + 1))
    }
}

/// The number of assignments: the product of `maxes[j] + 1` for `j` from
/// `from` on.
pub open spec fn product_from(maxes: Seq<i32>, from: int) -> int
    decreases maxes.len() - from,
{
    if from < 0 || from >= maxes.len() {
        1
    } else {
        (maxes[from] + 1) * product_from(maxes, from + 1)
    }
}

/// The product of `maxes[j] + 1` over the first `k` entries, computed left
/// to right in `i32`; `None` when a step leaves the range of `i32`.
pub open spec fn checked_count(maxes: Seq<i32>, k: int) -> Option<i32>
    decreases k,
{
    if k <= 0 {
        Some(1)
    } else {
        match checked_count(maxes, k - 1) {
            None => None,
            Some(acc) => {
                let f = maxes[k - 1] + 1;
                if f > i32::MAX {
                    None
                } else if i32::MIN <= acc * f <= i32::MAX {
                    Some((acc * f) as i32)
                } else {
                    None
                }
            },
        }
    }
}

/// Once a step overflows, the whole product does.
proof fn lemma_checked_count_stays_none(maxes: Seq<i32>, k: int, n: int)
    requires
        0 <= k <= n,
        checked_count(maxes, k) is None,
    ensures
        checked_count(maxes, n) is None,
    decreases n - k,
{
    if k < n {
        assert(checked_count(maxes, k + 1) is None);
        lemma_checked_count_stays_none(maxes, k + 1, n);
    }
}

/// The number of parameter assignments, `(max + 1)` multiplied over the
/// parameters in `i32`; `None` when the product overflows.
pub fn combination_count(params: &Vec<(Vec<u8>, i32)>) -> (r: Option<i32>)
    ensures
        r == checked_count(maxes_of(params.deep_view()), params@.len() as int),
{
    let ghost ms = maxes_of(params.deep_view());
    let mut num: i32 = 1;
    let mut k: usize = 0;
    while k < params.len()
        invariant
            ms == maxes_of(params.deep_view()),
            ms.len() == params@.len(),
            k <= params@.len(),
            checked_count(ms, k as int) == Some(num),
        decreases params@.len() - k,
    {
        let value = params[k].1;
        assert(ms[k as int] == value);
        if value == i32::MAX {
            proof {
                lemma_checked_count_stays_none(ms, k + 1, params@.len() as int);
            }
            return None;
        }
        let f = value + 1;
        let a: i64 = num as i64;
        let b: i64 = f as i64;
        assert(-4611686018427387904 <= a * b <= 4611686018427387904) by (nonlinear_arith)
            requires
                -2147483648 <= a <= 2147483647,
                -2147483647 <= b <= 2147483647,
        ;
        let prod: i64 = a * b;
        if prod < -2147483648 || prod > 2147483647 {
            proof {
                lemma_checked_count_stays_none(ms, k + 1, params@.len() as int);
            }
            return None;
        }
        num = prod as i32;
        k = k + 1;
    }
    Some(num)
}

/// Every parameter from `from` to `j` has a largest value that is not
/// negative.
pub open spec fn nonneg_through(maxes: Seq<i32>, from: int, j: int) -> bool {
    forall|i: int| from <= i <= j ==> maxes[i] >= 0
}

/// Appends to `result`, after the values in `current[..index]`, every
/// assignment of values to the parameters from `index` on (see
/// `combinations`). `current` is a scratch assignment of all parameters.
pub fn generate_combinations(
    index: usize,
    current: &mut Vec<i32>,
    max_values: &Vec<(Vec<u8>, i32)>,
    result: &mut Vec<Vec<i32>>,
)
    requires
        index <= max_values@.len(),
        old(current)@.len() == max_values@.len(),
    ensures
        final(current)@.len() == old(current)@.len(),
        final(current)@.subrange(0, index as int) == old(current)@.subrange(0, index as int),
        final(result)@.map_values(|v: Vec<i32>| v@) == old(result)@.map_values(|v: Vec<i32>| v@)
            + extend(
            old(current)@.subrange(0, index as int),
            combinations(maxes_of(max_values.deep_view()), index as int),
        ),
        forall|j: int|
            index <= j < old(current)@.len() ==> #[trigger] final(current)@[j] == if nonneg_through(
                maxes_of(max_values.deep_view()),
                index as int,
                j,
            ) {
                maxes_of(max_values.deep_view())[j]
            } else {
                old(current)@[j]
            },
    decreases max_values@.len() - index,
{
    let ghost ms = maxes_of(max_values.deep_view());
    let ghost prefix = current@.subrange(0, index as int);
    let ghost old0 = current@;
    let ghost r0 = result@.map_values(|v: Vec<i32>| v@);
    if index == max_values.len() {
        let snapshot = current.clone();
        assert(snapshot@ =~= prefix);
        result.push(snapshot);
        proof {
            assert(extend(prefix, seq![seq![]]) =~= seq![prefix + seq![]]);
            assert(prefix + seq![] =~= prefix);
            assert(result@.map_values(|v: Vec<i32>| v@) =~= r0.push(prefix));
            assert(r0.push(prefix) =~= r0 + extend(prefix, combinations(ms, index as int)));
        }
        return;
    }
    let max = max_values[index].1;
    let n = max_values.len();
    assert(ms[index as int] == max);
    let ghost tails = combinations(ms, index + 1);
    let mut i: i64 = 0;
    while i <= max as i64
        invariant
            index < max_values@.len(),
            n == max_values@.len(),
            ms == maxes_of(max_values.deep_view()),
            ms.len() == max_values@.len(),
            tails == combinations(ms, index + 1),
            current@.len() == max_values@.len(),
            current@.subrange(0, index as int) == prefix,
            0 <= i,
            i <= max as i64 + 1 || i == 0,
            old0.len() == current@.len(),
            forall|j: int|
                index < j < current@.len() && !nonneg_through(ms, index + 1, j) ==> #[trigger] current@[j]
                    == old0[j],
            i == 0 ==> current@ == old0,
            i > 0 ==> current@[index as int] == i - 1,
            i > 0 ==> forall|j: int|
                index < j < current@.len() && nonneg_through(ms, index + 1, j) ==> #[trigger] current@[j]
                    == ms[j],
            result@.map_values(|v: Vec<i32>| v@) + extend(prefix, values_from(i as int, max as int, tails))
                == r0 + extend(prefix, values_from(0, max as int, tails)),
        decreases max as i64 + 1 - i,
    {
        let ghost before = result@.map_values(|v: Vec<i32>| v@);
        current.set(index, i as i32);
        assert(current@.subrange(0, index as int) =~= prefix);
        assert(current@.subrange(0, index + 1) =~= prefix + seq![i as i32]);
        let ghost cur1 = current@;
        generate_combinations(index + 1, current, max_values, result);
        proof {
            assert(current@[index as int] == i as i32) by {
                assert(current@.subrange(0, index + 1)[index as int] == current@[index as int]);
                assert(cur1.subrange(0, index + 1)[index as int] == cur1[index as int]);
            }
            assert forall|j: int|
                index < j < current@.len() && !nonneg_through(ms, index + 1, j) implies #[trigger] current@[j]
                    == old0[j] by {
                assert(current@[j] == cur1[j]);
            }
            let now = result@.map_values(|v: Vec<i32>| v@);
            let here = extend(prefix + seq![i as i32], tails);
            assert(now == before + here);
            assert(here =~= extend(prefix, extend(seq![i as i32], tails))) by {
                assert forall|q: int| 0 <= q < here.len() implies here[q] == extend(
                    prefix,
                    extend(seq![i as i32], tails),
                )[q] by {
                    assert(prefix + seq![i as i32] + tails[q] =~= prefix + (seq![i as i32]
                        + tails[q]));
                }
            }
            let rest = values_from(i + 1, max as int, tails);
            assert(values_from(i as int, max as int, tails) == extend(seq![i as i32], tails)
                + rest);
            assert(extend(prefix, extend(seq![i as i32], tails) + rest) =~= extend(
                prefix,
                extend(seq![i as i32], tails),
            ) + extend(prefix, rest));
            assert(before + extend(prefix, values_from(i as int, max as int, tails)) == before
                + (here + extend(prefix, rest)));
            assert(before + (here + extend(prefix, rest)) =~= now + extend(prefix, rest));
            assert(current@.subrange(0, index as int) =~= prefix) by {
                assert(current@.subrange(0, index as int) =~= current@.subrange(
                    0,
                    index + 1,
                ).subrange(0, index as int));
            }
        }
        i = i + 1;
    }
    proof {
        assert forall|j: int| index <= j < old0.len() implies #[trigger] current@[j] == if nonneg_through(
            ms,
            index as int,
            j,
        ) {
            ms[j]
        } else {
            old0[j]
        } by {
            if i > 0 {
                if j > index {
                    if nonneg_through(ms, index as int, j) {
                        assert(nonneg_through(ms, index + 1, j));
                    } else {
                        assert(!nonneg_through(ms, index + 1, j));
                    }
                }
            } else {
                assert(!nonneg_through(ms, index as int, j)) by {
                    assert(ms[index as int] < 0);
                }
            }
        }
        assert(values_from(i as int, max as int, tails) == Seq::<Seq<i32>>::empty());
        assert(extend(prefix, Seq::<Seq<i32>>::empty()) =~= Seq::<Seq<i32>>::empty());
        assert(result@.map_values(|v: Vec<i32>| v@) =~= result@.map_values(|v: Vec<i32>| v@)
            + Seq::<Seq<i32>>::empty());
    }
}

/// The product of `maxes[j] + 1` over the first `k` entries.
pub open spec fn product_upto(maxes: Seq<i32>, k: int) -> int
    decreases k,
{
    if k <= 0 {
        1
    } else {
        product_upto(maxes, k - 1) * (maxes[k - 1] + 1)
    }
}

proof fn lemma_extend_len(prefix: Seq<i32>, tails: Seq<Seq<i32>>)
    ensures
        extend(prefix, tails).len() == tails.len(),
{
}

proof fn lemma_values_from_len(v: int, m: int, tails: Seq<Seq<i32>>)
    requires
        v <= m + 1,
    ensures
        values_from(v, m, tails).len() == (m - v + 1) * tails.len(),
    decreases m - v + 1,
{
    if v <= m {
        lemma_values_from_len(v + 1, m, tails);
        lemma_extend_len(seq![v as i32], tails);
        assert((m - v + 1) * tails.len() == tails.len() + (m - v) * tails.len()) by (nonlinear_arith);
    } else {
        assert((m - v + 1) * tails.len() == 0) by (nonlinear_arith)
            requires
                m - v + 1 == 0,
        ;
    }
}

/// The number of assignments is the product of `maxes[j] + 1`, when no
/// largest value is negative.
pub proof fn lemma_combinations_count(maxes: Seq<i32>, from: int)
    requires
        0 <= from <= maxes.len(),
        forall|j: int| from <= j < maxes.len() ==> maxes[j] >= 0,
    ensures
        combinations(maxes, from).len() == product_from(maxes, from),
    decreases maxes.len() - from,
{
    if from < maxes.len() {
        lemma_combinations_count(maxes, from + 1);
        lemma_values_from_len(0, maxes[from] as int, combinations(maxes, from + 1));
    }
}

proof fn lemma_extend_contains(w: i32, tails: Seq<Seq<i32>>, c: Seq<i32>)
    ensures
        extend(seq![w], tails).contains(c) <==> (c.len() >= 1 && c[0] == w && tails.contains(
            c.drop_first(),
        )),
{
    let e = extend(seq![w], tails);
    if e.contains(c) {
        let q = choose|q: int| 0 <= q < e.len() && e[q] == c;
        assert(c == seq![w] + tails[q]);
        assert(c.drop_first() =~= tails[q]);
    }
    if c.len() >= 1 && c[0] == w && tails.contains(c.drop_first()) {
        let q = choose|q: int| 0 <= q < tails.len() && tails[q] == c.drop_first();
        assert(e[q] =~= c);
    }
}

proof fn lemma_values_from_contains(v: int, m: int, tails: Seq<Seq<i32>>, c: Seq<i32>)
    requires
        0 <= v,
        m <= i32::MAX,
    ensures
        values_from(v, m, tails).contains(c) <==> (c.len() >= 1 && v <= c[0] <= m
            && tails.contains(c.drop_first())),
    decreases m - v + 1,
{
    if v <= m {
        lemma_values_from_contains(v + 1, m, tails, c);
        lemma_extend_contains(v as i32, tails, c);
        let a = extend(seq![v as i32], tails);
        let b = values_from(v + 1, m, tails);
        assert(values_from(v, m, tails) == a + b);
        if (a + b).contains(c) {
            let q = choose|q: int| 0 <= q < (a + b).len() && (a + b)[q] == c;
            if q < a.len() {
                assert(a.contains(c));
            } else {
                assert(b[q - a.len()] == c);
                assert(b.contains(c));
            }
        }
        if c.len() >= 1 && v <= c[0] <= m && tails.contains(c.drop_first()) {
            if c[0] == v {
                assert(a.contains(c));
                let q = choose|q: int| 0 <= q < a.len() && a[q] == c;
                assert((a + b)[q] == c);
            } else {
                assert(b.contains(c));
                let q = choose|q: int| 0 <= q < b.len() && b[q] == c;
                assert((a + b)[a.len() + q] == c);
            }
        }
    }
}

/// An assignment is listed exactly when it gives every parameter from `from`
/// on a value between 0 and its largest one.
pub proof fn lemma_combinations_members(maxes: Seq<i32>, from: int, c: Seq<i32>)
    requires
        0 <= from <= maxes.len(),
    ensures
        combinations(maxes, from).contains(c) <==> (c.len() == maxes.len() - from && forall|j: int|
            0 <= j < c.len() ==> 0 <= #[trigger] c[j] <= maxes[from + j]),
    decreases maxes.len() - from,
{
    if from == maxes.len() {
        let e = combinations(maxes, from);
        assert(e == seq![Seq::<i32>::empty()]);
        if e.contains(c) {
            let q = choose|q: int| 0 <= q < e.len() && e[q] == c;
            assert(c.len() == 0);
        }
        if c.len() == 0 {
            assert(c =~= Seq::<i32>::empty());
            assert(e[0] == c);
        }
    } else {
        lemma_combinations_members(maxes, from + 1, c.drop_first());
        lemma_values_from_contains(0, maxes[from] as int, combinations(maxes, from + 1), c);
        if c.len() == maxes.len() - from && forall|j: int|
            0 <= j < c.len() ==> 0 <= #[trigger] c[j] <= maxes[from + j] {
            assert(0 <= c[0] <= maxes[from]);
            assert forall|j: int| 0 <= j < c.drop_first().len() implies 0 <= #[trigger] c.drop_first()[j]
                <= maxes[from + 1 + j] by {
                assert(c.drop_first()[j] == c[j + 1]);
            }
        }
        if combinations(maxes, from).contains(c) {
            assert forall|j: int| 0 <= j < c.len() implies 0 <= #[trigger] c[j] <= maxes[from + j] by {
                if j > 0 {
                    assert(c[j] == c.drop_first()[j - 1]);
                }
            }
        }
    }
}

proof fn lemma_values_from_distinct(v: int, m: int, tails: Seq<Seq<i32>>)
    requires
        0 <= v,
        m <= i32::MAX,
        tails.no_duplicates(),
    ensures
        values_from(v, m, tails).no_duplicates(),
    decreases m - v + 1,
{
    if v <= m {
        lemma_values_from_distinct(v + 1, m, tails);
        let a = extend(seq![v as i32], tails);
        let b = values_from(v + 1, m, tails);
        let ab = a + b;
        assert(values_from(v, m, tails) == ab);
        assert forall|i: int, j: int| 0 <= i < ab.len() && 0 <= j < ab.len() && i != j implies ab[i]
            != ab[j] by {
            if i < a.len() && j < a.len() {
                assert(ab[i].drop_first() =~= tails[i]);
                assert(ab[j].drop_first() =~= tails[j]);
            } else if i >= a.len() && j >= a.len() {
                assert(ab[i] == b[i - a.len()]);
                assert(ab[j] == b[j - a.len()]);
            } else {
                let (p, q) = if i < a.len() {
                    (i, j - a.len())
                } else {
                    (j, i - a.len())
                };
                assert(b.contains(b[q]));
                lemma_values_from_contains(v + 1, m, tails, b[q]);
                assert(a[p][0] == v as i32);
                assert(ab[i] == (if i < a.len() {
                    a[p]
                } else {
                    b[q]
                }));
            }
        }
    }
}

/// Every assignment is listed once.
pub proof fn lemma_combinations_distinct(maxes: Seq<i32>, from: int)
    requires
        0 <= from <= maxes.len(),
    ensures
        combinations(maxes, from).no_duplicates(),
    decreases maxes.len() - from,
{
    if from < maxes.len() {
        lemma_combinations_distinct(maxes, from + 1);
        lemma_values_from_distinct(0, maxes[from] as int, combinations(maxes, from + 1));
    }
}

proof fn lemma_product_split(maxes: Seq<i32>, k: int)
    requires
        0 <= k <= maxes.len(),
    ensures
        product_upto(maxes, k) * product_from(maxes, k) == product_from(maxes, 0),
    decreases k,
{
    if k > 0 {
        lemma_product_split(maxes, k - 1);
        let a = product_upto(maxes, k - 1);
        let f = maxes[k - 1] + 1;
        let b = product_from(maxes, k);
        assert(product_from(maxes, k - 1) == f * b);
        assert(a * (f * b) == (a * f) * b) by (nonlinear_arith);
    }
}

proof fn lemma_checked_count_value(maxes: Seq<i32>, k: int)
    requires
        0 <= k <= maxes.len(),
        checked_count(maxes, k) is Some,
    ensures
        checked_count(maxes, k) == Some(product_upto(maxes, k) as i32),
        i32::MIN <= product_upto(maxes, k) <= i32::MAX,
    decreases k,
{
    if k > 0 {
        lemma_checked_count_value(maxes, k - 1);
    }
}

/// When the count of assignments that a line computes does not overflow and
/// no largest value is negative, it is the number of assignments that
/// `generate_combinations` lists.
pub proof fn lemma_count_matches_combinations(maxes: Seq<i32>)
    requires
        forall|j: int| 0 <= j < maxes.len() ==> maxes[j] >= 0,
        checked_count(maxes, maxes.len() as int) is Some,
    ensures
        checked_count(maxes, maxes.len() as int) == Some(combinations(maxes, 0).len() as i32),
{
    lemma_checked_count_value(maxes, maxes.len() as int);
    lemma_product_split(maxes, maxes.len() as int);
    lemma_combinations_count(maxes, 0);
    assert(product_from(maxes, maxes.len() as int) == 1);
}

} // verus!
