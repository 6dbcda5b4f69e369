//! How often the features of a path come first, counted without rounding.
//!
//! A path is a list of shares, the share that flows on when a feature is absent
//! and the one when it is present. Place `j` of its counts belongs to the
//! orderings in which `j` of its features are present.

use vstd::prelude::*;

use crate::exact::{
    gather, products_are_not_zero, quotient, shift, spread, swap, turn, undivided, vanish,
};

verus! {

/// The two shares of a feature: when it is absent, and when it is present.
pub type Shares = (real, real);

/// The entry at a place; zero where there is none.
pub open spec fn at(u: Seq<real>, j: int) -> real {
    if 0 <= j < u.len() { u[j] } else { 0real }
}

/// The count at place `j` after a feature is added.
pub open spec fn grown_at(u: Seq<real>, s: Shares, j: int) -> real {
    s.0 * (at(u, j) * ((u.len() - j) as real)) + s.1 * (at(u, j - 1) * (j as real))
}

/// The counts after a feature is added.
pub open spec fn grown(u: Seq<real>, s: Shares) -> Seq<real> {
    Seq::new(u.len() + 1, |j: int| grown_at(u, s, j))
}

/// The counts of a path.
pub open spec fn counts(path: Seq<Shares>) -> Seq<real>
    decreases path.len(),
{
    if path.len() == 0 { seq![1real] } else { grown(counts(path.drop_last()), path.last()) }
}

pub(crate) proof fn counts_have_their_length(path: Seq<Shares>)
    ensures
        counts(path).len() == path.len() + 1,
    decreases path.len(),
{
    if path.len() > 0 {
        counts_have_their_length(path.drop_last());
    }
}

pub(crate) proof fn entries_of_grown(u: Seq<real>, s: Shares, j: int)
    requires
        -1 <= j <= u.len() + 1,
    ensures
        at(grown(u, s), j) == grown_at(u, s, j),
{
    if j == -1 || j == u.len() + 1 {
        vanish((u.len() - j) as real);
        vanish(j as real);
        vanish(s.0);
        vanish(s.1);
    }
}

proof fn open_up(b: real, a: real, p: real, c: real, q: real, m: real)
    ensures
        b * ((a * p + c * q) * m) == (a * b) * (p * m) + (c * b) * (q * m),
{
    gather(a * p, c * q, m);
    spread(b, (a * p) * m, (c * q) * m);
    shift(a, p, m);
    shift(c, q, m);
    shift(b, a, p * m);
    shift(b, c, q * m);
    swap(a, b);
    swap(c, b);
}

proof fn two_steps_swap(u: Seq<real>, s: Shares, t: Shares)
    ensures
        grown(grown(u, s), t) =~= grown(grown(u, t), s),
{
    let d = u.len() as int;
    assert forall|j: int| 0 <= j < d + 2 implies #[trigger] grown_at(grown(u, s), t, j) == grown_at(
        grown(u, t),
        s,
        j,
    ) by {
        entries_of_grown(u, s, j);
        entries_of_grown(u, s, j - 1);
        entries_of_grown(u, t, j);
        entries_of_grown(u, t, j - 1);
        let x0 = at(u, j);
        let x1 = at(u, j - 1);
        let x2 = at(u, j - 2);
        let m0 = (d - j) as real;
        let m1 = (d + 1 - j) as real;
        let r = j as real;
        let r1 = (j - 1) as real;
        assert(d - (j - 1) == d + 1 - j);
        assert(j - 1 - 1 == j - 2);
        open_up(t.0, s.0, x0 * m0, s.1, x1 * r, m1);
        open_up(t.1, s.0, x1 * m1, s.1, x2 * r1, r);
        open_up(s.0, t.0, x0 * m0, t.1, x1 * r, m1);
        open_up(s.1, t.0, x1 * m1, t.1, x2 * r1, r);
        swap(s.0, t.0);
        swap(s.1, t.0);
        swap(s.0, t.1);
        swap(s.1, t.1);
        turn(x1, r, m1);
    }
}

/// The counts of a path are those of the path without any one of its features,
/// grown by that feature.
pub proof fn any_feature_may_come_last(path: Seq<Shares>, i: int)
    requires
        0 <= i < path.len(),
    ensures
        counts(path) == grown(counts(path.remove(i)), path[i]),
    decreases path.len(),
{
    let n = path.len() as int;
    let rest = path.drop_last();
    if i == n - 1 {
        assert(path.remove(i) =~= rest);
    } else {
        any_feature_may_come_last(rest, i);
        let less = path.remove(i);
        assert(less.drop_last() =~= rest.remove(i));
        assert(less.last() == path.last());
        two_steps_swap(counts(rest.remove(i)), path[i], path.last());
    }
}

/// The sum over the first `m` features of a number each times the count at place
/// `j` of the path without the feature.
pub open spec fn sum_without(path: Seq<Shares>, q: Seq<real>, j: int, m: int) -> real
    decreases m,
{
    if m <= 0 {
        0real
    } else {
        sum_without(path, q, j, m - 1) + q[m - 1] * at(counts(path.remove(m - 1)), j)
    }
}

proof fn carry(q: real, z: real, a: real, m: real, o: real, b: real, r: real)
    ensures
        q * (z * (a * m) + o * (b * r)) == z * ((q * a) * m) + o * ((q * b) * r),
{
    spread(q, z * (a * m), o * (b * r));
    shift(q, z, a * m);
    swap(q, z);
    shift(z, q, a * m);
    shift(q, a, m);
    shift(q, o, b * r);
    swap(q, o);
    shift(o, q, b * r);
    shift(q, b, r);
}

proof fn sums_split(path: Seq<Shares>, q: Seq<real>, j: int, m: int)
    requires
        0 < path.len(),
        0 <= m <= path.len() - 1,
        0 <= j <= path.len() - 1,
    ensures
        sum_without(path, q, j, m) == path.last().0 * (sum_without(path.drop_last(), q, j, m) * ((
        path.len() - 1 - j) as real)) + path.last().1 * (sum_without(
            path.drop_last(),
            q,
            j - 1,
            m,
        ) * (j as real)),
    decreases m,
{
    let rest = path.drop_last();
    let z = path.last().0;
    let o = path.last().1;
    let big = (path.len() - 1 - j) as real;
    let r = j as real;
    if m <= 0 {
        vanish(big);
        vanish(r);
        vanish(z);
        vanish(o);
    } else {
        sums_split(path, q, j, m - 1);
        let i = m - 1;
        let less = path.remove(i);
        assert(less.drop_last() =~= rest.remove(i));
        assert(less.last() == path.last());
        let u = counts(rest.remove(i));
        counts_have_their_length(rest.remove(i));
        entries_of_grown(u, path.last(), j);
        let a = at(u, j);
        let b = at(u, j - 1);
        let x = sum_without(rest, q, j, i);
        let y = sum_without(rest, q, j - 1, i);
        carry(q[i], z, a, big, o, b, r);
        gather(x, q[i] * a, big);
        gather(y, q[i] * b, r);
        spread(z, x * big, (q[i] * a) * big);
        spread(o, y * r, (q[i] * b) * r);
    }
}

/// The shares when features are present.
pub open spec fn ones(path: Seq<Shares>) -> Seq<real> {
    Seq::new(path.len(), |i: int| path[i].1)
}

/// The shares when features are absent.
pub open spec fn zeros(path: Seq<Shares>) -> Seq<real> {
    Seq::new(path.len(), |i: int| path[i].0)
}

proof fn sums_read_what_they_need(path: Seq<Shares>, p: Seq<real>, q: Seq<real>, j: int, m: int)
    requires
        forall|i: int| 0 <= i < m ==> #[trigger] p[i] == q[i],
    ensures
        sum_without(path, p, j, m) == sum_without(path, q, j, m),
    decreases m,
{
    if m > 0 {
        sums_read_what_they_need(path, p, q, j, m - 1);
    }
}

proof fn present_features_raise_the_place(path: Seq<Shares>, j: int)
    requires
        0 <= j < path.len(),
    ensures
        sum_without(path, ones(path), j, path.len() as int) == at(counts(path), j + 1),
    decreases path.len(),
{
    let n = path.len() as int;
    let rest = path.drop_last();
    let z = path.last().0;
    let o = path.last().1;
    let u = counts(rest);
    counts_have_their_length(rest);
    assert(path.remove(n - 1) =~= rest);
    sums_split(path, ones(path), j, n - 1);
    sums_read_what_they_need(rest, ones(path), ones(rest), j, n - 1);
    sums_read_what_they_need(rest, ones(path), ones(rest), j - 1, n - 1);
    let x = sum_without(rest, ones(rest), j, n - 1);
    let y = sum_without(rest, ones(rest), j - 1, n - 1);
    let big = (n - 1 - j) as real;
    let r = j as real;
    let c = at(u, j);
    if j < n - 1 {
        present_features_raise_the_place(rest, j);
    } else {
        vanish(x);
        vanish(at(u, j + 1));
    }
    if j > 0 {
        present_features_raise_the_place(rest, j - 1);
    } else {
        vanish(y);
        vanish(c);
    }
    entries_of_grown(u, path.last(), j + 1);
    assert(u.len() - (j + 1) == n - 1 - j);
    assert(((j + 1) as real) == r + 1real);
    spread(c, r, 1real);
    assert(c * 1real == c) by (nonlinear_arith);
    spread(o, c * r, c);
}

proof fn absent_features_keep_the_place(path: Seq<Shares>, j: int)
    requires
        0 <= j < path.len(),
    ensures
        sum_without(path, zeros(path), j, path.len() as int) == at(counts(path), j),
    decreases path.len(),
{
    let n = path.len() as int;
    let rest = path.drop_last();
    let z = path.last().0;
    let o = path.last().1;
    let u = counts(rest);
    counts_have_their_length(rest);
    assert(path.remove(n - 1) =~= rest);
    sums_split(path, zeros(path), j, n - 1);
    sums_read_what_they_need(rest, zeros(path), zeros(rest), j, n - 1);
    sums_read_what_they_need(rest, zeros(path), zeros(rest), j - 1, n - 1);
    let x = sum_without(rest, zeros(rest), j, n - 1);
    let y = sum_without(rest, zeros(rest), j - 1, n - 1);
    let big = (n - 1 - j) as real;
    let r = j as real;
    let c = at(u, j);
    if j < n - 1 {
        absent_features_keep_the_place(rest, j);
    } else {
        vanish(x);
        vanish(c);
    }
    if j > 0 {
        absent_features_keep_the_place(rest, j - 1);
    } else {
        vanish(y);
        vanish(at(u, j - 1));
    }
    entries_of_grown(u, path.last(), j);
    assert(((u.len() - j) as real) == big + 1real);
    spread(c, big, 1real);
    assert(c * 1real == c) by (nonlinear_arith);
    spread(z, c * big, c);
}

/// The sum of the first `n` entries.
pub open spec fn sum_to(u: Seq<real>, n: int) -> real
    decreases n,
{
    if n <= 0 { 0real } else { sum_to(u, n - 1) + at(u, n - 1) }
}

/// The sum over the first `m` features of the difference of their shares times
/// the first `n` counts of the path without them.
pub open spec fn differences(path: Seq<Shares>, n: int, m: int) -> real
    decreases m,
{
    if m <= 0 {
        0real
    } else {
        differences(path, n, m - 1) + (path[m - 1].1 - path[m - 1].0) * sum_to(
            counts(path.remove(m - 1)),
            n,
        )
    }
}

proof fn differences_grow(path: Seq<Shares>, n: int, m: int)
    requires
        0 < n,
        0 <= m <= path.len(),
    ensures
        differences(path, n, m) == differences(path, n - 1, m) + sum_without(
            path,
            ones(path),
            n - 1,
            m,
        ) - sum_without(path, zeros(path), n - 1, m),
    decreases m,
{
    if m > 0 {
        differences_grow(path, n, m - 1);
        let u = counts(path.remove(m - 1));
        let s = path[m - 1];
        spread(s.1 - s.0, sum_to(u, n - 1), at(u, n - 1));
        gather(s.1, s.0, at(u, n - 1));
    }
}

proof fn no_counts_no_differences(path: Seq<Shares>, m: int)
    ensures
        differences(path, 0, m) == 0real,
    decreases m,
{
    if m > 0 {
        no_counts_no_differences(path, m - 1);
        vanish(path[m - 1].1 - path[m - 1].0);
    }
}

proof fn differences_telescope(path: Seq<Shares>, n: int)
    requires
        0 <= n <= path.len(),
    ensures
        differences(path, n, path.len() as int) == at(counts(path), n) - at(counts(path), 0),
    decreases n,
{
    if n <= 0 {
        no_counts_no_differences(path, path.len() as int);
    } else {
        differences_telescope(path, n - 1);
        differences_grow(path, n, path.len() as int);
        present_features_raise_the_place(path, n - 1);
        absent_features_keep_the_place(path, n - 1);
    }
}

/// The product of the shares when features are present.
pub open spec fn all_present(path: Seq<Shares>) -> real
    decreases path.len(),
{
    if path.len() == 0 { 1real } else { all_present(path.drop_last()) * path.last().1 }
}

/// The product of the shares when features are absent.
pub open spec fn all_absent(path: Seq<Shares>) -> real
    decreases path.len(),
{
    if path.len() == 0 { 1real } else { all_absent(path.drop_last()) * path.last().0 }
}

/// The number of orderings of `n` features.
pub open spec fn orders(n: int) -> real
    decreases n,
{
    if n <= 0 { 1real } else { orders(n - 1) * (n as real) }
}

pub(crate) proof fn orders_are_positive(n: int)
    ensures
        orders(n) > 0real,
    decreases n,
{
    if n > 0 {
        orders_are_positive(n - 1);
        let a = orders(n - 1);
        let b = n as real;
        assert(a * b > 0real) by (nonlinear_arith)
            requires
                a > 0real,
                b > 0real,
        ;
    }
}

proof fn outermost_counts(path: Seq<Shares>)
    ensures
        at(counts(path), path.len() as int) == orders(path.len() as int) * all_present(path),
        at(counts(path), 0) == orders(path.len() as int) * all_absent(path),
    decreases path.len(),
{
    let n = path.len() as int;
    if n == 0 {
        assert(1real * 1real == 1real) by (nonlinear_arith);
    } else {
        let rest = path.drop_last();
        let u = counts(rest);
        let z = path.last().0;
        let o = path.last().1;
        let r = n as real;
        outermost_counts(rest);
        counts_have_their_length(rest);
        entries_of_grown(u, path.last(), n);
        entries_of_grown(u, path.last(), 0);
        vanish(((u.len() - n) as real));
        vanish(z);
        vanish(o);
        vanish(at(u, -1));
        let f = orders(n - 1);
        let p = all_present(rest);
        let q = all_absent(rest);
        turn(f, p, r);
        swap(o, (f * r) * p);
        shift(f * r, p, o);
        turn(f, q, r);
        swap(z, (f * r) * q);
        shift(f * r, q, z);
    }
}

/// Over all features of a path, the differences of their shares times the counts
/// of the path without them add up to what flows when all are present less what
/// flows when all are absent.
pub proof fn features_share_the_difference(path: Seq<Shares>)
    ensures
        differences(path, path.len() as int, path.len() as int) == orders(path.len() as int) * (
        all_present(path) - all_absent(path)),
{
    let n = path.len() as int;
    differences_telescope(path, n);
    outermost_counts(path);
    spread(orders(n), all_present(path), all_absent(path));
}

/// The weight at a place of a path: the share of orderings that its count has.
pub open spec fn weight(path: Seq<Shares>, j: int) -> real {
    at(counts(path), j) / orders(path.len() as int + 1)
}

/// What a feature adds to the weight of a place by one of its shares.
pub open spec fn share_part(share: real, w: real, m: int, n: int) -> real {
    ((share * w) * (m as real)) / (n as real)
}

proof fn part_of_count(s: real, w: real, m: real, f: real, u: real, n: real)
    requires
        w * f == u,
        n != 0real,
    ensures
        (((s * w) * m) / n) * (f * n) == s * (u * m),
{
    let x = (s * w) * m;
    undivided(x, n);
    swap(f, n);
    shift(x / n, n, f);
    turn(s * w, m, f);
    shift(s, w, f);
    shift(s, u, m);
}

/// The weight of a place in terms of the weights of the path without a feature.
pub proof fn weights_without_a_feature(path: Seq<Shares>, i: int, j: int)
    requires
        0 <= i < path.len(),
        0 <= j <= path.len(),
    ensures
        ({
            let n = path.len() as int;
            let less = path.remove(i);
            weight(path, j) == share_part(path[i].0, weight(less, j), n - j, n + 1) + share_part(
                path[i].1,
                weight(less, j - 1),
                j,
                n + 1,
            )
        }),
{
    let n = path.len() as int;
    let less = path.remove(i);
    let u = counts(less);
    let s = path[i];
    any_feature_may_come_last(path, i);
    counts_have_their_length(less);
    entries_of_grown(u, s, j);
    let f = orders(n);
    let d = (n + 1) as real;
    orders_are_positive(n);
    orders_are_positive(n + 1);
    let w0 = weight(less, j);
    let w1 = weight(less, j - 1);
    undivided(at(u, j), f);
    undivided(at(u, j - 1), f);
    let m = (n - j) as real;
    let r = j as real;
    part_of_count(s.0, w0, m, f, at(u, j), d);
    part_of_count(s.1, w1, r, f, at(u, j - 1), d);
    let a = ((s.0 * w0) * m) / d;
    let b = ((s.1 * w1) * r) / d;
    gather(a, b, f * d);
    quotient(at(counts(path), j), f * d, a + b);
}

pub(crate) proof fn nothing_adds_nothing(share: real, w: real, m: int, n: int)
    requires
        n > 0,
        share == 0real || w == 0real,
    ensures
        share_part(share, w, m, n) == 0real,
{
    vanish(share);
    vanish(w);
    vanish(m as real);
    vanish(n as real);
    quotient((share * w) * (m as real), n as real, 0real);
}

pub(crate) proof fn parts_come_apart(share: real, w: real, m: int, n: int)
    requires
        m > 0,
        n > 0,
        share != 0real,
    ensures
        (m as real) * share != 0real,
        share * (m as real) != 0real,
        (share_part(share, w, m, n) * (n as real)) / ((m as real) * share) == w,
        (share_part(share, w, m, n) * (n as real)) / (share * (m as real)) == w,
        (m as real) / (n as real) != 0real,
        (share_part(share, w, m, n) / share) / ((m as real) / (n as real)) == w,
{
    let a = m as real;
    let b = n as real;
    let x = (share * w) * a;
    undivided(x, b);
    products_are_not_zero(a, share);
    swap(a, share);
    turn(share, w, a);
    swap(share * a, w);
    quotient(x, share * a, w);
    let t = a / b;
    undivided(a, b);
    if t == 0real {
        vanish(b);
    }
    shift(share * w, t, b);
    quotient(x, b, (share * w) * t);
    shift(share, w, t);
    swap(share, w * t);
    quotient(x / b, share, w * t);
    quotient(w * t, t, w);
}

pub(crate) proof fn weights_end(path: Seq<Shares>, j: int)
    requires
        j < 0 || path.len() < j,
    ensures
        weight(path, j) == 0real,
{
    counts_have_their_length(path);
    orders_are_positive(path.len() as int + 1);
    vanish(orders(path.len() as int + 1));
    quotient(0real, orders(path.len() as int + 1), 0real);
}

/// The sum of the weights from place `i` on, up to place `n`.
pub open spec fn weights_from(path: Seq<Shares>, i: int, n: int) -> real
    decreases n - i,
{
    if i >= n { 0real } else { weights_from(path, i + 1, n) + weight(path, i) }
}

proof fn weights_sum_counts(path: Seq<Shares>, i: int, n: int)
    requires
        0 <= i <= n,
    ensures
        weights_from(path, i, n) * orders(path.len() as int + 1) == sum_to(counts(path), n)
            - sum_to(counts(path), i),
    decreases n - i,
{
    let f = orders(path.len() as int + 1);
    if i >= n {
        vanish(f);
    } else {
        weights_sum_counts(path, i + 1, n);
        orders_are_positive(path.len() as int + 1);
        undivided(at(counts(path), i), f);
        gather(weights_from(path, i + 1, n), weight(path, i), f);
    }
}

/// The sum over the first `m` features of the difference of their shares times
/// the weights of the path without them.
pub open spec fn attributed_to(path: Seq<Shares>, m: int) -> real
    decreases m,
{
    if m <= 0 {
        0real
    } else {
        attributed_to(path, m - 1) + (path[m - 1].1 - path[m - 1].0) * weights_from(
            path.remove(m - 1),
            0,
            path.len() as int,
        )
    }
}

proof fn attributions_are_differences(path: Seq<Shares>, m: int)
    requires
        0 <= m <= path.len(),
    ensures
        attributed_to(path, m) * orders(path.len() as int) == differences(
            path,
            path.len() as int,
            m,
        ),
    decreases m,
{
    let n = path.len() as int;
    let f = orders(n);
    if m <= 0 {
        vanish(f);
    } else {
        attributions_are_differences(path, m - 1);
        let less = path.remove(m - 1);
        let d = path[m - 1].1 - path[m - 1].0;
        let w = weights_from(less, 0, n);
        weights_sum_counts(less, 0, n);
        gather(attributed_to(path, m - 1), d * w, f);
        shift(d, w, f);
    }
}

/// Over all features of a path, the differences of their shares times the
/// weights of the path without them add up to what flows when all are present
/// less what flows when all are absent.
pub proof fn attributions_add_up(path: Seq<Shares>)
    ensures
        attributed_to(path, path.len() as int) == all_present(path) - all_absent(path),
{
    let n = path.len() as int;
    let d = all_present(path) - all_absent(path);
    attributions_are_differences(path, n);
    features_share_the_difference(path);
    orders_are_positive(n);
    swap(orders(n), d);
    quotient(d * orders(n), orders(n), d);
    quotient(d * orders(n), orders(n), attributed_to(path, n));
}

/// The products of shares in terms of those of the path without a feature.
pub proof fn products_without_a_feature(path: Seq<Shares>, i: int)
    requires
        0 <= i < path.len(),
    ensures
        all_present(path) == all_present(path.remove(i)) * path[i].1,
        all_absent(path) == all_absent(path.remove(i)) * path[i].0,
    decreases path.len(),
{
    let n = path.len() as int;
    let rest = path.drop_last();
    if i == n - 1 {
        assert(path.remove(i) =~= rest);
    } else {
        products_without_a_feature(rest, i);
        let less = path.remove(i);
        assert(less.drop_last() =~= rest.remove(i));
        assert(less.last() == path.last());
        turn(all_present(rest.remove(i)), path[i].1, path.last().1);
        turn(all_absent(rest.remove(i)), path[i].0, path.last().0);
    }
}

} // verus!
