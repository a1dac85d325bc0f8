//! The extended Euclidean algorithm on machine integers, and what is
//! solved with it: linear congruences and pairs of congruences with
//! coprime moduli.

use vstd::prelude::*;

verus! {

/// One row of the extended Euclidean algorithm: a remainder `r`, the
/// coefficients `s` and `t` with `r == n * s + m * t`, and the quotient
/// that led to the row (0 in the first two rows).
pub type Quad = (i64, i64, i64, i64);

/// A row as contracts see it.
pub type Row = (int, int, int, int);

/// The absolute value.
pub open spec fn magnitude(x: int) -> int {
    if x < 0 {
        -x
    } else {
        x
    }
}

/// The quotient of `a` by `b`, rounded towards zero.
pub open spec fn truncated(a: int, b: int) -> int {
    if a >= 0 {
        if b > 0 {
            a / b
        } else {
            -(a / (-b))
        }
    } else {
        if b > 0 {
            -((-a) / b)
        } else {
            (-a) / (-b)
        }
    }
}

/// The row after the rows `a` and `b`.
pub open spec fn next_row(a: Row, b: Row) -> Row {
    let q = truncated(a.0, b.0);
    (a.0 - q * b.0, a.1 - q * b.1, a.2 - q * b.2, q)
}

/// Division with rest: the rest is smaller than the divisor and has the
/// sign of the dividend, and the quotient has the sign of their product.
pub proof fn lemma_truncated(a: int, b: int)
    requires
        b != 0,
    ensures
        ({
            let q = truncated(a, b);
            let r = a - q * b;
            &&& magnitude(r) < magnitude(b)
            &&& magnitude(a) == magnitude(q) * magnitude(b) + magnitude(r)
            &&& a >= 0 ==> r >= 0
            &&& a <= 0 ==> r <= 0
            &&& q > 0 ==> a != 0 && ((a > 0) == (b > 0))
            &&& q < 0 ==> a != 0 && ((a > 0) != (b > 0))
            &&& magnitude(q) <= magnitude(a)
            &&& magnitude(q * b) <= magnitude(a)
        }),
{
    let x = magnitude(a);
    let y = magnitude(b);
    let k = x / y;
    vstd::arithmetic::div_mod::lemma_fundamental_div_mod(x, y);
    vstd::arithmetic::div_mod::lemma_mod_bound(x, y);
    vstd::arithmetic::div_mod::lemma_div_pos_is_pos(x, y);
    assert(x == y * k + x % y);
    assert(0 <= x % y < y);
    assert(k >= 0);
    let q = truncated(a, b);
    assert(q == k || q == -k);
    assert(magnitude(q) == k);
    assert(q * b == k * y || q * b == -(k * y)) by (nonlinear_arith)
        requires
            (q == k || q == -k),
            (b == y || b == -y),
    ;
    assert(k * y == y * k) by (nonlinear_arith);
    assert(k * y >= 0) by (nonlinear_arith)
        requires
            k >= 0,
            y > 0,
    ;
    if a >= 0 {
        if b > 0 {
            assert(q * b == k * y) by (nonlinear_arith)
                requires
                    q == k,
                    b == y,
            ;
        } else {
            assert(q * b == k * y) by (nonlinear_arith)
                requires
                    q == -k,
                    b == -y,
            ;
        }
    } else {
        if b > 0 {
            assert(q * b == -(k * y)) by (nonlinear_arith)
                requires
                    q == -k,
                    b == y,
            ;
        } else {
            assert(q * b == -(k * y)) by (nonlinear_arith)
                requires
                    q == k,
                    b == -y,
            ;
        }
    }
    assert(k <= x) by (nonlinear_arith)
        requires
            x == y * k + x % y,
            0 <= x % y,
            y >= 1,
            k >= 0,
    ;
    if k == 0 {
        assert(q == 0);
    }
}

/// Division by a negative number is division by its opposite, negated.
pub proof fn lemma_divide_by_negative(x: int, b: int)
    requires
        b < 0,
    ensures
        x / b == -(x / (-b)),
        x % b == x % (-b),
{
    let d = -b;
    vstd::arithmetic::div_mod::lemma_fundamental_div_mod(x, d);
    vstd::arithmetic::div_mod::lemma_mod_bound(x, d);
    let q = x / d;
    let r = x % d;
    assert(x == (-q) * b + r) by (nonlinear_arith)
        requires
            x == d * q + r,
            d == -b,
    ;
    assert(x / b == -q && x % b == r) by (nonlinear_arith)
        requires
            x == (-q) * b + r,
            0 <= r < -b,
            b < 0,
    ;
}

/// The quotient and the rest that the machine computes.
pub proof fn lemma_machine_division(a: int, b: int)
    requires
        b != 0,
    ensures
        truncated(a, b) == if a >= 0 {
            a / b
        } else {
            -((-a) / b)
        },
        a - truncated(a, b) * b == if a >= 0 {
            a % b
        } else {
            -((-a) % b)
        },
{
    if b < 0 {
        lemma_divide_by_negative(a, b);
        lemma_divide_by_negative(-a, b);
    }
    let x = magnitude(a);
    let y = magnitude(b);
    vstd::arithmetic::div_mod::lemma_fundamental_div_mod(x, y);
    let k = x / y;
    let q = truncated(a, b);
    assert(q * b == k * y || q * b == -(k * y)) by (nonlinear_arith)
        requires
            (q == k || q == -k),
            (b == y || b == -y),
    ;
    assert(k * y == y * k) by (nonlinear_arith);
    if a >= 0 {
        if b > 0 {
            assert(q * b == k * y) by (nonlinear_arith)
                requires
                    q == k,
                    b == y,
            ;
        } else {
            assert(q * b == k * y) by (nonlinear_arith)
                requires
                    q == -k,
                    b == -y,
            ;
        }
    } else {
        if b > 0 {
            assert(q * b == -(k * y)) by (nonlinear_arith)
                requires
                    q == -k,
                    b == y,
            ;
        } else {
            assert(q * b == -(k * y)) by (nonlinear_arith)
                requires
                    q == k,
                    b == -y,
            ;
        }
    }
}

/// The rows that follow the rows `a` and `b`, up to the first row with
/// the remainder 0.
pub open spec fn rows_after(a: Row, b: Row) -> Seq<Row>
    decreases magnitude(b.0),
{
    if b.0 == 0 {
        Seq::empty()
    } else {
        proof {
            lemma_truncated(a.0, b.0);
        }
        seq![next_row(a, b)] + rows_after(b, next_row(a, b))
    }
}

/// The table of the extended Euclidean algorithm for `n` and `m`: the rows
/// of `n` and of `m`, then row after row until the remainder is 0.
pub open spec fn euclid_rows(n: int, m: int) -> Seq<Row> {
    seq![(n, 1, 0, 0), (m, 0, 1, 0)] + rows_after((n, 1, 0, 0), (m, 0, 1, 0))
}

/// The rows that a sequence of machine rows stands for.
pub open spec fn rows_of(v: Seq<Quad>) -> Seq<Row> {
    Seq::new(v.len(), |i: int| (v[i].0 as int, v[i].1 as int, v[i].2 as int, v[i].3 as int))
}

/// Whether two coefficients stand to each other as two remainders do not:
/// of the pairs, one has equal signs and the other has not, unless there
/// is a zero among the four.
pub open spec fn opposed(c0: int, c1: int, r0: int, r1: int) -> bool {
    c0 == 0 || c1 == 0 || r0 == 0 || r1 == 0 || ((c0 > 0) == (c1 > 0)) != ((r0 > 0) == (r1 > 0))
}

/// Whether the rows `a` and `b` are consecutive rows of the table for
/// `n` and `m`, as far as the algorithm needs it to go on.
pub open spec fn linked(a: Row, b: Row, n: int, m: int) -> bool {
    &&& a.0 == n * a.1 + m * a.2
    &&& b.0 == n * b.1 + m * b.2
    &&& magnitude(a.0) * magnitude(b.1) + magnitude(b.0) * magnitude(a.1) == magnitude(m)
    &&& magnitude(a.0) * magnitude(b.2) + magnitude(b.0) * magnitude(a.2) == magnitude(n)
    &&& opposed(a.1, b.1, a.0, b.0)
    &&& opposed(a.2, b.2, a.0, b.0)
    &&& magnitude(a.0) <= magnitude(n) || magnitude(a.0) <= magnitude(m)
    &&& magnitude(b.0) <= magnitude(n) || magnitude(b.0) <= magnitude(m)
    &&& bounded(a.1, m)
    &&& bounded(b.1, m)
    &&& bounded(a.2, n)
    &&& bounded(b.2, n)
}

/// Whether a coefficient is at most 1 or at most `total`, in magnitude.
pub open spec fn bounded(c: int, total: int) -> bool {
    magnitude(c) <= magnitude(total) || magnitude(c) <= 1
}

/// One column of coefficients takes a step: the sum that bounds it stays
/// what it was, and the signs stay opposed.
pub proof fn lemma_column_step(r0: int, r1: int, c0: int, c1: int, total: int)
    requires
        r1 != 0,
        magnitude(r0) * magnitude(c1) + magnitude(r1) * magnitude(c0) == total,
        opposed(c0, c1, r0, r1),
    ensures
        ({
            let q = truncated(r0, r1);
            let r2 = r0 - q * r1;
            let c2 = c0 - q * c1;
            &&& magnitude(r1) * magnitude(c2) + magnitude(r2) * magnitude(c1) == total
            &&& opposed(c1, c2, r1, r2)
            &&& magnitude(q * c1) <= total
            &&& magnitude(c2) <= total
        }),
{
    let q = truncated(r0, r1);
    let r2 = r0 - q * r1;
    let c2 = c0 - q * c1;
    let p = q * c1;
    lemma_truncated(r0, r1);
    let a = magnitude(r1);
    let b = magnitude(c0);
    let k = magnitude(q);
    let c = magnitude(c1);
    let d = magnitude(r0);
    let e = magnitude(r2);
    assert(magnitude(p) == k * c && (p > 0 ==> (q > 0) == (c1 > 0) && q != 0 && c1 != 0) && (p < 0
        ==> (q > 0) != (c1 > 0) && q != 0 && c1 != 0) && (p == 0 ==> q == 0 || c1 == 0))
        by (nonlinear_arith)
        requires
            p == q * c1,
            k == magnitude(q),
            c == magnitude(c1),
    ;
    assert(magnitude(c2) == b + k * c);
    assert(a * (b + k * c) + (d - k * a) * c == d * c + a * b) by (nonlinear_arith);
    assert(e == d - k * a);
    assert(a * magnitude(c2) + e * c == total);
    assert(magnitude(c2) <= total) by (nonlinear_arith)
        requires
            a * magnitude(c2) + e * c == total,
            a >= 1,
            e >= 0,
            c >= 0,
            magnitude(c2) >= 0,
    ;
}

/// Consecutive rows stay linked, and the next row fits where the given
/// numbers fit.
pub proof fn lemma_linked_step(a: Row, b: Row, n: int, m: int)
    requires
        linked(a, b, n, m),
        b.0 != 0,
    ensures
        linked(b, next_row(a, b), n, m),
        ({
            let q = truncated(a.0, b.0);
            &&& magnitude(q) <= magnitude(a.0)
            &&& magnitude(q * b.0) <= magnitude(a.0)
            &&& magnitude(q * b.1) <= magnitude(m)
            &&& magnitude(q * b.2) <= magnitude(n)
            &&& magnitude(next_row(a, b).0) < magnitude(b.0)
            &&& magnitude(next_row(a, b).1) <= magnitude(m)
            &&& magnitude(next_row(a, b).2) <= magnitude(n)
        }),
{
    let q = truncated(a.0, b.0);
    let c = next_row(a, b);
    lemma_truncated(a.0, b.0);
    lemma_column_step(a.0, b.0, a.1, b.1, magnitude(m));
    lemma_column_step(a.0, b.0, a.2, b.2, magnitude(n));
    assert(c.0 == n * c.1 + m * c.2) by (nonlinear_arith)
        requires
            a.0 == n * a.1 + m * a.2,
            b.0 == n * b.1 + m * b.2,
            c.0 == a.0 - q * b.0,
            c.1 == a.1 - q * b.1,
            c.2 == a.2 - q * b.2,
    ;
}

/// The first two rows are linked.
pub proof fn lemma_linked_start(n: int, m: int)
    ensures
        linked((n, 1, 0, 0), (m, 0, 1, 0), n, m),
{
    assert(n * 1 + m * 0 == n) by (nonlinear_arith);
    assert(n * 0 + m * 1 == m) by (nonlinear_arith);
    assert(magnitude(n) * 0 + magnitude(m) * 1 == magnitude(m)) by (nonlinear_arith);
    assert(magnitude(n) * 1 + magnitude(m) * 0 == magnitude(n)) by (nonlinear_arith);
}

/// Every row of a table that begins with linked rows is a combination of
/// `n` and `m` with its coefficients.
pub proof fn lemma_rows_after_combine(a: Row, b: Row, n: int, m: int, i: int)
    requires
        linked(a, b, n, m),
        0 <= i < rows_after(a, b).len(),
    ensures
        rows_after(a, b)[i].0 == n * rows_after(a, b)[i].1 + m * rows_after(a, b)[i].2,
    decreases magnitude(b.0),
{
    lemma_linked_step(a, b, n, m);
    if i > 0 {
        lemma_rows_after_combine(b, next_row(a, b), n, m, i - 1);
    }
}

/// The last of the rows `a`, `b` and those after them has the remainder 0.
pub proof fn lemma_rows_after_end(a: Row, b: Row)
    ensures
        (seq![a, b] + rows_after(a, b)).last().0 == 0,
    decreases magnitude(b.0),
{
    let all = seq![a, b] + rows_after(a, b);
    if b.0 == 0 {
        assert(all =~= seq![a, b]);
    } else {
        lemma_truncated(a.0, b.0);
        let c = next_row(a, b);
        lemma_rows_after_end(b, c);
        let tail = seq![b, c] + rows_after(b, c);
        assert(all.last() == tail.last());
    }
}

/// The table of the extended Euclidean algorithm is sound: every row is
/// the combination of `n` and `m` that its coefficients name, and the
/// last row has the remainder 0.
pub proof fn law_euclid_rows(n: int, m: int, i: int)
    requires
        0 <= i < euclid_rows(n, m).len(),
    ensures
        euclid_rows(n, m)[i].0 == n * euclid_rows(n, m)[i].1 + m * euclid_rows(n, m)[i].2,
        euclid_rows(n, m).last().0 == 0,
        euclid_rows(n, m).len() >= 2,
{
    lemma_linked_start(n, m);
    lemma_rows_after_end((n, 1, 0, 0), (m, 0, 1, 0));
    if i >= 2 {
        lemma_rows_after_combine((n, 1, 0, 0), (m, 0, 1, 0), n, m, i - 2);
    }
}

/// The table of the extended Euclidean algorithm for `n` and `m`. The
/// second row from the end holds a greatest common divisor with the
/// coefficients of a combination that gives it.
pub fn extended_euclid(n: i64, m: i64) -> (r: Vec<Quad>)
    requires
        n > i64::MIN,
        m > i64::MIN,
    ensures
        rows_of(r@) == euclid_rows(n as int, m as int),
        r@.len() >= 2,
{
    let ast: Quad = (n, 1, 0, 0);
    let buv: Quad = (m, 0, 1, 0);
    let mut prev: Vec<Quad> = Vec::new();
    prev.push(ast);
    prev.push(buv);
    let mut i: usize = 1;
    proof {
        lemma_linked_start(n as int, m as int);
        assert(rows_of(prev@) =~= seq![(n as int, 1, 0, 0), (m as int, 0, 1, 0)]);
        assert(rows_of(prev@)[0] == (n as int, 1int, 0int, 0int));
    }
    loop
        invariant
            n > i64::MIN,
            m > i64::MIN,
            prev@.len() == i + 1,
            1 <= i < usize::MAX,
            linked(rows_of(prev@)[i - 1], rows_of(prev@)[i as int], n as int, m as int),
            rows_of(prev@) + rows_after(rows_of(prev@)[i - 1], rows_of(prev@)[i as int])
                == euclid_rows(n as int, m as int),
        ensures
            rows_of(prev@) == euclid_rows(n as int, m as int),
            prev@.len() >= 2,
        decreases magnitude(prev@[i as int].0 as int),
    {
        let a = prev[i - 1];
        let b = prev[i];
        let ghost ra = rows_of(prev@)[i - 1];
        let ghost rb = rows_of(prev@)[i as int];
        let ghost before = rows_of(prev@);
        if b.0 == 0 {
            assert(before + Seq::<Row>::empty() =~= before);
            break ;
        }
        proof {
            lemma_linked_step(ra, rb, n as int, m as int);
            lemma_truncated(ra.0, rb.0);
            lemma_machine_division(ra.0, rb.0);
        }
        let q = a.0 / b.0;
        assert(q == truncated(ra.0, rb.0));
        let next: Quad = (a.0 - q * b.0, a.1 - q * b.1, a.2 - q * b.2, q);
        prev.push(next);
        proof {
            assert(prev.len() == prev@.len());
            assert(rows_of(prev@) =~= before.push(next_row(ra, rb)));
            assert(before.push(next_row(ra, rb)) + rows_after(rb, next_row(ra, rb)) =~= before + (
            seq![next_row(ra, rb)] + rows_after(rb, next_row(ra, rb))));
        }
        i += 1;
    }
    prev
}

/// The greatest common divisor by repeated division with rest, with the
/// sign that the divisions leave: the last rest that is not 0.
pub open spec fn last_rest(a: int, b: int) -> int
    decreases magnitude(b),
{
    if b == 0 {
        a
    } else {
        proof {
            lemma_truncated(a, b);
        }
        last_rest(b, a - truncated(a, b) * b)
    }
}

/// The greatest common divisor by repeated division with rest. The
/// result has the sign that the divisions leave.
pub fn gcd(a: i64, b: i64) -> (r: i64)
    requires
        a > i64::MIN,
        b > i64::MIN,
    ensures
        r == last_rest(a as int, b as int),
    decreases magnitude(b as int),
{
    if b == 0 {
        a
    } else {
        proof {
            lemma_truncated(a as int, b as int);
            lemma_machine_division(a as int, b as int);
        }
        gcd(b, a % b)
    }
}

/// For two congruences with the moduli `n_1` and `n_2`: coefficients
/// `u_1` and `u_2` with `n_1 * u_1 + n_2 * u_2 == 1`, from which the
/// common solution is combined. They exist where the algorithm finds 1 as
/// the greatest common divisor of the moduli; else there is an error.
pub fn chinese_rest_class(b_1: i64, n_1: i64, b_2: i64, n_2: i64) -> (r: Result<(i64, i64), ()>)
    requires
        n_1 > i64::MIN,
        n_2 > i64::MIN,
    ensures
        ({
            let rows = euclid_rows(n_1 as int, n_2 as int);
            let row = rows[rows.len() - 2];
            match r {
                Ok((u_1, u_2)) => row.0 == 1 && u_1 == row.1 && u_2 == row.2 && n_1 * u_1 + n_2
                    * u_2 == 1,
                Err(_) => row.0 != 1,
            }
        }),
{
    let extended = extended_euclid(n_1, n_2);
    let (r, s, t, _) = extended[extended.len() - 2];
    proof {
        law_euclid_rows(n_1 as int, n_2 as int, extended.len() - 2);
        assert(rows_of(extended@)[extended.len() - 2] == (r as int, s as int, t as int, extended@[
            extended.len() - 2
        ].3 as int));
    }
    let gcd = r;
    if gcd != 1 {
        return Err(());
    }
    let (u_1, u_2) = (s, t);
    Ok((u_1, u_2))
}

/// The second row from the end of the table that begins with the rows
/// `a` and `b`: the row before the remainder becomes 0.
pub open spec fn common_row(a: Row, b: Row) -> Row
    decreases magnitude(b.0),
{
    if b.0 == 0 {
        a
    } else {
        proof {
            lemma_truncated(a.0, b.0);
        }
        common_row(b, next_row(a, b))
    }
}

/// The greatest common divisor that the table for `n` and `m` finds, with
/// its sign: the remainder in the second row from the end.
pub open spec fn common_divisor(n: int, m: int) -> int {
    common_row((n, 1, 0, 0), (m, 0, 1, 0)).0
}

/// Whether `x` is a multiple of `g`.
pub open spec fn divides(g: int, x: int) -> bool {
    exists|k: int| x == #[trigger] (k * g)
}

/// The row with the opposite remainder.
pub open spec fn opposite(row: Row) -> Row {
    (-row.0, row.1, row.2, row.3)
}

/// `common_row` names the second row from the end.
pub proof fn lemma_common_row(a: Row, b: Row)
    ensures
        (seq![a, b] + rows_after(a, b))[(seq![a, b] + rows_after(a, b)).len() - 2] == common_row(
            a,
            b,
        ),
    decreases magnitude(b.0),
{
    let all = seq![a, b] + rows_after(a, b);
    if b.0 != 0 {
        lemma_truncated(a.0, b.0);
        let c = next_row(a, b);
        lemma_common_row(b, c);
        let tail = seq![b, c] + rows_after(b, c);
        assert(all.len() == tail.len() + 1);
        assert(all[all.len() - 2] == tail[tail.len() - 2]);
    }
}

/// The remainder of the common row divides the remainders of both rows,
/// and it is not 0 unless both are.
pub proof fn lemma_common_row_divides(a: Row, b: Row)
    ensures
        divides(common_row(a, b).0, a.0),
        divides(common_row(a, b).0, b.0),
        a.0 != 0 || b.0 != 0 ==> common_row(a, b).0 != 0,
    decreases magnitude(b.0),
{
    let g = common_row(a, b).0;
    if b.0 == 0 {
        assert(a.0 == 1 * g) by (nonlinear_arith)
            requires
                a.0 == g,
        ;
        assert(b.0 == 0 * g) by (nonlinear_arith)
            requires
                b.0 == 0,
        ;
    } else {
        lemma_truncated(a.0, b.0);
        let c = next_row(a, b);
        let q = truncated(a.0, b.0);
        lemma_common_row_divides(b, c);
        let kb = choose|k: int| b.0 == #[trigger] (k * g);
        let kc = choose|k: int| c.0 == #[trigger] (k * g);
        assert(a.0 == (kc + q * kb) * g) by (nonlinear_arith)
            requires
                c.0 == a.0 - q * b.0,
                b.0 == kb * g,
                c.0 == kc * g,
        ;
    }
}

/// The common row is a combination of `n` and `m` with bounded coefficients.
pub proof fn lemma_common_row_combines(a: Row, b: Row, n: int, m: int)
    requires
        linked(a, b, n, m),
    ensures
        bounded(common_row(a, b).1, m),
        bounded(common_row(a, b).2, n),
        common_row(a, b).0 == n * common_row(a, b).1 + m * common_row(a, b).2,
    decreases magnitude(b.0),
{
    if b.0 != 0 {
        lemma_linked_step(a, b, n, m);
        lemma_common_row_combines(b, next_row(a, b), n, m);
    }
}

/// With both remainders negated, the table is the same but for the signs
/// of the remainders.
pub proof fn lemma_common_row_opposite(a: Row, b: Row)
    ensures
        common_row(opposite(a), opposite(b)) == opposite(common_row(a, b)),
    decreases magnitude(b.0),
{
    if b.0 != 0 {
        lemma_truncated(a.0, b.0);
        lemma_truncated(-a.0, -b.0);
        let q = truncated(a.0, b.0);
        assert(truncated(-a.0, -b.0) == q);
        assert(q * (-b.0) == -(q * b.0)) by (nonlinear_arith);
        assert(next_row(opposite(a), opposite(b)) == opposite(next_row(a, b)));
        lemma_common_row_opposite(b, next_row(a, b));
    }
}

/// The quotient of a multiple by its divisor is exact.
pub proof fn lemma_truncated_exact(x: int, g: int)
    requires
        g != 0,
        divides(g, x),
    ensures
        x == truncated(x, g) * g,
        x != 0 ==> truncated(x, g) != 0,
        magnitude(truncated(x, g)) <= magnitude(x),
        x != 0 && g != 1 && g != -1 ==> magnitude(truncated(x, g)) < magnitude(x),
{
    lemma_truncated(x, g);
    let q = truncated(x, g);
    let k = choose|k: int| x == #[trigger] (k * g);
    let r = x - q * g;
    assert(r == (k - q) * g) by (nonlinear_arith)
        requires
            r == x - q * g,
            x == k * g,
    ;
    assert(k == q) by (nonlinear_arith)
        requires
            r == (k - q) * g,
            magnitude(r) < magnitude(g),
            g != 0,
    ;
    assert(q * g == 0 ==> q == 0 || g == 0) by (nonlinear_arith);
    if x != 0 && g != 1 && g != -1 {
        assert(magnitude(q) < magnitude(x)) by (nonlinear_arith)
            requires
                magnitude(x) == magnitude(q) * magnitude(g) + magnitude(r),
                r == 0,
                magnitude(g) >= 2,
                magnitude(q) >= 1,
        ;
    }
}

/// A linear congruence solved: the tables of the reductions, one
/// solution, and the modulus after the last reduction.
pub struct Solution {
    pub reductions: Seq<Seq<Row>>,
    pub x_p: int,
    pub n_p: int,
}

/// Why a linear congruence was not solved.
pub enum Failure {
    NoSolution,
    DivideByZero,
}

/// How far the congruence is from the last reduction: 0 where the table
/// finds 1, 1 where it finds -1, 2 else.
pub open spec fn distance(n: int, a: int) -> int {
    if common_divisor(n, a) == 1 {
        0
    } else if common_divisor(n, a) == -1 {
        1
    } else {
        2
    }
}

/// The solution of `a * x ≡ b (mod n)` by reduction. None of the three
/// numbers may be 0. Where the table for `n` and `a` finds 1 with the
/// coefficient `t` of `a`, the solution is `b * t`. Where it finds another
/// number `g`, the congruence has no solution unless `g` divides `b`
/// without rest, and else is the congruence with all three numbers
/// divided by `g`.
pub open spec fn congruence_of(a: int, b: int, n: int) -> Result<Solution, Failure>
    decreases magnitude(n), distance(n, a),
{
    if a == 0 || b == 0 || n == 0 {
        Err(Failure::DivideByZero)
    } else {
        let rows = euclid_rows(n, a);
        let row = common_row((n, 1, 0, 0), (a, 0, 1, 0));
        let g = row.0;
        if g == 1 {
            Ok(Solution { reductions: seq![rows], x_p: b * row.2, n_p: n })
        } else if b - truncated(b, g) * g != 0 {
            Err(Failure::NoSolution)
        } else {
            proof {
                lemma_reduction_decreases(a, n);
            }
            match congruence_of(truncated(a, g), truncated(b, g), truncated(n, g)) {
                Ok(s) => Ok(Solution { reductions: seq![rows] + s.reductions, ..s }),
                Err(e) => Err(e),
            }
        }
    }
}

/// A reduction leads to a smaller modulus, or from -1 to 1.
pub proof fn lemma_reduction_decreases(a: int, n: int)
    requires
        a != 0,
        n != 0,
        common_divisor(n, a) != 1,
    ensures
        ({
            let g = common_divisor(n, a);
            let a2 = truncated(a, g);
            let n2 = truncated(n, g);
            &&& g != 0
            &&& a2 != 0
            &&& n2 != 0
            &&& magnitude(a2) <= magnitude(a)
            &&& magnitude(n2) < magnitude(n) || (magnitude(n2) == magnitude(n) && distance(n2, a2)
                < distance(n, a))
        }),
{
    let first: Row = (n, 1, 0, 0);
    let second: Row = (a, 0, 1, 0);
    let g = common_divisor(n, a);
    lemma_common_row_divides(first, second);
    lemma_truncated_exact(n, g);
    lemma_truncated_exact(a, g);
    if g == -1 {
        lemma_truncated(n, g);
        lemma_truncated(a, g);
        assert(truncated(n, g) == -n);
        assert(truncated(a, g) == -a);
        lemma_common_row_opposite(first, second);
        assert(opposite(first) == (-n, 1int, 0int, 0int));
        assert(opposite(second) == (-a, 0int, 1int, 0int));
    }
}

/// What the table finds is a greatest common divisor: it divides both
/// numbers, and every number that divides both divides it.
pub proof fn law_common_divisor(n: int, m: int, d: int)
    ensures
        divides(common_divisor(n, m), n),
        divides(common_divisor(n, m), m),
        divides(d, n) && divides(d, m) ==> divides(d, common_divisor(n, m)),
        n != 0 || m != 0 ==> common_divisor(n, m) != 0,
{
    let first: Row = (n, 1, 0, 0);
    let second: Row = (m, 0, 1, 0);
    lemma_common_row_divides(first, second);
    lemma_linked_start(n, m);
    lemma_common_row_combines(first, second, n, m);
    let row = common_row(first, second);
    if divides(d, n) && divides(d, m) {
        let kn = choose|k: int| n == #[trigger] (k * d);
        let km = choose|k: int| m == #[trigger] (k * d);
        assert(row.0 == (kn * row.1 + km * row.2) * d) by (nonlinear_arith)
            requires
                row.0 == n * row.1 + m * row.2,
                n == kn * d,
                m == km * d,
        ;
    }
}

/// What is given out as the solution of a congruence solves it: the
/// modulus divides `a * x_p - b`.
pub proof fn law_congruence_solves(a: int, b: int, n: int)
    requires
        congruence_of(a, b, n) is Ok,
    ensures
        divides(n, a * congruence_of(a, b, n)->Ok_0.x_p - b),
    decreases magnitude(n), distance(n, a),
{
    let first: Row = (n, 1, 0, 0);
    let second: Row = (a, 0, 1, 0);
    let row = common_row(first, second);
    let g = row.0;
    lemma_linked_start(n, a);
    lemma_common_row_combines(first, second, n, a);
    if g == 1 {
        let x = b * row.2;
        assert(a * x - b == (-(b * row.1)) * n) by (nonlinear_arith)
            requires
                1 == n * row.1 + a * row.2,
                x == b * row.2,
        ;
    } else {
        lemma_reduction_decreases(a, n);
        let a2 = truncated(a, g);
        let b2 = truncated(b, g);
        let n2 = truncated(n, g);
        lemma_common_row_divides(first, second);
        lemma_truncated_exact(a, g);
        lemma_truncated_exact(n, g);
        law_congruence_solves(a2, b2, n2);
        let x = congruence_of(a2, b2, n2)->Ok_0.x_p;
        assert(congruence_of(a, b, n)->Ok_0.x_p == x);
        let k = choose|k: int| a2 * x - b2 == #[trigger] (k * n2);
        assert(a * x - b == k * n) by (nonlinear_arith)
            requires
                a2 * x - b2 == k * n2,
                a == a2 * g,
                b == b2 * g,
                n == n2 * g,
        ;
    }
}

/// Whether a number fits a machine integer.
pub open spec fn fits(x: int) -> bool {
    i64::MIN <= x <= i64::MAX
}

/// The common solution of `x ≡ b_1 (mod n_1)` and `x ≡ b_2 (mod n_2)`
/// that the coefficients `u_1` and `u_2` combine.
pub open spec fn combination(u_1: int, u_2: int, b_1: int, n_1: int, b_2: int, n_2: int) -> int {
    u_1 * n_1 * b_2 + u_2 * n_2 * b_1
}

/// With coefficients that combine the moduli to 1, the combination solves
/// both congruences.
pub proof fn law_combination_solves(u_1: int, u_2: int, b_1: int, n_1: int, b_2: int, n_2: int)
    requires
        n_1 * u_1 + n_2 * u_2 == 1,
    ensures
        divides(n_1, combination(u_1, u_2, b_1, n_1, b_2, n_2) - b_1),
        divides(n_2, combination(u_1, u_2, b_1, n_1, b_2, n_2) - b_2),
{
    let x = combination(u_1, u_2, b_1, n_1, b_2, n_2);
    assert(x - b_1 == (u_1 * b_2 - u_1 * b_1) * n_1) by (nonlinear_arith)
        requires
            x == u_1 * n_1 * b_2 + u_2 * n_2 * b_1,
            n_1 * u_1 + n_2 * u_2 == 1,
    ;
    assert(x - b_2 == (u_2 * b_1 - u_2 * b_2) * n_2) by (nonlinear_arith)
        requires
            x == u_1 * n_1 * b_2 + u_2 * n_2 * b_1,
            n_1 * u_1 + n_2 * u_2 == 1,
    ;
}

/// The common solution of two congruences from the coefficients of
/// `chinese_rest_class`: the combination `u_1 * n_1 * b_2 + u_2 * n_2 *
/// b_1`, the modulus `n_1 * n_2`, and the rest of the one by the other.
/// `None` where the modulus is 0 or a step does not fit the machine.
pub fn combine_rest_classes(u_1: i64, u_2: i64, b_1: i64, n_1: i64, b_2: i64, n_2: i64) -> (r:
    Option<(i64, i64, i64)>)
    ensures
        match r {
            Some((x, modulus, rest)) => {
                &&& x == combination(
                    u_1 as int,
                    u_2 as int,
                    b_1 as int,
                    n_1 as int,
                    b_2 as int,
                    n_2 as int,
                )
                &&& modulus == n_1 * n_2
                &&& modulus != 0
                &&& rest == x - truncated(x as int, modulus as int) * modulus
            },
            None => {
                ||| !fits(u_1 * n_1)
                ||| !fits(u_1 * n_1 * b_2)
                ||| !fits(u_2 * n_2)
                ||| !fits(u_2 * n_2 * b_1)
                ||| !fits(u_1 * n_1 * b_2 + u_2 * n_2 * b_1)
                ||| !fits(n_1 * n_2)
                ||| n_1 * n_2 == 0
                ||| (u_1 * n_1 * b_2 + u_2 * n_2 * b_1 == i64::MIN && n_1 * n_2 == -1)
            },
        },
{
    let first = match u_1.checked_mul(n_1) {
        Some(p) => match p.checked_mul(b_2) {
            Some(p) => p,
            None => {
                return None;
            },
        },
        None => {
            return None;
        },
    };
    let second = match u_2.checked_mul(n_2) {
        Some(p) => match p.checked_mul(b_1) {
            Some(p) => p,
            None => {
                return None;
            },
        },
        None => {
            return None;
        },
    };
    let x = match first.checked_add(second) {
        Some(x) => x,
        None => {
            return None;
        },
    };
    let modulus = match n_1.checked_mul(n_2) {
        Some(m) => m,
        None => {
            return None;
        },
    };
    if modulus == 0 || (x == i64::MIN && modulus == -1) {
        return None;
    }
    proof {
        lemma_machine_division(x as int, modulus as int);
    }
    Some((x, modulus, x % modulus))
}

/// A linear congruence solved: the tables of the reductions in the order
/// in which they were made, one solution `x_p`, and the modulus `n_p`
/// after the last reduction: the solutions are `x_p + n_p * z`.
#[derive(Debug, Clone)]
pub struct Congruence {
    pub reductions: Vec<Vec<Quad>>,
    pub x_p: i64,
    pub n_p: i64,
}

/// Why a linear congruence was not solved.
#[derive(Debug)]
pub enum CongruenceError {
    /// The greatest common divisor of factor and modulus does not divide
    /// the right-hand side.
    NoSolution,
    /// One of the three numbers is 0.
    DivideByZero,
}

/// The tables that a sequence of vectors stands for.
pub open spec fn tables_of(v: Seq<Vec<Quad>>) -> Seq<Seq<Row>> {
    Seq::new(v.len(), |i: int| rows_of(v[i]@))
}

impl View for Congruence {
    type V = Solution;

    open spec fn view(&self) -> Solution {
        Solution {
            reductions: tables_of(self.reductions@),
            x_p: self.x_p as int,
            n_p: self.n_p as int,
        }
    }
}

impl View for CongruenceError {
    type V = Failure;

    open spec fn view(&self) -> Failure {
        match self {
            CongruenceError::NoSolution => Failure::NoSolution,
            CongruenceError::DivideByZero => Failure::DivideByZero,
        }
    }
}

/// Solves `a * x ≡ b (mod n)` by the extended Euclidean algorithm. With a
/// 0 among the three numbers there is the error `DivideByZero`. Where
/// the greatest common divisor of `n` and `a` is not 1, it must divide
/// `b`, else there is the error `NoSolution`; and the congruence is
/// reduced by it and solved again.
pub fn congruence(a: i64, b: i64, n: i64) -> (r: Result<Congruence, CongruenceError>)
    requires
        a > i64::MIN,
        b > i64::MIN,
        n > i64::MIN,
        congruence_of(a as int, b as int, n as int) matches Ok(s) ==> fits(s.x_p),
    ensures
        match r {
            Ok(c) => congruence_of(a as int, b as int, n as int) == Ok::<Solution, Failure>(c@),
            Err(e) => congruence_of(a as int, b as int, n as int) == Err::<Solution, Failure>(e@),
        },
    decreases magnitude(n as int), distance(n as int, a as int),
{
    if a == 0 || b == 0 || n == 0 {
        return Err(CongruenceError::DivideByZero);
    }
    let extended = extended_euclid(n, a);
    let (r, _, t, _) = extended[extended.len() - 2];
    let ghost first: Row = (n as int, 1, 0, 0);
    let ghost second: Row = (a as int, 0, 1, 0);
    proof {
        lemma_common_row(first, second);
        lemma_linked_start(n as int, a as int);
        lemma_common_row_combines(first, second, n as int, a as int);
        assert(rows_of(extended@)[extended.len() - 2] == common_row(first, second));
    }
    let gcd = r;
    if r == 1 {
        let x_p = b * t;
        let mut reductions: Vec<Vec<Quad>> = Vec::new();
        reductions.push(extended);
        let c = Congruence { reductions, x_p, n_p: n };
        proof {
            assert(c@.reductions =~= seq![euclid_rows(n as int, a as int)]);
        }
        Ok(c)
    } else {
        proof {
            lemma_reduction_decreases(a as int, n as int);
            lemma_machine_division(a as int, gcd as int);
            lemma_machine_division(b as int, gcd as int);
            lemma_machine_division(n as int, gcd as int);
            lemma_truncated(a as int, gcd as int);
            lemma_truncated(b as int, gcd as int);
            lemma_truncated(n as int, gcd as int);
        }
        if b % gcd != 0 {
            return Err(CongruenceError::NoSolution);
        }
        match congruence(a / gcd, b / gcd, n / gcd) {
            Ok(mut res) => {
                let ghost before = res@;
                res.reductions.insert(0, extended);
                proof {
                    assert(res@.reductions =~= seq![euclid_rows(n as int, a as int)]
                        + before.reductions);
                }
                Ok(res)
            },
            Err(e) => Err(e),
        }
    }
}

/// The solution of a congruence is at most the product of the right-hand
/// side and the modulus, in magnitude.
pub proof fn law_congruence_bound(a: int, b: int, n: int)
    requires
        congruence_of(a, b, n) is Ok,
    ensures
        magnitude(congruence_of(a, b, n)->Ok_0.x_p) <= magnitude(b) * magnitude(n),
    decreases magnitude(n), distance(n, a),
{
    let first: Row = (n, 1, 0, 0);
    let second: Row = (a, 0, 1, 0);
    let row = common_row(first, second);
    let g = row.0;
    lemma_linked_start(n, a);
    lemma_common_row_combines(first, second, n, a);
    if g == 1 {
        assert(magnitude(b * row.2) <= magnitude(b) * magnitude(n)) by (nonlinear_arith)
            requires
                magnitude(row.2) <= magnitude(n),
        ;
    } else {
        lemma_reduction_decreases(a, n);
        lemma_truncated(b, g);
        lemma_truncated(n, g);
        let b2 = truncated(b, g);
        let n2 = truncated(n, g);
        law_congruence_bound(truncated(a, g), b2, n2);
        assert(magnitude(b2) * magnitude(n2) <= magnitude(b) * magnitude(n)) by (nonlinear_arith)
            requires
                0 <= magnitude(b2) <= magnitude(b),
                0 <= magnitude(n2) <= magnitude(n),
        ;
    }
}

/// Solves `a * x ≡ b (mod n)` where the numbers are small enough for the
/// machine: `None` where one of them is the smallest machine integer or
/// the product of `b` and `n` does not fit, else what `congruence` gives.
pub fn congruence_checked(a: i64, b: i64, n: i64) -> (r: Option<Result<Congruence, CongruenceError>>)
    ensures
        r is None <==> a == i64::MIN || b == i64::MIN || n == i64::MIN || magnitude(b as int)
            * magnitude(n as int) > i64::MAX,
        match r {
            Some(Ok(c)) => congruence_of(a as int, b as int, n as int) == Ok::<Solution, Failure>(
                c@,
            ),
            Some(Err(e)) => congruence_of(a as int, b as int, n as int) == Err::<
                Solution,
                Failure,
            >(e@),
            None => true,
        },
{
    if a == i64::MIN || b == i64::MIN || n == i64::MIN {
        return None;
    }
    let size_b = if b < 0 {
        -b
    } else {
        b
    };
    let size_n = if n < 0 {
        -n
    } else {
        n
    };
    match size_b.checked_mul(size_n) {
        Some(_) => {
            proof {
                if congruence_of(a as int, b as int, n as int) is Ok {
                    law_congruence_bound(a as int, b as int, n as int);
                }
            }
            Some(congruence(a, b, n))
        },
        None => None,
    }
}

} // verus!
