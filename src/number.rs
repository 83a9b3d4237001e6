use vstd::prelude::*;
use vstd::string::StrSliceExecFns;

use crate::datatype::{
    all_digits, digit_value, digits_value, float_start, is_digit, is_float_token, is_point,
    DataType, Scalar,
};

verus! {

pub open spec fn pow10(n: nat) -> int
    decreases n,
{
    if n == 0 {
        1
    } else {
        10 * pow10((n - 1) as nat)
    }
}

/// The position of the point in a decimal token.
pub open spec fn point_of(s: Seq<char>) -> int {
    choose|p: int| is_point(s, p)
}

/// The digits of a decimal token, its sign and point left out.
pub open spec fn decimal_digits(s: Seq<char>) -> Seq<char> {
    s.subrange(float_start(s), point_of(s)) + s.subrange(point_of(s) + 1, s.len() as int)
}

/// A number is `numerator(x) / 10^scale(x)`.
pub open spec fn numerator(x: Scalar) -> int {
    match x {
        Scalar::Int(i) => i,
        Scalar::Float(s) => {
            if s.len() > 0 && s[0] == '-' {
                -digits_value(decimal_digits(s))
            } else {
                digits_value(decimal_digits(s))
            }
        },
        _ => 0,
    }
}

pub open spec fn scale(x: Scalar) -> nat {
    match x {
        Scalar::Float(s) => (s.len() - point_of(s) - 1) as nat,
        _ => 0,
    }
}

/// Whether the number `a` is at most the number `b`, compared exactly.
pub open spec fn num_le(a: Scalar, b: Scalar) -> bool {
    numerator(a) * pow10(scale(b)) <= numerator(b) * pow10(scale(a))
}

/// An integer, or a decimal written as `[-+]?[0-9]*\.[0-9]+`.
pub open spec fn is_readable_number(x: Scalar) -> bool {
    x is Int || (x matches Scalar::Float(s) && is_float_token(s))
}

pub open spec fn zeros(k: nat) -> Seq<char> {
    Seq::new(k, |i: int| '0')
}

/// The digits `d` of a number over `10^s`, widened with zeros to `int_len`
/// digits before the point and `frac_len` after it.
pub open spec fn aligned(d: Seq<char>, s: nat, int_len: nat, frac_len: nat) -> Seq<char> {
    zeros((int_len - (d.len() - s)) as nat) + d + zeros((frac_len - s) as nat)
}

proof fn lemma_pow10_positive(n: nat)
    ensures
        pow10(n) > 0,
    decreases n,
{
    if n > 0 {
        lemma_pow10_positive((n - 1) as nat);
    }
}

proof fn lemma_pow10_add(a: nat, b: nat)
    ensures
        pow10(a + b) == pow10(a) * pow10(b),
    decreases a,
{
    if a > 0 {
        lemma_pow10_add((a - 1) as nat, b);
        assert((a + b - 1) as nat == ((a - 1) as nat + b) as nat);
        let p = pow10((a - 1) as nat);
        let q = pow10(b);
        assert(10 * (p * q) == (10 * p) * q) by (nonlinear_arith);
    }
}

proof fn lemma_digits_concat(a: Seq<char>, b: Seq<char>)
    ensures
        digits_value(a + b) == digits_value(a) * pow10(b.len()) + digits_value(b),
    decreases b.len(),
{
    if b.len() == 0 {
        assert(a + b =~= a);
    } else {
        let b0 = b.drop_last();
        lemma_digits_concat(a, b0);
        assert((a + b).drop_last() =~= a + b0);
        assert((a + b).last() == b.last());
        let va = digits_value(a);
        let p = pow10(b0.len());
        let v0 = digits_value(b0);
        let d = digit_value(b.last());
        assert(pow10(b.len()) == 10 * p);
        assert((va * p + v0) * 10 + d == va * (10 * p) + (v0 * 10 + d)) by (nonlinear_arith);
    }
}

proof fn lemma_digits_bound(s: Seq<char>)
    requires
        all_digits(s, 0, s.len() as int),
    ensures
        0 <= digits_value(s) < pow10(s.len()),
    decreases s.len(),
{
    if s.len() > 0 {
        let s0 = s.drop_last();
        assert forall|i: int| 0 <= i < s0.len() implies #[trigger] is_digit(s0[i]) by {
            assert(is_digit(s[i]));
        }
        lemma_digits_bound(s0);
        assert(is_digit(s[s.len() - 1]));
        let v = digits_value(s0);
        let p = pow10(s0.len());
        let d = digit_value(s.last());
        assert(v * 10 + d < 10 * p && v * 10 + d >= 0) by (nonlinear_arith)
            requires
                0 <= v < p,
                0 <= d < 10,
        ;
    }
}

proof fn lemma_zeros_value(k: nat)
    ensures
        digits_value(zeros(k)) == 0,
    decreases k,
{
    if k > 0 {
        assert(zeros(k).drop_last() =~= zeros((k - 1) as nat));
        lemma_zeros_value((k - 1) as nat);
    }
}

proof fn lemma_aligned(d: Seq<char>, s: nat, int_len: nat, frac_len: nat)
    requires
        s <= d.len(),
        d.len() - s <= int_len,
        s <= frac_len,
        all_digits(d, 0, d.len() as int),
    ensures
        aligned(d, s, int_len, frac_len).len() == int_len + frac_len,
        all_digits(aligned(d, s, int_len, frac_len), 0, (int_len + frac_len) as int),
        digits_value(aligned(d, s, int_len, frac_len)) == digits_value(d) * pow10(
            (frac_len - s) as nat,
        ),
{
    let z1 = zeros((int_len - (d.len() - s)) as nat);
    let z2 = zeros((frac_len - s) as nat);
    let a = aligned(d, s, int_len, frac_len);
    lemma_digits_concat(z1, d);
    lemma_digits_concat(z1 + d, z2);
    lemma_zeros_value((int_len - (d.len() - s)) as nat);
    lemma_zeros_value((frac_len - s) as nat);
    assert forall|i: int| 0 <= i < a.len() implies #[trigger] is_digit(a[i]) by {
        if z1.len() <= i < z1.len() + d.len() {
            assert(a[i] == d[i - z1.len()]);
            assert(is_digit(d[i - z1.len()]));
        }
    }
}

/// Of two digit sequences of one length, the one with the smaller digit at
/// the first place where they differ is the smaller number.
proof fn lemma_first_difference(a: Seq<char>, b: Seq<char>, j: int)
    requires
        a.len() == b.len(),
        all_digits(a, 0, a.len() as int),
        all_digits(b, 0, b.len() as int),
        0 <= j < a.len(),
        forall|k: int| 0 <= k < j ==> a[k] == b[k],
        a[j] < b[j],
    ensures
        digits_value(a) < digits_value(b),
{
    let n = a.len() as int;
    let pa = a.subrange(0, j + 1);
    let ra = a.subrange(j + 1, n);
    let pb = b.subrange(0, j + 1);
    let rb = b.subrange(j + 1, n);
    assert(a =~= pa + ra);
    assert(b =~= pb + rb);
    lemma_digits_concat(pa, ra);
    lemma_digits_concat(pb, rb);
    assert(pa.drop_last() =~= a.subrange(0, j));
    assert(pb.drop_last() =~= b.subrange(0, j));
    assert(a.subrange(0, j) =~= b.subrange(0, j));
    assert forall|i: int| 0 <= i < ra.len() implies #[trigger] is_digit(ra[i]) by {
        assert(is_digit(a[j + 1 + i]));
    }
    assert forall|i: int| 0 <= i < rb.len() implies #[trigger] is_digit(rb[i]) by {
        assert(is_digit(b[j + 1 + i]));
    }
    lemma_digits_bound(ra);
    lemma_digits_bound(rb);
    let q = digits_value(a.subrange(0, j));
    let da = digit_value(a[j]);
    let db = digit_value(b[j]);
    let p = pow10(ra.len());
    let va = digits_value(ra);
    let vb = digits_value(rb);
    assert((q * 10 + da) * p + va < (q * 10 + db) * p + vb) by (nonlinear_arith)
        requires
            0 <= va < p,
            vb >= 0,
            da + 1 <= db,
    ;
}

/// The digit at place `k` before the point of `aligned(d, s, int_len, _)`.
fn int_digit(d: &Vec<char>, s: usize, int_len: usize, frac_len: usize, k: usize) -> (r: char)
    requires
        s <= d@.len(),
        d@.len() - s <= int_len,
        s <= frac_len,
        k < int_len,
    ensures
        r == aligned(d@, s as nat, int_len as nat, frac_len as nat)[k as int],
{
    let off = int_len - (d.len() - s);
    if k < off {
        '0'
    } else {
        d[k - off]
    }
}

/// The digit at place `k` after the point of `aligned(d, s, int_len, frac_len)`.
fn frac_digit(d: &Vec<char>, s: usize, int_len: usize, frac_len: usize, k: usize) -> (r: char)
    requires
        s <= d@.len(),
        d@.len() - s <= int_len,
        s <= frac_len,
        k < frac_len,
    ensures
        r == aligned(d@, s as nat, int_len as nat, frac_len as nat)[int_len + k],
{
    if k < s {
        d[d.len() - s + k]
    } else {
        '0'
    }
}

/// The magnitude `digits_value(d) / 10^s`, widened to `frac_len` places
/// after the point.
pub open spec fn widened(d: Seq<char>, s: nat, frac_len: nat) -> int {
    digits_value(d) * pow10((frac_len - s) as nat)
}

pub open spec fn max_nat(a: nat, b: nat) -> nat {
    if a >= b {
        a
    } else {
        b
    }
}

/// Compares `digits_value(da) / 10^sa` with `digits_value(db) / 10^sb`:
/// -1 below, 0 equal, 1 above.
fn compare_magnitudes(da: &Vec<char>, sa: usize, db: &Vec<char>, sb: usize) -> (r: i8)
    requires
        sa <= da@.len(),
        sb <= db@.len(),
        all_digits(da@, 0, da@.len() as int),
        all_digits(db@, 0, db@.len() as int),
    ensures
        ({
            let f = max_nat(sa as nat, sb as nat);
            let wa = widened(da@, sa as nat, f);
            let wb = widened(db@, sb as nat, f);
            &&& r == -1 ==> wa < wb
            &&& r == 0 ==> wa == wb
            &&& r == 1 ==> wa > wb
            &&& -1 <= r <= 1
        }),
{
    let ia = da.len() - sa;
    let ib = db.len() - sb;
    let int_len = if ia >= ib {
        ia
    } else {
        ib
    };
    let frac_len = if sa >= sb {
        sa
    } else {
        sb
    };
    let ghost a = aligned(da@, sa as nat, int_len as nat, frac_len as nat);
    let ghost b = aligned(db@, sb as nat, int_len as nat, frac_len as nat);
    proof {
        lemma_aligned(da@, sa as nat, int_len as nat, frac_len as nat);
        lemma_aligned(db@, sb as nat, int_len as nat, frac_len as nat);
    }
    let mut k: usize = 0;
    while k < int_len
        invariant
            a == aligned(da@, sa as nat, int_len as nat, frac_len as nat),
            b == aligned(db@, sb as nat, int_len as nat, frac_len as nat),
            sa <= da@.len(),
            sb <= db@.len(),
            da@.len() - sa <= int_len,
            db@.len() - sb <= int_len,
            sa <= frac_len,
            sb <= frac_len,
            a.len() == int_len + frac_len,
            b.len() == int_len + frac_len,
            all_digits(a, 0, a.len() as int),
            all_digits(b, 0, b.len() as int),
            frac_len == max_nat(sa as nat, sb as nat),
            digits_value(a) == widened(da@, sa as nat, frac_len as nat),
            digits_value(b) == widened(db@, sb as nat, frac_len as nat),
            k <= int_len,
            forall|m: int| 0 <= m < k ==> a[m] == b[m],
        decreases int_len - k,
    {
        let ca = int_digit(da, sa, int_len, frac_len, k);
        let cb = int_digit(db, sb, int_len, frac_len, k);
        if ca != cb {
            if ca < cb {
                proof {
                    lemma_first_difference(a, b, k as int);
                }
                return -1;
            } else {
                proof {
                    lemma_first_difference(b, a, k as int);
                }
                return 1;
            }
        }
        k = k + 1;
    }
    let mut k: usize = 0;
    while k < frac_len
        invariant
            a == aligned(da@, sa as nat, int_len as nat, frac_len as nat),
            b == aligned(db@, sb as nat, int_len as nat, frac_len as nat),
            sa <= da@.len(),
            sb <= db@.len(),
            da@.len() - sa <= int_len,
            db@.len() - sb <= int_len,
            sa <= frac_len,
            sb <= frac_len,
            a.len() == int_len + frac_len,
            b.len() == int_len + frac_len,
            all_digits(a, 0, a.len() as int),
            all_digits(b, 0, b.len() as int),
            frac_len == max_nat(sa as nat, sb as nat),
            digits_value(a) == widened(da@, sa as nat, frac_len as nat),
            digits_value(b) == widened(db@, sb as nat, frac_len as nat),
            k <= frac_len,
            forall|m: int| 0 <= m < int_len + k ==> a[m] == b[m],
        decreases frac_len - k,
    {
        let ca = frac_digit(da, sa, int_len, frac_len, k);
        let cb = frac_digit(db, sb, int_len, frac_len, k);
        if ca != cb {
            if ca < cb {
                proof {
                    lemma_first_difference(a, b, int_len + k);
                }
                return -1;
            } else {
                proof {
                    lemma_first_difference(b, a, int_len + k);
                }
                return 1;
            }
        }
        k = k + 1;
    }
    assert(a =~= b);
    0
}

/// Where the point of a decimal token stands.
fn point_position(t: &str) -> (p: usize)
    requires
        is_float_token(t@),
    ensures
        p == point_of(t@),
        is_point(t@, p as int),
{
    let ghost q = point_of(t@);
    proof {
        let w = choose|w: int| is_point(t@, w);
        assert(is_point(t@, w));
    }
    let n = t.unicode_len();
    let start: usize = if n > 0 && (t.get_char(0) == '-' || t.get_char(0) == '+') {
        1
    } else {
        0
    };
    let mut i: usize = start;
    while i < n
        invariant
            n == t@.len(),
            start == float_start(t@),
            q == point_of(t@),
            is_point(t@, q),
            start <= i <= q,
            forall|m: int| start <= m < i ==> t@[m] != '.',
        decreases n - i,
    {
        if t.get_char(i) == '.' {
            proof {
                assert(t@[i as int] == '.');
                if (i as int) < q {
                    assert(is_digit(t@[i as int]));
                    assert(false);
                }
                assert(i as int == q);
            }
            return i;
        }
        i = i + 1;
    }
    i
}

/// A digit character.
fn digit_char(d: u64) -> (c: char)
    requires
        d < 10,
    ensures
        is_digit(c),
        digit_value(c) == d,
{
    if d == 0 {
        '0'
    } else if d == 1 {
        '1'
    } else if d == 2 {
        '2'
    } else if d == 3 {
        '3'
    } else if d == 4 {
        '4'
    } else if d == 5 {
        '5'
    } else if d == 6 {
        '6'
    } else if d == 7 {
        '7'
    } else if d == 8 {
        '8'
    } else {
        '9'
    }
}

/// The decimal digits of the absolute value of `v` (none for zero).
fn magnitude_digits(v: i32) -> (r: Vec<char>)
    ensures
        all_digits(r@, 0, r@.len() as int),
        digits_value(r@) == if v < 0 {
            -v
        } else {
            v as int
        },
{
    let mut n: u64 = if v < 0 {
        (-(v as i64)) as u64
    } else {
        v as u64
    };
    let ghost whole = n as int;
    let mut r: Vec<char> = Vec::new();
    while n > 0
        invariant
            all_digits(r@, 0, r@.len() as int),
            digits_value(r@) + n * pow10(r@.len()) == whole,
        decreases n,
    {
        let c = digit_char(n % 10);
        let ghost before = r@;
        r.insert(0, c);
        proof {
            assert(r@ =~= seq![c] + before);
            lemma_digits_concat(seq![c], before);
            assert(seq![c].drop_last() =~= Seq::<char>::empty());
            assert(digits_value(seq![c].drop_last()) == 0);
            assert(digits_value(seq![c]) == digit_value(c));
            assert forall|i: int| 0 <= i < r@.len() implies #[trigger] is_digit(r@[i]) by {
                if i > 0 {
                    assert(r@[i] == before[i - 1]);
                }
            }
            let p = pow10(before.len());
            let q = (n / 10) as int;
            let d = (n % 10) as int;
            assert(n as int == q * 10 + d);
            assert((q * 10 + d) * p == q * (10 * p) + d * p) by (nonlinear_arith);
        }
        n = n / 10;
    }
    r
}

/// The sign, the digits and the scale of a number cell: its value is the
/// digits over ten to the scale, negated where the sign says so.
fn parts(x: &DataType) -> (r: (bool, Vec<char>, usize))
    requires
        is_readable_number(x@),
    ensures
        all_digits(r.1@, 0, r.1@.len() as int),
        r.2 <= r.1@.len(),
        r.2 == scale(x@),
        numerator(x@) == if r.0 {
            -digits_value(r.1@)
        } else {
            digits_value(r.1@)
        },
{
    match x {
        DataType::Int(v) => (*v < 0, magnitude_digits(*v), 0),
        DataType::Float(t) => {
            let p = point_position(t.as_str());
            let n = t.unicode_len();
            let negative = t.get_char(0) == '-';
            let start: usize = if t.get_char(0) == '-' || t.get_char(0) == '+' {
                1
            } else {
                0
            };
            let ghost ts = t@;
            let mut d: Vec<char> = Vec::new();
            let mut i: usize = start;
            while i < n
                invariant
                    ts == t@,
                    n == ts.len(),
                    start == float_start(ts),
                    p == point_of(ts),
                    is_point(ts, p as int),
                    start <= i <= n,
                    i <= p ==> d@ == ts.subrange(start as int, i as int),
                    i > p ==> d@ == ts.subrange(start as int, p as int) + ts.subrange(
                        p + 1,
                        i as int,
                    ),
                decreases n - i,
            {
                let c = t.get_char(i);
                if i != p {
                    d.push(c);
                }
                proof {
                    if i < p {
                        assert(d@ =~= ts.subrange(start as int, i + 1));
                    } else if i == p {
                        assert(d@ =~= ts.subrange(start as int, p as int) + ts.subrange(
                            p + 1,
                            i + 1,
                        ));
                    } else {
                        assert(d@ =~= ts.subrange(start as int, p as int) + ts.subrange(
                            p + 1,
                            i + 1,
                        ));
                    }
                }
                i = i + 1;
            }
            proof {
                assert(d@ == decimal_digits(ts));
                assert forall|k: int| 0 <= k < d@.len() implies #[trigger] is_digit(d@[k]) by {
                    if k < p - start {
                        assert(d@[k] == ts[start + k]);
                    } else {
                        assert(d@[k] == ts[p + 1 + (k - (p - start))]);
                    }
                }
            }
            (negative, d, n - p - 1)
        },
        _ => (false, Vec::new(), 0),
    }
}

proof fn lemma_le_widened(x: int, sx: nat, y: int, sy: nat)
    ensures
        x * pow10(sy) <= y * pow10(sx) <==> x * pow10((max_nat(sx, sy) - sx) as nat) <= y
            * pow10((max_nat(sx, sy) - sy) as nat),
{
    let f = max_nat(sx, sy);
    let m: nat = if sx <= sy {
        sx
    } else {
        sy
    };
    lemma_pow10_add((f - sx) as nat, m);
    lemma_pow10_add((f - sy) as nat, m);
    assert(((f - sx) as nat + m) as nat == sy);
    assert(((f - sy) as nat + m) as nat == sx);
    lemma_pow10_positive(m);
    let pa = pow10((f - sx) as nat);
    let pb = pow10((f - sy) as nat);
    let pm = pow10(m);
    assert(x * (pa * pm) <= y * (pb * pm) <==> x * pa <= y * pb) by (nonlinear_arith)
        requires
            pm > 0,
    ;
}

/// Whether the number in cell `a` is at most the number in cell `b`,
/// compared exactly.
pub fn number_le(a: &DataType, b: &DataType) -> (r: bool)
    requires
        is_readable_number(a@),
        is_readable_number(b@),
    ensures
        r == num_le(a@, b@),
{
    let (na, da, sa) = parts(a);
    let (nb, db, sb) = parts(b);
    let c = compare_magnitudes(&da, sa, &db, sb);
    let none: Vec<char> = Vec::new();
    let za = compare_magnitudes(&da, sa, &none, 0) == 0;
    let zb = compare_magnitudes(&db, sb, &none, 0) == 0;
    proof {
        let f = max_nat(sa as nat, sb as nat);
        lemma_le_widened(numerator(a@), sa as nat, numerator(b@), sb as nat);
        lemma_digits_bound(da@);
        lemma_digits_bound(db@);
        lemma_pow10_positive((f - sa) as nat);
        lemma_pow10_positive((f - sb) as nat);
        assert(none@.len() == 0);
        assert(digits_value(none@) == 0);
        assert(pow10(0) == 1);
        assert(((max_nat(sa as nat, 0) - sa) as nat) == 0);
        assert(((max_nat(sb as nat, 0) - sb) as nat) == 0);
        assert(widened(da@, sa as nat, max_nat(sa as nat, 0)) == digits_value(da@));
        assert(widened(db@, sb as nat, max_nat(sb as nat, 0)) == digits_value(db@));
        let va = digits_value(da@);
        let vb = digits_value(db@);
        let pa = pow10((f - sa) as nat);
        let pb = pow10((f - sb) as nat);
        assert(va * pa >= 0 && vb * pb >= 0) by (nonlinear_arith)
            requires
                va >= 0,
                vb >= 0,
                pa > 0,
                pb > 0,
        ;
        assert((-va) * pa == -(va * pa)) by (nonlinear_arith);
        assert((-vb) * pb == -(vb * pb)) by (nonlinear_arith);
        assert(va * pa == 0 <==> va == 0) by (nonlinear_arith)
            requires
                va >= 0,
                pa > 0,
        ;
        assert(vb * pb == 0 <==> vb == 0) by (nonlinear_arith)
            requires
                vb >= 0,
                pb > 0,
        ;
    }
    if !na && !nb {
        c <= 0
    } else if na && nb {
        c >= 0
    } else if na {
        true
    } else {
        za && zb
    }
}

/// Exact comparison of numbers is a total preorder.
pub proof fn lemma_num_le_total_preorder(a: Scalar, b: Scalar, c: Scalar)
    ensures
        num_le(a, a),
        num_le(a, b) || num_le(b, a),
        num_le(a, b) && num_le(b, c) ==> num_le(a, c),
{
    lemma_pow10_positive(scale(a));
    lemma_pow10_positive(scale(b));
    lemma_pow10_positive(scale(c));
    let (x, y, z) = (numerator(a), numerator(b), numerator(c));
    let (pa, pb, pc) = (pow10(scale(a)), pow10(scale(b)), pow10(scale(c)));
    assert(x * pb <= y * pa && y * pc <= z * pb ==> x * pc <= z * pa) by (nonlinear_arith)
        requires
            pa > 0,
            pb > 0,
            pc > 0,
    ;
}

} // verus!
