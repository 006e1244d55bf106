//! File names: replacement of placeholders and numbers padded with zeros.

use vstd::prelude::*;

verus! {

/// `s` with every match of `pat` replaced by `to`, from left to right.
pub open spec fn replaced(s: Seq<char>, pat: Seq<char>, to: Seq<char>) -> Seq<char>
    decreases s.len(),
{
    if pat.len() == 0 || s.len() < pat.len() {
        s
    } else if s.take(pat.len() as int) == pat {
        to + replaced(s.skip(pat.len() as int), pat, to)
    } else {
        seq![s[0]] + replaced(s.skip(1), pat, to)
    }
}

/// `s` without `pat` in it stays as it is.
pub proof fn nothing_to_replace(s: Seq<char>, pat: Seq<char>, to: Seq<char>)
    requires
        pat.len() > 0,
        forall|i: int|
            0 <= i && i + pat.len() <= s.len() ==> #[trigger] s.subrange(i, i + pat.len()) != pat,
    ensures
        replaced(s, pat, to) == s,
    decreases s.len(),
{
    if s.len() >= pat.len() {
        assert(s.take(pat.len() as int) == s.subrange(0, 0int + pat.len()));
        let rest = s.skip(1);
        assert forall|i: int| 0 <= i && i + pat.len() <= rest.len() implies #[trigger] rest.subrange(
            i,
            i + pat.len(),
        ) != pat by {
            assert(rest.subrange(i, i + pat.len()) =~= s.subrange(i + 1, i + 1 + pat.len()));
        }
        nothing_to_replace(rest, pat, to);
        assert(seq![s[0]] + rest =~= s);
    }
}

/// `pat` stands in `s` at `at`.
fn matches_at(s: &str, n: usize, pat: &str, m: usize, at: usize) -> (r: bool)
    requires
        n == s@.len(),
        m == pat@.len(),
        at + m <= n,
    ensures
        r <==> s@.subrange(at as int, at + m) == pat@,
{
    let mut i: usize = 0;
    while i < m
        invariant
            n == s@.len(),
            m == pat@.len(),
            at + m <= n,
            i <= m,
            forall|k: int| 0 <= k < i ==> s@[at + k] == #[trigger] pat@[k],
        decreases m - i,
    {
        if s.get_char(at + i) != pat.get_char(i) {
            assert(s@.subrange(at as int, at + m)[i as int] == s@[at + i]);
            return false;
        }
        i += 1;
    }
    assert(s@.subrange(at as int, at + m) =~= pat@);
    true
}

/// `s` begins with `w`.
pub open spec fn begins(s: Seq<char>, w: Seq<char>) -> bool {
    w.len() <= s.len() && s.take(w.len() as int) == w
}

/// `pat` occurs in `s`.
pub open spec fn occurs(s: Seq<char>, pat: Seq<char>) -> bool {
    exists|i: int|
        0 <= i && i + pat.len() <= s.len() && #[trigger] s.subrange(i, i + pat.len()) == pat
}

/// `c` is no character of `s`.
pub open spec fn lacks(s: Seq<char>, c: char) -> bool {
    forall|i: int| 0 <= i < s.len() ==> #[trigger] s[i] != c
}

/// Where `s` does not begin with `pat`, its first character stays.
pub proof fn replaced_step(s: Seq<char>, pat: Seq<char>, to: Seq<char>)
    requires
        pat.len() > 0,
        s.len() > 0,
        !begins(s, pat),
    ensures
        replaced(s, pat, to) == seq![s[0]] + replaced(s.skip(1), pat, to),
{
    if s.len() < pat.len() {
        assert(s =~= seq![s[0]] + s.skip(1));
    }
}

/// Where `s` begins with `pat`, it is replaced.
pub proof fn replaced_match(pat: Seq<char>, rest: Seq<char>, to: Seq<char>)
    requires
        pat.len() > 0,
    ensures
        replaced(pat + rest, pat, to) == to + replaced(rest, pat, to),
{
    assert((pat + rest).take(pat.len() as int) =~= pat);
    assert((pat + rest).skip(pat.len() as int) =~= rest);
}

/// A beginning without the first character of `pat` stays.
pub proof fn replaced_after(x: Seq<char>, rest: Seq<char>, pat: Seq<char>, to: Seq<char>)
    requires
        pat.len() > 0,
        lacks(x, pat[0]),
    ensures
        replaced(x + rest, pat, to) == x + replaced(rest, pat, to),
    decreases x.len(),
{
    if x.len() == 0 {
        assert(x + rest =~= rest);
        assert(x + replaced(rest, pat, to) =~= replaced(rest, pat, to));
    } else {
        let s = x + rest;
        if begins(s, pat) {
            assert(s.take(pat.len() as int)[0] == s[0]);
            assert(s[0] == x[0]);
        }
        replaced_step(s, pat, to);
        assert(s.skip(1) =~= x.skip(1) + rest);
        assert forall|i: int| 0 <= i < x.skip(1).len() implies #[trigger] x.skip(1)[i] != pat[0] by {
            assert(x.skip(1)[i] == x[i + 1]);
        }
        replaced_after(x.skip(1), rest, pat, to);
        assert(seq![s[0]] + (x.skip(1) + replaced(rest, pat, to)) =~= x + replaced(rest, pat, to));
    }
}

/// What the result begins with, `s` begins with too, as long as the text that is put in
/// begins otherwise.
pub proof fn beginning_was_there(s: Seq<char>, pat: Seq<char>, to: Seq<char>, w: Seq<char>)
    requires
        pat.len() > 0,
        to.len() > 0,
        lacks(w, to[0]),
        begins(replaced(s, pat, to), w),
    ensures
        begins(s, w),
    decreases w.len(),
{
    let r = replaced(s, pat, to);
    if w.len() == 0 {
        assert(s.take(0) =~= w);
    } else if s.len() > 0 {
        assert(r.take(w.len() as int)[0] == w[0]);
        if begins(s, pat) {
            assert(r[0] == to[0]);
        } else {
            replaced_step(s, pat, to);
            let v = w.skip(1);
            let t = replaced(s.skip(1), pat, to);
            assert(r.skip(1) =~= t);
            assert(t.take(v.len() as int) =~= v) by {
                assert forall|i: int| 0 <= i < v.len() implies t[i] == v[i] by {
                    assert(r.take(w.len() as int)[i + 1] == w[i + 1]);
                    assert(r[i + 1] == t[i]);
                }
            }
            assert forall|i: int| 0 <= i < v.len() implies #[trigger] v[i] != to[0] by {
                assert(v[i] == w[i + 1]);
            }
            beginning_was_there(s.skip(1), pat, to, v);
            assert(s.take(w.len() as int) =~= w) by {
                assert forall|i: int| 0 <= i < w.len() implies s[i] == w[i] by {
                    if i > 0 {
                        assert(s.skip(1).take(v.len() as int)[i - 1] == v[i - 1]);
                        assert(s[i] == s.skip(1)[i - 1]);
                    } else {
                        assert(r[0] == s[0]);
                    }
                }
            }
        }
    }
}

/// `pat` does not occur before the first of its characters: it occurs in `x` and `rest`
/// only if it occurs in `rest`.
pub proof fn occurs_after(x: Seq<char>, rest: Seq<char>, pat: Seq<char>)
    requires
        pat.len() > 0,
        lacks(x, pat[0]),
        occurs(x + rest, pat),
    ensures
        occurs(rest, pat),
{
    let s = x + rest;
    let i = choose|i: int|
        0 <= i && i + pat.len() <= s.len() && #[trigger] s.subrange(i, i + pat.len()) == pat;
    assert(s.subrange(i, i + pat.len())[0] == s[i]);
    if i < x.len() {
        assert(s[i] == x[i]);
    }
    let j = i - x.len();
    assert(rest.subrange(j, j + pat.len()) =~= pat) by {
        assert forall|k: int| 0 <= k < pat.len() implies rest[j + k] == pat[k] by {
            assert(s.subrange(i, i + pat.len())[k] == s[i + k]);
        }
    }
}

/// If `s` does not begin with `pat`, it occurs after the first character if at all.
pub proof fn occurs_later(s: Seq<char>, pat: Seq<char>)
    requires
        pat.len() > 0,
        occurs(s, pat),
        !begins(s, pat),
    ensures
        s.len() > 0,
        occurs(s.skip(1), pat),
{
    let i = choose|i: int|
        0 <= i && i + pat.len() <= s.len() && #[trigger] s.subrange(i, i + pat.len()) == pat;
    if i == 0 {
        assert(s.take(pat.len() as int) =~= s.subrange(0, pat.len() as int));
    }
    let t = s.skip(1);
    assert(t.subrange(i - 1, i - 1 + pat.len()) =~= s.subrange(i, i + pat.len()));
}

/// Replace every match of `pat` in `s` by `to`.
pub fn replace(s: &str, pat: &str, to: &str) -> (r: String)
    requires
        pat@.len() > 0,
    ensures
        r@ == replaced(s@, pat@, to@),
{
    let n: usize = s.unicode_len();
    let m: usize = pat.unicode_len();
    let mut out = String::new();
    let mut at: usize = 0;
    assert(s@.skip(0) =~= s@);
    assert(out@ =~= Seq::<char>::empty());
    assert(out@ + replaced(s@.skip(0), pat@, to@) =~= replaced(s@, pat@, to@));
    while at < n && m <= n - at
        invariant
            n == s@.len(),
            m == pat@.len(),
            m > 0,
            at <= n,
            out@ + replaced(s@.skip(at as int), pat@, to@) == replaced(s@, pat@, to@),
        decreases n - at,
    {
        let ghost rest = s@.skip(at as int);
        let ghost before = out@;
        assert(rest.take(m as int) =~= s@.subrange(at as int, at + m));
        if matches_at(s, n, pat, m, at) {
            out.append(to);
            at += m;
            proof {
                assert(rest.skip(m as int) =~= s@.skip(at as int));
                assert((before + to@) + replaced(s@.skip(at as int), pat@, to@) =~= before + (to@
                    + replaced(s@.skip(at as int), pat@, to@)));
            }
        } else {
            out.append(s.substring_char(at, at + 1));
            at += 1;
            proof {
                assert(rest.skip(1) =~= s@.skip(at as int));
                assert(s@.subrange(at - 1, at as int) =~= seq![rest[0]]);
                assert((before + seq![rest[0]]) + replaced(s@.skip(at as int), pat@, to@)
                    =~= before + (seq![rest[0]] + replaced(s@.skip(at as int), pat@, to@)));
            }
        }
    }
    out.append(s.substring_char(at, n));
    assert(s@.subrange(at as int, n as int) =~= s@.skip(at as int));
    out
}

/// The decimal digit `d`.
pub open spec fn digit(d: nat) -> char {
    if d == 0 {
        '0'
    } else if d == 1 {
        '1'
    } else if d == 2 {
        '2'
    } else if d == 3 {
        '3'
    } else if d == 4 {
        '4'
    } else if d == 5 {
        '5'
    } else if d == 6 {
        '6'
    } else if d == 7 {
        '7'
    } else if d == 8 {
        '8'
    } else {
        '9'
    }
}

/// `n` in decimal, without leading zeros.
pub open spec fn decimal(n: nat) -> Seq<char>
    decreases n,
{
    if n < 10 {
        seq![digit(n)]
    } else {
        decimal(n / 10).push(digit(n % 10))
    }
}

/// `n` in decimal, with zeros in front up to `width` digits.
pub open spec fn padded(n: nat, width: nat) -> Seq<char> {
    if decimal(n).len() >= width {
        decimal(n)
    } else {
        Seq::new((width - decimal(n).len()) as nat, |i: int| '0') + decimal(n)
    }
}

/// `a` comes before `b` in the order of names: at the first place where they differ `a` has
/// the smaller character, or `a` is where `b` begins.
pub open spec fn sorts_before(a: Seq<char>, b: Seq<char>) -> bool {
    ||| a.len() < b.len() && a == b.take(a.len() as int)
    ||| exists|i: int|
        {
            &&& 0 <= i < a.len()
            &&& i < b.len()
            &&& #[trigger] a[i] < b[i]
            &&& a.take(i) == b.take(i)
        }
}

pub proof fn sorts_before_irreflexive(a: Seq<char>)
    ensures
        !sorts_before(a, a),
{
}

/// The order of names is transitive.
pub proof fn sorts_before_trans(a: Seq<char>, b: Seq<char>, c: Seq<char>)
    requires
        sorts_before(a, b),
        sorts_before(b, c),
    ensures
        sorts_before(a, c),
{
    let i = if a.len() < b.len() && a == b.take(a.len() as int) {
        a.len() as int
    } else {
        choose|i: int|
            {
                &&& 0 <= i < a.len()
                &&& i < b.len()
                &&& #[trigger] a[i] < b[i]
                &&& a.take(i) == b.take(i)
            }
    };
    let j = if b.len() < c.len() && b == c.take(b.len() as int) {
        b.len() as int
    } else {
        choose|j: int|
            {
                &&& 0 <= j < b.len()
                &&& j < c.len()
                &&& #[trigger] b[j] < c[j]
                &&& b.take(j) == c.take(j)
            }
    };
    assert(a.take(i) =~= b.take(i));
    assert(b.take(j) =~= c.take(j));
    let m = if i <= j {
        i
    } else {
        j
    };
    assert(a.take(m) =~= b.take(i).take(m));
    assert(c.take(m) =~= b.take(j).take(m));
    assert(b.take(i).take(m) =~= b.take(j).take(m));
    if i < j {
        assert(c[i] == c.take(j)[i]);
        assert(b[i] == b.take(j)[i]);
        if i < a.len() {
            assert(a[i] < c[i]);
        } else {
            assert(a =~= c.take(i));
        }
    } else if j < i {
        assert(a[j] == a.take(i)[j]);
        assert(b[j] == b.take(i)[j]);
        assert(a[j] < c[j]);
    } else {
        if i < a.len() {
            assert(a[i] < c[i]);
        } else {
            assert(a =~= c.take(i));
        }
    }
}

/// Whether `a` comes before `b` in the order of names.
pub fn is_before(a: &str, b: &str) -> (r: bool)
    ensures
        r == sorts_before(a@, b@),
{
    let n: usize = a.unicode_len();
    let m: usize = b.unicode_len();
    let mut i: usize = 0;
    while i < n && i < m
        invariant
            n == a@.len(),
            m == b@.len(),
            i <= n,
            i <= m,
            a@.take(i as int) =~= b@.take(i as int),
        decreases n - i,
    {
        let x: char = a.get_char(i);
        let y: char = b.get_char(i);
        if x != y {
            let r: bool = (x as u32) < (y as u32);
            proof {
                if r {
                    assert(a@[i as int] < b@[i as int]);
                } else if sorts_before(a@, b@) {
                    differ_first(a@, b@, i as int);
                }
            }
            return r;
        }
        i += 1;
    }
    proof {
        if n < m {
            assert(a@ =~= b@.take(n as int));
        } else if sorts_before(a@, b@) {
            let k = choose|k: int|
                {
                    &&& 0 <= k < a@.len()
                    &&& k < b@.len()
                    &&& #[trigger] a@[k] < b@[k]
                    &&& a@.take(k) == b@.take(k)
                };
            assert(a@.take(i as int)[k] == b@.take(i as int)[k]);
        }
    }
    n < m
}

/// The order of names is decided at the first difference.
proof fn differ_first(a: Seq<char>, b: Seq<char>, i: int)
    requires
        sorts_before(a, b),
        0 <= i < a.len(),
        i < b.len(),
        a.take(i) == b.take(i),
        a[i] != b[i],
    ensures
        a[i] < b[i],
{
    if a.len() < b.len() && a == b.take(a.len() as int) {
        assert(a[i] == b.take(a.len() as int)[i]);
    } else {
        let k = choose|k: int|
            {
                &&& 0 <= k < a.len()
                &&& k < b.len()
                &&& #[trigger] a[k] < b[k]
                &&& a.take(k) == b.take(k)
            };
        if k < i {
            assert(a.take(i)[k] == a[k] && b.take(i)[k] == b[k]);
        } else if k > i {
            assert(a.take(k)[i] == a[i] && b.take(k)[i] == b[i]);
        }
    }
}

/// Only digits stand in a number.
pub proof fn decimal_is_digits(n: nat, i: int)
    requires
        0 <= i < decimal(n).len(),
    ensures
        '0' <= decimal(n)[i] <= '9',
    decreases n,
{
    if n >= 10 && i < decimal(n / 10).len() {
        decimal_is_digits(n / 10, i);
    }
}

/// Different numbers are written differently.
pub proof fn decimals_differ(a: nat, b: nat)
    requires
        a != b,
    ensures
        decimal(a) != decimal(b),
{
    let (lo, hi) = if a < b {
        (a, b)
    } else {
        (b, a)
    };
    if decimal(a) == decimal(b) {
        padded_numbers_sort(lo, hi, decimal(hi).len());
        sorts_before_irreflexive(decimal(hi));
    }
}

/// Larger numbers have no fewer digits.
pub proof fn digits_grow(a: nat, b: nat)
    requires
        a <= b,
    ensures
        1 <= decimal(a).len() <= decimal(b).len(),
    decreases b,
{
    if a >= 10 {
        digits_grow(a / 10, b / 10);
    } else if b >= 10 {
        digits_grow(0, b / 10);
    }
}

/// The last digit of a padded number.
proof fn padded_step(n: nat, width: nat)
    requires
        width >= 2,
    ensures
        padded(n, width) == padded(n / 10, (width - 1) as nat).push(digit(n % 10)),
    decreases n,
{
    digits_grow(0, n);
    if n < 10 {
        assert(n / 10 == 0 && n % 10 == n);
        assert(decimal(0) == seq!['0']);
        assert(padded(n, width) =~= padded(0, (width - 1) as nat).push(digit(n)));
    } else {
        digits_grow(0, n / 10);
        assert(padded(n, width) =~= padded(n / 10, (width - 1) as nat).push(digit(n % 10)));
    }
}

proof fn padded_len(n: nat, width: nat)
    requires
        decimal(n).len() <= width,
    ensures
        padded(n, width).len() == width,
{
}

/// Padded to one width, numbers sort by name as they sort by value.
pub proof fn padded_numbers_sort(a: nat, b: nat, width: nat)
    requires
        a < b,
        decimal(b).len() <= width,
    ensures
        padded(a, width).len() == width,
        padded(b, width).len() == width,
        sorts_before(padded(a, width), padded(b, width)),
    decreases width,
{
    digits_grow(a, b);
    padded_len(a, width);
    padded_len(b, width);
    let pa = padded(a, width);
    let pb = padded(b, width);
    if width <= 1 {
        assert(b < 10) by {
            if b >= 10 {
                digits_grow(0, b / 10);
            }
        }
        assert(pa =~= seq![digit(a)]);
        assert(pb =~= seq![digit(b)]);
        assert(pa.take(0) =~= pb.take(0));
        assert(pa[0] < pb[0]);
    } else {
        let w = (width - 1) as nat;
        padded_step(a, width);
        padded_step(b, width);
        let qa = padded(a / 10, w);
        let qb = padded(b / 10, w);
        if b >= 10 {
            assert(decimal(b).len() == decimal(b / 10).len() + 1);
        } else {
            assert(b / 10 == 0);
            assert(decimal(0).len() == 1);
        }
        if a / 10 < b / 10 {
            padded_numbers_sort(a / 10, b / 10, w);
            assert(pa.take(w as int) =~= qa);
            assert(pb.take(w as int) =~= qb);
            let i = choose|i: int|
                {
                    &&& 0 <= i < qa.len()
                    &&& i < qb.len()
                    &&& #[trigger] qa[i] < qb[i]
                    &&& qa.take(i) == qb.take(i)
                };
            assert(pa[i] == qa[i] && pb[i] == qb[i]);
            assert(pa.take(i) =~= qa.take(i));
            assert(pb.take(i) =~= qb.take(i));
            assert(pa[i] < pb[i]);
        } else {
            assert(a / 10 == b / 10);
            padded_len(a / 10, w);
            assert(pa.take(w as int) =~= qa);
            assert(pb.take(w as int) =~= qa);
            assert(pa[w as int] < pb[w as int]);
        }
    }
}

/// The digit `d` as text.
fn digit_text(d: u32) -> (r: &'static str)
    requires
        d < 10,
    ensures
        r@ == seq![digit(d as nat)],
{
    proof {
        reveal_strlit("0");
        reveal_strlit("1");
        reveal_strlit("2");
        reveal_strlit("3");
        reveal_strlit("4");
        reveal_strlit("5");
        reveal_strlit("6");
        reveal_strlit("7");
        reveal_strlit("8");
        reveal_strlit("9");
    }
    let r = if d == 0 {
        "0"
    } else if d == 1 {
        "1"
    } else if d == 2 {
        "2"
    } else if d == 3 {
        "3"
    } else if d == 4 {
        "4"
    } else if d == 5 {
        "5"
    } else if d == 6 {
        "6"
    } else if d == 7 {
        "7"
    } else if d == 8 {
        "8"
    } else {
        "9"
    };
    assert(r@ =~= seq![digit(d as nat)]);
    r
}

/// `n` in decimal.
pub fn to_decimal(n: u32) -> (r: String)
    ensures
        r@ == decimal(n as nat),
    decreases n,
{
    if n < 10 {
        String::from_str(digit_text(n))
    } else {
        let mut r = to_decimal(n / 10);
        r.append(digit_text(n % 10));
        assert(r@ =~= decimal((n / 10) as nat).push(digit((n % 10) as nat)));
        r
    }
}

/// `n` in decimal, padded with zeros to `width` digits.
pub fn pad(n: u32, width: usize) -> (r: String)
    ensures
        r@ == padded(n as nat, width as nat),
{
    let digits = to_decimal(n);
    let len: usize = digits.as_str().unicode_len();
    if len >= width {
        return digits;
    }
    let mut r = String::new();
    for i in 0..width - len
        invariant
            r@ =~= Seq::new(i as nat, |k: int| '0'),
    {
        r.append(digit_text(0));
    }
    r.append(digits.as_str());
    r
}

/// The number that a sequence of digits is.
pub open spec fn number_of(s: Seq<char>) -> int
    decreases s.len(),
{
    if s.len() == 0 {
        0
    } else {
        10 * number_of(s.drop_last()) + (s.last() as int - '0' as int)
    }
}

/// What is written for a number reads as that number, without a zero in front.
pub proof fn decimals_read_back(n: nat)
    ensures
        number_of(decimal(n)) == n,
        n > 0 ==> decimal(n)[0] != '0',
        n == 0 ==> decimal(n).len() == 1,
    decreases n,
{
    let d = decimal(n);
    reveal_with_fuel(number_of, 2);
    digits_grow(0, n);
    if n >= 10 {
        decimals_read_back(n / 10);
        digits_grow(0, n / 10);
        assert(d.drop_last() =~= decimal(n / 10));
        assert(d[0] == decimal(n / 10)[0]);
    } else {
        assert(d.drop_last() =~= Seq::empty());
    }
}

/// Zeros in front do not change a number.
pub proof fn padding_reads_back(n: nat, width: nat)
    ensures
        number_of(padded(n, width)) == n,
        padded(n, width).len() >= width,
        padded(n, width).len() == width || padded(n, width) == decimal(n),
{
    decimals_read_back(n);
    let d = decimal(n);
    let p = padded(n, width);
    if d.len() < width {
        let zeros = p.take(p.len() - d.len());
        assert(p =~= zeros + d);
        zeros_are_nothing(zeros, d);
    } else {
        assert(p =~= d);
    }
}

proof fn zeros_are_nothing(zeros: Seq<char>, d: Seq<char>)
    requires
        forall|i: int| 0 <= i < zeros.len() ==> #[trigger] zeros[i] == '0',
    ensures
        number_of(zeros + d) == number_of(d),
    decreases zeros.len() + d.len(),
{
    let s = zeros + d;
    if d.len() > 0 {
        assert(s.drop_last() =~= zeros + d.drop_last());
        zeros_are_nothing(zeros, d.drop_last());
    } else if zeros.len() > 0 {
        assert(s =~= zeros);
        assert(s.drop_last() =~= zeros.drop_last() + d);
        zeros_are_nothing(zeros.drop_last(), d);
    }
}

} // verus!
