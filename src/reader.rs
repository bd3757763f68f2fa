//! Reading back the number and point texts that the JSON writer produces.
use vstd::prelude::*;
use vstd::string::*;
use crate::excalidraw::{digit_char, nat_digits, tenths_text, ExcalidrawPoint};

verus! {

pub open spec fn is_digit(c: char) -> bool {
    48 <= (c as int) <= 57
}

pub open spec fn digit_value(c: char) -> int {
    (c as int) - 48
}

/// How many decimal digits `s` starts with.
pub open spec fn digit_run(s: Seq<char>) -> nat
    decreases s.len(),
{
    if s.len() > 0 && is_digit(s[0]) {
        1 + digit_run(s.drop_first())
    } else {
        0
    }
}

/// The value of a run of decimal digits, most significant first.
pub open spec fn digits_value(s: Seq<char>) -> int
    decreases s.len(),
{
    if s.len() == 0 {
        0
    } else {
        digits_value(s.drop_last()) * 10 + digit_value(s.last())
    }
}

/// The number in tenths that `s` starts with, and how many characters it
/// takes: an optional `-`, at least one digit, then `.` and one digit when a
/// digit follows the dot.
pub open spec fn read_tenths(s: Seq<char>) -> Option<(int, int)> {
    let a: int = if s.len() > 0 && s[0] == '-' { 1 } else { 0 };
    let t = s.skip(a);
    let w = digit_run(t) as int;
    if w == 0 {
        None
    } else {
        let whole = digits_value(t.take(w));
        let (m, len) = if w + 1 < t.len() && t[w] == '.' && is_digit(t[w + 1]) {
            (whole * 10 + digit_value(t[w + 1]), a + w + 2)
        } else {
            (whole * 10, a + w)
        };
        Some((if a == 1 { -m } else { m }, len))
    }
}

proof fn lemma_digit_char(d: int)
    requires
        0 <= d < 10,
    ensures
        is_digit(digit_char(d)),
        digit_value(digit_char(d)) == d,
{
}

proof fn lemma_nat_digits(n: nat)
    ensures
        nat_digits(n).len() > 0,
        forall|k: int| 0 <= k < nat_digits(n).len() ==> is_digit(#[trigger] nat_digits(n)[k]),
        digits_value(nat_digits(n)) == n,
    decreases n,
{
    if n < 10 {
        lemma_digit_char(n as int);
        assert(seq![digit_char(n as int)].drop_last() =~= Seq::<char>::empty());
        assert(digits_value(nat_digits(n)) == digits_value(Seq::<char>::empty()) * 10 + digit_value(
            digit_char(n as int),
        ));
    } else {
        lemma_nat_digits(n / 10);
        lemma_digit_char((n % 10) as int);
        let s = nat_digits(n);
        assert(s.drop_last() =~= nat_digits(n / 10));
        assert(s.last() == digit_char((n % 10) as int));
        assert(n == (n / 10) * 10 + n % 10);
    }
}

proof fn lemma_digit_run(a: Seq<char>, b: Seq<char>)
    requires
        forall|k: int| 0 <= k < a.len() ==> is_digit(#[trigger] a[k]),
        b.len() == 0 || !is_digit(b[0]),
    ensures
        digit_run(a + b) == a.len(),
    decreases a.len(),
{
    if a.len() > 0 {
        assert((a + b).drop_first() =~= a.drop_first() + b);
        assert forall|k: int| 0 <= k < a.drop_first().len() implies is_digit(#[trigger] a.drop_first()[k]) by {
            assert(a.drop_first()[k] == a[k + 1]);
        }
        lemma_digit_run(a.drop_first(), b);
    } else {
        assert(a + b =~= b);
    }
}

/// Reading the text of a number back gives the number, wherever the text is
/// followed by something other than a digit or a dot.
pub proof fn lemma_tenths_round_trip(v: int, rest: Seq<char>)
    requires
        rest.len() == 0 || (!is_digit(rest[0]) && rest[0] != '.'),
    ensures
        read_tenths(tenths_text(v) + rest) == Some((v, tenths_text(v).len() as int)),
{
    let m: nat = if v < 0 { (-v) as nat } else { v as nat };
    let sign: Seq<char> = if v < 0 { seq!['-'] } else { Seq::empty() };
    let frac: Seq<char> = if m % 10 == 0 { Seq::empty() } else { seq!['.', digit_char((m % 10) as int)] };
    let ds = nat_digits(m / 10);
    let s = tenths_text(v) + rest;
    assert(tenths_text(v) == sign + ds + frac);
    lemma_nat_digits(m / 10);
    let a: int = if v < 0 { 1 } else { 0 };
    assert(s[0] == (sign + ds + frac + rest)[0]);
    if v >= 0 {
        assert(s[0] == ds[0]);
    }
    let t = s.skip(a);
    assert(t =~= ds + (frac + rest));
    if m % 10 == 0 {
        lemma_digit_run(ds, frac + rest);
        assert(frac + rest =~= rest);
    } else {
        lemma_digit_char((m % 10) as int);
        lemma_digit_run(ds, frac + rest);
        assert(t[ds.len() as int] == '.');
        assert(t[ds.len() as int + 1] == digit_char((m % 10) as int));
    }
    assert(t.take(ds.len() as int) =~= ds);
}

proof fn lemma_run_exact(t: Seq<char>, w: int)
    requires
        0 <= w <= t.len(),
        forall|k: int| 0 <= k < w ==> is_digit(#[trigger] t[k]),
        w == t.len() || !is_digit(t[w]),
    ensures
        digit_run(t) == w,
    decreases w,
{
    if w > 0 {
        assert forall|k: int| 0 <= k < w - 1 implies is_digit(#[trigger] t.drop_first()[k]) by {
            assert(t.drop_first()[k] == t[k + 1]);
        }
        lemma_run_exact(t.drop_first(), w - 1);
    }
}

proof fn lemma_digits_step(t: Seq<char>, k: int)
    requires
        0 <= k < t.len(),
    ensures
        digits_value(t.take(k + 1)) == digits_value(t.take(k)) * 10 + digit_value(t[k]),
{
    assert(t.take(k + 1).drop_last() =~= t.take(k));
}

proof fn lemma_digits_nonneg(t: Seq<char>)
    requires
        forall|k: int| 0 <= k < t.len() ==> is_digit(#[trigger] t[k]),
    ensures
        digits_value(t) >= 0,
    decreases t.len(),
{
    if t.len() > 0 {
        assert forall|k: int| 0 <= k < t.drop_last().len() implies is_digit(#[trigger] t.drop_last()[k]) by {
            assert(t.drop_last()[k] == t[k]);
        }
        lemma_digits_nonneg(t.drop_last());
    }
}

/// A digit character and its value.
fn digit_at(s: &str, p: usize) -> (r: Option<u64>)
    requires
        p < s@.len(),
    ensures
        match r {
            Some(d) => is_digit(s@[p as int]) && d == digit_value(s@[p as int]),
            None => !is_digit(s@[p as int]),
        },
{
    let c = s.get_char(p);
    let v = c as u32;
    if 48 <= v && v <= 57 {
        Some((v - 48) as u64)
    } else {
        None
    }
}

/// The fixed-point number whose text starts at character `i` of `s`, as
/// `read_tenths` reads it, with the index just past it; `None` where there is
/// no number there or it does not fit in `i64`.
pub fn read_number(s: &str, i: usize) -> (r: Option<(i64, usize)>)
    requires
        i <= s@.len() <= usize::MAX,
    ensures
        r == match read_tenths(s@.skip(i as int)) {
            Some((v, len)) => if i64::MIN <= v <= i64::MAX {
                Some((v as i64, (i + len) as usize))
            } else {
                None
            },
            None => None,
        },
        match read_tenths(s@.skip(i as int)) {
            Some((v, len)) => i + len <= s@.len(),
            None => true,
        },
{
    let n = s.unicode_len();
    let ghost t0 = s@.skip(i as int);
    let neg = i < n && s.get_char(i) == '-';
    let start: usize = if neg { i + 1 } else { i };
    let ghost a: int = if neg { 1 } else { 0 };
    let ghost t = t0.skip(a);
    assert(t =~= s@.skip(start as int));
    let mut p: usize = start;
    let mut acc: u64 = 0;
    let mut big = false;
    let mut more = true;
    while more && p < n
        invariant
            n == s@.len(),
            start <= p <= n,
            t == s@.skip(start as int),
            forall|k: int| 0 <= k < p - start ==> is_digit(#[trigger] t[k]),
            !more ==> p < n && !is_digit(t[p - start]),
            !big ==> acc == digits_value(t.take(p - start)) && acc <= 1_000_000_000_000_000_009,
            big ==> digits_value(t.take(p - start)) > 1_000_000_000_000_000_000,
        decreases n - p + (if more { 1int } else { 0int }),
    {
        match digit_at(s, p) {
            Some(d) => {
                proof {
                    lemma_digits_step(t, p - start);
                    assert(t[p - start] == s@[p as int]);
                }
                if !big && acc <= 100_000_000_000_000_000 {
                    acc = acc * 10 + d;
                } else {
                    proof {
                        if !big {
                            assert(acc > 100_000_000_000_000_000);
                        }
                        let k = p - start;
                        assert forall|j: int| 0 <= j < k implies is_digit(#[trigger] t.take(k)[j]) by {}
                        lemma_digits_nonneg(t.take(k));
                        assert(digit_value(t[k]) >= 0);
                    }
                    big = true;
                }
                p = p + 1;
            },
            None => {
                assert(t[p - start] == s@[p as int]);
                more = false;
            },
        }
    }
    let w = p - start;
    proof {
        lemma_run_exact(t, w as int);
    }
    if w == 0 {
        return None;
    }
    let has_frac = n - p >= 2 && s.get_char(p) == '.' && digit_at(s, p + 1).is_some();
    let (frac, end): (u64, usize) = if has_frac {
        match digit_at(s, p + 1) {
            Some(d) => (d, p + 2),
            None => (0, p),
        }
    } else {
        (0, p)
    };
    proof {
        if p + 1 < n {
            assert(t[w as int] == s@[p as int]);
            assert(t[w + 1] == s@[p + 1]);
        }
        assert(t.take(w as int).len() == w);
    }
    if big {
        proof {
            lemma_digits_nonneg(t.take(w as int));
        }
        return None;
    }
    let m: u64 = acc * 10 + frac;
    if neg {
        if m > 9_223_372_036_854_775_808 {
            return None;
        }
        let v: i64 = if m == 9_223_372_036_854_775_808 { i64::MIN } else { -(m as i64) };
        Some((v, end))
    } else {
        if m > 9_223_372_036_854_775_807 {
            return None;
        }
        Some((m as i64, end))
    }
}

pub open spec fn fits_i64(v: int) -> bool {
    i64::MIN <= v <= i64::MAX
}

/// `s` holds `lit` from index `i` on.
pub open spec fn holds_at(s: Seq<char>, i: int, lit: Seq<char>) -> bool {
    0 <= i && i + lit.len() <= s.len() && s.subrange(i, i + lit.len()) == lit
}

fn text_at(s: &str, i: usize, lit: &str) -> (r: bool)
    requires
        s@.len() <= usize::MAX,
    ensures
        r == holds_at(s@, i as int, lit@),
{
    let n = s.unicode_len();
    let m = lit.unicode_len();
    if i > n || m > n - i {
        return false;
    }
    let mut k: usize = 0;
    while k < m
        invariant
            n == s@.len(),
            m == lit@.len(),
            i + m <= n,
            k <= m,
            forall|j: int| 0 <= j < k ==> s@[i + j] == lit@[j],
        decreases m - k,
    {
        if s.get_char(i + k) != lit.get_char(k) {
            assert(s@.subrange(i as int, i + m)[k as int] == s@[i + k]);
            return false;
        }
        k = k + 1;
    }
    assert(s@.subrange(i as int, i + m) =~= lit@);
    true
}

/// The point that `s` holds exactly, in the layout the writer uses: `[`, a
/// number, `,`, a number and `]`, each number on a line of its own.
pub open spec fn read_point(s: Seq<char>) -> Option<ExcalidrawPoint> {
    let open = "[\n            "@;
    let sep = ",\n            "@;
    let close = "\n        ]"@;
    if !holds_at(s, 0, open) {
        None
    } else {
        match read_tenths(s.skip(open.len() as int)) {
            None => None,
            Some((x, lx)) => {
                let j = open.len() + lx;
                if !holds_at(s, j, sep) {
                    None
                } else {
                    match read_tenths(s.skip(j + sep.len())) {
                        None => None,
                        Some((y, ly)) => {
                            let k = j + sep.len() + ly;
                            if holds_at(s, k, close) && k + close.len() == s.len() && fits_i64(x)
                                && fits_i64(y) {
                                Some(ExcalidrawPoint { x: x as i64, y: y as i64 })
                            } else {
                                None
                            }
                        },
                    }
                }
            },
        }
    }
}

impl ExcalidrawPoint {
    /// The point whose JSON text is exactly `text`.
    pub fn from_json(text: &str) -> (r: Option<ExcalidrawPoint>)
        requires
            text@.len() <= usize::MAX,
        ensures
            r == read_point(text@),
    {
        let n = text.unicode_len();
        let open = "[\n            ";
        let sep = ",\n            ";
        let close = "\n        ]";
        proof {
            reveal_strlit("[\n            ");
            reveal_strlit(",\n            ");
            reveal_strlit("\n        ]");
            assert(open@.len() == 14);
            assert(sep@.len() == 14);
            assert(close@.len() == 10);
        }
        if !text_at(text, 0, open) {
            return None;
        }
        let (x, j) = match read_number(text, 14) {
            Some(r) => r,
            None => return None,
        };
        if !text_at(text, j, sep) {
            return None;
        }
        let (y, k) = match read_number(text, j + 14) {
            Some(r) => r,
            None => return None,
        };
        proof {
            let (vx, lx) = read_tenths(text@.skip(14)).unwrap();
            assert(vx == x as int && j == 14 + lx && fits_i64(vx));
            let (vy, ly) = read_tenths(text@.skip(j + 14)).unwrap();
            assert(vy == y as int && k == j + 14 + ly && fits_i64(vy));
        }
        if text_at(text, k, close) && n - k == 10 {
            Some(ExcalidrawPoint { x, y })
        } else {
            None
        }
    }
}

/// Reading back the text of a point gives the point, so writing it again
/// gives the same text.
pub proof fn lemma_point_round_trip(p: ExcalidrawPoint)
    ensures
        read_point(p.json()) == Some(p),
{
    let open = "[\n            "@;
    let sep = ",\n            "@;
    let close = "\n        ]"@;
    reveal_strlit("[\n            ");
    reveal_strlit(",\n            ");
    reveal_strlit("\n        ]");
    let tx = tenths_text(p.x as int);
    let ty = tenths_text(p.y as int);
    let s = p.json();
    assert(s == open + tx + sep + ty + close);
    assert(s.subrange(0, open.len() as int) =~= open);
    let rest1 = sep + ty + close;
    assert(s.skip(open.len() as int) =~= tx + rest1);
    assert(rest1[0] == ',');
    lemma_tenths_round_trip(p.x as int, rest1);
    let j: int = open.len() + tx.len() as int;
    assert(s.subrange(j, j + sep.len()) =~= sep);
    let rest2 = close;
    assert(s.skip(j + sep.len()) =~= ty + rest2);
    assert(rest2[0] == '\n');
    lemma_tenths_round_trip(p.y as int, rest2);
    let k: int = j + sep.len() + ty.len() as int;
    assert(s.subrange(k, k + close.len()) =~= close);
}

} // verus!
