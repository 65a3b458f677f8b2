//! Decimal cell arithmetic: parsing a cell's text as a plain decimal number,
//! rounding half away from zero at a given number of fractional digits, and
//! formatting with exactly that many digits.
//!
//! A cell is numeric when it matches `[+|-] digits [. digits]` with at least
//! one digit, its digits (as one integer) below 10^15 and at most 15 of them
//! after the point. Anything else is left untouched by the rounding
//! operations, including larger numbers: the tolerance policy for dirty data.
use vstd::prelude::*;
use vstd::string::*;
use vstd::arithmetic::div_mod::lemma_fundamental_div_mod;

verus! {

/// A parsed decimal: `(-1)^neg * num / 10^scale`.
#[derive(Clone, Copy, Debug, PartialEq, Eq, Structural)]
pub struct Dec {
    pub neg: bool,
    pub num: u64,
    pub scale: u32,
}

pub open spec fn pow10(n: nat) -> nat
    decreases n,
{
    if n == 0 {
        1
    } else {
        10 * pow10((n - 1) as nat)
    }
}

pub open spec fn is_digit_char(c: char) -> bool {
    48 <= c as u32 && c as u32 <= 57
}

pub open spec fn digit_val(c: char) -> int {
    c as u32 - 48
}

pub open spec fn digit_char(d: int) -> char {
    if d == 0 {
        '0'
    } else if d == 1 {
        '1'
    } else if d == 2 {
        '2'
    } else if d == 3 {
        '3'
    } else if d == 4 {
        '4'
    } else if d == 5 {
        '5'
    } else if d == 6 {
        '6'
    } else if d == 7 {
        '7'
    } else if d == 8 {
        '8'
    } else {
        '9'
    }
}

pub open spec fn all_digits(s: Seq<char>) -> bool {
    forall|i: int| 0 <= i < s.len() ==> is_digit_char(#[trigger] s[i])
}

/// The integer a digit string denotes, most significant digit first.
pub open spec fn digits_val(s: Seq<char>) -> int
    decreases s.len(),
{
    if s.len() == 0 {
        0
    } else {
        digits_val(s.drop_last()) * 10 + digit_val(s.last())
    }
}

/// The shortest digit string denoting `n` (a single "0" for zero).
pub open spec fn dec_digits(n: nat) -> Seq<char>
    decreases n,
{
    if n < 10 {
        seq![digit_char(n as int)]
    } else {
        dec_digits(n / 10).push(digit_char((n % 10) as int))
    }
}

pub open spec fn zeros(n: nat) -> Seq<char>
    decreases n,
{
    if n == 0 {
        Seq::<char>::empty()
    } else {
        zeros((n - 1) as nat).push('0')
    }
}

pub open spec fn pad_zeros(s: Seq<char>, w: nat) -> Seq<char> {
    if s.len() >= w {
        s
    } else {
        zeros((w - s.len()) as nat) + s
    }
}

/// `i` is the decimal point of `t`, with nothing but digits around it.
pub open spec fn dot_at(t: Seq<char>, i: int) -> bool {
    0 <= i < t.len() && t[i] == '.' && all_digits(t.take(i)) && all_digits(t.skip(i + 1))
}

/// The unsigned part of the grammar: (digits value, count of fractional digits).
pub open spec fn parse_unsigned(t: Seq<char>) -> Option<(int, nat)> {
    if t.len() >= 1 && all_digits(t) {
        Some((digits_val(t), 0 as nat))
    } else if t.len() >= 2 && (exists|i: int| dot_at(t, i)) {
        let i = choose|i: int| dot_at(t, i);
        Some((digits_val(t.take(i) + t.skip(i + 1)), (t.len() - i - 1) as nat))
    } else {
        None
    }
}

/// What a cell's text denotes as a decimal, or nothing when it is not numeric
/// under this library's grammar and bounds.
pub open spec fn spec_parse_dec(s: Seq<char>) -> Option<Dec> {
    let neg = s.len() > 0 && s[0] == '-';
    let t = if s.len() > 0 && (s[0] == '-' || s[0] == '+') {
        s.drop_first()
    } else {
        s
    };
    match parse_unsigned(t) {
        Some(p) => if p.0 < 1000000000000000 && p.1 <= 15 {
            Some(Dec { neg, num: p.0 as u64, scale: p.1 as u32 })
        } else {
            None
        },
        None => None,
    }
}

/// The magnitude scaled to `p` fractional digits, rounding half away from
/// zero: `round(num / 10^scale * 10^p)`.
pub open spec fn round_mag(num: nat, scale: nat, p: nat) -> nat {
    if scale <= p {
        num * pow10((p - scale) as nat)
    } else {
        (num + pow10((scale - p) as nat) / 2) / pow10((scale - p) as nat)
    }
}

/// The text of a magnitude `q` (scaled by 10^p) with exactly `p` fractional
/// digits, and a leading minus sign when `neg`.
pub open spec fn spec_fmt_fixed(neg: bool, q: nat, p: nat) -> Seq<char> {
    let sign: Seq<char> = if neg {
        seq!['-']
    } else {
        Seq::<char>::empty()
    };
    sign + dec_digits(q / pow10(p)) + seq!['.'] + pad_zeros(dec_digits(q % pow10(p)), p)
}

/// What a rounding operation leaves in a cell: the value rounded to `p`
/// fractional digits when the text is numeric, the text itself otherwise.
pub open spec fn round_cell(s: Seq<char>, p: nat) -> Seq<char> {
    match spec_parse_dec(s) {
        Some(d) => spec_fmt_fixed(d.neg, round_mag(d.num as nat, d.scale as nat, p), p),
        None => s,
    }
}

pub proof fn lemma_pow10_pos(n: nat)
    ensures
        pow10(n) >= 1,
    decreases n,
{
    if n > 0 {
        lemma_pow10_pos((n - 1) as nat);
    }
}

pub proof fn lemma_digits_val_nonneg(s: Seq<char>)
    requires
        all_digits(s),
    ensures
        digits_val(s) >= 0,
    decreases s.len(),
{
    if s.len() > 0 {
        assert(all_digits(s.drop_last()));
        lemma_digits_val_nonneg(s.drop_last());
        assert(is_digit_char(s.last()));
    }
}

pub proof fn lemma_pow10_mono(a: nat, b: nat)
    requires
        a <= b,
    ensures
        pow10(a) <= pow10(b),
    decreases b,
{
    if b > 0 && a < b {
        lemma_pow10_mono(a, (b - 1) as nat);
        lemma_pow10_pos((b - 1) as nat);
    }
}

pub proof fn lemma_digits_val_push(s: Seq<char>, c: char)
    ensures
        digits_val(s.push(c)) == digits_val(s) * 10 + digit_val(c),
{
    assert(s.push(c).drop_last() =~= s);
    assert(s.push(c).last() == c);
}

/// The exact power of ten, for exponents up to 19 (within `u64`).
pub fn pow10_u64(e: u32) -> (r: u64)
    requires
        e <= 19,
    ensures
        r == pow10(e as nat),
        r >= 1,
{
    proof {
        reveal_with_fuel(pow10, 21);
    }
    match e {
        0 => 1,
        1 => 10,
        2 => 100,
        3 => 1000,
        4 => 10000,
        5 => 100000,
        6 => 1000000,
        7 => 10000000,
        8 => 100000000,
        9 => 1000000000,
        10 => 10000000000,
        11 => 100000000000,
        12 => 1000000000000,
        13 => 10000000000000,
        14 => 100000000000000,
        15 => 1000000000000000,
        16 => 10000000000000000,
        17 => 100000000000000000,
        18 => 1000000000000000000,
        _ => 10000000000000000000,
    }
}

fn digit_str(d: u64) -> (r: &'static str)
    requires
        d < 10,
    ensures
        r@ == seq![digit_char(d as int)],
{
    proof {
        reveal_strlit("0");
        reveal_strlit("1");
        reveal_strlit("2");
        reveal_strlit("3");
        reveal_strlit("4");
        reveal_strlit("5");
        reveal_strlit("6");
        reveal_strlit("7");
        reveal_strlit("8");
        reveal_strlit("9");
    }
    if d == 0 {
        proof {
            assert("0"@ =~= seq![digit_char(0)]);
        }
        "0"
    } else if d == 1 {
        proof {
            assert("1"@ =~= seq![digit_char(1)]);
        }
        "1"
    } else if d == 2 {
        proof {
            assert("2"@ =~= seq![digit_char(2)]);
        }
        "2"
    } else if d == 3 {
        proof {
            assert("3"@ =~= seq![digit_char(3)]);
        }
        "3"
    } else if d == 4 {
        proof {
            assert("4"@ =~= seq![digit_char(4)]);
        }
        "4"
    } else if d == 5 {
        proof {
            assert("5"@ =~= seq![digit_char(5)]);
        }
        "5"
    } else if d == 6 {
        proof {
            assert("6"@ =~= seq![digit_char(6)]);
        }
        "6"
    } else if d == 7 {
        proof {
            assert("7"@ =~= seq![digit_char(7)]);
        }
        "7"
    } else if d == 8 {
        proof {
            assert("8"@ =~= seq![digit_char(8)]);
        }
        "8"
    } else {
        proof {
            assert("9"@ =~= seq![digit_char(9)]);
        }
        "9"
    }
}

/// The digit characters of `rev` read back to front.
pub open spec fn digits_of_rev(rev: Seq<u64>) -> Seq<char> {
    Seq::new(rev.len(), |i: int| digit_char(rev[rev.len() - 1 - i] as int))
}

/// Renders `n` in decimal, most significant digit first, no sign, no padding.
pub fn u64_to_digits(n: u64) -> (r: String)
    ensures
        r@ == dec_digits(n as nat),
{
    let mut rev: Vec<u64> = Vec::new();
    let mut m: u64 = n;
    proof {
        assert(digits_of_rev(Seq::<u64>::empty()) =~= Seq::<char>::empty());
        assert(dec_digits(n as nat) + Seq::<char>::empty() =~= dec_digits(n as nat));
    }
    loop
        invariant
            forall|i: int| 0 <= i < rev@.len() ==> #[trigger] rev@[i] < 10,
            m == 0 && rev@.len() == 0 ==> n == 0,
            m > 0 ==> dec_digits(n as nat) == dec_digits(m as nat) + digits_of_rev(rev@),
            m == 0 && rev@.len() > 0 ==> dec_digits(n as nat) == digits_of_rev(rev@),
        ensures
            rev@.len() > 0,
            dec_digits(n as nat) == digits_of_rev(rev@),
            forall|i: int| 0 <= i < rev@.len() ==> #[trigger] rev@[i] < 10,
        decreases m + (if rev@.len() == 0 { 1int } else { 0int }),
    {
        if m == 0 && rev.len() > 0 {
            break ;
        }
        if m == 0 {
            // n == 0: emit the single zero digit
            rev.push(0);
            proof {
                assert(dec_digits(0) =~= seq![digit_char(0)]);
                assert(digits_of_rev(rev@) =~= seq![digit_char(0)]);
            }
        } else {
            let ghost m0 = m as nat;
            let ghost rev0 = rev@;
            let d = m % 10;
            rev.push(d);
            m = m / 10;
            proof {
                assert(digits_of_rev(rev0.push(d)) =~= seq![digit_char(d as int)] + digits_of_rev(
                    rev0,
                ));
                if m0 >= 10 {
                    assert(dec_digits(m0) == dec_digits(m0 / 10).push(digit_char((m0 % 10) as int)));
                    assert(dec_digits(m0 / 10).push(digit_char(d as int)) + digits_of_rev(rev0)
                        =~= dec_digits(m0 / 10) + (seq![digit_char(d as int)] + digits_of_rev(
                        rev0,
                    )));
                    assert(m as nat == m0 / 10);
                } else {
                    assert(dec_digits(m0) =~= seq![digit_char(d as int)]);
                    assert(m == 0);
                    assert(dec_digits(n as nat) =~= dec_digits(m0) + digits_of_rev(rev0));
                    assert(dec_digits(n as nat) =~= digits_of_rev(rev0.push(d)));
                }
            }
        }
    }
    let mut out = String::new();
    let ghost target = digits_of_rev(rev@);
    let mut j: usize = rev.len();
    while j > 0
        invariant
            j <= rev@.len(),
            forall|i: int| 0 <= i < rev@.len() ==> #[trigger] rev@[i] < 10,
            target == digits_of_rev(rev@),
            out@ =~= target.take(rev@.len() - j),
        decreases j,
    {
        j = j - 1;
        let ghost k = rev@.len() - j - 1;
        out.append(digit_str(rev[j]));
        proof {
            assert(target[k] == digit_char(rev@[rev@.len() - 1 - k] as int));
            assert(rev@.len() - 1 - k == j);
            assert(out@ =~= target.take(k + 1));
        }
    }
    proof {
        assert(out@ =~= target);
    }
    out
}

/// Renders a scaled magnitude with exactly `p` fractional digits.
pub fn format_fixed(neg: bool, q: u64, p: u32) -> (r: String)
    requires
        p <= 4,
    ensures
        r@ == spec_fmt_fixed(neg, q as nat, p as nat),
{
    let pw = pow10_u64(p);
    let ip = q / pw;
    let fp = q % pw;
    proof {
        assert(ip as nat == q as nat / pow10(p as nat));
        assert(fp as nat == q as nat % pow10(p as nat));
    }
    let mut out = String::new();
    if neg {
        out.append("-");
        proof {
            reveal_strlit("-");
            assert("-"@ =~= seq!['-']);
        }
    }
    let ghost sign: Seq<char> = if neg {
        seq!['-']
    } else {
        Seq::<char>::empty()
    };
    proof {
        assert(out@ =~= sign);
    }
    let ipd = u64_to_digits(ip);
    out.append(ipd.as_str());
    out.append(".");
    proof {
        reveal_strlit(".");
        assert("."@ =~= seq!['.']);
        assert(out@ =~= sign + dec_digits(ip as nat) + seq!['.']);
    }
    let fpd = u64_to_digits(fp);
    let fl = fpd.as_str().unicode_len();
    let mut k: usize = fl;
    proof {
        reveal_strlit("0");
        assert("0"@ =~= seq!['0']);
        assert(zeros(0) =~= Seq::<char>::empty());
        assert(out@ =~= sign + dec_digits(ip as nat) + seq!['.'] + zeros(0));
    }
    while k < p as usize
        invariant
            fl <= k,
            k <= p as usize || k == fl,
            fl == dec_digits(fp as nat).len(),
            fpd@ == dec_digits(fp as nat),
            out@ =~= sign + dec_digits(ip as nat) + seq!['.'] + zeros((k - fl) as nat),
            "0"@ =~= seq!['0'],
        decreases (p as usize) - k,
    {
        out.append("0");
        k = k + 1;
        proof {
            assert(zeros((k - fl) as nat) == zeros((k - 1 - fl) as nat).push('0'));
            assert(out@ =~= sign + dec_digits(ip as nat) + seq!['.'] + zeros((k - fl) as nat));
        }
    }
    out.append(fpd.as_str());
    proof {
        if fl >= p as usize {
            assert(k == fl);
            assert(pad_zeros(dec_digits(fp as nat), p as nat) == dec_digits(fp as nat));
            assert(out@ =~= sign + dec_digits(ip as nat) + seq!['.'] + dec_digits(fp as nat));
        } else {
            assert(k == p as usize);
            assert(pad_zeros(dec_digits(fp as nat), p as nat) == zeros((p - fl) as nat)
                + dec_digits(fp as nat));
            assert(out@ =~= sign + dec_digits(ip as nat) + seq!['.'] + (zeros((p - fl) as nat)
                + dec_digits(fp as nat)));
        }
        assert(out@ =~= spec_fmt_fixed(neg, q as nat, p as nat));
    }
    out
}

pub proof fn lemma_zeros(n: nat)
    ensures
        zeros(n).len() == n,
        all_digits(zeros(n)),
        digits_val(zeros(n)) == 0,
    decreases n,
{
    if n > 0 {
        lemma_zeros((n - 1) as nat);
        lemma_digits_val_push(zeros((n - 1) as nat), '0');
    }
}

pub proof fn lemma_dec_digits_props(n: nat)
    ensures
        dec_digits(n).len() >= 1,
        all_digits(dec_digits(n)),
        digits_val(dec_digits(n)) == n,
    decreases n,
{
    if n < 10 {
        assert(dec_digits(n) == seq![digit_char(n as int)]);
        assert(is_digit_char(digit_char(n as int)));
        assert(digits_val(seq![digit_char(n as int)]) == digit_val(digit_char(n as int))) by {
            let s1 = seq![digit_char(n as int)];
            assert(s1.len() == 1);
            assert(s1.drop_last() =~= Seq::<char>::empty());
            assert(digits_val(Seq::<char>::empty()) == 0);
            assert(s1.last() == digit_char(n as int));
            assert(digits_val(s1) == digits_val(s1.drop_last()) * 10 + digit_val(s1.last()));
        }
        assert(digit_val(digit_char(n as int)) == n);
    } else {
        lemma_dec_digits_props(n / 10);
        lemma_digits_val_push(dec_digits(n / 10), digit_char((n % 10) as int));
        assert(is_digit_char(digit_char((n % 10) as int)));
        assert(digit_val(digit_char((n % 10) as int)) == n % 10);
        lemma_fundamental_div_mod(n as int, 10);
    }
}

pub proof fn lemma_dec_digits_len_le(n: nat, k: nat)
    requires
        n < pow10(k),
        k >= 1,
    ensures
        dec_digits(n).len() <= k,
    decreases k,
{
    if n < 10 {
    } else {
        assert(pow10(k) == 10 * pow10((k - 1) as nat));
        lemma_fundamental_div_mod(n as int, 10);
        assert(n / 10 < pow10((k - 1) as nat));
        if k - 1 == 0 {
            lemma_pow10_pos(0);
            assert(false);
        }
        lemma_dec_digits_len_le(n / 10, (k - 1) as nat);
    }
}

pub proof fn lemma_digits_val_concat(a: Seq<char>, b: Seq<char>)
    ensures
        digits_val(a + b) == digits_val(a) * pow10(b.len()) + digits_val(b),
    decreases b.len(),
{
    if b.len() == 0 {
        assert(a + b =~= a);
        assert(pow10(0) == 1);
    } else {
        let b0 = b.drop_last();
        let c = b.last();
        lemma_digits_val_concat(a, b0);
        assert(a + b =~= (a + b0).push(c));
        lemma_digits_val_push(a + b0, c);
        lemma_digits_val_push(b0, c);
        assert(b0.push(c) =~= b);
        assert(pow10(b.len()) == 10 * pow10(b0.len()));
        assert((digits_val(a) * pow10(b0.len()) + digits_val(b0)) * 10 + digit_val(c) == digits_val(
            a,
        ) * (10 * pow10(b0.len())) + (digits_val(b0) * 10 + digit_val(c))) by (nonlinear_arith);
    }
}

/// Parsing what `spec_fmt_fixed` rendered gives back exactly the rounded
/// magnitude, scale and sign — or nothing, when the magnitude is past the
/// numeric bound, so that rounding leaves such a cell alone thereafter.
#[verifier::rlimit(100)]
pub proof fn lemma_parse_of_fmt(neg: bool, q: nat, p: nat)
    requires
        1 <= p <= 15,
    ensures
        spec_parse_dec(spec_fmt_fixed(neg, q, p)) == (if q < 1000000000000000 {
            Some(Dec { neg, num: q as u64, scale: p as u32 })
        } else {
            Option::<Dec>::None
        }),
{
    let w = spec_fmt_fixed(neg, q, p);
    lemma_pow10_pos(p);
    let ip = q / pow10(p);
    let fp = q % pow10(p);
    let a = dec_digits(ip);
    let dfp = dec_digits(fp);
    let b = pad_zeros(dfp, p);
    lemma_dec_digits_props(ip);
    lemma_dec_digits_props(fp);
    lemma_dec_digits_len_le(fp, p);
    // b holds exactly p digits denoting fp
    assert(b.len() == p && all_digits(b) && digits_val(b) == fp) by {
        if dfp.len() >= p {
            assert(b == dfp);
        } else {
            let z = zeros((p - dfp.len()) as nat);
            lemma_zeros((p - dfp.len()) as nat);
            assert(b == z + dfp);
            assert forall|i: int| 0 <= i < b.len() implies is_digit_char(#[trigger] b[i]) by {
                if i < z.len() {
                    assert(b[i] == z[i]);
                } else {
                    assert(b[i] == dfp[i - z.len()]);
                }
            }
            lemma_digits_val_concat(z, dfp);
            assert(digits_val(z) * pow10(dfp.len()) == 0) by (nonlinear_arith)
                requires
                    digits_val(z) == 0,
            ;
        }
    }
    let u = a + seq!['.'] + b;
    let sign: Seq<char> = if neg {
        seq!['-']
    } else {
        Seq::<char>::empty()
    };
    assert(w == sign + a + seq!['.'] + b);
    // the sign strips back off
    let t = if w.len() > 0 && (w[0] == '-' || w[0] == '+') {
        w.drop_first()
    } else {
        w
    };
    if neg {
        assert(w[0] == '-');
        assert(t =~= u);
    } else {
        assert(w[0] == a[0]);
        assert(is_digit_char(a[0]));
        assert(w[0] != '-' && w[0] != '+');
        assert(t =~= u);
    }
    // the dot sits right after the integer digits, and nowhere else
    let dd0 = a.len() as int;
    assert(u.len() == a.len() + 1 + b.len());
    assert(u[dd0] == '.') by {
        assert((a + seq!['.'])[dd0] == '.');
    }
    assert(u.take(dd0) =~= a);
    assert(u.skip(dd0 + 1) =~= b);
    assert(dot_at(u, dd0));
    assert(!all_digits(u)) by {
        assert(!is_digit_char(u[dd0]));
    }
    assert(u.len() >= 2);
    assert(exists|ii: int| dot_at(u, ii));
    let dd = choose|ii: int| dot_at(u, ii);
    assert(dot_at(u, dd));
    if dd < dd0 {
        assert(u[dd] == a[dd]);
        assert(is_digit_char(u[dd]));
        assert(false);
    }
    if dd > dd0 {
        assert(u.take(dd)[dd0] == u[dd0]);
        assert(is_digit_char(u[dd0]));
        assert(false);
    }
    assert(dd == dd0);
    // the digits denote q again
    assert(u.take(dd) + u.skip(dd + 1) =~= a + b);
    lemma_digits_val_concat(a, b);
    lemma_fundamental_div_mod(q as int, pow10(p) as int);
    assert(digits_val(a + b) == ip * pow10(p) + fp);
    assert(ip * pow10(p) == pow10(p) * ip) by (nonlinear_arith);
    assert(digits_val(a + b) == q);
    assert(u.len() - dd - 1 == p);
    assert(parse_unsigned(t) == Some((q as int, p)));
    assert(w.len() > 0 && (w[0] == '-') == neg);
}

/// Rounding a cell to `p` digits twice is the same as rounding it once: a
/// value already rounded parses back to itself, and a rounded value too
/// large to parse again is simply left alone.
pub proof fn lemma_round_cell_idem(s: Seq<char>, p: nat)
    requires
        1 <= p <= 15,
    ensures
        round_cell(round_cell(s, p), p) == round_cell(s, p),
{
    match spec_parse_dec(s) {
        Some(d) => {
            let q = round_mag(d.num as nat, d.scale as nat, p);
            let out = spec_fmt_fixed(d.neg, q, p);
            lemma_parse_of_fmt(d.neg, q, p);
            if q < 1000000000000000 {
                assert(round_mag(q, p, p) == q * pow10(0));
                assert(q * pow10(0) == q) by (nonlinear_arith)
                    requires
                        pow10(0) == 1,
                ;
            }
            assert(round_cell(out, p) == out);
        },
        None => {},
    }
}

/// The digits scanned so far: everything before the dot and the digits after
/// it, up to position `jr`.
pub open spec fn scan_d(t: Seq<char>, jr: int, has_dot: bool, dr: int) -> Seq<char> {
    if has_dot {
        t.take(dr) + t.subrange(dr + 1, jr)
    } else {
        t.take(jr)
    }
}

/// A numeric cell parses to a magnitude below 10^15 at a scale of at most 15.
pub proof fn lemma_parse_wf(s: Seq<char>)
    ensures
        (match spec_parse_dec(s) {
            Some(d) => d.num < 1000000000000000 && d.scale <= 15,
            None => true,
        }),
{
    let t = if s.len() > 0 && (s[0] == '-' || s[0] == '+') {
        s.drop_first()
    } else {
        s
    };
    match parse_unsigned(t) {
        Some(p) => {
            if t.len() >= 1 && all_digits(t) {
                lemma_digits_val_nonneg(t);
            } else {
                let i = choose|ii: int| dot_at(t, ii);
                assert(dot_at(t, i));
                let dcat = t.take(i) + t.skip(i + 1);
                assert forall|ii: int| 0 <= ii < dcat.len() implies is_digit_char(
                    #[trigger] dcat[ii],
                ) by {
                    if ii < i {
                        assert(dcat[ii] == t.take(i)[ii]);
                    } else {
                        assert(dcat[ii] == t.skip(i + 1)[ii - i]);
                    }
                }
                lemma_digits_val_nonneg(dcat);
            }
        },
        None => {},
    }
}

/// Parses a cell's text under the library's decimal grammar.
#[verifier::rlimit(50)]
pub fn parse_dec(s: &str) -> (r: Option<Dec>)
    ensures
        r == spec_parse_dec(s@),
{
    let n = s.unicode_len();
    let ghost sv = s@;
    let mut start: usize = 0;
    let mut neg = false;
    if n > 0 {
        let c0 = s.get_char(0);
        if c0 == '-' {
            neg = true;
            start = 1;
        } else if c0 == '+' {
            start = 1;
        }
    }
    let ghost t: Seq<char> = if sv.len() > 0 && (sv[0] == '-' || sv[0] == '+') {
        sv.drop_first()
    } else {
        sv
    };
    proof {
        assert(t.len() == sv.len() - start);
        assert forall|i: int| 0 <= i < t.len() implies #[trigger] t[i] == sv[i + start as int] by {
            if start == 1 {
                assert(t[i] == sv.drop_first()[i]);
                assert(sv.drop_first()[i] == sv[i + 1]);
            }
        }
    }
    let mut j: usize = start;
    let mut num: u64 = 0;
    let mut seen_digit = false;
    let mut has_dot = false;
    let mut dot: usize = 0;
    let mut frac: usize = 0;
    while j < n
        invariant
            start <= j <= n,
            start <= 1,
            sv == s@,
            n == sv.len(),
            t.len() == sv.len() - start,
            forall|i: int| 0 <= i < t.len() ==> #[trigger] t[i] == sv[i + start as int],
            t == (if sv.len() > 0 && (sv[0] == '-' || sv[0] == '+') {
                sv.drop_first()
            } else {
                sv
            }),
            neg == (sv.len() > 0 && sv[0] == '-'),
            (start == 1) == (sv.len() > 0 && (sv[0] == '-' || sv[0] == '+')),
            has_dot ==> start <= dot < j && t[dot as int - start as int] == '.',
            has_dot ==> all_digits(t.take(dot as int - start as int)) && all_digits(
                t.subrange(dot as int - start as int + 1, j as int - start as int),
            ),
            has_dot ==> frac == j - dot - 1 && frac <= 15,
            !has_dot ==> all_digits(t.take(j as int - start as int)) && frac == 0,
            seen_digit == (scan_d(t, j as int - start as int, has_dot, dot as int - start as int).len() > 0),
            all_digits(scan_d(t, j as int - start as int, has_dot, dot as int - start as int)),
            digits_val(scan_d(t, j as int - start as int, has_dot, dot as int - start as int)) >= 0,
            num < 1000000000000000 ==> num == digits_val(
                scan_d(t, j as int - start as int, has_dot, dot as int - start as int),
            ),
            num >= 1000000000000000 ==> digits_val(
                scan_d(t, j as int - start as int, has_dot, dot as int - start as int),
            ) >= 1000000000000000,
        decreases n - j,
    {
        let ghost jr = j as int - start as int;
        let ghost dr = dot as int - start as int;
        let ghost d0 = scan_d(t, jr, has_dot, dr);
        let c = s.get_char(j);
        proof {
            assert(t[jr] == sv[j as int]);
        }
        let u = c as u32;
        if 48 <= u && u <= 57 {
            let dg = (u - 48) as u64;
            proof {
                assert(is_digit_char(c));
                assert(digit_val(c) == dg as int);
                if has_dot {
                    assert(t.take(dr) + t.subrange(dr + 1, jr + 1) =~= d0.push(c));
                } else {
                    assert(t.take(jr + 1) =~= d0.push(c));
                }
                lemma_digits_val_push(d0, c);
                lemma_digits_val_nonneg(d0);
            }
            if has_dot {
                if frac == 15 {
                    proof {
                        assert(!is_digit_char('.'));
                        assert(t[dr] == '.');
                        if t.len() >= 1 && all_digits(t) {
                            assert(is_digit_char(t[dr]));
                            assert(false);
                        }
                        if t.len() >= 2 && (exists|ii: int| dot_at(t, ii)) {
                            let dd = choose|ii: int| dot_at(t, ii);
                            assert(dot_at(t, dd));
                            if dd < dr {
                                assert(t.take(dr)[dd] == t[dd]);
                                assert(is_digit_char(t[dd]));
                                assert(false);
                            }
                            if dd > dr {
                                assert(t.take(dd)[dr] == t[dr]);
                                assert(is_digit_char(t[dr]));
                                assert(false);
                            }
                            assert(dd == dr);
                            assert(t.len() > jr);
                            assert(t.len() - dd - 1 >= 16);
                        }
                        assert(spec_parse_dec(sv) == Option::<Dec>::None);
                    }
                    return None;
                }
                frac = frac + 1;
            }
            if num < 1000000000000000 {
                num = num * 10 + dg;
            }
            seen_digit = true;
        } else if c == '.' {
            if has_dot {
                proof {
                    assert(!is_digit_char('.'));
                    assert(t[dr] == '.');
                    assert(t[jr] == '.');
                    if t.len() >= 1 && all_digits(t) {
                        assert(is_digit_char(t[dr]));
                        assert(false);
                    }
                    assert forall|ii: int| !dot_at(t, ii) by {
                        if dot_at(t, ii) {
                            if ii == dr {
                                assert(t.skip(dr + 1)[jr - dr - 1] == t[jr]);
                                assert(is_digit_char(t[jr]));
                            } else if ii == jr {
                                assert(t.take(jr)[dr] == t[dr]);
                                assert(is_digit_char(t[dr]));
                            } else if ii < dr {
                                assert(t.take(dr)[ii] == t[ii]);
                                assert(is_digit_char(t[ii]));
                            } else if dr < ii && ii < jr {
                                assert(t.subrange(dr + 1, jr)[ii - dr - 1] == t[ii]);
                                assert(is_digit_char(t[ii]));
                            } else {
                                assert(ii > jr);
                                assert(t.take(ii)[dr] == t[dr]);
                                assert(is_digit_char(t[dr]));
                            }
                            assert(false);
                        }
                    }
                    assert(spec_parse_dec(sv) == Option::<Dec>::None);
                }
                return None;
            }
            has_dot = true;
            dot = j;
            frac = 0;
            proof {
                assert(t.take(jr) + t.subrange(jr + 1, jr + 1) =~= t.take(jr));
            }
        } else {
            proof {
                if t.len() >= 1 && all_digits(t) {
                    assert(is_digit_char(t[jr]));
                    assert(false);
                }
                assert forall|ii: int| !dot_at(t, ii) by {
                    if dot_at(t, ii) {
                        if ii == jr {
                            assert(t[jr] == '.');
                        } else if jr < ii {
                            assert(t.take(ii)[jr] == t[jr]);
                            assert(is_digit_char(t[jr]));
                        } else {
                            assert(t.skip(ii + 1)[jr - ii - 1] == t[jr]);
                            assert(is_digit_char(t[jr]));
                        }
                        assert(false);
                    }
                }
                assert(spec_parse_dec(sv) == Option::<Dec>::None);
            }
            return None;
        }
        j = j + 1;
    }
    let ghost jr = n as int - start as int;
    let ghost dr = dot as int - start as int;
    let ghost dd0 = scan_d(t, jr, has_dot, dr);
    proof {
        assert(jr == t.len());
    }
    if !seen_digit {
        proof {
            assert(dd0.len() == 0);
            if has_dot {
                assert(t.len() == 1);
                assert(t[dr] == '.');
                assert(!is_digit_char('.'));
                if t.len() >= 1 && all_digits(t) {
                    assert(is_digit_char(t[dr]));
                    assert(false);
                }
            } else {
                assert(t.take(jr) =~= t);
                assert(t.len() == 0);
            }
            assert(spec_parse_dec(sv) == Option::<Dec>::None);
        }
        return None;
    }
    proof {
        if has_dot {
            assert(t.subrange(dr + 1, jr) =~= t.skip(dr + 1));
            assert(dot_at(t, dr));
            assert(dd0.len() >= 1);
            assert(t.len() >= 2);
            assert(!is_digit_char('.'));
            if all_digits(t) {
                assert(is_digit_char(t[dr]));
                assert(false);
            }
            assert(exists|ii: int| dot_at(t, ii));
            let dd = choose|ii: int| dot_at(t, ii);
            assert(dot_at(t, dd));
            if dd < dr {
                assert(t.take(dr)[dd] == t[dd]);
                assert(is_digit_char(t[dd]));
                assert(false);
            }
            if dd > dr {
                assert(t.take(dd)[dr] == t[dr]);
                assert(is_digit_char(t[dr]));
                assert(false);
            }
            assert(dd == dr);
            assert(t.take(dd) + t.skip(dd + 1) =~= dd0);
            assert(parse_unsigned(t) == Some((digits_val(dd0), (t.len() - dr - 1) as nat)));
            assert(t.len() - dr - 1 == frac);
        } else {
            assert(t.take(jr) =~= t);
            assert(t.len() >= 1);
            assert(parse_unsigned(t) == Some((digits_val(dd0), 0 as nat)));
            assert(frac == 0);
        }
    }
    if num >= 1000000000000000 {
        proof {
            assert(digits_val(dd0) >= 1000000000000000);
            assert(spec_parse_dec(sv) == Option::<Dec>::None);
        }
        return None;
    }
    proof {
        assert(num == digits_val(dd0));
        assert(frac <= 15);
        assert(spec_parse_dec(sv) == Some(Dec { neg, num, scale: frac as u32 }));
    }
    Some(Dec { neg, num, scale: frac as u32 })
}

/// The rounded magnitude of a parsed decimal, within `u64`.
pub fn round_dec(d: Dec, p: u32) -> (q: u64)
    requires
        d.num < 1000000000000000,
        d.scale <= 15,
        1 <= p <= 4,
    ensures
        q == round_mag(d.num as nat, d.scale as nat, p as nat),
{
    if d.scale <= p {
        let pw = pow10_u64(p - d.scale);
        proof {
            reveal_with_fuel(pow10, 21);
            lemma_pow10_mono(((p - d.scale) as u32) as nat, 4);
            assert(pow10(4) == 10000);
            assert(d.num * pw < 10000000000000000000) by (nonlinear_arith)
                requires
                    d.num < 1000000000000000,
                    pw <= 10000,
                    pw >= 0,
            ;
        }
        d.num * pw
    } else {
        let pw = pow10_u64(d.scale - p);
        proof {
            reveal_with_fuel(pow10, 21);
            lemma_pow10_mono(((d.scale - p) as u32) as nat, 14);
            assert(pow10(14) == 100000000000000);
        }
        (d.num + pw / 2) / pw
    }
}

/// Rounds a numeric cell text to `p` fractional digits; `None` when the text
/// is not numeric, in which case the cell is to be left untouched.
pub fn round_cell_str(s: &str, p: u32) -> (r: Option<String>)
    requires
        1 <= p <= 4,
    ensures
        (match r {
            Some(v) => spec_parse_dec(s@) != Option::<Dec>::None && v@ == round_cell(s@, p as nat),
            None => spec_parse_dec(s@) == Option::<Dec>::None,
        }),
{
    match parse_dec(s) {
        Some(d) => {
            proof {
                lemma_parse_wf(s@);
            }
            let q = round_dec(d, p);
            Some(format_fixed(d.neg, q, p))
        },
        None => None,
    }
}

} // verus!
