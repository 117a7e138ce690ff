//! Rendering a closing price as the value text of a ledger price directive.
//!
//! A price is handed in as a decimal number: an integer mantissa together
//! with a scale, standing for `mantissa / 10^scale`. Rendering produces the
//! digit text with either the price's own number of fractional digits or a
//! requested fixed count (half-up rounding), substitutes a custom decimal
//! separator for the point, and places the commodity and currency names
//! around the amount.

use crate::bytes::{copy_bytes, push_all};
use vstd::prelude::*;

verus! {

/// The decimal point `.`
pub const DOT: u8 = 46;

/// The space character.
pub const SPACE: u8 = 32;

/// The digit character `0`.
pub const D0: u8 = 48;

pub open spec fn is_digit(b: u8) -> bool {
    48 <= b <= 57
}

pub open spec fn all_digits(s: Seq<u8>) -> bool {
    forall|i: int| 0 <= i < s.len() ==> is_digit(s[i])
}

/// A digit string as an integer would be written: non-empty, and without a
/// leading zero unless it is the single digit `0`.
pub open spec fn canonical_digits(s: Seq<u8>) -> bool {
    s.len() > 0 && all_digits(s) && (s.len() > 1 ==> s[0] != D0)
}

/// The number a digit string denotes.
pub open spec fn digits_value(s: Seq<u8>) -> nat
    decreases s.len(),
{
    if s.len() == 0 {
        0
    } else {
        digits_value(s.drop_last()) * 10 + (s.last() - D0) as nat
    }
}

pub open spec fn pow10(n: nat) -> nat
    decreases n,
{
    if n == 0 {
        1
    } else {
        10 * pow10((n - 1) as nat)
    }
}

/// `k` copies of the digit `0`.
pub open spec fn zero_digits(k: nat) -> Seq<u8> {
    Seq::new(k, |i: int| D0)
}

/// Half-up rounding of `m / 10^scale` to `d` fractional digits, given as an
/// integer scaled by `10^d`.
pub open spec fn rounded(m: nat, scale: nat, d: nat) -> nat {
    if d >= scale {
        m * pow10((d - scale) as nat)
    } else {
        let div = pow10((scale - d) as nat);
        m / div + if 2 * (m % div) >= div {
            1nat
        } else {
            0nat
        }
    }
}

/// `r` is the text of the number `v * 10^(-f)` written with exactly `f`
/// digits after the decimal point, or as a plain integer when `f == 0`.
pub open spec fn fixed_repr(r: Seq<u8>, v: nat, f: nat) -> bool {
    if f == 0 {
        canonical_digits(r) && digits_value(r) == v
    } else {
        let ip = r.take(r.len() - f - 1);
        let fp = r.skip(r.len() - f);
        r.len() > f + 1 && r[r.len() - f - 1] == DOT && canonical_digits(ip) && all_digits(fp)
            && digits_value(ip + fp) == v
    }
}

/// `r` is the digit text of the price `m / 10^scale` after applying the
/// requested fractional digit count, if any.
pub open spec fn price_repr(r: Seq<u8>, m: nat, scale: nat, digits: Option<usize>) -> bool {
    match digits {
        None => fixed_repr(r, m, scale),
        Some(d) => fixed_repr(r, rounded(m, scale, d as nat), d as nat),
    }
}

pub proof fn lemma_pow10_pos(n: nat)
    ensures
        pow10(n) >= 1,
    decreases n,
{
    if n > 0 {
        lemma_pow10_pos((n - 1) as nat);
    }
}

pub proof fn lemma_pow10_mono(a: nat, b: nat)
    requires
        a <= b,
    ensures
        pow10(a) <= pow10(b),
    decreases b,
{
    if a < b {
        lemma_pow10_mono(a, (b - 1) as nat);
        lemma_pow10_pos((b - 1) as nat);
    }
}

/// Prepending a digit adds its value at the top position.
pub proof fn lemma_dv_prepend(d: u8, s: Seq<u8>)
    requires
        is_digit(d),
    ensures
        digits_value(seq![d] + s) == (d - D0) * pow10(s.len() as nat) + digits_value(s),
    decreases s.len(),
{
    if s.len() == 0 {
        assert(seq![d] + s =~= seq![d]);
        assert(seq![d].drop_last() =~= Seq::<u8>::empty());
        assert(digits_value(Seq::<u8>::empty()) == 0);
        assert(seq![d].last() == d);
        assert(digits_value(seq![d]) == (d - D0) as nat);
        assert(pow10(0) == 1);
        assert((d - D0) * pow10(s.len() as nat) == (d - D0)) by (nonlinear_arith)
            requires
                pow10(s.len() as nat) == 1,
        ;
    } else {
        let s0 = s.drop_last();
        lemma_dv_prepend(d, s0);
        assert((seq![d] + s).drop_last() =~= seq![d] + s0);
        assert((seq![d] + s).last() == s.last());
        assert(digits_value(seq![d] + s) == ((d - D0) * pow10(s0.len() as nat) + digits_value(s0))
            * 10 + (s.last() - D0) as nat);
        assert((d - D0) * pow10(s0.len() as nat) * 10 == (d - D0) * pow10(s.len() as nat)) by {
            assert(pow10(s.len() as nat) == 10 * pow10(s0.len() as nat));
            assert((d - D0) * pow10(s0.len() as nat) * 10 == (d - D0) * (pow10(
                s0.len() as nat,
            ) * 10)) by (nonlinear_arith);
        }
        assert(((d - D0) * pow10(s0.len() as nat) + digits_value(s0)) * 10 == (d - D0) * pow10(
            s0.len() as nat,
        ) * 10 + digits_value(s0) * 10) by (nonlinear_arith);
    }
}

/// Leading zeros do not change a digit string's value.
pub proof fn lemma_dv_zeros_prepend(k: nat, s: Seq<u8>)
    ensures
        digits_value(zero_digits(k) + s) == digits_value(s),
    decreases k,
{
    if k == 0 {
        assert(zero_digits(0) + s =~= s);
    } else {
        lemma_dv_zeros_prepend((k - 1) as nat, s);
        assert(zero_digits(k) + s =~= seq![D0] + (zero_digits((k - 1) as nat) + s));
        lemma_dv_prepend(D0, zero_digits((k - 1) as nat) + s);
    }
}

/// Appending `k` zeros multiplies a digit string's value by `10^k`.
pub proof fn lemma_dv_append_zeros(s: Seq<u8>, k: nat)
    ensures
        digits_value(s + zero_digits(k)) == digits_value(s) * pow10(k),
    decreases k,
{
    if k == 0 {
        assert(s + zero_digits(0) =~= s);
        assert(pow10(0) == 1);
    } else {
        lemma_dv_append_zeros(s, (k - 1) as nat);
        let t = s + zero_digits(k);
        assert(t.drop_last() =~= s + zero_digits((k - 1) as nat));
        assert(t.last() == D0);
        assert(digits_value(t) == digits_value(s) * pow10((k - 1) as nat) * 10);
        assert(digits_value(s) * pow10((k - 1) as nat) * 10 == digits_value(s) * (pow10(
            (k - 1) as nat,
        ) * 10)) by (nonlinear_arith);
        assert(pow10(k) == 10 * pow10((k - 1) as nat));
    }
}

/// The decimal digit characters of `n`, most significant first.
pub fn digits_of(n: u64) -> (r: Vec<u8>)
    ensures
        canonical_digits(r@),
        digits_value(r@) == n as nat,
{
    let mut r: Vec<u8> = Vec::new();
    if n == 0 {
        r.push(D0);
        proof {
            assert(r@ =~= seq![D0]);
            assert(r@.drop_last() =~= Seq::<u8>::empty());
            assert(digits_value(Seq::<u8>::empty()) == 0);
            assert(r@.last() == D0);
        }
        return r;
    }
    proof {
        assert(pow10(0) == 1);
        assert(digits_value(r@) == 0);
    }
    let mut x: u64 = n;
    while x > 0
        invariant
            n as nat == x as nat * pow10(r@.len() as nat) + digits_value(r@),
            all_digits(r@),
            x == 0 ==> r@.len() > 0 && r@[0] != D0,
            x > 0 || r@.len() > 0,
        decreases x,
    {
        let ghost r0 = r@;
        let ghost x0 = x;
        let d: u8 = (x % 10) as u8 + D0;
        r.insert(0, d);
        x = x / 10;
        proof {
            assert(r@ =~= seq![d] + r0);
            lemma_dv_prepend(d, r0);
            let p0 = pow10(r0.len() as nat);
            let dd = (d - D0) as nat;
            assert(x0 as nat == x as nat * 10 + dd);
            assert(pow10(r@.len() as nat) == 10 * p0);
            assert(digits_value(r@) == dd * p0 + digits_value(r0));
            assert(x0 as nat * p0 == x as nat * (10 * p0) + dd * p0) by (nonlinear_arith)
                requires
                    x0 as nat == x as nat * 10 + dd,
            ;
            if x == 0 {
                assert(x0 < 10);
                assert(d == x0 + D0);
                assert(r@[0] == d);
            }
        }
    }
    r
}

/// `10^e` as a machine integer.
pub fn pow10_u64(e: usize) -> (r: u64)
    requires
        e <= 19,
    ensures
        r as nat == pow10(e as nat),
{
    let mut r: u64 = 1;
    let mut i: usize = 0;
    while i < e
        invariant
            i <= e <= 19,
            r as nat == pow10(i as nat),
        decreases e - i,
    {
        proof {
            lemma_pow10_mono((i + 1) as nat, 19);
            assert(pow10(19) == 10_000_000_000_000_000_000) by {
                reveal_with_fuel(pow10, 20);
            }
            assert(pow10((i + 1) as nat) == 10 * pow10(i as nat));
        }
        r = r * 10;
        i = i + 1;
    }
    r
}

/// A run of `k` zero digit characters.
fn zeros_vec(k: usize) -> (r: Vec<u8>)
    ensures
        r@ == zero_digits(k as nat),
{
    let mut r: Vec<u8> = Vec::new();
    let mut i: usize = 0;
    while i < k
        invariant
            i <= k,
            r@ =~= zero_digits(i as nat),
        decreases k - i,
    {
        r.push(D0);
        i = i + 1;
        proof {
            assert(r@ =~= zero_digits(i as nat));
        }
    }
    r
}

/// Renders `m * 10^(target - scale)` with exactly `target` fractional
/// digits; with `target == scale` that is `m / 10^scale` written as it
/// stands.
#[verifier::rlimit(60)]
fn render_scaled(m: u64, scale: usize, target: usize) -> (r: Vec<u8>)
    requires
        scale <= target,
    ensures
        fixed_repr(r@, m as nat * pow10((target - scale) as nat), target as nat),
{
    let ds = digits_of(m);
    if target == 0 {
        proof {
            assert(m as nat * pow10(0) == m as nat) by (nonlinear_arith);
        }
        return ds;
    }
    let mut ip: Vec<u8> = Vec::new();
    let mut fp: Vec<u8> = Vec::new();
    let ghost v: nat = m as nat * pow10((target - scale) as nat);
    if scale == 0 {
        ip = ds;
        fp = zeros_vec(target);
        proof {
            lemma_dv_append_zeros(ip@, target as nat);
            assert(digits_value(ip@ + fp@) == v);
        }
    } else if ds.len() > scale {
        let cut = ds.len() - scale;
        let mut i: usize = 0;
        while i < cut
            invariant
                i <= cut,
                cut <= ds@.len(),
                ip@ =~= ds@.take(i as int),
            decreases cut - i,
        {
            ip.push(ds[i]);
            i = i + 1;
        }
        while i < ds.len()
            invariant
                cut <= i <= ds@.len(),
                ip@ =~= ds@.take(cut as int),
                fp@ =~= ds@.subrange(cut as int, i as int),
            decreases ds@.len() - i,
        {
            fp.push(ds[i]);
            i = i + 1;
        }
        let z = zeros_vec(target - scale);
        push_all(&mut fp, &z);
        proof {
            assert(ip@ + ds@.subrange(cut as int, ds@.len() as int) =~= ds@);
            assert(ip@ + fp@ =~= ds@ + zero_digits((target - scale) as nat));
            lemma_dv_append_zeros(ds@, (target - scale) as nat);
            assert(digits_value(ip@ + fp@) == v);
            assert(ip@.len() > 0);
            assert(ip@[0] == ds@[0]);
        }
    } else {
        ip.push(D0);
        let z1 = zeros_vec(scale - ds.len());
        push_all(&mut fp, &z1);
        push_all(&mut fp, &ds);
        let z2 = zeros_vec(target - scale);
        push_all(&mut fp, &z2);
        proof {
            assert(ip@ =~= seq![D0]);
            assert(ip@ + fp@ =~= zero_digits((1 + scale - ds@.len()) as nat) + (ds@ + zero_digits(
                (target - scale) as nat,
            ))) by {
                let zs = zero_digits((1 + scale - ds@.len()) as nat);
                assert(forall|j: int| 0 <= j < zs.len() ==> #[trigger] zs[j] == D0);
            }
            lemma_dv_zeros_prepend(
                (1 + scale - ds@.len()) as nat,
                ds@ + zero_digits((target - scale) as nat),
            );
            lemma_dv_append_zeros(ds@, (target - scale) as nat);
            assert(digits_value(ip@ + fp@) == v);
        }
    }
    let ghost gip = ip@;
    let ghost gfp = fp@;
    let mut r = ip;
    r.push(DOT);
    push_all(&mut r, &fp);
    proof {
        assert(r@ =~= gip + seq![DOT] + gfp);
        assert(r@.len() == gip.len() + 1 + gfp.len());
        assert(gfp.len() == target as nat);
        assert(r@.take(r@.len() - target - 1) =~= gip);
        assert(r@.skip(r@.len() - target) =~= gfp);
        assert(r@[r@.len() - target - 1] == DOT);
    }
    r
}

/// Renders the digit text of the price `m / 10^scale`: its own fractional
/// digits when no count is requested, else exactly the requested count,
/// rounding half away from zero.
pub fn price_digits(m: u64, scale: usize, digits: Option<usize>) -> (r: Vec<u8>)
    requires
        scale <= 19,
    ensures
        price_repr(r@, m as nat, scale as nat, digits),
{
    match digits {
        None => {
            let r = render_scaled(m, scale, scale);
            proof {
                assert(m as nat * pow10(0) == m as nat) by (nonlinear_arith);
            }
            r
        },
        Some(d) => {
            if d >= scale {
                render_scaled(m, scale, d)
            } else {
                let div = pow10_u64(scale - d);
                proof {
                    lemma_pow10_mono(1, (scale - d) as nat);
                    assert(pow10(0) == 1);
                    assert(pow10(1) == 10);
                }
                let q = m / div;
                let rem = m % div;
                let r0: u64 = if rem >= div - rem {
                    proof {
                        assert(q * div <= m) by (nonlinear_arith)
                            requires
                                div > 0 && q == m / div,
                        ;
                        assert(q < u64::MAX) by (nonlinear_arith)
                            requires
                                q * div <= m && m <= u64::MAX && div >= 10 && q >= 0,
                        ;
                    }
                    q + 1
                } else {
                    q
                };
                proof {
                    assert(r0 as nat == rounded(m as nat, scale as nat, d as nat));
                }
                let r = render_scaled(r0, d, d);
                proof {
                    assert(r0 as nat * pow10(0) == r0 as nat) by (nonlinear_arith);
                }
                r
            }
        },
    }
}

/// The price text with every decimal point replaced by the separator text.
pub open spec fn subst_dot(s: Seq<u8>, sep: Seq<u8>) -> Seq<u8>
    decreases s.len(),
{
    if s.len() == 0 {
        Seq::empty()
    } else {
        (if s[0] == DOT {
            sep
        } else {
            seq![s[0]]
        }) + subst_dot(s.drop_first(), sep)
    }
}

proof fn lemma_subst_push(t: Seq<u8>, x: u8, sep: Seq<u8>)
    ensures
        subst_dot(t.push(x), sep) == subst_dot(t, sep) + (if x == DOT {
            sep
        } else {
            seq![x]
        }),
    decreases t.len(),
{
    let unit: Seq<u8> = if x == DOT {
        sep
    } else {
        seq![x]
    };
    if t.len() == 0 {
        assert(t.push(x) =~= seq![x]);
        assert(seq![x].drop_first() =~= Seq::<u8>::empty());
        assert(seq![x][0] == x);
        assert(subst_dot(Seq::<u8>::empty(), sep) =~= Seq::<u8>::empty());
        assert(subst_dot(t, sep) + unit =~= unit);
        assert(subst_dot(seq![x], sep) =~= unit + Seq::<u8>::empty());
        assert(unit + Seq::<u8>::empty() =~= unit);
    } else {
        lemma_subst_push(t.drop_first(), x, sep);
        assert(t.push(x).drop_first() =~= t.drop_first().push(x));
        let head: Seq<u8> = if t[0] == DOT {
            sep
        } else {
            seq![t[0]]
        };
        assert(subst_dot(t.push(x), sep) == head + (subst_dot(t.drop_first(), sep) + unit));
        assert(head + (subst_dot(t.drop_first(), sep) + unit) =~= (head + subst_dot(
            t.drop_first(),
            sep,
        )) + unit);
    }
}

/// Replaces every `.` in `s` by the separator text.
pub fn substitute_separator(s: &Vec<u8>, sep: &Vec<u8>) -> (r: Vec<u8>)
    ensures
        r@ == subst_dot(s@, sep@),
{
    let mut r: Vec<u8> = Vec::new();
    let mut i: usize = 0;
    while i < s.len()
        invariant
            i <= s.len(),
            r@ == subst_dot(s@.take(i as int), sep@),
        decreases s@.len() - i,
    {
        if s[i] == DOT {
            push_all(&mut r, sep);
        } else {
            r.push(s[i]);
            proof {
                assert(r@ =~= subst_dot(s@.take(i as int), sep@) + seq![s@[i as int]]);
            }
        }
        proof {
            lemma_subst_push(s@.take(i as int), s@[i as int], sep@);
            assert(s@.take(i + 1) =~= s@.take(i as int).push(s@[i as int]));
        }
        i = i + 1;
    }
    proof {
        assert(s@.take(s@.len() as int) =~= s@);
    }
    r
}

/// A separator other than the point leaves no point behind: after
/// substitution the text holds no `.` at any position.
pub proof fn lemma_separator_removes_dot(s: Seq<u8>, sep: Seq<u8>)
    requires
        forall|i: int| 0 <= i < sep.len() ==> sep[i] != DOT,
    ensures
        forall|i: int| 0 <= i < subst_dot(s, sep).len() ==> subst_dot(s, sep)[i] != DOT,
    decreases s.len(),
{
    if s.len() > 0 {
        lemma_separator_removes_dot(s.drop_first(), sep);
        let head: Seq<u8> = if s[0] == DOT {
            sep
        } else {
            seq![s[0]]
        };
        let rest = subst_dot(s.drop_first(), sep);
        assert(forall|i: int| 0 <= i < head.len() ==> head[i] != DOT);
        assert(forall|i: int|
            0 <= i < (head + rest).len() ==> (head + rest)[i] == (if i < head.len() {
                head[i]
            } else {
                rest[i - head.len()]
            }));
    }
}

/// A one-character separator substitutes position for position: the result
/// has the same length, and every position that held `.` now holds the
/// separator while all others are unchanged.
pub proof fn lemma_separator_pointwise(s: Seq<u8>, sep: Seq<u8>)
    requires
        sep.len() == 1,
    ensures
        subst_dot(s, sep).len() == s.len(),
        forall|i: int|
            0 <= i < s.len() ==> subst_dot(s, sep)[i] == (if s[i] == DOT {
                sep[0]
            } else {
                s[i]
            }),
    decreases s.len(),
{
    if s.len() > 0 {
        lemma_separator_pointwise(s.drop_first(), sep);
        let head: Seq<u8> = if s[0] == DOT {
            sep
        } else {
            seq![s[0]]
        };
        let rest = subst_dot(s.drop_first(), sep);
        assert(forall|i: int|
            0 <= i < (head + rest).len() ==> (head + rest)[i] == (if i < 1 {
                head[i]
            } else {
                rest[i - 1]
            }));
        assert(forall|i: int| 1 <= i < s.len() ==> s.drop_first()[i - 1] == s[i]);
    }
}

/// How the price is set between the commodity names: the currency symbol
/// stands directly before the amount, or after it with a space.
pub open spec fn composed_value(stock: Seq<u8>, currency: Seq<u8>, price: Seq<u8>, before: bool) -> Seq<
    u8,
> {
    if before {
        stock + seq![SPACE] + currency + price
    } else {
        stock + seq![SPACE] + price + seq![SPACE] + currency
    }
}

/// The separator text applied to a rendered price: the point stays when the
/// separator is the point itself.
pub open spec fn applied_separator(price: Seq<u8>, sep: Seq<u8>) -> Seq<u8> {
    if sep == seq![DOT] {
        price
    } else {
        subst_dot(price, sep)
    }
}

/// How prices are turned into directive values.
pub struct FormatOptions {
    /// Commodity name of the stock.
    pub stock_name: Vec<u8>,
    /// Commodity name of the currency the price is denoted in.
    pub currency_name: Vec<u8>,
    /// Fixed count of fractional digits, or `None` for the price's own.
    pub decimal_digits: Option<usize>,
    /// Decimal separator, as UTF-8 text of one character.
    pub separator: Vec<u8>,
    /// Whether the currency symbol stands before the amount.
    pub currency_symbol_before: bool,
}

/// `out` is the directive value for the price `m / 10^scale` under the
/// given options.
pub open spec fn formatted_value(out: Seq<u8>, m: nat, scale: nat, opts: FormatOptions) -> bool {
    exists|ps: Seq<u8>|
        #[trigger] price_repr(ps, m, scale, opts.decimal_digits) && out == composed_value(
            opts.stock_name@,
            opts.currency_name@,
            applied_separator(ps, opts.separator@),
            opts.currency_symbol_before,
        )
}

fn compose_value(stock: &Vec<u8>, currency: &Vec<u8>, price: &Vec<u8>, before: bool) -> (r: Vec<u8>)
    ensures
        r@ == composed_value(stock@, currency@, price@, before),
{
    let mut r = copy_bytes(stock);
    r.push(SPACE);
    let ghost base = stock@ + seq![SPACE];
    proof {
        assert(r@ =~= base);
    }
    if before {
        push_all(&mut r, currency);
        push_all(&mut r, price);
        proof {
            assert(r@ =~= base + currency@ + price@);
        }
    } else {
        push_all(&mut r, price);
        r.push(SPACE);
        push_all(&mut r, currency);
        proof {
            assert(r@ =~= base + price@ + seq![SPACE] + currency@);
        }
    }
    r
}

/// Builds the full directive value for one closing price: the amount text
/// (with the requested digit count and separator) set between the stock and
/// currency commodity names.
pub fn format_price_value(mantissa: u64, scale: usize, opts: &FormatOptions) -> (r: Vec<u8>)
    requires
        scale <= 19,
    ensures
        formatted_value(r@, mantissa as nat, scale as nat, *opts),
{
    let ps = price_digits(mantissa, scale, opts.decimal_digits);
    let ghost gps = ps@;
    let dot_kept = opts.separator.len() == 1 && opts.separator[0] == DOT;
    proof {
        if dot_kept {
            assert(opts.separator@ =~= seq![DOT]);
        } else {
            assert(opts.separator@ != seq![DOT]);
        }
    }
    let amount = if dot_kept {
        ps
    } else {
        substitute_separator(&ps, &opts.separator)
    };
    proof {
        assert(amount@ == applied_separator(gps, opts.separator@));
    }
    let r = compose_value(&opts.stock_name, &opts.currency_name, &amount, opts.currency_symbol_before);
    proof {
        assert(price_repr(gps, mantissa as nat, scale as nat, opts.decimal_digits) && r@
            == composed_value(
            opts.stock_name@,
            opts.currency_name@,
            applied_separator(gps, opts.separator@),
            opts.currency_symbol_before,
        ));
    }
    r
}

/// A fixed digit count is kept exactly: with count `d` the rendered price
/// text holds the point (only) `d` positions before its end, digits
/// everywhere else; with count `0` it is digits alone.
pub proof fn lemma_fixed_digit_count(r: Seq<u8>, m: nat, scale: nat, d: usize)
    requires
        price_repr(r, m, scale, Some(d)),
    ensures
        d > 0 ==> r.len() > d + 1 && r[r.len() - d - 1] == DOT && (forall|i: int|
            0 <= i < r.len() && i != r.len() - d - 1 ==> is_digit(r[i])),
        d == 0 ==> r.len() > 0 && (forall|i: int| 0 <= i < r.len() ==> is_digit(r[i])),
{
    if d > 0 {
        let ip = r.take(r.len() - d - 1);
        let fp = r.skip(r.len() - d);
        assert(forall|i: int| 0 <= i < r.len() - d - 1 ==> r[i] == ip[i]);
        assert(forall|i: int| r.len() - d <= i < r.len() ==> r[i] == fp[i - (r.len() - d)]);
    }
}

} // verus!
