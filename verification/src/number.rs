use vstd::prelude::*;
use crate::text::find_char;
use crate::text::lemma_find_char;

verus! {

/// A measurement value in plain decimal notation, kept exactly as it was
/// written in the instrument file: the digits as an integer mantissa and
/// the count of digits after the decimal point. The value denoted is
/// `(-1)^neg * mantissa / 10^scale`. Keeping the decimal digits instead of
/// a binary float lets every computation on values be stated exactly; the
/// conversion to a spreadsheet's binary number happens outside the library.
#[derive(Clone, Copy, Debug, PartialEq, Eq, Structural)]
pub struct Number {
    /// Whether the token carried a leading minus sign.
    pub neg: bool,
    /// The digits of the token, read as one integer.
    pub mantissa: u64,
    /// How many of the mantissa's digits lie after the decimal point.
    pub scale: u32,
}

/// `10^n`.
pub open spec fn pow10(n: nat) -> nat
    decreases n,
{
    if n == 0 {
        1
    } else {
        10 * pow10((n - 1) as nat)
    }
}

pub proof fn lemma_pow10_monotonic(a: nat, b: nat)
    requires
        a <= b,
    ensures
        pow10(a) <= pow10(b),
        pow10(a) >= 1,
    decreases b,
{
    if b > 0 {
        if a == b {
            lemma_pow10_monotonic((a - 1) as nat, (b - 1) as nat);
        } else {
            lemma_pow10_monotonic(a, (b - 1) as nat);
        }
    }
}

pub proof fn lemma_pow10_values()
    ensures
        pow10(0) == 1,
        pow10(1) == 10,
        pow10(2) == 100,
        pow10(16) == 10_000_000_000_000_000,
        pow10(17) == 100_000_000_000_000_000,
        pow10(20) == 100_000_000_000_000_000_000,
        pow10(21) == 1_000_000_000_000_000_000_000,
{
    reveal_with_fuel(pow10, 22);
}

/// Whether `c` is a decimal digit.
pub open spec fn is_digit(c: char) -> bool {
    48 <= c as u32 <= 57
}

/// The numeric value of a digit character.
pub open spec fn digit_val(c: char) -> int {
    c as u32 - 48
}

pub open spec fn all_digits(s: Seq<char>) -> bool {
    forall|i: int| 0 <= i < s.len() ==> is_digit(#[trigger] s[i])
}

/// The integer written by a sequence of digit characters, most
/// significant digit first.
pub open spec fn digits_val(s: Seq<char>) -> int
    decreases s.len(),
{
    if s.len() == 0 {
        0
    } else {
        10 * digits_val(s.drop_last()) + digit_val(s.last())
    }
}

pub proof fn lemma_digits_val_bound(s: Seq<char>)
    requires
        all_digits(s),
    ensures
        0 <= digits_val(s) < pow10(s.len()),
    decreases s.len(),
{
    if s.len() > 0 {
        assert(all_digits(s.drop_last())) by {
            assert(forall|i: int|
                0 <= i < s.len() - 1 ==> s.drop_last()[i] == #[trigger] s[i]);
        }
        lemma_digits_val_bound(s.drop_last());
    }
}

/// The most digits a numeric token may carry. Seventeen decimal digits
/// always fit a `u64` mantissa; an instrument value never comes close.
pub open spec fn max_digits() -> int {
    17
}

/// How a numeric token is read. The token is an optional sign (`-` or
/// `+`), then decimal digits with at most one point among them; at least
/// one digit must be present and at most seventeen. Anything else - an
/// empty token, a second point, a letter, too many digits - is not a
/// number. Exponent notation is not part of the instrument's format.
pub open spec fn parse_number(token: Seq<char>) -> Option<Number> {
    if token.len() == 0 {
        None
    } else {
        let neg = token[0] == '-';
        let body = if token[0] == '-' || token[0] == '+' {
            token.skip(1)
        } else {
            token
        };
        let ip = match find_char(body, '.') {
            None => body,
            Some(i) => body.take(i),
        };
        let fp = match find_char(body, '.') {
            None => Seq::<char>::empty(),
            Some(i) => body.skip(i + 1),
        };
        let digits = ip + fp;
        if all_digits(digits) && 1 <= digits.len() <= max_digits() {
            Some(
                Number {
                    neg,
                    mantissa: digits_val(digits) as u64,
                    scale: fp.len() as u32,
                },
            )
        } else {
            None
        }
    }
}

/// Scans the digit run `t[from..to)`, continuing an accumulation whose
/// digits so far are `prefix`: checks every character is a digit, caps
/// the total count at seventeen, and extends the accumulated value.
#[verifier::loop_isolation(false)]
fn scan_digits(
    t: &Vec<char>,
    from: usize,
    to: usize,
    acc: u64,
    count: usize,
    prefix: Ghost<Seq<char>>,
) -> (res: Option<(u64, usize)>)
    requires
        from <= to <= t@.len(),
        count == prefix@.len(),
        count <= max_digits(),
        all_digits(prefix@),
        acc == digits_val(prefix@),
        acc < pow10(count as nat),
    ensures
        ({
            let digits = prefix@ + t@.subrange(from as int, to as int);
            match res {
                Some(out) => {
                    &&& all_digits(digits)
                    &&& out.1 == digits.len()
                    &&& out.1 <= max_digits()
                    &&& out.0 == digits_val(digits)
                    &&& out.0 < pow10(out.1 as nat)
                },
                None => !(all_digits(digits) && digits.len() <= max_digits()),
            }
        }),
{
    let ghost digits = prefix@ + t@.subrange(from as int, to as int);
    let mut acc: u64 = acc;
    let mut count: usize = count;
    let mut i: usize = from;
    while i < to
        invariant
            from <= i <= to,
            count == prefix@.len() + (i - from),
            count <= max_digits(),
            all_digits(prefix@ + t@.subrange(from as int, i as int)),
            acc == digits_val(prefix@ + t@.subrange(from as int, i as int)),
            acc < pow10(count as nat),
        decreases to - i,
    {
        let ghost sofar = prefix@ + t@.subrange(from as int, i as int);
        let u = t[i] as u32;
        if !(48 <= u && u <= 57) {
            proof {
                assert(digits[prefix@.len() + i - from] == t@[i as int]);
            }
            return None;
        }
        if count == 17 {
            proof {
                assert(digits.len() > max_digits());
            }
            return None;
        }
        proof {
            lemma_pow10_monotonic(count as nat, 16);
            lemma_pow10_values();
            assert(pow10((count + 1) as nat) == 10 * pow10(count as nat));
            assert(prefix@ + t@.subrange(from as int, i + 1) =~= sofar.push(t@[i as int]));
            assert(sofar.push(t@[i as int]).drop_last() =~= sofar);
        }
        acc = acc * 10 + (u - 48) as u64;
        count += 1;
        i += 1;
    }
    Some((acc, count))
}

/// Reads a numeric token, as `parse_number` describes.
#[verifier::loop_isolation(false)]
pub fn parse_number_exec(t: &Vec<char>) -> (res: Option<Number>)
    ensures
        res == parse_number(t@),
{
    let n = t.len();
    if n == 0 {
        return None;
    }
    let c0 = t[0];
    let neg = c0 == '-';
    let bstart: usize = if c0 == '-' || c0 == '+' {
        1
    } else {
        0
    };
    let ghost body = if c0 == '-' || c0 == '+' {
        t@.skip(1)
    } else {
        t@
    };
    proof {
        assert(body =~= t@.subrange(bstart as int, n as int));
    }
    // Find the first decimal point, if any; `dot` stays `n` when there is none.
    let mut dot: usize = n;
    let mut i: usize = bstart;
    while i < n
        invariant
            bstart <= i <= n,
            bstart <= dot <= n,
            dot == n ==> forall|j: int| bstart <= j < i ==> t@[j] != '.',
            dot < n ==> t@[dot as int] == '.' && dot < i && forall|j: int|
                bstart <= j < dot ==> t@[j] != '.',
        decreases n - i,
    {
        if t[i] == '.' && dot == n {
            dot = i;
        }
        i += 1;
    }
    proof {
        if dot < n {
            assert(body[dot - bstart] == t@[dot as int]);
            assert(forall|j: int| 0 <= j < dot - bstart ==> body[j] == t@[j + bstart]);
            assert(find_char(body, '.') == Some(dot - bstart)) by {
                lemma_find_char(body, '.');
                match find_char(body, '.') {
                    None => {
                        assert(body[dot - bstart] != '.');
                    },
                    Some(k) => {
                        if k < dot - bstart {
                            assert(t@[k + bstart] == '.');
                        } else if k > dot - bstart {
                            assert(body[dot - bstart] != '.');
                        }
                    },
                }
            }
        } else {
            assert(find_char(body, '.') is None) by {
                lemma_find_char(body, '.');
                match find_char(body, '.') {
                    None => {},
                    Some(k) => {
                        assert(body[k] == t@[k + bstart]);
                    },
                }
            }
        }
    }
    let ghost ip = if dot < n {
        body.take(dot - bstart)
    } else {
        body
    };
    let ghost fp = if dot < n {
        body.skip(dot - bstart + 1)
    } else {
        Seq::<char>::empty()
    };
    let ghost digits = ip + fp;
    proof {
        assert(ip =~= t@.subrange(bstart as int, dot as int));
        assert(Seq::<char>::empty() =~= t@.subrange(bstart as int, bstart as int));
        assert(Seq::<char>::empty() + ip =~= ip);
    }
    // The digits on both sides of the point: check each character, count
    // them, and accumulate the mantissa.
    let first = match scan_digits(t, bstart, dot, 0, 0, Ghost(Seq::<char>::empty())) {
        None => {
            proof {
                if all_digits(digits) && digits.len() <= max_digits() {
                    assert(forall|j: int| 0 <= j < ip.len() ==> ip[j] == digits[j]);
                    assert(all_digits(ip));
                    assert(false);
                }
            }
            return None;
        },
        Some(out) => out,
    };
    let fstart: usize = if dot < n {
        dot + 1
    } else {
        n
    };
    proof {
        assert(fp =~= t@.subrange(fstart as int, n as int));
    }
    let (mantissa, count) = match scan_digits(t, fstart, n, first.0, first.1, Ghost(ip)) {
        None => {
            return None;
        },
        Some(out) => out,
    };
    if count == 0 {
        return None;
    }
    let scale: u32 = (n - fstart) as u32;
    proof {
        assert(digits.len() == count);
        lemma_digits_val_bound(digits);
        assert(fp.len() <= digits.len());
    }
    Some(Number { neg, mantissa, scale })
}

/// The value of `n` in hundredths of a unit, rounded half away from
/// zero: the figure a two-decimal rendering shows.
pub open spec fn cents_of(n: Number) -> nat {
    let m = n.mantissa as nat;
    if n.scale <= 2 {
        m * pow10((2 - n.scale) as nat)
    } else {
        (m + pow10((n.scale - 2) as nat) / 2) / pow10((n.scale - 2) as nat)
    }
}

/// The digit character for `d` between 0 and 9.
pub open spec fn digit_char(d: int) -> char {
    if d == 0 {
        '0'
    } else if d == 1 {
        '1'
    } else if d == 2 {
        '2'
    } else if d == 3 {
        '3'
    } else if d == 4 {
        '4'
    } else if d == 5 {
        '5'
    } else if d == 6 {
        '6'
    } else if d == 7 {
        '7'
    } else if d == 8 {
        '8'
    } else {
        '9'
    }
}

/// The decimal digits of `v`, most significant first, with no leading
/// zeros except for `v == 0` itself.
pub open spec fn dec_digits(v: nat) -> Seq<char>
    decreases v,
{
    if v < 10 {
        seq![digit_char(v as int)]
    } else {
        dec_digits(v / 10).push(digit_char((v % 10) as int))
    }
}

/// How `n` renders with exactly two decimal places: an optional minus
/// sign (omitted when the rounded figure is zero), the whole units, a
/// point, and two digits of hundredths.
pub open spec fn two_decimal_view(n: Number) -> Seq<char> {
    let c = cents_of(n);
    let sign: Seq<char> = if n.neg && c > 0 {
        seq!['-']
    } else {
        Seq::empty()
    };
    let r = c % 100;
    sign + dec_digits(c / 100) + seq!['.'] + seq![
        digit_char((r / 10) as int),
        digit_char((r % 10) as int),
    ]
}

fn digit_char_exec(d: u8) -> (c: char)
    requires
        d < 10,
    ensures
        c == digit_char(d as int),
{
    if d == 0 {
        '0'
    } else if d == 1 {
        '1'
    } else if d == 2 {
        '2'
    } else if d == 3 {
        '3'
    } else if d == 4 {
        '4'
    } else if d == 5 {
        '5'
    } else if d == 6 {
        '6'
    } else if d == 7 {
        '7'
    } else if d == 8 {
        '8'
    } else {
        '9'
    }
}

/// `10^k` as a machine integer.
fn pow10_u128(k: u32) -> (r: u128)
    requires
        k <= 21,
    ensures
        r as nat == pow10(k as nat),
{
    let mut r: u128 = 1;
    let mut i: u32 = 0;
    while i < k
        invariant
            0 <= i <= k <= 21,
            r as nat == pow10(i as nat),
        decreases k - i,
    {
        proof {
            lemma_pow10_monotonic((i + 1) as nat, 21);
            lemma_pow10_values();
            assert(pow10((i + 1) as nat) == 10 * pow10(i as nat));
        }
        r = r * 10;
        i += 1;
    }
    r
}

/// Appends the decimal digits of `v` to `s`, most significant first.
fn push_dec(s: &mut String, v: u128)
    ensures
        final(s)@ == old(s)@ + dec_digits(v as nat),
    decreases v,
{
    if v >= 10 {
        push_dec(s, v / 10);
    }
    crate::text::push_char(s, digit_char_exec((v % 10) as u8));
    proof {
        if v < 10 {
            assert(old(s)@.push(digit_char(v as int)) =~= old(s)@ + dec_digits(v as nat));
        } else {
            assert((old(s)@ + dec_digits((v / 10) as nat)).push(digit_char((v % 10) as int))
                =~= old(s)@ + dec_digits(v as nat));
        }
    }
}

/// Renders `n` with exactly two decimal places, rounding half away from
/// zero, as `two_decimal_view` describes.
pub fn two_decimal_string(n: &Number) -> (s: String)
    ensures
        s@ == two_decimal_view(*n),
{
    let m: u128 = n.mantissa as u128;
    let cents: u128;
    if n.scale == 0 {
        cents = m * 100;
        proof {
            lemma_pow10_values();
            assert(cents as nat == cents_of(*n));
        }
    } else if n.scale == 1 {
        cents = m * 10;
        proof {
            lemma_pow10_values();
            assert(cents as nat == cents_of(*n));
        }
    } else if n.scale == 2 {
        cents = m;
        proof {
            lemma_pow10_values();
            assert(pow10((2 - n.scale) as nat) == 1);
            assert(cents_of(*n) == (n.mantissa as nat) * 1);
            assert(cents as nat == cents_of(*n));
        }
    } else if n.scale <= 21 {
        proof {
            lemma_pow10_monotonic((n.scale - 2) as nat, 21);
            lemma_pow10_values();
        }
        let p = pow10_u128(n.scale - 2);
        cents = (m + p / 2) / p;
        proof {
            assert(cents as nat == cents_of(*n));
        }
    } else {
        // The mantissa has at most twenty digits, so a scale past
        // twenty-one puts the whole value below half a hundredth.
        proof {
            let p = pow10((n.scale - 2) as nat);
            lemma_pow10_monotonic(20, (n.scale - 2) as nat);
            lemma_pow10_values();
            vstd::arithmetic::div_mod::lemma_div_is_ordered(
                pow10(20) as int,
                p as int,
                2,
            );
            assert(m + p / 2 < p) by {
                vstd::arithmetic::div_mod::lemma_fundamental_div_mod(p as int, 2);
            }
            vstd::arithmetic::div_mod::lemma_basic_div((m + p / 2) as int, p as int);
        }
        cents = 0;
        proof {
            assert(cents as nat == cents_of(*n));
        }
    }
    let mut s = String::new();
    if n.neg && cents > 0 {
        crate::text::push_char(&mut s, '-');
    }
    push_dec(&mut s, cents / 100);
    crate::text::push_char(&mut s, '.');
    let r = cents % 100;
    push_dec_pair(&mut s, r);
    proof {
        assert(s@ =~= two_decimal_view(*n));
    }
    s
}

/// Appends the two-digit rendering of `r`, which is below one hundred.
fn push_dec_pair(s: &mut String, r: u128)
    requires
        r < 100,
    ensures
        final(s)@ == old(s)@ + seq![
            digit_char((r / 10) as int),
            digit_char((r % 10) as int),
        ],
{
    crate::text::push_char(s, digit_char_exec((r / 10) as u8));
    crate::text::push_char(s, digit_char_exec((r % 10) as u8));
    proof {
        assert(old(s)@.push(digit_char((r / 10) as int)).push(digit_char((r % 10) as int))
            =~= old(s)@ + seq![digit_char((r / 10) as int), digit_char((r % 10) as int)]);
    }
}

} // verus!
