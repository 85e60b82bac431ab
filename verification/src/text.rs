//! Building text.

use vstd::prelude::*;

use crate::fixed::Pico;
use crate::names::same;

verus! {

/// The decimal digits of `n`, most significant first.
pub open spec fn decimal(n: nat) -> Seq<char>
    decreases n,
{
    if n < 10 {
        seq![digit(n as int)]
    } else {
        decimal(n / 10).push(digit((n % 10) as int))
    }
}

/// The character of one decimal digit.
pub open spec fn digit(d: int) -> char {
    if d == 0 {
        '0'
    } else if d == 1 {
        '1'
    } else if d == 2 {
        '2'
    } else if d == 3 {
        '3'
    } else if d == 4 {
        '4'
    } else if d == 5 {
        '5'
    } else if d == 6 {
        '6'
    } else if d == 7 {
        '7'
    } else if d == 8 {
        '8'
    } else {
        '9'
    }
}

/// One decimal digit as text.
fn digit_str(d: u64) -> (r: &'static str)
    requires
        d < 10,
    ensures
        r@ == seq![digit(d as int)],
{
    proof {
        reveal_strlit("0");
        reveal_strlit("1");
        reveal_strlit("2");
        reveal_strlit("3");
        reveal_strlit("4");
        reveal_strlit("5");
        reveal_strlit("6");
        reveal_strlit("7");
        reveal_strlit("8");
        reveal_strlit("9");
    }
    if d == 0 {
        "0"
    } else if d == 1 {
        "1"
    } else if d == 2 {
        "2"
    } else if d == 3 {
        "3"
    } else if d == 4 {
        "4"
    } else if d == 5 {
        "5"
    } else if d == 6 {
        "6"
    } else if d == 7 {
        "7"
    } else if d == 8 {
        "8"
    } else {
        "9"
    }
}

/// `n` in decimal.
pub fn decimal_text(n: u64) -> (r: String)
    ensures
        r@ == decimal(n as nat),
    decreases n,
{
    if n < 10 {
        let s: String = String::from_str(digit_str(n));
        s
    } else {
        let mut s: String = decimal_text(n / 10);
        s.append(digit_str(n % 10));
        assert(s@ =~= decimal(n as nat));
        s
    }
}

/// `parts` one after the other, `sep` between each two.
pub open spec fn joined(parts: Seq<Seq<char>>, sep: Seq<char>) -> Seq<char>
    decreases parts.len(),
{
    if parts.len() == 0 {
        Seq::empty()
    } else if parts.len() == 1 {
        parts[0]
    } else {
        joined(parts.drop_last(), sep) + sep + parts.last()
    }
}

/// The texts of a list of strings.
pub open spec fn texts(parts: Seq<String>) -> Seq<Seq<char>> {
    Seq::new(parts.len(), |i: int| parts[i]@)
}

/// Whether two lists hold the same texts.
pub fn same_texts(a: &Vec<String>, b: &Vec<String>) -> (r: bool)
    ensures
        r == (texts(a@) == texts(b@)),
{
    if a.len() != b.len() {
        assert(texts(a@).len() != texts(b@).len());
        return false;
    }
    let mut i: usize = 0;
    while i < a.len()
        invariant
            i <= a.len(),
            a@.len() == b@.len(),
            forall|k: int| 0 <= k < i ==> (#[trigger] texts(a@)[k]) == texts(b@)[k],
        decreases a.len() - i,
    {
        if !same(a[i].as_str(), b[i].as_str()) {
            assert(texts(a@)[i as int] != texts(b@)[i as int]);
            return false;
        }
        assert(texts(a@)[i as int] == texts(b@)[i as int]);
        i = i + 1;
    }
    assert(texts(a@) =~= texts(b@));
    true
}

/// Joins `parts` with `sep`.
pub fn join(parts: &Vec<String>, sep: &str) -> (r: String)
    ensures
        r@ == joined(texts(parts@), sep@),
{
    let mut out: String = String::new();
    let mut i: usize = 0;
    while i < parts.len()
        invariant
            0 <= i <= parts.len(),
            out@ == joined(texts(parts@).take(i as int), sep@),
        decreases parts.len() - i,
    {
        if i > 0 {
            out.append(sep);
        }
        out.append(parts[i].as_str());
        proof {
            let t = texts(parts@);
            assert(t.take(i + 1).drop_last() =~= t.take(i as int));
            assert(t.take(i + 1).last() == parts@[i as int]@);
            if i == 0 {
                assert(out@ =~= t.take(1)[0]);
            }
        }
        i = i + 1;
    }
    assert(texts(parts@).take(i as int) =~= texts(parts@));
    out
}

/// Three texts in a row.
pub fn cat3(a: &str, b: &str, c: &str) -> (r: String)
    ensures
        r@ == a@ + b@ + c@,
{
    let mut s: String = String::from_str(a);
    s.append(b);
    s.append(c);
    s
}

/// Five texts in a row.
pub fn cat5(a: &str, b: &str, c: &str, d: &str, e: &str) -> (r: String)
    ensures
        r@ == a@ + b@ + c@ + d@ + e@,
{
    let mut s: String = cat3(a, b, c);
    s.append(d);
    s.append(e);
    s
}

/// Seven texts in a row.
pub fn cat7(a: &str, b: &str, c: &str, d: &str, e: &str, f: &str, g: &str) -> (r: String)
    ensures
        r@ == a@ + b@ + c@ + d@ + e@ + f@ + g@,
{
    let mut s: String = cat5(a, b, c, d, e);
    s.append(f);
    s.append(g);
    s
}

/// `n` divided by `d`, rounded to the nearest whole number, a tie to the even
/// one.
pub open spec fn nearest(n: nat, d: nat) -> nat {
    let q = n / d;
    let rem = n % d;
    if 2 * rem > d || (2 * rem == d && q % 2 == 1) {
        q + 1
    } else {
        q
    }
}

/// The last `width` decimal digits of `n`.
pub open spec fn padded(n: nat, width: nat) -> Seq<char>
    decreases width,
{
    if width == 0 {
        Seq::empty()
    } else {
        padded(n / 10, (width - 1) as nat).push(digit((n % 10) as int))
    }
}

/// Ten to the power `n`.
pub open spec fn ten(n: nat) -> nat
    decreases n,
{
    if n == 0 {
        1
    } else {
        10 * ten((n - 1) as nat)
    }
}

/// A count of 10^-12 as a decimal number with `places` places, rounded, the
/// sign of what was rounded kept.
pub open spec fn decimal_places(x: int, places: nat) -> Seq<char> {
    let size = (if x < 0 {
        -x
    } else {
        x
    }) as nat;
    let q = nearest(size, ten((12 - places) as nat));
    (if x < 0 {
        "-"@
    } else {
        ""@
    }) + decimal(q / ten(places)) + "."@ + padded(q % ten(places), places)
}

fn ten_to(n: u32) -> (r: u64)
    requires
        n <= 12,
    ensures
        r == ten(n as nat),
        1 <= r <= 1_000_000_000_000,
{
    let mut out: u64 = 1;
    let mut i: u32 = 0;
    proof {
        lemma_ten(0);
    }
    while i < n
        invariant
            i <= n <= 12,
            out == ten(i as nat),
        decreases n - i,
    {
        proof {
            lemma_ten(i as nat);
            lemma_ten((i + 1) as nat);
        }
        out = out * 10;
        i = i + 1;
    }
    proof {
        lemma_ten(n as nat);
    }
    out
}

proof fn lemma_ten(n: nat)
    ensures
        ten(n) >= 1,
        n <= 12 ==> ten(n) <= 1_000_000_000_000,
        n == 0 ==> ten(n) == 1,
{
    reveal_with_fuel(ten, 14);
    if n > 12 {
        lemma_ten_positive(n);
    }
}

proof fn lemma_ten_positive(n: nat)
    ensures
        ten(n) >= 1,
    decreases n,
{
    if n > 0 {
        lemma_ten_positive((n - 1) as nat);
    }
}

fn padded_text(n: u64, width: u32) -> (r: String)
    ensures
        r@ == padded(n as nat, width as nat),
    decreases width,
{
    if width == 0 {
        let s: String = String::new();
        s
    } else {
        let mut s: String = padded_text(n / 10, width - 1);
        s.append(digit_str(n % 10));
        assert(s@ =~= padded(n as nat, width as nat));
        s
    }
}

/// A count of 10^-12 as a decimal number with `places` places.
pub fn places_text(x: i64, places: u32) -> (r: String)
    requires
        1 <= places <= 12,
    ensures
        r@ == decimal_places(x as int, places as nat),
{
    let size: u64 = if x < 0 {
        (-(x as i128)) as u64
    } else {
        x as u64
    };
    let d: u64 = ten_to(12 - places);
    let whole: u64 = ten_to(places);
    let q: u64 = size / d;
    let rem: u64 = size % d;
    assert(q <= 0x8000_0000_0000_0000) by (nonlinear_arith)
        requires
            q == size / d,
            d >= 1,
            size <= 0x8000_0000_0000_0000,
    ;
    let n: u64 = if 2 * rem > d || (2 * rem == d && q % 2 == 1) {
        q + 1
    } else {
        q
    };
    assert(n == nearest(size as nat, d as nat));
    let mut s: String = String::from_str(if x < 0 { "-" } else { "" });
    s.append(decimal_text(n / whole).as_str());
    s.append(".");
    s.append(padded_text(n % whole, places).as_str());
    s
}

/// `digits` without the zeros it ends in.
pub open spec fn stripped(digits: Seq<char>) -> Seq<char>
    decreases digits.len(),
{
    if digits.len() > 0 && digits.last() == '0' {
        stripped(digits.drop_last())
    } else {
        digits
    }
}

/// The decimal digits of `n`, `width` of them, without the zeros they end in.
fn trimmed(n: u64, width: u32) -> (r: String)
    ensures
        r@ == stripped(padded(n as nat, width as nat)),
    decreases width,
{
    if width == 0 {
        let s: String = String::new();
        s
    } else if n % 10 == 0 {
        proof {
            let all = padded(n as nat, width as nat);
            assert(all.last() == digit(0));
            assert(all.drop_last() =~= padded((n / 10) as nat, (width - 1) as nat));
        }
        trimmed(n / 10, width - 1)
    } else {
        padded_text(n, width)
    }
}

/// A count of 10^-12 as a decimal number, as short as it is exact.
pub open spec fn plain(x: int) -> Seq<char> {
    let size = (if x < 0 {
        -x
    } else {
        x
    }) as nat;
    let part = size % 1_000_000_000_000;
    (if x < 0 {
        "-"@
    } else {
        ""@
    }) + decimal(size / 1_000_000_000_000) + (if part == 0 {
        ""@
    } else {
        "."@ + stripped(padded(part, 12))
    })
}

/// A count of 10^-12 as a decimal number, as short as it is exact.
pub fn plain_text(x: i64) -> (r: String)
    ensures
        r@ == plain(x as int),
{
    let size: u64 = if x < 0 {
        (-(x as i128)) as u64
    } else {
        x as u64
    };
    let part: u64 = size % 1_000_000_000_000;
    let mut s: String = String::from_str(if x < 0 { "-" } else { "" });
    s.append(decimal_text(size / 1_000_000_000_000).as_str());
    if part == 0 {
        s.append("");
    } else {
        let digits: String = trimmed(part, 12);
        s.append(cat3(".", digits.as_str(), "").as_str());
        proof {
            reveal_strlit("");
            assert("."@ + digits@ + ""@ =~= "."@ + digits@);
        }
    }
    s
}

/// A count of 10^-12 with three places.
pub open spec fn milli(x: Pico) -> Seq<char> {
    decimal_places(x as int, 3)
}

/// A count of 10^-12 with three places.
pub fn milli_text(x: Pico) -> (r: String)
    ensures
        r@ == milli(x),
{
    places_text(x, 3)
}

/// What a digit is worth.
pub open spec fn worth(c: char) -> int {
    if c == '1' {
        1
    } else if c == '2' {
        2
    } else if c == '3' {
        3
    } else if c == '4' {
        4
    } else if c == '5' {
        5
    } else if c == '6' {
        6
    } else if c == '7' {
        7
    } else if c == '8' {
        8
    } else if c == '9' {
        9
    } else {
        0
    }
}

/// The number that digits stand for.
pub open spec fn value(digits: Seq<char>) -> int
    decreases digits.len(),
{
    if digits.len() == 0 {
        0
    } else {
        10 * value(digits.drop_last()) + worth(digits.last())
    }
}

/// A number is written so that its digits stand for it, without a zero in front unless it
/// is zero.
pub proof fn law_digits_stand_for_their_number(n: nat)
    ensures
        value(decimal(n)) == n,
        decimal(n).len() > 0,
        n > 0 ==> decimal(n)[0] != '0',
    decreases n,
{
    if n < 10 {
        let one = seq![digit(n as int)];
        assert(one.drop_last() =~= Seq::<char>::empty());
        assert(value(one.drop_last()) == 0);
        assert(value(one) == worth(one.last()));
    } else {
        let (q, r) = (n / 10, n % 10);
        law_digits_stand_for_their_number(q);
        let all = decimal(q).push(digit(r as int));
        assert(all.drop_last() =~= decimal(q));
        assert(all.last() == digit(r as int));
        assert(worth(digit(r as int)) == r);
        assert(q > 0);
        assert(all[0] == decimal(q)[0]);
    }
}

/// Padded digits are as many as asked for, and stand for what of the number they have
/// room for.
pub proof fn law_padded_digits_fill_their_width(n: nat, width: nat)
    ensures
        padded(n, width).len() == width,
        value(padded(n, width)) == n % ten(width),
        ten(width) > 0,
    decreases width,
{
    if width == 0 {
        assert(n % 1 == 0);
    } else {
        let w = (width - 1) as nat;
        let (q, r) = (n / 10, n % 10);
        law_padded_digits_fill_their_width(q, w);
        let all = padded(q, w).push(digit(r as int));
        assert(all.drop_last() =~= padded(q, w));
        assert(worth(digit(r as int)) == r);
        let t = ten(w);
        let m = q % t;
        let k = q / t;
        vstd::arithmetic::div_mod::lemma_fundamental_div_mod(q as int, t as int);
        vstd::arithmetic::div_mod::lemma_mod_bound(q as int, t as int);
        assert(10 * (t * k) == (10 * t) * k) by (nonlinear_arith);
        assert(n == (10 * t) * k + (10 * m + r));
        assert((10 * t) * k == k * (10 * t)) by (nonlinear_arith);
        vstd::arithmetic::div_mod::lemma_fundamental_div_mod_converse(
            n as int,
            (10 * t) as int,
            k as int,
            (10 * m + r) as int,
        );
    }
}

/// Rounding goes to the nearest whole number, and between two to the even one.
pub proof fn law_rounding_goes_to_the_nearest(n: nat, d: nat)
    requires
        d > 0,
    ensures
        ({
            let q = nearest(n, d);
            &&& 2 * (n - d * q) <= d
            &&& 2 * (d * q - n) <= d
            &&& 2 * (n - d * q) == d || 2 * (d * q - n) == d ==> q % 2 == 0
        }),
{
    vstd::arithmetic::div_mod::lemma_fundamental_div_mod(n as int, d as int);
    vstd::arithmetic::div_mod::lemma_mod_bound(n as int, d as int);
    let f = n / d;
    assert(d * (f + 1) == d * f + d) by (nonlinear_arith);
}

/// Parts are joined in order, with the separator between each two and nowhere else.
pub proof fn law_parts_are_joined_in_order(parts: Seq<Seq<char>>, part: Seq<char>, sep: Seq<char>)
    ensures
        joined(seq![], sep).len() == 0,
        joined(seq![part], sep) == part,
        parts.len() > 0 ==> joined(parts.push(part), sep) == joined(parts, sep) + sep + part,
{
    assert(parts.push(part).drop_last() =~= parts);
    assert(parts.push(part).last() == part);
}

/// Stripping takes the zeros off the end, and nothing else.
pub proof fn law_only_zeros_are_stripped(digits: Seq<char>)
    ensures
        stripped(digits).len() <= digits.len(),
        stripped(digits) == digits.take(stripped(digits).len() as int),
        stripped(digits).len() > 0 ==> stripped(digits)[stripped(digits).len() - 1] != '0',
        forall|i: int| stripped(digits).len() <= i < digits.len() ==> #[trigger] digits[i] == '0',
    decreases digits.len(),
{
    if digits.len() > 0 && digits.last() == '0' {
        let less = digits.drop_last();
        law_only_zeros_are_stripped(less);
        assert(less.take(stripped(less).len() as int) =~= digits.take(
            stripped(less).len() as int,
        ));
        assert forall|i: int| stripped(digits).len() <= i < digits.len() implies #[trigger] digits[i]
            == '0' by {
            if i < less.len() {
                assert(less[i] == digits[i]);
            }
        }
    } else {
        assert(digits.take(digits.len() as int) =~= digits);
    }
}

/// A number with places is written as its whole part, a point and exactly as many digits,
/// which together stand for it rounded to the nearest, a tie to the even one; a minus goes
/// before a negative one.
pub proof fn law_a_number_with_places_is_rounded_to_them(x: int, places: nat)
    requires
        places <= 12,
    ensures
        ({
            let size = (if x < 0 {
                -x
            } else {
                x
            }) as nat;
            let d = ten((12 - places) as nat);
            let q = nearest(size, d);
            let whole = decimal(q / ten(places));
            let part = padded(q % ten(places), places);
            &&& decimal_places(x, places) == (if x < 0 {
                "-"@
            } else {
                ""@
            }) + whole + "."@ + part
            &&& part.len() == places
            &&& value(whole) * ten(places) + value(part) == q
            &&& 2 * (size - d * q) <= d
            &&& 2 * (d * q - size) <= d
        }),
{
    let size = (if x < 0 {
        -x
    } else {
        x
    }) as nat;
    let d = ten((12 - places) as nat);
    law_padded_digits_fill_their_width(size, (12 - places) as nat);
    law_rounding_goes_to_the_nearest(size, d);
    let q = nearest(size, d);
    let t = ten(places);
    law_padded_digits_fill_their_width(q % t, places);
    law_digits_stand_for_their_number(q / t);
    vstd::arithmetic::div_mod::lemma_fundamental_div_mod(q as int, t as int);
    vstd::arithmetic::div_mod::lemma_mod_bound(q as int, t as int);
    vstd::arithmetic::div_mod::lemma_small_mod((q % t) as nat, t);
    assert((q / t) * t == t * (q / t)) by (nonlinear_arith);
}

} // verus!
