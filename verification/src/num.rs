//! Decimal text: rendering of unsigned integers and a capped decimal
//! scanner, with the facts that make round trips provable.

use vstd::prelude::*;

verus! {

pub open spec fn is_digit(c: char) -> bool {
    48 <= c as int && c as int <= 57
}

pub open spec fn digit_char(d: nat) -> char {
    if d == 0 {
        '0'
    } else if d == 1 {
        '1'
    } else if d == 2 {
        '2'
    } else if d == 3 {
        '3'
    } else if d == 4 {
        '4'
    } else if d == 5 {
        '5'
    } else if d == 6 {
        '6'
    } else if d == 7 {
        '7'
    } else if d == 8 {
        '8'
    } else {
        '9'
    }
}

pub open spec fn digit_val(c: char) -> int {
    c as int - 48
}

/// The canonical decimal rendering of `n`: no sign, no leading zero
/// (except for `n == 0` itself).
pub open spec fn dec(n: nat) -> Seq<char>
    decreases n,
{
    if n < 10 {
        seq![digit_char(n)]
    } else {
        dec(n / 10).push(digit_char(n % 10))
    }
}

pub open spec fn pow10(k: nat) -> int
    decreases k,
{
    if k == 0 {
        1
    } else {
        10 * pow10((k - 1) as nat)
    }
}

pub open spec fn all_digits(ds: Seq<char>) -> bool {
    forall|i: int| 0 <= i < ds.len() ==> is_digit(#[trigger] ds[i])
}

/// The numeric value of a digit sequence, most significant first.
pub open spec fn val_of(ds: Seq<char>) -> int
    decreases ds.len(),
{
    if ds.len() == 0 {
        0
    } else {
        digit_val(ds[0]) * pow10((ds.len() - 1) as nat) + val_of(ds.drop_first())
    }
}

pub proof fn lemma_pow10_pos(k: nat)
    ensures
        pow10(k) >= 1,
    decreases k,
{
    if k > 0 {
        lemma_pow10_pos((k - 1) as nat);
    }
}

pub proof fn lemma_dec_digits(n: nat)
    ensures
        dec(n).len() >= 1,
        all_digits(dec(n)),
    decreases n,
{
    if n < 10 {
        assert(is_digit(digit_char(n)));
    } else {
        lemma_dec_digits(n / 10);
        assert(is_digit(digit_char(n % 10)));
        assert(forall|i: int|
            0 <= i < dec(n).len() ==> is_digit(#[trigger] dec(n)[i])) by {
            assert(forall|i: int|
                0 <= i < dec(n / 10).len() ==> is_digit(#[trigger] dec(n / 10)[i]));
            assert(dec(n) == dec(n / 10).push(digit_char(n % 10)));
        }
    }
}

pub proof fn lemma_val_nonneg(ds: Seq<char>)
    requires
        all_digits(ds),
    ensures
        val_of(ds) >= 0,
    decreases ds.len(),
{
    if ds.len() > 0 {
        lemma_val_nonneg(ds.drop_first());
        lemma_pow10_pos((ds.len() - 1) as nat);
        assert(digit_val(ds[0]) >= 0);
        assert(digit_val(ds[0]) * pow10((ds.len() - 1) as nat) >= 0) by (nonlinear_arith)
            requires
                digit_val(ds[0]) >= 0,
                pow10((ds.len() - 1) as nat) >= 1,
        ;
    }
}

pub proof fn lemma_val_push(ds: Seq<char>, c: char)
    ensures
        val_of(ds.push(c)) == val_of(ds) * 10 + digit_val(c),
    decreases ds.len(),
{
    if ds.len() == 0 {
        assert(ds.push(c).drop_first() =~= Seq::<char>::empty());
        assert(val_of(Seq::<char>::empty()) == 0);
        assert(ds.push(c)[0] == c);
        assert(pow10(0) == 1);
        assert(val_of(ds.push(c)) == digit_val(c) * pow10(0) + 0);
        assert(digit_val(c) * 1 == digit_val(c));
    } else {
        lemma_val_push(ds.drop_first(), c);
        assert(ds.push(c).drop_first() =~= ds.drop_first().push(c));
        let l = (ds.len() - 1) as nat;
        assert(val_of(ds.push(c)) == digit_val(ds[0]) * pow10(ds.len() as nat) + val_of(
            ds.drop_first().push(c),
        ));
        assert(pow10(ds.len() as nat) == 10 * pow10(l));
        assert(digit_val(ds[0]) * (10 * pow10(l)) == (digit_val(ds[0]) * pow10(l)) * 10)
            by (nonlinear_arith);
    }
}

pub proof fn lemma_val_dec(n: nat)
    ensures
        val_of(dec(n)) == n,
    decreases n,
{
    if n < 10 {
        assert(dec(n) == seq![digit_char(n)]);
        assert(dec(n).drop_first() =~= Seq::<char>::empty());
        assert(val_of(Seq::<char>::empty()) == 0);
        assert(pow10(0) == 1);
        assert(digit_val(digit_char(n)) == n);
        assert(val_of(dec(n)) == digit_val(digit_char(n)) * 1 + 0);
    } else {
        lemma_val_dec(n / 10);
        lemma_val_push(dec(n / 10), digit_char(n % 10));
        assert(digit_val(digit_char(n % 10)) == n % 10);
    }
}

/// Greedy decimal scan: consumes digits from position `i`, keeping a
/// running value that must never exceed `cap`.
pub open spec fn parse_dec_loop(s: Seq<char>, i: int, acc: int, cap: int) -> Option<(int, int)>
    decreases s.len() - i,
{
    if 0 <= i && i < s.len() && is_digit(s[i]) {
        let acc2 = acc * 10 + digit_val(s[i]);
        if acc2 > cap {
            None
        } else {
            parse_dec_loop(s, i + 1, acc2, cap)
        }
    } else {
        Some((acc, i))
    }
}

/// A decimal number at position `i`: at least one digit, value at most
/// `cap`; the scan is greedy, so a following digit is never left behind.
pub open spec fn parse_dec_at(s: Seq<char>, i: int, cap: int) -> Option<(int, int)> {
    if 0 <= i && i < s.len() && is_digit(s[i]) {
        parse_dec_loop(s, i, 0, cap)
    } else {
        None
    }
}

proof fn lemma_parse_block(s: Seq<char>, i: int, ds: Seq<char>, acc: int, cap: int)
    requires
        0 <= i,
        i + ds.len() <= s.len(),
        all_digits(ds),
        s.subrange(i, i + ds.len()) == ds,
        i + ds.len() == s.len() || !is_digit(s[i + ds.len()]),
        acc >= 0,
        acc * pow10(ds.len() as nat) + val_of(ds) <= cap,
    ensures
        parse_dec_loop(s, i, acc, cap) == Some(
            (acc * pow10(ds.len() as nat) + val_of(ds), i + ds.len()),
        ),
    decreases ds.len(),
{
    if ds.len() == 0 {
        assert(i == s.len() || !is_digit(s[i]));
    } else {
        let l = (ds.len() - 1) as nat;
        assert(s[i] == ds[0]) by {
            assert(s.subrange(i, i + ds.len())[0] == s[i]);
        }
        assert(is_digit(ds[0]));
        let acc2 = acc * 10 + digit_val(ds[0]);
        let rest = ds.drop_first();
        assert(s.subrange(i + 1, i + 1 + rest.len()) =~= rest) by {
            assert(forall|k: int|
                0 <= k < rest.len() ==> s.subrange(i + 1, i + 1 + rest.len())[k] == #[trigger] rest[k])
                by {
                assert(forall|k: int|
                    0 <= k < ds.len() ==> s.subrange(i, i + ds.len())[k] == #[trigger] ds[k]);
            }
        }
        lemma_val_nonneg(rest);
        lemma_pow10_pos(l);
        // acc * pow10(|ds|) + val(ds) == acc2 * pow10(l) + val(rest)
        assert(val_of(ds) == digit_val(ds[0]) * pow10(l) + val_of(rest));
        assert(pow10(ds.len() as nat) == 10 * pow10(l));
        assert(acc * (10 * pow10(l)) + digit_val(ds[0]) * pow10(l) == (acc * 10 + digit_val(ds[0]))
            * pow10(l)) by (nonlinear_arith);
        assert(acc2 * pow10(l) + val_of(rest) == acc * pow10(ds.len() as nat) + val_of(ds));
        // acc2 stays within cap
        assert(acc2 <= acc2 * pow10(l)) by (nonlinear_arith)
            requires
                acc2 >= 0,
                pow10(l) >= 1,
        ;
        assert(acc2 <= cap);
        lemma_parse_block(s, i + 1, rest, acc2, cap);
    }
}

/// The round-trip fact for numbers: scanning the canonical rendering of
/// `n`, followed by a non-digit (or the end), yields exactly `n`.
pub proof fn lemma_parse_dec_of_dec(s: Seq<char>, i: int, n: nat, cap: int)
    requires
        0 <= i,
        i + dec(n).len() <= s.len(),
        s.subrange(i, i + dec(n).len()) == dec(n),
        i + dec(n).len() == s.len() || !is_digit(s[i + dec(n).len()]),
        n <= cap,
    ensures
        parse_dec_at(s, i, cap) == Some((n as int, i + dec(n).len())),
{
    lemma_dec_digits(n);
    lemma_val_dec(n);
    assert(s[i] == dec(n)[0]) by {
        assert(s.subrange(i, i + dec(n).len())[0] == s[i]);
    }
    lemma_parse_block(s, i, dec(n), 0, cap);
}

pub proof fn lemma_parse_dec_loop_bounds(s: Seq<char>, i: int, acc: int, cap: int)
    requires
        0 <= i <= s.len(),
        acc >= 0,
    ensures
        parse_dec_loop(s, i, acc, cap) matches Some(p) ==> i <= p.1 <= s.len() && p.0 >= 0,
    decreases s.len() - i,
{
    if 0 <= i && i < s.len() && is_digit(s[i]) {
        let acc2 = acc * 10 + digit_val(s[i]);
        if acc2 <= cap {
            lemma_parse_dec_loop_bounds(s, i + 1, acc2, cap);
        }
    }
}

/// A successful decimal scan moves forward and yields a value that is
/// not negative.
pub proof fn lemma_parse_dec_at_bounds(s: Seq<char>, i: int, cap: int)
    requires
        parse_dec_at(s, i, cap) is Some,
    ensures
        ({
            let p = parse_dec_at(s, i, cap).unwrap();
            i < p.1 <= s.len() && p.0 >= 0
        }),
{
    assert(0 <= i && i < s.len() && is_digit(s[i]));
    let acc2 = 0 * 10 + digit_val(s[i]);
    if acc2 > cap {
        assert(parse_dec_loop(s, i, 0, cap) is None);
    }
    lemma_parse_dec_loop_bounds(s, i + 1, acc2, cap);
}

// --- executable ---

pub fn char_is_digit(c: char) -> (b: bool)
    ensures
        b == is_digit(c),
{
    let u = c as u32;
    48 <= u && u <= 57
}

pub fn digit_of(c: char) -> (d: u32)
    requires
        is_digit(c),
    ensures
        d == digit_val(c),
{
    c as u32 - 48
}

fn digit_str(d: u64) -> (r: &'static str)
    requires
        d < 10,
    ensures
        r@ == seq![digit_char(d as nat)],
{
    proof {
        reveal_strlit("0");
        reveal_strlit("1");
        reveal_strlit("2");
        reveal_strlit("3");
        reveal_strlit("4");
        reveal_strlit("5");
        reveal_strlit("6");
        reveal_strlit("7");
        reveal_strlit("8");
        reveal_strlit("9");
    }
    if d == 0 {
        proof { assert("0"@ =~= seq![digit_char(d as nat)]); }
        "0"
    } else if d == 1 {
        proof { assert("1"@ =~= seq![digit_char(d as nat)]); }
        "1"
    } else if d == 2 {
        proof { assert("2"@ =~= seq![digit_char(d as nat)]); }
        "2"
    } else if d == 3 {
        proof { assert("3"@ =~= seq![digit_char(d as nat)]); }
        "3"
    } else if d == 4 {
        proof { assert("4"@ =~= seq![digit_char(d as nat)]); }
        "4"
    } else if d == 5 {
        proof { assert("5"@ =~= seq![digit_char(d as nat)]); }
        "5"
    } else if d == 6 {
        proof { assert("6"@ =~= seq![digit_char(d as nat)]); }
        "6"
    } else if d == 7 {
        proof { assert("7"@ =~= seq![digit_char(d as nat)]); }
        "7"
    } else if d == 8 {
        proof { assert("8"@ =~= seq![digit_char(d as nat)]); }
        "8"
    } else {
        proof { assert("9"@ =~= seq![digit_char(d as nat)]); }
        "9"
    }
}

spec fn digits_rev(rs: Seq<u64>) -> Seq<char> {
    rs.map_values(|d: u64| digit_char(d as nat)).reverse()
}

/// Renders `n` as its canonical decimal text.
pub fn u64_to_dec(n: u64) -> (r: String)
    ensures
        r@ == dec(n as nat),
{
    let mut rev: Vec<u64> = Vec::new();
    let mut m: u64 = n;
    while m >= 10
        invariant
            forall|k: int| 0 <= k < rev@.len() ==> #[trigger] rev@[k] < 10,
            dec(n as nat) == dec(m as nat) + digits_rev(rev@),
        decreases m,
    {
        let d = m % 10;
        proof {
            assert(digits_rev(rev@.push(d)) =~= seq![digit_char(d as nat)] + digits_rev(rev@));
            assert(dec(m as nat) == dec((m / 10) as nat).push(digit_char((m % 10) as nat)));
            assert(dec((m / 10) as nat).push(digit_char(d as nat)) =~= dec((m / 10) as nat) + seq![
                digit_char(d as nat),
            ]);
            assert(dec(m as nat) + digits_rev(rev@) =~= dec((m / 10) as nat) + digits_rev(
                rev@.push(d),
            ));
        }
        rev.push(d);
        m = m / 10;
    }
    let mut out = String::new();
    out.append(digit_str(m));
    proof {
        assert(out@ =~= seq![digit_char(m as nat)] + digits_rev(rev@).subrange(0, 0));
    }
    let mut k = rev.len();
    while k > 0
        invariant
            k <= rev@.len(),
            forall|kk: int| 0 <= kk < rev@.len() ==> #[trigger] rev@[kk] < 10,
            dec(n as nat) == dec(m as nat) + digits_rev(rev@),
            m < 10,
            out@ == seq![digit_char(m as nat)] + digits_rev(rev@).subrange(
                0,
                rev@.len() - k,
            ),
        decreases k,
    {
        let d = rev[k - 1];
        out.append(digit_str(d));
        proof {
            let mapped = rev@.map_values(|dd: u64| digit_char(dd as nat));
            assert(digits_rev(rev@)[rev@.len() - k] == mapped[k - 1]);
            assert(digits_rev(rev@).subrange(0, rev@.len() - k + 1) =~= digits_rev(
                rev@,
            ).subrange(0, rev@.len() - k).push(digit_char(rev@[k - 1] as nat)));
            assert(out@ =~= seq![digit_char(m as nat)] + digits_rev(rev@).subrange(
                0,
                rev@.len() - (k - 1),
            ));
        }
        k = k - 1;
    }
    proof {
        assert(digits_rev(rev@).subrange(0, rev@.len() as int) =~= digits_rev(rev@));
        assert(dec(m as nat) =~= seq![digit_char(m as nat)]);
        assert(out@ =~= dec(n as nat));
    }
    out
}

/// Scans a decimal number at position `i` of `s`, refusing values above
/// `cap`; returns the value and the position one past its last digit.
pub fn scan_dec(s: &str, n: usize, i: usize, cap: u128) -> (r: Option<(u128, usize)>)
    requires
        n == s@.len(),
        i <= n,
    ensures
        ({
            let sp = parse_dec_at(s@, i as int, cap as int);
            match r {
                Some(p) => sp == Some((p.0 as int, p.1 as int)) && i <= p.1 <= n && p.0 <= cap,
                None => sp is None,
            }
        }),
{
    if i >= n {
        return None;
    }
    let c0 = s.get_char(i);
    if !char_is_digit(c0) {
        return None;
    }
    let mut j = i;
    let mut acc: u128 = 0;
    loop
        invariant
            n == s@.len(),
            i <= j <= n,
            acc <= cap,
            parse_dec_loop(s@, i as int, 0, cap as int) == parse_dec_loop(
                s@,
                j as int,
                acc as int,
                cap as int,
            ),
            i < s@.len() && is_digit(s@[i as int]),
        decreases n - j,
    {
        if j >= n {
            return Some((acc, j));
        }
        let c = s.get_char(j);
        if !char_is_digit(c) {
            return Some((acc, j));
        }
        let d = digit_of(c);
        if acc > cap / 10 {
            proof {
                assert(cap == (cap / 10) * 10 + cap % 10);
                assert(acc * 10 >= ((cap / 10) + 1) * 10);
                assert(acc as int * 10 + digit_val(s@[j as int]) > cap);
            }
            return None;
        }
        proof {
            assert(acc * 10 <= (cap / 10) * 10 <= cap);
        }
        let acc10: u128 = acc * 10;
        if (d as u128) > cap - acc10 {
            return None;
        }
        acc = acc10 + d as u128;
        j = j + 1;
    }
}

} // verus!
