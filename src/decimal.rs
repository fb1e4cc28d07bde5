use vstd::prelude::*;
use crate::units::UNIT;

verus! {

/// Largest integer part whose micro-unit value still fits in 64 bits.
pub const INT_PART_LIMIT: u64 = 18_446_744_073_709;

pub open spec fn is_digit(c: char) -> bool {
    '0' <= c && c <= '9'
}

pub open spec fn all_digits(s: Seq<char>) -> bool {
    forall|i: int| 0 <= i < s.len() ==> is_digit(#[trigger] s[i])
}

/// The number that a string of decimal digits spells.
pub open spec fn digits_value(s: Seq<char>) -> int
    decreases s.len(),
{
    if s.len() == 0 {
        0
    } else {
        digits_value(s.drop_last()) * 10 + (s.last() as int - '0' as int)
    }
}

pub open spec fn pow10(k: nat) -> int
    decreases k,
{
    if k == 0 {
        1
    } else {
        10 * pow10((k - 1) as nat)
    }
}

/// Index of the first `'.'` at or after `i`, or -1.
pub open spec fn dot_from(s: Seq<char>, i: int) -> int
    decreases s.len() - i,
{
    if i < 0 || i >= s.len() {
        -1
    } else if s[i] == '.' {
        i
    } else {
        dot_from(s, i + 1)
    }
}

/// The micro-unit value of a decimal `I` or `I.F`: digits only, at most six after the
/// point, at least one digit in all.
pub open spec fn decimal_value(s: Seq<char>) -> Option<int> {
    let k = dot_from(s, 0);
    if k < 0 {
        if s.len() > 0 && all_digits(s) {
            Some(digits_value(s) * UNIT)
        } else {
            None
        }
    } else {
        let ip = s.take(k);
        let fp = s.skip(k + 1);
        if all_digits(ip) && all_digits(fp) && fp.len() <= 6 && s.len() > 1 {
            Some(digits_value(ip) * UNIT + digits_value(fp) * pow10((6 - fp.len()) as nat))
        } else {
            None
        }
    }
}

proof fn lemma_digits_nonneg(s: Seq<char>)
    requires
        all_digits(s),
    ensures
        digits_value(s) >= 0,
    decreases s.len(),
{
    if s.len() > 0 {
        lemma_digits_nonneg(s.drop_last());
    }
}

proof fn lemma_digits_prefix_le(s: Seq<char>, i: int, j: int)
    requires
        0 <= i <= j <= s.len(),
        all_digits(s),
    ensures
        digits_value(s.take(i)) <= digits_value(s.take(j)),
    decreases j - i,
{
    if i < j {
        lemma_digits_prefix_le(s, i, j - 1);
        assert(s.take(j).drop_last() =~= s.take(j - 1));
        lemma_digits_nonneg(s.take(j - 1));
    }
}

proof fn lemma_digits_bound(s: Seq<char>)
    requires
        all_digits(s),
    ensures
        0 <= digits_value(s) < pow10(s.len()),
    decreases s.len(),
{
    if s.len() > 0 {
        lemma_digits_bound(s.drop_last());
    }
}

/// Parses a decimal string into micro-units (see `decimal_value`); `None` when the text is
/// not such a decimal or its value does not fit in 64 bits.
pub fn parse_micro(s: &str) -> (r: Option<u64>)
    ensures
        r.is_some() <==> (decimal_value(s@).is_some() && decimal_value(s@).unwrap() <= u64::MAX),
        r.is_some() ==> r.unwrap() as int == decimal_value(s@).unwrap(),
{
    let n = s.unicode_len();
    let ghost sv = s@;
    let mut ip: u64 = 0;
    let mut i: usize = 0;
    let mut found: bool = false;
    while i < n && !found
        invariant
            n == sv.len(),
            sv == s@,
            i <= n,
            all_digits(sv.take(i as int)),
            ip as int == digits_value(sv.take(i as int)),
            ip <= INT_PART_LIMIT,
            dot_from(sv, 0) == dot_from(sv, i as int),
            found ==> i < n && sv[i as int] == '.',
        decreases n - i + (if found { 0int } else { 1int }),
    {
        let c = s.get_char(i);
        if c == '.' {
            found = true;
        } else {
            if !('0' <= c && c <= '9') {
                proof {
                    assert(dot_from(sv, 0) == dot_from(sv, i as int + 1));
                    lemma_no_dot_rejects(sv, i as int);
                }
                return None;
            }
            assert(sv.take(i as int + 1).drop_last() =~= sv.take(i as int));
            let d = (c as u32 - '0' as u32) as u64;
            let next: u64 = ip * 10 + d;
            if next > INT_PART_LIMIT {
                proof {
                    lemma_big_rejects(sv, i as int + 1);
                }
                return None;
            }
            ip = next;
            i = i + 1;
        }
    }
    if !found {
        proof {
            assert(sv.take(i as int) =~= sv);
            lemma_no_dot_from_end(sv, i as int);
        }
        if n == 0 {
            return None;
        }
        return Some(ip * UNIT);
    }
    assert(dot_from(sv, 0) == i as int);
    let mut fp: u64 = 0;
    let mut j: usize = i + 1;
    proof {
        lemma_pow10_add(0, 6);
    }
    while j < n
        invariant
            n == sv.len(),
            sv == s@,
            i < n,
            i + 1 <= j <= n,
            j - (i + 1) <= 6,
            dot_from(sv, 0) == i as int,
            all_digits(sv.skip(i as int + 1).take(j - (i + 1))),
            fp as int == digits_value(sv.skip(i as int + 1).take(j - (i + 1))),
            fp < pow10((j - (i + 1)) as nat),
        decreases n - j,
    {
        let c = s.get_char(j);
        let ghost fs = sv.skip(i as int + 1);
        let ghost cnt = j - (i + 1);
        if !('0' <= c && c <= '9') || j - (i + 1) >= 6 {
            proof {
                if !('0' <= c && c <= '9') {
                    assert(fs[j - (i + 1)] == c);
                    assert(!all_digits(fs));
                } else {
                    assert(fs.len() > 6);
                }
            }
            return None;
        }
        assert(fs.take(j - (i + 1) + 1).drop_last() =~= fs.take(j - (i + 1)));
        proof {
            lemma_pow10_add(cnt as nat, (6 - cnt) as nat);
            lemma_pow10_pos((6 - cnt) as nat);
            lemma_pow10_add(cnt as nat, 1);
            lemma_pow10_small();
            lemma_pow10_small();
            assert(pow10(cnt as nat) <= 1_000_000) by (nonlinear_arith)
                requires
                    pow10(cnt as nat) * pow10((6 - cnt) as nat) == 1_000_000,
                    pow10((6 - cnt) as nat) > 0,
                    pow10(cnt as nat) >= 0,
            ;
        }
        let d = (c as u32 - '0' as u32) as u64;
        fp = fp * 10 + d;
        j = j + 1;
    }
    let ghost fs = sv.skip(i as int + 1);
    assert(fs.take(j - (i + 1)) =~= fs);
    if n == 1 {
        return None;
    }
    let k: usize = j - (i + 1);
    let mut scale: u64 = 1;
    let mut m: usize = k;
    while m < 6
        invariant
            k <= m <= 6,
            scale as int == pow10((m - k) as nat),
        decreases 6 - m,
    {
        proof {
            lemma_pow10_add((m - k) as nat, (6 - m) as nat);
            lemma_pow10_pos((6 - m) as nat);
            lemma_pow10_pos((6 - k) as nat);
            lemma_pow10_add((m - k) as nat, 1);
            lemma_pow10_small();
            lemma_pow10_add((6 - k) as nat, k as nat);
            lemma_pow10_pos(k as nat);
            lemma_pow10_small();
            assert(pow10((6 - k) as nat) <= 1_000_000) by (nonlinear_arith)
                requires
                    pow10((6 - k) as nat) * pow10(k as nat) == 1_000_000,
                    pow10(k as nat) > 0,
            ;
            assert(pow10((m - k) as nat) * 10 <= 1_000_000) by (nonlinear_arith)
                requires
                    pow10((m - k) as nat) * pow10((6 - m) as nat) == pow10((6 - k) as nat),
                    pow10((6 - m) as nat) >= 10,
                    pow10((6 - k) as nat) <= 1_000_000,
            ;
        }
        scale = scale * 10;
        m = m + 1;
    }
    proof {
        lemma_pow10_add(k as nat, (6 - k) as nat);
        lemma_pow10_small();
        assert(fp * scale < 1_000_000) by (nonlinear_arith)
            requires
                fp < pow10(k as nat),
                scale == pow10((6 - k) as nat),
                pow10(k as nat) * pow10((6 - k) as nat) == 1_000_000,
                fp >= 0,
                scale >= 0,
        ;
    }
    let total: u128 = (ip as u128) * (UNIT as u128) + (fp as u128) * (scale as u128);
    if total > u64::MAX as u128 {
        return None;
    }
    assert(sv.take(i as int) =~= sv.take(dot_from(sv, 0)));
    Some(total as u64)
}

proof fn lemma_dot_from_range(s: Seq<char>, j: int)
    requires
        0 <= j,
    ensures
        dot_from(s, j) == -1 || (j <= dot_from(s, j) < s.len() && s[dot_from(s, j)] == '.'),
    decreases s.len() - j,
{
    if j < s.len() && s[j] != '.' {
        lemma_dot_from_range(s, j + 1);
    }
}

proof fn lemma_dot_from_skips_digits(s: Seq<char>, i: int)
    requires
        0 <= i <= s.len(),
        all_digits(s.take(i)),
    ensures
        dot_from(s, 0) == dot_from(s, i),
    decreases i,
{
    if i > 0 {
        assert(all_digits(s.take(i - 1))) by {
            assert forall|k: int| 0 <= k < i - 1 implies is_digit(#[trigger] s.take(i - 1)[k]) by {
                assert(s.take(i)[k] == s[k]);
            }
        }
        lemma_dot_from_skips_digits(s, i - 1);
        assert(s.take(i)[i - 1] == s[i - 1]);
    }
}

proof fn lemma_pow10_small()
    ensures
        pow10(1) == 10,
        pow10(6) == 1_000_000,
{
    reveal_with_fuel(pow10, 7);
}

proof fn lemma_pow10_add(a: nat, b: nat)
    ensures
        pow10(a) * pow10(b) == pow10(a + b),
    decreases a,
{
    if a > 0 {
        lemma_pow10_add((a - 1) as nat, b);
        assert(pow10(a) * pow10(b) == 10 * (pow10((a - 1) as nat) * pow10(b))) by (nonlinear_arith)
            requires
                pow10(a) == 10 * pow10((a - 1) as nat),
        ;
    }
}

proof fn lemma_pow10_pos(k: nat)
    ensures
        pow10(k) > 0,
    decreases k,
{
    if k > 0 {
        lemma_pow10_pos((k - 1) as nat);
    }
}

proof fn lemma_no_dot_rejects(s: Seq<char>, i: int)
    requires
        0 <= i < s.len(),
        !is_digit(s[i]),
        s[i] != '.',
        dot_from(s, 0) == dot_from(s, i + 1),
    ensures
        decimal_value(s).is_none(),
{
    lemma_dot_from_range(s, i + 1);
    let k = dot_from(s, 0);
    if k >= 0 {
        assert(s.take(k)[i] == s[i]);
    }
}

proof fn lemma_big_rejects(s: Seq<char>, i: int)
    requires
        0 < i <= s.len(),
        all_digits(s.take(i)),
        digits_value(s.take(i)) > INT_PART_LIMIT,
    ensures
        decimal_value(s).is_none() || decimal_value(s).unwrap() > u64::MAX,
{
    lemma_dot_from_skips_digits(s, i);
    lemma_dot_from_range(s, i);
    let k = dot_from(s, 0);
    if decimal_value(s).is_some() {
        if k < 0 {
            lemma_digits_prefix_le(s, i, s.len() as int);
            assert(s.take(s.len() as int) =~= s);
            assert(digits_value(s) * UNIT > u64::MAX) by (nonlinear_arith)
                requires
                    digits_value(s) > INT_PART_LIMIT,
            ;
        } else {
            let ip = s.take(k);
            let fp = s.skip(k + 1);
            assert(ip.take(i) =~= s.take(i));
            lemma_digits_prefix_le(ip, i, k);
            assert(ip.take(k) =~= ip);
            lemma_digits_nonneg(fp);
            lemma_pow10_pos((6 - fp.len()) as nat);
            assert(digits_value(fp) * pow10((6 - fp.len()) as nat) >= 0) by (nonlinear_arith)
                requires
                    digits_value(fp) >= 0,
                    pow10((6 - fp.len()) as nat) > 0,
            ;
            assert(digits_value(ip) * UNIT > u64::MAX) by (nonlinear_arith)
                requires
                    digits_value(ip) > INT_PART_LIMIT,
            ;
        }
    }
}

proof fn lemma_no_dot_from_end(s: Seq<char>, i: int)
    requires
        i == s.len(),
    ensures
        dot_from(s, i) == -1,
{
}

} // verus!
