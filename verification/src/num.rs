use vstd::prelude::*;

verus! {

broadcast use vstd::string::next_postcondition, vstd::string::axiom_spec_iter;

/// The characters of a string, as a vector.
pub fn chars_of(s: &str) -> (v: Vec<char>)
    ensures
        v@ == s@,
{
    let mut v: Vec<char> = Vec::new();
    for c in it: s.chars()
        invariant
            it.seq() == s@,
            v@.len() == it.index(),
            forall|i: int| 0 <= i < v@.len() ==> v@[i] == it.seq()[i],
    {
        v.push(c);
    }
    proof {
        assert(v@ =~= s@);
    }
    v
}

/// An ASCII decimal digit.
pub open spec fn is_digit(c: char) -> bool {
    '0' <= c <= '9'
}

/// The value of one digit.
pub open spec fn digit_val(c: char) -> int {
    c as int - '0' as int
}

/// The value of a digit string read in base ten.
pub open spec fn digits_val(s: Seq<char>) -> int
    decreases s.len(),
{
    if s.len() == 0 {
        0
    } else {
        digits_val(s.drop_last()) * 10 + digit_val(s.last())
    }
}

/// The first position at or after `i` that does not hold a digit.
pub open spec fn digits_end(s: Seq<char>, i: int) -> int
    decreases s.len() - i,
{
    if i < 0 || i >= s.len() || !is_digit(s[i]) {
        i
    } else {
        digits_end(s, i + 1)
    }
}

pub proof fn lemma_digits_end(s: Seq<char>, i: int)
    requires
        0 <= i <= s.len(),
    ensures
        i <= digits_end(s, i) <= s.len(),
        forall|j: int| i <= j < digits_end(s, i) ==> is_digit(#[trigger] s[j]),
        digits_end(s, i) < s.len() ==> !is_digit(s[digits_end(s, i)]),
    decreases s.len() - i,
{
    if i < s.len() && is_digit(s[i]) {
        lemma_digits_end(s, i + 1);
    }
}

pub proof fn lemma_digits_nonneg(s: Seq<char>)
    requires
        forall|j: int| 0 <= j < s.len() ==> is_digit(#[trigger] s[j]),
    ensures
        digits_val(s) >= 0,
    decreases s.len(),
{
    if s.len() > 0 {
        assert(forall|j: int| 0 <= j < s.drop_last().len() ==> is_digit(#[trigger] s.drop_last()[j]));
        lemma_digits_nonneg(s.drop_last());
    }
}

/// A digit string is worth at least any of its prefixes.
pub proof fn lemma_digits_prefix(s: Seq<char>, k: int)
    requires
        forall|j: int| 0 <= j < s.len() ==> is_digit(#[trigger] s[j]),
        0 <= k <= s.len(),
    ensures
        0 <= digits_val(s.take(k)) <= digits_val(s),
    decreases s.len() - k,
{
    assert(forall|j: int| 0 <= j < s.take(k).len() ==> is_digit(#[trigger] s.take(k)[j]));
    lemma_digits_nonneg(s.take(k));
    if k == s.len() {
        assert(s.take(k) =~= s);
    } else {
        lemma_digits_prefix(s, k + 1);
        assert(s.take(k + 1).drop_last() =~= s.take(k));
        assert(s.take(k + 1).last() == s[k]);
        assert(digit_val(s[k]) >= 0);
    }
}

/// Where the number's digits start: after one optional sign character.
pub open spec fn body_start(s: Seq<char>) -> int {
    if s.len() > 0 && (s[0] == '-' || s[0] == '+') {
        1
    } else {
        0
    }
}

/// The number's sign.
pub open spec fn sign_of(s: Seq<char>) -> int {
    if s.len() > 0 && s[0] == '-' {
        -1
    } else {
        1
    }
}

/// A plain integer: an optional sign, then one or more digits to the end.
pub open spec fn is_int_str(s: Seq<char>) -> bool {
    let b = body_start(s);
    let p = digits_end(s, b);
    p == s.len() && p > b
}

/// The value of a plain integer string.
pub open spec fn int_val(s: Seq<char>) -> int {
    sign_of(s) * digits_val(s.subrange(body_start(s), digits_end(s, body_start(s))))
}

/// A plain integer that fits in an `i32`.
pub open spec fn is_i32_str(s: Seq<char>) -> bool {
    is_int_str(s) && i32::MIN <= int_val(s) <= i32::MAX
}

fn digit_of(c: char) -> (d: Option<u8>)
    ensures
        d is Some <==> is_digit(c),
        d matches Some(v) ==> v as int == digit_val(c),
{
    let u = c as u32;
    if 48 <= u && u <= 57 {
        Some((u - 48) as u8)
    } else {
        None
    }
}

/// Parse a whole-number string as an `i32`: exactly the strings of the plain
/// integer grammar whose value fits are accepted.
pub fn parse_i32(s: &str) -> (r: Option<i32>)
    ensures
        r is Some <==> is_i32_str(s@),
        r matches Some(v) ==> v as int == int_val(s@),
{
    let cs = chars_of(s);
    let n = cs.len();
    let mut i: usize = 0;
    let mut neg = false;
    if n > 0 && cs[0] == '-' {
        neg = true;
        i = 1;
    } else if n > 0 && cs[0] == '+' {
        i = 1;
    }
    let ghost b = body_start(s@);
    proof {
        assert(i as int == b);
        lemma_digits_end(s@, b);
    }
    let ghost p = digits_end(s@, b);
    let mut acc: i64 = 0;
    let mut j = i;
    while j < n && digit_of(cs[j]).is_some()
        invariant
            cs@ == s@,
            n == s@.len(),
            b <= j <= p <= n,
            b == body_start(s@),
            p == digits_end(s@, b),
            i as int == b,
            0 <= i <= j,
            forall|k: int| b <= k < digits_end(s@, b) ==> is_digit(#[trigger] s@[k]),
            p < n ==> !is_digit(s@[p as int]),
            acc == digits_val(s@.subrange(b, j as int)),
            0 <= acc <= 2_147_483_648,
        decreases n - j,
    {
        let d = match digit_of(cs[j]) {
            Some(d) => d,
            None => 0,
        };
        proof {
            assert(is_digit(s@[j as int]));
            assert(j < p) by {
                if j == p {
                    assert(!is_digit(s@[p as int]));
                }
            }
        }
        acc = acc * 10 + d as i64;
        proof {
            assert(s@.subrange(b, j + 1).drop_last() =~= s@.subrange(b, j as int));
            assert(s@.subrange(b, j + 1).last() == s@[j as int]);
        }
        j = j + 1;
        if acc > 2_147_483_648 {
            proof {
                let body = s@.subrange(b, p);
                assert(forall|k: int| 0 <= k < body.len() ==> is_digit(#[trigger] body[k]));
                lemma_digits_prefix(body, j - b);
                assert(body.take(j - b) =~= s@.subrange(b, j as int));
                assert(digits_val(body) >= acc);
            }
            return None;
        }
    }
    proof {
        assert(j as int == p) by {
            if (j as int) < p {
                assert(is_digit(s@[j as int]));
            }
        }
    }
    if j == i {
        return None;
    }
    if j < n {
        return None;
    }
    proof {
        assert(is_int_str(s@));
        assert(acc == digits_val(s@.subrange(b, p)));
    }
    if neg {
        proof {
            assert(sign_of(s@) == -1);
        }
        Some((-acc) as i32)
    } else {
        if acc > 2_147_483_647 {
            return None;
        }
        proof {
            assert(sign_of(s@) == 1);
        }
        Some(acc as i32)
    }
}

/// Ten to the thirteenth: integer parts of amounts stay below this, so that
/// every amount in cents stays below `MAX_CENTS`.
pub const MAX_MONEY_UNITS: i64 = 10_000_000_000_000;

/// A decimal amount: an optional sign, one or more digits, then optionally a
/// point and one or two fraction digits; the integer part stays below
/// `MAX_MONEY_UNITS`.
pub open spec fn is_money_str(s: Seq<char>) -> bool {
    let b = body_start(s);
    let p = digits_end(s, b);
    &&& p > b
    &&& digits_val(s.subrange(b, p)) < MAX_MONEY_UNITS
    &&& (p == s.len() || (s[p] == '.' && digits_end(s, p + 1) == s.len() && 1 <= s.len() - (p + 1)
        <= 2))
}

/// The fraction of an amount, in cents.
pub open spec fn frac_cents(s: Seq<char>) -> int {
    let p = digits_end(s, body_start(s));
    if p == s.len() {
        0
    } else {
        let f = s.subrange(p + 1, s.len() as int);
        if f.len() == 1 {
            digit_val(f[0]) * 10
        } else {
            digits_val(f)
        }
    }
}

/// The value of a decimal amount string, in cents.
pub open spec fn cents_val(s: Seq<char>) -> int {
    sign_of(s) * (digits_val(s.subrange(body_start(s), digits_end(s, body_start(s)))) * 100
        + frac_cents(s))
}

/// Parse a decimal amount string into cents: exactly the strings of the
/// amount grammar are accepted, and the value is exact.
pub fn parse_cents(s: &str) -> (r: Option<i64>)
    ensures
        r is Some <==> is_money_str(s@),
        r matches Some(v) ==> v as int == cents_val(s@) && -crate::model::MAX_CENTS <= v
            <= crate::model::MAX_CENTS,
{
    let cs = chars_of(s);
    let n = cs.len();
    let mut i: usize = 0;
    let mut neg = false;
    if n > 0 && cs[0] == '-' {
        neg = true;
        i = 1;
    } else if n > 0 && cs[0] == '+' {
        i = 1;
    }
    let ghost b = body_start(s@);
    proof {
        assert(i as int == b);
        lemma_digits_end(s@, b);
    }
    let ghost p = digits_end(s@, b);
    let mut acc: i64 = 0;
    let mut j = i;
    while j < n && digit_of(cs[j]).is_some()
        invariant
            cs@ == s@,
            n == s@.len(),
            b <= j <= p <= n,
            b == body_start(s@),
            p == digits_end(s@, b),
            i as int == b,
            0 <= i <= j,
            forall|k: int| b <= k < digits_end(s@, b) ==> is_digit(#[trigger] s@[k]),
            p < n ==> !is_digit(s@[p as int]),
            acc == digits_val(s@.subrange(b, j as int)),
            0 <= acc < MAX_MONEY_UNITS,
        decreases n - j,
    {
        let d = match digit_of(cs[j]) {
            Some(d) => d,
            None => 0,
        };
        proof {
            assert(is_digit(s@[j as int]));
            assert(j < p) by {
                if j == p {
                    assert(!is_digit(s@[p as int]));
                }
            }
        }
        acc = acc * 10 + d as i64;
        proof {
            assert(s@.subrange(b, j + 1).drop_last() =~= s@.subrange(b, j as int));
            assert(s@.subrange(b, j + 1).last() == s@[j as int]);
        }
        j = j + 1;
        if acc >= MAX_MONEY_UNITS {
            proof {
                let body = s@.subrange(b, p);
                assert(forall|k: int| 0 <= k < body.len() ==> is_digit(#[trigger] body[k]));
                lemma_digits_prefix(body, j - b);
                assert(body.take(j - b) =~= s@.subrange(b, j as int));
                assert(digits_val(body) >= acc);
            }
            return None;
        }
    }
    proof {
        assert(j as int == p) by {
            if (j as int) < p {
                assert(is_digit(s@[j as int]));
            }
        }
    }
    if j == i {
        return None;
    }
    let units = acc;
    let frac: i64;
    if j == n {
        frac = 0;
    } else if cs[j] == '.' {
        let f0 = j + 1;
        if n - f0 == 1 {
            let d = match digit_of(cs[f0]) {
                Some(d) => d,
                None => {
                    proof {
                        assert(!is_digit(s@[f0 as int]));
                        assert(digits_end(s@, p + 1) == p + 1) by {
                            lemma_digits_end(s@, p + 1);
                        }
                    }
                    return None;
                },
            };
            frac = d as i64 * 10;
            proof {
                lemma_digits_end(s@, p + 1);
                assert(digits_end(s@, p + 1) == s@.len()) by {
                    if digits_end(s@, p + 1) < s@.len() {
                        assert(!is_digit(s@[digits_end(s@, p + 1)]));
                        assert(digits_end(s@, p + 1) == f0 as int);
                    }
                }
                assert(s@.subrange(p + 1, s@.len() as int).len() == 1);
                assert(s@.subrange(p + 1, s@.len() as int)[0] == s@[f0 as int]);
            }
        } else if n - f0 == 2 {
            let d1 = match digit_of(cs[f0]) {
                Some(d) => d,
                None => {
                    proof {
                        lemma_digits_end(s@, p + 1);
                        assert(digits_end(s@, p + 1) == p + 1);
                    }
                    return None;
                },
            };
            let d2 = match digit_of(cs[f0 + 1]) {
                Some(d) => d,
                None => {
                    proof {
                        lemma_digits_end(s@, p + 1);
                        assert(digits_end(s@, p + 1) != s@.len()) by {
                            if digits_end(s@, p + 1) == s@.len() {
                                assert(is_digit(s@[f0 + 1]));
                            }
                        }
                    }
                    return None;
                },
            };
            frac = d1 as i64 * 10 + d2 as i64;
            proof {
                lemma_digits_end(s@, p + 1);
                assert(digits_end(s@, p + 1) == s@.len()) by {
                    if digits_end(s@, p + 1) < s@.len() {
                        assert(!is_digit(s@[digits_end(s@, p + 1)]));
                    }
                }
                let f = s@.subrange(p + 1, s@.len() as int);
                assert(f.len() == 2);
                assert(f.drop_last() =~= seq![s@[f0 as int]]);
                assert(seq![s@[f0 as int]].drop_last() =~= Seq::<char>::empty());
                assert(digits_val(Seq::<char>::empty()) == 0);
                assert(digits_val(seq![s@[f0 as int]]) == digit_val(s@[f0 as int]));
                assert(f.last() == s@[f0 + 1]);
                assert(digits_val(f) == digit_val(s@[f0 as int]) * 10 + digit_val(s@[f0 + 1]));
            }
        } else {
            proof {
                if is_money_str(s@) {
                    assert(1 <= s@.len() - (p + 1) <= 2);
                }
            }
            return None;
        }
    } else {
        proof {
            assert(s@[p as int] != '.');
        }
        return None;
    }
    proof {
        assert(is_money_str(s@));
        assert(units == digits_val(s@.subrange(b, p)));
        assert(frac == frac_cents(s@));
        assert(0 <= frac <= 99);
    }
    let cents = units * 100 + frac;
    if neg {
        proof {
            assert(sign_of(s@) == -1);
        }
        Some(-cents)
    } else {
        proof {
            assert(sign_of(s@) == 1);
        }
        Some(cents)
    }
}

} // verus!
