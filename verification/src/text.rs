//! Text utilities: case folding and trimming (delegated to the standard
//! library), verified parsing of unsigned numbers, and verified
//! lexicographic comparison of character sequences.

use vstd::prelude::*;

verus! {

broadcast use vstd::utf8::char_is_scalar, vstd::utf8::char_u32_cast;

/// The case-folded form of a character sequence, as `str::to_lowercase`
/// computes it. The result depends on the characters alone.
pub uninterp spec fn lower_of(s: Seq<char>) -> Seq<char>;

/// The form of a character sequence with leading and trailing whitespace
/// removed, as `str::trim` computes it. The result depends on the
/// characters alone.
pub uninterp spec fn trim_of(s: Seq<char>) -> Seq<char>;

/// Relies on str::to_lowercase: returns the lowercase equivalent of the
/// slice, a function of its characters alone.
#[verifier::external_body]
pub(crate) fn fold_lower(s: &str) -> (r: String)
    ensures
        r@ == lower_of(s@),
{
    s.to_lowercase()
}

/// Relies on str::trim: returns the slice with leading and trailing
/// whitespace removed, a function of its characters alone.
#[verifier::external_body]
pub(crate) fn trim_ws(s: &str) -> (r: &str)
    ensures
        r@ == trim_of(s@),
{
    s.trim()
}

/// The numeric value of one digit character under the given radix, or `-1`
/// where the character is no digit of that radix. Letters serve as digits
/// from ten upward, in either case.
pub open spec fn digit_value(c: char, radix: int) -> int {
    let v = if '0' <= c && c <= '9' {
        c as int - '0' as int
    } else if 'a' <= c && c <= 'f' {
        c as int - 'a' as int + 10
    } else if 'A' <= c && c <= 'F' {
        c as int - 'A' as int + 10
    } else {
        -1
    };
    if 0 <= v < radix {
        v
    } else {
        -1
    }
}

/// True when every character of the sequence is a digit of the radix.
pub open spec fn all_digits(s: Seq<char>, radix: int) -> bool {
    forall|i: int| 0 <= i < s.len() ==> digit_value(#[trigger] s[i], radix) >= 0
}

/// The value of a digit string read most-significant first.
pub open spec fn digits_val(s: Seq<char>, radix: int) -> int
    decreases s.len(),
{
    if s.len() == 0 {
        0
    } else {
        digits_val(s.drop_last(), radix) * radix + digit_value(s.last(), radix)
    }
}

/// What parsing an unsigned 64-bit number from a string yields: after an
/// optional leading plus sign, at least one digit of the radix and nothing
/// else, with the value within range; anything else is no number.
pub open spec fn spec_parse_u64(s: Seq<char>, radix: int) -> Option<u64> {
    let body = if s.len() >= 1 && s[0] == '+' {
        s.skip(1)
    } else {
        s
    };
    if body.len() > 0 && all_digits(body, radix) && digits_val(body, radix) <= u64::MAX {
        Some(digits_val(body, radix) as u64)
    } else {
        None
    }
}

/// A digit string's value is nonnegative.
proof fn lemma_digits_val_nonneg(s: Seq<char>, radix: int)
    requires
        radix >= 2,
        all_digits(s, radix),
    ensures
        digits_val(s, radix) >= 0,
    decreases s.len(),
{
    if s.len() > 0 {
        let pre = s.drop_last();
        assert(forall|i: int| 0 <= i < pre.len() ==> pre[i] == s[i]);
        lemma_digits_val_nonneg(pre, radix);
        assert(digits_val(pre, radix) * radix >= 0) by (nonlinear_arith)
            requires
                digits_val(pre, radix) >= 0,
                radix >= 2,
        ;
    }
}

/// Reading more digits never shrinks the value.
proof fn lemma_digits_val_grows(s: Seq<char>, radix: int, j: int)
    requires
        radix >= 2,
        all_digits(s, radix),
        0 <= j <= s.len(),
    ensures
        digits_val(s.take(j), radix) <= digits_val(s, radix),
    decreases s.len() - j,
{
    if j == s.len() {
        assert(s.take(j) =~= s);
    } else {
        lemma_digits_val_grows(s, radix, j + 1);
        let t = s.take(j + 1);
        assert(t.drop_last() =~= s.take(j));
        assert(t.last() == s[j]);
        let v = digits_val(s.take(j), radix);
        assert(forall|i: int| 0 <= i < j ==> s.take(j)[i] == s[i]);
        assert(all_digits(s.take(j), radix));
        lemma_digits_val_nonneg(s.take(j), radix);
        assert(v * radix >= v) by (nonlinear_arith)
            requires
                v >= 0,
                radix >= 2,
        ;
        assert(digits_val(t, radix) == v * radix + digit_value(s[j], radix));
        assert(digits_val(t, radix) >= v);
    }
}

/// Parses an unsigned 64-bit number: an optional leading plus sign, then at
/// least one digit of the radix; rejects anything else, and any value that
/// does not fit.
pub fn parse_u64_radix(s: &str, radix: u64) -> (r: Option<u64>)
    requires
        radix == 10 || radix == 16,
    ensures
        r == spec_parse_u64(s@, radix as int),
{
    let n = s.unicode_len();
    let ghost body: Seq<char> = if s@.len() >= 1 && s@[0] == '+' {
        s@.skip(1)
    } else {
        s@
    };
    let mut i: usize = 0;
    if n >= 1 && s.get_char(0) == '+' {
        i = 1;
    }
    proof {
        assert(forall|k: int| 0 <= k < body.len() ==> body[k] == s@[k + i]);
    }
    if i >= n {
        return None;
    }
    let mut acc: u64 = 0;
    let mut j: usize = i;
    proof {
        assert(body.take(0) =~= Seq::<char>::empty());
    }
    while j < n
        invariant
            radix == 10 || radix == 16,
            n == s@.len(),
            i <= 1,
            i <= j <= n,
            n > i,
            body.len() == n - i,
            body == (if s@.len() >= 1 && s@[0] == '+' {
                s@.skip(1)
            } else {
                s@
            }),
            forall|k: int| 0 <= k < body.len() ==> body[k] == s@[k + i],
            all_digits(body.take(j - i), radix as int),
            acc == digits_val(body.take(j - i), radix as int),
        decreases n - j,
    {
        let c = s.get_char(j);
        proof {
            assert(body[j - i] == s@[j as int]);
        }
        let dv: u64 = if c >= '0' && c <= '9' {
            (c as u32 - '0' as u32) as u64
        } else if radix == 16 && c >= 'a' && c <= 'f' {
            (c as u32 - 'a' as u32 + 10) as u64
        } else if radix == 16 && c >= 'A' && c <= 'F' {
            (c as u32 - 'A' as u32 + 10) as u64
        } else {
            proof {
                assert(digit_value(body[j - i], radix as int) < 0);
            }
            return None;
        };
        proof {
            assert(digit_value(body[j - i], radix as int) == dv as int);
        }
        let limit = (u64::MAX - dv) / radix;
        let ghost t = body.take(j - i + 1);
        proof {
            assert(t.drop_last() =~= body.take(j - i));
            assert(t.last() == body[j - i]);
            assert(digits_val(t, radix as int) == acc * (radix as int) + dv);
            assert(forall|k: int| 0 <= k < t.len() ==> t[k] == body[k]);
            assert(all_digits(t, radix as int));
        }
        if acc > limit {
            proof {
                let m = u64::MAX as int;
                let r = radix as int;
                let q = (m - dv) / r;
                vstd::arithmetic::div_mod::lemma_fundamental_div_mod(m - dv, r);
                assert(m - dv == r * q + (m - dv) % r);
                assert((m - dv) % r < r);
                assert(acc >= q + 1);
                vstd::arithmetic::mul::lemma_mul_inequality(q + 1, acc as int, r);
                assert((q + 1) * r <= acc * r);
                assert((q + 1) * r == q * r + r) by (nonlinear_arith);
                assert(q * r == r * q) by (nonlinear_arith);
                assert(acc * r + dv > m);
                assert(digits_val(t, radix as int) > u64::MAX);
                if all_digits(body, radix as int) {
                    lemma_digits_val_grows(body, radix as int, j - i + 1);
                    assert(body.take(body.len() as int) =~= body);
                    assert(digits_val(body, radix as int) > u64::MAX);
                }
            }
            return None;
        }
        proof {
            let m = u64::MAX as int;
            let r = radix as int;
            let q = (m - dv) / r;
            vstd::arithmetic::div_mod::lemma_fundamental_div_mod(m - dv, r);
            assert(m - dv == r * q + (m - dv) % r);
            assert((m - dv) % r >= 0);
            vstd::arithmetic::mul::lemma_mul_inequality(acc as int, q, r);
            assert(acc * r <= q * r);
            assert(q * r == r * q) by (nonlinear_arith);
            assert(acc * r + dv <= m);
        }
        acc = acc * radix + dv;
        j = j + 1;
    }
    proof {
        assert(body.take(j - i) =~= body);
    }
    Some(acc)
}

/// What one folded input line is worth as a number: with a leading `0x`
/// the rest read as hexadecimal where that succeeds, else the whole line
/// read as decimal.
pub open spec fn classify_number(c: Seq<char>) -> Option<u64> {
    if c.len() >= 2 && c[0] == '0' && c[1] == 'x' && spec_parse_u64(c.skip(2), 16) is Some {
        spec_parse_u64(c.skip(2), 16)
    } else {
        spec_parse_u64(c, 10)
    }
}

/// Strict lexicographic order on character sequences, by unicode scalar
/// value: a proper prefix precedes its extensions.
pub open spec fn lex_lt(a: Seq<char>, b: Seq<char>) -> bool
    decreases a.len(),
{
    if b.len() == 0 {
        false
    } else if a.len() == 0 {
        true
    } else if a[0] < b[0] {
        true
    } else if a[0] == b[0] {
        lex_lt(a.skip(1), b.skip(1))
    } else {
        false
    }
}

/// Of two sequences, either one strictly precedes the other or they are
/// equal; and strict order never holds both ways.
pub proof fn lemma_lex_total(a: Seq<char>, b: Seq<char>)
    ensures
        lex_lt(a, b) || lex_lt(b, a) || a == b,
        !(lex_lt(a, b) && lex_lt(b, a)),
        lex_lt(a, b) ==> a != b,
    decreases a.len() + b.len(),
{
    if a.len() > 0 && b.len() > 0 {
        if a[0] == b[0] {
            lemma_lex_total(a.skip(1), b.skip(1));
            assert(forall|k: int| 0 <= k < a.skip(1).len() ==> a.skip(1)[k] == a[k + 1]);
            assert(forall|k: int| 0 <= k < b.skip(1).len() ==> b.skip(1)[k] == b[k + 1]);
            if a.skip(1) == b.skip(1) {
                assert forall|k: int| 0 <= k < a.len() implies a[k] == b[k] by {
                    if k >= 1 {
                        assert(a[k] == a.skip(1)[k - 1]);
                        assert(b[k] == b.skip(1)[k - 1]);
                    }
                }
                assert(a =~= b);
            }
            if a == b {
                assert(a.skip(1) =~= b.skip(1));
            }
        }
    } else if a.len() == 0 && b.len() == 0 {
        assert(a =~= b);
    }
}

/// Strict lexicographic order is transitive.
pub proof fn lemma_lex_trans(a: Seq<char>, b: Seq<char>, c: Seq<char>)
    requires
        lex_lt(a, b),
        lex_lt(b, c),
    ensures
        lex_lt(a, c),
    decreases a.len() + b.len() + c.len(),
{
    if a.len() > 0 && b.len() > 0 && c.len() > 0 {
        if a[0] == b[0] && b[0] == c[0] {
            lemma_lex_trans(a.skip(1), b.skip(1), c.skip(1));
        }
    }
}

/// Compares two strings in strict lexicographic order by unicode scalar.
pub fn str_lt(a: &str, b: &str) -> (r: bool)
    ensures
        r == lex_lt(a@, b@),
{
    let na = a.unicode_len();
    let nb = b.unicode_len();
    let mut i: usize = 0;
    proof {
        assert(a@.skip(0) =~= a@);
        assert(b@.skip(0) =~= b@);
    }
    loop
        invariant
            na == a@.len(),
            nb == b@.len(),
            0 <= i <= na,
            0 <= i <= nb,
            lex_lt(a@, b@) == lex_lt(a@.skip(i as int), b@.skip(i as int)),
        decreases na - i,
    {
        if i >= nb {
            return false;
        }
        if i >= na {
            return true;
        }
        let ca = a.get_char(i);
        let cb = b.get_char(i);
        proof {
            assert(a@.skip(i as int)[0] == a@[i as int]);
            assert(b@.skip(i as int)[0] == b@[i as int]);
            assert(a@.skip(i as int).skip(1) =~= a@.skip(i as int + 1));
            assert(b@.skip(i as int).skip(1) =~= b@.skip(i as int + 1));
        }
        if ca < cb {
            return true;
        }
        if cb < ca {
            return false;
        }
        proof {
            assert(ca == cb);
        }
        i = i + 1;
    }
}

/// Decides whether two string slices hold the same characters.
pub fn str_eq(a: &str, b: &str) -> (r: bool)
    ensures
        r == (a@ == b@),
{
    let na = a.unicode_len();
    let nb = b.unicode_len();
    if na != nb {
        proof {
            assert(a@ != b@);
        }
        return false;
    }
    let mut i: usize = 0;
    while i < na
        invariant
            na == a@.len(),
            na == b@.len(),
            0 <= i <= na,
            forall|k: int| 0 <= k < i ==> a@[k] == b@[k],
        decreases na - i,
    {
        if a.get_char(i) != b.get_char(i) {
            proof {
                assert(a@[i as int] != b@[i as int]);
            }
            return false;
        }
        i = i + 1;
    }
    proof {
        assert(a@ =~= b@);
    }
    true
}

/// Decides whether `p`'s characters start `s`.
pub fn str_is_prefix(p: &str, s: &str) -> (r: bool)
    ensures
        r == p@.is_prefix_of(s@),
{
    let np = p.unicode_len();
    let ns = s.unicode_len();
    if np > ns {
        return false;
    }
    let mut i: usize = 0;
    while i < np
        invariant
            np == p@.len(),
            ns == s@.len(),
            np <= ns,
            0 <= i <= np,
            forall|k: int| 0 <= k < i ==> p@[k] == s@[k],
        decreases np - i,
    {
        if p.get_char(i) != s.get_char(i) {
            proof {
                assert(p@[i as int] != s@[i as int]);
                assert(!p@.is_prefix_of(s@));
            }
            return false;
        }
        i = i + 1;
    }
    proof {
        assert(p@ =~= s@.subrange(0, np as int));
    }
    true
}

} // verus!
