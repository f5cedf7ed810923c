//! The syntax of number literals: the texts that read as a 64 bit floating
//! point number.

use vstd::prelude::*;
use vstd::string::StringSliceAdditionalSpecFns;

verus! {

/// A decimal digit.
pub open spec fn is_digit(c: char) -> bool {
    '0' <= c && c <= '9'
}

/// The text without a leading `+` or `-`.
pub open spec fn unsigned(s: Seq<char>) -> Seq<char> {
    if s.len() > 0 && (s[0] == '+' || s[0] == '-') {
        s.drop_first()
    } else {
        s
    }
}

/// The exponent mark `e` or `E`.
pub open spec fn is_exp_mark(c: char) -> bool {
    c == 'e' || c == 'E'
}

/// `c` is the letter `lo` in either case.
pub open spec fn letter(c: char, lo: char, up: char) -> bool {
    c == lo || c == up
}

/// `inf`, `infinity` or `nan`, in any case.
pub open spec fn special_word(t: Seq<char>) -> bool {
    ||| t.len() == 3 && letter(t[0], 'i', 'I') && letter(t[1], 'n', 'N') && letter(t[2], 'f', 'F')
    ||| t.len() == 8 && letter(t[0], 'i', 'I') && letter(t[1], 'n', 'N') && letter(t[2], 'f', 'F') && letter(t[3], 'i', 'I')
        && letter(t[4], 'n', 'N') && letter(t[5], 'i', 'I') && letter(t[6], 't', 'T') && letter(t[7], 'y', 'Y')
    ||| t.len() == 3 && letter(t[0], 'n', 'N') && letter(t[1], 'a', 'A') && letter(t[2], 'n', 'N')
}

/// Digits with at most one decimal point, at least one digit.
pub open spec fn mantissa_ok(m: Seq<char>) -> bool {
    &&& forall|i: int| 0 <= i < m.len() ==> is_digit(#[trigger] m[i]) || m[i] == '.'
    &&& forall|i: int, j: int| 0 <= i < j < m.len() && m[i] == '.' ==> m[j] != '.'
    &&& exists|i: int| 0 <= i < m.len() && is_digit(#[trigger] m[i])
}

/// At least one digit, and nothing else.
pub open spec fn digits_ok(d: Seq<char>) -> bool {
    d.len() > 0 && forall|i: int| 0 <= i < d.len() ==> is_digit(#[trigger] d[i])
}

/// `k` is the place of the first exponent mark in `t`, or its length.
pub open spec fn first_mark(t: Seq<char>, k: int) -> bool {
    &&& 0 <= k <= t.len()
    &&& forall|j: int| 0 <= j < k ==> !is_exp_mark(#[trigger] t[j])
    &&& k < t.len() ==> is_exp_mark(t[k])
}

/// A mantissa, then optionally an exponent mark, a sign and digits.
pub open spec fn number_ok(t: Seq<char>) -> bool {
    exists|k: int|
        #[trigger] first_mark(t, k) && mantissa_ok(t.take(k)) && (k == t.len() || digits_ok(unsigned(t.skip(k + 1))))
}

/// The text reads as a 64 bit floating point number: an optional sign, then
/// `inf`, `infinity` or `nan` in any case, or a decimal number with an
/// optional exponent; no spaces.
pub open spec fn literal_ok(s: Seq<char>) -> bool {
    special_word(unsigned(s)) || number_ok(unsigned(s))
}

/// The characters of `s`.
fn chars_of(s: &str) -> (r: Vec<char>)
    ensures
        r@ == s@,
{
    let n = s.unicode_len();
    let mut r: Vec<char> = Vec::new();
    let mut i: usize = 0;
    while i < n
        invariant
            i <= n,
            n == s@.len(),
            r@ == s@.take(i as int),
        decreases n - i,
    {
        r.push(s.get_char(i));
        i += 1;
        proof {
            assert(r@ =~= s@.take(i as int));
        }
    }
    proof {
        assert(s@.take(n as int) =~= s@);
    }
    r
}

fn digit_c(c: char) -> (r: bool)
    ensures
        r == is_digit(c),
{
    '0' <= c && c <= '9'
}

fn letter_c(c: char, lo: char, up: char) -> (r: bool)
    ensures
        r == letter(c, lo, up),
{
    c == lo || c == up
}

/// Whether `t[lo..hi]` is digits only, at least one.
fn digits_in(t: &Vec<char>, lo: usize, hi: usize) -> (r: bool)
    requires
        lo <= hi <= t@.len(),
    ensures
        r == digits_ok(t@.subrange(lo as int, hi as int)),
{
    if lo == hi {
        return false;
    }
    let mut i: usize = lo;
    while i < hi
        invariant
            lo <= i <= hi,
            hi <= t@.len(),
            forall|j: int| lo <= j < i ==> is_digit(#[trigger] t@[j]),
        decreases hi - i,
    {
        if !digit_c(t[i]) {
            proof {
                assert(t@.subrange(lo as int, hi as int)[i - lo] == t@[i as int]);
            }
            return false;
        }
        i += 1;
    }
    proof {
        let d = t@.subrange(lo as int, hi as int);
        assert forall|j: int| 0 <= j < d.len() implies is_digit(#[trigger] d[j]) by {
            assert(d[j] == t@[lo + j]);
        }
    }
    true
}

/// Whether `t[st..]` is `inf`, `infinity` or `nan` in any case.
fn special_from(t: &Vec<char>, st: usize) -> (r: bool)
    requires
        st <= t@.len(),
    ensures
        r == special_word(t@.subrange(st as int, t@.len() as int)),
{
    let ghost u = t@.subrange(st as int, t@.len() as int);
    let m = t.len() - st;
    if m == 3 {
        proof {
            assert(u[0] == t@[st as int] && u[1] == t@[st + 1] && u[2] == t@[st + 2]);
        }
        return (letter_c(t[st], 'i', 'I') && letter_c(t[st + 1], 'n', 'N') && letter_c(t[st + 2], 'f', 'F')) || (letter_c(
            t[st],
            'n',
            'N',
        ) && letter_c(t[st + 1], 'a', 'A') && letter_c(t[st + 2], 'n', 'N'));
    }
    if m == 8 {
        proof {
            assert(u[0] == t@[st as int] && u[1] == t@[st + 1] && u[2] == t@[st + 2] && u[3] == t@[st + 3]);
            assert(u[4] == t@[st + 4] && u[5] == t@[st + 5] && u[6] == t@[st + 6] && u[7] == t@[st + 7]);
        }
        return letter_c(t[st], 'i', 'I') && letter_c(t[st + 1], 'n', 'N') && letter_c(t[st + 2], 'f', 'F') && letter_c(
            t[st + 3],
            'i',
            'I',
        ) && letter_c(t[st + 4], 'n', 'N') && letter_c(t[st + 5], 'i', 'I') && letter_c(t[st + 6], 't', 'T') && letter_c(
            t[st + 7],
            'y',
            'Y',
        );
    }
    false
}

/// The place `k` of the first exponent mark at or after `st` (or the end),
/// and whether `t[st..k]` is a mantissa.
fn scan_mantissa(t: &Vec<char>, st: usize) -> (r: (usize, bool))
    requires
        st <= t@.len(),
    ensures
        st <= r.0 <= t@.len(),
        first_mark(t@.subrange(st as int, t@.len() as int), r.0 - st),
        r.1 == mantissa_ok(t@.subrange(st as int, r.0 as int)),
{
    let n = t.len();
    let mut k: usize = st;
    let mut dots: usize = 0;
    let mut digits: usize = 0;
    let mut ok = true;
    while k < n && !(t[k] == 'e' || t[k] == 'E')
        invariant
            st <= k <= n,
            n == t@.len(),
            forall|j: int| st <= j < k ==> !is_exp_mark(#[trigger] t@[j]),
            ok ==> forall|j: int| st <= j < k ==> is_digit(#[trigger] t@[j]) || t@[j] == '.',
            ok ==> dots <= 1,
            ok ==> (dots == 0 ==> forall|j: int| st <= j < k ==> #[trigger] t@[j] != '.'),
            ok ==> (dots == 1 ==> exists|j: int| st <= j < k && #[trigger] t@[j] == '.'),
            ok ==> forall|i: int, j: int| st <= i < j < k && t@[i] == '.' ==> t@[j] != '.',
            ok ==> (digits > 0 <==> exists|j: int| st <= j < k && is_digit(#[trigger] t@[j])),
            digits <= k,
            !ok ==> exists|j: int| st <= j < k && !is_digit(#[trigger] t@[j]) && t@[j] != '.' || exists|i: int, j: int|
                st <= i < j < k && t@[i] == '.' && t@[j] == '.',
        decreases n - k,
    {
        let c = t[k];
        if ok {
            if digit_c(c) {
                digits = digits + 1;
            } else if c == '.' {
                if dots == 1 {
                    ok = false;
                } else {
                    dots = 1;
                }
            } else {
                ok = false;
            }
        }
        k += 1;
    }
    let ghost u = t@.subrange(st as int, n as int);
    let ghost mt = t@.subrange(st as int, k as int);
    proof {
        assert forall|j: int| 0 <= j < k - st implies !is_exp_mark(#[trigger] u[j]) by {
            assert(u[j] == t@[st + j]);
        }
        if k < n {
            assert(u[k - st] == t@[k as int]);
        }
        assert forall|j: int| 0 <= j < mt.len() implies #[trigger] mt[j] == t@[st + j] by {}
        if ok {
            if digits > 0 {
                let j0 = choose|j: int| st <= j < k && is_digit(#[trigger] t@[j]);
                assert(mt[j0 - st] == t@[j0]);
            } else if mantissa_ok(mt) {
                let j0 = choose|j: int| 0 <= j < mt.len() && is_digit(#[trigger] mt[j]);
                assert(mt[j0] == t@[st + j0]);
            }
            assert forall|i: int, j: int| 0 <= i < j < mt.len() && mt[i] == '.' implies mt[j] != '.' by {
                assert(mt[i] == t@[st + i]);
                assert(mt[j] == t@[st + j]);
            }
        } else {
            if exists|j: int| st <= j < k && !is_digit(#[trigger] t@[j]) && t@[j] != '.' {
                let j0 = choose|j: int| st <= j < k && !is_digit(#[trigger] t@[j]) && t@[j] != '.';
                assert(mt[j0 - st] == t@[j0]);
            } else {
                let (i0, j0) = choose|i: int, j: int| st <= i < j < k && t@[i] == '.' && t@[j] == '.';
                assert(mt[i0 - st] == t@[i0]);
                assert(mt[j0 - st] == t@[j0]);
            }
        }
    }
    (k, ok && digits > 0)
}

/// Whether `s` reads as a 64 bit floating point number.
pub fn is_literal(s: &str) -> (r: bool)
    ensures
        r == literal_ok(s@),
{
    let t = chars_of(s);
    let n = t.len();
    let mut st: usize = 0;
    if n > 0 && (t[0] == '+' || t[0] == '-') {
        st = 1;
    }
    let ghost u = unsigned(s@);
    proof {
        assert(u =~= t@.subrange(st as int, n as int));
    }
    if special_from(&t, st) {
        return true;
    }
    let (k, mok) = scan_mantissa(&t, st);
    let ghost kk = k - st;
    proof {
        assert(u.take(kk) =~= t@.subrange(st as int, k as int));
        assert forall|k2: int| #[trigger] first_mark(u, k2) implies k2 == kk by {
            if k2 < kk {
                assert(!is_exp_mark(u[k2]));
            } else if kk < k2 {
                assert(!is_exp_mark(u[kk]));
            }
        }
    }
    if !mok {
        return false;
    }
    if k == n {
        proof {
            assert(first_mark(u, kk));
        }
        return true;
    }
    let mut e: usize = k + 1;
    if e < n && (t[e] == '+' || t[e] == '-') {
        e = e + 1;
    }
    let r = digits_in(&t, e, n);
    proof {
        let ex = u.skip(kk + 1);
        assert(ex =~= t@.subrange(k + 1, n as int));
        assert(unsigned(ex) =~= t@.subrange(e as int, n as int));
        assert(first_mark(u, kk));
    }
    r
}

} // verus!
