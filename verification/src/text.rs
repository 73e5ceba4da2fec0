//! Text building blocks for path segments and fallback descriptors:
//! decimal rendering of entity identifiers and sanitization of
//! fully-qualified component kind names.

use vstd::prelude::*;
use vstd::string::*;

verus! {

/// Relies on `String::push`: appends exactly the given character.
#[verifier::external_body]
pub(crate) fn string_push(s: &mut String, c: char)
    ensures
        final(s)@ == old(s)@.push(c),
{
    s.push(c);
}

/// The character for a single decimal digit.
pub open spec fn digit_char(d: int) -> char {
    if d == 0 {
        '0'
    } else if d == 1 {
        '1'
    } else if d == 2 {
        '2'
    } else if d == 3 {
        '3'
    } else if d == 4 {
        '4'
    } else if d == 5 {
        '5'
    } else if d == 6 {
        '6'
    } else if d == 7 {
        '7'
    } else if d == 8 {
        '8'
    } else {
        '9'
    }
}

pub open spec fn is_digit_char(c: char) -> bool {
    c == '0' || c == '1' || c == '2' || c == '3' || c == '4' || c == '5' || c == '6' || c == '7'
        || c == '8' || c == '9'
}

/// The decimal rendering of a natural number, most significant digit first.
pub open spec fn decimal_chars(n: nat) -> Seq<char>
    decreases n,
{
    if n < 10 {
        seq![digit_char(n as int)]
    } else {
        decimal_chars(n / 10) + seq![digit_char((n % 10) as int)]
    }
}

pub proof fn lemma_decimal_chars_digits(n: nat)
    ensures
        decimal_chars(n).len() >= 1,
        forall|i: int|
            0 <= i < decimal_chars(n).len() ==> is_digit_char(#[trigger] decimal_chars(n)[i]),
        n < 10 ==> decimal_chars(n).len() == 1,
        n >= 10 ==> decimal_chars(n).len() >= 2,
    decreases n,
{
    if n >= 10 {
        lemma_decimal_chars_digits(n / 10);
    }
}

pub proof fn lemma_decimal_chars_injective(a: nat, b: nat)
    requires
        decimal_chars(a) == decimal_chars(b),
    ensures
        a == b,
    decreases a,
{
    lemma_decimal_chars_digits(a);
    lemma_decimal_chars_digits(b);
    if a < 10 && b < 10 {
        assert(decimal_chars(a)[0] == digit_char(a as int));
        assert(decimal_chars(b)[0] == digit_char(b as int));
    } else if a >= 10 && b >= 10 {
        let pa = decimal_chars(a / 10);
        let pb = decimal_chars(b / 10);
        let ta = seq![digit_char((a % 10) as int)];
        let tb = seq![digit_char((b % 10) as int)];
        assert(decimal_chars(a) == pa + ta);
        assert(decimal_chars(b) == pb + tb);
        assert(pa.len() == pb.len());
        assert forall|i: int| 0 <= i < pa.len() implies pa[i] == pb[i] by {
            assert(pa[i] == (pa + ta)[i]);
            assert(pb[i] == (pb + tb)[i]);
        }
        assert(pa =~= pb);
        lemma_decimal_chars_injective(a / 10, b / 10);
        assert((pa + ta).last() == (pb + tb).last());
        assert(a % 10 == b % 10);
    } else {
        // one is a single digit, the other has at least two: lengths differ
        assert(false);
    }
}

/// Renders an entity identifier in decimal.
pub fn u64_to_decimal(n: u64) -> (s: String)
    ensures
        s@ == decimal_chars(n as nat),
{
    let mut digits: Vec<u64> = Vec::new();
    let mut m: u64 = n;
    digits.push(m % 10);
    m = m / 10;
    proof {
        assert(digits@ =~= seq![n % 10]);
        assert(rev_digit_chars(seq![n % 10]) =~= seq![digit_char((n % 10) as int)]);
        if m > 0 {
            assert(decimal_chars(n as nat) == decimal_chars((n / 10) as nat) + seq![
                digit_char((n % 10) as int),
            ]);
        } else {
            assert(decimal_chars(n as nat) == seq![digit_char(n as int)]);
            assert(digit_char(n as int) == digit_char((n % 10) as int));
        }
    }
    while m > 0
        invariant
            forall|i: int| 0 <= i < digits@.len() ==> #[trigger] digits@[i] < 10,
            digits@.len() >= 1,
            decimal_chars(n as nat) == if m > 0 {
                decimal_chars(m as nat) + rev_digit_chars(digits@)
            } else {
                rev_digit_chars(digits@)
            },
        decreases m,
    {
        let ghost pre = digits@;
        digits.push(m % 10);
        proof {
            assert(rev_digit_chars(pre.push(m % 10)) =~= seq![digit_char((m % 10) as int)]
                + rev_digit_chars(pre));
            if m >= 10 {
                assert(decimal_chars(m as nat) == decimal_chars((m / 10) as nat) + seq![
                    digit_char((m % 10) as int),
                ]);
                assert(decimal_chars((m / 10) as nat) + seq![digit_char((m % 10) as int)]
                    + rev_digit_chars(pre) =~= decimal_chars((m / 10) as nat) + rev_digit_chars(
                    pre.push(m % 10),
                ));
            } else {
                assert(decimal_chars(m as nat) == seq![digit_char(m as int)]);
                assert(seq![digit_char(m as int)] + rev_digit_chars(pre) =~= rev_digit_chars(
                    pre.push(m % 10),
                ));
            }
        }
        m = m / 10;
    }
    let mut s = String::new();
    let len = digits.len();
    let mut k: usize = 0;
    while k < len
        invariant
            len == digits@.len(),
            k <= len,
            forall|i: int| 0 <= i < digits@.len() ==> #[trigger] digits@[i] < 10,
            decimal_chars(n as nat) == rev_digit_chars(digits@),
            s@ == rev_digit_chars(digits@).take(k as int),
        decreases len - k,
    {
        let d = digits[len - 1 - k];
        string_push(&mut s, digit_to_char(d));
        proof {
            assert(rev_digit_chars(digits@).take(k as int).push(digit_char(d as int))
                =~= rev_digit_chars(digits@).take(k + 1 as int));
        }
        k = k + 1;
    }
    proof {
        assert(rev_digit_chars(digits@).take(len as int) =~= rev_digit_chars(digits@));
    }
    s
}

/// The digit characters of a digit sequence read back-to-front, so that the
/// least-significant-first order produced while dividing comes out most
/// significant first.
pub open spec fn rev_digit_chars(ds: Seq<u64>) -> Seq<char> {
    Seq::new(ds.len(), |i: int| digit_char(ds[ds.len() - 1 - i] as int))
}

fn digit_to_char(d: u64) -> (c: char)
    requires
        d < 10,
    ensures
        c == digit_char(d as int),
{
    match d {
        0 => '0',
        1 => '1',
        2 => '2',
        3 => '3',
        4 => '4',
        5 => '5',
        6 => '6',
        7 => '7',
        8 => '8',
        _ => '9',
    }
}

/// A fully-qualified kind name with every `::` separator replaced by `.`,
/// as used for the fallback logger's descriptor.
pub open spec fn sanitize_chars(s: Seq<char>) -> Seq<char>
    decreases s.len(),
{
    if s.len() == 0 {
        Seq::empty()
    } else if s.len() >= 2 && s[0] == ':' && s[1] == ':' {
        seq!['.'] + sanitize_chars(s.skip(2))
    } else {
        seq![s[0]] + sanitize_chars(s.skip(1))
    }
}

/// Replaces every `::` in a kind name by `.`.
pub fn sanitize_kind_name(name: &str) -> (r: String)
    ensures
        r@ == sanitize_chars(name@),
{
    let n = name.unicode_len();
    let mut r = String::new();
    let mut i: usize = 0;
    proof {
        assert(name@.skip(0) =~= name@);
        assert(Seq::<char>::empty() + sanitize_chars(name@) =~= sanitize_chars(name@));
    }
    while i < n
        invariant
            n == name@.len(),
            i <= n,
            sanitize_chars(name@) == r@ + sanitize_chars(name@.skip(i as int)),
        decreases n - i,
    {
        let ghost rest = name@.skip(i as int);
        let ghost r0 = r@;
        if i + 1 < n && name.get_char(i) == ':' && name.get_char(i + 1) == ':' {
            string_push(&mut r, '.');
            proof {
                assert(rest[0] == ':' && rest[1] == ':');
                assert(rest.skip(2) =~= name@.skip(i + 2 as int));
                assert(r0 + (seq!['.'] + sanitize_chars(name@.skip(i + 2 as int))) =~= r0.push('.')
                    + sanitize_chars(name@.skip(i + 2 as int)));
            }
            i = i + 2;
        } else {
            let c = name.get_char(i);
            string_push(&mut r, c);
            proof {
                assert(rest[0] == c);
                assert(rest.skip(1) =~= name@.skip(i + 1 as int));
                assert(r0 + (seq![c] + sanitize_chars(name@.skip(i + 1 as int))) =~= r0.push(c)
                    + sanitize_chars(name@.skip(i + 1 as int)));
            }
            i = i + 1;
        }
    }
    proof {
        assert(name@.skip(n as int) =~= Seq::<char>::empty());
    }
    r
}

} // verus!
