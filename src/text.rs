//! Values that are spelled as text inside keys: identifiers and decimal
//! numbers.
use vstd::prelude::*;

verus! {

/// A value written as a byte string of text, and read back from one.
pub trait Text: Sized + View {
    spec fn text(v: Self::V) -> Seq<u8>;

    spec fn from_text(s: Seq<u8>) -> Option<Self::V>;

    fn to_text(&self) -> (r: Vec<u8>)
        ensures
            r@ == Self::text(self@),
    ;

    fn parse_text(s: &[u8]) -> (r: Option<Self>)
        ensures
            r is Some <==> Self::from_text(s@) is Some,
            r is Some ==> Self::from_text(s@) == Some(r->Some_0@),
    ;

    proof fn lemma_text_round_trip(v: Self::V)
        ensures
            Self::from_text(Self::text(v)) == Some(v),
    ;
}

pub open spec fn is_digit(b: u8) -> bool {
    48 <= b <= 57
}

pub open spec fn all_digits(s: Seq<u8>) -> bool {
    forall|i: int| 0 <= i < s.len() ==> is_digit(#[trigger] s[i])
}

/// The shortest decimal spelling of `n`.
pub open spec fn decimal(n: nat) -> Seq<u8>
    decreases n,
{
    if n < 10 {
        seq![(48 + n) as u8]
    } else {
        decimal(n / 10).push((48 + n % 10) as u8)
    }
}

/// The number that a string of decimal digits spells.
pub open spec fn digits_value(s: Seq<u8>) -> nat
    decreases s.len(),
{
    if s.len() == 0 {
        0
    } else {
        digits_value(s.drop_last()) * 10 + (s.last() - 48) as nat
    }
}

pub proof fn lemma_decimal(n: nat)
    ensures
        decimal(n).len() > 0,
        all_digits(decimal(n)),
        digits_value(decimal(n)) == n,
    decreases n,
{
    if n >= 10 {
        lemma_decimal(n / 10);
        assert(decimal(n).drop_last() =~= decimal(n / 10));
        assert(decimal(n).last() == (48 + n % 10) as u8);
        assert(n == (n / 10) * 10 + n % 10);
        assert(digits_value(decimal(n)) == digits_value(decimal(n / 10)) * 10 + (n % 10));
    } else {
        assert(decimal(n).drop_last() =~= seq![]);
        assert(digits_value(decimal(n)) == digits_value(seq![]) * 10 + n);
    }
}

proof fn lemma_digits_prefix(s: Seq<u8>, k: int)
    requires
        all_digits(s),
        0 <= k <= s.len(),
    ensures
        digits_value(s.take(k)) <= digits_value(s),
    decreases s.len(),
{
    if k < s.len() {
        assert(s.drop_last().take(k) =~= s.take(k));
        lemma_digits_prefix(s.drop_last(), k);
    } else {
        assert(s.take(k) =~= s);
    }
}

fn decimal_of(n: u64) -> (r: Vec<u8>)
    ensures
        r@ == decimal(n as nat),
    decreases n,
{
    if n < 10 {
        let r = vec![48 + n as u8];
        assert(r@ =~= decimal(n as nat));
        r
    } else {
        let mut r = decimal_of(n / 10);
        r.push(48 + (n % 10) as u8);
        r
    }
}

/// Unsigned integers are spelled in decimal. Reading accepts leading zeros, as
/// Rust's own parser does, and refuses a value past `u64::MAX`.
impl Text for u64 {
    open spec fn text(v: u64) -> Seq<u8> {
        decimal(v as nat)
    }

    open spec fn from_text(s: Seq<u8>) -> Option<u64> {
        if s.len() > 0 && all_digits(s) && digits_value(s) <= u64::MAX {
            Some(digits_value(s) as u64)
        } else {
            None
        }
    }

    fn to_text(&self) -> (r: Vec<u8>) {
        decimal_of(*self)
    }

    fn parse_text(s: &[u8]) -> (r: Option<u64>) {
        if s.len() == 0 {
            return None;
        }
        let mut i: usize = 0;
        let mut acc: u64 = 0;
        assert(s@.take(0) =~= seq![]);
        while i < s.len()
            invariant
                i <= s@.len(),
                all_digits(s@.take(i as int)),
                acc as nat == digits_value(s@.take(i as int)),
            decreases s.len() - i,
        {
            let b = s[i];
            if b < 48 || b > 57 {
                assert(!is_digit(s@[i as int]));
                return None;
            }
            let d = (b - 48) as u64;
            assert(s@.take(i + 1).drop_last() =~= s@.take(i as int));
            if acc > (u64::MAX - d) / 10 {
                assert(acc * 10 + d > u64::MAX) by (nonlinear_arith)
                    requires
                        acc > (u64::MAX - d) / 10,
                        d <= 9,
                ;
                proof {
                    if all_digits(s@) {
                        lemma_digits_prefix(s@, i + 1);
                    }
                }
                return None;
            }
            assert(acc * 10 + d <= u64::MAX) by (nonlinear_arith)
                requires
                    acc <= (u64::MAX - d) / 10,
                    d <= 9,
            ;
            acc = acc * 10 + d;
            i = i + 1;
            assert(all_digits(s@.take(i as int))) by {
                assert forall|j: int| 0 <= j < i implies is_digit(#[trigger] s@.take(i as int)[j]) by {
                    if j < i - 1 {
                        assert(s@.take(i as int)[j] == s@.take(i - 1)[j]);
                    }
                }
            }
        }
        assert(s@.take(i as int) =~= s@);
        Some(acc)
    }

    proof fn lemma_text_round_trip(v: u64) {
        lemma_decimal(v as nat);
    }
}

/// Raw identifiers are their own spelling.
impl Text for Vec<u8> {
    open spec fn text(v: Seq<u8>) -> Seq<u8> {
        v
    }

    open spec fn from_text(s: Seq<u8>) -> Option<Seq<u8>> {
        Some(s)
    }

    fn to_text(&self) -> (r: Vec<u8>) {
        copy_bytes(self.as_slice())
    }

    fn parse_text(s: &[u8]) -> (r: Option<Vec<u8>>) {
        Some(copy_bytes(s))
    }

    proof fn lemma_text_round_trip(v: Seq<u8>) {
    }
}

/// A fresh vector holding the bytes of `s`.
pub fn copy_bytes(s: &[u8]) -> (r: Vec<u8>)
    ensures
        r@ == s@,
{
    let mut r: Vec<u8> = Vec::with_capacity(s.len());
    let mut i: usize = 0;
    while i < s.len()
        invariant
            i <= s@.len(),
            r@ == s@.take(i as int),
        decreases s.len() - i,
    {
        r.push(s[i]);
        i = i + 1;
        assert(r@ =~= s@.take(i as int));
    }
    assert(s@.take(i as int) =~= s@);
    r
}

} // verus!
