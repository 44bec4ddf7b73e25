use vstd::prelude::*;
use crate::model::WalkError;

verus! {

/// A line with its trailing newline removed: a final `"\r\n"` loses both
/// bytes, a final `"\n"` loses one, anything else is unchanged.
pub open spec fn trimmed(s: Seq<u8>) -> Seq<u8> {
    if s.len() >= 2 && s[s.len() - 2] == 13u8 && s[s.len() - 1] == 10u8 {
        s.take(s.len() - 2)
    } else if s.len() >= 1 && s[s.len() - 1] == 10u8 {
        s.take(s.len() - 1)
    } else {
        s
    }
}

/// Removes one trailing newline (and a carriage return before it) from a
/// line of console input.
pub fn trim_newline(s: &mut Vec<u8>)
    ensures
        final(s)@ =~= trimmed(old(s)@),
{
    let n = s.len();
    if n >= 1 && s[n - 1] == 10u8 {
        s.pop();
        let m = s.len();
        if m >= 1 && s[m - 1] == 13u8 {
            s.pop();
        }
    }
}

/// Whether `b` is an ASCII decimal digit.
pub open spec fn is_digit(b: u8) -> bool {
    48 <= b <= 57
}

/// Whether every byte of `s` is an ASCII decimal digit.
pub open spec fn all_digits(s: Seq<u8>) -> bool {
    forall|i: int| 0 <= i < s.len() ==> is_digit(#[trigger] s[i])
}

/// The value of a string of decimal digits.
pub open spec fn dec_val(s: Seq<u8>) -> int
    decreases s.len(),
{
    if s.len() == 0 {
        0
    } else {
        dec_val(s.drop_last()) * 10 + (s.last() - 48)
    }
}

proof fn lemma_dec_val_nonneg(s: Seq<u8>)
    requires
        all_digits(s),
    ensures
        dec_val(s) >= 0,
    decreases s.len(),
{
    if s.len() > 0 {
        assert(all_digits(s.drop_last())) by {
            assert forall|i: int| 0 <= i < s.len() - 1 implies is_digit(
                #[trigger] s.drop_last()[i],
            ) by {
                assert(s.drop_last()[i] == s[i]);
            }
        }
        lemma_dec_val_nonneg(s.drop_last());
        assert(dec_val(s.drop_last()) * 10 >= 0) by (nonlinear_arith)
            requires dec_val(s.drop_last()) >= 0;
    }
}

proof fn lemma_dec_val_extend_ge(s: Seq<u8>, i: int, j: int)
    requires
        0 <= i <= j <= s.len(),
        all_digits(s),
    ensures
        dec_val(s.take(j)) >= dec_val(s.take(i)),
    decreases j - i,
{
    if i < j {
        lemma_dec_val_extend_ge(s, i, j - 1);
        let t = s.take(j);
        assert(t.drop_last() =~= s.take(j - 1));
        assert(dec_val(t) == dec_val(s.take(j - 1)) * 10 + (t.last() - 48));
        assert(all_digits(s.take(j - 1))) by {
            assert forall|k: int| 0 <= k < j - 1 implies is_digit(
                #[trigger] s.take(j - 1)[k],
            ) by {
                assert(s.take(j - 1)[k] == s[k]);
            }
        }
        lemma_dec_val_nonneg(s.take(j - 1));
        assert(dec_val(s.take(j - 1)) * 10 >= dec_val(s.take(j - 1))) by (nonlinear_arith)
            requires dec_val(s.take(j - 1)) >= 0;
    }
}

/// The digits of a distance argument: integer parsing allows one
/// leading plus sign, which carries no value.
pub open spec fn digits_part(s: Seq<u8>) -> Seq<u8> {
    if s.len() > 0 && s[0] == 43u8 {
        s.drop_first()
    } else {
        s
    }
}

/// The walking-distance argument, in meters. A value that is not a
/// decimal number within range — one leading plus sign allowed — falls
/// back to the default of 1500 meters rather than failing.
pub fn parse_distance(s: &Vec<u8>) -> (r: u64)
    ensures
        (digits_part(s@).len() > 0 && all_digits(digits_part(s@)) && dec_val(digits_part(s@))
            <= u64::MAX) ==> r == dec_val(digits_part(s@)),
        !(digits_part(s@).len() > 0 && all_digits(digits_part(s@)) && dec_val(digits_part(s@))
            <= u64::MAX) ==> r == 1500,
{
    let start: usize = if s.len() > 0 && s[0] == 43u8 {
        1
    } else {
        0
    };
    let ghost d = digits_part(s@);
    proof {
        assert(d =~= s@.skip(start as int));
    }
    if s.len() == start {
        return 1500;
    }
    let mut acc: u64 = 0;
    let mut i: usize = start;
    while i < s.len()
        invariant
            d == digits_part(s@),
            d =~= s@.skip(start as int),
            start <= s@.len(),
            0 < d.len(),
            start <= i <= s@.len(),
            forall|j: int| 0 <= j < i - start ==> is_digit(#[trigger] d[j]),
            acc == dec_val(d.take(i - start)),
        decreases s.len() - i,
    {
        let b = s[i];
        proof {
            assert(d[i - start] == s@[i as int]);
        }
        if b < 48 || b > 57 {
            proof {
                assert(!is_digit(d[i - start]));
            }
            return 1500;
        }
        let dg = b - 48;
        let wide: u128 = (acc as u128) * 10 + (dg as u128);
        proof {
            assert(d.take(i - start + 1).drop_last() =~= d.take(i - start));
            assert(dec_val(d.take(i - start + 1)) == dec_val(d.take(i - start)) * 10 + (d[i
                - start] - 48));
        }
        if wide > u64::MAX as u128 {
            proof {
                if all_digits(d) && dec_val(d) <= u64::MAX {
                    lemma_dec_val_extend_ge(d, i - start + 1, d.len() as int);
                    assert(d.take(d.len() as int) =~= d);
                }
            }
            return 1500;
        }
        acc = wide as u64;
        i = i + 1;
    }
    proof {
        assert(d.take(d.len() as int) =~= d);
    }
    acc
}

/// The position of the first successful trial in an ordered list of
/// endpoint outcomes, or `None` when every trial failed.
pub fn first_success(outcomes: &Vec<bool>) -> (r: Option<usize>)
    ensures
        match r {
            Some(i) => i < outcomes@.len() && outcomes@[i as int] && forall|j: int|
                0 <= j < i ==> !outcomes@[j],
            None => forall|j: int| 0 <= j < outcomes@.len() ==> !outcomes@[j],
        },
{
    let mut i: usize = 0;
    while i < outcomes.len()
        invariant
            i <= outcomes@.len(),
            forall|j: int| 0 <= j < i ==> !outcomes@[j],
        decreases outcomes.len() - i,
    {
        if outcomes[i] {
            return Some(i);
        }
        i = i + 1;
    }
    None
}

/// The endpoint the fetcher must use, given the trial outcome of each
/// candidate in priority order: the first that responded successfully.
/// When none did, the fetch fails with a service-unavailable error —
/// there is no further fallback.
pub fn select_endpoint(outcomes: &Vec<bool>) -> (r: Result<usize, WalkError>)
    ensures
        match r {
            Ok(i) => i < outcomes@.len() && outcomes@[i as int] && forall|j: int|
                0 <= j < i ==> !outcomes@[j],
            Err(e) => e == WalkError::ServiceUnavailable && forall|j: int|
                0 <= j < outcomes@.len() ==> !outcomes@[j],
        },
{
    match first_success(outcomes) {
        Some(i) => Ok(i),
        None => Err(WalkError::ServiceUnavailable),
    }
}

/// Whether two byte strings hold the same bytes.
pub fn bytes_eq(a: &Vec<u8>, b: &Vec<u8>) -> (r: bool)
    ensures
        r == (a@ =~= b@),
{
    if a.len() != b.len() {
        return false;
    }
    let mut i: usize = 0;
    while i < a.len()
        invariant
            a@.len() == b@.len(),
            i <= a@.len(),
            forall|j: int| 0 <= j < i ==> a@[j] == b@[j],
        decreases a.len() - i,
    {
        if a[i] != b[i] {
            return false;
        }
        i = i + 1;
    }
    true
}

/// Whether `input` is one of the accepted console choices.
pub fn is_accepted_choice(input: &Vec<u8>, options: &Vec<Vec<u8>>) -> (r: bool)
    ensures
        r == exists|i: int| 0 <= i < options@.len() && #[trigger] options@[i]@ =~= input@,
{
    let mut i: usize = 0;
    while i < options.len()
        invariant
            i <= options@.len(),
            forall|j: int| 0 <= j < i ==> !(#[trigger] options@[j]@ =~= input@),
        decreases options.len() - i,
    {
        if bytes_eq(&options[i], input) {
            return true;
        }
        i = i + 1;
    }
    false
}

} // verus!
