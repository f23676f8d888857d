use vstd::prelude::*;
use vstd::std_specs::iter::IteratorSpec;

verus! {

/// The fields of `s` separated by `sep`, as `str::split` yields them: one
/// more field than there are separators, empty fields included.
pub open spec fn split_fields(s: Seq<char>, sep: char) -> Seq<Seq<char>>
    decreases s.len(),
{
    if s.len() == 0 {
        seq![Seq::<char>::empty()]
    } else {
        let prev = split_fields(s.drop_last(), sep);
        if s.last() == sep {
            prev.push(Seq::<char>::empty())
        } else {
            prev.update(prev.len() - 1, prev.last().push(s.last()))
        }
    }
}

pub proof fn lemma_split_fields_nonempty(s: Seq<char>, sep: char)
    ensures
        split_fields(s, sep).len() >= 1,
    decreases s.len(),
{
    if s.len() > 0 {
        lemma_split_fields_nonempty(s.drop_last(), sep);
    }
}

pub open spec fn is_digit(c: char) -> bool {
    '0' <= c && c <= '9'
}

pub open spec fn digit_value(c: char) -> int {
    c as int - '0' as int
}

/// A non-empty run of decimal digits.
pub open spec fn is_decimal(s: Seq<char>) -> bool {
    s.len() > 0 && forall|i: int| 0 <= i < s.len() ==> is_digit(#[trigger] s[i])
}

/// The number that a run of decimal digits writes.
pub open spec fn decimal_value(s: Seq<char>) -> int
    decreases s.len(),
{
    if s.len() == 0 {
        0
    } else {
        decimal_value(s.drop_last()) * 10 + digit_value(s.last())
    }
}

proof fn lemma_decimal_value_nonneg(s: Seq<char>)
    requires
        forall|i: int| 0 <= i < s.len() ==> is_digit(#[trigger] s[i]),
    ensures
        decimal_value(s) >= 0,
    decreases s.len(),
{
    if s.len() > 0 {
        lemma_decimal_value_nonneg(s.drop_last());
    }
}

/// The characters of a string, in order.
pub(crate) fn chars_of(s: &str) -> (r: Vec<char>)
    ensures
        r@ == s@,
{
    broadcast use vstd::string::axiom_spec_iter, vstd::string::next_postcondition;

    let mut it = s.chars();
    let mut r: Vec<char> = Vec::new();
    loop
        invariant
            r@ + IteratorSpec::remaining(&it) == s@,
            it.obeys_prophetic_iter_laws(),
            IteratorSpec::decrease(&it) is Some,
        ensures
            r@ == s@,
        decreases IteratorSpec::decrease(&it)->0,
    {
        let ghost before = IteratorSpec::remaining(&it);
        match it.next() {
            Some(c) => {
                let ghost old_r = r@;
                r.push(c);
                proof {
                    assert(before.len() > 0);
                    assert(r@ + IteratorSpec::remaining(&it) =~= old_r + before);
                }
            },
            None => {
                proof {
                    assert(r@ + before =~= s@);
                    assert(before.len() == 0);
                    assert(r@ =~= s@);
                }
                break;
            },
        }
    }
    r
}

/// Relies on collecting characters into a `String`: the string of exactly
/// those characters.
#[verifier::external_body]
pub(crate) fn string_of(v: &[char]) -> (r: String)
    ensures
        r@ == v@,
{
    v.iter().collect()
}

/// Splits a character sequence on `sep`.
pub fn split_on(s: &Vec<char>, sep: char) -> (r: Vec<Vec<char>>)
    ensures
        r@.len() == split_fields(s@, sep).len(),
        forall|i: int| 0 <= i < r@.len() ==> #[trigger] r@[i]@ == split_fields(s@, sep)[i],
{
    let mut done: Vec<Vec<char>> = Vec::new();
    let mut cur: Vec<char> = Vec::new();
    let mut i: usize = 0;
    while i < s.len()
        invariant
            0 <= i <= s@.len(),
            done@.len() + 1 == split_fields(s@.subrange(0, i as int), sep).len(),
            forall|j: int|
                0 <= j < done@.len() ==> #[trigger] done@[j]@ == split_fields(
                    s@.subrange(0, i as int),
                    sep,
                )[j],
            cur@ == split_fields(s@.subrange(0, i as int), sep).last(),
        decreases s@.len() - i,
    {
        let c = s[i];
        proof {
            let pre = s@.subrange(0, i as int);
            let next = s@.subrange(0, i + 1);
            assert(next.drop_last() =~= pre);
            assert(next.last() == c);
            lemma_split_fields_nonempty(pre, sep);
        }
        if c == sep {
            done.push(cur);
            cur = Vec::new();
        } else {
            cur.push(c);
        }
        i = i + 1;
    }
    proof {
        assert(s@.subrange(0, s@.len() as int) =~= s@);
    }
    done.push(cur);
    done
}

/// The digits of an unsigned number: without one leading `+`, if any.
pub open spec fn unsigned_digits(s: Seq<char>) -> Seq<char> {
    if s.len() > 0 && s[0] == '+' {
        s.drop_first()
    } else {
        s
    }
}

/// An unsigned number as `str::parse` reads it: an optional `+`, then a
/// non-empty run of decimal digits.
pub open spec fn is_unsigned(s: Seq<char>) -> bool {
    is_decimal(unsigned_digits(s))
}

/// The value of an unsigned number.
pub open spec fn unsigned_value(s: Seq<char>) -> int {
    decimal_value(unsigned_digits(s))
}

/// Reads an unsigned number that fits in a `u64`: an optional `+`, then
/// decimal digits.
pub fn parse_u64(s: &[char]) -> (r: Option<u64>)
    ensures
        r matches Some(n) ==> is_unsigned(s@) && unsigned_value(s@) == n as int,
        r is None ==> !is_unsigned(s@) || unsigned_value(s@) > u64::MAX as int,
{
    if s.len() > 0 && s[0] == '+' {
        let mut rest: Vec<char> = Vec::new();
        let mut k: usize = 1;
        while k < s.len()
            invariant
                1 <= k <= s@.len(),
                rest@ == s@.subrange(1, k as int),
            decreases s@.len() - k,
        {
            rest.push(s[k]);
            proof {
                assert(rest@ =~= s@.subrange(1, k + 1));
            }
            k = k + 1;
        }
        proof {
            assert(rest@ =~= s@.drop_first());
        }
        parse_digits(rest.as_slice())
    } else {
        parse_digits(s)
    }
}

/// Reads a non-empty run of decimal digits that fits in a `u64`.
fn parse_digits(s: &[char]) -> (r: Option<u64>)
    ensures
        r matches Some(n) ==> is_decimal(s@) && decimal_value(s@) == n as int,
        r is None ==> !is_decimal(s@) || decimal_value(s@) > u64::MAX as int,
{
    if s.len() == 0 {
        return None;
    }
    let mut acc: u64 = 0;
    let mut i: usize = 0;
    while i < s.len()
        invariant
            0 <= i <= s@.len(),
            forall|j: int| 0 <= j < i ==> is_digit(#[trigger] s@[j]),
            acc as int == decimal_value(s@.subrange(0, i as int)),
        decreases s@.len() - i,
    {
        let c = s[i];
        proof {
            assert(s@.subrange(0, i + 1).drop_last() =~= s@.subrange(0, i as int));
        }
        if !('0' <= c && c <= '9') {
            return None;
        }
        let d: u64 = (c as u64) - ('0' as u64);
        if acc > (u64::MAX - d) / 10 {
            proof {
                let t = s@.subrange(0, i + 1);
                lemma_prefix_grows(s@, i as int + 1);
                assert(decimal_value(t) > u64::MAX) by (nonlinear_arith)
                    requires
                        decimal_value(t) == acc * 10 + d,
                        acc > (u64::MAX - d) / 10,
                        0 <= d <= 9,
                ;
            }
            return None;
        }
        acc = acc * 10 + d;
        i = i + 1;
    }
    proof {
        assert(s@.subrange(0, s@.len() as int) =~= s@);
    }
    Some(acc)
}

/// Once every character is a digit, a longer prefix never writes a smaller
/// number.
proof fn lemma_prefix_grows(s: Seq<char>, k: int)
    requires
        0 <= k <= s.len(),
    ensures
        is_decimal(s) ==> decimal_value(s.subrange(0, k)) <= decimal_value(s),
    decreases s.len() - k,
{
    if k < s.len() && is_decimal(s) {
        lemma_prefix_grows(s, k + 1);
        let t = s.subrange(0, k + 1);
        assert(t.drop_last() =~= s.subrange(0, k));
        assert(is_digit(s[k]));
        lemma_decimal_value_nonneg(s.subrange(0, k));
    } else if k == s.len() {
        assert(s.subrange(0, k) =~= s);
    }
}

} // verus!
