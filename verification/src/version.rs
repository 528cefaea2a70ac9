//! Version numbers, as the Forge writes them.
use crate::text;
use crate::text::Separator;
use vstd::prelude::*;

verus! {

pub open spec fn is_digit(c: char) -> bool {
    '0' <= c && c <= '9'
}

/// The value of a decimal digit.
pub open spec fn digit_value(c: char) -> nat {
    (c as u32 - '0' as u32) as nat
}

/// The number that a row of decimal digits denotes.
pub open spec fn number(digits: Seq<char>) -> nat
    decreases digits.len(),
{
    if digits.len() == 0 {
        0
    } else {
        number(digits.drop_last()) * 10 + digit_value(digits.last())
    }
}

/// How many decimal digits the text starts with.
pub open spec fn digit_run(s: Seq<char>) -> nat
    decreases s.len(),
{
    if s.len() > 0 && is_digit(s[0]) {
        1 + digit_run(s.drop_first())
    } else {
        0
    }
}

/// The number that a version field starts with. A field that starts with no digit has none, nor
/// has one whose number does not fit in 64 bits.
pub open spec fn field(s: Seq<char>) -> Option<u64> {
    let digits = s.take(digit_run(s) as int);
    if digits.len() > 0 && number(digits) <= u64::MAX {
        Some(number(digits) as u64)
    } else {
        None
    }
}

/// The numbers of the fields that have one, in order.
pub open spec fn fields(parts: Seq<Seq<char>>) -> Seq<u64>
    decreases parts.len(),
{
    if parts.len() == 0 {
        Seq::empty()
    } else {
        match field(parts.last()) {
            Some(n) => fields(parts.drop_last()).push(n),
            None => fields(parts.drop_last()),
        }
    }
}

/// The numbers of a version.
pub open spec fn version(v: Seq<char>) -> Seq<u64> {
    fields(text::split(v, Separator::Version))
}

/// Number `i` of a version; 0 where the version is shorter.
pub open spec fn nth(v: Seq<u64>, i: int) -> u64 {
    if 0 <= i < v.len() {
        v[i]
    } else {
        0
    }
}

/// `a` is greater than `b` at position `i`, and they agree before it.
pub open spec fn greater_at(a: Seq<u64>, b: Seq<u64>, i: int) -> bool {
    &&& 0 <= i
    &&& nth(a, i) > nth(b, i)
    &&& forall|j: int| 0 <= j < i ==> nth(a, j) == nth(b, j)
}

/// `a` is a newer version than `b`: greater at the first position where they differ, missing
/// numbers counting as 0.
pub open spec fn newer(a: Seq<u64>, b: Seq<u64>) -> bool {
    exists|i: int| #[trigger] greater_at(a, b, i)
}

proof fn lemma_number_grows(digits: Seq<char>, i: int)
    requires
        0 <= i <= digits.len(),
    ensures
        number(digits.take(i)) <= number(digits),
    decreases digits.len() - i,
{
    if i < digits.len() {
        lemma_number_grows(digits, i + 1);
        assert(digits.take(i + 1).drop_last() =~= digits.take(i));
    } else {
        assert(digits.take(i) =~= digits);
    }
}

proof fn lemma_digit_run(s: Seq<char>, n: int)
    requires
        0 <= n <= s.len(),
        forall|i: int| 0 <= i < n ==> is_digit(#[trigger] s[i]),
        n < s.len() ==> !is_digit(s[n]),
    ensures
        digit_run(s) == n,
    decreases s.len(),
{
    if n > 0 {
        assert(is_digit(s[0]));
        let rest = s.drop_first();
        assert forall|i: int| 0 <= i < n - 1 implies is_digit(#[trigger] rest[i]) by {
            assert(is_digit(s[i + 1]));
        }
        lemma_digit_run(rest, n - 1);
    }
}

/// The number that a row of digits denotes, where it fits in 64 bits.
pub fn parse_number(digits: &[char]) -> (r: Option<u64>)
    requires
        forall|i: int| 0 <= i < digits@.len() ==> is_digit(#[trigger] digits@[i]),
    ensures
        r == if digits@.len() > 0 && number(digits@) <= u64::MAX {
            Some(number(digits@) as u64)
        } else {
            None
        },
{
    if digits.len() == 0 {
        return None;
    }
    let mut n: u64 = 0;
    for i in 0..digits.len()
        invariant
            forall|i: int| 0 <= i < digits@.len() ==> is_digit(#[trigger] digits@[i]),
            digits@.len() > 0,
            n == number(digits@.take(i as int)),
    {
        let c = digits[i];
        assert(is_digit(digits@[i as int]));
        let d: u64 = (c as u32 - '0' as u32) as u64;
        assert(digits@.take(i + 1).drop_last() =~= digits@.take(i as int));
        proof {
            lemma_number_grows(digits@, i + 1);
        }
        match n.checked_mul(10) {
            None => {
                return None;
            },
            Some(shifted) => match shifted.checked_add(d) {
                None => {
                    return None;
                },
                Some(next) => {
                    n = next;
                },
            },
        }
    }
    assert(digits@.take(digits@.len() as int) =~= digits@);
    Some(n)
}

fn parse_field(part: &str) -> (r: Option<u64>)
    ensures
        r == field(part@),
{
    let x = text::chars_of(part);
    let mut digits: Vec<char> = Vec::new();
    let mut i: usize = 0;
    while i < x.len() && '0' <= x[i] && x[i] <= '9'
        invariant
            x@ == part@,
            i <= x@.len(),
            digits@ == x@.take(i as int),
            forall|j: int| 0 <= j < i ==> is_digit(#[trigger] x@[j]),
        decreases x@.len() - i,
    {
        digits.push(x[i]);
        assert(x@.take(i + 1) =~= x@.take(i as int).push(x@[i as int]));
        i = i + 1;
    }
    proof {
        lemma_digit_run(part@, i as int);
        assert forall|j: int| 0 <= j < digits@.len() implies is_digit(#[trigger] digits@[j]) by {
            assert(is_digit(x@[j]));
        }
    }
    parse_number(digits.as_slice())
}

/// The numbers of a version: the digits at the start of each field between `.`, `-`, `+` and
/// spaces.
pub fn parse_ver(v: &str) -> (r: Vec<u64>)
    ensures
        r@ == version(v@),
{
    let parts = text::split_text(v, Separator::Version);
    let ghost ps = text::texts(parts@);
    let mut r: Vec<u64> = Vec::new();
    assert(ps.take(0) =~= Seq::empty());
    for i in 0..parts.len()
        invariant
            ps == text::texts(parts@),
            r@ == fields(ps.take(i as int)),
    {
        assert(ps.take(i + 1).drop_last() =~= ps.take(i as int));
        if let Some(n) = parse_field(parts[i].as_str()) {
            r.push(n);
        }
    }
    assert(ps.take(ps.len() as int) =~= ps);
    r
}

fn nth_number(v: &[u64], i: usize) -> (r: u64)
    ensures
        r == nth(v@, i as int),
{
    if i < v.len() {
        v[i]
    } else {
        0
    }
}

/// True if `a` is a strictly newer version than `b`.
pub fn version_gt(a: &str, b: &str) -> (r: bool)
    ensures
        r == newer(version(a@), version(b@)),
{
    let pa = parse_ver(a);
    let pb = parse_ver(b);
    let n: usize = if pa.len() >= pb.len() {
        pa.len()
    } else {
        pb.len()
    };
    for i in 0..n
        invariant
            pa@ == version(a@),
            pb@ == version(b@),
            n >= pa@.len(),
            n >= pb@.len(),
            forall|j: int| 0 <= j < i ==> nth(pa@, j) == nth(pb@, j),
    {
        let x = nth_number(pa.as_slice(), i);
        let y = nth_number(pb.as_slice(), i);
        if x != y {
            proof {
                if x > y {
                    assert(greater_at(pa@, pb@, i as int));
                } else {
                    assert forall|k: int| !(#[trigger] greater_at(pa@, pb@, k)) by {
                        if greater_at(pa@, pb@, k) && k > i {
                            assert(nth(pa@, i as int) == nth(pb@, i as int));
                        }
                    }
                }
            }
            return x > y;
        }
    }
    assert forall|k: int| !(#[trigger] greater_at(pa@, pb@, k)) by {
        if 0 <= k < n {
            assert(nth(pa@, k) == nth(pb@, k));
        }
    }
    false
}

/// No version is newer than itself.
pub proof fn law_no_version_is_newer_than_itself(a: Seq<u64>)
    ensures
        !newer(a, a),
{
}

/// Of two versions at most one is newer than the other.
pub proof fn law_newer_is_one_way(a: Seq<u64>, b: Seq<u64>)
    ensures
        !(newer(a, b) && newer(b, a)),
{
    if newer(a, b) && newer(b, a) {
        let i = choose|i: int| #[trigger] greater_at(a, b, i);
        let k = choose|k: int| #[trigger] greater_at(b, a, k);
        if i < k {
            assert(nth(b, i) == nth(a, i));
        } else if k < i {
            assert(nth(a, k) == nth(b, k));
        }
    }
}

/// Newer than a newer version is newer.
pub proof fn law_newer_is_transitive(a: Seq<u64>, b: Seq<u64>, c: Seq<u64>)
    requires
        newer(a, b),
        newer(b, c),
    ensures
        newer(a, c),
{
    let i = choose|i: int| #[trigger] greater_at(a, b, i);
    let k = choose|k: int| #[trigger] greater_at(b, c, k);
    let m = if i <= k {
        i
    } else {
        k
    };
    assert forall|j: int| 0 <= j < m implies nth(a, j) == nth(c, j) by {
        assert(nth(a, j) == nth(b, j));
        assert(nth(b, j) == nth(c, j));
    }
    if i < k {
        assert(nth(b, i) == nth(c, i));
    } else if k < i {
        assert(nth(a, k) == nth(b, k));
    }
    assert(greater_at(a, c, m));
}

/// Two versions of which neither is newer agree in every number, missing ones counting as 0.
pub proof fn law_neither_newer_means_equal(a: Seq<u64>, b: Seq<u64>)
    requires
        !newer(a, b),
        !newer(b, a),
    ensures
        forall|i: int| nth(a, i) == nth(b, i),
{
    assert forall|i: int| nth(a, i) == nth(b, i) by {
        lemma_agree_up_to(a, b, i);
    }
}

proof fn lemma_agree_up_to(a: Seq<u64>, b: Seq<u64>, n: int)
    requires
        !newer(a, b),
        !newer(b, a),
    ensures
        forall|i: int| i <= n ==> nth(a, i) == nth(b, i),
    decreases n + 1,
{
    if n >= 0 {
        lemma_agree_up_to(a, b, n - 1);
        if nth(a, n) > nth(b, n) {
            assert(greater_at(a, b, n));
        } else if nth(b, n) > nth(a, n) {
            assert(greater_at(b, a, n));
        }
    }
}

} // verus!
