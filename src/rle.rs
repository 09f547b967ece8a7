use vstd::prelude::*;
use crate::text::{chars_of, string_of};

verus! {

/// Whether `char::is_numeric` holds of `c`: the Unicode number categories.
pub uninterp spec fn numeric(c: char) -> bool;

/// Relies on `char::is_numeric`: true of characters in the Unicode number
/// categories; among the ASCII characters, of the digits alone.
#[verifier::external_body]
fn is_numeric(c: char) -> (r: bool)
    ensures
        r == numeric(c),
        c <= '\x7f' ==> (r <==> '0' <= c <= '9'),
{
    c.is_numeric()
}

pub open spec fn is_digit(c: char) -> bool {
    '0' <= c <= '9'
}

pub open spec fn digit_char(d: nat) -> char {
    if d == 0 { '0' } else if d == 1 { '1' } else if d == 2 { '2' } else if d == 3 { '3' }
    else if d == 4 { '4' } else if d == 5 { '5' } else if d == 6 { '6' } else if d == 7 { '7' }
    else if d == 8 { '8' } else { '9' }
}

/// The decimal digits of `n`, most significant first.
pub open spec fn decimal(n: nat) -> Seq<char>
    decreases n,
{
    if n < 10 { seq![digit_char(n)] } else { decimal(n / 10).push(digit_char(n % 10)) }
}

/// The number that a string of ASCII digits spells.
pub open spec fn digits_value(d: Seq<char>) -> nat
    decreases d.len(),
{
    if d.len() == 0 {
        0
    } else {
        digits_value(d.drop_last()) * 10 + (d.last() as nat - '0' as nat) as nat
    }
}

/// How many copies of `s[i]` stand in a row from `i` on.
pub open spec fn run_len(s: Seq<char>, i: int) -> nat
    decreases s.len() - i,
{
    if 0 <= i && i + 1 < s.len() && s[i + 1] == s[i] { 1 + run_len(s, i + 1) } else { 1 }
}

/// The run-length code of `s` from `i` on: each run as its length in decimal,
/// then its character.
pub open spec fn rle_from(s: Seq<char>, i: int) -> Seq<char>
    decreases s.len() - i,
    via rle_from_decreases
{
    if i < 0 || i >= s.len() {
        seq![]
    } else {
        decimal(run_len(s, i)).push(s[i]) + rle_from(s, i + run_len(s, i))
    }
}

proof fn lemma_run_len_bound(s: Seq<char>, i: int)
    requires
        0 <= i < s.len(),
    ensures
        1 <= run_len(s, i) <= s.len() - i,
    decreases s.len() - i,
{
    if i + 1 < s.len() && s[i + 1] == s[i] {
        lemma_run_len_bound(s, i + 1);
    }
}

#[via_fn]
proof fn rle_from_decreases(s: Seq<char>, i: int) {
    if !(i < 0 || i >= s.len()) {
        lemma_run_len_bound(s, i);
    }
}

pub open spec fn rle(s: Seq<char>) -> Seq<char> {
    rle_from(s, 0)
}

/// `n` copies of `c`.
pub open spec fn copies(c: char, n: nat) -> Seq<char> {
    Seq::new(n, |i: int| c)
}

/// The expansion of `s` from `i` on, with the numeric characters `num` read just before.
pub open spec fn expand_from(s: Seq<char>, i: int, num: Seq<char>) -> Seq<char>
    decreases s.len() - i,
{
    if i < 0 || i >= s.len() {
        seq![]
    } else if numeric(s[i]) {
        expand_from(s, i + 1, num.push(s[i]))
    } else {
        copies(s[i], digits_value(num)) + expand_from(s, i + 1, seq![])
    }
}

/// Each character that is not numeric comes after a count: a non-empty run of
/// ASCII digits whose value fits in `usize`.
pub open spec fn expandable_from(s: Seq<char>, i: int, num: Seq<char>) -> bool
    decreases s.len() - i,
{
    if i < 0 || i >= s.len() {
        true
    } else if numeric(s[i]) {
        expandable_from(s, i + 1, num.push(s[i]))
    } else {
        &&& num.len() > 0
        &&& forall|k: int| 0 <= k < num.len() ==> is_digit(#[trigger] num[k])
        &&& digits_value(num) <= usize::MAX
        &&& expandable_from(s, i + 1, seq![])
    }
}

fn digit_of(d: usize) -> (c: char)
    requires
        d < 10,
    ensures
        c == digit_char(d as nat),
{
    if d == 0 { '0' } else if d == 1 { '1' } else if d == 2 { '2' } else if d == 3 { '3' }
    else if d == 4 { '4' } else if d == 5 { '5' } else if d == 6 { '6' } else if d == 7 { '7' }
    else if d == 8 { '8' } else { '9' }
}

/// Appends the decimal digits of `n`.
fn push_decimal(out: &mut Vec<char>, n: usize)
    ensures
        final(out)@ == old(out)@ + decimal(n as nat),
    decreases n,
{
    if n < 10 {
        out.push(digit_of(n));
    } else {
        push_decimal(out, n / 10);
        out.push(digit_of(n % 10));
    }
}

/// Run-length encodes `data`: each run of equal characters becomes its length in
/// decimal followed by the character.
pub fn encoding(data: &str) -> (r: String)
    ensures
        r@ == rle(data@),
{
    let s = chars_of(data);
    let mut out: Vec<char> = Vec::new();
    let mut i: usize = 0;
    while i < s.len()
        invariant
            s@ == data@,
            i <= s@.len(),
            out@ + rle_from(s@, i as int) == rle(s@),
        decreases s@.len() - i,
    {
        let mut j: usize = i;
        while j < s.len() - 1 && s[j + 1] == s[j]
            invariant
                i <= j < s@.len(),
                run_len(s@, i as int) == (j - i) + run_len(s@, j as int),
            decreases s@.len() - j,
        {
            j += 1;
        }
        let count = j - i + 1;
        assert(run_len(s@, i as int) == count);
        let ghost before = out@;
        push_decimal(&mut out, count);
        out.push(s[i]);
        assert(out@ == before + decimal(count as nat).push(s@[i as int]));
        assert(out@ + rle_from(s@, (i + count) as int) == rle(s@)) by {
            assert(rle_from(s@, i as int) == decimal(count as nat).push(s@[i as int]) + rle_from(s@, (i + count) as int));
            assert(before + rle_from(s@, i as int) == rle(s@));
            assert((before + decimal(count as nat).push(s@[i as int])) + rle_from(s@, (i + count) as int)
                =~= before + (decimal(count as nat).push(s@[i as int]) + rle_from(s@, (i + count) as int)));
        }
        i = j + 1;
    }
    assert(out@ =~= out@ + rle_from(s@, i as int));
    string_of(&out)
}

proof fn lemma_value_prefix(d: Seq<char>, k: int)
    requires
        0 <= k <= d.len(),
        forall|j: int| 0 <= j < d.len() ==> is_digit(#[trigger] d[j]),
    ensures
        digits_value(d.subrange(0, k)) <= digits_value(d),
    decreases d.len() - k,
{
    if k < d.len() {
        lemma_value_prefix(d, k + 1);
        let p = d.subrange(0, k + 1);
        assert(p.drop_last() =~= d.subrange(0, k));
        assert(is_digit(p.last()));
    } else {
        assert(d.subrange(0, k) =~= d);
    }
}

/// The value of a run of ASCII digits, or `None` when it exceeds `usize`.
fn parse_digits(d: &Vec<char>) -> (r: Option<usize>)
    requires
        forall|k: int| 0 <= k < d@.len() ==> is_digit(#[trigger] d@[k]),
    ensures
        r is Some <==> digits_value(d@) <= usize::MAX,
        r is Some ==> r->Some_0 == digits_value(d@),
{
    let mut r: usize = 0;
    let mut k: usize = 0;
    while k < d.len()
        invariant
            forall|j: int| 0 <= j < d@.len() ==> is_digit(#[trigger] d@[j]),
            k <= d@.len(),
            r == digits_value(d@.subrange(0, k as int)),
        decreases d@.len() - k,
    {
        proof {
            lemma_value_prefix(d@, k + 1);
            let p = d@.subrange(0, k + 1);
            assert(p.drop_last() =~= d@.subrange(0, k as int));
            assert(is_digit(d@[k as int]));
        }
        let c = d[k];
        let v: u32 = c as u32 - '0' as u32;
        if r > (usize::MAX - v as usize) / 10 {
            return None;
        }
        r = r * 10 + v as usize;
        k += 1;
    }
    assert(d@.subrange(0, k as int) =~= d@);
    Some(r)
}

fn all_digits(d: &Vec<char>) -> (r: bool)
    ensures
        r == forall|k: int| 0 <= k < d@.len() ==> is_digit(#[trigger] d@[k]),
{
    let mut k: usize = 0;
    while k < d.len()
        invariant
            k <= d@.len(),
            forall|j: int| 0 <= j < k ==> is_digit(#[trigger] d@[j]),
        decreases d@.len() - k,
    {
        if !('0' <= d[k] && d[k] <= '9') {
            return false;
        }
        k += 1;
    }
    true
}

/// Expands a run-length code: the digits before each other character give how
/// many times it stands in the result.
pub fn decoding(data: &str) -> (r: String)
    requires
        expandable_from(data@, 0, seq![]),
    ensures
        r@ == expand_from(data@, 0, seq![]),
{
    let s = chars_of(data);
    let mut out: Vec<char> = Vec::new();
    let mut num: Vec<char> = Vec::new();
    let mut i: usize = 0;
    while i < s.len()
        invariant
            s@ == data@,
            i <= s@.len(),
            expandable_from(s@, i as int, num@),
            out@ + expand_from(s@, i as int, num@) == expand_from(s@, 0, seq![]),
        decreases s@.len() - i,
    {
        let c = s[i];
        if is_numeric(c) {
            num.push(c);
        } else {
            let count = parse_digits(&num).unwrap();
            let ghost before = out@;
            let mut n: usize = 0;
            while n < count
                invariant
                    n <= count,
                    out@ == before + copies(c, n as nat),
                decreases count - n,
            {
                out.push(c);
                n += 1;
                assert(out@ =~= before + copies(c, n as nat));
            }
            assert(out@ + expand_from(s@, i + 1, seq![]) =~= before + expand_from(s@, i as int, num@));
            num = Vec::new();
        }
        i += 1;
    }
    assert(out@ =~= out@ + expand_from(s@, i as int, num@));
    string_of(&out)
}

/// Whether `data` is a run-length code that `decoding` accepts.
pub fn is_expandable(data: &str) -> (r: bool)
    ensures
        r == expandable_from(data@, 0, seq![]),
{
    let s = chars_of(data);
    let mut num: Vec<char> = Vec::new();
    let mut i: usize = 0;
    while i < s.len()
        invariant
            s@ == data@,
            i <= s@.len(),
            expandable_from(s@, 0, seq![]) == expandable_from(s@, i as int, num@),
        decreases s@.len() - i,
    {
        let c = s[i];
        if is_numeric(c) {
            num.push(c);
        } else {
            if num.len() == 0 || !all_digits(&num) {
                return false;
            }
            if parse_digits(&num).is_none() {
                return false;
            }
            num = Vec::new();
        }
        i += 1;
    }
    true
}

/// Expands `data` when it is a run-length code that `decoding` accepts.
pub fn try_decoding(data: &str) -> (r: Option<String>)
    ensures
        match r {
            Some(s) => expandable_from(data@, 0, seq![]) && s@ == expand_from(data@, 0, seq![]),
            None => !expandable_from(data@, 0, seq![]),
        },
{
    if is_expandable(data) {
        Some(decoding(data))
    } else {
        None
    }
}

} // verus!
