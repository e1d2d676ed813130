//! Text in runs of bytes: separators and decimal numbers.

use vstd::prelude::*;

verus! {

/// Where the next `sep` is from `i` on; the end if there is none.
pub open spec fn next_sep(s: Seq<u8>, sep: u8, i: int) -> int
    decreases s.len() - i,
{
    if 0 <= i < s.len() && s[i] != sep {
        next_sep(s, sep, i + 1)
    } else {
        i
    }
}

pub proof fn lemma_next_sep(s: Seq<u8>, sep: u8, i: int)
    requires
        0 <= i <= s.len(),
    ensures
        i <= next_sep(s, sep, i) <= s.len(),
        forall|k: int| i <= k < next_sep(s, sep, i) ==> s[k] != sep,
        next_sep(s, sep, i) < s.len() ==> s[next_sep(s, sep, i)] == sep,
    decreases s.len() - i,
{
    if i < s.len() && s[i] != sep {
        lemma_next_sep(s, sep, i + 1);
    }
}

/// The next separator is where it is found.
pub proof fn lemma_sep_at(s: Seq<u8>, sep: u8, i: int, j: int)
    requires
        0 <= i <= j <= s.len(),
        forall|k: int| i <= k < j ==> s[k] != sep,
        j < s.len() ==> s[j] == sep,
    ensures
        next_sep(s, sep, i) == j,
    decreases j - i,
{
    if i < j {
        lemma_sep_at(s, sep, i + 1, j);
    }
}

/// The parts from `i` on that `sep` separates. There is one part more than there are separators.
pub open spec fn parts_from(s: Seq<u8>, sep: u8, i: int) -> Seq<Seq<u8>>
    decreases s.len() + 1 - i,
{
    if i < 0 || i > s.len() {
        Seq::empty()
    } else {
        let j = next_sep(s, sep, i);
        proof {
            lemma_next_sep(s, sep, i);
        }
        seq![s.subrange(i, j)] + parts_from(s, sep, j + 1)
    }
}

/// The parts that `sep` separates.
pub open spec fn parts(s: Seq<u8>, sep: u8) -> Seq<Seq<u8>> {
    parts_from(s, sep, 0)
}

proof fn lemma_sep_shift(pre: Seq<u8>, s: Seq<u8>, sep: u8, i: int)
    requires
        0 <= i <= s.len(),
    ensures
        next_sep(pre + s, sep, pre.len() + i) == pre.len() + next_sep(s, sep, i),
    decreases s.len() - i,
{
    if i < s.len() {
        assert((pre + s)[pre.len() + i] == s[i]);
        if s[i] != sep {
            lemma_sep_shift(pre, s, sep, i + 1);
        }
    }
}

proof fn lemma_parts_shift(pre: Seq<u8>, s: Seq<u8>, sep: u8, i: int)
    requires
        0 <= i <= s.len() + 1,
    ensures
        parts_from(pre + s, sep, pre.len() + i) == parts_from(s, sep, i),
    decreases s.len() + 1 - i,
{
    if i <= s.len() {
        lemma_next_sep(s, sep, i);
        lemma_sep_shift(pre, s, sep, i);
        let j = next_sep(s, sep, i);
        lemma_parts_shift(pre, s, sep, j + 1);
        assert((pre + s).subrange(pre.len() + i, pre.len() + j) =~= s.subrange(i, j));
    }
}

/// Whether a byte is nowhere in a run.
pub open spec fn lacks(s: Seq<u8>, c: u8) -> bool {
    forall|i: int| 0 <= i < s.len() ==> #[trigger] s[i] != c
}

/// What stands before the first separator is the first part.
pub proof fn parts_of_joined(a: Seq<u8>, s: Seq<u8>, sep: u8)
    requires
        lacks(a, sep),
    ensures
        parts(a + seq![sep] + s, sep) == seq![a] + parts(s, sep),
{
    let all = a + seq![sep] + s;
    lemma_sep_at(all, sep, 0, a.len() as int);
    lemma_parts_shift(a + seq![sep], s, sep, 0);
    assert(all.subrange(0, a.len() as int) =~= a);
}

/// What has no separator is one part.
pub proof fn parts_of_one(a: Seq<u8>, sep: u8)
    requires
        lacks(a, sep),
    ensures
        parts(a, sep) == seq![a],
{
    lemma_sep_at(a, sep, 0, a.len() as int);
    assert(a.subrange(0, a.len() as int) =~= a);
    assert(parts_from(a, sep, a.len() as int + 1) =~= Seq::empty());
    assert(seq![a] + Seq::<Seq<u8>>::empty() =~= seq![a]);
}

/// Finds the parts that `sep` separates, each by its start and its end.
pub fn split(s: &[u8], sep: u8) -> (r: Vec<(usize, usize)>)
    ensures
        r@.len() == parts(s@, sep).len(),
        r@.len() > 0,
        forall|k: int|
            0 <= k < r@.len() ==> (#[trigger] r@[k]).0 <= r@[k].1 <= s@.len() && s@.subrange(
                r@[k].0 as int,
                r@[k].1 as int,
            ) == parts(s@, sep)[k],
{
    let n = s.len();
    let ghost all = parts(s@, sep);
    let mut out: Vec<(usize, usize)> = Vec::new();
    let mut i: usize = 0;
    assert(all.take(0) =~= Seq::empty());
    assert(all.take(0) + parts_from(s@, sep, 0) =~= all);
    loop
        invariant
            n == s@.len(),
            i <= n,
            all == parts(s@, sep),
            out@.len() <= all.len(),
            all.take(out@.len() as int) + parts_from(s@, sep, i as int) == all,
            forall|k: int|
                0 <= k < out@.len() ==> (#[trigger] out@[k]).0 <= out@[k].1 <= s@.len()
                    && s@.subrange(out@[k].0 as int, out@[k].1 as int) == all[k],
        decreases n + 1 - i,
    {
        let mut j: usize = i;
        while j < n && s[j] != sep
            invariant
                i <= j <= n == s@.len(),
                next_sep(s@, sep, i as int) == next_sep(s@, sep, j as int),
            decreases n - j,
        {
            j = j + 1;
        }
        proof {
            let count = out@.len() as int;
            let part = s@.subrange(i as int, j as int);
            lemma_next_sep(s@, sep, i as int);
            let rest = parts_from(s@, sep, j + 1);
            assert(all == all.take(count) + (seq![part] + rest));
            assert(all[count] == part);
            assert(all.take(count + 1) =~= all.take(count) + seq![part]);
            assert(all =~= all.take(count + 1) + rest);
            if j == n {
                assert(rest =~= Seq::empty());
            }
        }
        out.push((i, j));
        if j == n {
            return out;
        }
        i = j + 1;
    }
}

/// The digits of a number.
pub open spec fn decimal(n: nat) -> Seq<u8>
    decreases n,
{
    if n < 10 {
        seq![(48 + n) as u8]
    } else {
        decimal(n / 10).push((48 + n % 10) as u8)
    }
}

/// Whether a run of bytes is one or more digits.
pub open spec fn is_digits(s: Seq<u8>) -> bool {
    s.len() > 0 && forall|i: int| 0 <= i < s.len() ==> 48 <= #[trigger] s[i] <= 57
}

/// The number that digits stand for.
pub open spec fn digits_value(s: Seq<u8>) -> nat
    decreases s.len(),
{
    if s.len() == 0 {
        0
    } else {
        (10 * digits_value(s.drop_last()) + s.last() - 48) as nat
    }
}

/// The digits of a number are digits and stand for it.
pub proof fn decimal_is_read_back(n: nat)
    ensures
        is_digits(decimal(n)),
        digits_value(decimal(n)) == n,
    decreases n,
{
    if n < 10 {
        assert(decimal(n).drop_last() =~= Seq::empty());
        assert(digits_value(Seq::<u8>::empty()) == 0);
    } else {
        decimal_is_read_back(n / 10);
        assert(decimal(n).drop_last() =~= decimal(n / 10));
    }
}

/// Appends the digits of a number.
pub fn push_decimal(out: &mut Vec<u8>, n: u64)
    ensures
        final(out)@ == old(out)@ + decimal(n as nat),
    decreases n,
{
    if n >= 10 {
        push_decimal(out, n / 10);
    }
    out.push(48 + (n % 10) as u8);
    assert(out@ =~= old(out)@ + decimal(n as nat));
}

/// A number behind its sign, if it has one.
pub open spec fn without_plus(s: Seq<u8>) -> Seq<u8> {
    if s.len() > 0 && s[0] == 0x2b {
        s.skip(1)
    } else {
        s
    }
}

/// The number below 2^64 that a run of bytes is, with or without a plus sign.
pub open spec fn parsed_number(s: Seq<u8>, max: nat) -> Option<nat> {
    let d = without_plus(s);
    if is_digits(d) && digits_value(d) <= max {
        Some(digits_value(d))
    } else {
        None
    }
}

/// Reads a run of digits that stand for no more than `max`.
pub fn parse_digits(s: &[u8], max: u64) -> (r: Option<u64>)
    ensures
        match r {
            Some(v) => is_digits(s@) && v == digits_value(s@) && v <= max,
            None => !is_digits(s@) || digits_value(s@) > max,
        },
{
    let n = s.len();
    if n == 0 {
        return None;
    }
    let mut v: u64 = 0;
    let mut big: bool = false;
    let mut i: usize = 0;
    assert(s@.take(0) =~= Seq::empty());
    while i < n
        invariant
            i <= n == s@.len(),
            forall|k: int| 0 <= k < i ==> 48 <= #[trigger] s@[k] <= 57,
            !big ==> v == digits_value(s@.take(i as int)) && v <= max,
            big ==> digits_value(s@.take(i as int)) > max,
        decreases n - i,
    {
        let c = s[i];
        if c < 48 || c > 57 {
            assert(!is_digits(s@)) by {
                assert(s@[i as int] == c);
            }
            return None;
        }
        let d: u64 = (c - 48) as u64;
        proof {
            assert(s@.take(i + 1).drop_last() =~= s@.take(i as int));
        }
        if !big {
            if v > max / 10 || d > max - 10 * v {
                big = true;
            } else {
                v = 10 * v + d;
            }
        }
        i = i + 1;
    }
    assert(s@.take(i as int) =~= s@);
    if big {
        None
    } else {
        Some(v)
    }
}

/// Reads a number, with or without a plus sign, that is no more than `max`.
pub fn parse_number(s: &[u8], max: u64) -> (r: Option<u64>)
    ensures
        match r {
            Some(v) => parsed_number(s@, max as nat) == Some(v as nat),
            None => parsed_number(s@, max as nat) is None,
        },
{
    let n = s.len();
    if n > 0 && s[0] == 0x2b {
        let rest = &s[1..n];
        assert(rest@ =~= s@.skip(1));
        parse_digits(rest, max)
    } else {
        parse_digits(s, max)
    }
}

} // verus!
