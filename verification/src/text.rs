//! Character sequences: finding a character, and cutting a sequence into the
//! fields that a separator delimits.

use vstd::prelude::*;

verus! {

/// The index of the first `c` in `s`; `None` where `s` holds none.
pub open spec fn first_index(s: Seq<char>, c: char) -> Option<int>
    decreases s.len(),
{
    if s.len() == 0 {
        None
    } else if s[0] == c {
        Some(0)
    } else {
        match first_index(s.skip(1), c) {
            Some(at) => Some(at + 1),
            None => None,
        }
    }
}

/// The index of the last `c` in `s`; `None` where `s` holds none.
pub open spec fn last_index(s: Seq<char>, c: char) -> Option<int>
    decreases s.len(),
{
    if s.len() == 0 {
        None
    } else if s.last() == c {
        Some(s.len() - 1)
    } else {
        last_index(s.drop_last(), c)
    }
}

/// The fields of `s` that `sep` delimits, in order: one more field than `sep`
/// occurs in `s`, so at least one.
pub open spec fn split(s: Seq<char>, sep: char) -> Seq<Seq<char>>
    decreases s.len(),
{
    if s.len() == 0 {
        seq![Seq::<char>::empty()]
    } else {
        let rest = split(s.skip(1), sep);
        if s[0] == sep {
            seq![Seq::<char>::empty()] + rest
        } else {
            rest.update(0, seq![s[0]] + rest[0])
        }
    }
}

/// How often `c` occurs in `s`.
pub open spec fn occurrences(s: Seq<char>, c: char) -> nat
    decreases s.len(),
{
    if s.len() == 0 {
        0
    } else if s[0] == c {
        occurrences(s.skip(1), c) + 1
    } else {
        occurrences(s.skip(1), c)
    }
}

/// `c` occurs nowhere in `s`.
pub open spec fn free_of(s: Seq<char>, c: char) -> bool {
    forall|k: int| 0 <= k < s.len() ==> s[k] != c
}

/// The characters of `s`, in order.
pub fn chars_of(s: &str) -> (out: Vec<char>)
    ensures
        out@ == s@,
{
    let mut out: Vec<char> = Vec::new();
    for c in it: s.chars()
        invariant
            it.seq() == s@,
            out@ == s@.take(it.index() as int),
    {
        out.push(c);
        assert(s@.take(it.index() + 1) =~= s@.take(it.index() as int).push(c));
    }
    assert(s@.take(s@.len() as int) =~= s@);
    out
}

/// Finds the first `c` in `s`.
pub fn first_index_of(s: &Vec<char>, c: char) -> (found: Option<usize>)
    ensures
        match found {
            Some(at) => at < s.len() && first_index(s@, c) == Some(at as int),
            None => first_index(s@, c) is None,
        },
{
    let mut i: usize = 0;
    while i < s.len() && s[i] != c
        invariant
            i <= s.len(),
            forall|k: int| 0 <= k < i ==> s@[k] != c,
        decreases s.len() - i,
    {
        i += 1;
    }
    proof {
        assert(free_of(s@.take(i as int), c));
        lemma_first_index_is(s@, c, i as int);
    }
    if i < s.len() {
        Some(i)
    } else {
        None
    }
}

/// Finds the last `c` in `s`.
pub fn last_index_of(s: &Vec<char>, c: char) -> (found: Option<usize>)
    ensures
        match found {
            Some(at) => at < s.len() && last_index(s@, c) == Some(at as int),
            None => last_index(s@, c) is None,
        },
{
    let mut i: usize = s.len();
    while i > 0 && s[i - 1] != c
        invariant
            i <= s.len(),
            forall|k: int| i <= k < s.len() ==> s@[k] != c,
        decreases i,
    {
        i -= 1;
    }
    proof {
        assert(free_of(s@.skip(i as int), c));
        lemma_last_index_is(s@, c, i - 1);
    }
    if i > 0 {
        Some(i - 1)
    } else {
        None
    }
}

/// The field of `s` at index `n`, counted from 0, among those that `sep`
/// delimits; `None` where `s` has no more than `n` fields.
pub fn field(s: &Vec<char>, sep: char, n: usize) -> (out: Option<Vec<char>>)
    ensures
        match out {
            Some(f) => n < split(s@, sep).len() && f@ == split(s@, sep)[n as int],
            None => n >= split(s@, sep).len(),
        },
{
    let mut start: usize = 0;
    let mut k: usize = 0;
    let mut i: usize = 0;
    let ghost mut prior: Seq<Seq<char>> = Seq::empty();
    assert(s@.skip(0) =~= s@);
    assert(prior + split(s@, sep) =~= split(s@, sep));
    while i < s.len() && k < n
        invariant
            start <= i <= s.len(),
            k <= n,
            prior.len() == k,
            split(s@, sep) == prior + split(s@.skip(start as int), sep),
            forall|j: int| start <= j < i ==> s@[j] != sep,
        decreases s.len() - i,
    {
        if s[i] == sep {
            proof {
                let here = s@.skip(start as int);
                lemma_split_first_field(here, sep, i - start);
                assert(here.skip(i - start + 1) =~= s@.skip(i + 1));
                let first = here.take(i - start);
                let others = split(s@.skip(i + 1), sep);
                assert(prior + (seq![first] + others) =~= prior.push(first) + others);
                prior = prior.push(first);
            }
            k += 1;
            start = i + 1;
        }
        i += 1;
    }
    let ghost here = s@.skip(start as int);
    if k < n {
        proof {
            lemma_split_one_field(here, sep);
        }
        return None;
    }
    let mut out: Vec<char> = Vec::new();
    let mut end: usize = start;
    while end < s.len() && s[end] != sep
        invariant
            start <= end <= s.len(),
            forall|j: int| start <= j < end ==> s@[j] != sep,
            out@ == s@.subrange(start as int, end as int),
        decreases s.len() - end,
    {
        out.push(s[end]);
        assert(s@.subrange(start as int, end as int).push(s@[end as int]) =~= s@.subrange(
            start as int,
            end + 1,
        ));
        end += 1;
    }
    proof {
        if end < s.len() {
            lemma_split_first_field(here, sep, end - start);
            assert(here.take(end - start) =~= s@.subrange(start as int, end as int));
        } else {
            lemma_split_one_field(here, sep);
            assert(here =~= s@.subrange(start as int, end as int));
        }
    }
    Some(out)
}

/// The first `c` stands inside the sequence and is a `c`, with none before
/// it; where there is no first `c`, the sequence holds none.
pub proof fn lemma_first_index_is_first(s: Seq<char>, c: char)
    ensures
        match first_index(s, c) {
            Some(at) => 0 <= at < s.len() && s[at] == c && free_of(s.take(at), c),
            None => free_of(s, c),
        },
    decreases s.len(),
{
    if s.len() > 0 && s[0] != c {
        let tail = s.skip(1);
        lemma_first_index_is_first(tail, c);
        match first_index(tail, c) {
            Some(at) => {
                let front = s.take(at + 1);
                assert forall|k: int| 0 <= k < front.len() implies front[k] != c by {
                    if k > 0 {
                        assert(front[k] == tail.take(at)[k - 1]);
                    }
                }
            },
            None => {
                assert forall|k: int| 0 <= k < s.len() implies s[k] != c by {
                    if k > 0 {
                        assert(s[k] == tail[k - 1]);
                    }
                }
            },
        }
    } else if s.len() > 0 {
        assert(s.take(0) =~= Seq::<char>::empty());
    }
}

/// The last `c` stands inside the sequence, and it is a `c`.
pub proof fn lemma_last_index_in_range(s: Seq<char>, c: char)
    ensures
        match last_index(s, c) {
            Some(at) => 0 <= at < s.len() && s[at] == c,
            None => true,
        },
    decreases s.len(),
{
    if s.len() > 0 && s.last() != c {
        lemma_last_index_in_range(s.drop_last(), c);
    }
}

/// Two sequences that are free of `c` are free of it in a row.
pub proof fn lemma_joined_is_free(a: Seq<char>, b: Seq<char>, c: char)
    requires
        free_of(a, c),
        free_of(b, c),
    ensures
        free_of(a + b, c),
{
}

/// A part of a sequence that is free of `c` is free of it too.
pub proof fn lemma_part_is_free(s: Seq<char>, c: char, from: int, to: int)
    requires
        free_of(s, c),
        0 <= from <= to <= s.len(),
    ensures
        free_of(s.subrange(from, to), c),
{
    let part = s.subrange(from, to);
    assert forall|k: int| 0 <= k < part.len() implies part[k] != c by {
        assert(part[k] == s[from + k]);
    }
}

/// Where no `c` stands before `at`, the first `c` is the one at `at`, and
/// there is none if `at` is the end.
pub proof fn lemma_first_index_is(s: Seq<char>, c: char, at: int)
    requires
        0 <= at <= s.len(),
        free_of(s.take(at), c),
        at < s.len() ==> s[at] == c,
    ensures
        first_index(s, c) == if at < s.len() {
            Some(at)
        } else {
            None
        },
    decreases at,
{
    if at > 0 {
        assert(s.take(at)[0] != c);
        lemma_part_is_free(s.take(at), c, 1, at);
        assert(s.skip(1).take(at - 1) =~= s.take(at).subrange(1, at));
        lemma_first_index_is(s.skip(1), c, at - 1);
    }
}

/// Where no `c` stands after `at`, the last `c` is the one at `at`, and there
/// is none if `at` is before the start.
pub proof fn lemma_last_index_is(s: Seq<char>, c: char, at: int)
    requires
        -1 <= at < s.len(),
        free_of(s.skip(at + 1), c),
        at >= 0 ==> s[at] == c,
    ensures
        last_index(s, c) == if at >= 0 {
            Some(at)
        } else {
            None
        },
    decreases s.len(),
{
    if s.len() > 0 && at < s.len() - 1 {
        let after = s.skip(at + 1);
        assert(after[after.len() - 1] != c);
        lemma_part_is_free(after, c, 0, after.len() - 1);
        assert(s.drop_last().skip(at + 1) =~= after.subrange(0, after.len() - 1));
        lemma_last_index_is(s.drop_last(), c, at);
    }
}

/// A sequence without the separator is one field.
pub proof fn lemma_split_one_field(s: Seq<char>, sep: char)
    requires
        free_of(s, sep),
    ensures
        split(s, sep) =~= seq![s],
    decreases s.len(),
{
    if s.len() > 0 {
        let tail = s.skip(1);
        lemma_part_is_free(s, sep, 1, s.len() as int);
        assert(tail =~= s.subrange(1, s.len() as int));
        lemma_split_one_field(tail, sep);
        assert(seq![s[0]] + tail =~= s);
    } else {
        assert(s =~= Seq::<char>::empty());
    }
}

/// Up to its first separator a sequence is its first field; what follows the
/// separator gives the other fields.
pub proof fn lemma_split_first_field(s: Seq<char>, sep: char, at: int)
    requires
        0 <= at < s.len(),
        s[at] == sep,
        free_of(s.take(at), sep),
    ensures
        split(s, sep) =~= seq![s.take(at)] + split(s.skip(at + 1), sep),
    decreases at,
{
    let tail = s.skip(1);
    if at == 0 {
        assert(s.take(0) =~= Seq::<char>::empty());
    } else {
        assert(s.take(at)[0] != sep);
        lemma_part_is_free(s.take(at), sep, 1, at);
        assert(tail.take(at - 1) =~= s.take(at).subrange(1, at));
        lemma_split_first_field(tail, sep, at - 1);
        assert(tail.skip(at) =~= s.skip(at + 1));
        assert(seq![s[0]] + tail.take(at - 1) =~= s.take(at));
    }
}

/// There is one field more than there are separators.
pub proof fn lemma_split_counts_separators(s: Seq<char>, sep: char)
    ensures
        split(s, sep).len() == occurrences(s, sep) + 1,
    decreases s.len(),
{
    if s.len() > 0 {
        lemma_split_counts_separators(s.skip(1), sep);
    }
}

/// A part of a sequence holds `c` no more often than the whole.
pub proof fn lemma_occurrences_in_part(s: Seq<char>, c: char, from: int, to: int)
    requires
        0 <= from <= to <= s.len(),
    ensures
        occurrences(s.subrange(from, to), c) <= occurrences(s, c),
    decreases s.len(),
{
    let part = s.subrange(from, to);
    if from == to {
    } else if from > 0 {
        assert(s.skip(1).subrange(from - 1, to - 1) =~= part);
        lemma_occurrences_in_part(s.skip(1), c, from - 1, to - 1);
    } else {
        assert(part.skip(1) =~= s.skip(1).subrange(0, to - 1));
        lemma_occurrences_in_part(s.skip(1), c, 0, to - 1);
    }
}

} // verus!
