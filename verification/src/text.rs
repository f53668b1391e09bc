//! Character-level search over strings: first and last occurrence of a
//! character, with executable counterparts proved against the spec-level
//! definitions. Everything here is shared ground for the codec and the path
//! helpers.

use vstd::prelude::*;

verus! {

/// Index of the first occurrence of `c` in `t` at or after position `i`,
/// or `t.len()` if there is none.
pub open spec fn first_at(t: Seq<char>, c: char, i: int) -> int
    decreases t.len() - i,
{
    if i < 0 || i >= t.len() {
        t.len() as int
    } else if t[i] == c {
        i
    } else {
        first_at(t, c, i + 1)
    }
}

/// `first_at` lies between its starting point and the length, points at `c`
/// when it is in range, and nothing before it (from the starting point on)
/// is `c`.
pub proof fn lemma_first_at_props(t: Seq<char>, c: char, i: int)
    requires
        0 <= i <= t.len(),
    ensures
        i <= first_at(t, c, i) <= t.len(),
        first_at(t, c, i) < t.len() ==> t[first_at(t, c, i)] == c,
        forall|j: int| i <= j < first_at(t, c, i) ==> t[j] != c,
    decreases t.len() - i,
{
    if i < t.len() && t[i] != c {
        lemma_first_at_props(t, c, i + 1);
    }
}

/// A position `k` that carries `c` (or is the end) with no `c` before it is
/// exactly what `first_at` returns.
pub proof fn lemma_first_at_is(t: Seq<char>, c: char, i: int, k: int)
    requires
        0 <= i <= k <= t.len(),
        k == t.len() || t[k] == c,
        forall|j: int| i <= j < k ==> t[j] != c,
    ensures
        first_at(t, c, i) == k,
    decreases k - i,
{
    if i < k {
        lemma_first_at_is(t, c, i + 1, k);
    }
}

/// Index of the last occurrence of `c` in `t`, or `-1` if there is none.
pub open spec fn last_at(t: Seq<char>, c: char) -> int
    decreases t.len(),
{
    if t.len() == 0 {
        -1
    } else if t.last() == c {
        t.len() - 1
    } else {
        last_at(t.drop_last(), c)
    }
}

/// `last_at` is in range or `-1`, points at `c` when in range, and nothing
/// after it is `c`.
pub proof fn lemma_last_at_props(t: Seq<char>, c: char)
    ensures
        -1 <= last_at(t, c) < t.len(),
        last_at(t, c) >= 0 ==> t[last_at(t, c)] == c,
        forall|j: int| last_at(t, c) < j < t.len() ==> t[j] != c,
    decreases t.len(),
{
    if t.len() > 0 && t.last() != c {
        lemma_last_at_props(t.drop_last(), c);
        assert(forall|j: int| last_at(t, c) < j < t.len() - 1 ==> t.drop_last()[j] == t[j]);
    }
}

/// A position `k` that carries `c` (or is `-1`) with no `c` after it is
/// exactly what `last_at` returns.
pub proof fn lemma_last_at_is(t: Seq<char>, c: char, k: int)
    requires
        -1 <= k < t.len(),
        k >= 0 ==> t[k] == c,
        forall|j: int| k < j < t.len() ==> t[j] != c,
    ensures
        last_at(t, c) == k,
    decreases t.len(),
{
    if t.len() > 0 && t.last() != c {
        assert(t.drop_last() =~= t.subrange(0, t.len() - 1));
        assert(forall|j: int| k < j < t.len() - 1 ==> t.drop_last()[j] == t[j]);
        lemma_last_at_is(t.drop_last(), c, k);
    }
}

/// Executable search for the first occurrence of `c` in `t` at or after
/// `from`; returns the character index, or the character length of `t` if
/// `c` does not occur there.
pub fn find_char(t: &str, from: usize, c: char) -> (r: usize)
    requires
        from <= t@.len(),
    ensures
        r == first_at(t@, c, from as int),
{
    let n = t.unicode_len();
    let mut i = from;
    while i < n
        invariant
            from <= i <= n,
            n == t@.len(),
            forall|j: int| from <= j < i ==> t@[j] != c,
        decreases n - i,
    {
        if t.get_char(i) == c {
            proof {
                lemma_first_at_is(t@, c, from as int, i as int);
            }
            return i;
        }
        i += 1;
    }
    proof {
        lemma_first_at_is(t@, c, from as int, n as int);
    }
    n
}

/// Executable string-slice equality, stated over the views.
pub fn str_eq(a: &str, b: &str) -> (r: bool)
    ensures
        r == (a@ == b@),
{
    let sa = String::from_str(a);
    let sb = String::from_str(b);
    sa == sb
}

} // verus!
