//! Verified string helpers: equality, prefix test, splitting on a separator
//! character, and trimming a character from both ends.

use vstd::prelude::*;

verus! {

/// Index of the first occurrence of `c` in `s`, or -1 if `c` does not occur.
pub open spec fn first_index_of(s: Seq<char>, c: char) -> int
    decreases s.len(),
{
    if s.len() == 0 {
        -1
    } else if s[0] == c {
        0
    } else {
        let r = first_index_of(s.drop_first(), c);
        if r < 0 {
            -1
        } else {
            r + 1
        }
    }
}

/// `first_index_of` returns -1 exactly when `c` is absent, and otherwise the
/// least index holding `c`.
pub proof fn lemma_first_index_of(s: Seq<char>, c: char)
    ensures
        first_index_of(s, c) == -1 <==> (forall|i: int| 0 <= i < s.len() ==> s[i] != c),
        first_index_of(s, c) >= 0 ==> {
            &&& first_index_of(s, c) < s.len()
            &&& s[first_index_of(s, c)] == c
            &&& forall|i: int| 0 <= i < first_index_of(s, c) ==> s[i] != c
        },
    decreases s.len(),
{
    if s.len() > 0 && s[0] != c {
        lemma_first_index_of(s.drop_first(), c);
        assert forall|i: int| 0 <= i < s.len() && s[i] == c implies first_index_of(s, c) != -1 by {
            if i > 0 {
                assert(s.drop_first()[i - 1] == c);
            }
        }
        assert forall|i: int| 0 <= i < first_index_of(s, c) implies s[i] != c by {
            if i > 0 {
                assert(s.drop_first()[i - 1] == s[i]);
            }
        }
    }
}

/// The pieces of `s` between occurrences of `c`, in order; mirrors how
/// `str::split` treats a single-character separator.
pub open spec fn split_at_char(s: Seq<char>, c: char) -> Seq<Seq<char>>
    decreases s.len(),
    via split_at_char_decreases
{
    let r = first_index_of(s, c);
    if r < 0 {
        seq![s]
    } else {
        seq![s.take(r)] + split_at_char(s.skip(r + 1), c)
    }
}

#[via_fn]
proof fn split_at_char_decreases(s: Seq<char>, c: char) {
    lemma_first_index_of(s, c);
}

/// The views of a sequence of owned strings.
pub open spec fn strs_view(v: Seq<String>) -> Seq<Seq<char>> {
    v.map_values(|t: String| t@)
}

/// `s` with every leading `c` removed.
pub open spec fn trim_front_spec(s: Seq<char>, c: char) -> Seq<char>
    decreases s.len(),
{
    if s.len() > 0 && s[0] == c {
        trim_front_spec(s.drop_first(), c)
    } else {
        s
    }
}

/// `s` with every trailing `c` removed.
pub open spec fn trim_back_spec(s: Seq<char>, c: char) -> Seq<char>
    decreases s.len(),
{
    if s.len() > 0 && s.last() == c {
        trim_back_spec(s.drop_last(), c)
    } else {
        s
    }
}

/// `s` with every leading and trailing `c` removed; mirrors
/// `str::trim_matches` with a single-character pattern.
pub open spec fn trim_char_spec(s: Seq<char>, c: char) -> Seq<char> {
    trim_back_spec(trim_front_spec(s, c), c)
}

/// If no separator occurs in `s` from `start` on, the tail is a single piece.
proof fn lemma_split_tail(s: Seq<char>, c: char, start: int)
    requires
        0 <= start <= s.len(),
        forall|j: int| start <= j < s.len() ==> s[j] != c,
    ensures
        split_at_char(s.skip(start), c) == seq![s.skip(start)],
{
    let t = s.skip(start);
    lemma_first_index_of(t, c);
    assert forall|j: int| 0 <= j < t.len() implies t[j] != c by {
        assert(t[j] == s[start + j]);
    }
}

/// If the first separator at or after `start` stands at `i`, the piece
/// `s[start..i]` comes off the front of the remaining split.
proof fn lemma_split_step(s: Seq<char>, c: char, start: int, i: int)
    requires
        0 <= start <= i < s.len(),
        forall|j: int| start <= j < i ==> s[j] != c,
        s[i] == c,
    ensures
        split_at_char(s.skip(start), c) == seq![s.subrange(start, i)] + split_at_char(
            s.skip(i + 1),
            c,
        ),
{
    let t = s.skip(start);
    lemma_first_index_of(t, c);
    let r = first_index_of(t, c);
    assert(t[i - start] == c);
    assert forall|j: int| 0 <= j < i - start implies t[j] != c by {
        assert(t[j] == s[start + j]);
    }
    assert(r == i - start);
    assert(t.take(r) =~= s.subrange(start, i));
    assert(t.skip(r + 1) =~= s.skip(i + 1));
}

/// Splits `s` at every occurrence of `c`, as `str::split` does for a
/// single-character separator.
pub fn split_str(s: &str, c: char) -> (parts: Vec<String>)
    ensures
        strs_view(parts@) == split_at_char(s@, c),
{
    let n = s.unicode_len();
    let mut parts: Vec<String> = Vec::new();
    let mut start: usize = 0;
    let mut i: usize = 0;
    proof {
        assert(s@.skip(0) =~= s@);
        assert(strs_view(parts@) + split_at_char(s@, c) =~= split_at_char(s@, c));
    }
    while i < n
        invariant
            n == s@.len(),
            start <= i <= n,
            forall|j: int| start <= j < i ==> s@[j] != c,
            split_at_char(s@, c) == strs_view(parts@) + split_at_char(s@.skip(start as int), c),
        decreases n - i,
    {
        if s.get_char(i) == c {
            let ghost old_parts = parts@;
            let piece = s.substring_char(start, i).to_owned();
            parts.push(piece);
            proof {
                lemma_split_step(s@, c, start as int, i as int);
                assert(strs_view(parts@) =~= strs_view(old_parts).push(piece@));
                assert(strs_view(old_parts) + (seq![s@.subrange(start as int, i as int)]
                    + split_at_char(s@.skip(i + 1), c)) =~= strs_view(parts@) + split_at_char(
                    s@.skip(i + 1),
                    c,
                ));
            }
            start = i + 1;
        }
        i = i + 1;
    }
    let ghost old_parts = parts@;
    let piece = s.substring_char(start, n).to_owned();
    parts.push(piece);
    proof {
        lemma_split_tail(s@, c, start as int);
        assert(piece@ == s@.skip(start as int));
        assert(strs_view(parts@) =~= strs_view(old_parts).push(piece@));
        assert(strs_view(old_parts) + seq![s@.skip(start as int)] =~= strs_view(parts@));
    }
    parts
}

/// Removes every leading and trailing `c` from `s`, as `str::trim_matches`
/// does for a single-character pattern.
pub fn trim_char(s: &str, c: char) -> (r: String)
    ensures
        r@ == trim_char_spec(s@, c),
{
    let n = s.unicode_len();
    let mut lo: usize = 0;
    proof {
        assert(s@.skip(0) =~= s@);
    }
    while lo < n && s.get_char(lo) == c
        invariant
            n == s@.len(),
            lo <= n,
            trim_front_spec(s@, c) == trim_front_spec(s@.skip(lo as int), c),
        decreases n - lo,
    {
        proof {
            assert(s@.skip(lo as int).drop_first() =~= s@.skip(lo + 1));
        }
        lo = lo + 1;
    }
    let ghost tf = trim_front_spec(s@, c);
    proof {
        assert(tf == s@.skip(lo as int));
    }
    let mut hi: usize = n;
    proof {
        assert(s@.subrange(lo as int, n as int) =~= s@.skip(lo as int));
    }
    while hi > lo && s.get_char(hi - 1) == c
        invariant
            n == s@.len(),
            lo <= hi <= n,
            trim_back_spec(tf, c) == trim_back_spec(s@.subrange(lo as int, hi as int), c),
        decreases hi,
    {
        proof {
            assert(s@.subrange(lo as int, hi as int).last() == s@[hi - 1]);
            assert(s@.subrange(lo as int, hi as int).drop_last() =~= s@.subrange(
                lo as int,
                hi - 1,
            ));
        }
        hi = hi - 1;
    }
    s.substring_char(lo, hi).to_owned()
}

/// Character-by-character string equality.
pub fn str_eq(a: &str, b: &str) -> (r: bool)
    ensures
        r == (a@ == b@),
{
    let n = a.unicode_len();
    if n != b.unicode_len() {
        return false;
    }
    let mut i: usize = 0;
    while i < n
        invariant
            n == a@.len(),
            n == b@.len(),
            i <= n,
            forall|j: int| 0 <= j < i ==> a@[j] == b@[j],
        decreases n - i,
    {
        if a.get_char(i) != b.get_char(i) {
            return false;
        }
        i = i + 1;
    }
    proof {
        assert(a@ =~= b@);
    }
    true
}

/// Whether `s` begins with the character `c`.
pub fn starts_with_char(s: &str, c: char) -> (r: bool)
    ensures
        r == (s@.len() > 0 && s@[0] == c),
{
    if s.unicode_len() == 0 {
        false
    } else {
        s.get_char(0) == c
    }
}

} // verus!
