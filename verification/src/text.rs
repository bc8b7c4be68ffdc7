//! Character-sequence primitives: counting and locating characters,
//! splitting on a separator, and literal substring replacement.
//!
//! Spec functions here are the vocabulary in which the rewrite passes
//! state their contracts; the executable functions implement them for
//! `&str` and `String`.

use vstd::prelude::*;
use vstd::string::StrSliceExecFns;
use vstd::string::StringExecFns;

verus! {

// ---------------------------------------------------------------------------
// Counting and locating a character
// ---------------------------------------------------------------------------

/// Number of occurrences of `c` in `s`.
pub open spec fn count_char(s: Seq<char>, c: char) -> nat
    decreases s.len(),
{
    if s.len() == 0 {
        0
    } else {
        (if s[0] == c {
            1nat
        } else {
            0nat
        }) + count_char(s.skip(1), c)
    }
}

/// Index of the first occurrence of `c` in `s`, or -1 when absent.
pub open spec fn find_char(s: Seq<char>, c: char) -> int
    decreases s.len(),
{
    if s.len() == 0 {
        -1
    } else if s[0] == c {
        0
    } else {
        let r = find_char(s.skip(1), c);
        if r < 0 {
            -1
        } else {
            r + 1
        }
    }
}

pub proof fn lemma_count_char_push(s: Seq<char>, c: char, x: char)
    ensures
        count_char(s.push(x), c) == count_char(s, c) + (if x == c {
            1nat
        } else {
            0nat
        }),
    decreases s.len(),
{
    if s.len() == 0 {
        assert(s.push(x).skip(1) =~= Seq::<char>::empty());
        assert(count_char(s.push(x).skip(1), c) == 0);
        assert(s.push(x)[0] == x);
    } else {
        assert(s.push(x).skip(1) =~= s.skip(1).push(x));
        lemma_count_char_push(s.skip(1), c, x);
        assert(s.push(x)[0] == s[0]);
        assert(count_char(s.push(x), c) == (if s[0] == c {
            1nat
        } else {
            0nat
        }) + count_char(s.skip(1).push(x), c));
    }
}

/// What `find_char` returns is the first occurrence: a valid index
/// holding `c` with no earlier one, or -1 when `c` is absent.
pub proof fn lemma_find_char_is_first(s: Seq<char>, c: char)
    ensures
        find_char(s, c) == -1 <==> !s.contains(c),
        find_char(s, c) >= 0 ==> {
            &&& find_char(s, c) < s.len()
            &&& s[find_char(s, c)] == c
            &&& forall|j: int| 0 <= j < find_char(s, c) ==> s[j] != c
        },
    decreases s.len(),
{
    if s.len() == 0 {
    } else if s[0] == c {
        assert(s.contains(c));
    } else {
        lemma_find_char_is_first(s.skip(1), c);
        let k = find_char(s.skip(1), c);
        if k >= 0 {
            assert(s[k + 1] == s.skip(1)[k]);
            assert(forall|j: int| 1 <= j < k + 1 ==> s[j] == s.skip(1)[j - 1]);
        } else {
            assert(!s.contains(c)) by {
                if s.contains(c) {
                    let i = choose|i: int| 0 <= i < s.len() && s[i] == c;
                    assert(s.skip(1)[i - 1] == c);
                    assert(s.skip(1).contains(c));
                }
            }
        }
    }
}

/// When `c` occurs exactly once, nothing at or after the first
/// occurrence's successor is `c`.
pub proof fn lemma_single_occurrence(s: Seq<char>, c: char)
    requires
        count_char(s, c) == 1,
    ensures
        find_char(s, c) >= 0,
        forall|j: int| 0 <= j < s.len() && j != find_char(s, c) ==> s[j] != c,
    decreases s.len(),
{
    lemma_find_char_is_first(s, c);
    if s.len() > 0 {
        if s[0] == c {
            assert(count_char(s.skip(1), c) == 0);
            lemma_count_zero_no_occurrence(s.skip(1), c);
            assert(forall|j: int| 1 <= j < s.len() ==> s[j] == s.skip(1)[j - 1]);
        } else {
            lemma_single_occurrence(s.skip(1), c);
            let k = find_char(s.skip(1), c);
            assert(forall|j: int| 1 <= j < s.len() ==> s[j] == s.skip(1)[j - 1]);
        }
    }
}

pub proof fn lemma_count_zero_no_occurrence(s: Seq<char>, c: char)
    requires
        count_char(s, c) == 0,
    ensures
        forall|j: int| 0 <= j < s.len() ==> s[j] != c,
    decreases s.len(),
{
    if s.len() > 0 {
        lemma_count_zero_no_occurrence(s.skip(1), c);
        assert(forall|j: int| 1 <= j < s.len() ==> s[j] == s.skip(1)[j - 1]);
    }
}

// ---------------------------------------------------------------------------
// Splitting on a separator character
// ---------------------------------------------------------------------------

/// The pieces of `s` between occurrences of `sep`, in order.  An empty
/// sequence splits into one empty piece, and every separator ends one
/// piece and starts the next, so the result holds one piece more than
/// `s` holds separators.
pub open spec fn split_char(s: Seq<char>, sep: char) -> Seq<Seq<char>>
    decreases s.len(),
{
    if s.len() == 0 {
        seq![Seq::<char>::empty()]
    } else if s[0] == sep {
        seq![Seq::<char>::empty()] + split_char(s.skip(1), sep)
    } else {
        let rest = split_char(s.skip(1), sep);
        seq![seq![s[0]] + rest[0]] + rest.skip(1)
    }
}

pub proof fn lemma_split_char_len(s: Seq<char>, sep: char)
    ensures
        split_char(s, sep).len() == count_char(s, sep) + 1,
    decreases s.len(),
{
    if s.len() > 0 {
        lemma_split_char_len(s.skip(1), sep);
    }
}

// ---------------------------------------------------------------------------
// Literal substring replacement
// ---------------------------------------------------------------------------

/// `s` with every non-overlapping occurrence of `from`, found left to
/// right, replaced by `to`.  An empty `from` matches at every position,
/// including both ends.
pub open spec fn replace_seq(s: Seq<char>, from: Seq<char>, to: Seq<char>) -> Seq<char>
    decreases s.len(),
{
    if from.len() == 0 {
        if s.len() == 0 {
            to
        } else {
            to + seq![s[0]] + replace_seq(s.skip(1), from, to)
        }
    } else if s.len() < from.len() {
        s
    } else if s.take(from.len() as int) == from {
        to + replace_seq(s.skip(from.len() as int), from, to)
    } else {
        seq![s[0]] + replace_seq(s.skip(1), from, to)
    }
}

// ---------------------------------------------------------------------------
// Executable counterparts
// ---------------------------------------------------------------------------

/// Relies on `String::push`: appends the character to the end of the
/// string.
#[verifier::external_body]
pub fn push_char(s: &mut String, c: char)
    ensures
        final(s)@ == old(s)@.push(c),
{
    s.push(c);
}

/// Character-wise string equality.
pub fn str_eq(a: &str, b: &str) -> (r: bool)
    ensures
        r == (a@ == b@),
{
    let alen = a.unicode_len();
    let blen = b.unicode_len();
    if alen != blen {
        proof {
            assert(a@.len() != b@.len());
        }
        return false;
    }
    let mut i: usize = 0;
    while i < alen
        invariant
            0 <= i <= alen,
            alen == a@.len(),
            alen == b@.len(),
            forall|j: int| 0 <= j < i ==> a@[j] == b@[j],
        decreases alen - i,
    {
        if a.get_char(i) != b.get_char(i) {
            proof {
                assert(a@[i as int] != b@[i as int]);
            }
            return false;
        }
        i = i + 1;
    }
    proof {
        assert(a@ =~= b@);
    }
    true
}

pub fn count_char_in_str(s: &str, c: char) -> (n: usize)
    ensures
        n == count_char(s@, c),
{
    let len = s.unicode_len();
    let mut n: usize = 0;
    let mut i: usize = 0;
    while i < len
        invariant
            0 <= i <= len,
            len == s@.len(),
            n <= i,
            n == count_char(s@.take(i as int), c),
        decreases len - i,
    {
        let ch = s.get_char(i);
        proof {
            lemma_count_char_push(s@.take(i as int), c, s@[i as int]);
            assert(s@.take(i + 1) =~= s@.take(i as int).push(s@[i as int]));
        }
        if ch == c {
            n = n + 1;
        }
        i = i + 1;
    }
    proof {
        assert(s@.take(len as int) =~= s@);
    }
    n
}

pub fn find_char_in_str(s: &str, c: char) -> (r: Option<usize>)
    ensures
        match r {
            Some(i) => find_char(s@, c) == i as int,
            None => find_char(s@, c) == -1,
        },
{
    let len = s.unicode_len();
    let mut i: usize = 0;
    while i < len
        invariant
            0 <= i <= len,
            len == s@.len(),
            forall|j: int| 0 <= j < i ==> s@[j] != c,
        decreases len - i,
    {
        if s.get_char(i) == c {
            proof {
                lemma_find_char_is_first(s@, c);
                assert(s@.contains(c)) by {
                    assert(s@[i as int] == c);
                }
            }
            return Some(i);
        }
        i = i + 1;
    }
    proof {
        lemma_find_char_is_first(s@, c);
        if s@.contains(c) {
            let j = choose|j: int| 0 <= j < s@.len() && s@[j] == c;
            assert(false);
        }
    }
    None
}

pub fn str_contains_char(s: &str, c: char) -> (r: bool)
    ensures
        r == s@.contains(c),
{
    proof {
        lemma_find_char_is_first(s@, c);
    }
    match find_char_in_str(s, c) {
        Some(i) => {
            proof {
                assert(s@[find_char(s@, c)] == c);
            }
            true
        },
        None => false,
    }
}

/// `s` ends with `suffix`.
pub open spec fn ends_with(s: Seq<char>, suffix: Seq<char>) -> bool {
    s.len() >= suffix.len() && s.skip(s.len() - suffix.len()) == suffix
}

/// Whether the text of `s` ends with the text of `suffix`.
pub fn str_ends_with(s: &str, suffix: &str) -> (r: bool)
    ensures
        r == ends_with(s@, suffix@),
{
    let n = s.unicode_len();
    let m = suffix.unicode_len();
    if n < m {
        return false;
    }
    let tail = s.substring_char(n - m, n);
    proof {
        assert(tail@ =~= s@.skip(s@.len() - suffix@.len()));
    }
    str_eq(tail, suffix)
}

/// Whether one of the strings in `v` has exactly the text `x`.
pub fn contains_string(v: &Vec<String>, x: &str) -> (r: bool)
    ensures
        r == v.deep_view().contains(x@),
{
    let mut i: usize = 0;
    while i < v.len()
        invariant
            0 <= i <= v@.len(),
            forall|j: int| 0 <= j < i ==> v.deep_view()[j] != x@,
        decreases v@.len() - i,
    {
        if str_eq(v[i].as_str(), x) {
            proof {
                assert(v.deep_view()[i as int] == x@);
            }
            return true;
        }
        i = i + 1;
    }
    proof {
        if v.deep_view().contains(x@) {
            let j = choose|j: int| 0 <= j < v.deep_view().len() && v.deep_view()[j] == x@;
            assert(false);
        }
    }
    false
}

/// Splits `s` at every occurrence of `sep`.
pub fn split_str(s: &str, sep: char) -> (parts: Vec<String>)
    ensures
        parts.deep_view() == split_char(s@, sep),
{
    let len = s.unicode_len();
    let mut parts: Vec<String> = Vec::new();
    let mut cur: String = String::new();
    let mut i: usize = 0;
    proof {
        assert(s@.skip(0) =~= s@);
        lemma_split_char_len(s@, sep);
        let ss = split_char(s@, sep);
        assert(parts.deep_view() =~= Seq::<Seq<char>>::empty());
        assert(cur@ + ss[0] =~= ss[0]);
        assert(ss =~= seq![ss[0]] + ss.skip(1));
    }
    while i < len
        invariant
            0 <= i <= len,
            len == s@.len(),
            split_char(s@, sep) =~= parts.deep_view() + seq![cur@ + split_char(
                s@.skip(i as int),
                sep,
            )[0]] + split_char(s@.skip(i as int), sep).skip(1),
        decreases len - i,
    {
        let ch = s.get_char(i);
        proof {
            assert(s@.skip(i as int).len() > 0);
            assert(s@.skip(i as int)[0] == s@[i as int]);
            assert(s@.skip(i as int).skip(1) =~= s@.skip(i + 1));
            lemma_split_char_len(s@.skip(i + 1), sep);
        }
        let ghost ss = split_char(s@.skip(i as int), sep);
        let ghost ss1 = split_char(s@.skip(i + 1), sep);
        if ch == sep {
            proof {
                assert(ss =~= seq![Seq::<char>::empty()] + ss1);
                assert(ss[0] =~= Seq::<char>::empty());
                assert(ss.skip(1) =~= ss1);
                assert(cur@ + ss[0] =~= cur@);
                assert(ss1 =~= seq![ss1[0]] + ss1.skip(1));
            }
            let ghost fv = cur@;
            let finished = cur;
            cur = String::new();
            let ghost old_parts = parts.deep_view();
            parts.push(finished);
            proof {
                assert(parts.deep_view() =~= old_parts.push(fv));
            }
        } else {
            proof {
                assert(ss =~= seq![seq![s@[i as int]] + ss1[0]] + ss1.skip(1));
                assert(ss[0] =~= seq![s@[i as int]] + ss1[0]);
                assert(ss.skip(1) =~= ss1.skip(1));
                assert(cur@ + ss[0] =~= cur@.push(s@[i as int]) + ss1[0]);
            }
            push_char(&mut cur, ch);
        }
        i = i + 1;
    }
    proof {
        assert(s@.skip(len as int) =~= Seq::<char>::empty());
        let ss = split_char(s@.skip(len as int), sep);
        assert(ss =~= seq![Seq::<char>::empty()]);
        assert(cur@ + ss[0] =~= cur@);
        assert(ss.skip(1) =~= Seq::<Seq<char>>::empty());
    }
    let ghost old_parts = parts.deep_view();
    let ghost cv = cur@;
    parts.push(cur);
    proof {
        assert(parts.deep_view() =~= old_parts.push(cv));
        assert(parts.deep_view() =~= split_char(s@, sep));
    }
    parts
}

/// Replaces every occurrence of `from` in `hay` by `to`, scanning left
/// to right without overlap.
pub fn replace_str(hay: &str, from: &str, to: &str) -> (r: String)
    ensures
        r@ == replace_seq(hay@, from@, to@),
{
    let n = hay.unicode_len();
    let m = from.unicode_len();
    let mut out = String::new();
    let mut i: usize = 0;
    if m == 0 {
        out.append(to);
        proof {
            assert(hay@.skip(0) =~= hay@);
            assert(out@ =~= to@);
            let tail = replace_seq(hay@, from@, to@);
            if n == 0 {
                assert(tail == to@);
                assert(tail.skip(to@.len() as int) =~= Seq::<char>::empty());
            } else {
                let tail1 = replace_seq(hay@.skip(1), from@, to@);
                assert(tail =~= to@ + seq![hay@[0]] + tail1);
                assert(tail.skip(to@.len() as int) =~= seq![hay@[0]] + tail1);
            }
            assert(replace_seq(hay@, from@, to@) =~= out@ + tail.skip(to@.len() as int));
        }
        while i < n
            invariant
                0 <= i <= n,
                n == hay@.len(),
                m == from@.len() == 0,
                replace_seq(hay@, from@, to@) =~= out@ + replace_seq(
                    hay@.skip(i as int),
                    from@,
                    to@,
                ).skip(to@.len() as int),
            decreases n - i,
        {
            proof {
                assert(hay@.skip(i as int).len() > 0);
                assert(hay@.skip(i as int)[0] == hay@[i as int]);
                assert(hay@.skip(i as int).skip(1) =~= hay@.skip(i + 1));
            }
            push_char(&mut out, hay.get_char(i));
            out.append(to);
            proof {
                let tail = replace_seq(hay@.skip(i as int), from@, to@);
                let tail1 = replace_seq(hay@.skip(i + 1), from@, to@);
                assert(tail =~= to@ + seq![hay@[i as int]] + tail1);
                assert(tail.skip(to@.len() as int) =~= seq![hay@[i as int]] + tail1);
                assert(tail.skip(to@.len() as int).skip(1) =~= tail1);
            }
            i = i + 1;
        }
        proof {
            assert(hay@.skip(n as int) =~= Seq::<char>::empty());
            let tail = replace_seq(hay@.skip(n as int), from@, to@);
            assert(tail =~= to@);
            assert(tail.skip(to@.len() as int) =~= Seq::<char>::empty());
            assert(replace_seq(hay@, from@, to@) =~= out@);
        }
        return out;
    }
    proof {
        assert(hay@.skip(0) =~= hay@);
        assert(replace_seq(hay@, from@, to@) =~= out@ + replace_seq(hay@, from@, to@));
    }
    while i < n
        invariant
            0 <= i <= n,
            n == hay@.len(),
            m == from@.len(),
            m > 0,
            replace_seq(hay@, from@, to@) =~= out@ + replace_seq(hay@.skip(i as int), from@, to@),
        decreases n - i,
    {
        proof {
            assert(hay@.skip(i as int).len() == n - i);
            assert(hay@.skip(i as int)[0] == hay@[i as int]);
            assert(hay@.skip(i as int).skip(1) =~= hay@.skip(i + 1));
        }
        let mut matched = false;
        if m <= n - i {
            let cand = hay.substring_char(i, i + m);
            matched = str_eq(cand, from);
            proof {
                assert(cand@ =~= hay@.skip(i as int).take(m as int));
            }
        }
        if matched {
            out.append(to);
            proof {
                assert(hay@.skip(i as int).skip(m as int) =~= hay@.skip(i + m));
                let tail = replace_seq(hay@.skip(i as int), from@, to@);
                let tailm = replace_seq(hay@.skip(i + m), from@, to@);
                assert(tail =~= to@ + tailm);
            }
            i = i + m;
        } else {
            proof {
                let tail = replace_seq(hay@.skip(i as int), from@, to@);
                let tail1 = replace_seq(hay@.skip(i + 1), from@, to@);
                if hay@.skip(i as int).len() < m {
                    assert(tail =~= hay@.skip(i as int));
                    assert(tail1 =~= hay@.skip(i + 1));
                } else {
                    assert(hay@.skip(i as int).take(m as int) != from@);
                }
                assert(tail =~= seq![hay@[i as int]] + tail1);
            }
            push_char(&mut out, hay.get_char(i));
            i = i + 1;
        }
    }
    proof {
        assert(hay@.skip(n as int) =~= Seq::<char>::empty());
        assert(replace_seq(hay@.skip(n as int), from@, to@) =~= Seq::<char>::empty());
        assert(replace_seq(hay@, from@, to@) =~= out@);
    }
    out
}

} // verus!
