//! Proved properties of the rewrite passes and of duplicate-key
//! resolution, stated over the same spec functions the executable
//! functions' contracts use.

use crate::compile_commands::dedup_entries_first;
use crate::compile_commands::dedup_entries_last;
use crate::compile_commands::dedup_tokens;
use crate::compile_commands::keys_contain;
use crate::compile_commands::lemma_dedup_tokens_membership;
use crate::compile_commands::quote_token;
use crate::compile_commands::CompileCommand;
use vstd::prelude::*;

verus! {

// ---------------------------------------------------------------------------
// Token deduplication
// ---------------------------------------------------------------------------

/// No token occurs twice in a deduplicated sequence.
pub proof fn lemma_dedup_tokens_distinct(s: Seq<Seq<char>>)
    ensures
        forall|i: int, j: int|
            0 <= i < j < dedup_tokens(s).len() ==> dedup_tokens(s)[i] != dedup_tokens(s)[j],
    decreases s.len(),
{
    if s.len() > 0 {
        lemma_dedup_tokens_distinct(s.drop_last());
        let pre = dedup_tokens(s.drop_last());
        if !s.drop_last().contains(s.last()) {
            lemma_dedup_tokens_membership(s.drop_last(), s.last());
            assert(!pre.contains(s.last()));
            assert forall|i: int, j: int|
                0 <= i < j < pre.push(s.last()).len() implies pre.push(s.last())[i] != pre.push(
                s.last(),
            )[j] by {
                if j < pre.len() {
                } else {
                    assert(pre.push(s.last())[j] == s.last());
                    assert(pre.push(s.last())[i] == pre[i]);
                    if pre[i] == s.last() {
                        assert(pre.contains(s.last()));
                    }
                }
            }
        }
    }
}

/// Deduplication leaves a duplicate-free sequence untouched.
pub proof fn lemma_dedup_tokens_fixed(s: Seq<Seq<char>>)
    requires
        forall|i: int, j: int| 0 <= i < j < s.len() ==> s[i] != s[j],
    ensures
        dedup_tokens(s) == s,
    decreases s.len(),
{
    if s.len() > 0 {
        assert(forall|i: int, j: int|
            0 <= i < j < s.drop_last().len() ==> s.drop_last()[i] != s.drop_last()[j]);
        lemma_dedup_tokens_fixed(s.drop_last());
        assert(!s.drop_last().contains(s.last())) by {
            if s.drop_last().contains(s.last()) {
                let i = choose|i: int|
                    0 <= i < s.drop_last().len() && s.drop_last()[i] == s.last();
                assert(s[i] == s[s.len() - 1]);
            }
        }
        assert(s.drop_last().push(s.last()) =~= s);
    }
}

/// Running the deduplication pass twice gives what one run gives.
pub proof fn lemma_dedup_tokens_idempotent(s: Seq<Seq<char>>)
    ensures
        dedup_tokens(dedup_tokens(s)) == dedup_tokens(s),
{
    lemma_dedup_tokens_distinct(s);
    lemma_dedup_tokens_fixed(dedup_tokens(s));
}

// ---------------------------------------------------------------------------
// Quoting
// ---------------------------------------------------------------------------

/// A token without a space is emitted into the joined command exactly
/// as it stands; in particular a quote-stripped `-D` token whose value
/// has no space is not re-quoted.
pub proof fn lemma_join_keeps_spaceless_token(t: Seq<char>)
    requires
        !t.contains(' '),
    ensures
        quote_token(t) == t,
{
}

// ---------------------------------------------------------------------------
// Duplicate-key resolution across records
// ---------------------------------------------------------------------------

/// Index of the first record in `s` whose key is `k`; meaningful when
/// some record has that key.
pub open spec fn first_index_of_key(s: Seq<CompileCommand>, k: Seq<char>) -> int
    decreases s.len(),
{
    if s.len() == 0 {
        0
    } else if s[0].spec_key() == k {
        0
    } else {
        1 + first_index_of_key(s.skip(1), k)
    }
}

/// Index of the last record in `s` whose key is `k`; meaningful when
/// some record has that key.
pub open spec fn last_index_of_key(s: Seq<CompileCommand>, k: Seq<char>) -> int
    decreases s.len(),
{
    if s.len() == 0 {
        -1
    } else if s.last().spec_key() == k {
        s.len() - 1
    } else {
        last_index_of_key(s.drop_last(), k)
    }
}

/// The first index of a present key is a valid index, holds the key,
/// and nothing earlier does.
pub proof fn lemma_first_index_props(s: Seq<CompileCommand>, k: Seq<char>)
    requires
        keys_contain(s, k),
    ensures
        0 <= first_index_of_key(s, k) < s.len(),
        s[first_index_of_key(s, k)].spec_key() == k,
        forall|j: int| 0 <= j < first_index_of_key(s, k) ==> s[j].spec_key() != k,
    decreases s.len(),
{
    if s.len() > 0 && s[0].spec_key() != k {
        assert(keys_contain(s.skip(1), k)) by {
            let i = choose|i: int| 0 <= i < s.len() && s[i].spec_key() == k;
            assert(s.skip(1)[i - 1].spec_key() == k);
        }
        lemma_first_index_props(s.skip(1), k);
        let f = first_index_of_key(s.skip(1), k);
        assert(s[1 + f] == s.skip(1)[f]);
        assert(forall|j: int| 1 <= j < 1 + f ==> s[j] == s.skip(1)[j - 1]);
    }
}

/// The last index of a present key is a valid index, holds the key,
/// and nothing later does.
pub proof fn lemma_last_index_props(s: Seq<CompileCommand>, k: Seq<char>)
    requires
        keys_contain(s, k),
    ensures
        0 <= last_index_of_key(s, k) < s.len(),
        s[last_index_of_key(s, k)].spec_key() == k,
        forall|j: int| last_index_of_key(s, k) < j < s.len() ==> s[j].spec_key() != k,
    decreases s.len(),
{
    if s.len() > 0 && s.last().spec_key() != k {
        assert(keys_contain(s.drop_last(), k)) by {
            let i = choose|i: int| 0 <= i < s.len() && s[i].spec_key() == k;
            assert(s.drop_last()[i].spec_key() == k);
        }
        lemma_last_index_props(s.drop_last(), k);
        let f = last_index_of_key(s.drop_last(), k);
        assert(s[f] == s.drop_last()[f]);
        assert(forall|j: int| f < j < s.len() - 1 ==> s[j] == s.drop_last()[j]);
    }
}

proof fn lemma_first_index_snoc(s: Seq<CompileCommand>, k: Seq<char>)
    requires
        s.len() > 0,
    ensures
        keys_contain(s.drop_last(), k) ==> first_index_of_key(s, k) == first_index_of_key(
            s.drop_last(),
            k,
        ),
        !keys_contain(s.drop_last(), k) && s.last().spec_key() == k ==> first_index_of_key(s, k)
            == s.len() - 1,
    decreases s.len(),
{
    if s.len() == 1 {
    } else {
        let d = s.drop_last();
        if s[0].spec_key() == k {
            assert(d[0].spec_key() == k);
            assert(keys_contain(d, k));
        } else {
            lemma_first_index_snoc(s.skip(1), k);
            assert(s.skip(1).drop_last() =~= d.skip(1));
            assert(s.skip(1).last() == s.last());
            if keys_contain(d, k) {
                assert(keys_contain(d.skip(1), k)) by {
                    let i = choose|i: int| 0 <= i < d.len() && d[i].spec_key() == k;
                    assert(i != 0);
                    assert(d.skip(1)[i - 1].spec_key() == k);
                }
                assert(first_index_of_key(s.skip(1), k) == first_index_of_key(d.skip(1), k));
                assert(first_index_of_key(d, k) == 1 + first_index_of_key(d.skip(1), k));
            } else {
                assert(!keys_contain(d.skip(1), k)) by {
                    if keys_contain(d.skip(1), k) {
                        let i = choose|i: int|
                            0 <= i < d.skip(1).len() && (#[trigger] d.skip(1)[i]).spec_key() == k;
                        assert(d[i + 1].spec_key() == k);
                    }
                }
                if s.last().spec_key() == k {
                    assert(first_index_of_key(s.skip(1), k) == s.skip(1).len() - 1);
                }
            }
        }
    }
}

proof fn lemma_last_index_cons(s: Seq<CompileCommand>, k: Seq<char>)
    requires
        s.len() > 0,
    ensures
        keys_contain(s.skip(1), k) ==> last_index_of_key(s, k) == 1 + last_index_of_key(
            s.skip(1),
            k,
        ),
        !keys_contain(s.skip(1), k) && s[0].spec_key() == k ==> last_index_of_key(s, k) == 0,
    decreases s.len(),
{
    if s.len() == 1 {
        assert(s.skip(1).len() == 0);
    } else {
        let t = s.skip(1);
        if s.last().spec_key() == k {
            assert(t.last() == s.last());
            assert(t[t.len() - 1].spec_key() == k);
            assert(keys_contain(t, k));
            assert(last_index_of_key(t, k) == t.len() - 1);
        } else {
            lemma_last_index_cons(s.drop_last(), k);
            assert(s.drop_last().skip(1) =~= t.drop_last());
            assert(s.drop_last()[0] == s[0]);
            if keys_contain(t, k) {
                assert(t.last().spec_key() != k);
                assert(keys_contain(t.drop_last(), k)) by {
                    let i = choose|i: int| 0 <= i < t.len() && t[i].spec_key() == k;
                    assert(i != t.len() - 1);
                    assert(t.drop_last()[i].spec_key() == k);
                }
                assert(last_index_of_key(t, k) == last_index_of_key(t.drop_last(), k));
                assert(keys_contain(s.drop_last().skip(1), k));
                assert(last_index_of_key(s.drop_last(), k) == 1 + last_index_of_key(
                    t.drop_last(),
                    k,
                ));
            } else {
                assert(!keys_contain(t.drop_last(), k)) by {
                    if keys_contain(t.drop_last(), k) {
                        let i = choose|i: int|
                            0 <= i < t.drop_last().len() && (#[trigger] t.drop_last()[i]).spec_key()
                                == k;
                        assert(t[i].spec_key() == k);
                    }
                }
                if s[0].spec_key() == k {
                    assert(last_index_of_key(s.drop_last(), k) == 0);
                }
            }
        }
    }
}

/// Retain-first keeps, for every key of the collection, exactly the
/// record at that key's earliest position, and lists the survivors in
/// the order of those positions.
pub proof fn lemma_retain_first_law(s: Seq<CompileCommand>)
    ensures
        forall|k: Seq<char>| keys_contain(dedup_entries_first(s), k) == keys_contain(s, k),
        forall|i: int, j: int|
            0 <= i < j < dedup_entries_first(s).len() ==> dedup_entries_first(s)[i].spec_key()
                != dedup_entries_first(s)[j].spec_key(),
        forall|i: int|
            0 <= i < dedup_entries_first(s).len() ==> dedup_entries_first(s)[i] == s[
                first_index_of_key(s, (#[trigger] dedup_entries_first(s)[i]).spec_key())
            ],
        forall|i: int, j: int|
            0 <= i < j < dedup_entries_first(s).len() ==> first_index_of_key(
                s,
                dedup_entries_first(s)[i].spec_key(),
            ) < first_index_of_key(s, dedup_entries_first(s)[j].spec_key()),
    decreases s.len(),
{
    let r = dedup_entries_first(s);
    if s.len() > 0 {
        let d = s.drop_last();
        lemma_retain_first_law(d);
        let rp = dedup_entries_first(d);
        assert(forall|k: Seq<char>|
            keys_contain(s, k) == (keys_contain(d, k) || s.last().spec_key() == k)) by {
            assert forall|k: Seq<char>|
                keys_contain(s, k) == (keys_contain(d, k) || s.last().spec_key() == k) by {
                crate::compile_commands::lemma_keys_contain_push(d, s.last(), k);
                assert(d.push(s.last()) =~= s);
            }
        }
        assert forall|k: Seq<char>| keys_contain(d, k) implies first_index_of_key(s, k)
            == first_index_of_key(d, k) by {
            lemma_first_index_snoc(s, k);
        }
        assert forall|i: int| 0 <= i < d.len() implies s[i] == d[i] by {}
        if keys_contain(d, s.last().spec_key()) {
            assert(r == rp);
            assert forall|k: Seq<char>| keys_contain(r, k) == keys_contain(s, k) by {
                assert(keys_contain(r, k) == keys_contain(d, k));
            }
            assert forall|i: int| 0 <= i < r.len() implies r[i] == s[first_index_of_key(
                s,
                (#[trigger] r[i]).spec_key(),
            )] by {
                assert(keys_contain(rp, rp[i].spec_key()));
                assert(keys_contain(d, rp[i].spec_key()));
                lemma_first_index_props(d, rp[i].spec_key());
            }
        } else {
            assert(r == rp.push(s.last()));
            assert forall|k: Seq<char>| keys_contain(r, k) == keys_contain(s, k) by {
                crate::compile_commands::lemma_keys_contain_push(rp, s.last(), k);
                assert(keys_contain(rp, k) == keys_contain(d, k));
            }
            lemma_first_index_snoc(s, s.last().spec_key());
            assert(first_index_of_key(s, s.last().spec_key()) == s.len() - 1);
            assert forall|i: int, j: int| 0 <= i < j < r.len() implies r[i].spec_key()
                != r[j].spec_key() by {
                if j < rp.len() {
                    assert(r[i] == rp[i] && r[j] == rp[j]);
                } else {
                    assert(r[j] == s.last());
                    assert(r[i] == rp[i]);
                    assert(keys_contain(rp, rp[i].spec_key()));
                    if rp[i].spec_key() == s.last().spec_key() {
                        assert(keys_contain(d, s.last().spec_key()));
                    }
                }
            }
            assert forall|i: int| 0 <= i < r.len() implies r[i] == s[first_index_of_key(
                s,
                (#[trigger] r[i]).spec_key(),
            )] by {
                if i < rp.len() {
                    assert(r[i] == rp[i]);
                    assert(keys_contain(rp, rp[i].spec_key()));
                    assert(keys_contain(d, rp[i].spec_key()));
                    lemma_first_index_props(d, rp[i].spec_key());
                } else {
                    assert(r[i] == s.last());
                }
            }
            assert forall|i: int, j: int| 0 <= i < j < r.len() implies first_index_of_key(
                s,
                r[i].spec_key(),
            ) < first_index_of_key(s, r[j].spec_key()) by {
                if j < rp.len() {
                } else {
                    assert(r[j] == s.last());
                    assert(r[i] == rp[i]);
                    assert(keys_contain(d, rp[i].spec_key()));
                    lemma_first_index_props(d, rp[i].spec_key());
                }
            }
        }
    }
}

/// Retain-last keeps, for every key of the collection, exactly the
/// record at that key's latest position, and lists the survivors in
/// the order of those positions.
pub proof fn lemma_retain_last_law(s: Seq<CompileCommand>)
    ensures
        forall|k: Seq<char>| keys_contain(dedup_entries_last(s), k) == keys_contain(s, k),
        forall|i: int, j: int|
            0 <= i < j < dedup_entries_last(s).len() ==> dedup_entries_last(s)[i].spec_key()
                != dedup_entries_last(s)[j].spec_key(),
        forall|i: int|
            0 <= i < dedup_entries_last(s).len() ==> dedup_entries_last(s)[i] == s[
                last_index_of_key(s, (#[trigger] dedup_entries_last(s)[i]).spec_key())
            ],
        forall|i: int, j: int|
            0 <= i < j < dedup_entries_last(s).len() ==> last_index_of_key(
                s,
                dedup_entries_last(s)[i].spec_key(),
            ) < last_index_of_key(s, dedup_entries_last(s)[j].spec_key()),
    decreases s.len(),
{
    let r = dedup_entries_last(s);
    if s.len() > 0 {
        let t = s.skip(1);
        lemma_retain_last_law(t);
        let rt = dedup_entries_last(t);
        assert(forall|k: Seq<char>|
            keys_contain(s, k) == (keys_contain(t, k) || s[0].spec_key() == k)) by {
            assert forall|k: Seq<char>|
                keys_contain(s, k) == (keys_contain(t, k) || s[0].spec_key() == k) by {
                if keys_contain(s, k) {
                    let i = choose|i: int| 0 <= i < s.len() && s[i].spec_key() == k;
                    if i > 0 {
                        assert(t[i - 1].spec_key() == k);
                    }
                }
                if keys_contain(t, k) {
                    let i = choose|i: int| 0 <= i < t.len() && t[i].spec_key() == k;
                    assert(s[i + 1].spec_key() == k);
                }
                if s[0].spec_key() == k {
                    assert(keys_contain(s, k));
                }
            }
        }
        assert forall|k: Seq<char>| keys_contain(t, k) implies last_index_of_key(s, k) == 1
            + last_index_of_key(t, k) by {
            lemma_last_index_cons(s, k);
        }
        assert forall|i: int| 0 <= i < t.len() implies s[i + 1] == t[i] by {}
        if keys_contain(t, s[0].spec_key()) {
            assert(r == rt);
            assert forall|k: Seq<char>| keys_contain(r, k) == keys_contain(s, k) by {
                assert(keys_contain(r, k) == keys_contain(t, k));
            }
            assert forall|i: int| 0 <= i < r.len() implies r[i] == s[last_index_of_key(
                s,
                (#[trigger] r[i]).spec_key(),
            )] by {
                assert(keys_contain(rt, rt[i].spec_key()));
                assert(keys_contain(t, rt[i].spec_key()));
                lemma_last_index_props(t, rt[i].spec_key());
            }
        } else {
            assert(r == seq![s[0]] + rt);
            assert forall|k: Seq<char>| keys_contain(r, k) == keys_contain(s, k) by {
                assert(keys_contain(r, k) == (keys_contain(rt, k) || s[0].spec_key() == k)) by {
                    if keys_contain(r, k) {
                        let i = choose|i: int|
                            0 <= i < r.len() && (#[trigger] r[i]).spec_key() == k;
                        if i > 0 {
                            assert(rt[i - 1].spec_key() == k);
                        }
                    }
                    if keys_contain(rt, k) {
                        let i = choose|i: int|
                            0 <= i < rt.len() && (#[trigger] rt[i]).spec_key() == k;
                        assert(r[i + 1].spec_key() == k);
                    }
                    if s[0].spec_key() == k {
                        assert(r[0].spec_key() == k);
                    }
                }
                assert(keys_contain(rt, k) == keys_contain(t, k));
            }
            lemma_last_index_cons(s, s[0].spec_key());
            assert(last_index_of_key(s, s[0].spec_key()) == 0);
            assert forall|i: int, j: int| 0 <= i < j < r.len() implies r[i].spec_key()
                != r[j].spec_key() by {
                if i == 0 {
                    assert(r[0] == s[0]);
                    assert(r[j] == rt[j - 1]);
                    assert(keys_contain(rt, rt[j - 1].spec_key()));
                    if rt[j - 1].spec_key() == s[0].spec_key() {
                        assert(keys_contain(t, s[0].spec_key()));
                    }
                } else {
                    assert(r[i] == rt[i - 1] && r[j] == rt[j - 1]);
                }
            }
            assert forall|i: int| 0 <= i < r.len() implies r[i] == s[last_index_of_key(
                s,
                (#[trigger] r[i]).spec_key(),
            )] by {
                if i == 0 {
                    assert(r[0] == s[0]);
                } else {
                    assert(r[i] == rt[i - 1]);
                    assert(keys_contain(rt, rt[i - 1].spec_key()));
                    assert(keys_contain(t, rt[i - 1].spec_key()));
                    lemma_last_index_props(t, rt[i - 1].spec_key());
                }
            }
            assert forall|i: int, j: int| 0 <= i < j < r.len() implies last_index_of_key(
                s,
                r[i].spec_key(),
            ) < last_index_of_key(s, r[j].spec_key()) by {
                if i == 0 {
                    assert(r[j] == rt[j - 1]);
                    assert(keys_contain(t, rt[j - 1].spec_key()));
                    lemma_last_index_props(t, rt[j - 1].spec_key());
                } else {
                    assert(r[i] == rt[i - 1] && r[j] == rt[j - 1]);
                    assert(keys_contain(t, rt[i - 1].spec_key()));
                    assert(keys_contain(t, rt[j - 1].spec_key()));
                }
            }
        }
    }
}

} // verus!
