//! Lexicographic ordering of names by Unicode scalar value, the order the
//! menu and the leaderboard sort by, with a verified string comparison and
//! ordered-insert helper over (name, slug) pairs.

use vstd::prelude::*;

verus! {

/// Strict lexicographic order on character sequences, by scalar value; a
/// proper prefix comes first.
pub open spec fn lex_lt(a: Seq<char>, b: Seq<char>) -> bool
    decreases a.len(),
{
    if b.len() == 0 {
        false
    } else if a.len() == 0 {
        true
    } else if a[0] != b[0] {
        (a[0] as u32) < (b[0] as u32)
    } else {
        lex_lt(a.drop_first(), b.drop_first())
    }
}

pub proof fn lemma_lex_lt_total(a: Seq<char>, b: Seq<char>)
    ensures
        lex_lt(a, b) || lex_lt(b, a) || a == b,
    decreases a.len(),
{
    if b.len() == 0 {
        if a.len() == 0 {
            assert(a =~= b);
        }
    } else if a.len() == 0 {
    } else if a[0] != b[0] {
        assert(a[0] as u32 != b[0] as u32) by {
            vstd::utf8::char_u32_cast(a[0], a[0] as u32);
            vstd::utf8::char_u32_cast(b[0], b[0] as u32);
        }
    } else {
        lemma_lex_lt_total(a.drop_first(), b.drop_first());
        if !lex_lt(a, b) && !lex_lt(b, a) {
            assert(a.drop_first() == b.drop_first());
            assert(a =~= b) by {
                assert(forall|i: int|
                    1 <= i < a.len() ==> a[i] == a.drop_first()[i - 1] && b[i] == b.drop_first()[i
                        - 1]);
            }
        }
    }
}

pub proof fn lemma_lex_lt_asym(a: Seq<char>, b: Seq<char>)
    ensures
        !(lex_lt(a, b) && lex_lt(b, a)),
    decreases a.len(),
{
    if b.len() == 0 || a.len() == 0 {
    } else if a[0] != b[0] {
    } else {
        lemma_lex_lt_asym(a.drop_first(), b.drop_first());
    }
}

pub proof fn lemma_lex_lt_trans(a: Seq<char>, b: Seq<char>, c: Seq<char>)
    requires
        lex_lt(a, b),
        lex_lt(b, c),
    ensures
        lex_lt(a, c),
    decreases a.len(),
{
    if c.len() == 0 {
    } else if a.len() == 0 {
    } else {
        assert(b.len() > 0);
        if a[0] == b[0] && b[0] == c[0] {
            lemma_lex_lt_trans(a.drop_first(), b.drop_first(), c.drop_first());
        }
    }
}

/// Strict order on (display name, slug) pairs: by name, then by slug.
pub open spec fn pair_lt(n1: Seq<char>, s1: Seq<char>, n2: Seq<char>, s2: Seq<char>) -> bool {
    lex_lt(n1, n2) || (n1 == n2 && lex_lt(s1, s2))
}

pub proof fn lemma_pair_lt_total(n1: Seq<char>, s1: Seq<char>, n2: Seq<char>, s2: Seq<char>)
    ensures
        pair_lt(n1, s1, n2, s2) || pair_lt(n2, s2, n1, s1) || (n1 == n2 && s1 == s2),
        !(pair_lt(n1, s1, n2, s2) && pair_lt(n2, s2, n1, s1)),
{
    lemma_lex_lt_total(n1, n2);
    lemma_lex_lt_total(s1, s2);
    lemma_lex_lt_asym(n1, n2);
    lemma_lex_lt_asym(s1, s2);
}

pub proof fn lemma_pair_lt_trans(
    n1: Seq<char>,
    s1: Seq<char>,
    n2: Seq<char>,
    s2: Seq<char>,
    n3: Seq<char>,
    s3: Seq<char>,
)
    requires
        pair_lt(n1, s1, n2, s2),
        pair_lt(n2, s2, n3, s3),
    ensures
        pair_lt(n1, s1, n3, s3),
{
    if lex_lt(n1, n2) {
        if lex_lt(n2, n3) {
            lemma_lex_lt_trans(n1, n2, n3);
        }
    } else {
        if !lex_lt(n2, n3) {
            lemma_lex_lt_trans(s1, s2, s3);
        }
    }
}

fn lt_from(a: &str, b: &str, i: usize) -> (r: bool)
    requires
        i <= a@.len(),
        i <= b@.len(),
    ensures
        r == lex_lt(a@.skip(i as int), b@.skip(i as int)),
    decreases a@.len() - i,
{
    proof {
        assert(a@.skip(i as int).len() == a@.len() - i);
        assert(b@.skip(i as int).len() == b@.len() - i);
    }
    if i == b.unicode_len() {
        false
    } else if i == a.unicode_len() {
        true
    } else {
        let ca = a.get_char(i);
        let cb = b.get_char(i);
        proof {
            assert(a@.skip(i as int)[0] == a@[i as int]);
            assert(b@.skip(i as int)[0] == b@[i as int]);
            assert(a@.skip(i as int).drop_first() =~= a@.skip(i as int + 1));
            assert(b@.skip(i as int).drop_first() =~= b@.skip(i as int + 1));
        }
        if ca != cb {
            (ca as u32) < (cb as u32)
        } else {
            lt_from(a, b, i + 1)
        }
    }
}

/// Verified string comparison in the order `lex_lt` describes.
pub(crate) fn string_lt(a: &String, b: &String) -> (r: bool)
    ensures
        r == lex_lt(a@, b@),
{
    proof {
        assert(a@.skip(0) =~= a@);
        assert(b@.skip(0) =~= b@);
    }
    lt_from(a.as_str(), b.as_str(), 0)
}

pub(crate) fn pair_lt_exec(n1: &String, s1: &String, n2: &String, s2: &String) -> (r: bool)
    ensures
        r == pair_lt(n1@, s1@, n2@, s2@),
{
    if string_lt(n1, n2) {
        true
    } else if *n1 == *n2 {
        string_lt(s1, s2)
    } else {
        false
    }
}

/// Whether the pair sequence is strictly sorted in `pair_lt` order.
pub open spec fn pairs_sorted(ps: Seq<(String, String)>) -> bool {
    forall|i: int, j: int|
        0 <= i < j < ps.len() ==> pair_lt(
            #[trigger] ps[i].0@,
            ps[i].1@,
            #[trigger] ps[j].0@,
            ps[j].1@,
        )
}

/// Whether the pair (n, s) occurs in the sequence.
pub open spec fn has_pair(ps: Seq<(String, String)>, n: Seq<char>, s: Seq<char>) -> bool {
    exists|j: int| 0 <= j < ps.len() && #[trigger] ps[j].0@ == n && ps[j].1@ == s
}

/// Insert a pair into a strictly sorted pair list, keeping it sorted and
/// ignoring a pair already present.
#[verifier::loop_isolation(false)]
pub(crate) fn insert_pair(v: &mut Vec<(String, String)>, name: &String, slug: &String)
    ensures
        pairs_sorted(old(v)@) ==> pairs_sorted(final(v)@),
        forall|n: Seq<char>, s: Seq<char>|
            #[trigger] has_pair(final(v)@, n, s) <==> has_pair(old(v)@, n, s) || (n == name@ && s
                == slug@),
{
    let mut j: usize = 0;
    while j < v.len() && pair_lt_exec(&v[j].0, &v[j].1, name, slug)
        invariant
            j <= v@.len(),
            v@ == old(v)@,
            forall|k: int| 0 <= k < j ==> pair_lt(#[trigger] v@[k].0@, v@[k].1@, name@, slug@),
        decreases v@.len() - j,
    {
        j = j + 1;
    }
    if j < v.len() && v[j].0 == *name && v[j].1 == *slug {
        // already present: nothing to do
        assert(forall|n: Seq<char>, s: Seq<char>|
            (n == name@ && s == slug@) ==> has_pair(v@, n, s));
        return ;
    }
    let ghost pre = v@;
    v.insert(j, (name.clone(), slug.clone()));
    proof {
        assert(v@[j as int].0@ == name@ && v@[j as int].1@ == slug@);
        assert(forall|k: int| 0 <= k < j ==> v@[k] == pre[k]);
        assert(forall|k: int| j < k < v@.len() ==> v@[k] == pre[k - 1]);
        if pairs_sorted(pre) {
            if (j as int) < pre.len() {
                lemma_pair_lt_total(pre[j as int].0@, pre[j as int].1@, name@, slug@);
                assert(pair_lt(name@, slug@, pre[j as int].0@, pre[j as int].1@));
            }
            assert forall|y: int| j < y < v@.len() implies pair_lt(
                name@,
                slug@,
                v@[y].0@,
                v@[y].1@,
            ) by {
                assert(v@[y] == pre[y - 1]);
                if y - 1 > j {
                    assert(pair_lt(pre[j as int].0@, pre[j as int].1@, pre[y - 1].0@, pre[y
                        - 1].1@));
                    lemma_pair_lt_trans(
                        name@,
                        slug@,
                        pre[j as int].0@,
                        pre[j as int].1@,
                        pre[y - 1].0@,
                        pre[y - 1].1@,
                    );
                }
            }
            assert forall|x: int, y: int| 0 <= x < y < v@.len() implies pair_lt(
                v@[x].0@,
                v@[x].1@,
                v@[y].0@,
                v@[y].1@,
            ) by {
                if y == j {
                    assert(v@[x] == pre[x]);
                    assert(pair_lt(pre[x].0@, pre[x].1@, name@, slug@));
                } else if x == j {
                    assert(pair_lt(name@, slug@, v@[y].0@, v@[y].1@));
                } else if x < j && y > j {
                    assert(v@[x] == pre[x]);
                    assert(pair_lt(pre[x].0@, pre[x].1@, name@, slug@));
                    lemma_pair_lt_trans(
                        pre[x].0@,
                        pre[x].1@,
                        name@,
                        slug@,
                        v@[y].0@,
                        v@[y].1@,
                    );
                } else if y < j {
                    assert(v@[x] == pre[x] && v@[y] == pre[y]);
                    assert(pair_lt(pre[x].0@, pre[x].1@, pre[y].0@, pre[y].1@));
                } else {
                    assert(x > j);
                    assert(v@[x] == pre[x - 1] && v@[y] == pre[y - 1]);
                    assert(pair_lt(pre[x - 1].0@, pre[x - 1].1@, pre[y - 1].0@, pre[y - 1].1@));
                }
            }
        }
        assert forall|n: Seq<char>, s: Seq<char>|
            #[trigger] has_pair(v@, n, s) <==> has_pair(pre, n, s) || (n == name@ && s
                == slug@) by {
            if has_pair(v@, n, s) {
                let w = choose|w: int| 0 <= w < v@.len() && #[trigger] v@[w].0@ == n && v@[w].1@
                    == s;
                if w < j {
                    assert(pre[w].0@ == n && pre[w].1@ == s);
                } else if w > j {
                    assert(pre[w - 1].0@ == n && pre[w - 1].1@ == s);
                }
            }
            if has_pair(pre, n, s) {
                let w = choose|w: int| 0 <= w < pre.len() && #[trigger] pre[w].0@ == n
                    && pre[w].1@ == s;
                if w < j {
                    assert(v@[w].0@ == n && v@[w].1@ == s);
                } else {
                    assert(v@[w + 1].0@ == n && v@[w + 1].1@ == s);
                }
            }
        }
    }
}

} // verus!
