//! The composer leaderboard: the distinct composers of the record set, each
//! scored by summing, over every work of theirs, `1000 * count / position`
//! where `count` is the owning list's record count from the menu and
//! `position` the work's rank; a work whose list slug is absent from the
//! menu contributes nothing. Output is ordered by score descending, ties by
//! (name, slug) ascending.

use vstd::prelude::*;

use crate::menu::ListSummary;
use crate::order::has_pair;
use crate::order::insert_pair;
use crate::order::lemma_pair_lt_total;
use crate::order::lemma_pair_lt_trans;
use crate::order::pair_lt;
use crate::order::pair_lt_exec;
use crate::order::pairs_sorted;
use crate::records::ItemModel;
use crate::records::TopListItem;

verus! {

/// One distinct composer with the aggregate score of all their ranked works.
#[derive(Debug)]
pub struct ComposerScore {
    pub name: String,
    pub slug: String,
    pub score: usize,
}

impl Clone for ComposerScore {
    fn clone(&self) -> (r: Self)
        ensures
            r == *self,
    {
        ComposerScore { name: self.name.clone(), slug: self.slug.clone(), score: self.score }
    }
}

/// The count of the first menu entry carrying the given slug, if any.
pub open spec fn menu_count(m: Seq<ListSummary>, slug: Seq<char>) -> Option<int>
    decreases m.len(),
{
    if m.len() == 0 {
        None
    } else if m[0].slug@ == slug {
        Some(m[0].count as int)
    } else {
        menu_count(m.drop_first(), slug)
    }
}

proof fn lemma_menu_count_is(m: Seq<ListSummary>, slug: Seq<char>, j: int)
    requires
        0 <= j < m.len(),
        m[j].slug@ == slug,
        forall|k: int| 0 <= k < j ==> (#[trigger] m[k]).slug@ != slug,
    ensures
        menu_count(m, slug) == Some(m[j].count as int),
    decreases j,
{
    if j == 0 {
    } else {
        let t = m.drop_first();
        assert(forall|k: int| 0 <= k < t.len() ==> #[trigger] t[k] == m[k + 1]);
        lemma_menu_count_is(t, slug, j - 1);
    }
}

proof fn lemma_menu_count_none(m: Seq<ListSummary>, slug: Seq<char>)
    requires
        forall|k: int| 0 <= k < m.len() ==> (#[trigger] m[k]).slug@ != slug,
    ensures
        menu_count(m, slug) is None,
    decreases m.len(),
{
    if m.len() == 0 {
    } else {
        let t = m.drop_first();
        assert(forall|k: int| 0 <= k < t.len() ==> #[trigger] t[k] == m[k + 1]);
        lemma_menu_count_none(t, slug);
    }
}

proof fn lemma_menu_count_member(m: Seq<ListSummary>, slug: Seq<char>)
    ensures
        menu_count(m, slug) matches Some(c) ==> exists|j: int|
            0 <= j < m.len() && c == (#[trigger] m[j]).count as int,
    decreases m.len(),
{
    if m.len() == 0 {
    } else if m[0].slug@ == slug {
    } else {
        let t = m.drop_first();
        assert(forall|k: int| 0 <= k < t.len() ==> #[trigger] t[k] == m[k + 1]);
        lemma_menu_count_member(t, slug);
        if menu_count(m, slug) is Some {
            let c = menu_count(m, slug)->Some_0;
            let j = choose|j: int| 0 <= j < t.len() && c == (#[trigger] t[j]).count as int;
            assert(m[j + 1].count as int == c);
        }
    }
}

/// What one record adds to its composer's score: `1000 * count / position`
/// for the owning list's menu count, or nothing when the list is unknown.
pub open spec fn work_score(m: Seq<ListSummary>, it: ItemModel) -> int {
    match menu_count(m, it.list_slug) {
        Some(c) => 1000 * c / it.position,
        None => 0,
    }
}

/// The aggregate score of the composer with the given slug over a record
/// set: the sum of the contributions of the records carrying that slug.
pub open spec fn score_of(m: Seq<ListSummary>, items: Seq<ItemModel>, slug: Seq<char>) -> int
    decreases items.len(),
{
    if items.len() == 0 {
        0
    } else {
        score_of(m, items.drop_last(), slug) + if items.last().composer_slug == slug {
            work_score(m, items.last())
        } else {
            0
        }
    }
}

proof fn lemma_work_score_bound(m: Seq<ListSummary>, it: ItemModel, b: int)
    requires
        forall|j: int| 0 <= j < m.len() ==> (#[trigger] m[j]).count as int <= b,
        0 <= b,
        it.position >= 1,
    ensures
        0 <= work_score(m, it) <= 1000 * b,
{
    lemma_menu_count_member(m, it.list_slug);
    match menu_count(m, it.list_slug) {
        Some(c) => {
            assert(0 <= c <= b);
            vstd::arithmetic::div_mod::lemma_div_basics_4(1000 * c, it.position);
            vstd::arithmetic::div_mod::lemma_div_basics_5(1000 * c, it.position);
            assert(1000 * c <= 1000 * b) by (nonlinear_arith)
                requires
                    c <= b,
            ;
        },
        None => {},
    }
}

fn menu_count_exec(menu: &Vec<ListSummary>, slug: &String) -> (r: Option<usize>)
    ensures
        r matches Some(c) ==> menu_count(menu@, slug@) == Some(c as int),
        r is None ==> menu_count(menu@, slug@) is None,
{
    let mut j: usize = 0;
    while j < menu.len()
        invariant
            j <= menu@.len(),
            forall|k: int| 0 <= k < j ==> (#[trigger] menu@[k]).slug@ != slug@,
        decreases menu@.len() - j,
    {
        if menu[j].slug == *slug {
            proof {
                lemma_menu_count_is(menu@, slug@, j as int);
            }
            return Some(menu[j].count);
        }
        j = j + 1;
    }
    proof {
        lemma_menu_count_none(menu@, slug@);
    }
    None
}

#[verifier::loop_isolation(false)]
fn score_for_slug(items: &Vec<TopListItem>, menu: &Vec<ListSummary>, slug: &String) -> (sc: usize)
    requires
        forall|i: int| 0 <= i < items@.len() ==> (#[trigger] items@[i]).position >= 1,
        forall|j: int| 0 <= j < menu@.len() ==> (#[trigger] menu@[j]).count as int <= items@.len(),
        1000 * items@.len() * items@.len() <= usize::MAX,
    ensures
        sc as int == score_of(menu@, items.deep_view(), slug@),
{
    let ghost idm = items.deep_view();
    let n = items.len();
    let ghost nn = n as int;
    let mut sc: usize = 0;
    let mut k: usize = 0;
    while k < n
        invariant
            k <= n,
            sc as int == score_of(menu@, idm.take(k as int), slug@),
            sc as int <= 1000 * nn * (k as int),
        decreases n - k,
    {
        let ghost kk = k as int;
        proof {
            assert(idm.take(kk + 1).drop_last() =~= idm.take(kk));
            assert(idm.take(kk + 1).last() == idm[kk]);
            assert(idm[kk] == items@[kk]@);
            lemma_work_score_bound(menu@, idm[kk], nn);
            assert(1000 * nn * kk + 1000 * nn <= 1000 * nn * (kk + 1)) by (nonlinear_arith);
            assert(1000 * nn * (kk + 1) <= 1000 * nn * nn) by (nonlinear_arith)
                requires
                    kk + 1 <= nn,
                    0 <= nn,
            ;
        }
        if items[k].composer_slug == *slug {
            match menu_count_exec(menu, &items[k].list_slug) {
                Some(c) => {
                    proof {
                        lemma_menu_count_member(menu@, idm[kk].list_slug);
                        assert(c as int <= nn);
                        assert(1000 * (c as int) <= 1000 * nn) by (nonlinear_arith)
                            requires
                                c as int <= nn,
                        ;
                        assert(1000 * nn <= 1000 * nn * nn) by (nonlinear_arith)
                            requires
                                1 <= nn,
                        ;
                    }
                    let add = (1000 * c) / items[k].position;
                    proof {
                        assert(add as int == work_score(menu@, idm[kk]));
                    }
                    sc = sc + add;
                },
                None => {
                    proof {
                        assert(work_score(menu@, idm[kk]) == 0);
                    }
                },
            }
        }
        k = k + 1;
    }
    proof {
        assert(idm.take(nn) =~= idm);
    }
    sc
}

/// The order the leaderboard is arranged in: higher score first, ties by
/// (name, slug) ascending.
pub open spec fn board_before(a: ComposerScore, b: ComposerScore) -> bool {
    a.score > b.score || (a.score == b.score && pair_lt(a.name@, a.slug@, b.name@, b.slug@))
}

pub open spec fn board_sorted(b: Seq<ComposerScore>) -> bool {
    forall|i: int, j: int| 0 <= i < j < b.len() ==> board_before(#[trigger] b[i], #[trigger] b[j])
}

/// Whether the board holds an entry with this name, slug and score.
pub open spec fn board_has(b: Seq<ComposerScore>, n: Seq<char>, s: Seq<char>, sc: int) -> bool {
    exists|j: int|
        0 <= j < b.len() && #[trigger] b[j].name@ == n && b[j].slug@ == s && b[j].score as int == sc
}

/// Whether the board holds an entry with this (name, slug) pair.
pub open spec fn board_has_pair(b: Seq<ComposerScore>, n: Seq<char>, s: Seq<char>) -> bool {
    exists|j: int| 0 <= j < b.len() && #[trigger] b[j].name@ == n && b[j].slug@ == s
}

proof fn lemma_board_before_trans(a: ComposerScore, b: ComposerScore, c: ComposerScore)
    requires
        board_before(a, b),
        board_before(b, c),
    ensures
        board_before(a, c),
{
    if a.score == b.score && b.score == c.score {
        lemma_pair_lt_trans(a.name@, a.slug@, b.name@, b.slug@, c.name@, c.slug@);
    }
}

fn board_before_exec(a: &ComposerScore, b: &ComposerScore) -> (r: bool)
    ensures
        r == board_before(*a, *b),
{
    a.score > b.score || (a.score == b.score && pair_lt_exec(&a.name, &a.slug, &b.name, &b.slug))
}

/// Insert an entry whose (name, slug) pair is new into a sorted board,
/// keeping it sorted.
#[verifier::loop_isolation(false)]
fn insert_score(v: &mut Vec<ComposerScore>, e: ComposerScore)
    requires
        board_sorted(old(v)@),
        forall|j: int|
            0 <= j < old(v)@.len() ==> !((#[trigger] old(v)@[j]).name@ == e.name@
                && old(v)@[j].slug@ == e.slug@),
    ensures
        board_sorted(final(v)@),
        final(v)@.len() == old(v)@.len() + 1,
        forall|n: Seq<char>, s: Seq<char>, sc: int|
            #[trigger] board_has(final(v)@, n, s, sc) <==> board_has(old(v)@, n, s, sc) || (n
                == e.name@ && s == e.slug@ && sc == e.score as int),
        forall|n: Seq<char>, s: Seq<char>|
            #[trigger] board_has_pair(final(v)@, n, s) <==> board_has_pair(old(v)@, n, s) || (n
                == e.name@ && s == e.slug@),
{
    let mut j: usize = 0;
    while j < v.len() && board_before_exec(&v[j], &e)
        invariant
            j <= v@.len(),
            v@ == old(v)@,
            forall|k: int| 0 <= k < j ==> board_before(#[trigger] v@[k], e),
        decreases v@.len() - j,
    {
        j = j + 1;
    }
    let ghost pre = v@;
    v.insert(j, e);
    proof {
        assert(v@[j as int] == e);
        assert(forall|k: int| 0 <= k < j ==> v@[k] == pre[k]);
        assert(forall|k: int| j < k < v@.len() ==> v@[k] == pre[k - 1]);
        if (j as int) < pre.len() {
            lemma_pair_lt_total(pre[j as int].name@, pre[j as int].slug@, e.name@, e.slug@);
            assert(board_before(e, pre[j as int]));
        }
        assert forall|y: int| j < y < v@.len() implies board_before(e, #[trigger] v@[y]) by {
            assert(v@[y] == pre[y - 1]);
            if y - 1 > j {
                assert(board_before(pre[j as int], pre[y - 1]));
                lemma_board_before_trans(e, pre[j as int], pre[y - 1]);
            }
        }
        assert forall|x: int, y: int| 0 <= x < y < v@.len() implies board_before(
            #[trigger] v@[x],
            #[trigger] v@[y],
        ) by {
            if y == j {
                assert(v@[x] == pre[x]);
                assert(board_before(pre[x], e));
            } else if x == j {
                assert(board_before(e, v@[y]));
            } else if x < j && y > j {
                assert(v@[x] == pre[x]);
                assert(board_before(pre[x], e));
                lemma_board_before_trans(pre[x], e, v@[y]);
            } else if y < j {
                assert(v@[x] == pre[x] && v@[y] == pre[y]);
                assert(board_before(pre[x], pre[y]));
            } else {
                assert(x > j);
                assert(v@[x] == pre[x - 1] && v@[y] == pre[y - 1]);
                assert(board_before(pre[x - 1], pre[y - 1]));
            }
        }
        assert forall|n: Seq<char>, s: Seq<char>, sc: int|
            #[trigger] board_has(v@, n, s, sc) <==> board_has(pre, n, s, sc) || (n == e.name@ && s
                == e.slug@ && sc == e.score as int) by {
            if board_has(v@, n, s, sc) {
                let w = choose|w: int|
                    0 <= w < v@.len() && #[trigger] v@[w].name@ == n && v@[w].slug@ == s
                        && v@[w].score as int == sc;
                if w < j {
                    assert(pre[w].name@ == n && pre[w].slug@ == s && pre[w].score as int == sc);
                } else if w > j {
                    assert(pre[w - 1].name@ == n && pre[w - 1].slug@ == s && pre[w - 1].score as int
                        == sc);
                }
            }
            if board_has(pre, n, s, sc) {
                let w = choose|w: int|
                    0 <= w < pre.len() && #[trigger] pre[w].name@ == n && pre[w].slug@ == s
                        && pre[w].score as int == sc;
                if w < j {
                    assert(v@[w].name@ == n && v@[w].slug@ == s && v@[w].score as int == sc);
                } else {
                    assert(v@[w + 1].name@ == n && v@[w + 1].slug@ == s && v@[w + 1].score as int
                        == sc);
                }
            }
        }
        assert forall|n: Seq<char>, s: Seq<char>|
            #[trigger] board_has_pair(v@, n, s) <==> board_has_pair(pre, n, s) || (n == e.name@
                && s == e.slug@) by {
            if board_has_pair(v@, n, s) {
                let w = choose|w: int|
                    0 <= w < v@.len() && #[trigger] v@[w].name@ == n && v@[w].slug@ == s;
                if w < j {
                    assert(pre[w].name@ == n && pre[w].slug@ == s);
                } else if w > j {
                    assert(pre[w - 1].name@ == n && pre[w - 1].slug@ == s);
                }
            }
            if board_has_pair(pre, n, s) {
                let w = choose|w: int|
                    0 <= w < pre.len() && #[trigger] pre[w].name@ == n && pre[w].slug@ == s;
                if w < j {
                    assert(v@[w].name@ == n && v@[w].slug@ == s);
                } else {
                    assert(v@[w + 1].name@ == n && v@[w + 1].slug@ == s);
                }
            }
        }
    }
}

/// Higher score comes strictly earlier: on a sorted board, an entry whose
/// score exceeds another's stands before it.
pub proof fn lemma_board_score_order(b: Seq<ComposerScore>, i: int, j: int)
    requires
        board_sorted(b),
        0 <= i < b.len(),
        0 <= j < b.len(),
        b[i].score > b[j].score,
    ensures
        i < j,
{
    if i > j {
        assert(board_before(b[j], b[i]));
    }
}

/// The leaderboard order and entry set pin the board down completely: two
/// sorted boards holding the same entries are equal entry by entry. Since
/// the entries derive from the records and the menu alone, rebuilding from
/// identical input reproduces the same board, ties included.
pub proof fn lemma_board_unique(a: Seq<ComposerScore>, b: Seq<ComposerScore>)
    requires
        board_sorted(a),
        board_sorted(b),
        forall|n: Seq<char>, s: Seq<char>, sc: int|
            #[trigger] board_has(a, n, s, sc) <==> #[trigger] board_has(b, n, s, sc),
    ensures
        a.len() == b.len(),
        forall|i: int|
            0 <= i < a.len() ==> (#[trigger] a[i]).name@ == b[i].name@ && a[i].slug@ == b[i].slug@
                && a[i].score == b[i].score,
    decreases a.len(),
{
    if a.len() == 0 {
        if b.len() > 0 {
            assert(board_has(b, b[0].name@, b[0].slug@, b[0].score as int));
            assert(board_has(a, b[0].name@, b[0].slug@, b[0].score as int));
        }
    } else if b.len() == 0 {
        assert(board_has(a, a[0].name@, a[0].slug@, a[0].score as int));
        assert(board_has(b, a[0].name@, a[0].slug@, a[0].score as int));
    } else {
        assert(board_has(a, a[0].name@, a[0].slug@, a[0].score as int));
        assert(board_has(b, a[0].name@, a[0].slug@, a[0].score as int));
        assert(board_has(b, b[0].name@, b[0].slug@, b[0].score as int));
        assert(board_has(a, b[0].name@, b[0].slug@, b[0].score as int));
        let w = choose|w: int|
            0 <= w < b.len() && #[trigger] b[w].name@ == a[0].name@ && b[w].slug@ == a[0].slug@
                && b[w].score as int == a[0].score as int;
        let u = choose|u: int|
            0 <= u < a.len() && #[trigger] a[u].name@ == b[0].name@ && a[u].slug@ == b[0].slug@
                && a[u].score as int == b[0].score as int;
        if u > 0 && w > 0 {
            assert(board_before(a[0], a[u]));
            assert(board_before(b[0], b[w]));
            lemma_pair_lt_total(a[0].name@, a[0].slug@, b[0].name@, b[0].slug@);
            assert(false);
        }
        assert(a[0].name@ == b[0].name@ && a[0].slug@ == b[0].slug@ && a[0].score == b[0].score);
        let a1 = a.drop_first();
        let b1 = b.drop_first();
        assert(forall|k: int| 0 <= k < a1.len() ==> #[trigger] a1[k] == a[k + 1]);
        assert(forall|k: int| 0 <= k < b1.len() ==> #[trigger] b1[k] == b[k + 1]);
        lemma_pair_lt_total(a[0].name@, a[0].slug@, a[0].name@, a[0].slug@);
        assert forall|n: Seq<char>, s: Seq<char>, sc: int| #[trigger]
            board_has(a1, n, s, sc) <==> #[trigger] board_has(b1, n, s, sc) by {
            if board_has(a1, n, s, sc) {
                let w2 = choose|w2: int|
                    0 <= w2 < a1.len() && #[trigger] a1[w2].name@ == n && a1[w2].slug@ == s
                        && a1[w2].score as int == sc;
                assert(a[w2 + 1].name@ == n && a[w2 + 1].slug@ == s && a[w2 + 1].score as int
                    == sc);
                assert(board_has(a, n, s, sc));
                assert(board_before(a[0], a[w2 + 1]));
                assert(!(n == a[0].name@ && s == a[0].slug@ && sc == a[0].score as int));
                assert(board_has(b, n, s, sc));
                let v = choose|v: int|
                    0 <= v < b.len() && #[trigger] b[v].name@ == n && b[v].slug@ == s
                        && b[v].score as int == sc;
                assert(v > 0);
                assert(b1[v - 1].name@ == n && b1[v - 1].slug@ == s && b1[v - 1].score as int
                    == sc);
            }
            if board_has(b1, n, s, sc) {
                let w2 = choose|w2: int|
                    0 <= w2 < b1.len() && #[trigger] b1[w2].name@ == n && b1[w2].slug@ == s
                        && b1[w2].score as int == sc;
                assert(b[w2 + 1].name@ == n && b[w2 + 1].slug@ == s && b[w2 + 1].score as int
                    == sc);
                assert(board_has(b, n, s, sc));
                assert(board_before(b[0], b[w2 + 1]));
                assert(!(n == b[0].name@ && s == b[0].slug@ && sc == b[0].score as int));
                assert(board_has(a, n, s, sc));
                let v = choose|v: int|
                    0 <= v < a.len() && #[trigger] a[v].name@ == n && a[v].slug@ == s
                        && a[v].score as int == sc;
                assert(v > 0);
                assert(a1[v - 1].name@ == n && a1[v - 1].slug@ == s && a1[v - 1].score as int
                    == sc);
            }
        }
        lemma_board_unique(a1, b1);
        assert forall|i: int| 0 <= i < a.len() implies (#[trigger] a[i]).name@ == b[i].name@
            && a[i].slug@ == b[i].slug@ && a[i].score == b[i].score by {
            if i > 0 {
                assert(a1[i - 1].name@ == b1[i - 1].name@ && a1[i - 1].slug@ == b1[i - 1].slug@
                    && a1[i - 1].score == b1[i - 1].score);
            }
        }
    }
}

/// Whether some record carries the given (composer name, composer slug) pair.
pub open spec fn items_have_composer(items: Seq<ItemModel>, n: Seq<char>, s: Seq<char>) -> bool {
    exists|i: int|
        0 <= i < items.len() && #[trigger] items[i].composer_name == n && items[i].composer_slug
            == s
}

/// What the leaderboard of a record set is: entries are exactly the distinct
/// (composer name, composer slug) pairs of the records, each scored by
/// `score_of`, ordered by score descending with ties by (name, slug).
pub open spec fn board_ok(
    items: Seq<ItemModel>,
    m: Seq<ListSummary>,
    b: Seq<ComposerScore>,
) -> bool {
    &&& forall|j: int|
        0 <= j < b.len() ==> (#[trigger] b[j]).score as int == score_of(m, items, b[j].slug@)
    &&& board_sorted(b)
    &&& forall|j: int|
        0 <= j < b.len() ==> items_have_composer(items, (#[trigger] b[j]).name@, b[j].slug@)
    &&& forall|i: int|
        0 <= i < items.len() ==> board_has_pair(
            b,
            (#[trigger] items[i]).composer_name,
            items[i].composer_slug,
        )
}

/// Build the leaderboard: the distinct composers of the record set, scored
/// against the given menu and ordered by score descending, ties by name.
#[verifier::loop_isolation(false)]
pub fn top_composers(items: &Vec<TopListItem>, menu: &Vec<ListSummary>) -> (r: Vec<ComposerScore>)
    requires
        forall|i: int| 0 <= i < items@.len() ==> (#[trigger] items@[i]).position >= 1,
        forall|j: int| 0 <= j < menu@.len() ==> (#[trigger] menu@[j]).count as int <= items@.len(),
        1000 * items@.len() * items@.len() <= usize::MAX,
    ensures
        board_ok(items.deep_view(), menu@, r@),
{
    let ghost idm = items.deep_view();
    let mut pairs: Vec<(String, String)> = Vec::new();
    let mut i: usize = 0;
    while i < items.len()
        invariant
            i <= items@.len(),
            pairs_sorted(pairs@),
            forall|n: Seq<char>, s: Seq<char>|
                #[trigger] has_pair(pairs@, n, s) <==> exists|k: int|
                    0 <= k < i && #[trigger] idm[k].composer_name == n && idm[k].composer_slug
                        == s,
        decreases items@.len() - i,
    {
        proof {
            assert(idm[i as int] == items@[i as int]@);
        }
        insert_pair(&mut pairs, &items[i].composer_name, &items[i].composer_slug);
        proof {
            assert forall|n: Seq<char>, s: Seq<char>| #[trigger]
                has_pair(pairs@, n, s) <==> exists|k: int|
                    0 <= k < i + 1 && #[trigger] idm[k].composer_name == n && idm[k].composer_slug
                        == s by {
                if has_pair(pairs@, n, s) {
                    if n == idm[i as int].composer_name && s == idm[i as int].composer_slug {
                        assert(0 <= i < i + 1 && idm[i as int].composer_name == n
                            && idm[i as int].composer_slug == s);
                    }
                }
                if exists|k: int|
                    0 <= k < i + 1 && #[trigger] idm[k].composer_name == n && idm[k].composer_slug
                        == s {
                    let k = choose|k: int|
                        0 <= k < i + 1 && #[trigger] idm[k].composer_name == n
                            && idm[k].composer_slug == s;
                    if k < i {
                        assert(exists|k2: int|
                            0 <= k2 < i && #[trigger] idm[k2].composer_name == n
                                && idm[k2].composer_slug == s);
                    }
                }
            }
        }
        i = i + 1;
    }
    let mut out: Vec<ComposerScore> = Vec::new();
    let mut t: usize = 0;
    while t < pairs.len()
        invariant
            t <= pairs@.len(),
            board_sorted(out@),
            forall|n: Seq<char>, s: Seq<char>, sc: int|
                #[trigger] board_has(out@, n, s, sc) <==> has_pair(pairs@.take(t as int), n, s)
                    && sc == score_of(menu@, idm, s),
            forall|n: Seq<char>, s: Seq<char>|
                #[trigger] board_has_pair(out@, n, s) <==> has_pair(pairs@.take(t as int), n, s),
        decreases pairs@.len() - t,
    {
        let ghost tt = t as int;
        let sc = score_for_slug(items, menu, &pairs[t].1);
        let entry = ComposerScore {
            name: pairs[t].0.clone(),
            slug: pairs[t].1.clone(),
            score: sc,
        };
        proof {
            // the pair about to be inserted is not on the board yet
            assert forall|j: int| 0 <= j < out@.len() implies !((#[trigger] out@[j]).name@
                == entry.name@ && out@[j].slug@ == entry.slug@) by {
                if out@[j].name@ == entry.name@ && out@[j].slug@ == entry.slug@ {
                    assert(board_has_pair(out@, entry.name@, entry.slug@));
                    let w = choose|w: int|
                        0 <= w < pairs@.take(tt).len() && #[trigger] pairs@.take(tt)[w].0@
                            == entry.name@ && pairs@.take(tt)[w].1@ == entry.slug@;
                    assert(pair_lt(pairs@[w].0@, pairs@[w].1@, pairs@[tt].0@, pairs@[tt].1@));
                    lemma_pair_lt_total(pairs@[w].0@, pairs@[w].1@, pairs@[tt].0@, pairs@[tt].1@);
                }
            }
        }
        insert_score(&mut out, entry);
        proof {
            assert(pairs@.take(tt + 1).drop_last() =~= pairs@.take(tt));
            assert(pairs@.take(tt + 1).last() == pairs@[tt]);
            assert forall|n: Seq<char>, s: Seq<char>| #[trigger]
                has_pair(pairs@.take(tt + 1), n, s) <==> has_pair(pairs@.take(tt), n, s) || (n
                    == pairs@[tt].0@ && s == pairs@[tt].1@) by {
                if has_pair(pairs@.take(tt + 1), n, s) {
                    let w = choose|w: int|
                        0 <= w < pairs@.take(tt + 1).len() && #[trigger] pairs@.take(tt + 1)[w].0@
                            == n && pairs@.take(tt + 1)[w].1@ == s;
                    if w < tt {
                        assert(pairs@.take(tt)[w].0@ == n && pairs@.take(tt)[w].1@ == s);
                    }
                }
                if has_pair(pairs@.take(tt), n, s) {
                    let w = choose|w: int|
                        0 <= w < pairs@.take(tt).len() && #[trigger] pairs@.take(tt)[w].0@ == n
                            && pairs@.take(tt)[w].1@ == s;
                    assert(pairs@.take(tt + 1)[w].0@ == n && pairs@.take(tt + 1)[w].1@ == s);
                }
                if n == pairs@[tt].0@ && s == pairs@[tt].1@ {
                    assert(pairs@.take(tt + 1)[tt].0@ == n && pairs@.take(tt + 1)[tt].1@ == s);
                }
            }
        }
        t = t + 1;
    }
    proof {
        assert(pairs@.take(pairs@.len() as int) =~= pairs@);
        assert(idm.len() == items@.len());
        assert forall|j: int| 0 <= j < out@.len() implies (#[trigger] out@[j]).score as int
            == score_of(menu@, idm, out@[j].slug@) by {
            assert(board_has(out@, out@[j].name@, out@[j].slug@, out@[j].score as int));
        }
        assert forall|j: int| 0 <= j < out@.len() implies items_have_composer(
            idm,
            (#[trigger] out@[j]).name@,
            out@[j].slug@,
        ) by {
            assert(board_has_pair(out@, out@[j].name@, out@[j].slug@));
            assert(has_pair(pairs@, out@[j].name@, out@[j].slug@));
        }
        assert forall|i2: int| 0 <= i2 < idm.len() implies board_has_pair(
            out@,
            (#[trigger] idm[i2]).composer_name,
            idm[i2].composer_slug,
        ) by {
            assert(has_pair(pairs@, idm[i2].composer_name, idm[i2].composer_slug));
        }
    }
    out
}

} // verus!
