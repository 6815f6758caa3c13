//! The query layer: resolving a slug back to its display name against a
//! derived index, and the two record filters page rendering needs. Name
//! matching is case-insensitive through Unicode lowercasing; an unknown slug
//! or name yields an empty result, never an error.

use vstd::prelude::*;

use crate::leaderboard::ComposerScore;
use crate::menu::ListSummary;
use crate::order::lemma_lex_lt_asym;
use crate::order::lemma_lex_lt_total;
use crate::order::lemma_lex_lt_trans;
use crate::order::lex_lt;
use crate::order::string_lt;
use crate::records::TopListItem;
use crate::strutil::lower_of;
use crate::strutil::lowercase;

verus! {

/// The name the menu resolves a slug to: the name of its first entry
/// carrying the slug, or the empty name when none does.
pub open spec fn resolve_menu(list: Seq<ListSummary>, slug: Seq<char>) -> Seq<char>
    decreases list.len(),
{
    if list.len() == 0 {
        Seq::empty()
    } else if list[0].slug@ == slug {
        list[0].name@
    } else {
        resolve_menu(list.drop_first(), slug)
    }
}

proof fn lemma_resolve_menu_is(list: Seq<ListSummary>, slug: Seq<char>, j: int)
    requires
        0 <= j < list.len(),
        list[j].slug@ == slug,
        forall|k: int| 0 <= k < j ==> (#[trigger] list[k]).slug@ != slug,
    ensures
        resolve_menu(list, slug) == list[j].name@,
    decreases j,
{
    if j == 0 {
    } else {
        let t = list.drop_first();
        assert(forall|k: int| 0 <= k < t.len() ==> #[trigger] t[k] == list[k + 1]);
        lemma_resolve_menu_is(t, slug, j - 1);
    }
}

/// A slug absent from the menu resolves to the empty name.
pub proof fn lemma_resolve_menu_absent(list: Seq<ListSummary>, slug: Seq<char>)
    requires
        forall|k: int| 0 <= k < list.len() ==> (#[trigger] list[k]).slug@ != slug,
    ensures
        resolve_menu(list, slug) == Seq::<char>::empty(),
    decreases list.len(),
{
    if list.len() == 0 {
    } else {
        let t = list.drop_first();
        assert(forall|k: int| 0 <= k < t.len() ==> #[trigger] t[k] == list[k + 1]);
        lemma_resolve_menu_absent(t, slug);
    }
}

/// Resolve a URL slug to its human readable name against the menu: the name
/// of the first entry carrying the slug, or "" when the slug is unknown.
pub fn slug_to_name(list: &Vec<ListSummary>, slug: String) -> (r: String)
    ensures
        r@ == resolve_menu(list@, slug@),
{
    let mut j: usize = 0;
    while j < list.len()
        invariant
            j <= list@.len(),
            forall|k: int| 0 <= k < j ==> (#[trigger] list@[k]).slug@ != slug@,
        decreases list@.len() - j,
    {
        if list[j].slug == slug {
            proof {
                lemma_resolve_menu_is(list@, slug@, j as int);
            }
            return list[j].name.clone();
        }
        j = j + 1;
    }
    proof {
        lemma_resolve_menu_absent(list@, slug@);
    }
    String::new()
}

/// The name the leaderboard resolves a slug to: the name of its first entry
/// carrying the slug, or the empty name when none does.
pub open spec fn resolve_board(list: Seq<ComposerScore>, slug: Seq<char>) -> Seq<char>
    decreases list.len(),
{
    if list.len() == 0 {
        Seq::empty()
    } else if list[0].slug@ == slug {
        list[0].name@
    } else {
        resolve_board(list.drop_first(), slug)
    }
}

proof fn lemma_resolve_board_is(list: Seq<ComposerScore>, slug: Seq<char>, j: int)
    requires
        0 <= j < list.len(),
        list[j].slug@ == slug,
        forall|k: int| 0 <= k < j ==> (#[trigger] list[k]).slug@ != slug,
    ensures
        resolve_board(list, slug) == list[j].name@,
    decreases j,
{
    if j == 0 {
    } else {
        let t = list.drop_first();
        assert(forall|k: int| 0 <= k < t.len() ==> #[trigger] t[k] == list[k + 1]);
        lemma_resolve_board_is(t, slug, j - 1);
    }
}

/// A slug absent from the leaderboard resolves to the empty name.
pub proof fn lemma_resolve_board_absent(list: Seq<ComposerScore>, slug: Seq<char>)
    requires
        forall|k: int| 0 <= k < list.len() ==> (#[trigger] list[k]).slug@ != slug,
    ensures
        resolve_board(list, slug) == Seq::<char>::empty(),
    decreases list.len(),
{
    if list.len() == 0 {
    } else {
        let t = list.drop_first();
        assert(forall|k: int| 0 <= k < t.len() ==> #[trigger] t[k] == list[k + 1]);
        lemma_resolve_board_absent(t, slug);
    }
}

/// Resolve a URL slug to a composer's human readable name against the
/// leaderboard, or "" when the slug is unknown.
pub fn composer_slug_to_name(list: &Vec<ComposerScore>, slug: String) -> (r: String)
    ensures
        r@ == resolve_board(list@, slug@),
{
    let mut j: usize = 0;
    while j < list.len()
        invariant
            j <= list@.len(),
            forall|k: int| 0 <= k < j ==> (#[trigger] list@[k]).slug@ != slug@,
        decreases list@.len() - j,
    {
        if list[j].slug == slug {
            proof {
                lemma_resolve_board_is(list@, slug@, j as int);
            }
            return list[j].name.clone();
        }
        j = j + 1;
    }
    proof {
        lemma_resolve_board_absent(list@, slug@);
    }
    String::new()
}

/// The records whose list display name equals the given name up to Unicode
/// lowercasing, in record order.
pub open spec fn works_by_list(items: Seq<TopListItem>, name: Seq<char>) -> Seq<TopListItem> {
    items.filter(|it: TopListItem| lower_of(it.list_name@) == lower_of(name))
}

proof fn lemma_wbl_step(items: Seq<TopListItem>, name: Seq<char>, i: int)
    requires
        0 <= i < items.len(),
    ensures
        works_by_list(items.take(i + 1), name) == if lower_of(items[i].list_name@) == lower_of(
            name,
        ) {
            works_by_list(items.take(i), name).push(items[i])
        } else {
            works_by_list(items.take(i), name)
        },
{
    reveal(Seq::filter);
    assert(items.take(i + 1).drop_last() =~= items.take(i));
    assert(items.take(i + 1).last() == items[i]);
}

/// The match is case-insensitive: names equal after lowercasing select the
/// same records.
pub proof fn lemma_works_by_list_case_insensitive(
    items: Seq<TopListItem>,
    a: Seq<char>,
    b: Seq<char>,
)
    requires
        lower_of(a) == lower_of(b),
    ensures
        works_by_list(items, a) == works_by_list(items, b),
    decreases items.len(),
{
    reveal(Seq::filter);
    if items.len() == 0 {
        assert(works_by_list(items, a) =~= works_by_list(items, b));
    } else {
        lemma_works_by_list_case_insensitive(items.drop_last(), a, b);
    }
}

/// A name matching no record yields the empty sequence.
pub proof fn lemma_works_by_list_absent(items: Seq<TopListItem>, name: Seq<char>)
    requires
        forall|i: int|
            0 <= i < items.len() ==> lower_of((#[trigger] items[i]).list_name@) != lower_of(name),
    ensures
        works_by_list(items, name) == Seq::<TopListItem>::empty(),
    decreases items.len(),
{
    reveal(Seq::filter);
    if items.len() == 0 {
        assert(works_by_list(items, name) =~= Seq::<TopListItem>::empty());
    } else {
        assert(forall|i: int|
            0 <= i < items.drop_last().len() ==> #[trigger] items.drop_last()[i] == items[i]);
        lemma_works_by_list_absent(items.drop_last(), name);
        assert(items.last() == items[items.len() - 1]);
    }
}

/// All works from the list with the given display name, case-insensitively,
/// in record order; empty when no list matches.
#[verifier::loop_isolation(false)]
pub fn filter_by_list_name(items: &Vec<TopListItem>, name: &String) -> (r: Vec<TopListItem>)
    ensures
        r@ == works_by_list(items@, name@),
{
    let target = lowercase(name);
    let mut out: Vec<TopListItem> = Vec::new();
    let mut i: usize = 0;
    while i < items.len()
        invariant
            i <= items@.len(),
            target@ == lower_of(name@),
            out@ == works_by_list(items@.take(i as int), name@),
        decreases items@.len() - i,
    {
        proof {
            lemma_wbl_step(items@, name@, i as int);
        }
        let low_ln = lowercase(&items[i].list_name);
        if low_ln == target {
            out.push(items[i].clone());
        }
        i = i + 1;
    }
    proof {
        assert(items@.take(items@.len() as int) =~= items@);
    }
    out
}

/// The works of one list a composer appears in: the list's display name and
/// slug, and the composer's works from that list in record order.
#[derive(Debug)]
pub struct ComposerWorks {
    pub list_name: String,
    pub list_slug: String,
    pub works: Vec<TopListItem>,
}

/// The records whose composer display name equals the given name up to
/// Unicode lowercasing, in record order.
pub open spec fn works_by_composer(items: Seq<TopListItem>, name: Seq<char>) -> Seq<TopListItem> {
    items.filter(|it: TopListItem| lower_of(it.composer_name@) == lower_of(name))
}

proof fn lemma_wbc_step(items: Seq<TopListItem>, name: Seq<char>, i: int)
    requires
        0 <= i < items.len(),
    ensures
        works_by_composer(items.take(i + 1), name) == if lower_of(items[i].composer_name@)
            == lower_of(name) {
            works_by_composer(items.take(i), name).push(items[i])
        } else {
            works_by_composer(items.take(i), name)
        },
{
    reveal(Seq::filter);
    assert(items.take(i + 1).drop_last() =~= items.take(i));
    assert(items.take(i + 1).last() == items[i]);
}

/// The match is case-insensitive: names equal after lowercasing select the
/// same records.
pub proof fn lemma_works_by_composer_case_insensitive(
    items: Seq<TopListItem>,
    a: Seq<char>,
    b: Seq<char>,
)
    requires
        lower_of(a) == lower_of(b),
    ensures
        works_by_composer(items, a) == works_by_composer(items, b),
    decreases items.len(),
{
    reveal(Seq::filter);
    if items.len() == 0 {
        assert(works_by_composer(items, a) =~= works_by_composer(items, b));
    } else {
        lemma_works_by_composer_case_insensitive(items.drop_last(), a, b);
    }
}

/// A name matching no record yields no group at all.
pub proof fn lemma_works_by_composer_absent(items: Seq<TopListItem>, name: Seq<char>)
    requires
        forall|i: int|
            0 <= i < items.len() ==> lower_of((#[trigger] items[i]).composer_name@) != lower_of(
                name,
            ),
    ensures
        works_by_composer(items, name) == Seq::<TopListItem>::empty(),
    decreases items.len(),
{
    reveal(Seq::filter);
    if items.len() == 0 {
        assert(works_by_composer(items, name) =~= Seq::<TopListItem>::empty());
    } else {
        assert(forall|i: int|
            0 <= i < items.drop_last().len() ==> #[trigger] items.drop_last()[i] == items[i]);
        lemma_works_by_composer_absent(items.drop_last(), name);
        assert(items.last() == items[items.len() - 1]);
    }
}

/// The predicate "this record belongs to the list named n".
pub open spec fn by_list_name(n: Seq<char>) -> spec_fn(TopListItem) -> bool {
    |it: TopListItem| it.list_name@ == n
}

proof fn lemma_filter_push_elem(
    s: Seq<TopListItem>,
    pred: spec_fn(TopListItem) -> bool,
    x: TopListItem,
)
    ensures
        s.push(x).filter(pred) == if pred(x) {
            s.filter(pred).push(x)
        } else {
            s.filter(pred)
        },
{
    reveal(Seq::filter);
    assert(s.push(x).drop_last() =~= s);
    assert(s.push(x).last() == x);
}

proof fn lemma_filter_all_false(s: Seq<TopListItem>, pred: spec_fn(TopListItem) -> bool)
    requires
        forall|k: int| 0 <= k < s.len() ==> !pred(#[trigger] s[k]),
    ensures
        s.filter(pred) == Seq::<TopListItem>::empty(),
    decreases s.len(),
{
    reveal(Seq::filter);
    if s.len() == 0 {
        assert(s.filter(pred) =~= Seq::<TopListItem>::empty());
    } else {
        assert(forall|k: int| 0 <= k < s.drop_last().len() ==> #[trigger] s.drop_last()[k] == s[k]);
        lemma_filter_all_false(s.drop_last(), pred);
        assert(s.last() == s[s.len() - 1]);
    }
}

/// Index of the first record of the given list name, or -1 when absent.
pub open spec fn first_with_name(f: Seq<TopListItem>, n: Seq<char>) -> int
    decreases f.len(),
{
    if f.len() == 0 {
        -1
    } else if f[0].list_name@ == n {
        0
    } else {
        let r = first_with_name(f.drop_first(), n);
        if r < 0 {
            -1
        } else {
            r + 1
        }
    }
}

proof fn lemma_first_with_name(f: Seq<TopListItem>, n: Seq<char>)
    ensures
        -1 <= first_with_name(f, n) < f.len(),
        first_with_name(f, n) >= 0 ==> f[first_with_name(f, n)].list_name@ == n,
        first_with_name(f, n) < 0 ==> forall|k: int|
            0 <= k < f.len() ==> (#[trigger] f[k]).list_name@ != n,
    decreases f.len(),
{
    if f.len() == 0 {
    } else if f[0].list_name@ == n {
    } else {
        let t = f.drop_first();
        assert(forall|k: int| 0 <= k < t.len() ==> #[trigger] t[k] == f[k + 1]);
        lemma_first_with_name(t, n);
        if first_with_name(t, n) < 0 {
            assert forall|k: int| 0 <= k < f.len() implies (#[trigger] f[k]).list_name@ != n by {
                if k > 0 {
                    assert(f[k] == t[k - 1]);
                }
            }
        }
    }
}

proof fn lemma_first_with_push(f: Seq<TopListItem>, n: Seq<char>, x: TopListItem)
    ensures
        first_with_name(f.push(x), n) == if first_with_name(f, n) >= 0 {
            first_with_name(f, n)
        } else if x.list_name@ == n {
            f.len() as int
        } else {
            -1
        },
    decreases f.len(),
{
    if f.len() == 0 {
        assert(f.push(x)[0] == x);
        assert(f.push(x).drop_first() =~= Seq::<TopListItem>::empty());
        assert(first_with_name(Seq::<TopListItem>::empty(), n) == -1);
        assert(first_with_name(f, n) == -1);
    } else {
        assert(f.push(x)[0] == f[0]);
        assert(f.push(x).drop_first() =~= f.drop_first().push(x));
        lemma_first_with_push(f.drop_first(), n, x);
        lemma_first_with_name(f.drop_first(), n);
    }
}

/// Whether some group carries the given list name.
pub open spec fn group_names_has(g: Seq<ComposerWorks>, n: Seq<char>) -> bool {
    exists|j: int| 0 <= j < g.len() && #[trigger] g[j].list_name@ == n
}

/// What the grouped works of one composer are, over the filtered records f:
/// one group per distinct list name of f, sorted ascending by name; each
/// group holds exactly the records of its list in record order, and carries
/// the slug of the first record with its name.
pub open spec fn groups_ok(f: Seq<TopListItem>, g: Seq<ComposerWorks>) -> bool {
    &&& forall|j: int|
        0 <= j < g.len() ==> (#[trigger] g[j]).works@ == f.filter(by_list_name(g[j].list_name@))
    &&& forall|x: int, y: int|
        0 <= x < y < g.len() ==> lex_lt((#[trigger] g[x]).list_name@, (#[trigger] g[y]).list_name@)
    &&& forall|j: int|
        0 <= j < g.len() ==> (first_with_name(f, (#[trigger] g[j]).list_name@) >= 0
            && f[first_with_name(f, g[j].list_name@)].list_slug@ == g[j].list_slug@)
    &&& forall|i: int| 0 <= i < f.len() ==> group_names_has(g, (#[trigger] f[i]).list_name@)
}

/// All works by the composer with the given display name (case-insensitive),
/// grouped by list, groups sorted ascending by list name; empty when no
/// composer matches.
#[verifier::loop_isolation(false)]
pub fn filter_by_composer_name(items: &Vec<TopListItem>, name: &String) -> (r: Vec<ComposerWorks>)
    ensures
        groups_ok(works_by_composer(items@, name@), r@),
{
    let target = lowercase(name);
    let mut out: Vec<ComposerWorks> = Vec::new();
    let mut i: usize = 0;
    while i < items.len()
        invariant
            i <= items@.len(),
            target@ == lower_of(name@),
            groups_ok(works_by_composer(items@.take(i as int), name@), out@),
        decreases items@.len() - i,
    {
        let ghost fp = works_by_composer(items@.take(i as int), name@);
        let ghost fp1 = works_by_composer(items@.take(i as int + 1), name@);
        proof {
            lemma_wbc_step(items@, name@, i as int);
        }
        let low_cn = lowercase(&items[i].composer_name);
        if low_cn == target {
            let item = items[i].clone();
            proof {
                assert(fp1 == fp.push(item));
            }
            let ghost nm = item.list_name@;
            let mut j: usize = 0;
            while j < out.len() && string_lt(&out[j].list_name, &item.list_name)
                invariant
                    j <= out@.len(),
                    forall|k: int| 0 <= k < j ==> lex_lt((#[trigger] out@[k]).list_name@, nm),
                decreases out@.len() - j,
            {
                j = j + 1;
            }
            let ghost pre = out@;
            if j < out.len() && out[j].list_name == item.list_name {
                // the list already has a group: append the work to it
                proof {
                    assert forall|j2: int| 0 <= j2 < pre.len() && j2 != j implies (
                    #[trigger] pre[j2]).list_name@ != nm by {
                        lemma_lex_lt_asym(pre[j2].list_name@, nm);
                        if j2 < j {
                            assert(lex_lt(pre[j2].list_name@, nm));
                        } else {
                            assert(lex_lt(pre[j as int].list_name@, pre[j2].list_name@));
                        }
                    }
                }
                let mut grp = out.remove(j);
                grp.works.push(item);
                out.insert(j, grp);
                proof {
                    assert(out@.len() == pre.len());
                    assert(forall|k: int| 0 <= k < pre.len() && k != j ==> #[trigger] out@[k]
                        == pre[k]);
                    assert(out@[j as int].list_name@ == nm);
                    assert(out@[j as int].list_slug@ == pre[j as int].list_slug@);
                    assert(out@[j as int].works@ == pre[j as int].works@.push(fp1.last()));
                    assert forall|j2: int| 0 <= j2 < out@.len() implies (#[trigger] out@[j2]).works@
                        == fp1.filter(by_list_name(out@[j2].list_name@)) by {
                        lemma_filter_push_elem(fp, by_list_name(out@[j2].list_name@), fp1.last());
                        if j2 == j {
                            assert(by_list_name(nm)(fp1.last()));
                        } else {
                            assert(out@[j2] == pre[j2]);
                            assert(!by_list_name(pre[j2].list_name@)(fp1.last()));
                        }
                    }
                    assert forall|j2: int| 0 <= j2 < out@.len() implies (first_with_name(
                        fp1,
                        (#[trigger] out@[j2]).list_name@,
                    ) >= 0 && fp1[first_with_name(fp1, out@[j2].list_name@)].list_slug@
                        == out@[j2].list_slug@) by {
                        lemma_first_with_push(fp, out@[j2].list_name@, fp1.last());
                        lemma_first_with_name(fp, out@[j2].list_name@);
                        if j2 == j {
                            assert(first_with_name(fp, nm) >= 0);
                            assert(fp1[first_with_name(fp, nm)] == fp[first_with_name(fp, nm)]);
                        } else {
                            assert(out@[j2] == pre[j2]);
                            assert(first_with_name(fp, pre[j2].list_name@) >= 0);
                            assert(fp1[first_with_name(fp, pre[j2].list_name@)]
                                == fp[first_with_name(fp, pre[j2].list_name@)]);
                        }
                    }
                    assert forall|i2: int| 0 <= i2 < fp1.len() implies group_names_has(
                        out@,
                        (#[trigger] fp1[i2]).list_name@,
                    ) by {
                        if i2 < fp.len() {
                            assert(fp1[i2] == fp[i2]);
                            assert(group_names_has(pre, fp[i2].list_name@));
                            let w = choose|w: int|
                                0 <= w < pre.len() && #[trigger] pre[w].list_name@
                                    == fp[i2].list_name@;
                            assert(out@[w].list_name@ == fp[i2].list_name@);
                        } else {
                            assert(fp1[i2] == fp1.last());
                            assert(out@[j as int].list_name@ == nm);
                        }
                    }
                }
            } else {
                // first work of this list for the composer: open a new group
                proof {
                    if (j as int) < pre.len() {
                        lemma_lex_lt_total(pre[j as int].list_name@, nm);
                        assert(lex_lt(nm, pre[j as int].list_name@));
                    }
                    assert forall|j2: int| 0 <= j2 < pre.len() implies (
                    #[trigger] pre[j2]).list_name@ != nm by {
                        lemma_lex_lt_asym(pre[j2].list_name@, nm);
                        if j2 < j {
                            assert(lex_lt(pre[j2].list_name@, nm));
                        } else if j2 == j {
                            assert(lex_lt(nm, pre[j2].list_name@));
                        } else {
                            assert(lex_lt(pre[j as int].list_name@, pre[j2].list_name@));
                            lemma_lex_lt_trans(
                                nm,
                                pre[j as int].list_name@,
                                pre[j2].list_name@,
                            );
                        }
                    }
                    // so no record of fp carries this list name
                    assert forall|k: int| 0 <= k < fp.len() implies !by_list_name(nm)(
                        #[trigger] fp[k],
                    ) by {
                        assert(group_names_has(pre, fp[k].list_name@));
                    }
                    lemma_filter_all_false(fp, by_list_name(nm));
                    lemma_first_with_name(fp, nm);
                }
                let list_name2 = item.list_name.clone();
                let list_slug2 = item.list_slug.clone();
                let mut wv: Vec<TopListItem> = Vec::new();
                wv.push(item);
                let grp = ComposerWorks { list_name: list_name2, list_slug: list_slug2, works: wv };
                out.insert(j, grp);
                proof {
                    assert(forall|k: int| 0 <= k < j ==> #[trigger] out@[k] == pre[k]);
                    assert(forall|k: int| j < k < out@.len() ==> #[trigger] out@[k] == pre[k - 1]);
                    assert(out@[j as int].list_name@ == nm);
                    assert(out@[j as int].works@ =~= Seq::<TopListItem>::empty().push(fp1.last()));
                    assert forall|x: int, y: int| 0 <= x < y < out@.len() implies lex_lt(
                        (#[trigger] out@[x]).list_name@,
                        (#[trigger] out@[y]).list_name@,
                    ) by {
                        if y == j {
                            assert(out@[x] == pre[x]);
                            assert(lex_lt(pre[x].list_name@, nm));
                        } else if x == j {
                            assert(out@[y] == pre[y - 1]);
                            if y - 1 > j {
                                assert(lex_lt(pre[j as int].list_name@, pre[y - 1].list_name@));
                                lemma_lex_lt_trans(
                                    nm,
                                    pre[j as int].list_name@,
                                    pre[y - 1].list_name@,
                                );
                            }
                        } else if x < j && y > j {
                            assert(out@[x] == pre[x] && out@[y] == pre[y - 1]);
                            assert(lex_lt(pre[x].list_name@, nm));
                            if y - 1 > j {
                                assert(lex_lt(pre[j as int].list_name@, pre[y - 1].list_name@));
                                lemma_lex_lt_trans(
                                    nm,
                                    pre[j as int].list_name@,
                                    pre[y - 1].list_name@,
                                );
                            }
                            lemma_lex_lt_trans(pre[x].list_name@, nm, pre[y - 1].list_name@);
                        } else if y < j {
                            assert(out@[x] == pre[x] && out@[y] == pre[y]);
                            assert(lex_lt(pre[x].list_name@, pre[y].list_name@));
                        } else {
                            assert(x > j);
                            assert(out@[x] == pre[x - 1] && out@[y] == pre[y - 1]);
                            assert(lex_lt(pre[x - 1].list_name@, pre[y - 1].list_name@));
                        }
                    }
                    assert forall|j2: int| 0 <= j2 < out@.len() implies (#[trigger] out@[j2]).works@
                        == fp1.filter(by_list_name(out@[j2].list_name@)) by {
                        lemma_filter_push_elem(fp, by_list_name(out@[j2].list_name@), fp1.last());
                        if j2 == j {
                            assert(by_list_name(nm)(fp1.last()));
                            assert(fp.filter(by_list_name(nm)) == Seq::<TopListItem>::empty());
                        } else if j2 < j {
                            assert(out@[j2] == pre[j2]);
                            assert(!by_list_name(pre[j2].list_name@)(fp1.last()));
                        } else {
                            assert(out@[j2] == pre[j2 - 1]);
                            assert(!by_list_name(pre[j2 - 1].list_name@)(fp1.last()));
                        }
                    }
                    assert forall|j2: int| 0 <= j2 < out@.len() implies (first_with_name(
                        fp1,
                        (#[trigger] out@[j2]).list_name@,
                    ) >= 0 && fp1[first_with_name(fp1, out@[j2].list_name@)].list_slug@
                        == out@[j2].list_slug@) by {
                        lemma_first_with_push(fp, out@[j2].list_name@, fp1.last());
                        lemma_first_with_name(fp, out@[j2].list_name@);
                        if j2 == j {
                            assert(first_with_name(fp, nm) < 0);
                            assert(first_with_name(fp1, nm) == fp.len());
                            assert(fp1[fp.len() as int] == fp1.last());
                        } else {
                            let ghost p2 = if j2 < j {
                                pre[j2]
                            } else {
                                pre[j2 - 1]
                            };
                            assert(out@[j2] == p2);
                            assert(first_with_name(fp, p2.list_name@) >= 0);
                            assert(fp1[first_with_name(fp, p2.list_name@)] == fp[first_with_name(
                                fp,
                                p2.list_name@,
                            )]);
                        }
                    }
                    assert forall|i2: int| 0 <= i2 < fp1.len() implies group_names_has(
                        out@,
                        (#[trigger] fp1[i2]).list_name@,
                    ) by {
                        if i2 < fp.len() {
                            assert(fp1[i2] == fp[i2]);
                            assert(group_names_has(pre, fp[i2].list_name@));
                            let w = choose|w: int|
                                0 <= w < pre.len() && #[trigger] pre[w].list_name@
                                    == fp[i2].list_name@;
                            if w < j {
                                assert(out@[w].list_name@ == fp[i2].list_name@);
                            } else {
                                assert(out@[w + 1].list_name@ == fp[i2].list_name@);
                            }
                        } else {
                            assert(fp1[i2] == fp1.last());
                            assert(out@[j as int].list_name@ == nm);
                        }
                    }
                }
            }
        } else {
            proof {
                assert(fp1 == fp);
            }
        }
        i = i + 1;
    }
    proof {
        assert(items@.take(items@.len() as int) =~= items@);
    }
    out
}

/// Over an empty filtered set there are no groups at all.
pub proof fn lemma_groups_of_empty(g: Seq<ComposerWorks>)
    requires
        groups_ok(Seq::<TopListItem>::empty(), g),
    ensures
        g.len() == 0,
{
    if g.len() > 0 {
        assert(first_with_name(Seq::<TopListItem>::empty(), g[0].list_name@) >= 0);
    }
}

} // verus!
