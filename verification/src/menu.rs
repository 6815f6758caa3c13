//! The menu index: the distinct ranking lists the records refer to, sorted
//! ascending by display name then slug, each annotated with the number of
//! records that carry its slug.

use vstd::prelude::*;

use crate::order::has_pair;
use crate::order::insert_pair;
use crate::order::pair_lt;
use crate::order::pairs_sorted;
use crate::records::ItemModel;
use crate::records::TopListItem;

verus! {

/// One distinct ranking list: display name, slug, and its record count.
#[derive(Debug)]
pub struct ListSummary {
    pub name: String,
    pub slug: String,
    pub count: usize,
}

impl Clone for ListSummary {
    fn clone(&self) -> (r: Self)
        ensures
            r == *self,
    {
        ListSummary { name: self.name.clone(), slug: self.slug.clone(), count: self.count }
    }
}

/// How many records carry the given list slug.
pub open spec fn count_list(items: Seq<ItemModel>, slug: Seq<char>) -> int {
    items.filter(|it: ItemModel| it.list_slug == slug).len() as int
}

proof fn lemma_count_step(items: Seq<ItemModel>, slug: Seq<char>, i: int)
    requires
        0 <= i < items.len(),
    ensures
        count_list(items.take(i + 1), slug) == count_list(items.take(i), slug) + if items[i].list_slug
            == slug {
            1int
        } else {
            0int
        },
{
    reveal(Seq::filter);
    let t1 = items.take(i + 1);
    assert(t1.drop_last() =~= items.take(i));
    assert(t1.last() == items[i]);
}

/// Every list count is at most the number of records.
pub proof fn lemma_count_list_le(items: Seq<ItemModel>, slug: Seq<char>)
    ensures
        0 <= count_list(items, slug) <= items.len(),
{
    items.lemma_filter_len(|it: ItemModel| it.list_slug == slug);
}

#[verifier::loop_isolation(false)]
fn count_list_exec(items: &Vec<TopListItem>, slug: &String) -> (c: usize)
    ensures
        c as int == count_list(items.deep_view(), slug@),
{
    let ghost idm = items.deep_view();
    let mut c: usize = 0;
    let mut i: usize = 0;
    while i < items.len()
        invariant
            i <= items@.len(),
            c <= i,
            c as int == count_list(idm.take(i as int), slug@),
        decreases items@.len() - i,
    {
        proof {
            lemma_count_step(idm, slug@, i as int);
            assert(idm[i as int] == items@[i as int]@);
        }
        if items[i].list_slug == *slug {
            c = c + 1;
        }
        i = i + 1;
    }
    proof {
        assert(idm.take(idm.len() as int) =~= idm);
    }
    c
}

/// Whether some menu entry carries the given (name, slug) pair.
pub open spec fn summary_has(m: Seq<ListSummary>, n: Seq<char>, s: Seq<char>) -> bool {
    exists|j: int| 0 <= j < m.len() && #[trigger] m[j].name@ == n && m[j].slug@ == s
}

/// Whether some record carries the given (list name, list slug) pair.
pub open spec fn items_have_list(items: Seq<ItemModel>, n: Seq<char>, s: Seq<char>) -> bool {
    exists|i: int|
        0 <= i < items.len() && #[trigger] items[i].list_name == n && items[i].list_slug == s
}

/// What the menu of a record set is: each entry counts the records carrying
/// its slug; entries are strictly sorted by (name, slug); the entries are
/// exactly the distinct (list name, list slug) pairs of the records.
pub open spec fn menu_ok(items: Seq<ItemModel>, m: Seq<ListSummary>) -> bool {
    &&& forall|j: int|
        0 <= j < m.len() ==> (#[trigger] m[j].count) as int == count_list(items, m[j].slug@)
    &&& forall|i: int, j: int|
        0 <= i < j < m.len() ==> pair_lt(
            #[trigger] m[i].name@,
            m[i].slug@,
            #[trigger] m[j].name@,
            m[j].slug@,
        )
    &&& forall|j: int|
        0 <= j < m.len() ==> items_have_list(items, (#[trigger] m[j]).name@, m[j].slug@)
    &&& forall|i: int|
        0 <= i < items.len() ==> summary_has(m, (#[trigger] items[i]).list_name, items[i].list_slug)
}

/// Build the site menu from the loaded records: the distinct lists, sorted
/// ascending by display name then slug, each with its record count.
#[verifier::loop_isolation(false)]
pub fn menu(items: &Vec<TopListItem>) -> (r: Vec<ListSummary>)
    ensures
        menu_ok(items.deep_view(), r@),
{
    let ghost idm = items.deep_view();
    let mut pairs: Vec<(String, String)> = Vec::new();
    let mut i: usize = 0;
    while i < items.len()
        invariant
            i <= items@.len(),
            pairs_sorted(pairs@),
            forall|n: Seq<char>, s: Seq<char>|
                #[trigger] has_pair(pairs@, n, s) <==> exists|k: int|
                    0 <= k < i && #[trigger] idm[k].list_name == n && idm[k].list_slug == s,
        decreases items@.len() - i,
    {
        proof {
            assert(idm[i as int] == items@[i as int]@);
        }
        insert_pair(&mut pairs, &items[i].list_name, &items[i].list_slug);
        proof {
            assert forall|n: Seq<char>, s: Seq<char>| #[trigger]
                has_pair(pairs@, n, s) <==> exists|k: int|
                    0 <= k < i + 1 && #[trigger] idm[k].list_name == n && idm[k].list_slug
                        == s by {
                if has_pair(pairs@, n, s) {
                    if n == idm[i as int].list_name && s == idm[i as int].list_slug {
                        assert(0 <= i < i + 1 && idm[i as int].list_name == n
                            && idm[i as int].list_slug == s);
                    }
                }
                if exists|k: int|
                    0 <= k < i + 1 && #[trigger] idm[k].list_name == n && idm[k].list_slug == s {
                    let k = choose|k: int|
                        0 <= k < i + 1 && #[trigger] idm[k].list_name == n && idm[k].list_slug
                            == s;
                    if k < i {
                        assert(exists|k2: int|
                            0 <= k2 < i && #[trigger] idm[k2].list_name == n && idm[k2].list_slug
                                == s);
                    }
                }
            }
        }
        i = i + 1;
    }
    let mut out: Vec<ListSummary> = Vec::new();
    let mut j: usize = 0;
    while j < pairs.len()
        invariant
            j <= pairs@.len(),
            out@.len() == j,
            forall|t: int|
                0 <= t < j ==> (#[trigger] out@[t]).name@ == pairs@[t].0@ && out@[t].slug@
                    == pairs@[t].1@ && out@[t].count as int == count_list(idm, pairs@[t].1@),
        decreases pairs@.len() - j,
    {
        let c = count_list_exec(items, &pairs[j].1);
        out.push(ListSummary { name: pairs[j].0.clone(), slug: pairs[j].1.clone(), count: c });
        j = j + 1;
    }
    proof {
        assert forall|t: int| 0 <= t < out@.len() implies has_pair(
            pairs@,
            (#[trigger] out@[t]).name@,
            out@[t].slug@,
        ) by {
            assert(pairs@[t].0@ == out@[t].name@ && pairs@[t].1@ == out@[t].slug@);
        }
        assert forall|i2: int| 0 <= i2 < idm.len() implies summary_has(
            out@,
            (#[trigger] idm[i2]).list_name,
            idm[i2].list_slug,
        ) by {
            assert(has_pair(pairs@, idm[i2].list_name, idm[i2].list_slug));
            let w = choose|w: int|
                0 <= w < pairs@.len() && #[trigger] pairs@[w].0@ == idm[i2].list_name
                    && pairs@[w].1@ == idm[i2].list_slug;
            assert(out@[w].name@ == idm[i2].list_name && out@[w].slug@ == idm[i2].list_slug);
        }
        assert forall|t: int| 0 <= t < out@.len() implies (#[trigger] out@[t].count) as int
            == count_list(idm, out@[t].slug@) by {
            assert(out@[t].slug@ == pairs@[t].1@);
        }
        assert forall|x: int, y: int| 0 <= x < y < out@.len() implies pair_lt(
            #[trigger] out@[x].name@,
            out@[x].slug@,
            #[trigger] out@[y].name@,
            out@[y].slug@,
        ) by {
            assert(pair_lt(pairs@[x].0@, pairs@[x].1@, pairs@[y].0@, pairs@[y].1@));
            assert(out@[x].name@ == pairs@[x].0@ && out@[x].slug@ == pairs@[x].1@);
            assert(out@[y].name@ == pairs@[y].0@ && out@[y].slug@ == pairs@[y].1@);
        }
        assert forall|t: int| 0 <= t < out@.len() implies items_have_list(
            idm,
            (#[trigger] out@[t]).name@,
            out@[t].slug@,
        ) by {
            assert(has_pair(pairs@, out@[t].name@, out@[t].slug@));
        }
        assert(idm.len() == items@.len());
    }
    out
}

} // verus!
