//! Verified core of a composer top-lists site: loading ranked-list records
//! from pipe-delimited sources, deriving a menu of lists and a scored
//! composer leaderboard, and the lookups page rendering needs.
//!
//! The snapshot is built once, in dependency order (records, then menu,
//! then leaderboard), and is read-only afterwards.

mod leaderboard;
mod menu;
mod order;
mod query;
mod records;
mod slug;
mod strutil;

pub use leaderboard::board_before;
pub use leaderboard::board_has;
pub use leaderboard::lemma_board_score_order;
pub use leaderboard::lemma_board_unique;
pub use leaderboard::board_has_pair;
pub use leaderboard::board_ok;
pub use leaderboard::board_sorted;
pub use leaderboard::items_have_composer;
pub use leaderboard::menu_count;
pub use leaderboard::score_of;
pub use leaderboard::top_composers;
pub use leaderboard::work_score;
pub use leaderboard::ComposerScore;
pub use menu::count_list;
pub use menu::items_have_list;
pub use menu::lemma_count_list_le;
pub use menu::menu;
pub use menu::menu_ok;
pub use menu::summary_has;
pub use menu::ListSummary;
pub use order::lex_lt;
pub use order::pair_lt;
pub use query::composer_slug_to_name;
pub use query::filter_by_composer_name;
pub use query::filter_by_list_name;
pub use query::first_with_name;
pub use query::group_names_has;
pub use query::groups_ok;
pub use query::lemma_groups_of_empty;
pub use query::lemma_resolve_board_absent;
pub use query::lemma_resolve_menu_absent;
pub use query::lemma_works_by_composer_absent;
pub use query::lemma_works_by_composer_case_insensitive;
pub use query::lemma_works_by_list_absent;
pub use query::lemma_works_by_list_case_insensitive;
pub use query::resolve_board;
pub use query::resolve_menu;
pub use query::slug_to_name;
pub use query::works_by_composer;
pub use query::works_by_list;
pub use query::ComposerWorks;
pub use records::all_ok;
pub use records::by_slug;
pub use records::lemma_positions_contiguous;
pub use records::lemma_records_len;
pub use records::lemma_records_positions;
pub use records::list_positions;
pub use records::file_ok;
pub use records::file_records;
pub use records::records_of;
pub use records::rows_of;
pub use records::size_bound;
pub use records::strip_ext;
pub use records::FileModel;
pub use records::ItemModel;
pub use records::LoadError;
pub use records::SourceFile;
pub use records::TopListItem;
pub use records::top_list_from_csv;
pub use slug::lemma_slug_idempotent;
pub use slug::name_to_slug;
pub use slug::slug_of;
pub use strutil::lower_of;

use vstd::prelude::*;

verus! {

/// The immutable dataset the site serves from: the flat record set and the
/// two indexes derived from it, built once at startup.
#[derive(Debug)]
pub struct Snapshot {
    /// All top lists in flat form
    pub lists: Vec<TopListItem>,
    /// Site dynamic menu of top lists
    pub menu: Vec<ListSummary>,
    /// Best composers sorted by their calculated score
    pub composers: Vec<ComposerScore>,
}

/// Build the whole snapshot from the ranking sources: load the records,
/// derive the menu, then score the leaderboard against it. Fails if and
/// only if some source row is missing its work column; no partial snapshot
/// is ever produced.
pub fn run(files: Vec<SourceFile>) -> (r: Result<Snapshot, LoadError>)
    requires
        1000 * size_bound(files.deep_view()) * size_bound(files.deep_view()) <= usize::MAX,
    ensures
        r is Ok <==> all_ok(files.deep_view()),
        r matches Ok(s) ==> s.lists.deep_view() == records_of(files.deep_view()) && menu_ok(
            s.lists.deep_view(),
            s.menu@,
        ) && board_ok(s.lists.deep_view(), s.menu@, s.composers@),
{
    let lists = match top_list_from_csv(&files) {
        Ok(v) => v,
        Err(e) => {
            return Err(e);
        },
    };
    let m = menu(&lists);
    proof {
        let fm = files.deep_view();
        let idm = lists.deep_view();
        lemma_records_len(fm);
        assert(idm.len() == lists@.len());
        let nn = lists@.len() as int;
        let bb = size_bound(fm);
        assert(0 <= nn <= bb);
        assert(1000 * nn * nn <= 1000 * bb * bb) by (nonlinear_arith)
            requires
                0 <= nn <= bb,
        ;
        lemma_records_positions(fm);
        assert forall|i: int| 0 <= i < lists@.len() implies (#[trigger] lists@[i]).position
            >= 1 by {
            assert(idm[i] == lists@[i]@);
            assert(idm[i].position >= 1);
        }
        assert forall|j: int| 0 <= j < m@.len() implies (#[trigger] m@[j]).count as int
            <= lists@.len() by {
            lemma_count_list_le(idm, m@[j].slug@);
        }
    }
    let composers = top_composers(&lists, &m);
    Ok(Snapshot { lists, menu: m, composers })
}

} // verus!
