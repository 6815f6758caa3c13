use toplists::composer_slug_to_name;
use toplists::top_composers;
use toplists::ListSummary;
use toplists::TopListItem;
use toplists::filter_by_composer_name;
use toplists::filter_by_list_name;
use toplists::name_to_slug;
use toplists::run;
use toplists::top_list_from_csv;
use toplists::LoadError;
use toplists::SourceFile;

fn source(name: &str, text: &str) -> SourceFile {
    SourceFile { name: String::from(name), text: String::from(text) }
}

#[test]
fn slugify_is_idempotent_on_samples() {
    let samples = vec![
        String::from("Foo Bar"),
        String::from(" foo  bar "),
        String::from("Symphony No.9"),
        String::from("--a--b--"),
        String::from("ALL CAPS 42"),
        String::from(""),
    ];
    for s in samples {
        let once = name_to_slug(s.clone());
        let twice = name_to_slug(once.clone());
        assert_eq!(once, twice);
    }
}

#[test]
fn slugify_collapses_punctuation_runs() {
    assert_eq!(name_to_slug(String::from("Symphony No.9")), String::from("symphony-no-9"));
    assert_eq!(name_to_slug(String::from("a__b--c  d")), String::from("a-b-c-d"));
    assert_eq!(name_to_slug(String::from("...")), String::from(""));
}

#[test]
fn loader_assigns_contiguous_positions_and_skips_blank_lines() {
    let files = vec![source("symphonies.csv", "A|w1\n\nB|w2\r\nC|w3\n")];
    let items = top_list_from_csv(&files).unwrap();
    assert_eq!(items.len(), 3);
    for (i, it) in items.iter().enumerate() {
        assert_eq!(it.position, i + 1);
        assert_eq!(it.list_name, String::from("symphonies"));
        assert_eq!(it.list_slug, String::from("symphonies"));
    }
    assert_eq!(items[1].composer_name, String::from("B"));
    assert_eq!(items[1].work, String::from("w2"));
}

#[test]
fn loader_takes_first_two_columns_only() {
    let files = vec![source("lists.csv", "A|x|ignored\nB|\n")];
    let items = top_list_from_csv(&files).unwrap();
    assert_eq!(items.len(), 2);
    assert_eq!(items[0].work, String::from("x"));
    assert_eq!(items[1].work, String::from(""));
}

#[test]
fn loader_rejects_row_without_delimiter() {
    let files = vec![source("lists.csv", "A|x\nNoDelimiter\n")];
    let r = top_list_from_csv(&files);
    assert!(matches!(r, Err(LoadError::MissingColumn)));
    let r2 = run(vec![source("lists.csv", "NoDelimiter")]);
    assert!(matches!(r2, Err(LoadError::MissingColumn)));
}

#[test]
fn file_name_without_extension_is_kept_whole() {
    let files = vec![source("plain", "A|x\n")];
    let items = top_list_from_csv(&files).unwrap();
    assert_eq!(items[0].list_name, String::from("plain"));
}

#[test]
fn end_to_end_two_files() {
    let files = vec![
        source("symphonies.csv", "Beethoven|Symphony No.9\n"),
        source("piano-works.csv", "Beethoven|Sonata No.32\nMozart|Sonata No.11\n"),
    ];
    let snap = run(files).unwrap();

    // menu is alphabetical, with counts
    assert_eq!(snap.menu.len(), 2);
    assert_eq!(snap.menu[0].name, String::from("piano-works"));
    assert_eq!(snap.menu[0].slug, String::from("piano-works"));
    assert_eq!(snap.menu[0].count, 2);
    assert_eq!(snap.menu[1].name, String::from("symphonies"));
    assert_eq!(snap.menu[1].slug, String::from("symphonies"));
    assert_eq!(snap.menu[1].count, 1);

    // Beethoven: 1000*1/1 (symphonies) + 1000*2/1 (piano-works) = 3000
    // Mozart: 1000*2/2 = 1000
    assert_eq!(snap.composers.len(), 2);
    assert_eq!(snap.composers[0].name, String::from("Beethoven"));
    assert_eq!(snap.composers[0].score, 3000);
    assert_eq!(snap.composers[1].name, String::from("Mozart"));
    assert_eq!(snap.composers[1].score, 1000);

    // case-insensitive composer lookup, grouped by list, alphabetical
    let groups = filter_by_composer_name(&snap.lists, &String::from("beethoven"));
    assert_eq!(groups.len(), 2);
    assert_eq!(groups[0].list_name, String::from("piano-works"));
    assert_eq!(groups[0].works.len(), 1);
    assert_eq!(groups[1].list_name, String::from("symphonies"));
    assert_eq!(groups[1].works.len(), 1);

    // slug resolution against the leaderboard
    assert_eq!(composer_slug_to_name(&snap.composers, String::from("mozart")), "Mozart");
    assert_eq!(composer_slug_to_name(&snap.composers, String::from("unknown")), "");
}

#[test]
fn queries_are_case_insensitive() {
    let files = vec![source("symphonies.csv", "Beethoven|Symphony No.9\n")];
    let snap = run(files).unwrap();
    let a = filter_by_list_name(&snap.lists, &String::from("SYMPHONIES"));
    let b = filter_by_list_name(&snap.lists, &String::from("Symphonies"));
    assert_eq!(a.len(), 1);
    assert_eq!(a.len(), b.len());
    assert_eq!(a[0].work, b[0].work);
    let g = filter_by_composer_name(&snap.lists, &String::from("BEETHOVEN"));
    assert_eq!(g.len(), 1);
    assert_eq!(g[0].works.len(), 1);
}

#[test]
fn leaderboard_orders_by_score_and_breaks_ties_by_name() {
    let files = vec![
        source("first.csv", "Zed|w1\n"),
        source("second.csv", "Abe|w2\n"),
        source("third.csv", "Mid|x1\nMid|x2\n"),
    ];
    let snap = run(files).unwrap();
    // Mid: 1000*2/1 + 1000*2/2 = 3000; Zed and Abe: 1000*1/1 = 1000 each
    assert_eq!(snap.composers.len(), 3);
    assert_eq!(snap.composers[0].name, String::from("Mid"));
    assert_eq!(snap.composers[0].score, 3000);
    assert_eq!(snap.composers[1].name, String::from("Abe"));
    assert_eq!(snap.composers[1].score, 1000);
    assert_eq!(snap.composers[2].name, String::from("Zed"));
    assert_eq!(snap.composers[2].score, 1000);

    // identical input reproduces the identical board, tie order included
    let files2 = vec![
        source("first.csv", "Zed|w1\n"),
        source("second.csv", "Abe|w2\n"),
        source("third.csv", "Mid|x1\nMid|x2\n"),
    ];
    let snap2 = run(files2).unwrap();
    for (x, y) in snap.composers.iter().zip(snap2.composers.iter()) {
        assert_eq!(x.name, y.name);
        assert_eq!(x.slug, y.slug);
        assert_eq!(x.score, y.score);
    }
}

#[test]
fn unknown_list_resolves_empty_and_scorer_skips_unknown_lists() {
    let items = vec![TopListItem {
        composer_name: String::from("Someone"),
        composer_slug: String::from("someone"),
        work: String::from("w"),
        list_name: String::from("Ghosts"),
        list_slug: String::from("ghosts"),
        position: 1,
    }];
    // menu that does not know the list: the work contributes zero, silently
    let empty_menu: Vec<ListSummary> = Vec::new();
    let board = top_composers(&items, &empty_menu);
    assert_eq!(board.len(), 1);
    assert_eq!(board[0].score, 0);
}
