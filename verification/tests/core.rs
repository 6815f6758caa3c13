use toplists::filter_by_composer_name;
use toplists::filter_by_list_name;
use toplists::name_to_slug;
use toplists::slug_to_name;
use toplists::ListSummary;
use toplists::TopListItem;

fn mock_summaries() -> Vec<ListSummary> {
    vec![
        ListSummary {
            name: String::from("Orchestral Works"),
            slug: String::from("orchestral-works"),
            count: 123,
        },
        ListSummary {
            name: String::from("Symphonies"),
            slug: String::from("symphonies"),
            count: 123,
        },
    ]
}

fn mock_top_list_items() -> Vec<TopListItem> {
    vec![
        TopListItem {
            composer_name: String::from("Beethoven"),
            composer_slug: String::from("beethoven"),
            work: String::from("Symphony No. 9 'Choral'"),
            list_name: String::from("Symphonies"),
            list_slug: String::from("symphonies"),
            position: 99,
        },
        TopListItem {
            composer_name: String::from("Sibelius"),
            composer_slug: String::from("seethoven"),
            work: String::from("Finlandia"),
            list_name: String::from("Orchestral works"),
            list_slug: String::from("orchestral-works"),
            position: 14,
        },
        TopListItem {
            composer_name: String::from("Beethoven"),
            composer_slug: String::from("beethoven"),
            work: String::from("Piano Sonata No. 32"),
            list_name: String::from("Piano Works"),
            list_slug: String::from("piano-works"),
            position: 99,
        },
    ]
}

#[test]
fn test_name_to_slug() {
    assert_eq!(name_to_slug(String::from("Foo Bar")), String::from("foo-bar"));
    assert_eq!(name_to_slug(String::from("")), String::from(""));
    assert_eq!(name_to_slug(String::from("123")), String::from("123"));
    assert_eq!(name_to_slug(String::from(" foo bar ")), String::from("foo-bar"));
}

#[test]
fn test_slug_to_name() {
    let mock_list = mock_summaries();
    assert_eq!(slug_to_name(&mock_list, String::from("orchestral-works")), "Orchestral Works");
    assert_eq!(slug_to_name(&mock_list, String::from("not-found")), "");
}

#[test]
fn test_filter_by_list_name() {
    let items = mock_top_list_items();
    assert_eq!(filter_by_list_name(&items, &String::from("Symphonies")).len(), 1);
    assert_eq!(filter_by_list_name(&items, &String::from("Unknown")).len(), 0);
}

#[test]
fn test_filter_by_composer_name() {
    let items = mock_top_list_items();
    assert_eq!(filter_by_composer_name(&items, &String::from("Beethoven")).len(), 2);
    assert_eq!(filter_by_composer_name(&items, &String::from("Beethoven"))[0].works.len(), 1);
    assert_eq!(filter_by_composer_name(&items, &String::from("Shubert")).len(), 0);
}
