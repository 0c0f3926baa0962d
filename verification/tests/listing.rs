use diary2::listing::{list, list_with_filter, page_passes, str_contains_sub, str_lex_lt, PageFilter};
use diary2::page::{Page, WeekPage};
use diary2::time::Timestamp;

fn ts(secs: i64) -> Timestamp {
    Timestamp::new(secs, 0).expect("timestamp in range")
}

fn page(id: &str, title: &str, text: &str, secs: i64, hidden: bool) -> Page {
    Page {
        id: id.to_string(),
        title: title.to_string(),
        text: text.to_string(),
        hidden,
        created_at: ts(secs),
        updated_at: vec![ts(secs)],
    }
}

#[test]
fn write_then_list_round_trips() {
    let p = page("a", "hello", "world", 1709719200, false);
    let shard = diary2::storage::write(None, p.clone());
    let listed = list(vec![("2024-03-03-2024-03-09.json".to_string(), shard)], 1);
    assert_eq!(listed.len(), 1);
    assert_eq!(listed[0].id, p.id);
    assert_eq!(listed[0].title, p.title);
    assert_eq!(listed[0].text, p.text);
    assert_eq!(listed[0].hidden, p.hidden);
    assert_eq!(listed[0].created_at, p.created_at);
    assert_eq!(listed[0].updated_at, p.updated_at);
}

#[test]
fn list_orders_newest_shard_and_page_first() {
    let older = WeekPage {
        pages: vec![page("o1", "old early", "x", 1709114400, false), page(
            "o2",
            "old late",
            "x",
            1709200800,
            false,
        )],
        uploaded_at: None,
    };
    let newer = WeekPage {
        pages: vec![page("n1", "new early", "x", 1709719200, false), page(
            "n2",
            "new late",
            "x",
            1709805600,
            false,
        )],
        uploaded_at: None,
    };
    let shards = vec![
        ("2024-02-25-2024-03-02.json".to_string(), older),
        ("2024-03-03-2024-03-09.json".to_string(), newer),
    ];
    let listed = list(shards, 10);
    let ids: Vec<&str> = listed.iter().map(|p| p.id.as_str()).collect();
    assert_eq!(ids, vec!["n2", "n1", "o2", "o1"]);
}

#[test]
fn list_stops_at_limit() {
    let shard = WeekPage {
        pages: vec![
            page("a", "one", "x", 1709719200, false),
            page("b", "two", "x", 1709719260, false),
            page("c", "three", "x", 1709719320, false),
        ],
        uploaded_at: None,
    };
    let listed = list(vec![("2024-03-03-2024-03-09.json".to_string(), shard)], 2);
    assert_eq!(listed.len(), 2);
    assert_eq!(listed[0].id, "c");
    assert_eq!(listed[1].id, "b");
}

#[test]
fn visible_filter_hides_hidden_pages() {
    let shard = WeekPage {
        pages: vec![page("a", "shown", "x", 1709719200, false), page(
            "b",
            "secret",
            "x",
            1709719260,
            true,
        )],
        uploaded_at: None,
    };
    let listed = list_with_filter(
        vec![("2024-03-03-2024-03-09.json".to_string(), shard)],
        10,
        &PageFilter::Visible,
    );
    assert_eq!(listed.len(), 1);
    assert_eq!(listed[0].id, "a");
}

#[test]
fn query_filter_searches_title_and_text() {
    let shard = WeekPage {
        pages: vec![
            page("a", "groceries", "buy milk", 1709719200, false),
            page("b", "diary", "the milk was good", 1709719260, false),
            page("c", "milk", "hidden note", 1709719320, true),
        ],
        uploaded_at: None,
    };
    let shards = vec![("2024-03-03-2024-03-09.json".to_string(), shard)];
    let everywhere = PageFilter::Query {
        query: "milk".to_string(),
        title_only: false,
        text_only: false,
    };
    let by_title = PageFilter::Query { query: "milk".to_string(), title_only: true, text_only: false };
    let by_text = PageFilter::Query { query: "milk".to_string(), title_only: false, text_only: true };
    let both = list_with_filter(shards.clone(), 10, &everywhere);
    let ids: Vec<&str> = both.iter().map(|p| p.id.as_str()).collect();
    // the hidden page never matches, also when its title holds the query
    assert_eq!(ids, vec!["b", "a"]);
    let titled = list_with_filter(shards.clone(), 10, &by_title);
    assert!(titled.is_empty());
    let texted = list_with_filter(shards, 10, &by_text);
    let ids: Vec<&str> = texted.iter().map(|p| p.id.as_str()).collect();
    assert_eq!(ids, vec!["b", "a"]);
}

#[test]
fn substring_search_finds_needles() {
    assert!(str_contains_sub("the milk was good", "milk"));
    assert!(str_contains_sub("anything", ""));
    assert!(!str_contains_sub("short", "longer than the text"));
    assert!(!str_contains_sub("abc", "abd"));
    assert!(str_contains_sub("aaab", "aab"));
}

#[test]
fn filename_order_is_lexicographic() {
    assert!(str_lex_lt("2024-02-25-2024-03-02.json", "2024-03-03-2024-03-09.json"));
    assert!(!str_lex_lt("2024-03-03-2024-03-09.json", "2024-03-03-2024-03-09.json"));
    assert!(str_lex_lt("abc", "abcd"));
    assert!(!str_lex_lt("abcd", "abc"));
}

#[test]
fn page_passes_matches_filters() {
    let shown = page("a", "title", "text", 1709719200, false);
    let hidden = page("b", "title", "text", 1709719200, true);
    assert!(page_passes(&PageFilter::All, &shown));
    assert!(page_passes(&PageFilter::All, &hidden));
    assert!(page_passes(&PageFilter::Visible, &shown));
    assert!(!page_passes(&PageFilter::Visible, &hidden));
}

#[test]
fn list_with_limit_zero_returns_nothing() {
    let shard = WeekPage { pages: vec![page("a", "one", "x", 1709719200, false)], uploaded_at: None };
    let listed = list(vec![("2024-03-03-2024-03-09.json".to_string(), shard)], 0);
    assert!(listed.is_empty());
    let empty = list(Vec::new(), 5);
    assert!(empty.is_empty());
}

#[test]
fn pages_created_at_one_instant_keep_their_stored_order() {
    let shard = WeekPage {
        pages: vec![page("a", "first", "x", 1709719200, false), page(
            "b",
            "second",
            "x",
            1709719200,
            false,
        )],
        uploaded_at: None,
    };
    let listed = list(vec![("2024-03-03-2024-03-09.json".to_string(), shard)], 10);
    let ids: Vec<&str> = listed.iter().map(|p| p.id.as_str()).collect();
    assert_eq!(ids, vec!["a", "b"]);
}
