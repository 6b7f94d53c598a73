use jutsu_loader::cache::{expected_pages, page_estimate, CacheError};
use jutsu_loader::crawl::SiteCrawl;

#[test]
fn crawl_keeps_pages_until_empty() {
    let mut crawl = SiteCrawl::new(String::from("first;"));
    assert_eq!(crawl.next_page(), 2);
    crawl.feed("second;");
    assert_eq!(crawl.next_page(), 3);
    crawl.feed("third;");
    assert!(!crawl.is_finished());
    crawl.feed("empty");
    assert!(crawl.is_finished());
    assert_eq!(crawl.page_count(), 3);
    assert_eq!(crawl.into_data(), "first;second;third;");
}

#[test]
fn crawl_ends_at_once_on_empty() {
    let mut crawl = SiteCrawl::new(String::from("only"));
    crawl.feed("empty");
    assert!(crawl.is_finished());
    assert_eq!(crawl.page_count(), 1);
    assert_eq!(crawl.into_data(), "only");
}

#[test]
fn empty_with_spaces_is_a_page() {
    let mut crawl = SiteCrawl::new(String::new());
    crawl.feed(" empty");
    assert!(!crawl.is_finished());
    assert_eq!(crawl.page_count(), 2);
}

#[test]
fn page_count_from_cache() {
    assert_eq!(expected_pages(""), Ok(34));
    assert_eq!(expected_pages("{}"), Ok(34));
    assert_eq!(expected_pages("{\"num_of_pages\": 40, \"anime_list\": []}"), Ok(40));
    assert_eq!(expected_pages("{\"num_of_pages\": -3}"), Ok(34));
    assert_eq!(expected_pages("{\"num_of_pages\": \"7\"}"), Ok(34));
    assert_eq!(expected_pages("[1, 2]"), Ok(34));
    assert_eq!(expected_pages("not json"), Err(CacheError::NotJson));
}

#[test]
fn estimate_defaults_to_34() {
    assert_eq!(page_estimate(None), 34);
    assert_eq!(page_estimate(Some(12)), 12);
}
