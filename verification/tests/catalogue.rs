use jutsu_loader::parser::{
    catalogue_readable, episode_links, episode_list_readable, episode_page_url, parse_all_data,
    update_data,
};

const PAGE: &str = "<html><div class=\"all_anime\"><span class=\"tooltip_pad_in_anime\"><a href=\"/naruto/\" class=\"x\"><div class=\"aaname\">Наруто</div></a></span><span class=\"tooltip_pad_in_anime\"><a href=\"/one-piece/\"><div class=\"aaname\">One Piece</div></a></span><span class=\"tooltip_pad_in_anime\"><a href=\"/bleach/\"></a></span></div></html>";

#[test]
fn catalogue_titles_in_order() {
    assert!(catalogue_readable(PAGE));
    let list = parse_all_data(PAGE);
    assert_eq!(list.len(), 3);
    assert_eq!(list[0].main_page_url, "https://jut.su/naruto/");
    assert_eq!(list[0].name, "Наруто");
    assert_eq!(list[1].main_page_url, "https://jut.su/one-piece/");
    assert_eq!(list[1].name, "One Piece");
    assert_eq!(list[2].main_page_url, "https://jut.su/bleach/");
    assert_eq!(list[2].name, "???");
}

#[test]
fn refreshing_reads_the_same_catalogue() {
    let list = update_data(PAGE);
    assert_eq!(list.len(), 3);
    assert_eq!(list[1].name, "One Piece");
}

#[test]
fn empty_catalogue() {
    assert!(catalogue_readable("<html>nothing</html>"));
    assert!(parse_all_data("<html>nothing</html>").is_empty());
}

#[test]
fn catalogue_with_more_names_than_titles_is_unreadable() {
    let page = "<div class=\"aaname\">A</div><div class=\"aaname\">B</div><span class=\"tooltip_pad_in_anime\"><a href=\"/a/\">";
    assert!(!catalogue_readable(page));
}

#[test]
fn catalogue_with_a_cut_name_is_unreadable() {
    // The name's text starts with a three-byte character, so byte 2 is inside it.
    let page = "<span class=\"tooltip_pad_in_anime\"><a href=\"/a/\"><div class=\"aaname€</div>";
    assert!(!catalogue_readable(page));
    let short = "<span class=\"tooltip_pad_in_anime\"><a href=\"/a/\"><div class=\"aaname\"</div>";
    assert!(!catalogue_readable(short));
}

#[test]
fn catalogue_name_of_one_two_byte_character() {
    // "ЖЖ" before `</div>`: dropping two bytes removes the first character.
    let page = "<span class=\"tooltip_pad_in_anime\"><a href=\"/a/\"><div class=\"aanameЖЖ</div>";
    assert!(catalogue_readable(page));
    assert_eq!(parse_all_data(page)[0].name, "Ж");
}

const TITLE_PAGE: &str = "<div><a href=\"/naruto/episode-1.html\" class=\"short-btn green\">1 серия</a><a href=\"/naruto/episode-2.html\" class=\"short-btn green\">2 серия</a><a href=\"/naruto/film-1.html\" class=\"short-btn\">Фильм</a></div>";

#[test]
fn episode_links_in_order() {
    assert!(episode_list_readable(TITLE_PAGE));
    let links = episode_links(TITLE_PAGE);
    assert_eq!(links, vec!["/naruto/episode-1.html", "/naruto/episode-2.html", "/naruto/film-1.html"]);
}

#[test]
fn title_page_without_episodes() {
    assert!(episode_list_readable("<html></html>"));
    assert!(episode_links("<html></html>").is_empty());
}

#[test]
fn episode_entry_without_link_is_unreadable() {
    assert!(!episode_list_readable("<a href=\" class=\"short-btn\">x</a>"));
    assert!(!episode_list_readable("\" class=\"short-btn"));
}

#[test]
fn episode_page_address() {
    assert_eq!(episode_page_url("/naruto/episode-1.html"), "https://jut.su/naruto/episode-1.html");
}
