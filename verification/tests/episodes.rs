use jutsu_loader::crawl::{get_episodes, EpisodeCollector};
use jutsu_loader::downloader::Quality;
use jutsu_loader::parser::{
    episode_page_readable, get_1080, get_360, get_480, get_720, get_episode_name,
    read_episode_page, EpisodePage,
};

fn page(sources: &[&str]) -> String {
    let mut html = String::from("<h1><span itemprop=\"name\"><i class=\"icon\"></i>Наруто 1 серия</span></h1>");
    for res in sources {
        html.push_str(&format!("<source src=\"https://v.jut.su/{res}.mp4?x=1\" type=\"video/mp4\" lang=\"ru\" res=\"{res}\"/>"));
    }
    html
}

fn found_url(p: EpisodePage) -> String {
    match p {
        EpisodePage::Found(e) => {
            assert_eq!(e.name, "Наруто 1 серия");
            e.url
        }
        _ => panic!("expected a video source"),
    }
}

#[test]
fn episode_name_after_icon() {
    assert_eq!(get_episode_name(&page(&["1080"])), "Наруто 1 серия");
    let plain = String::from("<span itemprop=\"name\">Plain</span>");
    // Without the icon the name keeps the `>` that closes the tag.
    assert_eq!(get_episode_name(&plain), ">Plain");
}

#[test]
fn every_resolution_on_a_full_page() {
    let html = page(&["1080", "720", "480", "360"]);
    assert_eq!(found_url(get_1080(&html)), "https://v.jut.su/1080.mp4?x=1");
    assert_eq!(found_url(get_720(&html)), "https://v.jut.su/720.mp4?x=1");
    assert_eq!(found_url(get_480(&html)), "https://v.jut.su/480.mp4?x=1");
    assert_eq!(found_url(get_360(&html)), "https://v.jut.su/360.mp4?x=1");
}

#[test]
fn source_position_skips_missing_resolutions() {
    let html = page(&["720", "360"]);
    assert_eq!(found_url(read_episode_page(&html, Quality::High)), "https://v.jut.su/720.mp4?x=1");
    assert_eq!(found_url(read_episode_page(&html, Quality::Low)), "https://v.jut.su/360.mp4?x=1");
    match read_episode_page(&html, Quality::Ultra) {
        EpisodePage::Unavailable { name } => assert_eq!(name, "Наруто 1 серия"),
        _ => panic!("1080p is not offered"),
    }
    match get_480(&html) {
        EpisodePage::Unavailable { name } => assert_eq!(name, "Наруто 1 серия"),
        _ => panic!("480p is not offered"),
    }
}

#[test]
fn refused_access() {
    let html = "<div class=\"block_video_text\">VPN</div>";
    assert!(episode_page_readable(html, Quality::Ultra));
    assert!(matches!(read_episode_page(html, Quality::Ultra), EpisodePage::Blocked));
}

#[test]
fn unreadable_pages() {
    // No name tag.
    assert!(!episode_page_readable("<source src=\"a\" res=\"1080\"", Quality::Ultra));
    // Offers 720p but has no source at its position.
    assert!(!episode_page_readable("<span itemprop=\"name\">x</span> res=\"720\"", Quality::High));
    // Lacks the resolution: only the name is needed.
    assert!(episode_page_readable("<span itemprop=\"name\">x</span>", Quality::Low));
}

#[test]
fn collector_keeps_found_episodes_until_refusal() {
    assert!(EpisodeCollector::new(Quality::Error).is_none());
    let mut c = EpisodeCollector::new(Quality::High).unwrap();
    assert_eq!(c.read_quality(), Quality::High);
    assert!(matches!(c.feed(&page(&["1080", "720"])), EpisodePage::Found(_)));
    assert!(matches!(c.feed(&page(&["1080"])), EpisodePage::Unavailable { .. }));
    assert!(!c.is_finished());
    assert!(matches!(c.feed(&page(&["720", "480"])), EpisodePage::Found(_)));
    assert!(matches!(c.feed("<div class=\"block_video_text\""), EpisodePage::Blocked));
    assert!(c.is_finished());
    let found = c.into_episodes();
    assert_eq!(found.len(), 2);
    assert_eq!(found[0].url, "https://v.jut.su/720.mp4?x=1");
    assert_eq!(found[1].url, "https://v.jut.su/720.mp4?x=1");
}

#[test]
fn preparing_the_episode_reading() {
    let title = "<a href=\"/x/episode-1.html\" class=\"short-btn\">1</a><a href=\"/x/episode-2.html\" class=\"short-btn\">2</a>";
    let (links, collector) = get_episodes(title, Quality::Medium);
    assert_eq!(links, vec!["/x/episode-1.html", "/x/episode-2.html"]);
    let collector = collector.unwrap();
    assert_eq!(collector.read_quality(), Quality::Medium);
    assert!(!collector.is_finished());
    let (links, collector) = get_episodes(title, Quality::Error);
    assert_eq!(links.len(), 2);
    assert!(collector.is_none());
}
