use jutsu_loader::downloader::{download_path, start_downloading, DownloadMode, Quality};
use jutsu_loader::input::{is_confirmed, read_choice, read_number, NumberError};
use jutsu_loader::parser::Anime;
use jutsu_loader::ui::{choose_anime, get_user_command, search_titles, AnimeChoice, UserCommand};

fn kind(e: &std::num::ParseIntError) -> NumberError {
    match e.kind() {
        std::num::IntErrorKind::Empty => NumberError::Empty,
        std::num::IntErrorKind::InvalidDigit => NumberError::InvalidDigit,
        _ => NumberError::Overflow,
    }
}

const SAMPLES: [&str; 20] = [
    "0", "7", " 42\n", "+5", "-5", "+", "-", "", "  ", "12a", "a12", "255", "256", "18446744073709551615",
    "18446744073709551616", "99999999999999999999x", "x99999999999999999999", "007", "４", "1 2",
];

#[test]
fn numbers_read_as_str_parse_reads_them() {
    for s in SAMPLES {
        let expected = s.trim().parse::<usize>().map_err(|e| kind(&e));
        assert_eq!(read_number(s, usize::MAX), expected, "reading {:?}", s);
        let expected_u8 = s.trim().parse::<u8>().map(|v| v as usize).map_err(|e| kind(&e));
        assert_eq!(read_number(s, 255), expected_u8, "reading {:?} as u8", s);
    }
}

#[test]
fn error_messages_match_parse_int_error() {
    for s in ["", "x", "300"] {
        let e = s.parse::<u8>().unwrap_err();
        assert_eq!(read_number(s, 255).unwrap_err().message(), e.to_string());
    }
}

#[test]
fn choices_within_bounds() {
    assert_eq!(read_choice("3\n", 1, 5), Ok(Some(3)));
    assert_eq!(read_choice("0", 1, 5), Ok(None));
    assert_eq!(read_choice("6", 1, 5), Ok(None));
    assert_eq!(read_choice("five", 1, 5), Err(NumberError::InvalidDigit));
    assert_eq!(read_choice("", 1, 5), Err(NumberError::Empty));
}

#[test]
fn menu_commands() {
    assert_eq!(get_user_command("1\n"), Ok(UserCommand::ShowAnimeList));
    assert_eq!(get_user_command("2"), Ok(UserCommand::DownloadAnime));
    assert_eq!(get_user_command(" 3 "), Ok(UserCommand::Help));
    assert_eq!(get_user_command("4\r\n"), Ok(UserCommand::Update));
    assert_eq!(get_user_command("+5"), Ok(UserCommand::Exit));
    assert_eq!(get_user_command("0"), Ok(UserCommand::Error));
    assert_eq!(get_user_command("6"), Ok(UserCommand::Error));
    assert_eq!(get_user_command("300"), Err(NumberError::Overflow));
    assert_eq!(get_user_command("exit"), Err(NumberError::InvalidDigit));
}

#[test]
fn quality_and_mode_menus() {
    assert_eq!(Quality::from_choice("1\n"), Quality::Ultra);
    assert_eq!(Quality::from_choice("2"), Quality::High);
    assert_eq!(Quality::from_choice(" 3"), Quality::Medium);
    assert_eq!(Quality::from_choice("4"), Quality::Low);
    assert_eq!(Quality::from_choice("5"), Quality::Error);
    assert_eq!(Quality::from_choice("01"), Quality::Error);
    assert_eq!(DownloadMode::from_choice("1"), DownloadMode::One);
    assert_eq!(DownloadMode::from_choice("2\n"), DownloadMode::Range);
    assert_eq!(DownloadMode::from_choice("3"), DownloadMode::All);
    assert_eq!(DownloadMode::from_choice("4"), DownloadMode::Error);
}

#[test]
fn confirmations() {
    assert!(is_confirmed("y\n"));
    assert!(is_confirmed(" Y "));
    assert!(!is_confirmed("yes"));
    assert!(!is_confirmed("n"));
    assert!(!is_confirmed(""));
}

#[test]
fn download_plan_shares() {
    assert_eq!(start_downloading(5, 4), vec![(0, 2), (2, 4), (4, 5)]);
    assert_eq!(start_downloading(6, 3), vec![(0, 2), (2, 4), (4, 6)]);
    assert_eq!(start_downloading(1, 1), vec![(0, 1)]);
    assert_eq!(start_downloading(7, 1), vec![(0, 7)]);
    assert_eq!(start_downloading(3, 3), vec![(0, 1), (1, 2), (2, 3)]);
    for count in 1..40usize {
        for threads in 1..=count {
            let plan = start_downloading(count, threads);
            let size = (count as f64 / threads as f64).ceil() as usize;
            assert!(plan.len() <= threads);
            assert_eq!(plan[0].0, 0);
            assert_eq!(plan[plan.len() - 1].1, count);
            for w in plan.windows(2) {
                assert_eq!(w[0].1, w[1].0);
            }
            let chunks: Vec<usize> = (0..count).collect::<Vec<_>>().chunks(size).map(|c| c.len()).collect();
            let lens: Vec<usize> = plan.iter().map(|(a, b)| b - a).collect();
            assert_eq!(lens, chunks);
        }
    }
}

#[test]
fn file_names() {
    assert_eq!(download_path("Наруто 1 серия"), "Наруто 1 серия.mp4");
}

fn list() -> Vec<Anime> {
    ["Наруто", "Naruto Shippuden", "One Piece", "BORUTO"]
        .iter()
        .map(|n| Anime { main_page_url: format!("https://jut.su/{}/", n.len()), name: n.to_string() })
        .collect()
}

#[test]
fn search_ignores_case() {
    assert_eq!(search_titles(&list(), "naruto\n"), vec![1]);
    assert_eq!(search_titles(&list(), " RUTO"), vec![1, 3]);
    assert_eq!(search_titles(&list(), "НАРУ"), vec![0]);
    assert_eq!(search_titles(&list(), "zzz"), Vec::<usize>::new());
    assert_eq!(search_titles(&list(), ""), vec![0, 1, 2, 3]);
}

#[test]
fn choosing_a_title() {
    assert!(matches!(choose_anime(&list(), "3\n"), AnimeChoice::Picked(2)));
    assert!(matches!(choose_anime(&list(), "1"), AnimeChoice::Picked(0)));
    assert!(matches!(choose_anime(&list(), "0"), AnimeChoice::OutOfRange));
    assert!(matches!(choose_anime(&list(), "5"), AnimeChoice::OutOfRange));
    match choose_anime(&list(), "piece") {
        AnimeChoice::Search(found) => assert_eq!(found, vec![2]),
        _ => panic!("a word is a search"),
    }
}
