//! The main menu and the choice of a title, by its number in the
//! catalogue or by a search on its name.

use vstd::prelude::*;
use crate::input::{choice_in, lowercase, parse_unsigned, read_choice, read_number, to_lowercase, NumberError};
use crate::parser::{anime_views, Anime, AnimeView};
use crate::text::{chars_of, contains, matches_at, occurs_in, string_of, trim, trimmed};

verus! {

/// An entry of the main menu.
#[derive(Debug, Clone, Copy, PartialEq, Eq, Structural)]
pub enum UserCommand {
    Error,
    ShowAnimeList,
    DownloadAnime,
    Help,
    Update,
    Exit,
}

/// The entry that a menu number selects.
pub open spec fn command_of(n: nat) -> UserCommand {
    if n == 1 {
        UserCommand::ShowAnimeList
    } else if n == 2 {
        UserCommand::DownloadAnime
    } else if n == 3 {
        UserCommand::Help
    } else if n == 4 {
        UserCommand::Update
    } else if n == 5 {
        UserCommand::Exit
    } else {
        UserCommand::Error
    }
}

/// Reads a line typed at the main menu: the line without surrounding white
/// space is read as a `u8`; 1 to 5 select the entries in menu order and any
/// other number selects `Error`. A line that is not such a number gives the
/// reason (and the menu treats it as `Error`).
pub fn get_user_command(line: &str) -> (r: Result<UserCommand, NumberError>)
    ensures
        match r {
            Ok(c) => parse_unsigned(trim(line@), 255) matches Ok(n) && c == command_of(n),
            Err(e) => parse_unsigned(trim(line@), 255) == Err::<nat, NumberError>(e),
        },
{
    match read_number(line, 255) {
        Ok(n) => Ok(
            if n == 1 {
                UserCommand::ShowAnimeList
            } else if n == 2 {
                UserCommand::DownloadAnime
            } else if n == 3 {
                UserCommand::Help
            } else if n == 4 {
                UserCommand::Update
            } else if n == 5 {
                UserCommand::Exit
            } else {
                UserCommand::Error
            },
        ),
        Err(e) => Err(e),
    }
}

/// The name of a title contains the query, both without case, the query
/// also without surrounding white space.
pub open spec fn title_matches(name: Seq<char>, query: Seq<char>) -> bool {
    occurs_in(lowercase(name), lowercase(trim(query)))
}

/// A title matches a query exactly when its lower-cased name is made of
/// some text, the lower-cased query without surrounding white space, and
/// some more text; so a name shorter than the query never matches, and a
/// name that merely occurs inside the query does not match unless it is as
/// long as the query.
pub proof fn lemma_title_match(name: Seq<char>, query: Seq<char>)
    ensures
        title_matches(name, query) <==> exists|x: Seq<char>, y: Seq<char>|
            lowercase(name) == x + lowercase(trim(query)) + y,
        title_matches(name, query) ==> lowercase(trim(query)).len() <= lowercase(name).len(),
        lowercase(name).len() < lowercase(trim(query)).len() ==> !title_matches(name, query),
{
    let l = lowercase(name);
    let q = lowercase(trim(query));
    if title_matches(name, query) {
        let i = choose|i: int| matches_at(l, q, i);
        let x = l.take(i);
        let y = l.skip(i + q.len());
        assert(l =~= x + q + y);
    }
    if exists|x: Seq<char>, y: Seq<char>| l == x + q + y {
        let (x, y) = choose|x: Seq<char>, y: Seq<char>| l == x + q + y;
        assert(l.subrange(x.len() as int, (x.len() + q.len()) as int) =~= q);
        assert(matches_at(l, q, x.len() as int));
    }
}

/// The positions of the titles among the first `n` of `list` whose names
/// match the query, in increasing order.
pub open spec fn matching_titles(list: Seq<AnimeView>, query: Seq<char>, n: int) -> Seq<usize>
    decreases n,
{
    if n <= 0 {
        Seq::empty()
    } else {
        let before = matching_titles(list, query, n - 1);
        if title_matches(list[n - 1].name, query) {
            before.push((n - 1) as usize)
        } else {
            before
        }
    }
}

/// The positions in `list` of the titles whose names contain the query,
/// ignoring case and the white space around the query.
pub fn search_titles(list: &Vec<Anime>, query: &str) -> (r: Vec<usize>)
    ensures
        r@ == matching_titles(anime_views(list@), query@, list@.len() as int),
{
    let wanted = string_of(trimmed(chars_of(query).as_slice()).as_slice());
    let wanted = chars_of(to_lowercase(wanted.as_str()).as_str());
    let n = list.len();
    let mut found: Vec<usize> = Vec::new();
    let mut i: usize = 0;
    while i < n
        invariant
            n == list@.len(),
            i <= n,
            wanted@ == lowercase(trim(query@)),
            found@ == matching_titles(anime_views(list@), query@, i as int),
        decreases n - i,
    {
        let name = chars_of(to_lowercase(list[i].name.as_str()).as_str());
        assert(anime_views(list@)[i as int].name == list@[i as int].name@);
        if contains(name.as_slice(), wanted.as_slice()) {
            found.push(i);
        }
        i = i + 1;
    }
    found
}

/// A search lists each matching title once, in catalogue order, and no
/// other: position `k` is among the results exactly when `k` is a position
/// of the list whose title's name matches the query, and the results
/// increase.
pub proof fn lemma_search_results(list: Seq<AnimeView>, query: Seq<char>, n: int)
    requires
        0 <= n <= list.len(),
        n <= usize::MAX,
    ensures
        forall|k: int|
            #![trigger title_matches(list[k].name, query)]
            0 <= k < n ==> (matching_titles(list, query, n).contains(k as usize) <==> title_matches(list[k].name, query)),
        forall|j: int|
            0 <= j < matching_titles(list, query, n).len() ==> (#[trigger] matching_titles(list, query, n)[j]) < n,
        forall|i: int, j: int|
            0 <= i < j < matching_titles(list, query, n).len() ==> (#[trigger] matching_titles(list, query, n)[i])
                < (#[trigger] matching_titles(list, query, n)[j]),
    decreases n,
{
    if n > 0 {
        lemma_search_results(list, query, n - 1);
        let before = matching_titles(list, query, n - 1);
        let after = matching_titles(list, query, n);
        assert forall|k: int| #![trigger title_matches(list[k].name, query)] 0 <= k < n implies (after.contains(k as usize) <==> title_matches(list[k].name, query)) by {
            if k < n - 1 {
                if title_matches(list[n - 1].name, query) {
                    assert(after == before.push((n - 1) as usize));
                    if after.contains(k as usize) {
                        let j = choose|j: int| 0 <= j < after.len() && after[j] == k as usize;
                        if j < before.len() {
                            assert(before[j] == after[j]);
                        }
                    }
                    if before.contains(k as usize) {
                        let j = choose|j: int| 0 <= j < before.len() && before[j] == k as usize;
                        assert(after[j] == before[j]);
                    }
                }
            } else {
                if title_matches(list[n - 1].name, query) {
                    assert(after[after.len() - 1] == (n - 1) as usize);
                } else {
                    if after.contains(k as usize) {
                        let j = choose|j: int| 0 <= j < after.len() && after[j] == k as usize;
                        assert(before[j] < n - 1);
                    }
                }
            }
        }
    }
}

/// How the answer to "which title" selects one.
pub enum AnimeChoice {
    /// A number of the list: the title at this position (counted from 0).
    Picked(usize),
    /// A number outside the list.
    OutOfRange,
    /// Not a number: the positions of the titles whose names match it.
    Search(Vec<usize>),
}

/// Reads the answer to "which title": a number from 1 to the list's length
/// picks that title; any other number picks none; an answer that is not a
/// number is a search on the names.
pub fn choose_anime(list: &Vec<Anime>, answer: &str) -> (r: AnimeChoice)
    ensures
        match r {
            AnimeChoice::Picked(i) => choice_in(answer@, 1, list@.len() as nat) == Ok::<Option<nat>, NumberError>(Some((i + 1) as nat)),
            AnimeChoice::OutOfRange => choice_in(answer@, 1, list@.len() as nat) == Ok::<Option<nat>, NumberError>(None),
            AnimeChoice::Search(found) => choice_in(answer@, 1, list@.len() as nat) is Err
                && found@ == matching_titles(anime_views(list@), answer@, list@.len() as int),
        },
{
    match read_choice(answer, 1, list.len()) {
        Ok(Some(n)) => AnimeChoice::Picked(n - 1),
        Ok(None) => AnimeChoice::OutOfRange,
        Err(_) => AnimeChoice::Search(search_titles(list, answer)),
    }
}

} // verus!
