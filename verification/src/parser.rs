//! Extraction of the catalogue, of episode links, and of episode names and
//! video sources from the HTML of jut.su.

use vstd::prelude::*;
use crate::downloader::Quality;
use crate::text::{
    borderless, lemma_drop_bytes_suffix, lemma_split_after_first, lemma_split_at_first, lemma_split_free, lemma_last_piece, lemma_last_piece_after, lemma_suffix_free,
    after_bytes, after_last, before_first, char_vecs, chars_of, contains, drop_bytes,
    first_piece, last_piece, lemma_split_nonempty, occurs_in, push_all, split, split_by,
    string_of,
};

verus! {

/// A title of the catalogue: its page and its name.
#[derive(Debug, Clone)]
pub struct Anime {
    pub main_page_url: String,
    pub name: String,
}

/// An episode: the address of its video file and its name.
#[derive(Debug, Clone)]
pub struct Episode {
    pub url: String,
    pub name: String,
}

/// The text of an [`Anime`].
pub struct AnimeView {
    pub main_page_url: Seq<char>,
    pub name: Seq<char>,
}

/// The text of an [`Episode`].
pub struct EpisodeView {
    pub url: Seq<char>,
    pub name: Seq<char>,
}

impl View for Anime {
    type V = AnimeView;

    open spec fn view(&self) -> AnimeView {
        AnimeView { main_page_url: self.main_page_url@, name: self.name@ }
    }
}

impl View for Episode {
    type V = EpisodeView;

    open spec fn view(&self) -> EpisodeView {
        EpisodeView { url: self.url@, name: self.name@ }
    }
}

impl Episode {
    /// A copy of this episode.
    pub fn duplicate(&self) -> (r: Episode)
        ensures
            r@ == self@,
    {
        Episode { url: self.url.clone(), name: self.name.clone() }
    }
}

/// A copy of a list of episodes.
pub(crate) fn copy_episodes(v: &Vec<Episode>) -> (r: Vec<Episode>)
    ensures
        episode_views(r@) == episode_views(v@),
{
    let mut r: Vec<Episode> = Vec::new();
    let n = v.len();
    let mut i: usize = 0;
    while i < n
        invariant
            n == v@.len(),
            i <= n,
            episode_views(r@) == episode_views(v@).take(i as int),
        decreases n - i,
    {
        let ghost before = r@;
        r.push(v[i].duplicate());
        assert(episode_views(r@) =~= episode_views(before).push(v@[i as int]@));
        i = i + 1;
        assert(episode_views(r@) =~= episode_views(v@).take(i as int));
    }
    assert(episode_views(v@).take(n as int) =~= episode_views(v@));
    r
}

/// The texts of a sequence of titles.
pub open spec fn anime_views(v: Seq<Anime>) -> Seq<AnimeView> {
    v.map_values(|a: Anime| a@)
}

/// The texts of a sequence of episodes.
pub open spec fn episode_views(v: Seq<Episode>) -> Seq<EpisodeView> {
    v.map_values(|e: Episode| e@)
}

/// The site's address, with which the address of a title's page begins.
pub open spec fn site_root() -> Seq<char> {
    "https://jut.su/"@
}

/// What precedes the address of each title in the catalogue.
pub open spec fn anime_link_mark() -> Seq<char> {
    "<span class=\"tooltip_pad_in_anime\"><a href=\"/"@
}

/// What ends the site-relative address of a title.
pub open spec fn slug_end_mark() -> Seq<char> {
    "/\""@
}

/// What precedes the name of each title in the catalogue.
pub open spec fn anime_name_mark() -> Seq<char> {
    "<div class=\"aaname"@
}

/// What ends the name of a title.
pub open spec fn div_close_mark() -> Seq<char> {
    "</div>"@
}

/// The name a title has until the catalogue names it.
pub open spec fn unnamed() -> Seq<char> {
    "???"@
}

/// The address of the title whose catalogue entry follows a link mark.
pub open spec fn anime_url(entry: Seq<char>) -> Seq<char> {
    site_root() + first_piece(entry, slug_end_mark()) + "/"@
}

/// The name held by the text that follows a name mark: its part before
/// `</div>` without its first two bytes (the `">` that closes the tag).
pub open spec fn anime_name(entry: Seq<char>) -> Option<Seq<char>> {
    drop_bytes(first_piece(entry, div_close_mark()), 2)
}

/// A catalogue that the parser reads without failing: no more name marks
/// than link marks, and every name long enough to lose its first two bytes.
pub open spec fn catalogue_is_readable(data: Seq<char>) -> bool {
    let links = split(data, anime_link_mark());
    let names = split(data, anime_name_mark());
    &&& names.len() <= links.len()
    &&& forall|i: int| 1 <= i < names.len() ==> anime_name(#[trigger] names[i]) is Some
}

/// The titles of a catalogue: one for each link mark, in order; the `i`-th
/// takes the name that follows the `i`-th name mark, or keeps "???".
pub open spec fn catalogue(data: Seq<char>) -> Seq<AnimeView> {
    let links = split(data, anime_link_mark());
    let names = split(data, anime_name_mark());
    Seq::new(
        (links.len() - 1) as nat,
        |i: int|
            AnimeView {
                main_page_url: anime_url(links[i + 1]),
                name: if i + 1 < names.len() {
                    anime_name(names[i + 1]).unwrap()
                } else {
                    unnamed()
                },
            },
    )
}

fn anime_link_chars() -> (r: Vec<char>)
    ensures
        r@ == anime_link_mark(),
        r@.len() > 0,
{
    proof {
        reveal_strlit("<span class=\"tooltip_pad_in_anime\"><a href=\"/");
    }
    chars_of("<span class=\"tooltip_pad_in_anime\"><a href=\"/")
}

fn slug_end_chars() -> (r: Vec<char>)
    ensures
        r@ == slug_end_mark(),
        r@.len() > 0,
{
    proof {
        reveal_strlit("/\"");
    }
    chars_of("/\"")
}

fn anime_name_chars() -> (r: Vec<char>)
    ensures
        r@ == anime_name_mark(),
        r@.len() > 0,
{
    proof {
        reveal_strlit("<div class=\"aaname");
    }
    chars_of("<div class=\"aaname")
}

fn div_close_chars() -> (r: Vec<char>)
    ensures
        r@ == div_close_mark(),
        r@.len() > 0,
{
    proof {
        reveal_strlit("</div>");
    }
    chars_of("</div>")
}

proof fn lemma_catalogue_marks_borderless()
    ensures
        anime_link_mark().len() > 0,
        borderless(anime_link_mark()),
        anime_name_mark().len() > 0,
        borderless(anime_name_mark()),
        slug_end_mark().len() > 0,
        borderless(slug_end_mark()),
        div_close_mark().len() > 0,
        borderless(div_close_mark()),
{
    reveal_strlit("<span class=\"tooltip_pad_in_anime\"><a href=\"/");
    reveal_strlit("<div class=\"aaname");
    reveal_strlit("/\"");
    reveal_strlit("</div>");
    let l = anime_link_mark();
    assert forall|k: int| 0 < k < l.len() implies #[trigger] l.take(k) != l.skip(l.len() - k) by {
        assert(l.take(k)[0] == '<');
        assert(l.skip(l.len() - k)[0] == l[l.len() - k]);
        if l[l.len() - k] == '<' {
            assert(l.take(k)[1] == 's');
            assert(l.skip(l.len() - k)[1] == l[l.len() - k + 1]);
        }
    }
    let n = anime_name_mark();
    assert forall|k: int| 0 < k < n.len() implies #[trigger] n.take(k) != n.skip(n.len() - k) by {
        assert(n.take(k)[0] == '<');
        assert(n.skip(n.len() - k)[0] == n[n.len() - k]);
    }
    let e = slug_end_mark();
    assert forall|k: int| 0 < k < e.len() implies #[trigger] e.take(k) != e.skip(e.len() - k) by {
        assert(e.take(k)[0] == '/');
        assert(e.skip(e.len() - k)[0] == e[e.len() - k]);
    }
    let d = div_close_mark();
    assert forall|k: int| 0 < k < d.len() implies #[trigger] d.take(k) != d.skip(d.len() - k) by {
        assert(d.take(k)[0] == '<');
        assert(d.skip(d.len() - k)[0] == d[d.len() - k]);
    }
}

/// A catalogue holding one title: a link mark followed by the title's
/// address and `/"`, and a name mark followed by `">`, the name and
/// `</div>`. Its one title has the address `https://jut.su/<address>/` and
/// that name.
pub proof fn lemma_catalogue_of_one_title(
    head: Seq<char>,
    slug: Seq<char>,
    middle: Seq<char>,
    name: Seq<char>,
    tail: Seq<char>,
)
    requires
        !occurs_in(head, anime_link_mark()),
        !occurs_in(
            slug + slug_end_mark() + middle + anime_name_mark() + "\">"@ + name + div_close_mark() + tail,
            anime_link_mark(),
        ),
        !occurs_in(head + anime_link_mark() + slug + slug_end_mark() + middle, anime_name_mark()),
        !occurs_in("\">"@ + name + div_close_mark() + tail, anime_name_mark()),
        !occurs_in(slug, slug_end_mark()),
        !occurs_in("\">"@ + name, div_close_mark()),
    ensures
        ({
            let data = head + anime_link_mark() + slug + slug_end_mark() + middle + anime_name_mark() + "\">"@
                + name + div_close_mark() + tail;
            &&& catalogue_is_readable(data)
            &&& catalogue(data) == seq![AnimeView { main_page_url: site_root() + slug + "/"@, name: name }]
        }),
{
    reveal_strlit("\">");
    lemma_catalogue_marks_borderless();
    let opened = "\">"@;
    let entry = slug + slug_end_mark() + middle + anime_name_mark() + opened + name + div_close_mark() + tail;
    let before_name = head + anime_link_mark() + slug + slug_end_mark() + middle;
    let after_name = opened + name + div_close_mark() + tail;
    let data = head + anime_link_mark() + slug + slug_end_mark() + middle + anime_name_mark() + opened + name
        + div_close_mark() + tail;
    assert(data =~= head + anime_link_mark() + entry);
    assert(data =~= before_name + anime_name_mark() + after_name);
    lemma_split_after_first(head, anime_link_mark(), entry);
    lemma_split_free(entry, anime_link_mark());
    let links = split(data, anime_link_mark());
    assert(links =~= seq![head, entry]);
    lemma_split_after_first(before_name, anime_name_mark(), after_name);
    lemma_split_free(after_name, anime_name_mark());
    let names = split(data, anime_name_mark());
    assert(names =~= seq![before_name, after_name]);
    assert(entry =~= slug + slug_end_mark() + (middle + anime_name_mark() + opened + name + div_close_mark() + tail));
    lemma_split_after_first(slug, slug_end_mark(), middle + anime_name_mark() + opened + name + div_close_mark() + tail);
    assert(after_name =~= (opened + name) + div_close_mark() + tail);
    lemma_split_after_first(opened + name, div_close_mark(), tail);
    let t = opened + name;
    assert(t[0] == '"');
    assert(t.drop_first()[0] == '>');
    assert(t.drop_first().drop_first() =~= name);
    assert(drop_bytes(t.drop_first().drop_first(), 0) == Some(name));
    assert(drop_bytes(t.drop_first(), 1) == Some(name));
    assert(drop_bytes(t, 2) == Some(name));
    assert(anime_name(after_name) == Some(name));
    assert(catalogue(data) =~= seq![AnimeView { main_page_url: site_root() + slug + "/"@, name: name }]);
}

/// Whether [`parse_all_data`] can read `data`.
pub fn catalogue_readable(data: &str) -> (r: bool)
    ensures
        r == catalogue_is_readable(data@),
{
    let text = chars_of(data);
    let links = split_by(text.as_slice(), anime_link_chars().as_slice());
    let names = split_by(text.as_slice(), anime_name_chars().as_slice());
    if names.len() > links.len() {
        return false;
    }
    let close = div_close_chars();
    let n = names.len();
    proof {
        lemma_split_nonempty(data@, anime_name_mark());
    }
    let mut i: usize = 1;
    while i < n
        invariant
            n == names@.len(),
            1 <= i <= n,
            close@ == div_close_mark(),
            close@.len() > 0,
            char_vecs(names@) == split(data@, anime_name_mark()),
            forall|j: int| 1 <= j < i ==> (#[trigger] anime_name(char_vecs(names@)[j])) is Some,
        decreases n - i,
    {
        let head = before_first(names[i].as_slice(), close.as_slice());
        assert(names@[i as int]@ == char_vecs(names@)[i as int]);
        if after_bytes(head.as_slice(), 2).is_none() {
            assert(anime_name(char_vecs(names@)[i as int]) is None);
            return false;
        }
        i = i + 1;
    }
    true
}


fn site_root_chars() -> (r: Vec<char>)
    ensures
        r@ == site_root(),
{
    chars_of("https://jut.su/")
}

fn slash_chars() -> (r: Vec<char>)
    ensures
        r@ == "/"@,
{
    chars_of("/")
}

fn unnamed_chars() -> (r: Vec<char>)
    ensures
        r@ == unnamed(),
{
    chars_of("???")
}

/// Reads the catalogue out of the concatenated HTML of the catalogue pages.
///
/// Each link mark starts a title whose address is the site root, the text
/// up to the next `/"`, and a `/`; the `i`-th name mark names the `i`-th
/// title, and titles without a name mark are named "???".
pub fn parse_all_data(data: &str) -> (r: Vec<Anime>)
    requires
        catalogue_is_readable(data@),
    ensures
        anime_views(r@) == catalogue(data@),
{
    let text = chars_of(data);
    let links = split_by(text.as_slice(), anime_link_chars().as_slice());
    let names = split_by(text.as_slice(), anime_name_chars().as_slice());
    let slug_end = slug_end_chars();
    let close = div_close_chars();
    proof {
        lemma_split_nonempty(data@, anime_link_mark());
    }
    let count = links.len() - 1;
    let ghost spec_list = catalogue(data@);
    let mut list: Vec<Anime> = Vec::new();
    let mut i: usize = 0;
    while i < count
        invariant
            count + 1 == links@.len(),
            i <= count,
            char_vecs(links@) == split(data@, anime_link_mark()),
            char_vecs(names@) == split(data@, anime_name_mark()),
            catalogue_is_readable(data@),
            slug_end@ == slug_end_mark(),
            slug_end@.len() > 0,
            close@ == div_close_mark(),
            close@.len() > 0,
            spec_list == catalogue(data@),
            anime_views(list@) == spec_list.take(i as int),
        decreases count - i,
    {
        assert(links@[i + 1]@ == char_vecs(links@)[i + 1]);
        let mut url = site_root_chars();
        let slug = before_first(links[i + 1].as_slice(), slug_end.as_slice());
        push_all(&mut url, slug.as_slice());
        push_all(&mut url, slash_chars().as_slice());
        let name_chars = if i + 1 < names.len() {
            assert(names@[i + 1]@ == char_vecs(names@)[i + 1]);
            assert(anime_name(split(data@, anime_name_mark())[i + 1]) is Some);
            let head = before_first(names[i + 1].as_slice(), close.as_slice());
            match after_bytes(head.as_slice(), 2) {
                Some(v) => v,
                None => Vec::new(),
            }
        } else {
            unnamed_chars()
        };
        let anime = Anime { main_page_url: string_of(url.as_slice()), name: string_of(name_chars.as_slice()) };
        assert(anime@.main_page_url == spec_list[i as int].main_page_url);
        assert(anime@.name == spec_list[i as int].name);
        let ghost before = list@;
        list.push(anime);
        assert(list@ == before.push(anime));
        assert(anime_views(list@) =~= anime_views(before).push(spec_list[i as int]));
        i = i + 1;
        assert(anime_views(list@) =~= spec_list.take(i as int));
    }
    assert(spec_list.take(count as int) =~= spec_list);
    list
}

/// The titles that refreshing the cache stores: the catalogue read out of
/// the concatenated catalogue pages.
pub fn update_data(site_data: &str) -> (r: Vec<Anime>)
    requires
        catalogue_is_readable(site_data@),
    ensures
        anime_views(r@) == catalogue(site_data@),
{
    parse_all_data(site_data)
}


/// What separates the entries of a title's episode list.
pub open spec fn episode_item_mark() -> Seq<char> {
    "\" class=\"short-btn"@
}

/// What precedes the address of an episode in its entry.
pub open spec fn href_mark() -> Seq<char> {
    "<a href="@
}

/// The site-relative address in an episode entry: what follows its last
/// `<a href=`, without the first byte (the opening quote).
pub open spec fn episode_link(entry: Seq<char>) -> Option<Seq<char>> {
    drop_bytes(last_piece(entry, href_mark()), 1)
}

/// The `<a href=` mark cannot overlap itself.
proof fn lemma_href_mark_borderless()
    ensures
        href_mark().len() > 0,
        borderless(href_mark()),
{
    reveal_strlit("<a href=");
    let p = href_mark();
    assert forall|k: int| 0 < k < p.len() implies #[trigger] p.take(k) != p.skip(p.len() - k) by {
        assert(p.take(k)[0] == '<');
        assert(p.skip(p.len() - k)[0] == p[p.len() - k]);
    }
}

/// The address of an episode entry is read after the entry's last `<a href=`:
/// for an entry made of any text, `<a href=`, and a text without `<a href=`,
/// the address is that last text without its first byte; and whatever the
/// entry, the address is an end of the entry that holds no `<a href=`.
pub proof fn lemma_episode_link_after_last_href(before: Seq<char>, after: Seq<char>, entry: Seq<char>)
    ensures
        !occurs_in(after, href_mark()) ==> episode_link(before + href_mark() + after) == drop_bytes(after, 1),
        episode_link(entry) matches Some(link) ==> {
            &&& link.len() <= entry.len()
            &&& entry.skip(entry.len() - link.len()) == link
            &&& !occurs_in(link, href_mark())
        },
{
    lemma_href_mark_borderless();
    if !occurs_in(after, href_mark()) {
        lemma_last_piece_after(before, href_mark(), after);
    }
    lemma_last_piece(entry, href_mark());
    let tail = last_piece(entry, href_mark());
    lemma_drop_bytes_suffix(tail, 1);
    if let Some(link) = episode_link(entry) {
        lemma_suffix_free(tail, href_mark(), tail.len() - link.len());
        assert(entry.skip(entry.len() - link.len()) =~= tail.skip(tail.len() - link.len()));
    }
}

proof fn lemma_episode_item_mark_borderless()
    ensures
        episode_item_mark().len() > 0,
        borderless(episode_item_mark()),
{
    reveal_strlit("\" class=\"short-btn");
    let p = episode_item_mark();
    assert forall|k: int| 0 < k < p.len() implies #[trigger] p.take(k) != p.skip(p.len() - k) by {
        assert(p.take(k)[0] == '"');
        assert(p.skip(p.len() - k)[0] == p[p.len() - k]);
        if p[p.len() - k] == '"' {
            assert(p.take(k)[1] == ' ');
            assert(p.skip(p.len() - k)[1] == p[p.len() - k + 1]);
        }
    }
}

/// A title page listing two episodes, each entry some text, `<a href=`, the
/// quoted address and the entry mark, yields the two addresses in the order
/// of the entries; the text after the last entry mark is no episode.
pub proof fn lemma_episode_list_of_two(
    text0: Seq<char>,
    link0: Seq<char>,
    text1: Seq<char>,
    link1: Seq<char>,
    tail: Seq<char>,
)
    requires
        !occurs_in(text0 + href_mark() + link0, episode_item_mark()),
        !occurs_in(text1 + href_mark() + link1, episode_item_mark()),
        !occurs_in(tail, episode_item_mark()),
        !occurs_in(link0, href_mark()),
        !occurs_in(link1, href_mark()),
        drop_bytes(link0, 1) is Some,
        drop_bytes(link1, 1) is Some,
    ensures
        ({
            let page = text0 + href_mark() + link0 + episode_item_mark() + text1 + href_mark() + link1
                + episode_item_mark() + tail;
            &&& episode_list_is_readable(page)
            &&& episode_list(page) == seq![drop_bytes(link0, 1).unwrap(), drop_bytes(link1, 1).unwrap()]
        }),
{
    lemma_episode_item_mark_borderless();
    lemma_href_mark_borderless();
    let e0 = text0 + href_mark() + link0;
    let e1 = text1 + href_mark() + link1;
    let page = text0 + href_mark() + link0 + episode_item_mark() + text1 + href_mark() + link1
        + episode_item_mark() + tail;
    assert(page =~= e0 + episode_item_mark() + (e1 + episode_item_mark() + tail));
    lemma_split_after_first(e0, episode_item_mark(), e1 + episode_item_mark() + tail);
    lemma_split_after_first(e1, episode_item_mark(), tail);
    lemma_split_free(tail, episode_item_mark());
    assert(split(page, episode_item_mark()) =~= seq![e0, e1, tail]);
    lemma_last_piece_after(text0, href_mark(), link0);
    lemma_last_piece_after(text1, href_mark(), link1);
    assert(episode_list(page) =~= seq![drop_bytes(link0, 1).unwrap(), drop_bytes(link1, 1).unwrap()]);
}

/// An episode list that [`episode_links`] reads without failing.
pub open spec fn episode_list_is_readable(page: Seq<char>) -> bool {
    let entries = split(page, episode_item_mark());
    forall|i: int| 0 <= i < entries.len() - 1 ==> (#[trigger] episode_link(entries[i])) is Some
}

/// The addresses of the episodes of a title's page, one for each entry
/// mark, in order.
pub open spec fn episode_list(page: Seq<char>) -> Seq<Seq<char>> {
    let entries = split(page, episode_item_mark());
    Seq::new((entries.len() - 1) as nat, |i: int| episode_link(entries[i]).unwrap())
}

/// The texts of a sequence of strings.
pub open spec fn string_views(v: Seq<String>) -> Seq<Seq<char>> {
    v.map_values(|s: String| s@)
}

fn episode_item_chars() -> (r: Vec<char>)
    ensures
        r@ == episode_item_mark(),
        r@.len() > 0,
{
    proof {
        reveal_strlit("\" class=\"short-btn");
    }
    chars_of("\" class=\"short-btn")
}

fn href_chars() -> (r: Vec<char>)
    ensures
        r@ == href_mark(),
        r@.len() > 0,
{
    proof {
        reveal_strlit("<a href=");
    }
    chars_of("<a href=")
}

/// Whether [`episode_links`] can read `page`.
pub fn episode_list_readable(page: &str) -> (r: bool)
    ensures
        r == episode_list_is_readable(page@),
{
    let text = chars_of(page);
    let entries = split_by(text.as_slice(), episode_item_chars().as_slice());
    let href = href_chars();
    proof {
        lemma_split_nonempty(page@, episode_item_mark());
    }
    let count = entries.len() - 1;
    let mut i: usize = 0;
    while i < count
        invariant
            count + 1 == entries@.len(),
            i <= count,
            href@ == href_mark(),
            href@.len() > 0,
            char_vecs(entries@) == split(page@, episode_item_mark()),
            forall|j: int| 0 <= j < i ==> (#[trigger] episode_link(char_vecs(entries@)[j])) is Some,
        decreases count - i,
    {
        assert(entries@[i as int]@ == char_vecs(entries@)[i as int]);
        let tail = after_last(entries[i].as_slice(), href.as_slice());
        if after_bytes(tail.as_slice(), 1).is_none() {
            assert(episode_link(char_vecs(entries@)[i as int]) is None);
            return false;
        }
        i = i + 1;
    }
    true
}

/// The site-relative addresses of the episodes listed on a title's page:
/// for every entry but the text after the last entry mark, the text after
/// the entry's last `<a href=`, without its opening quote.
pub fn episode_links(page: &str) -> (r: Vec<String>)
    requires
        episode_list_is_readable(page@),
    ensures
        string_views(r@) == episode_list(page@),
{
    let text = chars_of(page);
    let entries = split_by(text.as_slice(), episode_item_chars().as_slice());
    let href = href_chars();
    proof {
        lemma_split_nonempty(page@, episode_item_mark());
    }
    let count = entries.len() - 1;
    let ghost spec_list = episode_list(page@);
    let mut links: Vec<String> = Vec::new();
    let mut i: usize = 0;
    while i < count
        invariant
            count + 1 == entries@.len(),
            i <= count,
            href@ == href_mark(),
            href@.len() > 0,
            char_vecs(entries@) == split(page@, episode_item_mark()),
            episode_list_is_readable(page@),
            spec_list == episode_list(page@),
            string_views(links@) == spec_list.take(i as int),
        decreases count - i,
    {
        assert(entries@[i as int]@ == char_vecs(entries@)[i as int]);
        assert(episode_link(split(page@, episode_item_mark())[i as int]) is Some);
        let tail = after_last(entries[i].as_slice(), href.as_slice());
        let link = match after_bytes(tail.as_slice(), 1) {
            Some(v) => v,
            None => Vec::new(),
        };
        let link = string_of(link.as_slice());
        assert(link@ == spec_list[i as int]);
        let ghost before = links@;
        links.push(link);
        assert(string_views(links@) =~= string_views(before).push(spec_list[i as int]));
        i = i + 1;
        assert(string_views(links@) =~= spec_list.take(i as int));
    }
    assert(spec_list.take(count as int) =~= spec_list);
    links
}


/// The address of an episode's page: the site's address without the final
/// slash, then the site-relative address.
pub open spec fn episode_page_address(link: Seq<char>) -> Seq<char> {
    "https://jut.su"@ + link
}

/// The address of the page of the episode with the site-relative address
/// `link`.
pub fn episode_page_url(link: &str) -> (r: String)
    ensures
        r@ == episode_page_address(link@),
{
    let mut address = chars_of("https://jut.su");
    push_all(&mut address, chars_of(link).as_slice());
    string_of(address.as_slice())
}

/// What an episode page shows instead of the video where the site refuses
/// access.
pub open spec fn blocked_mark() -> Seq<char> {
    "<div class=\"block_video_text\""@
}

/// What precedes the name of an episode.
pub open spec fn name_tag_mark() -> Seq<char> {
    "<span itemprop=\"name\""@
}

/// What closes the span of the episode name.
pub open spec fn span_close_mark() -> Seq<char> {
    "</span>"@
}

/// What closes the icon before the episode name.
pub open spec fn icon_close_mark() -> Seq<char> {
    "</i>"@
}

/// What precedes the address of each video source.
pub open spec fn source_mark() -> Seq<char> {
    "<source src=\""@
}

/// What follows the address of a video source.
pub open spec fn mp4_mark() -> Seq<char> {
    "\" type=\"video/mp4\""@
}

/// The attribute that marks the source of the given resolution.
pub open spec fn resolution_mark(q: Quality) -> Seq<char> {
    "res=\""@ + q.resolution() + "\""@
}

/// The page names its episode.
pub open spec fn has_episode_name(html: Seq<char>) -> bool {
    split(html, name_tag_mark()).len() >= 2
}

/// The name of the episode: in the text after the first name tag, the part
/// before `</span>`, and of that the part after the last `</i>`.
pub open spec fn episode_name(html: Seq<char>) -> Seq<char> {
    last_piece(first_piece(split(html, name_tag_mark())[1], span_close_mark()), icon_close_mark())
}

/// 1 if the page offers the resolution of `q`, else 0.
pub open spec fn offered(html: Seq<char>, q: Quality) -> nat {
    if occurs_in(html, resolution_mark(q)) {
        1
    } else {
        0
    }
}

/// Which of the pieces between `<source src="` marks holds the source of
/// `q`: the page lists its sources highest resolution first, so it is 1
/// plus the number of higher resolutions that the page offers.
pub open spec fn source_index(html: Seq<char>, q: Quality) -> nat {
    1 + (if q.rank() > 0 { offered(html, Quality::Ultra) } else { 0 })
      + (if q.rank() > 1 { offered(html, Quality::High) } else { 0 })
      + (if q.rank() > 2 { offered(html, Quality::Medium) } else { 0 })
}

/// The resolutions above that of `q`, highest first.
pub open spec fn resolutions_above(q: Quality) -> Seq<Quality> {
    seq![Quality::Ultra, Quality::High, Quality::Medium].take(q.rank() as int)
}

/// The source of a resolution is read from the piece whose number is one
/// more than the count of the higher resolutions that the page actually
/// offers: a higher resolution that the page lacks is not counted, and the
/// lower ones play no part.
pub proof fn lemma_source_index_counts_offered(html: Seq<char>, q: Quality)
    requires
        q != Quality::Error,
    ensures
        source_index(html, q) == 1 + resolutions_above(q).filter(
            |h: Quality| occurs_in(html, resolution_mark(h)),
        ).len(),
{
    reveal_with_fuel(Seq::<_>::filter, 4);
    let all = seq![Quality::Ultra, Quality::High, Quality::Medium];
    match q {
        Quality::Ultra => {
            assert(resolutions_above(q) =~= Seq::<Quality>::empty());
        },
        Quality::High => {
            assert(resolutions_above(q) =~= seq![Quality::Ultra]);
            assert(resolutions_above(q).drop_last() =~= Seq::<Quality>::empty());
        },
        Quality::Medium => {
            assert(resolutions_above(q) =~= seq![Quality::Ultra, Quality::High]);
            assert(resolutions_above(q).drop_last() =~= seq![Quality::Ultra]);
            assert(resolutions_above(q).drop_last().drop_last() =~= Seq::<Quality>::empty());
        },
        _ => {
            assert(resolutions_above(q) =~= all);
            assert(all.drop_last() =~= seq![Quality::Ultra, Quality::High]);
            assert(all.drop_last().drop_last() =~= seq![Quality::Ultra]);
            assert(all.drop_last().drop_last().drop_last() =~= Seq::<Quality>::empty());
        },
    }
}

proof fn lemma_source_mark_borderless()
    ensures
        source_mark().len() > 0,
        borderless(source_mark()),
        mp4_mark().len() > 0,
{
    reveal_strlit("<source src=\"");
    reveal_strlit("\" type=\"video/mp4\"");
    let p = source_mark();
    assert forall|k: int| 0 < k < p.len() implies #[trigger] p.take(k) != p.skip(p.len() - k) by {
        assert(p.take(k)[0] == '<');
        assert(p.skip(p.len() - k)[0] == p[p.len() - k]);
    }
}

/// On a page with two video sources, each an address followed by
/// `" type="video/mp4"`, the address read for a resolution the page offers is
/// that of the first source when the page offers no higher resolution, and
/// that of the second when it offers exactly one.
pub proof fn lemma_episode_page_two_sources(
    head: Seq<char>,
    first: Seq<char>,
    first_rest: Seq<char>,
    second: Seq<char>,
    second_rest: Seq<char>,
    q: Quality,
)
    requires
        q != Quality::Error,
        !occurs_in(head, source_mark()),
        !occurs_in(first + mp4_mark() + first_rest, source_mark()),
        !occurs_in(second + mp4_mark() + second_rest, source_mark()),
        !occurs_in((first + mp4_mark()).drop_last(), mp4_mark()),
        !occurs_in((second + mp4_mark()).drop_last(), mp4_mark()),
        ({
            let page = head + source_mark() + first + mp4_mark() + first_rest + source_mark() + second + mp4_mark()
                + second_rest;
            &&& !occurs_in(page, blocked_mark())
            &&& occurs_in(page, resolution_mark(q))
            &&& resolutions_above(q).filter(|h: Quality| occurs_in(page, resolution_mark(h))).len() <= 1
        }),
    ensures
        ({
            let page = head + source_mark() + first + mp4_mark() + first_rest + source_mark() + second + mp4_mark()
                + second_rest;
            episode_page(page, q) == PageView::Found(
                EpisodeView {
                    url: if resolutions_above(q).filter(|h: Quality| occurs_in(page, resolution_mark(h))).len()
                        == 0 {
                        first
                    } else {
                        second
                    },
                    name: episode_name(page),
                },
            )
        }),
{
    lemma_source_mark_borderless();
    let one = first + mp4_mark() + first_rest;
    let two = second + mp4_mark() + second_rest;
    let page = head + source_mark() + first + mp4_mark() + first_rest + source_mark() + second + mp4_mark()
        + second_rest;
    assert(page =~= head + source_mark() + (one + source_mark() + two));
    lemma_split_after_first(head, source_mark(), one + source_mark() + two);
    lemma_split_after_first(one, source_mark(), two);
    lemma_split_free(two, source_mark());
    assert(split(page, source_mark()) =~= seq![head, one, two]);
    lemma_source_index_counts_offered(page, q);
    lemma_split_at_first(first, mp4_mark(), first_rest);
    lemma_split_at_first(second, mp4_mark(), second_rest);
}

/// What an episode page yields for a resolution.
pub enum PageView {
    /// The site refused access; nothing further is read.
    Blocked,
    /// The page lacks the resolution; the episode's name.
    Unavailable(Seq<char>),
    /// The episode, with the address of the video of the resolution.
    Found(EpisodeView),
}

/// What an episode page gives for the resolution `q`.
pub open spec fn episode_page(html: Seq<char>, q: Quality) -> PageView {
    if occurs_in(html, blocked_mark()) {
        PageView::Blocked
    } else if !occurs_in(html, resolution_mark(q)) {
        PageView::Unavailable(episode_name(html))
    } else {
        PageView::Found(
            EpisodeView {
                url: first_piece(split(html, source_mark())[source_index(html, q) as int], mp4_mark()),
                name: episode_name(html),
            },
        )
    }
}

/// An episode page that [`read_episode_page`] reads without failing: the
/// site refused access, or the page names its episode and, where it offers
/// the resolution, has a source for it.
pub open spec fn episode_page_is_readable(html: Seq<char>, q: Quality) -> bool {
    ||| occurs_in(html, blocked_mark())
    ||| {
        &&& has_episode_name(html)
        &&& occurs_in(html, resolution_mark(q)) ==> source_index(html, q) < split(html, source_mark()).len()
    }
}

/// What an episode page yields for a resolution.
pub enum EpisodePage {
    /// The site refused access.
    Blocked,
    /// The page lacks the resolution.
    Unavailable { name: String },
    /// The episode, with the address of its video in the resolution.
    Found(Episode),
}

impl View for EpisodePage {
    type V = PageView;

    open spec fn view(&self) -> PageView {
        match self {
            EpisodePage::Blocked => PageView::Blocked,
            EpisodePage::Unavailable { name } => PageView::Unavailable(name@),
            EpisodePage::Found(e) => PageView::Found(e@),
        }
    }
}

fn name_tag_chars() -> (r: Vec<char>)
    ensures
        r@ == name_tag_mark(),
        r@.len() > 0,
{
    proof {
        reveal_strlit("<span itemprop=\"name\"");
    }
    chars_of("<span itemprop=\"name\"")
}

fn span_close_chars() -> (r: Vec<char>)
    ensures
        r@ == span_close_mark(),
        r@.len() > 0,
{
    proof {
        reveal_strlit("</span>");
    }
    chars_of("</span>")
}

fn icon_close_chars() -> (r: Vec<char>)
    ensures
        r@ == icon_close_mark(),
        r@.len() > 0,
{
    proof {
        reveal_strlit("</i>");
    }
    chars_of("</i>")
}

fn source_chars() -> (r: Vec<char>)
    ensures
        r@ == source_mark(),
        r@.len() > 0,
{
    proof {
        reveal_strlit("<source src=\"");
    }
    chars_of("<source src=\"")
}

fn mp4_chars() -> (r: Vec<char>)
    ensures
        r@ == mp4_mark(),
        r@.len() > 0,
{
    proof {
        reveal_strlit("\" type=\"video/mp4\"");
    }
    chars_of("\" type=\"video/mp4\"")
}

fn blocked_chars() -> (r: Vec<char>)
    ensures
        r@ == blocked_mark(),
{
    chars_of("<div class=\"block_video_text\"")
}

fn resolution_chars(q: Quality) -> (r: Vec<char>)
    requires
        q != Quality::Error,
    ensures
        r@ == resolution_mark(q),
{
    let mut r = chars_of("res=\"");
    let digits = match q {
        Quality::Ultra => chars_of("1080"),
        Quality::High => chars_of("720"),
        Quality::Medium => chars_of("480"),
        _ => chars_of("360"),
    };
    push_all(&mut r, digits.as_slice());
    push_all(&mut r, chars_of("\"").as_slice());
    r
}

fn name_of(text: &[char]) -> (r: Vec<char>)
    requires
        has_episode_name(text@),
    ensures
        r@ == episode_name(text@),
{
    let tagged = split_by(text, name_tag_chars().as_slice());
    assert(tagged@[1]@ == char_vecs(tagged@)[1]);
    let span = before_first(tagged[1].as_slice(), span_close_chars().as_slice());
    after_last(span.as_slice(), icon_close_chars().as_slice())
}

/// The name of the episode that an episode page shows.
pub fn get_episode_name(html: &String) -> (r: String)
    requires
        has_episode_name(html@),
    ensures
        r@ == episode_name(html@),
{
    let text = chars_of(html.as_str());
    string_of(name_of(text.as_slice()).as_slice())
}

/// Whether the page offers the resolution of `q`, as 0 or 1.
fn offered_count(text: &[char], q: Quality) -> (r: usize)
    requires
        q != Quality::Error,
    ensures
        r == offered(text@, q),
{
    if contains(text, resolution_chars(q).as_slice()) {
        1
    } else {
        0
    }
}

/// Whether [`read_episode_page`] can read `html` for the resolution `quality`.
pub fn episode_page_readable(html: &str, quality: Quality) -> (r: bool)
    requires
        quality != Quality::Error,
    ensures
        r == episode_page_is_readable(html@, quality),
{
    let text = chars_of(html);
    if contains(text.as_slice(), blocked_chars().as_slice()) {
        return true;
    }
    let tagged = split_by(text.as_slice(), name_tag_chars().as_slice());
    if tagged.len() < 2 {
        return false;
    }
    if !contains(text.as_slice(), resolution_chars(quality).as_slice()) {
        return true;
    }
    let index = source_position(text.as_slice(), quality);
    let sources = split_by(text.as_slice(), source_chars().as_slice());
    index < sources.len()
}

/// The index of the piece after `<source src="` that holds the source of `q`.
fn source_position(text: &[char], q: Quality) -> (r: usize)
    requires
        q != Quality::Error,
    ensures
        r == source_index(text@, q),
{
    let mut index: usize = 1;
    if q != Quality::Ultra {
        index = index + offered_count(text, Quality::Ultra);
    }
    if q == Quality::Medium || q == Quality::Low {
        index = index + offered_count(text, Quality::High);
    }
    if q == Quality::Low {
        index = index + offered_count(text, Quality::Medium);
    }
    index
}

/// Reads an episode page for the resolution `quality`: whether the site
/// refused access, else the episode's name and, where the page offers the
/// resolution, the address of its video.
pub fn read_episode_page(html: &str, quality: Quality) -> (r: EpisodePage)
    requires
        quality != Quality::Error,
        episode_page_is_readable(html@, quality),
    ensures
        r@ == episode_page(html@, quality),
{
    let text = chars_of(html);
    if contains(text.as_slice(), blocked_chars().as_slice()) {
        return EpisodePage::Blocked;
    }
    let name = string_of(name_of(text.as_slice()).as_slice());
    if !contains(text.as_slice(), resolution_chars(quality).as_slice()) {
        return EpisodePage::Unavailable { name };
    }
    let index = source_position(text.as_slice(), quality);
    let sources = split_by(text.as_slice(), source_chars().as_slice());
    assert(sources@[index as int]@ == char_vecs(sources@)[index as int]);
    let url = before_first(sources[index].as_slice(), mp4_chars().as_slice());
    EpisodePage::Found(Episode { url: string_of(url.as_slice()), name })
}

/// Reads an episode page for 1080p.
pub fn get_1080(html: &str) -> (r: EpisodePage)
    requires
        episode_page_is_readable(html@, Quality::Ultra),
    ensures
        r@ == episode_page(html@, Quality::Ultra),
{
    read_episode_page(html, Quality::Ultra)
}

/// Reads an episode page for 720p.
pub fn get_720(html: &str) -> (r: EpisodePage)
    requires
        episode_page_is_readable(html@, Quality::High),
    ensures
        r@ == episode_page(html@, Quality::High),
{
    read_episode_page(html, Quality::High)
}

/// Reads an episode page for 480p.
pub fn get_480(html: &str) -> (r: EpisodePage)
    requires
        episode_page_is_readable(html@, Quality::Medium),
    ensures
        r@ == episode_page(html@, Quality::Medium),
{
    read_episode_page(html, Quality::Medium)
}

/// Reads an episode page for 360p.
pub fn get_360(html: &str) -> (r: EpisodePage)
    requires
        episode_page_is_readable(html@, Quality::Low),
    ensures
        r@ == episode_page(html@, Quality::Low),
{
    read_episode_page(html, Quality::Low)
}

} // verus!
