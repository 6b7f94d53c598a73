//! The decisions of the two fetch loops: walking the catalogue pages until
//! the site answers "empty", and reading episode pages until the site
//! refuses access. The caller performs each request and hands the answer in.

use vstd::prelude::*;
use vstd::string::StringExecFns;
use crate::downloader::Quality;
use crate::parser::{
    copy_episodes, episode_links, episode_list, episode_list_is_readable, episode_page,
    episode_page_is_readable, episode_views, string_views, read_episode_page, Episode,
    EpisodePage, EpisodeView, PageView,
};
use crate::text::{chars_of, same_chars};

verus! {

/// The concatenation of `pages`, in order.
pub open spec fn joined(pages: Seq<Seq<char>>) -> Seq<char>
    decreases pages.len(),
{
    if pages.len() == 0 {
        Seq::empty()
    } else {
        joined(pages.drop_last()) + pages.last()
    }
}

/// The text of consecutive runs of pages is the text of the first run
/// followed by that of the second, and a single page contributes its own
/// text: the kept pages are joined in the order they came.
pub proof fn lemma_joined_concat(first: Seq<Seq<char>>, second: Seq<Seq<char>>, page: Seq<char>)
    ensures
        joined(first + second) == joined(first) + joined(second),
        joined(seq![page]) == page,
    decreases second.len(),
{
    let one = seq![page];
    assert(one.drop_last() =~= Seq::<Seq<char>>::empty());
    assert(one.last() == page);
    assert(joined(one.drop_last()) == Seq::<char>::empty());
    assert(joined(one) == joined(one.drop_last()) + one.last());
    assert(Seq::<char>::empty() + page =~= page);
    if second.len() == 0 {
        assert(first + second =~= first);
        assert(joined(first) + joined(second) =~= joined(first));
    } else {
        lemma_joined_concat(first, second.drop_last(), page);
        assert((first + second).drop_last() =~= first + second.drop_last());
        assert((first + second).last() == second.last());
        assert(joined(first) + (joined(second.drop_last()) + second.last()) =~= (joined(first) + joined(
            second.drop_last(),
        )) + second.last());
    }
}

/// The answer with which the site ends the catalogue.
pub open spec fn end_of_catalogue() -> Seq<char> {
    "empty"@
}

/// The walk over the catalogue pages. The first page comes from a plain
/// request; page `n` for `n >= 2` is asked for by number, until the site
/// answers "empty". The text of every page before that answer is kept,
/// concatenated in order.
pub struct SiteCrawl {
    data: String,
    next_page: u64,
    finished: bool,
    pages: Ghost<Seq<Seq<char>>>,
}

impl SiteCrawl {
    #[verifier::type_invariant]
    spec fn wf(self) -> bool {
        &&& self.pages@.len() >= 1
        &&& self.data@ == joined(self.pages@)
        &&& self.next_page == self.pages@.len() + 1
    }

    /// The pages kept so far, the plain first page first.
    pub closed spec fn pages(self) -> Seq<Seq<char>> {
        self.pages@
    }

    /// The site has answered "empty".
    pub closed spec fn finished(self) -> bool {
        self.finished
    }

    /// Starts the walk with the text of the first catalogue page.
    pub fn new(first_page: String) -> (r: SiteCrawl)
        ensures
            r.pages() == seq![first_page@],
            !r.finished(),
    {
        let ghost pages = seq![first_page@];
        assert(joined(pages) =~= joined(pages.drop_last()) + first_page@);
        assert(pages.drop_last() =~= Seq::<Seq<char>>::empty());
        SiteCrawl { data: first_page, next_page: 2, finished: false, pages: Ghost(pages) }
    }

    /// The number of the page to ask for next.
    pub fn next_page(&self) -> (r: u64)
        ensures
            r == self.pages().len() + 1,
    {
        proof {
            use_type_invariant(self);
        }
        self.next_page
    }

    /// Whether the site has answered "empty".
    pub fn is_finished(&self) -> (r: bool)
        ensures
            r == self.finished(),
    {
        self.finished
    }

    /// The number of pages kept, which is the number of the last page that
    /// held titles.
    pub fn page_count(&self) -> (r: u64)
        ensures
            r == self.pages().len(),
    {
        proof {
            use_type_invariant(self);
        }
        self.next_page - 1
    }

    /// Takes the site's answer for the page [`Self::next_page`]: "empty"
    /// ends the walk; any other text is kept and the next page is due.
    pub fn feed(&mut self, answer: &str)
        requires
            !old(self).finished(),
            old(self).pages().len() + 2 <= u64::MAX,
        ensures
            answer@ == end_of_catalogue() ==> final(self).finished() && final(self).pages() == old(self).pages(),
            answer@ != end_of_catalogue() ==> !final(self).finished() && final(self).pages() == old(self).pages().push(answer@),
    {
        proof {
            use_type_invariant(&*self);
        }
        if same_chars(chars_of(answer).as_slice(), chars_of("empty").as_slice()) {
            self.finished = true;
        } else {
            let ghost pages = self.pages@.push(answer@);
            assert(pages.drop_last() =~= self.pages@);
            let mut data = self.data.clone();
            data.append(answer);
            *self = SiteCrawl {
                data,
                next_page: self.next_page + 1,
                finished: false,
                pages: Ghost(pages),
            };
        }
    }

    /// The concatenated text of the kept pages.
    pub fn into_data(self) -> (r: String)
        ensures
            r@ == joined(self.pages()),
    {
        proof {
            use_type_invariant(&self);
        }
        self.data
    }
}


/// The episodes found on a sequence of episode pages read for `q`, in order.
pub open spec fn found_episodes(pages: Seq<Seq<char>>, q: Quality) -> Seq<EpisodeView>
    decreases pages.len(),
{
    if pages.len() == 0 {
        Seq::empty()
    } else {
        let before = found_episodes(pages.drop_last(), q);
        match episode_page(pages.last(), q) {
            PageView::Found(e) => before.push(e),
            _ => before,
        }
    }
}

/// A single page contributes its episode when it offers the resolution and
/// nothing otherwise.
pub proof fn lemma_found_on_one_page(page: Seq<char>, q: Quality)
    ensures
        found_episodes(seq![page], q) == match episode_page(page, q) {
            PageView::Found(e) => seq![e],
            _ => Seq::<EpisodeView>::empty(),
        },
{
    let one = seq![page];
    assert(one.drop_last() =~= Seq::<Seq<char>>::empty());
    assert(one.last() == page);
    assert(found_episodes(one.drop_last(), q) == Seq::<EpisodeView>::empty());
    match episode_page(page, q) {
        PageView::Found(e) => {
            assert(Seq::<EpisodeView>::empty().push(e) =~= seq![e]);
        },
        _ => {},
    }
}

/// The episodes found on consecutive runs of pages are those of the first
/// run followed by those of the second: the episodes keep the order of
/// their pages.
pub proof fn lemma_found_episodes_concat(first: Seq<Seq<char>>, second: Seq<Seq<char>>, q: Quality)
    ensures
        found_episodes(first + second, q) == found_episodes(first, q) + found_episodes(second, q),
    decreases second.len(),
{
    if second.len() == 0 {
        assert(first + second =~= first);
        assert(found_episodes(first, q) + found_episodes(second, q) =~= found_episodes(first, q));
    } else {
        lemma_found_episodes_concat(first, second.drop_last(), q);
        assert((first + second).drop_last() =~= first + second.drop_last());
        assert((first + second).last() == second.last());
        let a = found_episodes(first, q);
        let b = found_episodes(second.drop_last(), q);
        match episode_page(second.last(), q) {
            PageView::Found(e) => {
                assert(a + b.push(e) =~= (a + b).push(e));
            },
            _ => {},
        }
    }
}

/// None of `pages` is a refusal of access.
pub open spec fn none_blocked(pages: Seq<Seq<char>>, q: Quality) -> bool {
    forall|i: int| 0 <= i < pages.len() ==> !(#[trigger] episode_page(pages[i], q) is Blocked)
}

/// The reading of a title's episode pages in one resolution, one page after
/// another, until the site refuses access. It keeps, in order, the episodes
/// whose page offers the resolution.
pub struct EpisodeCollector {
    quality: Quality,
    episodes: Vec<Episode>,
    finished: bool,
    pages: Ghost<Seq<Seq<char>>>,
}

impl EpisodeCollector {
    #[verifier::type_invariant]
    spec fn wf(self) -> bool {
        &&& self.quality != Quality::Error
        &&& episode_views(self.episodes@) == found_episodes(self.pages@, self.quality)
        &&& self.finished ==> self.pages@.len() > 0 && episode_page(self.pages@.last(), self.quality) is Blocked
        &&& self.finished ==> none_blocked(self.pages@.drop_last(), self.quality)
        &&& !self.finished ==> none_blocked(self.pages@, self.quality)
    }

    /// The resolution read.
    pub closed spec fn quality(self) -> Quality {
        self.quality
    }

    /// The pages read so far, in order.
    pub closed spec fn pages(self) -> Seq<Seq<char>> {
        self.pages@
    }

    /// The site has refused access.
    pub closed spec fn finished(self) -> bool {
        self.finished
    }

    /// Starts reading in the resolution `quality`; there is nothing to read
    /// for `Quality::Error`.
    pub fn new(quality: Quality) -> (r: Option<EpisodeCollector>)
        ensures
            r is None <==> quality == Quality::Error,
            r matches Some(c) ==> c.quality() == quality && c.pages() == Seq::<Seq<char>>::empty() && !c.finished(),
    {
        if quality == Quality::Error {
            return None;
        }
        let episodes: Vec<Episode> = Vec::new();
        assert(episode_views(episodes@) =~= found_episodes(Seq::empty(), quality));
        Some(EpisodeCollector { quality, episodes, finished: false, pages: Ghost(Seq::empty()) })
    }

    /// Whether the site has refused access.
    pub fn is_finished(&self) -> (r: bool)
        ensures
            r == self.finished(),
    {
        self.finished
    }

    /// The resolution read.
    pub fn read_quality(&self) -> (r: Quality)
        ensures
            r == self.quality(),
            r != Quality::Error,
    {
        proof {
            use_type_invariant(self);
        }
        self.quality
    }

    /// Reads the next episode page and tells what it held; a refusal of
    /// access ends the reading.
    pub fn feed(&mut self, html: &str) -> (r: EpisodePage)
        requires
            !old(self).finished(),
            episode_page_is_readable(html@, old(self).quality()),
        ensures
            r@ == episode_page(html@, old(self).quality()),
            final(self).quality() == old(self).quality(),
            final(self).pages() == old(self).pages().push(html@),
            final(self).finished() == (r@ is Blocked),
    {
        proof {
            use_type_invariant(&*self);
        }
        let quality = self.quality;
        let page = read_episode_page(html, quality);
        let ghost pages = self.pages@.push(html@);
        assert(pages.drop_last() =~= self.pages@);
        let mut episodes = copy_episodes(&self.episodes);
        let finished = match &page {
            EpisodePage::Blocked => true,
            EpisodePage::Unavailable { .. } => false,
            EpisodePage::Found(e) => {
                let ghost before = episodes@;
                episodes.push(e.duplicate());
                assert(episode_views(episodes@) =~= episode_views(before).push(e@));
                false
            },
        };
        proof {
            if !finished {
                assert forall|i: int| 0 <= i < pages.len() implies !(#[trigger] episode_page(pages[i], quality) is Blocked) by {
                    if i < pages.len() - 1 {
                        assert(pages[i] == self.pages@[i]);
                    }
                }
            }
        }
        *self = EpisodeCollector { quality, episodes, finished, pages: Ghost(pages) };
        page
    }

    /// The episodes found, in the order of their pages.
    pub fn into_episodes(self) -> (r: Vec<Episode>)
        ensures
            episode_views(r@) == found_episodes(self.pages(), self.quality()),
    {
        proof {
            use_type_invariant(&self);
        }
        self.episodes
    }
}


/// Prepares the reading of a title's episodes: the site-relative addresses
/// of its episode pages, read out of the title's page, and the reading in
/// the resolution `quality`, which is `None` for `Quality::Error` (nothing
/// is to be read then).
pub fn get_episodes(page: &str, quality: Quality) -> (r: (Vec<String>, Option<EpisodeCollector>))
    requires
        episode_list_is_readable(page@),
    ensures
        string_views(r.0@) == episode_list(page@),
        r.1 is None <==> quality == Quality::Error,
        r.1 matches Some(c) ==> c.quality() == quality && c.pages() == Seq::<Seq<char>>::empty() && !c.finished(),
{
    let links = episode_links(page);
    (links, EpisodeCollector::new(quality))
}

} // verus!
