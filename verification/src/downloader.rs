//! Download choices: video quality, download mode, and the plan that
//! spreads the chosen episodes over worker threads.

use vstd::prelude::*;
use crate::input::{answer_is, answered};
use crate::text::{chars_of, push_all, string_of};

verus! {

/// How many episodes to download.
#[derive(Debug, Clone, Copy, PartialEq, Eq, Structural)]
pub enum DownloadMode {
    One,
    All,
    Range,
    Error,
}

/// The video resolution to download.
#[derive(Debug, Clone, Copy, PartialEq, Eq, Structural)]
pub enum Quality {
    Ultra,
    High,
    Medium,
    Low,
    Error,
}

impl DownloadMode {
    /// The mode that an answer to the mode menu selects: "1" one episode,
    /// "2" a range, "3" all, anything else `Error` (surrounding white space
    /// ignored).
    pub open spec fn chosen(answer: Seq<char>) -> DownloadMode {
        if answer_is(answer, "1"@) {
            DownloadMode::One
        } else if answer_is(answer, "2"@) {
            DownloadMode::Range
        } else if answer_is(answer, "3"@) {
            DownloadMode::All
        } else {
            DownloadMode::Error
        }
    }

    /// Reads an answer to the mode menu.
    pub fn from_choice(answer: &str) -> (r: DownloadMode)
        ensures
            r == DownloadMode::chosen(answer@),
    {
        if answered(answer, "1") {
            DownloadMode::One
        } else if answered(answer, "2") {
            DownloadMode::Range
        } else if answered(answer, "3") {
            DownloadMode::All
        } else {
            DownloadMode::Error
        }
    }
}

impl Quality {
    /// The resolution that an answer to the quality menu selects: "1"
    /// 1080p, "2" 720p, "3" 480p, "4" 360p, anything else `Error`
    /// (surrounding white space ignored).
    pub open spec fn chosen(answer: Seq<char>) -> Quality {
        if answer_is(answer, "1"@) {
            Quality::Ultra
        } else if answer_is(answer, "2"@) {
            Quality::High
        } else if answer_is(answer, "3"@) {
            Quality::Medium
        } else if answer_is(answer, "4"@) {
            Quality::Low
        } else {
            Quality::Error
        }
    }

    /// The resolution's name as the site writes it ("1080", "720", "480",
    /// "360"; empty for `Error`).
    pub fn label(&self) -> (r: &'static str)
        ensures
            r@ == self.resolution(),
    {
        match self {
            Quality::Ultra => "1080",
            Quality::High => "720",
            Quality::Medium => "480",
            Quality::Low => "360",
            Quality::Error => "",
        }
    }

    /// Reads an answer to the quality menu.
    pub fn from_choice(answer: &str) -> (r: Quality)
        ensures
            r == Quality::chosen(answer@),
    {
        if answered(answer, "1") {
            Quality::Ultra
        } else if answered(answer, "2") {
            Quality::High
        } else if answered(answer, "3") {
            Quality::Medium
        } else if answered(answer, "4") {
            Quality::Low
        } else {
            Quality::Error
        }
    }

    /// Position among the resolutions that an episode page lists, highest
    /// first: 1080p is 0, 720p is 1, 480p is 2, 360p is 3.
    pub open spec fn rank(self) -> nat {
        match self {
            Quality::Ultra => 0,
            Quality::High => 1,
            Quality::Medium => 2,
            Quality::Low => 3,
            Quality::Error => 4,
        }
    }

    /// The resolution's name as the site writes it.
    pub open spec fn resolution(self) -> Seq<char> {
        match self {
            Quality::Ultra => "1080"@,
            Quality::High => "720"@,
            Quality::Medium => "480"@,
            Quality::Low => "360"@,
            Quality::Error => ""@,
        }
    }
}


/// The file that an episode is saved to: its name with ".mp4" appended.
pub open spec fn file_for(name: Seq<char>) -> Seq<char> {
    name + ".mp4"@
}

/// The file to save the episode named `name` to.
pub fn download_path(name: &str) -> (r: String)
    ensures
        r@ == file_for(name@),
{
    let mut path = chars_of(name);
    push_all(&mut path, chars_of(".mp4").as_slice());
    string_of(path.as_slice())
}

/// The number of episodes each worker downloads: `count / threads`
/// rounded up, for a positive `count`.
pub open spec fn chunk_size(count: nat, threads: nat) -> nat
    recommends
        count > 0,
        threads > 0,
{
    ((count - 1) / threads as int + 1) as nat
}

/// The shares of the episodes `start..count` cut into chunks of `size`, in
/// order: each a start and an end (exclusive), the last one ending at
/// `count`.
pub open spec fn chunks_from(start: nat, count: nat, size: nat) -> Seq<(nat, nat)>
    decreases count - start,
{
    if start >= count || size == 0 {
        Seq::empty()
    } else {
        let end = if start + size < count { start + size } else { count };
        seq![(start, end)] + chunks_from(end, count, size)
    }
}

/// The ranges as pairs of naturals.
pub open spec fn range_views(v: Seq<(usize, usize)>) -> Seq<(nat, nat)> {
    v.map_values(|r: (usize, usize)| (r.0 as nat, r.1 as nat))
}

/// Spreads `count` episodes over at most `threads` workers, as the download
/// does: chunks of `count / threads` episodes rounded up, cut in order, the
/// last one shorter where the division leaves a rest. Each pair is the
/// start and end (exclusive) of one worker's episodes.
pub fn start_downloading(count: usize, threads: usize) -> (r: Vec<(usize, usize)>)
    requires
        count > 0,
        threads > 0,
    ensures
        range_views(r@) == chunks_from(0, count as nat, chunk_size(count as nat, threads as nat)),
{
    let size = (count - 1) / threads + 1;
    let ghost all = chunks_from(0, count as nat, size as nat);
    let mut ranges: Vec<(usize, usize)> = Vec::new();
    let mut start: usize = 0;
    while start < count
        invariant
            0 < size,
            start <= count,
            all == chunks_from(0, count as nat, size as nat),
            range_views(ranges@) + chunks_from(start as nat, count as nat, size as nat) == all,
        decreases count - start,
    {
        let end = if count - start > size { start + size } else { count };
        let ghost before = ranges@;
        ranges.push((start, end));
        assert(range_views(ranges@) =~= range_views(before) + seq![(start as nat, end as nat)]);
        assert(chunks_from(start as nat, count as nat, size as nat) == seq![(start as nat, end as nat)] + chunks_from(end as nat, count as nat, size as nat));
        start = end;
        assert(range_views(ranges@) + chunks_from(start as nat, count as nat, size as nat) =~= all);
    }
    assert(range_views(ranges@) =~= all);
    ranges
}


/// The shape of the shares of `start..count`: their number, and that they
/// follow each other without gap or overlap from `start` to `count`, each
/// non-empty and of exactly `size` episodes but the last, which holds at most
/// `size`.
pub proof fn lemma_chunks_shape(start: nat, count: nat, size: nat)
    requires
        size > 0,
        start < count,
    ensures
        chunks_from(start, count, size).len() == (count - start - 1) / size as int + 1,
        chunks_from(start, count, size)[0].0 == start,
        chunks_from(start, count, size).last().1 == count,
        forall|i: int|
            #![trigger chunks_from(start, count, size)[i]]
            0 <= i < chunks_from(start, count, size).len() - 1 ==> chunks_from(start, count, size)[i].1
                == chunks_from(start, count, size)[i + 1].0 && chunks_from(start, count, size)[i].1
                == chunks_from(start, count, size)[i].0 + size,
        forall|i: int|
            #![trigger chunks_from(start, count, size)[i]]
            0 <= i < chunks_from(start, count, size).len() ==> chunks_from(start, count, size)[i].0
                < chunks_from(start, count, size)[i].1 <= chunks_from(start, count, size)[i].0 + size,
    decreases count - start,
{
    let c = chunks_from(start, count, size);
    let end = if start + size < count { start + size } else { count };
    if end < count {
        let rest = chunks_from(end, count, size);
        lemma_chunks_shape(end, count, size);
        assert(c == seq![(start, end)] + rest);
        let x = count - start - 1;
        vstd::arithmetic::div_mod::lemma_div_plus_one(x - size, size as int);
        assert(size + (x - size) == x);
        assert forall|i: int| #![trigger c[i]] 0 <= i < c.len() - 1 implies c[i].1 == c[i + 1].0 && c[i].1 == c[i].0 + size by {
            if i > 0 {
                assert(c[i] == rest[i - 1]);
                assert(c[i + 1] == rest[i]);
            }
        }
        assert forall|i: int| #![trigger c[i]] 0 <= i < c.len() implies c[i].0 < c[i].1 <= c[i].0 + size by {
            if i > 0 {
                assert(c[i] == rest[i - 1]);
            }
        }
    } else {
        assert(chunks_from(end, count, size) =~= Seq::<(nat, nat)>::empty());
        assert(c =~= seq![(start, end)]);
        vstd::arithmetic::div_mod::lemma_basic_div((count - start - 1) as int, size as int);
    }
}

/// The download plan hands every episode to exactly one worker, in order,
/// and needs no more workers than asked for: the shares run from 0 to
/// `count` without gap or overlap, each non-empty and at most
/// `count / threads` (rounded up) long, and there are at most `threads` of
/// them.
pub proof fn lemma_download_plan(count: nat, threads: nat)
    requires
        count > 0,
        threads > 0,
    ensures
        ({
            let size = chunk_size(count, threads);
            let c = chunks_from(0, count, size);
            &&& 0 < c.len() <= threads
            &&& c[0].0 == 0
            &&& c.last().1 == count
            &&& forall|i: int| #![trigger c[i]] 0 <= i < c.len() - 1 ==> c[i].1 == c[i + 1].0
            &&& forall|i: int| #![trigger c[i]] 0 <= i < c.len() ==> c[i].0 < c[i].1 <= c[i].0 + size
        }),
{
    let size = chunk_size(count, threads);
    let q = (count - 1) / threads as int;
    assert(size == q + 1);
    lemma_chunks_shape(0, count, size);
    vstd::arithmetic::div_mod::lemma_fundamental_div_mod((count - 1) as int, threads as int);
    vstd::arithmetic::div_mod::lemma_remainder((count - 1) as int, threads as int);
    assert((count - 1) < threads * size) by (nonlinear_arith)
        requires
            count - 1 == threads * q + (count - 1) % (threads as int),
            (count - 1) % (threads as int) < threads,
            size == q + 1,
    {
    }
    assert(size * threads == threads * size) by (nonlinear_arith);
    vstd::arithmetic::div_mod::lemma_multiply_divide_lt((count - 1) as int, size as int, threads as int);
}

} // verus!
