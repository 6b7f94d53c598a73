//! Character-level text operations: pattern search, splitting in the manner
//! of `str::split`, trimming and byte-offset slicing, each with a spec.

use vstd::prelude::*;

verus! {

/// `p` occurs in `s` starting at index `i`.
pub open spec fn matches_at(s: Seq<char>, p: Seq<char>, i: int) -> bool {
    0 <= i && i + p.len() <= s.len() && s.subrange(i, i + p.len()) == p
}

/// Index of the leftmost occurrence of `p` in `s` that starts at or after
/// `from`, or -1 when there is none.
pub open spec fn find_from(s: Seq<char>, p: Seq<char>, from: int) -> int
    decreases s.len() + 1 - from,
{
    if from < 0 || from + p.len() > s.len() {
        -1
    } else if matches_at(s, p, from) {
        from
    } else {
        find_from(s, p, from + 1)
    }
}

pub proof fn lemma_find_from_bounds(s: Seq<char>, p: Seq<char>, from: int)
    requires
        0 <= from,
    ensures
        find_from(s, p, from) == -1 || (from <= find_from(s, p, from) && matches_at(s, p, find_from(s, p, from))),
        forall|j: int| from <= j < find_from(s, p, from) ==> !matches_at(s, p, j),
        find_from(s, p, from) == -1 ==> forall|j: int| from <= j ==> !matches_at(s, p, j),
    decreases s.len() + 1 - from,
{
    if from + p.len() > s.len() {
    } else if matches_at(s, p, from) {
    } else {
        lemma_find_from_bounds(s, p, from + 1);
    }
}


/// The pieces of `s` between the non-overlapping occurrences of `p`, taken
/// leftmost first, as `str::split` yields them for a non-empty pattern.
pub open spec fn split(s: Seq<char>, p: Seq<char>) -> Seq<Seq<char>>
    decreases s.len(),
{
    if p.len() == 0 {
        seq![s]
    } else {
        let i = find_from(s, p, 0);
        if i < 0 {
            seq![s]
        } else {
            proof {
                lemma_find_from_bounds(s, p, 0);
            }
            seq![s.take(i)] + split(s.skip(i + p.len()), p)
        }
    }
}

/// Searching a suffix of `s` is searching `s` from the suffix's start.
pub proof fn lemma_find_from_skip(s: Seq<char>, p: Seq<char>, a: int, k: int)
    requires
        0 <= a <= s.len(),
        0 <= k,
    ensures
        find_from(s.skip(a), p, k) == (if find_from(s, p, a + k) == -1 {
            -1
        } else {
            find_from(s, p, a + k) - a
        }),
    decreases s.len() + 1 - (a + k),
{
    let t = s.skip(a);
    if k + p.len() > t.len() {
    } else {
        assert(t.subrange(k, k + p.len()) =~= s.subrange(a + k, a + k + p.len()));
        if matches_at(t, p, k) {
        } else {
            lemma_find_from_skip(s, p, a, k + 1);
        }
    }
}

/// One step of splitting a suffix of `s`.
pub proof fn lemma_split_step(s: Seq<char>, p: Seq<char>, pos: int)
    requires
        p.len() > 0,
        0 <= pos <= s.len(),
    ensures
        find_from(s, p, pos) == -1 ==> split(s.skip(pos), p) == seq![s.skip(pos)],
        find_from(s, p, pos) != -1 ==> {
            let j = find_from(s, p, pos);
            &&& pos <= j
            &&& j + p.len() <= s.len()
            &&& split(s.skip(pos), p) == seq![s.subrange(pos, j)] + split(s.skip(j + p.len()), p)
        },
{
    lemma_find_from_skip(s, p, pos, 0);
    lemma_find_from_bounds(s, p, pos);
    let j = find_from(s, p, pos);
    if j != -1 {
        let t = s.skip(pos);
        assert(t.take(j - pos) =~= s.subrange(pos, j));
        assert(t.skip(j - pos + p.len()) =~= s.skip(j + p.len()));
    }
}

/// Whether `p` occurs in `s` at index `i`.
fn matches_here(s: &[char], p: &[char], i: usize) -> (r: bool)
    requires
        i <= s@.len(),
    ensures
        r == matches_at(s@, p@, i as int),
{
    if p.len() > s.len() - i {
        return false;
    }
    let n = s.len();
    let mut k: usize = 0;
    while k < p.len()
        invariant
            n == s@.len(),
            k <= p@.len(),
            i + p@.len() <= s@.len(),
            forall|j: int| 0 <= j < k ==> s@[i + j] == p@[j],
        decreases p@.len() - k,
    {
        if s[i + k] != p[k] {
            assert(s@.subrange(i as int, i + p@.len())[k as int] != p@[k as int]);
            return false;
        }
        k = k + 1;
    }
    assert(s@.subrange(i as int, i + p@.len()) =~= p@);
    true
}

/// Index of the leftmost occurrence of `p` in `s` at or after `from`.
pub fn find(s: &[char], p: &[char], from: usize) -> (r: Option<usize>)
    requires
        from <= s@.len(),
    ensures
        match r {
            Some(i) => i as int == find_from(s@, p@, from as int),
            None => find_from(s@, p@, from as int) == -1,
        },
{
    let mut i = from;
    while p.len() <= s.len() && i <= s.len() - p.len()
        invariant
            from <= i <= s@.len(),
            find_from(s@, p@, from as int) == find_from(s@, p@, i as int),
        decreases s@.len() - i,
    {
        proof {
            if p@.len() == 0 {
                assert(s@.subrange(i as int, i as int) =~= p@);
            }
        }
        if matches_here(s, p, i) {
            return Some(i);
        }
        i = i + 1;
    }
    None
}

/// The characters `s[lo..hi]` as a vector.
pub fn copy_range(s: &[char], lo: usize, hi: usize) -> (r: Vec<char>)
    requires
        lo <= hi <= s@.len(),
    ensures
        r@ == s@.subrange(lo as int, hi as int),
{
    let mut r: Vec<char> = Vec::new();
    let mut k = lo;
    while k < hi
        invariant
            lo <= k <= hi,
            hi <= s@.len(),
            r@ == s@.subrange(lo as int, k as int),
        decreases hi - k,
    {
        r.push(s[k]);
        k = k + 1;
        assert(r@ =~= s@.subrange(lo as int, k as int));
    }
    r
}

/// The character sequences held by a vector of character vectors.
pub open spec fn char_vecs(v: Seq<Vec<char>>) -> Seq<Seq<char>> {
    v.map_values(|x: Vec<char>| x@)
}

/// Splits `s` at every occurrence of the non-empty pattern `p`.
pub fn split_by(s: &[char], p: &[char]) -> (r: Vec<Vec<char>>)
    requires
        p@.len() > 0,
    ensures
        char_vecs(r@) == split(s@, p@),
{
    let mut pieces: Vec<Vec<char>> = Vec::new();
    let mut pos: usize = 0;
    let n = s.len();
    assert(s@.skip(0) =~= s@);
    loop
        invariant
            n == s@.len(),
            p@.len() > 0,
            pos <= s@.len(),
            char_vecs(pieces@) + split(s@.skip(pos as int), p@) == split(s@, p@),
        decreases s@.len() - pos,
    {
        proof {
            lemma_split_step(s@, p@, pos as int);
        }
        match find(s, p, pos) {
            None => {
                let last = copy_range(s, pos, s.len());
                let ghost before = char_vecs(pieces@);
                pieces.push(last);
                assert(s@.subrange(pos as int, s@.len() as int) =~= s@.skip(pos as int));
                assert(char_vecs(pieces@) =~= before + seq![s@.skip(pos as int)]);
                return pieces;
            },
            Some(j) => {
                let piece = copy_range(s, pos, j);
                let ghost before = char_vecs(pieces@);
                pieces.push(piece);
                assert(char_vecs(pieces@) =~= before + seq![s@.subrange(pos as int, j as int)]);
                pos = j + p.len();
            },
        }
    }
}


/// The characters of `s`, in order.
pub fn chars_of(s: &str) -> (r: Vec<char>)
    ensures
        r@ == s@,
{
    broadcast use vstd::string::group_string_axioms;
    let mut r: Vec<char> = Vec::new();
    for c in it: s.chars()
        invariant
            r@ == it.seq().take(it.index() as int),
    {
        r.push(c);
        assert(r@ =~= it.seq().take(it.index() as int + 1));
    }
    assert(r@ =~= s@);
    r
}


/// Appends one character to a string.
///
/// Trusted: the body calls `String::push`, which the standard library
/// documents as appending the given char to the end of the string.
#[verifier::external_body]
fn push_char(s: &mut String, c: char)
    ensures
        final(s)@ == old(s)@.push(c),
{
    s.push(c);
}

/// A string holding the characters of `v`, in order.
pub fn string_of(v: &[char]) -> (r: String)
    ensures
        r@ == v@,
{
    let mut r = String::new();
    let n = v.len();
    let mut k: usize = 0;
    while k < n
        invariant
            n == v@.len(),
            k <= n,
            r@ == v@.take(k as int),
        decreases n - k,
    {
        push_char(&mut r, v[k]);
        k = k + 1;
        assert(r@ =~= v@.take(k as int));
    }
    assert(v@.take(n as int) =~= v@);
    r
}

/// `p` occurs somewhere in `s` (an empty `p` occurs in every `s`).
pub open spec fn occurs_in(s: Seq<char>, p: Seq<char>) -> bool {
    exists|i: int| matches_at(s, p, i)
}

/// Whether `p` occurs in `s`, as `str::contains` answers it.
pub fn contains(s: &[char], p: &[char]) -> (r: bool)
    ensures
        r == occurs_in(s@, p@),
{
    proof {
        lemma_find_from_bounds(s@, p@, 0);
    }
    match find(s, p, 0) {
        Some(_) => true,
        None => false,
    }
}

/// The characters that `char::is_whitespace` accepts: those with the
/// Unicode `White_Space` property.
pub open spec fn is_white_space(c: char) -> bool {
    ||| '\t' <= c <= '\r'
    ||| c == ' '
    ||| c == '\u{85}'
    ||| c == '\u{A0}'
    ||| c == '\u{1680}'
    ||| '\u{2000}' <= c <= '\u{200A}'
    ||| c == '\u{2028}'
    ||| c == '\u{2029}'
    ||| c == '\u{202F}'
    ||| c == '\u{205F}'
    ||| c == '\u{3000}'
}

/// Whether `c` is white space in the sense of `char::is_whitespace`.
pub fn white_space(c: char) -> (r: bool)
    ensures
        r == is_white_space(c),
{
    ('\t' <= c && c <= '\r') || c == ' ' || c == '\u{85}' || c == '\u{A0}' || c == '\u{1680}'
        || ('\u{2000}' <= c && c <= '\u{200A}') || c == '\u{2028}' || c == '\u{2029}'
        || c == '\u{202F}' || c == '\u{205F}' || c == '\u{3000}'
}

/// `s` without its leading white space.
pub open spec fn trim_start(s: Seq<char>) -> Seq<char>
    decreases s.len(),
{
    if s.len() > 0 && is_white_space(s[0]) {
        trim_start(s.drop_first())
    } else {
        s
    }
}

/// `s` without its trailing white space.
pub open spec fn trim_end(s: Seq<char>) -> Seq<char>
    decreases s.len(),
{
    if s.len() > 0 && is_white_space(s.last()) {
        trim_end(s.drop_last())
    } else {
        s
    }
}

/// `s` without leading and trailing white space, as `str::trim` gives it.
pub open spec fn trim(s: Seq<char>) -> Seq<char> {
    trim_end(trim_start(s))
}

/// `s` without leading and trailing white space.
pub fn trimmed(s: &[char]) -> (r: Vec<char>)
    ensures
        r@ == trim(s@),
{
    let n = s.len();
    let mut lo: usize = 0;
    assert(s@.skip(0) =~= s@);
    while lo < n && white_space(s[lo])
        invariant
            n == s@.len(),
            lo <= n,
            trim_start(s@) == trim_start(s@.skip(lo as int)),
        decreases n - lo,
    {
        assert(s@.skip(lo as int).drop_first() =~= s@.skip(lo + 1));
        lo = lo + 1;
    }
    let mut hi: usize = n;
    assert(s@.subrange(lo as int, n as int) =~= s@.skip(lo as int));
    while hi > lo && white_space(s[hi - 1])
        invariant
            n == s@.len(),
            lo <= hi <= n,
            trim(s@) == trim_end(s@.subrange(lo as int, hi as int)),
        decreases hi - lo,
    {
        assert(s@.subrange(lo as int, hi as int).drop_last() =~= s@.subrange(lo as int, hi - 1));
        hi = hi - 1;
    }
    copy_range(s, lo, hi)
}


/// Every split has at least one piece.
pub proof fn lemma_split_nonempty(s: Seq<char>, p: Seq<char>)
    ensures
        split(s, p).len() >= 1,
{
    if p.len() > 0 && find_from(s, p, 0) >= 0 {
        lemma_find_from_bounds(s, p, 0);
    }
}

/// The part of `s` before the first occurrence of `p` (all of `s` when `p`
/// does not occur): the first item that `s.split(p)` yields.
pub open spec fn first_piece(s: Seq<char>, p: Seq<char>) -> Seq<char> {
    split(s, p)[0]
}

/// The part of `s` after the last occurrence of `p` (all of `s` when `p`
/// does not occur): the last item that `s.split(p)` yields.
pub open spec fn last_piece(s: Seq<char>, p: Seq<char>) -> Seq<char> {
    split(s, p).last()
}

/// The part of `s` before the first occurrence of the non-empty `p`.
pub fn before_first(s: &[char], p: &[char]) -> (r: Vec<char>)
    requires
        p@.len() > 0,
    ensures
        r@ == first_piece(s@, p@),
{
    proof {
        lemma_find_from_bounds(s@, p@, 0);
    }
    match find(s, p, 0) {
        Some(j) => copy_range(s, 0, j),
        None => {
            assert(s@.subrange(0, s@.len() as int) =~= s@);
            copy_range(s, 0, s.len())
        },
    }
}

/// The part of `s` after the last occurrence of the non-empty `p`.
pub fn after_last(s: &[char], p: &[char]) -> (r: Vec<char>)
    requires
        p@.len() > 0,
    ensures
        r@ == last_piece(s@, p@),
{
    let pieces = split_by(s, p);
    proof {
        lemma_split_nonempty(s@, p@);
    }
    let last = pieces.len() - 1;
    assert(pieces@[last as int]@ == split(s@, p@)[last as int]);
    let piece = &pieces[last];
    copy_range(piece.as_slice(), 0, piece.len())
}

/// Number of bytes that `c` takes in UTF-8.
pub open spec fn utf8_width(c: char) -> nat {
    if '\u{80}' > c {
        1
    } else if '\u{800}' > c {
        2
    } else if '\u{10000}' > c {
        3
    } else {
        4
    }
}

/// Number of bytes that `c` takes in UTF-8.
fn utf8_len(c: char) -> (w: usize)
    ensures
        w == utf8_width(c),
{
    if '\u{80}' > c {
        return 1;
    }
    if '\u{800}' > c {
        return 2;
    }
    if '\u{10000}' > c {
        return 3;
    }
    4
}

/// What `&s[n..]` gives for a string with characters `s`: the characters
/// after the first `n` bytes of its UTF-8 encoding, or `None` where that
/// slice panics (`n` past the end, or not on a character boundary).
pub open spec fn drop_bytes(s: Seq<char>, n: nat) -> Option<Seq<char>>
    decreases n,
{
    if n == 0 {
        Some(s)
    } else if s.len() == 0 || utf8_width(s[0]) > n {
        None
    } else {
        drop_bytes(s.drop_first(), (n - utf8_width(s[0])) as nat)
    }
}

/// The characters after the first `n` bytes of the UTF-8 encoding of `s`,
/// when byte `n` is a character boundary within `s`.
pub fn after_bytes(s: &[char], n: usize) -> (r: Option<Vec<char>>)
    ensures
        match r {
            Some(v) => drop_bytes(s@, n as nat) == Some(v@),
            None => drop_bytes(s@, n as nat) is None,
        },
{
    let len = s.len();
    let mut k: usize = 0;
    let mut left: usize = n;
    assert(s@.skip(0) =~= s@);
    while left > 0
        invariant
            len == s@.len(),
            k <= len,
            drop_bytes(s@, n as nat) == drop_bytes(s@.skip(k as int), left as nat),
        decreases left,
    {
        if k == len {
            return None;
        }
        let c = s[k];
        let w = utf8_len(c);
        assert(s@.skip(k as int)[0] == c);
        if w > left {
            return None;
        }
        assert(s@.skip(k as int).drop_first() =~= s@.skip(k + 1));
        left = left - w;
        k = k + 1;
    }
    assert(s@.subrange(k as int, len as int) =~= s@.skip(k as int));
    Some(copy_range(s, k, len))
}

/// Whether `a` and `b` hold the same characters.
pub fn same_chars(a: &[char], b: &[char]) -> (r: bool)
    ensures
        r == (a@ == b@),
{
    if a.len() != b.len() {
        return false;
    }
    let n = a.len();
    let mut k: usize = 0;
    while k < n
        invariant
            n == a@.len(),
            n == b@.len(),
            k <= n,
            forall|j: int| 0 <= j < k ==> a@[j] == b@[j],
        decreases n - k,
    {
        if a[k] != b[k] {
            return false;
        }
        k = k + 1;
    }
    assert(a@ =~= b@);
    true
}

/// Appends the characters of `b` to `a`.
pub fn push_all(a: &mut Vec<char>, b: &[char])
    ensures
        final(a)@ == old(a)@ + b@,
{
    let n = b.len();
    let mut k: usize = 0;
    while k < n
        invariant
            n == b@.len(),
            k <= n,
            a@ == old(a)@ + b@.take(k as int),
        decreases n - k,
    {
        a.push(b[k]);
        k = k + 1;
        assert(a@ =~= old(a)@ + b@.take(k as int));
    }
    assert(b@.take(n as int) =~= b@);
}


/// The pieces joined back together with `p` between each two.
pub open spec fn join(pieces: Seq<Seq<char>>, p: Seq<char>) -> Seq<char>
    decreases pieces.len(),
{
    if pieces.len() == 0 {
        Seq::empty()
    } else if pieces.len() == 1 {
        pieces[0]
    } else {
        pieces[0] + p + join(pieces.drop_first(), p)
    }
}

/// Splitting loses nothing: joining the pieces of `s` with the pattern gives
/// `s` back, and no piece contains the pattern.
pub proof fn lemma_split_join(s: Seq<char>, p: Seq<char>)
    requires
        p.len() > 0,
    ensures
        join(split(s, p), p) == s,
        forall|k: int| 0 <= k < split(s, p).len() ==> !occurs_in(#[trigger] split(s, p)[k], p),
    decreases s.len(),
{
    lemma_find_from_bounds(s, p, 0);
    let i = find_from(s, p, 0);
    if i < 0 {
        assert(split(s, p) == seq![s]);
        assert forall|k: int| 0 <= k < split(s, p).len() implies !occurs_in(#[trigger] split(s, p)[k], p) by {
            if occurs_in(s, p) {
                let j = choose|j: int| matches_at(s, p, j);
                assert(!matches_at(s, p, j));
            }
        }
    } else {
        let rest_text = s.skip(i + p.len());
        let rest = split(rest_text, p);
        lemma_split_join(rest_text, p);
        lemma_split_nonempty(rest_text, p);
        let pieces = split(s, p);
        assert(pieces == seq![s.take(i)] + rest);
        assert(pieces.drop_first() =~= rest);
        assert(s.subrange(i, i + p.len()) == p);
        assert(s =~= s.take(i) + p + rest_text);
        assert forall|k: int| 0 <= k < pieces.len() implies !occurs_in(#[trigger] pieces[k], p) by {
            if k == 0 {
                if occurs_in(s.take(i), p) {
                    let j = choose|j: int| matches_at(s.take(i), p, j);
                    assert(s.take(i).subrange(j, j + p.len()) =~= s.subrange(j, j + p.len()));
                    assert(matches_at(s, p, j));
                }
            } else {
                assert(pieces[k] == rest[k - 1]);
            }
        }
    }
}


proof fn lemma_trim_start_shape(s: Seq<char>)
    ensures
        trim_start(s).len() > 0 ==> !is_white_space(trim_start(s)[0]),
        exists|k: int| 0 <= k <= s.len() && trim_start(s) == s.skip(k),
    decreases s.len(),
{
    if s.len() > 0 && is_white_space(s[0]) {
        lemma_trim_start_shape(s.drop_first());
        let k = choose|k: int| 0 <= k <= s.drop_first().len() && trim_start(s.drop_first()) == s.drop_first().skip(k);
        assert(s.drop_first().skip(k) =~= s.skip(k + 1));
    } else {
        assert(s.skip(0) =~= s);
    }
}

proof fn lemma_trim_end_shape(s: Seq<char>)
    ensures
        trim_end(s).len() > 0 ==> !is_white_space(trim_end(s).last()),
        trim_end(s).len() > 0 ==> trim_end(s)[0] == s[0],
        trim_end(s).len() <= s.len(),
    decreases s.len(),
{
    if s.len() > 0 && is_white_space(s.last()) {
        lemma_trim_end_shape(s.drop_last());
    }
}

/// Trimming leaves no white space at either end, and trimming again
/// changes nothing.
pub proof fn lemma_trim(s: Seq<char>)
    ensures
        trim(s).len() > 0 ==> !is_white_space(trim(s)[0]) && !is_white_space(trim(s).last()),
        trim(trim(s)) == trim(s),
{
    let t = trim_start(s);
    lemma_trim_start_shape(s);
    lemma_trim_end_shape(t);
    let r = trim(s);
    if r.len() > 0 {
        assert(r[0] == t[0]);
        assert(trim_start(r) == r);
        lemma_trim_end_shape(r);
        assert(trim_end(r) == r);
    } else {
        assert(trim_start(r) == r);
        assert(trim_end(r) == r);
    }
}


/// The part of `s` after its last occurrence of `p` is a suffix of `s` that
/// does not contain `p`; when `p` occurs in `s`, an occurrence of `p` ends
/// exactly where that part starts, and otherwise the part is all of `s`.
pub proof fn lemma_last_piece(s: Seq<char>, p: Seq<char>)
    requires
        p.len() > 0,
    ensures
        last_piece(s, p).len() <= s.len(),
        s.skip(s.len() - last_piece(s, p).len()) == last_piece(s, p),
        !occurs_in(last_piece(s, p), p),
        occurs_in(s, p) ==> s.len() >= last_piece(s, p).len() + p.len() && matches_at(
            s,
            p,
            s.len() - last_piece(s, p).len() - p.len(),
        ),
        !occurs_in(s, p) ==> last_piece(s, p) == s,
    decreases s.len(),
{
    lemma_find_from_bounds(s, p, 0);
    lemma_split_join(s, p);
    lemma_split_nonempty(s, p);
    let i = find_from(s, p, 0);
    if i < 0 {
        assert(split(s, p) == seq![s]);
        assert(s.skip(0) =~= s);
        if occurs_in(s, p) {
            let j = choose|j: int| matches_at(s, p, j);
            assert(!matches_at(s, p, j));
        }
    } else {
        let rest_text = s.skip(i + p.len());
        let rest = split(rest_text, p);
        lemma_split_nonempty(rest_text, p);
        lemma_last_piece(rest_text, p);
        assert(split(s, p) == seq![s.take(i)] + rest);
        assert(last_piece(s, p) == last_piece(rest_text, p));
        let l = last_piece(s, p);
        assert(rest_text.skip(rest_text.len() - l.len()) =~= s.skip(s.len() - l.len()));
        assert(matches_at(s, p, i));
        if occurs_in(rest_text, p) {
            let k = rest_text.len() - l.len() - p.len();
            assert(rest_text.subrange(k, k + p.len()) =~= s.subrange(i + p.len() + k, i + p.len() + k + p.len()));
        } else {
            assert(l == rest_text);
        }
    }
}

/// `p` cannot overlap itself: no proper prefix of `p` is also a suffix of it.
pub open spec fn borderless(p: Seq<char>) -> bool {
    forall|k: int| 0 < k < p.len() ==> #[trigger] p.take(k) != p.skip(p.len() - k)
}

/// Two occurrences of a pattern that cannot overlap itself do not overlap.
proof fn lemma_no_overlap(s: Seq<char>, p: Seq<char>, x: int, y: int)
    requires
        borderless(p),
        matches_at(s, p, x),
        matches_at(s, p, y),
        x < y,
    ensures
        y >= x + p.len(),
{
    if y < x + p.len() {
        let k = x + p.len() - y;
        assert forall|t: int| 0 <= t < k implies p.take(k)[t] == p.skip(p.len() - k)[t] by {
            assert(s.subrange(y, y + p.len())[t] == s[y + t]);
            assert(s.subrange(x, x + p.len())[y - x + t] == s[y + t]);
        }
        assert(p.take(k) =~= p.skip(p.len() - k));
    }
}

/// A text of `p` inside the part of `s` from `start` on is a text of `p` in
/// that part.
proof fn lemma_occurs_in_suffix(s: Seq<char>, p: Seq<char>, start: int, x: int)
    requires
        0 <= start <= x,
        matches_at(s, p, x),
    ensures
        occurs_in(s.skip(start), p),
{
    assert(s.skip(start).subrange(x - start, x - start + p.len()) =~= s.subrange(x, x + p.len()));
    assert(matches_at(s.skip(start), p, x - start));
}

/// For a pattern that cannot overlap itself, the part after the last
/// occurrence is what follows any occurrence that is followed by text free
/// of the pattern: `last_piece(a + p + b, p) == b` whenever `b` does not
/// contain `p`.
pub proof fn lemma_last_piece_after(a: Seq<char>, p: Seq<char>, b: Seq<char>)
    requires
        p.len() > 0,
        borderless(p),
        !occurs_in(b, p),
    ensures
        last_piece(a + p + b, p) == b,
{
    let s = a + p + b;
    let n = s.len();
    let x = a.len() as int;
    assert(s.subrange(x, x + p.len()) =~= p);
    assert(matches_at(s, p, x));
    assert(occurs_in(s, p));
    lemma_last_piece(s, p);
    let l = last_piece(s, p);
    let y = n - l.len() - p.len();
    assert(matches_at(s, p, y));
    assert(s.skip(n - b.len()) =~= b);
    if l.len() > b.len() {
        // The occurrence before `b` starts inside or after the start of `l`.
        if x >= n - l.len() {
            lemma_occurs_in_suffix(s, p, n - l.len(), x);
            assert(s.skip(n - l.len()) == l);
        } else {
            lemma_no_overlap(s, p, y, x);
        }
    } else if l.len() < b.len() {
        if y >= x + p.len() {
            lemma_occurs_in_suffix(s, p, x + p.len(), y);
            assert(s.skip(x + p.len()) =~= b);
        } else {
            lemma_no_overlap(s, p, x, y);
        }
    } else {
        assert(l == s.skip(n - l.len()));
    }
}


/// Dropping leading bytes leaves a suffix.
pub proof fn lemma_drop_bytes_suffix(s: Seq<char>, n: nat)
    ensures
        drop_bytes(s, n) matches Some(r) ==> r.len() <= s.len() && s.skip(s.len() - r.len()) == r,
    decreases n,
{
    if n == 0 {
        assert(s.skip(0) =~= s);
    } else if s.len() == 0 || utf8_width(s[0]) > n {
    } else {
        lemma_drop_bytes_suffix(s.drop_first(), (n - utf8_width(s[0])) as nat);
        if let Some(r) = drop_bytes(s, n) {
            assert(s.drop_first().skip(s.drop_first().len() - r.len()) =~= s.skip(s.len() - r.len()));
        }
    }
}

/// A suffix of a text free of `p` is free of `p`.
pub proof fn lemma_suffix_free(s: Seq<char>, p: Seq<char>, start: int)
    requires
        0 <= start <= s.len(),
        !occurs_in(s, p),
    ensures
        !occurs_in(s.skip(start), p),
{
    if occurs_in(s.skip(start), p) {
        let j = choose|j: int| matches_at(s.skip(start), p, j);
        assert(s.skip(start).subrange(j, j + p.len()) =~= s.subrange(start + j, start + j + p.len()));
        assert(matches_at(s, p, start + j));
    }
}


/// For a pattern that cannot overlap itself, splitting a text that starts
/// with a pattern-free part and the pattern yields that part first, then the
/// pieces of the rest.
pub proof fn lemma_split_after_first(a: Seq<char>, p: Seq<char>, b: Seq<char>)
    requires
        p.len() > 0,
        borderless(p),
        !occurs_in(a, p),
    ensures
        split(a + p + b, p) == seq![a] + split(b, p),
        first_piece(a + p + b, p) == a,
{
    let s = a + p + b;
    let x = a.len() as int;
    assert(s.subrange(x, x + p.len()) =~= p);
    assert(matches_at(s, p, x));
    lemma_find_from_bounds(s, p, 0);
    let r = find_from(s, p, 0);
    if r != x {
        if r == -1 {
            assert(!matches_at(s, p, x));
        } else if r > x {
            assert(!matches_at(s, p, x));
        } else {
            if r + p.len() <= x {
                assert(s.subrange(r, r + p.len()) =~= a.subrange(r, r + p.len()));
                assert(matches_at(a, p, r));
            } else {
                lemma_no_overlap(s, p, r, x);
            }
        }
    }
    assert(s.take(x) =~= a);
    assert(s.skip(x + p.len()) =~= b);
}


/// A text without the pattern is a single piece.
pub proof fn lemma_split_free(s: Seq<char>, p: Seq<char>)
    requires
        !occurs_in(s, p),
    ensures
        split(s, p) == seq![s],
{
    if p.len() > 0 {
        lemma_find_from_bounds(s, p, 0);
        if find_from(s, p, 0) != -1 {
            assert(matches_at(s, p, find_from(s, p, 0)));
        }
    }
}


/// Splitting a text made of a part, the pattern and a rest yields that part
/// first, then the pieces of the rest, when the pattern does not occur
/// before the end of that first occurrence (its last character excluded).
pub proof fn lemma_split_at_first(a: Seq<char>, p: Seq<char>, b: Seq<char>)
    requires
        p.len() > 0,
        !occurs_in((a + p).drop_last(), p),
    ensures
        split(a + p + b, p) == seq![a] + split(b, p),
        first_piece(a + p + b, p) == a,
{
    let s = a + p + b;
    let x = a.len() as int;
    let c = (a + p).drop_last();
    assert(s.subrange(x, x + p.len()) =~= p);
    assert(matches_at(s, p, x));
    lemma_find_from_bounds(s, p, 0);
    let r = find_from(s, p, 0);
    if r != x {
        if r == -1 || r > x {
            assert(!matches_at(s, p, x));
        } else {
            assert(s.subrange(r, r + p.len()) =~= c.subrange(r, r + p.len()));
            assert(matches_at(c, p, r));
        }
    }
    assert(s.take(x) =~= a);
    assert(s.skip(x + p.len()) =~= b);
}

} // verus!
