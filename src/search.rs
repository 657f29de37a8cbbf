//! Bounded, case-insensitive, line-oriented full-text search.
use vstd::prelude::*;
use crate::markdown::opt_nat;
use crate::query::LoadedFile;
use crate::text::{
    contains_seq, first_occurrence, from_chars, lower_of, lowercase, occurs_at, to_chars,
    utf8_len_of, utf8_size,
};

verus! {

/// The most matches that one search returns.
pub const MAX_RESULTS: usize = 100;

/// One line that matches a search, with the byte offsets of the first
/// occurrence of the query when highlighting is asked for.
#[derive(Debug, Clone, PartialEq, Eq)]
pub struct SearchMatch {
    pub file_path: String,
    pub snippet_or_line: String,
    pub start_offset: Option<usize>,
    pub end_offset: Option<usize>,
}

/// The value of a [`SearchMatch`].
pub struct HitModel {
    pub file_path: Seq<char>,
    pub line: Seq<char>,
    pub start: Option<nat>,
    pub end: Option<nat>,
}

impl View for SearchMatch {
    type V = HitModel;

    open spec fn view(&self) -> HitModel {
        HitModel {
            file_path: self.file_path@,
            line: self.snippet_or_line@,
            start: opt_nat(self.start_offset),
            end: opt_nat(self.end_offset),
        }
    }
}

pub open spec fn hits_view(v: Seq<SearchMatch>) -> Seq<HitModel> {
    v.map_values(|m: SearchMatch| m@)
}

/// The pieces of `s` between its newline characters.
pub open spec fn pieces(s: Seq<char>) -> Seq<Seq<char>>
    decreases s.len(),
{
    if s.len() == 0 {
        seq![Seq::empty()]
    } else {
        let p = pieces(s.drop_last());
        if s.last() == '\n' {
            p.push(Seq::empty())
        } else {
            p.update(p.len() - 1, p.last().push(s.last()))
        }
    }
}

/// A line without the carriage return that ends it, if any.
pub open spec fn strip_cr(l: Seq<char>) -> Seq<char> {
    if l.len() > 0 && l.last() == '\r' {
        l.drop_last()
    } else {
        l
    }
}

/// The lines of `s` as `str::lines` yields them: split at `\n` or `\r\n`,
/// with no empty line after a final line ending.
pub open spec fn lines_of(s: Seq<char>) -> Seq<Seq<char>> {
    let p = pieces(s);
    p.drop_last().map_values(|l: Seq<char>| strip_cr(l)) + if p.last().len() > 0 {
        seq![p.last()]
    } else {
        Seq::empty()
    }
}

/// The match of one line, given the lower-cased line and query: none when
/// the lower-cased query does not occur in the lower-cased line; without
/// offsets when `fuzzy` is set (or when they would not fit in `usize`);
/// otherwise the byte offset of its first occurrence and that offset plus
/// the byte length of the query.
pub open spec fn line_match_lowered(
    path: Seq<char>,
    line: Seq<char>,
    line_lower: Seq<char>,
    query: Seq<char>,
    query_lower: Seq<char>,
    fuzzy: bool,
) -> Option<HitModel> {
    if !contains_seq(line_lower, query_lower) {
        None
    } else if fuzzy {
        Some(HitModel { file_path: path, line, start: None, end: None })
    } else {
        let i = first_occurrence(line_lower, query_lower)->0;
        let start = utf8_size(line_lower.take(i));
        let end = start + utf8_size(query);
        if end <= usize::MAX {
            Some(HitModel { file_path: path, line, start: Some(start), end: Some(end) })
        } else {
            Some(HitModel { file_path: path, line, start: None, end: None })
        }
    }
}

/// The match of one line: lower-casing both sides, see [`line_match_lowered`].
pub open spec fn line_match(path: Seq<char>, line: Seq<char>, query: Seq<char>, fuzzy: bool) -> Option<
    HitModel,
> {
    line_match_lowered(path, line, lower_of(line), query, lower_of(query), fuzzy)
}

/// The matches among the first `k` lines of a file, in order.
pub open spec fn line_hits(
    path: Seq<char>,
    lines: Seq<Seq<char>>,
    query: Seq<char>,
    fuzzy: bool,
    k: nat,
) -> Seq<HitModel>
    decreases k,
{
    if k == 0 || k > lines.len() {
        Seq::empty()
    } else {
        let prev = line_hits(path, lines, query, fuzzy, (k - 1) as nat);
        match line_match(path, lines[k - 1], query, fuzzy) {
            Some(h) => prev.push(h),
            None => prev,
        }
    }
}

/// Every match over the first `k` files, in file then line order, with no
/// bound; unreadable files contribute nothing.
pub open spec fn all_hits(files: Seq<LoadedFile>, query: Seq<char>, fuzzy: bool, k: nat) -> Seq<
    HitModel,
>
    decreases k,
{
    if k == 0 || k > files.len() {
        Seq::empty()
    } else {
        let prev = all_hits(files, query, fuzzy, (k - 1) as nat);
        let f = files[k - 1];
        match f.content {
            Some(c) => {
                let lines = lines_of(c@);
                prev + line_hits(f.path@, lines, query, fuzzy, lines.len())
            },
            None => prev,
        }
    }
}

/// The first [`MAX_RESULTS`] elements of `s`.
pub open spec fn capped<A>(s: Seq<A>) -> Seq<A> {
    if s.len() <= MAX_RESULTS {
        s
    } else {
        s.take(MAX_RESULTS as int)
    }
}

/// What a search over files already read returns: the first
/// [`MAX_RESULTS`] matches.
pub open spec fn search_spec(files: Seq<LoadedFile>, query: Seq<char>, fuzzy: bool) -> Seq<HitModel> {
    capped(all_hits(files, query, fuzzy, files.len()))
}

pub open spec fn chars_views(v: Seq<Vec<char>>) -> Seq<Seq<char>> {
    v.map_values(|l: Vec<char>| l@)
}

/// The lines of `s`, as [`lines_of`] states them.
pub fn split_lines(s: &Vec<char>) -> (r: Vec<Vec<char>>)
    ensures
        chars_views(r@) == lines_of(s@),
{
    let mut out: Vec<Vec<char>> = Vec::new();
    let mut cur: Vec<char> = Vec::new();
    let mut i: usize = 0;
    assert(s@.take(0) =~= Seq::<char>::empty());
    while i < s.len()
        invariant
            i <= s.len(),
            pieces(s@.take(i as int)).len() >= 1,
            chars_views(out@) == pieces(s@.take(i as int)).drop_last().map_values(
                |l: Seq<char>| strip_cr(l),
            ),
            cur@ == pieces(s@.take(i as int)).last(),
        decreases s.len() - i,
    {
        let ghost p = pieces(s@.take(i as int));
        assert(s@.take(i + 1).drop_last() =~= s@.take(i as int));
        assert(s@.take(i + 1).last() == s@[i as int]);
        if s[i] == '\n' {
            let mut line = cur;
            if line.len() > 0 && line[line.len() - 1] == '\r' {
                line.pop();
            }
            assert(line@ == strip_cr(p.last()));
            let ghost before = out@;
            out.push(line);
            cur = Vec::new();
            assert(pieces(s@.take(i + 1)) == p.push(Seq::<char>::empty()));
            assert(pieces(s@.take(i + 1)).drop_last() =~= p);
            assert(p =~= p.drop_last().push(p.last()));
            assert(chars_views(out@) =~= chars_views(before).push(line@));
            assert(chars_views(out@) =~= p.map_values(|l: Seq<char>| strip_cr(l)));
        } else {
            cur.push(s[i]);
            let ghost q = pieces(s@.take(i + 1));
            assert(q == p.update(p.len() - 1, p.last().push(s@[i as int])));
            assert(q.drop_last() =~= p.drop_last());
        }
        i = i + 1;
    }
    assert(s@.take(s.len() as int) =~= s@);
    let ghost before = out@;
    if cur.len() > 0 {
        out.push(cur);
        assert(chars_views(out@) =~= chars_views(before).push(pieces(s@).last()));
    } else {
        assert(chars_views(out@) =~= chars_views(before));
    }
    assert(chars_views(out@) =~= lines_of(s@));
    out
}

/// The first position at which `needle` occurs in `hay`, if any.
pub fn find_first(hay: &Vec<char>, needle: &Vec<char>) -> (r: Option<usize>)
    ensures
        r is None <==> !contains_seq(hay@, needle@),
        r matches Some(i) ==> first_occurrence(hay@, needle@) == Some(i as int) && occurs_at(
            hay@,
            needle@,
            i as int,
        ),
{
    reveal(contains_seq);
    reveal(first_occurrence);
    let n = hay.len();
    let m = needle.len();
    if m > n {
        assert(!contains_seq(hay@, needle@));
        return None;
    }
    let mut i: usize = 0;
    while i <= n - m
        invariant
            m <= n == hay.len(),
            m == needle.len(),
            i <= n - m + 1,
            forall|j: int| 0 <= j < i ==> !occurs_at(hay@, needle@, j),
        decreases n - m + 1 - i,
    {
        let mut k: usize = 0;
        while k < m && hay[i + k] == needle[k]
            invariant
                i <= n - m,
                m <= n == hay.len(),
                m == needle.len(),
                k <= m,
                forall|t: int| 0 <= t < k ==> hay@[i + t] == needle@[t],
            decreases m - k,
        {
            k = k + 1;
        }
        if k == m {
            proof {
                reveal(contains_seq);
                reveal(first_occurrence);
                assert(hay@.subrange(i as int, i + m) =~= needle@);
                assert(occurs_at(hay@, needle@, i as int));
                let c = first_occurrence(hay@, needle@)->0;
                assert(occurs_at(hay@, needle@, c) && forall|j: int|
                    0 <= j < c ==> !occurs_at(hay@, needle@, j));
                if c < i {
                } else if c > i {
                    assert(!occurs_at(hay@, needle@, i as int));
                }
            }
            return Some(i);
        }
        assert(!occurs_at(hay@, needle@, i as int)) by {
            if occurs_at(hay@, needle@, i as int) {
                assert(hay@.subrange(i as int, i + m)[k as int] == hay@[i + k]);
            }
        }
        i = i + 1;
    }
    assert(!contains_seq(hay@, needle@)) by {
        reveal(contains_seq);
        if contains_seq(hay@, needle@) {
            let w = choose|w: int| occurs_at(hay@, needle@, w);
            assert(w < i);
        }
    }
    None
}

/// Byte length of the first `n` characters of `s`, when it fits in `usize`.
fn prefix_bytes(s: &Vec<char>, n: usize) -> (r: Option<usize>)
    requires
        n <= s.len(),
    ensures
        r == (if utf8_size(s@.take(n as int)) <= usize::MAX {
            Some(utf8_size(s@.take(n as int)) as usize)
        } else {
            None::<usize>
        }),
{
    let mut total: usize = 0;
    let mut i: usize = 0;
    while i < n
        invariant
            i <= n <= s.len(),
            total == utf8_size(s@.take(i as int)),
        decreases n - i,
    {
        assert(s@.take(i + 1).drop_last() =~= s@.take(i as int));
        let w = utf8_len_of(s[i]);
        if total > usize::MAX - w {
            proof {
                lemma_utf8_size_monotone(s@.take(n as int), i as int + 1);
                assert(s@.take(n as int).take(i + 1) =~= s@.take(i + 1));
            }
            return None;
        }
        total = total + w;
        i = i + 1;
    }
    Some(total)
}

proof fn lemma_utf8_size_monotone(s: Seq<char>, k: int)
    requires
        0 <= k <= s.len(),
    ensures
        utf8_size(s.take(k)) <= utf8_size(s),
    decreases s.len(),
{
    if k < s.len() {
        assert(s.drop_last().take(k) =~= s.take(k));
        lemma_utf8_size_monotone(s.drop_last(), k);
    } else {
        assert(s.take(k) =~= s);
    }
}

/// The byte offsets of an occurrence at character `i` of `line_lower`:
/// where it starts, and that plus the byte length of `query`; none when
/// these would not fit in `usize`.
fn occurrence_offsets(line_lower: &Vec<char>, i: usize, query: &Vec<char>) -> (r: (
    Option<usize>,
    Option<usize>,
))
    requires
        i <= line_lower.len(),
    ensures
        ({
            let start = utf8_size(line_lower@.take(i as int));
            let end = start + utf8_size(query@);
            if end <= usize::MAX {
                r == (Some(start as usize), Some(end as usize))
            } else {
                r == (None::<usize>, None::<usize>)
            }
        }),
{
    let start = prefix_bytes(line_lower, i);
    let qlen = prefix_bytes(query, query.len());
    proof {
        assert(query@.take(query.len() as int) =~= query@);
    }
    match (start, qlen) {
        (Some(a), Some(b)) => if a <= usize::MAX - b {
            (Some(a), Some(a + b))
        } else {
            (None, None)
        },
        _ => (None, None),
    }
}

/// The match of one line, given the lower-cased line and query, as
/// [`line_match_lowered`] states it.
pub fn match_line(
    path: &str,
    line: &str,
    line_lower: &str,
    query: &str,
    query_lower: &str,
    fuzzy: bool,
) -> (r: Option<SearchMatch>)
    ensures
        match r {
            Some(m) => Some(m@),
            None => None::<HitModel>,
        } == line_match_lowered(path@, line@, line_lower@, query@, query_lower@, fuzzy),
{
    let hay = to_chars(line_lower);
    let needle = to_chars(query_lower);
    let pos = find_first(&hay, &needle);
    match pos {
        None => None,
        Some(i) => {
            let file_path = from_chars(&to_chars(path));
            let snippet_or_line = from_chars(&to_chars(line));
            let (start_offset, end_offset) = if fuzzy {
                (None, None)
            } else {
                occurrence_offsets(&hay, i, &to_chars(query))
            };
            Some(SearchMatch { file_path, snippet_or_line, start_offset, end_offset })
        },
    }
}

proof fn lemma_capped_extend<A>(a: Seq<A>, b: Seq<A>)
    ensures
        capped(capped(a) + b) == capped(a + b),
{
    if a.len() > MAX_RESULTS {
        assert((a.take(MAX_RESULTS as int) + b).take(MAX_RESULTS as int) =~= a.take(
            MAX_RESULTS as int,
        ));
        assert((a + b).take(MAX_RESULTS as int) =~= a.take(MAX_RESULTS as int));
    }
}

proof fn lemma_line_hits_prefix(
    path: Seq<char>,
    lines: Seq<Seq<char>>,
    query: Seq<char>,
    fuzzy: bool,
    k: nat,
    n: nat,
)
    requires
        k <= n <= lines.len(),
    ensures
        line_hits(path, lines, query, fuzzy, k).len() <= line_hits(path, lines, query, fuzzy, n).len(),
        line_hits(path, lines, query, fuzzy, n).take(line_hits(path, lines, query, fuzzy, k).len() as int)
            == line_hits(path, lines, query, fuzzy, k),
    decreases n,
{
    let hk = line_hits(path, lines, query, fuzzy, k);
    let hn = line_hits(path, lines, query, fuzzy, n);
    if k == n {
        assert(hn.take(hk.len() as int) =~= hk);
    } else {
        lemma_line_hits_prefix(path, lines, query, fuzzy, k, (n - 1) as nat);
        let hm = line_hits(path, lines, query, fuzzy, (n - 1) as nat);
        assert(hn.take(hk.len() as int) =~= hm.take(hk.len() as int));
    }
}

/// Adds the matching lines of one file to `results`, in line order,
/// stopping as soon as `results` holds [`MAX_RESULTS`] matches.
pub fn search_file(
    results: &mut Vec<SearchMatch>,
    path: &str,
    content: &str,
    query: &str,
    fuzzy: bool,
)
    requires
        old(results).len() <= MAX_RESULTS,
    ensures
        hits_view(final(results)@) == capped(
            hits_view(old(results)@) + line_hits(
                path@,
                lines_of(content@),
                query@,
                fuzzy,
                lines_of(content@).len(),
            ),
        ),
        final(results).len() <= MAX_RESULTS,
{
    let ghost start = hits_view(results@);
    let ghost lines_spec = lines_of(content@);
    if results.len() >= MAX_RESULTS {
        proof {
            let all = start + line_hits(path@, lines_spec, query@, fuzzy, lines_spec.len());
            assert(all.take(MAX_RESULTS as int) =~= start);
        }
        return;
    }
    let query_lower = lowercase(query);
    let lines = split_lines(&to_chars(content));
    let mut j: usize = 0;
    while j < lines.len() && results.len() < MAX_RESULTS
        invariant
            j <= lines.len(),
            chars_views(lines@) == lines_spec,
            query_lower@ == lower_of(query@),
            results.len() <= MAX_RESULTS,
            hits_view(results@) == start + line_hits(path@, lines_spec, query@, fuzzy, j as nat),
        decreases lines.len() - j,
    {
        let line = from_chars(&lines[j]);
        let lower = lowercase(line.as_str());
        assert(line@ == lines_spec[j as int]);
        let found = match_line(path, line.as_str(), lower.as_str(), query, query_lower.as_str(), fuzzy);
        match found {
            Some(m) => {
                let ghost before = results@;
                results.push(m);
                assert(hits_view(results@) =~= hits_view(before).push(m@));
            },
            None => {},
        }
        j = j + 1;
    }
    proof {
        let n = lines_spec.len();
        let hj = line_hits(path@, lines_spec, query@, fuzzy, j as nat);
        let hn = line_hits(path@, lines_spec, query@, fuzzy, n);
        lemma_line_hits_prefix(path@, lines_spec, query@, fuzzy, j as nat, n);
        if j < n {
            assert((start + hn).take(MAX_RESULTS as int) =~= start + hj);
        }
    }
}

/// Searches files already read for the lines that contain `query`, ignoring
/// case: matches in file order, then line order, at most [`MAX_RESULTS`] of
/// them; unreadable files are skipped. Offsets are reported unless `fuzzy`
/// is set.
pub fn search_full_text(query: &str, files: &Vec<LoadedFile>, fuzzy: Option<bool>) -> (r: Vec<
    SearchMatch,
>)
    ensures
        hits_view(r@) == search_spec(files@, query@, fuzzy == Some(true)),
        r.len() <= MAX_RESULTS,
{
    let fuzzy = match fuzzy {
        Some(b) => b,
        None => false,
    };
    let mut r: Vec<SearchMatch> = Vec::new();
    let mut k: usize = 0;
    while k < files.len()
        invariant
            k <= files.len(),
            r.len() <= MAX_RESULTS,
            hits_view(r@) == capped(all_hits(files@, query@, fuzzy, k as nat)),
        decreases files.len() - k,
    {
        let f = &files[k];
        match &f.content {
            Some(c) => {
                search_file(&mut r, f.path.as_str(), c.as_str(), query, fuzzy);
                proof {
                    let lines = lines_of(c@);
                    lemma_capped_extend(
                        all_hits(files@, query@, fuzzy, k as nat),
                        line_hits(f.path@, lines, query@, fuzzy, lines.len()),
                    );
                }
            },
            None => {},
        }
        k = k + 1;
    }
    r
}

/// A search never returns more than [`MAX_RESULTS`] matches, however many
/// lines match across however many files.
pub proof fn lemma_search_bounded(files: Seq<LoadedFile>, query: Seq<char>, fuzzy: bool)
    ensures
        search_spec(files, query, fuzzy).len() <= MAX_RESULTS,
{
}

} // verus!
