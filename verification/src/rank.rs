//! Searches by name and contents: ranked, ordered and cut into pages.

use vstd::prelude::*;
use vstd::utf8::encode_utf8;

use crate::chars::{trim, trim_end, trim_text, trimmed_end, CharSet};
use crate::error::{bad_request, not_found, ApiError, ErrorView};
use crate::find::{contains, contains_text, find, find_spec, replace_all, replace_text, starts_with};
use crate::order::{
    arranged, key_lt, key_views, law_order_exists, law_pages_cover, lemma_key_irreflexive,
    lemma_key_transitive, order_of, page, page_of, pages_from, row_before, views, KeyView, Row,
    SortKey,
};
use crate::outside::{from_utf8_lossy, lowercase_of, to_lowercase, utf8_lossy};
use crate::path::{file_name, file_name_of};
use crate::search::{
    kind_name, kind_text, see_from, seen_from, want_named, Candidate, CandidateView, Stat, WantKind,
};
use crate::text::{chars_of, opt_str, split, split_on, str_eq, texts};

verus! {

// --- requests ----------------------------------------------------------------

/// The parameters of a search by name.
#[derive(Debug)]
pub struct SearchQuery {
    /// What to look for in names.
    pub query: Option<String>,
    /// The directory to search.
    pub path: Option<String>,
    /// The most matches to return, from 1 to 100; 20 where nothing is said.
    pub limit: Option<usize>,
    /// `file`, `directory` or `any`.
    pub kind: Option<String>,
    /// Whether hidden entries are looked at.
    pub show_hidden: Option<bool>,
}

/// The parameters of a search by name and contents.
#[derive(Debug)]
pub struct MatchesQuery {
    /// The text to look for.
    pub query: String,
    /// The directory to search.
    pub path: Option<String>,
    /// Whether hidden entries are looked at.
    pub show_hidden: Option<bool>,
    /// How many results to pass over.
    pub offset: Option<usize>,
    /// The most results to return, from 1 to 100; 100 where nothing is said.
    pub limit: Option<usize>,
}

/// The refusal of a limit that is out of range.
pub open spec fn limit_error() -> ErrorView {
    bad_request("limit must be 1..=100"@)
}

/// The limit and the kind of a search by name, or its refusal; the limit is
/// looked at first.
pub open spec fn search_terms(limit: Option<usize>, kind: Option<Seq<char>>) -> Result<
    (int, WantKind),
    ErrorView,
> {
    let n = match limit {
        Some(n) => n as int,
        None => 20,
    };
    if n < 1 || n > 100 {
        Err(limit_error())
    } else {
        match want_named(kind) {
            Ok(w) => Ok((n, w)),
            Err(e) => Err(e),
        }
    }
}

/// The limit and the kind of a search by name.
pub fn check_search(limit: Option<usize>, kind: Option<&str>) -> (r: Result<
    (usize, WantKind),
    ApiError,
>)
    ensures
        match search_terms(limit, opt_str(kind)) {
            Ok(t) => r is Ok && r->Ok_0.0 == t.0 && r->Ok_0.1 == t.1,
            Err(e) => r is Err && r->Err_0@ == e,
        },
{
    let n: usize = match limit {
        Some(n) => n,
        None => 20,
    };
    if n < 1 || n > 100 {
        return Err(ApiError::BadRequest("limit must be 1..=100".to_owned()));
    }
    match WantKind::parse(kind) {
        Ok(w) => Ok((n, w)),
        Err(e) => Err(e),
    }
}

/// The query, the limit and the offset of a search by name and contents, or its
/// refusal.
pub open spec fn match_terms(query: Seq<char>, limit: Option<usize>, offset: Option<usize>) -> Result<
    (Seq<char>, int, int),
    ErrorView,
> {
    let q = trim_text(query);
    let n = match limit {
        Some(n) => n as int,
        None => 100,
    };
    if q.len() == 0 {
        Err(bad_request("Query must not be blank"@))
    } else if n < 1 || n > 100 {
        Err(limit_error())
    } else {
        Ok(
            (
                q,
                n,
                match offset {
                    Some(o) => o as int,
                    None => 0,
                },
            ),
        )
    }
}

/// The query, the limit and the offset of a search by name and contents.
pub fn check_matches(query: &str, limit: Option<usize>, offset: Option<usize>) -> (r: Result<
    (String, usize, usize),
    ApiError,
>)
    ensures
        match match_terms(query@, limit, offset) {
            Ok(t) => r is Ok && (r->Ok_0.0)@ == t.0 && r->Ok_0.1 == t.1 && r->Ok_0.2 == t.2,
            Err(e) => r is Err && r->Err_0@ == e,
        },
{
    let q = trim(query);
    if q.as_str().is_empty() {
        return Err(ApiError::BadRequest("Query must not be blank".to_owned()));
    }
    let n: usize = match limit {
        Some(n) => n,
        None => 100,
    };
    if n < 1 || n > 100 {
        return Err(ApiError::BadRequest("limit must be 1..=100".to_owned()));
    }
    let o: usize = match offset {
        Some(o) => o,
        None => 0,
    };
    Ok((q, n, o))
}

/// The refusal of a search in what is no directory.
pub fn check_directory(is_dir: bool) -> (r: Result<(), ApiError>)
    ensures
        match r {
            Ok(_) => is_dir,
            Err(e) => !is_dir && e@ == not_found("Search directory not found"@),
        },
{
    if is_dir {
        Ok(())
    } else {
        Err(ApiError::NotFound("Search directory not found".to_owned()))
    }
}

// --- by name -----------------------------------------------------------------

/// How well a name matches, both in lower case: 0 for the same, 1 for a prefix, 2
/// for a part, or not at all. An empty query matches everything as a part.
pub open spec fn name_rank(name: Seq<char>, query: Seq<char>) -> Option<int> {
    if query.len() == 0 {
        Some(2)
    } else if name == query {
        Some(0)
    } else if query.is_prefix_of(name) {
        Some(1)
    } else if contains_text(name, query) {
        Some(2)
    } else {
        None
    }
}

/// How well a name matches.
pub fn rank_name(name: &str, query: &str) -> (r: Option<u64>)
    ensures
        match r {
            Some(n) => name_rank(name@, query@) == Some(n as int) && n <= 2,
            None => name_rank(name@, query@) is None,
        },
{
    if query.is_empty() {
        Some(2)
    } else if str_eq(name, query) {
        Some(0)
    } else if starts_with(name, query) {
        Some(1)
    } else if contains(name, query) {
        Some(2)
    } else {
        None
    }
}

/// What is known about files by path.
pub type Stats = spec_fn(Seq<char>) -> Option<Stat>;

/// The closure answers as `stats` says.
pub open spec fn looks_up<F: Fn(&str) -> Option<Stat>>(f: F, stats: Stats) -> bool {
    forall|p: &str, o: Option<Stat>| #[trigger] call_ensures(f, (p,), o) ==> o == stats(p@)
}

/// A result of a search by name.
#[derive(Debug)]
pub struct SearchResult {
    /// The path.
    pub path: String,
    /// The name.
    pub name: String,
    /// `file` or `directory`.
    pub kind: &'static str,
    /// The size in bytes.
    pub size: u64,
    /// When the file was changed, in nanoseconds since the start of 1970.
    pub modified: u128,
}

/// A result of a search by name.
pub struct SearchHit {
    /// The path.
    pub path: Seq<char>,
    /// The name.
    pub name: Seq<char>,
    /// `file` or `directory`.
    pub kind: Seq<char>,
    /// The size in bytes.
    pub size: u64,
    /// When the file was changed.
    pub modified: u128,
}

impl View for SearchResult {
    type V = SearchHit;

    open spec fn view(&self) -> SearchHit {
        SearchHit {
            path: self.path@,
            name: self.name@,
            kind: self.kind@,
            size: self.size,
            modified: self.modified,
        }
    }
}

impl Row for SearchResult {
    fn duplicate(&self) -> (r: Self) {
        SearchResult {
            path: self.path.clone(),
            name: self.name.clone(),
            kind: self.kind,
            size: self.size,
            modified: self.modified,
        }
    }
}

/// The answer to a search by name.
#[derive(Debug)]
pub struct SearchResponse {
    /// The results, the best first.
    pub results: Vec<SearchResult>,
}

/// The result and the key of a candidate, if it matches.
pub open spec fn search_row(
    c: CandidateView,
    target: Seq<char>,
    query: Seq<char>,
    stats: Stats,
) -> Option<(SearchHit, KeyView)> {
    match file_name_of(c.path) {
        None => None,
        Some(name) => match (name_rank(lowercase_of(name), query), stats(c.path)) {
            (Some(rank), Some(st)) => Some(
                (
                    SearchHit {
                        path: c.path,
                        name,
                        kind: kind_text(c.is_dir),
                        size: st.size,
                        modified: st.modified,
                    },
                    KeyView {
                        major: rank as nat,
                        minor: encode_utf8(name).len(),
                        parts: seq![lowercase_of(seen_from(c.path, target))],
                    },
                ),
            ),
            _ => None,
        },
    }
}

/// The results and keys of the candidates that match.
pub open spec fn search_rows(
    cands: Seq<CandidateView>,
    target: Seq<char>,
    query: Seq<char>,
    stats: Stats,
) -> (Seq<SearchHit>, Seq<KeyView>)
    decreases cands.len(),
{
    if cands.len() == 0 {
        (seq![], seq![])
    } else {
        let rest = search_rows(cands.drop_last(), target, query, stats);
        match search_row(cands.last(), target, query, stats) {
            Some(row) => (rest.0.push(row.0), rest.1.push(row.1)),
            None => rest,
        }
    }
}

/// The results of a search by name: ordered by rank, by the length of the name,
/// and by the path as seen from the directory, in lower case.
pub open spec fn search_results(
    cands: Seq<CandidateView>,
    target: Seq<char>,
    query: Seq<char>,
    stats: Stats,
    limit: nat,
) -> Seq<SearchHit> {
    let rows = search_rows(cands, target, query, stats);
    page_of(arranged(rows.0, order_of(rows.1)), 0, limit)
}

/// The query as it is compared.
pub open spec fn query_text(query: Option<Seq<char>>) -> Seq<char> {
    match query {
        Some(q) => lowercase_of(trim_text(q)),
        None => lowercase_of(trim_text(""@)),
    }
}

/// The results of a search by name.
pub fn search_files<F: Fn(&str) -> Option<Stat>>(
    cands: &Vec<Candidate>,
    target: &str,
    query: Option<&str>,
    limit: usize,
    stat: &F,
) -> (r: SearchResponse)
    requires
        forall|p: &str| call_requires(*stat, (p,)),
    ensures
        r.results@.len() <= limit,
        forall|stats: Stats| #[trigger]
            looks_up(*stat, stats) ==> views(r.results@) == search_results(
                views(cands@),
                target@,
                query_text(opt_str(query)),
                stats,
                limit as nat,
            ),
{
    let given = match query {
        Some(q) => trim(q),
        None => trim(""),
    };
    let wanted = to_lowercase(given.as_str());
    let mut rows: Vec<SearchResult> = Vec::new();
    let mut keys: Vec<SortKey> = Vec::new();
    let ghost all = views(cands@);
    let mut i: usize = 0;
    proof {
        assert(views(rows@) =~= seq![]);
        assert(key_views(keys@) =~= seq![]);
    }
    while i < cands.len()
        invariant
            i <= cands@.len(),
            all == views(cands@),
            rows@.len() == keys@.len(),
            wanted@ == query_text(opt_str(query)),
            forall|p: &str| call_requires(*stat, (p,)),
            forall|stats: Stats| #[trigger]
                looks_up(*stat, stats) ==> (views(rows@), key_views(keys@)) == search_rows(
                    all.take(i as int),
                    target@,
                    wanted@,
                    stats,
                ),
        decreases cands@.len() - i,
    {
        let ghost r0 = views(rows@);
        let ghost k0 = key_views(keys@);
        let c = &cands[i];
        proof {
            assert(all[i as int] == c@);
            assert(all.take(i as int + 1).drop_last() =~= all.take(i as int));
            assert(all.take(i as int + 1).last() == c@);
        }
        if let Some(name) = file_name(c.path.as_str()) {
            let lower = to_lowercase(name.as_str());
            if let Some(rank) = rank_name(lower.as_str(), wanted.as_str()) {
                let st = stat(c.path.as_str());
                if let Some(st) = st {
                    let rel = see_from(c.path.as_str(), target);
                    let rel_lower = to_lowercase(rel.as_str());
                    let minor: u64 = name.as_str().as_bytes().len() as u64;
                    let parts: Vec<String> = vec![rel_lower];
                    assert(texts(parts@) =~= seq![lowercase_of(seen_from(c.path@, target@))]);
                    let key = SortKey { major: rank, minor, parts };
                    let row = SearchResult {
                        path: c.path.clone(),
                        name,
                        kind: kind_name(c.is_dir),
                        size: st.size,
                        modified: st.modified,
                    };
                    let ghost rv = row@;
                    let ghost kv = key@;
                    rows.push(row);
                    keys.push(key);
                    proof {
                        assert(views(rows@) =~= r0.push(rv));
                        assert(key_views(keys@) =~= k0.push(kv));
                    }
                }
            }
        }
        i += 1;
    }
    assert(all.take(all.len() as int) =~= all);
    let results = page(&rows, &keys, 0, limit);
    assert(views(results@).len() == results@.len());
    SearchResponse { results }
}

// --- by name and contents ----------------------------------------------------

/// The most matches of one file.
pub const MAX_CONTENT_MATCHES_PER_FILE: usize = 3;

/// The largest file whose contents are searched.
pub const MAX_CONTENT_SEARCH_FILE_SIZE: u64 = 1_048_576;

/// How many bytes are looked at for a zero byte.
pub const SNIFF_BYTES: usize = 8192;

/// A line in which the text stands.
#[derive(Debug)]
pub struct ContentMatch {
    /// The number of the line, from 1.
    pub line: usize,
    /// The column, from 1, in UTF-16 code units.
    pub column: usize,
    /// The line without its end.
    pub text: String,
}

/// A line in which the text stands.
pub struct ContentHit {
    /// The number of the line, from 1.
    pub line: int,
    /// The column, from 1, in UTF-16 code units.
    pub column: int,
    /// The line without its end.
    pub text: Seq<char>,
}

impl View for ContentMatch {
    type V = ContentHit;

    open spec fn view(&self) -> ContentHit {
        ContentHit { line: self.line as int, column: self.column as int, text: self.text@ }
    }
}

impl Row for ContentMatch {
    fn duplicate(&self) -> (r: Self) {
        ContentMatch { line: self.line, column: self.column, text: self.text.clone() }
    }
}

/// How many UTF-16 code units a text takes.
pub open spec fn utf16_len(s: Seq<char>) -> nat
    decreases s.len(),
{
    if s.len() == 0 {
        0
    } else {
        utf16_len(s.drop_last()) + if s.last() as u32 >= 0x1_0000 {
            2nat
        } else {
            1nat
        }
    }
}

/// The lines of a text without their ends: what stands between line feeds, and
/// what follows the last one where that is not empty.
pub open spec fn bare_lines(text: Seq<char>) -> Seq<Seq<char>> {
    let pieces = split_on(text, '\n');
    let full = if pieces.last().len() == 0 {
        pieces.drop_last()
    } else {
        pieces
    };
    full.map_values(|p: Seq<char>| trimmed_end(p, CharSet::LineEnd))
}

/// The match in a line, if the text stands in it; the comparison is in lower
/// case, and so is the column.
pub open spec fn line_hit(line: Seq<char>, number: int, query: Seq<char>) -> Option<ContentHit> {
    match find_spec(lowercase_of(line), query, 0) {
        Some(at) => Some(
            ContentHit {
                line: number,
                column: utf16_len(lowercase_of(line).take(at)) as int + 1,
                text: line,
            },
        ),
        None => None,
    }
}

/// The first matches, at most `max`, in the first `n` lines.
pub open spec fn content_hits(
    lines: Seq<Seq<char>>,
    query: Seq<char>,
    n: nat,
    max: nat,
) -> Seq<ContentHit>
    decreases n,
{
    if n == 0 {
        seq![]
    } else {
        let rest = content_hits(lines, query, (n - 1) as nat, max);
        match line_hit(lines[n - 1], n as int, query) {
            Some(h) => if rest.len() < max {
                rest.push(h)
            } else {
                rest
            },
            None => rest,
        }
    }
}

/// What is known about a file without following links: whether it is a link, and
/// its size.
#[derive(Debug, Clone, Copy)]
pub struct LinkStat {
    /// Whether it is a link.
    pub is_symlink: bool,
    /// The size in bytes.
    pub size: u64,
}

/// Whether bytes look like no text: there is a zero byte among the first ones.
pub open spec fn looks_binary(bytes: Seq<u8>) -> bool {
    exists|i: int| 0 <= i < bytes.len() && i < SNIFF_BYTES && #[trigger] bytes[i] == 0u8
}

/// The matches in a file. Links, large files, files that cannot be read and
/// files that look like no text have none.
pub open spec fn file_matches(
    link: Option<LinkStat>,
    bytes: Option<Seq<u8>>,
    query: Seq<char>,
) -> Seq<ContentHit> {
    match (link, bytes) {
        (Some(l), Some(b)) => if l.is_symlink || l.size > MAX_CONTENT_SEARCH_FILE_SIZE
            || looks_binary(b) {
            seq![]
        } else {
            let lines = bare_lines(utf8_lossy(b));
            content_hits(lines, query, lines.len(), MAX_CONTENT_MATCHES_PER_FILE as nat)
        },
        _ => seq![],
    }
}

/// How many UTF-16 code units a character takes.
spec fn units(c: char) -> nat {
    if c as u32 >= 0x1_0000 {
        2
    } else {
        1
    }
}

proof fn lemma_utf16_front(s: Seq<char>)
    requires
        s.len() > 0,
    ensures
        utf16_len(s) == units(s[0]) + utf16_len(s.drop_first()),
    decreases s.len(),
{
    if s.len() == 1 {
        assert(s.drop_last() =~= seq![]);
        assert(s.drop_first() =~= seq![]);
        assert(utf16_len(s.drop_last()) == 0);
        assert(utf16_len(s.drop_first()) == 0);
    } else {
        lemma_utf16_front(s.drop_last());
        assert(s.drop_last().drop_first() =~= s.drop_first().drop_last());
    }
}

/// A text takes no more UTF-16 code units than bytes of UTF-8.
proof fn lemma_units_fit(s: Seq<char>, k: int)
    requires
        0 <= k <= s.len(),
    ensures
        utf16_len(s.take(k)) <= encode_utf8(s).len(),
        k < s.len() ==> utf16_len(s.take(k)) < encode_utf8(s).len(),
    decreases s.len(),
{
    if k == 0 {
        assert(s.take(0) =~= seq![]);
        if s.len() > 0 {
            assert(vstd::utf8::encode_scalar(s[0] as u32).len() >= 1);
        }
    } else {
        lemma_utf16_front(s.take(k));
        assert(s.take(k).drop_first() =~= s.drop_first().take(k - 1));
        lemma_units_fit(s.drop_first(), k - 1);
        assert(units(s[0]) <= vstd::utf8::encode_scalar(s[0] as u32).len());
    }
}

/// How many UTF-16 code units the first `n` characters take.
fn units_before(cs: &Vec<char>, n: usize) -> (r: usize)
    requires
        n <= cs@.len(),
        encode_utf8(cs@).len() <= usize::MAX,
    ensures
        r == utf16_len(cs@.take(n as int)),
{
    let mut r: usize = 0;
    let mut i: usize = 0;
    while i < n
        invariant
            i <= n,
            n <= cs@.len(),
            encode_utf8(cs@).len() <= usize::MAX,
            r == utf16_len(cs@.take(i as int)),
        decreases n - i,
    {
        proof {
            assert(cs@.take(i as int + 1).drop_last() =~= cs@.take(i as int));
            lemma_units_fit(cs@, i as int + 1);
        }
        if cs[i] as u32 >= 0x1_0000 {
            r += 2;
        } else {
            r += 1;
        }
        i += 1;
    }
    r
}

/// Whether bytes look like no text.
fn sniff(bytes: &[u8]) -> (r: bool)
    ensures
        r == looks_binary(bytes@),
{
    let mut i: usize = 0;
    while i < bytes.len() && i < SNIFF_BYTES
        invariant
            i <= bytes@.len(),
            i <= SNIFF_BYTES,
            forall|k: int| 0 <= k < i ==> #[trigger] bytes@[k] != 0u8,
        decreases SNIFF_BYTES - i,
    {
        if bytes[i] == 0 {
            assert(bytes@[i as int] == 0u8);
            return true;
        }
        i += 1;
    }
    false
}

/// The lines of a text without their ends.
fn split_bare_lines(text: &str) -> (r: Vec<String>)
    ensures
        texts(r@) == bare_lines(text@),
{
    let pieces = split(text, '\n');
    let ghost all = texts(pieces@);
    proof {
        crate::text::lemma_split_nonempty(text@, '\n');
        assert(all.len() == pieces@.len());
        assert(all.last() == pieces@[pieces@.len() - 1]@);
    }
    let n: usize = if pieces[pieces.len() - 1].as_str().is_empty() {
        pieces.len() - 1
    } else {
        pieces.len()
    };
    let ghost full = all.take(n as int);
    let ghost f = |p: Seq<char>| trimmed_end(p, CharSet::LineEnd);
    let mut r: Vec<String> = Vec::new();
    let mut i: usize = 0;
    assert(texts(r@) =~= full.take(0).map_values(f));
    while i < n
        invariant
            i <= n <= pieces@.len(),
            all == texts(pieces@),
            full == all.take(n as int),
            f == (|p: Seq<char>| trimmed_end(p, CharSet::LineEnd)),
            texts(r@) == full.take(i as int).map_values(f),
        decreases n - i,
    {
        let ghost r0 = texts(r@);
        assert(full[i as int] == pieces@[i as int]@);
        r.push(trim_end(pieces[i].as_str(), CharSet::LineEnd));
        proof {
            assert(texts(r@) =~= r0.push(f(full[i as int])));
            assert(full.take(i as int + 1).map_values(f) =~= full.take(i as int).map_values(f).push(
                f(full[i as int]),
            ));
        }
        i += 1;
    }
    proof {
        assert(full.take(n as int) =~= full);
        if n < all.len() {
            assert(full =~= all.drop_last());
        } else {
            assert(full =~= all);
        }
    }
    r
}

/// The match in a line, if the text stands in it.
fn match_line(line: &str, number: usize, query: &str) -> (r: Option<ContentMatch>)
    ensures
        match r {
            Some(m) => line_hit(line@, number as int, query@) == Some(m@),
            None => line_hit(line@, number as int, query@) is None,
        },
{
    let lowered = to_lowercase(line);
    match find(lowered.as_str(), query) {
        Some(at) => {
            let cs = chars_of(lowered.as_str());
            let total: usize = lowered.as_str().as_bytes().len();
            proof {
                assert(encode_utf8(cs@).len() == total);
                lemma_units_fit(cs@, at as int);
                if at == cs@.len() {
                    assert(query@.len() == 0);
                    if at > 0 {
                        assert(lowered@.subrange(0, 0) =~= query@);
                        assert(crate::find::occurs_at(lowered@, query@, 0));
                    }
                    assert(at == 0);
                    assert(cs@.take(0) =~= seq![]);
                    assert(utf16_len(cs@.take(0)) == 0);
                }
            }
            let column: usize = units_before(&cs, at) + 1;
            Some(ContentMatch { line: number, column, text: line.to_owned() })
        },
        None => None,
    }
}


/// The matches in a file, given what is known about it and its bytes.
pub fn content_matches(link: Option<LinkStat>, bytes: Option<&[u8]>, query_lower: &str) -> (r: Vec<
    ContentMatch,
>)
    ensures
        views(r@) == file_matches(
            link,
            match bytes {
                Some(b) => Some(b@),
                None => None,
            },
            query_lower@,
        ),
{
    let mut out: Vec<ContentMatch> = Vec::new();
    assert(views(out@) =~= seq![]);
    let l = match link {
        Some(l) => l,
        None => {
            return out;
        },
    };
    let b = match bytes {
        Some(b) => b,
        None => {
            return out;
        },
    };
    if l.is_symlink || l.size > MAX_CONTENT_SEARCH_FILE_SIZE || sniff(b) {
        return out;
    }
    let text = from_utf8_lossy(b);
    let lines = split_bare_lines(text.as_str());
    let ghost all = texts(lines@);
    let mut i: usize = 0;
    while i < lines.len()
        invariant
            i <= lines@.len(),
            all == texts(lines@),
            out@.len() <= MAX_CONTENT_MATCHES_PER_FILE,
            views(out@) == content_hits(
                all,
                query_lower@,
                i as nat,
                MAX_CONTENT_MATCHES_PER_FILE as nat,
            ),
        decreases lines@.len() - i,
    {
        let ghost o0 = views(out@);
        assert(all[i as int] == lines@[i as int]@);
        if out.len() < MAX_CONTENT_MATCHES_PER_FILE {
            if let Some(m) = match_line(lines[i].as_str(), i + 1, query_lower) {
                let ghost v = m@;
                out.push(m);
                assert(views(out@) =~= o0.push(v));
            }
        }
        i += 1;
    }
    out
}

/// A result of a search by name and contents.
#[derive(Debug)]
pub struct MatchResult {
    /// The path.
    pub path: String,
    /// The path as seen from the directory that was searched.
    pub relative_path: String,
    /// The name.
    pub name: String,
    /// `file` or `directory`.
    pub kind: &'static str,
    /// Whether the name or the path matches.
    pub name_match: bool,
    /// The lines that match.
    pub content_matches: Vec<ContentMatch>,
}

/// A result of a search by name and contents.
pub struct MatchHit {
    /// The path.
    pub path: Seq<char>,
    /// The path as seen from the directory that was searched.
    pub relative_path: Seq<char>,
    /// The name.
    pub name: Seq<char>,
    /// `file` or `directory`.
    pub kind: Seq<char>,
    /// Whether the name or the path matches.
    pub name_match: bool,
    /// The lines that match.
    pub content_matches: Seq<ContentHit>,
}

impl View for MatchResult {
    type V = MatchHit;

    open spec fn view(&self) -> MatchHit {
        MatchHit {
            path: self.path@,
            relative_path: self.relative_path@,
            name: self.name@,
            kind: self.kind@,
            name_match: self.name_match,
            content_matches: views(self.content_matches@),
        }
    }
}

impl Row for MatchResult {
    fn duplicate(&self) -> (r: Self) {
        let mut copies: Vec<ContentMatch> = Vec::new();
        let ghost all = views(self.content_matches@);
        let mut i: usize = 0;
        assert(views(copies@) =~= all.take(0));
        while i < self.content_matches.len()
            invariant
                i <= self.content_matches@.len(),
                all == views(self.content_matches@),
                views(copies@) == all.take(i as int),
            decreases self.content_matches@.len() - i,
        {
            let ghost c0 = views(copies@);
            let m = self.content_matches[i].duplicate();
            let ghost v = m@;
            copies.push(m);
            proof {
                assert(v == all[i as int]);
                assert(views(copies@) =~= c0.push(v));
                assert(views(copies@) =~= all.take(i as int + 1));
            }
            i += 1;
        }
        assert(all.take(all.len() as int) =~= all);
        MatchResult {
            path: self.path.clone(),
            relative_path: self.relative_path.clone(),
            name: self.name.clone(),
            kind: self.kind,
            name_match: self.name_match,
            content_matches: copies,
        }
    }
}

/// The answer to a search by name and contents.
#[derive(Debug)]
pub struct MatchesResponse {
    /// This page of results.
    pub results: Vec<MatchResult>,
    /// Where the next page starts, if there is one.
    pub next_offset: Option<usize>,
}

/// How well a name and a path match, all in lower case: 0 for the same name, 1
/// for a prefix of it, 2 for a part of it, 3 for a part of the path, 4 for none.
pub open spec fn match_score(name: Seq<char>, rel: Seq<char>, query: Seq<char>) -> int {
    if name == query {
        0
    } else if query.is_prefix_of(name) {
        1
    } else if contains_text(name, query) {
        2
    } else if contains_text(rel, query) {
        3
    } else {
        4
    }
}

/// How well a name and a path match.
pub fn score_match(name: &str, rel: &str, query: &str) -> (r: u64)
    ensures
        r == match_score(name@, rel@, query@),
{
    if str_eq(name, query) {
        0
    } else if starts_with(name, query) {
        1
    } else if contains(name, query) {
        2
    } else if contains(rel, query) {
        3
    } else {
        4
    }
}

/// What is known about files without following links, by path.
pub type LinkStats = spec_fn(Seq<char>) -> Option<LinkStat>;

/// The contents of files by path.
pub type Contents = spec_fn(Seq<char>) -> Option<Seq<u8>>;

/// The closures answer as `links` and `contents` say.
pub open spec fn reads<L: Fn(&str) -> Option<LinkStat>, R: Fn(&str) -> Option<Vec<u8>>>(
    lstat: L,
    read: R,
    links: LinkStats,
    contents: Contents,
) -> bool {
    &&& forall|p: &str, o: Option<LinkStat>| #[trigger]
        call_ensures(lstat, (p,), o) ==> o == links(p@)
    &&& forall|p: &str, o: Option<Vec<u8>>| #[trigger]
        call_ensures(read, (p,), o) ==> match o {
            Some(b) => contents(p@) == Some(b@),
            None => contents(p@) is None,
        }
}

/// The path of a candidate as seen from the directory, with slashes alone.
pub open spec fn slashed_rel(path: Seq<char>, target: Seq<char>) -> Seq<char> {
    replace_text(seen_from(path, target), seq!['\\'], seq!['/'])
}

/// The result and the key of a candidate, if its name, its path or a line in it
/// matches. Directories have no lines.
pub open spec fn match_row(
    c: CandidateView,
    target: Seq<char>,
    query: Seq<char>,
    links: LinkStats,
    contents: Contents,
) -> Option<(MatchHit, KeyView)> {
    match file_name_of(c.path) {
        None => None,
        Some(name) => {
            let rel = slashed_rel(c.path, target);
            let score = match_score(lowercase_of(name), lowercase_of(rel), query);
            let found = if c.is_dir {
                seq![]
            } else {
                file_matches(links(c.path), contents(c.path), query)
            };
            if score == 4 && found.len() == 0 {
                None
            } else {
                Some(
                    (
                        MatchHit {
                            path: c.path,
                            relative_path: rel,
                            name,
                            kind: kind_text(c.is_dir),
                            name_match: score < 4,
                            content_matches: found,
                        },
                        KeyView {
                            major: score as nat,
                            minor: encode_utf8(rel).len(),
                            parts: seq![lowercase_of(rel)],
                        },
                    ),
                )
            }
        },
    }
}

/// The results and keys of the candidates that match.
pub open spec fn match_rows(
    cands: Seq<CandidateView>,
    target: Seq<char>,
    query: Seq<char>,
    links: LinkStats,
    contents: Contents,
) -> (Seq<MatchHit>, Seq<KeyView>)
    decreases cands.len(),
{
    if cands.len() == 0 {
        (seq![], seq![])
    } else {
        let rest = match_rows(cands.drop_last(), target, query, links, contents);
        match match_row(cands.last(), target, query, links, contents) {
            Some(row) => (rest.0.push(row.0), rest.1.push(row.1)),
            None => rest,
        }
    }
}

/// All results of a search by name and contents: ordered by score, by the
/// length of the path as seen from the directory, and by that path in lower case.
pub open spec fn ordered_matches(
    cands: Seq<CandidateView>,
    target: Seq<char>,
    query: Seq<char>,
    links: LinkStats,
    contents: Contents,
) -> Seq<MatchHit> {
    let rows = match_rows(cands, target, query, links, contents);
    arranged(rows.0, order_of(rows.1))
}

/// A page of the results of a search by name and contents. `query` is what
/// [`check_matches`] hands out.
pub fn match_files<L: Fn(&str) -> Option<LinkStat>, R: Fn(&str) -> Option<Vec<u8>>>(
    cands: &Vec<Candidate>,
    target: &str,
    query: &str,
    offset: usize,
    limit: usize,
    lstat: &L,
    read: &R,
) -> (r: MatchesResponse)
    requires
        forall|p: &str| call_requires(*lstat, (p,)),
        forall|p: &str| call_requires(*read, (p,)),
    ensures
        r.results@.len() <= limit,
        forall|links: LinkStats, contents: Contents| #[trigger]
            reads(*lstat, *read, links, contents) ==> ({
                let all = ordered_matches(
                    views(cands@),
                    target@,
                    lowercase_of(query@),
                    links,
                    contents,
                );
                &&& views(r.results@) == page_of(all, offset as nat, limit as nat)
                &&& r.next_offset is Some <==> offset + limit < all.len()
            }),
        r.next_offset is Some ==> r.next_offset->0 == offset + limit,
{
    let query_lower = to_lowercase(query);
    let mut rows: Vec<MatchResult> = Vec::new();
    let mut keys: Vec<SortKey> = Vec::new();
    let ghost all = views(cands@);
    let mut i: usize = 0;
    proof {
        assert(views(rows@) =~= seq![]);
        assert(key_views(keys@) =~= seq![]);
        reveal_strlit("\\");
        reveal_strlit("/");
        assert("\\"@ =~= seq!['\\']);
        assert("/"@ =~= seq!['/']);
    }
    while i < cands.len()
        invariant
            i <= cands@.len(),
            all == views(cands@),
            rows@.len() == keys@.len(),
            query_lower@ == lowercase_of(query@),
            "\\"@ == seq!['\\'],
            "/"@ == seq!['/'],
            forall|p: &str| call_requires(*lstat, (p,)),
            forall|p: &str| call_requires(*read, (p,)),
            forall|links: LinkStats, contents: Contents| #[trigger]
                reads(*lstat, *read, links, contents) ==> (views(rows@), key_views(keys@))
                    == match_rows(all.take(i as int), target@, query_lower@, links, contents),
        decreases cands@.len() - i,
    {
        let ghost r0 = views(rows@);
        let ghost k0 = key_views(keys@);
        let c = &cands[i];
        proof {
            assert(all[i as int] == c@);
            assert(all.take(i as int + 1).drop_last() =~= all.take(i as int));
            assert(all.take(i as int + 1).last() == c@);
        }
        if let Some(name) = file_name(c.path.as_str()) {
            let seen = see_from(c.path.as_str(), target);
            let rel = replace_all(seen.as_str(), "\\", "/");
            let name_lower = to_lowercase(name.as_str());
            let rel_lower = to_lowercase(rel.as_str());
            let score: u64 = score_match(name_lower.as_str(), rel_lower.as_str(), query_lower.as_str());
            let found: Vec<ContentMatch> = if c.is_dir {
                Vec::new()
            } else {
                find_in_file(c.path.as_str(), query_lower.as_str(), lstat, read)
            };
            proof {
                if c.is_dir {
                    assert(views(found@) =~= seq![]);
                }
                assert(views(found@).len() == found@.len());
            }
            if score < 4 || found.len() > 0 {
                let minor: u64 = rel.as_str().as_bytes().len() as u64;
                let parts: Vec<String> = vec![rel_lower];
                assert(texts(parts@) =~= seq![lowercase_of(rel@)]);
                let key = SortKey { major: score, minor, parts };
                let row = MatchResult {
                    path: c.path.clone(),
                    relative_path: rel,
                    name,
                    kind: kind_name(c.is_dir),
                    name_match: score < 4,
                    content_matches: found,
                };
                let ghost rv = row@;
                let ghost kv = key@;
                rows.push(row);
                keys.push(key);
                proof {
                    assert(views(rows@) =~= r0.push(rv));
                    assert(key_views(keys@) =~= k0.push(kv));
                }
            }
        }
        i += 1;
    }
    let total: usize = rows.len();
    let next_offset: Option<usize> = if offset < total && limit < total - offset {
        Some(offset + limit)
    } else {
        None
    };
    let results = page(&rows, &keys, offset, limit);
    proof {
        assert(all.take(all.len() as int) =~= all);
        assert(views(results@).len() == results@.len());
        assert(views(rows@).len() == rows@.len());
        assert(key_views(keys@).len() == keys@.len());
        assert forall|links: LinkStats, contents: Contents| #[trigger]
            reads(*lstat, *read, links, contents) implies ordered_matches(
            all,
            target@,
            lowercase_of(query@),
            links,
            contents,
        ).len() == total by {
        }
    }
    MatchesResponse { results, next_offset }
}

/// The lines of a file that match.
fn find_in_file<L: Fn(&str) -> Option<LinkStat>, R: Fn(&str) -> Option<Vec<u8>>>(
    path: &str,
    query: &str,
    lstat: &L,
    read: &R,
) -> (r: Vec<ContentMatch>)
    requires
        forall|p: &str| call_requires(*lstat, (p,)),
        forall|p: &str| call_requires(*read, (p,)),
    ensures
        forall|links: LinkStats, contents: Contents| #[trigger]
            reads(*lstat, *read, links, contents) ==> views(r@) == file_matches(
                links(path@),
                contents(path@),
                query@,
            ),
{
    let link = lstat(path);
    let worth = match link {
        Some(l) => !l.is_symlink && l.size <= MAX_CONTENT_SEARCH_FILE_SIZE,
        None => false,
    };
    if !worth {
        return content_matches(link, None, query);
    }
    match read(path) {
        Some(b) => content_matches(link, Some(b.as_slice()), query),
        None => content_matches(link, None, query),
    }
}

/// What a result is ordered by: its score, the length of its path as seen from
/// the directory, and that path in lower case.
pub open spec fn match_key(hit: MatchHit, query: Seq<char>) -> KeyView {
    KeyView {
        major: match_score(lowercase_of(hit.name), lowercase_of(hit.relative_path), query) as nat,
        minor: encode_utf8(hit.relative_path).len(),
        parts: seq![lowercase_of(hit.relative_path)],
    }
}

proof fn lemma_match_keys(
    cands: Seq<CandidateView>,
    target: Seq<char>,
    query: Seq<char>,
    links: LinkStats,
    contents: Contents,
)
    ensures
        match_rows(cands, target, query, links, contents).1 == match_rows(
            cands,
            target,
            query,
            links,
            contents,
        ).0.map_values(|h: MatchHit| match_key(h, query)),
    decreases cands.len(),
{
    let rows = match_rows(cands, target, query, links, contents);
    if cands.len() > 0 {
        lemma_match_keys(cands.drop_last(), target, query, links, contents);
    }
    assert(rows.1 =~= rows.0.map_values(|h: MatchHit| match_key(h, query)));
}

/// The pages of a search by name and contents, each at the offset that the one
/// before gives, are together all results that there are, each once, and no
/// result comes before one with a smaller key.
pub proof fn law_pages_are_all_matches(
    cands: Seq<CandidateView>,
    target: Seq<char>,
    query: Seq<char>,
    links: LinkStats,
    contents: Contents,
    limit: nat,
)
    requires
        limit > 0,
    ensures
        ({
            let rows = match_rows(cands, target, query, links, contents);
            let order = order_of(rows.1);
            let all = ordered_matches(cands, target, query, links, contents);
            &&& pages_from(all, 0, limit) == all
            &&& all == arranged(rows.0, order)
            &&& order.no_duplicates()
            &&& order.to_set() == vstd::set_lib::set_int_range(0, rows.0.len() as int)
            &&& forall|x: int, y: int|
                0 <= x < y < all.len() ==> !key_lt(
                    match_key(#[trigger] all[y], query),
                    match_key(#[trigger] all[x], query),
                )
        }),
{
    let rows = match_rows(cands, target, query, links, contents);
    let order = order_of(rows.1);
    let all = ordered_matches(cands, target, query, links, contents);
    lemma_match_keys(cands, target, query, links, contents);
    law_order_exists(rows.1);
    law_pages_cover(all, 0, limit);
    assert forall|x: int, y: int| 0 <= x < y < all.len() implies !key_lt(
        match_key(#[trigger] all[y], query),
        match_key(#[trigger] all[x], query),
    ) by {
        assert(row_before(rows.1, order[x], order[y]));
        let (a, b) = (rows.1[order[x]], rows.1[order[y]]);
        assert(a == match_key(all[x], query) && b == match_key(all[y], query));
        if key_lt(b, a) {
            if key_lt(a, b) {
                lemma_key_transitive(a, b, a);
            }
            lemma_key_irreflexive(a);
        }
    }
}

// --- what searches by name mean ----------------------------------------------

/// A search by name has 20 results where it does not say, as many as it says from 1
/// to 100, and is refused beyond that; the kind is looked at where the limit is
/// right.
pub proof fn law_search_terms(n: usize, kind: Option<Seq<char>>)
    ensures
        search_terms(None, kind) == search_terms(Some(20usize), kind),
        1 <= n <= 100 ==> search_terms(Some(n), kind) == match want_named(kind) {
            Ok(w) => Ok::<(int, WantKind), ErrorView>((n as int, w)),
            Err(e) => Err::<(int, WantKind), ErrorView>(e),
        },
        n < 1 || n > 100 ==> search_terms(Some(n), kind) == Err::<(int, WantKind), ErrorView>(
            ErrorView { status: 400, detail: "limit must be 1..=100"@ },
        ),
{
}

/// A search by name and contents is refused where its query is blank, then where
/// its limit is not from 1 to 100; else it looks for the query without the white
/// space around it, from the offset that is given or the start.
pub proof fn law_match_terms(query: Seq<char>, n: usize, offset: Option<usize>)
    ensures
        match_terms(query, None, offset) == match_terms(query, Some(100usize), offset),
        trim_text(query).len() == 0 ==> match_terms(query, Some(n), offset) == Err::<
            (Seq<char>, int, int),
            ErrorView,
        >(ErrorView { status: 400, detail: "Query must not be blank"@ }),
        trim_text(query).len() > 0 && (n < 1 || n > 100) ==> match_terms(query, Some(n), offset)
            == Err::<(Seq<char>, int, int), ErrorView>(
            ErrorView { status: 400, detail: "limit must be 1..=100"@ },
        ),
        trim_text(query).len() > 0 && 1 <= n <= 100 ==> match_terms(query, Some(n), offset) == Ok::<
            (Seq<char>, int, int),
            ErrorView,
        >((trim_text(query), n as int, if offset is Some {
            offset->0 as int
        } else {
            0
        })),
{
}

/// A name that is the query is best, one that goes on behind it comes next, and one
/// that holds it elsewhere matches too. An empty query matches every name in the
/// same way.
pub proof fn law_rank_of_match(query: Seq<char>, front: Seq<char>, back: Seq<char>)
    requires
        query.len() > 0,
    ensures
        name_rank(query, query) == Some(0int),
        back.len() > 0 ==> name_rank(query + back, query) == Some(1int),
        name_rank(front + query + back, query) is Some,
        name_rank(front, seq![]) == Some(2int),
{
    let all = front + query + back;
    crate::find::law_find_holds(front, query, back);
    crate::find::law_find_contains(all, query);
    let t = query + back;
    assert(t.take(query.len() as int) =~= query);
}

/// A name has a rank exactly where it holds the query: 0 only where it is the
/// query, 1 only where it begins with it, and else 2.
pub proof fn law_name_rank(name: Seq<char>, query: Seq<char>)
    requires
        query.len() > 0,
    ensures
        name_rank(name, query) is None <==> !contains_text(name, query),
        name_rank(name, query) == Some(0int) <==> name == query,
        name_rank(name, query) == Some(1int) <==> name != query && query.is_prefix_of(name),
        name_rank(name, query) matches Some(n) ==> 0 <= n <= 2,
{
    if query.is_prefix_of(name) {
        lemma_prefix_contained(name, query);
    }
}

proof fn lemma_prefix_contained(name: Seq<char>, query: Seq<char>)
    requires
        query.is_prefix_of(name),
    ensures
        contains_text(name, query),
{
    let none = Seq::<char>::empty();
    let rest = name.skip(query.len() as int);
    assert(name.take(query.len() as int) =~= query);
    crate::find::law_find_holds(none, query, rest);
    assert(none + query + rest =~= name);
    crate::find::law_find_contains(name, query);
}

/// The score of a name and a path: that of the name where it holds the query, else
/// 3 where the path does, else 4.
pub proof fn law_match_score(name: Seq<char>, rel: Seq<char>, query: Seq<char>)
    requires
        query.len() > 0,
    ensures
        match_score(name, rel, query) < 3 <==> contains_text(name, query),
        contains_text(name, query) ==> Some(match_score(name, rel, query)) == name_rank(name, query),
        !contains_text(name, query) && contains_text(rel, query) ==> match_score(name, rel, query)
            == 3,
        !contains_text(name, query) && !contains_text(rel, query) ==> match_score(name, rel, query)
            == 4,
{
    law_name_rank(name, query);
    if query.is_prefix_of(name) {
        lemma_prefix_contained(name, query);
    }
}

/// A candidate is found exactly where it has a name that holds the query and can be
/// looked at. It is shown with its path, its name, its kind, its size and its time,
/// and ordered by how well its name matches, by the length of its name, and by its
/// path as seen from the directory, in lower case.
pub proof fn law_search_row(
    c: CandidateView,
    target: Seq<char>,
    query: Seq<char>,
    stats: Stats,
)
    ensures
        search_row(c, target, query, stats) is Some <==> file_name_of(c.path) is Some && stats(
            c.path,
        ) is Some && name_rank(lowercase_of(file_name_of(c.path)->0), query) is Some,
        search_row(c, target, query, stats) matches Some(row) ==> {
            &&& row.0.path == c.path
            &&& Some(row.0.name) == file_name_of(c.path)
            &&& row.0.kind == if c.is_dir {
                "directory"@
            } else {
                "file"@
            }
            &&& row.0.size == (stats(c.path)->0).size
            &&& row.0.modified == (stats(c.path)->0).modified
            &&& Some(row.1.major as int) == name_rank(lowercase_of(row.0.name), query)
            &&& row.1.minor == encode_utf8(row.0.name).len()
            &&& row.1.parts == seq![lowercase_of(seen_from(c.path, target))]
        },
{
    if file_name_of(c.path) is Some {
        let name = lowercase_of(file_name_of(c.path)->0);
        if query.len() > 0 {
            law_name_rank(name, query);
        }
    }
}

/// Candidates are looked at one after the other, each for itself.
pub proof fn law_search_adds_up(
    x: Seq<CandidateView>,
    c: CandidateView,
    target: Seq<char>,
    query: Seq<char>,
    stats: Stats,
)
    ensures
        search_rows(seq![], target, query, stats).0.len() == 0,
        search_rows(x, target, query, stats).0.len() == search_rows(x, target, query, stats).1.len(),
        search_rows(x.push(c), target, query, stats) == match search_row(c, target, query, stats) {
            Some(row) => (
                search_rows(x, target, query, stats).0.push(row.0),
                search_rows(x, target, query, stats).1.push(row.1),
            ),
            None => search_rows(x, target, query, stats),
        },
    decreases x.len(),
{
    assert(x.push(c).drop_last() =~= x);
    if x.len() > 0 {
        law_search_adds_up(x.drop_last(), x.last(), target, query, stats);
        assert(x.drop_last().push(x.last()) =~= x);
    }
}

/// The results of a search by name are the best of all that are found: none that is
/// left out, and none that comes later, has a smaller key.
pub proof fn law_search_results(
    cands: Seq<CandidateView>,
    target: Seq<char>,
    query: Seq<char>,
    stats: Stats,
    limit: nat,
)
    ensures
        ({
            let rows = search_rows(cands, target, query, stats);
            let order = order_of(rows.1);
            let results = search_results(cands, target, query, stats, limit);
            &&& rows.0.len() == rows.1.len()
            &&& order.len() == rows.0.len()
            &&& order.no_duplicates()
            &&& results.len() == if rows.0.len() <= limit {
                rows.0.len()
            } else {
                limit
            }
            &&& forall|x: int|
                0 <= x < results.len() ==> #[trigger] results[x] == rows.0[order[x]]
            &&& forall|x: int, y: int|
                0 <= x < y < order.len() ==> !key_lt(
                    rows.1[#[trigger] order[y]],
                    rows.1[#[trigger] order[x]],
                )
        }),
{
    let rows = search_rows(cands, target, query, stats);
    if cands.len() > 0 {
        law_search_adds_up(cands, cands.last(), target, query, stats);
    }
    law_order_exists(rows.1);
    crate::order::law_arranged(rows.0, rows.1);
    let order = order_of(rows.1);
    assert forall|x: int, y: int| 0 <= x < y < order.len() implies !key_lt(
        rows.1[#[trigger] order[y]],
        rows.1[#[trigger] order[x]],
    ) by {
        let (a, b) = (rows.1[order[x]], rows.1[order[y]]);
        lemma_key_irreflexive(a);
        if key_lt(a, b) && key_lt(b, a) {
            lemma_key_transitive(a, b, a);
        }
    }
    crate::order::law_page(arranged(rows.0, order), 0, limit);
}

/// The query of a search by name is compared in lower case and without the white
/// space around it; no query is an empty one.
pub proof fn law_query_text(lead: Seq<char>, core: Seq<char>, trail: Seq<char>)
    requires
        crate::chars::all_in(lead, CharSet::Space),
        crate::chars::all_in(trail, CharSet::Space),
        core.len() > 0 ==> !crate::chars::is_space(core[0]) && !crate::chars::is_space(core.last()),
    ensures
        query_text(Some(lead + core + trail)) == lowercase_of(core),
        query_text(None) == lowercase_of(seq![]),
{
    crate::chars::law_trim_exact(lead, core, trail, CharSet::Space);
    let none = Seq::<char>::empty();
    reveal_strlit("");
    crate::chars::law_trim_exact(none, none, none, CharSet::Space);
    assert(none + none + none =~= ""@);
}

// --- what searches by contents mean ------------------------------------------

/// Characters beyond the first 65,536 take two UTF-16 code units, all others one.
pub proof fn law_utf16_len(a: Seq<char>, c: char)
    ensures
        utf16_len(seq![]) == 0,
        utf16_len(a.push(c)) == utf16_len(a) + if c as int >= 65_536 {
            2nat
        } else {
            1nat
        },
{
    assert(a.push(c).drop_last() =~= a);
}

/// A line matches exactly where its lower-case form holds the query. It is shown as
/// it is, with its number and the column, in UTF-16 code units from 1, at which the
/// query first stands.
pub proof fn law_line_hit(line: Seq<char>, number: int, query: Seq<char>)
    ensures
        line_hit(line, number, query) is Some <==> contains_text(lowercase_of(line), query),
        line_hit(line, number, query) matches Some(h) ==> {
            &&& h.line == number
            &&& h.text == line
            &&& find_spec(lowercase_of(line), query, 0) matches Some(at) && h.column == utf16_len(
                lowercase_of(line).take(at),
            ) + 1
        },
{
    crate::find::law_find_contains(lowercase_of(line), query);
}

/// The matches of lines: each is that of the line whose number it has, the numbers
/// rise, and a line that matches is left out only where there are `max` matches
/// before it.
pub open spec fn content_exact(
    found: Seq<ContentHit>,
    lines: Seq<Seq<char>>,
    query: Seq<char>,
    n: int,
    max: int,
) -> bool {
    &&& found.len() <= max
    &&& forall|i: int|
        0 <= i < found.len() ==> {
            let h = #[trigger] found[i];
            1 <= h.line <= n && line_hit(lines[h.line - 1], h.line, query) == Some(h)
        }
    &&& forall|i: int, j: int|
        0 <= i < j < found.len() ==> (#[trigger] found[i]).line < (#[trigger] found[j]).line
    &&& forall|l: int|
        1 <= l <= n && (#[trigger] line_hit(lines[l - 1], l, query)) is Some ==> content_found(
            found,
            l,
        ) || (found.len() == max && (max > 0 ==> found.last().line < l))
}

/// A line is among the matches.
pub open spec fn content_found(found: Seq<ContentHit>, l: int) -> bool {
    exists|i: int| 0 <= i < found.len() && (#[trigger] found[i]).line == l
}

proof fn lemma_content_hits(lines: Seq<Seq<char>>, query: Seq<char>, n: nat, max: nat)
    requires
        n <= lines.len(),
    ensures
        content_exact(content_hits(lines, query, n, max), lines, query, n as int, max as int),
    decreases n,
{
    let found = content_hits(lines, query, n, max);
    if n > 0 {
        let rest = content_hits(lines, query, (n - 1) as nat, max);
        lemma_content_hits(lines, query, (n - 1) as nat, max);
        assert forall|l: int|
            1 <= l <= n && (#[trigger] line_hit(lines[l - 1], l, query)) is Some implies content_found(
            found,
            l,
        ) || (found.len() == max && (max > 0 ==> found.last().line < l)) by {
            if l < n {
                if content_found(rest, l) {
                    let i = choose|i: int| 0 <= i < rest.len() && (#[trigger] rest[i]).line == l;
                    assert(found[i].line == l);
                }
            } else if rest.len() < max {
                assert(found[found.len() - 1].line == l);
            } else {
                if max > 0 {
                    assert(rest[rest.len() - 1].line <= n - 1);
                }
            }
        }
    }
}

/// The contents of a file are searched where it is known, no link, no larger than a
/// mebibyte, can be read, and has no zero byte among its first 8192; the first three
/// lines that match are then shown. Any other file has no matches.
pub proof fn law_file_matches(l: LinkStat, b: Seq<u8>, query: Seq<char>)
    ensures
        l.is_symlink || l.size > 1_048_576 || (exists|i: int|
            0 <= i < b.len() && i < 8192 && #[trigger] b[i] == 0u8) ==> file_matches(
            Some(l),
            Some(b),
            query,
        ).len() == 0,
        !l.is_symlink && l.size <= 1_048_576 && !(exists|i: int|
            0 <= i < b.len() && i < 8192 && #[trigger] b[i] == 0u8) ==> content_exact(
            file_matches(Some(l), Some(b), query),
            bare_lines(utf8_lossy(b)),
            query,
            bare_lines(utf8_lossy(b)).len() as int,
            3,
        ),
        file_matches(None, Some(b), query).len() == 0,
        file_matches(Some(l), None, query).len() == 0,
        file_matches(None, None, query).len() == 0,
{
    let lines = bare_lines(utf8_lossy(b));
    lemma_content_hits(lines, query, lines.len(), 3);
}

/// The lines that are searched are those between line feeds, without line feeds and
/// carriage returns at their ends; nothing behind the last line feed is no line.
pub proof fn law_bare_lines(rows: Seq<Seq<char>>, tail: Seq<char>)
    requires
        forall|i: int| 0 <= i < rows.len() ==> crate::text::is_row(#[trigger] rows[i]),
        crate::text::is_row(tail),
    ensures
        bare_lines(crate::text::ended_rows(rows, seq!['\n']) + tail) == if tail.len() == 0 {
            rows.map_values(|r: Seq<char>| trimmed_end(r, CharSet::LineEnd))
        } else {
            rows.push(tail).map_values(|r: Seq<char>| trimmed_end(r, CharSet::LineEnd))
        },
{
    let none = Seq::<char>::empty();
    assert(none + seq!['\n'] =~= seq!['\n']);
    crate::text::lemma_split_ended(rows, none, tail);
    let plain = rows.map_values(|r: Seq<char>| r + none);
    assert forall|i: int| 0 <= i < rows.len() implies plain[i] == rows[i] by {
        assert(rows[i] + none =~= rows[i]);
    }
    assert(plain =~= rows);
    assert(rows.push(tail).drop_last() =~= rows);
}

/// A candidate is found by name and contents exactly where it has a name, and its
/// name, its path or a line in it matches. It is shown with all of these, lines only
/// for files, and ordered by its score, the length of its path as seen from the
/// directory, and that path in lower case.
pub proof fn law_match_row(
    c: CandidateView,
    target: Seq<char>,
    query: Seq<char>,
    links: LinkStats,
    contents: Contents,
)
    ensures
        ({
            let rel = slashed_rel(c.path, target);
            let score = match_score(
                lowercase_of(file_name_of(c.path)->0),
                lowercase_of(rel),
                query,
            );
            let found = file_matches(links(c.path), contents(c.path), query);
            &&& match_row(c, target, query, links, contents) is Some <==> file_name_of(c.path)
                is Some && (score < 4 || (!c.is_dir && found.len() > 0))
            &&& match_row(c, target, query, links, contents) matches Some(row) ==> {
                &&& row.0.path == c.path
                &&& row.0.relative_path == rel
                &&& Some(row.0.name) == file_name_of(c.path)
                &&& row.0.kind == if c.is_dir {
                    "directory"@
                } else {
                    "file"@
                }
                &&& row.0.name_match <==> score < 4
                &&& row.0.content_matches == if c.is_dir {
                    Seq::<ContentHit>::empty()
                } else {
                    found
                }
                &&& row.1 == match_key(row.0, query)
                &&& row.1.major == score
                &&& row.1.minor == encode_utf8(rel).len()
                &&& row.1.parts == seq![lowercase_of(rel)]
            }
        }),
{
}

/// Candidates are looked at one after the other, each for itself.
pub proof fn law_matches_add_up(
    x: Seq<CandidateView>,
    c: CandidateView,
    target: Seq<char>,
    query: Seq<char>,
    links: LinkStats,
    contents: Contents,
)
    ensures
        match_rows(seq![], target, query, links, contents).0.len() == 0,
        match_rows(x.push(c), target, query, links, contents) == match match_row(
            c,
            target,
            query,
            links,
            contents,
        ) {
            Some(row) => (
                match_rows(x, target, query, links, contents).0.push(row.0),
                match_rows(x, target, query, links, contents).1.push(row.1),
            ),
            None => match_rows(x, target, query, links, contents),
        },
{
    assert(x.push(c).drop_last() =~= x);
}

/// The path of a result is the way from the directory that was searched, as it is
/// where it holds no backslash.
pub proof fn law_slashed_rel(target: Seq<char>, parts: Seq<Seq<char>>)
    requires
        crate::path::proper_parts(parts),
        !crate::path::relative_path(parts).contains('\\'),
    ensures
        slashed_rel(crate::path::joined(target, crate::path::relative_path(parts)), target)
            == crate::path::relative_path(parts),
{
    let rel = crate::path::relative_path(parts);
    crate::path::law_seen_from(target, parts);
    let needle = seq!['\\'];
    assert(!contains_text(rel, needle)) by {
        if contains_text(rel, needle) {
            let i = choose|i: int| crate::find::occurs_at(rel, needle, i);
            assert(rel.subrange(i, i + 1)[0] == '\\');
            assert(rel[i] == '\\');
        }
    }
    crate::find::law_replace_everywhere(rel, needle, seq!['/']);
}

} // verus!
