//! Files of the workspace: listing, reading, writing, moving, deleting and
//! editing. What is observed on disk is handed in; what is to be done, and how a
//! request is answered, is decided here.

use vstd::prelude::*;
use vstd::utf8::{encode_utf8, valid_utf8};

use crate::chars::{
    all_in, ascii_lower_text, is_space, to_ascii_lower, trim, trim_text, CharSet,
};
use crate::error::{bad_request, internal, not_found, ApiError, ErrorView};
use crate::find::{
    contains_text, count, count_from, find_spec, replace_all, replace_from, replace_text,
    replace_upto, starts_with,
};
use crate::number::{decimal, u64_decimal};
use crate::order::{sort_texts, sorted_texts, views};
use crate::outside::{from_utf8, from_utf8_lossy, guess_mime, mime_of, utf8_lossy};
use crate::path::{file_name, file_name_of, join_path, joined, parent, parent_of};
use crate::search::{kind_name, kind_text};
use crate::text::{
    concat2, concat3, concat_texts, ended_rows, is_row, join, join_with, lines, lines_of, opt_str,
    opt_text, split, split_on, str_eq, texts, view_result,
};

verus! {

// --- requests ----------------------------------------------------------------

/// The directory to work in.
#[derive(Debug)]
pub struct CwdRequest {
    /// The directory.
    pub path: String,
}

/// The directory to list.
#[derive(Debug)]
pub struct ListQuery {
    /// The directory; the workspace itself where nothing is said.
    pub directory: Option<String>,
}

/// The path to work on.
#[derive(Debug)]
pub struct PathQuery {
    /// The path.
    pub path: String,
}

/// The file to read, and which of its lines.
#[derive(Debug)]
pub struct ReadQuery {
    /// The path.
    pub path: String,
    /// The first line, from 1.
    pub start_line: Option<usize>,
    /// The last line.
    pub end_line: Option<usize>,
}

/// A file to write.
#[derive(Debug)]
pub struct WriteRequest {
    /// The path.
    pub path: String,
    /// The whole text.
    pub content: String,
}

/// The path to work on.
#[derive(Debug)]
pub struct PathBody {
    /// The path.
    pub path: String,
}

/// What to move where.
#[derive(Debug)]
pub struct MoveRequest {
    /// What to move.
    pub source: String,
    /// Where to.
    pub destination: String,
}

/// A text to be replaced by another.
#[derive(Debug)]
pub struct ReplacementChunk {
    /// The text to be replaced.
    pub target: String,
    /// What takes its place.
    pub replacement: String,
    /// The first line to look at, from 1.
    pub start_line: Option<usize>,
    /// The last line to look at.
    pub end_line: Option<usize>,
    /// Whether the text may stand there more than once.
    pub allow_multiple: bool,
}

/// A text to be replaced by another.
pub struct ChunkView {
    /// The text to be replaced.
    pub target: Seq<char>,
    /// What takes its place.
    pub replacement: Seq<char>,
    /// The first line to look at, from 1.
    pub start_line: Option<usize>,
    /// The last line to look at.
    pub end_line: Option<usize>,
    /// Whether the text may stand there more than once.
    pub allow_multiple: bool,
}

impl View for ReplacementChunk {
    type V = ChunkView;

    open spec fn view(&self) -> ChunkView {
        ChunkView {
            target: self.target@,
            replacement: self.replacement@,
            start_line: self.start_line,
            end_line: self.end_line,
            allow_multiple: self.allow_multiple,
        }
    }
}

/// A file to edit.
#[derive(Debug)]
pub struct ReplaceRequest {
    /// The path.
    pub path: String,
    /// What to replace, in order.
    pub replacements: Vec<ReplacementChunk>,
}

// --- what is there -----------------------------------------------------------

/// The refusal of what is no directory.
pub fn check_is_dir(is_dir: bool) -> (r: Result<(), ApiError>)
    ensures
        match r {
            Ok(_) => is_dir,
            Err(e) => !is_dir && e@ == not_found("Directory not found"@),
        },
{
    if is_dir {
        Ok(())
    } else {
        Err(ApiError::NotFound("Directory not found".to_owned()))
    }
}

/// The refusal of what is no file.
pub fn check_is_file(is_file: bool) -> (r: Result<(), ApiError>)
    ensures
        match r {
            Ok(_) => is_file,
            Err(e) => !is_file && e@ == not_found("File not found"@),
        },
{
    if is_file {
        Ok(())
    } else {
        Err(ApiError::NotFound("File not found".to_owned()))
    }
}

/// The error of a directory that cannot be listed.
pub fn list_failed(message: &str) -> (r: ApiError)
    ensures
        r@ == internal("list failed: "@ + message@),
{
    ApiError::Internal(concat2("list failed: ", message))
}

/// The error of a file that cannot be read.
pub fn read_failed(message: &str) -> (r: ApiError)
    ensures
        r@ == internal("read failed: "@ + message@),
{
    ApiError::Internal(concat2("read failed: ", message))
}

/// Where the session works: the directory, the home and the root are one.
#[derive(Debug)]
pub struct CwdResponse {
    /// The directory.
    pub cwd: String,
    /// The home.
    pub home: String,
    /// The root of what the session sees.
    pub root: String,
}

/// Where the session works.
pub fn get_cwd(base: &str) -> (r: CwdResponse)
    ensures
        r.cwd@ == base@,
        r.home@ == base@,
        r.root@ == base@,
{
    CwdResponse { cwd: base.to_owned(), home: base.to_owned(), root: base.to_owned() }
}

// --- listing -----------------------------------------------------------------

/// The directory that a request means, trimmed; nothing, and the word `null` in
/// any case, mean the workspace.
pub open spec fn listed_directory(raw: Option<Seq<char>>) -> Seq<char> {
    let given = match raw {
        Some(t) => t,
        None => "."@,
    };
    let bare = trim_text(given);
    if bare == ""@ || ascii_lower_text(bare) == "null"@ {
        "."@
    } else {
        bare
    }
}

/// The directory that a request means.
pub fn directory_to_list(raw: Option<&str>) -> (r: String)
    ensures
        r@ == listed_directory(opt_str(raw)),
{
    let bare = match raw {
        Some(t) => trim(t),
        None => trim("."),
    };
    let plain = to_ascii_lower(bare.as_str());
    if str_eq(bare.as_str(), "") || str_eq(plain.as_str(), "null") {
        ".".to_owned()
    } else {
        bare
    }
}

/// What is known about an entry of a directory. `is_dir`, `size` and `modified`
/// are those of the entry itself, a link not followed; `target_is_dir` tells
/// whether a link leads to a directory.
#[derive(Debug, Clone, Copy)]
pub struct EntryStat {
    /// Whether the entry is a link.
    pub is_symlink: bool,
    /// Whether the entry is a directory.
    pub is_dir: bool,
    /// Whether the entry, followed, is a directory.
    pub target_is_dir: bool,
    /// The size in bytes.
    pub size: u64,
    /// When the entry was changed, in nanoseconds since the start of 1970.
    pub modified: u128,
    /// Whether the entry can be written.
    pub writable: bool,
}

/// Whether an entry counts as a directory: a link does where it leads to one.
pub open spec fn counts_as_dir(s: EntryStat) -> bool {
    if s.is_symlink {
        s.target_is_dir
    } else {
        s.is_dir
    }
}

/// Whether an entry counts as a directory.
fn is_directory(s: &EntryStat) -> (r: bool)
    ensures
        r == counts_as_dir(*s),
{
    if s.is_symlink {
        s.target_is_dir
    } else {
        s.is_dir
    }
}

/// An entry of a listing.
#[derive(Debug)]
pub struct Entry {
    /// The name.
    pub name: String,
    /// `file` or `directory`.
    pub kind: &'static str,
    /// The size in bytes.
    pub size: u64,
    /// When the entry was changed, in nanoseconds since the start of 1970.
    pub modified: u128,
    /// Whether the entry can be written.
    pub writable: bool,
}

/// An entry of a listing.
pub struct EntryView {
    /// The name.
    pub name: Seq<char>,
    /// `file` or `directory`.
    pub kind: Seq<char>,
    /// The size in bytes.
    pub size: u64,
    /// When the entry was changed.
    pub modified: u128,
    /// Whether the entry can be written.
    pub writable: bool,
}

impl View for Entry {
    type V = EntryView;

    open spec fn view(&self) -> EntryView {
        EntryView {
            name: self.name@,
            kind: self.kind@,
            size: self.size,
            modified: self.modified,
            writable: self.writable,
        }
    }
}

/// A listing.
#[derive(Debug)]
pub struct ListResponse {
    /// The directory.
    pub dir: String,
    /// Its entries, by name.
    pub entries: Vec<Entry>,
    /// Whether the directory can be written.
    pub writable: bool,
}

/// What is known about entries by path.
pub type EntryStats = spec_fn(Seq<char>) -> Option<EntryStat>;

/// The closure answers as `stats` says.
pub open spec fn looks_at<F: Fn(&str) -> Option<EntryStat>>(look: F, stats: EntryStats) -> bool {
    forall|p: &str, o: Option<EntryStat>| #[trigger]
        call_ensures(look, (p,), o) ==> o == stats(p@)
}

/// The entry of a name, if it can be looked at.
pub open spec fn entry_of(dir: Seq<char>, name: Seq<char>, stats: EntryStats) -> Option<EntryView> {
    match stats(joined(dir, name)) {
        Some(s) => Some(
            EntryView {
                name,
                kind: kind_text(counts_as_dir(s)),
                size: s.size,
                modified: s.modified,
                writable: s.writable,
            },
        ),
        None => None,
    }
}

/// The entries of names.
pub open spec fn entries_of(dir: Seq<char>, names: Seq<Seq<char>>, stats: EntryStats) -> Seq<
    EntryView,
>
    decreases names.len(),
{
    if names.len() == 0 {
        seq![]
    } else {
        let rest = entries_of(dir, names.drop_last(), stats);
        match entry_of(dir, names.last(), stats) {
            Some(e) => rest.push(e),
            None => rest,
        }
    }
}

/// The listing of a directory with the given names in it.
pub fn list_dir<F: Fn(&str) -> Option<EntryStat>>(
    dir: &str,
    names: &Vec<String>,
    writable: bool,
    look: &F,
) -> (r: ListResponse)
    requires
        forall|p: &str| call_requires(*look, (p,)),
    ensures
        r.dir@ == dir@,
        r.writable == writable,
        forall|stats: EntryStats| #[trigger]
            looks_at(*look, stats) ==> views(r.entries@) == entries_of(
                dir@,
                sorted_texts(texts(names@)),
                stats,
            ),
{
    let sorted = sort_texts(names);
    let ghost all = texts(sorted@);
    let mut entries: Vec<Entry> = Vec::new();
    let mut i: usize = 0;
    assert(views(entries@) =~= seq![]);
    while i < sorted.len()
        invariant
            i <= sorted@.len(),
            all == texts(sorted@),
            forall|p: &str| call_requires(*look, (p,)),
            forall|stats: EntryStats| #[trigger]
                looks_at(*look, stats) ==> views(entries@) == entries_of(
                    dir@,
                    all.take(i as int),
                    stats,
                ),
        decreases sorted@.len() - i,
    {
        let ghost e0 = views(entries@);
        proof {
            assert(all[i as int] == sorted@[i as int]@);
            assert(all.take(i as int + 1).drop_last() =~= all.take(i as int));
            assert(all.take(i as int + 1).last() == sorted@[i as int]@);
        }
        let path = join_path(dir, sorted[i].as_str());
        if let Some(s) = look(path.as_str()) {
            let e = Entry {
                name: sorted[i].clone(),
                kind: kind_name(is_directory(&s)),
                size: s.size,
                modified: s.modified,
                writable: s.writable,
            };
            let ghost v = e@;
            entries.push(e);
            assert(views(entries@) =~= e0.push(v));
        }
        i += 1;
    }
    assert(all.take(all.len() as int) =~= all);
    ListResponse { dir: dir.to_owned(), entries, writable }
}

/// The path that a tool's request means: trimmed; nothing means the workspace.
pub open spec fn tool_path_text(raw: Seq<char>) -> Seq<char> {
    if trim_text(raw).len() == 0 {
        "."@
    } else {
        trim_text(raw)
    }
}

/// The path that a tool's request means.
pub fn tool_path(raw: &str) -> (r: String)
    ensures
        r@ == tool_path_text(raw@),
{
    let t = trim(raw);
    if t.as_str().is_empty() {
        ".".to_owned()
    } else {
        t
    }
}

/// An entry of a listing for tools.
#[derive(Debug)]
pub struct ToolEntry {
    /// The name.
    pub name: String,
    /// Whether it is a directory.
    pub is_dir: bool,
    /// The size in bytes.
    pub size: u64,
}

/// An entry of a listing for tools.
pub struct ToolEntryView {
    /// The name.
    pub name: Seq<char>,
    /// Whether it is a directory.
    pub is_dir: bool,
    /// The size in bytes.
    pub size: u64,
}

impl View for ToolEntry {
    type V = ToolEntryView;

    open spec fn view(&self) -> ToolEntryView {
        ToolEntryView { name: self.name@, is_dir: self.is_dir, size: self.size }
    }
}

/// Whether paths are directories, and their sizes, links followed.
pub type ToolStats = spec_fn(Seq<char>) -> Option<(bool, u64)>;

/// The closure answers as `stats` says.
pub open spec fn follows<F: Fn(&str) -> Option<(bool, u64)>>(stat: F, stats: ToolStats) -> bool {
    forall|p: &str, o: Option<(bool, u64)>| #[trigger]
        call_ensures(stat, (p,), o) ==> o == stats(p@)
}

/// The entries of names for tools; what cannot be followed is left out.
pub open spec fn tool_entries(dir: Seq<char>, names: Seq<Seq<char>>, stats: ToolStats) -> Seq<
    ToolEntryView,
>
    decreases names.len(),
{
    if names.len() == 0 {
        seq![]
    } else {
        let rest = tool_entries(dir, names.drop_last(), stats);
        match stats(joined(dir, names.last())) {
            Some(s) => rest.push(ToolEntryView { name: names.last(), is_dir: s.0, size: s.1 }),
            None => rest,
        }
    }
}

/// The listing of a directory for tools.
pub fn list_impl<F: Fn(&str) -> Option<(bool, u64)>>(dir: &str, names: &Vec<String>, stat: &F) -> (r: Vec<
    ToolEntry,
>)
    requires
        forall|p: &str| call_requires(*stat, (p,)),
    ensures
        forall|stats: ToolStats| #[trigger]
            follows(*stat, stats) ==> views(r@) == tool_entries(
                dir@,
                sorted_texts(texts(names@)),
                stats,
            ),
{
    let sorted = sort_texts(names);
    let ghost all = texts(sorted@);
    let mut entries: Vec<ToolEntry> = Vec::new();
    let mut i: usize = 0;
    assert(views(entries@) =~= seq![]);
    while i < sorted.len()
        invariant
            i <= sorted@.len(),
            all == texts(sorted@),
            forall|p: &str| call_requires(*stat, (p,)),
            forall|stats: ToolStats| #[trigger]
                follows(*stat, stats) ==> views(entries@) == tool_entries(
                    dir@,
                    all.take(i as int),
                    stats,
                ),
        decreases sorted@.len() - i,
    {
        let ghost e0 = views(entries@);
        proof {
            assert(all[i as int] == sorted@[i as int]@);
            assert(all.take(i as int + 1).drop_last() =~= all.take(i as int));
            assert(all.take(i as int + 1).last() == sorted@[i as int]@);
        }
        let path = join_path(dir, sorted[i].as_str());
        if let Some(s) = stat(path.as_str()) {
            let e = ToolEntry { name: sorted[i].clone(), is_dir: s.0, size: s.1 };
            let ghost v = e@;
            entries.push(e);
            assert(views(entries@) =~= e0.push(v));
        }
        i += 1;
    }
    assert(all.take(all.len() as int) =~= all);
    entries
}

// --- reading -----------------------------------------------------------------

/// Whether a file is handed out as it is: its media type is that of an image.
pub open spec fn is_image(path: Seq<char>) -> bool {
    "image/"@.is_prefix_of(mime_of(path))
}

/// The media type of a file that is handed out as it is, or nothing for a file
/// that is read as text.
pub fn image_type(path: &str) -> (r: Option<String>)
    ensures
        match r {
            Some(m) => is_image(path@) && m@ == mime_of(path@),
            None => !is_image(path@),
        },
{
    image_in(guess_mime(path))
}

/// The media type, if it is that of an image.
pub fn image_in(mime: String) -> (r: Option<String>)
    ensures
        match r {
            Some(m) => "image/"@.is_prefix_of(mime@) && m@ == mime@,
            None => !("image/"@.is_prefix_of(mime@)),
        },
{
    if starts_with(mime.as_str(), "image/") {
        Some(mime)
    } else {
        None
    }
}

/// The lines of a text with their ends.
pub open spec fn full_lines(text: Seq<char>) -> Seq<Seq<char>> {
    let pieces = split_on(text, '\n');
    let ended = pieces.drop_last().map_values(|p: Seq<char>| p + "\n"@);
    if pieces.last().len() == 0 {
        ended
    } else {
        ended.push(pieces.last())
    }
}

/// The lines from `start` to `end`, both from 1, with their ends.
pub open spec fn line_range(text: Seq<char>, start: Option<usize>, end: Option<usize>) -> Seq<char> {
    let all = full_lines(text);
    let from = match start {
        Some(s) => s - 1,
        None => 0,
    };
    let to = match end {
        Some(e) => if e <= all.len() {
            e as int
        } else {
            all.len() as int
        },
        None => all.len() as int,
    };
    if from < to {
        concat_texts(all.subrange(from, to))
    } else {
        seq![]
    }
}

/// A file that was read.
#[derive(Debug)]
pub struct ReadResponse {
    /// The path.
    pub path: String,
    /// How many lines the file has.
    pub total_lines: usize,
    /// The lines that were asked for.
    pub content: String,
}

/// A file that was read.
pub struct ReadView {
    /// The path.
    pub path: Seq<char>,
    /// How many lines the file has.
    pub total_lines: int,
    /// The lines that were asked for.
    pub content: Seq<char>,
}

impl View for ReadResponse {
    type V = ReadView;

    open spec fn view(&self) -> ReadView {
        ReadView {
            path: self.path@,
            total_lines: self.total_lines as int,
            content: self.content@,
        }
    }
}

/// The refusal of a line number that is none.
pub open spec fn line_error() -> ErrorView {
    bad_request("line numbers start at 1"@)
}

/// The refusal of a file that is no text.
pub open spec fn binary_error() -> ErrorView {
    ErrorView { status: 415, detail: "Unsupported binary file type"@ }
}

/// Whether a line number is none.
pub open spec fn is_zero(n: Option<usize>) -> bool {
    n == Some(0usize)
}

/// The answer to a request for the text of a file.
pub open spec fn read_answer(
    path: Seq<char>,
    bytes: Seq<u8>,
    start: Option<usize>,
    end: Option<usize>,
) -> Result<ReadView, ErrorView> {
    if is_zero(start) || is_zero(end) {
        Err(line_error())
    } else if !valid_utf8(bytes) {
        Err(binary_error())
    } else {
        let text = vstd::utf8::decode_utf8(bytes);
        Ok(
            ReadView {
                path,
                total_lines: lines_of(text).len() as int,
                content: line_range(text, start, end),
            },
        )
    }
}

/// The lines of a text with their ends.
fn split_full_lines(text: &str) -> (r: Vec<String>)
    ensures
        texts(r@) == full_lines(text@),
        texts(r@).len() == lines_of(text@).len(),
{
    let pieces = split(text, '\n');
    let ghost all = texts(pieces@);
    proof {
        crate::text::lemma_split_nonempty(text@, '\n');
        assert(all.len() == pieces@.len());
        assert(all.last() == pieces@[pieces@.len() - 1]@);
    }
    let n: usize = pieces.len() - 1;
    let ghost f = |p: Seq<char>| p + "\n"@;
    let mut r: Vec<String> = Vec::new();
    let mut i: usize = 0;
    assert(texts(r@) =~= all.take(0).map_values(f));
    while i < n
        invariant
            i <= n,
            n == pieces@.len() - 1,
            all == texts(pieces@),
            f == (|p: Seq<char>| p + "\n"@),
            texts(r@) == all.take(i as int).map_values(f),
        decreases n - i,
    {
        let ghost r0 = texts(r@);
        assert(all[i as int] == pieces@[i as int]@);
        r.push(concat2(pieces[i].as_str(), "\n"));
        proof {
            assert(texts(r@) =~= r0.push(f(all[i as int])));
            assert(all.take(i as int + 1).map_values(f) =~= all.take(i as int).map_values(f).push(
                f(all[i as int]),
            ));
        }
        i += 1;
    }
    assert(all.take(n as int) =~= all.drop_last());
    if !pieces[n].as_str().is_empty() {
        let ghost r0 = texts(r@);
        r.push(pieces[n].clone());
        assert(texts(r@) =~= r0.push(all.last()));
    }
    r
}

/// The texts from `i` to `j`, put together.
fn concat_range(parts: &Vec<String>, i: usize, j: usize) -> (r: String)
    requires
        i <= j <= parts@.len(),
    ensures
        r@ == concat_texts(texts(parts@).subrange(i as int, j as int)),
{
    let ghost all = texts(parts@);
    let mut r: String = String::new();
    let mut k: usize = i;
    assert(r@ =~= concat_texts(all.subrange(i as int, i as int)));
    while k < j
        invariant
            i <= k <= j <= parts@.len(),
            all == texts(parts@),
            r@ == concat_texts(all.subrange(i as int, k as int)),
        decreases j - k,
    {
        proof {
            let row = all.subrange(i as int, k as int + 1);
            assert(row.drop_last() =~= all.subrange(i as int, k as int));
            assert(row.last() == parts@[k as int]@);
        }
        r.append(parts[k].as_str());
        k += 1;
    }
    r
}

/// The answer to a request for the text of a file.
pub fn read_file(path: &str, bytes: Vec<u8>, start: Option<usize>, end: Option<usize>) -> (r: Result<
    ReadResponse,
    ApiError,
>)
    ensures
        view_result(r) == read_answer(path@, bytes@, start, end),
{
    let bad_start = match start {
        Some(n) => n == 0,
        None => false,
    };
    let bad_end = match end {
        Some(n) => n == 0,
        None => false,
    };
    if bad_start || bad_end {
        return Err(ApiError::BadRequest("line numbers start at 1".to_owned()));
    }
    let ghost b = bytes@;
    let text = match from_utf8(bytes) {
        Some(t) => t,
        None => {
            return Err(ApiError::UnsupportedMediaType("Unsupported binary file type".to_owned()));
        },
    };
    proof {
        vstd::utf8::encode_utf8_decode_utf8(text@);
        assert(vstd::utf8::decode_utf8(b) == text@);
    }
    let all = split_full_lines(text.as_str());
    assert(texts(all@).len() == all@.len());
    let total: usize = all.len();
    let from: usize = match start {
        Some(s) => s - 1,
        None => 0,
    };
    let to: usize = match end {
        Some(e) => if e <= total {
            e
        } else {
            total
        },
        None => total,
    };
    let content = if from < to {
        concat_range(&all, from, to)
    } else {
        let none = String::new();
        assert(none@ =~= seq![]);
        none
    };
    Ok(ReadResponse { path: path.to_owned(), total_lines: total, content })
}

proof fn lemma_concat_push_line(parts: Seq<Seq<char>>, p: Seq<char>)
    ensures
        concat_texts(parts.push(p)) == concat_texts(parts) + p,
{
    assert(parts.push(p).drop_last() =~= parts);
}

proof fn lemma_full_lines_concat(pieces: Seq<Seq<char>>)
    requires
        pieces.len() > 0,
    ensures
        concat_texts(pieces.drop_last().map_values(|p: Seq<char>| p + "\n"@)) + pieces.last()
            == join_with(pieces, "\n"@),
    decreases pieces.len(),
{
    let f = |p: Seq<char>| p + "\n"@;
    let ended = pieces.drop_last().map_values(f);
    if pieces.len() == 1 {
        assert(ended =~= seq![]);
        assert(concat_texts(ended) + pieces.last() =~= pieces.last());
        assert(join_with(pieces, "\n"@) =~= pieces[0]);
    } else {
        let init = pieces.drop_last();
        lemma_full_lines_concat(init);
        let head = init.drop_last().map_values(f);
        assert(ended =~= head.push(f(init.last())));
        lemma_concat_push_line(head, f(init.last()));
        crate::text::lemma_join_push(init, pieces.last(), "\n"@);
        assert(init.push(pieces.last()) =~= pieces);
        assert(concat_texts(ended) + pieces.last() =~= concat_texts(head) + init.last() + "\n"@
            + pieces.last());
    }
}

/// A request without line numbers gets the whole text.
pub proof fn law_whole_text(text: Seq<char>)
    ensures
        line_range(text, None, None) == text,
{
    let pieces = split_on(text, '\n');
    crate::text::lemma_split_nonempty(text, '\n');
    crate::text::law_split_join(text, '\n');
    lemma_full_lines_concat(pieces);
    reveal_strlit("\n");
    assert("\n"@ =~= seq!['\n']);
    let all = full_lines(text);
    let ended = pieces.drop_last().map_values(|p: Seq<char>| p + "\n"@);
    if pieces.last().len() > 0 {
        lemma_concat_push_line(ended, pieces.last());
    } else {
        assert(concat_texts(ended) + pieces.last() =~= concat_texts(ended));
    }
    assert(concat_texts(all) == text);
    assert(all.subrange(0, all.len() as int) =~= all);
    if all.len() == 0 {
        assert(concat_texts(all) =~= seq![]);
    }
}

/// What was written is what is read: a file that holds the bytes of a text is
/// read back as that text, with the number of its lines.
pub proof fn law_write_read(path: Seq<char>, content: Seq<char>)
    ensures
        read_answer(path, encode_utf8(content), None, None) == Ok::<ReadView, ErrorView>(
            ReadView { path, total_lines: lines_of(content).len() as int, content },
        ),
{
    vstd::utf8::encode_utf8_valid_utf8(content);
    vstd::utf8::encode_utf8_decode_utf8(content);
    law_whole_text(content);
}

/// The file name in the header of a download.
pub open spec fn download_name(path: Seq<char>) -> Seq<char> {
    match file_name_of(path) {
        Some(n) => n,
        None => "file"@,
    }
}

/// The header with which a file is handed out for download.
pub fn attachment(path: &str) -> (r: String)
    ensures
        r@ == "attachment; filename=\""@ + download_name(path@) + "\""@,
{
    let name = match file_name(path) {
        Some(n) => n,
        None => "file".to_owned(),
    };
    concat3("attachment; filename=\"", name.as_str(), "\"")
}

/// The media type with which a file is handed out.
pub fn content_type(path: &str) -> (r: String)
    ensures
        r@ == mime_of(path@),
{
    guess_mime(path)
}

// --- writing -----------------------------------------------------------------

/// The directory that has to be there before a file is written.
pub open spec fn needed_dir(path: Seq<char>) -> Option<Seq<char>> {
    match parent_of(path) {
        Some(p) => if p.len() > 0 {
            Some(p)
        } else {
            None
        },
        None => None,
    }
}

/// The directory that has to be there before a file is written.
pub fn parent_to_create(path: &str) -> (r: Option<String>)
    ensures
        opt_text(r) == needed_dir(path@),
{
    match parent(path) {
        Some(p) => if p.as_str().is_empty() {
            None
        } else {
            Some(p)
        },
        None => None,
    }
}

/// What was written where.
#[derive(Debug)]
pub struct WriteResponse {
    /// The path.
    pub path: String,
    /// How many bytes were written.
    pub size: usize,
}

/// The answer to a text that was written.
pub fn written(path: &str, content: &str) -> (r: WriteResponse)
    ensures
        r.path@ == path@,
        r.size == encode_utf8(content@).len(),
{
    WriteResponse { path: path.to_owned(), size: content.as_bytes().len() }
}

/// The refusal of a change that the operating system refused.
pub fn change_failed(message: &str) -> (r: ApiError)
    ensures
        r@ == bad_request(message@),
{
    ApiError::BadRequest(message.to_owned())
}

/// Whether something may be moved: it is there, and nothing is where it goes.
pub fn check_move(source_exists: bool, destination_exists: bool) -> (r: Result<(), ApiError>)
    ensures
        match r {
            Ok(_) => source_exists && !destination_exists,
            Err(e) => if !source_exists {
                e@ == not_found("Source path not found"@)
            } else {
                destination_exists && e@ == (ErrorView {
                    status: 409,
                    detail: "Destination already exists"@,
                })
            },
        },
{
    if !source_exists {
        Err(ApiError::NotFound("Source path not found".to_owned()))
    } else if destination_exists {
        Err(ApiError::Conflict("Destination already exists".to_owned()))
    } else {
        Ok(())
    }
}

/// How something is deleted: `true` with everything below it, `false` alone; or
/// the refusal where there is nothing.
pub fn delete_entry(stat: Option<EntryStat>) -> (r: Result<bool, ApiError>)
    ensures
        match stat {
            Some(s) => r is Ok && r->Ok_0 == counts_as_dir(s),
            None => r is Err && r->Err_0@ == not_found("Path not found"@),
        },
{
    match stat {
        Some(s) => Ok(is_directory(&s)),
        None => Err(ApiError::NotFound("Path not found".to_owned())),
    }
}

// --- editing -----------------------------------------------------------------

/// How many times a text stands in another, without overlaps; an empty one never.
pub fn count_occurrences(segment: &str, target: &str) -> (r: usize)
    ensures
        r == count_from(segment@, target@, 0),
{
    count(segment, target)
}

/// A text with the target replaced: it has to stand there, and only once unless
/// more is allowed.
pub open spec fn replaced(segment: Seq<char>, c: ChunkView) -> Result<Seq<char>, ErrorView> {
    let n = count_from(segment, c.target, 0);
    if n == 0 {
        Err(bad_request("Target string not found: "@ + c.target))
    } else if n > 1 && !c.allow_multiple {
        Err(
            bad_request(
                "Found "@ + decimal(n) + " occurrences of target but allow_multiple is false"@,
            ),
        )
    } else if c.allow_multiple {
        Ok(replace_text(segment, c.target, c.replacement))
    } else {
        Ok(replace_from(segment, c.target, c.replacement, 0, 1))
    }
}

/// A text with the target replaced.
pub fn replace_target(segment: &str, chunk: &ReplacementChunk) -> (r: Result<String, ApiError>)
    ensures
        view_result(r) == replaced(segment@, chunk@),
{
    let n: usize = count_occurrences(segment, chunk.target.as_str());
    if n == 0 {
        return Err(
            ApiError::BadRequest(concat2("Target string not found: ", chunk.target.as_str())),
        );
    }
    if n > 1 && !chunk.allow_multiple {
        let shown = u64_decimal(n as u64);
        return Err(
            ApiError::BadRequest(
                concat3(
                    "Found ",
                    shown.as_str(),
                    " occurrences of target but allow_multiple is false",
                ),
            ),
        );
    }
    if chunk.allow_multiple {
        Ok(replace_all(segment, chunk.target.as_str(), chunk.replacement.as_str()))
    } else {
        Ok(replace_upto(segment, chunk.target.as_str(), chunk.replacement.as_str(), 1))
    }
}

/// The first line that a replacement looks at, from 0.
pub open spec fn first_line(c: ChunkView) -> int {
    match c.start_line {
        Some(s) => if s > 0 {
            s - 1
        } else {
            0
        },
        None => 0,
    }
}

/// The line behind the last one that a replacement looks at, from 0.
pub open spec fn last_line(c: ChunkView, total: nat) -> int {
    match c.end_line {
        Some(e) => if e <= total {
            e as int
        } else {
            total as int
        },
        None => total as int,
    }
}

/// A text after a replacement: in all of it, or in some of its lines alone. Where
/// there are no such lines nothing changes.
pub open spec fn edited(content: Seq<char>, c: ChunkView) -> Result<Seq<char>, ErrorView> {
    if c.start_line is None && c.end_line is None {
        replaced(content, c)
    } else {
        let all = split_on(content, '\n');
        let from = first_line(c);
        let to = last_line(c, all.len());
        if from >= to {
            Ok(content)
        } else {
            match replaced(join_with(all.subrange(from, to), "\n"@), c) {
                Ok(new) => Ok(
                    join_with(all.take(from) + seq![new] + all.skip(to), "\n"@),
                ),
                Err(e) => Err(e),
            }
        }
    }
}

/// The texts from `i` to `j`.
fn slice_strings(v: &Vec<String>, i: usize, j: usize) -> (r: Vec<String>)
    requires
        i <= j <= v@.len(),
    ensures
        texts(r@) == texts(v@).subrange(i as int, j as int),
{
    let ghost all = texts(v@);
    let mut r: Vec<String> = Vec::new();
    let mut k: usize = i;
    assert(texts(r@) =~= all.subrange(i as int, i as int));
    while k < j
        invariant
            i <= k <= j <= v@.len(),
            all == texts(v@),
            texts(r@) == all.subrange(i as int, k as int),
        decreases j - k,
    {
        let ghost r0 = texts(r@);
        r.push(v[k].clone());
        proof {
            assert(texts(r@) =~= r0.push(all[k as int]));
            assert(texts(r@) =~= all.subrange(i as int, k as int + 1));
        }
        k += 1;
    }
    r
}

/// A text after a replacement.
pub fn apply_replacement(content: String, chunk: &ReplacementChunk) -> (r: Result<String, ApiError>)
    ensures
        view_result(r) == edited(content@, chunk@),
{
    if chunk.start_line.is_none() && chunk.end_line.is_none() {
        return replace_target(content.as_str(), chunk);
    }
    let all = split(content.as_str(), '\n');
    assert(texts(all@).len() == all@.len());
    let total: usize = all.len();
    let from: usize = match chunk.start_line {
        Some(s) => s.saturating_sub(1),
        None => 0,
    };
    let to: usize = match chunk.end_line {
        Some(e) => if e <= total {
            e
        } else {
            total
        },
        None => total,
    };
    if from >= to {
        return Ok(content);
    }
    let rows = slice_strings(&all, from, to);
    let segment = join(&rows, "\n");
    let new = match replace_target(segment.as_str(), chunk) {
        Ok(t) => t,
        Err(e) => {
            return Err(e);
        },
    };
    let ghost nv = new@;
    let mut rebuilt = slice_strings(&all, 0, from);
    let ghost head = texts(rebuilt@);
    rebuilt.push(new);
    assert(texts(rebuilt@) =~= head.push(nv));
    let mut rest = slice_strings(&all, to, total);
    let ghost mid = texts(rebuilt@);
    let ghost tail = texts(rest@);
    let ghost b0 = rebuilt@;
    let ghost t0 = rest@;
    rebuilt.append(&mut rest);
    proof {
        assert(rebuilt@ =~= b0 + t0);
        assert(texts(rebuilt@) =~= mid + tail);
        let lines = texts(all@);
        assert(head =~= lines.take(from as int));
        assert(tail =~= lines.skip(to as int));
        assert(texts(rebuilt@) =~= lines.take(from as int) + seq![nv] + lines.skip(to as int));
    }
    Ok(join(&rebuilt, "\n"))
}

/// A text after several replacements, one after the other; the first that fails
/// decides.
pub open spec fn edited_all(content: Seq<char>, chunks: Seq<ChunkView>) -> Result<
    Seq<char>,
    ErrorView,
>
    decreases chunks.len(),
{
    if chunks.len() == 0 {
        Ok(content)
    } else {
        match edited_all(content, chunks.drop_last()) {
            Ok(t) => edited(t, chunks.last()),
            Err(e) => Err(e),
        }
    }
}

proof fn lemma_edit_error_stays(content: Seq<char>, chunks: Seq<ChunkView>, k: int)
    requires
        0 <= k <= chunks.len(),
        edited_all(content, chunks.take(k)) is Err,
    ensures
        edited_all(content, chunks) == edited_all(content, chunks.take(k)),
    decreases chunks.len(),
{
    if k < chunks.len() {
        assert(chunks.drop_last().take(k) =~= chunks.take(k));
        lemma_edit_error_stays(content, chunks.drop_last(), k);
    } else {
        assert(chunks.take(k) =~= chunks);
    }
}

/// The text of a file after several replacements.
pub fn replace(bytes: &[u8], chunks: &Vec<ReplacementChunk>) -> (r: Result<String, ApiError>)
    ensures
        view_result(r) == edited_all(utf8_lossy(bytes@), views(chunks@)),
{
    let mut content = from_utf8_lossy(bytes);
    let ghost start = content@;
    let ghost all = views(chunks@);
    let mut i: usize = 0;
    assert(edited_all(start, all.take(0)) == Ok::<Seq<char>, ErrorView>(content@));
    while i < chunks.len()
        invariant
            i <= chunks@.len(),
            start == utf8_lossy(bytes@),
            all == views(chunks@),
            edited_all(start, all.take(i as int)) == Ok::<Seq<char>, ErrorView>(content@),
        decreases chunks@.len() - i,
    {
        proof {
            assert(all[i as int] == chunks@[i as int]@);
            assert(all.take(i as int + 1).drop_last() =~= all.take(i as int));
            assert(all.take(i as int + 1).last() == chunks@[i as int]@);
        }
        content = match apply_replacement(content, &chunks[i]) {
            Ok(t) => t,
            Err(e) => {
                proof {
                    lemma_edit_error_stays(start, all, i as int + 1);
                }
                return Err(e);
            },
        };
        i += 1;
    }
    assert(all.take(all.len() as int) =~= all);
    Ok(content)
}

/// A replacement that looks at no line changes nothing.
pub proof fn law_no_lines_no_change(content: Seq<char>, c: ChunkView)
    requires
        c.start_line is Some || c.end_line is Some,
        first_line(c) >= last_line(c, split_on(content, '\n').len()),
    ensures
        edited(content, c) == Ok::<Seq<char>, ErrorView>(content),
{
}

/// A replacement that looks at all lines is one of the whole text.
pub proof fn law_all_lines_whole_text(content: Seq<char>, c: ChunkView)
    requires
        c.start_line == Some(1usize),
        c.end_line is None,
    ensures
        edited(content, c) == replaced(content, c),
{
    let all = split_on(content, '\n');
    crate::text::lemma_split_nonempty(content, '\n');
    crate::text::law_split_join(content, '\n');
    reveal_strlit("\n");
    assert("\n"@ =~= seq!['\n']);
    assert(all.subrange(0, all.len() as int) =~= all);
    if replaced(content, c) is Ok {
        let new = replaced(content, c)->Ok_0;
        let rows = all.take(0) + seq![new] + all.skip(all.len() as int);
        assert(rows =~= seq![new]);
        assert(join_with(rows, "\n"@) =~= new);
    }
}

// --- what edits do -----------------------------------------------------------

/// The target is replaced where it stands: once, and everything around it stays;
/// everywhere where more than one is allowed; and not at all where it does not
/// stand, or stands more than once and only one is allowed, which is an error. An
/// empty target stands nowhere.
pub proof fn law_replaced(segment: Seq<char>, c: ChunkView)
    ensures
        c.target.len() == 0 || !contains_text(segment, c.target) ==> replaced(segment, c) == Err::<
            Seq<char>,
            ErrorView,
        >(ErrorView { status: 400, detail: "Target string not found: "@ + c.target }),
        c.target.len() > 0 ==> (find_spec(segment, c.target, 0) matches Some(i) ==> {
            let rest = segment.skip(i + c.target.len());
            &&& !contains_text(rest, c.target) ==> replaced(segment, c) == Ok::<
                Seq<char>,
                ErrorView,
            >(segment.take(i) + c.replacement + rest)
            &&& contains_text(rest, c.target) && c.allow_multiple ==> replaced(segment, c) == Ok::<
                Seq<char>,
                ErrorView,
            >(segment.take(i) + c.replacement + replace_text(rest, c.target, c.replacement))
            &&& contains_text(rest, c.target) && !c.allow_multiple ==> replaced(segment, c)
                == Err::<Seq<char>, ErrorView>(
                ErrorView {
                    status: 400,
                    detail: "Found "@ + decimal(count_from(segment, c.target, 0))
                        + " occurrences of target but allow_multiple is false"@,
                },
            )
        }),
{
    if c.target.len() > 0 {
        crate::find::law_count(segment, c.target);
        crate::find::law_find_contains(segment, c.target);
        crate::find::law_replace(segment, c.target, c.replacement, 1);
        crate::find::law_replace_everywhere(segment, c.target, c.replacement);
        if let Some(i) = find_spec(segment, c.target, 0) {
            let rest = segment.skip(i + c.target.len());
            crate::find::law_count(rest, c.target);
            crate::find::law_replace(rest, c.target, c.replacement, 0);
            crate::find::law_replace_everywhere(rest, c.target, c.replacement);
        }
    }
}

/// A replacement between two line numbers looks at exactly these lines, the first
/// and the last included: what becomes of them is what becomes of a text that is
/// these lines, and the lines before and behind them stay.
pub proof fn law_edit_between_lines(
    before: Seq<Seq<char>>,
    mid: Seq<Seq<char>>,
    behind: Seq<Seq<char>>,
    c: ChunkView,
)
    requires
        forall|i: int|
            0 <= i < (before + mid + behind).len() ==> is_row(#[trigger] (before + mid + behind)[i]),
        mid.len() > 0,
        c.start_line is Some,
        c.start_line->0 == before.len() + 1,
        c.end_line is Some,
        c.end_line->0 == before.len() + mid.len(),
    ensures
        edited(join_with(before + mid + behind, seq!['\n']), c) == match replaced(
            join_with(mid, seq!['\n']),
            c,
        ) {
            Ok(new) => Ok::<Seq<char>, ErrorView>(
                join_with(before + seq![new] + behind, seq!['\n']),
            ),
            Err(e) => Err::<Seq<char>, ErrorView>(e),
        },
{
    let all = before + mid + behind;
    reveal_strlit("\n");
    assert("\n"@ =~= seq!['\n']);
    assert forall|i: int| 0 <= i < all.len() implies !(#[trigger] all[i]).contains('\n') by {
        assert(is_row(all[i]));
    }
    crate::path::lemma_split_of_join(all, '\n');
    let from = before.len() as int;
    let to = (before.len() + mid.len()) as int;
    assert(all.subrange(from, to) =~= mid);
    assert(all.take(from) =~= before);
    assert(all.skip(to) =~= behind);
}

/// Where no first line is given, or zero, it is the first; where no last line is
/// given, or one behind the end, it is the last.
pub proof fn law_edit_open_ends(content: Seq<char>, c: ChunkView, d: ChunkView)
    requires
        c.start_line is Some || c.end_line is Some,
        d.target == c.target,
        d.replacement == c.replacement,
        d.allow_multiple == c.allow_multiple,
        d.start_line == if c.start_line is None || c.start_line == Some(0usize) {
            Some(1usize)
        } else {
            c.start_line
        },
        d.end_line is Some,
        d.end_line->0 == if c.end_line is None || c.end_line->0 > split_on(content, '\n').len() {
            split_on(content, '\n').len()
        } else {
            c.end_line->0 as nat
        },
    ensures
        edited(content, c) == edited(content, d),
{
}

/// A range that begins behind its end changes nothing, and neither does one that
/// begins behind the last line.
pub proof fn law_edit_of_no_lines(content: Seq<char>, c: ChunkView)
    requires
        c.start_line is Some,
        c.start_line->0 > split_on(content, '\n').len() || (c.end_line matches Some(e)
            && c.start_line->0 > e) || c.end_line == Some(0usize),
    ensures
        edited(content, c) == Ok::<Seq<char>, ErrorView>(content),
{
}

/// Without line numbers a replacement is one of the whole text.
pub proof fn law_edit_everywhere(content: Seq<char>, c: ChunkView)
    requires
        c.start_line is None,
        c.end_line is None,
    ensures
        edited(content, c) == replaced(content, c),
{
}

/// Several replacements are made one after the other, each in what the ones before
/// have left; the first that fails is the answer.
pub proof fn law_edits_in_order(content: Seq<char>, x: Seq<ChunkView>, y: Seq<ChunkView>, c: ChunkView)
    ensures
        edited_all(content, seq![]) == Ok::<Seq<char>, ErrorView>(content),
        edited_all(content, seq![c]) == edited(content, c),
        edited_all(content, x + y) == match edited_all(content, x) {
            Ok(t) => edited_all(t, y),
            Err(e) => Err::<Seq<char>, ErrorView>(e),
        },
    decreases y.len(),
{
    let one = seq![c];
    let none = Seq::<ChunkView>::empty();
    assert(one.drop_last() =~= none);
    assert(edited_all(content, none) == Ok::<Seq<char>, ErrorView>(content));
    if y.len() == 0 {
        assert(x + y =~= x);
    } else {
        law_edits_in_order(content, x, y.drop_last(), c);
        assert((x + y).drop_last() =~= x + y.drop_last());
        assert((x + y).last() == y.last());
    }
}

// --- what is read ------------------------------------------------------------

proof fn lemma_ended_concat(rows: Seq<Seq<char>>)
    ensures
        concat_texts(rows.map_values(|p: Seq<char>| p + "\n"@)) == ended_rows(rows, seq!['\n']),
    decreases rows.len(),
{
    let f = |p: Seq<char>| p + "\n"@;
    reveal_strlit("\n");
    assert("\n"@ =~= seq!['\n']);
    let all = rows.map_values(f);
    if rows.len() > 0 {
        lemma_ended_concat(rows.drop_last());
        assert(all.drop_last() =~= rows.drop_last().map_values(f));
        assert(concat_texts(all) =~= ended_rows(rows, seq!['\n']));
    }
}

proof fn lemma_full_lines(rows: Seq<Seq<char>>, tail: Seq<char>)
    requires
        forall|i: int| 0 <= i < rows.len() ==> is_row(#[trigger] rows[i]),
        is_row(tail),
    ensures
        full_lines(ended_rows(rows, seq!['\n']) + tail) == if tail.len() == 0 {
            rows.map_values(|p: Seq<char>| p + "\n"@)
        } else {
            rows.map_values(|p: Seq<char>| p + "\n"@).push(tail)
        },
{
    let none = Seq::<char>::empty();
    assert(none + seq!['\n'] =~= seq!['\n']);
    crate::text::lemma_split_ended(rows, none, tail);
    let plain = rows.map_values(|r: Seq<char>| r + none);
    assert(plain =~= rows) by {
        assert forall|i: int| 0 <= i < rows.len() implies plain[i] == rows[i] by {
            assert(rows[i] + none =~= rows[i]);
        }
    }
    assert(rows.push(tail).drop_last() =~= rows);
}

/// A request for lines gets exactly these lines, the first and the last included,
/// with their ends: for rows that end with line feeds those from `s` to `e`.
pub proof fn law_lines_read(rows: Seq<Seq<char>>, tail: Seq<char>, s: usize, e: usize)
    requires
        forall|i: int| 0 <= i < rows.len() ==> is_row(#[trigger] rows[i]),
        is_row(tail),
        1 <= s <= e <= rows.len(),
    ensures
        line_range(ended_rows(rows, seq!['\n']) + tail, Some(s), Some(e)) == ended_rows(
            rows.subrange(s - 1, e as int),
            seq!['\n'],
        ),
{
    let f = |p: Seq<char>| p + "\n"@;
    lemma_full_lines(rows, tail);
    let text = ended_rows(rows, seq!['\n']) + tail;
    let some = rows.subrange(s - 1, e as int);
    assert(full_lines(text).subrange(s - 1, e as int) =~= some.map_values(f));
    lemma_ended_concat(some);
}

/// A request that goes up to the last line or beyond gets all from its first line
/// on, also what stands behind the last line feed; one that begins behind the last
/// line gets nothing.
pub proof fn law_rest_read(rows: Seq<Seq<char>>, tail: Seq<char>, s: usize, end: Option<usize>)
    requires
        forall|i: int| 0 <= i < rows.len() ==> is_row(#[trigger] rows[i]),
        is_row(tail),
        1 <= s,
        end matches Some(e) ==> e >= rows.len() + 1,
    ensures
        s <= rows.len() + 1 ==> line_range(
            ended_rows(rows, seq!['\n']) + tail,
            Some(s),
            end,
        ) == ended_rows(rows.skip(s - 1), seq!['\n']) + tail,
        s > rows.len() + 1 ==> line_range(
            ended_rows(rows, seq!['\n']) + tail,
            Some(s),
            end,
        ).len() == 0,
{
    let f = |p: Seq<char>| p + "\n"@;
    lemma_full_lines(rows, tail);
    let text = ended_rows(rows, seq!['\n']) + tail;
    let all = full_lines(text);
    if s <= rows.len() + 1 {
        let some = rows.skip(s - 1);
        lemma_ended_concat(some);
        if tail.len() == 0 {
            assert(all.subrange(s - 1, all.len() as int) =~= some.map_values(f));
            assert(ended_rows(some, seq!['\n']) + tail =~= ended_rows(some, seq!['\n']));
            if s == rows.len() + 1 {
                assert(some =~= Seq::<Seq<char>>::empty());
                assert(ended_rows(some, seq!['\n']) =~= Seq::<char>::empty());
            }
        } else {
            assert(all.subrange(s - 1, all.len() as int) =~= some.map_values(f).push(tail));
            lemma_concat_push_line(some.map_values(f), tail);
        }
    }
}

/// No first line means the first; a range that begins behind its end has no lines.
pub proof fn law_range_ends(text: Seq<char>, s: usize, end: Option<usize>)
    requires
        s >= 1,
    ensures
        line_range(text, None, end) == line_range(text, Some(1usize), end),
        end matches Some(e) && e < s ==> line_range(text, Some(s), end).len() == 0,
{
}

/// A line number of zero is refused whatever the file holds, a file that is no
/// UTF-8 is refused whatever lines are asked for, and every other request is
/// answered with the lines of the text and the number of all its lines.
pub proof fn law_read(path: Seq<char>, bytes: Seq<u8>, start: Option<usize>, end: Option<usize>)
    ensures
        start == Some(0usize) || end == Some(0usize) ==> read_answer(path, bytes, start, end)
            == Err::<ReadView, ErrorView>(
            ErrorView { status: 400, detail: "line numbers start at 1"@ },
        ),
        start != Some(0usize) && end != Some(0usize) && !valid_utf8(bytes) ==> read_answer(
            path,
            bytes,
            start,
            end,
        ) == Err::<ReadView, ErrorView>(
            ErrorView { status: 415, detail: "Unsupported binary file type"@ },
        ),
        start != Some(0usize) && end != Some(0usize) && valid_utf8(bytes) ==> (read_answer(
            path,
            bytes,
            start,
            end,
        ) matches Ok(v) && v.path == path && v.total_lines == lines_of(
            vstd::utf8::decode_utf8(bytes),
        ).len() && v.content == line_range(vstd::utf8::decode_utf8(bytes), start, end)),
{
}

// --- what is listed ----------------------------------------------------------

/// Names are listed one after the other.
pub proof fn law_entries_add_up(
    dir: Seq<char>,
    x: Seq<Seq<char>>,
    y: Seq<Seq<char>>,
    stats: EntryStats,
    tool: ToolStats,
)
    ensures
        entries_of(dir, x + y, stats) == entries_of(dir, x, stats) + entries_of(dir, y, stats),
        tool_entries(dir, x + y, tool) == tool_entries(dir, x, tool) + tool_entries(dir, y, tool),
    decreases y.len(),
{
    if y.len() == 0 {
        assert(x + y =~= x);
        assert(entries_of(dir, x, stats) + entries_of(dir, y, stats) =~= entries_of(dir, x, stats));
        assert(tool_entries(dir, x, tool) + tool_entries(dir, y, tool) =~= tool_entries(
            dir,
            x,
            tool,
        ));
    } else {
        law_entries_add_up(dir, x, y.drop_last(), stats, tool);
        assert((x + y).drop_last() =~= x + y.drop_last());
        assert((x + y).last() == y.last());
        assert(entries_of(dir, x + y, stats) =~= entries_of(dir, x, stats) + entries_of(
            dir,
            y,
            stats,
        ));
        assert(tool_entries(dir, x + y, tool) =~= tool_entries(dir, x, tool) + tool_entries(
            dir,
            y,
            tool,
        ));
    }
}

/// A name is listed exactly where what it stands for in the directory can be
/// looked at, with the size, the time and the mode of the entry itself. What counts
/// as a directory is a directory, or a link that leads to one.
pub proof fn law_entry_listed(
    dir: Seq<char>,
    name: Seq<char>,
    stats: EntryStats,
    tool: ToolStats,
)
    ensures
        entries_of(dir, seq![name], stats) == match stats(joined(dir, name)) {
            None => Seq::<EntryView>::empty(),
            Some(s) => seq![
                EntryView {
                    name,
                    kind: if (s.is_symlink && s.target_is_dir) || (!s.is_symlink && s.is_dir) {
                        "directory"@
                    } else {
                        "file"@
                    },
                    size: s.size,
                    modified: s.modified,
                    writable: s.writable,
                },
            ],
        },
        tool_entries(dir, seq![name], tool) == match tool(joined(dir, name)) {
            None => Seq::<ToolEntryView>::empty(),
            Some(s) => seq![ToolEntryView { name, is_dir: s.0, size: s.1 }],
        },
{
    let one = seq![name];
    let none = Seq::<Seq<char>>::empty();
    assert(one.drop_last() =~= none);
    assert(entries_of(dir, none, stats) =~= Seq::<EntryView>::empty());
    assert(tool_entries(dir, none, tool) =~= Seq::<ToolEntryView>::empty());
    assert(entries_of(dir, one, stats) =~= match stats(joined(dir, name)) {
        None => Seq::<EntryView>::empty(),
        Some(s) => seq![entry_of(dir, name, stats)->0],
    });
    assert(tool_entries(dir, one, tool) =~= match tool(joined(dir, name)) {
        None => Seq::<ToolEntryView>::empty(),
        Some(s) => seq![ToolEntryView { name, is_dir: s.0, size: s.1 }],
    });
}

/// White space around the directory of a request does not matter; nothing, blanks
/// alone and the word `null` in any case mean the workspace.
pub proof fn law_directory_meant(lead: Seq<char>, core: Seq<char>, trail: Seq<char>)
    requires
        all_in(lead, CharSet::Space),
        all_in(trail, CharSet::Space),
        core.len() > 0 ==> !is_space(core[0]) && !is_space(core.last()),
    ensures
        listed_directory(Some(lead + core + trail)) == if core.len() == 0 || ascii_lower_text(core)
            == "null"@ {
            "."@
        } else {
            core
        },
        tool_path_text(lead + core + trail) == if core.len() == 0 {
            "."@
        } else {
            core
        },
        listed_directory(None) == "."@,
{
    crate::chars::law_trim_exact(lead, core, trail, CharSet::Space);
    reveal_strlit("");
    reveal_strlit(".");
    reveal_strlit("null");
    if core.len() == 0 {
        assert(core =~= ""@);
    }
    let none = Seq::<char>::empty();
    let dot = "."@;
    assert(dot[0] == '.' && dot.last() == '.');
    crate::chars::law_trim_exact(none, dot, none, CharSet::Space);
    assert(none + dot + none =~= dot);
    assert(ascii_lower_text(dot).len() == 1);
}

/// A file is downloaded under its own name.
pub proof fn law_download_name(dir: Seq<char>, name: Seq<char>)
    requires
        crate::path::is_part(name),
        !name.contains('/'),
        name != crate::path::dotdot(),
    ensures
        download_name(joined(dir, name)) == name,
{
    crate::path::law_name_and_parent(dir, name);
}

/// Before a file is written, the directory it lies in has to be there; a bare name
/// needs none.
pub proof fn law_needed_dir(dir: Seq<char>, name: Seq<char>)
    requires
        crate::path::is_part(name),
        !name.contains('/'),
    ensures
        needed_dir(joined(dir, name)) matches Some(p) ==> crate::path::parts_of(p)
            == crate::path::parts_of(dir) && crate::path::is_absolute_text(p)
            == crate::path::is_absolute_text(dir),
        needed_dir(joined(dir, name)) is None ==> crate::path::parts_of(dir).len() == 0
            && !crate::path::is_absolute_text(dir),
        needed_dir(name) is None,
{
    crate::path::law_one_part(name);
    assert(crate::path::parts_of(name).drop_last() =~= Seq::<Seq<char>>::empty());
    assert(!crate::path::is_absolute_text(name)) by {
        assert(name.contains(name[0]));
    }
    assert(parent_of(name)->0.len() == 0);
    crate::path::law_name_and_parent(dir, name);
    let p = parent_of(joined(dir, name))->0;
    if p.len() == 0 {
        crate::path::law_one_part(p);
    }
}

/// A file is handed out as it is exactly where its media type begins as that of
/// an image does. A download of a path without a name is called `file`.
pub proof fn law_handed_out(path: Seq<char>)
    ensures
        is_image(path) <==> mime_of(path).len() >= 6 && mime_of(path).take(6) == seq![
            'i',
            'm',
            'a',
            'g',
            'e',
            '/',
        ],
        file_name_of(path) is None ==> download_name(path) == "file"@,
{
    reveal_strlit("image/");
    assert("image/"@ =~= seq!['i', 'm', 'a', 'g', 'e', '/']);
}

} // verus!
