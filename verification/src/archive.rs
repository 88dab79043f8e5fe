//! Uploads and zip archives: where an upload goes, and what an archive holds
//! under which names.

use vstd::prelude::*;

use crate::chars::{ascii_lower_text, eq_ignore_ascii_case, trim, trim_text};
use crate::error::{bad_request, not_found, ApiError, ErrorView};
use crate::lookup::{answers_as, Lookup};
use crate::order::arrange;
use crate::path::{file_name, file_name_of, is_within, join_path, joined};
use crate::safe_path::{confined, safe_path, within};
use crate::search::{see_from, seen_from};
use crate::snapshot::{entry_views, keys_of_paths, packed_order, ArchiveEntry};
use crate::text::{concat2, concat3, opt_str, texts, view_result};

verus! {

/// What to put into an archive.
#[derive(Debug)]
pub struct ArchiveRequest {
    /// The paths.
    pub paths: Vec<String>,
}

/// Where to put an upload.
#[derive(Debug)]
pub struct UploadQuery {
    /// The directory; the workspace itself where nothing is said.
    pub directory: Option<String>,
}

/// An upload: one part with the name `file`.
#[derive(Debug)]
pub struct FileUpload {
    /// The contents.
    pub file: String,
}

// --- uploads -----------------------------------------------------------------

/// The name under which an upload is kept: the last part of the name that came
/// with it, or `upload`.
pub open spec fn upload_name(name: Option<Seq<char>>) -> Seq<char> {
    match name {
        Some(n) => match file_name_of(n) {
            Some(f) => f,
            None => "upload"@,
        },
        None => "upload"@,
    }
}

/// The name under which an upload is kept.
pub fn upload_basename(name: Option<&str>) -> (r: String)
    ensures
        r@ == upload_name(opt_str(name)),
{
    match name {
        Some(n) => match file_name(n) {
            Some(f) => f,
            None => "upload".to_owned(),
        },
        None => "upload".to_owned(),
    }
}

/// The name of an upload is one part of a path: not empty, not `..`, without a
/// slash.
pub proof fn law_upload_name_is_plain(name: Option<Seq<char>>)
    ensures
        upload_name(name).len() > 0,
        upload_name(name) != crate::path::dotdot(),
        !upload_name(name).contains('/'),
{
    reveal_strlit("upload");
    if name is Some {
        let parts = crate::path::parts_of(name->0);
        crate::path::lemma_parts_proper(name->0);
        if file_name_of(name->0) is Some {
            let last = parts[parts.len() - 1];
            assert(crate::path::is_part(last) && !last.contains('/'));
        }
    }
    if "upload"@.contains('/') {
        let i = choose|i: int| 0 <= i < "upload"@.len() && "upload"@[i] == '/';
        assert(0 <= i < 6);
    }
    assert("upload"@.len() == 6);
}

/// Whether a directory is not really given: nothing, or the word `null`.
pub open spec fn is_unset(directory: Seq<char>) -> bool {
    trim_text(directory).len() == 0 || ascii_lower_text(trim_text(directory)) == ascii_lower_text(
        "null"@,
    )
}

/// The directory of an upload.
pub open spec fn upload_dir(
    directory: Option<Seq<char>>,
    base: Seq<char>,
    cwd: Seq<char>,
    links: Lookup,
) -> Result<Seq<char>, ErrorView> {
    match directory {
        None => Ok(base),
        Some(d) => if is_unset(d) {
            Ok(base)
        } else {
            confined(trim_text(d), base, cwd, links)
        },
    }
}

/// The directory of an upload: the workspace where none is given, else a
/// directory in it.
pub fn upload_target_dir<F: Fn(&str) -> Option<String>>(
    directory: Option<&str>,
    base: &str,
    cwd: &str,
    read_link: &F,
) -> (r: Result<String, ApiError>)
    requires
        forall|p: &str| call_requires(*read_link, (p,)),
    ensures
        forall|links: Lookup| #[trigger]
            answers_as(*read_link, links) ==> view_result(r) == upload_dir(
                opt_str(directory),
                base@,
                cwd@,
                links,
            ),
{
    let d = match directory {
        Some(d) => trim(d),
        None => {
            return Ok(base.to_owned());
        },
    };
    if d.as_str().is_empty() || eq_ignore_ascii_case(d.as_str(), "null") {
        return Ok(base.to_owned());
    }
    safe_path(d.as_str(), base, cwd, read_link)
}

/// The path of an upload: its name in the directory, which has to lie in the
/// workspace.
pub fn upload_path(dir: &str, name: &str, base: &str) -> (r: Result<String, ApiError>)
    ensures
        match r {
            Ok(p) => p@ == joined(dir@, name@) && is_within(p@, base@),
            Err(e) => !is_within(joined(dir@, name@), base@) && e@ == bad_request(
                "path escapes workspace"@,
            ),
        },
{
    let full = join_path(dir, name);
    if within(full.as_str(), base) {
        Ok(full)
    } else {
        Err(ApiError::BadRequest("path escapes workspace".to_owned()))
    }
}

/// The refusal of an upload without a file.
pub fn no_file_field() -> (r: ApiError)
    ensures
        r@ == bad_request("no 'file' field"@),
{
    ApiError::BadRequest("no 'file' field".to_owned())
}

/// The step of an upload that failed.
#[derive(Debug, Clone, Copy, PartialEq, Eq, Structural)]
pub enum UploadStep {
    /// Taking the body apart.
    Multipart,
    /// Creating the file.
    Create,
    /// Reading a piece.
    Read,
    /// Writing a piece.
    Write,
    /// Getting the file to disk.
    Sync,
}

/// The word for a step.
pub open spec fn step_word(step: UploadStep) -> Seq<char> {
    match step {
        UploadStep::Multipart => "multipart: "@,
        UploadStep::Create => "create: "@,
        UploadStep::Read => "read: "@,
        UploadStep::Write => "write: "@,
        UploadStep::Sync => "sync: "@,
    }
}

/// The error of a step that failed.
pub fn upload_failed(step: UploadStep, message: &str) -> (r: ApiError)
    ensures
        r@ == bad_request(step_word(step) + message@),
{
    let word = match step {
        UploadStep::Multipart => "multipart: ",
        UploadStep::Create => "create: ",
        UploadStep::Read => "read: ",
        UploadStep::Write => "write: ",
        UploadStep::Sync => "sync: ",
    };
    ApiError::BadRequest(concat2(word, message))
}

// --- archives ----------------------------------------------------------------

/// The resolved paths of a request, or the first refusal: of no paths at all, of
/// a path that leaves the workspace, and of one that is not there.
pub open spec fn archive_paths(
    paths: Seq<Seq<char>>,
    base: Seq<char>,
    cwd: Seq<char>,
    links: Lookup,
    exists_at: spec_fn(Seq<char>) -> bool,
    n: nat,
) -> Result<Seq<Seq<char>>, ErrorView>
    decreases n,
{
    if n == 0 {
        Ok(seq![])
    } else {
        match archive_paths(paths, base, cwd, links, exists_at, (n - 1) as nat) {
            Err(e) => Err(e),
            Ok(done) => match confined(paths[n - 1], base, cwd, links) {
                Err(e) => Err(e),
                Ok(full) => if exists_at(full) {
                    Ok(done.push(full))
                } else {
                    Err(not_found("Path not found: "@ + paths[n - 1]))
                },
            },
        }
    }
}

/// The closure tells what is there.
pub open spec fn finds<E: Fn(&str) -> bool>(found: E, exists_at: spec_fn(Seq<char>) -> bool) -> bool {
    forall|p: &str, b: bool| #[trigger] call_ensures(found, (p,), b) ==> b == exists_at(p@)
}

/// The views of texts, or of an error.
pub open spec fn texts_result(r: Result<Vec<String>, ApiError>) -> Result<
    Seq<Seq<char>>,
    ErrorView,
> {
    match r {
        Ok(v) => Ok(texts(v@)),
        Err(e) => Err(e@),
    }
}

proof fn lemma_archive_error_stays(
    paths: Seq<Seq<char>>,
    base: Seq<char>,
    cwd: Seq<char>,
    links: Lookup,
    exists_at: spec_fn(Seq<char>) -> bool,
    k: nat,
    n: nat,
)
    requires
        k <= n,
        archive_paths(paths, base, cwd, links, exists_at, k) is Err,
    ensures
        archive_paths(paths, base, cwd, links, exists_at, n) == archive_paths(
            paths,
            base,
            cwd,
            links,
            exists_at,
            k,
        ),
    decreases n,
{
    if k < n {
        lemma_archive_error_stays(paths, base, cwd, links, exists_at, k, (n - 1) as nat);
    }
}

/// The resolved paths of a request for an archive, or its refusal.
pub fn resolve_paths<F: Fn(&str) -> Option<String>, E: Fn(&str) -> bool>(
    paths: &Vec<String>,
    base: &str,
    cwd: &str,
    read_link: &F,
    found: &E,
) -> (r: Result<Vec<String>, ApiError>)
    requires
        forall|p: &str| call_requires(*read_link, (p,)),
        forall|p: &str| call_requires(*found, (p,)),
    ensures
        paths@.len() == 0 ==> r is Err && r->Err_0@ == bad_request("No paths provided"@),
        paths@.len() > 0 ==> forall|links: Lookup, exists_at: spec_fn(Seq<char>) -> bool|
            #![trigger answers_as(*read_link, links), finds(*found, exists_at)]
            answers_as(*read_link, links) && finds(*found, exists_at) ==> texts_result(r)
                == archive_paths(texts(paths@), base@, cwd@, links, exists_at, paths@.len()),
{
    if paths.len() == 0 {
        return Err(ApiError::BadRequest("No paths provided".to_owned()));
    }
    let ghost all = texts(paths@);
    let mut done: Vec<String> = Vec::new();
    let mut i: usize = 0;
    assert(texts(done@) =~= seq![]);
    while i < paths.len()
        invariant
            i <= paths@.len(),
            all == texts(paths@),
            forall|p: &str| call_requires(*read_link, (p,)),
            forall|p: &str| call_requires(*found, (p,)),
            forall|links: Lookup, exists_at: spec_fn(Seq<char>) -> bool|
                #![trigger answers_as(*read_link, links), finds(*found, exists_at)]
                answers_as(*read_link, links) && finds(*found, exists_at) ==> archive_paths(
                    all,
                    base@,
                    cwd@,
                    links,
                    exists_at,
                    i as nat,
                ) == Ok::<Seq<Seq<char>>, ErrorView>(texts(done@)),
        decreases paths@.len() - i,
    {
        let ghost d0 = texts(done@);
        assert(all[i as int] == paths@[i as int]@);
        let resolved = safe_path(paths[i].as_str(), base, cwd, read_link);
        match resolved {
            Err(e) => {
                proof {
                    assert forall|links: Lookup, exists_at: spec_fn(Seq<char>) -> bool|
                        #![trigger answers_as(*read_link, links), finds(*found, exists_at)]
                        answers_as(*read_link, links) && finds(*found, exists_at) implies Err::<
                        Seq<Seq<char>>,
                        ErrorView,
                    >(e@) == archive_paths(
                        all,
                        base@,
                        cwd@,
                        links,
                        exists_at,
                        paths@.len(),
                    ) by {
                        lemma_archive_error_stays(
                            all,
                            base@,
                            cwd@,
                            links,
                            exists_at,
                            (i + 1) as nat,
                            paths@.len(),
                        );
                    }
                }
                return Err(e);
            },
            Ok(full) => {
                let there = found(full.as_str());
                if !there {
                    let e = ApiError::NotFound(concat2("Path not found: ", paths[i].as_str()));
                    proof {
                        assert forall|links: Lookup, exists_at: spec_fn(Seq<char>) -> bool|
                            #![trigger answers_as(*read_link, links), finds(*found, exists_at)]
                            answers_as(*read_link, links) && finds(*found, exists_at) implies Err::<
                            Seq<Seq<char>>,
                            ErrorView,
                        >(e@) == archive_paths(
                            all,
                            base@,
                            cwd@,
                            links,
                            exists_at,
                            paths@.len(),
                        ) by {
                            lemma_archive_error_stays(
                                all,
                                base@,
                                cwd@,
                                links,
                                exists_at,
                                (i + 1) as nat,
                                paths@.len(),
                            );
                        }
                    }
                    return Err(e);
                }
                let ghost fv = full@;
                done.push(full);
                assert(texts(done@) =~= d0.push(fv));
            },
        }
        i += 1;
    }
    Ok(done)
}

/// The name of an archive: that of the one path in it, or `download`.
pub open spec fn archive_title(resolved: Seq<Seq<char>>) -> Seq<char> {
    if resolved.len() == 1 {
        match file_name_of(resolved[0]) {
            Some(n) => n,
            None => "download"@,
        }
    } else {
        "download"@
    }
}

/// The header with which an archive is handed out.
pub fn archive_disposition(resolved: &Vec<String>) -> (r: String)
    ensures
        r@ == "attachment; filename=\""@ + archive_title(texts(resolved@)) + ".zip\""@,
{
    let name = if resolved.len() == 1 {
        assert(texts(resolved@)[0] == resolved@[0]@);
        match file_name(resolved[0].as_str()) {
            Some(n) => n,
            None => "download".to_owned(),
        }
    } else {
        "download".to_owned()
    };
    concat3("attachment; filename=\"", name.as_str(), ".zip\"")
}

/// The name of a path at the top of an archive.
pub open spec fn root_name(path: Seq<char>) -> Seq<char> {
    match file_name_of(path) {
        Some(n) => n,
        None => "file"@,
    }
}

/// What an archive holds of a file: the file, under its own name.
pub open spec fn file_entries(path: Seq<char>) -> Seq<(Seq<char>, Seq<char>)> {
    seq![(path, root_name(path))]
}

/// What an archive holds of a directory: its files, in order, under the name of
/// the directory and their paths as seen from it.
pub open spec fn dir_entries(path: Seq<char>, files: Seq<Seq<char>>) -> Seq<(Seq<char>, Seq<char>)> {
    packed_order(files).map_values(
        |f: Seq<char>| (f, root_name(path) + "/"@ + seen_from(f, path)),
    )
}

/// What an archive holds of a path: the file itself, or the files of the
/// directory.
pub fn zip_entries(path: &str, is_dir: bool, files: &Vec<String>) -> (r: Vec<ArchiveEntry>)
    ensures
        entry_views(r@) == if is_dir {
            dir_entries(path@, texts(files@))
        } else {
            file_entries(path@)
        },
{
    let root = match file_name(path) {
        Some(n) => n,
        None => "file".to_owned(),
    };
    let mut r: Vec<ArchiveEntry> = Vec::new();
    if !is_dir {
        r.push(ArchiveEntry { path: path.to_owned(), name: root });
        assert(entry_views(r@) =~= file_entries(path@));
        return r;
    }
    let keys = keys_of_paths(files);
    let rows = arrange(files, &keys);
    let ghost ordered = texts(rows@);
    let ghost f = |x: Seq<char>| (x, root_name(path@) + "/"@ + seen_from(x, path@));
    let mut i: usize = 0;
    assert(entry_views(r@) =~= ordered.take(0).map_values(f));
    while i < rows.len()
        invariant
            i <= rows@.len(),
            ordered == texts(rows@),
            root@ == root_name(path@),
            f == (|x: Seq<char>| (x, root_name(path@) + "/"@ + seen_from(x, path@))),
            entry_views(r@) == ordered.take(i as int).map_values(f),
        decreases rows@.len() - i,
    {
        let ghost r0 = entry_views(r@);
        let rel = see_from(rows[i].as_str(), path);
        let name = concat3(root.as_str(), "/", rel.as_str());
        let e = ArchiveEntry { path: rows[i].clone(), name };
        assert(ordered[i as int] == rows@[i as int]@);
        let ghost v = (e.path@, e.name@);
        r.push(e);
        proof {
            assert(entry_views(r@) =~= r0.push(v));
            assert(ordered.take(i as int + 1).map_values(f) =~= ordered.take(i as int).map_values(
                f,
            ).push(f(ordered[i as int])));
        }
        i += 1;
    }
    assert(ordered.take(ordered.len() as int) =~= ordered);
    r
}

/// An upload is kept under the last part of its name, whatever directories stand in
/// front; one without a usable name is kept as `upload`.
pub proof fn law_upload_name(dir: Seq<char>, name: Seq<char>, bare: Seq<char>)
    requires
        crate::path::is_part(name),
        !name.contains('/'),
        name != crate::path::dotdot(),
        crate::path::parts_of(bare).len() == 0,
    ensures
        upload_name(Some(joined(dir, name))) == name,
        upload_name(Some(bare)) == "upload"@,
        upload_name(None) == "upload"@,
{
    crate::path::law_name_and_parent(dir, name);
}

/// An upload without a directory, with blanks for one or with the word `null` in any
/// case goes to the workspace itself; any other directory has to lie in it, and
/// blanks around it do not matter.
pub proof fn law_upload_dir(
    lead: Seq<char>,
    core: Seq<char>,
    trail: Seq<char>,
    base: Seq<char>,
    cwd: Seq<char>,
    links: Lookup,
)
    requires
        crate::chars::all_in(lead, crate::chars::CharSet::Space),
        crate::chars::all_in(trail, crate::chars::CharSet::Space),
        core.len() > 0 ==> !crate::chars::is_space(core[0]) && !crate::chars::is_space(core.last()),
    ensures
        upload_dir(None, base, cwd, links) == Ok::<Seq<char>, ErrorView>(base),
        upload_dir(Some(lead + core + trail), base, cwd, links) == if core.len() == 0
            || ascii_lower_text(core) == "null"@ {
            Ok::<Seq<char>, ErrorView>(base)
        } else {
            confined(core, base, cwd, links)
        },
{
    crate::chars::law_trim_exact(lead, core, trail, crate::chars::CharSet::Space);
    reveal_strlit("null");
    assert(ascii_lower_text("null"@) =~= "null"@);
}

/// The paths of a request are resolved in their order, each as it is confined to the
/// workspace. There is an answer exactly where all of them are let through and are
/// there; else the first that is not decides.
pub proof fn law_archive_paths(
    paths: Seq<Seq<char>>,
    base: Seq<char>,
    cwd: Seq<char>,
    links: Lookup,
    exists_at: spec_fn(Seq<char>) -> bool,
    n: nat,
)
    requires
        n <= paths.len(),
    ensures
        archive_paths(paths, base, cwd, links, exists_at, n) is Ok <==> forall|i: int|
            0 <= i < n ==> (confined(#[trigger] paths[i], base, cwd, links) matches Ok(f)
                && exists_at(f)),
        archive_paths(paths, base, cwd, links, exists_at, n) matches Ok(r) ==> r.len() == n
            && forall|i: int|
            0 <= i < n ==> confined(#[trigger] paths[i], base, cwd, links) == Ok::<
                Seq<char>,
                ErrorView,
            >(r[i]),
    decreases n,
{
    if n > 0 {
        law_archive_paths(paths, base, cwd, links, exists_at, (n - 1) as nat);
    }
}

/// The first path that is refused or not there decides what a request for an archive
/// is answered.
pub proof fn law_archive_refusal(
    paths: Seq<Seq<char>>,
    base: Seq<char>,
    cwd: Seq<char>,
    links: Lookup,
    exists_at: spec_fn(Seq<char>) -> bool,
    k: int,
)
    requires
        0 <= k < paths.len(),
        forall|i: int|
            0 <= i < k ==> (confined(#[trigger] paths[i], base, cwd, links) matches Ok(f)
                && exists_at(f)),
        !(confined(paths[k], base, cwd, links) matches Ok(f) && exists_at(f)),
    ensures
        archive_paths(paths, base, cwd, links, exists_at, paths.len()) == match confined(
            paths[k],
            base,
            cwd,
            links,
        ) {
            Err(e) => Err::<Seq<Seq<char>>, ErrorView>(e),
            Ok(_) => Err::<Seq<Seq<char>>, ErrorView>(
                ErrorView { status: 404, detail: "Path not found: "@ + paths[k] },
            ),
        },
{
    law_archive_paths(paths, base, cwd, links, exists_at, k as nat);
    lemma_archive_error_stays(
        paths,
        base,
        cwd,
        links,
        exists_at,
        (k + 1) as nat,
        paths.len(),
    );
}

/// An archive of one path has the name of that path; any other is a download.
pub proof fn law_archive_title(dir: Seq<char>, name: Seq<char>, many: Seq<Seq<char>>)
    requires
        crate::path::is_part(name),
        !name.contains('/'),
        name != crate::path::dotdot(),
        many.len() != 1,
    ensures
        archive_title(seq![joined(dir, name)]) == name,
        archive_title(many) == "download"@,
{
    crate::path::law_name_and_parent(dir, name);
}

/// An archive holds a file under its own name, and each file of a directory once,
/// under the name of the directory, a slash, and the way from the directory to it.
pub proof fn law_zip_entries(
    dir: Seq<char>,
    name: Seq<char>,
    files: Seq<Seq<char>>,
    parts: Seq<Seq<char>>,
)
    requires
        crate::path::is_part(name),
        !name.contains('/'),
        name != crate::path::dotdot(),
        crate::path::proper_parts(parts),
    ensures
        file_entries(joined(dir, name)) == seq![(joined(dir, name), name)],
        dir_entries(joined(dir, name), files).len() == files.len(),
        ({
            let top = joined(dir, name);
            let inner = joined(top, crate::path::relative_path(parts));
            forall|i: int|
                0 <= i < files.len() && packed_order(files)[i] == inner ==> #[trigger] dir_entries(
                    top,
                    files,
                )[i] == (inner, name + "/"@ + crate::path::relative_path(parts))
        }),
        forall|i: int|
            0 <= i < files.len() ==> (#[trigger] dir_entries(joined(dir, name), files)[i]).0
                == packed_order(files)[i],
        packed_order(files).to_multiset() == files.to_multiset(),
{
    crate::path::law_name_and_parent(dir, name);
    crate::snapshot::law_packed_order(files);
    crate::path::law_seen_from(joined(dir, name), parts);
}

/// The error of an upload says which step failed.
pub proof fn law_step_words(path: Seq<char>)
    ensures
        step_word(UploadStep::Multipart) == "multipart: "@,
        step_word(UploadStep::Create) == "create: "@,
        step_word(UploadStep::Read) == "read: "@,
        step_word(UploadStep::Write) == "write: "@,
        step_word(UploadStep::Sync) == "sync: "@,
        file_name_of(path) is None ==> root_name(path) == "file"@,
        file_name_of(path) is Some ==> root_name(path) == file_name_of(path)->0,
{
}

} // verus!
