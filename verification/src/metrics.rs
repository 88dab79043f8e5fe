//! The labels under which requests are counted.

use vstd::prelude::*;

use crate::find::starts_with;
use crate::text::str_in;

verus! {

/// The routes without parameters.
pub open spec fn static_routes() -> Seq<Seq<char>> {
    seq![
        "/"@,
        "/healthz"@,
        "/readyz"@,
        "/api/config"@,
        "/metrics"@,
        "/execute"@,
        "/files/cwd"@,
        "/files/list"@,
        "/files/read"@,
        "/files/write"@,
        "/files/mkdir"@,
        "/files/move"@,
        "/files/delete"@,
        "/files/view"@,
        "/files/display"@,
        "/files/search"@,
        "/files/matches"@,
        "/files/replace"@,
        "/files/compare"@,
        "/files/grep"@,
        "/files/glob"@,
        "/files/archive"@,
        "/files/upload"@,
        "/upload"@,
        "/ports"@,
        "/system"@,
        "/info"@,
        "/skills"@,
        "/skills/read"@,
        "/snapshot"@,
        "/restore"@,
        "/api/terminals"@,
        "/list"@,
        "/list/"@,
    ]
}

/// The label of a path: a route without parameters is its own label, a path of a
/// route with a parameter has the label of the route, and any other has none.
pub open spec fn label_of(matched: Seq<char>) -> Seq<char> {
    if static_routes().contains(matched) {
        matched
    } else if "/download/"@.is_prefix_of(matched) {
        "/download/{file_path}"@
    } else if "/list/"@.is_prefix_of(matched) {
        "/list/{file_path}"@
    } else if "/exists/"@.is_prefix_of(matched) {
        "/exists/{file_path}"@
    } else if "/api/terminals/"@.is_prefix_of(matched) {
        "/api/terminals/{id}"@
    } else {
        "unmatched"@
    }
}

/// The label of a path.
pub fn route_label(matched: &str) -> (r: &str)
    ensures
        r@ == label_of(matched@),
{
    let routes: [&str; 34] = [
        "/",
        "/healthz",
        "/readyz",
        "/api/config",
        "/metrics",
        "/execute",
        "/files/cwd",
        "/files/list",
        "/files/read",
        "/files/write",
        "/files/mkdir",
        "/files/move",
        "/files/delete",
        "/files/view",
        "/files/display",
        "/files/search",
        "/files/matches",
        "/files/replace",
        "/files/compare",
        "/files/grep",
        "/files/glob",
        "/files/archive",
        "/files/upload",
        "/upload",
        "/ports",
        "/system",
        "/info",
        "/skills",
        "/skills/read",
        "/snapshot",
        "/restore",
        "/api/terminals",
        "/list",
        "/list/",
    ];
    assert(routes@.map_values(|s: &str| s@) =~= static_routes());
    if str_in(matched, routes.as_slice()) {
        matched
    } else if starts_with(matched, "/download/") {
        "/download/{file_path}"
    } else if starts_with(matched, "/list/") {
        "/list/{file_path}"
    } else if starts_with(matched, "/exists/") {
        "/exists/{file_path}"
    } else if starts_with(matched, "/api/terminals/") {
        "/api/terminals/{id}"
    } else {
        "unmatched"
    }
}

/// The label of a request: a request that matched no route has none.
pub fn request_label(matched: Option<&str>) -> (r: &str)
    ensures
        r@ == match matched {
            Some(m) => label_of(m@),
            None => "unmatched"@,
        },
{
    match matched {
        Some(m) => route_label(m),
        None => "unmatched",
    }
}

/// All labels there are.
pub open spec fn all_labels() -> Seq<Seq<char>> {
    static_routes() + seq![
        "/download/{file_path}"@,
        "/list/{file_path}"@,
        "/exists/{file_path}"@,
        "/api/terminals/{id}"@,
        "unmatched"@,
    ]
}

/// However many paths there are, there are no other labels than these.
pub proof fn law_labels_bounded(matched: Seq<char>)
    ensures
        all_labels().contains(label_of(matched)),
{
    let n = static_routes().len() as int;
    if static_routes().contains(matched) {
        let i = choose|i: int| 0 <= i < n && static_routes()[i] == matched;
        assert(all_labels()[i] == matched);
    } else {
        assert(all_labels()[n] == "/download/{file_path}"@);
        assert(all_labels()[n + 1] == "/list/{file_path}"@);
        assert(all_labels()[n + 2] == "/exists/{file_path}"@);
        assert(all_labels()[n + 3] == "/api/terminals/{id}"@);
        assert(all_labels()[n + 4] == "unmatched"@);
    }
}

proof fn lemma_routes_short()
    ensures
        forall|i: int|
            0 <= i < static_routes().len() ==> {
                let r = #[trigger] static_routes()[i];
                &&& !("/download/"@.is_prefix_of(r))
                &&& !("/exists/"@.is_prefix_of(r))
                &&& "/list/"@.is_prefix_of(r) ==> r == "/list/"@
                &&& !("/api/terminals/"@.is_prefix_of(r))
            },
{
    reveal_strlit("/download/");
    reveal_strlit("/exists/");
    reveal_strlit("/api/terminals/");
    reveal_strlit("/");
    reveal_strlit("/healthz");
    reveal_strlit("/readyz");
    reveal_strlit("/api/config");
    reveal_strlit("/metrics");
    reveal_strlit("/execute");
    reveal_strlit("/files/cwd");
    reveal_strlit("/files/list");
    reveal_strlit("/files/read");
    reveal_strlit("/files/write");
    reveal_strlit("/files/mkdir");
    reveal_strlit("/files/move");
    reveal_strlit("/files/delete");
    reveal_strlit("/files/view");
    reveal_strlit("/files/display");
    reveal_strlit("/files/search");
    reveal_strlit("/files/matches");
    reveal_strlit("/files/replace");
    reveal_strlit("/files/compare");
    reveal_strlit("/files/grep");
    reveal_strlit("/files/glob");
    reveal_strlit("/files/archive");
    reveal_strlit("/files/upload");
    reveal_strlit("/upload");
    reveal_strlit("/ports");
    reveal_strlit("/system");
    reveal_strlit("/info");
    reveal_strlit("/skills");
    reveal_strlit("/skills/read");
    reveal_strlit("/snapshot");
    reveal_strlit("/restore");
    reveal_strlit("/api/terminals");
    reveal_strlit("/list");
    reveal_strlit("/list/");
    assert forall|i: int| 0 <= i < static_routes().len() implies {
        let r = #[trigger] static_routes()[i];
        &&& !("/download/"@.is_prefix_of(r))
        &&& !("/exists/"@.is_prefix_of(r))
        &&& "/list/"@.is_prefix_of(r) ==> r == "/list/"@
        &&& !("/api/terminals/"@.is_prefix_of(r))
    } by {
        let r = static_routes()[i];
        lemma_prefix_char(r, "/download/"@, 1);
        lemma_prefix_char(r, "/exists/"@, 1);
        lemma_prefix_char(r, "/exists/"@, 3);
        lemma_prefix_char(r, "/list/"@, 1);
    }
}

proof fn lemma_prefix_char(s: Seq<char>, p: Seq<char>, i: int)
    requires
        0 <= i < p.len(),
    ensures
        p.is_prefix_of(s) ==> p.len() <= s.len() && s[i] == p[i],
{
    if p.is_prefix_of(s) {
        assert(s.take(p.len() as int)[i] == s[i]);
    }
}

/// A route without parameters is counted under itself; what stands behind a route
/// with a parameter does not matter, however it differs; and a path of no route is
/// counted with all others of that kind.
pub proof fn law_labels(matched: Seq<char>, rest: Seq<char>)
    requires
        rest.len() > 0,
    ensures
        static_routes().contains(matched) ==> label_of(matched) == matched,
        label_of("/download/"@ + rest) == "/download/{file_path}"@,
        label_of("/list/"@ + rest) == "/list/{file_path}"@,
        label_of("/exists/"@ + rest) == "/exists/{file_path}"@,
        label_of("/api/terminals/"@ + rest) == "/api/terminals/{id}"@,
        !static_routes().contains(matched) && !("/download/"@.is_prefix_of(matched)) && !(
        "/list/"@.is_prefix_of(matched)) && !("/exists/"@.is_prefix_of(matched)) && !(
        "/api/terminals/"@.is_prefix_of(matched)) ==> label_of(matched) == "unmatched"@,
{
    lemma_routes_short();
    let (a, b, c, d) = ("/download/"@, "/list/"@, "/exists/"@, "/api/terminals/"@);
    reveal_strlit("/download/");
    reveal_strlit("/list/");
    reveal_strlit("/exists/");
    reveal_strlit("/api/terminals/");
    assert((a + rest).take(a.len() as int) =~= a);
    assert((b + rest).take(b.len() as int) =~= b);
    assert((c + rest).take(c.len() as int) =~= c);
    assert((d + rest).take(d.len() as int) =~= d);
    if static_routes().contains(b + rest) {
        let i = choose|i: int| 0 <= i < static_routes().len() && static_routes()[i] == b + rest;
        assert((b + rest).len() > b.len());
    }
    lemma_prefix_char(b + rest, a, 1);
    lemma_prefix_char(c + rest, a, 1);
    lemma_prefix_char(c + rest, b, 1);
    lemma_prefix_char(d + rest, a, 1);
    lemma_prefix_char(d + rest, b, 1);
    lemma_prefix_char(d + rest, c, 1);
}

} // verus!
