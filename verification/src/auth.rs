//! Fail-closed authentication by a per-session key.
//!
//! The key lies in a file that may be replaced at any time. The store reads it
//! again when the file's modification time changes, and once more when a
//! bearer does not match, so that a new key counts from the next request on.
//! An absent, empty or placeholder key never authenticates anyone.

use vstd::prelude::*;
use vstd::utf8::encode_utf8;

use crate::chars::{trim, trim_text};
use crate::error::{ApiError, ErrorView};
use crate::find::strip_prefix;
use crate::text::{concat3, opt_text, str_in};

verus! {

/// Whether two byte strings are equal, compared in constant time.
pub fn constant_time_eq(a: &[u8], b: &[u8]) -> (r: bool)
    ensures
        r == (a@ == b@),
{
    crate::outside::ct_eq(a, b)
}

/// The keys that count as "not configured".
pub open spec fn is_placeholder_text(key: Seq<char>) -> bool {
    ||| key == ""@
    ||| key == "dev-shared-secret-change-me"@
    ||| key == "change-me"@
    ||| key == "changeme"@
    ||| key == "placeholder"@
}

/// The keys that count as "not configured".
pub fn placeholder_keys() -> (r: [&'static str; 5])
    ensures
        forall|k: Seq<char>|
            is_placeholder_text(k) == exists|i: int| 0 <= i < 5 && #[trigger] r@[i]@ == k,
{
    let r: [&'static str; 5] = [
        "",
        "dev-shared-secret-change-me",
        "change-me",
        "changeme",
        "placeholder",
    ];
    proof {
        assert forall|k: Seq<char>| is_placeholder_text(k) implies exists|i: int|
            0 <= i < 5 && #[trigger] r@[i]@ == k by {
            if k == ""@ {
                assert(r@[0]@ == k);
            } else if k == "dev-shared-secret-change-me"@ {
                assert(r@[1]@ == k);
            } else if k == "change-me"@ {
                assert(r@[2]@ == k);
            } else if k == "changeme"@ {
                assert(r@[3]@ == k);
            } else {
                assert(r@[4]@ == k);
            }
        }
    }
    r
}

/// Whether `key` is empty or a known placeholder.
pub fn is_placeholder(key: &str) -> (r: bool)
    ensures
        r == is_placeholder_text(key@),
{
    let keys = placeholder_keys();
    str_in(key, keys.as_slice())
}

/// What was seen of the key file when the cached value was read.
#[derive(Debug, Clone, Copy, PartialEq, Eq, Structural)]
pub enum Mtime {
    /// The file was missing or unreadable.
    Missing,
    /// The file had this modification time, in nanoseconds around the epoch.
    Live(i128),
}

/// The cached reader of the session key.
pub struct SessionKeyStore {
    key_file: String,
    /// `None` forces the next load to read the file.
    mtime: Option<Mtime>,
    value: String,
}

/// The state of a store.
pub struct StoreView {
    /// Path of the key file.
    pub key_file: Seq<char>,
    /// What the cached value belongs to.
    pub mtime: Option<Mtime>,
    /// The cached key.
    pub value: Seq<char>,
}

impl View for SessionKeyStore {
    type V = StoreView;

    closed spec fn view(&self) -> StoreView {
        StoreView { key_file: self.key_file@, mtime: self.mtime, value: self.value@ }
    }
}

/// What a look at the file's modification time says.
pub open spec fn observed_mtime(seen: Option<i128>) -> Mtime {
    match seen {
        Some(t) => Mtime::Live(t),
        None => Mtime::Missing,
    }
}

/// The store after a load that saw the modification time `seen` and, where the
/// file had to be read, the contents `contents`.
pub open spec fn loaded(s: StoreView, seen: Option<i128>, contents: Option<Seq<char>>) -> StoreView {
    if s.mtime == Some(observed_mtime(seen)) {
        s
    } else {
        StoreView {
            key_file: s.key_file,
            mtime: Some(observed_mtime(seen)),
            value: match seen {
                None => seq![],
                Some(_) => match contents {
                    Some(t) => trim_text(t),
                    None => seq![],
                },
            },
        }
    }
}

/// The store with its cache dropped.
pub open spec fn invalidated(s: StoreView) -> StoreView {
    StoreView { key_file: s.key_file, mtime: None, value: s.value }
}

/// Whether the presented token is the key.
pub open spec fn token_matches(presented: Option<Seq<u8>>, key: Seq<char>) -> bool {
    presented == Some(encode_utf8(key))
}

/// The outcome of a request that presents a token, when the first load leaves
/// the store in state `first` and a second one would leave it in state `again`.
pub open spec fn auth_outcome(
    presented: Option<Seq<u8>>,
    first: StoreView,
    again: StoreView,
) -> AuthOutcome {
    if is_placeholder_text(first.value) {
        AuthOutcome::Unconfigured
    } else if token_matches(presented, first.value) {
        AuthOutcome::Accepted
    } else if !is_placeholder_text(again.value) && token_matches(presented, again.value) {
        AuthOutcome::Accepted
    } else {
        AuthOutcome::Invalid
    }
}

/// Whether the first load decides: the key is a placeholder, or it is the token.
pub open spec fn is_settled(presented: Option<Seq<u8>>, first: StoreView) -> bool {
    is_placeholder_text(first.value) || token_matches(presented, first.value)
}

/// The bytes of an optional byte string.
pub open spec fn opt_bytes(o: Option<&[u8]>) -> Option<Seq<u8>> {
    match o {
        Some(b) => Some(b@),
        None => None,
    }
}

/// `step` takes a store from `before` to `after` by a load: some modification
/// time that the first closure may give was seen, and the file was read where
/// its contents were needed.
pub open spec fn load_step<S: Fn() -> Option<i128>, R: Fn() -> Option<String>>(
    stat: S,
    read: R,
    before: StoreView,
    after: StoreView,
) -> bool {
    exists|seen: Option<i128>, text: Option<String>|
        #![trigger loaded(before, seen, opt_text(text))]
        {
            &&& call_ensures(stat, (), seen)
            &&& (seen is Some && before.mtime != Some(observed_mtime(seen))) ==> call_ensures(
                read,
                (),
                text,
            )
            &&& after == loaded(before, seen, opt_text(text))
        }
}

/// The outcome of authenticating one request.
#[derive(Debug, Clone, Copy, PartialEq, Eq, Structural)]
pub enum AuthOutcome {
    /// The bearer is the configured key.
    Accepted,
    /// The key is absent, empty or a placeholder.
    Unconfigured,
    /// The bearer is missing or is not the key.
    Invalid,
}

/// The session key is missing or a placeholder at boot.
#[derive(Debug)]
pub struct BootError(pub String);

/// The message with which the runtime refuses to start.
pub open spec fn boot_message(key_file: Seq<char>) -> Seq<char> {
    "per-session runtime API key is missing or a placeholder — refusing to start. The broker must inject a per-session Secret as the projected volume at "@
        + key_file + " (volume 'runtime-key')."@
}

impl SessionKeyStore {
    /// A store for the key in `key_file`, with nothing cached.
    pub fn new(key_file: &str) -> (r: Self)
        ensures
            r@ == (StoreView { key_file: key_file@, mtime: None, value: seq![] }),
    {
        SessionKeyStore { key_file: key_file.to_owned(), mtime: None, value: String::new() }
    }

    /// The path of the key file.
    pub fn key_file(&self) -> (r: &str)
        ensures
            r@ == self@.key_file,
    {
        self.key_file.as_str()
    }

    /// The session key; `stat` gives the modification time of the key file and
    /// `read` its contents, each nothing where that fails. The file is read only
    /// when its modification time is not the cached one.
    pub fn load<S: Fn() -> Option<i128>, R: Fn() -> Option<String>>(
        &mut self,
        stat: &S,
        read: &R,
    ) -> (r: String)
        requires
            call_requires(*stat, ()),
            call_requires(*read, ()),
        ensures
            load_step(*stat, *read, old(self)@, final(self)@),
            r@ == final(self)@.value,
    {
        let seen = stat();
        let observed = match seen {
            Some(t) => Mtime::Live(t),
            None => Mtime::Missing,
        };
        let ghost before = self@;
        let fresh: bool = match self.mtime {
            Some(m) => m == observed,
            None => false,
        };
        if fresh {
            let ghost text: Option<String> = None;
            assert(self@ == loaded(before, seen, opt_text(text)));
            return self.value.clone();
        }
        match seen {
            None => {
                self.value = String::new();
                self.mtime = Some(observed);
                let ghost text: Option<String> = None;
                assert(self@.value =~= seq![]);
                assert(self@ == loaded(before, seen, opt_text(text)));
            },
            Some(_) => {
                let text = read();
                match &text {
                    Some(t) => {
                        self.value = trim(t.as_str());
                    },
                    None => {
                        self.value = String::new();
                        assert(self.value@ =~= seq![]);
                    },
                }
                self.mtime = Some(observed);
                assert(self@ == loaded(before, seen, opt_text(text)));
            },
        }
        self.value.clone()
    }

    /// Forces the next load to read the file.
    pub fn invalidate(&mut self)
        ensures
            final(self)@ == invalidated(old(self)@),
    {
        self.mtime = None;
    }

    /// Refuses to start with a missing or placeholder key.
    pub fn validate<S: Fn() -> Option<i128>, R: Fn() -> Option<String>>(
        &mut self,
        stat: &S,
        read: &R,
    ) -> (r: Result<(), BootError>)
        requires
            call_requires(*stat, ()),
            call_requires(*read, ()),
        ensures
            load_step(*stat, *read, old(self)@, final(self)@),
            r is Err <==> is_placeholder_text(final(self)@.value),
            r is Err ==> r->Err_0.0@ == boot_message(old(self)@.key_file),
    {
        let key = self.load(stat, read);
        if is_placeholder(key.as_str()) {
            return Err(
                BootError(
                    concat3(
                        "per-session runtime API key is missing or a placeholder — refusing to start. The broker must inject a per-session Secret as the projected volume at ",
                        self.key_file.as_str(),
                        " (volume 'runtime-key').",
                    ),
                ),
            );
        }
        Ok(())
    }

    /// Authenticates one request. A token that does not match makes the store
    /// read the file once more.
    pub fn check<S: Fn() -> Option<i128>, R: Fn() -> Option<String>>(
        &mut self,
        presented: Option<&[u8]>,
        stat: &S,
        read: &R,
    ) -> (r: AuthOutcome)
        requires
            call_requires(*stat, ()),
            call_requires(*read, ()),
        ensures
            exists|first: StoreView|
                {
                    &&& #[trigger] load_step(*stat, *read, old(self)@, first)
                    &&& if is_settled(opt_bytes(presented), first) {
                        final(self)@ == first
                    } else {
                        load_step(*stat, *read, invalidated(first), final(self)@)
                    }
                    &&& r == auth_outcome(opt_bytes(presented), first, final(self)@)
                },
    {
        let key = self.load(stat, read);
        let ghost first = self@;
        if is_placeholder(key.as_str()) {
            return AuthOutcome::Unconfigured;
        }
        if let Some(token) = presented {
            if constant_time_eq(token, key.as_str().as_bytes()) {
                assert(token_matches(opt_bytes(presented), first.value));
                return AuthOutcome::Accepted;
            }
        }
        assert(!token_matches(opt_bytes(presented), first.value));
        self.invalidate();
        let key2 = self.load(stat, read);
        if !is_placeholder(key2.as_str()) {
            if let Some(token) = presented {
                if constant_time_eq(token, key2.as_str().as_bytes()) {
                    return AuthOutcome::Accepted;
                }
            }
        }
        AuthOutcome::Invalid
    }
}

/// Nobody is let in by an absent, empty or placeholder key: a request passes
/// only with a token that is the text of a real key.
pub proof fn law_fail_closed(presented: Option<Seq<u8>>, first: StoreView, again: StoreView)
    ensures
        is_placeholder_text(first.value) ==> auth_outcome(presented, first, again)
            == AuthOutcome::Unconfigured,
        auth_outcome(presented, first, again) == AuthOutcome::Accepted ==> {
            ||| (!is_placeholder_text(first.value) && token_matches(presented, first.value))
            ||| (!is_placeholder_text(again.value) && token_matches(presented, again.value))
        },
        presented is None ==> auth_outcome(presented, first, again) != AuthOutcome::Accepted,
{
}

/// A key that is absent or unreadable loads as a placeholder.
pub proof fn law_missing_key_is_placeholder(s: StoreView, seen: Option<i128>)
    requires
        s.mtime != Some(observed_mtime(seen)),
    ensures
        is_placeholder_text(loaded(s, None, None).value) || s.mtime == Some(Mtime::Missing),
        is_placeholder_text(loaded(s, seen, None).value),
{
    reveal_strlit("");
    assert(Seq::<char>::empty() =~= ""@);
}

/// A replaced key counts at once: whatever is cached, a request that presents
/// the key now in the file passes, and the store ends up holding that key.
pub proof fn law_rotation(cached: StoreView, seen: i128, contents: Seq<char>)
    requires
        !is_placeholder_text(trim_text(contents)),
        !is_placeholder_text(cached.value),
    ensures
        ({
            let again = loaded(invalidated(cached), Some(seen), Some(contents));
            &&& again.value == trim_text(contents)
            &&& auth_outcome(Some(encode_utf8(trim_text(contents))), cached, again)
                == AuthOutcome::Accepted
        }),
{
}

/// The token of an `Authorization` header, where it names the bearer scheme.
pub open spec fn bearer_of(header: Option<Seq<char>>) -> Option<Seq<u8>> {
    match header {
        Some(h) => if "Bearer "@.is_prefix_of(h) {
            Some(encode_utf8(h.skip("Bearer "@.len() as int)))
        } else {
            None
        },
        None => None,
    }
}

/// The token of an `Authorization` header, or nothing where the header is
/// absent or names another scheme.
pub fn bearer_from_headers(authorization: Option<&str>) -> (r: Option<Vec<u8>>)
    ensures
        match r {
            Some(t) => bearer_of(crate::text::opt_str(authorization)) == Some(t@),
            None => bearer_of(crate::text::opt_str(authorization)) is None,
        },
{
    match authorization {
        None => None,
        Some(raw) => match strip_prefix(raw, "Bearer ") {
            None => None,
            Some(token) => Some(vstd::slice::slice_to_vec(token.as_str().as_bytes())),
        },
    }
}

/// Proof that a request passed the check.
#[derive(Debug, Clone, Copy)]
pub struct Authed;

impl Authed {
    /// Lets a request through, or says why not.
    pub fn from_outcome(outcome: AuthOutcome) -> (r: Result<Authed, ApiError>)
        ensures
            r is Ok <==> outcome == AuthOutcome::Accepted,
            outcome == AuthOutcome::Unconfigured ==> r->Err_0@ == (ErrorView {
                status: 503,
                detail: "per-session runtime API key is not configured"@,
            }),
            outcome == AuthOutcome::Invalid ==> r->Err_0@ == (ErrorView {
                status: 401,
                detail: "invalid runtime api key"@,
            }),
    {
        match outcome {
            AuthOutcome::Accepted => Ok(Authed),
            AuthOutcome::Unconfigured => Err(
                ApiError::ServiceUnavailable(
                    "per-session runtime API key is not configured".to_owned(),
                ),
            ),
            AuthOutcome::Invalid => Err(
                ApiError::Unauthorized("invalid runtime api key".to_owned()),
            ),
        }
    }
}

/// A request passes exactly where the key that was loaded is a real one and the
/// token is that key, or the key that is then read again. A key that is no real one
/// lets nobody in, whatever the token; and every other token is invalid.
pub proof fn law_who_passes(presented: Option<Seq<u8>>, first: StoreView, again: StoreView)
    ensures
        auth_outcome(presented, first, again) == AuthOutcome::Unconfigured <==> is_placeholder_text(
            first.value,
        ),
        auth_outcome(presented, first, again) == AuthOutcome::Accepted <==> {
            &&& !is_placeholder_text(first.value)
            &&& presented == Some(encode_utf8(first.value)) || (!is_placeholder_text(again.value)
                && presented == Some(encode_utf8(again.value)))
        },
        is_settled(presented, first) <==> is_placeholder_text(first.value) || presented == Some(
            encode_utf8(first.value),
        ),
{
}

/// What is cached counts as long as the file looks the same; else the file counts:
/// its text without the white space around it, and nothing where it is missing or
/// cannot be read. What the file looked like is noted, and the path stays.
pub proof fn law_loaded(s: StoreView, seen: Option<i128>, lead: Seq<char>, core: Seq<char>, trail: Seq<char>)
    requires
        crate::chars::all_in(lead, crate::chars::CharSet::Space),
        crate::chars::all_in(trail, crate::chars::CharSet::Space),
        core.len() > 0 ==> !crate::chars::is_space(core[0]) && !crate::chars::is_space(core.last()),
    ensures
        loaded(s, seen, Some(lead + core + trail)).key_file == s.key_file,
        loaded(s, seen, Some(lead + core + trail)).mtime == Some(
            match seen {
                Some(t) => Mtime::Live(t),
                None => Mtime::Missing,
            },
        ),
        s.mtime == Some(observed_mtime(seen)) ==> loaded(s, seen, Some(lead + core + trail)) == s
            && loaded(s, seen, None) == s,
        s.mtime != Some(observed_mtime(seen)) && seen is Some ==> loaded(
            s,
            seen,
            Some(lead + core + trail),
        ).value == core && loaded(s, seen, None).value.len() == 0,
        s.mtime != Some(observed_mtime(seen)) && seen is None ==> loaded(
            s,
            seen,
            Some(lead + core + trail),
        ).value.len() == 0,
        invalidated(s).mtime is None && invalidated(s).value == s.value && invalidated(s).key_file
            == s.key_file,
{
    crate::chars::law_trim_exact(lead, core, trail, crate::chars::CharSet::Space);
}

/// The token of a request is what stands behind `Bearer ` in its header, whatever
/// that is; any other header, and none, has no token.
pub proof fn law_bearer(token: Seq<char>, header: Seq<char>)
    ensures
        bearer_of(Some("Bearer "@ + token)) == Some(encode_utf8(token)),
        bearer_of(None) is None,
        bearer_of(Some(header)) is Some ==> header == "Bearer "@ + header.skip(7),
{
    reveal_strlit("Bearer ");
    let h = "Bearer "@ + token;
    assert(h.take(7) =~= "Bearer "@);
    assert(h.skip(7) =~= token);
    if bearer_of(Some(header)) is Some {
        assert(header =~= header.take(7) + header.skip(7));
    }
}

/// Five texts are placeholders, the empty one among them, and no other text is.
/// The refusal to start names the file that should hold the key.
pub proof fn law_placeholders(key: Seq<char>)
    ensures
        is_placeholder_text(key) <==> seq![
            ""@,
            "dev-shared-secret-change-me"@,
            "change-me"@,
            "changeme"@,
            "placeholder"@,
        ].contains(key),
        boot_message(key)
            == "per-session runtime API key is missing or a placeholder — refusing to start. The broker must inject a per-session Secret as the projected volume at "@
            + key + " (volume 'runtime-key')."@,
{
    let all = seq![
        ""@,
        "dev-shared-secret-change-me"@,
        "change-me"@,
        "changeme"@,
        "placeholder"@,
    ];
    assert(all[0] == ""@ && all[1] == "dev-shared-secret-change-me"@ && all[2] == "change-me"@
        && all[3] == "changeme"@ && all[4] == "placeholder"@);
}

} // verus!
