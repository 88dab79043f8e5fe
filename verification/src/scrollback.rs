//! The tail of a terminal's output: what a client sees that comes back, and what
//! is kept on disk while the sandbox is away.

use vstd::prelude::*;

use crate::chars::{char_is_ascii_alnum, is_ascii_alnum};
use crate::path::{join_path, joined};
use crate::text::{chars_of, concat2};

verus! {

/// The last `cap` bytes.
pub open spec fn tail(bytes: Seq<u8>, cap: nat) -> Seq<u8> {
    if bytes.len() <= cap {
        bytes
    } else {
        bytes.skip(bytes.len() - cap)
    }
}

/// The tail of what follows a tail is the tail of the whole.
pub proof fn lemma_tail_append(a: Seq<u8>, b: Seq<u8>, cap: nat)
    ensures
        tail(tail(a, cap) + b, cap) == tail(a + b, cap),
{
    assert(tail(tail(a, cap) + b, cap) =~= tail(a + b, cap));
}

/// The bounded tail of the output of a terminal.
#[derive(Debug)]
pub struct Scrollback {
    buf: Vec<u8>,
    cap: usize,
}

impl Scrollback {
    /// The bytes that are kept.
    pub closed spec fn kept(&self) -> Seq<u8> {
        self.buf@
    }

    /// The most bytes that are kept.
    pub closed spec fn limit(&self) -> nat {
        self.cap as nat
    }

    /// No more bytes are kept than the limit allows.
    pub open spec fn wf(&self) -> bool {
        self.kept().len() <= self.limit()
    }

    /// An empty tail of at most `cap` bytes; zero keeps nothing at all.
    pub fn new(cap: usize) -> (r: Self)
        ensures
            r.wf(),
            r.limit() == cap,
            r.kept() == Seq::<u8>::empty(),
    {
        Scrollback { buf: Vec::new(), cap }
    }

    /// Appends output; the oldest bytes go first.
    pub fn push(&mut self, bytes: &[u8])
        requires
            old(self).wf(),
        ensures
            final(self).wf(),
            final(self).limit() == old(self).limit(),
            final(self).kept() == tail(old(self).kept() + bytes@, old(self).limit()),
    {
        if self.cap == 0 || bytes.len() == 0 {
            assert(self.kept() =~= tail(old(self).kept() + bytes@, old(self).limit()));
            return;
        }
        let mut i: usize = 0;
        while i < bytes.len()
            invariant
                i <= bytes.len(),
                self.cap == old(self).cap,
                self.buf@ == old(self).buf@ + bytes@.take(i as int),
            decreases bytes.len() - i,
        {
            self.buf.push(bytes[i]);
            i += 1;
            assert(self.buf@ =~= old(self).buf@ + bytes@.take(i as int));
        }
        assert(bytes@.take(bytes@.len() as int) =~= bytes@);
        let excess: usize = self.buf.len().saturating_sub(self.cap);
        if excess > 0 {
            let ghost all = self.buf@;
            let rest = self.buf.split_off(excess);
            self.buf = rest;
            assert(self.buf@ =~= all.skip(excess as int));
        }
    }

    /// A copy of the bytes that are kept.
    pub fn snapshot(&self) -> (r: Vec<u8>)
        ensures
            r@ == self.kept(),
    {
        copy_bytes(self.buf.as_slice())
    }

    /// Whether nothing is kept.
    pub fn is_empty(&self) -> (r: bool)
        ensures
            r == (self.kept().len() == 0),
    {
        self.buf.len() == 0
    }
}

/// A copy of some bytes.
pub fn copy_bytes(bytes: &[u8]) -> (r: Vec<u8>)
    ensures
        r@ == bytes@,
{
    let mut r: Vec<u8> = Vec::new();
    let mut i: usize = 0;
    while i < bytes.len()
        invariant
            i <= bytes.len(),
            r@ == bytes@.take(i as int),
        decreases bytes.len() - i,
    {
        r.push(bytes[i]);
        i += 1;
        assert(r@ =~= bytes@.take(i as int));
    }
    assert(r@ =~= bytes@);
    r
}

/// What is kept after a number of pushes.
pub open spec fn kept_after(pushes: Seq<Seq<u8>>, cap: nat) -> Seq<u8>
    decreases pushes.len(),
{
    if pushes.len() == 0 {
        seq![]
    } else {
        tail(kept_after(pushes.drop_last(), cap) + pushes.last(), cap)
    }
}

/// All the bytes of a number of pushes.
pub open spec fn all_bytes(pushes: Seq<Seq<u8>>) -> Seq<u8>
    decreases pushes.len(),
{
    if pushes.len() == 0 {
        seq![]
    } else {
        all_bytes(pushes.drop_last()) + pushes.last()
    }
}

/// However the output was cut into pieces, what is kept is the last bytes of it.
pub proof fn law_keeps_newest(pushes: Seq<Seq<u8>>, cap: nat)
    ensures
        kept_after(pushes, cap) == tail(all_bytes(pushes), cap),
    decreases pushes.len(),
{
    if pushes.len() > 0 {
        law_keeps_newest(pushes.drop_last(), cap);
        lemma_tail_append(all_bytes(pushes.drop_last()), pushes.last(), cap);
    }
}

// --- on disk -----------------------------------------------------------------

/// Whether a session id may stand in a file name.
pub open spec fn is_safe_id(id: Seq<char>) -> bool {
    &&& 0 < id.len() <= 128
    &&& forall|i: int|
        0 <= i < id.len() ==> is_ascii_alnum(#[trigger] id[i]) || id[i] == '-' || id[i] == '.'
            || id[i] == '_'
    &&& id[0] != '.'
}

/// The directory of the files.
pub open spec fn scrollback_dir(workdir: Seq<char>) -> Seq<char> {
    joined(joined(workdir, ".open-websandbox"@), "scrollback"@)
}

/// The file of a session, if its id may stand in a file name.
pub open spec fn scrollback_file(workdir: Seq<char>, id: Seq<char>) -> Option<Seq<char>> {
    if is_safe_id(id) {
        Some(joined(scrollback_dir(workdir), id + ".log"@))
    } else {
        None
    }
}

/// Whether a session id may stand in a file name.
fn safe_id(id: &str) -> (r: bool)
    ensures
        r == is_safe_id(id@),
{
    let cs = chars_of(id);
    if cs.len() == 0 || cs.len() > 128 {
        return false;
    }
    let mut i: usize = 0;
    while i < cs.len()
        invariant
            i <= cs.len(),
            cs@ == id@,
            forall|k: int|
                0 <= k < i ==> is_ascii_alnum(#[trigger] id@[k]) || id@[k] == '-' || id@[k] == '.'
                    || id@[k] == '_',
        decreases cs.len() - i,
    {
        let c = cs[i];
        if !(char_is_ascii_alnum(c) || c == '-' || c == '.' || c == '_') {
            assert(id@[i as int] == c);
            return false;
        }
        i += 1;
    }
    cs[0] != '.'
}

/// The directory of the files.
pub fn scrollback_folder(workdir: &str) -> (r: String)
    ensures
        r@ == scrollback_dir(workdir@),
{
    let a = join_path(workdir, ".open-websandbox");
    join_path(a.as_str(), "scrollback")
}

/// The file of a session, if its id may stand in a file name.
pub fn scrollback_path(workdir: &str, id: &str) -> (r: Option<String>)
    ensures
        crate::text::opt_text(r) == scrollback_file(workdir@, id@),
{
    if safe_id(id) {
        let dir = scrollback_folder(workdir);
        let name = concat2(id, ".log");
        Some(join_path(dir.as_str(), name.as_str()))
    } else {
        None
    }
}

/// The contents of files by path.
pub type Files = spec_fn(Seq<char>) -> Option<Seq<u8>>;

/// The two closures tell the length of a file and its bytes from an offset on.
pub open spec fn serves<L: Fn(&str) -> Option<u64>, R: Fn(&str, u64) -> Option<Vec<u8>>>(
    len: L,
    read: R,
    files: Files,
) -> bool {
    &&& forall|p: &str, o: Option<u64>| #[trigger]
        call_ensures(len, (p,), o) ==> match files(p@) {
            Some(b) => o is Some && o->0 == b.len(),
            None => o is None,
        }
    &&& forall|p: &str, from: u64, o: Option<Vec<u8>>| #[trigger]
        call_ensures(read, (p, from), o) ==> match files(p@) {
            Some(b) => from <= b.len() ==> o is Some && (o->0)@ == b.skip(from as int),
            None => o is None,
        }
}

/// What a session with the given id starts with.
pub open spec fn replay_of(files: Files, workdir: Seq<char>, id: Seq<char>, cap: nat) -> Seq<u8> {
    match scrollback_file(workdir, id) {
        Some(p) => match files(p) {
            Some(b) => tail(b, cap),
            None => seq![],
        },
        None => seq![],
    }
}

/// The kept output of a session: the last `cap` bytes of its file, and nothing
/// where there is no such file, the id may not stand in a file name, or nothing
/// is kept at all.
pub fn read_scrollback<L: Fn(&str) -> Option<u64>, R: Fn(&str, u64) -> Option<Vec<u8>>>(
    workdir: &str,
    id: &str,
    cap: usize,
    len: &L,
    read: &R,
) -> (r: Vec<u8>)
    requires
        forall|p: &str| call_requires(*len, (p,)),
        forall|p: &str, from: u64| call_requires(*read, (p, from)),
    ensures
        r@.len() <= cap,
        forall|files: Files| #[trigger]
            serves(*len, *read, files) ==> r@ == replay_of(files, workdir@, id@, cap as nat),
{
    if cap == 0 {
        let none: Vec<u8> = Vec::new();
        assert forall|files: Files| #[trigger] serves(*len, *read, files) implies none@ == replay_of(
            files,
            workdir@,
            id@,
            cap as nat,
        ) by {
            assert(none@ =~= replay_of(files, workdir@, id@, cap as nat));
        }
        return none;
    }
    let path = match scrollback_path(workdir, id) {
        Some(p) => p,
        None => {
            return Vec::new();
        },
    };
    let total: u64 = match len(path.as_str()) {
        Some(n) => n,
        None => {
            return Vec::new();
        },
    };
    let from: u64 = if total > cap as u64 {
        total - cap as u64
    } else {
        0
    };
    let mut buf = match read(path.as_str(), from) {
        Some(b) => b,
        None => Vec::new(),
    };
    let ghost whole = buf@;
    buf.truncate(cap);
    assert forall|files: Files| #[trigger] serves(*len, *read, files) implies buf@ == replay_of(
        files,
        workdir@,
        id@,
        cap as nat,
    ) by {
        assert(files(path@) is Some);
        let b = files(path@)->0;
        assert(whole == b.skip(from as int));
        assert(buf@ =~= tail(b, cap as nat));
    }
    buf
}

/// What was kept when the sandbox went away is what the session starts with when
/// it comes back under the same limit.
pub proof fn law_flush_replays(files: Files, workdir: Seq<char>, id: Seq<char>, s: Scrollback)
    requires
        s.wf(),
        is_safe_id(id),
        files(scrollback_file(workdir, id)->0) == Some(s.kept()),
    ensures
        replay_of(files, workdir, id, s.limit()) == s.kept(),
{
}

/// The tail is the last bytes, as many as the cap allows: all of a short output, the
/// end of a long one.
pub proof fn law_tail(a: Seq<u8>, b: Seq<u8>, cap: nat)
    ensures
        a.len() <= cap ==> tail(a, cap) == a,
        b.len() == cap ==> tail(a + b, cap) == b,
{
    if b.len() == cap {
        assert((a + b).skip((a + b).len() - cap) =~= b);
        if a.len() == 0 {
            assert(a + b =~= b);
        }
    }
}

/// The file of a session lies in the runtime's own directory of the workspace, and
/// has the id of the session for its name; ids that could lead elsewhere have none.
pub proof fn law_scrollback_file(workdir: Seq<char>, id: Seq<char>)
    ensures
        scrollback_file(workdir, id) is Some <==> {
            &&& 0 < id.len() <= 128
            &&& id[0] != '.'
            &&& forall|i: int|
                0 <= i < id.len() ==> is_ascii_alnum(#[trigger] id[i]) || id[i] == '-' || id[i]
                    == '.' || id[i] == '_'
        },
        scrollback_file(workdir, id) matches Some(p) ==> {
            &&& crate::path::parts_of(p) == crate::path::parts_of(workdir).push(
                ".open-websandbox"@,
            ).push("scrollback"@).push(id + ".log"@)
            &&& crate::path::is_absolute_text(p) == crate::path::is_absolute_text(workdir)
        },
{
    if is_safe_id(id) {
        reveal_strlit(".open-websandbox");
        reveal_strlit("scrollback");
        reveal_strlit(".log");
        let (x, y, z) = (".open-websandbox"@, "scrollback"@, id + ".log"@);
        assert(!x.contains('/') && !y.contains('/'));
        assert(!z.contains('/')) by {
            if z.contains('/') {
                let i = choose|i: int| 0 <= i < z.len() && z[i] == '/';
                if i < id.len() {
                    assert(id[i] == '/');
                } else {
                    assert(".log"@[i - id.len()] == '/');
                }
            }
        }
        assert(z[0] == id[0]);
        assert(z[0] != '/') by {
            assert(z.contains(z[0]));
        }
        crate::path::law_joined(workdir, x);
        crate::path::law_joined(joined(workdir, x), y);
        crate::path::law_joined(scrollback_dir(workdir), z);
        crate::path::law_one_part(x);
        crate::path::law_one_part(y);
        crate::path::law_one_part(z);
        let w = crate::path::parts_of(workdir);
        assert(w + seq![x] + seq![y] + seq![z] =~= w.push(x).push(y).push(z));
    }
}

/// A session starts with the end of its file, as much as the cap allows, and with
/// nothing where there is no such file.
pub proof fn law_replay(files: Files, workdir: Seq<char>, id: Seq<char>, cap: nat)
    ensures
        scrollback_file(workdir, id) is None ==> replay_of(files, workdir, id, cap).len() == 0,
        scrollback_file(workdir, id) matches Some(p) ==> match files(p) {
            None => replay_of(files, workdir, id, cap).len() == 0,
            Some(b) => {
                &&& b.len() <= cap ==> replay_of(files, workdir, id, cap) == b
                &&& b.len() > cap ==> replay_of(files, workdir, id, cap) == b.skip(b.len() - cap)
            },
        },
{
}

} // verus!
