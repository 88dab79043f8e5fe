//! Terminal sessions: which there are, who is attached, and what happens to them.
//!
//! A session outlives the connection of its client. A client that goes away
//! detaches, a later one with the same id takes the shell over, and a session
//! ends only when its shell ends, when it is deleted, or when nobody has come
//! back for too long. Sessions are told apart by a serial number, so that a
//! connection that ends cannot take down a new session under its old id.

use vstd::prelude::*;

use crate::error::{ApiError, ErrorView};
use crate::number::{decimal, u64_decimal};
use crate::outside::{json_text, json_text_of, json_u64, json_u64_of};
use crate::scrollback::{scrollback_file, scrollback_path, tail, Scrollback};
use crate::text::{concat2, concat3, opt_str, str_eq};

verus! {

/// The close code for an unknown session, or one that has ended.
pub const CLOSE_UNKNOWN: u16 = 4004;

/// The close code for a session that has a client already.
pub const CLOSE_BUSY: u16 = 4009;

/// A session as the registry knows it.
pub struct SessionView {
    /// The id that clients use.
    pub id: Seq<char>,
    /// The number that tells sessions apart.
    pub serial: u64,
    /// When the session was created.
    pub created_at: Seq<char>,
    /// The process id of the shell.
    pub pid: u32,
    /// The tail of the output.
    pub output: Seq<u8>,
    /// The most bytes of output that are kept.
    pub limit: nat,
    /// Whether a client is attached.
    pub attached: bool,
    /// When the last client went away, in nanoseconds of the caller's clock.
    pub detached_since: Option<u128>,
}

/// A session as the registry holds it.
#[derive(Debug)]
pub struct Session {
    id: String,
    serial: u64,
    created_at: String,
    pid: u32,
    ring: Scrollback,
    attached: bool,
    detached_since: Option<u128>,
}

impl View for Session {
    type V = SessionView;

    closed spec fn view(&self) -> SessionView {
        SessionView {
            id: self.id@,
            serial: self.serial,
            created_at: self.created_at@,
            pid: self.pid,
            output: self.ring.kept(),
            limit: self.ring.limit(),
            attached: self.attached,
            detached_since: self.detached_since,
        }
    }
}

/// What a client is told about a session.
pub struct InfoView {
    /// The id of the session.
    pub id: Seq<char>,
    /// When the session was created.
    pub created_at: Seq<char>,
    /// The process id of the shell.
    pub pid: u32,
}

/// What a client is told about a session.
#[derive(Debug)]
pub struct TermInfo {
    /// The id of the session.
    pub id: String,
    /// When the session was created.
    pub created_at: String,
    /// The process id of the shell.
    pub pid: u32,
}

/// The answer to a request for a session.
#[derive(Debug)]
pub struct CreateResponse {
    /// The id of the session.
    pub id: String,
    /// When the session was created.
    pub created_at: String,
    /// The process id of the shell.
    pub pid: u32,
}

/// The answer to the deletion of a session.
#[derive(Debug)]
pub struct DeleteResponse {
    /// Always `deleted`.
    pub status: &'static str,
}

impl View for TermInfo {
    type V = InfoView;

    open spec fn view(&self) -> InfoView {
        InfoView { id: self.id@, created_at: self.created_at@, pid: self.pid }
    }
}

impl View for CreateResponse {
    type V = InfoView;

    open spec fn view(&self) -> InfoView {
        InfoView { id: self.id@, created_at: self.created_at@, pid: self.pid }
    }
}

/// What a client is told about a session.
pub open spec fn info_of(s: SessionView) -> InfoView {
    InfoView { id: s.id, created_at: s.created_at, pid: s.pid }
}

/// What a client is told about sessions.
pub open spec fn infos(v: Seq<TermInfo>) -> Seq<InfoView> {
    v.map_values(|t: TermInfo| t@)
}

/// The serial numbers of sessions.
pub open spec fn serials(s: Seq<SessionView>) -> Seq<u64> {
    s.map_values(|x: SessionView| x.serial)
}

/// Which sessions are alive, by serial number.
pub type Liveness = spec_fn(u64) -> bool;

/// The closure answers as `live` says.
pub open spec fn tells<A: Fn(u64) -> bool>(alive: A, live: Liveness) -> bool {
    forall|n: u64, b: bool| #[trigger] call_ensures(alive, (n,), b) ==> b == live(n)
}

/// The sessions that are alive.
pub open spec fn living(s: Seq<SessionView>, live: Liveness) -> Seq<SessionView> {
    s.filter(|x: SessionView| live(x.serial))
}

/// The sessions that are not.
pub open spec fn fallen(s: Seq<SessionView>, live: Liveness) -> Seq<SessionView> {
    s.filter(|x: SessionView| !live(x.serial))
}

/// Where the session with an id stands.
pub open spec fn position(s: Seq<SessionView>, id: Seq<char>) -> Option<int>
    decreases s.len(),
{
    if s.len() == 0 {
        None
    } else if s.last().id == id {
        Some(s.len() - 1)
    } else {
        position(s.drop_last(), id)
    }
}

/// The session with an id.
pub open spec fn entry(s: Seq<SessionView>, id: Seq<char>) -> Option<SessionView> {
    match position(s, id) {
        Some(i) => Some(s[i]),
        None => None,
    }
}

/// The sessions without the one that has an id.
pub open spec fn without(s: Seq<SessionView>, id: Seq<char>) -> Seq<SessionView> {
    match position(s, id) {
        Some(i) => s.remove(i),
        None => s,
    }
}

/// Whether no two sessions share an id or a serial number.
pub open spec fn distinct(s: Seq<SessionView>) -> bool {
    forall|i: int, j: int|
        0 <= i < s.len() && 0 <= j < s.len() && i != j ==> (#[trigger] s[i]).id != (
        #[trigger] s[j]).id && s[i].serial != s[j].serial
}

proof fn lemma_position(s: Seq<SessionView>, id: Seq<char>)
    ensures
        match position(s, id) {
            Some(i) => 0 <= i < s.len() && s[i].id == id,
            None => forall|i: int| 0 <= i < s.len() ==> (#[trigger] s[i]).id != id,
        },
    decreases s.len(),
{
    if s.len() > 0 && s.last().id != id {
        lemma_position(s.drop_last(), id);
        assert(forall|i: int| 0 <= i < s.len() - 1 ==> s.drop_last()[i] == #[trigger] s[i]);
    }
}

proof fn lemma_position_unique(s: Seq<SessionView>, id: Seq<char>, i: int)
    requires
        distinct(s),
        0 <= i < s.len(),
        s[i].id == id,
    ensures
        position(s, id) == Some(i),
{
    lemma_position(s, id);
}

proof fn lemma_living_distinct(s: Seq<SessionView>, live: Liveness)
    requires
        distinct(s),
    ensures
        distinct(living(s, live)),
        living(s, live).len() <= s.len(),
        forall|i: int|
            0 <= i < living(s, live).len() ==> s.contains(#[trigger] living(s, live)[i]) && live(
                living(s, live)[i].serial,
            ),
    decreases s.len(),
{
    reveal(Seq::filter);
    if s.len() > 0 {
        let t = s.drop_last();
        assert(forall|i: int| 0 <= i < t.len() ==> t[i] == #[trigger] s[i]);
        lemma_living_distinct(t, live);
        let a = living(t, live);
        let b = living(s, live);
        assert forall|i: int| 0 <= i < b.len() implies s.contains(#[trigger] b[i]) && live(
            b[i].serial,
        ) by {
            if i < a.len() {
                assert(t.contains(a[i]));
                let k = choose|k: int| 0 <= k < t.len() && t[k] == a[i];
                assert(s[k] == b[i]);
            } else {
                assert(s[s.len() - 1] == b[i]);
            }
        }
        assert forall|i: int, j: int|
            0 <= i < b.len() && 0 <= j < b.len() && i != j implies (#[trigger] b[i]).id != (
        #[trigger] b[j]).id && b[i].serial != b[j].serial by {
            let lo = if i < j {
                i
            } else {
                j
            };
            let hi = if i < j {
                j
            } else {
                i
            };
            if hi < a.len() {
                assert(a[lo] == b[lo] && a[hi] == b[hi]);
            } else {
                assert(a[lo] == b[lo]);
                assert(t.contains(a[lo]));
                let k = choose|k: int| 0 <= k < t.len() && t[k] == a[lo];
                assert(s[k] == b[lo] && s[s.len() - 1] == b[hi]);
            }
        }
    }
}

/// The sessions whose flag is set.
spec fn picked(s: Seq<SessionView>, flags: Seq<bool>, which: bool) -> Seq<SessionView>
    decreases s.len(),
{
    if s.len() == 0 || flags.len() != s.len() {
        seq![]
    } else {
        let rest = picked(s.drop_last(), flags.drop_last(), which);
        if flags.last() == which {
            rest.push(s.last())
        } else {
            rest
        }
    }
}

proof fn lemma_picked(s: Seq<SessionView>, flags: Seq<bool>, live: Liveness)
    requires
        flags == s.map_values(|x: SessionView| live(x.serial)),
    ensures
        picked(s, flags, true) == living(s, live),
        picked(s, flags, false) == fallen(s, live),
    decreases s.len(),
{
    reveal(Seq::filter);
    if s.len() > 0 {
        assert(flags.drop_last() =~= s.drop_last().map_values(|x: SessionView| live(x.serial)));
        lemma_picked(s.drop_last(), flags.drop_last(), live);
    }
}

proof fn lemma_picked_step(s: Seq<SessionView>, flags: Seq<bool>, k: int, which: bool)
    requires
        flags.len() == s.len(),
        0 <= k < s.len(),
    ensures
        picked(s.take(k + 1), flags.take(k + 1), which) == if flags[k] == which {
            picked(s.take(k), flags.take(k), which).push(s[k])
        } else {
            picked(s.take(k), flags.take(k), which)
        },
{
    assert(s.take(k + 1).drop_last() =~= s.take(k));
    assert(flags.take(k + 1).drop_last() =~= flags.take(k));
}

/// The terminal sessions of a runtime.
#[derive(Debug)]
pub struct TerminalRegistry {
    sessions: Vec<Session>,
    next: u64,
}

impl View for TerminalRegistry {
    type V = Seq<SessionView>;

    closed spec fn view(&self) -> Seq<SessionView> {
        self.sessions@.map_values(|s: Session| s@)
    }
}

impl Default for TerminalRegistry {
    fn default() -> (r: Self)
        ensures
            r.wf(),
            r@ == Seq::<SessionView>::empty(),
            r.next_serial() == 0,
    {
        TerminalRegistry::new()
    }
}

/// What the request for a session comes to.
#[derive(Debug)]
pub enum CreateStep {
    /// A live session with that id goes on.
    Reuse(CreateResponse),
    /// There is no room for another session.
    Full(ApiError),
    /// A shell is to be started.
    Spawn,
}

/// What the request for a session comes to.
pub enum CreateStepView {
    /// A live session with that id goes on.
    Reuse(InfoView),
    /// There is no room for another session.
    Full(ErrorView),
    /// A shell is to be started.
    Spawn,
}

impl View for CreateStep {
    type V = CreateStepView;

    open spec fn view(&self) -> CreateStepView {
        match *self {
            CreateStep::Reuse(r) => CreateStepView::Reuse(r@),
            CreateStep::Full(e) => CreateStepView::Full(e@),
            CreateStep::Spawn => CreateStepView::Spawn,
        }
    }
}

/// The error of a registry that is full.
pub open spec fn full_error(cap: u32) -> ErrorView {
    ErrorView {
        status: 429,
        detail: "max "@ + decimal(cap as nat) + " terminals reached"@,
    }
}

/// The sessions after a request for a session with the given id, the sessions
/// to be torn down, and what the request comes to. `first` says which sessions
/// are alive when the dead ones are swept, `again` which are when the id is
/// looked up.
pub open spec fn create_step(
    s: Seq<SessionView>,
    id: Seq<char>,
    cap: u32,
    first: Liveness,
    again: Liveness,
) -> (Seq<SessionView>, Seq<u64>, CreateStepView) {
    let kept = living(s, first);
    let dead = serials(fallen(s, first));
    match entry(kept, id) {
        Some(x) => if again(x.serial) {
            (kept, dead, CreateStepView::Reuse(info_of(x)))
        } else {
            let rest = without(kept, id);
            (rest, dead.push(x.serial), room(rest, cap))
        },
        None => (kept, dead, room(kept, cap)),
    }
}

/// Whether there is room for another session.
pub open spec fn room(s: Seq<SessionView>, cap: u32) -> CreateStepView {
    if s.len() >= cap {
        CreateStepView::Full(full_error(cap))
    } else {
        CreateStepView::Spawn
    }
}

impl TerminalRegistry {
    /// The serial number of the next session.
    pub closed spec fn next_serial(&self) -> u64 {
        self.next
    }

    /// No two sessions share an id or a serial number, every serial number is
    /// below the next one, and every tail is within its limit.
    pub open spec fn wf(&self) -> bool {
        &&& distinct(self@)
        &&& forall|i: int|
            0 <= i < self@.len() ==> (#[trigger] self@[i]).serial < self.next_serial()
                && self@[i].output.len() <= self@[i].limit
    }

    /// A registry without sessions.
    pub fn new() -> (r: Self)
        ensures
            r.wf(),
            r@ == Seq::<SessionView>::empty(),
            r.next_serial() == 0,
    {
        let r = TerminalRegistry { sessions: Vec::new(), next: 0 };
        assert(r@ =~= Seq::<SessionView>::empty());
        r
    }

    /// How many sessions there are.
    pub fn len(&self) -> (r: usize)
        ensures
            r == self@.len(),
    {
        self.sessions.len()
    }

    /// Whether there is a serial number for another session.
    pub fn has_serial(&self) -> (r: bool)
        ensures
            r == (self.next_serial() < u64::MAX),
    {
        self.next < u64::MAX
    }

    /// Where the session with an id stands.
    fn find(&self, id: &str) -> (r: Option<usize>)
        ensures
            match r {
                Some(i) => position(self@, id@) == Some(i as int) && i < self@.len(),
                None => position(self@, id@) is None,
            },
    {
        let mut i: usize = self.sessions.len();
        assert(self@.take(i as int) =~= self@);
        while i > 0
            invariant
                i <= self.sessions@.len(),
                self.sessions@.len() == self@.len(),
                position(self@, id@) == position(self@.take(i as int), id@),
            decreases i,
        {
            i -= 1;
            proof {
                assert(self@.take(i as int + 1).drop_last() =~= self@.take(i as int));
                assert(self@.take(i as int + 1).last() == self.sessions@[i as int]@);
            }
            if str_eq(self.sessions[i].id.as_str(), id) {
                return Some(i);
            }
        }
        None
    }

    /// Where the session with a serial number stands.
    fn find_serial(&self, serial: u64) -> (r: Option<usize>)
        ensures
            match r {
                Some(i) => i < self@.len() && self@[i as int].serial == serial,
                None => forall|i: int| 0 <= i < self@.len() ==> (#[trigger] self@[i]).serial != serial,
            },
    {
        let mut i: usize = 0;
        while i < self.sessions.len()
            invariant
                i <= self.sessions@.len(),
                self.sessions@.len() == self@.len(),
                forall|k: int| 0 <= k < i ==> (#[trigger] self@[k]).serial != serial,
            decreases self.sessions@.len() - i,
        {
            if self.sessions[i].serial == serial {
                return Some(i);
            }
            assert(self@[i as int] == self.sessions@[i as int]@);
            i += 1;
        }
        None
    }

    /// What a client is told about the session at a position.
    fn info_at(&self, i: usize) -> (r: TermInfo)
        requires
            i < self@.len(),
        ensures
            r@ == info_of(self@[i as int]),
    {
        let s = &self.sessions[i];
        TermInfo { id: s.id.clone(), created_at: s.created_at.clone(), pid: s.pid }
    }

    /// Asks of every session whether it is alive.
    fn look<A: Fn(u64) -> bool>(&self, alive: &A) -> (r: Vec<bool>)
        requires
            forall|n: u64| call_requires(*alive, (n,)),
        ensures
            r@.len() == self@.len(),
            forall|live: Liveness| #[trigger]
                tells(*alive, live) ==> r@ == self@.map_values(|x: SessionView| live(x.serial)),
    {
        let mut r: Vec<bool> = Vec::new();
        let mut i: usize = 0;
        while i < self.sessions.len()
            invariant
                i <= self.sessions@.len(),
                self.sessions@.len() == self@.len(),
                r@.len() == i,
                forall|n: u64| call_requires(*alive, (n,)),
                forall|k: int|
                    0 <= k < i ==> call_ensures(*alive, (self@[k].serial,), #[trigger] r@[k]),
            decreases self.sessions@.len() - i,
        {
            let b = alive(self.sessions[i].serial);
            assert(self@[i as int] == self.sessions@[i as int]@);
            r.push(b);
            i += 1;
        }
        assert forall|live: Liveness| #[trigger] tells(*alive, live) implies r@ == self@.map_values(
            |x: SessionView| live(x.serial),
        ) by {
            assert forall|k: int| 0 <= k < r@.len() implies r@[k] == live(self@[k].serial) by {
                assert(call_ensures(*alive, (self@[k].serial,), r@[k]));
            }
            assert(r@ =~= self@.map_values(|x: SessionView| live(x.serial)));
        }
        r
    }

    /// Keeps the sessions whose flag is set and hands out the serial numbers of
    /// the others.
    fn keep(&mut self, flags: &Vec<bool>) -> (r: Vec<u64>)
        requires
            flags@.len() == old(self)@.len(),
        ensures
            final(self)@ == picked(old(self)@, flags@, true),
            r@ == serials(picked(old(self)@, flags@, false)),
            final(self).next_serial() == old(self).next_serial(),
    {
        let ghost all = self@;
        let mut gone: Vec<u64> = Vec::new();
        let mut k: usize = 0;
        let mut i: usize = 0;
        proof {
            assert(all.skip(0) =~= all);
            assert(picked(all.take(0), flags@.take(0), true) =~= seq![]);
            assert(picked(all.take(0), flags@.take(0), false) =~= seq![]);
            assert(self@ =~= picked(all.take(0), flags@.take(0), true) + all.skip(0));
            assert(gone@ =~= serials(picked(all.take(0), flags@.take(0), false)));
        }
        while k < flags.len()
            invariant
                k <= flags@.len(),
                flags@.len() == all.len(),
                i <= k,
                i == picked(all.take(k as int), flags@.take(k as int), true).len(),
                self@ == picked(all.take(k as int), flags@.take(k as int), true) + all.skip(
                    k as int,
                ),
                gone@ == serials(picked(all.take(k as int), flags@.take(k as int), false)),
                self.next == old(self).next,
            decreases flags@.len() - k,
        {
            let ghost before = self@;
            let ghost done = picked(all.take(k as int), flags@.take(k as int), true);
            let ghost out = picked(all.take(k as int), flags@.take(k as int), false);
            proof {
                lemma_picked_step(all, flags@, k as int, true);
                lemma_picked_step(all, flags@, k as int, false);
                assert(before[i as int] == all[k as int]);
                assert(self.sessions@.len() == before.len());
            }
            if flags[k] {
                i += 1;
                assert(before =~= done.push(all[k as int]) + all.skip(k as int + 1));
            } else {
                let ghost list = self.sessions@;
                let s = self.sessions.remove(i);
                proof {
                    assert(s@ == before[i as int]);
                    assert(self.sessions@ =~= list.remove(i as int));
                    assert(forall|j: int| 0 <= j < list.len() ==> list[j]@ == #[trigger] before[j]);
                    assert(self@ =~= before.remove(i as int));
                    assert(before.remove(i as int) =~= done + all.skip(k as int + 1));
                }
                gone.push(s.serial);
                assert(gone@ =~= serials(out.push(all[k as int])));
            }
            k += 1;
        }
        proof {
            assert(all.take(all.len() as int) =~= all);
            assert(flags@.take(flags@.len() as int) =~= flags@);
            assert(all.skip(all.len() as int) =~= seq![]);
            assert(self@ =~= picked(all, flags@, true));
        }
        gone
    }

    /// Takes the dead sessions out and hands out their serial numbers.
    pub fn reap<A: Fn(u64) -> bool>(&mut self, alive: &A) -> (r: Vec<u64>)
        requires
            old(self).wf(),
            forall|n: u64| call_requires(*alive, (n,)),
        ensures
            final(self).next_serial() == old(self).next_serial(),
            forall|live: Liveness| #[trigger]
                tells(*alive, live) ==> {
                    &&& final(self)@ == living(old(self)@, live)
                    &&& r@ == serials(fallen(old(self)@, live))
                },
            final(self).wf(),
    {
        let flags = self.look(alive);
        let ghost all = self@;
        let ghost by_flag = |n: u64| exists|i: int| 0 <= i < all.len() && flags@[i] && all[i].serial == n;
        let r = self.keep(&flags);
        proof {
            lemma_flags_as_liveness(all, flags@, by_flag);
            lemma_picked(all, flags@, by_flag);
            lemma_living_distinct(all, by_flag);
            assert forall|live: Liveness| #[trigger] tells(*alive, live) implies self@ == living(
                all,
                live,
            ) && r@ == serials(fallen(all, live)) by {
                lemma_picked(all, flags@, live);
            }
        }
        r
    }
}

/// What attaching to a session comes to.
#[derive(Debug)]
pub enum Attach {
    /// The connection is closed with a code and a reason.
    Close(u16, &'static str),
    /// The client is attached to the session with this serial number and is sent
    /// the tail of the output first.
    Attached(u64, Vec<u8>),
}

/// What attaching to a session comes to.
pub enum AttachView {
    /// The connection is closed with a code and a reason.
    Close(u16, Seq<char>),
    /// The client is attached to the session with this serial number and is sent
    /// the tail of the output first.
    Attached(u64, Seq<u8>),
}

impl View for Attach {
    type V = AttachView;

    open spec fn view(&self) -> AttachView {
        match *self {
            Attach::Close(code, reason) => AttachView::Close(code, reason@),
            Attach::Attached(serial, replay) => AttachView::Attached(serial, replay@),
        }
    }
}

/// The refusal of an unknown session.
pub open spec fn close_unknown() -> AttachView {
    AttachView::Close(4004, "unknown or ended session"@)
}

/// The refusal of a session that has a client.
pub open spec fn close_busy() -> AttachView {
    AttachView::Close(4009, "terminal already attached"@)
}

/// The sessions after an attempt to attach, the sessions to be torn down, and
/// what the attempt comes to.
pub open spec fn attach_step(s: Seq<SessionView>, id: Seq<char>, live: Liveness) -> (
    Seq<SessionView>,
    Option<u64>,
    AttachView,
) {
    match position(s, id) {
        None => (s, None, close_unknown()),
        Some(i) => if !live(s[i].serial) {
            (s.remove(i), Some(s[i].serial), close_unknown())
        } else if s[i].attached {
            (s, None, close_busy())
        } else {
            (
                s.update(i, SessionView { attached: true, detached_since: None, ..s[i] }),
                None,
                AttachView::Attached(s[i].serial, s[i].output),
            )
        },
    }
}

/// The sessions after a connection to the session with a serial number has
/// ended. A client that went away leaves a live session behind; anything else
/// takes the session out, if the id still names it.
pub open spec fn finish_step(
    s: Seq<SessionView>,
    id: Seq<char>,
    serial: u64,
    client_gone: bool,
    alive: bool,
    now: u128,
) -> (Seq<SessionView>, Option<u64>) {
    if client_gone && alive {
        (detach(s, serial, now), None)
    } else {
        (
            match position(s, id) {
                Some(i) => if s[i].serial == serial {
                    s.remove(i)
                } else {
                    s
                },
                None => s,
            },
            Some(serial),
        )
    }
}

/// The sessions after the client of one of them has gone away.
pub open spec fn detach(s: Seq<SessionView>, serial: u64, now: u128) -> Seq<SessionView> {
    s.map_values(
        |x: SessionView|
            if x.serial == serial {
                SessionView { attached: false, detached_since: Some(now), ..x }
            } else {
                x
            },
    )
}

/// The sessions after output of one of them.
pub open spec fn recorded(s: Seq<SessionView>, serial: u64, bytes: Seq<u8>) -> Seq<SessionView> {
    s.map_values(
        |x: SessionView|
            if x.serial == serial {
                SessionView { output: tail(x.output + bytes, x.limit), ..x }
            } else {
                x
            },
    )
}

/// Whether nobody has come back to a session for longer than `ttl` seconds.
pub open spec fn is_expired(x: SessionView, ttl: u64, now: u128) -> bool {
    match x.detached_since {
        Some(since) => now - since > ttl * 1_000_000_000,
        None => false,
    }
}

/// A file that keeps the tail of a session.
#[derive(Debug)]
pub struct FlushFile {
    /// Where the tail is written.
    pub path: String,
    /// The tail.
    pub bytes: Vec<u8>,
}

/// The files that keep the tails of sessions.
pub open spec fn flush_files(s: Seq<SessionView>, workdir: Seq<char>) -> Seq<(Seq<char>, Seq<u8>)>
    decreases s.len(),
{
    if s.len() == 0 {
        seq![]
    } else {
        let rest = flush_files(s.drop_last(), workdir);
        match scrollback_file(workdir, s.last().id) {
            Some(p) => if s.last().output.len() > 0 {
                rest.push((p, s.last().output))
            } else {
                rest
            },
            None => rest,
        }
    }
}

/// The paths and bytes of files.
pub open spec fn file_views(v: Seq<FlushFile>) -> Seq<(Seq<char>, Seq<u8>)> {
    v.map_values(|f: FlushFile| (f.path@, f.bytes@))
}

impl TerminalRegistry {
    /// Takes the session at a position out.
    fn take_out(&mut self, i: usize) -> (r: u64)
        requires
            old(self).wf(),
            i < old(self)@.len(),
        ensures
            final(self).wf(),
            final(self)@ == old(self)@.remove(i as int),
            final(self).next_serial() == old(self).next_serial(),
            r == old(self)@[i as int].serial,
    {
        let ghost list = self.sessions@;
        let ghost before = self@;
        let s = self.sessions.remove(i);
        proof {
            assert(forall|j: int| 0 <= j < list.len() ==> list[j]@ == #[trigger] before[j]);
            assert(self@ =~= before.remove(i as int));
            assert forall|j: int| 0 <= j < self@.len() implies (#[trigger] self@[j]).serial
                < self.next_serial() && self@[j].output.len() <= self@[j].limit by {
                assert(self@[j] == before[if j < i {
                    j
                } else {
                    j + 1
                }]);
            }
        }
        s.serial
    }

    /// The first half of a request for a session: sweeps the dead sessions, looks
    /// the id up, and says whether a shell is to be started. The serial numbers
    /// of sessions to be torn down come with it.
    pub fn begin_create<A: Fn(u64) -> bool, B: Fn(u64) -> bool>(
        &mut self,
        id: &str,
        cap: u32,
        first: &A,
        again: &B,
    ) -> (r: (CreateStep, Vec<u64>))
        requires
            old(self).wf(),
            forall|n: u64| call_requires(*first, (n,)),
            forall|n: u64| call_requires(*again, (n,)),
        ensures
            final(self).wf(),
            final(self).next_serial() == old(self).next_serial(),
            r.0 is Spawn ==> position(final(self)@, id@) is None && final(self)@.len() < cap,
            forall|a: Liveness, b: Liveness|
                #![trigger tells(*first, a), tells(*again, b)]
                tells(*first, a) && tells(*again, b) ==> (final(self)@, r.1@, r.0@) == create_step(
                    old(self)@,
                    id@,
                    cap,
                    a,
                    b,
                ),
    {
        let mut gone = self.reap(first);
        let ghost kept = self@;
        let ghost dead = gone@;
        proof {
            lemma_position(kept, id@);
        }
        if let Some(i) = self.find(id) {
            let serial: u64 = self.sessions[i].serial;
            assert(self@[i as int] == self.sessions@[i as int]@);
            let alive = again(serial);
            if alive {
                let info = self.info_at(i);
                return (
                    CreateStep::Reuse(
                        CreateResponse { id: info.id, created_at: info.created_at, pid: info.pid },
                    ),
                    gone,
                );
            }
            let taken: u64 = self.take_out(i);
            gone.push(taken);
            proof {
                lemma_position(self@, id@);
                if position(self@, id@) is Some {
                    let j = position(self@, id@)->0;
                    assert(self@[j] == kept[if j < i {
                        j
                    } else {
                        j + 1
                    }]);
                }
                assert(self@ == without(kept, id@));
            }
        }
        if self.sessions.len() as u64 >= cap as u64 {
            let n = u64_decimal(cap as u64);
            return (
                CreateStep::Full(
                    ApiError::TooManyRequests(concat3("max ", n.as_str(), " terminals reached")),
                ),
                gone,
            );
        }
        (CreateStep::Spawn, gone)
    }

    /// The second half: enters the session whose shell was started, with the tail
    /// that was kept under its id.
    pub fn insert(
        &mut self,
        id: &str,
        created_at: &str,
        pid: u32,
        scrollback_cap: usize,
        replay: &[u8],
    ) -> (r: (u64, CreateResponse))
        requires
            old(self).wf(),
            position(old(self)@, id@) is None,
            old(self).next_serial() < u64::MAX,
        ensures
            final(self).wf(),
            final(self).next_serial() == old(self).next_serial() + 1,
            r.0 == old(self).next_serial(),
            r.1@ == (InfoView { id: id@, created_at: created_at@, pid }),
            final(self)@ == old(self)@.push(
                SessionView {
                    id: id@,
                    serial: r.0,
                    created_at: created_at@,
                    pid,
                    output: tail(replay@, scrollback_cap as nat),
                    limit: scrollback_cap as nat,
                    attached: false,
                    detached_since: None,
                },
            ),
    {
        let ghost before = self@;
        let mut ring = Scrollback::new(scrollback_cap);
        ring.push(replay);
        assert(Seq::<u8>::empty() + replay@ =~= replay@);
        let serial: u64 = self.next;
        let s = Session {
            id: id.to_owned(),
            serial,
            created_at: created_at.to_owned(),
            pid,
            ring,
            attached: false,
            detached_since: None,
        };
        let ghost v = s@;
        self.sessions.push(s);
        self.next = serial + 1;
        proof {
            assert(self@ =~= before.push(v));
            lemma_position(before, id@);
            assert(forall|j: int| 0 <= j < before.len() ==> self@[j] == #[trigger] before[j]);
        }
        (serial, CreateResponse { id: id.to_owned(), created_at: created_at.to_owned(), pid })
    }

    /// What clients are told about the live sessions; the dead ones are taken out
    /// and their serial numbers handed out.
    pub fn list<A: Fn(u64) -> bool>(&mut self, alive: &A) -> (r: (Vec<TermInfo>, Vec<u64>))
        requires
            old(self).wf(),
            forall|n: u64| call_requires(*alive, (n,)),
        ensures
            final(self).wf(),
            final(self).next_serial() == old(self).next_serial(),
            infos(r.0@) == final(self)@.map_values(|x: SessionView| info_of(x)),
            forall|live: Liveness| #[trigger]
                tells(*alive, live) ==> {
                    &&& final(self)@ == living(old(self)@, live)
                    &&& r.1@ == serials(fallen(old(self)@, live))
                },
    {
        let gone = self.reap(alive);
        let mut out: Vec<TermInfo> = Vec::new();
        let mut i: usize = 0;
        while i < self.sessions.len()
            invariant
                i <= self.sessions@.len(),
                self.sessions@.len() == self@.len(),
                infos(out@) == self@.take(i as int).map_values(|x: SessionView| info_of(x)),
            decreases self.sessions@.len() - i,
        {
            let ghost told = infos(out@);
            let t = self.info_at(i);
            out.push(t);
            proof {
                assert(infos(out@) =~= told.push(info_of(self@[i as int])));
                assert(self@.take(i as int + 1) =~= self@.take(i as int).push(self@[i as int]));
                assert(self@.take(i as int + 1).map_values(|x: SessionView| info_of(x))
                    =~= self@.take(i as int).map_values(|x: SessionView| info_of(x)).push(
                    info_of(self@[i as int]),
                ));
            }
            i += 1;
        }
        assert(self@.take(self@.len() as int) =~= self@);
        (out, gone)
    }

    /// What a client is told about the session with an id; a dead one is taken
    /// out, and its serial number handed out.
    pub fn get<A: Fn(u64) -> bool>(&mut self, id: &str, alive: &A) -> (r: (
        Result<TermInfo, ApiError>,
        Option<u64>,
    ))
        requires
            old(self).wf(),
            forall|n: u64| call_requires(*alive, (n,)),
        ensures
            final(self).wf(),
            final(self).next_serial() == old(self).next_serial(),
            forall|live: Liveness| #[trigger]
                tells(*alive, live) ==> match position(old(self)@, id@) {
                    Some(i) => if live(old(self)@[i].serial) {
                        &&& final(self)@ == old(self)@
                        &&& r.0 is Ok && r.0->Ok_0@ == info_of(old(self)@[i])
                        &&& r.1 is None
                    } else {
                        &&& final(self)@ == old(self)@.remove(i)
                        &&& r.0 is Err && r.0->Err_0@ == crate::error::not_found(
                            "terminal not found"@,
                        )
                        &&& r.1 == Some(old(self)@[i].serial)
                    },
                    None => {
                        &&& final(self)@ == old(self)@
                        &&& r.0 is Err && r.0->Err_0@ == crate::error::not_found(
                            "terminal not found"@,
                        )
                        &&& r.1 is None
                    },
                },
    {
        match self.find(id) {
            Some(i) => {
                let serial: u64 = self.sessions[i].serial;
                assert(self@[i as int] == self.sessions@[i as int]@);
                if alive(serial) {
                    (Ok(self.info_at(i)), None)
                } else {
                    let gone: u64 = self.take_out(i);
                    (Err(ApiError::NotFound("terminal not found".to_owned())), Some(gone))
                }
            },
            None => (Err(ApiError::NotFound("terminal not found".to_owned())), None),
        }
    }

    /// Deletes the session with an id, if there is one; its shell is to be torn
    /// down and its file removed.
    pub fn kill(&mut self, id: &str) -> (r: (DeleteResponse, Option<u64>))
        requires
            old(self).wf(),
        ensures
            final(self).wf(),
            final(self).next_serial() == old(self).next_serial(),
            final(self)@ == without(old(self)@, id@),
            position(final(self)@, id@) is None,
            r.0.status@ == "deleted"@,
            r.1 == match entry(old(self)@, id@) {
                Some(x) => Some(x.serial),
                None => None,
            },
    {
        let ghost before = self@;
        proof {
            lemma_position(before, id@);
        }
        let gone: Option<u64> = match self.find(id) {
            Some(i) => {
                let serial: u64 = self.take_out(i);
                proof {
                    lemma_position(self@, id@);
                    if position(self@, id@) is Some {
                        let j = position(self@, id@)->0;
                        assert(self@[j] == before[if j < i {
                            j
                        } else {
                            j + 1
                        }]);
                    }
                }
                Some(serial)
            },
            None => None,
        };
        (DeleteResponse { status: "deleted" }, gone)
    }

    /// Attaches a client to the session with an id. A session has one client at a
    /// time.
    pub fn attach<A: Fn(u64) -> bool>(&mut self, id: &str, alive: &A) -> (r: (Attach, Option<u64>))
        requires
            old(self).wf(),
            forall|n: u64| call_requires(*alive, (n,)),
        ensures
            final(self).wf(),
            final(self).next_serial() == old(self).next_serial(),
            forall|live: Liveness| #[trigger]
                tells(*alive, live) ==> (final(self)@, r.1, r.0@) == attach_step(
                    old(self)@,
                    id@,
                    live,
                ),
    {
        let i: usize = match self.find(id) {
            Some(i) => i,
            None => {
                return (Attach::Close(CLOSE_UNKNOWN, "unknown or ended session"), None);
            },
        };
        let serial: u64 = self.sessions[i].serial;
        assert(self@[i as int] == self.sessions@[i as int]@);
        if !alive(serial) {
            let gone: u64 = self.take_out(i);
            return (Attach::Close(CLOSE_UNKNOWN, "unknown or ended session"), Some(gone));
        }
        if self.sessions[i].attached {
            return (Attach::Close(CLOSE_BUSY, "terminal already attached"), None);
        }
        let ghost before = self@;
        let replay = self.sessions[i].ring.snapshot();
        self.sessions[i].attached = true;
        self.sessions[i].detached_since = None;
        proof {
            assert(self@ =~= before.update(
                i as int,
                SessionView { attached: true, detached_since: None, ..before[i as int] },
            ));
        }
        (Attach::Attached(serial, replay), None)
    }

    /// The end of a connection to the session with a serial number. `client_gone`
    /// tells whether the client ended it, `alive` whether the shell is alive.
    /// The serial number of a session to be torn down is handed out.
    pub fn finish(
        &mut self,
        id: &str,
        serial: u64,
        client_gone: bool,
        alive: bool,
        now: u128,
    ) -> (r: Option<u64>)
        requires
            old(self).wf(),
        ensures
            final(self).wf(),
            final(self).next_serial() == old(self).next_serial(),
            (final(self)@, r) == finish_step(old(self)@, id@, serial, client_gone, alive, now),
    {
        let ghost before = self@;
        if client_gone && alive {
            match self.find_serial(serial) {
                Some(i) => {
                    self.sessions[i].attached = false;
                    self.sessions[i].detached_since = Some(now);
                    assert(self@ =~= detach(before, serial, now));
                },
                None => {
                    assert(self@ =~= detach(before, serial, now));
                },
            }
            None
        } else {
            self.remove_if_eq(id, serial);
            Some(serial)
        }
    }

    /// Takes the session with an id out if it is still the one with the serial
    /// number.
    pub fn remove_if_eq(&mut self, id: &str, serial: u64) -> (r: bool)
        requires
            old(self).wf(),
        ensures
            final(self).wf(),
            final(self).next_serial() == old(self).next_serial(),
            r == (position(old(self)@, id@) is Some && old(self)@[position(
                old(self)@,
                id@,
            )->0].serial == serial),
            final(self)@ == if r {
                old(self)@.remove(position(old(self)@, id@)->0)
            } else {
                old(self)@
            },
    {
        match self.find(id) {
            Some(i) => {
                assert(self@[i as int] == self.sessions@[i as int]@);
                if self.sessions[i].serial == serial {
                    self.take_out(i);
                    true
                } else {
                    false
                }
            },
            None => false,
        }
    }

    /// Takes out the sessions to which nobody has come back for too long, and
    /// hands out their serial numbers.
    pub fn sweep(&mut self, ttl_secs: u64, now: u128) -> (r: Vec<u64>)
        requires
            old(self).wf(),
        ensures
            final(self).wf(),
            final(self).next_serial() == old(self).next_serial(),
            final(self)@ == old(self)@.filter(|x: SessionView| !is_expired(x, ttl_secs, now)),
            r@ == serials(old(self)@.filter(|x: SessionView| is_expired(x, ttl_secs, now))),
    {
        let ttl: u128 = ttl_secs as u128 * 1_000_000_000;
        let ghost all = self@;
        let mut flags: Vec<bool> = Vec::new();
        let mut i: usize = 0;
        while i < self.sessions.len()
            invariant
                i <= self.sessions@.len(),
                self.sessions@.len() == self@.len(),
                self@ == all,
                ttl == ttl_secs * 1_000_000_000,
                flags@.len() == i,
                forall|k: int|
                    0 <= k < i ==> #[trigger] flags@[k] == !is_expired(all[k], ttl_secs, now),
            decreases self.sessions@.len() - i,
        {
            assert(self@[i as int] == self.sessions@[i as int]@);
            let expired = match self.sessions[i].detached_since {
                Some(since) => now.saturating_sub(since) > ttl,
                None => false,
            };
            flags.push(!expired);
            i += 1;
        }
        let ghost by_flag = |n: u64| exists|i: int| 0 <= i < all.len() && flags@[i] && all[i].serial == n;
        let r = self.keep(&flags);
        proof {
            lemma_flags_as_liveness(all, flags@, by_flag);
            lemma_picked(all, flags@, by_flag);
            lemma_living_distinct(all, by_flag);
            lemma_expired(all, flags@, ttl_secs, now);
        }
        r
    }

    /// Output of the session with a serial number.
    pub fn record(&mut self, serial: u64, bytes: &[u8])
        requires
            old(self).wf(),
        ensures
            final(self).wf(),
            final(self).next_serial() == old(self).next_serial(),
            final(self)@ == recorded(old(self)@, serial, bytes@),
    {
        let ghost before = self@;
        match self.find_serial(serial) {
            Some(i) => {
                assert(self@[i as int] == self.sessions@[i as int]@);
                self.sessions[i].ring.push(bytes);
                assert(self@ =~= recorded(before, serial, bytes@));
            },
            None => {
                assert(self@ =~= recorded(before, serial, bytes@));
            },
        }
    }

    /// The files that keep the tails of the sessions while the sandbox is away;
    /// none where nothing is kept at all.
    pub fn flush_scrollbacks(&self, workdir: &str, scrollback_cap: usize) -> (r: Vec<FlushFile>)
        ensures
            file_views(r@) == if scrollback_cap == 0 {
                seq![]
            } else {
                flush_files(self@, workdir@)
            },
    {
        let mut r: Vec<FlushFile> = Vec::new();
        if scrollback_cap == 0 {
            assert(file_views(r@) =~= seq![]);
            return r;
        }
        let mut i: usize = 0;
        assert(file_views(r@) =~= flush_files(self@.take(0), workdir@));
        while i < self.sessions.len()
            invariant
                i <= self.sessions@.len(),
                self.sessions@.len() == self@.len(),
                file_views(r@) == flush_files(self@.take(i as int), workdir@),
            decreases self.sessions@.len() - i,
        {
            let ghost r0 = file_views(r@);
            let ghost x = self@[i as int];
            proof {
                assert(x == self.sessions@[i as int]@);
                assert(self@.take(i as int + 1).drop_last() =~= self@.take(i as int));
            }
            let bytes = self.sessions[i].ring.snapshot();
            if bytes.len() > 0 {
                match scrollback_path(workdir, self.sessions[i].id.as_str()) {
                    Some(path) => {
                        r.push(FlushFile { path, bytes });
                        assert(file_views(r@) =~= r0.push(
                            (scrollback_file(workdir@, x.id)->0, x.output),
                        ));
                    },
                    None => {},
                }
            }
            i += 1;
        }
        assert(self@.take(self@.len() as int) =~= self@);
        r
    }
}

/// The flags of a sweep pick the sessions that are not expired.
proof fn lemma_expired(s: Seq<SessionView>, flags: Seq<bool>, ttl: u64, now: u128)
    requires
        flags.len() == s.len(),
        forall|k: int| 0 <= k < s.len() ==> #[trigger] flags[k] == !is_expired(s[k], ttl, now),
    ensures
        picked(s, flags, true) == s.filter(|x: SessionView| !is_expired(x, ttl, now)),
        picked(s, flags, false) == s.filter(|x: SessionView| is_expired(x, ttl, now)),
    decreases s.len(),
{
    reveal(Seq::filter);
    if s.len() > 0 {
        lemma_expired(s.drop_last(), flags.drop_last(), ttl, now);
    }
}

/// The error of a shell that could not be started.
pub fn spawn_failed(message: &str) -> (r: ApiError)
    ensures
        r@ == (ErrorView { status: 503, detail: "pty spawn failed: "@ + message@ }),
{
    ApiError::ServiceUnavailable(concat2("pty spawn failed: ", message))
}

/// Flags of sessions with distinct serial numbers are a matter of the serial
/// numbers.
proof fn lemma_flags_as_liveness(s: Seq<SessionView>, flags: Seq<bool>, live: Liveness)
    requires
        distinct(s),
        flags.len() == s.len(),
        live == (|n: u64| exists|i: int| 0 <= i < s.len() && flags[i] && s[i].serial == n),
    ensures
        flags == s.map_values(|x: SessionView| live(x.serial)),
{
    let m = s.map_values(|x: SessionView| live(x.serial));
    assert forall|i: int| 0 <= i < s.len() implies flags[i] == m[i] by {
        if m[i] {
            let k = choose|k: int| 0 <= k < s.len() && flags[k] && s[k].serial == s[i].serial;
            assert(k == i);
        }
    }
    assert(flags =~= m);
}

// --- the connection ----------------------------------------------------------

/// What can happen on a connection.
#[derive(Debug)]
pub enum RelayEvent {
    /// The client sent bytes.
    Input(Vec<u8>),
    /// The client sent text.
    Text(String),
    /// The client closed the connection, or receiving or sending failed.
    ClientGone,
    /// The client sent anything else.
    Other,
    /// The shell wrote bytes.
    Output(Vec<u8>),
    /// The output of the shell ended.
    OutputEnded,
    /// The interval between two looks at the shell is over; the flag tells
    /// whether it is alive.
    Heartbeat(bool),
}

/// What is done about it.
#[derive(Debug)]
pub enum RelayAction {
    /// The bytes are written to the shell.
    Feed(Vec<u8>),
    /// The window gets this many rows and columns.
    Resize(u16, u16),
    /// The bytes are sent to the client.
    Send(Vec<u8>),
    /// Nothing.
    Wait,
    /// The connection ends; the flag tells whether the client ended it.
    Leave(bool),
}

/// A window dimension: at least one, and at most what fits.
pub open spec fn dimension(given: Option<u64>, default: int) -> int {
    let n = match given {
        Some(n) => n as int,
        None => default,
    };
    if n < 1 {
        1
    } else if n > 65_535 {
        65_535
    } else {
        n
    }
}

/// The window size that a control message asks for: one of the kind `resize`
/// asks for its rows and columns, any other for nothing.
pub open spec fn resize_in(kind: Option<Seq<char>>, rows: Option<u64>, cols: Option<u64>) -> Option<
    (int, int),
> {
    if kind == Some("resize"@) {
        Some((dimension(rows, 24), dimension(cols, 80)))
    } else {
        None
    }
}

/// The window size that a text message asks for.
pub open spec fn resize_asked(text: Seq<char>) -> Option<(int, int)> {
    resize_in(
        json_text_of(text, "type"@),
        json_u64_of(text, "rows"@),
        json_u64_of(text, "cols"@),
    )
}

/// A window dimension.
fn clamp_dimension(given: Option<u64>, default: u64) -> (r: u16)
    ensures
        r == dimension(given, default as int),
{
    let n: u64 = match given {
        Some(n) => n,
        None => default,
    };
    if n < 1 {
        1
    } else if n > 65_535 {
        65_535
    } else {
        n as u16
    }
}

/// The window size that the fields of a control message ask for. A message
/// without a number of rows or columns means 24 or 80; any other kind of message
/// asks for nothing.
pub fn resize_from(kind: Option<&str>, rows: Option<u64>, cols: Option<u64>) -> (r: Option<
    (u16, u16),
>)
    ensures
        match r {
            Some(d) => resize_in(opt_str(kind), rows, cols) == Some((d.0 as int, d.1 as int)),
            None => resize_in(opt_str(kind), rows, cols) is None,
        },
{
    match kind {
        Some(k) => if str_eq(k, "resize") {
            Some((clamp_dimension(rows, 24), clamp_dimension(cols, 80)))
        } else {
            None
        },
        None => None,
    }
}

/// The window size that a text message asks for; a text that is no control
/// message asks for nothing.
pub fn apply_control(text: &str) -> (r: Option<(u16, u16)>)
    ensures
        match r {
            Some(d) => resize_asked(text@) == Some((d.0 as int, d.1 as int)),
            None => resize_asked(text@) is None,
        },
{
    let rows = json_u64(text, "rows");
    let cols = json_u64(text, "cols");
    match json_text(text, "type") {
        Some(kind) => resize_from(Some(kind.as_str()), rows, cols),
        None => resize_from(None, rows, cols),
    }
}

/// What is done about an event on a connection.
pub fn relay_step(event: RelayEvent) -> (r: RelayAction)
    ensures
        match event {
            RelayEvent::Input(b) => r == RelayAction::Feed(b),
            RelayEvent::Text(t) => match resize_asked(t@) {
                Some(d) => r matches RelayAction::Resize(rows, cols) && rows == d.0 && cols == d.1,
                None => r is Wait,
            },
            RelayEvent::ClientGone => r == RelayAction::Leave(true),
            RelayEvent::Other => r is Wait,
            RelayEvent::Output(b) => r == RelayAction::Send(b),
            RelayEvent::OutputEnded => r == RelayAction::Leave(false),
            RelayEvent::Heartbeat(alive) => if alive {
                r is Wait
            } else {
                r == RelayAction::Leave(false)
            },
        },
{
    match event {
        RelayEvent::Input(b) => RelayAction::Feed(b),
        RelayEvent::Text(t) => match apply_control(t.as_str()) {
            Some((rows, cols)) => RelayAction::Resize(rows, cols),
            None => RelayAction::Wait,
        },
        RelayEvent::ClientGone => RelayAction::Leave(true),
        RelayEvent::Other => RelayAction::Wait,
        RelayEvent::Output(b) => RelayAction::Send(b),
        RelayEvent::OutputEnded => RelayAction::Leave(false),
        RelayEvent::Heartbeat(alive) => if alive {
            RelayAction::Wait
        } else {
            RelayAction::Leave(false)
        },
    }
}

/// The value of a header; an empty one counts as none.
pub fn header_str<'a>(value: Option<&'a str>) -> (r: Option<&'a str>)
    ensures
        r == match value {
            Some(v) => if v@.len() > 0 {
                Some(v)
            } else {
                None
            },
            None => None,
        },
{
    match value {
        Some(v) => if v.is_empty() {
            None
        } else {
            Some(v)
        },
        None => None,
    }
}

// --- laws --------------------------------------------------------------------

/// A new session is started only where it does not exceed the cap, and only
/// where no session has its id.
pub proof fn law_cap(
    s: Seq<SessionView>,
    id: Seq<char>,
    cap: u32,
    first: Liveness,
    again: Liveness,
)
    requires
        distinct(s),
        create_step(s, id, cap, first, again).2 is Spawn,
    ensures
        create_step(s, id, cap, first, again).0.len() + 1 <= cap,
        position(create_step(s, id, cap, first, again).0, id) is None,
{
    let kept = living(s, first);
    lemma_living_distinct(s, first);
    lemma_position(kept, id);
    let rest = create_step(s, id, cap, first, again).0;
    lemma_position(rest, id);
    if position(kept, id) is Some && position(rest, id) is Some {
        let i = position(kept, id)->0;
        let j = position(rest, id)->0;
        assert(rest[j] == kept[if j < i {
            j
        } else {
            j + 1
        }]);
    }
}

/// The request for a session whose shell is alive goes on with that shell,
/// however many sessions there are, and changes nothing.
pub proof fn law_resume(s: Seq<SessionView>, i: int, cap: u32, live: Liveness)
    requires
        distinct(s),
        0 <= i < s.len(),
        forall|k: int| 0 <= k < s.len() ==> live((#[trigger] s[k]).serial),
    ensures
        create_step(s, s[i].id, cap, live, live) == (
            s,
            Seq::<u64>::empty(),
            CreateStepView::Reuse(info_of(s[i])),
        ),
{
    lemma_all_living(s, live);
    lemma_position_unique(s, s[i].id, i);
    assert(serials(fallen(s, live)) =~= seq![]);
}

proof fn lemma_all_living(s: Seq<SessionView>, live: Liveness)
    requires
        forall|k: int| 0 <= k < s.len() ==> live((#[trigger] s[k]).serial),
    ensures
        living(s, live) == s,
        fallen(s, live) == Seq::<SessionView>::empty(),
    decreases s.len(),
{
    reveal(Seq::filter);
    if s.len() > 0 {
        let t = s.drop_last();
        assert(forall|k: int| 0 <= k < t.len() ==> t[k] == #[trigger] s[k]);
        lemma_all_living(t, live);
        assert(s =~= t.push(s.last()));
    }
}

/// A client that went away and comes back to a live session gets the same shell,
/// and first the tail of all its output, also of what came in between.
pub proof fn law_detach_and_return(
    s: Seq<SessionView>,
    i: int,
    now: u128,
    between: Seq<u8>,
    live: Liveness,
)
    requires
        distinct(s),
        0 <= i < s.len(),
        live(s[i].serial),
    ensures
        ({
            let away = finish_step(s, s[i].id, s[i].serial, true, true, now).0;
            attach_step(recorded(away, s[i].serial, between), s[i].id, live).2
                == AttachView::Attached(s[i].serial, tail(s[i].output + between, s[i].limit))
        }),
{
    let away = detach(s, s[i].serial, now);
    let later = recorded(away, s[i].serial, between);
    assert forall|a: int, b: int|
        0 <= a < later.len() && 0 <= b < later.len() && a != b implies (#[trigger] later[a]).id != (
    #[trigger] later[b]).id && later[a].serial != later[b].serial by {
        assert(later[a].id == s[a].id && later[b].id == s[b].id);
        assert(later[a].serial == s[a].serial && later[b].serial == s[b].serial);
    }
    assert(later[i].id == s[i].id);
    lemma_position_unique(later, s[i].id, i);
}

/// While a client is attached, nobody else is.
pub proof fn law_one_client(s: Seq<SessionView>, id: Seq<char>, live: Liveness)
    requires
        distinct(s),
        attach_step(s, id, live).2 is Attached,
    ensures
        attach_step(attach_step(s, id, live).0, id, live) == (
            attach_step(s, id, live).0,
            None::<u64>,
            close_busy(),
        ),
{
    lemma_position(s, id);
    let i = position(s, id)->0;
    let t = attach_step(s, id, live).0;
    assert(forall|k: int| 0 <= k < s.len() && k != i ==> t[k] == #[trigger] s[k]);
    assert(t[i].id == id);
    assert(distinct(t)) by {
        assert forall|a: int, b: int|
            0 <= a < t.len() && 0 <= b < t.len() && a != b implies (#[trigger] t[a]).id != (
        #[trigger] t[b]).id && t[a].serial != t[b].serial by {
            assert(t[a].id == s[a].id && t[b].id == s[b].id);
            assert(t[a].serial == s[a].serial && t[b].serial == s[b].serial);
        }
    }
    lemma_position_unique(t, id, i);
}

/// A connection that ends does not touch a session that has taken over its id.
pub proof fn law_late_end_is_harmless(
    s: Seq<SessionView>,
    id: Seq<char>,
    serial: u64,
    client_gone: bool,
    alive: bool,
    now: u128,
)
    requires
        forall|i: int| 0 <= i < s.len() ==> (#[trigger] s[i]).serial != serial,
    ensures
        finish_step(s, id, serial, client_gone, alive, now).0 == s,
{
    lemma_position(s, id);
    assert(detach(s, serial, now) =~= s);
}

/// Deleting a session a second time changes nothing.
pub proof fn law_kill_twice(s: Seq<SessionView>, id: Seq<char>)
    requires
        distinct(s),
    ensures
        without(without(s, id), id) == without(s, id),
{
    lemma_position(s, id);
    let t = without(s, id);
    lemma_position(t, id);
    if position(s, id) is Some && position(t, id) is Some {
        let i = position(s, id)->0;
        let j = position(t, id)->0;
        assert(t[j] == s[if j < i {
            j
        } else {
            j + 1
        }]);
    }
}

/// Where no two sessions share an id, the session that is looked up by an id is the
/// one that has it, and there is none exactly where no session has it.
pub proof fn law_looked_up(s: Seq<SessionView>, id: Seq<char>, i: int)
    requires
        distinct(s),
    ensures
        0 <= i < s.len() && s[i].id == id ==> position(s, id) == Some(i) && entry(s, id) == Some(
            s[i],
        ),
        position(s, id) is None <==> forall|k: int| 0 <= k < s.len() ==> (#[trigger] s[k]).id != id,
{
    lemma_position(s, id);
    if 0 <= i < s.len() && s[i].id == id {
        lemma_position_unique(s, id, i);
    }
}

/// A client gets to a session exactly where one with that id is there, its shell is
/// alive and nobody else is attached. It is then sent what is kept of the output,
/// and only this session changes, in that it has a client.
pub proof fn law_attach(s: Seq<SessionView>, id: Seq<char>, live: Liveness, i: int, k: int)
    requires
        distinct(s),
        0 <= i < s.len(),
        s[i].id == id,
        0 <= k < s.len(),
    ensures
        live(s[i].serial) && !s[i].attached ==> ({
            let r = attach_step(s, id, live);
            &&& r.2 == AttachView::Attached(s[i].serial, s[i].output)
            &&& r.1 is None
            &&& r.0.len() == s.len()
            &&& k != i ==> r.0[k] == s[k]
            &&& r.0[i].attached && r.0[i].detached_since is None
            &&& r.0[i].id == s[i].id && r.0[i].serial == s[i].serial && r.0[i].output
                == s[i].output && r.0[i].limit == s[i].limit && r.0[i].pid == s[i].pid
                && r.0[i].created_at == s[i].created_at
        }),
        live(s[i].serial) && s[i].attached ==> attach_step(s, id, live) == (
            s,
            None::<u64>,
            AttachView::Close(4009, "terminal already attached"@),
        ),
        !live(s[i].serial) ==> attach_step(s, id, live) == (
            s.remove(i),
            Some(s[i].serial),
            AttachView::Close(4004, "unknown or ended session"@),
        ),
{
    lemma_position_unique(s, id, i);
}

/// A client that asks for a session that is not there is turned away, and nothing
/// changes.
pub proof fn law_attach_unknown(s: Seq<SessionView>, id: Seq<char>, live: Liveness)
    requires
        forall|k: int| 0 <= k < s.len() ==> (#[trigger] s[k]).id != id,
    ensures
        attach_step(s, id, live) == (
            s,
            None::<u64>,
            AttachView::Close(4004, "unknown or ended session"@),
        ),
{
    lemma_position(s, id);
}

/// When a connection to a session ends, a client that went away from a live shell
/// leaves the session behind: it has no client, and the time is noted. In every
/// other case the session is taken out and its shell torn down. No other session
/// changes.
pub proof fn law_finish(
    s: Seq<SessionView>,
    i: int,
    client_gone: bool,
    alive: bool,
    now: u128,
    k: int,
)
    requires
        distinct(s),
        0 <= i < s.len(),
        0 <= k < s.len(),
    ensures
        client_gone && alive ==> ({
            let r = finish_step(s, s[i].id, s[i].serial, client_gone, alive, now);
            &&& r.1 is None
            &&& r.0.len() == s.len()
            &&& k != i ==> r.0[k] == s[k]
            &&& !r.0[i].attached && r.0[i].detached_since == Some(now)
            &&& r.0[i].id == s[i].id && r.0[i].serial == s[i].serial && r.0[i].output
                == s[i].output && r.0[i].limit == s[i].limit && r.0[i].pid == s[i].pid
                && r.0[i].created_at == s[i].created_at
        }),
        !(client_gone && alive) ==> finish_step(
            s,
            s[i].id,
            s[i].serial,
            client_gone,
            alive,
            now,
        ) == (s.remove(i), Some(s[i].serial)),
{
    lemma_position_unique(s, s[i].id, i);
}

/// Output goes to the session that wrote it and to no other; the newest bytes of all
/// its output are kept, as many as its limit allows.
pub proof fn law_record(s: Seq<SessionView>, i: int, bytes: Seq<u8>, k: int)
    requires
        distinct(s),
        0 <= i < s.len(),
        0 <= k < s.len(),
    ensures
        ({
            let r = recorded(s, s[i].serial, bytes);
            let all = s[i].output + bytes;
            &&& r.len() == s.len()
            &&& k != i ==> r[k] == s[k]
            &&& all.len() <= s[i].limit ==> r[i].output == all
            &&& all.len() > s[i].limit ==> r[i].output == all.skip(all.len() - s[i].limit)
            &&& r[i].id == s[i].id && r[i].serial == s[i].serial && r[i].limit == s[i].limit
                && r[i].pid == s[i].pid && r[i].created_at == s[i].created_at && r[i].attached
                == s[i].attached && r[i].detached_since == s[i].detached_since
        }),
{
}

/// A session is given up exactly where its last client went away more than the given
/// seconds ago; one that has a client, or never had one, is not.
pub proof fn law_expiry(x: SessionView, ttl: u64, now: u128)
    ensures
        x.detached_since is None ==> !is_expired(x, ttl, now),
        x.detached_since matches Some(since) ==> (is_expired(x, ttl, now) <==> since + ttl
            * 1_000_000_000 < now),
{
}

proof fn lemma_filter_has(s: Seq<SessionView>, f: spec_fn(SessionView) -> bool, x: SessionView)
    ensures
        s.filter(f).contains(x) <==> s.contains(x) && f(x),
    decreases s.len(),
{
    reveal(Seq::filter);
    if s.len() > 0 {
        let head = s.drop_last();
        let rest = head.filter(f);
        let all = s.filter(f);
        lemma_filter_has(head, f, x);
        if all.contains(x) {
            let k = choose|k: int| 0 <= k < all.len() && all[k] == x;
            if k < rest.len() {
                assert(rest[k] == x);
                let i = choose|i: int| 0 <= i < head.len() && head[i] == x;
                assert(s[i] == x);
            } else {
                assert(s[s.len() - 1] == x);
            }
        }
        if s.contains(x) && f(x) {
            let i = choose|i: int| 0 <= i < s.len() && s[i] == x;
            if i < head.len() {
                assert(head[i] == x);
                let k = choose|k: int| 0 <= k < rest.len() && rest[k] == x;
                assert(all[k] == x);
            } else {
                assert(all[all.len() - 1] == x);
            }
        }
    }
}

proof fn lemma_kept_or_dead(s: Seq<SessionView>, live: Liveness, x: SessionView)
    ensures
        living(s, live).contains(x) <==> s.contains(x) && live(x.serial),
        fallen(s, live).contains(x) <==> s.contains(x) && !live(x.serial),
{
    lemma_filter_has(s, |x: SessionView| live(x.serial), x);
    lemma_filter_has(s, |x: SessionView| !live(x.serial), x);
}

/// A request for a session keeps every other session whose shell is alive, and no
/// session whose shell is dead; the shells of exactly those that are not kept are
/// torn down.
pub proof fn law_create_sweeps(
    s: Seq<SessionView>,
    id: Seq<char>,
    cap: u32,
    live: Liveness,
    x: SessionView,
)
    requires
        distinct(s),
        s.contains(x),
    ensures
        live(x.serial) ==> create_step(s, id, cap, live, live).0.contains(x)
            && !create_step(s, id, cap, live, live).1.contains(x.serial),
        !live(x.serial) ==> !create_step(s, id, cap, live, live).0.contains(x)
            && create_step(s, id, cap, live, live).1.contains(x.serial),
        create_step(s, id, cap, live, live).2 is Reuse <==> exists|i: int|
            0 <= i < s.len() && (#[trigger] s[i]).id == id && live(s[i].serial),
        create_step(s, id, cap, live, live).2 matches CreateStepView::Full(e) ==> e.status == 429
            && create_step(s, id, cap, live, live).0.len() >= cap,
        create_step(s, id, cap, live, live).2 is Spawn ==> create_step(
            s,
            id,
            cap,
            live,
            live,
        ).0.len() < cap,
{
    let kept = living(s, live);
    lemma_kept_or_dead(s, live, x);
    lemma_living_distinct(s, live);
    lemma_position(kept, id);
    let dead = serials(fallen(s, live));
    if !live(x.serial) {
        let i = choose|i: int| 0 <= i < fallen(s, live).len() && fallen(s, live)[i] == x;
        assert(dead[i] == x.serial);
    }
    if dead.contains(x.serial) {
        let i = choose|i: int| 0 <= i < dead.len() && dead[i] == x.serial;
        let y = fallen(s, live)[i];
        assert(fallen(s, live).contains(y));
        lemma_kept_or_dead(s, live, y);
    }
    if let Some(i) = position(kept, id) {
        assert(kept.contains(kept[i]));
        lemma_kept_or_dead(s, live, kept[i]);
        let k = choose|k: int| 0 <= k < s.len() && s[k] == kept[i];
        assert(s[k].id == id);
    }
    if exists|i: int| 0 <= i < s.len() && (#[trigger] s[i]).id == id && live(s[i].serial) {
        let i = choose|i: int| 0 <= i < s.len() && (#[trigger] s[i]).id == id && live(s[i].serial);
        assert(s.contains(s[i]));
        lemma_kept_or_dead(s, live, s[i]);
        let k = choose|k: int| 0 <= k < kept.len() && kept[k] == s[i];
        assert(kept[k].id == id);
    }
}

/// A client is told the id, the time and the process of the session it asked for.
pub proof fn law_told(s: SessionView, live: Liveness, cap: u32, all: Seq<SessionView>, i: int)
    requires
        distinct(all),
        0 <= i < all.len(),
        forall|k: int| 0 <= k < all.len() ==> live((#[trigger] all[k]).serial),
    ensures
        info_of(s).id == s.id && info_of(s).created_at == s.created_at && info_of(s).pid == s.pid,
        create_step(all, all[i].id, cap, live, live).2 matches CreateStepView::Reuse(t) && t.id
            == all[i].id && t.pid == all[i].pid && t.created_at == all[i].created_at,
{
    law_resume(all, i, cap, live);
}

/// A session that is deleted is gone, and every other one stays as it is.
pub proof fn law_deleted(s: Seq<SessionView>, i: int, id: Seq<char>)
    requires
        distinct(s),
    ensures
        0 <= i < s.len() && s[i].id == id ==> without(s, id) == s.remove(i),
        (forall|k: int| 0 <= k < s.len() ==> (#[trigger] s[k]).id != id) ==> without(s, id) == s,
{
    lemma_position(s, id);
    if 0 <= i < s.len() && s[i].id == id {
        lemma_position_unique(s, id, i);
    }
}

/// While the sandbox is away, the output of every session that has any is kept in the
/// file of its id, unless the id may not stand in a file name; sessions are looked
/// at one after the other.
pub proof fn law_flushed(s: Seq<SessionView>, x: SessionView, workdir: Seq<char>)
    ensures
        flush_files(seq![], workdir).len() == 0,
        flush_files(s.push(x), workdir) == if x.output.len() > 0 && crate::scrollback::is_safe_id(
            x.id,
        ) {
            flush_files(s, workdir).push((scrollback_file(workdir, x.id)->0, x.output))
        } else {
            flush_files(s, workdir)
        },
{
    assert(s.push(x).drop_last() =~= s);
}

/// A window has the rows and columns that a message asks for within 1 and 65,535,
/// the nearest of these where it asks for less or more, and 24 and 80 where it does
/// not say; messages of any other kind ask for nothing.
pub proof fn law_resize(kind: Option<Seq<char>>, n: u64, other: Option<u64>)
    ensures
        resize_in(kind, Some(n), other) is Some <==> kind == Some("resize"@),
        ({
            let held = if n == 0 {
                1
            } else if n > 65_535 {
                65_535
            } else {
                n as int
            };
            &&& resize_in(Some("resize"@), Some(n), other) matches Some(d) && d.0 == held
            &&& resize_in(Some("resize"@), other, Some(n)) matches Some(d) && d.1 == held
        }),
        resize_in(Some("resize"@), None, other) matches Some(d) && d.0 == 24,
        resize_in(Some("resize"@), other, None) matches Some(d) && d.1 == 80,
{
}

/// A registry that is full is a 429 that names the cap; one with room starts a
/// session.
pub proof fn law_full(s: Seq<SessionView>, cap: u32)
    ensures
        s.len() < cap ==> room(s, cap) is Spawn,
        s.len() >= cap ==> room(s, cap) == CreateStepView::Full(
            ErrorView {
                status: 429,
                detail: "max "@ + decimal(cap as nat) + " terminals reached"@,
            },
        ),
{
}

/// A message asks for a size by its members `type`, `rows` and `cols`.
pub proof fn law_resize_asked(text: Seq<char>, rows: u64, cols: u64)
    requires
        1 <= rows <= 65_535,
        1 <= cols <= 65_535,
    ensures
        json_text_of(text, "type"@) == Some("resize"@) && json_u64_of(text, "rows"@) == Some(rows)
            && json_u64_of(text, "cols"@) == Some(cols) ==> resize_asked(text) == Some(
            (rows as int, cols as int),
        ),
        json_text_of(text, "type"@) != Some("resize"@) ==> resize_asked(text) is None,
{
}

} // verus!
