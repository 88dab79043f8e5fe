//! Ports that a session may see, and the proxy to them.
//!
//! A listening port belongs to the session if its socket is held by a process
//! that descends from the runtime. The runtime itself does not.

use vstd::prelude::*;

use crate::chars::{words, words_of};
use crate::error::{bad_request, not_found, ApiError, ErrorView};
use crate::find::{strip_prefix, strip_suffix};
use crate::number::{decimal, digits, parse_number, parse_u64, u64_decimal};
use crate::order::{arranged, key_views, order_of, page, page_of, views, KeyView, Row, SortKey};
use crate::text::{
    concat2, concat_strs, concat_texts, lines, lines_of, opt_str, opt_text, split, split_on,
    str_eq, texts,
};

verus! {

// --- the kernel's tables -----------------------------------------------------

/// A listening socket.
#[derive(Debug, Clone, Copy, PartialEq, Eq, Structural)]
pub struct ListenRow {
    /// The port.
    pub port: u16,
    /// The user that owns the socket.
    pub uid: u32,
    /// The number of the socket.
    pub inode: u64,
}

/// A number that a text stands for, if it is one.
pub open spec fn number_of(s: Seq<char>, radix: nat, max: nat) -> Option<nat> {
    match parse_number(s, radix, max) {
        Ok(n) => Some(n),
        Err(_) => None,
    }
}

/// The socket in a line of the kernel's table, if it listens on a port.
pub open spec fn row_in(line: Seq<char>) -> Option<ListenRow> {
    let w = words_of(line);
    if w.len() < 10 || w[3] != "0A"@ {
        None
    } else {
        match (
            number_of(split_on(w[1], ':').last(), 16, u16::MAX as nat),
            number_of(w[7], 10, u32::MAX as nat),
            number_of(w[9], 10, u64::MAX as nat),
        ) {
            (Some(port), Some(uid), Some(inode)) => if port == 0 {
                None
            } else {
                Some(ListenRow { port: port as u16, uid: uid as u32, inode: inode as u64 })
            },
            _ => None,
        }
    }
}

/// Whether there is a row for a port.
pub open spec fn has_port(rows: Seq<ListenRow>, port: u16) -> bool {
    exists|i: int| 0 <= i < rows.len() && (#[trigger] rows[i]).port == port
}

/// The rows with those of more lines, each only if no earlier one has its port.
pub open spec fn rows_with(rows: Seq<ListenRow>, more: Seq<Seq<char>>) -> Seq<ListenRow>
    decreases more.len(),
{
    if more.len() == 0 {
        rows
    } else {
        let rest = rows_with(rows, more.drop_last());
        match row_in(more.last()) {
            Some(row) => if has_port(rest, row.port) {
                rest
            } else {
                rest.push(row)
            },
            None => rest,
        }
    }
}

/// The lines of a table behind its heading.
pub open spec fn table_lines(text: Seq<char>) -> Seq<Seq<char>> {
    let all = lines_of(text);
    if all.len() == 0 {
        all
    } else {
        all.drop_first()
    }
}

/// The listening sockets of a table that may be missing.
pub open spec fn rows_of_table(rows: Seq<ListenRow>, text: Option<Seq<char>>) -> Seq<ListenRow> {
    match text {
        Some(t) => rows_with(rows, table_lines(t)),
        None => rows,
    }
}

/// The number in a text, if it is one.
fn number_from(s: &str, radix: u64, max: u64) -> (r: Option<u64>)
    requires
        2 <= radix <= 16,
    ensures
        match r {
            Some(n) => number_of(s@, radix as nat, max as nat) == Some(n as nat) && n <= max,
            None => number_of(s@, radix as nat, max as nat) is None,
        },
{
    match parse_u64(s, radix, max) {
        Ok(n) => Some(n),
        Err(_) => None,
    }
}

/// The socket in a line of the kernel's table.
pub fn parse_row(line: &str) -> (r: Option<ListenRow>)
    ensures
        r == row_in(line@),
        r is Some ==> (r->0).port > 0,
{
    let w = words(line);
    assert(texts(w@).len() == w@.len());
    if w.len() < 10 {
        return None;
    }
    proof {
        assert(texts(w@)[1] == w@[1]@);
        assert(texts(w@)[3] == w@[3]@);
        assert(texts(w@)[7] == w@[7]@);
        assert(texts(w@)[9] == w@[9]@);
    }
    if !str_eq(w[3].as_str(), "0A") {
        return None;
    }
    let pieces = split(w[1].as_str(), ':');
    proof {
        crate::text::lemma_split_nonempty(w@[1]@, ':');
        assert(texts(pieces@).len() == pieces@.len());
        assert(texts(pieces@).last() == pieces@[pieces@.len() - 1]@);
    }
    let port = number_from(pieces[pieces.len() - 1].as_str(), 16, 65_535);
    let uid = number_from(w[7].as_str(), 10, 4_294_967_295);
    let inode = number_from(w[9].as_str(), 10, u64::MAX);
    match (port, uid, inode) {
        (Some(port), Some(uid), Some(inode)) => if port == 0 {
            None
        } else {
            Some(ListenRow { port: port as u16, uid: uid as u32, inode })
        },
        _ => None,
    }
}

/// Adds the rows of a table.
fn add_rows(rows: &mut Vec<ListenRow>, text: &str)
    ensures
        final(rows)@ == rows_with(old(rows)@, table_lines(text@)),
{
    let all = lines(text);
    let ghost start = rows@;
    let ghost body = table_lines(text@);
    assert(texts(all@).len() == all@.len());
    let mut i: usize = 1;
    proof {
        assert(rows_with(start, body.take(0)) == start);
        if all@.len() == 0 {
            assert(body =~= body.take(0));
        }
    }
    while i < all.len()
        invariant
            1 <= i,
            all@.len() > 0 ==> i <= all@.len(),
            texts(all@).len() == all@.len(),
            all@.len() > 0 ==> body == texts(all@).drop_first(),
            all@.len() == 0 ==> body.len() == 0 && i == 1,
            rows@ == rows_with(start, body.take(i - 1)),
        decreases all@.len() - i,
    {
        let ghost r0 = rows@;
        proof {
            assert(body[i - 1] == all@[i as int]@);
            assert(body.take(i as int).drop_last() =~= body.take(i - 1));
            assert(body.take(i as int).last() == all@[i as int]@);
        }
        if let Some(row) = parse_row(all[i].as_str()) {
            if !port_known(rows, row.port) {
                rows.push(row);
            }
        }
        i += 1;
    }
    proof {
        if all@.len() > 0 {
            assert(body.take(i - 1) =~= body);
        } else {
            assert(body.take(0) =~= body);
        }
    }
}

/// Whether there is a row for a port.
fn port_known(rows: &Vec<ListenRow>, port: u16) -> (r: bool)
    ensures
        r == has_port(rows@, port),
{
    let mut i: usize = 0;
    while i < rows.len()
        invariant
            i <= rows@.len(),
            forall|k: int| 0 <= k < i ==> (#[trigger] rows@[k]).port != port,
        decreases rows@.len() - i,
    {
        if rows[i].port == port {
            return true;
        }
        i += 1;
    }
    false
}

/// The listening sockets in the kernel's two tables; of two on one port the
/// first stays.
pub fn listening_rows(tcp: Option<&str>, tcp6: Option<&str>) -> (r: Vec<ListenRow>)
    ensures
        r@ == rows_of_table(rows_of_table(seq![], opt_str(tcp)), opt_str(tcp6)),
{
    let mut rows: Vec<ListenRow> = Vec::new();
    if let Some(t) = tcp {
        add_rows(&mut rows, t);
    }
    if let Some(t) = tcp6 {
        add_rows(&mut rows, t);
    }
    rows
}

/// Whether rows are as they should be: no port is zero, and none occurs twice.
pub open spec fn rows_sound(rows: Seq<ListenRow>) -> bool {
    &&& forall|i: int| 0 <= i < rows.len() ==> (#[trigger] rows[i]).port > 0
    &&& forall|i: int, j: int|
        0 <= i < j < rows.len() ==> (#[trigger] rows[i]).port != (#[trigger] rows[j]).port
}

proof fn lemma_rows_sound(rows: Seq<ListenRow>, more: Seq<Seq<char>>)
    requires
        rows_sound(rows),
    ensures
        rows_sound(rows_with(rows, more)),
    decreases more.len(),
{
    if more.len() > 0 {
        lemma_rows_sound(rows, more.drop_last());
    }
}

/// Whatever the tables hold, no port is zero and none is listed twice.
pub proof fn law_rows_sound(tcp: Option<Seq<char>>, tcp6: Option<Seq<char>>)
    ensures
        rows_sound(rows_of_table(rows_of_table(seq![], tcp), tcp6)),
{
    let first = rows_of_table(seq![], tcp);
    if tcp is Some {
        lemma_rows_sound(seq![], table_lines(tcp->0));
    }
    if tcp6 is Some {
        lemma_rows_sound(first, table_lines(tcp6->0));
    }
}

// --- who holds a socket ------------------------------------------------------

/// An open file of a process, as the kernel's link to it says.
#[derive(Debug)]
pub struct FdLink {
    /// The process.
    pub pid: u32,
    /// The target of the link.
    pub target: String,
}

/// An open file of a process.
pub struct FdLinkView {
    /// The process.
    pub pid: u32,
    /// The target of the link.
    pub target: Seq<char>,
}

impl View for FdLink {
    type V = FdLinkView;

    open spec fn view(&self) -> FdLinkView {
        FdLinkView { pid: self.pid, target: self.target@ }
    }
}

/// The number of the socket that a link stands for: `socket:[number]`.
pub open spec fn socket_inode(target: Seq<char>) -> Option<nat> {
    let head = "socket:["@;
    let rest = target.skip(head.len() as int);
    if head.is_prefix_of(target) && "]"@.is_suffix_of(rest) {
        number_of(rest.take(rest.len() - "]"@.len()), 10, u64::MAX as nat)
    } else {
        None
    }
}

/// The number of the socket that a link stands for.
pub fn parse_socket(target: &str) -> (r: Option<u64>)
    ensures
        match r {
            Some(n) => socket_inode(target@) == Some(n as nat),
            None => socket_inode(target@) is None,
        },
{
    match strip_prefix(target, "socket:[") {
        Some(rest) => match strip_suffix(rest.as_str(), "]") {
            Some(digits) => number_from(digits.as_str(), 10, u64::MAX),
            None => None,
        },
        None => None,
    }
}

/// The first process that holds a socket.
pub open spec fn holder(links: Seq<FdLinkView>, inode: u64) -> Option<u32>
    decreases links.len(),
{
    if links.len() == 0 {
        None
    } else if holder(links.drop_last(), inode) is Some {
        holder(links.drop_last(), inode)
    } else if socket_inode(links.last().target) == Some(inode as nat) {
        Some(links.last().pid)
    } else {
        None
    }
}

/// The first process that holds a socket.
pub fn socket_pid(links: &Vec<FdLink>, inode: u64) -> (r: Option<u32>)
    ensures
        r == holder(views(links@), inode),
{
    let ghost all = views(links@);
    let mut i: usize = 0;
    while i < links.len()
        invariant
            i <= links@.len(),
            all == views(links@),
            holder(all.take(i as int), inode) is None,
        decreases links@.len() - i,
    {
        proof {
            assert(all[i as int] == links@[i as int]@);
            assert(all.take(i as int + 1).drop_last() =~= all.take(i as int));
            assert(all.take(i as int + 1).last() == links@[i as int]@);
        }
        let found = match parse_socket(links[i].target.as_str()) {
            Some(n) => n == inode,
            None => false,
        };
        if found {
            proof {
                lemma_holder_stays(all, i as int + 1, inode);
            }
            return Some(links[i].pid);
        }
        i += 1;
    }
    assert(all.take(all.len() as int) =~= all);
    None
}

proof fn lemma_holder_stays(links: Seq<FdLinkView>, k: int, inode: u64)
    requires
        0 <= k <= links.len(),
        holder(links.take(k), inode) is Some,
    ensures
        holder(links, inode) == holder(links.take(k), inode),
    decreases links.len(),
{
    if k < links.len() {
        assert(links.drop_last().take(k) =~= links.take(k));
        lemma_holder_stays(links.drop_last(), k, inode);
    } else {
        assert(links.take(k) =~= links);
    }
}

// --- descent -----------------------------------------------------------------

/// A process and its parent.
#[derive(Debug, Clone, Copy, PartialEq, Eq, Structural)]
pub struct Lineage {
    /// The process.
    pub pid: u32,
    /// Its parent.
    pub ppid: u32,
}

/// The process number that the name of an entry stands for.
pub fn parse_pid(name: &str) -> (r: Option<u32>)
    ensures
        match r {
            Some(n) => number_of(name@, 10, u32::MAX as nat) == Some(n as nat),
            None => number_of(name@, 10, u32::MAX as nat) is None,
        },
{
    match number_from(name, 10, 4_294_967_295) {
        Some(n) => Some(n as u32),
        None => None,
    }
}

/// The parent in the status line of a process: the second word behind the last
/// closing bracket.
pub open spec fn parent_in(stat: Seq<char>) -> Option<nat> {
    let pieces = split_on(stat, ')');
    let w = words_of(pieces.last());
    if pieces.len() < 2 || w.len() < 2 {
        None
    } else {
        number_of(w[1], 10, u32::MAX as nat)
    }
}

/// The parent in the status line of a process.
pub fn stat_ppid(stat: &str) -> (r: Option<u32>)
    ensures
        match r {
            Some(n) => parent_in(stat@) == Some(n as nat),
            None => parent_in(stat@) is None,
        },
{
    let pieces = split(stat, ')');
    proof {
        crate::text::lemma_split_nonempty(stat@, ')');
        assert(texts(pieces@).len() == pieces@.len());
        assert(texts(pieces@).last() == pieces@[pieces@.len() - 1]@);
    }
    if pieces.len() < 2 {
        return None;
    }
    let w = words(pieces[pieces.len() - 1].as_str());
    assert(texts(w@).len() == w@.len());
    if w.len() < 2 {
        return None;
    }
    assert(texts(w@)[1] == w@[1]@);
    parse_pid(w[1].as_str())
}

/// Whether `child` is a child of `parent`.
pub open spec fn is_child(family: Seq<Lineage>, parent: u32, child: u32) -> bool {
    family.contains(Lineage { pid: child, ppid: parent })
}

/// Whether a row of processes goes from parent to child all the way.
pub open spec fn is_line(family: Seq<Lineage>, line: Seq<u32>) -> bool {
    forall|i: int| 0 <= i < line.len() - 1 ==> #[trigger] is_child(family, line[i], line[i + 1])
}

/// Whether `pid` descends from `root`: there is a line from one to the other.
pub open spec fn descends(family: Seq<Lineage>, root: u32, pid: u32) -> bool {
    exists|line: Seq<u32>|
        line.len() >= 2 && line[0] == root && line.last() == pid && #[trigger] is_line(family, line)
}

proof fn lemma_child_descends(family: Seq<Lineage>, root: u32, pid: u32)
    requires
        is_child(family, root, pid),
    ensures
        descends(family, root, pid),
{
    let line = seq![root, pid];
    assert forall|i: int| 0 <= i < line.len() - 1 implies #[trigger] is_child(
        family,
        line[i],
        line[i + 1],
    ) by {
        assert(i == 0);
    }
    assert(is_line(family, line));
}

proof fn lemma_grandchild_descends(family: Seq<Lineage>, root: u32, pid: u32, child: u32)
    requires
        descends(family, root, pid),
        is_child(family, pid, child),
    ensures
        descends(family, root, child),
{
    let line = choose|line: Seq<u32>|
        line.len() >= 2 && line[0] == root && line.last() == pid && #[trigger] is_line(family, line);
    let longer = line.push(child);
    assert forall|i: int| 0 <= i < longer.len() - 1 implies #[trigger] is_child(
        family,
        longer[i],
        longer[i + 1],
    ) by {
        if i < line.len() - 1 {
            assert(is_child(family, line[i], line[i + 1]));
        }
    }
    assert(is_line(family, longer));
}

/// What is closed under going from parent to child holds every descendant.
proof fn lemma_closed_holds_all(family: Seq<Lineage>, root: u32, found: Seq<u32>, pid: u32)
    requires
        descends(family, root, pid),
        forall|c: u32| is_child(family, root, c) ==> #[trigger] found.contains(c),
        forall|p: u32, c: u32|
            found.contains(p) && #[trigger] is_child(family, p, c) ==> found.contains(c),
    ensures
        found.contains(pid),
{
    let line = choose|line: Seq<u32>|
        line.len() >= 2 && line[0] == root && line.last() == pid && #[trigger] is_line(family, line);
    lemma_line_inside(family, root, found, line, line.len() - 1);
}

proof fn lemma_line_inside(
    family: Seq<Lineage>,
    root: u32,
    found: Seq<u32>,
    line: Seq<u32>,
    k: int,
)
    requires
        1 <= k < line.len(),
        line[0] == root,
        is_line(family, line),
        forall|c: u32| is_child(family, root, c) ==> #[trigger] found.contains(c),
        forall|p: u32, c: u32|
            found.contains(p) && #[trigger] is_child(family, p, c) ==> found.contains(c),
    ensures
        found.contains(line[k]),
    decreases k,
{
    assert(is_child(family, line[k - 1], line[k - 1 + 1]));
    if k > 1 {
        lemma_line_inside(family, root, found, line, k - 1);
    }
}

/// Adds the children of a process to those that are still to be looked at.
fn add_children(queue: &mut Vec<u32>, family: &Vec<Lineage>, parent: u32)
    ensures
        old(queue)@.is_prefix_of(final(queue)@),
        final(queue)@.len() <= old(queue)@.len() + family@.len(),
        forall|c: u32| #[trigger]
            final(queue)@.contains(c) <==> old(queue)@.contains(c) || is_child(family@, parent, c),
{
    let mut i: usize = 0;
    while i < family.len()
        invariant
            i <= family@.len(),
            old(queue)@.is_prefix_of(queue@),
            queue@.len() <= old(queue)@.len() + i,
            forall|c: u32| #[trigger]
                queue@.contains(c) <==> old(queue)@.contains(c) || is_child(
                    family@.take(i as int),
                    parent,
                    c,
                ),
        decreases family@.len() - i,
    {
        let l = family[i];
        let ghost before = queue@;
        let ghost seen = family@.take(i as int);
        let ghost next = family@.take(i as int + 1);
        if l.ppid == parent {
            queue.push(l.pid);
        }
        proof {
            assert(next =~= seen.push(l));
            assert forall|c: u32| #[trigger] queue@.contains(c) implies old(queue)@.contains(c)
                || is_child(next, parent, c) by {
                let k = choose|k: int| 0 <= k < queue@.len() && queue@[k] == c;
                if k < before.len() {
                    assert(before[k] == c);
                    assert(before.contains(c));
                    if is_child(seen, parent, c) {
                        let m = choose|m: int|
                            0 <= m < seen.len() && seen[m] == (Lineage { pid: c, ppid: parent });
                        assert(next[m] == (Lineage { pid: c, ppid: parent }));
                    }
                } else {
                    assert(next[i as int] == (Lineage { pid: c, ppid: parent }));
                }
            }
            assert forall|c: u32|
                old(queue)@.contains(c) || is_child(next, parent, c) implies #[trigger] queue@.contains(
            c) by {
                if old(queue)@.contains(c) || is_child(seen, parent, c) {
                    assert(before.contains(c));
                    let k = choose|k: int| 0 <= k < before.len() && before[k] == c;
                    assert(queue@[k] == c);
                } else {
                    let m = choose|m: int|
                        0 <= m < next.len() && next[m] == (Lineage { pid: c, ppid: parent });
                    if m < i {
                        assert(seen[m] == (Lineage { pid: c, ppid: parent }));
                    }
                    assert(queue@[before.len() as int] == c);
                }
            }
        }
        i += 1;
    }
    assert(family@.take(family@.len() as int) =~= family@);
}

/// Whether a number is among others.
fn is_among(v: &Vec<u32>, n: u32) -> (r: bool)
    ensures
        r == v@.contains(n),
{
    let mut i: usize = 0;
    while i < v.len()
        invariant
            i <= v@.len(),
            forall|k: int| 0 <= k < i ==> #[trigger] v@[k] != n,
        decreases v@.len() - i,
    {
        if v[i] == n {
            return true;
        }
        i += 1;
    }
    false
}

/// The processes of a family.
spec fn members(family: Seq<Lineage>) -> Seq<u32> {
    family.map_values(|l: Lineage| l.pid)
}

proof fn lemma_child_is_member(family: Seq<Lineage>, parent: u32, child: u32)
    requires
        is_child(family, parent, child),
    ensures
        members(family).contains(child),
{
    let k = choose|k: int|
        0 <= k < family.len() && family[k] == (Lineage { pid: child, ppid: parent });
    assert(members(family)[k] == child);
}

proof fn lemma_few_members(family: Seq<Lineage>, found: Seq<u32>)
    requires
        found.no_duplicates(),
        forall|p: u32| #[trigger] found.contains(p) ==> members(family).contains(p),
    ensures
        found.len() <= family.len(),
{
    let all = members(family);
    found.unique_seq_to_set();
    all.lemma_cardinality_of_set();
    vstd::seq_lib::seq_to_set_is_finite(all);
    assert(found.to_set().subset_of(all.to_set())) by {
        assert forall|p: u32| found.to_set().contains(p) implies all.to_set().contains(p) by {
            assert(found.contains(p));
        }
    }
    vstd::set_lib::lemma_len_subset(found.to_set(), all.to_set());
}

/// Whether a process is found or still to be looked at.
spec fn noted(found: Seq<u32>, queue: Seq<u32>, pid: u32) -> bool {
    found.contains(pid) || queue.contains(pid)
}

/// The processes that descend from `root`, each once.
pub fn descendant_pids(root: u32, family: &Vec<Lineage>) -> (r: Vec<u32>)
    ensures
        r@.no_duplicates(),
        forall|p: u32| #[trigger] r@.contains(p) <==> descends(family@, root, p),
{
    let mut queue: Vec<u32> = Vec::new();
    let mut found: Vec<u32> = Vec::new();
    add_children(&mut queue, family, root);
    proof {
        assert forall|p: u32| #[trigger] noted(found@, queue@, p) implies descends(family@, root, p)
            && members(family@).contains(p) by {
            assert(queue@.contains(p));
            lemma_child_descends(family@, root, p);
            lemma_child_is_member(family@, root, p);
        }
        assert forall|c: u32| #[trigger] is_child(family@, root, c) implies noted(
            found@,
            queue@,
            c,
        ) by {
            assert(queue@.contains(c));
        }
        lemma_few_members(family@, found@);
    }
    while queue.len() > 0
        invariant
            found@.no_duplicates(),
            found@.len() <= family@.len(),
            forall|p: u32| #[trigger]
                noted(found@, queue@, p) ==> descends(family@, root, p) && members(
                    family@,
                ).contains(p),
            forall|c: u32| #[trigger] is_child(family@, root, c) ==> noted(found@, queue@, c),
            forall|p: u32, c: u32|
                found@.contains(p) && #[trigger] is_child(family@, p, c) ==> noted(
                    found@,
                    queue@,
                    c,
                ),
        decreases family@.len() - found@.len(), queue@.len(),
    {
        let ghost f0 = found@;
        let ghost q0 = queue@;
        let pid: u32 = queue.pop().unwrap();
        let ghost q1 = queue@;
        proof {
            assert(q0 =~= q1.push(pid));
            assert(q0[q0.len() - 1] == pid);
            assert(noted(f0, q0, pid));
            assert forall|p: u32| q0.contains(p) implies p == pid || #[trigger] q1.contains(p) by {
                let k = choose|k: int| 0 <= k < q0.len() && q0[k] == p;
                if k < q1.len() {
                    assert(q1[k] == p);
                }
            }
            assert forall|p: u32| #[trigger] q1.contains(p) implies q0.contains(p) by {
                let k = choose|k: int| 0 <= k < q1.len() && q1[k] == p;
                assert(q0[k] == p);
            }
        }
        if !is_among(&found, pid) {
            found.push(pid);
            add_children(&mut queue, family, pid);
            proof {
                assert(found@ =~= f0.push(pid));
                assert forall|p: u32| #[trigger] found@.contains(p) implies p == pid
                    || f0.contains(p) by {
                    let k = choose|k: int| 0 <= k < found@.len() && found@[k] == p;
                    if k < f0.len() {
                        assert(f0[k] == p);
                    }
                }
                assert forall|p: u32| f0.contains(p) || p == pid implies #[trigger] found@.contains(
                p) by {
                    if f0.contains(p) {
                        let k = choose|k: int| 0 <= k < f0.len() && f0[k] == p;
                        assert(found@[k] == p);
                    } else {
                        assert(found@[f0.len() as int] == p);
                    }
                }
                assert forall|p: u32| #[trigger] noted(found@, queue@, p) implies descends(
                    family@,
                    root,
                    p,
                ) && members(family@).contains(p) by {
                    if noted(f0, q0, p) {
                    } else {
                        assert(is_child(family@, pid, p));
                        lemma_grandchild_descends(family@, root, pid, p);
                        lemma_child_is_member(family@, pid, p);
                    }
                }
                assert forall|p: u32| #[trigger] found@.contains(p) implies members(
                    family@,
                ).contains(p) by {
                    assert(noted(found@, queue@, p));
                }
                lemma_few_members(family@, found@);
                assert forall|c: u32| #[trigger] is_child(family@, root, c) implies noted(
                    found@,
                    queue@,
                    c,
                ) by {
                    assert(noted(f0, q0, c));
                }
                assert forall|p: u32, c: u32|
                    found@.contains(p) && #[trigger] is_child(family@, p, c) implies noted(
                    found@,
                    queue@,
                    c,
                ) by {
                    if p != pid {
                        assert(f0.contains(p));
                        assert(noted(f0, q0, c));
                    }
                }
            }
        } else {
            proof {
                assert forall|p: u32| #[trigger] noted(found@, queue@, p) implies descends(
                    family@,
                    root,
                    p,
                ) && members(family@).contains(p) by {
                    assert(noted(f0, q0, p));
                }
                assert forall|c: u32| #[trigger] is_child(family@, root, c) implies noted(
                    found@,
                    queue@,
                    c,
                ) by {
                    assert(noted(f0, q0, c));
                }
                assert forall|p: u32, c: u32|
                    found@.contains(p) && #[trigger] is_child(family@, p, c) implies noted(
                    found@,
                    queue@,
                    c,
                ) by {
                    assert(noted(f0, q0, c));
                }
            }
        }
    }
    proof {
        assert forall|p: u32| #[trigger] found@.contains(p) implies descends(family@, root, p) by {
            assert(noted(found@, queue@, p));
        }
        assert forall|p: u32| descends(family@, root, p) implies #[trigger] found@.contains(p) by {
            assert forall|c: u32| is_child(family@, root, c) implies #[trigger] found@.contains(c) by {
                assert(noted(found@, queue@, c));
            }
            assert forall|q: u32, c: u32|
                found@.contains(q) && #[trigger] is_child(family@, q, c) implies found@.contains(
                c,
            ) by {
                assert(noted(found@, queue@, c));
            }
            lemma_closed_holds_all(family@, root, found@, p);
        }
    }
    found
}

/// A process does not descend from itself where its own parent does not descend
/// from it and is not itself.
pub proof fn law_not_own_descendant(family: Seq<Lineage>, root: u32)
    requires
        forall|p: u32| #[trigger]
            is_child(family, p, root) ==> p != root && !descends(family, root, p),
    ensures
        !descends(family, root, root),
{
    if descends(family, root, root) {
        let line = choose|line: Seq<u32>|
            line.len() >= 2 && line[0] == root && line.last() == root && #[trigger] is_line(
                family,
                line,
            );
        let n = line.len() as int;
        assert(is_child(family, line[n - 2], line[n - 2 + 1]));
        let p = line[n - 2];
        assert(is_child(family, p, root));
        if n == 2 {
            assert(p == root);
        } else {
            let shorter = line.drop_last();
            assert forall|i: int| 0 <= i < shorter.len() - 1 implies #[trigger] is_child(
                family,
                shorter[i],
                shorter[i + 1],
            ) by {
                assert(is_child(family, line[i], line[i + 1]));
            }
            assert(is_line(family, shorter));
            assert(descends(family, root, p));
        }
    }
}

// --- visible ports -----------------------------------------------------------

/// A port that the session may see.
#[derive(Debug)]
pub struct VisiblePort {
    /// The port.
    pub port: u16,
    /// The process that holds its socket.
    pub pid: Option<u32>,
    /// The name of that process.
    pub process: Option<String>,
}

/// A port that the session may see.
pub struct VisiblePortView {
    /// The port.
    pub port: u16,
    /// The process that holds its socket.
    pub pid: Option<u32>,
    /// The name of that process.
    pub process: Option<Seq<char>>,
}

impl View for VisiblePort {
    type V = VisiblePortView;

    open spec fn view(&self) -> VisiblePortView {
        VisiblePortView { port: self.port, pid: self.pid, process: opt_text(self.process) }
    }
}

impl Row for VisiblePort {
    fn duplicate(&self) -> (r: Self) {
        let process = match &self.process {
            Some(p) => Some(p.clone()),
            None => None,
        };
        VisiblePort { port: self.port, pid: self.pid, process }
    }
}

/// The texts of the name files of processes.
pub type Names = spec_fn(u32) -> Option<Seq<char>>;

/// The closure gives the text of the name file of a process.
pub open spec fn names_as<F: Fn(u32) -> Option<String>>(comm: F, names: Names) -> bool {
    forall|p: u32, o: Option<String>| #[trigger]
        call_ensures(comm, (p,), o) ==> opt_text(o) == names(p)
}

/// The name of a process: the first line of its name file.
pub open spec fn name_in(comm: Option<Seq<char>>) -> Option<Seq<char>> {
    match comm {
        Some(t) => if lines_of(t).len() > 0 {
            Some(lines_of(t)[0])
        } else {
            None
        },
        None => None,
    }
}

/// The name of a process.
pub fn process_name(comm: Option<&str>) -> (r: Option<String>)
    ensures
        opt_text(r) == name_in(opt_str(comm)),
{
    match comm {
        Some(t) => {
            let all = lines(t);
            assert(texts(all@).len() == all@.len());
            if all.len() > 0 {
                assert(texts(all@)[0] == all@[0]@);
                Some(all[0].clone())
            } else {
                None
            }
        },
        None => None,
    }
}

/// The port of a row, if a descendant of `root` holds its socket.
pub open spec fn visible_row(
    row: ListenRow,
    links: Seq<FdLinkView>,
    family: Seq<Lineage>,
    root: u32,
    names: Names,
) -> Option<VisiblePortView> {
    match holder(links, row.inode) {
        Some(pid) => if descends(family, root, pid) {
            Some(VisiblePortView { port: row.port, pid: Some(pid), process: name_in(names(pid)) })
        } else {
            None
        },
        None => None,
    }
}

/// The ports of rows whose sockets descendants of `root` hold.
pub open spec fn visible_rows(
    rows: Seq<ListenRow>,
    links: Seq<FdLinkView>,
    family: Seq<Lineage>,
    root: u32,
    names: Names,
) -> Seq<VisiblePortView>
    decreases rows.len(),
{
    if rows.len() == 0 {
        seq![]
    } else {
        let rest = visible_rows(rows.drop_last(), links, family, root, names);
        match visible_row(rows.last(), links, family, root, names) {
            Some(v) => rest.push(v),
            None => rest,
        }
    }
}

/// What ports are ordered by.
pub open spec fn port_keys(v: Seq<VisiblePortView>) -> Seq<KeyView> {
    v.map_values(|p: VisiblePortView| KeyView { major: p.port as nat, minor: 0, parts: seq![] })
}

/// The ports that the session may see, by number: those whose sockets are held
/// by processes that descend from `root`.
pub open spec fn visible_ports(
    rows: Seq<ListenRow>,
    links: Seq<FdLinkView>,
    family: Seq<Lineage>,
    root: u32,
    names: Names,
) -> Seq<VisiblePortView> {
    let v = visible_rows(rows, links, family, root, names);
    arranged(v, order_of(port_keys(v)))
}

/// The ports that the session may see, by number. `comm` gives the text of the
/// name file of a process.
pub fn scan_visible_ports<F: Fn(u32) -> Option<String>>(
    rows: &Vec<ListenRow>,
    links: &Vec<FdLink>,
    family: &Vec<Lineage>,
    root: u32,
    comm: &F,
) -> (r: Vec<VisiblePort>)
    requires
        forall|p: u32| call_requires(*comm, (p,)),
    ensures
        forall|names: Names| #[trigger]
            names_as(*comm, names) ==> views(r@) == visible_ports(
                rows@,
                views(links@),
                family@,
                root,
                names,
            ),
{
    let descendants = descendant_pids(root, family);
    let mut out: Vec<VisiblePort> = Vec::new();
    let mut keys: Vec<SortKey> = Vec::new();
    let mut i: usize = 0;
    proof {
        assert(views(out@) =~= seq![]);
        assert(key_views(keys@) =~= port_keys(views(out@)));
    }
    while i < rows.len()
        invariant
            i <= rows@.len(),
            out@.len() == keys@.len(),
            forall|p: u32| #[trigger]
                descendants@.contains(p) <==> descends(family@, root, p),
            forall|p: u32| call_requires(*comm, (p,)),
            key_views(keys@) == port_keys(views(out@)),
            forall|names: Names| #[trigger]
                names_as(*comm, names) ==> views(out@) == visible_rows(
                    rows@.take(i as int),
                    views(links@),
                    family@,
                    root,
                    names,
                ),
        decreases rows@.len() - i,
    {
        let ghost o0 = views(out@);
        let ghost k0 = key_views(keys@);
        let row = rows[i];
        proof {
            assert(rows@.take(i as int + 1).drop_last() =~= rows@.take(i as int));
            assert(rows@.take(i as int + 1).last() == row);
        }
        if let Some(pid) = socket_pid(links, row.inode) {
            if is_among(&descendants, pid) {
                let text = comm(pid);
                let process = match &text {
                    Some(t) => process_name(Some(t.as_str())),
                    None => process_name(None),
                };
                let v = VisiblePort { port: row.port, pid: Some(pid), process };
                let parts: Vec<String> = Vec::new();
                assert(texts(parts@) =~= seq![]);
                let key = SortKey { major: row.port as u64, minor: 0, parts };
                let ghost vv = v@;
                let ghost kv = key@;
                out.push(v);
                keys.push(key);
                proof {
                    assert(views(out@) =~= o0.push(vv));
                    assert(key_views(keys@) =~= k0.push(kv));
                    assert(port_keys(o0.push(vv)) =~= port_keys(o0).push(kv));
                }
            }
        }
        i += 1;
    }
    assert(rows@.take(rows@.len() as int) =~= rows@);
    let n: usize = out.len();
    let r = page(&out, &keys, 0, n);
    proof {
        assert(views(out@).len() == out@.len());
        let all = arranged(views(out@), order_of(key_views(keys@)));
        assert(all.len() == n);
        assert(all.skip(0) =~= all);
        assert(page_of(all, 0, n as nat) =~= all);
    }
    r
}

/// Only ports of descendants are seen.
pub proof fn law_only_own_ports(
    rows: Seq<ListenRow>,
    links: Seq<FdLinkView>,
    family: Seq<Lineage>,
    root: u32,
    names: Names,
    k: int,
)
    requires
        0 <= k < visible_rows(rows, links, family, root, names).len(),
    ensures
        ({
            let v = visible_rows(rows, links, family, root, names)[k];
            v.pid is Some && descends(family, root, v.pid->0)
        }),
    decreases rows.len(),
{
    if rows.len() > 0 {
        let rest = visible_rows(rows.drop_last(), links, family, root, names);
        if k < rest.len() {
            law_only_own_ports(rows.drop_last(), links, family, root, names, k);
        }
    }
}

// --- the proxy ---------------------------------------------------------------

/// Whether a port is seen.
pub open spec fn is_seen(ports: Seq<VisiblePortView>, port: u16) -> bool {
    exists|i: int| 0 <= i < ports.len() && (#[trigger] ports[i]).port == port
}

/// Whether a request may go to a port: it has a number, and the session sees it.
pub fn check_port(port: u16, visible: &Vec<VisiblePort>) -> (r: Result<(), ApiError>)
    ensures
        match r {
            Ok(_) => port > 0 && is_seen(views(visible@), port),
            Err(e) => if port == 0 {
                e@ == bad_request("Port must be between 1 and 65535"@)
            } else {
                !is_seen(views(visible@), port) && e@ == not_found("Port not found"@)
            },
        },
{
    if port < 1 {
        return Err(ApiError::BadRequest("Port must be between 1 and 65535".to_owned()));
    }
    let ghost all = views(visible@);
    let mut i: usize = 0;
    while i < visible.len()
        invariant
            i <= visible@.len(),
            all == views(visible@),
            port > 0,
            forall|k: int| 0 <= k < i ==> (#[trigger] all[k]).port != port,
        decreases visible@.len() - i,
    {
        assert(all[i as int] == visible@[i as int]@);
        if visible[i].port == port {
            return Ok(());
        }
        i += 1;
    }
    Err(ApiError::NotFound("Port not found".to_owned()))
}

/// Where a request goes.
pub open spec fn target_url(port: u16, path: Seq<char>, query: Option<Seq<char>>) -> Seq<char> {
    let plain = concat_texts(seq!["http://localhost:"@, decimal(port as nat), "/"@, path]);
    match query {
        Some(q) => if q.len() > 0 {
            plain + "?"@ + q
        } else {
            plain
        },
        None => plain,
    }
}

/// Where a request goes.
pub fn proxy_url(port: u16, path: &str, query: Option<&str>) -> (r: String)
    ensures
        r@ == target_url(port, path@, opt_str(query)),
{
    let number = u64_decimal(port as u64);
    let parts: [&str; 4] = ["http://localhost:", number.as_str(), "/", path];
    let plain = concat_strs(parts.as_slice());
    assert(parts@.map_values(|p: &str| p@) =~= seq![
        "http://localhost:"@,
        decimal(port as nat),
        "/"@,
        path@,
    ]);
    match query {
        Some(q) => if q.is_empty() {
            plain
        } else {
            crate::text::concat3(plain.as_str(), "?", q)
        },
        None => plain,
    }
}

/// Whether a header of a request is handed on; names are in lower case.
pub open spec fn hands_on(name: Seq<char>) -> bool {
    &&& name != "host"@
    &&& name != "transfer-encoding"@
    &&& name != "connection"@
    &&& name != "authorization"@
    &&& name != "content-length"@
}

/// Whether a header of a request is handed on.
pub fn forwards_header(name: &str) -> (r: bool)
    ensures
        r == hands_on(name@),
{
    !(str_eq(name, "host") || str_eq(name, "transfer-encoding") || str_eq(name, "connection")
        || str_eq(name, "authorization") || str_eq(name, "content-length"))
}

/// Whether a header of an answer is handed back; names are in lower case.
pub open spec fn hands_back(name: Seq<char>) -> bool {
    name != "transfer-encoding"@ && name != "connection"@ && name != "content-length"@
}

/// Whether a header of an answer is handed back.
pub fn returns_header(name: &str) -> (r: bool)
    ensures
        r == hands_back(name@),
{
    !(str_eq(name, "transfer-encoding") || str_eq(name, "connection") || str_eq(
        name,
        "content-length",
    ))
}

/// The error of a request that did not come through.
pub fn proxy_failed(port: u16, timed_out: bool) -> (r: ApiError)
    ensures
        r@ == if timed_out {
            ErrorView {
                status: 504,
                detail: "Timeout connecting to localhost:"@ + decimal(port as nat),
            }
        } else {
            ErrorView { status: 502, detail: "Connection refused: localhost:"@ + decimal(port as nat) }
        },
{
    let number = u64_decimal(port as u64);
    if timed_out {
        ApiError::GatewayTimeout(concat2("Timeout connecting to localhost:", number.as_str()))
    } else {
        ApiError::BadGateway(concat2("Connection refused: localhost:", number.as_str()))
    }
}

// --- what the tables mean ----------------------------------------------------

/// A line of the kernel's table is a listener exactly where it has ten words or
/// more, its state is `0A`, what stands behind the last colon of its local address
/// is a port other than zero, and its user and socket are numbers. Which port, user
/// and socket it has goes by these words alone: the address in front of the port,
/// the other words and what stands behind do not matter.
pub proof fn law_row_read(
    line: Seq<char>,
    front: Seq<char>,
    port: Seq<char>,
)
    requires
        words_of(line).len() >= 10,
        words_of(line)[1] == front + seq![':'] + port,
        !port.contains(':'),
    ensures
        row_in(line) is Some <==> {
            &&& words_of(line)[3] == "0A"@
            &&& parse_number(port, 16, 65_535) is Ok
            &&& parse_number(port, 16, 65_535)->Ok_0 > 0
            &&& parse_number(words_of(line)[7], 10, 4_294_967_295) is Ok
            &&& parse_number(words_of(line)[9], 10, 18_446_744_073_709_551_615) is Ok
        },
        row_in(line) matches Some(row) ==> {
            &&& parse_number(port, 16, 65_535)->Ok_0 == row.port
            &&& parse_number(words_of(line)[7], 10, 4_294_967_295)->Ok_0 == row.uid
            &&& parse_number(words_of(line)[9], 10, 18_446_744_073_709_551_615)->Ok_0 == row.inode
        },
{
    crate::path::lemma_split_append(front, port, ':');
    crate::number::lemma_number_bounded(port, 16, 65_535);
    crate::number::lemma_number_bounded(words_of(line)[7], 10, 4_294_967_295);
    crate::number::lemma_number_bounded(words_of(line)[9], 10, 18_446_744_073_709_551_615);
}

/// A line with fewer than ten words is no listener.
pub proof fn law_short_row(line: Seq<char>)
    requires
        words_of(line).len() < 10,
    ensures
        row_in(line) is None,
{
}

/// A listener on any address, of four bytes or of sixteen, is read as it was
/// written.
pub proof fn law_row_written(
    line: Seq<char>,
    front: Seq<char>,
    port: nat,
    uid: nat,
    inode: nat,
)
    requires
        words_of(line).len() >= 10,
        words_of(line)[1] == front + seq![':'] + digits(port, 16),
        words_of(line)[3] == "0A"@,
        words_of(line)[7] == decimal(uid),
        words_of(line)[9] == decimal(inode),
        1 <= port <= 65_535,
        uid <= 4_294_967_295,
        inode <= 18_446_744_073_709_551_615,
    ensures
        row_in(line) == Some(
            ListenRow { port: port as u16, uid: uid as u32, inode: inode as u64 },
        ),
{
    crate::number::law_number_reads_back(port, 16, 65_535);
    crate::number::law_number_reads_back(uid, 10, 4_294_967_295);
    crate::number::law_number_reads_back(inode, 10, 18_446_744_073_709_551_615);
    crate::number::lemma_digits_are_digits(port, 16);
    let text = digits(port, 16);
    assert(!text.contains(':')) by {
        if text.contains(':') {
            let i = choose|i: int| 0 <= i < text.len() && text[i] == ':';
            assert(crate::number::digit_value(text[i], 16) is Some);
        }
    }
    law_row_read(line, front, text);
}

/// The lines of the two tables that can name a listener: all but the headings.
pub open spec fn body_lines(tcp: Option<Seq<char>>, tcp6: Option<Seq<char>>) -> Seq<Seq<char>> {
    let first = match tcp {
        Some(t) => lines_of(t),
        None => seq![],
    };
    let second = match tcp6 {
        Some(t) => lines_of(t),
        None => seq![],
    };
    first.skip(if first.len() > 0 {
        1
    } else {
        0
    }) + second.skip(if second.len() > 0 {
        1
    } else {
        0
    })
}

proof fn lemma_rows_with_append(rows: Seq<ListenRow>, x: Seq<Seq<char>>, y: Seq<Seq<char>>)
    ensures
        rows_with(rows, x + y) == rows_with(rows_with(rows, x), y),
    decreases y.len(),
{
    if y.len() == 0 {
        assert(x + y =~= x);
    } else {
        lemma_rows_with_append(rows, x, y.drop_last());
        assert((x + y).drop_last() =~= x + y.drop_last());
        assert((x + y).last() == y.last());
    }
}

/// The row is that of line `k`, and no line before has its port.
pub open spec fn first_with_port(all: Seq<Seq<char>>, k: int, row: ListenRow) -> bool {
    &&& 0 <= k < all.len()
    &&& row_in(all[k]) == Some(row)
    &&& forall|j: int|
        0 <= j < k ==> (row_in(#[trigger] all[j]) matches Some(r) ==> r.port != row.port)
}

proof fn lemma_row_from(all: Seq<Seq<char>>, i: int) -> (k: int)
    requires
        0 <= i < rows_with(seq![], all).len(),
    ensures
        first_with_port(all, k, rows_with(seq![], all)[i]),
    decreases all.len(),
{
    let none = Seq::<ListenRow>::empty();
    let head = all.drop_last();
    let rest = rows_with(none, head);
    let rows = rows_with(none, all);
    if i < rest.len() {
        let k = lemma_row_from(head, i);
        assert(rows[i] == rest[i]);
        assert(all[k] == head[k]);
        assert forall|j: int| 0 <= j < k implies (row_in(#[trigger] all[j]) matches Some(r)
            ==> r.port != rows[i].port) by {
            assert(all[j] == head[j]);
        }
        k
    } else {
        let k = all.len() - 1;
        assert forall|j: int| 0 <= j < k implies (row_in(#[trigger] all[j]) matches Some(r)
            ==> r.port != rows[i].port) by {
            assert(all[j] == head[j]);
            if row_in(head[j]) is Some {
                lemma_port_listed(head, j);
            }
        }
        k
    }
}

proof fn lemma_port_listed(all: Seq<Seq<char>>, k: int)
    requires
        0 <= k < all.len(),
        row_in(all[k]) is Some,
    ensures
        has_port(rows_with(seq![], all), (row_in(all[k])->0).port),
    decreases all.len(),
{
    let none = Seq::<ListenRow>::empty();
    let head = all.drop_last();
    let rest = rows_with(none, head);
    let rows = rows_with(none, all);
    let port = (row_in(all[k])->0).port;
    if k < head.len() {
        assert(all[k] == head[k]);
        lemma_port_listed(head, k);
    }
    if has_port(rest, port) {
        let i = choose|i: int| 0 <= i < rest.len() && (#[trigger] rest[i]).port == port;
        assert(rows[i].port == port);
    } else {
        assert(rows[rows.len() - 1].port == port);
    }
}

proof fn lemma_tables_in_one(tcp: Option<Seq<char>>, tcp6: Option<Seq<char>>)
    ensures
        rows_of_table(rows_of_table(seq![], tcp), tcp6) == rows_with(
            seq![],
            body_lines(tcp, tcp6),
        ),
{
    let x = match tcp {
        Some(t) => table_lines(t),
        None => seq![],
    };
    let y = match tcp6 {
        Some(t) => table_lines(t),
        None => seq![],
    };
    let none = Seq::<ListenRow>::empty();
    assert(body_lines(tcp, tcp6) =~= x + y);
    lemma_rows_with_append(none, x, y);
    assert(rows_with(none, x) == rows_of_table(none, tcp));
}

/// Every listener that is listed is that of a line of one of the tables behind its
/// heading, and no line before that one has its port.
pub proof fn law_listed_from_line(tcp: Option<Seq<char>>, tcp6: Option<Seq<char>>, i: int) -> (k: int)
    requires
        0 <= i < rows_of_table(rows_of_table(seq![], tcp), tcp6).len(),
    ensures
        first_with_port(
            body_lines(tcp, tcp6),
            k,
            rows_of_table(rows_of_table(seq![], tcp), tcp6)[i],
        ),
{
    lemma_tables_in_one(tcp, tcp6);
    lemma_row_from(body_lines(tcp, tcp6), i)
}

/// Every listener of both tables is listed, whichever table its line is in: the
/// port of a line that is one is there, and the first line with a port is the one
/// that counts.
pub proof fn law_listener_listed(
    tcp: Option<Seq<char>>,
    tcp6: Option<Seq<char>>,
    k: int,
    row: ListenRow,
)
    requires
        0 <= k < body_lines(tcp, tcp6).len(),
        row_in(body_lines(tcp, tcp6)[k]) == Some(row),
    ensures
        has_port(rows_of_table(rows_of_table(seq![], tcp), tcp6), row.port),
        first_with_port(body_lines(tcp, tcp6), k, row) ==> rows_of_table(
            rows_of_table(seq![], tcp),
            tcp6,
        ).contains(row),
{
    let all = body_lines(tcp, tcp6);
    let rows = rows_of_table(rows_of_table(seq![], tcp), tcp6);
    lemma_tables_in_one(tcp, tcp6);
    lemma_port_listed(all, k);
    if first_with_port(all, k, row) {
        let i = choose|i: int| 0 <= i < rows.len() && (#[trigger] rows[i]).port == row.port;
        let j = lemma_row_from(all, i);
        if j < k {
            assert(row_in(all[j]) == Some(rows[i]));
        }
        if k < j {
            assert(row_in(all[k]) == Some(row));
        }
        assert(rows[i] == row);
    }
}

/// A link stands for a socket exactly where it is `socket:[`, a number and `]`.
pub proof fn law_socket_link(n: nat, target: Seq<char>)
    ensures
        n <= 18_446_744_073_709_551_615 ==> socket_inode("socket:["@ + decimal(n) + "]"@) == Some(n),
        socket_inode(target) is Some ==> exists|text: Seq<char>|
            target == "socket:["@ + text + "]"@ && #[trigger] number_of(
                text,
                10,
                u64::MAX as nat,
            ) == socket_inode(target),
{
    let head = "socket:["@;
    let tail = "]"@;
    reveal_strlit("socket:[");
    reveal_strlit("]");
    if n <= 18_446_744_073_709_551_615 {
        let whole = head + decimal(n) + tail;
        let rest = whole.skip(head.len() as int);
        assert(rest =~= decimal(n) + tail);
        assert(whole.take(head.len() as int) =~= head);
        assert(rest.skip(rest.len() - 1) =~= tail);
        assert(rest.take(rest.len() - 1) =~= decimal(n));
        crate::number::law_number_reads_back(n, 10, u64::MAX as nat);
        assert(rest.subrange(rest.len() - tail.len(), rest.len() as int) =~= tail);
    }
    if socket_inode(target) is Some {
        let rest = target.skip(head.len() as int);
        let text = rest.take(rest.len() - tail.len());
        assert(rest.subrange(rest.len() - tail.len(), rest.len() as int) == tail || rest.skip(
            rest.len() - tail.len(),
        ) == tail);
        assert(rest =~= text + tail);
        assert(target =~= target.take(head.len() as int) + rest);
        assert(target =~= head + text + tail);
    }
}

/// The holder of a socket is the process of the first link that stands for it;
/// there is one exactly where there is such a link.
pub proof fn law_holder_is_first(links: Seq<FdLinkView>, inode: u64, k: int)
    requires
        0 <= k < links.len(),
        socket_inode(links[k].target) == Some(inode as nat),
        forall|j: int|
            0 <= j < k ==> socket_inode((#[trigger] links[j]).target) != Some(inode as nat),
    ensures
        holder(links, inode) == Some(links[k].pid),
    decreases links.len(),
{
    let head = links.drop_last();
    if k < head.len() {
        assert(head[k] == links[k]);
        assert forall|j: int| 0 <= j < k implies socket_inode((#[trigger] head[j]).target) != Some(
            inode as nat,
        ) by {
            assert(head[j] == links[j]);
        }
        law_holder_is_first(head, inode, k);
    } else {
        assert forall|j: int| 0 <= j < head.len() implies socket_inode((#[trigger] head[j]).target)
            != Some(inode as nat) by {
            assert(head[j] == links[j]);
        }
        law_no_holder(head, inode);
    }
}

/// A socket that no link stands for has no holder.
pub proof fn law_no_holder(links: Seq<FdLinkView>, inode: u64)
    requires
        forall|j: int|
            0 <= j < links.len() ==> socket_inode((#[trigger] links[j]).target) != Some(
                inode as nat,
            ),
    ensures
        holder(links, inode) is None,
    decreases links.len(),
{
    if links.len() > 0 {
        let head = links.drop_last();
        assert forall|j: int| 0 <= j < head.len() implies socket_inode((#[trigger] head[j]).target)
            != Some(inode as nat) by {
            assert(head[j] == links[j]);
        }
        law_no_holder(head, inode);
        assert(socket_inode(links[links.len() - 1].target) != Some(inode as nat));
    }
}

/// The parent of a process stands behind the last closing bracket of its status
/// line, as the second word there, whatever the name in the brackets is.
pub proof fn law_parent_read(front: Seq<char>, back: Seq<char>)
    requires
        !back.contains(')'),
    ensures
        parent_in(front + seq![')'] + back) == if words_of(back).len() < 2 {
            None::<nat>
        } else {
            number_of(words_of(back)[1], 10, u32::MAX as nat)
        },
{
    crate::path::lemma_split_append(front, back, ')');
    crate::text::lemma_split_nonempty(front, ')');
}

proof fn lemma_visible_from(
    rows: Seq<ListenRow>,
    links: Seq<FdLinkView>,
    family: Seq<Lineage>,
    root: u32,
    names: Names,
    v: VisiblePortView,
)
    ensures
        visible_rows(rows, links, family, root, names).contains(v) <==> exists|i: int|
            0 <= i < rows.len() && visible_row(#[trigger] rows[i], links, family, root, names)
                == Some(v),
    decreases rows.len(),
{
    let all = visible_rows(rows, links, family, root, names);
    if rows.len() > 0 {
        let head = rows.drop_last();
        let rest = visible_rows(head, links, family, root, names);
        lemma_visible_from(head, links, family, root, names, v);
        if all.contains(v) {
            let k = choose|k: int| 0 <= k < all.len() && all[k] == v;
            if k < rest.len() {
                assert(rest[k] == v);
                let i = choose|i: int|
                    0 <= i < head.len() && visible_row(
                        #[trigger] head[i],
                        links,
                        family,
                        root,
                        names,
                    ) == Some(v);
                assert(rows[i] == head[i]);
            } else {
                assert(visible_row(rows[rows.len() - 1], links, family, root, names) == Some(v));
            }
        }
        if exists|i: int|
            0 <= i < rows.len() && visible_row(#[trigger] rows[i], links, family, root, names)
                == Some(v) {
            let i = choose|i: int|
                0 <= i < rows.len() && visible_row(#[trigger] rows[i], links, family, root, names)
                    == Some(v);
            if i < head.len() {
                assert(head[i] == rows[i]);
                let k = choose|k: int| 0 <= k < rest.len() && rest[k] == v;
                assert(all[k] == v);
            } else {
                assert(all[all.len() - 1] == v);
            }
        }
    }
}

/// A port is seen exactly where it listens and the first process that holds its
/// socket descends from the root; it is then shown with that process and the first
/// line of its name file.
pub proof fn law_seen_ports(
    rows: Seq<ListenRow>,
    links: Seq<FdLinkView>,
    family: Seq<Lineage>,
    root: u32,
    names: Names,
    v: VisiblePortView,
)
    ensures
        visible_ports(rows, links, family, root, names).contains(v) <==> exists|i: int|
            {
                &&& 0 <= i < rows.len()
                &&& v.port == (#[trigger] rows[i]).port
                &&& v.pid is Some
                &&& holder(links, rows[i].inode) == v.pid
                &&& descends(family, root, v.pid->0)
                &&& v.process == match names(v.pid->0) {
                    Some(t) => if lines_of(t).len() > 0 {
                        Some(lines_of(t)[0])
                    } else {
                        None::<Seq<char>>
                    },
                    None => None::<Seq<char>>,
                }
            },
{
    let all = visible_rows(rows, links, family, root, names);
    let shown = visible_ports(rows, links, family, root, names);
    let keys = port_keys(all);
    lemma_visible_from(rows, links, family, root, names, v);
    crate::order::law_arranged(all, keys);
    crate::order::law_order_exists(keys);
    let order = order_of(keys);
    if shown.contains(v) {
        let x = choose|x: int| 0 <= x < shown.len() && shown[x] == v;
        assert(order.to_set().contains(order[x]));
        assert(all[order[x]] == v);
        let i = choose|i: int|
            0 <= i < rows.len() && visible_row(#[trigger] rows[i], links, family, root, names)
                == Some(v);
        assert(rows[i].port == v.port);
    }
    if exists|i: int|
        0 <= i < rows.len() && visible_row(#[trigger] rows[i], links, family, root, names) == Some(
            v,
        ) {
        let k = choose|k: int| 0 <= k < all.len() && all[k] == v;
        assert(vstd::set_lib::set_int_range(0, all.len() as int).contains(k));
        assert(order.to_set().contains(k));
        let x = choose|x: int| 0 <= x < order.len() && order[x] == k;
        assert(shown[x] == v);
    }
    assert forall|i: int|
        {
            &&& 0 <= i < rows.len()
            &&& v.port == (#[trigger] rows[i]).port
            &&& v.pid is Some
            &&& holder(links, rows[i].inode) == v.pid
            &&& descends(family, root, v.pid->0)
            &&& v.process == name_in(names(v.pid->0))
        } implies visible_row(rows[i], links, family, root, names) == Some(v) by {
    }
}

/// Ports are shown by their numbers.
pub proof fn law_ports_ascend(
    rows: Seq<ListenRow>,
    links: Seq<FdLinkView>,
    family: Seq<Lineage>,
    root: u32,
    names: Names,
    x: int,
    y: int,
)
    requires
        0 <= x < y < visible_ports(rows, links, family, root, names).len(),
    ensures
        visible_ports(rows, links, family, root, names)[x].port <= visible_ports(
            rows,
            links,
            family,
            root,
            names,
        )[y].port,
{
    let all = visible_rows(rows, links, family, root, names);
    let keys = port_keys(all);
    crate::order::law_arranged(all, keys);
    crate::order::law_order_exists(keys);
    let order = order_of(keys);
    assert(order.to_set().contains(order[x]) && order.to_set().contains(order[y]));
    crate::order::law_key_order(keys[order[y]], keys[order[x]]);
    crate::order::law_key_order(keys[order[x]], keys[order[y]]);
}

/// A request goes to the port and the path it names on this machine; a query goes
/// with it, unless it is empty.
pub proof fn law_target(port: u16, path: Seq<char>, query: Seq<char>)
    ensures
        target_url(port, path, None) == "http://localhost:"@ + decimal(port as nat) + "/"@ + path,
        target_url(port, path, Some(query)) == if query.len() == 0 {
            target_url(port, path, None)
        } else {
            target_url(port, path, None) + "?"@ + query
        },
{
    let parts = seq!["http://localhost:"@, decimal(port as nat), "/"@, path];
    let none = Seq::<Seq<char>>::empty();
    let (p1, p2, p3) = (
        none.push(parts[0]),
        none.push(parts[0]).push(parts[1]),
        none.push(parts[0]).push(parts[1]).push(parts[2]),
    );
    crate::text::lemma_concat_push(none, parts[0]);
    crate::text::lemma_concat_push(p1, parts[1]);
    crate::text::lemma_concat_push(p2, parts[2]);
    crate::text::lemma_concat_push(p3, parts[3]);
    assert(p3.push(parts[3]) =~= parts);
    assert(concat_texts(parts) =~= "http://localhost:"@ + decimal(port as nat) + "/"@ + path);
}

/// The children of a process descend from it, and so do their children; nothing
/// else does.
pub proof fn law_descent(family: Seq<Lineage>, root: u32, pid: u32)
    ensures
        is_child(family, root, pid) <==> exists|i: int|
            0 <= i < family.len() && (#[trigger] family[i]).pid == pid && family[i].ppid == root,
        descends(family, root, pid) <==> is_child(family, root, pid) || exists|q: u32|
            #[trigger] descends(family, root, q) && is_child(family, q, pid),
{
    let one = Lineage { pid, ppid: root };
    if is_child(family, root, pid) {
        let i = choose|i: int| 0 <= i < family.len() && family[i] == one;
        assert(family[i].pid == pid && family[i].ppid == root);
        lemma_child_descends(family, root, pid);
    }
    if exists|i: int|
        0 <= i < family.len() && (#[trigger] family[i]).pid == pid && family[i].ppid == root {
        let i = choose|i: int|
            0 <= i < family.len() && (#[trigger] family[i]).pid == pid && family[i].ppid == root;
        assert(family[i] == one);
    }
    if exists|q: u32| #[trigger] descends(family, root, q) && is_child(family, q, pid) {
        let q = choose|q: u32| #[trigger] descends(family, root, q) && is_child(family, q, pid);
        lemma_grandchild_descends(family, root, q, pid);
    }
    if descends(family, root, pid) {
        let line = choose|line: Seq<u32>|
            line.len() >= 2 && line[0] == root && line.last() == pid && #[trigger] is_line(
                family,
                line,
            );
        let n = line.len() as int;
        let q = line[n - 2];
        assert(is_child(family, line[n - 2], line[n - 2 + 1]));
        if n > 2 {
            let front = line.drop_last();
            assert forall|i: int| 0 <= i < front.len() - 1 implies #[trigger] is_child(
                family,
                front[i],
                front[i + 1],
            ) by {
                assert(is_child(family, line[i], line[i + 1]));
            }
            assert(is_line(family, front));
            assert(front.last() == q);
            assert(descends(family, root, q));
        }
    }
}

/// All headers are handed on but those that are about the connection to the proxy
/// itself, and the secret of that connection.
pub proof fn law_headers(name: Seq<char>)
    ensures
        hands_back(name) <==> !seq!["transfer-encoding"@, "connection"@, "content-length"@].contains(
            name,
        ),
        hands_on(name) <==> hands_back(name) && name != "host"@ && name != "authorization"@,
{
    let own = seq!["transfer-encoding"@, "connection"@, "content-length"@];
    assert(own[0] == "transfer-encoding"@ && own[1] == "connection"@ && own[2]
        == "content-length"@);
}

/// A port is seen exactly where one of the rows is about it.
pub proof fn law_port_seen(ports: Seq<VisiblePortView>, row: VisiblePortView, port: u16)
    ensures
        !is_seen(seq![], port),
        is_seen(ports.push(row), port) <==> is_seen(ports, port) || row.port == port,
{
    let all = ports.push(row);
    if is_seen(ports, port) {
        let i = choose|i: int| 0 <= i < ports.len() && (#[trigger] ports[i]).port == port;
        assert(all[i] == ports[i]);
    }
    assert(all[ports.len() as int] == row);
    if is_seen(all, port) && row.port != port {
        let i = choose|i: int| 0 <= i < all.len() && (#[trigger] all[i]).port == port;
        assert(ports[i] == all[i]);
    }
}

} // verus!
