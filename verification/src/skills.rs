//! Skills: directories with a `SKILL.md` that says what they are for.

use vstd::prelude::*;
use vstd::utf8::encode_utf8;

use crate::chars::{
    char_is_ascii_alnum, is_ascii_alnum, trim, trim_both, trim_start, trim_text, trimmed,
    trimmed_start, CharSet,
};
use crate::error::{internal, not_found, ApiError};
use crate::find::{find, find_chars, find_spec, starts_with};
use crate::order::{sort_texts, sorted_texts, views};
use crate::outside::percent_sequence;
use crate::path::{join_path, joined, parent, parent_of};
use crate::text::{
    chars_of, concat2, concat3, join, join_with, lines, lines_of, str_eq, string_between, texts,
};

verus! {

/// The directories, below the home directory, in which skills are looked for by
/// default. One directory of skills that tools are known to keep, which would
/// stand between the second and the third, is left out: its skills are not found.
pub const GLOBAL_SKILL_DIRS: [&'static str; 3] = [
    ".agents/skills",
    ".cptr/skills",
    ".codex/skills",
];

/// The most characters of a description.
pub const MAX_DESCRIPTION_CHARS: usize = 1024;

/// How deep resources are looked for.
pub const MAX_RESOURCE_DEPTH: usize = 4;

/// The most resources that are listed.
pub const MAX_RESOURCE_FILES: usize = 50;

/// The parameters of a request for a skill.
#[derive(Debug)]
pub struct ReadSkillQuery {
    /// The name of the skill.
    pub name: String,
}

/// A skill in a list.
#[derive(Debug)]
pub struct SkillSummary {
    /// `terminal:` and the quoted name.
    pub id: String,
    /// The name.
    pub name: String,
    /// What the skill is for.
    pub description: String,
    /// The path of its `SKILL.md`.
    pub location: String,
    /// Where the skill is known.
    pub scope: String,
    /// Always `terminal`.
    pub source: String,
}

/// A skill in a list.
pub struct SkillView {
    /// `terminal:` and the quoted name.
    pub id: Seq<char>,
    /// The name.
    pub name: Seq<char>,
    /// What the skill is for.
    pub description: Seq<char>,
    /// The path of its `SKILL.md`.
    pub location: Seq<char>,
    /// Where the skill is known.
    pub scope: Seq<char>,
    /// Always `terminal`.
    pub source: Seq<char>,
}

impl View for SkillSummary {
    type V = SkillView;

    open spec fn view(&self) -> SkillView {
        SkillView {
            id: self.id@,
            name: self.name@,
            description: self.description@,
            location: self.location@,
            scope: self.scope@,
            source: self.source@,
        }
    }
}

/// A skill with its contents.
#[derive(Debug)]
pub struct SkillReadResponse {
    /// `terminal:` and the quoted name.
    pub id: String,
    /// The name.
    pub name: String,
    /// What the skill is for.
    pub description: String,
    /// The path of its `SKILL.md`.
    pub location: String,
    /// Where the skill is known.
    pub scope: String,
    /// Always `terminal`.
    pub source: String,
    /// The `SKILL.md` without its front matter.
    pub content: String,
    /// The paths of other files of the skill, as seen from its directory.
    pub resources: Vec<String>,
}

/// A skill with its contents.
pub struct SkillReadView {
    /// The skill as it is listed.
    pub skill: SkillView,
    /// The `SKILL.md` without its front matter.
    pub content: Seq<char>,
    /// The paths of other files of the skill.
    pub resources: Seq<Seq<char>>,
}

impl View for SkillReadResponse {
    type V = SkillReadView;

    open spec fn view(&self) -> SkillReadView {
        SkillReadView {
            skill: SkillView {
                id: self.id@,
                name: self.name@,
                description: self.description@,
                location: self.location@,
                scope: self.scope@,
                source: self.source@,
            },
            content: self.content@,
            resources: texts(self.resources@),
        }
    }
}

// --- quoting -----------------------------------------------------------------

/// Whether a byte stands for itself in a quoted name.
pub open spec fn is_unreserved(b: u8) -> bool {
    is_ascii_alnum(b as char) || b == 95 || b == 46 || b == 45 || b == 126
}

/// Bytes, quoted: what is not unreserved becomes a percent sign and two digits.
pub open spec fn quoted(bytes: Seq<u8>) -> Seq<char>
    decreases bytes.len(),
{
    if bytes.len() == 0 {
        seq![]
    } else {
        quoted(bytes.drop_last()) + if is_unreserved(bytes.last()) {
            seq![bytes.last() as char]
        } else {
            percent_sequence(bytes.last())
        }
    }
}

/// A name, quoted.
pub fn quote_name(name: &str) -> (r: String)
    ensures
        r@ == quoted(encode_utf8(name@)),
{
    let bytes = name.as_bytes();
    let mut r: String = String::new();
    let mut i: usize = 0;
    assert(r@ =~= quoted(bytes@.take(0)));
    while i < bytes.len()
        invariant
            i <= bytes@.len(),
            r@ == quoted(bytes@.take(i as int)),
        decreases bytes@.len() - i,
    {
        let b: u8 = bytes[i];
        proof {
            assert(bytes@.take(i as int + 1).drop_last() =~= bytes@.take(i as int));
            assert(bytes@.take(i as int + 1).last() == b);
        }
        let ghost r0 = r@;
        if char_is_ascii_alnum(b as char) || b == 95 || b == 46 || b == 45 || b == 126 {
            r.push(b as char);
            assert(r@ =~= r0 + seq![b as char]);
        } else {
            r.append(percent_encoding::percent_encode_byte(b));
        }
        i += 1;
    }
    assert(bytes@.take(bytes@.len() as int) =~= bytes@);
    r
}

// --- front matter ------------------------------------------------------------

/// The text before and after the first colon.
pub open spec fn split_at_colon(line: Seq<char>) -> Option<(Seq<char>, Seq<char>)> {
    match find_spec(line, seq![':'], 0) {
        Some(i) => Some((line.take(i), line.skip(i + 1))),
        None => None,
    }
}

/// Whether a line belongs to a block: it starts with a space or a tab.
pub open spec fn is_indented(line: Seq<char>) -> bool {
    line.len() > 0 && (line[0] == ' ' || line[0] == '\t')
}

/// Whether a line is a comment.
pub open spec fn is_comment(line: Seq<char>) -> bool {
    let t = trimmed_start(line, CharSet::Space);
    t.len() > 0 && t[0] == '#'
}

/// The end of the block that starts at line `i`.
pub open spec fn block_end(all: Seq<Seq<char>>, i: int) -> int
    decreases all.len() - i,
{
    if 0 <= i < all.len() && is_indented(all[i]) {
        block_end(all, i + 1)
    } else {
        i
    }
}

/// The lines of a block, trimmed.
pub open spec fn block_lines(all: Seq<Seq<char>>, i: int, j: int) -> Seq<Seq<char>> {
    all.subrange(i, j).map_values(|l: Seq<char>| trim_text(l))
}

proof fn lemma_block_end(all: Seq<Seq<char>>, i: int)
    requires
        0 <= i <= all.len(),
    ensures
        i <= block_end(all, i) <= all.len(),
    decreases all.len() - i,
{
    if i < all.len() && is_indented(all[i]) {
        lemma_block_end(all, i + 1);
    }
}

/// The keys and values in the lines from `i` on, in their order.
pub open spec fn pairs_from(all: Seq<Seq<char>>, i: int) -> Seq<(Seq<char>, Seq<char>)>
    decreases all.len() - i,
    when 0 <= i
    via pairs_decreases
{
    if i >= all.len() {
        seq![]
    } else {
        match split_at_colon(all[i]) {
            None => pairs_from(all, i + 1),
            Some(kv) => if is_comment(all[i]) {
                pairs_from(all, i + 1)
            } else {
                let key = trim_text(kv.0);
                let value = trim_text(kv.1);
                let j = block_end(all, i + 1);
                if value == ">"@ {
                    seq![(key, join_with(block_lines(all, i + 1, j), " "@))] + pairs_from(all, j)
                } else if value == "|"@ {
                    seq![(key, join_with(block_lines(all, i + 1, j), "\n"@))] + pairs_from(all, j)
                } else {
                    seq![(key, trimmed(value, CharSet::Quote))] + pairs_from(all, i + 1)
                }
            },
        }
    }
}

#[via_fn]
proof fn pairs_decreases(all: Seq<Seq<char>>, i: int) {
    if 0 <= i < all.len() {
        lemma_block_end(all, i + 1);
    }
}

/// The map that keys and values make; a later value takes the place of an
/// earlier one.
pub open spec fn map_of(pairs: Seq<(Seq<char>, Seq<char>)>) -> Map<Seq<char>, Seq<char>>
    decreases pairs.len(),
{
    if pairs.len() == 0 {
        Map::empty()
    } else {
        map_of(pairs.drop_last()).insert(pairs.last().0, pairs.last().1)
    }
}

/// Where the front matter of a text ends, if it has any: it starts with a line of
/// three dashes and ends before the next line that begins with three dashes.
pub open spec fn front_end(text: Seq<char>) -> Option<int> {
    if "---\n"@.is_prefix_of(text) {
        match find_spec(text, "\n---"@, 0) {
            Some(e) => if e >= 4 {
                Some(e)
            } else {
                None
            },
            None => None,
        }
    } else {
        None
    }
}

/// The front matter of a text.
pub open spec fn front_matter(text: Seq<char>) -> Map<Seq<char>, Seq<char>> {
    match front_end(text) {
        Some(e) => map_of(pairs_from(lines_of(text.subrange(4, e)), 0)),
        None => Map::empty(),
    }
}

/// The text behind its front matter, trimmed.
pub open spec fn body_text(text: Seq<char>) -> Seq<char> {
    match front_end(text) {
        Some(e) => match find_spec(text, seq!['\n'], e + 1) {
            Some(p) => trim_text(text.skip(p + 1)),
            None => seq![],
        },
        None => trim_text(text),
    }
}

/// The front matter of a text.
#[derive(Debug)]
pub struct Frontmatter {
    pairs: Vec<(String, String)>,
}

/// Keys and values.
spec fn pair_views(v: Seq<(String, String)>) -> Seq<(Seq<char>, Seq<char>)> {
    v.map_values(|p: (String, String)| (p.0@, p.1@))
}

impl View for Frontmatter {
    type V = Map<Seq<char>, Seq<char>>;

    closed spec fn view(&self) -> Map<Seq<char>, Seq<char>> {
        map_of(pair_views(self.pairs@))
    }
}

proof fn lemma_map_has(pairs: Seq<(Seq<char>, Seq<char>)>, k: int)
    requires
        0 <= k < pairs.len(),
        forall|j: int| k < j < pairs.len() ==> (#[trigger] pairs[j]).0 != pairs[k].0,
    ensures
        map_of(pairs).dom().contains(pairs[k].0),
        map_of(pairs)[pairs[k].0] == pairs[k].1,
    decreases pairs.len(),
{
    if k < pairs.len() - 1 {
        lemma_map_has(pairs.drop_last(), k);
    }
}

proof fn lemma_map_lacks(pairs: Seq<(Seq<char>, Seq<char>)>, key: Seq<char>)
    requires
        forall|j: int| 0 <= j < pairs.len() ==> (#[trigger] pairs[j]).0 != key,
    ensures
        !map_of(pairs).dom().contains(key),
    decreases pairs.len(),
{
    if pairs.len() > 0 {
        lemma_map_lacks(pairs.drop_last(), key);
    }
}

impl Frontmatter {
    /// The value of a key.
    pub fn get(&self, key: &str) -> (r: Option<&String>)
        ensures
            match r {
                Some(v) => self@.dom().contains(key@) && self@[key@] == v@,
                None => !self@.dom().contains(key@),
            },
    {
        let ghost all = pair_views(self.pairs@);
        let mut i: usize = self.pairs.len();
        while i > 0
            invariant
                i <= self.pairs@.len(),
                all == pair_views(self.pairs@),
                forall|j: int| i <= j < all.len() ==> (#[trigger] all[j]).0 != key@,
            decreases i,
        {
            i -= 1;
            assert(all[i as int] == (self.pairs@[i as int].0@, self.pairs@[i as int].1@));
            if str_eq(self.pairs[i].0.as_str(), key) {
                proof {
                    lemma_map_has(all, i as int);
                }
                return Some(&self.pairs[i].1);
            }
        }
        proof {
            lemma_map_lacks(all, key@);
        }
        None
    }

    /// Whether there is no key at all.
    pub fn is_empty(&self) -> (r: bool)
        ensures
            r == (self@ == Map::<Seq<char>, Seq<char>>::empty()),
    {
        let ghost all = pair_views(self.pairs@);
        proof {
            if all.len() > 0 {
                lemma_map_has(all, all.len() - 1);
            }
        }
        self.pairs.len() == 0
    }
}

/// Whether a line belongs to a block.
fn line_indented(line: &str) -> (r: bool)
    ensures
        r == is_indented(line@),
{
    let cs = chars_of(line);
    cs.len() > 0 && (cs[0] == ' ' || cs[0] == '\t')
}

/// Whether a line is a comment.
fn line_comment(line: &str) -> (r: bool)
    ensures
        r == is_comment(line@),
{
    let t = trim_start(line, CharSet::Space);
    let cs = chars_of(t.as_str());
    cs.len() > 0 && cs[0] == '#'
}

/// The text before and after the first colon.
fn split_colon(line: &str) -> (r: Option<(String, String)>)
    ensures
        match r {
            Some(kv) => split_at_colon(line@) == Some((kv.0@, kv.1@)),
            None => split_at_colon(line@) is None,
        },
{
    proof {
        reveal_strlit(":");
        assert(":"@ =~= seq![':']);
    }
    match find(line, ":") {
        Some(i) => {
            let cs = chars_of(line);
            let n: usize = cs.len();
            assert(i + ":"@.len() <= n);
            let a = string_between(cs.as_slice(), 0, i);
            let b = string_between(cs.as_slice(), i + 1, n);
            assert(a@ =~= line@.take(i as int));
            assert(b@ =~= line@.skip(i + 1));
            Some((a, b))
        },
        None => None,
    }
}

/// The trimmed lines of the block that starts at line `i`, and its end.
fn take_block(all: &Vec<String>, i: usize) -> (r: (Vec<String>, usize))
    requires
        i <= all@.len(),
    ensures
        r.1 == block_end(texts(all@), i as int),
        i <= r.1 <= all@.len(),
        texts(r.0@) == block_lines(texts(all@), i as int, r.1 as int),
{
    let ghost rows = texts(all@);
    let mut block: Vec<String> = Vec::new();
    let mut j: usize = i;
    assert(texts(block@) =~= block_lines(rows, i as int, i as int));
    while j < all.len() && line_indented(all[j].as_str())
        invariant
            i <= j <= all@.len(),
            rows == texts(all@),
            block_end(rows, i as int) == block_end(rows, j as int),
            texts(block@) == block_lines(rows, i as int, j as int),
        decreases all@.len() - j,
    {
        let ghost b0 = texts(block@);
        assert(rows[j as int] == all@[j as int]@);
        block.push(trim(all[j].as_str()));
        proof {
            assert(texts(block@) =~= b0.push(trim_text(rows[j as int])));
            assert(block_lines(rows, i as int, j as int + 1) =~= block_lines(
                rows,
                i as int,
                j as int,
            ).push(trim_text(rows[j as int])));
        }
        j += 1;
    }
    proof {
        if j < all@.len() {
            assert(rows[j as int] == all@[j as int]@);
        }
    }
    (block, j)
}

/// The keys and values in lines.
fn parse_pairs(all: &Vec<String>) -> (r: Vec<(String, String)>)
    ensures
        pair_views(r@) == pairs_from(texts(all@), 0),
{
    let ghost rows = texts(all@);
    let mut r: Vec<(String, String)> = Vec::new();
    let mut i: usize = 0;
    assert(pair_views(r@) + pairs_from(rows, 0) =~= pairs_from(rows, 0));
    while i < all.len()
        invariant
            i <= all@.len(),
            rows == texts(all@),
            pair_views(r@) + pairs_from(rows, i as int) == pairs_from(rows, 0),
        decreases all@.len() - i,
    {
        let ghost r0 = pair_views(r@);
        let ghost rest = pairs_from(rows, i as int);
        assert(rows[i as int] == all@[i as int]@);
        let kv = split_colon(all[i].as_str());
        if kv.is_none() || line_comment(all[i].as_str()) {
            i += 1;
            continue;
        }
        let (k, v) = kv.unwrap();
        let key = trim(k.as_str());
        let value = trim(v.as_str());
        let folded = str_eq(value.as_str(), ">");
        let literal = str_eq(value.as_str(), "|");
        if folded || literal {
            let (block, j) = take_block(all, i + 1);
            let text = if folded {
                join(&block, " ")
            } else {
                join(&block, "\n")
            };
            let ghost p = (key@, text@);
            r.push((key, text));
            proof {
                assert(pair_views(r@) =~= r0.push(p));
                assert(rest == seq![p] + pairs_from(rows, j as int));
                assert(r0 + rest =~= pair_views(r@) + pairs_from(rows, j as int));
            }
            i = j;
        } else {
            let text = trim_both(value.as_str(), CharSet::Quote);
            let ghost p = (key@, text@);
            r.push((key, text));
            proof {
                assert(pair_views(r@) =~= r0.push(p));
                assert(rest == seq![p] + pairs_from(rows, i as int + 1));
                assert(r0 + rest =~= pair_views(r@) + pairs_from(rows, i as int + 1));
            }
            i += 1;
        }
    }
    assert(pair_views(r@) + pairs_from(rows, rows.len() as int) =~= pair_views(r@));
    r
}

/// The front matter of a text, and the text behind it, trimmed.
pub fn parse_frontmatter(text: &str) -> (r: (Frontmatter, String))
    ensures
        r.0@ == front_matter(text@),
        r.1@ == body_text(text@),
{
    let end: Option<usize> = if starts_with(text, "---\n") {
        match find(text, "\n---") {
            Some(e) => if e >= 4 {
                Some(e)
            } else {
                None
            },
            None => None,
        }
    } else {
        None
    };
    match end {
        None => {
            let none = Frontmatter { pairs: Vec::new() };
            assert(pair_views(none.pairs@) =~= seq![]);
            (none, trim(text))
        },
        Some(e) => {
            let cs = chars_of(text);
            let n: usize = cs.len();
            let head = string_between(cs.as_slice(), 4, e);
            assert(head@ =~= text@.subrange(4, e as int));
            let rows = lines(head.as_str());
            let pairs = parse_pairs(&rows);
            proof {
                reveal_strlit("\n---");
                assert(e + "\n---"@.len() <= n);
            }
            let newline: Vec<char> = vec!['\n'];
            assert(newline@ =~= seq!['\n']);
            let body = match find_chars(cs.as_slice(), newline.as_slice(), e + 1) {
                Some(p) => {
                    assert(p + newline@.len() <= n);
                    let after = string_between(cs.as_slice(), p + 1, n);
                    assert(after@ =~= text@.skip(p + 1));
                    trim(after.as_str())
                },
                None => {
                    let none = String::new();
                    assert(none@ =~= seq![]);
                    none
                },
            };
            (Frontmatter { pairs }, body)
        },
    }
}

// --- listing -----------------------------------------------------------------

/// The texts of `SKILL.md` files by the name of their directory.
pub type SkillTexts = spec_fn(Seq<char>) -> Option<Seq<char>>;

/// The value of a key, or another text.
pub open spec fn value_or(m: Map<Seq<char>, Seq<char>>, key: Seq<char>, other: Seq<char>) -> Seq<
    char,
> {
    if m.dom().contains(key) {
        m[key]
    } else {
        other
    }
}

/// The skill in a directory, if it is one: the directory is not hidden, its
/// `SKILL.md` can be read, and there are a description and a name in it; the
/// name of the directory stands for a missing name.
pub open spec fn skill_in(
    root: Seq<char>,
    scope: Seq<char>,
    dir: Seq<char>,
    text: Option<Seq<char>>,
) -> Option<SkillView> {
    match text {
        None => None,
        Some(t) => {
            let fm = front_matter(t);
            let description = trim_text(value_or(fm, "description"@, ""@));
            let name = trim_text(value_or(fm, "name"@, dir));
            if "."@.is_prefix_of(dir) || description.len() == 0 || name.len() == 0 {
                None
            } else {
                Some(
                    SkillView {
                        id: "terminal:"@ + quoted(encode_utf8(name)),
                        name,
                        description: if description.len() > MAX_DESCRIPTION_CHARS {
                            description.take(MAX_DESCRIPTION_CHARS as int)
                        } else {
                            description
                        },
                        location: joined(joined(root, dir), "SKILL.md"@),
                        scope,
                        source: "terminal"@,
                    },
                )
            }
        },
    }
}

/// The skills in the directories `dirs` of `root`.
pub open spec fn skills_in(
    root: Seq<char>,
    scope: Seq<char>,
    dirs: Seq<Seq<char>>,
    found: SkillTexts,
) -> Seq<SkillView>
    decreases dirs.len(),
{
    if dirs.len() == 0 {
        seq![]
    } else {
        let rest = skills_in(root, scope, dirs.drop_last(), found);
        match skill_in(root, scope, dirs.last(), found(dirs.last())) {
            Some(s) => rest.push(s),
            None => rest,
        }
    }
}

/// The skill in a directory, if it is one.
fn read_summary(root: &str, scope: &str, dir: &str, text: Option<String>) -> (r: Option<SkillSummary>)
    ensures
        match r {
            Some(s) => skill_in(root@, scope@, dir@, crate::text::opt_text(text)) == Some(s@),
            None => skill_in(root@, scope@, dir@, crate::text::opt_text(text)) is None,
        },
{
    let t = match text {
        Some(t) => t,
        None => {
            return None;
        },
    };
    if starts_with(dir, ".") {
        return None;
    }
    let (fm, _body) = parse_frontmatter(t.as_str());
    let description = match fm.get("description") {
        Some(d) => trim(d.as_str()),
        None => trim(""),
    };
    if description.as_str().is_empty() {
        return None;
    }
    let name = match fm.get("name") {
        Some(n) => trim(n.as_str()),
        None => trim(dir),
    };
    if name.as_str().is_empty() {
        return None;
    }
    let cs = chars_of(description.as_str());
    let short = if cs.len() > MAX_DESCRIPTION_CHARS {
        let head = string_between(cs.as_slice(), 0, MAX_DESCRIPTION_CHARS);
        assert(head@ =~= description@.take(MAX_DESCRIPTION_CHARS as int));
        head
    } else {
        description
    };
    let quoted_name = quote_name(name.as_str());
    let skill_dir = join_path(root, dir);
    Some(
        SkillSummary {
            id: concat2("terminal:", quoted_name.as_str()),
            name,
            description: short,
            location: join_path(skill_dir.as_str(), "SKILL.md"),
            scope: scope.to_owned(),
            source: "terminal".to_owned(),
        },
    )
}

/// The closure gives the text of the `SKILL.md` in an entry, where the entry is a
/// directory and the file can be read.
pub open spec fn gives<F: Fn(&str) -> Option<String>>(read: F, found: SkillTexts) -> bool {
    crate::lookup::answers_as(read, found)
}

/// The skills in a directory of skills, by the names of their directories.
/// `names` are the entries of `root`; `read` gives the text of the `SKILL.md` in
/// an entry that is a directory.
pub fn list_skills_in_dir<F: Fn(&str) -> Option<String>>(
    root: &str,
    scope: &str,
    names: &Vec<String>,
    read: &F,
) -> (r: Vec<SkillSummary>)
    requires
        forall|p: &str| call_requires(*read, (p,)),
    ensures
        forall|found: SkillTexts| #[trigger]
            gives(*read, found) ==> views(r@) == skills_in(
                root@,
                scope@,
                sorted_texts(texts(names@)),
                found,
            ),
{
    let dirs = sort_texts(names);
    let ghost all = texts(dirs@);
    let mut r: Vec<SkillSummary> = Vec::new();
    let mut i: usize = 0;
    assert(views(r@) =~= seq![]);
    while i < dirs.len()
        invariant
            i <= dirs@.len(),
            all == texts(dirs@),
            forall|p: &str| call_requires(*read, (p,)),
            forall|found: SkillTexts| #[trigger]
                gives(*read, found) ==> views(r@) == skills_in(
                    root@,
                    scope@,
                    all.take(i as int),
                    found,
                ),
        decreases dirs@.len() - i,
    {
        let ghost r0 = views(r@);
        proof {
            assert(all[i as int] == dirs@[i as int]@);
            assert(all.take(i as int + 1).drop_last() =~= all.take(i as int));
            assert(all.take(i as int + 1).last() == dirs@[i as int]@);
        }
        let text = read(dirs[i].as_str());
        if let Some(s) = read_summary(root, scope, dirs[i].as_str(), text) {
            let ghost v = s@;
            r.push(s);
            assert(views(r@) =~= r0.push(v));
        }
        i += 1;
    }
    assert(all.take(all.len() as int) =~= all);
    r
}

/// The default directories of skills below a home directory, each once, in the
/// order in which they are looked at.
pub fn default_skill_roots(home: &str) -> (r: Vec<String>)
    ensures
        texts(r@) == GLOBAL_SKILL_DIRS@.map_values(|d: &'static str| joined(home@, d@)),
        texts(r@).no_duplicates(),
{
    let ghost all = GLOBAL_SKILL_DIRS@.map_values(|d: &'static str| joined(home@, d@));
    let dirs = GLOBAL_SKILL_DIRS;
    let mut r: Vec<String> = Vec::new();
    let mut i: usize = 0;
    while i < dirs.len()
        invariant
            i <= dirs@.len(),
            all == dirs@.map_values(|d: &'static str| joined(home@, d@)),
            texts(r@) == all.take(i as int),
        decreases dirs@.len() - i,
    {
        let ghost r0 = texts(r@);
        r.push(join_path(home, dirs[i]));
        i += 1;
        assert(texts(r@) =~= r0.push(all[i as int - 1]));
        assert(texts(r@) =~= all.take(i as int));
    }
    proof {
        assert(all.take(all.len() as int) =~= all);
        reveal_strlit(".agents/skills");
        reveal_strlit(".cptr/skills");
        reveal_strlit(".codex/skills");
        assert(all[0].len() > all[2].len() > all[1].len());
    }
    r
}

/// Whether a skill has a name.
pub open spec fn has_name(skills: Seq<SkillView>, name: Seq<char>) -> bool {
    exists|i: int| 0 <= i < skills.len() && (#[trigger] skills[i]).name == name
}

/// The skills with more added, each only if no earlier one has its name.
pub open spec fn merged(skills: Seq<SkillView>, more: Seq<SkillView>) -> Seq<SkillView>
    decreases more.len(),
{
    if more.len() == 0 {
        skills
    } else {
        let rest = merged(skills, more.drop_last());
        if has_name(rest, more.last().name) {
            rest
        } else {
            rest.push(more.last())
        }
    }
}

/// The skills of several directories.
pub open spec fn merged_all(lists: Seq<Seq<SkillView>>) -> Seq<SkillView>
    decreases lists.len(),
{
    if lists.len() == 0 {
        seq![]
    } else {
        merged(merged_all(lists.drop_last()), lists.last())
    }
}

/// The skills of directories.
pub open spec fn list_views(v: Seq<Vec<SkillSummary>>) -> Seq<Seq<SkillView>> {
    v.map_values(|l: Vec<SkillSummary>| views(l@))
}

/// A copy of a skill.
fn copy_skill(s: &SkillSummary) -> (r: SkillSummary)
    ensures
        r@ == s@,
{
    SkillSummary {
        id: s.id.clone(),
        name: s.name.clone(),
        description: s.description.clone(),
        location: s.location.clone(),
        scope: s.scope.clone(),
        source: s.source.clone(),
    }
}

/// Adds skills, each only if no earlier one has its name.
fn merge(skills: &mut Vec<SkillSummary>, more: &Vec<SkillSummary>)
    ensures
        views(final(skills)@) == merged(views(old(skills)@), views(more@)),
{
    let ghost start = views(skills@);
    let ghost add = views(more@);
    let mut i: usize = 0;
    assert(views(skills@) =~= merged(start, add.take(0)));
    while i < more.len()
        invariant
            i <= more@.len(),
            add == views(more@),
            views(skills@) == merged(start, add.take(i as int)),
        decreases more@.len() - i,
    {
        let ghost s0 = views(skills@);
        proof {
            assert(add[i as int] == more@[i as int]@);
            assert(add.take(i as int + 1).drop_last() =~= add.take(i as int));
            assert(add.take(i as int + 1).last() == more@[i as int]@);
        }
        match find_skill(skills, more[i].name.as_str()) {
            Some(_) => {},
            None => {
                let s = copy_skill(&more[i]);
                let ghost v = s@;
                skills.push(s);
                assert(views(skills@) =~= s0.push(v));
            },
        }
        i += 1;
    }
    assert(add.take(add.len() as int) =~= add);
}

/// The first skill with a name.
pub open spec fn first_named(skills: Seq<SkillView>, name: Seq<char>, i: int) -> bool {
    &&& 0 <= i < skills.len()
    &&& skills[i].name == name
    &&& forall|k: int| 0 <= k < i ==> (#[trigger] skills[k]).name != name
}

/// The first skill with a name.
fn find_skill(skills: &Vec<SkillSummary>, name: &str) -> (r: Option<usize>)
    ensures
        match r {
            Some(i) => first_named(views(skills@), name@, i as int) && has_name(
                views(skills@),
                name@,
            ),
            None => !has_name(views(skills@), name@),
        },
{
    let ghost all = views(skills@);
    let mut i: usize = 0;
    while i < skills.len()
        invariant
            i <= skills@.len(),
            all == views(skills@),
            forall|k: int| 0 <= k < i ==> (#[trigger] all[k]).name != name@,
        decreases skills@.len() - i,
    {
        assert(all[i as int] == skills@[i as int]@);
        if str_eq(skills[i].name.as_str(), name) {
            return Some(i);
        }
        i += 1;
    }
    None
}

/// The skills of several directories; of two with one name the first stays.
pub fn scan_skills(lists: &Vec<Vec<SkillSummary>>) -> (r: Vec<SkillSummary>)
    ensures
        views(r@) == merged_all(list_views(lists@)),
{
    let ghost all = list_views(lists@);
    let mut r: Vec<SkillSummary> = Vec::new();
    let mut i: usize = 0;
    assert(views(r@) =~= merged_all(all.take(0)));
    while i < lists.len()
        invariant
            i <= lists@.len(),
            all == list_views(lists@),
            views(r@) == merged_all(all.take(i as int)),
        decreases lists@.len() - i,
    {
        proof {
            assert(all[i as int] == views(lists@[i as int]@));
            assert(all.take(i as int + 1).drop_last() =~= all.take(i as int));
            assert(all.take(i as int + 1).last() == views(lists@[i as int]@));
        }
        merge(&mut r, &lists[i]);
        i += 1;
    }
    assert(all.take(all.len() as int) =~= all);
    r
}

/// Whether no two skills have one name.
pub open spec fn names_distinct(skills: Seq<SkillView>) -> bool {
    forall|i: int, j: int|
        0 <= i < j < skills.len() ==> (#[trigger] skills[i]).name != (#[trigger] skills[j]).name
}

proof fn lemma_merged_distinct(skills: Seq<SkillView>, more: Seq<SkillView>)
    requires
        names_distinct(skills),
    ensures
        names_distinct(merged(skills, more)),
        skills.is_prefix_of(merged(skills, more)),
    decreases more.len(),
{
    if more.len() == 0 {
        assert(skills.take(skills.len() as int) =~= skills);
    } else {
        lemma_merged_distinct(skills, more.drop_last());
        let rest = merged(skills, more.drop_last());
        let all = merged(skills, more);
        assert(all.take(skills.len() as int) =~= rest.take(skills.len() as int));
    }
}

/// No two skills have one name, and a skill of an earlier directory is not
/// displaced by one of a later directory.
pub proof fn law_first_name_wins(lists: Seq<Seq<SkillView>>, more: Seq<SkillView>)
    ensures
        names_distinct(merged_all(lists)),
        merged_all(lists).is_prefix_of(merged_all(lists.push(more))),
    decreases lists.len(),
{
    if lists.len() > 0 {
        law_first_name_wins(lists.drop_last(), lists.last());
        lemma_merged_distinct(merged_all(lists.drop_last()), lists.last());
    }
    assert(lists.push(more).drop_last() =~= lists);
    lemma_merged_distinct(merged_all(lists), more);
}

// --- resources ---------------------------------------------------------------

/// A directory tree: the names in a directory, and whether a path is a file or a
/// directory.
pub struct Tree {
    /// The names in a directory that can be listed.
    pub names: spec_fn(Seq<char>) -> Option<Seq<Seq<char>>>,
    /// Whether a path is a file.
    pub is_file: spec_fn(Seq<char>) -> bool,
    /// Whether a path is a directory.
    pub is_dir: spec_fn(Seq<char>) -> bool,
}

/// The closures show the tree.
pub open spec fn shows<
    N: Fn(&str) -> Option<Vec<String>>,
    A: Fn(&str) -> bool,
    B: Fn(&str) -> bool,
>(names: N, is_file: A, is_dir: B, tree: Tree) -> bool {
    &&& forall|p: &str, o: Option<Vec<String>>| #[trigger]
        call_ensures(names, (p,), o) ==> match o {
            Some(v) => (tree.names)(p@) == Some(texts(v@)),
            None => (tree.names)(p@) is None,
        }
    &&& forall|p: &str, b: bool| #[trigger]
        call_ensures(is_file, (p,), b) ==> b == (tree.is_file)(p@)
    &&& forall|p: &str, b: bool| #[trigger]
        call_ensures(is_dir, (p,), b) ==> b == (tree.is_dir)(p@)
}

/// Whether an entry is passed over.
pub open spec fn is_passed_over(name: Seq<char>) -> bool {
    "."@.is_prefix_of(name) || name == "SKILL.md"@
}

/// The path of an entry as seen from the directory of the skill.
pub open spec fn below(prefix: Seq<char>, name: Seq<char>) -> Seq<char> {
    if prefix.len() == 0 {
        name
    } else {
        prefix + "/"@ + name
    }
}

/// The resources after a directory at some depth.
pub open spec fn resources_in(
    tree: Tree,
    dir: Seq<char>,
    prefix: Seq<char>,
    depth: nat,
    out: Seq<Seq<char>>,
) -> Seq<Seq<char>>
    decreases 2 * (MAX_RESOURCE_DEPTH - depth) + 1, 0nat,
{
    if depth >= MAX_RESOURCE_DEPTH || out.len() >= MAX_RESOURCE_FILES {
        out
    } else {
        match (tree.names)(dir) {
            None => out,
            Some(names) => resources_of(tree, dir, prefix, sorted_texts(names), 0, depth, out),
        }
    }
}

/// The resources after the entries from the `i`th on.
pub open spec fn resources_of(
    tree: Tree,
    dir: Seq<char>,
    prefix: Seq<char>,
    names: Seq<Seq<char>>,
    i: nat,
    depth: nat,
    out: Seq<Seq<char>>,
) -> Seq<Seq<char>>
    decreases 2 * (MAX_RESOURCE_DEPTH - depth), names.len() - i,
{
    if i >= names.len() || out.len() >= MAX_RESOURCE_FILES || depth >= MAX_RESOURCE_DEPTH {
        out
    } else {
        let name = names[i as int];
        let path = joined(dir, name);
        let rel = below(prefix, name);
        let next = if is_passed_over(name) {
            out
        } else if (tree.is_file)(path) {
            out.push(rel)
        } else if (tree.is_dir)(path) {
            resources_in(tree, path, rel, depth + 1, out)
        } else {
            out
        };
        resources_of(tree, dir, prefix, names, i + 1, depth, next)
    }
}

/// Adds the resources of a directory.
fn walk_resources<
    N: Fn(&str) -> Option<Vec<String>>,
    A: Fn(&str) -> bool,
    B: Fn(&str) -> bool,
>(
    dir: &str,
    prefix: &str,
    depth: usize,
    out: &mut Vec<String>,
    names: &N,
    is_file: &A,
    is_dir: &B,
)
    requires
        depth <= MAX_RESOURCE_DEPTH,
        old(out)@.len() <= MAX_RESOURCE_FILES,
        forall|p: &str| call_requires(*names, (p,)),
        forall|p: &str| call_requires(*is_file, (p,)),
        forall|p: &str| call_requires(*is_dir, (p,)),
    ensures
        final(out)@.len() <= MAX_RESOURCE_FILES,
        forall|tree: Tree| #[trigger]
            shows(*names, *is_file, *is_dir, tree) ==> texts(final(out)@) == resources_in(
                tree,
                dir@,
                prefix@,
                depth as nat,
                texts(old(out)@),
            ),
    decreases MAX_RESOURCE_DEPTH - depth,
{
    assert(texts(out@).len() == out@.len());
    if depth >= MAX_RESOURCE_DEPTH || out.len() >= MAX_RESOURCE_FILES {
        return;
    }
    let given = match names(dir) {
        Some(v) => v,
        None => {
            return;
        },
    };
    let sorted = sort_texts(&given);
    let ghost start = texts(out@);
    let ghost all = texts(sorted@);
    let mut i: usize = 0;
    while i < sorted.len()
        invariant
            i <= sorted@.len(),
            all == texts(sorted@),
            all == sorted_texts(texts(given@)),
            start == texts(old(out)@),
            start.len() < MAX_RESOURCE_FILES,
            forall|tree: Tree| #[trigger]
                shows(*names, *is_file, *is_dir, tree) ==> (tree.names)(dir@) == Some(
                    texts(given@),
                ),
            depth < MAX_RESOURCE_DEPTH,
            out@.len() <= MAX_RESOURCE_FILES,
            texts(out@).len() == out@.len(),
            forall|p: &str| call_requires(*names, (p,)),
            forall|p: &str| call_requires(*is_file, (p,)),
            forall|p: &str| call_requires(*is_dir, (p,)),
            forall|tree: Tree| #[trigger]
                shows(*names, *is_file, *is_dir, tree) ==> resources_of(
                    tree,
                    dir@,
                    prefix@,
                    all,
                    0,
                    depth as nat,
                    start,
                ) == resources_of(
                    tree,
                    dir@,
                    prefix@,
                    all,
                    i as nat,
                    depth as nat,
                    texts(out@),
                ),
        decreases sorted@.len() - i,
    {
        if out.len() >= MAX_RESOURCE_FILES {
            proof {
                assert forall|tree: Tree| #[trigger]
                    shows(*names, *is_file, *is_dir, tree) implies texts(out@) == resources_in(
                    tree,
                    dir@,
                    prefix@,
                    depth as nat,
                    start,
                ) by {
                    assert((tree.names)(dir@) == Some(texts(given@)));
                }
            }
            return;
        }
        let ghost o0 = texts(out@);
        assert(all[i as int] == sorted@[i as int]@);
        let name = sorted[i].as_str();
        let skip = starts_with(name, ".") || str_eq(name, "SKILL.md");
        if !skip {
            let path = join_path(dir, name);
            let rel = if prefix.is_empty() {
                name.to_owned()
            } else {
                concat3(prefix, "/", name)
            };
            if is_file(path.as_str()) {
                let ghost rv = rel@;
                out.push(rel);
                assert(texts(out@) =~= o0.push(rv));
            } else if is_dir(path.as_str()) {
                walk_resources(path.as_str(), rel.as_str(), depth + 1, out, names, is_file, is_dir);
            }
        }
        assert(texts(out@).len() == out@.len());
        i += 1;
    }
    proof {
        assert forall|tree: Tree| #[trigger]
            shows(*names, *is_file, *is_dir, tree) implies texts(out@) == resources_in(
            tree,
            dir@,
            prefix@,
            depth as nat,
            start,
        ) by {
            assert((tree.names)(dir@) == Some(texts(given@)));
        }
    }
}

/// The resources of a skill: the files below its directory, not deeper than four
/// levels, at most fifty, without hidden ones and without `SKILL.md`.
pub fn list_skill_resources<
    N: Fn(&str) -> Option<Vec<String>>,
    A: Fn(&str) -> bool,
    B: Fn(&str) -> bool,
>(skill_dir: &str, names: &N, is_file: &A, is_dir: &B) -> (r: Vec<String>)
    requires
        forall|p: &str| call_requires(*names, (p,)),
        forall|p: &str| call_requires(*is_file, (p,)),
        forall|p: &str| call_requires(*is_dir, (p,)),
    ensures
        r@.len() <= MAX_RESOURCE_FILES,
        forall|tree: Tree| #[trigger]
            shows(*names, *is_file, *is_dir, tree) ==> texts(r@) == resources_in(
                tree,
                skill_dir@,
                ""@,
                0,
                seq![],
            ),
{
    let mut out: Vec<String> = Vec::new();
    assert(texts(out@) =~= seq![]);
    walk_resources(skill_dir, "", 0, &mut out, names, is_file, is_dir);
    out
}

// --- reading -----------------------------------------------------------------

/// The directory of a skill.
pub open spec fn skill_home(location: Seq<char>) -> Seq<char> {
    match parent_of(location) {
        Some(p) => p,
        None => ""@,
    }
}

/// The position of the skill with a name, which is the answer to a request for
/// it, or the error where there is none.
pub fn choose_skill(skills: &Vec<SkillSummary>, name: &str) -> (r: Result<usize, ApiError>)
    ensures
        match r {
            Ok(i) => first_named(views(skills@), name@, i as int),
            Err(e) => !has_name(views(skills@), name@) && e@ == not_found("Skill not found"@),
        },
{
    match find_skill(skills, name) {
        Some(i) => Ok(i),
        None => Err(ApiError::NotFound("Skill not found".to_owned())),
    }
}

/// The directory of a skill.
pub fn skill_folder(location: &str) -> (r: String)
    ensures
        r@ == skill_home(location@),
{
    match parent(location) {
        Some(p) => p,
        None => "".to_owned(),
    }
}

/// A skill with its contents, given the text of its `SKILL.md`, or why that could
/// not be read, and its resources.
pub fn read_skill(skill: &SkillSummary, text: Result<&str, &str>, resources: Vec<String>) -> (r: Result<
    SkillReadResponse,
    ApiError,
>)
    ensures
        match text {
            Ok(t) => r is Ok && r->Ok_0@ == (SkillReadView {
                skill: skill@,
                content: body_text(t@),
                resources: texts(resources@),
            }),
            Err(m) => r is Err && r->Err_0@ == internal("read skill failed: "@ + m@),
        },
{
    match text {
        Ok(t) => {
            let (_fm, body) = parse_frontmatter(t);
            Ok(
                SkillReadResponse {
                    id: skill.id.clone(),
                    name: skill.name.clone(),
                    description: skill.description.clone(),
                    location: skill.location.clone(),
                    scope: skill.scope.clone(),
                    source: skill.source.clone(),
                    content: body,
                    resources,
                },
            )
        },
        Err(m) => Err(ApiError::Internal(concat2("read skill failed: ", m))),
    }
}

// --- what quoting means ------------------------------------------------------

/// Letters, digits, `_`, `.`, `-` and `~` stand for themselves in a quoted name;
/// any other byte becomes a percent sign and its two hexadecimal digits, in upper
/// case. Bytes are quoted one after the other.
pub proof fn law_quoted(x: Seq<u8>, b: u8)
    ensures
        quoted(seq![]) == Seq::<char>::empty(),
        (48 <= b <= 57 || 65 <= b <= 90 || 97 <= b <= 122 || b == 95 || b == 46 || b == 45 || b
            == 126) ==> quoted(x.push(b)) == quoted(x).push(b as char),
        !(48 <= b <= 57 || 65 <= b <= 90 || 97 <= b <= 122 || b == 95 || b == 46 || b == 45 || b
            == 126) ==> quoted(x.push(b)).len() == quoted(x).len() + 3 && quoted(x.push(b))[quoted(
            x,
        ).len() as int] == '%' && quoted(x).is_prefix_of(quoted(x.push(b))),
{
    assert(x.push(b).drop_last() =~= x);
    assert(quoted(x) + seq![b as char] =~= quoted(x).push(b as char));
    let c = b as char;
    assert(c as int == b);
    let t = quoted(x) + percent_sequence(b);
    assert(t.take(quoted(x).len() as int) =~= quoted(x));
}

// --- what front matter means -------------------------------------------------

proof fn lemma_block_end_shift(all: Seq<Seq<char>>, k: int, i: int)
    requires
        0 <= k <= all.len(),
        0 <= i <= all.len() - k,
    ensures
        block_end(all.skip(k), i) + k == block_end(all, k + i),
    decreases all.len() - k - i,
{
    if i < all.len() - k && is_indented(all[k + i]) {
        lemma_block_end_shift(all, k, i + 1);
    }
}

proof fn lemma_pairs_shift(all: Seq<Seq<char>>, k: int, i: int)
    requires
        0 <= k <= all.len(),
        0 <= i <= all.len() - k,
    ensures
        pairs_from(all.skip(k), i) == pairs_from(all, k + i),
    decreases all.len() - k - i,
{
    let rest = all.skip(k);
    if i < rest.len() {
        assert(rest[i] == all[k + i]);
        lemma_pairs_shift(all, k, i + 1);
        lemma_block_end_shift(all, k, i + 1);
        lemma_block_end(rest, i + 1);
        let j = block_end(rest, i + 1);
        lemma_pairs_shift(all, k, j);
        assert(rest.subrange(i + 1, j) =~= all.subrange(k + i + 1, k + j));
        assert(block_lines(rest, i + 1, j) =~= block_lines(all, k + i + 1, k + j));
    }
}

proof fn lemma_block_is(all: Seq<Seq<char>>, i: int, j: int)
    requires
        0 <= i <= j <= all.len(),
        forall|k: int| i <= k < j ==> is_indented(#[trigger] all[k]),
        j < all.len() ==> !is_indented(all[j]),
    ensures
        block_end(all, i) == j,
    decreases j - i,
{
    if i < j {
        assert(is_indented(all[i]));
        lemma_block_is(all, i + 1, j);
    }
}

proof fn lemma_colon(key: Seq<char>, value: Seq<char>)
    requires
        !key.contains(':'),
    ensures
        split_at_colon(key + seq![':'] + value) == Some((key, value)),
{
    let line = key + seq![':'] + value;
    let sep = seq![':'];
    let n = key.len() as int;
    assert(line.subrange(n, n + 1) =~= sep);
    assert forall|j: int| 0 <= j < n implies !crate::find::occurs_at(line, sep, j) by {
        if crate::find::occurs_at(line, sep, j) {
            assert(line.subrange(j, j + 1)[0] == ':');
            assert(key[j] == ':');
            assert(key.contains(':'));
        }
    }
    crate::find::lemma_first_unique(line, sep, 0, n);
    assert(line.take(n) =~= key);
    assert(line.skip(n + 1) =~= value);
}

proof fn lemma_no_colon(line: Seq<char>)
    requires
        !line.contains(':'),
    ensures
        split_at_colon(line) is None,
{
    crate::find::law_find_contains(line, seq![':']);
    if crate::find::contains_text(line, seq![':']) {
        let i = choose|i: int| crate::find::occurs_at(line, seq![':'], i);
        assert(line.subrange(i, i + 1)[0] == ':');
        assert(line[i] == ':');
        assert(line.contains(':'));
    }
}

/// A line without a colon, and a comment, says nothing.
pub proof fn law_line_without_pair(line: Seq<char>, rest: Seq<Seq<char>>)
    requires
        !line.contains(':') || is_comment(line),
    ensures
        pairs_from(seq![line] + rest, 0) == pairs_from(rest, 0),
{
    let all = seq![line] + rest;
    lemma_pairs_shift(all, 1, 0);
    assert(all.skip(1) =~= rest);
    assert(all[0] == line);
    if !line.contains(':') {
        lemma_no_colon(line);
    }
}

/// A key and a value stand before and behind the first colon of a line, without the
/// white space around them; quotes around the value do not belong to it.
pub proof fn law_plain_pair(key: Seq<char>, value: Seq<char>, rest: Seq<Seq<char>>)
    requires
        !key.contains(':'),
        !is_comment(key + seq![':'] + value),
        trim_text(value) != ">"@,
        trim_text(value) != "|"@,
    ensures
        pairs_from(seq![key + seq![':'] + value] + rest, 0) == seq![
            (trim_text(key), trimmed(trim_text(value), CharSet::Quote)),
        ] + pairs_from(rest, 0),
{
    let line = key + seq![':'] + value;
    let all = seq![line] + rest;
    lemma_pairs_shift(all, 1, 0);
    assert(all.skip(1) =~= rest);
    assert(all[0] == line);
    lemma_colon(key, value);
}

/// A `>` behind the colon stands for the indented lines that follow, with blanks
/// between them; a `|` for the same lines with line feeds between them. The lines are
/// trimmed, and the first that is not indented does not belong to them.
pub proof fn law_block_pair(
    key: Seq<char>,
    value: Seq<char>,
    block: Seq<Seq<char>>,
    rest: Seq<Seq<char>>,
)
    requires
        !key.contains(':'),
        !is_comment(key + seq![':'] + value),
        trim_text(value) == ">"@ || trim_text(value) == "|"@,
        forall|k: int| 0 <= k < block.len() ==> is_indented(#[trigger] block[k]),
        rest.len() > 0 ==> !is_indented(rest[0]),
    ensures
        pairs_from(seq![key + seq![':'] + value] + block + rest, 0) == seq![
            (
                trim_text(key),
                join_with(
                    block.map_values(|l: Seq<char>| trim_text(l)),
                    if trim_text(value) == ">"@ {
                        " "@
                    } else {
                        "\n"@
                    },
                ),
            ),
        ] + pairs_from(rest, 0),
{
    let line = key + seq![':'] + value;
    let all = seq![line] + block + rest;
    let j = (block.len() + 1) as int;
    assert forall|k: int| 1 <= k < j implies is_indented(#[trigger] all[k]) by {
        assert(all[k] == block[k - 1]);
    }
    if j < all.len() {
        assert(all[j] == rest[0]);
    }
    lemma_block_is(all, 1, j);
    lemma_pairs_shift(all, j, 0);
    assert(all.skip(j) =~= rest);
    assert(all[0] == line);
    lemma_colon(key, value);
    assert(all.subrange(1, j) =~= block);
    assert(block_lines(all, 1, j) =~= block.map_values(|l: Seq<char>| trim_text(l)));
    reveal_strlit(">");
    reveal_strlit("|");
    assert(">"@[0] != "|"@[0]);
}

/// The last value of a key counts, and there is nothing else.
pub proof fn law_last_value(pairs: Seq<(Seq<char>, Seq<char>)>, key: Seq<char>, k: int)
    ensures
        0 <= k < pairs.len() && pairs[k].0 == key && (forall|j: int|
            k < j < pairs.len() ==> (#[trigger] pairs[j]).0 != key) ==> map_of(
            pairs,
        ).dom().contains(key) && map_of(pairs)[key] == pairs[k].1,
        (forall|j: int| 0 <= j < pairs.len() ==> (#[trigger] pairs[j]).0 != key) ==> !map_of(
            pairs,
        ).dom().contains(key),
{
    if 0 <= k < pairs.len() && pairs[k].0 == key && (forall|j: int|
        k < j < pairs.len() ==> (#[trigger] pairs[j]).0 != key) {
        lemma_map_has(pairs, k);
    }
    if forall|j: int| 0 <= j < pairs.len() ==> (#[trigger] pairs[j]).0 != key {
        lemma_map_lacks(pairs, key);
    }
}

/// A text that begins with a line of three dashes has front matter: all up to the
/// next line that begins with three dashes. The text proper begins behind that line,
/// without the white space around it.
pub proof fn law_front_matter(matter: Seq<char>, dashes: Seq<char>, body: Seq<char>)
    requires
        !dashes.contains('\n'),
        find_spec(
            "---\n"@ + matter + "\n---"@ + dashes + seq!['\n'] + body,
            "\n---"@,
            0,
        ) == Some((4 + matter.len()) as int),
    ensures
        front_matter("---\n"@ + matter + "\n---"@ + dashes + seq!['\n'] + body) == map_of(
            pairs_from(lines_of(matter), 0),
        ),
        body_text("---\n"@ + matter + "\n---"@ + dashes + seq!['\n'] + body) == trim_text(body),
{
    let head = "---\n"@;
    let end = "\n---"@;
    reveal_strlit("---\n");
    reveal_strlit("\n---");
    let text = head + matter + end + dashes + seq!['\n'] + body;
    let e = (4 + matter.len()) as int;
    assert(text.take(4) =~= head);
    assert(head.is_prefix_of(text));
    assert(text.subrange(4, e) =~= matter);
    let sep = seq!['\n'];
    let p = e + 4 + dashes.len();
    assert(text.subrange(p, p + 1) =~= sep);
    assert forall|j: int| e + 1 <= j < p implies !crate::find::occurs_at(text, sep, j) by {
        if crate::find::occurs_at(text, sep, j) {
            assert(text.subrange(j, j + 1)[0] == '\n');
            assert(text[j] == '\n');
            if j < e + 4 {
                assert(text[j] == end[j - e]);
            } else {
                assert(text[j] == dashes[j - e - 4]);
                assert(dashes.contains('\n'));
            }
        }
    }
    crate::find::lemma_first_unique(text, sep, e + 1, p);
    assert(text.skip(p + 1) =~= body);
}

/// A text that does not begin with a line of three dashes, or has no other such
/// line, has no front matter, and is all body.
pub proof fn law_no_front_matter(text: Seq<char>)
    requires
        !("---\n"@.is_prefix_of(text)) || find_spec(text, "\n---"@, 0) is None,
    ensures
        front_matter(text) == Map::<Seq<char>, Seq<char>>::empty(),
        body_text(text) == trim_text(text),
{
}

// --- what is a skill ---------------------------------------------------------

/// A directory is a skill exactly where it is not hidden, its `SKILL.md` can be
/// read, and that has a description that is not blank and a name that is not blank,
/// which is the directory's own where it is missing. The skill is shown with that
/// name, with at most 1024 characters of the description, and with its place.
pub proof fn law_skill_in(
    root: Seq<char>,
    scope: Seq<char>,
    dir: Seq<char>,
    t: Seq<char>,
)
    ensures
        skill_in(root, scope, dir, None) is None,
        ({
            let fm = front_matter(t);
            let hidden = dir.len() > 0 && dir[0] == '.';
            let description = if fm.dom().contains("description"@) {
                trim_text(fm["description"@])
            } else {
                Seq::<char>::empty()
            };
            let name = if fm.dom().contains("name"@) {
                trim_text(fm["name"@])
            } else {
                trim_text(dir)
            };
            &&& skill_in(root, scope, dir, Some(t)) is Some <==> !hidden && description.len() > 0
                && name.len() > 0
            &&& skill_in(root, scope, dir, Some(t)) matches Some(s) ==> {
                &&& s.name == name
                &&& s.id == "terminal:"@ + quoted(encode_utf8(name))
                &&& description.len() <= 1024 ==> s.description == description
                &&& description.len() > 1024 ==> s.description == description.take(1024)
                &&& s.location == joined(joined(root, dir), "SKILL.md"@)
                &&& s.scope == scope
                &&& s.source == "terminal"@
            }
        }),
{
    reveal_strlit(".");
    reveal_strlit("");
    let none = Seq::<char>::empty();
    crate::chars::law_trim_exact(none, none, none, CharSet::Space);
    assert(none + none + none =~= ""@);
    if dir.len() > 0 {
        assert(dir.take(1)[0] == dir[0]);
        if dir[0] == '.' {
            assert(dir.take(1) =~= "."@);
        }
    }
}

/// Directories are looked at one after the other.
pub proof fn law_skills_add_up(
    root: Seq<char>,
    scope: Seq<char>,
    x: Seq<Seq<char>>,
    dir: Seq<char>,
    found: SkillTexts,
)
    ensures
        skills_in(root, scope, seq![], found).len() == 0,
        skills_in(root, scope, x.push(dir), found) == match skill_in(root, scope, dir, found(dir)) {
            Some(s) => skills_in(root, scope, x, found).push(s),
            None => skills_in(root, scope, x, found),
        },
{
    assert(x.push(dir).drop_last() =~= x);
}

proof fn lemma_merged_has(skills: Seq<SkillView>, more: Seq<SkillView>, name: Seq<char>)
    ensures
        has_name(merged(skills, more), name) <==> has_name(skills, name) || has_name(more, name),
    decreases more.len(),
{
    if more.len() > 0 {
        let head = more.drop_last();
        let rest = merged(skills, head);
        let all = merged(skills, more);
        lemma_merged_has(skills, head, name);
        if has_name(rest, name) {
            let i = choose|i: int| 0 <= i < rest.len() && (#[trigger] rest[i]).name == name;
            assert(all[i].name == name);
        }
        if has_name(head, name) {
            let i = choose|i: int| 0 <= i < head.len() && (#[trigger] head[i]).name == name;
            assert(more[i].name == name);
        }
        if more.last().name == name {
            assert(more[more.len() - 1].name == name);
            if !has_name(rest, name) {
                assert(all[all.len() - 1].name == name);
            }
        }
        if has_name(more, name) && !has_name(head, name) {
            let i = choose|i: int| 0 <= i < more.len() && (#[trigger] more[i]).name == name;
            if i < head.len() {
                assert(head[i].name == name);
            }
        }
        if has_name(all, name) && !has_name(rest, name) {
            let i = choose|i: int| 0 <= i < all.len() && (#[trigger] all[i]).name == name;
            if i < rest.len() {
                assert(rest[i].name == name);
            }
        }
    }
}

/// The skills of several directories have every name that one of them has and no
/// other; and every skill is one of a directory's own.
pub proof fn law_all_names_kept(lists: Seq<Seq<SkillView>>, more: Seq<SkillView>, name: Seq<char>, i: int)
    ensures
        has_name(merged_all(lists.push(more)), name) <==> has_name(merged_all(lists), name)
            || has_name(more, name),
        merged_all(seq![]).len() == 0,
        0 <= i < merged_all(lists.push(more)).len() ==> merged_all(lists).contains(
            merged_all(lists.push(more))[i],
        ) || more.contains(merged_all(lists.push(more))[i]),
{
    assert(lists.push(more).drop_last() =~= lists);
    lemma_merged_has(merged_all(lists), more, name);
    if 0 <= i < merged_all(lists.push(more)).len() {
        lemma_merged_from(merged_all(lists), more, i);
    }
}

proof fn lemma_merged_from(skills: Seq<SkillView>, more: Seq<SkillView>, i: int)
    requires
        0 <= i < merged(skills, more).len(),
    ensures
        skills.contains(merged(skills, more)[i]) || more.contains(merged(skills, more)[i]),
    decreases more.len(),
{
    if more.len() == 0 {
        assert(skills[i] == merged(skills, more)[i]);
    } else {
        let head = more.drop_last();
        let rest = merged(skills, head);
        if i < rest.len() {
            lemma_merged_from(skills, head, i);
            assert(merged(skills, more)[i] == rest[i]);
            if head.contains(rest[i]) {
                let k = choose|k: int| 0 <= k < head.len() && head[k] == rest[i];
                assert(more[k] == rest[i]);
            }
        } else {
            assert(more[more.len() - 1] == merged(skills, more)[i]);
        }
    }
}

// --- what is a resource ------------------------------------------------------

/// The parts name a file of the tree below a directory: each is an entry of the one
/// before, none is passed over, all but the last are directories and no files, and
/// the last is a file.
pub open spec fn is_resource(tree: Tree, dir: Seq<char>, parts: Seq<Seq<char>>) -> bool
    decreases parts.len(),
{
    &&& parts.len() > 0
    &&& (tree.names)(dir) is Some
    &&& (tree.names)(dir)->0.contains(parts[0])
    &&& !(parts[0].len() > 0 && parts[0][0] == '.')
    &&& parts[0] != "SKILL.md"@
    &&& if parts.len() == 1 {
        (tree.is_file)(joined(dir, parts[0]))
    } else {
        &&& !(tree.is_file)(joined(dir, parts[0]))
        &&& (tree.is_dir)(joined(dir, parts[0]))
        &&& is_resource(tree, joined(dir, parts[0]), parts.drop_first())
    }
}

/// The text of a resource: the parts with slashes between them, behind what stands
/// in front.
pub open spec fn resource_text(prefix: Seq<char>, parts: Seq<Seq<char>>) -> Seq<char>
    decreases parts.len(),
{
    if parts.len() == 0 {
        prefix
    } else if prefix.len() == 0 {
        resource_text(parts[0], parts.drop_first())
    } else {
        resource_text(prefix + seq!['/'] + parts[0], parts.drop_first())
    }
}

/// The text is that of a resource that lies no deeper than `depth` levels.
pub open spec fn is_resource_text(
    tree: Tree,
    dir: Seq<char>,
    prefix: Seq<char>,
    depth: int,
    text: Seq<char>,
) -> bool {
    exists|parts: Seq<Seq<char>>|
        #![trigger is_resource(tree, dir, parts)]
        is_resource(tree, dir, parts) && parts.len() <= depth && text == resource_text(
            prefix,
            parts,
        )
}

proof fn lemma_resources_in(
    tree: Tree,
    dir: Seq<char>,
    prefix: Seq<char>,
    depth: nat,
    out: Seq<Seq<char>>,
)
    requires
        out.len() <= MAX_RESOURCE_FILES,
        depth <= MAX_RESOURCE_DEPTH,
    ensures
        resources_in(tree, dir, prefix, depth, out).len() <= MAX_RESOURCE_FILES,
        out.is_prefix_of(resources_in(tree, dir, prefix, depth, out)),
        forall|k: int|
            out.len() <= k < resources_in(tree, dir, prefix, depth, out).len() ==> is_resource_text(
                tree,
                dir,
                prefix,
                MAX_RESOURCE_DEPTH - depth,
                #[trigger] resources_in(tree, dir, prefix, depth, out)[k],
            ),
        resources_in(tree, dir, prefix, depth, out).len() < MAX_RESOURCE_FILES ==> forall|
            parts: Seq<Seq<char>>,
        | #[trigger]
            is_resource(tree, dir, parts) && parts.len() <= MAX_RESOURCE_DEPTH - depth
                ==> resources_in(tree, dir, prefix, depth, out).contains(
                resource_text(prefix, parts),
            ),
    decreases 2 * (MAX_RESOURCE_DEPTH - depth) + 1, 0nat,
{
    let r = resources_in(tree, dir, prefix, depth, out);
    if depth >= MAX_RESOURCE_DEPTH || out.len() >= MAX_RESOURCE_FILES {
        assert(out.take(out.len() as int) =~= out);
    } else {
        match (tree.names)(dir) {
            None => {
                assert(out.take(out.len() as int) =~= out);
            },
            Some(names) => {
                let sorted = sorted_texts(names);
                crate::order::law_sorted_texts(names);
                broadcast use vstd::seq_lib::group_to_multiset_ensures;

                assert forall|n: Seq<char>| #[trigger] sorted.contains(n) <==> names.contains(n) by {
                    assert(sorted.to_multiset().count(n) == names.to_multiset().count(n));
                    assert(sorted.contains(n) <==> sorted.to_multiset().count(n) > 0);
                    assert(names.contains(n) <==> names.to_multiset().count(n) > 0);
                }
                lemma_resources_of(tree, dir, prefix, sorted, 0, depth, out);
                assert(sorted.skip(0) =~= sorted);
                if r.len() < MAX_RESOURCE_FILES {
                    assert forall|parts: Seq<Seq<char>>| #[trigger]
                        is_resource(tree, dir, parts) && parts.len() <= MAX_RESOURCE_DEPTH
                            - depth implies r.contains(resource_text(prefix, parts)) by {
                        assert(sorted.contains(parts[0]));
                    }
                }
            },
        }
    }
}

proof fn lemma_resources_of(
    tree: Tree,
    dir: Seq<char>,
    prefix: Seq<char>,
    names: Seq<Seq<char>>,
    i: nat,
    depth: nat,
    out: Seq<Seq<char>>,
)
    requires
        out.len() <= MAX_RESOURCE_FILES,
        depth < MAX_RESOURCE_DEPTH,
        i <= names.len(),
        (tree.names)(dir) is Some,
        forall|n: Seq<char>| #[trigger] names.contains(n) ==> (tree.names)(dir)->0.contains(n),
    ensures
        resources_of(tree, dir, prefix, names, i, depth, out).len() <= MAX_RESOURCE_FILES,
        out.is_prefix_of(resources_of(tree, dir, prefix, names, i, depth, out)),
        forall|k: int|
            out.len() <= k < resources_of(tree, dir, prefix, names, i, depth, out).len()
                ==> is_resource_text(
                tree,
                dir,
                prefix,
                MAX_RESOURCE_DEPTH - depth,
                #[trigger] resources_of(tree, dir, prefix, names, i, depth, out)[k],
            ),
        resources_of(tree, dir, prefix, names, i, depth, out).len() < MAX_RESOURCE_FILES ==> forall|
            parts: Seq<Seq<char>>,
        | #[trigger]
            is_resource(tree, dir, parts) && parts.len() <= MAX_RESOURCE_DEPTH - depth
                && names.skip(i as int).contains(parts[0]) ==> resources_of(
                tree,
                dir,
                prefix,
                names,
                i,
                depth,
                out,
            ).contains(resource_text(prefix, parts)),
    decreases 2 * (MAX_RESOURCE_DEPTH - depth), names.len() - i,
{
    let r = resources_of(tree, dir, prefix, names, i, depth, out);
    let left = MAX_RESOURCE_DEPTH - depth;
    if i >= names.len() || out.len() >= MAX_RESOURCE_FILES {
        assert(out.take(out.len() as int) =~= out);
    } else {
        let name = names[i as int];
        let path = joined(dir, name);
        let rel = below(prefix, name);
        assert(names.contains(name));
        reveal_strlit("/");
        reveal_strlit(".");
        assert("/"@ =~= seq!['/']);
        assert("."@.is_prefix_of(name) <==> name.len() > 0 && name[0] == '.') by {
            if name.len() > 0 && name[0] == '.' {
                assert(name.take(1) =~= "."@);
            }
            if "."@.is_prefix_of(name) {
                assert(name.take(1)[0] == "."@[0]);
            }
        }
        let next = if is_passed_over(name) {
            out
        } else if (tree.is_file)(path) {
            out.push(rel)
        } else if (tree.is_dir)(path) {
            resources_in(tree, path, rel, depth + 1, out)
        } else {
            out
        };
        assert(out.take(out.len() as int) =~= out);
        let one = seq![name];
        assert(one.drop_first() =~= Seq::<Seq<char>>::empty());
        assert(resource_text(prefix, one) =~= rel) by {
            reveal_with_fuel(resource_text, 3);
        }
        if !is_passed_over(name) && (tree.is_file)(path) {
            assert(is_resource(tree, dir, one));
            assert(next.take(out.len() as int) =~= out);
            assert(is_resource_text(tree, dir, prefix, left, rel));
        } else if !is_passed_over(name) && (tree.is_dir)(path) {
            lemma_resources_in(tree, path, rel, depth + 1, out);
            assert forall|k: int| out.len() <= k < next.len() implies is_resource_text(
                tree,
                dir,
                prefix,
                left,
                #[trigger] next[k],
            ) by {
                assert(is_resource_text(tree, path, rel, left - 1, next[k]));
                let inner = choose|parts: Seq<Seq<char>>|
                    #![trigger is_resource(tree, path, parts)]
                    is_resource(tree, path, parts) && parts.len() <= left - 1 && next[k]
                        == resource_text(rel, parts);
                let outer = one + inner;
                assert(outer.drop_first() =~= inner);
                assert(outer[0] == name);
                assert(is_resource(tree, dir, outer));
                assert(resource_text(prefix, outer) == resource_text(rel, inner));
            }
        }
        lemma_resources_of(tree, dir, prefix, names, i + 1, depth, next);
        assert(next.is_prefix_of(r));
        assert(out.is_prefix_of(r)) by {
            assert(r.take(out.len() as int) =~= next.take(out.len() as int));
        }
        assert forall|k: int| out.len() <= k < r.len() implies is_resource_text(
            tree,
            dir,
            prefix,
            left,
            #[trigger] r[k],
        ) by {
            if k < next.len() {
                assert(r[k] == next[k]);
            }
        }
        if r.len() < MAX_RESOURCE_FILES {
            assert(next.len() <= r.len());
            assert forall|parts: Seq<Seq<char>>| #[trigger]
                is_resource(tree, dir, parts) && parts.len() <= left && names.skip(
                i as int,
            ).contains(parts[0]) implies r.contains(resource_text(prefix, parts)) by {
                if parts[0] == name {
                    let text = resource_text(prefix, parts);
                    assert(next.contains(text)) by {
                        if parts.len() == 1 {
                            assert(parts =~= one);
                            assert(next[out.len() as int] == rel);
                        } else {
                            assert(is_resource(tree, path, parts.drop_first()));
                            assert(resource_text(prefix, parts) == resource_text(
                                rel,
                                parts.drop_first(),
                            ));
                        }
                    }
                    let k = choose|k: int| 0 <= k < next.len() && next[k] == text;
                    assert(r[k] == text);
                } else {
                    let k = choose|k: int|
                        0 <= k < names.skip(i as int).len() && names.skip(i as int)[k] == parts[0];
                    assert(k > 0);
                    assert(names.skip(i as int + 1)[k - 1] == parts[0]);
                    assert(names.skip(i as int + 1).contains(parts[0]));
                }
            }
        }
    }
}

/// The resources of a skill are files below its directory, no deeper than four
/// levels and without hidden ones and `SKILL.md`, at most fifty; where there are
/// fewer, all of them are there.
pub proof fn law_resources(tree: Tree, dir: Seq<char>, k: int, parts: Seq<Seq<char>>)
    ensures
        resources_in(tree, dir, ""@, 0, seq![]).len() <= 50,
        0 <= k < resources_in(tree, dir, ""@, 0, seq![]).len() ==> is_resource_text(
            tree,
            dir,
            ""@,
            4,
            resources_in(tree, dir, ""@, 0, seq![])[k],
        ),
        is_resource(tree, dir, parts) && parts.len() <= 4 && resources_in(
            tree,
            dir,
            ""@,
            0,
            seq![],
        ).len() < 50 ==> resources_in(tree, dir, ""@, 0, seq![]).contains(
            resource_text(""@, parts),
        ),
{
    lemma_resources_in(tree, dir, ""@, 0, seq![]);
}

/// The directory of a skill is the one in which its `SKILL.md` lies.
pub proof fn law_skill_home(dir: Seq<char>)
    ensures
        crate::path::parts_of(skill_home(joined(dir, "SKILL.md"@))) == crate::path::parts_of(dir),
        crate::path::is_absolute_text(skill_home(joined(dir, "SKILL.md"@)))
            == crate::path::is_absolute_text(dir),
{
    reveal_strlit("SKILL.md");
    let name = "SKILL.md"@;
    assert(!name.contains('/'));
    assert(name.len() == 8);
    crate::path::law_name_and_parent(dir, name);
}

/// A request for a skill is answered with the first of its name, and there is one
/// exactly where the name is there.
pub proof fn law_first_named(front: Seq<SkillView>, s: SkillView, back: Seq<SkillView>)
    ensures
        has_name(front + seq![s] + back, s.name),
        !has_name(front, s.name) ==> forall|i: int|
            first_named(front + seq![s] + back, s.name, i) <==> i == front.len(),
        !has_name(seq![], s.name),
{
    let all = front + seq![s] + back;
    assert(all[front.len() as int] == s);
    if !has_name(front, s.name) {
        assert forall|i: int| first_named(all, s.name, i) <==> i == front.len() by {
            if i < front.len() && first_named(all, s.name, i) {
                assert(front[i] == all[i]);
            }
            assert forall|k: int| 0 <= k < front.len() implies (#[trigger] all[k]).name
                != s.name by {
                assert(front[k] == all[k]);
            }
        }
    }
}

} // verus!
