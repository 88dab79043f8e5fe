//! The prompt that tells a model about the machine it works on.

use vstd::prelude::*;

use crate::chars::{is_ascii_alnum, is_space, trim, trim_text, words, words_of};
use crate::error::{not_found, ApiError};
use crate::outside::{from_utf8_lossy, utf8_lossy};
use crate::text::{concat2, concat3, concat_strs, concat_texts, lines, lines_of, opt_text, str_eq, texts};

verus! {

/// The paragraph on the use of tools.
pub open spec fn tool_text() -> Seq<char> {
    "Use your tools to directly interact with the system \u{2014} run commands, read and write files, and search the filesystem. Prefer verifying the current state before making changes. When running commands, check the output to confirm success. If a command produces no output, that typically means it succeeded."@
}

/// The paragraph on the use of tools.
fn tool_paragraph() -> (r: &'static str)
    ensures
        r@ == tool_text(),
{
    "Use your tools to directly interact with the system \u{2014} run commands, read and write files, and search the filesystem. Prefer verifying the current state before making changes. When running commands, check the output to confirm success. If a command produces no output, that typically means it succeeded."
}

/// What is known about the machine.
#[derive(Debug)]
pub struct Grounding {
    /// The operating system.
    pub os: String,
    /// The version of the kernel.
    pub kernel: String,
    /// The architecture.
    pub arch: String,
    /// The name of the host.
    pub hostname: String,
    /// The user.
    pub user: String,
    /// The shell.
    pub shell: String,
    /// The version of Python, where there is one.
    pub python_version: Option<String>,
    /// The home directory.
    pub home: String,
}

/// What is known about the machine.
pub struct GroundingView {
    /// The operating system.
    pub os: Seq<char>,
    /// The version of the kernel.
    pub kernel: Seq<char>,
    /// The architecture.
    pub arch: Seq<char>,
    /// The name of the host.
    pub hostname: Seq<char>,
    /// The user.
    pub user: Seq<char>,
    /// The shell.
    pub shell: Seq<char>,
    /// The version of Python, where there is one.
    pub python_version: Option<Seq<char>>,
    /// The home directory.
    pub home: Seq<char>,
}

impl View for Grounding {
    type V = GroundingView;

    open spec fn view(&self) -> GroundingView {
        GroundingView {
            os: self.os@,
            kernel: self.kernel@,
            arch: self.arch@,
            hostname: self.hostname@,
            user: self.user@,
            shell: self.shell@,
            python_version: opt_text(self.python_version),
            home: self.home@,
        }
    }
}

/// What the kernel says of itself.
#[derive(Debug)]
pub struct Uname {
    /// The operating system.
    pub sysname: String,
    /// The version of the kernel.
    pub release: String,
    /// The architecture.
    pub machine: String,
    /// The name of the host.
    pub nodename: String,
}

/// A copy of a text, or another text where there is none.
fn text_or(o: Option<&str>, other: &str) -> (r: String)
    ensures
        r@ == match o {
            Some(t) => t@,
            None => other@,
        },
{
    match o {
        Some(t) => t.to_owned(),
        None => other.to_owned(),
    }
}

/// What is known about the machine from the kernel, the environment and the
/// user database. What the kernel does not say is empty, a missing user is
/// `unknown`, and a missing home is the user's directory, or the root.
pub fn grounding_from_env(
    uname: Option<&Uname>,
    user: Option<&str>,
    home: Option<&str>,
    passwd_home: Option<&str>,
    shell: &str,
) -> (r: Grounding)
    ensures
        r@ == (GroundingView {
            os: match uname {
                Some(u) => u.sysname@,
                None => ""@,
            },
            kernel: match uname {
                Some(u) => u.release@,
                None => ""@,
            },
            arch: match uname {
                Some(u) => u.machine@,
                None => ""@,
            },
            hostname: match uname {
                Some(u) => u.nodename@,
                None => ""@,
            },
            user: match user {
                Some(t) => t@,
                None => "unknown"@,
            },
            shell: shell@,
            python_version: None,
            home: match home {
                Some(t) => t@,
                None => match passwd_home {
                    Some(t) => t@,
                    None => "/"@,
                },
            },
        }),
{
    let (os, kernel, arch, hostname) = match uname {
        Some(u) => (u.sysname.clone(), u.release.clone(), u.machine.clone(), u.nodename.clone()),
        None => ("".to_owned(), "".to_owned(), "".to_owned(), "".to_owned()),
    };
    let user_text = text_or(user, "unknown");
    let home_text = match home {
        Some(t) => t.to_owned(),
        None => text_or(passwd_home, "/"),
    };
    Grounding {
        os,
        kernel,
        arch,
        hostname,
        user: user_text,
        shell: shell.to_owned(),
        python_version: None,
        home: home_text,
    }
}

// --- the version of Python ---------------------------------------------------

/// What a program printed.
#[derive(Debug)]
pub struct ProbeOutput {
    /// Whether it ended well.
    pub success: bool,
    /// Its standard output.
    pub stdout: Vec<u8>,
    /// Its standard error.
    pub stderr: Vec<u8>,
}

/// What a program printed.
pub struct ProbeView {
    /// Whether it ended well.
    pub success: bool,
    /// Its standard output.
    pub stdout: Seq<u8>,
    /// Its standard error.
    pub stderr: Seq<u8>,
}

impl View for ProbeOutput {
    type V = ProbeView;

    open spec fn view(&self) -> ProbeView {
        ProbeView { success: self.success, stdout: self.stdout@, stderr: self.stderr@ }
    }
}

/// The version in what a program printed: the last word of the first line of its
/// output, or of its errors where the output is blank.
pub open spec fn version_in(p: ProbeView) -> Option<Seq<char>> {
    let out = utf8_lossy(p.stdout);
    let text = if trim_text(out).len() == 0 {
        utf8_lossy(p.stderr)
    } else {
        out
    };
    let rows = lines_of(text);
    if !p.success || rows.len() == 0 || words_of(rows[0]).len() == 0 {
        None
    } else {
        Some(words_of(rows[0]).last())
    }
}

/// The version in what a program printed.
pub fn version_from(p: &ProbeOutput) -> (r: Option<String>)
    ensures
        opt_text(r) == version_in(p@),
{
    if !p.success {
        return None;
    }
    let out = from_utf8_lossy(p.stdout.as_slice());
    let bare = trim(out.as_str());
    let text = if bare.as_str().is_empty() {
        from_utf8_lossy(p.stderr.as_slice())
    } else {
        out
    };
    let rows = lines(text.as_str());
    assert(texts(rows@).len() == rows@.len());
    if rows.len() == 0 {
        return None;
    }
    assert(texts(rows@)[0] == rows@[0]@);
    let ws = words(rows[0].as_str());
    assert(texts(ws@).len() == ws@.len());
    if ws.len() == 0 {
        return None;
    }
    assert(texts(ws@).last() == ws@[ws@.len() - 1]@);
    Some(ws[ws.len() - 1].clone())
}

/// What programs print when they are asked for their version.
pub type Programs = spec_fn(Seq<char>) -> Option<ProbeView>;

/// The closure runs programs as `programs` says.
pub open spec fn runs_as<F: Fn(&str) -> Option<ProbeOutput>>(run: F, programs: Programs) -> bool {
    forall|p: &str, o: Option<ProbeOutput>| #[trigger]
        call_ensures(run, (p,), o) ==> match o {
            Some(out) => programs(p@) == Some(out@),
            None => programs(p@) is None,
        }
}

/// The version that a program gives, if it runs at all.
pub open spec fn version_of(programs: Programs, name: Seq<char>) -> Option<Seq<char>> {
    match programs(name) {
        Some(p) => version_in(p),
        None => None,
    }
}

/// The version of Python: what `python3` says, or else `python`.
pub fn probe_python_version<F: Fn(&str) -> Option<ProbeOutput>>(run: &F) -> (r: Option<String>)
    requires
        forall|p: &str| call_requires(*run, (p,)),
    ensures
        forall|programs: Programs| #[trigger]
            runs_as(*run, programs) ==> opt_text(r) == match version_of(programs, "python3"@) {
                Some(v) => Some(v),
                None => version_of(programs, "python"@),
            },
{
    if let Some(p) = run("python3") {
        if let Some(v) = version_from(&p) {
            return Some(v);
        }
    }
    match run("python") {
        Some(p) => version_from(&p),
        None => None,
    }
}

// --- the prompt --------------------------------------------------------------

/// The sentences about the machine.
pub open spec fn machine_text(g: GroundingView) -> Seq<char> {
    let first = concat_texts(
        seq![
            "You have access to a computer running "@,
            g.os,
            " "@,
            g.kernel,
            " ("@,
            g.arch,
            ") on host \""@,
            g.hostname,
            "\" as user '"@,
            g.user,
            "' with "@,
            g.shell,
            "."@,
        ],
    );
    match g.python_version {
        Some(v) => first + (" Python "@ + v + " is available."@),
        None => first,
    }
}

/// The prompt where the operator has none of their own: the machine, the tools,
/// and what the operator adds.
pub open spec fn default_prompt(g: GroundingView, info: Seq<char>) -> Seq<char> {
    let body = machine_text(g) + "\n\n"@ + tool_text();
    if info.len() == 0 {
        body
    } else {
        body + "\n\n"@ + info
    }
}

/// The prompt where the operator has none of their own.
pub fn render_default_prompt(g: &Grounding, info: &str) -> (r: String)
    ensures
        r@ == default_prompt(g@, info@),
{
    let parts: [&str; 13] = [
        "You have access to a computer running ",
        g.os.as_str(),
        " ",
        g.kernel.as_str(),
        " (",
        g.arch.as_str(),
        ") on host \"",
        g.hostname.as_str(),
        "\" as user '",
        g.user.as_str(),
        "' with ",
        g.shell.as_str(),
        ".",
    ];
    let first = concat_strs(parts.as_slice());
    assert(parts@.map_values(|s: &str| s@) =~= seq![
        "You have access to a computer running "@,
        g.os@,
        " "@,
        g.kernel@,
        " ("@,
        g.arch@,
        ") on host \""@,
        g.hostname@,
        "\" as user '"@,
        g.user@,
        "' with "@,
        g.shell@,
        "."@,
    ]);
    let machine = match &g.python_version {
        Some(v) => {
            let python = concat3(" Python ", v.as_str(), " is available.");
            concat2(first.as_str(), python.as_str())
        },
        None => first,
    };
    let body = concat3(machine.as_str(), "\n\n", tool_paragraph());
    if info.is_empty() {
        body
    } else {
        concat3(body.as_str(), "\n\n", info)
    }
}

// --- templates ---------------------------------------------------------------

/// The regular expression of a slot in a template.
pub open spec fn slot_pattern() -> Seq<char> {
    r"\{\{\s*([a-zA-Z0-9_]+)\s*\}\}"@
}

/// The end of the white space that starts at `i`.
pub open spec fn skip_spaces(s: Seq<char>, i: int) -> int
    decreases s.len() - i,
{
    if 0 <= i < s.len() && is_space(s[i]) {
        skip_spaces(s, i + 1)
    } else {
        i
    }
}

/// The end of the letters, digits and underscores that start at `i`.
pub open spec fn skip_word(s: Seq<char>, i: int) -> int
    decreases s.len() - i,
{
    if 0 <= i < s.len() && (is_ascii_alnum(s[i]) || s[i] == '_') {
        skip_word(s, i + 1)
    } else {
        i
    }
}

/// The slot that starts at `i`, if there is one: where its key starts and ends,
/// and where it ends itself. A slot is a key between two pairs of braces, with
/// or without white space.
pub open spec fn slot_at(s: Seq<char>, i: int) -> Option<(int, int, int)> {
    let a = skip_spaces(s, i + 2);
    let b = skip_word(s, a);
    let c = skip_spaces(s, b);
    if i + 2 <= s.len() && s[i] == '{' && s[i + 1] == '{' && a < b && c + 2 <= s.len() && s[c]
        == '}' && s[c + 1] == '}' {
        Some((a, b, c + 2))
    } else {
        None
    }
}

proof fn lemma_skips(s: Seq<char>, i: int)
    requires
        0 <= i,
    ensures
        skip_spaces(s, i) >= i,
        skip_word(s, i) >= i,
    decreases s.len() - i,
{
    if i < s.len() {
        lemma_skips(s, i + 1);
    }
}

/// What stands for a key; a key that is not known stands for the slot itself.
pub open spec fn slot_text(key: Seq<char>, whole: Seq<char>, g: GroundingView) -> Seq<char> {
    if key == "os"@ {
        g.os
    } else if key == "kernel"@ {
        g.kernel
    } else if key == "arch"@ {
        g.arch
    } else if key == "hostname"@ {
        g.hostname
    } else if key == "user"@ {
        g.user
    } else if key == "shell"@ {
        g.shell
    } else if key == "python_version"@ {
        match g.python_version {
            Some(v) => v,
            None => "unknown"@,
        }
    } else if key == "home"@ {
        g.home
    } else {
        whole
    }
}

/// A template from position `i` on with its slots filled, from left to right.
pub open spec fn expanded_from(s: Seq<char>, i: int, g: GroundingView) -> Seq<char>
    decreases s.len() - i,
    when 0 <= i
    via expanded_decreases
{
    if i >= s.len() {
        seq![]
    } else {
        match slot_at(s, i) {
            Some(slot) => slot_text(s.subrange(slot.0, slot.1), s.subrange(i, slot.2), g)
                + expanded_from(s, slot.2, g),
            None => seq![s[i]] + expanded_from(s, i + 1, g),
        }
    }
}

#[via_fn]
proof fn expanded_decreases(s: Seq<char>, i: int, g: GroundingView) {
    lemma_skips(s, i + 2);
    lemma_skips(s, skip_spaces(s, i + 2));
    lemma_skips(s, skip_word(s, skip_spaces(s, i + 2)));
}

/// What stands for a key.
pub fn slot_value(key: &str, whole: &str, g: &Grounding) -> (r: String)
    ensures
        r@ == slot_text(key@, whole@, g@),
{
    if str_eq(key, "os") {
        g.os.clone()
    } else if str_eq(key, "kernel") {
        g.kernel.clone()
    } else if str_eq(key, "arch") {
        g.arch.clone()
    } else if str_eq(key, "hostname") {
        g.hostname.clone()
    } else if str_eq(key, "user") {
        g.user.clone()
    } else if str_eq(key, "shell") {
        g.shell.clone()
    } else if str_eq(key, "python_version") {
        match &g.python_version {
            Some(v) => v.clone(),
            None => "unknown".to_owned(),
        }
    } else if str_eq(key, "home") {
        g.home.clone()
    } else {
        whole.to_owned()
    }
}

/// `regex::Regex::replace_all` with the pattern of a slot: every slot, taken
/// from left to right, makes way for what stands for its key, and all other text
/// stays. What the pattern matches is read off the syntax of the crate: two
/// opening braces, white space, one or more letters, digits and underscores of
/// ASCII, white space, two closing braces.
#[verifier::external_body]
fn replace_slots(pattern: &str, template: &str, g: &Grounding) -> (r: String)
    requires
        pattern@ == slot_pattern(),
    ensures
        r@ == expanded_from(template@, 0, g@),
{
    let re = regex::Regex::new(pattern).unwrap();
    re.replace_all(template, |c: &regex::Captures<'_>| slot_value(&c[1], &c[0], g)).into_owned()
}

/// A template with its slots filled.
pub fn expand_template(template: &str, g: &Grounding) -> (r: String)
    ensures
        r@ == expanded_from(template@, 0, g@),
{
    replace_slots(r"\{\{\s*([a-zA-Z0-9_]+)\s*\}\}", template, g)
}

/// A text without an opening brace has no slots, and stays as it is.
pub proof fn law_plain_template(s: Seq<char>, i: int, g: GroundingView)
    requires
        0 <= i <= s.len(),
        !s.contains('{'),
    ensures
        expanded_from(s, i, g) == s.skip(i),
    decreases s.len() - i,
{
    if i < s.len() {
        assert(s[i] != '{');
        law_plain_template(s, i + 1, g);
        assert(seq![s[i]] + s.skip(i + 1) =~= s.skip(i));
    } else {
        assert(s.skip(i) =~= seq![]);
    }
}

/// The prompt: the operator's template, filled, where there is one, else the
/// default.
pub fn system_prompt(template: &str, info: &str, g: &Grounding) -> (r: String)
    ensures
        r@ == if template@.len() > 0 {
            expanded_from(template@, 0, g@)
        } else {
            default_prompt(g@, info@)
        },
{
    if template.is_empty() {
        render_default_prompt(g, info)
    } else {
        expand_template(template, g)
    }
}

/// What the operator says about the environment; nothing is as if there were no
/// such page.
pub fn get_info(info: &str) -> (r: Result<String, ApiError>)
    ensures
        match r {
            Ok(t) => info@.len() > 0 && t@ == info@,
            Err(e) => info@.len() == 0 && e@ == not_found("Not Found"@),
        },
{
    if info.is_empty() {
        Err(ApiError::NotFound("Not Found".to_owned()))
    } else {
        Ok(info.to_owned())
    }
}

// --- what the prompt says ----------------------------------------------------

/// The prompt names the system, the kernel, the architecture, the host, the user and
/// the shell, each in its place, and Python where there is one; then come the
/// paragraph on tools and what the operator adds, if anything.
pub proof fn law_default_prompt(g: GroundingView, info: Seq<char>)
    ensures
        machine_text(g) == "You have access to a computer running "@ + g.os + " "@ + g.kernel + " ("@
            + g.arch + ") on host \""@ + g.hostname + "\" as user '"@ + g.user + "' with "@ + g.shell
            + "."@ + match g.python_version {
            Some(v) => " Python "@ + v + " is available."@,
            None => Seq::<char>::empty(),
        },
        info.len() == 0 ==> default_prompt(g, info) == machine_text(g) + "\n\n"@ + tool_text(),
        info.len() > 0 ==> default_prompt(g, info) == machine_text(g) + "\n\n"@ + tool_text()
            + "\n\n"@ + info,
{
    let parts = seq![
        "You have access to a computer running "@,
        g.os,
        " "@,
        g.kernel,
        " ("@,
        g.arch,
        ") on host \""@,
        g.hostname,
        "\" as user '"@,
        g.user,
        "' with "@,
        g.shell,
        "."@,
    ];
    lemma_concat_thirteen(parts);
    let first = concat_texts(parts);
    let none = Seq::<char>::empty();
    assert(first + none =~= first);
}

proof fn lemma_concat_thirteen(p: Seq<Seq<char>>)
    requires
        p.len() == 13,
    ensures
        concat_texts(p) == p[0] + p[1] + p[2] + p[3] + p[4] + p[5] + p[6] + p[7] + p[8] + p[9]
            + p[10] + p[11] + p[12],
{
    let n = Seq::<Seq<char>>::empty();
    let p1 = n.push(p[0]);
    let p2 = p1.push(p[1]);
    let p3 = p2.push(p[2]);
    let p4 = p3.push(p[3]);
    let p5 = p4.push(p[4]);
    let p6 = p5.push(p[5]);
    let p7 = p6.push(p[6]);
    let p8 = p7.push(p[7]);
    let p9 = p8.push(p[8]);
    let p10 = p9.push(p[9]);
    let p11 = p10.push(p[10]);
    let p12 = p11.push(p[11]);
    crate::text::lemma_concat_push(n, p[0]);
    crate::text::lemma_concat_push(p1, p[1]);
    crate::text::lemma_concat_push(p2, p[2]);
    crate::text::lemma_concat_push(p3, p[3]);
    crate::text::lemma_concat_push(p4, p[4]);
    crate::text::lemma_concat_push(p5, p[5]);
    crate::text::lemma_concat_push(p6, p[6]);
    crate::text::lemma_concat_push(p7, p[7]);
    crate::text::lemma_concat_push(p8, p[8]);
    crate::text::lemma_concat_push(p9, p[9]);
    crate::text::lemma_concat_push(p10, p[10]);
    crate::text::lemma_concat_push(p11, p[11]);
    crate::text::lemma_concat_push(p12, p[12]);
    assert(p12.push(p[12]) =~= p);
    assert(concat_texts(n) + p[0] =~= p[0]);
}

/// The version of a program is the last word of the first line that it printed, of
/// its errors where its output is blank; a program that failed, or printed no word
/// there, has none.
pub proof fn law_version(p: ProbeView)
    ensures
        !p.success ==> version_in(p) is None,
        ({
            let text = if trim_text(utf8_lossy(p.stdout)).len() > 0 {
                utf8_lossy(p.stdout)
            } else {
                utf8_lossy(p.stderr)
            };
            &&& p.success && lines_of(text).len() > 0 && words_of(lines_of(text)[0]).len() > 0
                ==> version_in(p) == Some(words_of(lines_of(text)[0]).last())
            &&& lines_of(text).len() == 0 || words_of(lines_of(text)[0]).len() == 0 ==> version_in(
                p,
            ) is None
        }),
{
}

proof fn lemma_skip_shift(s: Seq<char>, k: int, i: int)
    requires
        0 <= k <= s.len(),
        0 <= i,
    ensures
        skip_spaces(s.skip(k), i) + k == skip_spaces(s, k + i),
        skip_word(s.skip(k), i) + k == skip_word(s, k + i),
    decreases s.len() - k - i,
{
    if i < s.len() - k {
        lemma_skip_shift(s, k, i + 1);
    }
}

proof fn lemma_expanded_shift(s: Seq<char>, k: int, i: int, g: GroundingView)
    requires
        0 <= k <= s.len(),
        0 <= i,
    ensures
        expanded_from(s.skip(k), i, g) == expanded_from(s, k + i, g),
    decreases s.len() - k - i,
{
    let t = s.skip(k);
    if i < t.len() {
        lemma_skip_shift(s, k, i + 2);
        let a = skip_spaces(t, i + 2);
        lemma_skips(t, i + 2);
        lemma_skip_shift(s, k, a);
        lemma_skips(t, a);
        let b = skip_word(t, a);
        lemma_skip_shift(s, k, b);
        lemma_skips(t, b);
        match slot_at(t, i) {
            Some(slot) => {
                assert(slot_at(s, k + i) == Some((slot.0 + k, slot.1 + k, slot.2 + k)));
                assert(t.subrange(slot.0, slot.1) =~= s.subrange(slot.0 + k, slot.1 + k));
                assert(t.subrange(i, slot.2) =~= s.subrange(k + i, slot.2 + k));
                lemma_expanded_shift(s, k, slot.2, g);
            },
            None => {
                assert(slot_at(s, k + i) is None);
                lemma_expanded_shift(s, k, i + 1, g);
            },
        }
    }
}

/// Text in front of the first opening brace stays as it is.
pub proof fn law_text_stays(plain: Seq<char>, rest: Seq<char>, g: GroundingView)
    requires
        !plain.contains('{'),
    ensures
        expanded_from(plain + rest, 0, g) == plain + expanded_from(rest, 0, g),
    decreases plain.len(),
{
    let s = plain + rest;
    if plain.len() == 0 {
        assert(s =~= rest);
        assert(plain + expanded_from(rest, 0, g) =~= expanded_from(rest, 0, g));
    } else {
        let more = plain.drop_first();
        assert(s[0] == plain[0]);
        assert(plain[0] != '{') by {
            if plain[0] == '{' {
                assert(plain.contains('{'));
            }
        }
        assert(!more.contains('{')) by {
            if more.contains('{') {
                let i = choose|i: int| 0 <= i < more.len() && more[i] == '{';
                assert(plain[i + 1] == '{');
            }
        }
        law_text_stays(more, rest, g);
        lemma_expanded_shift(s, 1, 0, g);
        assert(s.skip(1) =~= more + rest);
        assert(seq![plain[0]] + (more + expanded_from(rest, 0, g)) =~= plain + expanded_from(
            rest,
            0,
            g,
        ));
    }
}

proof fn lemma_spaces_end(s: Seq<char>, i: int, j: int)
    requires
        0 <= i <= j < s.len(),
        forall|k: int| i <= k < j ==> is_space(#[trigger] s[k]),
        !is_space(s[j]),
    ensures
        skip_spaces(s, i) == j,
    decreases j - i,
{
    if i < j {
        assert(is_space(s[i]));
        lemma_spaces_end(s, i + 1, j);
    }
}

proof fn lemma_word_end(s: Seq<char>, i: int, j: int)
    requires
        0 <= i <= j < s.len(),
        forall|k: int| i <= k < j ==> is_ascii_alnum(#[trigger] s[k]) || s[k] == '_',
        !is_ascii_alnum(s[j]) && s[j] != '_',
    ensures
        skip_word(s, i) == j,
    decreases j - i,
{
    if i < j {
        assert(is_ascii_alnum(s[i]) || s[i] == '_');
        lemma_word_end(s, i + 1, j);
    }
}

/// A key between two pairs of braces, with or without white space around it, makes
/// way for what stands for it, and the text behind it is expanded in turn.
pub proof fn law_slot_filled(
    x: Seq<char>,
    key: Seq<char>,
    y: Seq<char>,
    rest: Seq<char>,
    g: GroundingView,
)
    requires
        forall|i: int| 0 <= i < x.len() ==> is_space(#[trigger] x[i]),
        forall|i: int| 0 <= i < y.len() ==> is_space(#[trigger] y[i]),
        key.len() > 0,
        forall|i: int| 0 <= i < key.len() ==> is_ascii_alnum(#[trigger] key[i]) || key[i] == '_',
    ensures
        expanded_from(seq!['{', '{'] + x + key + y + seq!['}', '}'] + rest, 0, g) == slot_text(
            key,
            seq!['{', '{'] + x + key + y + seq!['}', '}'],
            g,
        ) + expanded_from(rest, 0, g),
{
    let whole = seq!['{', '{'] + x + key + y + seq!['}', '}'];
    let s = whole + rest;
    assert(s =~= seq!['{', '{'] + x + key + y + seq!['}', '}'] + rest);
    let a = (2 + x.len()) as int;
    let b = a + key.len();
    let c = b + y.len();
    assert forall|k: int| 2 <= k < a implies is_space(#[trigger] s[k]) by {
        assert(s[k] == x[k - 2]);
    }
    assert forall|k: int| a <= k < b implies is_ascii_alnum(#[trigger] s[k]) || s[k] == '_' by {
        assert(s[k] == key[k - a]);
    }
    assert forall|k: int| b <= k < c implies is_space(#[trigger] s[k]) by {
        assert(s[k] == y[k - b]);
    }
    assert(s[a] == key[0]);
    assert(is_ascii_alnum(key[0]) || key[0] == '_');
    assert(s[c] == '}' && s[c + 1] == '}');
    if b < c {
        assert(s[b] == y[0]);
        assert(is_space(s[b]));
    }
    lemma_spaces_end(s, 2, a);
    lemma_word_end(s, a, b);
    lemma_spaces_end(s, b, c);
    assert(slot_at(s, 0) == Some((a, b, c + 2)));
    assert(s.subrange(a, b) =~= key);
    assert(s.subrange(0, c + 2) =~= whole);
    lemma_expanded_shift(s, c + 2, 0, g);
    assert(s.skip(c + 2) =~= rest);
}

/// The known keys stand for what is known about the machine, each for its own; a
/// missing Python is `unknown`, and any other key leaves the slot as it is.
pub proof fn law_slot_values(key: Seq<char>, whole: Seq<char>, g: GroundingView)
    ensures
        slot_text("os"@, whole, g) == g.os,
        slot_text("kernel"@, whole, g) == g.kernel,
        slot_text("arch"@, whole, g) == g.arch,
        slot_text("hostname"@, whole, g) == g.hostname,
        slot_text("user"@, whole, g) == g.user,
        slot_text("shell"@, whole, g) == g.shell,
        slot_text("home"@, whole, g) == g.home,
        g.python_version matches Some(v) ==> slot_text("python_version"@, whole, g) == v,
        g.python_version is None ==> slot_text("python_version"@, whole, g) == "unknown"@,
        key != "os"@ && key != "kernel"@ && key != "arch"@ && key != "hostname"@ && key != "user"@
            && key != "shell"@ && key != "home"@ && key != "python_version"@ ==> slot_text(
            key,
            whole,
            g,
        ) == whole,
{
    reveal_strlit("os");
    reveal_strlit("kernel");
    reveal_strlit("arch");
    reveal_strlit("hostname");
    reveal_strlit("user");
    reveal_strlit("shell");
    reveal_strlit("home");
    reveal_strlit("python_version");
    assert("os"@.len() == 2 && "kernel"@.len() == 6 && "arch"@.len() == 4);
    assert("hostname"@.len() == 8 && "user"@.len() == 4 && "shell"@.len() == 5);
    assert("home"@.len() == 4 && "python_version"@.len() == 14);
    assert("arch"@[0] != "user"@[0]);
    assert("arch"@[0] != "home"@[0]);
    assert("user"@[0] != "home"@[0]);
}

} // verus!
