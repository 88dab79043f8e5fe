use open_websandbox::skills::{
    choose_skill, default_skill_roots, list_skill_resources, list_skills_in_dir, parse_frontmatter,
    quote_name, read_skill, scan_skills, skill_folder, SkillSummary, GLOBAL_SKILL_DIRS,
};

fn texts(v: &[&str]) -> Vec<String> {
    v.iter().map(|s| s.to_string()).collect()
}

#[test]
fn frontmatter_plain_and_block_values() {
    let text =
        "---\nname: my-skill\ndescription: >\n  folded\n  lines\n# comment\n---\n\nBody text.\n";
    let (fm, body) = parse_frontmatter(text);
    assert_eq!(fm.get("name").map(String::as_str), Some("my-skill"));
    assert_eq!(
        fm.get("description").map(String::as_str),
        Some("folded lines")
    );
    assert_eq!(body, "Body text.");
}

#[test]
fn frontmatter_absent_yields_nothing() {
    let (fm, body) = parse_frontmatter("just a body");
    assert!(fm.is_empty());
    assert_eq!(body, "just a body");
}

#[test]
fn quote_matches_python_url_quote_safe_empty() {
    assert_eq!(quote_name("my skill_v1.0-x~"), "my%20skill_v1.0-x~");
    assert_eq!(quote_name("\u{e4}"), "%C3%A4");
}

fn read(path: &str) -> Option<String> {
    let text = match path {
        "/home/me/.agents/skills/deploy/SKILL.md" => {
            "---\nname: deploy\nstate: >\n  folded value\nstate2: |\n  literal\n  lines\ndescription: Deploys things\n---\n\nDo the deploy.\n"
        }
        "/home/me/.cptr/skills/deploy/SKILL.md" => {
            "---\nname: deploy\ndescription: Imposter\n---\n"
        }
        "/home/me/.agents/skills/silent/SKILL.md" => "---\nname: silent\n---\n",
        "/home/me/.agents/skills/.hidden/SKILL.md" => {
            "---\nname: hidden\ndescription: x\n---\n"
        }
        "/home/me/.codex/skills/greet/SKILL.md" => {
            "---\nname: greet\ndescription: Says hi\n---\n\nGreeting body.\n"
        }
        _ => return None,
    };
    Some(text.to_string())
}

fn scan() -> Vec<SkillSummary> {
    let lists: Vec<Vec<SkillSummary>> = default_skill_roots("/home/me")
        .iter()
        .map(|root| {
            let names = match root.as_str() {
                "/home/me/.agents/skills" => texts(&["silent", ".hidden", "deploy"]),
                "/home/me/.cptr/skills" => texts(&["deploy"]),
                "/home/me/.codex/skills" => texts(&["greet", "empty"]),
                _ => vec![],
            };
            list_skills_in_dir(root, "global", &names, &|entry: &str| {
                read(&format!("{root}/{entry}/SKILL.md"))
            })
        })
        .collect();
    scan_skills(&lists)
}

#[test]
fn skills_discovery_scan_and_dedup() {
    let skills: Vec<SkillSummary> = scan()
        .into_iter()
        .filter(|s| s.name != "greet")
        .collect();
    assert_eq!(skills.len(), 1, "one skill after dedup + skips: {skills:?}");
    let skill = &skills[0];
    assert_eq!(skill.name, "deploy");
    assert_eq!(skill.description, "Deploys things");
    assert_eq!(skill.id, "terminal:deploy");
    assert_eq!(skill.scope, "global");
    assert_eq!(skill.source, "terminal");
    assert!(skill.location.ends_with(".agents/skills/deploy/SKILL.md"));
}

#[test]
fn skill_read_both_shapes() {
    let skills = scan();
    let at = choose_skill(&skills, "greet").unwrap();
    assert_eq!(
        skill_folder(&skills[at].location),
        "/home/me/.codex/skills/greet"
    );
    let names = |p: &str| match p {
        "/s" => Some(texts(&["scripts", "notes.txt", "SKILL.md", ".secret"])),
        "/s/scripts" => Some(texts(&["run.sh"])),
        _ => None,
    };
    let is_dir = |p: &str| p == "/s/scripts";
    let is_file = |p: &str| p != "/s/scripts";
    let mut resources = list_skill_resources("/s", &names, &is_file, &is_dir);
    resources.sort();
    assert_eq!(resources, texts(&["notes.txt", "scripts/run.sh"]));
    let text = read(&skills[at].location).unwrap();
    let body = read_skill(&skills[at], Ok(&text), resources).unwrap();
    assert_eq!(body.content, "Greeting body.");
    assert_eq!(body.resources.len(), 2);
    assert_eq!(body.id, "terminal:greet");
    // Unknown name.
    let err = choose_skill(&skills, "nope").unwrap_err();
    assert_eq!(err.status(), 404);
    assert_eq!(err.body().detail, "Skill not found");
    assert!(read_skill(&skills[at], Err("gone"), vec![]).is_err());
}

#[test]
fn default_roots_stand_below_the_home_directory() {
    assert_eq!(
        default_skill_roots("/home/me"),
        texts(&["/home/me/.agents/skills", "/home/me/.cptr/skills", "/home/me/.codex/skills"])
    );
    let dirs: Vec<String> = GLOBAL_SKILL_DIRS.iter().map(|d| format!("/h/{d}")).collect();
    assert_eq!(default_skill_roots("/h"), dirs);
}
