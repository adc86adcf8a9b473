use tiny_claw::skills::{default_enabled, folder_name, Frontmatter, Skill, SkillError, SkillManager, SkillMeta};

fn skill(name: &str, desc: Option<&str>, enabled: bool, content: &str) -> Skill {
    Skill {
        name: name.to_string(),
        description: desc.map(|d| d.to_string()),
        enabled,
        content: content.to_string(),
        path: format!("/skills/{}", name),
    }
}

fn manager() -> SkillManager {
    SkillManager::from_skills(vec![
        skill("writer", Some("Writes prose"), true, "Write clearly."),
        skill("coder", None, false, "Write code."),
        skill("alpha", Some("First"), true, "Alpha body."),
    ])
}

#[test]
fn prompt_without_enabled_skills_is_base() {
    let m = SkillManager::from_skills(vec![skill("a", None, false, "x")]);
    assert_eq!(m.build_system_prompt("Base."), "Base.");
    let empty = SkillManager::new();
    assert_eq!(empty.build_system_prompt("Base."), "Base.");
}

#[test]
fn prompt_lists_enabled_skills_in_order() {
    let m = manager();
    let p = m.build_system_prompt("Base.");
    assert_eq!(
        p,
        "Base.\n\n# Skills\n\n## writer\nWrites prose\n\nWrite clearly.\n\n## alpha\nFirst\n\nAlpha body.\n"
    );
}

#[test]
fn enable_and_disable_switch_skills() {
    let mut m = manager();
    assert!(m.enable("coder"));
    let p = m.build_system_prompt("B");
    assert!(p.contains("\n## coder\n\nWrite code.\n"));
    assert!(m.disable("writer"));
    let p = m.build_system_prompt("B");
    assert!(!p.contains("## writer"));
    assert!(!m.enable("missing"));
    assert!(!m.disable("missing"));
}

#[test]
fn last_switch_wins() {
    let mut m = manager();
    assert!(m.enable("coder"));
    assert!(m.enable("coder"));
    assert!(m.disable("coder"));
    let entries = m.list();
    assert!(entries.contains(&("coder", "", false)));
}

#[test]
fn list_is_sorted_by_name() {
    let m = manager();
    let entries = m.list();
    assert_eq!(
        entries,
        vec![("alpha", "First", true), ("coder", "", false), ("writer", "Writes prose", true)]
    );
}

#[test]
fn list_orders_by_bytes() {
    let m = SkillManager::from_skills(vec![
        skill("b", None, true, ""),
        skill("B", None, true, ""),
        skill("é", None, true, ""),
        skill("a", None, true, ""),
        skill("ab", None, true, ""),
    ]);
    let names: Vec<&str> = m.list().iter().map(|e| e.0).collect();
    assert_eq!(names, vec!["B", "a", "ab", "b", "é"]);
}

#[test]
fn later_skill_replaces_earlier_of_same_name() {
    let m = SkillManager::from_skills(vec![
        skill("x", Some("old"), true, "one"),
        skill("y", None, true, "two"),
        skill("x", Some("new"), false, "three"),
    ]);
    assert_eq!(m.list(), vec![("x", "new", false), ("y", "", true)]);
    assert_eq!(m.build_system_prompt("B"), "B\n\n# Skills\n\n## y\n\ntwo\n");
}

#[test]
fn insert_then_found() {
    let mut m = SkillManager::new();
    m.insert(skill("k", None, false, "c"));
    assert!(m.enable("k"));
    assert_eq!(m.list(), vec![("k", "", true)]);
}

#[test]
fn frontmatter_is_split() {
    let fm = SkillManager::parse_frontmatter("  \n---\nname: a\n---\nBody text\n").unwrap();
    assert_eq!(fm.yaml.as_deref(), Some("\nname: a"));
    assert_eq!(fm.body, "\nBody text\n");
}

#[test]
fn frontmatter_round_trip() {
    let yaml = "\nname: demo\ndescription: d";
    let body = "\nhello";
    let content = format!("---{}\n---{}", yaml, body);
    let fm = SkillManager::parse_frontmatter(&content).unwrap();
    assert_eq!(fm.yaml.as_deref(), Some(yaml));
    assert_eq!(fm.body, body);
}

#[test]
fn no_frontmatter_is_all_body() {
    let fm: Frontmatter = SkillManager::parse_frontmatter("\t Just text").unwrap();
    assert_eq!(fm.yaml, None);
    assert_eq!(fm.body, "Just text");
}

#[test]
fn unclosed_frontmatter_is_an_error() {
    let r = SkillManager::parse_frontmatter("---\nname: a\nno end");
    assert!(matches!(r, Err(SkillError::FrontmatterNotClosed)));
}

#[test]
fn skill_from_parts() {
    let meta = SkillMeta { name: "n".to_string(), description: Some("d".to_string()), enabled: false };
    let s = Skill::new(Some(meta), "\n  body \n", "/p".to_string());
    assert_eq!(s.name, "n");
    assert_eq!(s.description.as_deref(), Some("d"));
    assert!(!s.enabled);
    assert_eq!(s.content, "body");
    assert_eq!(s.path, "/p");
    let s = Skill::new(None, " text ", "/q".to_string());
    assert_eq!(s.name, "q");
    assert_eq!(s.description, None);
    assert!(s.enabled);
    assert_eq!(s.content, "text");
}

#[test]
fn skills_are_enabled_by_default() {
    assert!(default_enabled());
}

#[test]
fn skill_without_frontmatter_takes_folder_name() {
    let s = Skill::new(None, "Just text.", "skills/foo".to_string());
    assert_eq!(s.name, "foo");
    assert_eq!(s.description, None);
    assert!(s.enabled);
    assert_eq!(s.content, "Just text.");
    assert_eq!(s.path, "skills/foo");
    let s = Skill::new(None, "x", "skills/foo/".to_string());
    assert_eq!(s.name, "foo");
}

#[test]
fn folder_names() {
    assert_eq!(folder_name("skills/foo"), "foo");
    assert_eq!(folder_name("/a/b/c//"), "c");
    assert_eq!(folder_name("plain"), "plain");
    assert_eq!(folder_name("/"), "");
    assert_eq!(folder_name(""), "");
}

#[test]
fn disabling_removes_exactly_the_section() {
    let mut m = manager();
    let before = m.build_system_prompt("Base.");
    let section = "\n## writer\nWrites prose\n\nWrite clearly.\n";
    assert!(m.disable("writer"));
    let after = m.build_system_prompt("Base.");
    assert_eq!(after.len(), before.len() - section.len());
    assert!(after.contains("\n## alpha\nFirst\n\nAlpha body.\n"));
    assert!(m.disable("alpha"));
    assert_eq!(m.build_system_prompt("Base."), "Base.");
}
