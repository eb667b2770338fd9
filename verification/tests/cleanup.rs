use lithos_tree::cleanup::{
    check_group, classify_group, command_pid, is_own_group, probe_pid, remove_dangling_cgroups,
    remove_dangling_state_dirs, GroupCheck, GroupDir, NoPidGroup, ProcessDir, Removal, SandboxDir,
};

fn names(list: &[&str]) -> Vec<String> {
    list.iter().map(|name| name.to_string()).collect()
}

fn dir(name: &str, alive: bool) -> ProcessDir {
    ProcessDir { name: name.to_string(), alive }
}

fn group(name: &str, alive: bool) -> GroupDir {
    GroupDir { name: name.to_string(), alive }
}

#[test]
fn command_dirs_are_probed() {
    let known = names(&["web/a.0", "web/cmd.known.(9)"]);
    assert_eq!(probe_pid(&known, "web", "a.0"), Ok(None));
    assert_eq!(probe_pid(&known, "web", "b.(5)"), Ok(None));
    assert_eq!(probe_pid(&known, "web", "cmd.x.5"), Ok(None));
    assert_eq!(probe_pid(&known, "web", "cmd.x.(5)y"), Ok(None));
    assert_eq!(probe_pid(&known, "web", "cmd.x.(5)"), Err(NoPidGroup));
    assert_eq!(probe_pid(&known, "web", "cmd.known.(9)"), Ok(None));
    assert_eq!(probe_pid(&known, "other", "cmd.known.(9)"), Err(NoPidGroup));
}

#[test]
fn pid_of_a_command_is_in_the_group() {
    let text = |text: &str| Some(text.to_string());
    assert_eq!(command_pid(&None), Ok(None));
    assert_eq!(command_pid(&Some(vec![text(".(5)")])), Err(NoPidGroup));
    assert_eq!(command_pid(&Some(vec![text(".5"), None])), Err(NoPidGroup));
    assert_eq!(command_pid(&Some(vec![text(".5"), text("5")])), Ok(Some(5)));
    assert_eq!(command_pid(&Some(vec![text(".x"), text("x")])), Ok(None));
}

#[test]
fn dangling_state_dirs_go() {
    let known = names(&["web/a.0"]);
    let sandboxes = vec![
        SandboxDir {
            name: "web".to_string(),
            dirs: vec![dir("a.0", false), dir("b.0", true), dir("cmd.x", true), dir("cmd.y", false)],
        },
        SandboxDir { name: "old".to_string(), dirs: vec![dir("a.0", false), dir("b.0", false)] },
        SandboxDir { name: "empty".to_string(), dirs: vec![] },
        SandboxDir { name: "cmds".to_string(), dirs: vec![dir("cmd.x", true)] },
    ];
    assert_eq!(
        remove_dangling_state_dirs(&known, &sandboxes),
        [
            Removal::Process(0, 1),
            Removal::Process(0, 3),
            Removal::Process(1, 0),
            Removal::Process(1, 1),
            Removal::Sandbox(1),
            Removal::Sandbox(2),
        ]
    );
}

#[test]
fn own_group_is_the_last_name() {
    assert!(is_own_group("/system/lithos.slice", "lithos.slice"));
    assert!(is_own_group("/system/lithos.slice/", "lithos.slice"));
    assert!(!is_own_group("/lithos.slice/other", "lithos.slice"));
    assert!(!is_own_group("/", "lithos.slice"));
    assert!(!is_own_group("/a/..", ".."));
}

#[test]
fn groups_are_checked() {
    let known = names(&["web/django.0", "my-web/a_b.10"]);
    assert_eq!(check_group(&known, "web:django.0.scope"), GroupCheck::Keep);
    assert_eq!(check_group(&known, "my-web:a_b.10.scope"), GroupCheck::Keep);
    assert_eq!(check_group(&known, "web:django.1.scope"), GroupCheck::Remove);
    assert_eq!(check_group(&known, "other:django.0.scope"), GroupCheck::Remove);
    assert_eq!(check_group(&known, "web:cmd.manage.77.scope"), GroupCheck::Probe(77));
    assert_eq!(check_group(&known, "web:cmd.manage.99999999999.scope"), GroupCheck::Remove);
    assert_eq!(check_group(&known, "web:cmd.5.scope"), GroupCheck::Remove);
    for other in [
        "",
        "web",
        "web:django.0",
        "web:django.scope",
        "web:django.x.scope",
        "web:a.b.0.scope",
        "web:cmd..7.scope",
        "we b:django.0.scope",
        "web:django.0.scopes",
        "web:django.0.scope\n",
        "a:web:django.0.scope",
    ] {
        assert_eq!(check_group(&known, other), GroupCheck::Skip, "{:?}", other);
    }
}

#[test]
fn groups_with_letters_beyond_ascii() {
    let known = names(&["w\u{e9}b/django.0"]);
    assert_eq!(check_group(&known, "w\u{e9}b:django.0.scope"), GroupCheck::Keep);
    assert_eq!(check_group(&known, "w\u{a7}b:django.0.scope"), GroupCheck::Skip);
    assert_eq!(check_group(&known, "web:cmd.x.\u{661}.scope"), GroupCheck::Remove);
}

#[test]
fn found_groups_are_classified() {
    let known = names(&["web/a.0"]);
    let found = |a: &str, b: &str| {
        Some(vec![Some("whole".to_string()), Some(a.to_string()), Some(b.to_string())])
    };
    assert_eq!(classify_group(&known, &found("web", "a.0"), &None), GroupCheck::Keep);
    assert_eq!(classify_group(&known, &found("web", "a.1"), &None), GroupCheck::Remove);
    assert_eq!(classify_group(&known, &None, &found("web", "12")), GroupCheck::Probe(12));
    assert_eq!(classify_group(&known, &None, &found("web", "x")), GroupCheck::Remove);
    assert_eq!(classify_group(&known, &None, &None), GroupCheck::Skip);
}

#[test]
fn dangling_groups_go() {
    let known = names(&["web/a.0"]);
    let groups = vec![
        group("web:a.0.scope", false),
        group("web:a.1.scope", true),
        group("web:cmd.x.5.scope", true),
        group("web:cmd.x.6.scope", false),
        group("user.slice", false),
        group("web:cmd.x.99999999999.scope", true),
    ];
    assert_eq!(remove_dangling_cgroups(&known, &groups), [1, 3, 5]);
}
