use std::collections::HashMap;

use lithos_tree::command::{Command, Word};
use lithos_tree::config::{read_sandboxes, schedule_new_workers};
use lithos_tree::event::Event;
use lithos_tree::process::{child_names, Child, ContainerConfig, Process};
use lithos_tree::recovery::{
    is_child, parent_pid, recover_process, recover_processes, Notice, ProcEntry,
};
use lithos_tree::supervisor::{Action, Supervisor};
use lithos_tree::table::ProcessTable;

fn process(name: &str, config: &str) -> Process {
    Process {
        restart_min: 0,
        cmd: Command {
            program: Word::from_text("knot"),
            args: vec![],
            env: vec![],
            namespaces: vec![],
            close_fds: None,
            pass_fds: vec![],
        },
        name: name.to_string(),
        config: config.to_string(),
        inner_config: ContainerConfig { restart_timeout: 0, tcp_ports: HashMap::new() },
        ports: vec![],
    }
}

fn table(names: &[&str]) -> ProcessTable {
    let mut table = ProcessTable::new();
    for name in names {
        table.insert(name.to_string(), process(name, "{}"));
    }
    table
}

fn cmdline(name: &str, config: &str) -> Option<String> {
    Some(format!(
        "/usr/bin/lithos_knot\0--name\0{}\0--master\0/etc/lithos.yaml\0--config\0{}\0",
        name, config
    ))
}

fn entry(pid: &str, parent: i32, cmdline: Option<String>) -> ProcEntry {
    ProcEntry {
        name: pid.to_string(),
        stat: Some(format!("{} (lithos_knot) S {} 1 1 0 -1", pid, parent)),
        cmdline,
    }
}

#[test]
fn parents_are_found() {
    assert!(is_child("17 (lithos_knot) S 42 17 17 0", 42));
    assert!(!is_child("17 (lithos_knot) S 42 17 17 0", 17));
    assert!(is_child("17  (a b (c)\tR\n42\t", 42));
    assert!(is_child("1 () Z 1 ", 1));
    assert!(!is_child("17 (a) b) S 42 17", 42));
    assert!(!is_child("17 (a S 42 17", 42));
    assert!(!is_child("17 (a) S 42", 42));
    assert!(!is_child("x (a) S 42 17", 42));
    assert!(!is_child(" 17 (a) S 42 17", 42));
    assert!(!is_child("17 (a) S 99999999999 17", 42));
    assert!(!is_child("", 0));
}

#[test]
fn digits_of_other_scripts_name_no_parent() {
    assert!(!is_child("17 (a) S \u{664}\u{662} 17", 42));
    assert!(is_child("\u{661} (a) S 42 17", 42));
}

#[test]
fn parent_is_read_from_the_group() {
    assert_eq!(parent_pid(&None), None);
    let found = |text: &str| Some(vec![Some("whole".to_string()), Some(text.to_string())]);
    assert_eq!(parent_pid(&found("31")), Some(31));
    assert_eq!(parent_pid(&found("99999999999")), None);
}

#[test]
fn current_child_is_taken_over() {
    let mut children = HashMap::new();
    let mut configs = table(&["web/a.0", "web/b.0"]);
    let args = Ok(("web/a.0".to_string(), "{}".to_string()));
    assert!(recover_process(&mut children, &mut configs, 31, args).is_none());
    assert_eq!(configs.len(), 1);
    assert!(matches!(children[&31], Child::Process(ref p) if p.name == "web/a.0"));
}

#[test]
fn outdated_child_is_taken_over_and_told() {
    let mut children = HashMap::new();
    let mut configs = table(&["web/a.0"]);
    let args = Ok(("web/a.0".to_string(), "{old}".to_string()));
    let notice = recover_process(&mut children, &mut configs, 31, args).unwrap();
    assert!(matches!(notice, Notice::Outdated { pid: 31, ref name } if name == "web/a.0"));
    assert_eq!(configs.len(), 0);
    assert!(matches!(children[&31], Child::Process(_)));
}

#[test]
fn undefined_child_is_known_and_told() {
    let mut children = HashMap::new();
    let mut configs = table(&["web/a.0"]);
    let args = Ok(("web/z.0".to_string(), "{}".to_string()));
    let notice = recover_process(&mut children, &mut configs, 31, args).unwrap();
    assert!(matches!(notice, Notice::Undefined { pid: 31, ref name } if name == "web/z.0"));
    assert_eq!(configs.len(), 1);
    assert_eq!(children[&31].get_name(), "web/z.0");
    assert!(matches!(children[&31], Child::Unidentified(_)));
}

#[test]
fn unknown_child_is_told() {
    let mut children = HashMap::new();
    let mut configs = table(&["web/a.0"]);
    let notice = recover_process(&mut children, &mut configs, 31, Err(())).unwrap();
    assert!(matches!(notice, Notice::Unknown { pid: 31 }));
    assert_eq!(notice.pid(), 31);
    assert!(children.is_empty());
    assert_eq!(configs.len(), 1);
}

#[test]
fn recovery_keeps_processes() {
    let mut children = HashMap::new();
    let mut configs = table(&["web/a.0", "web/a.1", "web/b.0"]);
    let entries = vec![
        entry("self", 5, cmdline("web/a.1", "{}")),
        entry("31", 5, cmdline("web/a.0", "{}")),
        entry("32", 6, cmdline("web/a.1", "{}")),
        entry("33", 5, cmdline("web/b.0", "{old}")),
        entry("34", 5, cmdline("web/a.0", "{}")),
        entry("35", 5, Some("bash\0".to_string())),
        entry("36", 5, None),
        ProcEntry { name: "37".to_string(), stat: None, cmdline: cmdline("web/a.1", "{}") },
    ];
    let notices = recover_processes(&mut children, &mut configs, &entries, 5, "/etc/lithos.yaml");
    let pids: Vec<i32> = notices.iter().map(|notice| notice.pid()).collect();
    assert_eq!(pids, [33, 34, 35, 36]);
    assert!(matches!(notices[0], Notice::Outdated { .. }));
    assert!(matches!(notices[1], Notice::Undefined { .. }));
    assert!(matches!(notices[2], Notice::Unknown { .. }));
    let mut known: Vec<i32> = children.keys().copied().collect();
    known.sort();
    assert_eq!(known, [31, 33, 34]);
    assert!(matches!(children[&31], Child::Process(_)));
    assert!(matches!(children[&34], Child::Unidentified(_)));
    assert_eq!(configs.len(), 1);
    assert!(configs.remove("web/a.1").is_some());
    let mut names = child_names(&children);
    names.sort();
    assert_eq!(names, ["web/a.0", "web/a.0", "web/b.0"]);
}

#[test]
fn each_process_is_there_once() {
    let mut children = HashMap::new();
    let mut configs = read_sandboxes(vec![
        ("web/a.0".to_string(), process("web/a.0", "{}")),
        ("web/a.1".to_string(), process("web/a.1", "{}")),
        ("web/a.1".to_string(), process("web/a.1", "{}")),
    ]);
    let entries = vec![entry("31", 5, cmdline("web/a.0", "{}"))];
    recover_processes(&mut children, &mut configs, &entries, 5, "/etc/lithos.yaml");
    assert_eq!(configs.len(), 1);
    let queue = schedule_new_workers(configs, &vec![0]);
    let s = Supervisor::new(queue, children, HashMap::new());
    let (s, action) = s.normal_step(Event::Time(0));
    assert!(matches!(action, Action::Spawn));
    assert_eq!(s.at_hand().unwrap().name, "web/a.1");
    let (_, action) = s.normal_step(Event::Spawned(32));
    assert!(matches!(action, Action::Wait { deadline: None, .. }));
}

#[test]
fn processes_stay_as_they_are_configured() {
    let mut children = HashMap::new();
    children.insert(7, Child::Unidentified("web/old.0".to_string()));
    let mut configs = ProcessTable::new();
    for (name, restart_min) in [("web/a.0", 11), ("web/b.0", 12)] {
        let mut process = process(name, "{}");
        process.restart_min = restart_min;
        process.ports = vec![80];
        configs.insert(name.to_string(), process);
    }
    let entries = vec![entry("31", 5, cmdline("web/a.0", "{old}"))];
    recover_processes(&mut children, &mut configs, &entries, 5, "/etc/lithos.yaml");
    assert!(matches!(
        children[&31],
        Child::Process(ref p) if p.restart_min == 11 && p.config == "{}" && p.ports == [80]
    ));
    assert_eq!(children[&7].get_name(), "web/old.0");
    assert_eq!(configs.remove("web/b.0").unwrap().restart_min, 12);
}

#[test]
fn processes_are_listed_under_their_names() {
    let mut table = read_sandboxes(vec![
        ("web/a.0".to_string(), process("web/a.0", "{}")),
        ("web/b.0".to_string(), process("web/b.0", "{}")),
    ]);
    assert_eq!(table.remove("web/b.0").unwrap().name, "web/b.0");
    assert_eq!(table.remove("web/a.0").unwrap().name, "web/a.0");
}
