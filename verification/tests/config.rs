use std::collections::HashMap;

use lithos_tree::command::{Binaries, Environment, LogOptions, Word};
use lithos_tree::config::{
    config_log_file, config_log_line, daemons, process_file, process_name, read_sandboxes,
    read_subtree, sandbox_name, schedule_new_workers, ChildConfig, ContainerKind, DaemonSetup,
};
use lithos_tree::process::{ContainerConfig, Process, TcpPort};

fn child(instances: usize, kind: ContainerKind) -> ChildConfig {
    ChildConfig {
        instances,
        image: "v1".to_string(),
        config: "/config.yaml".to_string(),
        kind,
    }
}

fn container(restart_timeout: i64, ports: &[u16]) -> ContainerConfig {
    let mut tcp_ports = HashMap::new();
    for port in ports {
        let config = TcpPort {
            host: "127.0.0.1".to_string(),
            fd: 3,
            reuse_addr: true,
            reuse_port: false,
            listen_backlog: 128,
        };
        tcp_ports.insert(*port, config);
    }
    ContainerConfig { restart_timeout, tcp_ports }
}

fn setup(name: &str, instances: usize, container: Option<ContainerConfig>) -> DaemonSetup {
    DaemonSetup {
        name: name.to_string(),
        instances,
        config: format!("<{}>", name),
        container,
    }
}

fn subtree(sandbox: &str, setups: Vec<DaemonSetup>, now: i64) -> Vec<(String, Process)> {
    let bin = Binaries {
        lithos_tree: Word::from_text("/bin/lithos_tree"),
        lithos_knot: Word::from_text("/bin/lithos_knot"),
    };
    read_subtree(
        sandbox,
        &setups,
        &bin,
        &Word::from_text("/etc/lithos.yaml"),
        &LogOptions { log_stderr: false, log_level: None },
        &Environment { term: None, rust_log: None, rust_backtrace: None },
        now,
    )
}

#[test]
fn daemons_are_kept_and_commands_are_not() {
    let children = vec![
        ("a".to_string(), child(3, ContainerKind::Daemon)),
        ("b".to_string(), child(1, ContainerKind::Command)),
        ("c".to_string(), child(0, ContainerKind::Daemon)),
    ];
    let found = daemons(&children);
    assert_eq!(found.len(), 2);
    assert_eq!((found[0].name.as_str(), found[0].instances), ("a", 3));
    assert_eq!((found[1].name.as_str(), found[1].instances), ("c", 0));
    assert_eq!(found[0].child.image, "v1");
    assert_eq!(found[0].child.config, "/config.yaml");
    assert_eq!(found[0].child.kind, ContainerKind::Daemon);
}

#[test]
fn instances_do_not_show() {
    let two = daemons(&vec![("a".to_string(), child(2, ContainerKind::Daemon))]);
    let nine = daemons(&vec![("a".to_string(), child(9, ContainerKind::Daemon))]);
    assert_eq!(two[0].child.instances, 1);
    assert_eq!(nine[0].child.instances, 1);
}

#[test]
fn instances_have_names_of_their_own() {
    assert_eq!(process_name("web", "django", 0), "web/django.0");
    assert_eq!(process_name("web", "django", 12), "web/django.12");
    assert_ne!(process_name("web", "a.1", 2), process_name("web", "a", 12));
}

#[test]
fn subtree_has_the_instances_of_its_daemons() {
    let processes = subtree(
        "web",
        vec![
            setup("a", 2, Some(container(1500, &[80, 443]))),
            setup("broken", 5, None),
            setup("b", 1, Some(container(0, &[]))),
            setup("none", 0, Some(container(1, &[]))),
        ],
        7,
    );
    let names: Vec<&str> = processes.iter().map(|(name, _)| name.as_str()).collect();
    assert_eq!(names, ["web/a.0", "web/a.1", "web/b.0"]);
    let (name, process) = &processes[1];
    assert_eq!(&process.name, name);
    assert_eq!(process.config, "<a>");
    assert_eq!(process.restart_min, 1_500_000_007);
    assert_eq!(process.inner_config.restart_timeout, 1500);
    let mut ports = process.ports.clone();
    ports.sort();
    assert_eq!(ports, [80, 443]);
    assert_eq!(process.inner_config.tcp_ports[&443].listen_backlog, 128);
    assert!(matches!(process.cmd.args[1], Word::Text(ref text) if text == "web/a.1"));
    assert!(matches!(process.cmd.args[5], Word::Text(ref text) if text == "<a>"));
    assert_eq!(processes[2].1.restart_min, 7);
}

#[test]
fn file_names() {
    assert_eq!(sandbox_name("web.yaml"), Some("web".to_string()));
    assert_eq!(sandbox_name("web.yaml.yaml"), Some("web.yaml".to_string()));
    assert_eq!(sandbox_name("web.yml"), None);
    assert_eq!(sandbox_name("yaml"), None);
    assert!(matches!(process_file(&None, "web"), Word::Text(ref text) if text == "web.yaml"));
    let named = Some(Word::from_text("other.yaml"));
    assert!(matches!(process_file(&named, "web"), Word::Text(ref text) if text == "other.yaml"));
    assert_eq!(config_log_file("web"), "web.log");
    assert_eq!(
        config_log_line("2015-10-21T07:28:00Z", "{}"),
        "2015-10-21T07:28:00Z {}\n"
    );
}

#[test]
fn later_process_of_a_name_stays() {
    let mut processes = subtree("web", vec![setup("a", 1, Some(container(0, &[])))], 0);
    let mut later = subtree("web", vec![setup("a", 1, Some(container(0, &[])))], 9);
    later.append(&mut subtree("web", vec![setup("b", 1, Some(container(0, &[])))], 5));
    processes.append(&mut later);
    let mut table = read_sandboxes(processes);
    assert_eq!(table.len(), 2);
    assert!(table.remove("web/c.0").is_none());
    assert_eq!(table.remove("web/a.0").unwrap().restart_min, 9);
    assert!(table.remove("web/a.0").is_none());
    assert_eq!(table.len(), 1);
}

#[test]
fn every_instance_is_listed() {
    let setups = || {
        vec![
            setup("a", 12, Some(container(0, &[]))),
            setup("a.1", 3, Some(container(0, &[]))),
            setup("b", 2, None),
        ]
    };
    let mut processes = subtree("web", setups(), 0);
    processes.append(&mut subtree("web2", setups(), 0));
    processes.append(&mut subtree("", setups(), 0));
    assert_eq!(processes.len(), 45);
    let names: Vec<String> = processes.iter().map(|(name, _)| name.clone()).collect();
    let mut distinct = names.clone();
    distinct.sort();
    distinct.dedup();
    assert_eq!(distinct.len(), 45);
    let mut table = read_sandboxes(processes);
    assert_eq!(table.len(), 45);
    for name in &names {
        assert_eq!(&table.remove(name).unwrap().name, name);
    }
}

#[test]
fn every_worker_is_queued() {
    let processes = subtree("web", vec![setup("a", 3, Some(container(1000, &[])))], 0);
    let table = read_sandboxes(processes);
    let mut queue = schedule_new_workers(table, &vec![100, 101, 102]);
    assert_eq!(queue.peek_time(), Some(100));
    assert_eq!(queue.pop_until(101).len(), 2);
    assert_eq!(queue.peek_time(), Some(102));
    assert_eq!(queue.pop_until(102).len(), 1);
}
