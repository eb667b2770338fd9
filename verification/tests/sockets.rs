use std::collections::HashMap;

use lithos_tree::command::{Command, Word};
use lithos_tree::process::{restart_time, Child, ContainerConfig, Process, Socket, TcpPort};
use lithos_tree::sockets::{
    can_pass_sockets, close_unused_sockets, pass_sockets, ports_to_open, recover_sockets,
    socket_fds, socket_setup, SockName, SocketStep,
};

fn port(fd: i32, reuse_addr: bool, reuse_port: bool) -> TcpPort {
    TcpPort { host: "0.0.0.0".to_string(), fd, reuse_addr, reuse_port, listen_backlog: 64 }
}

fn command() -> Command {
    Command {
        program: Word::from_text("knot"),
        args: vec![Word::from_text("x")],
        env: vec![],
        namespaces: vec![],
        close_fds: Some((3, 4)),
        pass_fds: vec![(1, 2)],
    }
}

fn process(ports: Vec<u16>) -> Child {
    Child::Process(Process {
        restart_min: 0,
        cmd: command(),
        name: "web/a.0".to_string(),
        config: String::new(),
        inner_config: ContainerConfig { restart_timeout: 0, tcp_ports: HashMap::new() },
        ports,
    })
}

fn held(list: &[(u16, i32)]) -> HashMap<u16, Socket> {
    list.iter().map(|&(port, fd)| (port, Socket { fd })).collect()
}

#[test]
fn inherited_descriptors_are_listed() {
    let names: Vec<String> =
        ["0", "1", "2", "3", "x", "17", "-4", ""].iter().map(|name| name.to_string()).collect();
    assert_eq!(socket_fds(&names), [3, 17]);
}

#[test]
fn last_socket_of_a_port_is_recovered() {
    let mut sockets = HashMap::new();
    let found = vec![
        (3, SockName::Unix),
        (4, SockName::Inet(80)),
        (5, SockName::NotASocket),
        (6, SockName::Inet(443)),
        (7, SockName::Inet(80)),
    ];
    let met = recover_sockets(&mut sockets, &found);
    assert_eq!(sockets, held(&[(80, 7), (443, 6)]));
    assert_eq!(met.len(), 1);
    assert_eq!((met[0].port, met[0].fd, met[0].old_fd), (80, 7, 4));
}

#[test]
fn unused_sockets_are_closed_once() {
    let mut sockets = held(&[(80, 5), (81, 6), (82, 7)]);
    let mut children = HashMap::new();
    children.insert(10, process(vec![81, 90]));
    children.insert(11, Child::Unidentified("web/b.0".to_string()));
    let mut closed = close_unused_sockets(&mut sockets, &children);
    closed.sort();
    assert_eq!(closed, [(80, 5), (82, 7)]);
    assert_eq!(sockets, held(&[(81, 6)]));
    assert!(close_unused_sockets(&mut sockets, &children).is_empty());
    assert_eq!(sockets, held(&[(81, 6)]));
}

#[test]
fn without_children_all_sockets_are_closed() {
    let mut sockets = held(&[(80, 5), (81, 6)]);
    let mut closed = close_unused_sockets(&mut sockets, &HashMap::new());
    closed.sort();
    assert_eq!(closed, [(80, 5), (81, 6)]);
    assert!(sockets.is_empty());
}

#[test]
fn sockets_are_set_up_in_order() {
    assert_eq!(
        socket_setup(&port(3, true, true)),
        [SocketStep::ReuseAddr, SocketStep::ReusePort, SocketStep::Bind, SocketStep::Listen(64)]
    );
    assert_eq!(
        socket_setup(&port(3, true, false)),
        [SocketStep::ReuseAddr, SocketStep::Bind, SocketStep::Listen(64)]
    );
    assert_eq!(
        socket_setup(&port(3, false, false)),
        [SocketStep::Bind, SocketStep::Listen(64)]
    );
}

#[test]
fn missing_sockets_are_opened() {
    let mut ports = HashMap::new();
    ports.insert(80, port(3, true, false));
    ports.insert(81, port(4, true, true));
    ports.insert(82, port(5, true, false));
    ports.insert(83, port(6, true, false));
    let mut missing = ports_to_open(&held(&[(82, 9), (99, 10)]), &ports);
    missing.sort();
    assert_eq!(missing, [80, 83]);
}

#[test]
fn sockets_are_handed_over() {
    let mut ports = HashMap::new();
    ports.insert(80, port(3, true, false));
    ports.insert(81, port(4, true, false));
    let sockets = held(&[(80, 9), (81, 7), (99, 12)]);
    assert!(can_pass_sockets(&sockets, &ports));
    let mut cmd = command();
    pass_sockets(&mut cmd, &sockets, &ports);
    assert_eq!(cmd.close_fds, Some((7, 13)));
    cmd.pass_fds.sort();
    assert_eq!(cmd.pass_fds, [(3, 9), (4, 7)]);
    assert_eq!(cmd.args.len(), 1);
}

#[test]
fn no_sockets_no_plan() {
    let mut ports = HashMap::new();
    ports.insert(80, port(3, true, true));
    assert!(can_pass_sockets(&HashMap::new(), &ports));
    let mut cmd = command();
    pass_sockets(&mut cmd, &HashMap::new(), &ports);
    assert_eq!(cmd.close_fds, None);
    assert!(cmd.pass_fds.is_empty());
}

#[test]
fn sockets_that_cannot_be_handed_over() {
    let mut ports = HashMap::new();
    ports.insert(80, port(3, true, true));
    assert!(!can_pass_sockets(&held(&[(99, 12)]), &ports));
    assert!(!can_pass_sockets(&held(&[(80, 2)]), &ports));
    assert!(!can_pass_sockets(&held(&[(80, 9), (99, 0)]), &ports));
    assert!(!can_pass_sockets(&held(&[(80, i32::MAX)]), &ports));
    assert!(can_pass_sockets(&held(&[(80, 9)]), &ports));
}

#[test]
fn restart_times() {
    assert_eq!(restart_time(5, 1000), 1_000_000_005);
    assert_eq!(restart_time(-5, 0), -5);
    assert_eq!(
        restart_time(i64::MAX, i64::MAX),
        i64::MAX as i128 + i64::MAX as i128 * 1_000_000
    );
}
