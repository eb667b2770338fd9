use std::collections::HashMap;

use lithos_tree::command::{Command, Word};
use lithos_tree::event::{Event, Signal};
use lithos_tree::process::{Child, ContainerConfig, Process, Socket, TcpPort};
use lithos_tree::queue::Queue;
use lithos_tree::shutdown::{Shutdown, ShutdownAction};
use lithos_tree::supervisor::{Action, Supervisor};

const SECOND: i128 = 1_000_000_000;

fn port(fd: i32, reuse_port: bool) -> TcpPort {
    TcpPort {
        host: "127.0.0.1".to_string(),
        fd,
        reuse_addr: true,
        reuse_port,
        listen_backlog: 16,
    }
}

fn process(name: &str, ports: &[(u16, TcpPort)]) -> Process {
    let tcp_ports: HashMap<u16, TcpPort> = ports.iter().cloned().collect();
    Process {
        restart_min: 0,
        cmd: Command {
            program: Word::from_text("knot"),
            args: vec![],
            env: vec![],
            namespaces: vec![],
            close_fds: None,
            pass_fds: vec![],
        },
        name: name.to_string(),
        config: "{}".to_string(),
        ports: tcp_ports.keys().copied().collect(),
        inner_config: ContainerConfig { restart_timeout: 1000, tcp_ports },
    }
}

fn supervisor(entries: Vec<(i128, Process)>) -> Supervisor {
    let mut queue = Queue::new();
    for (time, process) in entries {
        queue.add(time, process);
    }
    Supervisor::new(queue, HashMap::new(), HashMap::new())
}

fn name_at_hand(supervisor: &Supervisor) -> &str {
    supervisor.at_hand().unwrap().name.as_str()
}

#[test]
fn idle_supervisor_waits() {
    let (supervisor, action) = supervisor(vec![]).normal_step(Event::Time(0));
    assert!(matches!(action, Action::Wait { ref close, deadline: None } if close.is_empty()));
    assert!(supervisor.at_hand().is_none());
    let (supervisor, action) = supervisor.normal_step(Event::Timeout);
    assert!(matches!(action, Action::ReadClock));
    let (supervisor, _) = supervisor.normal_step(Event::Time(1));
    let (supervisor, action) = supervisor.normal_step(Event::Signal(Signal::Interrupt));
    assert!(matches!(action, Action::Leave));
    assert!(supervisor.leave().is_none());
}

#[test]
fn process_is_started_and_restarted() {
    let s = supervisor(vec![(5, process("a", &[]))]);
    let (s, action) = s.normal_step(Event::Time(4));
    assert!(matches!(action, Action::Wait { deadline: Some(5), .. }));
    let (s, _) = s.normal_step(Event::Timeout);
    let (s, action) = s.normal_step(Event::Time(5));
    assert!(matches!(action, Action::Spawn));
    assert_eq!(name_at_hand(&s), "a");
    let (s, action) = s.normal_step(Event::Spawned(100));
    assert!(matches!(action, Action::Wait { deadline: None, .. }));
    let (s, action) = s.normal_step(Event::Signal(Signal::Child));
    assert!(matches!(action, Action::Reap));
    let (s, action) = s.normal_step(Event::Exited(99));
    assert!(matches!(action, Action::Ignore(99)));
    let (s, action) = s.normal_step(Event::Exited(100));
    assert!(matches!(action, Action::Clean { ref name, restart: true } if name == "a"));
    let (s, action) = s.normal_step(Event::NoMoreExits);
    assert!(matches!(action, Action::ReadClock));
    let (s, action) = s.normal_step(Event::Time(6));
    assert!(
        matches!(action, Action::Wait { deadline: Some(time), .. } if time == 5 + SECOND)
    );
    let (s, _) = s.normal_step(Event::Timeout);
    let (s, action) = s.normal_step(Event::Time(5 + SECOND as i64));
    assert!(matches!(action, Action::Spawn));
    assert_eq!(name_at_hand(&s), "a");
}

#[test]
fn failed_start_is_tried_again() {
    let s = supervisor(vec![(1, process("a", &[])), (2, process("b", &[]))]);
    let (s, action) = s.normal_step(Event::Time(10));
    assert!(matches!(action, Action::Spawn));
    assert_eq!(name_at_hand(&s), "a");
    let (s, action) = s.normal_step(Event::SpawnFailed);
    assert!(matches!(action, Action::Spawn));
    assert_eq!(name_at_hand(&s), "b");
    let (s, action) = s.normal_step(Event::Spawned(7));
    assert!(
        matches!(action, Action::Wait { deadline: Some(time), .. } if time == 10 + SECOND)
    );
    let (s, _) = s.normal_step(Event::Timeout);
    let (s, action) = s.normal_step(Event::Time(10 + SECOND as i64));
    assert!(matches!(action, Action::Spawn));
    assert_eq!(name_at_hand(&s), "a");
}

#[test]
fn sockets_are_opened_and_passed() {
    let s = supervisor(vec![(0, process("a", &[(80, port(3, false))]))]);
    let (s, action) = s.normal_step(Event::Time(0));
    assert!(
        matches!(action, Action::Open { port: 80, ref config } if config.listen_backlog == 16)
    );
    assert_eq!(name_at_hand(&s), "a");
    let (s, action) = s.normal_step(Event::Opened(12));
    assert!(matches!(action, Action::Spawn));
    let cmd = &s.at_hand().unwrap().cmd;
    assert_eq!(cmd.close_fds, Some((12, 13)));
    assert_eq!(cmd.pass_fds, [(3, 12)]);
    let (s, action) = s.normal_step(Event::Spawned(7));
    assert!(matches!(action, Action::Wait { ref close, .. } if close.is_empty()));
    let (s, action) = s.normal_step(Event::Signal(Signal::Terminate));
    assert!(matches!(action, Action::TerminateAndLeave(ref pids) if *pids == [7]));
    let mut shutdown = s.leave().unwrap();
    assert!(matches!(
        shutdown.shutdown_step(Event::Signal(Signal::Child)),
        ShutdownAction::Reap
    ));
    assert!(matches!(
        shutdown.shutdown_step(Event::Exited(7)),
        ShutdownAction::Clean(ref name) if name == "a"
    ));
    assert!(matches!(
        shutdown.shutdown_step(Event::NoMoreExits),
        ShutdownAction::Finish(ref list) if *list == [(80, 12)]
    ));
}

#[test]
fn socket_of_a_failed_start_is_closed() {
    let s = supervisor(vec![(0, process("a", &[(80, port(3, false))]))]);
    let (s, _) = s.normal_step(Event::Time(0));
    let (s, _) = s.normal_step(Event::Opened(12));
    let (s, action) = s.normal_step(Event::SpawnFailed);
    assert!(matches!(
        action,
        Action::Wait { ref close, deadline: Some(time) } if *close == [(80, 12)] && time == SECOND
    ));
    let (s, _) = s.normal_step(Event::Timeout);
    let (_, action) = s.normal_step(Event::Time(SECOND as i64));
    assert!(matches!(action, Action::Open { port: 80, .. }));
}

#[test]
fn failed_socket_is_tried_again() {
    let s = supervisor(vec![(0, process("a", &[(80, port(3, false))]))]);
    let (s, _) = s.normal_step(Event::Time(3));
    let (_, action) = s.normal_step(Event::OpenFailed);
    assert!(matches!(
        action,
        Action::Wait { ref close, deadline: Some(time) } if close.is_empty() && time == 3 + SECOND
    ));
}

#[test]
fn shared_port_is_left_to_the_process() {
    let s = supervisor(vec![(0, process("a", &[(80, port(3, true))]))]);
    let (s, action) = s.normal_step(Event::Time(0));
    assert!(matches!(action, Action::Spawn));
    let cmd = &s.at_hand().unwrap().cmd;
    assert_eq!(cmd.close_fds, None);
    assert!(cmd.pass_fds.is_empty());
}

#[test]
fn shared_port_beside_a_socket_cannot_be_passed() {
    let s = supervisor(vec![
        (0, process("a", &[(80, port(3, false))])),
        (1, process("b", &[(81, port(3, true))])),
    ]);
    let (s, _) = s.normal_step(Event::Time(1));
    let (s, _) = s.normal_step(Event::Opened(12));
    let (s, action) = s.normal_step(Event::Spawned(7));
    assert!(matches!(action, Action::CannotPass));
    assert_eq!(name_at_hand(&s), "b");
}

#[test]
fn pid_of_a_known_child_makes_no_more_of_a_process() {
    let mut children = HashMap::new();
    children.insert(9, Child::Unidentified("web/old.0".to_string()));
    let mut queue = Queue::new();
    queue.add(0, process("a", &[]));
    let s = Supervisor::new(queue, children, HashMap::new());
    let (s, _) = s.normal_step(Event::Time(0));
    let (s, _) = s.normal_step(Event::Spawned(9));
    let (s, _) = s.normal_step(Event::Signal(Signal::Child));
    let (s, action) = s.normal_step(Event::Exited(9));
    assert!(matches!(action, Action::Clean { ref name, restart: true } if name == "a"));
    let (_, action) = s.normal_step(Event::Exited(9));
    assert!(matches!(action, Action::Ignore(9)));
}

#[test]
fn processes_stay_themselves() {
    let mut s = supervisor(vec![(0, process("a", &[(80, port(3, false))]))]);
    let mut now = 0;
    for round in 0..3 {
        let (next, action) = s.normal_step(Event::Time(now));
        // The socket is held from the second round on.
        let next = if round == 0 {
            assert!(matches!(action, Action::Open { port: 80, .. }));
            next.normal_step(Event::Opened(12)).0
        } else {
            assert!(matches!(action, Action::Spawn));
            next
        };
        let at_hand = next.at_hand().unwrap();
        assert_eq!((at_hand.name.as_str(), at_hand.config.as_str()), ("a", "{}"));
        assert_eq!(at_hand.ports, [80]);
        assert_eq!(at_hand.inner_config.tcp_ports[&80].fd, 3);
        assert_eq!(at_hand.inner_config.restart_timeout, 1000);
        let (next, _) = next.normal_step(Event::Spawned(20 + round));
        let (next, _) = next.normal_step(Event::Signal(Signal::Child));
        let (next, _) = next.normal_step(Event::Exited(20 + round));
        let (next, _) = next.normal_step(Event::NoMoreExits);
        s = next;
        now += SECOND as i64;
    }
}

#[test]
fn tries_lie_apart() {
    let timeout = SECOND as i64;
    let s = supervisor(vec![(0, process("a", &[]))]);
    // The first try fails.
    let (s, action) = s.normal_step(Event::Time(3));
    assert!(matches!(action, Action::Spawn));
    let (s, _) = s.normal_step(Event::SpawnFailed);
    let (s, _) = s.normal_step(Event::Timeout);
    let (s, action) = s.normal_step(Event::Time(3 + timeout - 1));
    assert!(matches!(action, Action::Wait { .. }));
    let (s, _) = s.normal_step(Event::Timeout);
    // The second one starts the process, which ends at once.
    let (s, action) = s.normal_step(Event::Time(3 + timeout));
    assert!(matches!(action, Action::Spawn));
    let (s, _) = s.normal_step(Event::Spawned(8));
    let (s, _) = s.normal_step(Event::Signal(Signal::Child));
    let (s, _) = s.normal_step(Event::Exited(8));
    let (s, _) = s.normal_step(Event::NoMoreExits);
    let (s, action) = s.normal_step(Event::Time(3 + 2 * timeout - 1));
    assert!(matches!(action, Action::Wait { .. }));
    let (s, _) = s.normal_step(Event::Timeout);
    let (s, action) = s.normal_step(Event::Time(3 + 2 * timeout));
    assert!(matches!(action, Action::Spawn));
    assert_eq!(name_at_hand(&s), "a");
}

#[test]
fn unidentified_child_is_not_restarted() {
    let mut children = HashMap::new();
    children.insert(9, Child::Unidentified("web/old.0".to_string()));
    let s = Supervisor::new(Queue::new(), children, HashMap::new());
    let (s, _) = s.normal_step(Event::Time(0));
    let (s, _) = s.normal_step(Event::Signal(Signal::Child));
    let (s, action) = s.normal_step(Event::Exited(9));
    assert!(matches!(action, Action::Clean { ref name, restart: false } if name == "web/old.0"));
    let (s, _) = s.normal_step(Event::NoMoreExits);
    let (s, action) = s.normal_step(Event::Time(1));
    assert!(matches!(action, Action::Wait { deadline: None, .. }));
    assert!(s.leave().is_none());
}

#[test]
fn all_that_is_due_is_started() {
    let s = supervisor(vec![
        (0, process("a", &[])),
        (SECOND, process("late", &[])),
        (0, process("b", &[])),
    ]);
    let (s, _) = s.normal_step(Event::Time(0));
    assert_eq!(name_at_hand(&s), "a");
    let (s, _) = s.normal_step(Event::Spawned(1));
    assert_eq!(name_at_hand(&s), "b");
    let (s, action) = s.normal_step(Event::Spawned(2));
    assert!(matches!(action, Action::Wait { deadline: Some(SECOND), .. }));
    let (s, action) = s.normal_step(Event::Signal(Signal::Terminate));
    match action {
        Action::TerminateAndLeave(mut pids) => {
            pids.sort();
            assert_eq!(pids, [1, 2]);
        }
        _ => panic!("{:?}", action),
    }
    assert!(s.leave().is_some());
}

#[test]
fn event_that_does_not_fit_changes_nothing() {
    let s = supervisor(vec![(0, process("a", &[]))]);
    let (s, action) = s.normal_step(Event::Spawned(3));
    assert!(matches!(action, Action::Unexpected));
    let (s, action) = s.normal_step(Event::Time(0));
    assert!(matches!(action, Action::Spawn));
    let (s, action) = s.normal_step(Event::Opened(3));
    assert!(matches!(action, Action::Unexpected));
    let (s, _) = s.normal_step(Event::Spawned(3));
    let (_, action) = s.normal_step(Event::Signal(Signal::Other));
    assert!(matches!(action, Action::Unexpected));
}

fn child(name: &str, port_number: u16) -> Child {
    Child::Process(process(name, &[(port_number, port(3, false))]))
}

#[test]
fn shutdown_closes_sockets_as_children_end() {
    let mut children = HashMap::new();
    children.insert(1, child("a", 80));
    children.insert(2, child("b", 81));
    let mut sockets = HashMap::new();
    sockets.insert(80, Socket { fd: 5 });
    sockets.insert(81, Socket { fd: 6 });
    let mut shutdown = Shutdown::new(children, sockets);
    assert!(matches!(
        shutdown.shutdown_step(Event::Signal(Signal::Interrupt)),
        ShutdownAction::Wait
    ));
    match shutdown.shutdown_step(Event::Signal(Signal::Terminate)) {
        ShutdownAction::Terminate(mut pids) => {
            pids.sort();
            assert_eq!(pids, [1, 2]);
        }
        action => panic!("{:?}", action),
    }
    assert!(matches!(
        shutdown.shutdown_step(Event::Exited(1)),
        ShutdownAction::Unexpected
    ));
    shutdown.shutdown_step(Event::Signal(Signal::Child));
    assert!(matches!(
        shutdown.shutdown_step(Event::Exited(3)),
        ShutdownAction::Ignore(3)
    ));
    assert!(matches!(
        shutdown.shutdown_step(Event::Exited(1)),
        ShutdownAction::Clean(ref name) if name == "a"
    ));
    assert!(matches!(
        shutdown.shutdown_step(Event::NoMoreExits),
        ShutdownAction::Close(ref list) if *list == [(80, 5)]
    ));
    shutdown.shutdown_step(Event::Signal(Signal::Child));
    shutdown.shutdown_step(Event::Exited(2));
    assert!(matches!(
        shutdown.shutdown_step(Event::NoMoreExits),
        ShutdownAction::Finish(ref list) if *list == [(81, 6)]
    ));
}
