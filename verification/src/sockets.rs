//! The listening sockets that the supervisor holds: which of them are found when
//! it takes over, which are opened, handed to a child, and closed.
use std::collections::{HashMap, HashSet};

use vstd::prelude::*;

use crate::command::Command;
use crate::maps::keys_of;
use crate::places::{are_places, lemma_one_more_place, lemma_push_contains};
use crate::process::{Child, Socket, TcpPort};
use crate::text::{parse_i32, parsed_i32};

verus! {

/// What an open file descriptor is bound to.
#[derive(Clone, Copy, PartialEq, Eq, Structural, Debug)]
pub enum SockName {
    /// An internet address with this port.
    Inet(u16),
    Unix,
    NotASocket,
}

/// The file descriptors that a list of directory entries names, without those of
/// the standard streams.
pub open spec fn inherited_fds(names: Seq<Seq<char>>) -> Seq<i32>
    decreases names.len(),
{
    if names.len() == 0 {
        Seq::empty()
    } else {
        let front = inherited_fds(names.drop_last());
        match parsed_i32(names.last()) {
            Some(fd) => if fd >= 3 {
                front.push(fd)
            } else {
                front
            },
            None => front,
        }
    }
}

/// The file descriptors that the entries of `/proc/self/fd` name, without those
/// of the standard streams.
pub fn socket_fds(names: &Vec<String>) -> (r: Vec<i32>)
    ensures
        r@ == inherited_fds(names.deep_view()),
{
    let mut fds: Vec<i32> = Vec::new();
    let mut i: usize = 0;
    assert(names.deep_view().take(0) =~= Seq::<Seq<char>>::empty());
    while i < names.len()
        invariant
            i <= names.len(),
            fds@ == inherited_fds(names.deep_view().take(i as int)),
        decreases names.len() - i,
    {
        proof {
            let next = names.deep_view().take(i as int + 1);
            assert(next.drop_last() =~= names.deep_view().take(i as int));
            assert(next.last() == names[i as int]@);
        }
        if let Some(fd) = parse_i32(names[i].as_str()) {
            if fd >= 3 {
                fds.push(fd);
            }
        }
        i = i + 1;
    }
    assert(names.deep_view().take(i as int) =~= names.deep_view());
    fds
}

/// The sockets once `found` was looked at in its order: the last one found on a
/// port stays.
pub open spec fn with_found(sockets: Map<u16, Socket>, found: Seq<(i32, SockName)>) -> Map<
    u16,
    Socket,
>
    decreases found.len(),
{
    if found.len() == 0 {
        sockets
    } else {
        let before = with_found(sockets, found.drop_last());
        match found.last().1 {
            SockName::Inet(port) => before.insert(port, Socket { fd: found.last().0 }),
            _ => before,
        }
    }
}

/// A port that two sockets were found on: the port, the socket that stays, and
/// the one that it takes the place of.
pub struct Conflict {
    pub port: u16,
    pub fd: i32,
    pub old_fd: i32,
}

/// The ports that two sockets were found on, in the order in which they came up.
pub open spec fn conflicts(sockets: Map<u16, Socket>, found: Seq<(i32, SockName)>) -> Seq<Conflict>
    decreases found.len(),
{
    if found.len() == 0 {
        Seq::empty()
    } else {
        let front = conflicts(sockets, found.drop_last());
        let before = with_found(sockets, found.drop_last());
        match found.last().1 {
            SockName::Inet(port) => if before.contains_key(port) {
                front.push(Conflict { port, fd: found.last().0, old_fd: before[port].fd })
            } else {
                front
            },
            _ => front,
        }
    }
}

/// Takes over the sockets that were `found` among the inherited file
/// descriptors, and tells which of them met another one on their port.
pub fn recover_sockets(
    sockets: &mut HashMap<u16, Socket>,
    found: &Vec<(i32, SockName)>,
) -> (r: Vec<Conflict>)
    ensures
        final(sockets)@ == with_found(old(sockets)@, found@),
        r@ == conflicts(old(sockets)@, found@),
{
    broadcast use vstd::std_specs::hash::group_hash_axioms;

    let mut met: Vec<Conflict> = Vec::new();
    let mut i: usize = 0;
    assert(found@.take(0) =~= Seq::<(i32, SockName)>::empty());
    while i < found.len()
        invariant
            i <= found.len(),
            sockets@ == with_found(old(sockets)@, found@.take(i as int)),
            met@ == conflicts(old(sockets)@, found@.take(i as int)),
        decreases found.len() - i,
    {
        proof {
            let next = found@.take(i as int + 1);
            assert(next.drop_last() =~= found@.take(i as int));
            assert(next.last() == found@[i as int]);
        }
        let fd: i32 = found[i].0;
        if let SockName::Inet(port) = found[i].1 {
            match sockets.insert(port, Socket { fd }) {
                None => {},
                Some(old_socket) => {
                    met.push(Conflict { port, fd, old_fd: old_socket.fd });
                },
            }
        }
        i = i + 1;
    }
    assert(found@.take(i as int) =~= found@);
    met
}

/// Whether some child listens on `port`.
pub open spec fn is_used(children: Map<i32, Child>, port: u16) -> bool {
    exists|pid: i32| #[trigger] children.contains_key(pid) && children[pid].uses(port)
}

/// The sockets on ports that children listen on.
pub open spec fn used_sockets(
    sockets: Map<u16, Socket>,
    children: Map<i32, Child>,
) -> Map<u16, Socket> {
    Map::new(
        |port: u16| sockets.contains_key(port) && is_used(children, port),
        |port: u16| sockets[port],
    )
}

/// The ports that children listen on.
fn used_ports(children: &HashMap<i32, Child>) -> (r: HashSet<u16>)
    ensures
        forall|port: u16| #[trigger] r@.contains(port) <==> is_used(children@, port),
{
    broadcast use vstd::std_specs::hash::group_hash_axioms;

    let pids: Vec<i32> = keys_of(children);
    let mut used: HashSet<u16> = HashSet::new();
    let mut i: usize = 0;
    while i < pids.len()
        invariant
            i <= pids.len(),
            forall|pid: i32| #[trigger] pids@.contains(pid) <==> children@.contains_key(pid),
            forall|port: u16| #[trigger]
                used@.contains(port) <==> exists|j: int|
                    0 <= j < i && children@[#[trigger] pids@[j]].uses(port),
        decreases pids.len() - i,
    {
        assert(pids@.contains(pids@[i as int]));
        let ghost before: Set<u16> = used@;
        if let Some(Child::Process(process)) = children.get(&pids[i]) {
            let ports: &Vec<u16> = &process.ports;
            let mut k: usize = 0;
            while k < ports.len()
                invariant
                    k <= ports.len(),
                    forall|port: u16| #[trigger]
                        used@.contains(port) <==> before.contains(port) || exists|m: int|
                            0 <= m < k && #[trigger] ports@[m] == port,
                decreases ports.len() - k,
            {
                let ghost inner: Set<u16> = used@;
                used.insert(ports[k]);
                k = k + 1;
                proof {
                    assert forall|port: u16| #[trigger]
                        used@.contains(port) <==> before.contains(port) || exists|m: int|
                            0 <= m < k && #[trigger] ports@[m] == port by {
                        if inner.contains(port) && !before.contains(port) {
                            let m = choose|m: int| 0 <= m < k - 1 && #[trigger] ports@[m] == port;
                            assert(ports@[m] == port);
                        }
                        if port == ports@[k - 1] {
                            assert(ports@[k - 1] == port);
                        }
                    }
                }
            }
            proof {
                assert forall|port: u16| #[trigger]
                    used@.contains(port) <==> before.contains(port)
                        || children@[pids@[i as int]].uses(port) by {}
            }
        }
        i = i + 1;
        proof {
            assert forall|port: u16| #[trigger]
                used@.contains(port) <==> exists|j: int|
                    0 <= j < i && children@[#[trigger] pids@[j]].uses(port) by {
                if before.contains(port) {
                    let j = choose|j: int|
                        0 <= j < i - 1 && children@[#[trigger] pids@[j]].uses(port);
                    assert(children@[pids@[j]].uses(port));
                }
                if children@[pids@[i - 1]].uses(port) {
                    assert(used@.contains(port));
                }
            }
        }
    }
    proof {
        assert forall|port: u16| #[trigger]
            used@.contains(port) <==> is_used(children@, port) by {
            if used@.contains(port) {
                let j = choose|j: int| 0 <= j < i && children@[#[trigger] pids@[j]].uses(port);
                assert(pids@.contains(pids@[j]));
            }
            if is_used(children@, port) {
                let pid = choose|pid: i32| #[trigger]
                    children@.contains_key(pid) && children@[pid].uses(port);
                assert(pids@.contains(pid));
                let j = choose|j: int| 0 <= j < pids.len() && pids@[j] == pid;
                assert(children@[pids@[j]].uses(port));
            }
        }
    }
    used
}

/// Whether `list` holds the ports and file descriptors of the sockets on ports
/// that no child listens on, each once.
pub open spec fn are_unused(
    list: Seq<(u16, i32)>,
    sockets: Map<u16, Socket>,
    children: Map<i32, Child>,
) -> bool {
    &&& list.no_duplicates()
    &&& forall|port: u16, fd: i32| #[trigger]
        list.contains((port, fd)) <==> sockets.contains_key(port) && !is_used(children, port)
            && sockets[port].fd == fd
}

/// Gives up the sockets on ports that no child listens on. What comes back are
/// their ports and file descriptors, each once, to be closed.
pub fn close_unused_sockets(
    sockets: &mut HashMap<u16, Socket>,
    children: &HashMap<i32, Child>,
) -> (r: Vec<(u16, i32)>)
    ensures
        final(sockets)@ == used_sockets(old(sockets)@, children@),
        are_unused(r@, old(sockets)@, children@),
{
    broadcast use vstd::std_specs::hash::group_hash_axioms;

    let used: HashSet<u16> = used_ports(children);
    let ports: Vec<u16> = keys_of(&*sockets);
    let mut closed: Vec<(u16, i32)> = Vec::new();
    let ghost all: Map<u16, Socket> = sockets@;
    let mut i: usize = 0;
    while i < ports.len()
        invariant
            i <= ports.len(),
            all == old(sockets)@,
            ports@.no_duplicates(),
            forall|port: u16| #[trigger] ports@.contains(port) <==> all.contains_key(port),
            forall|port: u16| #[trigger] used@.contains(port) <==> is_used(children@, port),
            forall|port: u16| #[trigger]
                sockets@.contains_key(port) <==> all.contains_key(port) && (is_used(
                    children@,
                    port,
                ) || !ports@.take(i as int).contains(port)),
            forall|port: u16| #[trigger]
                sockets@.contains_key(port) ==> sockets@[port] == all[port],
            closed@.no_duplicates(),
            forall|port: u16, fd: i32| #[trigger]
                closed@.contains((port, fd)) <==> ports@.take(i as int).contains(port) && !is_used(
                    children@,
                    port,
                ) && all[port].fd == fd,
        decreases ports.len() - i,
    {
        let port: u16 = ports[i];
        let ghost before: Seq<(u16, i32)> = closed@;
        let ghost seen: Seq<u16> = ports@.take(i as int);
        let ghost next: Seq<u16> = ports@.take(i as int + 1);
        proof {
            assert(next =~= seen.push(port));
            assert(ports@.contains(port));
            assert(!seen.contains(port)) by {
                if seen.contains(port) {
                    let j = choose|j: int| 0 <= j < seen.len() && seen[j] == port;
                    assert(ports@[j] == ports@[i as int]);
                }
            }
            lemma_push_contains(seen, port);
        }
        if !used.contains(&port) {
            if let Some(socket) = sockets.remove(&port) {
                closed.push((port, socket.fd));
                proof {
                    assert(socket == all[port]);
                    lemma_push_contains(before, (port, socket.fd));
                    assert(!before.contains((port, socket.fd)));
                }
            }
        }
        i = i + 1;
    }
    proof {
        assert(ports@.take(i as int) =~= ports@);
        assert(sockets@ =~= used_sockets(all, children@));
    }
    closed
}

/// Closing the unused sockets again changes nothing.
pub proof fn law_closing_twice_is_closing_once(
    sockets: Map<u16, Socket>,
    children: Map<i32, Child>,
)
    ensures
        used_sockets(used_sockets(sockets, children), children) == used_sockets(
            sockets,
            children,
        ),
{
    assert(used_sockets(used_sockets(sockets, children), children) =~= used_sockets(
        sockets,
        children,
    ));
}

/// With no children left no socket stays open.
pub proof fn law_no_children_no_sockets(sockets: Map<u16, Socket>, children: Map<i32, Child>)
    requires
        children.dom() == Set::<i32>::empty(),
    ensures
        used_sockets(sockets, children) == Map::<u16, Socket>::empty(),
{
    assert forall|port: u16| !is_used(children, port) by {
        if is_used(children, port) {
            let pid = choose|pid: i32| #[trigger]
                children.contains_key(pid) && children[pid].uses(port);
            assert(children.dom().contains(pid));
        }
    }
    assert(used_sockets(sockets, children) =~= Map::<u16, Socket>::empty());
}

/// A step in the making of a listening socket.
#[derive(Clone, Copy, PartialEq, Eq, Structural, Debug)]
pub enum SocketStep {
    ReuseAddr,
    ReusePort,
    Bind,
    /// To listen, with a backlog of this length.
    Listen(usize),
}

/// The steps that make a new socket into the one that `port` asks for.
pub open spec fn setup_steps(port: TcpPort) -> Seq<SocketStep> {
    let addr = if port.reuse_addr {
        seq![SocketStep::ReuseAddr]
    } else {
        Seq::empty()
    };
    let reuse = if port.reuse_port {
        addr.push(SocketStep::ReusePort)
    } else {
        addr
    };
    reuse.push(SocketStep::Bind).push(SocketStep::Listen(port.listen_backlog))
}

/// The steps that make a new socket into the one that `port` asks for, in their
/// order. The first step that fails ends the work, and the socket is closed.
pub fn socket_setup(port: &TcpPort) -> (r: Vec<SocketStep>)
    ensures
        r@ == setup_steps(*port),
{
    let mut steps: Vec<SocketStep> = Vec::new();
    if port.reuse_addr {
        steps.push(SocketStep::ReuseAddr);
    }
    if port.reuse_port {
        steps.push(SocketStep::ReusePort);
    }
    steps.push(SocketStep::Bind);
    steps.push(SocketStep::Listen(port.listen_backlog));
    assert(steps@ =~= setup_steps(*port));
    steps
}

/// Whether the supervisor has to open a socket for `port` before it starts a
/// process with these `ports`: not where it holds one, and not where the process
/// shares the port with others by opening it itself.
pub open spec fn is_missing(
    sockets: Map<u16, Socket>,
    ports: Map<u16, TcpPort>,
    port: u16,
) -> bool {
    ports.contains_key(port) && !sockets.contains_key(port) && !ports[port].reuse_port
}

/// Whether `list` holds the ports that the supervisor has to open a socket for,
/// each once.
pub open spec fn are_missing(
    list: Seq<u16>,
    sockets: Map<u16, Socket>,
    ports: Map<u16, TcpPort>,
) -> bool {
    &&& list.no_duplicates()
    &&& forall|port: u16| #[trigger]
        list.contains(port) <==> is_missing(sockets, ports, port)
}

/// The ports that the supervisor has to open a socket for before it starts a
/// process with these `ports`, each once.
pub fn ports_to_open(sockets: &HashMap<u16, Socket>, ports: &HashMap<u16, TcpPort>) -> (r: Vec<
    u16,
>)
    ensures
        are_missing(r@, sockets@, ports@),
{
    broadcast use vstd::std_specs::hash::group_hash_axioms;

    let all: Vec<u16> = keys_of(ports);
    let mut missing: Vec<u16> = Vec::new();
    let mut i: usize = 0;
    while i < all.len()
        invariant
            i <= all.len(),
            all@.no_duplicates(),
            forall|port: u16| #[trigger] all@.contains(port) <==> ports@.contains_key(port),
            missing@.no_duplicates(),
            forall|port: u16| #[trigger]
                missing@.contains(port) <==> is_missing(sockets@, ports@, port) && all@.take(
                    i as int,
                ).contains(port),
        decreases all.len() - i,
    {
        let port: u16 = all[i];
        let ghost before: Seq<u16> = missing@;
        proof {
            let seen = all@.take(i as int);
            let next = all@.take(i as int + 1);
            assert(next =~= seen.push(port));
            assert(all@.contains(port));
            assert(!seen.contains(port)) by {
                if seen.contains(port) {
                    let j = choose|j: int| 0 <= j < seen.len() && seen[j] == port;
                    assert(all@[j] == all@[i as int]);
                }
            }
            lemma_push_contains(seen, port);
            assert(!missing@.contains(port));
        }
        if !sockets.contains_key(&port) {
            if let Some(item) = ports.get(&port) {
                if !item.reuse_port {
                    missing.push(port);
                    proof {
                        lemma_push_contains(before, port);
                    }
                }
            }
        }
        i = i + 1;
    }
    proof {
        assert(all@.take(i as int) =~= all@);
    }
    missing
}

/// Whether the sockets can be handed to a process with these `ports`: either
/// there are none at all, or there is one for each of its ports. Their file
/// descriptors are not those of the standard streams.
pub open spec fn is_passable(sockets: Map<u16, Socket>, ports: Map<u16, TcpPort>) -> bool {
    &&& sockets.dom() == Set::<u16>::empty() || forall|port: u16| #[trigger]
        ports.contains_key(port) ==> sockets.contains_key(port)
    &&& forall|port: u16| #[trigger]
        sockets.contains_key(port) ==> 3 <= sockets[port].fd < i32::MAX
}

/// Whether the file descriptors of all the sockets, and no more at either end,
/// lie in the range from `lo` to before `hi`.
pub open spec fn is_span(sockets: Map<u16, Socket>, lo: i32, hi: i32) -> bool {
    &&& exists|port: u16| #[trigger] sockets.contains_key(port) && sockets[port].fd == lo
    &&& exists|port: u16| #[trigger] sockets.contains_key(port) && sockets[port].fd == hi - 1
    &&& forall|port: u16| #[trigger]
        sockets.contains_key(port) ==> lo <= sockets[port].fd < hi
}

/// Whether `pass` hands over the sockets of the ports in `order`, each under the
/// file descriptor that the process expects.
pub open spec fn hands_over(
    pass: Seq<(i32, i32)>,
    order: Seq<u16>,
    sockets: Map<u16, Socket>,
    ports: Map<u16, TcpPort>,
) -> bool {
    &&& order.no_duplicates()
    &&& forall|port: u16| #[trigger] order.contains(port) <==> ports.contains_key(port)
    &&& pass == Seq::new(order.len(), |i: int| (ports[order[i]].fd, sockets[order[i]].fd))
}

/// What becomes of the file descriptors of a process with these `ports`: nothing
/// where there are no sockets; else all the sockets are closed in it, except
/// those of its own ports, which it gets.
pub open spec fn is_fd_plan(
    close_fds: Option<(i32, i32)>,
    pass: Seq<(i32, i32)>,
    sockets: Map<u16, Socket>,
    ports: Map<u16, TcpPort>,
) -> bool {
    if sockets.dom() == Set::<u16>::empty() {
        close_fds is None && pass == Seq::<(i32, i32)>::empty()
    } else {
        &&& close_fds matches Some(range) && is_span(sockets, range.0, range.1)
        &&& exists|order: Seq<u16>| hands_over(pass, order, sockets, ports)
    }
}

/// Whether the sockets can be handed to a process with these `ports`.
pub fn can_pass_sockets(
    sockets: &HashMap<u16, Socket>,
    ports: &HashMap<u16, TcpPort>,
) -> (r: bool)
    ensures
        r == is_passable(sockets@, ports@),
{
    broadcast use vstd::std_specs::hash::group_hash_axioms;

    let held: Vec<u16> = keys_of(sockets);
    let wanted: Vec<u16> = keys_of(ports);
    let mut i: usize = 0;
    while i < held.len()
        invariant
            i <= held.len(),
            forall|port: u16| #[trigger] held@.contains(port) <==> sockets@.contains_key(port),
            forall|j: int|
                0 <= j < i ==> 3 <= sockets@[#[trigger] held@[j]].fd < i32::MAX,
        decreases held.len() - i,
    {
        assert(held@.contains(held@[i as int]));
        if let Some(socket) = sockets.get(&held[i]) {
            if socket.fd < 3 || socket.fd == i32::MAX {
                return false;
            }
        }
        i = i + 1;
    }
    proof {
        assert forall|port: u16| #[trigger] sockets@.contains_key(port) implies 3
            <= sockets@[port].fd < i32::MAX by {
            assert(held@.contains(port));
            let j = choose|j: int| 0 <= j < held.len() && held@[j] == port;
            assert(3 <= sockets@[held@[j]].fd < i32::MAX);
        }
    }
    if held.len() == 0 {
        assert(sockets@.dom() =~= Set::<u16>::empty()) by {
            assert forall|port: u16| !sockets@.dom().contains(port) by {
                assert(!held@.contains(port));
            }
        }
        return true;
    }
    assert(sockets@.dom().contains(held@[0])) by {
        assert(held@.contains(held@[0]));
    }
    let mut k: usize = 0;
    while k < wanted.len()
        invariant
            k <= wanted.len(),
            sockets@.dom() != Set::<u16>::empty(),
            forall|port: u16| #[trigger] wanted@.contains(port) <==> ports@.contains_key(port),
            forall|j: int| 0 <= j < k ==> sockets@.contains_key(#[trigger] wanted@[j]),
        decreases wanted.len() - k,
    {
        assert(wanted@.contains(wanted@[k as int]));
        if !sockets.contains_key(&wanted[k]) {
            return false;
        }
        k = k + 1;
    }
    proof {
        assert forall|port: u16| #[trigger] ports@.contains_key(port) implies sockets@.contains_key(
            port,
        ) by {
            assert(wanted@.contains(port));
            let j = choose|j: int| 0 <= j < wanted.len() && wanted@[j] == port;
            assert(sockets@.contains_key(wanted@[j]));
        }
    }
    true
}

/// A command with other plans for its file descriptors.
pub open spec fn with_fds(
    cmd: Command,
    close_fds: Option<(i32, i32)>,
    pass_fds: Vec<(i32, i32)>,
) -> Command {
    Command { close_fds, pass_fds, ..cmd }
}

/// Sets what becomes of the file descriptors of a process with these `ports`
/// that is started next; what was set before is forgotten.
pub fn pass_sockets(
    cmd: &mut Command,
    sockets: &HashMap<u16, Socket>,
    ports: &HashMap<u16, TcpPort>,
)
    requires
        is_passable(sockets@, ports@),
    ensures
        *final(cmd) == with_fds(*old(cmd), final(cmd).close_fds, final(cmd).pass_fds),
        is_fd_plan(final(cmd).close_fds, final(cmd).pass_fds@, sockets@, ports@),
{
    broadcast use vstd::std_specs::hash::group_hash_axioms;

    cmd.close_fds = None;
    cmd.pass_fds = Vec::new();
    let held: Vec<u16> = keys_of(sockets);
    if held.len() == 0 {
        assert(sockets@.dom() =~= Set::<u16>::empty()) by {
            assert forall|port: u16| !sockets@.dom().contains(port) by {
                assert(!held@.contains(port));
            }
        }
        return;
    }
    assert(held@.contains(held@[0]));
    assert(sockets@.dom().contains(held@[0]));
    let mut lo: i32 = i32::MAX;
    let mut top: i32 = 0;
    let mut i: usize = 0;
    while i < held.len()
        invariant
            i <= held.len(),
            is_passable(sockets@, ports@),
            forall|port: u16| #[trigger] held@.contains(port) <==> sockets@.contains_key(port),
            forall|j: int| 0 <= j < i ==> lo <= sockets@[#[trigger] held@[j]].fd <= top,
            i > 0 ==> exists|j: int| 0 <= j < i && sockets@[#[trigger] held@[j]].fd == lo,
            i > 0 ==> exists|j: int| 0 <= j < i && sockets@[#[trigger] held@[j]].fd == top,
            i == 0 ==> lo == i32::MAX && top == 0,
            top < i32::MAX,
        decreases held.len() - i,
    {
        assert(held@.contains(held@[i as int]));
        if let Some(socket) = sockets.get(&held[i]) {
            proof {
                assert(sockets@[held@[i as int]] == *socket);
            }
            if socket.fd < lo {
                lo = socket.fd;
            }
            if socket.fd > top {
                top = socket.fd;
            }
        }
        i = i + 1;
    }
    proof {
        let a = choose|j: int| 0 <= j < i && sockets@[#[trigger] held@[j]].fd == lo;
        let b = choose|j: int| 0 <= j < i && sockets@[#[trigger] held@[j]].fd == top;
        assert(held@.contains(held@[a]) && held@.contains(held@[b]));
        assert forall|port: u16| #[trigger] sockets@.contains_key(port) implies lo
            <= sockets@[port].fd < top + 1 by {
            assert(held@.contains(port));
            let j = choose|j: int| 0 <= j < held.len() && held@[j] == port;
            assert(lo <= sockets@[held@[j]].fd <= top);
        }
        assert(is_span(sockets@, lo, (top + 1) as i32));
    }
    let order: Vec<u16> = keys_of(ports);
    let mut pass: Vec<(i32, i32)> = Vec::new();
    let mut k: usize = 0;
    while k < order.len()
        invariant
            k <= order.len(),
            is_passable(sockets@, ports@),
            sockets@.dom() != Set::<u16>::empty(),
            forall|port: u16| #[trigger] order@.contains(port) <==> ports@.contains_key(port),
            pass.len() == k,
            forall|j: int|
                0 <= j < k ==> #[trigger] pass@[j] == (ports@[order@[j]].fd, sockets@[order@[j]].fd),
        decreases order.len() - k,
    {
        let port: u16 = order[k];
        assert(order@.contains(order@[k as int]));
        if let Some(item) = ports.get(&port) {
            if let Some(socket) = sockets.get(&port) {
                pass.push((item.fd, socket.fd));
            }
        }
        k = k + 1;
    }
    proof {
        assert(pass@ =~= Seq::new(
            order@.len(),
            |i: int| (ports@[order@[i]].fd, sockets@[order@[i]].fd),
        ));
        assert(hands_over(pass@, order@, sockets@, ports@));
    }
    cmd.close_fds = Some((lo, top + 1));
    cmd.pass_fds = pass;
}

/// Every entry that writes a number of 3 or more gives a file descriptor, in the
/// order of the entries, and no other entry does. The places of those entries are
/// what comes back.
pub proof fn law_inherited_descriptors(names: Seq<Seq<char>>) -> (places: Seq<int>)
    ensures
        are_places(places, names.len() as int),
        inherited_fds(names).len() == places.len(),
        forall|j: int|
            0 <= j < places.len() ==> parsed_i32(names[#[trigger] places[j]]) == Some(
                inherited_fds(names)[j],
            ) && inherited_fds(names)[j] >= 3,
        forall|i: int|
            0 <= i < names.len() && parsed_i32(#[trigger] names[i]) is Some && parsed_i32(
                names[i],
            )->0 >= 3 ==> places.contains(i),
    decreases names.len(),
{
    if names.len() == 0 {
        Seq::empty()
    } else {
        let front = names.drop_last();
        let n = front.len() as int;
        let before = law_inherited_descriptors(front);
        lemma_one_more_place(before, n);
        assert forall|i: int| 0 <= i < n && parsed_i32(#[trigger] names[i]) is Some && parsed_i32(
            names[i],
        )->0 >= 3 implies before.contains(i) by {
            assert(front[i] == names[i]);
        }
        assert(names.last() == names[n]);
        if parsed_i32(names[n]) is Some && parsed_i32(names[n])->0 >= 3 {
            let places = before.push(n);
            assert forall|j: int| 0 <= j < places.len() implies parsed_i32(
                names[#[trigger] places[j]],
            ) == Some(inherited_fds(names)[j]) && inherited_fds(names)[j] >= 3 by {
                if j < before.len() {
                    assert(places[j] == before[j]);
                    assert(front[before[j]] == names[places[j]]);
                }
            }
            places
        } else {
            assert forall|j: int| 0 <= j < before.len() implies parsed_i32(
                names[#[trigger] before[j]],
            ) == Some(inherited_fds(names)[j]) && inherited_fds(names)[j] >= 3 by {
                assert(front[before[j]] == names[before[j]]);
            }
            before
        }
    }
}

/// Whether some of `found` is bound to `port`.
pub open spec fn is_found(found: Seq<(i32, SockName)>, port: u16) -> bool {
    exists|k: int| 0 <= k < found.len() && (#[trigger] found[k]).1 == SockName::Inet(port)
}

/// Whether the one at `k` is the last of `found` that is bound to `port`.
pub open spec fn is_last_found(found: Seq<(i32, SockName)>, port: u16, k: int) -> bool {
    &&& 0 <= k < found.len()
    &&& found[k].1 == SockName::Inet(port)
    &&& forall|l: int| k < l < found.len() ==> (#[trigger] found[l]).1 != SockName::Inet(port)
}

/// The last of the descriptors that were found on a port is held for it. On a port
/// that none was found on, nothing changes.
pub proof fn law_last_found_socket_is_held(
    sockets: Map<u16, Socket>,
    found: Seq<(i32, SockName)>,
    port: u16,
)
    ensures
        with_found(sockets, found).contains_key(port) <==> sockets.contains_key(port) || is_found(
            found,
            port,
        ),
        !is_found(found, port) && sockets.contains_key(port) ==> with_found(sockets, found)[port]
            == sockets[port],
        forall|k: int| #[trigger]
            is_last_found(found, port, k) ==> with_found(sockets, found)[port].fd == found[k].0,
        is_found(found, port) ==> exists|k: int| is_last_found(found, port, k),
    decreases found.len(),
{
    if found.len() > 0 {
        let front = found.drop_last();
        let n = front.len() as int;
        law_last_found_socket_is_held(sockets, front, port);
        assert(found.last() == found[n]);
        if found[n].1 == SockName::Inet(port) {
            assert(is_found(found, port));
            assert(is_last_found(found, port, n));
            assert forall|k: int| #[trigger] is_last_found(found, port, k) implies k == n by {
                if k < n {
                    assert(found[n].1 != SockName::Inet(port));
                }
            }
        } else {
            assert forall|k: int| #[trigger] is_last_found(found, port, k) implies is_last_found(
                front,
                port,
                k,
            ) by {
                assert(front[k] == found[k]);
                assert forall|l: int| k < l < front.len() implies (#[trigger] front[l]).1
                    != SockName::Inet(port) by {
                    assert(front[l] == found[l]);
                }
            }
            if is_found(front, port) {
                let k = choose|k: int| is_last_found(front, port, k);
                assert(found[k] == front[k]);
                assert forall|l: int| k < l < found.len() implies (#[trigger] found[l]).1
                    != SockName::Inet(port) by {
                    if l < n {
                        assert(front[l] == found[l]);
                    }
                }
                assert(is_last_found(found, port, k));
            }
            if is_found(found, port) {
                let k = choose|k: int|
                    0 <= k < found.len() && (#[trigger] found[k]).1 == SockName::Inet(port);
                assert(front[k] == found[k]);
            }
        }
    }
}

/// Whether the one at `i` was found on a port that was held already, or that one
/// before it was found on.
pub open spec fn meets_another(
    sockets: Map<u16, Socket>,
    found: Seq<(i32, SockName)>,
    i: int,
) -> bool {
    found[i].1 matches SockName::Inet(port) && (sockets.contains_key(port) || is_found(
        found.take(i),
        port,
    ))
}

/// Every descriptor that meets another one on its port is told, in the order in
/// which they were found, and no other: with its port, and with the one that was
/// held for the port before. Their places are what comes back.
pub proof fn law_conflicts_are_told(sockets: Map<u16, Socket>, found: Seq<(i32, SockName)>) -> (places:
    Seq<int>)
    ensures
        are_places(places, found.len() as int),
        conflicts(sockets, found).len() == places.len(),
        forall|j: int|
            0 <= j < places.len() ==> {
                let i = #[trigger] places[j];
                let told = conflicts(sockets, found)[j];
                &&& meets_another(sockets, found, i)
                &&& found[i] == (told.fd, SockName::Inet(told.port))
                &&& with_found(sockets, found.take(i)).contains_key(told.port)
                &&& told.old_fd == with_found(sockets, found.take(i))[told.port].fd
            },
        forall|i: int|
            0 <= i < found.len() && #[trigger] meets_another(sockets, found, i) ==> places.contains(
                i,
            ),
    decreases found.len(),
{
    if found.len() == 0 {
        Seq::empty()
    } else {
        let front = found.drop_last();
        let n = front.len() as int;
        let before = law_conflicts_are_told(sockets, front);
        let told = conflicts(sockets, found);
        lemma_one_more_place(before, n);
        assert forall|i: int| 0 <= i < n implies front.take(i) == #[trigger] found.take(i) by {
            assert(front.take(i) =~= found.take(i));
        }
        assert(found.take(n) =~= front);
        assert(found.last() == found[n]);
        assert forall|i: int| 0 <= i < n && #[trigger] meets_another(
            sockets,
            found,
            i,
        ) implies before.contains(i) by {
            assert(front[i] == found[i]);
            assert(front.take(i) == found.take(i));
            assert(meets_another(sockets, front, i));
        }
        if let SockName::Inet(port) = found[n].1 {
            law_last_found_socket_is_held(sockets, front, port);
        }
        let places = if meets_another(sockets, found, n) {
            before.push(n)
        } else {
            before
        };
        assert forall|j: int| 0 <= j < places.len() implies {
            let i = #[trigger] places[j];
            &&& meets_another(sockets, found, i)
            &&& found[i] == (told[j].fd, SockName::Inet(told[j].port))
            &&& with_found(sockets, found.take(i)).contains_key(told[j].port)
            &&& told[j].old_fd == with_found(sockets, found.take(i))[told[j].port].fd
        } by {
            if j < before.len() {
                let i = before[j];
                assert(places[j] == i);
                assert(meets_another(sockets, front, i));
                assert(front[i] == found[i]);
                assert(front.take(i) == found.take(i));
                assert(told[j] == conflicts(sockets, front)[j]);
            }
        }
        places
    }
}

/// A socket stays held just where a child is known as a process that listens on its
/// port, and then as it was. What is given up is closed, and nothing else.
pub proof fn law_sockets_of_processes_stay(
    sockets: Map<u16, Socket>,
    children: Map<i32, Child>,
    closed: Seq<(u16, i32)>,
    port: u16,
)
    requires
        are_unused(closed, sockets, children),
    ensures
        used_sockets(sockets, children).contains_key(port) <==> sockets.contains_key(port) && exists|
            pid: i32,
            i: int,
        |
            children.contains_key(pid) && (children[pid] matches Child::Process(process) && 0 <= i
                < process.ports@.len() && #[trigger] listens_at(children[pid], i, port)),
        used_sockets(sockets, children).contains_key(port) ==> used_sockets(sockets, children)[port]
            == sockets[port],
        closed.no_duplicates(),
        forall|fd: i32| #[trigger]
            closed.contains((port, fd)) <==> sockets.contains_key(port) && !used_sockets(
                sockets,
                children,
            ).contains_key(port) && sockets[port].fd == fd,
{
    if is_used(children, port) {
        let pid = choose|pid: i32| #[trigger]
            children.contains_key(pid) && children[pid].uses(port);
        let ports = children[pid]->Process_0.ports@;
        let i = choose|i: int| 0 <= i < ports.len() && ports[i] == port;
        assert(listens_at(children[pid], i, port));
    }
    assert forall|pid: i32, i: int|
        children.contains_key(pid) && (children[pid] matches Child::Process(process) && 0 <= i
            < process.ports@.len() && #[trigger] listens_at(children[pid], i, port)) implies is_used(
    children, port) by {
        assert(children[pid].uses(port));
    }
}

/// Whether the port at the place `i` of a child's ports is `port`.
pub open spec fn listens_at(child: Child, i: int, port: u16) -> bool {
    child matches Child::Process(process) && process.ports@[i] == port
}

/// A socket is made by binding it and listening on it, with the backlog that is
/// asked for, in this order and at the end; before that come the options that are
/// asked for, and no others.
pub proof fn law_socket_setup(port: TcpPort)
    ensures
        ({
            let steps = setup_steps(port);
            let n = steps.len() as int;
            &&& n == 2 + (if port.reuse_addr { 1int } else { 0 }) + (if port.reuse_port {
                1int
            } else {
                0
            })
            &&& steps[n - 1] == SocketStep::Listen(port.listen_backlog)
            &&& steps[n - 2] == SocketStep::Bind
            &&& port.reuse_addr ==> steps[0] == SocketStep::ReuseAddr
            &&& port.reuse_port ==> steps[n - 3] == SocketStep::ReusePort
        }),
{
}

/// Before a process is started, a socket is opened for each of its ports that none
/// is held for, unless the process opens it itself; none is opened twice, and none
/// for another port. Once they are there, every port that the process does not
/// open itself has its socket.
pub proof fn law_missing_sockets_are_opened(
    opened: Seq<u16>,
    sockets: Map<u16, Socket>,
    ports: Map<u16, TcpPort>,
    port: u16,
)
    requires
        are_missing(opened, sockets, ports),
    ensures
        opened.no_duplicates(),
        opened.contains(port) <==> ports.contains_key(port) && !sockets.contains_key(port)
            && !ports[port].reuse_port,
        ports.contains_key(port) && !ports[port].reuse_port ==> sockets.contains_key(port)
            || opened.contains(port),
{
}

/// Whether `pair` hands over the socket of `port`, under the file descriptor that
/// the process expects it under.
pub open spec fn is_port_of(
    pair: (i32, i32),
    sockets: Map<u16, Socket>,
    ports: Map<u16, TcpPort>,
    port: u16,
) -> bool {
    ports.contains_key(port) && pair.0 == ports[port].fd && pair.1 == sockets[port].fd
}

/// A process gets the socket of each of its ports under the file descriptor that it
/// expects it under, and nothing else; all the sockets that are held lie in the
/// range that is closed in it, and the range is no wider. Without sockets nothing
/// is done.
pub proof fn law_process_gets_its_sockets(
    close_fds: Option<(i32, i32)>,
    pass: Seq<(i32, i32)>,
    sockets: Map<u16, Socket>,
    ports: Map<u16, TcpPort>,
)
    requires
        is_fd_plan(close_fds, pass, sockets, ports),
    ensures
        (forall|port: u16| !sockets.contains_key(port)) ==> close_fds is None && pass.len() == 0,
        forall|port: u16| #[trigger]
            sockets.contains_key(port) ==> close_fds is Some && (close_fds->0).0 <= sockets[port].fd
                < (close_fds->0).1,
        close_fds matches Some(range) ==> exists|low: u16, high: u16|
            #![trigger sockets.contains_key(low), sockets.contains_key(high)]
            sockets.contains_key(low) && sockets.contains_key(high) && sockets[low].fd == range.0
                && sockets[high].fd + 1 == range.1,
        forall|port: u16| #[trigger]
            ports.contains_key(port) && close_fds is Some ==> pass.contains(
                (ports[port].fd, sockets[port].fd),
            ),
        forall|pair: (i32, i32)| #[trigger]
            pass.contains(pair) ==> exists|port: u16| #[trigger]
                is_port_of(pair, sockets, ports, port),
        close_fds is Some ==> ports.dom().finite() && pass.len() == ports.dom().len(),
{
    if forall|port: u16| !sockets.contains_key(port) {
        assert(sockets.dom() =~= Set::<u16>::empty());
    }
    if close_fds is Some {
        let range = close_fds->0;
        assert(is_span(sockets, range.0, range.1));
        let low = choose|port: u16| #[trigger]
            sockets.contains_key(port) && sockets[port].fd == range.0;
        let high = choose|port: u16| #[trigger]
            sockets.contains_key(port) && sockets[port].fd == range.1 - 1;
        assert(sockets.contains_key(low) && sockets.contains_key(high));
        let order = choose|order: Seq<u16>| hands_over(pass, order, sockets, ports);
        assert forall|port: u16| #[trigger] ports.contains_key(port) implies pass.contains(
            (ports[port].fd, sockets[port].fd),
        ) by {
            assert(order.contains(port));
            let k = choose|k: int| 0 <= k < order.len() && order[k] == port;
            assert(pass[k] == (ports[port].fd, sockets[port].fd));
        }
        assert forall|pair: (i32, i32)| #[trigger] pass.contains(pair) implies exists|port: u16|
            #[trigger] is_port_of(pair, sockets, ports, port) by {
            let k = choose|k: int| 0 <= k < pass.len() && pass[k] == pair;
            assert(order.contains(order[k]));
            assert(is_port_of(pair, sockets, ports, order[k]));
        }
        order.unique_seq_to_set();
        assert(order.to_set() =~= ports.dom());
        order.lemma_cardinality_of_set();
    }
    assert forall|port: u16| #[trigger] sockets.contains_key(port) implies close_fds is Some by {
        assert(sockets.dom().contains(port));
    }
}

/// The sockets can be handed over where none is held, or where one is held for
/// each port of the process; not where some are held, but none for one of its
/// ports, nor where one of them has the file descriptor of a standard stream.
pub proof fn law_when_sockets_can_be_handed_over(
    sockets: Map<u16, Socket>,
    ports: Map<u16, TcpPort>,
    held: u16,
    wanted: u16,
)
    ensures
        (forall|port: u16| !sockets.contains_key(port)) ==> is_passable(sockets, ports),
        (forall|port: u16| #[trigger] ports.contains_key(port) ==> sockets.contains_key(port)) && (
        forall|port: u16| #[trigger]
            sockets.contains_key(port) ==> 2 < sockets[port].fd < i32::MAX) ==> is_passable(
            sockets,
            ports,
        ),
        is_passable(sockets, ports) && sockets.contains_key(held) && ports.contains_key(wanted)
            ==> sockets.contains_key(wanted),
        is_passable(sockets, ports) && sockets.contains_key(held) ==> 2 < sockets[held].fd
            < i32::MAX,
{
    if forall|port: u16| !sockets.contains_key(port) {
        assert(sockets.dom() =~= Set::<u16>::empty());
    }
    assert(sockets.contains_key(held) ==> sockets.dom().contains(held));
}

} // verus!
