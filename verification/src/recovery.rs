//! Taking over the children of an earlier run of the supervisor.
use std::collections::HashMap;

use vstd::prelude::*;

use crate::command::{read_args, recognized};
use crate::pattern::{captures, regex_captures, Groups, StatLine, PARENT_PID};
use crate::places::{are_places, lemma_one_more_place};
use crate::process::{known, Child, ChildView, Process};
use crate::table::ProcessTable;
use crate::text::{parse_i32, parsed_i32, same_text};

verus! {

/// The pid that the group of a match writes, if there is a match.
pub open spec fn pid_found(found: Groups) -> Option<i32> {
    match found {
        Some(groups) => match groups[1] {
            Some(text) => parsed_i32(text),
            None => None,
        },
        None => None,
    }
}

/// The parent's pid in a stat line, from what was found of the pattern in it.
pub fn parent_pid(found: &Option<Vec<Option<String>>>) -> (r: Option<i32>)
    requires
        found.deep_view() matches Some(groups) ==> groups.len() > 1 && groups[1] is Some,
    ensures
        r == pid_found(found.deep_view()),
{
    match found {
        Some(groups) => {
            assert(found.deep_view()->0[1] == groups@[1].deep_view());
            match &groups[1] {
                Some(text) => parse_i32(text.as_str()),
                None => None,
            }
        },
        None => None,
    }
}

/// Whether the process with this line in `/proc/PID/stat` is a child of `ppid`.
pub open spec fn is_child_line(stat: Seq<char>, ppid: i32) -> bool {
    pid_found(regex_captures(PARENT_PID@, stat)) == Some(ppid)
}

/// Whether the process with this line in `/proc/PID/stat` is a child of `ppid`.
/// A stat line tells it by its parent.
pub fn is_child(stat: &str, ppid: i32) -> (r: bool)
    ensures
        r == is_child_line(stat@, ppid),
        forall|line: StatLine|
            line.well_formed() && #[trigger] line.render() == stat@ ==> r == (parsed_i32(
                line.parent,
            ) == Some(ppid)),
        r ==> exists|line: StatLine|
            line.plausible() && #[trigger] line.render() == stat@ && parsed_i32(line.parent)
                == Some(ppid),
{
    let found: Option<Vec<Option<String>>> = captures(PARENT_PID, stat);
    match parent_pid(&found) {
        Some(pid) => pid == ppid,
        None => false,
    }
}

/// A process as `/proc` shows it. What could not be read is missing.
#[derive(Debug)]
pub struct ProcEntry {
    /// The name of its directory.
    pub name: String,
    pub stat: Option<String>,
    pub cmdline: Option<String>,
}

/// Why a child is asked to terminate.
#[derive(Debug)]
pub enum Notice {
    /// It runs with a configuration that is out of date.
    Outdated { pid: i32, name: String },
    /// No configuration asks for it.
    Undefined { pid: i32, name: String },
    /// It is not known what it is.
    Unknown { pid: i32 },
}

/// What a notice is.
pub enum NoticeView {
    Outdated { pid: i32, name: Seq<char> },
    Undefined { pid: i32, name: Seq<char> },
    Unknown { pid: i32 },
}

impl View for Notice {
    type V = NoticeView;

    open spec fn view(&self) -> NoticeView {
        match self {
            Notice::Outdated { pid, name } => NoticeView::Outdated { pid: *pid, name: name@ },
            Notice::Undefined { pid, name } => NoticeView::Undefined { pid: *pid, name: name@ },
            Notice::Unknown { pid } => NoticeView::Unknown { pid: *pid },
        }
    }
}

impl DeepView for Notice {
    type V = NoticeView;

    open spec fn deep_view(&self) -> NoticeView {
        self@
    }
}

impl Notice {
    /// The process that is asked to terminate.
    pub fn pid(&self) -> (r: i32)
        ensures
            r == notice_pid(self@),
    {
        match self {
            Notice::Outdated { pid, .. } => *pid,
            Notice::Undefined { pid, .. } => *pid,
            Notice::Unknown { pid } => *pid,
        }
    }
}

/// The process that is asked to terminate.
pub open spec fn notice_pid(notice: NoticeView) -> i32 {
    match notice {
        NoticeView::Outdated { pid, .. } => pid,
        NoticeView::Undefined { pid, .. } => pid,
        NoticeView::Unknown { pid } => pid,
    }
}

/// What is known while children are taken over: the children, the configured
/// processes that none was found for yet, and the children that are asked to
/// terminate.
pub struct Recovery {
    pub children: Map<i32, ChildView>,
    pub configs: Map<Seq<char>, Process>,
    pub notices: Seq<NoticeView>,
}

/// A child is taken over: one that is configured is known as that process, and
/// is asked to terminate where its configuration is out of date; others are
/// asked to terminate.
pub open spec fn with_child(
    state: Recovery,
    pid: i32,
    args: Option<(Seq<char>, Seq<char>)>,
) -> Recovery {
    match args {
        None => Recovery { notices: state.notices.push(NoticeView::Unknown { pid }), ..state },
        Some((name, config)) => if state.configs.contains_key(name) {
            let process = state.configs[name];
            Recovery {
                children: state.children.insert(pid, ChildView::Process(process)),
                configs: state.configs.remove(name),
                notices: if process.config@ == config {
                    state.notices
                } else {
                    state.notices.push(NoticeView::Outdated { pid, name })
                },
            }
        } else {
            Recovery {
                children: state.children.insert(pid, ChildView::Unidentified(name)),
                configs: state.configs,
                notices: state.notices.push(NoticeView::Undefined { pid, name }),
            }
        },
    }
}

/// The pid of an entry, where it is a child of `mypid`.
pub open spec fn own_pid(entry: ProcEntry, mypid: i32) -> Option<i32> {
    match (parsed_i32(entry.name@), entry.stat) {
        (Some(pid), Some(stat)) => if is_child_line(stat@, mypid) {
            Some(pid)
        } else {
            None
        },
        _ => None,
    }
}

/// The name and the configuration on the command line of an entry, where it is
/// that of a supervised process.
pub open spec fn own_args(entry: ProcEntry, config_file: Seq<char>) -> Option<
    (Seq<char>, Seq<char>),
> {
    match entry.cmdline {
        Some(cmdline) => recognized(cmdline@, config_file),
        None => None,
    }
}

/// What is known once the entries were looked at, one after the other.
pub open spec fn after_entries(
    state: Recovery,
    entries: Seq<ProcEntry>,
    mypid: i32,
    config_file: Seq<char>,
) -> Recovery
    decreases entries.len(),
{
    if entries.len() == 0 {
        state
    } else {
        let before = after_entries(state, entries.drop_last(), mypid, config_file);
        match own_pid(entries.last(), mypid) {
            Some(pid) => with_child(before, pid, own_args(entries.last(), config_file)),
            None => before,
        }
    }
}

/// Takes over one child, whose command line was read as `args`.
pub fn recover_process(
    children: &mut HashMap<i32, Child>,
    configs: &mut ProcessTable,
    pid: i32,
    args: Result<(String, String), ()>,
) -> (r: Option<Notice>)
    requires
        old(configs).inv(),
    ensures
        final(configs).inv(),
        ({
            let before = Recovery {
                children: known(old(children)@),
                configs: old(configs)@,
                notices: Seq::empty(),
            };
            let read = match args {
                Ok((name, config)) => Some((name@, config@)),
                Err(_) => None,
            };
            let after = with_child(before, pid, read);
            &&& known(final(children)@) == after.children
            &&& final(configs)@ == after.configs
            &&& after.notices == match r {
                Some(notice) => seq![notice@],
                None => Seq::empty(),
            }
        }),
{
    broadcast use vstd::std_specs::hash::group_hash_axioms;

    match args {
        Ok((name, config)) => {
            match configs.remove(name.as_str()) {
                Some(process) => {
                    let outdated: bool = !same_text(process.config.as_str(), config.as_str());
                    children.insert(pid, Child::Process(process));
                    proof {
                        assert(known(children@) =~= known(old(children)@).insert(
                            pid,
                            ChildView::Process(process),
                        ));
                    }
                    if outdated {
                        let notice = Notice::Outdated { pid, name };
                        assert(Seq::<NoticeView>::empty().push(notice@) =~= seq![notice@]);
                        Some(notice)
                    } else {
                        None
                    }
                },
                None => {
                    let ghost old_name: Seq<char> = name@;
                    children.insert(pid, Child::Unidentified(name.clone()));
                    let notice = Notice::Undefined { pid, name };
                    proof {
                        assert(known(children@) =~= known(old(children)@).insert(
                            pid,
                            ChildView::Unidentified(old_name),
                        ));
                        assert(configs@ =~= old(configs)@);
                        assert(Seq::<NoticeView>::empty().push(notice@) =~= seq![notice@]);
                    }
                    Some(notice)
                },
            }
        },
        Err(_) => {
            let notice = Notice::Unknown { pid };
            assert(Seq::<NoticeView>::empty().push(notice@) =~= seq![notice@]);
            Some(notice)
        },
    }
}

/// Takes over the children of an earlier run of the supervisor among the
/// processes that `/proc` shows. What comes back are the children that are to be
/// asked to terminate, in the order in which they were found.
pub fn recover_processes(
    children: &mut HashMap<i32, Child>,
    configs: &mut ProcessTable,
    entries: &Vec<ProcEntry>,
    mypid: i32,
    config_file: &str,
) -> (r: Vec<Notice>)
    requires
        old(configs).inv(),
    ensures
        final(configs).inv(),
        ({
            let after = after_entries(
                Recovery {
                    children: known(old(children)@),
                    configs: old(configs)@,
                    notices: Seq::empty(),
                },
                entries@,
                mypid,
                config_file@,
            );
            &&& known(final(children)@) == after.children
            &&& final(configs)@ == after.configs
            &&& r.deep_view() == after.notices
        }),
{
    let mut notices: Vec<Notice> = Vec::new();
    let ghost start = Recovery {
        children: known(children@),
        configs: configs@,
        notices: Seq::empty(),
    };
    let mut i: usize = 0;
    assert(entries@.take(0) =~= Seq::<ProcEntry>::empty());
    assert(notices.deep_view() =~= Seq::<NoticeView>::empty());
    while i < entries.len()
        invariant
            i <= entries.len(),
            configs.inv(),
            ({
                let now = after_entries(start, entries@.take(i as int), mypid, config_file@);
                &&& known(children@) == now.children
                &&& configs@ == now.configs
                &&& notices.deep_view() == now.notices
            }),
        decreases entries.len() - i,
    {
        let entry: &ProcEntry = &entries[i];
        let ghost seen: Seq<NoticeView> = notices.deep_view();
        proof {
            let next = entries@.take(i as int + 1);
            assert(next.drop_last() =~= entries@.take(i as int));
            assert(next.last() == *entry);
        }
        if let Some(pid) = parse_i32(entry.name.as_str()) {
            let own: bool = match &entry.stat {
                Some(stat) => is_child(stat.as_str(), mypid),
                None => false,
            };
            if own {
                let args: Result<(String, String), ()> = match &entry.cmdline {
                    Some(cmdline) => read_args(cmdline.as_str(), config_file),
                    None => Err(()),
                };
                if let Some(notice) = recover_process(children, configs, pid, args) {
                    notices.push(notice);
                    proof {
                        assert(notices.deep_view() =~= seen.push(notice@));
                        lemma_single_notice(seen, notice@);
                    }
                }
                proof {
                    let before = after_entries(
                        start,
                        entries@.take(i as int),
                        mypid,
                        config_file@,
                    );
                    lemma_notices_add(before, pid, own_args(*entry, config_file@));
                }
            }
        }
        i = i + 1;
    }
    assert(entries@.take(i as int) =~= entries@);
    notices
}

proof fn lemma_single_notice(seen: Seq<NoticeView>, notice: NoticeView)
    ensures
        seen + seq![notice] == seen.push(notice),
{
    assert(seen + seq![notice] =~= seen.push(notice));
}

/// A child adds its notice to those that were there.
proof fn lemma_notices_add(state: Recovery, pid: i32, args: Option<(Seq<char>, Seq<char>)>)
    ensures
        ({
            let fresh = Recovery { notices: Seq::empty(), ..state };
            let a = with_child(state, pid, args);
            let b = with_child(fresh, pid, args);
            &&& a.children == b.children
            &&& a.configs == b.configs
            &&& a.notices == state.notices + b.notices
        }),
{
    let fresh = Recovery { notices: Seq::empty(), ..state };
    let a = with_child(state, pid, args);
    let b = with_child(fresh, pid, args);
    assert(a.notices =~= state.notices + b.notices);
}

/// Whether a process of this name is configured and not running, or runs as a
/// child that is known as that process.
pub open spec fn is_tracked(state: Recovery, name: Seq<char>) -> bool {
    ||| state.configs.contains_key(name)
    ||| exists|pid: i32| #[trigger]
        state.children.contains_key(pid) && is_process_called(state.children[pid], name)
}

/// Whether a child is known as the process `name`.
pub open spec fn is_process_called(child: ChildView, name: Seq<char>) -> bool {
    child matches ChildView::Process(process) && process.name@ == name
}

/// Whether every configured process bears the name that it is listed under, and
/// no process is both configured as not running and known as a child, or known
/// as two children.
pub open spec fn is_consistent(state: Recovery) -> bool {
    &&& forall|name: Seq<char>| #[trigger]
        state.configs.contains_key(name) ==> state.configs[name].name@ == name
    &&& forall|name: Seq<char>, pid: i32|
        #![trigger state.configs.contains_key(name), state.children.contains_key(pid)]
        state.configs.contains_key(name) && state.children.contains_key(pid)
            ==> !is_process_called(state.children[pid], name)
    &&& forall|a: i32, b: i32, name: Seq<char>|
        #![trigger is_process_called(state.children[a], name), is_process_called(state.children[b], name)]
        state.children.contains_key(a) && state.children.contains_key(b) && is_process_called(
            state.children[a],
            name,
        ) && is_process_called(state.children[b], name) ==> a == b
}

/// Taking over a child mixes up no processes, not even one whose pid is known
/// already.
pub proof fn law_recovered_child_keeps_consistency(
    state: Recovery,
    pid: i32,
    args: Option<(Seq<char>, Seq<char>)>,
)
    requires
        is_consistent(state),
    ensures
        is_consistent(with_child(state, pid, args)),
{
    let after = with_child(state, pid, args);
    assert forall|a: i32, b: i32, name: Seq<char>|
        #![trigger is_process_called(after.children[a], name), is_process_called(after.children[b], name)]
        after.children.contains_key(a) && after.children.contains_key(b) && is_process_called(
            after.children[a],
            name,
        ) && is_process_called(after.children[b], name) implies a == b by {
        if a != b && after.children != state.children {
            if a != pid && b != pid {
                assert(is_process_called(state.children[a], name));
                assert(is_process_called(state.children[b], name));
            } else if a == pid {
                assert(state.configs.contains_key(name));
                assert(state.children.contains_key(b));
            } else {
                assert(state.configs.contains_key(name));
                assert(state.children.contains_key(a));
            }
        } else if a != b {
            assert(is_process_called(state.children[a], name));
            assert(is_process_called(state.children[b], name));
        }
    }
}

/// Taking over children mixes up no processes.
pub proof fn law_recovery_keeps_consistency(
    state: Recovery,
    entries: Seq<ProcEntry>,
    mypid: i32,
    config_file: Seq<char>,
)
    requires
        is_consistent(state),
    ensures
        is_consistent(after_entries(state, entries, mypid, config_file)),
    decreases entries.len(),
{
    if entries.len() > 0 {
        let front = entries.drop_last();
        law_recovery_keeps_consistency(state, front, mypid, config_file);
        if let Some(pid) = own_pid(entries.last(), mypid) {
            law_recovered_child_keeps_consistency(
                after_entries(state, front, mypid, config_file),
                pid,
                own_args(entries.last(), config_file),
            );
        }
    }
}

/// Taking over a child that was not known before loses no configured process and
/// makes none run twice: just the same processes are configured or known as
/// before.
pub proof fn law_recovered_child_keeps_processes(
    state: Recovery,
    pid: i32,
    args: Option<(Seq<char>, Seq<char>)>,
)
    requires
        is_consistent(state),
        !state.children.contains_key(pid),
    ensures
        is_consistent(with_child(state, pid, args)),
        forall|name: Seq<char>| #[trigger]
            is_tracked(with_child(state, pid, args), name) <==> is_tracked(state, name),
{
    let after = with_child(state, pid, args);
    law_recovered_child_keeps_consistency(state, pid, args);
    assert forall|name: Seq<char>| #[trigger] is_tracked(after, name) <==> is_tracked(
        state,
        name,
    ) by {
        if is_tracked(state, name) {
            if state.configs.contains_key(name) {
                if !after.configs.contains_key(name) {
                    assert(after.children.contains_key(pid));
                    assert(is_process_called(after.children[pid], name));
                }
            } else {
                let q = choose|q: i32| #[trigger]
                    state.children.contains_key(q) && is_process_called(state.children[q], name);
                assert(after.children.contains_key(q));
            }
        }
        if is_tracked(after, name) && !after.configs.contains_key(name) {
            let q = choose|q: i32| #[trigger]
                after.children.contains_key(q) && is_process_called(after.children[q], name);
            if q != pid {
                assert(state.children.contains_key(q));
            }
        }
    }
}

/// Whether no two entries are the same child, and none is known already.
pub open spec fn are_new_children(state: Recovery, entries: Seq<ProcEntry>, mypid: i32) -> bool {
    &&& forall|i: int, j: int|
        0 <= i < j < entries.len() && own_pid(#[trigger] entries[i], mypid) is Some ==> own_pid(
            entries[i],
            mypid,
        ) != own_pid(#[trigger] entries[j], mypid)
    &&& forall|i: int|
        0 <= i < entries.len() ==> (own_pid(#[trigger] entries[i], mypid) matches Some(pid)
            ==> !state.children.contains_key(pid))
}

/// Whether `child` is unidentified, or known as one of the processes of `configs`.
pub open spec fn is_configured(child: ChildView, configs: Map<Seq<char>, Process>) -> bool {
    child matches ChildView::Process(process) ==> configs.contains_key(process.name@) && process
        == configs[process.name@]
}

/// Taking over all the children loses no configured process and makes none run
/// twice. The processes stay as they are configured, both those that are still to
/// be started and those that were taken over, and the children that were known
/// before stay as they are.
pub proof fn law_recovery_keeps_processes(
    state: Recovery,
    entries: Seq<ProcEntry>,
    mypid: i32,
    config_file: Seq<char>,
)
    requires
        is_consistent(state),
        are_new_children(state, entries, mypid),
    ensures
        is_consistent(after_entries(state, entries, mypid, config_file)),
        forall|name: Seq<char>| #[trigger]
            is_tracked(after_entries(state, entries, mypid, config_file), name) <==> is_tracked(
                state,
                name,
            ),
        forall|pid: i32| #[trigger]
            after_entries(state, entries, mypid, config_file).children.contains_key(pid) ==> (
            state.children.contains_key(pid) || exists|i: int|
                0 <= i < entries.len() && own_pid(#[trigger] entries[i], mypid) == Some(pid)),
        forall|name: Seq<char>| #[trigger]
            after_entries(state, entries, mypid, config_file).configs.contains_key(name)
                ==> state.configs.contains_key(name) && after_entries(
                state,
                entries,
                mypid,
                config_file,
            ).configs[name] == state.configs[name],
        forall|pid: i32| #[trigger]
            after_entries(state, entries, mypid, config_file).children.contains_key(pid)
                && !state.children.contains_key(pid) ==> is_configured(
                after_entries(state, entries, mypid, config_file).children[pid],
                state.configs,
            ),
        forall|pid: i32| #[trigger]
            state.children.contains_key(pid) ==> after_entries(
                state,
                entries,
                mypid,
                config_file,
            ).children.contains_key(pid) && after_entries(
                state,
                entries,
                mypid,
                config_file,
            ).children[pid] == state.children[pid],
    decreases entries.len(),
{
    if entries.len() > 0 {
        let front = entries.drop_last();
        let last = entries.len() - 1;
        lemma_front_is_new(state, entries, mypid);
        law_recovery_keeps_processes(state, front, mypid, config_file);
        let before = after_entries(state, front, mypid, config_file);
        let after = after_entries(state, entries, mypid, config_file);
        if let Some(pid) = own_pid(entries[last], mypid) {
            assert(!before.children.contains_key(pid)) by {
                if before.children.contains_key(pid) {
                    let i = choose|i: int|
                        0 <= i < front.len() && own_pid(#[trigger] front[i], mypid) == Some(pid);
                    assert(front[i] == entries[i]);
                }
            }
            law_recovered_child_keeps_processes(before, pid, own_args(entries[last], config_file));
        }
        assert forall|pid: i32| #[trigger] after.children.contains_key(pid) implies (
        state.children.contains_key(pid) || exists|i: int|
            0 <= i < entries.len() && own_pid(#[trigger] entries[i], mypid) == Some(pid)) by {
            if before.children.contains_key(pid) {
                if !state.children.contains_key(pid) {
                    let i = choose|i: int|
                        0 <= i < front.len() && own_pid(#[trigger] front[i], mypid) == Some(pid);
                    assert(own_pid(entries[i], mypid) == Some(pid));
                }
            } else {
                assert(own_pid(entries[last], mypid) == Some(pid));
            }
        }
        assert forall|name: Seq<char>| #[trigger] is_tracked(after, name) <==> is_tracked(
            state,
            name,
        ) by {
            assert(is_tracked(before, name) <==> is_tracked(state, name));
        }
        assert forall|name: Seq<char>| #[trigger] after.configs.contains_key(name) implies
            state.configs.contains_key(name) && after.configs[name] == state.configs[name] by {
            assert(before.configs.contains_key(name));
        }
        assert forall|pid: i32| #[trigger]
            after.children.contains_key(pid) && !state.children.contains_key(pid) implies is_configured(
            after.children[pid],
            state.configs,
        ) by {
            if before.children.contains_key(pid) {
                assert(is_configured(before.children[pid], state.configs));
            }
        }
        assert forall|pid: i32| #[trigger] state.children.contains_key(pid) implies
            after.children.contains_key(pid) && after.children[pid] == state.children[pid] by {
            assert(before.children.contains_key(pid));
        }
    }
}

/// Every child of the supervisor that is taken over is known afterwards or was
/// asked to terminate, and one that is known as a process runs with its current
/// configuration or was asked to terminate.
pub proof fn law_recovered_child_is_known_or_told(
    state: Recovery,
    pid: i32,
    args: Option<(Seq<char>, Seq<char>)>,
)
    ensures
        ({
            let after = with_child(state, pid, args);
            let told = after.notices.len() == state.notices.len() + 1 && notice_pid(
                after.notices.last(),
            ) == pid;
            match args {
                None => told && after.children == state.children,
                Some((name, config)) => after.children.contains_key(pid) && match after.children[pid] {
                    ChildView::Process(process) => process == state.configs[name] && (told
                        <==> process.config@ != config),
                    ChildView::Unidentified(called) => told && called == name,
                },
            }
        }),
{
}

/// An entry is that of a child of the supervisor just where its name is a number,
/// which is then the pid, and its stat line could be read and names the supervisor
/// as the parent.
pub proof fn law_own_entries(entry: ProcEntry, mypid: i32, pid: i32)
    ensures
        own_pid(entry, mypid) == Some(pid) <==> parsed_i32(entry.name@) == Some(pid)
            && entry.stat is Some && pid_found(regex_captures(PARENT_PID@, entry.stat->0@)) == Some(
            mypid,
        ),
        entry.stat is None ==> own_pid(entry, mypid) is None,
        parsed_i32(entry.name@) is None ==> own_pid(entry, mypid) is None,
{
}

/// Whether one of the first `n` entries is a child that runs as `name`.
pub open spec fn is_claimed(
    entries: Seq<ProcEntry>,
    n: int,
    mypid: i32,
    config_file: Seq<char>,
    name: Seq<char>,
) -> bool {
    exists|j: int|
        0 <= j < n && #[trigger] claims(entries[j], mypid, config_file, name)
}

/// Whether an entry is a child that runs as `name`.
pub open spec fn claims(
    entry: ProcEntry,
    mypid: i32,
    config_file: Seq<char>,
    name: Seq<char>,
) -> bool {
    own_pid(entry, mypid) is Some && (own_args(entry, config_file) matches Some((other, _)) && other
        == name)
}

/// What is known afterwards of the child `pid`, with the command line `args`, of
/// which `free` says whether it is the first child that runs as a process that is
/// configured.
pub open spec fn is_taken_over(
    before: Recovery,
    after: Recovery,
    pid: i32,
    args: Option<(Seq<char>, Seq<char>)>,
    free: bool,
) -> bool {
    match args {
        None => !after.children.contains_key(pid),
        Some((name, _)) => after.children.contains_key(pid) && if free {
            after.children[pid] == ChildView::Process(before.configs[name])
        } else {
            after.children[pid] == ChildView::Unidentified(name)
        },
    }
}

/// Whether the child `pid` is to be told to terminate, and why.
pub open spec fn is_reason(
    before: Recovery,
    notice: NoticeView,
    pid: i32,
    args: Option<(Seq<char>, Seq<char>)>,
    free: bool,
) -> bool {
    match args {
        None => notice == NoticeView::Unknown { pid },
        Some((name, config)) => if free {
            before.configs[name].config@ != config && notice == NoticeView::Outdated { pid, name }
        } else {
            notice == NoticeView::Undefined { pid, name }
        },
    }
}

/// Whether the entry at `i` is the first child that runs as its process, and the
/// process is configured.
pub open spec fn is_first_of_configured(
    before: Recovery,
    entries: Seq<ProcEntry>,
    i: int,
    mypid: i32,
    config_file: Seq<char>,
) -> bool {
    own_args(entries[i], config_file) matches Some((name, _)) && before.configs.contains_key(name)
        && !is_claimed(entries, i, mypid, config_file, name)
}

/// Whether the child at `i` has nothing to be told: it is the first one of a
/// process that is configured, and its configuration is current.
pub open spec fn is_current(
    before: Recovery,
    entries: Seq<ProcEntry>,
    i: int,
    mypid: i32,
    config_file: Seq<char>,
) -> bool {
    own_args(entries[i], config_file) matches Some((name, config)) && is_first_of_configured(
        before,
        entries,
        i,
        mypid,
        config_file,
    ) && before.configs[name].config@ == config
}

/// Every child of the supervisor is accounted for once all the entries were looked
/// at:
///
/// - the first child that runs as a configured process is known as that process;
/// - all other children with a readable command line are known by their names;
/// - all children are told to terminate, each for its own reason and in the order in
///   which they were found, but for those that run as a configured process, as the
///   first, with its current configuration;
/// - the processes that are still to be started are those configured that no child
///   runs as;
/// - what is not a child of the supervisor is left alone.
///
/// The places of the children that are told to terminate are what comes back.
#[verifier::rlimit(60)]
pub proof fn law_every_child_is_accounted_for(
    state: Recovery,
    entries: Seq<ProcEntry>,
    mypid: i32,
    config_file: Seq<char>,
) -> (places: Seq<int>)
    requires
        are_new_children(state, entries, mypid),
    ensures
        ({
            let after = after_entries(state, entries, mypid, config_file);
            let old_len = state.notices.len() as int;
            &&& forall|i: int|
                0 <= i < entries.len() && own_pid(#[trigger] entries[i], mypid) is Some
                    ==> is_taken_over(
                    state,
                    after,
                    own_pid(entries[i], mypid)->0,
                    own_args(entries[i], config_file),
                    is_first_of_configured(state, entries, i, mypid, config_file),
                )
            &&& forall|pid: i32|
                (forall|i: int|
                    0 <= i < entries.len() ==> own_pid(#[trigger] entries[i], mypid) != Some(pid))
                    ==> (#[trigger] after.children.contains_key(pid)
                    <==> state.children.contains_key(pid)) && (state.children.contains_key(pid)
                    ==> after.children[pid] == state.children[pid])
            &&& are_places(places, entries.len() as int)
            &&& after.notices.len() == old_len + places.len()
            &&& after.notices.take(old_len) == state.notices
            &&& forall|j: int|
                0 <= j < places.len() ==> own_pid(entries[#[trigger] places[j]], mypid) is Some
                    && is_reason(
                    state,
                    after.notices[old_len + j],
                    own_pid(entries[places[j]], mypid)->0,
                    own_args(entries[places[j]], config_file),
                    is_first_of_configured(state, entries, places[j], mypid, config_file),
                )
            &&& forall|i: int|
                0 <= i < entries.len() && own_pid(#[trigger] entries[i], mypid) is Some
                    && !is_current(state, entries, i, mypid, config_file) ==> places.contains(i)
            &&& forall|name: Seq<char>| #[trigger]
                after.configs.contains_key(name) <==> state.configs.contains_key(name)
                    && !is_claimed(entries, entries.len() as int, mypid, config_file, name)
            &&& forall|name: Seq<char>| #[trigger]
                after.configs.contains_key(name) ==> after.configs[name] == state.configs[name]
        }),
    decreases entries.len(),
{
    if entries.len() == 0 {
        assert(state.notices.take(state.notices.len() as int) =~= state.notices);
        Seq::empty()
    } else {
        let front = entries.drop_last();
        let n = front.len() as int;
        let entry = entries[n];
        lemma_front_is_new(state, entries, mypid);
        let before_places = law_every_child_is_accounted_for(state, front, mypid, config_file);
        let before = after_entries(state, front, mypid, config_file);
        let after = after_entries(state, entries, mypid, config_file);
        let old_len = state.notices.len() as int;
        assert(entries.last() == entry);
        lemma_one_more_place(before_places, n);
        assert forall|i: int| 0 <= i < n implies front[i] == #[trigger] entries[i] && (
        is_first_of_configured(state, front, i, mypid, config_file) == is_first_of_configured(
            state,
            entries,
            i,
            mypid,
            config_file,
        )) && (is_current(state, front, i, mypid, config_file) == is_current(
            state,
            entries,
            i,
            mypid,
            config_file,
        )) by {
            if own_args(entries[i], config_file) is Some {
                let name = (own_args(entries[i], config_file)->0).0;
                lemma_claimed_before(front, entries, i, mypid, config_file, name);
            }
        }
        assert forall|name: Seq<char>| #[trigger]
            is_claimed(entries, n + 1, mypid, config_file, name) <==> is_claimed(
                front,
                n,
                mypid,
                config_file,
                name,
            ) || claims(entry, mypid, config_file, name) by {
            lemma_claimed_before(front, entries, n, mypid, config_file, name);
            if claims(entry, mypid, config_file, name) {
                assert(claims(entries[n], mypid, config_file, name));
            }
            if is_claimed(entries, n, mypid, config_file, name) {
                let j = choose|j: int|
                    0 <= j < n && #[trigger] claims(entries[j], mypid, config_file, name);
                assert(claims(entries[j], mypid, config_file, name));
            }
            if is_claimed(entries, n + 1, mypid, config_file, name) {
                let j = choose|j: int|
                    0 <= j < n + 1 && #[trigger] claims(entries[j], mypid, config_file, name);
                assert(claims(entries[j], mypid, config_file, name));
            }
        }
        let own = own_pid(entry, mypid);
        if own is None {
            assert forall|name: Seq<char>| !claims(entry, mypid, config_file, name) by {}
            assert(after == before);
            assert forall|pid: i32|
                (forall|i: int|
                    0 <= i < entries.len() ==> own_pid(#[trigger] entries[i], mypid) != Some(
                        pid,
                    )) implies (#[trigger] after.children.contains_key(pid)
                <==> state.children.contains_key(pid)) && (state.children.contains_key(pid)
                ==> after.children[pid] == state.children[pid]) by {
                assert forall|i: int| 0 <= i < front.len() implies own_pid(
                    #[trigger] front[i],
                    mypid,
                ) != Some(pid) by {
                    assert(front[i] == entries[i]);
                }
            }
            before_places
        } else {
            let pid = own->0;
            let args = own_args(entry, config_file);
            if let Some((name, _)) = args {
                lemma_claimed_before(front, entries, n, mypid, config_file, name);
                assert(is_first_of_configured(state, entries, n, mypid, config_file)
                    == before.configs.contains_key(name));
            }
            assert(after == with_child(before, pid, args));
            assert(!before.children.contains_key(pid)) by {
                assert forall|i: int| 0 <= i < front.len() implies own_pid(
                    #[trigger] front[i],
                    mypid,
                ) != Some(pid) by {
                    assert(front[i] == entries[i]);
                    assert(own_pid(entries[i], mypid) != own_pid(entries[n], mypid) || own_pid(
                        entries[i],
                        mypid,
                    ) is None);
                }
                assert(own_pid(entries[n], mypid) == Some(pid));
                assert(!state.children.contains_key(pid));
            }
            assert(is_taken_over(
                state,
                after,
                pid,
                args,
                is_first_of_configured(state, entries, n, mypid, config_file),
            ));
            assert forall|i: int|
                0 <= i < entries.len() && own_pid(#[trigger] entries[i], mypid) is Some implies is_taken_over(
                state,
                after,
                own_pid(entries[i], mypid)->0,
                own_args(entries[i], config_file),
                is_first_of_configured(state, entries, i, mypid, config_file),
            ) by {
                if i < n {
                    assert(front[i] == entries[i]);
                    assert(own_pid(entries[i], mypid) != own_pid(entries[n], mypid));
                }
            }
            assert forall|q: i32|
                (forall|i: int|
                    0 <= i < entries.len() ==> own_pid(#[trigger] entries[i], mypid) != Some(
                        q,
                    )) implies (#[trigger] after.children.contains_key(q)
                <==> state.children.contains_key(q)) && (state.children.contains_key(q)
                ==> after.children[q] == state.children[q]) by {
                assert(own_pid(entries[n], mypid) != Some(q));
                assert forall|i: int| 0 <= i < front.len() implies own_pid(
                    #[trigger] front[i],
                    mypid,
                ) != Some(q) by {
                    assert(front[i] == entries[i]);
                }
                assert(before.children.contains_key(q) <==> state.children.contains_key(q));
            }
            let places = if is_current(state, entries, n, mypid, config_file) {
                before_places
            } else {
                before_places.push(n)
            };
            assert(after.notices.take(old_len) =~= state.notices) by {
                assert(before.notices.take(old_len) == state.notices);
                assert forall|k: int| 0 <= k < old_len implies after.notices[k]
                    == state.notices[k] by {
                    assert(before.notices.take(old_len)[k] == before.notices[k]);
                }
            }
            assert forall|j: int| 0 <= j < places.len() implies own_pid(
                entries[#[trigger] places[j]],
                mypid,
            ) is Some && is_reason(
                state,
                after.notices[old_len + j],
                own_pid(entries[places[j]], mypid)->0,
                own_args(entries[places[j]], config_file),
                is_first_of_configured(state, entries, places[j], mypid, config_file),
            ) by {
                if j < before_places.len() {
                    assert(places[j] == before_places[j]);
                    assert(front[before_places[j]] == entries[places[j]]);
                    assert(after.notices[old_len + j] == before.notices[old_len + j]);
                }
            }
            places
        }
    }
}

proof fn lemma_front_is_new(state: Recovery, entries: Seq<ProcEntry>, mypid: i32)
    requires
        entries.len() > 0,
        are_new_children(state, entries, mypid),
    ensures
        are_new_children(state, entries.drop_last(), mypid),
{
    let front = entries.drop_last();
    assert forall|i: int, j: int|
        0 <= i < j < front.len() && own_pid(#[trigger] front[i], mypid) is Some implies own_pid(
        front[i],
        mypid,
    ) != own_pid(#[trigger] front[j], mypid) by {
        assert(front[i] == entries[i] && front[j] == entries[j]);
    }
    assert forall|i: int| 0 <= i < front.len() implies (own_pid(
        #[trigger] front[i],
        mypid,
    ) matches Some(pid) ==> !state.children.contains_key(pid)) by {
        assert(front[i] == entries[i]);
    }
}

/// What the entries after them are does not matter to the first entries.
proof fn lemma_claimed_before(
    front: Seq<ProcEntry>,
    entries: Seq<ProcEntry>,
    n: int,
    mypid: i32,
    config_file: Seq<char>,
    name: Seq<char>,
)
    requires
        0 <= n <= front.len() <= entries.len(),
        forall|i: int| 0 <= i < front.len() ==> front[i] == #[trigger] entries[i],
    ensures
        is_claimed(front, n, mypid, config_file, name) <==> is_claimed(
            entries,
            n,
            mypid,
            config_file,
            name,
        ),
{
    if is_claimed(front, n, mypid, config_file, name) {
        let j = choose|j: int| 0 <= j < n && #[trigger] claims(front[j], mypid, config_file, name);
        assert(claims(entries[j], mypid, config_file, name));
    }
    if is_claimed(entries, n, mypid, config_file, name) {
        let j = choose|j: int|
            0 <= j < n && #[trigger] claims(entries[j], mypid, config_file, name);
        assert(claims(front[j], mypid, config_file, name));
    }
}

/// The parent is what the group of a match writes; without a match there is none.
pub proof fn law_parent_is_in_the_group(found: Groups)
    ensures
        found is None ==> pid_found(found) is None,
        found matches Some(groups) ==> (groups[1] matches Some(text) ==> pid_found(found)
            == parsed_i32(text)),
{
}

/// What stands on the command line of an entry is what is recognised of it; an entry
/// whose command line could not be read is not recognised.
pub proof fn law_own_arguments(entry: ProcEntry, config_file: Seq<char>)
    ensures
        entry.cmdline is None ==> own_args(entry, config_file) is None,
        entry.cmdline matches Some(cmdline) ==> own_args(entry, config_file) == recognized(
            cmdline@,
            config_file,
        ),
{
}

/// The entries are looked at one after the other: first some and then the others
/// comes to the same as all of them, and one that is not a child changes nothing.
pub proof fn law_entries_are_looked_at_in_order(
    state: Recovery,
    a: Seq<ProcEntry>,
    b: Seq<ProcEntry>,
    entry: ProcEntry,
    mypid: i32,
    config_file: Seq<char>,
)
    ensures
        after_entries(state, a + b, mypid, config_file) == after_entries(
            after_entries(state, a, mypid, config_file),
            b,
            mypid,
            config_file,
        ),
        own_pid(entry, mypid) is None ==> after_entries(state, seq![entry], mypid, config_file)
            == state,
        own_pid(entry, mypid) matches Some(pid) ==> after_entries(
            state,
            seq![entry],
            mypid,
            config_file,
        ) == with_child(state, pid, own_args(entry, config_file)),
    decreases b.len(),
{
    assert(seq![entry].drop_last() =~= Seq::<ProcEntry>::empty());
    assert(after_entries(state, seq![entry].drop_last(), mypid, config_file) == state);
    if b.len() == 0 {
        assert(a + b =~= a);
    } else {
        law_entries_are_looked_at_in_order(state, a, b.drop_last(), entry, mypid, config_file);
        assert((a + b).drop_last() =~= a + b.drop_last());
        assert((a + b).last() == b.last());
    }
}

/// Taking over a child leaves all other children and all other configured processes
/// as they are, and the notices that were there. A configured process is taken out of
/// the table just where the child runs as it.
pub proof fn law_recovered_child_leaves_others_alone(
    state: Recovery,
    pid: i32,
    args: Option<(Seq<char>, Seq<char>)>,
    other: i32,
    name: Seq<char>,
)
    ensures
        ({
            let after = with_child(state, pid, args);
            &&& other != pid ==> (after.children.contains_key(other)
                <==> state.children.contains_key(other))
            &&& other != pid && state.children.contains_key(other) ==> after.children[other]
                == state.children[other]
            &&& after.configs.contains_key(name) <==> state.configs.contains_key(name) && !(
            args matches Some((called, _)) && called == name)
            &&& after.configs.contains_key(name) ==> after.configs[name] == state.configs[name]
            &&& state.notices.len() <= after.notices.len() <= state.notices.len() + 1
            &&& after.notices.take(state.notices.len() as int) == state.notices
            &&& args matches Some((called, config)) ==> {
                &&& after.children.contains_key(pid)
                &&& state.configs.contains_key(called) ==> after.children[pid]
                    == ChildView::Process(state.configs[called])
                &&& state.configs.contains_key(called) && state.configs[called].config@ != config
                    ==> after.notices.last() == NoticeView::Outdated { pid, name: called }
                &&& state.configs.contains_key(called) && state.configs[called].config@ == config
                    ==> after.notices == state.notices
                &&& !state.configs.contains_key(called) ==> after.children[pid]
                    == ChildView::Unidentified(called) && after.notices.last()
                    == NoticeView::Undefined { pid, name: called } && after.notices.len()
                    == state.notices.len() + 1
            }
            &&& args is None ==> after.children == state.children && after.notices.last()
                == NoticeView::Unknown { pid } && after.notices.len() == state.notices.len() + 1
        }),
{
    let after = with_child(state, pid, args);
    assert(after.notices.take(state.notices.len() as int) =~= state.notices);
}

/// Nothing of a notice is left out of what it is said to be.
pub proof fn law_notices_are_shown_whole(notice: Notice)
    ensures
        notice matches Notice::Outdated { pid, name } ==> notice@ == (NoticeView::Outdated {
            pid,
            name: name@,
        }) && notice_pid(notice@) == pid,
        notice matches Notice::Undefined { pid, name } ==> notice@ == (NoticeView::Undefined {
            pid,
            name: name@,
        }) && notice_pid(notice@) == pid,
        notice matches Notice::Unknown { pid } ==> notice@ == (NoticeView::Unknown { pid })
            && notice_pid(notice@) == pid,
        notice.deep_view() == notice@,
{
}

} // verus!
