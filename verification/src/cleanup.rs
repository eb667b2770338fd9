//! What earlier runs have left behind: state directories and cgroups that belong
//! to no running process.
use vstd::prelude::*;

use crate::config::instance_name;
use crate::path::{file_name, last_name};
use crate::pattern::{
    captures, has_groups, law_groups_are_told_apart, regex_captures, ChildGroup, CommandDir,
    CommandGroup, Groups, CHILD_GROUP, COMMAND_DIR, COMMAND_GROUP,
};
use crate::places::lemma_push_contains;
use crate::text::{decimal, has_prefix, parse_i32, parsed_i32, same_text, starts_with};

verus! {

/// The name of the process that has the directory `process` in the directory of
/// `sandbox`.
pub open spec fn full_name(sandbox: Seq<char>, process: Seq<char>) -> Seq<char> {
    sandbox + seq!['/'] + process
}

fn join_name(sandbox: &str, process: &str) -> (r: String)
    ensures
        r@ == full_name(sandbox@, process@),
{
    proof {
        reveal_strlit("/");
        assert("/"@ =~= seq!['/']);
    }
    let mut name: String = sandbox.to_owned();
    name.append("/");
    name.append(process);
    name
}

fn holds_name(names: &Vec<String>, name: &str) -> (r: bool)
    ensures
        r == names.deep_view().contains(name@),
{
    let mut i: usize = 0;
    while i < names.len()
        invariant
            i <= names.len(),
            forall|j: int| 0 <= j < i ==> #[trigger] names.deep_view()[j] != name@,
        decreases names.len() - i,
    {
        assert(names.deep_view()[i as int] == names[i as int]@);
        if same_text(names[i].as_str(), name) {
            return true;
        }
        i = i + 1;
    }
    false
}

/// A match of the pattern has no group for the pid.
#[derive(Clone, Copy, PartialEq, Eq, Structural, Debug)]
pub struct NoPidGroup;

/// The pid that a match names: none without a match, an error where the match
/// has no group for it.
pub open spec fn command_pid_in(found: Groups) -> Result<Option<i32>, NoPidGroup> {
    match found {
        None => Ok(None),
        Some(groups) => if groups.len() > 1 && groups[1] is Some {
            Ok(parsed_i32(groups[1]->0))
        } else {
            Err(NoPidGroup)
        },
    }
}

/// The pid that a match names.
pub fn command_pid(found: &Option<Vec<Option<String>>>) -> (r: Result<Option<i32>, NoPidGroup>)
    ensures
        r == command_pid_in(found.deep_view()),
{
    match found {
        None => Ok(None),
        Some(groups) => {
            assert(found.deep_view()->0.len() == groups.len());
            if groups.len() > 1 {
                assert(found.deep_view()->0[1] == groups@[1].deep_view());
                match &groups[1] {
                    Some(text) => Ok(parse_i32(text.as_str())),
                    None => Err(NoPidGroup),
                }
            } else {
                Err(NoPidGroup)
            }
        },
    }
}

/// Whether the directory `dir` of `sandbox` is that of a command: it is not that
/// of a known process, and its name says so.
pub open spec fn is_command_dir(
    names: Seq<Seq<char>>,
    sandbox: Seq<char>,
    dir: Seq<char>,
) -> bool {
    !names.contains(full_name(sandbox, dir)) && has_prefix(dir, "cmd."@)
}

/// The process that the directory `dir` of `sandbox` depends on: none, unless
/// the directory is that of a command and its name ends with a pid. The pattern
/// for the pid has no group, so where it matches there is no pid to be had.
pub fn probe_pid(names: &Vec<String>, sandbox: &str, dir: &str) -> (r: Result<
    Option<i32>,
    NoPidGroup,
>)
    ensures
        r == if is_command_dir(names.deep_view(), sandbox@, dir@) {
            command_pid_in(regex_captures(COMMAND_DIR@, dir@))
        } else {
            Ok(None)
        },
        r is Err <==> is_command_dir(names.deep_view(), sandbox@, dir@) && regex_captures(
            COMMAND_DIR@,
            dir@,
        ) is Some,
        r is Ok ==> r->Ok_0 is None,
        forall|shape: CommandDir|
            shape.well_formed() && #[trigger] shape.render() == dir@ && is_command_dir(
                names.deep_view(),
                sandbox@,
                dir@,
            ) ==> r is Err,
        r is Err ==> exists|shape: CommandDir|
            shape.plausible() && #[trigger] shape.render() == dir@,
{
    let name: String = join_name(sandbox, dir);
    if !holds_name(names, name.as_str()) && starts_with(dir, "cmd.") {
        let found: Option<Vec<Option<String>>> = captures(COMMAND_DIR, dir);
        command_pid(&found)
    } else {
        Ok(None)
    }
}

/// A directory of a process in the directory of a sandbox.
#[derive(Debug)]
pub struct ProcessDir {
    pub name: String,
    /// Whether the process that the directory depends on is running. Not so where
    /// there is no such process.
    pub alive: bool,
}

/// The directory of a sandbox, with those of its processes.
#[derive(Debug)]
pub struct SandboxDir {
    pub name: String,
    pub dirs: Vec<ProcessDir>,
}

/// Whether a directory is in use: by a known process, or by a command that runs.
pub open spec fn is_dir_in_use(
    names: Seq<Seq<char>>,
    sandbox: Seq<char>,
    dir: ProcessDir,
) -> bool {
    names.contains(full_name(sandbox, dir.name@)) || has_prefix(dir.name@, "cmd."@) && dir.alive
}

/// A directory to be removed, given by the place of the sandbox, and of the
/// process in it.
#[derive(Clone, Copy, PartialEq, Eq, Structural, Debug)]
pub enum Removal {
    Process(usize, usize),
    Sandbox(usize),
}

/// The number of directories that are in use.
pub open spec fn in_use_count(
    names: Seq<Seq<char>>,
    sandbox: Seq<char>,
    dirs: Seq<ProcessDir>,
) -> nat
    decreases dirs.len(),
{
    if dirs.len() == 0 {
        0
    } else {
        in_use_count(names, sandbox, dirs.drop_last()) + if is_dir_in_use(
            names,
            sandbox,
            dirs.last(),
        ) {
            1nat
        } else {
            0nat
        }
    }
}

/// The directories in that of the sandbox number `s` that are not in use.
pub open spec fn dangling_dirs(
    names: Seq<Seq<char>>,
    sandbox: Seq<char>,
    dirs: Seq<ProcessDir>,
    s: usize,
) -> Seq<Removal>
    decreases dirs.len(),
{
    if dirs.len() == 0 {
        Seq::empty()
    } else {
        let front = dangling_dirs(names, sandbox, dirs.drop_last(), s);
        if is_dir_in_use(names, sandbox, dirs.last()) {
            front
        } else {
            front.push(Removal::Process(s, (dirs.len() - 1) as usize))
        }
    }
}

/// What is removed of the sandbox number `s`: the directories that are not in
/// use, and with them the sandbox itself where none is.
pub open spec fn sandbox_removals(
    names: Seq<Seq<char>>,
    sandbox: SandboxDir,
    s: usize,
) -> Seq<Removal> {
    let dangling = dangling_dirs(names, sandbox.name@, sandbox.dirs@, s);
    if in_use_count(names, sandbox.name@, sandbox.dirs@) > 0 {
        dangling
    } else {
        dangling.push(Removal::Sandbox(s))
    }
}

/// What is removed of all the sandboxes.
pub open spec fn removals(names: Seq<Seq<char>>, sandboxes: Seq<SandboxDir>) -> Seq<Removal>
    decreases sandboxes.len(),
{
    if sandboxes.len() == 0 {
        Seq::empty()
    } else {
        removals(names, sandboxes.drop_last()) + sandbox_removals(
            names,
            sandboxes.last(),
            (sandboxes.len() - 1) as usize,
        )
    }
}

/// The state directories that belong to no running process, in the order in
/// which they are to be removed. `names` are those of the known processes.
pub fn remove_dangling_state_dirs(
    names: &Vec<String>,
    sandboxes: &Vec<SandboxDir>,
) -> (r: Vec<Removal>)
    ensures
        r@ == removals(names.deep_view(), sandboxes@),
{
    let mut out: Vec<Removal> = Vec::new();
    let mut s: usize = 0;
    assert(sandboxes@.take(0) =~= Seq::<SandboxDir>::empty());
    while s < sandboxes.len()
        invariant
            s <= sandboxes.len(),
            out@ == removals(names.deep_view(), sandboxes@.take(s as int)),
        decreases sandboxes.len() - s,
    {
        let sandbox: &SandboxDir = &sandboxes[s];
        let dirs: &Vec<ProcessDir> = &sandbox.dirs;
        let ghost before: Seq<Removal> = out@;
        let mut valid_dirs: usize = 0;
        let mut d: usize = 0;
        proof {
            let next = sandboxes@.take(s as int + 1);
            assert(next.drop_last() =~= sandboxes@.take(s as int));
            assert(next.last() == *sandbox);
            assert(dirs@.take(0) =~= Seq::<ProcessDir>::empty());
            assert(before + Seq::<Removal>::empty() =~= before);
        }
        while d < dirs.len()
            invariant
                d <= dirs.len(),
                s < sandboxes.len(),
                *sandbox == sandboxes@[s as int],
                *dirs == sandbox.dirs,
                valid_dirs <= d,
                valid_dirs == in_use_count(names.deep_view(), sandbox.name@, dirs@.take(d as int)),
                out@ == before + dangling_dirs(
                    names.deep_view(),
                    sandbox.name@,
                    dirs@.take(d as int),
                    s,
                ),
            decreases dirs.len() - d,
        {
            let dir: &ProcessDir = &dirs[d];
            proof {
                let next = dirs@.take(d as int + 1);
                assert(next.drop_last() =~= dirs@.take(d as int));
                assert(next.last() == *dir);
            }
            let name: String = join_name(sandbox.name.as_str(), dir.name.as_str());
            if holds_name(names, name.as_str()) {
                valid_dirs = valid_dirs + 1;
            } else if starts_with(dir.name.as_str(), "cmd.") && dir.alive {
                valid_dirs = valid_dirs + 1;
            } else {
                out.push(Removal::Process(s, d));
                proof {
                    assert(out@ =~= before + dangling_dirs(
                        names.deep_view(),
                        sandbox.name@,
                        dirs@.take(d as int + 1),
                        s,
                    ));
                }
            }
            d = d + 1;
        }
        proof {
            assert(dirs@.take(d as int) =~= dirs@);
        }
        if valid_dirs == 0 {
            out.push(Removal::Sandbox(s));
        }
        proof {
            assert(out@ =~= before + sandbox_removals(names.deep_view(), *sandbox, s));
        }
        s = s + 1;
    }
    assert(sandboxes@.take(s as int) =~= sandboxes@);
    out
}

/// Whether `path` is that of the supervisor's own cgroup, which is called
/// `cgroup_name`.
pub fn is_own_group(path: &str, cgroup_name: &str) -> (r: bool)
    ensures
        r == (last_name(path@) == Some(cgroup_name@)),
{
    match file_name(path) {
        Some(last) => same_text(last.as_str(), cgroup_name),
        None => false,
    }
}

/// What is to be done about a cgroup.
#[derive(Clone, Copy, PartialEq, Eq, Structural, Debug)]
pub enum GroupCheck {
    Keep,
    Remove,
    /// To be kept just where this process is running.
    Probe(i32),
    /// It is none of ours.
    Skip,
}

/// What is to be done about a cgroup, from what was found of the two patterns in
/// its name.
pub open spec fn group_check(
    names: Seq<Seq<char>>,
    child: Groups,
    command: Groups,
) -> GroupCheck {
    match (child, command) {
        (Some(groups), _) => if names.contains(full_name(groups[1]->0, groups[2]->0)) {
            GroupCheck::Keep
        } else {
            GroupCheck::Remove
        },
        (None, Some(groups)) => match parsed_i32(groups[2]->0) {
            Some(pid) => GroupCheck::Probe(pid),
            None => GroupCheck::Remove,
        },
        (None, None) => GroupCheck::Skip,
    }
}

/// What is to be done about a cgroup, from what was found of the two patterns in
/// its name.
pub fn classify_group(
    names: &Vec<String>,
    child: &Option<Vec<Option<String>>>,
    command: &Option<Vec<Option<String>>>,
) -> (r: GroupCheck)
    requires
        has_groups(child.deep_view(), 3),
        child is None ==> has_groups(command.deep_view(), 3),
    ensures
        r == group_check(names.deep_view(), child.deep_view(), command.deep_view()),
{
    match child {
        Some(groups) => {
            proof {
                let view = child.deep_view()->0;
                assert(view[1] == groups@[1].deep_view() && view[1] is Some);
                assert(view[2] == groups@[2].deep_view() && view[2] is Some);
            }
            if let (Some(sandbox), Some(process)) = (&groups[1], &groups[2]) {
                let name: String = join_name(sandbox.as_str(), process.as_str());
                if holds_name(names, name.as_str()) {
                    GroupCheck::Keep
                } else {
                    GroupCheck::Remove
                }
            } else {
                GroupCheck::Skip
            }
        },
        None => match command {
            Some(groups) => {
                proof {
                    let view = command.deep_view()->0;
                    assert(view[2] == groups@[2].deep_view() && view[2] is Some);
                }
                match &groups[2] {
                    Some(pid) => match parse_i32(pid.as_str()) {
                        Some(pid) => GroupCheck::Probe(pid),
                        None => GroupCheck::Remove,
                    },
                    None => GroupCheck::Skip,
                }
            },
            None => GroupCheck::Skip,
        },
    }
}

/// Whether `name` may be the name of a process's cgroup.
pub open spec fn is_like_child_group(name: Seq<char>) -> bool {
    exists|group: ChildGroup| group.plausible() && #[trigger] group.render() == name
}

/// Whether `name` may be the name of a command's cgroup.
pub open spec fn is_like_command_group(name: Seq<char>) -> bool {
    exists|group: CommandGroup| group.plausible() && #[trigger] group.render() == name
}

/// What is to be done about the cgroup `filename`. `names` are those of the known
/// processes.
///
/// The group of a process stays just where the process is known, that of a
/// command just where its process runs, and what is named neither way is left
/// alone.
pub fn check_group(names: &Vec<String>, filename: &str) -> (r: GroupCheck)
    ensures
        r == group_check(
            names.deep_view(),
            regex_captures(CHILD_GROUP@, filename@),
            regex_captures(COMMAND_GROUP@, filename@),
        ),
        forall|group: ChildGroup|
            group.well_formed() && #[trigger] group.render() == filename@ ==> r
                == if names.deep_view().contains(full_name(group.sandbox, group.process())) {
                GroupCheck::Keep
            } else {
                GroupCheck::Remove
            },
        forall|group: CommandGroup|
            group.well_formed() && #[trigger] group.render() == filename@ ==> r
                == match parsed_i32(group.pid) {
                Some(pid) => GroupCheck::Probe(pid),
                None => GroupCheck::Remove,
            },
        r != GroupCheck::Skip ==> is_like_child_group(filename@) || is_like_command_group(
            filename@,
        ),
{
    let child: Option<Vec<Option<String>>> = captures(CHILD_GROUP, filename);
    let command: Option<Vec<Option<String>>> = captures(COMMAND_GROUP, filename);
    proof {
        assert forall|group: CommandGroup|
            group.well_formed() && #[trigger] group.render() == filename@ implies child is None by {
            if child is Some {
                let other = choose|other: ChildGroup|
                    other.plausible() && #[trigger] other.render() == filename@;
                law_groups_are_told_apart(other, group);
            }
        }
    }
    classify_group(names, &child, &command)
}

/// The cgroup of an instance is that of the process with the instance's name.
pub proof fn law_group_of_instance(group: ChildGroup, instance: nat)
    requires
        group.instance == decimal(instance),
    ensures
        full_name(group.sandbox, group.process()) == instance_name(
            group.sandbox,
            group.child,
            instance,
        ),
{
    assert(full_name(group.sandbox, group.process()) =~= instance_name(
        group.sandbox,
        group.child,
        instance,
    ));
}

/// A cgroup of the supervisor.
#[derive(Debug)]
pub struct GroupDir {
    pub name: String,
    /// Whether the process that the group depends on is running. Not so where
    /// there is no such process.
    pub alive: bool,
}

/// Whether a cgroup belongs to no running process.
pub open spec fn is_group_dangling(names: Seq<Seq<char>>, group: GroupDir) -> bool {
    match group_check(
        names,
        regex_captures(CHILD_GROUP@, group.name@),
        regex_captures(COMMAND_GROUP@, group.name@),
    ) {
        GroupCheck::Remove => true,
        GroupCheck::Probe(_) => !group.alive,
        GroupCheck::Keep => false,
        GroupCheck::Skip => false,
    }
}

/// The places of the cgroups that belong to no running process.
pub open spec fn dangling_groups(names: Seq<Seq<char>>, groups: Seq<GroupDir>) -> Seq<usize>
    decreases groups.len(),
{
    if groups.len() == 0 {
        Seq::empty()
    } else {
        let front = dangling_groups(names, groups.drop_last());
        if is_group_dangling(names, groups.last()) {
            front.push((groups.len() - 1) as usize)
        } else {
            front
        }
    }
}

/// Whether it is right that a cgroup is removed, or that it is not: that of a process
/// is removed just where the process is not known, that of a command just where no
/// process of its pid runs, and what is named neither way is not removed.
pub open spec fn is_right_to_remove(names: Seq<Seq<char>>, group: GroupDir, removed: bool) -> bool {
    &&& forall|g: ChildGroup|
        g.well_formed() && #[trigger] g.render() == group.name@ ==> removed == !names.contains(
            g.sandbox + "/"@ + g.child + "."@ + g.instance,
        )
    &&& forall|g: CommandGroup|
        g.well_formed() && #[trigger] g.render() == group.name@ ==> removed == (parsed_i32(g.pid)
            is None || !group.alive)
    &&& removed ==> is_like_child_group(group.name@) || is_like_command_group(group.name@)
}

/// The places of the cgroups that belong to no running process, in their order.
/// `names` are those of the known processes.
pub fn remove_dangling_cgroups(names: &Vec<String>, groups: &Vec<GroupDir>) -> (r: Vec<usize>)
    ensures
        r@ == dangling_groups(names.deep_view(), groups@),
        forall|i: usize|
            i < groups.len() ==> is_right_to_remove(
                names.deep_view(),
                #[trigger] groups@[i as int],
                r@.contains(i),
            ),
        forall|i: usize| #[trigger] r@.contains(i) ==> i < groups.len(),
{
    let mut out: Vec<usize> = Vec::new();
    let mut i: usize = 0;
    assert(groups@.take(0) =~= Seq::<GroupDir>::empty());
    proof {
        reveal_strlit("/");
        reveal_strlit(".");
        assert("/"@ =~= seq!['/']);
        assert("."@ =~= seq!['.']);
    }
    while i < groups.len()
        invariant
            i <= groups.len(),
            "/"@ == seq!['/'],
            "."@ == seq!['.'],
            out@ == dangling_groups(names.deep_view(), groups@.take(i as int)),
            forall|j: usize|
                j < i ==> is_right_to_remove(
                    names.deep_view(),
                    #[trigger] groups@[j as int],
                    out@.contains(j),
                ),
            forall|j: usize| #[trigger] out@.contains(j) ==> j < i,
        decreases groups.len() - i,
    {
        let group: &GroupDir = &groups[i];
        proof {
            let next = groups@.take(i as int + 1);
            assert(next.drop_last() =~= groups@.take(i as int));
            assert(next.last() == *group);
        }
        let dangling: bool = match check_group(names, group.name.as_str()) {
            GroupCheck::Remove => true,
            GroupCheck::Probe(_) => !group.alive,
            GroupCheck::Keep => false,
            GroupCheck::Skip => false,
        };
        let ghost before: Seq<usize> = out@;
        proof {
            assert forall|g: ChildGroup| full_name(g.sandbox, g.process()) == g.sandbox + "/"@
                + g.child + "."@ + g.instance by {
                assert(full_name(g.sandbox, g.process()) =~= g.sandbox + "/"@ + g.child + "."@
                    + g.instance);
            }
            assert(is_right_to_remove(names.deep_view(), *group, dangling));
            assert(!before.contains(i));
            lemma_push_contains(before, i);
        }
        if dangling {
            out.push(i);
        }
        proof {
            assert forall|j: usize| j <= i implies is_right_to_remove(
                names.deep_view(),
                #[trigger] groups@[j as int],
                out@.contains(j),
            ) by {
                if j < i {
                    assert(out@.contains(j) == before.contains(j));
                }
            }
        }
        i = i + 1;
    }
    assert(groups@.take(i as int) =~= groups@);
    out
}

/// The directory of a sandbox goes just where all the directories in it go.
pub proof fn law_sandbox_goes_with_its_last_dir(
    names: Seq<Seq<char>>,
    sandbox: SandboxDir,
    s: usize,
)
    requires
        sandbox.dirs@.len() <= usize::MAX,
    ensures
        sandbox_removals(names, sandbox, s).contains(Removal::Sandbox(s)) <==> forall|d: int|
            0 <= d < sandbox.dirs@.len() ==> !is_dir_in_use(
                names,
                sandbox.name@,
                #[trigger] sandbox.dirs@[d],
            ),
        forall|d: int|
            0 <= d < sandbox.dirs@.len() ==> (sandbox_removals(names, sandbox, s).contains(
                Removal::Process(s, d as usize),
            ) <==> !is_dir_in_use(names, sandbox.name@, #[trigger] sandbox.dirs@[d])),
{
    let all = sandbox_removals(names, sandbox, s);
    let dangling = dangling_dirs(names, sandbox.name@, sandbox.dirs@, s);
    lemma_dangling(names, sandbox.name@, sandbox.dirs@, s);
    assert forall|d: int| 0 <= d < sandbox.dirs@.len() implies (all.contains(
        Removal::Process(s, d as usize),
    ) <==> !is_dir_in_use(names, sandbox.name@, #[trigger] sandbox.dirs@[d])) by {
        let item = Removal::Process(s, d as usize);
        if dangling.contains(item) {
            let k = choose|k: int| 0 <= k < dangling.len() && dangling[k] == item;
            assert(all[k] == item);
        }
        if all.contains(item) {
            let k = choose|k: int| 0 <= k < all.len() && all[k] == item;
            assert(dangling[k] == item);
        }
    }
    if in_use_count(names, sandbox.name@, sandbox.dirs@) == 0 {
        assert(all[dangling.len() as int] == Removal::Sandbox(s));
    }
}

proof fn lemma_dangling(
    names: Seq<Seq<char>>,
    sandbox: Seq<char>,
    dirs: Seq<ProcessDir>,
    s: usize,
)
    requires
        dirs.len() <= usize::MAX,
    ensures
        in_use_count(names, sandbox, dirs) == 0 <==> forall|d: int|
            0 <= d < dirs.len() ==> !is_dir_in_use(names, sandbox, #[trigger] dirs[d]),
        !dangling_dirs(names, sandbox, dirs, s).contains(Removal::Sandbox(s)),
        forall|d: usize| #[trigger]
            dangling_dirs(names, sandbox, dirs, s).contains(Removal::Process(s, d)) <==> d
                < dirs.len() && !is_dir_in_use(names, sandbox, dirs[d as int]),
    decreases dirs.len(),
{
    if dirs.len() > 0 {
        let front = dirs.drop_last();
        let last = dirs.len() - 1;
        lemma_dangling(names, sandbox, front, s);
        let a = dangling_dirs(names, sandbox, front, s);
        let b = dangling_dirs(names, sandbox, dirs, s);
        let added = Removal::Process(s, last as usize);
        assert forall|d: usize| #[trigger] b.contains(Removal::Process(s, d)) <==> d < dirs.len()
            && !is_dir_in_use(names, sandbox, dirs[d as int]) by {
            let item = Removal::Process(s, d);
            if d < last {
                assert(front[d as int] == dirs[d as int]);
            }
            if a.contains(item) {
                let k = choose|k: int| 0 <= k < a.len() && a[k] == item;
                assert(b[k] == item);
            }
            if b.contains(item) && !a.contains(item) {
                let k = choose|k: int| 0 <= k < b.len() && b[k] == item;
                assert(k == a.len());
            }
            if d == last && !is_dir_in_use(names, sandbox, dirs[last]) {
                assert(b[a.len() as int] == item);
            }
        }
        assert(!b.contains(Removal::Sandbox(s))) by {
            if b.contains(Removal::Sandbox(s)) {
                let k = choose|k: int| 0 <= k < b.len() && b[k] == Removal::Sandbox(s);
                assert(k < a.len());
                assert(a[k] == Removal::Sandbox(s));
            }
        }
        assert(in_use_count(names, sandbox, dirs) == 0 <==> forall|d: int|
            0 <= d < dirs.len() ==> !is_dir_in_use(names, sandbox, #[trigger] dirs[d])) by {
            if in_use_count(names, sandbox, dirs) == 0 {
                assert forall|d: int| 0 <= d < dirs.len() implies !is_dir_in_use(
                    names,
                    sandbox,
                    #[trigger] dirs[d],
                ) by {
                    if d < last {
                        assert(front[d] == dirs[d]);
                    }
                }
            } else {
                if in_use_count(names, sandbox, front) == 0 {
                    assert(is_dir_in_use(names, sandbox, dirs[last]));
                } else {
                    let d = choose|d: int|
                        0 <= d < front.len() && is_dir_in_use(names, sandbox, #[trigger] front[d]);
                    assert(is_dir_in_use(names, sandbox, dirs[d]));
                }
            }
        }
    }
}

/// The name of a process is that of its sandbox and its own, with a slash between.
pub proof fn law_full_name(sandbox: Seq<char>, process: Seq<char>)
    ensures
        full_name(sandbox, process) == sandbox + "/"@ + process,
{
    reveal_strlit("/");
    assert("/"@ =~= seq!['/']);
}

/// A match names the pid in its first group; without a match there is none, and a
/// match without such a group is an error.
pub proof fn law_pid_of_a_match(found: Groups)
    ensures
        found is None ==> command_pid_in(found) == Ok::<Option<i32>, NoPidGroup>(None),
        found matches Some(groups) ==> (groups.len() <= 1 || groups[1] is None ==> command_pid_in(
            found,
        ) == Err::<Option<i32>, NoPidGroup>(NoPidGroup)),
        found matches Some(groups) ==> (groups.len() > 1 && groups[1] is Some ==> command_pid_in(
            found,
        ) == Ok::<Option<i32>, NoPidGroup>(parsed_i32(groups[1]->0))),
{
}

/// Whether the cgroup of a process that is not known, or of a command that does not
/// run, as the two patterns tell them.
pub open spec fn belongs_to_nothing(
    names: Seq<Seq<char>>,
    group: GroupDir,
    child: Groups,
    command: Groups,
) -> bool {
    ||| child matches Some(groups) && !names.contains(groups[1]->0 + "/"@ + groups[2]->0)
    ||| child is None && (command matches Some(groups) && (parsed_i32(groups[2]->0) is None
        || !group.alive))
}

/// A cgroup is removed just where it is that of a process that is not known,
/// whatever is said of a pid, or that of a command whose pid is no number or of which
/// no process runs. They are removed in their order, each once.
pub proof fn law_dangling_groups_go(names: Seq<Seq<char>>, groups: Seq<GroupDir>)
    requires
        groups.len() <= usize::MAX,
    ensures
        forall|i: usize| #[trigger]
            dangling_groups(names, groups).contains(i) <==> i < groups.len() && belongs_to_nothing(
                names,
                groups[i as int],
                regex_captures(CHILD_GROUP@, groups[i as int].name@),
                regex_captures(COMMAND_GROUP@, groups[i as int].name@),
            ),
        forall|j: int, k: int|
            0 <= j < k < dangling_groups(names, groups).len() ==> #[trigger] dangling_groups(
                names,
                groups,
            )[j] < #[trigger] dangling_groups(names, groups)[k],
    decreases groups.len(),
{
    if groups.len() > 0 {
        let front = groups.drop_last();
        let n = front.len() as int;
        let before = dangling_groups(names, front);
        let all = dangling_groups(names, groups);
        law_dangling_groups_go(names, front);
        assert(groups.last() == groups[n]);
        lemma_push_contains(before, n as usize);
        reveal_strlit("/");
        assert("/"@ =~= seq!['/']);
        assert forall|i: usize| #[trigger] all.contains(i) <==> i < groups.len()
            && belongs_to_nothing(
            names,
            groups[i as int],
            regex_captures(CHILD_GROUP@, groups[i as int].name@),
            regex_captures(COMMAND_GROUP@, groups[i as int].name@),
        ) by {
            if i < n {
                assert(front[i as int] == groups[i as int]);
            }
            assert(all.contains(i) <==> before.contains(i) || (i == n && is_group_dangling(
                names,
                groups[n],
            )));
        }
        assert forall|j: int, k: int| 0 <= j < k < all.len() implies #[trigger] all[j]
            < #[trigger] all[k] by {
            assert(all[j] == before[j]);
            if k < before.len() {
                assert(all[k] == before[k]);
            } else {
                assert(before.contains(before[j]));
            }
        }
    }
}

/// What is to be done about a cgroup, as the two patterns tell: that of a process
/// stays just where the process is known, that of a command depends on its pid, and
/// what neither pattern fits is left alone.
pub proof fn law_group_check(names: Seq<Seq<char>>, child: Groups, command: Groups)
    ensures
        child matches Some(groups) ==> group_check(names, child, command) == if names.contains(
            groups[1]->0 + "/"@ + groups[2]->0,
        ) {
            GroupCheck::Keep
        } else {
            GroupCheck::Remove
        },
        child is None && command is None ==> group_check(names, child, command) == GroupCheck::Skip,
        child is None && command is Some ==> (parsed_i32((command->0)[2]->0) matches Some(pid)
            ==> group_check(names, child, command) == GroupCheck::Probe(pid)),
        child is None && command is Some && parsed_i32((command->0)[2]->0) is None ==> group_check(
            names,
            child,
            command,
        ) == GroupCheck::Remove,
{
    reveal_strlit("/");
    assert("/"@ =~= seq!['/']);
}

/// Whether a directory is that of a known process, or that of a command, by its name,
/// whose process runs.
pub open spec fn is_needed(names: Seq<Seq<char>>, sandbox: Seq<char>, dir: ProcessDir) -> bool {
    ||| names.contains(sandbox + "/"@ + dir.name@)
    ||| dir.alive && dir.name@.len() >= 4 && dir.name@[0] == 'c' && dir.name@[1] == 'm'
        && dir.name@[2] == 'd' && dir.name@[3] == '.'
}

proof fn lemma_needed(names: Seq<Seq<char>>, sandbox: Seq<char>, dir: ProcessDir)
    ensures
        is_needed(names, sandbox, dir) == is_dir_in_use(names, sandbox, dir),
{
    reveal_strlit("/");
    reveal_strlit("cmd.");
    assert("/"@ =~= seq!['/']);
    let name = dir.name@;
    if has_prefix(name, "cmd."@) {
        assert(name.take(4)[0] == 'c' && name.take(4)[1] == 'm' && name.take(4)[2] == 'd'
            && name.take(4)[3] == '.');
    }
    if name.len() >= 4 && name[0] == 'c' && name[1] == 'm' && name[2] == 'd' && name[3] == '.' {
        assert(name.take(4) =~= "cmd."@);
    }
}

/// The sandbox that a removal belongs to.
pub open spec fn removal_sandbox(removal: Removal) -> usize {
    match removal {
        Removal::Process(s, _) => s,
        Removal::Sandbox(s) => s,
    }
}

/// Whether `a` is removed before `b`: the sandboxes one after the other, and in a
/// sandbox its directories in their order, and the sandbox itself at the end.
pub open spec fn goes_before(a: Removal, b: Removal) -> bool {
    ||| removal_sandbox(a) < removal_sandbox(b)
    ||| removal_sandbox(a) == removal_sandbox(b) && (a matches Removal::Process(_, d) && (
        b matches Removal::Process(_, e) ==> d < e))
}

/// Of all the state directories just those go that belong neither to a known process
/// nor to a command that runs, and with them the sandboxes in which there is no
/// other; each once, and in their order.
pub proof fn law_dangling_dirs_go(names: Seq<Seq<char>>, sandboxes: Seq<SandboxDir>)
    requires
        sandboxes.len() <= usize::MAX,
        forall|s: int|
            0 <= s < sandboxes.len() ==> (#[trigger] sandboxes[s]).dirs@.len() <= usize::MAX,
    ensures
        forall|s: usize, d: usize| #[trigger]
            removals(names, sandboxes).contains(Removal::Process(s, d)) <==> s < sandboxes.len() && d
                < sandboxes[s as int].dirs@.len() && !is_needed(
                names,
                sandboxes[s as int].name@,
                sandboxes[s as int].dirs@[d as int],
            ),
        forall|s: usize| #[trigger]
            removals(names, sandboxes).contains(Removal::Sandbox(s)) <==> s < sandboxes.len() && (
            forall|d: int|
                0 <= d < sandboxes[s as int].dirs@.len() ==> !is_needed(
                    names,
                    sandboxes[s as int].name@,
                    #[trigger] sandboxes[s as int].dirs@[d],
                )),
        forall|j: int, k: int|
            0 <= j < k < removals(names, sandboxes).len() ==> goes_before(
                #[trigger] removals(names, sandboxes)[j],
                #[trigger] removals(names, sandboxes)[k],
            ),
    decreases sandboxes.len(),
{
    if sandboxes.len() > 0 {
        let front = sandboxes.drop_last();
        let n = front.len() as int;
        let before = removals(names, front);
        let sandbox = sandboxes[n];
        let added = sandbox_removals(names, sandbox, n as usize);
        let all = removals(names, sandboxes);
        assert forall|s: int| 0 <= s < front.len() implies (#[trigger] front[s]).dirs@.len()
            <= usize::MAX by {
            assert(front[s] == sandboxes[s]);
        }
        law_dangling_dirs_go(names, front);
        assert(sandboxes.last() == sandbox);
        lemma_sandbox_removals(names, sandbox, n as usize);
        assert forall|r: Removal| #[trigger] all.contains(r) <==> before.contains(r)
            || added.contains(r) by {
            if before.contains(r) {
                let k = choose|k: int| 0 <= k < before.len() && before[k] == r;
                assert(all[k] == r);
            }
            if added.contains(r) {
                let k = choose|k: int| 0 <= k < added.len() && added[k] == r;
                assert(all[before.len() + k] == r);
            }
            if all.contains(r) {
                let k = choose|k: int| 0 <= k < all.len() && all[k] == r;
                if k < before.len() {
                    assert(before[k] == r);
                } else {
                    assert(added[k - before.len()] == r);
                }
            }
        }
        assert forall|s: usize| s < n implies front[s as int] == sandboxes[s as int] by {}
        assert forall|r: Removal| #[trigger] before.contains(r) implies removal_sandbox(r) < n by {
            match r {
                Removal::Process(s, d) => {
                    assert(before.contains(Removal::Process(s, d)));
                },
                Removal::Sandbox(s) => {
                    assert(before.contains(Removal::Sandbox(s)));
                },
            }
        }
        assert forall|s: usize, d: usize| #[trigger] all.contains(Removal::Process(s, d)) <==> s
            < sandboxes.len() && d < sandboxes[s as int].dirs@.len() && !is_needed(
            names,
            sandboxes[s as int].name@,
            sandboxes[s as int].dirs@[d as int],
        ) by {
            let r = Removal::Process(s, d);
            assert(all.contains(r) <==> before.contains(r) || added.contains(r));
            if added.contains(r) {
                assert(removal_sandbox(r) == n);
            }
        }
        assert forall|s: usize| #[trigger] all.contains(Removal::Sandbox(s)) <==> s
            < sandboxes.len() && (forall|d: int|
            0 <= d < sandboxes[s as int].dirs@.len() ==> !is_needed(
                names,
                sandboxes[s as int].name@,
                #[trigger] sandboxes[s as int].dirs@[d],
            )) by {
            let r = Removal::Sandbox(s);
            assert(all.contains(r) <==> before.contains(r) || added.contains(r));
            if added.contains(r) {
                assert(removal_sandbox(r) == n);
            }
        }
        assert forall|j: int, k: int| 0 <= j < k < all.len() implies goes_before(
            #[trigger] all[j],
            #[trigger] all[k],
        ) by {
            if k < before.len() {
                assert(all[j] == before[j] && all[k] == before[k]);
            } else {
                assert(all[k] == added[k - before.len()]);
                assert(added.contains(added[k - before.len()]));
                if j < before.len() {
                    assert(all[j] == before[j]);
                    assert(before.contains(before[j]));
                } else {
                    assert(all[j] == added[j - before.len()]);
                }
            }
        }
    }
}

/// What goes of one sandbox.
proof fn lemma_sandbox_removals(names: Seq<Seq<char>>, sandbox: SandboxDir, s: usize)
    requires
        sandbox.dirs@.len() <= usize::MAX,
    ensures
        forall|d: usize| #[trigger]
            sandbox_removals(names, sandbox, s).contains(Removal::Process(s, d)) <==> d
                < sandbox.dirs@.len() && !is_needed(
                names,
                sandbox.name@,
                sandbox.dirs@[d as int],
            ),
        sandbox_removals(names, sandbox, s).contains(Removal::Sandbox(s)) <==> forall|d: int|
            0 <= d < sandbox.dirs@.len() ==> !is_needed(
                names,
                sandbox.name@,
                #[trigger] sandbox.dirs@[d],
            ),
        forall|r: Removal| #[trigger]
            sandbox_removals(names, sandbox, s).contains(r) ==> removal_sandbox(r) == s,
        forall|j: int, k: int|
            0 <= j < k < sandbox_removals(names, sandbox, s).len() ==> goes_before(
                #[trigger] sandbox_removals(names, sandbox, s)[j],
                #[trigger] sandbox_removals(names, sandbox, s)[k],
            ),
{
    let dirs = sandbox.dirs@;
    let all = sandbox_removals(names, sandbox, s);
    let dangling = dangling_dirs(names, sandbox.name@, dirs, s);
    lemma_dangling(names, sandbox.name@, dirs, s);
    lemma_dangling_order(names, sandbox.name@, dirs, s);
    law_sandbox_goes_with_its_last_dir(names, sandbox, s);
    assert forall|d: int| 0 <= d < dirs.len() implies is_needed(
        names,
        sandbox.name@,
        #[trigger] dirs[d],
    ) == is_dir_in_use(names, sandbox.name@, dirs[d]) by {
        lemma_needed(names, sandbox.name@, dirs[d]);
    }
    assert forall|d: usize| #[trigger] all.contains(Removal::Process(s, d)) <==> d < dirs.len()
        && !is_needed(names, sandbox.name@, dirs[d as int]) by {
        let r = Removal::Process(s, d);
        if all.contains(r) {
            let k = choose|k: int| 0 <= k < all.len() && all[k] == r;
            assert(dangling[k] == r);
            assert(dangling.contains(r));
        }
        if dangling.contains(r) {
            let k = choose|k: int| 0 <= k < dangling.len() && dangling[k] == r;
            assert(all[k] == r);
        }
    }
    assert forall|r: Removal| #[trigger] all.contains(r) implies removal_sandbox(r) == s by {
        let k = choose|k: int| 0 <= k < all.len() && all[k] == r;
        if k < dangling.len() {
            assert(dangling[k] == r);
        }
    }
    assert forall|j: int, k: int| 0 <= j < k < all.len() implies goes_before(
        #[trigger] all[j],
        #[trigger] all[k],
    ) by {
        assert(all[j] == dangling[j]);
        if k < dangling.len() {
            assert(all[k] == dangling[k]);
        }
    }
}

proof fn lemma_dangling_order(
    names: Seq<Seq<char>>,
    sandbox: Seq<char>,
    dirs: Seq<ProcessDir>,
    s: usize,
)
    requires
        dirs.len() <= usize::MAX,
    ensures
        forall|k: int|
            0 <= k < dangling_dirs(names, sandbox, dirs, s).len() ==> (#[trigger] dangling_dirs(
                names,
                sandbox,
                dirs,
                s,
            )[k] matches Removal::Process(t, d) && t == s && d < dirs.len()),
        forall|j: int, k: int|
            0 <= j < k < dangling_dirs(names, sandbox, dirs, s).len() ==> goes_before(
                #[trigger] dangling_dirs(names, sandbox, dirs, s)[j],
                #[trigger] dangling_dirs(names, sandbox, dirs, s)[k],
            ),
    decreases dirs.len(),
{
    if dirs.len() > 0 {
        let front = dirs.drop_last();
        lemma_dangling_order(names, sandbox, front, s);
        let a = dangling_dirs(names, sandbox, front, s);
        let b = dangling_dirs(names, sandbox, dirs, s);
        assert forall|k: int| 0 <= k < b.len() implies (#[trigger] b[k] matches Removal::Process(
            t,
            d,
        ) && t == s && d < dirs.len()) by {
            if k < a.len() {
                assert(b[k] == a[k]);
            }
        }
        assert forall|j: int, k: int| 0 <= j < k < b.len() implies goes_before(
            #[trigger] b[j],
            #[trigger] b[k],
        ) by {
            assert(b[j] == a[j]);
            if k < a.len() {
                assert(b[k] == a[k]);
            }
        }
    }
}

/// A directory is looked at as that of a command just where no process of its name is
/// known, and its name starts with `cmd.`.
pub proof fn law_command_dirs(names: Seq<Seq<char>>, sandbox: Seq<char>, dir: Seq<char>)
    ensures
        is_command_dir(names, sandbox, dir) <==> {
            &&& !names.contains(sandbox + "/"@ + dir)
            &&& dir.len() >= 4
            &&& dir[0] == 'c' && dir[1] == 'm' && dir[2] == 'd' && dir[3] == '.'
        },
{
    reveal_strlit("/");
    reveal_strlit("cmd.");
    assert("/"@ =~= seq!['/']);
    if has_prefix(dir, "cmd."@) {
        assert(dir.take(4)[0] == 'c' && dir.take(4)[1] == 'm' && dir.take(4)[2] == 'd'
            && dir.take(4)[3] == '.');
    }
    if dir.len() >= 4 && dir[0] == 'c' && dir[1] == 'm' && dir[2] == 'd' && dir[3] == '.' {
        assert(dir.take(4) =~= "cmd."@);
    }
}

} // verus!
