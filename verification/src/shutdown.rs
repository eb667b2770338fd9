//! Waiting for the children to end, once no process is started any more.
use std::collections::HashMap;

use vstd::prelude::*;

use crate::event::{Event, Signal};
use crate::maps::keys_of;
use crate::process::{are_pids, Child, Socket};
use crate::sockets::{are_unused, close_unused_sockets, law_no_children_no_sockets, used_sockets};

verus! {

/// What is to be done next.
#[derive(Debug)]
pub enum ShutdownAction {
    /// To wait for a signal.
    Wait,
    /// To ask these children to terminate, and to wait for a signal.
    Terminate(Vec<i32>),
    /// To look for children that have ended.
    Reap,
    /// To clean up after a child that has ended, and to look for more.
    Clean(String),
    /// To look for more children that have ended: this one was not known.
    Ignore(i32),
    /// To close sockets, given by their ports and file descriptors, and to wait
    /// for a signal.
    Close(Vec<(u16, i32)>),
    /// To close sockets, given by their ports and file descriptors: all the
    /// children have ended.
    Finish(Vec<(u16, i32)>),
    /// The event does not fit: nothing has changed.
    Unexpected,
}

/// What an action is.
pub enum ShutdownActionView {
    Wait,
    Terminate(Seq<i32>),
    Reap,
    Clean(Seq<char>),
    Ignore(i32),
    Close(Seq<(u16, i32)>),
    Finish(Seq<(u16, i32)>),
    Unexpected,
}

impl View for ShutdownAction {
    type V = ShutdownActionView;

    open spec fn view(&self) -> ShutdownActionView {
        match self {
            ShutdownAction::Wait => ShutdownActionView::Wait,
            ShutdownAction::Terminate(pids) => ShutdownActionView::Terminate(pids@),
            ShutdownAction::Reap => ShutdownActionView::Reap,
            ShutdownAction::Clean(name) => ShutdownActionView::Clean(name@),
            ShutdownAction::Ignore(pid) => ShutdownActionView::Ignore(*pid),
            ShutdownAction::Close(list) => ShutdownActionView::Close(list@),
            ShutdownAction::Finish(list) => ShutdownActionView::Finish(list@),
            ShutdownAction::Unexpected => ShutdownActionView::Unexpected,
        }
    }
}

/// What is known during the shutdown.
pub struct ShutdownState {
    /// The children that run, by their pids.
    pub children: Map<i32, Child>,
    /// The sockets that are held, by their ports.
    pub sockets: Map<u16, Socket>,
    /// Whether it is looked for children that have ended.
    pub reaping: bool,
}

/// What an event leads to during the shutdown.
pub open spec fn is_shutdown_step(
    pre: ShutdownState,
    event: Event,
    post: ShutdownState,
    action: ShutdownActionView,
) -> bool {
    match (pre.reaping, event) {
        (false, Event::Signal(Signal::Interrupt)) => {
            post == pre && action == ShutdownActionView::Wait
        },
        (false, Event::Signal(Signal::Terminate)) => {
            &&& post == pre
            &&& action matches ShutdownActionView::Terminate(pids) && are_pids(
                pids,
                pre.children,
            )
        },
        (false, Event::Signal(Signal::Child)) => {
            &&& post == (ShutdownState { reaping: true, ..pre })
            &&& action == ShutdownActionView::Reap
        },
        (true, Event::Exited(pid)) => if pre.children.contains_key(pid) {
            &&& post == (ShutdownState { children: pre.children.remove(pid), ..pre })
            &&& action == ShutdownActionView::Clean(pre.children[pid].name())
        } else {
            post == pre && action == ShutdownActionView::Ignore(pid)
        },
        (true, Event::NoMoreExits) => {
            &&& post == (ShutdownState {
                children: pre.children,
                sockets: used_sockets(pre.sockets, pre.children),
                reaping: false,
            })
            &&& if pre.children.dom() == Set::<i32>::empty() {
                action matches ShutdownActionView::Finish(list) && are_unused(
                    list,
                    pre.sockets,
                    pre.children,
                )
            } else {
                action matches ShutdownActionView::Close(list) && are_unused(
                    list,
                    pre.sockets,
                    pre.children,
                )
            }
        },
        _ => post == pre && action == ShutdownActionView::Unexpected,
    }
}

/// The supervisor while it waits for its children to end.
#[derive(Debug)]
pub struct Shutdown {
    children: HashMap<i32, Child>,
    sockets: HashMap<u16, Socket>,
    reaping: bool,
}

impl Shutdown {
    /// What is known.
    pub closed spec fn view(&self) -> ShutdownState {
        ShutdownState {
            children: self.children@,
            sockets: self.sockets@,
            reaping: self.reaping,
        }
    }

    /// The beginning of a shutdown.
    pub fn new(children: HashMap<i32, Child>, sockets: HashMap<u16, Socket>) -> (r: Shutdown)
        ensures
            r@ == (ShutdownState { children: children@, sockets: sockets@, reaping: false }),
    {
        Shutdown { children, sockets, reaping: false }
    }

    fn child_exited(&mut self, pid: i32) -> (r: ShutdownAction)
        requires
            old(self)@.reaping,
        ensures
            is_shutdown_step(old(self)@, Event::Exited(pid), final(self)@, r@),
    {
        broadcast use vstd::std_specs::hash::group_hash_axioms;

        match self.children.remove(&pid) {
            Some(child) => ShutdownAction::Clean(child.get_name().to_owned()),
            None => {
                assert(self@.children =~= old(self)@.children);
                ShutdownAction::Ignore(pid)
            },
        }
    }

    fn all_reaped(&mut self) -> (r: ShutdownAction)
        requires
            old(self)@.reaping,
        ensures
            is_shutdown_step(old(self)@, Event::NoMoreExits, final(self)@, r@),
    {
        broadcast use vstd::std_specs::hash::group_hash_axioms;

        self.reaping = false;
        let list: Vec<(u16, i32)> = close_unused_sockets(&mut self.sockets, &self.children);
        if self.children.len() == 0 {
            assert(self@.children.dom() =~= Set::<i32>::empty());
            ShutdownAction::Finish(list)
        } else {
            assert(self@.children.dom().len() > 0);
            ShutdownAction::Close(list)
        }
    }

    /// Takes an event into account, and says what is to be done next. Sockets are
    /// closed as soon as their processes have ended, and not only when all of
    /// them have, so that others notice it early.
    pub fn shutdown_step(&mut self, event: Event) -> (r: ShutdownAction)
        ensures
            is_shutdown_step(old(self)@, event, final(self)@, r@),
    {
        broadcast use vstd::std_specs::hash::group_hash_axioms;

        match (self.reaping, event) {
            (false, Event::Signal(Signal::Interrupt)) => ShutdownAction::Wait,
            (false, Event::Signal(Signal::Terminate)) => ShutdownAction::Terminate(
                keys_of(&self.children),
            ),
            (false, Event::Signal(Signal::Child)) => {
                self.reaping = true;
                ShutdownAction::Reap
            },
            (true, Event::Exited(pid)) => self.child_exited(pid),
            (true, Event::NoMoreExits) => self.all_reaped(),
            _ => ShutdownAction::Unexpected,
        }
    }
}

/// The shutdown is over just when no child is left, and then no socket is left
/// either.
pub proof fn law_shutdown_ends_with_the_last_child(
    pre: ShutdownState,
    event: Event,
    post: ShutdownState,
    action: ShutdownActionView,
)
    requires
        is_shutdown_step(pre, event, post, action),
    ensures
        action is Finish ==> post.children.dom() == Set::<i32>::empty() && post.sockets == Map::<
            u16,
            Socket,
        >::empty(),
        pre.reaping && event == Event::NoMoreExits && pre.children.dom() == Set::<i32>::empty()
            ==> action is Finish,
{
    if action is Finish {
        law_no_children_no_sockets(pre.sockets, pre.children);
    }
}

/// During the shutdown the children only become fewer.
pub proof fn law_shutdown_starts_nothing(
    pre: ShutdownState,
    event: Event,
    post: ShutdownState,
    action: ShutdownActionView,
)
    requires
        is_shutdown_step(pre, event, post, action),
    ensures
        post.children.dom().subset_of(pre.children.dom()),
        post.sockets.dom().subset_of(pre.sockets.dom()),
        forall|pid: i32| #[trigger]
            post.children.contains_key(pid) ==> post.children[pid] == pre.children[pid],
{
}

} // verus!
