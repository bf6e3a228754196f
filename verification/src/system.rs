//! Systems: per-frame and per-event behaviors, registered once and dispatched
//! in registration order.
//!
//! Behaviors form a closed registry: a system is either a `Ticker`, which
//! runs its action once per `tick`, or a `Handler`, which runs its action
//! when a submitted event has its trigger kind. An action is one operation
//! on the singleton resources. Dispatch is a deterministic left-to-right
//! fold: each system sees the cumulative effect of the systems registered
//! before it.

use vstd::prelude::*;

use crate::resources::{find_res, set_res, lemma_find_res, lemma_set_res, res_wf, ResourceSlot};
use crate::value::{TypeTag, Value};

verus! {

/// An event submitted to the world and observed by every handler.
#[derive(Clone, Copy, Debug, PartialEq, Eq, Structural)]
pub enum Event {
    /// The application asks the update loop to stop.
    Stop,
    /// The window was resized to the given width and height.
    Resized(u32, u32),
    /// An application-defined event, carrying its own code.
    Custom(u64),
}

/// The kind of an event, used by handlers to decide whether to run.
#[derive(Clone, Copy, Debug, PartialEq, Eq, Structural)]
pub enum EventKind {
    Stop,
    Resized,
    Custom,
}

impl Event {
    /// The kind of this event.
    pub open spec fn kind_spec(self) -> EventKind {
        match self {
            Event::Stop => EventKind::Stop,
            Event::Resized(_, _) => EventKind::Resized,
            Event::Custom(_) => EventKind::Custom,
        }
    }

    /// Returns the kind of this event.
    pub fn kind(&self) -> (k: EventKind)
        ensures
            k == self.kind_spec(),
    {
        match self {
            Event::Stop => EventKind::Stop,
            Event::Resized(_, _) => EventKind::Resized,
            Event::Custom(_) => EventKind::Custom,
        }
    }
}

/// One operation on the singleton resources, run by a system when it is
/// dispatched.
#[derive(Clone, Copy, Debug, PartialEq, Eq, Structural)]
pub enum Action {
    /// Insert or replace the resource of the value's kind.
    SetResource(Value),
    /// Add the given amount, wrapping, to the `u32` resource; a no-op if none
    /// is registered.
    AddU32(u32),
}

/// A registered behavior: what it reacts to and what it does.
#[derive(Clone, Copy, Debug, PartialEq, Eq, Structural)]
pub enum SystemDef {
    /// Runs its action once per `tick`; ignores `submit`.
    Ticker(Action),
    /// Runs its action on every submitted event of the trigger kind; ignores
    /// `tick`.
    Handler(EventKind, Action),
}

impl SystemDef {
    /// The action this system runs on a `tick`, if any.
    pub open spec fn tick_action(self) -> Option<Action> {
        match self {
            SystemDef::Ticker(a) => Some(a),
            SystemDef::Handler(_, _) => None,
        }
    }

    /// The action this system runs when `e` is submitted, if any.
    pub open spec fn event_action(self, e: Event) -> Option<Action> {
        match self {
            SystemDef::Ticker(_) => None,
            SystemDef::Handler(k, a) => if e.kind_spec() == k {
                Some(a)
            } else {
                None
            },
        }
    }
}

/// `n + d` modulo two to the thirty-second.
pub open spec fn add_wrap(n: u32, d: u32) -> u32 {
    if n + d <= u32::MAX {
        (n + d) as u32
    } else {
        (n + d - 0x1_0000_0000) as u32
    }
}

/// The resources after one action runs.
pub open spec fn apply_action(res: Seq<ResourceSlot>, a: Action) -> Seq<ResourceSlot> {
    match a {
        Action::SetResource(v) => set_res(res, v),
        Action::AddU32(d) => {
            let i = find_res(res, TypeTag::U32);
            if i >= 0 {
                match res[i].value {
                    Value::U32(n) => res.update(
                        i,
                        ResourceSlot { ty: res[i].ty, state: res[i].state, value: Value::U32(add_wrap(n, d)) },
                    ),
                    _ => res,
                }
            } else {
                res
            }
        },
    }
}

/// The resources after one optional action runs.
pub open spec fn apply_opt(res: Seq<ResourceSlot>, a: Option<Action>) -> Seq<ResourceSlot> {
    match a {
        Some(a) => apply_action(res, a),
        None => res,
    }
}

/// The resources after every system's tick behavior has run once, in
/// registration order.
pub open spec fn run_tick(res: Seq<ResourceSlot>, systems: Seq<SystemDef>) -> Seq<ResourceSlot>
    decreases systems.len(),
{
    if systems.len() == 0 {
        res
    } else {
        apply_opt(run_tick(res, systems.drop_last()), systems.last().tick_action())
    }
}

/// The resources after every system's event behavior has observed `e` once,
/// in registration order.
pub open spec fn run_event(res: Seq<ResourceSlot>, systems: Seq<SystemDef>, e: Event) -> Seq<
    ResourceSlot,
>
    decreases systems.len(),
{
    if systems.len() == 0 {
        res
    } else {
        apply_opt(run_event(res, systems.drop_last(), e), systems.last().event_action(e))
    }
}

/// One action keeps the resources well formed.
pub proof fn lemma_apply_action_wf(res: Seq<ResourceSlot>, a: Action)
    requires
        res_wf(res),
    ensures
        res_wf(apply_action(res, a)),
{
    match a {
        Action::SetResource(v) => {
            lemma_set_res(res, v);
        },
        Action::AddU32(d) => {
            let i = find_res(res, TypeTag::U32);
            if i >= 0 {
                lemma_find_res(res, TypeTag::U32);
                let out = apply_action(res, a);
                assert forall|k1: int, k2: int| 0 <= k1 < k2 < out.len() implies out[k1].ty
                    != out[k2].ty by {
                    assert(res[k1].ty != res[k2].ty);
                }
            }
        },
    }
}

/// A whole tick keeps the resources well formed.
pub proof fn lemma_run_tick_wf(res: Seq<ResourceSlot>, systems: Seq<SystemDef>)
    requires
        res_wf(res),
    ensures
        res_wf(run_tick(res, systems)),
    decreases systems.len(),
{
    if systems.len() > 0 {
        lemma_run_tick_wf(res, systems.drop_last());
        match systems.last().tick_action() {
            Some(a) => lemma_apply_action_wf(run_tick(res, systems.drop_last()), a),
            None => {},
        }
    }
}

/// A whole event dispatch keeps the resources well formed.
pub proof fn lemma_run_event_wf(res: Seq<ResourceSlot>, systems: Seq<SystemDef>, e: Event)
    requires
        res_wf(res),
    ensures
        res_wf(run_event(res, systems, e)),
    decreases systems.len(),
{
    if systems.len() > 0 {
        lemma_run_event_wf(res, systems.drop_last(), e);
        match systems.last().event_action(e) {
            Some(a) => lemma_apply_action_wf(run_event(res, systems.drop_last(), e), a),
            None => {},
        }
    }
}

/// Runs one action on the resources.
pub fn apply_action_vec(res: &mut Vec<ResourceSlot>, a: Action)
    ensures
        final(res)@ == apply_action(old(res)@, a),
{
    match a {
        Action::SetResource(v) => {
            let tag = v.tag();
            let slot = ResourceSlot { ty: tag, state: crate::table::Borrow::Free, value: v };
            match crate::resources::find_slot(res, tag) {
                Some(i) => {
                    res[i] = slot;
                    proof {
                        assert(res@ =~= set_res(old(res)@, v));
                    }
                },
                None => {
                    res.push(slot);
                    proof {
                        assert(res@ =~= set_res(old(res)@, v));
                    }
                },
            }
        },
        Action::AddU32(d) => {
            match crate::resources::find_slot(res, TypeTag::U32) {
                Some(i) => {
                    let cur = res[i];
                    match cur.value {
                        Value::U32(n) => {
                            let wide: u64 = n as u64 + d as u64;
                            let nv: u32 = if wide <= u32::MAX as u64 {
                                n + d
                            } else {
                                (wide - 0x1_0000_0000u64) as u32
                            };
                            res[i] = ResourceSlot { ty: cur.ty, state: cur.state, value: Value::U32(nv) };
                            proof {
                                assert(nv == add_wrap(n, d));
                                assert(res@ =~= apply_action(old(res)@, a));
                            }
                        },
                        _ => {
                            proof {
                                assert(res@ =~= apply_action(old(res)@, a));
                            }
                        },
                    }
                },
                None => {},
            }
        },
    }
}

} // verus!
