//! The decisions of the watcher that keeps the editor's BPM grid in step with
//! the BPM object under the cursor.
//!
//! The watcher runs a loop that waits for the edit handle, receives messages
//! and updates the grid; `WatcherState::step` decides what the loop does next.
//! An update asks the editor a series of questions; `GridUpdate::step` decides,
//! from each answer, which question comes next, and so which object (if any)
//! sets the grid: the topmost enabled BPM object, below the selected layer,
//! that spans the cursor's frame.
use vstd::prelude::*;

verus! {

/// A message to the watcher.
#[derive(Clone, Copy, Debug, PartialEq, Eq, Structural)]
pub enum WatcherMessage {
    FrameMoved,
    ObjectUpdated,
    SceneChanged,
    /// The grid is to show `2^n` times as many beats per measure.
    SetGridMultiplier(i32),
    Stop,
}

/// What the watcher's loop learns.
#[derive(Clone, Copy, Debug, PartialEq, Eq, Structural)]
pub enum WatcherEvent {
    /// Whether the edit handle is ready.
    HandleReady(bool),
    /// A message came.
    Received(WatcherMessage),
    /// The channel is closed.
    ReceiveFailed,
}

/// What the watcher's loop does next.
#[derive(Clone, Copy, Debug, PartialEq, Eq, Structural)]
pub enum WatcherAction {
    /// Wait a while, then ask again whether the edit handle is ready.
    Sleep,
    /// Wait for the next message.
    Receive,
    /// Run an update of the grid (see `WatcherState::update_if_changed`),
    /// then ask again whether the edit handle is ready.
    UpdateGrid,
    /// Leave the loop.
    Stop,
}

/// The state of the watcher: the grid multiplier last set.
pub struct WatcherState {
    pub multiplier: i32,
}

/// The action that follows an event.
pub open spec fn watcher_action(event: WatcherEvent) -> WatcherAction {
    match event {
        WatcherEvent::HandleReady(ready) => if ready {
            WatcherAction::Receive
        } else {
            WatcherAction::Sleep
        },
        WatcherEvent::Received(WatcherMessage::Stop) => WatcherAction::Stop,
        WatcherEvent::Received(_) => WatcherAction::UpdateGrid,
        WatcherEvent::ReceiveFailed => WatcherAction::Stop,
    }
}

/// The multiplier after an event.
pub open spec fn watcher_multiplier(multiplier: i32, event: WatcherEvent) -> i32 {
    match event {
        WatcherEvent::Received(WatcherMessage::SetGridMultiplier(m)) => m,
        _ => multiplier,
    }
}

/// Law: the message `SetGridMultiplier(m)` makes the multiplier `m`, whatever
/// it was before; every other event leaves it as it was.
pub proof fn lemma_multiplier_set(multiplier: i32, m: i32, event: WatcherEvent)
    ensures
        watcher_multiplier(multiplier, WatcherEvent::Received(WatcherMessage::SetGridMultiplier(m)))
            == m,
        !(event matches WatcherEvent::Received(WatcherMessage::SetGridMultiplier(_)))
            ==> watcher_multiplier(multiplier, event) == multiplier,
{
}

impl WatcherState {
    /// A watcher with multiplier 0 (the grid as the object sets it).
    pub fn new() -> (state: Self)
        ensures
            state.multiplier == 0,
    {
        WatcherState { multiplier: 0 }
    }

    /// Takes in what the loop learnt and says what it does next.
    pub fn step(&mut self, event: WatcherEvent) -> (action: WatcherAction)
        ensures
            action == watcher_action(event),
            final(self).multiplier == watcher_multiplier(old(self).multiplier, event),
    {
        match event {
            WatcherEvent::HandleReady(ready) => {
                if ready {
                    WatcherAction::Receive
                } else {
                    WatcherAction::Sleep
                }
            },
            WatcherEvent::Received(message) => match message {
                WatcherMessage::SetGridMultiplier(m) => {
                    self.multiplier = m;
                    WatcherAction::UpdateGrid
                },
                WatcherMessage::Stop => WatcherAction::Stop,
                _ => WatcherAction::UpdateGrid,
            },
            WatcherEvent::ReceiveFailed => WatcherAction::Stop,
        }
    }

    /// Begins an update of the grid with the current multiplier: its first
    /// question is the edit state.
    pub fn update_if_changed(&self) -> (update: GridUpdate)
        ensures
            update.multiplier == self.multiplier,
            update.stage == UpdateStage::EditState,
    {
        GridUpdate { multiplier: self.multiplier, stage: UpdateStage::EditState }
    }
}

/// Where an update of the grid stands, and so the question it asks next.
#[derive(Clone, Copy, Debug, PartialEq, Eq, Structural)]
pub enum UpdateStage {
    /// Is the editor editing?
    EditState,
    /// Which layer is selected, and which frame is under the cursor?
    EditInfo,
    /// Is there an object on `layer` at or after `frame`?
    FindObject { layer: usize, frame: usize },
    /// Which frames does that object span?
    ObjectRange { layer: usize, frame: usize },
    /// How many BPM effects does it hold?
    EffectCount { layer: usize, frame: usize },
    /// What does its alias data say of `effect.disable` in `Object.0`?
    DisableFlag { layer: usize, frame: usize },
    /// The object found on `layer` sets the grid: read its BPM, beat and
    /// offset and apply them with the multiplier.
    Target { layer: usize },
    /// Nothing to do.
    Done,
}

/// The frames an object spans, both ends included.
#[derive(Clone, Copy, Debug, PartialEq, Eq, Structural)]
pub struct FrameRange {
    pub start: usize,
    pub end: usize,
}

/// What the alias data of an object says of `effect.disable` in `Object.0`.
#[derive(Debug)]
pub enum DisableFlag {
    /// The alias data could not be read or parsed, or has no `Object.0`.
    Unavailable,
    /// `Object.0` has no `effect.disable`.
    Absent,
    /// The bytes of the value of `effect.disable`.
    Value(Vec<u8>),
}

/// An answer to the question of an update.
#[derive(Debug)]
pub enum UpdateEvent {
    EditState { editing: bool },
    EditInfo { layer: usize, frame: usize },
    /// Whether an object was found (`false` also where the search failed).
    ObjectFound(bool),
    /// The object's frames (`None` where they could not be read).
    ObjectRange(Option<FrameRange>),
    /// The number of BPM effects (`None` where it could not be read).
    EffectCount(Option<usize>),
    DisableFlag(DisableFlag),
}

/// An update of the grid, with the multiplier it applies.
#[derive(Clone, Copy, Debug)]
pub struct GridUpdate {
    pub multiplier: i32,
    pub stage: UpdateStage,
}

/// The next layer down, or the end of the search below layer 0.
pub open spec fn next_layer(layer: usize, frame: usize) -> UpdateStage {
    if layer == 0 {
        UpdateStage::Done
    } else {
        UpdateStage::FindObject { layer: (layer - 1) as usize, frame }
    }
}

/// Whether a value of `effect.disable` disables the effect: it is "1".
pub open spec fn disables(value: Seq<u8>) -> bool {
    value == seq![0x31u8]
}

/// The stage after an answer; an answer to another question than the one
/// asked changes nothing.
pub open spec fn next_stage(stage: UpdateStage, event: UpdateEvent) -> UpdateStage {
    match (stage, event) {
        (UpdateStage::EditState, UpdateEvent::EditState { editing }) => if editing {
            UpdateStage::EditInfo
        } else {
            UpdateStage::Done
        },
        (UpdateStage::EditInfo, UpdateEvent::EditInfo { layer, frame }) => if layer == 0 {
            UpdateStage::Done
        } else {
            UpdateStage::FindObject { layer: (layer - 1) as usize, frame }
        },
        (UpdateStage::FindObject { layer, frame }, UpdateEvent::ObjectFound(found)) => if found {
            UpdateStage::ObjectRange { layer, frame }
        } else {
            next_layer(layer, frame)
        },
        (UpdateStage::ObjectRange { layer, frame }, UpdateEvent::ObjectRange(range)) => match range {
            Some(r) => if r.start <= frame && frame <= r.end {
                UpdateStage::EffectCount { layer, frame }
            } else {
                next_layer(layer, frame)
            },
            None => next_layer(layer, frame),
        },
        (UpdateStage::EffectCount { layer, frame }, UpdateEvent::EffectCount(count)) => match count {
            Some(c) => if c > 0 {
                UpdateStage::DisableFlag { layer, frame }
            } else {
                next_layer(layer, frame)
            },
            None => next_layer(layer, frame),
        },
        (UpdateStage::DisableFlag { layer, frame }, UpdateEvent::DisableFlag(flag)) => match flag {
            DisableFlag::Unavailable => next_layer(layer, frame),
            DisableFlag::Absent => UpdateStage::Target { layer },
            DisableFlag::Value(v) => if disables(v@) {
                next_layer(layer, frame)
            } else {
                UpdateStage::Target { layer }
            },
        },
        _ => stage,
    }
}

/// Whether `event` answers the question that `stage` asks.
pub open spec fn answers(stage: UpdateStage, event: UpdateEvent) -> bool {
    match (stage, event) {
        (UpdateStage::EditState, UpdateEvent::EditState { .. }) => true,
        (UpdateStage::EditInfo, UpdateEvent::EditInfo { .. }) => true,
        (UpdateStage::FindObject { .. }, UpdateEvent::ObjectFound(_)) => true,
        (UpdateStage::ObjectRange { .. }, UpdateEvent::ObjectRange(_)) => true,
        (UpdateStage::EffectCount { .. }, UpdateEvent::EffectCount(_)) => true,
        (UpdateStage::DisableFlag { .. }, UpdateEvent::DisableFlag(_)) => true,
        _ => false,
    }
}

fn is_disabling(value: &Vec<u8>) -> (res: bool)
    ensures
        res == disables(value@),
{
    if value.len() == 1 && value[0] == 0x31u8 {
        assert(value@ =~= seq![0x31u8]);
        true
    } else {
        false
    }
}

fn layer_below(layer: usize, frame: usize) -> (stage: UpdateStage)
    ensures
        stage == next_layer(layer, frame),
{
    if layer == 0 {
        UpdateStage::Done
    } else {
        UpdateStage::FindObject { layer: layer - 1, frame }
    }
}

impl GridUpdate {
    /// Takes in an answer and moves to the next question.
    pub fn step(&mut self, event: UpdateEvent)
        ensures
            final(self).multiplier == old(self).multiplier,
            final(self).stage == next_stage(old(self).stage, event),
    {
        let next = match (self.stage, event) {
            (UpdateStage::EditState, UpdateEvent::EditState { editing }) => {
                if editing {
                    UpdateStage::EditInfo
                } else {
                    UpdateStage::Done
                }
            },
            (UpdateStage::EditInfo, UpdateEvent::EditInfo { layer, frame }) => {
                if layer == 0 {
                    UpdateStage::Done
                } else {
                    UpdateStage::FindObject { layer: layer - 1, frame }
                }
            },
            (UpdateStage::FindObject { layer, frame }, UpdateEvent::ObjectFound(found)) => {
                if found {
                    UpdateStage::ObjectRange { layer, frame }
                } else {
                    layer_below(layer, frame)
                }
            },
            (UpdateStage::ObjectRange { layer, frame }, UpdateEvent::ObjectRange(range)) => {
                match range {
                    Some(r) => {
                        if r.start <= frame && frame <= r.end {
                            UpdateStage::EffectCount { layer, frame }
                        } else {
                            layer_below(layer, frame)
                        }
                    },
                    None => layer_below(layer, frame),
                }
            },
            (UpdateStage::EffectCount { layer, frame }, UpdateEvent::EffectCount(count)) => {
                match count {
                    Some(c) => {
                        if c > 0 {
                            UpdateStage::DisableFlag { layer, frame }
                        } else {
                            layer_below(layer, frame)
                        }
                    },
                    None => layer_below(layer, frame),
                }
            },
            (UpdateStage::DisableFlag { layer, frame }, UpdateEvent::DisableFlag(flag)) => {
                match flag {
                    DisableFlag::Unavailable => layer_below(layer, frame),
                    DisableFlag::Absent => UpdateStage::Target { layer },
                    DisableFlag::Value(v) => {
                        if is_disabling(&v) {
                            layer_below(layer, frame)
                        } else {
                            UpdateStage::Target { layer }
                        }
                    },
                }
            },
            (stage, _) => stage,
        };
        self.stage = next;
    }
}

/// How far an update is from its end: the questions before the search, then
/// four per layer still to search.
pub open spec fn update_rank(stage: UpdateStage) -> (int, int) {
    match stage {
        UpdateStage::EditState => (2, 0),
        UpdateStage::EditInfo => (1, 0),
        UpdateStage::FindObject { layer, .. } => (0, 4 * layer + 4),
        UpdateStage::ObjectRange { layer, .. } => (0, 4 * layer + 3),
        UpdateStage::EffectCount { layer, .. } => (0, 4 * layer + 2),
        UpdateStage::DisableFlag { layer, .. } => (0, 4 * layer + 1),
        UpdateStage::Target { .. } => (0, 0),
        UpdateStage::Done => (0, 0),
    }
}

pub open spec fn rank_below(a: (int, int), b: (int, int)) -> bool {
    a.0 < b.0 || (a.0 == b.0 && a.1 < b.1)
}

/// Law: an update ends. Every answer to the question asked brings it
/// strictly closer to its end (`Target` or `Done`, which ask nothing), any
/// other answer changes nothing, and the search only moves down the layers,
/// from the one below the selected layer to layer 0.
pub proof fn lemma_update_progress(stage: UpdateStage, event: UpdateEvent)
    ensures
        answers(stage, event) ==> rank_below(update_rank(next_stage(stage, event)), update_rank(stage)),
        !answers(stage, event) ==> next_stage(stage, event) == stage,
        stage is Target || stage is Done ==> !answers(stage, event),
        update_rank(stage).0 >= 0 && update_rank(stage).1 >= 0,
        answers(stage, event) ==> match (stage, next_stage(stage, event)) {
            (UpdateStage::EditInfo, UpdateStage::FindObject { layer: l, frame: f }) => match event {
                UpdateEvent::EditInfo { layer, frame } => l + 1 == layer && f == frame,
                _ => false,
            },
            (UpdateStage::FindObject { layer, frame }, UpdateStage::FindObject { layer: l, frame: f }) =>
                l + 1 == layer && f == frame,
            (UpdateStage::ObjectRange { layer, frame }, UpdateStage::FindObject { layer: l, frame: f }) =>
                l + 1 == layer && f == frame,
            (UpdateStage::EffectCount { layer, frame }, UpdateStage::FindObject { layer: l, frame: f }) =>
                l + 1 == layer && f == frame,
            (UpdateStage::DisableFlag { layer, frame }, UpdateStage::FindObject { layer: l, frame: f }) =>
                l + 1 == layer && f == frame,
            (UpdateStage::DisableFlag { layer, .. }, UpdateStage::Target { layer: l }) => l == layer,
            (_, UpdateStage::Target { .. }) => false,
            _ => true,
        },
{
}

/// Law: the search settles on an object only when it was found on the layer
/// searched, spans the frame, holds a BPM effect and its effect is not
/// disabled; and it gives a layer up only when one of those fails.
pub proof fn lemma_target_conditions(layer: usize, frame: usize, event: UpdateEvent)
    ensures
        next_stage(UpdateStage::FindObject { layer, frame }, event) == (match event {
            UpdateEvent::ObjectFound(true) => UpdateStage::ObjectRange { layer, frame },
            UpdateEvent::ObjectFound(false) => next_layer(layer, frame),
            _ => UpdateStage::FindObject { layer, frame },
        }),
        next_stage(UpdateStage::ObjectRange { layer, frame }, event) == (match event {
            UpdateEvent::ObjectRange(Some(r)) => if r.start <= frame <= r.end {
                UpdateStage::EffectCount { layer, frame }
            } else {
                next_layer(layer, frame)
            },
            UpdateEvent::ObjectRange(None) => next_layer(layer, frame),
            _ => UpdateStage::ObjectRange { layer, frame },
        }),
        next_stage(UpdateStage::EffectCount { layer, frame }, event) == (match event {
            UpdateEvent::EffectCount(Some(c)) => if c > 0 {
                UpdateStage::DisableFlag { layer, frame }
            } else {
                next_layer(layer, frame)
            },
            UpdateEvent::EffectCount(None) => next_layer(layer, frame),
            _ => UpdateStage::EffectCount { layer, frame },
        }),
        (next_stage(UpdateStage::DisableFlag { layer, frame }, event) == UpdateStage::Target { layer })
            <==> (match event {
            UpdateEvent::DisableFlag(DisableFlag::Absent) => true,
            UpdateEvent::DisableFlag(DisableFlag::Value(v)) => !disables(v@),
            _ => false,
        }),
{
}

/// The stage after the answers `events`, in order.
pub open spec fn stage_after(stage: UpdateStage, events: Seq<UpdateEvent>) -> UpdateStage
    decreases events.len(),
{
    if events.len() == 0 {
        stage
    } else {
        next_stage(stage_after(stage, events.drop_last()), events.last())
    }
}

/// The answers to the edit-info question (selected layer `layer`, cursor
/// frame `frame`) and then to `misses` searches that found no object.
pub open spec fn search_misses(layer: usize, frame: usize, misses: nat) -> Seq<UpdateEvent> {
    seq![UpdateEvent::EditInfo { layer, frame }] + Seq::new(misses, |k: int| UpdateEvent::ObjectFound(false))
}

/// Law: the search covers every layer below the selected one, from the top
/// down. With layer `layer` selected, the first layer searched is
/// `layer - 1`; each layer on which no object is found passes the search to
/// the one below, and the update ends only after layer 0 (at once, where
/// layer 0 itself is selected).
pub proof fn lemma_search_every_layer(layer: usize, frame: usize, misses: nat)
    requires
        misses <= layer,
    ensures
        layer > 0 ==> next_stage(UpdateStage::EditInfo, UpdateEvent::EditInfo { layer, frame })
            == (UpdateStage::FindObject { layer: (layer - 1) as usize, frame }),
        layer == 0 ==> next_stage(UpdateStage::EditInfo, UpdateEvent::EditInfo { layer, frame })
            == UpdateStage::Done,
        stage_after(UpdateStage::EditInfo, search_misses(layer, frame, misses)) == (if misses < layer {
            UpdateStage::FindObject { layer: (layer - 1 - misses) as usize, frame }
        } else {
            UpdateStage::Done
        }),
    decreases misses,
{
    let events = search_misses(layer, frame, misses);
    if misses == 0 {
        assert(events =~= seq![UpdateEvent::EditInfo { layer, frame }]);
        assert(events.drop_last() =~= Seq::<UpdateEvent>::empty());
        assert(stage_after(UpdateStage::EditInfo, events.drop_last()) == UpdateStage::EditInfo);
    } else {
        lemma_search_every_layer(layer, frame, (misses - 1) as nat);
        assert(events.drop_last() =~= search_misses(layer, frame, (misses - 1) as nat));
        assert(events.last() == UpdateEvent::ObjectFound(false));
    }
}

} // verus!
