use bpm_object::watcher::{
    DisableFlag, FrameRange, GridUpdate, UpdateEvent, UpdateStage, WatcherAction, WatcherEvent,
    WatcherMessage, WatcherState,
};

fn answer(update: &mut GridUpdate, event: UpdateEvent) -> UpdateStage {
    update.step(event);
    update.stage
}

#[test]
fn watcher_starts_with_multiplier_zero() {
    assert_eq!(WatcherState::new().multiplier, 0);
}

#[test]
fn watcher_waits_for_the_edit_handle() {
    let mut state = WatcherState::new();
    assert_eq!(state.step(WatcherEvent::HandleReady(false)), WatcherAction::Sleep);
    assert_eq!(state.step(WatcherEvent::HandleReady(true)), WatcherAction::Receive);
    assert_eq!(state.multiplier, 0);
}

#[test]
fn watcher_updates_on_notifications() {
    let mut state = WatcherState::new();
    for message in [
        WatcherMessage::FrameMoved,
        WatcherMessage::ObjectUpdated,
        WatcherMessage::SceneChanged,
    ] {
        assert_eq!(state.step(WatcherEvent::Received(message)), WatcherAction::UpdateGrid);
        assert_eq!(state.multiplier, 0);
    }
}

#[test]
fn watcher_sets_the_multiplier_then_updates() {
    let mut state = WatcherState::new();
    let action = state.step(WatcherEvent::Received(WatcherMessage::SetGridMultiplier(-2)));
    assert_eq!(action, WatcherAction::UpdateGrid);
    assert_eq!(state.multiplier, -2);
    let update = state.update_if_changed();
    assert_eq!(update.multiplier, -2);
    assert_eq!(update.stage, UpdateStage::EditState);
}

#[test]
fn watcher_stops_on_stop_or_closed_channel() {
    let mut state = WatcherState { multiplier: 3 };
    assert_eq!(state.step(WatcherEvent::Received(WatcherMessage::Stop)), WatcherAction::Stop);
    assert_eq!(state.step(WatcherEvent::ReceiveFailed), WatcherAction::Stop);
    assert_eq!(state.multiplier, 3);
}

#[test]
fn update_does_nothing_outside_editing() {
    let mut update = WatcherState::new().update_if_changed();
    assert_eq!(answer(&mut update, UpdateEvent::EditState { editing: false }), UpdateStage::Done);
}

#[test]
fn update_does_nothing_on_the_top_layer() {
    let mut update = WatcherState::new().update_if_changed();
    assert_eq!(answer(&mut update, UpdateEvent::EditState { editing: true }), UpdateStage::EditInfo);
    assert_eq!(
        answer(&mut update, UpdateEvent::EditInfo { layer: 0, frame: 12 }),
        UpdateStage::Done
    );
}

#[test]
fn update_searches_down_to_the_first_enabled_bpm_object() {
    let mut update = WatcherState { multiplier: 1 }.update_if_changed();
    answer(&mut update, UpdateEvent::EditState { editing: true });
    assert_eq!(
        answer(&mut update, UpdateEvent::EditInfo { layer: 4, frame: 100 }),
        UpdateStage::FindObject { layer: 3, frame: 100 }
    );
    // Layer 3: nothing there.
    assert_eq!(
        answer(&mut update, UpdateEvent::ObjectFound(false)),
        UpdateStage::FindObject { layer: 2, frame: 100 }
    );
    // Layer 2: an object that starts after the frame.
    answer(&mut update, UpdateEvent::ObjectFound(true));
    assert_eq!(
        answer(&mut update, UpdateEvent::ObjectRange(Some(FrameRange { start: 101, end: 200 }))),
        UpdateStage::FindObject { layer: 1, frame: 100 }
    );
    // Layer 1: a disabled BPM object spanning the frame.
    answer(&mut update, UpdateEvent::ObjectFound(true));
    assert_eq!(
        answer(&mut update, UpdateEvent::ObjectRange(Some(FrameRange { start: 50, end: 100 }))),
        UpdateStage::EffectCount { layer: 1, frame: 100 }
    );
    assert_eq!(
        answer(&mut update, UpdateEvent::EffectCount(Some(1))),
        UpdateStage::DisableFlag { layer: 1, frame: 100 }
    );
    assert_eq!(
        answer(&mut update, UpdateEvent::DisableFlag(DisableFlag::Value(b"1".to_vec()))),
        UpdateStage::FindObject { layer: 0, frame: 100 }
    );
    // Layer 0: an enabled BPM object.
    answer(&mut update, UpdateEvent::ObjectFound(true));
    answer(&mut update, UpdateEvent::ObjectRange(Some(FrameRange { start: 100, end: 100 })));
    answer(&mut update, UpdateEvent::EffectCount(Some(2)));
    assert_eq!(
        answer(&mut update, UpdateEvent::DisableFlag(DisableFlag::Value(b"0".to_vec()))),
        UpdateStage::Target { layer: 0 }
    );
    assert_eq!(update.multiplier, 1);
}

#[test]
fn update_skips_objects_without_bpm_effect_or_readable_data() {
    let mut update = GridUpdate { multiplier: 0, stage: UpdateStage::EffectCount { layer: 2, frame: 7 } };
    assert_eq!(
        answer(&mut update, UpdateEvent::EffectCount(Some(0))),
        UpdateStage::FindObject { layer: 1, frame: 7 }
    );
    let mut update = GridUpdate { multiplier: 0, stage: UpdateStage::EffectCount { layer: 2, frame: 7 } };
    assert_eq!(
        answer(&mut update, UpdateEvent::EffectCount(None)),
        UpdateStage::FindObject { layer: 1, frame: 7 }
    );
    let mut update = GridUpdate { multiplier: 0, stage: UpdateStage::ObjectRange { layer: 0, frame: 7 } };
    assert_eq!(answer(&mut update, UpdateEvent::ObjectRange(None)), UpdateStage::Done);
    let mut update = GridUpdate { multiplier: 0, stage: UpdateStage::DisableFlag { layer: 5, frame: 7 } };
    assert_eq!(
        answer(&mut update, UpdateEvent::DisableFlag(DisableFlag::Unavailable)),
        UpdateStage::FindObject { layer: 4, frame: 7 }
    );
    let mut update = GridUpdate { multiplier: 0, stage: UpdateStage::DisableFlag { layer: 5, frame: 7 } };
    assert_eq!(
        answer(&mut update, UpdateEvent::DisableFlag(DisableFlag::Absent)),
        UpdateStage::Target { layer: 5 }
    );
    let mut update = GridUpdate { multiplier: 0, stage: UpdateStage::DisableFlag { layer: 5, frame: 7 } };
    assert_eq!(
        answer(&mut update, UpdateEvent::DisableFlag(DisableFlag::Value(b"11".to_vec()))),
        UpdateStage::Target { layer: 5 }
    );
}

#[test]
fn update_ignores_answers_to_other_questions() {
    let mut update = WatcherState::new().update_if_changed();
    assert_eq!(answer(&mut update, UpdateEvent::ObjectFound(true)), UpdateStage::EditState);
    let mut update = GridUpdate { multiplier: 0, stage: UpdateStage::Target { layer: 1 } };
    assert_eq!(
        answer(&mut update, UpdateEvent::EditState { editing: true }),
        UpdateStage::Target { layer: 1 }
    );
    let mut update = GridUpdate { multiplier: 0, stage: UpdateStage::Done };
    assert_eq!(answer(&mut update, UpdateEvent::EffectCount(Some(1))), UpdateStage::Done);
}
