use spatial_input::capture::CaptureState;
use spatial_input::codec::serialize;
use spatial_input::datamap::Datamap;
use spatial_input::dispatch::{CaptureIntent, Event, FrameInput};
use spatial_input::engine::Engine;
use spatial_input::registry::{MethodVariant, TipInputMethod};
use spatial_input::vecmath::{Transform, Vec3};
use spatial_input::InputError;

fn at(x: i64, y: i64, z: i64) -> Transform {
    Transform { position: Vec3 { x, y, z } }
}

fn input_targets(log: &[Event]) -> Vec<u64> {
    let mut out = Vec::new();
    for e in log {
        if let Event::Input { handler, .. } = e {
            out.push(*handler);
        }
    }
    out
}

fn frame_targets(log: &[Event]) -> Vec<u64> {
    let mut out = Vec::new();
    for e in log {
        if let Event::Frame { target } = e {
            out.push(*target);
        }
    }
    out
}

/// Distances 500 (A), 200 (B), 900 (C): dispatch order must be B, A, C.
/// B declines, A captures: C never sees the event, and later frames go to A
/// alone until A releases.
#[test]
fn scenario_rank_order_and_capture() {
    let mut eng = Engine::new();
    let f = eng.create_field();
    let a = eng.create_input_handler(at(0, 0, 0), f).unwrap();
    let b = eng.create_input_handler(at(1, 0, 0), f).unwrap();
    let c = eng.create_input_handler(at(2, 0, 0), f).unwrap();
    let m = eng.create_input_method_tip(at(5, 0, 0), 10, None).unwrap();
    assert!(a != b && b != c && a != c && m != a && m != b && m != c);

    // Frame 1: B declines, A captures, C would capture but must not be asked.
    let log = eng.run_frame(&FrameInput {
        distances: vec![vec![500, 200, 900]],
        intents: vec![vec![
            CaptureIntent::Capture,
            CaptureIntent::Decline,
            CaptureIntent::Capture,
        ]],
    });
    assert_eq!(input_targets(&log), vec![b, a]);
    match eng.captures.get(m) {
        Some(CaptureState::CapturedBy { handler, since }) => {
            assert_eq!(handler, a);
            assert_eq!(since, 0);
        }
        other => panic!("expected A to hold the capture, got {:?}", other),
    }

    // Frame 2: C is now closest, but the capture is sticky: only A is served.
    let log2 = eng.run_frame(&FrameInput {
        distances: vec![vec![500, 200, 1]],
        intents: vec![vec![
            CaptureIntent::Decline,
            CaptureIntent::Capture,
            CaptureIntent::Capture,
        ]],
    });
    assert_eq!(input_targets(&log2), vec![a]);

    // A releases: ranking runs again and everyone declines, so all three are
    // served in distance order and the method ends uncaptured.
    eng.release(m, a).unwrap();
    assert!(eng.captures.get(m).is_none());
    let log3 = eng.run_frame(&FrameInput {
        distances: vec![vec![500, 200, 1]],
        intents: vec![vec![
            CaptureIntent::Decline,
            CaptureIntent::Decline,
            CaptureIntent::Decline,
        ]],
    });
    assert_eq!(input_targets(&log3), vec![c, b, a]);
    assert!(eng.captures.get(m).is_none());
}

/// Destroying the captor's field immediately uncaptures the method, and the
/// next frame's ranking excludes the handler.
#[test]
fn scenario_field_death_releases_capture() {
    let mut eng = Engine::new();
    let f1 = eng.create_field();
    let f2 = eng.create_field();
    let h = eng.create_input_handler(at(0, 0, 0), f1).unwrap();
    let other = eng.create_input_handler(at(1, 0, 0), f2).unwrap();
    let m = eng.create_input_method_tip(at(5, 0, 0), 10, None).unwrap();

    let log = eng.run_frame(&FrameInput {
        distances: vec![vec![100, 400]],
        intents: vec![vec![CaptureIntent::Capture, CaptureIntent::Decline]],
    });
    assert_eq!(input_targets(&log), vec![h]);
    assert!(matches!(
        eng.captures.get(m),
        Some(CaptureState::CapturedBy { handler, .. }) if handler == h
    ));

    eng.remove_field(f1).unwrap();
    assert!(eng.captures.get(m).is_none());

    // Next frame: H is inactive and excluded; only the other handler is ranked.
    let log2 = eng.run_frame(&FrameInput {
        distances: vec![vec![1, 400]],
        intents: vec![vec![CaptureIntent::Capture, CaptureIntent::Decline]],
    });
    assert_eq!(input_targets(&log2), vec![other]);
}

/// Every frame lifecycle event comes after every input event of the frame,
/// and goes to each live handler and method exactly once.
#[test]
fn frame_events_follow_inputs() {
    let mut eng = Engine::new();
    let f = eng.create_field();
    let h1 = eng.create_input_handler(at(0, 0, 0), f).unwrap();
    let h2 = eng.create_input_handler(at(1, 0, 0), f).unwrap();
    let m = eng.create_input_method_tip(at(5, 0, 0), 10, None).unwrap();

    let log = eng.run_frame(&FrameInput {
        distances: vec![vec![10, 20]],
        intents: vec![vec![CaptureIntent::Decline, CaptureIntent::Decline]],
    });
    let first_frame = log
        .iter()
        .position(|e| matches!(e, Event::Frame { .. }))
        .expect("a frame event");
    for (i, e) in log.iter().enumerate() {
        if i >= first_frame {
            assert!(matches!(e, Event::Frame { .. }));
        } else {
            assert!(matches!(e, Event::Input { .. }));
        }
    }
    assert_eq!(frame_targets(&log), vec![h1, h2, m]);
    assert_eq!(eng.frame, 1);
}

/// A failing handler is treated as non-capturing: dispatch continues past it.
#[test]
fn handler_failure_is_contained() {
    let mut eng = Engine::new();
    let f = eng.create_field();
    let bad = eng.create_input_handler(at(0, 0, 0), f).unwrap();
    let good = eng.create_input_handler(at(1, 0, 0), f).unwrap();
    let m = eng.create_input_method_tip(at(5, 0, 0), 10, None).unwrap();

    let log = eng.run_frame(&FrameInput {
        distances: vec![vec![1, 2]],
        intents: vec![vec![CaptureIntent::Failed, CaptureIntent::Capture]],
    });
    assert_eq!(input_targets(&log), vec![bad, good]);
    assert!(matches!(
        eng.captures.get(m),
        Some(CaptureState::CapturedBy { handler, .. }) if handler == good
    ));
}

/// An out-of-band capture request pre-empts ranking at the next dispatch.
#[test]
fn pending_capture_preempts_ranking() {
    let mut eng = Engine::new();
    let f = eng.create_field();
    let near = eng.create_input_handler(at(0, 0, 0), f).unwrap();
    let far = eng.create_input_handler(at(1, 0, 0), f).unwrap();
    let m = eng.create_input_method_tip(at(5, 0, 0), 10, None).unwrap();

    eng.capture(m, far).unwrap();
    assert!(matches!(
        eng.captures.get(m),
        Some(CaptureState::Pending { handler, .. }) if handler == far
    ));

    // The far handler gets the event despite ranking last, and the pending
    // request is committed with this frame's stamp.
    let log = eng.run_frame(&FrameInput {
        distances: vec![vec![1, 1000]],
        intents: vec![vec![CaptureIntent::Capture, CaptureIntent::Decline]],
    });
    assert_eq!(input_targets(&log), vec![far]);
    match eng.captures.get(m) {
        Some(CaptureState::CapturedBy { handler, since }) => {
            assert_eq!(handler, far);
            assert_eq!(since, 0);
        }
        other => panic!("expected committed capture, got {:?}", other),
    }
    let _ = near;
}

/// Destroying a handler that holds a capture clears the record at once.
#[test]
fn remove_handler_clears_capture() {
    let mut eng = Engine::new();
    let f = eng.create_field();
    let h = eng.create_input_handler(at(0, 0, 0), f).unwrap();
    let m = eng.create_input_method_tip(at(5, 0, 0), 10, None).unwrap();
    let log = eng.run_frame(&FrameInput {
        distances: vec![vec![7]],
        intents: vec![vec![CaptureIntent::Capture]],
    });
    assert_eq!(input_targets(&log), vec![h]);
    assert!(eng.captures.get(m).is_some());

    eng.remove_handler(h).unwrap();
    assert!(eng.captures.get(m).is_none());
    assert_eq!(eng.registry.handlers.len(), 0);
}

/// Destroying a method clears its capture record too.
#[test]
fn remove_method_clears_capture() {
    let mut eng = Engine::new();
    let f = eng.create_field();
    let h = eng.create_input_handler(at(0, 0, 0), f).unwrap();
    let m = eng.create_input_method_tip(at(5, 0, 0), 10, None).unwrap();
    eng.capture(m, h).unwrap();
    eng.remove_method(m).unwrap();
    assert!(eng.captures.get(m).is_none());
    assert_eq!(eng.registry.methods.len(), 0);
}

/// Onion-skin ranking: a method enclosed by a field (negative signed
/// distance) ranks by magnitude, as if at the field's surface.
#[test]
fn onion_skin_uses_magnitude() {
    let mut eng = Engine::new();
    let f = eng.create_field();
    let enclosing = eng.create_input_handler(at(0, 0, 0), f).unwrap();
    let nearer = eng.create_input_handler(at(1, 0, 0), f).unwrap();
    let _m = eng.create_input_method_tip(at(5, 0, 0), 10, None).unwrap();

    // Inside the first field by 300 units, 200 outside the second: the
    // second is ranked first because |−300| > |200|.
    let log = eng.run_frame(&FrameInput {
        distances: vec![vec![-300, 200]],
        intents: vec![vec![CaptureIntent::Decline, CaptureIntent::Decline]],
    });
    assert_eq!(input_targets(&log), vec![nearer, enclosing]);
}

/// Ties are broken by registration order, deterministically.
#[test]
fn ties_break_by_registration_order() {
    let mut eng = Engine::new();
    let f = eng.create_field();
    let first = eng.create_input_handler(at(0, 0, 0), f).unwrap();
    let second = eng.create_input_handler(at(1, 0, 0), f).unwrap();
    let _m = eng.create_input_method_tip(at(5, 0, 0), 10, None).unwrap();

    for _ in 0..3 {
        let log = eng.run_frame(&FrameInput {
            distances: vec![vec![250, 250]],
            intents: vec![vec![CaptureIntent::Decline, CaptureIntent::Decline]],
        });
        assert_eq!(input_targets(&log), vec![first, second]);
    }
}

/// Delivered spatial data is relative to the receiving handler.
#[test]
fn delivery_is_relativized() {
    let mut eng = Engine::new();
    let f = eng.create_field();
    let h = eng.create_input_handler(at(10, 20, 30), f).unwrap();
    let m = eng.create_input_method_tip(at(13, 20, 27), 10, None).unwrap();
    let log = eng.run_frame(&FrameInput {
        distances: vec![vec![40]],
        intents: vec![vec![CaptureIntent::Decline]],
    });
    match &log[0] {
        Event::Input { handler, data } => {
            assert_eq!(*handler, h);
            assert_eq!(data.method, m);
            assert_eq!(data.rel_position, Vec3 { x: 3, y: 0, z: -3 });
            assert_eq!(data.distance, 40);
        }
        other => panic!("expected an input event, got {:?} frames", matches!(other, Event::Frame { .. })),
    }
}

/// Stale references are rejected whole, with no state change.
#[test]
fn unknown_ids_are_rejected() {
    let mut eng = Engine::new();
    let f = eng.create_field();
    let h = eng.create_input_handler(at(0, 0, 0), f).unwrap();
    let m = eng.create_input_method_tip(at(0, 0, 0), 10, None).unwrap();

    assert_eq!(eng.create_input_handler(at(0, 0, 0), 999), Err(InputError::UnknownId));
    assert_eq!(eng.set_radius(999, 5), Err(InputError::UnknownId));
    assert_eq!(eng.capture(999, h), Err(InputError::UnknownId));
    assert_eq!(eng.capture(m, 999), Err(InputError::UnknownId));
    assert_eq!(eng.release(999, h), Err(InputError::UnknownId));
    assert_eq!(eng.remove_method(999), Err(InputError::UnknownId));
    assert_eq!(eng.remove_handler(999), Err(InputError::UnknownId));
    assert_eq!(eng.remove_field(999), Err(InputError::UnknownId));
    // A handler id is not a method id and the other way round.
    assert_eq!(eng.remove_method(h), Err(InputError::UnknownId));
    assert_eq!(eng.remove_handler(m), Err(InputError::UnknownId));
}

/// A capture request from a handler whose field is gone is a stale reference.
#[test]
fn capture_by_inactive_handler_rejected() {
    let mut eng = Engine::new();
    let f = eng.create_field();
    let h = eng.create_input_handler(at(0, 0, 0), f).unwrap();
    let m = eng.create_input_method_tip(at(0, 0, 0), 10, None).unwrap();
    eng.remove_field(f).unwrap();
    assert_eq!(eng.capture(m, h), Err(InputError::UnknownId));
}

/// Radius updates hit only the named tip.
#[test]
fn set_radius_updates_tip() {
    let mut eng = Engine::new();
    let m1 = eng.create_input_method_tip(at(0, 0, 0), 10, None).unwrap();
    let m2 = eng.create_input_method_tip(at(0, 0, 0), 20, None).unwrap();
    eng.set_radius(m2, 99).unwrap();
    let radius_of = |eng: &Engine, id: u64| -> u64 {
        let rec = eng.registry.methods.iter().find(|r| r.id == id).unwrap();
        match &rec.variant {
            MethodVariant::Tip { tip } => tip.radius,
            _ => panic!("not a tip"),
        }
    };
    assert_eq!(radius_of(&eng, m1), 10);
    assert_eq!(radius_of(&eng, m2), 99);
}

/// An atomic update replaces pose, payload and datamap together.
#[test]
fn update_method_replaces_snapshot() {
    let mut eng = Engine::new();
    let f = eng.create_field();
    let h = eng.create_input_handler(at(0, 0, 0), f).unwrap();
    let m = eng.create_input_method_tip(at(5, 0, 0), 10, None).unwrap();

    let hand = MethodVariant::Hand {
        joints: vec![Vec3 { x: 7, y: 8, z: 9 }, Vec3 { x: 1, y: 1, z: 1 }],
    };
    let empty = serialize(&Datamap::new());
    eng.update_method(m, at(3, 2, 1), hand, &empty).unwrap();
    assert_eq!(
        eng.update_method(999, at(0, 0, 0), MethodVariant::Tip {
            tip: TipInputMethod { radius: 1 },
        }, &empty),
        Err(InputError::UnknownId)
    );
    assert_eq!(
        eng.update_method(m, at(0, 0, 0), MethodVariant::Tip {
            tip: TipInputMethod { radius: 1 },
        }, &vec![0xde, 0xad]),
        Err(InputError::MapInvalid)
    );

    // The hand's joints are delivered relative to the handler.
    let log = eng.run_frame(&FrameInput {
        distances: vec![vec![25]],
        intents: vec![vec![CaptureIntent::Decline]],
    });
    match &log[0] {
        Event::Input { handler, data } => {
            assert_eq!(*handler, h);
            assert_eq!(data.rel_position, Vec3 { x: 3, y: 2, z: 1 });
            match &data.variant {
                MethodVariant::Hand { joints } => {
                    assert_eq!(joints[0], Vec3 { x: 7, y: 8, z: 9 });
                    assert_eq!(joints[1], Vec3 { x: 1, y: 1, z: 1 });
                }
                _ => panic!("expected a hand payload"),
            }
        }
        _ => panic!("expected an input event"),
    }
}

/// A pointer's origin and deepest point are relativized; its direction is
/// translation-invariant.
#[test]
fn pointer_relativization() {
    let mut eng = Engine::new();
    let f = eng.create_field();
    let h = eng.create_input_handler(at(10, 0, 0), f).unwrap();
    let m = eng.create_input_method_tip(at(0, 0, 0), 10, None).unwrap();
    let pointer = MethodVariant::Pointer {
        origin: Vec3 { x: 12, y: 0, z: 0 },
        direction: Vec3 { x: 0, y: 0, z: -1 },
        deepest_point: Vec3 { x: 13, y: 5, z: 0 },
    };
    eng.update_method(m, at(12, 0, 0), pointer, &serialize(&Datamap::new())).unwrap();

    let log = eng.run_frame(&FrameInput {
        distances: vec![vec![2]],
        intents: vec![vec![CaptureIntent::Decline]],
    });
    match &log[0] {
        Event::Input { handler, data } => {
            assert_eq!(*handler, h);
            match &data.variant {
                MethodVariant::Pointer { origin, direction, deepest_point } => {
                    assert_eq!(*origin, Vec3 { x: 2, y: 0, z: 0 });
                    assert_eq!(*direction, Vec3 { x: 0, y: 0, z: -1 });
                    assert_eq!(*deepest_point, Vec3 { x: 3, y: 5, z: 0 });
                }
                _ => panic!("expected a pointer payload"),
            }
        }
        _ => panic!("expected an input event"),
    }
}

/// A method holds at most one capture record: a request while captured is
/// ignored, and a later pending request supersedes an earlier one.
#[test]
fn capture_requests_do_not_stack() {
    let mut eng = Engine::new();
    let f = eng.create_field();
    let h1 = eng.create_input_handler(at(0, 0, 0), f).unwrap();
    let h2 = eng.create_input_handler(at(1, 0, 0), f).unwrap();
    let m = eng.create_input_method_tip(at(5, 0, 0), 10, None).unwrap();

    // The latest pending request wins; there is never more than one record.
    eng.capture(m, h1).unwrap();
    eng.capture(m, h2).unwrap();
    assert!(matches!(
        eng.captures.get(m),
        Some(CaptureState::Pending { handler, .. }) if handler == h2
    ));
    assert_eq!(eng.captures.rows.len(), 1);

    // Commit h2's capture; a request from h1 is now ignored.
    let _ = eng.run_frame(&FrameInput {
        distances: vec![vec![1, 2]],
        intents: vec![vec![CaptureIntent::Decline, CaptureIntent::Decline]],
    });
    eng.capture(m, h1).unwrap();
    assert!(matches!(
        eng.captures.get(m),
        Some(CaptureState::CapturedBy { handler, .. }) if handler == h2
    ));
    assert_eq!(eng.captures.rows.len(), 1);
}

/// Release is not a way to oust a captor: only the holder's release clears
/// the record.
#[test]
fn release_by_non_holder_is_ignored() {
    let mut eng = Engine::new();
    let f = eng.create_field();
    let holder = eng.create_input_handler(at(0, 0, 0), f).unwrap();
    let intruder = eng.create_input_handler(at(1, 0, 0), f).unwrap();
    let m = eng.create_input_method_tip(at(5, 0, 0), 10, None).unwrap();
    let _ = eng.run_frame(&FrameInput {
        distances: vec![vec![1, 2]],
        intents: vec![vec![CaptureIntent::Capture, CaptureIntent::Decline]],
    });
    eng.release(m, intruder).unwrap();
    assert!(matches!(
        eng.captures.get(m),
        Some(CaptureState::CapturedBy { handler, .. }) if handler == holder
    ));
    eng.release(m, holder).unwrap();
    assert!(eng.captures.get(m).is_none());
}
