use spatial_input::codec::{serialize, validate};
use spatial_input::dispatch::{CaptureIntent, Event, FrameInput};
use spatial_input::datamap::{Datamap, Lookup, Value};
use spatial_input::engine::Engine;
use spatial_input::vecmath::{Transform, Vec3};
use spatial_input::InputError;

fn origin() -> Transform {
    Transform { position: Vec3 { x: 0, y: 0, z: 0 } }
}

fn sample_map() -> Datamap {
    let mut inner = Datamap::new();
    inner.insert(b"pressed".to_vec(), Value::Bool(true));
    let mut m = Datamap::new();
    m.insert(b"grab".to_vec(), Value::Bool(false));
    m.insert(b"strength".to_vec(), Value::Num(-42));
    m.insert(b"label".to_vec(), Value::Text(b"pen tip".to_vec()));
    m.insert(b"buttons".to_vec(), Value::MapVal(inner));
    m
}

/// Round trip: validating a serialization yields an equal map.
#[test]
fn round_trip_preserves_map() {
    let m = sample_map();
    let bytes = serialize(&m);
    let back = validate(&bytes).expect("serialized map must validate");
    // Equal at every observable point, and byte-for-byte on re-serialization.
    assert_eq!(serialize(&back), bytes);
    assert!(matches!(back.get_bool(&b"grab".to_vec()), Lookup::Found(false)));
    assert!(matches!(back.get_num(&b"strength".to_vec()), Lookup::Found(-42)));
    match back.get_text(&b"label".to_vec()) {
        Lookup::Found(t) => assert_eq!(t.as_slice(), b"pen tip"),
        _ => panic!("label missing"),
    }
    match back.get_map(&b"buttons".to_vec()) {
        Lookup::Found(inner) => {
            assert!(matches!(inner.get_bool(&b"pressed".to_vec()), Lookup::Found(true)))
        }
        _ => panic!("nested map missing"),
    }
}

/// The canonical encoding of an empty map and of a one-entry map.
#[test]
fn exact_encoding() {
    let empty = Datamap::new();
    assert_eq!(serialize(&empty), vec![4, 0, 0, 0, 0]);

    let mut m = Datamap::new();
    m.insert(b"k".to_vec(), Value::Bool(true));
    assert_eq!(
        serialize(&m),
        vec![4, 1, 0, 0, 0, 1, 0, 0, 0, b'k', 1, 1]
    );
}

/// Garbage bytes never validate.
#[test]
fn garbage_is_rejected() {
    assert_eq!(validate(&vec![]).unwrap_err(), InputError::MapInvalid);
    assert_eq!(validate(&vec![0xff]).unwrap_err(), InputError::MapInvalid);
    // A bool at the root is not a map.
    assert_eq!(validate(&vec![1, 1]).unwrap_err(), InputError::MapInvalid);
    // A truncated map header.
    assert_eq!(validate(&vec![4, 1, 0, 0]).unwrap_err(), InputError::MapInvalid);
    // A map announcing one entry but holding none.
    assert_eq!(validate(&vec![4, 1, 0, 0, 0]).unwrap_err(), InputError::MapInvalid);
    // Trailing bytes after a valid map.
    assert_eq!(validate(&vec![4, 0, 0, 0, 0, 0]).unwrap_err(), InputError::MapInvalid);
}

/// Typed getters distinguish a missing key from a mismatched type.
#[test]
fn typed_getters_fail_gracefully() {
    let m = sample_map();
    assert!(matches!(m.get_bool(&b"missing".to_vec()), Lookup::Absent));
    assert!(matches!(m.get_bool(&b"strength".to_vec()), Lookup::WrongType));
    assert!(matches!(m.get_num(&b"grab".to_vec()), Lookup::WrongType));
    assert!(matches!(m.get_text(&b"buttons".to_vec()), Lookup::WrongType));
    assert!(matches!(m.get_map(&b"label".to_vec()), Lookup::WrongType));
    assert!(matches!(m.get_map(&b"missing".to_vec()), Lookup::Absent));
}

/// Lookup is order-preserving: the first entry with a key wins.
#[test]
fn first_entry_wins() {
    let mut m = Datamap::new();
    m.insert(b"k".to_vec(), Value::Num(1));
    m.insert(b"k".to_vec(), Value::Num(2));
    assert!(matches!(m.get_num(&b"k".to_vec()), Lookup::Found(1)));
    assert_eq!(m.size(), 2);
}

/// A malformed datamap is rejected before it reaches any handler.
#[test]
fn engine_rejects_malformed_datamap() {
    let mut eng = Engine::new();
    assert_eq!(
        eng.create_input_method_tip(origin(), 10, Some(vec![0xff, 0x00])),
        Err(InputError::MapInvalid)
    );
    assert_eq!(eng.registry.methods.len(), 0);

    let m = eng
        .create_input_method_tip(origin(), 10, Some(serialize(&sample_map())))
        .unwrap();
    // Malformed replacement bytes are rejected, and checked before the id.
    assert_eq!(eng.set_datamap(m, &vec![9, 9]), Err(InputError::MapInvalid));
    assert_eq!(eng.set_datamap(999, &vec![9, 9]), Err(InputError::MapInvalid));
    assert_eq!(
        eng.set_datamap(999, &serialize(&Datamap::new())),
        Err(InputError::UnknownId)
    );
    assert_eq!(eng.set_datamap(m, &serialize(&Datamap::new())), Ok(()));
}

/// A validated datamap rides along with the method's deliveries.
#[test]
fn datamap_reaches_delivery() {
    let mut eng = Engine::new();
    let f = eng.create_field();
    let _h = eng.create_input_handler(origin(), f).unwrap();
    let _m = eng
        .create_input_method_tip(origin(), 10, Some(serialize(&sample_map())))
        .unwrap();
    let log = eng.run_frame(&FrameInput {
        distances: vec![vec![5]],
        intents: vec![vec![CaptureIntent::Decline]],
    });
    match &log[0] {
        Event::Input { data, .. } => {
            assert!(matches!(data.datamap.get_num(&b"strength".to_vec()), Lookup::Found(-42)));
        }
        _ => panic!("expected an input event"),
    }
}
