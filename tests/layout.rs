use keyboard_config::layout::State;
use keyboard_config::model::{Behavior, Key, Layer, KEYS, NUM_LAYERS};

fn layer(id: u32, key: Key) -> Layer {
    Layer {
        id,
        keys: [Behavior::Key(key); KEYS],
    }
}

#[test]
fn push_then_pop_returns_layers_in_reverse() {
    let mut s = State::new();
    assert!(s.push_layer(layer(0, Key::A)));
    assert!(s.push_layer(layer(1, Key::B)));
    assert_eq!(s.pop_layer(), Some(layer(1, Key::B)));
    assert_eq!(s.pop_layer(), Some(layer(0, Key::A)));
    assert_eq!(s.pop_layer(), None);
}

#[test]
fn pop_on_empty_stack_is_none() {
    let mut s = State::new();
    assert_eq!(s.pop_layer(), None);
    assert!(s.push_layer(layer(3, Key::C)));
    assert_eq!(s.pop_layer(), Some(layer(3, Key::C)));
}

#[test]
fn push_beyond_capacity_is_refused() {
    let mut s = State::new();
    for i in 0..NUM_LAYERS {
        assert!(s.push_layer(layer(i as u32, Key::D)));
    }
    assert!(!s.push_layer(layer(99, Key::E)));
    assert_eq!(s.pop_layer(), Some(layer(NUM_LAYERS as u32 - 1, Key::D)));
    assert!(s.push_layer(layer(7, Key::F)));
    assert_eq!(s.pop_layer(), Some(layer(7, Key::F)));
}
