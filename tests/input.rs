use scene_graph::input::PressedKeys;

#[test]
fn press_keeps_each_key_once() {
    let mut keys = PressedKeys::new();
    keys.press(17);
    keys.press(30);
    keys.press(17);
    assert_eq!(keys.keys(), &vec![17, 30]);
    assert!(keys.contains(30));
    assert!(!keys.contains(31));
}

#[test]
fn release_removes_only_that_key() {
    let mut keys = PressedKeys::new();
    for k in [5, 6, 7] {
        keys.press(k);
    }
    keys.release(6);
    assert_eq!(keys.keys(), &vec![5, 7]);
    keys.release(42);
    assert_eq!(keys.keys(), &vec![5, 7]);
    keys.press(6);
    assert_eq!(keys.keys(), &vec![5, 7, 6]);
}
