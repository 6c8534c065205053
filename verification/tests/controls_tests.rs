use raster3d::controls::{on_key, Flow, Key, Movement};

fn still() -> Movement {
    Movement { forward: false, backward: false, left: false, right: false }
}

#[test]
fn movement_keys_follow_press_and_release() {
    let mut m = still();
    assert_eq!(on_key(&mut m, Key::W, true), Flow::Continue);
    assert_eq!(m, Movement { forward: true, ..still() });
    assert_eq!(on_key(&mut m, Key::D, true), Flow::Continue);
    assert_eq!(m, Movement { forward: true, right: true, ..still() });
    on_key(&mut m, Key::W, false);
    assert_eq!(m, Movement { right: true, ..still() });
    on_key(&mut m, Key::S, true);
    on_key(&mut m, Key::A, true);
    assert_eq!(m, Movement { backward: true, left: true, right: true, forward: false });
}

#[test]
fn escape_press_exits() {
    let mut m = still();
    assert_eq!(on_key(&mut m, Key::Escape, true), Flow::Exit);
    assert_eq!(m, still());
}

#[test]
fn escape_release_and_other_keys_do_nothing() {
    let mut m = Movement { forward: true, ..still() };
    assert_eq!(on_key(&mut m, Key::Escape, false), Flow::Continue);
    assert_eq!(on_key(&mut m, Key::Other, true), Flow::Continue);
    assert_eq!(m, Movement { forward: true, ..still() });
}

#[test]
fn last_event_on_a_key_wins() {
    for key in [Key::W, Key::A, Key::S, Key::D, Key::Escape, Key::Other] {
        for first in [false, true] {
            for second in [false, true] {
                let mut a = Movement { left: true, ..still() };
                let mut b = a;
                on_key(&mut a, key, first);
                on_key(&mut a, key, second);
                on_key(&mut b, key, second);
                assert_eq!(a, b);
            }
        }
    }
}

#[test]
fn different_keys_commute() {
    let keys = [Key::W, Key::A, Key::S, Key::D, Key::Other];
    for k1 in keys {
        for k2 in keys {
            if k1 == k2 {
                continue;
            }
            let mut a = still();
            let mut b = still();
            on_key(&mut a, k1, true);
            on_key(&mut a, k2, true);
            on_key(&mut b, k2, true);
            on_key(&mut b, k1, true);
            assert_eq!(a, b);
        }
    }
}
