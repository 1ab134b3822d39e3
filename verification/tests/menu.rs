use p2pvote::menu::{menu_step, MenuAction, MenuKey};

#[test]
fn up_and_down_move_within_bounds() {
    assert_eq!(menu_step(1, 3, MenuKey::Up), MenuAction::Moved(0));
    assert_eq!(menu_step(0, 3, MenuKey::Up), MenuAction::Ignored);
    assert_eq!(menu_step(1, 3, MenuKey::Down), MenuAction::Moved(2));
    assert_eq!(menu_step(2, 3, MenuKey::Down), MenuAction::Ignored);
}

#[test]
fn single_option_never_moves() {
    assert_eq!(menu_step(0, 1, MenuKey::Up), MenuAction::Ignored);
    assert_eq!(menu_step(0, 1, MenuKey::Down), MenuAction::Ignored);
    assert_eq!(menu_step(0, 1, MenuKey::Confirm), MenuAction::Selected(0));
}

#[test]
fn closing_keys() {
    assert_eq!(menu_step(2, 4, MenuKey::Cancel), MenuAction::Cancelled);
    assert_eq!(menu_step(2, 4, MenuKey::Interrupt), MenuAction::Interrupted);
    assert_eq!(menu_step(2, 4, MenuKey::Confirm), MenuAction::Selected(2));
    assert_eq!(menu_step(2, 4, MenuKey::Other), MenuAction::Ignored);
}

#[test]
fn up_then_down_returns() {
    let mut cur = 2;
    if let MenuAction::Moved(n) = menu_step(cur, 5, MenuKey::Up) {
        cur = n;
    }
    if let MenuAction::Moved(n) = menu_step(cur, 5, MenuKey::Down) {
        cur = n;
    }
    assert_eq!(cur, 2);
}

fn run(keys: &[MenuKey], len: usize) -> MenuAction {
    let mut cur = 0;
    for k in keys {
        match menu_step(cur, len, *k) {
            MenuAction::Moved(n) => cur = n,
            MenuAction::Ignored => {}
            closing => return closing,
        }
    }
    MenuAction::Selected(cur)
}

#[test]
fn other_keys_change_nothing() {
    let keys = [MenuKey::Down, MenuKey::Down, MenuKey::Up];
    let with_others = [
        MenuKey::Other,
        MenuKey::Down,
        MenuKey::Other,
        MenuKey::Down,
        MenuKey::Up,
        MenuKey::Other,
    ];
    assert_eq!(run(&keys, 4), MenuAction::Selected(1));
    assert_eq!(run(&with_others, 4), run(&keys, 4));
    let closing = [MenuKey::Down, MenuKey::Cancel, MenuKey::Down];
    let closing_with_other = [MenuKey::Down, MenuKey::Other, MenuKey::Cancel];
    assert_eq!(run(&closing, 3), MenuAction::Cancelled);
    assert_eq!(run(&closing_with_other, 3), MenuAction::Cancelled);
}
