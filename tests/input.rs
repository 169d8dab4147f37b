use rdp_client_core::input::{
    synchronize_event, Database, FastPathInputEvent, MouseButton, MousePdu, MousePosition, MouseXPdu, Operation,
    Scancode, WheelRotations,
};

fn key_a() -> Scancode {
    Scancode::from((0x1E, false))
}

fn key_b_extended() -> Scancode {
    Scancode::from((0x30, true))
}

fn left_press(x: u16, y: u16) -> FastPathInputEvent {
    FastPathInputEvent::MouseEvent(MousePdu {
        flags: 0x8000 | 0x1000,
        number_of_wheel_rotation_units: 0,
        x_position: x,
        y_position: y,
    })
}

#[test]
fn button_press_is_deduplicated() {
    let mut db = Database::new();
    let events = db.apply(vec![Operation::MouseButtonPressed(MouseButton::left())]);
    assert_eq!(events, vec![left_press(0, 0)]);

    let mut db = Database::new();
    let events = db.apply(vec![
        Operation::MouseButtonPressed(MouseButton::left()),
        Operation::MouseButtonPressed(MouseButton::left()),
    ]);
    assert_eq!(events, vec![left_press(0, 0)]);
    assert!(db.is_mouse_button_pressed(MouseButton::left()));
}

#[test]
fn button_release_when_up_is_ignored() {
    let mut db = Database::new();
    assert!(db.apply(vec![Operation::MouseButtonReleased(MouseButton::right())]).is_empty());
    db.apply(vec![Operation::MouseButtonPressed(MouseButton::right())]);
    let events = db.apply(vec![
        Operation::MouseButtonReleased(MouseButton::right()),
        Operation::MouseButtonReleased(MouseButton::right()),
    ]);
    assert_eq!(
        events,
        vec![FastPathInputEvent::MouseEvent(MousePdu {
            flags: 0x2000,
            number_of_wheel_rotation_units: 0,
            x_position: 0,
            y_position: 0,
        })]
    );
}

#[test]
fn unknown_button_is_ignored() {
    let mut db = Database::new();
    let unknown = MouseButton::from(7u8);
    assert!(unknown.is_unknown());
    assert!(!MouseButton::x2().is_unknown());
    assert!(db
        .apply(vec![Operation::MouseButtonPressed(unknown), Operation::MouseButtonReleased(unknown)])
        .is_empty());
    assert!(!db.is_mouse_button_pressed(unknown));
}

#[test]
fn extra_buttons_use_extended_pointer_event() {
    let mut db = Database::new();
    db.apply(vec![Operation::MouseMove(MousePosition { x: 5, y: 6 })]);
    let events = db.apply(vec![
        Operation::MouseButtonPressed(MouseButton::x1()),
        Operation::MouseButtonPressed(MouseButton::x2()),
        Operation::MouseButtonPressed(MouseButton::middle()),
    ]);
    assert_eq!(
        events,
        vec![
            FastPathInputEvent::MouseEventEx(MouseXPdu { flags: 0x8001, x_position: 5, y_position: 6 }),
            FastPathInputEvent::MouseEventEx(MouseXPdu { flags: 0x8002, x_position: 5, y_position: 6 }),
            FastPathInputEvent::MouseEvent(MousePdu {
                flags: 0xC000,
                number_of_wheel_rotation_units: 0,
                x_position: 5,
                y_position: 6
            }),
        ]
    );
}

#[test]
fn key_repeat_emits_release_then_press() {
    let mut db = Database::new();
    let first = db.apply(vec![Operation::KeyPressed(key_a())]);
    assert_eq!(first, vec![FastPathInputEvent::KeyboardEvent(0, 0x1E)]);
    let second = db.apply(vec![Operation::KeyPressed(key_a())]);
    assert_eq!(
        second,
        vec![FastPathInputEvent::KeyboardEvent(0x01, 0x1E), FastPathInputEvent::KeyboardEvent(0, 0x1E)]
    );
    assert!(db.is_key_pressed(key_a()));

    let mut db = Database::new();
    let both = db.apply(vec![Operation::KeyPressed(key_a()), Operation::KeyPressed(key_a())]);
    assert_eq!(both.len(), 3);
}

#[test]
fn extended_key_carries_extended_flag() {
    let mut db = Database::new();
    let events = db.apply(vec![
        Operation::KeyPressed(key_b_extended()),
        Operation::KeyReleased(key_b_extended()),
        Operation::KeyReleased(key_b_extended()),
    ]);
    assert_eq!(
        events,
        vec![FastPathInputEvent::KeyboardEvent(0x02, 0x30), FastPathInputEvent::KeyboardEvent(0x03, 0x30)]
    );
    assert!(!db.is_key_pressed(key_b_extended()));
}

#[test]
fn release_all_releases_everything_once() {
    let mut db = Database::new();
    db.apply(vec![
        Operation::KeyPressed(key_b_extended()),
        Operation::KeyPressed(key_a()),
        Operation::MouseButtonPressed(MouseButton::left()),
    ]);
    let events = db.release_all();
    assert_eq!(
        events,
        vec![
            FastPathInputEvent::MouseEvent(MousePdu {
                flags: 0x1000,
                number_of_wheel_rotation_units: 0,
                x_position: 0,
                y_position: 0,
            }),
            FastPathInputEvent::KeyboardEvent(0x01, 0x1E),
            FastPathInputEvent::KeyboardEvent(0x03, 0x30),
        ]
    );
    assert!(db.release_all().is_empty());
    assert!(!db.is_key_pressed(key_a()));
    assert!(!db.is_mouse_button_pressed(MouseButton::left()));
}

#[test]
fn move_is_deduplicated() {
    let mut db = Database::new();
    let p = MousePosition { x: 100, y: 200 };
    let events = db.apply(vec![Operation::MouseMove(p), Operation::MouseMove(p)]);
    assert_eq!(
        events,
        vec![FastPathInputEvent::MouseEvent(MousePdu {
            flags: 0x0800,
            number_of_wheel_rotation_units: 0,
            x_position: 100,
            y_position: 200,
        })]
    );
    assert_eq!(db.mouse_position(), p);
    assert!(db.apply(vec![Operation::MouseMove(MousePosition { x: 0, y: 0 })]).len() == 1);
}

#[test]
fn wheel_is_never_deduplicated() {
    let mut db = Database::default();
    let events = db.apply(vec![
        Operation::WheelRotations(WheelRotations { is_vertical: true, rotation_units: -120 }),
        Operation::WheelRotations(WheelRotations { is_vertical: false, rotation_units: 120 }),
    ]);
    assert_eq!(
        events,
        vec![
            FastPathInputEvent::MouseEvent(MousePdu {
                flags: 0x0200,
                number_of_wheel_rotation_units: -120,
                x_position: 0,
                y_position: 0,
            }),
            FastPathInputEvent::MouseEvent(MousePdu {
                flags: 0x0400,
                number_of_wheel_rotation_units: 120,
                x_position: 0,
                y_position: 0,
            }),
        ]
    );
}

#[test]
fn synchronize_flags() {
    assert_eq!(synchronize_event(false, false, false, false), FastPathInputEvent::SyncEvent(0));
    assert_eq!(synchronize_event(true, false, true, false), FastPathInputEvent::SyncEvent(0x05));
    assert_eq!(synchronize_event(false, true, false, true), FastPathInputEvent::SyncEvent(0x0A));
    assert_eq!(synchronize_event(true, true, true, true), FastPathInputEvent::SyncEvent(0x0F));
}

#[test]
fn scancode_conversions() {
    let sc = Scancode::from(0xE01Du16);
    assert!(sc.extended);
    assert_eq!(sc.code, 0x1D);
    assert_eq!(sc.as_idx(), 0x1D + 256);
    assert_eq!(u16::from(sc), 0xE01D);
    assert_eq!(u8::from(sc), 0x1D);
    let plain = Scancode::from(0x001Eu16);
    assert!(!plain.extended);
    assert_eq!(plain.as_idx(), 0x1E);
    assert_eq!(u16::from(plain), 0x1E);
    assert_eq!(MouseButton::right().as_idx(), 2);
    assert_eq!(u8::from(MouseButton::from(3u8)), 3);
}
