//! Keyboard and mouse state of a session, and how input operations become
//! the fast-path input events that keep the remote side in step.

use bitvec::array::BitArray;
use bitvec::order::Lsb0;
use vstd::prelude::*;

verus! {

/// Pointer event flag: the button is going down.
pub const PTR_DOWN: u16 = 0x8000;
/// Pointer event flag: the cursor moved.
pub const PTR_MOVE: u16 = 0x0800;
/// Pointer event flag: left button.
pub const PTR_LEFT_BUTTON: u16 = 0x1000;
/// Pointer event flag: right button.
pub const PTR_RIGHT_BUTTON: u16 = 0x2000;
/// Pointer event flag: middle button (or wheel).
pub const PTR_MIDDLE_BUTTON: u16 = 0x4000;
/// Pointer event flag: vertical wheel rotation.
pub const PTR_VERTICAL_WHEEL: u16 = 0x0200;
/// Pointer event flag: horizontal wheel rotation.
pub const PTR_HORIZONTAL_WHEEL: u16 = 0x0400;
/// Extended pointer event flag: the button is going down.
pub const PTRX_DOWN: u16 = 0x8000;
/// Extended pointer event flag: first extended button.
pub const PTRX_BUTTON1: u16 = 0x0001;
/// Extended pointer event flag: second extended button.
pub const PTRX_BUTTON2: u16 = 0x0002;
/// Keyboard event flag: the key is released.
pub const KBD_RELEASE: u8 = 0x01;
/// Keyboard event flag: the scancode is extended.
pub const KBD_EXTENDED: u8 = 0x02;
/// Synchronize event flag: Scroll Lock is on.
pub const SYNC_SCROLL_LOCK: u8 = 0x01;
/// Synchronize event flag: Num Lock is on.
pub const SYNC_NUM_LOCK: u8 = 0x02;
/// Synchronize event flag: Caps Lock is on.
pub const SYNC_CAPS_LOCK: u8 = 0x04;
/// Synchronize event flag: Kana Lock is on.
pub const SYNC_KANA_LOCK: u8 = 0x08;

/// Number of key slots: 256 base scancodes and 256 extended ones.
pub const KEY_SLOTS: usize = 512;
/// Number of bits held for mouse buttons (five of them name a button).
pub const BUTTON_SLOTS: usize = 8;

/// Number associated to a mouse button, as in the `button` property of
/// browser mouse events. Values above 4 are unknown buttons.
#[derive(Debug, Clone, Copy, PartialEq, Eq, Hash)]
pub struct MouseButton(pub u8);

impl MouseButton {
    pub const LEFT_VAL: u8 = 0;
    pub const MIDDLE_VAL: u8 = 1;
    pub const RIGHT_VAL: u8 = 2;
    pub const X1_VAL: u8 = 3;
    pub const X2_VAL: u8 = 4;

    pub fn left() -> (r: MouseButton)
        ensures
            r.0 == 0,
    {
        MouseButton(0)
    }

    pub fn middle() -> (r: MouseButton)
        ensures
            r.0 == 1,
    {
        MouseButton(1)
    }

    pub fn right() -> (r: MouseButton)
        ensures
            r.0 == 2,
    {
        MouseButton(2)
    }

    pub fn x1() -> (r: MouseButton)
        ensures
            r.0 == 3,
    {
        MouseButton(3)
    }

    pub fn x2() -> (r: MouseButton)
        ensures
            r.0 == 4,
    {
        MouseButton(4)
    }

    pub fn is_unknown(self) -> (r: bool)
        ensures
            r == (self.0 > 4),
    {
        self.0 > 4
    }

    pub fn as_idx(self) -> (r: usize)
        ensures
            r == self.0 as usize,
    {
        self.0 as usize
    }
}

impl From<u8> for MouseButton {
    fn from(value: u8) -> (r: MouseButton)
        ensures
            r.0 == value,
    {
        MouseButton(value)
    }
}

impl vstd::std_specs::convert::FromSpecImpl<u8> for MouseButton {
    open spec fn obeys_from_spec() -> bool {
        true
    }

    open spec fn from_spec(v: u8) -> MouseButton {
        MouseButton(v)
    }
}

impl From<MouseButton> for u8 {
    fn from(value: MouseButton) -> (r: u8)
        ensures
            r == value.0,
    {
        value.0
    }
}

impl vstd::std_specs::convert::FromSpecImpl<MouseButton> for u8 {
    open spec fn obeys_from_spec() -> bool {
        true
    }

    open spec fn from_spec(v: MouseButton) -> u8 {
        v.0
    }
}

/// Keyboard scan code: a byte and whether it belongs to the extended set.
#[derive(Debug, Clone, Copy, PartialEq, Eq, Hash)]
pub struct Scancode {
    pub code: u8,
    pub extended: bool,
}

/// Slot of a scancode in the key state: `code`, plus 256 when extended.
pub open spec fn scancode_index(code: u8, extended: bool) -> int {
    if extended {
        code as int + 256
    } else {
        code as int
    }
}

impl Scancode {
    pub fn as_idx(self) -> (r: usize)
        ensures
            r as int == scancode_index(self.code, self.extended),
            r < KEY_SLOTS,
    {
        if self.extended {
            self.code as usize + 256
        } else {
            self.code as usize
        }
    }
}

impl From<(u8, bool)> for Scancode {
    fn from(value: (u8, bool)) -> (r: Scancode)
        ensures
            r.code == value.0,
            r.extended == value.1,
    {
        Scancode { code: value.0, extended: value.1 }
    }
}

impl vstd::std_specs::convert::FromSpecImpl<(u8, bool)> for Scancode {
    open spec fn obeys_from_spec() -> bool {
        true
    }

    open spec fn from_spec(v: (u8, bool)) -> Scancode {
        Scancode { code: v.0, extended: v.1 }
    }
}

/// Whether a 16-bit scancode carries the `0xE0` extended prefix in its high bits.
pub open spec fn has_extended_prefix(code: u16) -> bool {
    code & 0xE000 == 0xE000
}

impl From<u16> for Scancode {
    fn from(code: u16) -> (r: Scancode)
        ensures
            r.code == code as u8,
            r.extended == has_extended_prefix(code),
    {
        Scancode { code: code as u8, extended: code & 0xE000 == 0xE000 }
    }
}

impl vstd::std_specs::convert::FromSpecImpl<u16> for Scancode {
    open spec fn obeys_from_spec() -> bool {
        true
    }

    open spec fn from_spec(v: u16) -> Scancode {
        Scancode { code: v as u8, extended: has_extended_prefix(v) }
    }
}

impl From<Scancode> for u8 {
    fn from(value: Scancode) -> (r: u8)
        ensures
            r == value.code,
    {
        value.code
    }
}

impl vstd::std_specs::convert::FromSpecImpl<Scancode> for u8 {
    open spec fn obeys_from_spec() -> bool {
        true
    }

    open spec fn from_spec(v: Scancode) -> u8 {
        v.code
    }
}

/// The 16-bit form of a scancode: the byte, with `0xE000` set when extended.
pub open spec fn scancode_word(code: u8, extended: bool) -> u16 {
    if extended {
        (code as u16) | 0xE000
    } else {
        code as u16
    }
}

impl From<Scancode> for u16 {
    fn from(value: Scancode) -> (r: u16)
        ensures
            r == scancode_word(value.code, value.extended),
    {
        if value.extended {
            (value.code as u16) | 0xE000
        } else {
            value.code as u16
        }
    }
}

impl vstd::std_specs::convert::FromSpecImpl<Scancode> for u16 {
    open spec fn obeys_from_spec() -> bool {
        true
    }

    open spec fn from_spec(v: Scancode) -> u16 {
        scancode_word(v.code, v.extended)
    }
}

/// Cursor position for a mouse device.
#[derive(Debug, Clone, Copy, PartialEq, Eq, Hash, Structural)]
pub struct MousePosition {
    pub x: u16,
    pub y: u16,
}

/// Mouse wheel rotations.
#[derive(Debug, Clone, Copy, PartialEq, Eq, Hash)]
pub struct WheelRotations {
    pub is_vertical: bool,
    pub rotation_units: i16,
}

/// An input intent.
#[derive(Debug, Clone, Copy)]
pub enum Operation {
    MouseButtonPressed(MouseButton),
    MouseButtonReleased(MouseButton),
    MouseMove(MousePosition),
    WheelRotations(WheelRotations),
    KeyPressed(Scancode),
    KeyReleased(Scancode),
}

/// Legacy pointer event.
#[derive(Debug, Clone, Copy, PartialEq, Eq, Hash)]
pub struct MousePdu {
    pub flags: u16,
    pub number_of_wheel_rotation_units: i16,
    pub x_position: u16,
    pub y_position: u16,
}

/// Extended pointer event (extra mouse buttons).
#[derive(Debug, Clone, Copy, PartialEq, Eq, Hash)]
pub struct MouseXPdu {
    pub flags: u16,
    pub x_position: u16,
    pub y_position: u16,
}

/// A fast-path input event, with its flags as they stand on the wire.
#[derive(Debug, Clone, Copy, PartialEq, Eq, Hash)]
pub enum FastPathInputEvent {
    /// Keyboard flags and scancode byte.
    KeyboardEvent(u8, u8),
    MouseEvent(MousePdu),
    MouseEventEx(MouseXPdu),
    /// Lock-key flags.
    SyncEvent(u8),
}


/// Indices of the set flags among the first `n` of `s`, in ascending order.
pub open spec fn ones_below(s: Seq<bool>, n: int) -> Seq<int>
    decreases n,
{
    if n <= 0 {
        seq![]
    } else if s[n - 1] {
        ones_below(s, n - 1).push(n - 1)
    } else {
        ones_below(s, n - 1)
    }
}

/// Indices of the set flags of `s`, in ascending order.
pub open spec fn ones(s: Seq<bool>) -> Seq<int> {
    ones_below(s, s.len() as int)
}

/// Every index listed by `ones_below` is below `n` and names a set flag,
/// and the list is strictly ascending.
pub proof fn lemma_ones_below(s: Seq<bool>, n: int)
    requires
        n <= s.len(),
    ensures
        forall|k: int|
            0 <= k < ones_below(s, n).len() ==> 0 <= #[trigger] ones_below(s, n)[k] < n
                && s[ones_below(s, n)[k]],
        forall|k: int, l: int|
            0 <= k < l < ones_below(s, n).len() ==> ones_below(s, n)[k] < ones_below(s, n)[l],
    decreases n,
{
    if n > 0 {
        lemma_ones_below(s, n - 1);
        let prev = ones_below(s, n - 1);
        if s[n - 1] {
            let cur = prev.push(n - 1);
            assert forall|k: int| 0 <= k < cur.len() implies 0 <= #[trigger] cur[k] < n
                && s[cur[k]] by {
                if k < prev.len() {
                    assert(cur[k] == prev[k]);
                }
            }
            assert forall|k: int, l: int| 0 <= k < l < cur.len() implies cur[k] < cur[l] by {
                assert(cur[k] == prev[k]);
                if l < prev.len() {
                    assert(cur[l] == prev[l]);
                }
            }
        }
    }
}

/// No index is listed when no flag is set.
pub proof fn lemma_ones_below_none(s: Seq<bool>, n: int)
    requires
        n <= s.len(),
        forall|i: int| 0 <= i < s.len() ==> !s[i],
    ensures
        ones_below(s, n) == Seq::<int>::empty(),
    decreases n,
{
    if n > 0 {
        lemma_ones_below_none(s, n - 1);
    }
}

/// Pressed state of the 512 key slots, one bit per slot.
#[verifier::external_body]
pub struct KeyboardState {
    bits: BitArray<[u64; 8], Lsb0>,
}

/// What a key state holds: one flag per slot, in slot order.
pub uninterp spec fn keyboard_bits(s: KeyboardState) -> Seq<bool>;

impl KeyboardState {
    /// Relies on `BitArray::ZERO`: eight 64-bit words give 512 bits, all cleared.
    #[verifier::external_body]
    fn zero() -> (r: KeyboardState)
        ensures
            keyboard_bits(r) == Seq::new(512, |i: int| false),
    {
        KeyboardState { bits: BitArray::ZERO }
    }

    /// Relies on indexing a `BitSlice`: the bit at `idx`, which must be in bounds.
    #[verifier::external_body]
    fn bit(&self, idx: usize) -> (r: bool)
        requires
            idx < keyboard_bits(*self).len(),
        ensures
            r == keyboard_bits(*self)[idx as int],
    {
        self.bits[idx]
    }

    /// Relies on `BitSlice::replace`: writes the bit at `idx` and returns its
    /// previous value; panics when `idx` is out of bounds.
    #[verifier::external_body]
    fn replace(&mut self, idx: usize, value: bool) -> (r: bool)
        requires
            idx < keyboard_bits(*old(self)).len(),
        ensures
            r == keyboard_bits(*old(self))[idx as int],
            keyboard_bits(*final(self)) == keyboard_bits(*old(self)).update(idx as int, value),
    {
        self.bits.replace(idx, value)
    }

    /// Relies on `BitSlice::iter_ones`: the index of each set bit, ascending.
    #[verifier::external_body]
    fn set_indices(&self) -> (r: Vec<usize>)
        ensures
            r@.len() == ones(keyboard_bits(*self)).len(),
            forall|k: int| 0 <= k < r@.len() ==> r@[k] as int == ones(keyboard_bits(*self))[k],
    {
        self.bits.iter_ones().collect()
    }
}

/// Pressed state of the mouse buttons, one bit per button value.
#[verifier::external_body]
pub struct MouseButtonsState {
    bits: BitArray<[u8; 1], Lsb0>,
}

/// What a button state holds: one flag per button value, in value order.
pub uninterp spec fn mouse_buttons_bits(s: MouseButtonsState) -> Seq<bool>;

impl MouseButtonsState {
    /// Relies on `BitArray::ZERO`: one byte gives 8 bits, all cleared.
    #[verifier::external_body]
    fn zero() -> (r: MouseButtonsState)
        ensures
            mouse_buttons_bits(r) == Seq::new(8, |i: int| false),
    {
        MouseButtonsState { bits: BitArray::ZERO }
    }

    /// Relies on indexing a `BitSlice`: the bit at `idx`, which must be in bounds.
    #[verifier::external_body]
    fn bit(&self, idx: usize) -> (r: bool)
        requires
            idx < mouse_buttons_bits(*self).len(),
        ensures
            r == mouse_buttons_bits(*self)[idx as int],
    {
        self.bits[idx]
    }

    /// Relies on `BitSlice::replace`: writes the bit at `idx` and returns its
    /// previous value; panics when `idx` is out of bounds.
    #[verifier::external_body]
    fn replace(&mut self, idx: usize, value: bool) -> (r: bool)
        requires
            idx < mouse_buttons_bits(*old(self)).len(),
        ensures
            r == mouse_buttons_bits(*old(self))[idx as int],
            mouse_buttons_bits(*final(self)) == mouse_buttons_bits(*old(self)).update(
                idx as int,
                value,
            ),
    {
        self.bits.replace(idx, value)
    }

    /// Relies on `BitSlice::iter_ones`: the index of each set bit, ascending.
    #[verifier::external_body]
    fn set_indices(&self) -> (r: Vec<usize>)
        ensures
            r@.len() == ones(mouse_buttons_bits(*self)).len(),
            forall|k: int|
                0 <= k < r@.len() ==> r@[k] as int == ones(mouse_buttons_bits(*self))[k],
    {
        self.bits.iter_ones().collect()
    }
}


/// Which pointer event carries a mouse button, and the flag that names it.
#[derive(Debug, Clone, Copy, PartialEq, Eq)]
pub enum MouseButtonFlags {
    /// Legacy pointer event, with its button flag.
    Button(u16),
    /// Extended pointer event, with its button flag.
    Pointer(u16),
}

/// Fixed mapping from a button value to its event shape and flag.
pub open spec fn button_flags(b: u8) -> MouseButtonFlags {
    if b == 0 {
        MouseButtonFlags::Button(PTR_LEFT_BUTTON)
    } else if b == 1 {
        MouseButtonFlags::Button(PTR_MIDDLE_BUTTON)
    } else if b == 2 {
        MouseButtonFlags::Button(PTR_RIGHT_BUTTON)
    } else if b == 3 {
        MouseButtonFlags::Pointer(PTRX_BUTTON1)
    } else if b == 4 {
        MouseButtonFlags::Pointer(PTRX_BUTTON2)
    } else {
        MouseButtonFlags::Button(0)
    }
}

impl From<MouseButton> for MouseButtonFlags {
    fn from(value: MouseButton) -> (r: MouseButtonFlags)
        ensures
            r == button_flags(value.0),
    {
        if value.0 == MouseButton::LEFT_VAL {
            MouseButtonFlags::Button(PTR_LEFT_BUTTON)
        } else if value.0 == MouseButton::MIDDLE_VAL {
            MouseButtonFlags::Button(PTR_MIDDLE_BUTTON)
        } else if value.0 == MouseButton::RIGHT_VAL {
            MouseButtonFlags::Button(PTR_RIGHT_BUTTON)
        } else if value.0 == MouseButton::X1_VAL {
            MouseButtonFlags::Pointer(PTRX_BUTTON1)
        } else if value.0 == MouseButton::X2_VAL {
            MouseButtonFlags::Pointer(PTRX_BUTTON2)
        } else {
            MouseButtonFlags::Button(0)
        }
    }
}

impl vstd::std_specs::convert::FromSpecImpl<MouseButton> for MouseButtonFlags {
    open spec fn obeys_from_spec() -> bool {
        true
    }

    open spec fn from_spec(v: MouseButton) -> MouseButtonFlags {
        button_flags(v.0)
    }
}

/// The event for button `b` going down (`down`) or up at `pos`.
pub open spec fn button_event(b: u8, down: bool, pos: MousePosition) -> FastPathInputEvent {
    match button_flags(b) {
        MouseButtonFlags::Button(f) => FastPathInputEvent::MouseEvent(
            MousePdu {
                flags: if down {
                    PTR_DOWN | f
                } else {
                    f
                },
                number_of_wheel_rotation_units: 0,
                x_position: pos.x,
                y_position: pos.y,
            },
        ),
        MouseButtonFlags::Pointer(f) => FastPathInputEvent::MouseEventEx(
            MouseXPdu {
                flags: if down {
                    PTRX_DOWN | f
                } else {
                    f
                },
                x_position: pos.x,
                y_position: pos.y,
            },
        ),
    }
}

/// Keyboard flags: `KBD_EXTENDED` for an extended scancode, `KBD_RELEASE` on release.
pub open spec fn key_flags(extended: bool, release: bool) -> u8 {
    if extended && release {
        KBD_EXTENDED | KBD_RELEASE
    } else if extended {
        KBD_EXTENDED
    } else if release {
        KBD_RELEASE
    } else {
        0
    }
}

/// The keyboard event for a scancode going down, or up when `release`.
pub open spec fn key_event(code: u8, extended: bool, release: bool) -> FastPathInputEvent {
    FastPathInputEvent::KeyboardEvent(key_flags(extended, release), code)
}

/// The release event for the key in slot `idx`.
pub open spec fn key_release_at(idx: int) -> FastPathInputEvent {
    if idx >= 256 {
        key_event((idx - 256) as u8, true, true)
    } else {
        key_event(idx as u8, false, true)
    }
}

/// The pointer event of a cursor move to `pos`.
pub open spec fn move_event(pos: MousePosition) -> FastPathInputEvent {
    FastPathInputEvent::MouseEvent(
        MousePdu {
            flags: PTR_MOVE,
            number_of_wheel_rotation_units: 0,
            x_position: pos.x,
            y_position: pos.y,
        },
    )
}

/// The pointer event of a wheel rotation with the cursor at `pos`.
pub open spec fn wheel_event(w: WheelRotations, pos: MousePosition) -> FastPathInputEvent {
    FastPathInputEvent::MouseEvent(
        MousePdu {
            flags: if w.is_vertical {
                PTR_VERTICAL_WHEEL
            } else {
                PTR_HORIZONTAL_WHEEL
            },
            number_of_wheel_rotation_units: w.rotation_units,
            x_position: pos.x,
            y_position: pos.y,
        },
    )
}

/// Abstract state of a [`Database`].
pub struct DatabaseView {
    /// One flag per key slot.
    pub keys: Seq<bool>,
    /// One flag per button value.
    pub buttons: Seq<bool>,
    pub position: MousePosition,
}

impl DatabaseView {
    /// 512 key slots, 8 button bits of which only the five known buttons are ever set.
    pub open spec fn wf(self) -> bool {
        &&& self.keys.len() == KEY_SLOTS
        &&& self.buttons.len() == BUTTON_SLOTS
        &&& forall|i: int| 5 <= i < BUTTON_SLOTS ==> !#[trigger] self.buttons[i]
    }

    /// The state of a new session: nothing pressed, cursor at the origin.
    pub open spec fn initial() -> DatabaseView {
        DatabaseView {
            keys: Seq::new(KEY_SLOTS as nat, |i: int| false),
            buttons: Seq::new(BUTTON_SLOTS as nat, |i: int| false),
            position: MousePosition { x: 0, y: 0 },
        }
    }
}

/// Effect of one operation: the next state and the events it emits.
pub open spec fn step(st: DatabaseView, op: Operation) -> (DatabaseView, Seq<FastPathInputEvent>) {
    match op {
        Operation::MouseButtonPressed(b) => {
            if b.0 > 4 || st.buttons[b.0 as int] {
                (st, seq![])
            } else {
                (
                    DatabaseView { buttons: st.buttons.update(b.0 as int, true), ..st },
                    seq![button_event(b.0, true, st.position)],
                )
            }
        },
        Operation::MouseButtonReleased(b) => {
            if b.0 > 4 || !st.buttons[b.0 as int] {
                (st, seq![])
            } else {
                (
                    DatabaseView { buttons: st.buttons.update(b.0 as int, false), ..st },
                    seq![button_event(b.0, false, st.position)],
                )
            }
        },
        Operation::MouseMove(p) => {
            if p == st.position {
                (st, seq![])
            } else {
                (DatabaseView { position: p, ..st }, seq![move_event(p)])
            }
        },
        Operation::WheelRotations(w) => (st, seq![wheel_event(w, st.position)]),
        Operation::KeyPressed(sc) => {
            let i = scancode_index(sc.code, sc.extended);
            let next = DatabaseView { keys: st.keys.update(i, true), ..st };
            if st.keys[i] {
                (
                    next,
                    seq![
                        key_event(sc.code, sc.extended, true),
                        key_event(sc.code, sc.extended, false),
                    ],
                )
            } else {
                (next, seq![key_event(sc.code, sc.extended, false)])
            }
        },
        Operation::KeyReleased(sc) => {
            let i = scancode_index(sc.code, sc.extended);
            if st.keys[i] {
                (
                    DatabaseView { keys: st.keys.update(i, false), ..st },
                    seq![key_event(sc.code, sc.extended, true)],
                )
            } else {
                (st, seq![])
            }
        },
    }
}

/// Effect of a transaction: operations applied in order, events concatenated.
pub open spec fn apply_ops(st: DatabaseView, ops: Seq<Operation>) -> (
    DatabaseView,
    Seq<FastPathInputEvent>,
)
    decreases ops.len(),
{
    if ops.len() == 0 {
        (st, seq![])
    } else {
        let prev = apply_ops(st, ops.drop_last());
        let last = step(prev.0, ops.last());
        (last.0, prev.1 + last.1)
    }
}

/// Events that release everything pressed in `st`: buttons first, then keys,
/// each in ascending index order.
pub open spec fn release_events(st: DatabaseView) -> Seq<FastPathInputEvent> {
    ones(st.buttons).map_values(|i: int| button_event(i as u8, false, st.position)) + ones(
        st.keys,
    ).map_values(|i: int| key_release_at(i))
}

/// The state after releasing everything: cursor kept, nothing pressed.
pub open spec fn released(st: DatabaseView) -> DatabaseView {
    DatabaseView { position: st.position, ..DatabaseView::initial() }
}

/// A step keeps the state well formed.
pub proof fn lemma_step_wf(st: DatabaseView, op: Operation)
    requires
        st.wf(),
    ensures
        step(st, op).0.wf(),
{
}

/// In-memory database of the current keyboard and mouse state.
pub struct Database {
    keyboard: KeyboardState,
    mouse_buttons: MouseButtonsState,
    mouse_position: MousePosition,
}

impl View for Database {
    type V = DatabaseView;

    closed spec fn view(&self) -> DatabaseView {
        DatabaseView {
            keys: keyboard_bits(self.keyboard),
            buttons: mouse_buttons_bits(self.mouse_buttons),
            position: self.mouse_position,
        }
    }
}

impl Default for Database {
    fn default() -> (r: Database)
        ensures
            r@ == DatabaseView::initial(),
            r@.wf(),
    {
        Database::new()
    }
}

/// Builds the event for `button` going down or up at `pos`.
fn make_button_event(button: MouseButton, down: bool, pos: MousePosition) -> (r: FastPathInputEvent)
    ensures
        r == button_event(button.0, down, pos),
{
    match MouseButtonFlags::from(button) {
        MouseButtonFlags::Button(flags) => FastPathInputEvent::MouseEvent(
            MousePdu {
                flags: if down {
                    PTR_DOWN | flags
                } else {
                    flags
                },
                number_of_wheel_rotation_units: 0,
                x_position: pos.x,
                y_position: pos.y,
            },
        ),
        MouseButtonFlags::Pointer(flags) => FastPathInputEvent::MouseEventEx(
            MouseXPdu {
                flags: if down {
                    PTRX_DOWN | flags
                } else {
                    flags
                },
                x_position: pos.x,
                y_position: pos.y,
            },
        ),
    }
}

/// Builds the keyboard event for a scancode going down, or up when `release`.
fn make_key_event(code: u8, extended: bool, release: bool) -> (r: FastPathInputEvent)
    ensures
        r == key_event(code, extended, release),
{
    let flags: u8 = if extended && release {
        KBD_EXTENDED | KBD_RELEASE
    } else if extended {
        KBD_EXTENDED
    } else if release {
        KBD_RELEASE
    } else {
        0
    };
    FastPathInputEvent::KeyboardEvent(flags, code)
}

impl Database {
    pub fn new() -> (r: Database)
        ensures
            r@ == DatabaseView::initial(),
            r@.wf(),
    {
        let r = Database {
            keyboard: KeyboardState::zero(),
            mouse_buttons: MouseButtonsState::zero(),
            mouse_position: MousePosition { x: 0, y: 0 },
        };
        assert(r@.keys =~= DatabaseView::initial().keys);
        assert(r@.buttons =~= DatabaseView::initial().buttons);
        r
    }

    pub fn is_key_pressed(&self, scancode: Scancode) -> (r: bool)
        requires
            self@.wf(),
        ensures
            r == self@.keys[scancode_index(scancode.code, scancode.extended)],
    {
        self.keyboard.bit(scancode.as_idx())
    }

    pub fn is_mouse_button_pressed(&self, button: MouseButton) -> (r: bool)
        requires
            self@.wf(),
        ensures
            r == (button.0 < BUTTON_SLOTS && self@.buttons[button.0 as int]),
    {
        let idx = button.as_idx();
        if idx < BUTTON_SLOTS {
            self.mouse_buttons.bit(idx)
        } else {
            false
        }
    }

    pub fn mouse_position(&self) -> (r: MousePosition)
        ensures
            r == self@.position,
    {
        self.mouse_position
    }

    pub fn keyboard_state(&self) -> (r: &KeyboardState)
        ensures
            keyboard_bits(*r) == self@.keys,
    {
        &self.keyboard
    }

    pub fn mouse_buttons_state(&self) -> (r: &MouseButtonsState)
        ensures
            mouse_buttons_bits(*r) == self@.buttons,
    {
        &self.mouse_buttons
    }

    /// Applies one operation, appending the events it causes to `events`.
    fn apply_one(&mut self, operation: Operation, events: &mut Vec<FastPathInputEvent>)
        requires
            old(self)@.wf(),
        ensures
            final(self)@ == step(old(self)@, operation).0,
            final(events)@ == old(events)@ + step(old(self)@, operation).1,
            final(self)@.wf(),
    {
        proof {
            lemma_step_wf(self@, operation);
        }
        let ghost start = events@;
        match operation {
            Operation::MouseButtonPressed(button) => {
                if button.is_unknown() {
                    assert(events@ =~= start + seq![]);
                    return ;
                }
                let was_pressed = self.mouse_buttons.replace(button.as_idx(), true);
                if !was_pressed {
                    events.push(make_button_event(button, true, self.mouse_position));
                } else {
                    assert(self@.buttons =~= old(self)@.buttons);
                }
            },
            Operation::MouseButtonReleased(button) => {
                if button.is_unknown() {
                    assert(events@ =~= start + seq![]);
                    return ;
                }
                let was_pressed = self.mouse_buttons.replace(button.as_idx(), false);
                if was_pressed {
                    events.push(make_button_event(button, false, self.mouse_position));
                } else {
                    assert(self@.buttons =~= old(self)@.buttons);
                }
            },
            Operation::MouseMove(position) => {
                if position != self.mouse_position {
                    self.mouse_position = position;
                    events.push(
                        FastPathInputEvent::MouseEvent(
                            MousePdu {
                                flags: PTR_MOVE,
                                number_of_wheel_rotation_units: 0,
                                x_position: position.x,
                                y_position: position.y,
                            },
                        ),
                    );
                }
            },
            Operation::WheelRotations(rotations) => {
                events.push(
                    FastPathInputEvent::MouseEvent(
                        MousePdu {
                            flags: if rotations.is_vertical {
                                PTR_VERTICAL_WHEEL
                            } else {
                                PTR_HORIZONTAL_WHEEL
                            },
                            number_of_wheel_rotation_units: rotations.rotation_units,
                            x_position: self.mouse_position.x,
                            y_position: self.mouse_position.y,
                        },
                    ),
                );
            },
            Operation::KeyPressed(scancode) => {
                let was_pressed = self.keyboard.replace(scancode.as_idx(), true);
                if was_pressed {
                    events.push(make_key_event(scancode.code, scancode.extended, true));
                }
                events.push(make_key_event(scancode.code, scancode.extended, false));
            },
            Operation::KeyReleased(scancode) => {
                let was_pressed = self.keyboard.replace(scancode.as_idx(), false);
                if was_pressed {
                    events.push(make_key_event(scancode.code, scancode.extended, true));
                } else {
                    assert(self@.keys =~= old(self)@.keys);
                }
            },
        }
        assert(events@ =~= start + step(old(self)@, operation).1);
        assert(self@ == step(old(self)@, operation).0);
    }

    /// Applies a transaction (a list of operations) and returns the RDP input
    /// events to send. Operations that would cause no state change are ignored.
    pub fn apply(&mut self, transaction: Vec<Operation>) -> (r: Vec<FastPathInputEvent>)
        requires
            old(self)@.wf(),
        ensures
            final(self)@ == apply_ops(old(self)@, transaction@).0,
            r@ == apply_ops(old(self)@, transaction@).1,
            final(self)@.wf(),
    {
        let mut events: Vec<FastPathInputEvent> = Vec::new();
        let mut i: usize = 0;
        while i < transaction.len()
            invariant
                i <= transaction@.len(),
                self@.wf(),
                self@ == apply_ops(old(self)@, transaction@.take(i as int)).0,
                events@ == apply_ops(old(self)@, transaction@.take(i as int)).1,
            decreases transaction@.len() - i,
        {
            let operation = transaction[i];
            proof {
                assert(transaction@.take(i + 1).drop_last() =~= transaction@.take(i as int));
                assert(transaction@.take(i + 1).last() == operation);
            }
            self.apply_one(operation, &mut events);
            i = i + 1;
        }
        assert(transaction@.take(i as int) =~= transaction@);
        events
    }

    /// Releases all keys and buttons and returns the RDP input events to send.
    pub fn release_all(&mut self) -> (r: Vec<FastPathInputEvent>)
        requires
            old(self)@.wf(),
        ensures
            r@ == release_events(old(self)@),
            final(self)@ == released(old(self)@),
            final(self)@.wf(),
    {
        let mut events: Vec<FastPathInputEvent> = Vec::new();
        let pos = self.mouse_position;
        let buttons = self.mouse_buttons.set_indices();
        let ghost bones = ones(self@.buttons);
        proof {
            lemma_ones_below(self@.buttons, self@.buttons.len() as int);
        }
        let mut j: usize = 0;
        while j < buttons.len()
            invariant
                j <= buttons@.len(),
                buttons@.len() == bones.len(),
                forall|k: int| 0 <= k < buttons@.len() ==> buttons@[k] as int == bones[k],
                forall|k: int| 0 <= k < bones.len() ==> 0 <= #[trigger] bones[k] < 5,
                events@ == bones.take(j as int).map_values(
                    |i: int| button_event(i as u8, false, pos),
                ),
            decreases buttons@.len() - j,
        {
            let idx = buttons[j];
            events.push(make_button_event(MouseButton::from(idx as u8), false, pos));
            assert(bones.take(j + 1) =~= bones.take(j as int).push(bones[j as int]));
            assert(events@ =~= bones.take(j + 1).map_values(
                |i: int| button_event(i as u8, false, pos),
            ));
            j = j + 1;
        }
        assert(bones.take(j as int) =~= bones);
        let ghost first = events@;
        let keys = self.keyboard.set_indices();
        let ghost kones = ones(self@.keys);
        proof {
            lemma_ones_below(self@.keys, self@.keys.len() as int);
        }
        let mut j: usize = 0;
        while j < keys.len()
            invariant
                j <= keys@.len(),
                keys@.len() == kones.len(),
                forall|k: int| 0 <= k < keys@.len() ==> keys@[k] as int == kones[k],
                forall|k: int| 0 <= k < kones.len() ==> 0 <= #[trigger] kones[k] < 512,
                events@ == first + kones.take(j as int).map_values(|i: int| key_release_at(i)),
            decreases keys@.len() - j,
        {
            let idx = keys[j];
            let event = if idx >= 256 {
                make_key_event((idx - 256) as u8, true, true)
            } else {
                make_key_event(idx as u8, false, true)
            };
            events.push(event);
            assert(kones.take(j + 1) =~= kones.take(j as int).push(kones[j as int]));
            assert(events@ =~= first + kones.take(j + 1).map_values(|i: int| key_release_at(i)));
            j = j + 1;
        }
        assert(kones.take(j as int) =~= kones);
        self.mouse_buttons = MouseButtonsState::zero();
        self.keyboard = KeyboardState::zero();
        assert(self@.keys =~= released(old(self)@).keys);
        assert(self@.buttons =~= released(old(self)@).buttons);
        events
    }
}


/// Lock-key flags: one bit per lock that is on.
pub open spec fn sync_flags(scroll_lock: bool, num_lock: bool, caps_lock: bool, kana_lock: bool) -> u8 {
    ((if scroll_lock { SYNC_SCROLL_LOCK } else { 0 }) + (if num_lock { SYNC_NUM_LOCK } else { 0 })
        + (if caps_lock { SYNC_CAPS_LOCK } else { 0 }) + (if kana_lock { SYNC_KANA_LOCK } else { 0 })) as u8
}

/// Setting a bit above every set bit adds it.
proof fn lemma_or_high_bit(f: u8, b: u8)
    requires
        b == 1 || b == 2 || b == 4 || b == 8,
        f < b,
    ensures
        f | b == f + b,
{
    assert(f < b && (b == 1u8 || b == 2u8 || b == 4u8 || b == 8u8) ==> f | b == f + b)
        by (bit_vector);
}

/// Returns the RDP input event that synchronizes the lock keys.
pub fn synchronize_event(scroll_lock: bool, num_lock: bool, caps_lock: bool, kana_lock: bool) -> (r:
    FastPathInputEvent)
    ensures
        r == FastPathInputEvent::SyncEvent(sync_flags(scroll_lock, num_lock, caps_lock, kana_lock)),
{
    let mut flags: u8 = 0;
    if scroll_lock {
        proof {
            lemma_or_high_bit(flags, SYNC_SCROLL_LOCK);
        }
        flags = flags | SYNC_SCROLL_LOCK;
    }
    if num_lock {
        proof {
            lemma_or_high_bit(flags, SYNC_NUM_LOCK);
        }
        flags = flags | SYNC_NUM_LOCK;
    }
    if caps_lock {
        proof {
            lemma_or_high_bit(flags, SYNC_CAPS_LOCK);
        }
        flags = flags | SYNC_CAPS_LOCK;
    }
    if kana_lock {
        proof {
            lemma_or_high_bit(flags, SYNC_KANA_LOCK);
        }
        flags = flags | SYNC_KANA_LOCK;
    }
    FastPathInputEvent::SyncEvent(flags)
}

/// A transaction of one or two operations is those steps in order.
pub proof fn lemma_apply_two(st: DatabaseView, a: Operation, b: Operation)
    ensures
        apply_ops(st, seq![a]) == (step(st, a).0, step(st, a).1),
        apply_ops(st, seq![a, b]) == (
            step(step(st, a).0, b).0,
            step(st, a).1 + step(step(st, a).0, b).1,
        ),
{
    let none = Seq::<Operation>::empty();
    assert(apply_ops(st, none) == (st, Seq::<FastPathInputEvent>::empty()));
    assert(seq![a].drop_last() =~= none);
    assert(seq![a].last() == a);
    assert(Seq::<FastPathInputEvent>::empty() + step(st, a).1 =~= step(st, a).1);
    assert(apply_ops(st, seq![a]) == (step(st, a).0, step(st, a).1));
    assert(seq![a, b].drop_last() =~= seq![a]);
    assert(seq![a, b].last() == b);
}

/// Pressing a known button twice in one transaction emits the single press
/// event of the first press: a press of a button that is down is dropped.
pub proof fn lemma_press_dedup(st: DatabaseView, b: MouseButton)
    requires
        st.wf(),
        b.0 <= 4,
    ensures
        ({
            let press = Operation::MouseButtonPressed(b);
            &&& apply_ops(st, seq![press, press]) == apply_ops(st, seq![press])
            &&& !st.buttons[b.0 as int] ==> apply_ops(st, seq![press]).1 == seq![
                button_event(b.0, true, st.position),
            ]
        }),
{
    let press = Operation::MouseButtonPressed(b);
    lemma_apply_two(st, press, press);
    assert(step(st, press).1 + Seq::<FastPathInputEvent>::empty() =~= step(st, press).1);
}

/// Releasing a known button twice in one transaction emits at most the one
/// release event of the first release.
pub proof fn lemma_release_dedup(st: DatabaseView, b: MouseButton)
    requires
        st.wf(),
        b.0 <= 4,
    ensures
        ({
            let release = Operation::MouseButtonReleased(b);
            apply_ops(st, seq![release, release]) == apply_ops(st, seq![release])
        }),
{
    let release = Operation::MouseButtonReleased(b);
    lemma_apply_two(st, release, release);
    assert(step(st, release).1 + Seq::<FastPathInputEvent>::empty() =~= step(st, release).1);
}

/// Pressing a released key twice in one transaction emits three events: its
/// press, then its release and press again; the key stays down.
pub proof fn lemma_key_repeat(st: DatabaseView, sc: Scancode)
    requires
        st.wf(),
        !st.keys[scancode_index(sc.code, sc.extended)],
    ensures
        ({
            let press = Operation::KeyPressed(sc);
            let r = apply_ops(st, seq![press, press]);
            &&& apply_ops(st, seq![press]).1 == seq![key_event(sc.code, sc.extended, false)]
            &&& r.1 == seq![
                key_event(sc.code, sc.extended, false),
                key_event(sc.code, sc.extended, true),
                key_event(sc.code, sc.extended, false),
            ]
            &&& r.0 == apply_ops(st, seq![press]).0
            &&& r.0.keys[scancode_index(sc.code, sc.extended)]
        }),
{
    let press = Operation::KeyPressed(sc);
    let i = scancode_index(sc.code, sc.extended);
    lemma_apply_two(st, press, press);
    let once = step(st, press);
    assert(once.0.keys.update(i, true) =~= once.0.keys);
    assert(once.1 + step(once.0, press).1 =~= seq![
        key_event(sc.code, sc.extended, false),
        key_event(sc.code, sc.extended, true),
        key_event(sc.code, sc.extended, false),
    ]);
}

/// Two moves to the same position in one transaction emit at most one move
/// event, and leave the cursor there.
pub proof fn lemma_move_dedup(st: DatabaseView, pos: MousePosition)
    requires
        st.wf(),
    ensures
        ({
            let mv = Operation::MouseMove(pos);
            &&& apply_ops(st, seq![mv, mv]) == apply_ops(st, seq![mv])
            &&& apply_ops(st, seq![mv]).0.position == pos
        }),
{
    let mv = Operation::MouseMove(pos);
    lemma_apply_two(st, mv, mv);
    assert(step(st, mv).1 + Seq::<FastPathInputEvent>::empty() =~= step(st, mv).1);
}

/// Releasing everything leaves nothing to release: a second `release_all`
/// emits no event and changes nothing.
pub proof fn lemma_release_all_twice(st: DatabaseView)
    requires
        st.wf(),
    ensures
        release_events(released(st)) == Seq::<FastPathInputEvent>::empty(),
        released(released(st)) == released(st),
{
    let r = released(st);
    lemma_ones_below_none(r.buttons, r.buttons.len() as int);
    lemma_ones_below_none(r.keys, r.keys.len() as int);
    assert(release_events(r) =~= Seq::<FastPathInputEvent>::empty());
}

/// After `release_all`, each pressed button and key has had exactly one
/// release event: one event per set flag.
pub proof fn lemma_release_all_count(st: DatabaseView)
    requires
        st.wf(),
    ensures
        release_events(st).len() == ones(st.buttons).len() + ones(st.keys).len(),
{
}

} // verus!
