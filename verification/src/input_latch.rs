//! Player input sampled per frame and consumed per tick.
//!
//! A frame and a tick are different clocks, so a press that lasts one frame
//! may land between two ticks. Presses are therefore latched here and
//! released to exactly one tick. Jump and fire arrive as presses already;
//! interact, the bag and on-screen buttons arrive as levels and are turned
//! into one press per push, so holding a key is one press.
use vstd::prelude::*;

verus! {

/// The buttons of one frame's input. The movement axes, which are floating
/// point, travel beside this and are not latched.
#[derive(Debug, Clone, Copy, Default)]
pub struct Buttons {
    pub jump: bool,
    pub sprint: bool,
    pub fire: bool,
    /// Whether the interact key is down.
    pub interact: bool,
    /// Whether the inventory key is down.
    pub bag: bool,
    /// The 1-based index of the on-screen button being pressed, or 0.
    pub ui: u8,
}

/// What one tick receives.
#[derive(Debug, Clone, Copy)]
pub struct Presses {
    pub jump: bool,
    pub fire: bool,
    pub interact: bool,
    pub bag: bool,
    pub ui: u8,
    /// Held, not pressed: sprint is a level.
    pub sprint: bool,
}

/// Presses waiting for a tick, and the levels last seen.
#[derive(Debug, Clone, Copy)]
pub struct InputLatch {
    held: Buttons,
    jump_pending: bool,
    fire_pending: bool,
    interact_pending: bool,
    interact_was_down: bool,
    bag_pending: bool,
    bag_was_down: bool,
    ui_pending: u8,
    ui_was: u8,
}

/// The latch as plain values.
pub struct LatchView {
    pub held: Buttons,
    pub jump_pending: bool,
    pub fire_pending: bool,
    pub interact_pending: bool,
    pub interact_was_down: bool,
    pub bag_pending: bool,
    pub bag_was_down: bool,
    pub ui_pending: u8,
    pub ui_was: u8,
}

impl View for InputLatch {
    type V = LatchView;

    closed spec fn view(&self) -> LatchView {
        LatchView {
            held: self.held,
            jump_pending: self.jump_pending,
            fire_pending: self.fire_pending,
            interact_pending: self.interact_pending,
            interact_was_down: self.interact_was_down,
            bag_pending: self.bag_pending,
            bag_was_down: self.bag_was_down,
            ui_pending: self.ui_pending,
            ui_was: self.ui_was,
        }
    }
}

/// Whether a level of `current` after `previous` is a new push of an
/// on-screen button: something is pressed, and it is not what was pressed.
pub open spec fn ui_push(previous: u8, current: u8) -> bool {
    current != 0 && current != previous
}

/// The latch after a frame's `buttons`: jump and fire are latched as they
/// come, interact and the bag on a rising edge only, and an on-screen button
/// when it is newly pushed.
pub open spec fn latched(l: LatchView, buttons: Buttons) -> LatchView {
    LatchView {
        held: buttons,
        jump_pending: l.jump_pending || buttons.jump,
        fire_pending: l.fire_pending || buttons.fire,
        interact_pending: l.interact_pending || (buttons.interact && !l.interact_was_down),
        interact_was_down: buttons.interact,
        bag_pending: l.bag_pending || (buttons.bag && !l.bag_was_down),
        bag_was_down: buttons.bag,
        ui_pending: if ui_push(l.ui_was, buttons.ui) {
            buttons.ui
        } else {
            l.ui_pending
        },
        ui_was: buttons.ui,
    }
}

/// What a tick receives from the latch: every waiting press, and sprint as
/// it is held.
pub open spec fn released_presses(l: LatchView) -> Presses {
    Presses {
        jump: l.jump_pending,
        fire: l.fire_pending,
        interact: l.interact_pending,
        bag: l.bag_pending,
        ui: l.ui_pending,
        sprint: l.held.sprint,
    }
}

/// The latch once a tick has taken its presses: nothing waits, and the levels
/// last seen are kept.
pub open spec fn released_latch(l: LatchView) -> LatchView {
    LatchView {
        jump_pending: false,
        fire_pending: false,
        interact_pending: false,
        bag_pending: false,
        ui_pending: 0,
        ..l
    }
}

impl InputLatch {
    /// Nothing held and nothing waiting.
    pub fn new() -> (latch: Self)
        ensures
            !latch@.jump_pending && !latch@.fire_pending && !latch@.interact_pending
                && !latch@.interact_was_down && !latch@.bag_pending && !latch@.bag_was_down
                && latch@.ui_pending == 0 && latch@.ui_was == 0,
            latch@.held == (Buttons { jump: false, sprint: false, fire: false, interact: false, bag: false, ui: 0 }),
    {
        InputLatch {
            held: Buttons { jump: false, sprint: false, fire: false, interact: false, bag: false, ui: 0 },
            jump_pending: false,
            fire_pending: false,
            interact_pending: false,
            interact_was_down: false,
            bag_pending: false,
            bag_was_down: false,
            ui_pending: 0,
            ui_was: 0,
        }
    }

    /// Replace this frame's held buttons, latching what they press.
    pub fn set_input(&mut self, buttons: Buttons)
        ensures
            final(self)@ == latched(old(self)@, buttons),
    {
        self.jump_pending = self.jump_pending || buttons.jump;
        self.fire_pending = self.fire_pending || buttons.fire;
        self.interact_pending = self.interact_pending || (buttons.interact && !self.interact_was_down);
        self.interact_was_down = buttons.interact;
        self.bag_pending = self.bag_pending || (buttons.bag && !self.bag_was_down);
        self.bag_was_down = buttons.bag;
        if buttons.ui != 0 && buttons.ui != self.ui_was {
            self.ui_pending = buttons.ui;
        }
        self.ui_was = buttons.ui;
        self.held = buttons;
    }

    /// The buttons held this frame.
    pub fn held(&self) -> (buttons: Buttons)
        ensures
            buttons == self@.held,
    {
        self.held
    }

    /// Give one tick every press waiting for it, and forget them.
    pub fn take(&mut self) -> (presses: Presses)
        ensures
            presses == released_presses(old(self)@),
            final(self)@ == released_latch(old(self)@),
    {
        let presses = Presses {
            jump: self.jump_pending,
            fire: self.fire_pending,
            interact: self.interact_pending,
            bag: self.bag_pending,
            ui: self.ui_pending,
            sprint: self.held.sprint,
        };
        self.jump_pending = false;
        self.fire_pending = false;
        self.interact_pending = false;
        self.bag_pending = false;
        self.ui_pending = 0;
        presses
    }
}

/// Whether a tick that sees on-screen button `current`, after `previous` on
/// the tick before, raises a press: one push is one press, however long it is
/// held.
pub fn ui_pressed(previous: u8, current: u8) -> (pressed: bool)
    ensures
        pressed == ui_push(previous, current),
{
    current != 0 && current != previous
}

/// A press survives any number of frames until a tick takes it.
pub proof fn law_a_press_waits_for_a_tick(l: LatchView, buttons: Buttons)
    ensures
        l.jump_pending ==> latched(l, buttons).jump_pending,
        l.fire_pending ==> latched(l, buttons).fire_pending,
        l.interact_pending ==> latched(l, buttons).interact_pending,
        l.bag_pending ==> latched(l, buttons).bag_pending,
        l.ui_pending != 0 ==> latched(l, buttons).ui_pending != 0,
{
}

/// A press reaches exactly one tick: the tick after it receives it, and the
/// tick after that does not, unless something is pressed again.
pub proof fn law_a_press_reaches_exactly_one_tick(l: LatchView, buttons: Buttons)
    ensures
        buttons.jump ==> released_presses(latched(l, buttons)).jump,
        buttons.fire ==> released_presses(latched(l, buttons)).fire,
        ({
            let after = released_latch(latched(l, buttons));
            let p = released_presses(after);
            !p.jump && !p.fire && !p.interact && !p.bag && p.ui == 0
        }),
{
}

/// Holding interact, the bag key or an on-screen button is one press: once
/// it has been taken, the same held input raises nothing more.
pub proof fn law_holding_is_one_press(l: LatchView, buttons: Buttons)
    ensures
        (buttons.interact && !l.interact_was_down) ==> released_presses(latched(l, buttons)).interact,
        (buttons.bag && !l.bag_was_down) ==> released_presses(latched(l, buttons)).bag,
        ui_push(l.ui_was, buttons.ui) ==> released_presses(latched(l, buttons)).ui == buttons.ui,
        ({
            let taken = released_latch(latched(l, buttons));
            let again = released_presses(latched(taken, buttons));
            &&& !again.interact
            &&& !again.bag
            &&& again.ui == 0
        }),
{
}

/// The level of the on-screen button a run saw on its last tick, from which
/// each tick takes the edge itself: a level held over many ticks is one
/// press, whoever supplies the levels.
#[derive(Debug, Clone, Copy)]
pub struct ButtonEdge {
    pub was: u8,
}

impl ButtonEdge {
    /// No button seen yet.
    pub fn new() -> (edge: ButtonEdge)
        ensures
            edge.was == 0,
    {
        ButtonEdge { was: 0 }
    }

    /// One tick seeing button `level` (0 for none): whether it is a press,
    /// and the level remembered for the next tick.
    pub fn tick(&mut self, level: u8) -> (pressed: bool)
        ensures
            pressed == ui_push(old(self).was, level),
            final(self).was == level,
    {
        let pressed = ui_pressed(self.was, level);
        self.was = level;
        pressed
    }
}

/// Holding an on-screen button is one press: the tick after one that saw a
/// level sees no press at that same level.
pub proof fn law_a_held_button_presses_once(level: u8)
    ensures
        !ui_push(level, level),
        level != 0 ==> ui_push(0, level),
{
}

} // verus!
