pub mod action;
pub mod action_map;
pub mod code_set;

use vstd::prelude::*;

use crate::input::action::{
    ActionBinding, BindingView, GamepadAxis, GamepadButton, InputSource, KeyCode, MouseButton,
};
use crate::input::action_map::ActionMap;
use crate::input::code_set::{CodeSet, InputCode};

verus! {

/// Phase of a single touch/finger.
#[derive(Clone, Copy, Debug, PartialEq, Eq, Structural)]
pub enum TouchPhase {
    Started,
    Moved,
    Ended,
    Cancelled,
}

/// Whether a button went down or up.
#[derive(Clone, Copy, Debug, PartialEq, Eq, Structural)]
pub enum ButtonState {
    Pressed,
    Released,
}

/// The direction the mouse wheel has been scrolled this frame, by the sign of the
/// accumulated scroll.
#[derive(Clone, Copy, Debug, PartialEq, Eq, Structural)]
pub enum ScrollDirection {
    Still,
    Up,
    Down,
}

/// Held, just pressed and just released codes of one kind of button.
#[verifier::reject_recursive_types(T)]
pub ghost struct ButtonView<T> {
    pub pressed: Set<T>,
    pub just_pressed: Set<T>,
    pub just_released: Set<T>,
}

/// `v` after `code` went down (`repeat` for a key-repeat event).
pub open spec fn pressed_view<T>(v: ButtonView<T>, code: T, repeat: bool) -> ButtonView<T> {
    ButtonView {
        pressed: v.pressed.insert(code),
        just_pressed: if !v.pressed.contains(code) && !repeat {
            v.just_pressed.insert(code)
        } else {
            v.just_pressed
        },
        just_released: v.just_released,
    }
}

/// `v` after `code` went up.
pub open spec fn released_view<T>(v: ButtonView<T>, code: T) -> ButtonView<T> {
    ButtonView {
        pressed: v.pressed.remove(code),
        just_pressed: v.just_pressed,
        just_released: if v.pressed.contains(code) {
            v.just_released.insert(code)
        } else {
            v.just_released
        },
    }
}

/// `v` at the start of a frame: nothing was just pressed or released.
pub open spec fn frame_view<T>(v: ButtonView<T>) -> ButtonView<T> {
    ButtonView { pressed: v.pressed, just_pressed: Set::empty(), just_released: Set::empty() }
}

/// `v` once `now` is what is held: what was not held before was just pressed, what is no
/// longer held was just released.
pub open spec fn polled_view<T>(v: ButtonView<T>, before: Set<T>, now: Set<T>) -> ButtonView<T> {
    ButtonView {
        pressed: now,
        just_pressed: now.difference(before),
        just_released: before.difference(now),
    }
}

/// Nothing held, pressed or released.
pub open spec fn empty_view<T>() -> ButtonView<T> {
    ButtonView { pressed: Set::empty(), just_pressed: Set::empty(), just_released: Set::empty() }
}

/// Held, just pressed and just released codes of one kind of button.
pub struct ButtonStates<T> {
    pressed: CodeSet<T>,
    just_pressed: CodeSet<T>,
    just_released: CodeSet<T>,
}

impl<T: InputCode> ButtonStates<T> {
    pub closed spec fn view(&self) -> ButtonView<T> {
        ButtonView {
            pressed: self.pressed@,
            just_pressed: self.just_pressed@,
            just_released: self.just_released@,
        }
    }

    pub closed spec fn wf(&self) -> bool {
        self.pressed.wf() && self.just_pressed.wf() && self.just_released.wf()
    }

    /// Nothing held.
    pub fn new() -> (s: Self)
        ensures
            s.wf(),
            s@ == empty_view::<T>(),
    {
        ButtonStates { pressed: CodeSet::new(), just_pressed: CodeSet::new(), just_released: CodeSet::new() }
    }

    /// `code` went down; a repeated press does not count as just pressed.
    pub fn press(&mut self, code: T, repeat: bool)
        requires
            old(self).wf(),
        ensures
            final(self).wf(),
            final(self)@ == pressed_view(old(self)@, code, repeat),
    {
        if self.pressed.insert(code) && !repeat {
            self.just_pressed.insert(code);
        }
    }

    /// `code` went up.
    pub fn release(&mut self, code: T)
        requires
            old(self).wf(),
        ensures
            final(self).wf(),
            final(self)@ == released_view(old(self)@, code),
    {
        if self.pressed.remove(&code) {
            self.just_released.insert(code);
        }
    }

    /// Forgets what was just pressed or released.
    pub fn start_frame(&mut self)
        requires
            old(self).wf(),
        ensures
            final(self).wf(),
            final(self)@ == frame_view(old(self)@),
    {
        self.just_pressed.clear();
        self.just_released.clear();
    }

    /// Forgets everything.
    pub fn reset(&mut self)
        ensures
            final(self).wf(),
            final(self)@ == empty_view::<T>(),
    {
        self.pressed.clear();
        self.just_pressed.clear();
        self.just_released.clear();
    }

    /// Takes `now` as what is held, having been `before` at the last poll.
    pub fn poll(&mut self, before: CodeSet<T>, now: CodeSet<T>)
        requires
            before.wf(),
            now.wf(),
        ensures
            final(self).wf(),
            final(self)@ == polled_view(old(self)@, before@, now@),
    {
        self.just_pressed = now.difference(&before);
        self.just_released = before.difference(&now);
        self.pressed = now;
    }

    pub fn is_pressed(&self, code: &T) -> (r: bool)
        ensures
            r == self@.pressed.contains(*code),
    {
        self.pressed.contains(code)
    }

    pub fn is_just_pressed(&self, code: &T) -> (r: bool)
        ensures
            r == self@.just_pressed.contains(*code),
    {
        self.just_pressed.contains(code)
    }

    pub fn is_just_released(&self, code: &T) -> (r: bool)
        ensures
            r == self@.just_released.contains(*code),
    {
        self.just_released.contains(code)
    }

    /// The code pressed this frame that was pressed first, if any.
    pub closed spec fn first_just_pressed(&self) -> Option<T> {
        self.just_pressed.first_code()
    }

    /// The code pressed this frame that was pressed first, if any.
    pub fn any_just_pressed(&self) -> (r: Option<T>)
        ensures
            r == self.first_just_pressed(),
            match r {
                Some(x) => self@.just_pressed.contains(x),
                None => self@.just_pressed == Set::<T>::empty(),
            },
    {
        self.just_pressed.first()
    }

    /// A copy of what is held.
    pub fn held(&self) -> (r: CodeSet<T>)
        requires
            self.wf(),
        ensures
            r.wf(),
            r@ == self@.pressed,
    {
        CodeSet::from_codes(self.pressed.codes())
    }
}

/// What the gamepad backend reports for one frame: the buttons held on any pad, and the
/// axes whose value is beyond the pressed threshold, at the last frame and now.
pub struct GamepadFrame {
    pub buttons_pressed: Vec<GamepadButton>,
    pub axes_active_before: Vec<GamepadAxis>,
    pub axes_active_now: Vec<GamepadAxis>,
}

/// A single action known to the game, with its default binding.
pub struct RegisteredInput {
    pub name: &'static str,
    pub default: ActionBinding,
}

/// The whole input state, as sets and maps.
pub ghost struct InputView {
    pub keyboard: ButtonView<KeyCode>,
    pub mouse: ButtonView<MouseButton>,
    pub gamepad_buttons: ButtonView<GamepadButton>,
    pub gamepad_axes: ButtonView<GamepadAxis>,
    pub touches: Set<u64>,
    pub touch_just_started: bool,
    pub scroll: ScrollDirection,
    pub actions: Map<Seq<char>, BindingView>,
    pub registered: Seq<(Seq<char>, BindingView)>,
}

/// Whether `source` is held in `v`.
pub open spec fn source_held(v: InputView, source: InputSource) -> bool {
    match source {
        InputSource::Noop => false,
        InputSource::Keyboard(k) => v.keyboard.pressed.contains(k),
        InputSource::Mouse(b) => v.mouse.pressed.contains(b),
        InputSource::GamepadButton(b) => v.gamepad_buttons.pressed.contains(b),
        InputSource::GamepadAxis(a) => v.gamepad_axes.pressed.contains(a),
        InputSource::MouseWheelUp => v.scroll == ScrollDirection::Up,
        InputSource::MouseWheelDown => v.scroll == ScrollDirection::Down,
        InputSource::Touch => v.touches != Set::<u64>::empty(),
    }
}

/// Whether `source` was pressed this frame in `v`.
pub open spec fn source_just_pressed(v: InputView, source: InputSource) -> bool {
    match source {
        InputSource::Noop => false,
        InputSource::Keyboard(k) => v.keyboard.just_pressed.contains(k),
        InputSource::Mouse(b) => v.mouse.just_pressed.contains(b),
        InputSource::GamepadButton(b) => v.gamepad_buttons.just_pressed.contains(b),
        InputSource::GamepadAxis(a) => v.gamepad_axes.just_pressed.contains(a),
        InputSource::MouseWheelUp => v.scroll == ScrollDirection::Up,
        InputSource::MouseWheelDown => v.scroll == ScrollDirection::Down,
        InputSource::Touch => v.touch_just_started,
    }
}

/// Whether `source` was released this frame in `v`.
pub open spec fn source_just_released(v: InputView, source: InputSource) -> bool {
    match source {
        InputSource::Keyboard(k) => v.keyboard.just_released.contains(k),
        InputSource::Mouse(b) => v.mouse.just_released.contains(b),
        InputSource::GamepadButton(b) => v.gamepad_buttons.just_released.contains(b),
        InputSource::GamepadAxis(a) => v.gamepad_axes.just_released.contains(a),
        _ => false,
    }
}

/// Whether some source of `sources` satisfies `p`.
pub open spec fn any_source(sources: Seq<InputSource>, p: spec_fn(InputSource) -> bool) -> bool {
    exists|i: int| 0 <= i < sources.len() && p(#[trigger] sources[i])
}

/// Whether the action bound to `name` is held in `v`.
pub open spec fn action_held(v: InputView, name: Seq<char>) -> bool {
    v.actions.contains_key(name) && (any_source(
        v.actions[name].positive,
        |s: InputSource| source_held(v, s),
    ) || any_source(v.actions[name].negative, |s: InputSource| source_held(v, s)))
}

/// Whether the action bound to `name` was pressed this frame in `v`.
pub open spec fn action_just_pressed(v: InputView, name: Seq<char>) -> bool {
    v.actions.contains_key(name) && any_source(
        v.actions[name].positive,
        |s: InputSource| source_just_pressed(v, s),
    )
}

/// Whether the action bound to `name` was released this frame in `v`.
pub open spec fn action_just_released(v: InputView, name: Seq<char>) -> bool {
    v.actions.contains_key(name) && any_source(
        v.actions[name].positive,
        |s: InputSource| source_just_released(v, s),
    )
}

/// The input source a "press any key" capture picks in `v`: a key pressed this frame, else
/// a mouse button, else a gamepad button, else a gamepad axis, else a new touch, else the
/// wheel's direction.
pub open spec fn captured_source(v: InputView, r: Option<InputSource>) -> bool {
    if v.keyboard.just_pressed != Set::<KeyCode>::empty() {
        r matches Some(InputSource::Keyboard(k)) && v.keyboard.just_pressed.contains(k)
    } else if v.mouse.just_pressed != Set::<MouseButton>::empty() {
        r matches Some(InputSource::Mouse(b)) && v.mouse.just_pressed.contains(b)
    } else if v.gamepad_buttons.just_pressed != Set::<GamepadButton>::empty() {
        r matches Some(InputSource::GamepadButton(b)) && v.gamepad_buttons.just_pressed.contains(b)
    } else if v.gamepad_axes.just_pressed != Set::<GamepadAxis>::empty() {
        r matches Some(InputSource::GamepadAxis(a)) && v.gamepad_axes.just_pressed.contains(a)
    } else if v.touch_just_started {
        r == Some(InputSource::Touch)
    } else if v.scroll == ScrollDirection::Up {
        r == Some(InputSource::MouseWheelUp)
    } else if v.scroll == ScrollDirection::Down {
        r == Some(InputSource::MouseWheelDown)
    } else {
        r is None
    }
}

/// The registered actions as (name, default binding) pairs.
pub open spec fn registered_view(inputs: Seq<RegisteredInput>) -> Seq<(Seq<char>, BindingView)> {
    inputs.map_values(|r: RegisteredInput| (r.name@, r.default@))
}

/// `actions` with each registered action that is not bound yet bound to its default.
pub open spec fn seed_defaults(
    actions: Map<Seq<char>, BindingView>,
    inputs: Seq<(Seq<char>, BindingView)>,
) -> Map<Seq<char>, BindingView>
    decreases inputs.len(),
{
    if inputs.len() == 0 {
        actions
    } else {
        let prev = seed_defaults(actions, inputs.drop_last());
        let (n, b) = inputs.last();
        if prev.contains_key(n) {
            prev
        } else {
            prev.insert(n, b)
        }
    }
}

/// The state of every input device for the current frame, and the action bindings.
pub struct InputManager {
    keyboard: ButtonStates<KeyCode>,
    mouse: ButtonStates<MouseButton>,
    gamepad_buttons: ButtonStates<GamepadButton>,
    /// Axes beyond the pressed threshold count as held.
    gamepad_axes: ButtonStates<GamepadAxis>,
    touches: CodeSet<u64>,
    touch_just_started: bool,
    scroll: ScrollDirection,
    actions: ActionMap,
    /// Every action the game has registered, in display order, with its default binding.
    registered: Vec<RegisteredInput>,
}

impl InputManager {
    pub closed spec fn view(&self) -> InputView {
        InputView {
            keyboard: self.keyboard@,
            mouse: self.mouse@,
            gamepad_buttons: self.gamepad_buttons@,
            gamepad_axes: self.gamepad_axes@,
            touches: self.touches@,
            touch_just_started: self.touch_just_started,
            scroll: self.scroll,
            actions: self.actions@,
            registered: registered_view(self.registered@),
        }
    }

    pub closed spec fn wf(&self) -> bool {
        &&& self.keyboard.wf()
        &&& self.mouse.wf()
        &&& self.gamepad_buttons.wf()
        &&& self.gamepad_axes.wf()
        &&& self.touches.wf()
        &&& self.actions.wf()
    }

    /// No input, no binding, nothing registered.
    pub fn new() -> (m: Self)
        ensures
            m.wf(),
            m@ == (InputView {
                keyboard: empty_view(),
                mouse: empty_view(),
                gamepad_buttons: empty_view(),
                gamepad_axes: empty_view(),
                touches: Set::empty(),
                touch_just_started: false,
                scroll: ScrollDirection::Still,
                actions: Map::empty(),
                registered: Seq::empty(),
            }),
    {
        let m = InputManager {
            keyboard: ButtonStates::new(),
            mouse: ButtonStates::new(),
            gamepad_buttons: ButtonStates::new(),
            gamepad_axes: ButtonStates::new(),
            touches: CodeSet::new(),
            touch_just_started: false,
            scroll: ScrollDirection::Still,
            actions: ActionMap::new(),
            registered: Vec::new(),
        };
        assert(m@.registered =~= Seq::<(Seq<char>, BindingView)>::empty());
        m
    }

    // --- Frame lifecycle ---

    /// Resets per-frame state (just pressed and released, touch start, wheel) and takes in
    /// what the gamepad backend reports; without a backend, forgets all gamepad state.
    pub fn update(&mut self, gamepads: Option<GamepadFrame>)
        requires
            old(self).wf(),
        ensures
            final(self).wf(),
            final(self)@ == (InputView {
                keyboard: frame_view(old(self)@.keyboard),
                mouse: frame_view(old(self)@.mouse),
                gamepad_buttons: match gamepads {
                    Some(f) => polled_view(
                        old(self)@.gamepad_buttons,
                        old(self)@.gamepad_buttons.pressed,
                        f.buttons_pressed@.to_set(),
                    ),
                    None => empty_view(),
                },
                gamepad_axes: match gamepads {
                    Some(f) => polled_view(
                        old(self)@.gamepad_axes,
                        f.axes_active_before@.to_set(),
                        f.axes_active_now@.to_set(),
                    ),
                    None => empty_view(),
                },
                touch_just_started: false,
                scroll: ScrollDirection::Still,
                ..old(self)@
            }),
    {
        self.keyboard.start_frame();
        self.mouse.start_frame();
        self.scroll = ScrollDirection::Still;
        self.touch_just_started = false;
        match gamepads {
            Some(frame) => {
                let before = self.gamepad_buttons.held();
                self.gamepad_buttons.poll(before, CodeSet::from_codes(&frame.buttons_pressed));
                self.gamepad_axes.poll(
                    CodeSet::from_codes(&frame.axes_active_before),
                    CodeSet::from_codes(&frame.axes_active_now),
                );
            },
            None => {
                self.gamepad_buttons.reset();
                self.gamepad_axes.reset();
            },
        }
    }

    // --- Event processing ---

    /// Raw keyboard input.
    pub fn keyboard_input(&mut self, key: KeyCode, state: ButtonState, repeat: bool)
        requires
            old(self).wf(),
        ensures
            final(self).wf(),
            final(self)@ == (InputView {
                keyboard: match state {
                    ButtonState::Pressed => pressed_view(old(self)@.keyboard, key, repeat),
                    ButtonState::Released => released_view(old(self)@.keyboard, key),
                },
                ..old(self)@
            }),
    {
        match state {
            ButtonState::Pressed => self.keyboard.press(key, repeat),
            ButtonState::Released => self.keyboard.release(key),
        }
    }

    /// Raw mouse button input.
    pub fn mouse_button_input(&mut self, button: MouseButton, state: ButtonState)
        requires
            old(self).wf(),
        ensures
            final(self).wf(),
            final(self)@ == (InputView {
                mouse: match state {
                    ButtonState::Pressed => pressed_view(old(self)@.mouse, button, false),
                    ButtonState::Released => released_view(old(self)@.mouse, button),
                },
                ..old(self)@
            }),
    {
        match state {
            ButtonState::Pressed => self.mouse.press(button, false),
            ButtonState::Released => self.mouse.release(button),
        }
    }

    /// The direction of the wheel scroll accumulated this frame.
    pub fn scroll_input(&mut self, direction: ScrollDirection)
        ensures
            final(self)@ == (InputView { scroll: direction, ..old(self)@ }),
            old(self).wf() ==> final(self).wf(),
    {
        self.scroll = direction;
    }

    /// Raw touch input: a started touch is tracked and marks a new touch this frame, a moved
    /// one is tracked, an ended or cancelled one is forgotten.
    pub fn touch_input(&mut self, id: u64, phase: TouchPhase)
        requires
            old(self).wf(),
        ensures
            final(self).wf(),
            final(self)@ == (match phase {
                TouchPhase::Started => InputView {
                    touches: old(self)@.touches.insert(id),
                    touch_just_started: true,
                    ..old(self)@
                },
                TouchPhase::Moved => InputView {
                    touches: old(self)@.touches.insert(id),
                    ..old(self)@
                },
                _ => InputView { touches: old(self)@.touches.remove(id), ..old(self)@ },
            }),
    {
        match phase {
            TouchPhase::Started => {
                self.touch_just_started = true;
                self.touches.insert(id);
            },
            TouchPhase::Moved => {
                self.touches.insert(id);
            },
            TouchPhase::Ended | TouchPhase::Cancelled => {
                self.touches.remove(&id);
            },
        }
    }

    // --- Action bindings ---

    /// Records the actions the game supports and binds each one not bound yet to its
    /// default.
    pub fn register_inputs(&mut self, inputs: Vec<RegisteredInput>)
        requires
            old(self).wf(),
        ensures
            final(self).wf(),
            final(self)@ == (InputView {
                actions: seed_defaults(old(self)@.actions, registered_view(inputs@)),
                registered: registered_view(inputs@),
                ..old(self)@
            }),
    {
        let ghost rv = registered_view(inputs@);
        let mut i: usize = 0;
        while i < inputs.len()
            invariant
                self.wf(),
                i <= inputs@.len(),
                rv == registered_view(inputs@),
                self@ == (InputView {
                    actions: seed_defaults(old(self)@.actions, rv.take(i as int)),
                    ..old(self)@
                }),
            decreases inputs@.len() - i,
        {
            let name = inputs[i].name.to_owned();
            let default = inputs[i].default.duplicate();
            self.actions.insert_if_absent(name, default);
            proof {
                assert(rv.take(i + 1).drop_last() =~= rv.take(i as int));
                assert(rv.take(i + 1).last() == rv[i as int]);
            }
            i = i + 1;
        }
        proof {
            assert(rv.take(inputs@.len() as int) =~= rv);
        }
        self.registered = inputs;
    }

    /// Every registered action in display order, including ones currently unbound.
    pub fn registered_inputs(&self) -> (r: &Vec<RegisteredInput>)
        ensures
            registered_view(r@) == self@.registered,
    {
        &self.registered
    }

    /// Binds an action, replacing any previous binding.
    pub fn bind_action(&mut self, action: String, binding: ActionBinding)
        requires
            old(self).wf(),
        ensures
            final(self).wf(),
            final(self)@ == (InputView {
                actions: old(self)@.actions.insert(action@, binding@),
                ..old(self)@
            }),
    {
        self.actions.insert(action, binding);
    }

    /// Adds a source to the positive side of an action's binding.
    pub fn add_source(&mut self, action: String, source: InputSource)
        requires
            old(self).wf(),
        ensures
            final(self).wf(),
            final(self)@ == (InputView {
                actions: old(self)@.actions.insert(
                    action@,
                    (if old(self)@.actions.contains_key(action@) {
                        BindingView {
                            positive: old(self)@.actions[action@].positive.push(source),
                            negative: old(self)@.actions[action@].negative,
                        }
                    } else {
                        BindingView { positive: seq![source], negative: Seq::empty() }
                    }),
                ),
                ..old(self)@
            }),
    {
        self.actions.push_positive(action, source);
    }

    /// Adds a source to the negative side of an action's binding.
    pub fn add_negative_source(&mut self, action: String, source: InputSource)
        requires
            old(self).wf(),
        ensures
            final(self).wf(),
            final(self)@ == (InputView {
                actions: old(self)@.actions.insert(
                    action@,
                    (if old(self)@.actions.contains_key(action@) {
                        BindingView {
                            positive: old(self)@.actions[action@].positive,
                            negative: old(self)@.actions[action@].negative.push(source),
                        }
                    } else {
                        BindingView { positive: Seq::empty(), negative: seq![source] }
                    }),
                ),
                ..old(self)@
            }),
    {
        self.actions.push_negative(action, source);
    }

    /// Removes a single source from an action's binding; returns whether one was removed.
    pub fn remove_binding(&mut self, action: &str, source: InputSource) -> (r: bool)
        requires
            old(self).wf(),
        ensures
            final(self).wf(),
            old(self)@.actions.contains_key(action@) ==> {
                let b = old(self)@.actions[action@];
                let nb = BindingView {
                    positive: b.positive.filter(crate::input::action::differs_from(source)),
                    negative: b.negative.filter(crate::input::action::differs_from(source)),
                };
                &&& final(self)@ == (InputView {
                    actions: old(self)@.actions.insert(action@, nb),
                    ..old(self)@
                })
                &&& r == (nb.positive.len() != b.positive.len() || nb.negative.len()
                    != b.negative.len())
            },
            !old(self)@.actions.contains_key(action@) ==> final(self)@ == old(self)@ && !r,
    {
        self.actions.unbind_source(action, source)
    }

    /// Replaces an action's binding with a single new source; returns whether the action
    /// was bound.
    pub fn rebind_action(&mut self, action: &str, source: InputSource) -> (r: bool)
        requires
            old(self).wf(),
        ensures
            final(self).wf(),
            r == old(self)@.actions.contains_key(action@),
            r ==> final(self)@ == (InputView {
                actions: old(self)@.actions.insert(
                    action@,
                    BindingView { positive: seq![source], negative: Seq::empty() },
                ),
                ..old(self)@
            }),
            !r ==> final(self)@ == old(self)@,
    {
        self.actions.rebind(action, source)
    }

    /// Removes an action and all of its bindings.
    pub fn unbind_action(&mut self, action: &str) -> (r: Option<ActionBinding>)
        requires
            old(self).wf(),
        ensures
            final(self).wf(),
            final(self)@ == (InputView { actions: old(self)@.actions.remove(action@), ..old(self)@ }),
            match r {
                Some(b) => old(self)@.actions.contains_key(action@) && old(self)@.actions[action@]
                    == b@,
                None => !old(self)@.actions.contains_key(action@),
            },
    {
        self.actions.remove(action)
    }

    pub fn has_action(&self, action: &str) -> (r: bool)
        requires
            self.wf(),
        ensures
            r == self@.actions.contains_key(action@),
    {
        self.actions.contains_key(action)
    }

    /// The currently stored binding for an action, if any.
    pub fn binding(&self, action: &str) -> (r: Option<&ActionBinding>)
        requires
            self.wf(),
        ensures
            match r {
                Some(b) => self@.actions.contains_key(action@) && self@.actions[action@] == b@,
                None => !self@.actions.contains_key(action@),
            },
    {
        self.actions.get(action)
    }

    /// The bindings, in the order their actions were first bound.
    pub fn actions(&self) -> (r: &ActionMap)
        ensures
            r@ == self@.actions,
            self.wf() ==> r.wf(),
    {
        &self.actions
    }

    /// Replaces every binding.
    pub fn set_actions(&mut self, actions: ActionMap)
        requires
            actions.wf(),
            old(self).wf(),
        ensures
            final(self).wf(),
            final(self)@ == (InputView { actions: actions@, ..old(self)@ }),
    {
        self.actions = actions;
    }

    /// The source a "press any key" capture takes this frame: of the first kind that has one
    /// (keyboard, mouse, gamepad button, gamepad axis), the code pressed first; else a touch
    /// that started, else the wheel's direction.
    pub closed spec fn captured(&self) -> Option<InputSource> {
        match self.keyboard.first_just_pressed() {
            Some(k) => Some(InputSource::Keyboard(k)),
            None => match self.mouse.first_just_pressed() {
                Some(b) => Some(InputSource::Mouse(b)),
                None => match self.gamepad_buttons.first_just_pressed() {
                    Some(b) => Some(InputSource::GamepadButton(b)),
                    None => match self.gamepad_axes.first_just_pressed() {
                        Some(a) => Some(InputSource::GamepadAxis(a)),
                        None => if self.touch_just_started {
                            Some(InputSource::Touch)
                        } else {
                            match self.scroll {
                                ScrollDirection::Up => Some(InputSource::MouseWheelUp),
                                ScrollDirection::Down => Some(InputSource::MouseWheelDown),
                                ScrollDirection::Still => None,
                            }
                        },
                    },
                },
            },
        }
    }

    /// The first input source pressed this frame, by kind: keyboard, mouse, gamepad button,
    /// gamepad axis, touch, then wheel. Useful for "press any key" capture.
    pub fn any_source_just_pressed(&self) -> (r: Option<InputSource>)
        ensures
            r == self.captured(),
            captured_source(self@, r),
    {
        match self.keyboard.any_just_pressed() {
            Some(k) => {
                return Some(InputSource::Keyboard(k));
            },
            None => {},
        }
        match self.mouse.any_just_pressed() {
            Some(b) => {
                return Some(InputSource::Mouse(b));
            },
            None => {},
        }
        match self.gamepad_buttons.any_just_pressed() {
            Some(b) => {
                return Some(InputSource::GamepadButton(b));
            },
            None => {},
        }
        match self.gamepad_axes.any_just_pressed() {
            Some(a) => {
                return Some(InputSource::GamepadAxis(a));
            },
            None => {},
        }
        if self.touch_just_started {
            Some(InputSource::Touch)
        } else {
            match self.scroll {
                ScrollDirection::Up => Some(InputSource::MouseWheelUp),
                ScrollDirection::Down => Some(InputSource::MouseWheelDown),
                ScrollDirection::Still => None,
            }
        }
    }

    // --- Action queries ---

    /// Whether `source` is held.
    pub fn source_pressed(&self, source: &InputSource) -> (r: bool)
        ensures
            r == source_held(self@, *source),
    {
        match source {
            InputSource::Noop => false,
            InputSource::Keyboard(k) => self.keyboard.is_pressed(k),
            InputSource::Mouse(b) => self.mouse.is_pressed(b),
            InputSource::GamepadButton(b) => self.gamepad_buttons.is_pressed(b),
            InputSource::GamepadAxis(a) => self.gamepad_axes.is_pressed(a),
            InputSource::MouseWheelUp => self.scroll == ScrollDirection::Up,
            InputSource::MouseWheelDown => self.scroll == ScrollDirection::Down,
            InputSource::Touch => !self.touches.is_empty(),
        }
    }

    fn source_just_pressed(&self, source: &InputSource) -> (r: bool)
        ensures
            r == source_just_pressed(self@, *source),
    {
        match source {
            InputSource::Noop => false,
            InputSource::Keyboard(k) => self.keyboard.is_just_pressed(k),
            InputSource::Mouse(b) => self.mouse.is_just_pressed(b),
            InputSource::GamepadButton(b) => self.gamepad_buttons.is_just_pressed(b),
            InputSource::GamepadAxis(a) => self.gamepad_axes.is_just_pressed(a),
            InputSource::MouseWheelUp => self.scroll == ScrollDirection::Up,
            InputSource::MouseWheelDown => self.scroll == ScrollDirection::Down,
            InputSource::Touch => self.touch_just_started,
        }
    }

    fn source_just_released(&self, source: &InputSource) -> (r: bool)
        ensures
            r == source_just_released(self@, *source),
    {
        match source {
            InputSource::Keyboard(k) => self.keyboard.is_just_released(k),
            InputSource::Mouse(b) => self.mouse.is_just_released(b),
            InputSource::GamepadButton(b) => self.gamepad_buttons.is_just_released(b),
            InputSource::GamepadAxis(a) => self.gamepad_axes.is_just_released(a),
            _ => false,
        }
    }

    fn any_held(&self, sources: &Vec<InputSource>) -> (r: bool)
        ensures
            r == any_source(sources@, |s: InputSource| source_held(self@, s)),
    {
        let mut i: usize = 0;
        while i < sources.len()
            invariant
                i <= sources@.len(),
                forall|j: int| 0 <= j < i ==> !source_held(self@, #[trigger] sources@[j]),
            decreases sources@.len() - i,
        {
            if self.source_pressed(&sources[i]) {
                return true;
            }
            i = i + 1;
        }
        false
    }

    fn any_just_pressed(&self, sources: &Vec<InputSource>) -> (r: bool)
        ensures
            r == any_source(sources@, |s: InputSource| source_just_pressed(self@, s)),
    {
        let mut i: usize = 0;
        while i < sources.len()
            invariant
                i <= sources@.len(),
                forall|j: int| 0 <= j < i ==> !source_just_pressed(self@, #[trigger] sources@[j]),
            decreases sources@.len() - i,
        {
            if self.source_just_pressed(&sources[i]) {
                return true;
            }
            i = i + 1;
        }
        false
    }

    fn any_just_released(&self, sources: &Vec<InputSource>) -> (r: bool)
        ensures
            r == any_source(sources@, |s: InputSource| source_just_released(self@, s)),
    {
        let mut i: usize = 0;
        while i < sources.len()
            invariant
                i <= sources@.len(),
                forall|j: int|
                    0 <= j < i ==> !source_just_released(self@, #[trigger] sources@[j]),
            decreases sources@.len() - i,
        {
            if self.source_just_released(&sources[i]) {
                return true;
            }
            i = i + 1;
        }
        false
    }

    /// Whether the action is currently being held.
    pub fn pressed(&self, action: &str) -> (r: bool)
        requires
            self.wf(),
        ensures
            r == action_held(self@, action@),
    {
        match self.actions.get(action) {
            Some(b) => self.any_held(&b.positive) || self.any_held(&b.negative),
            None => false,
        }
    }

    /// Whether the action was pressed this frame.
    pub fn just_pressed(&self, action: &str) -> (r: bool)
        requires
            self.wf(),
        ensures
            r == action_just_pressed(self@, action@),
    {
        match self.actions.get(action) {
            Some(b) => self.any_just_pressed(&b.positive),
            None => false,
        }
    }

    /// Whether the action was released this frame.
    pub fn just_released(&self, action: &str) -> (r: bool)
        requires
            self.wf(),
        ensures
            r == action_just_released(self@, action@),
    {
        match self.actions.get(action) {
            Some(b) => self.any_just_released(&b.positive),
            None => false,
        }
    }

    // --- Raw state queries ---

    pub fn key_pressed(&self, key: KeyCode) -> (r: bool)
        ensures
            r == self@.keyboard.pressed.contains(key),
    {
        self.keyboard.is_pressed(&key)
    }

    pub fn key_just_pressed(&self, key: KeyCode) -> (r: bool)
        ensures
            r == self@.keyboard.just_pressed.contains(key),
    {
        self.keyboard.is_just_pressed(&key)
    }

    pub fn key_just_released(&self, key: KeyCode) -> (r: bool)
        ensures
            r == self@.keyboard.just_released.contains(key),
    {
        self.keyboard.is_just_released(&key)
    }

    pub fn mouse_button_pressed(&self, button: MouseButton) -> (r: bool)
        ensures
            r == self@.mouse.pressed.contains(button),
    {
        self.mouse.is_pressed(&button)
    }

    pub fn mouse_button_just_pressed(&self, button: MouseButton) -> (r: bool)
        ensures
            r == self@.mouse.just_pressed.contains(button),
    {
        self.mouse.is_just_pressed(&button)
    }

    pub fn mouse_button_just_released(&self, button: MouseButton) -> (r: bool)
        ensures
            r == self@.mouse.just_released.contains(button),
    {
        self.mouse.is_just_released(&button)
    }

    pub fn gamepad_button_pressed(&self, button: GamepadButton) -> (r: bool)
        ensures
            r == self@.gamepad_buttons.pressed.contains(button),
    {
        self.gamepad_buttons.is_pressed(&button)
    }

    pub fn gamepad_button_just_pressed(&self, button: GamepadButton) -> (r: bool)
        ensures
            r == self@.gamepad_buttons.just_pressed.contains(button),
    {
        self.gamepad_buttons.is_just_pressed(&button)
    }

    pub fn gamepad_button_just_released(&self, button: GamepadButton) -> (r: bool)
        ensures
            r == self@.gamepad_buttons.just_released.contains(button),
    {
        self.gamepad_buttons.is_just_released(&button)
    }

    /// Whether a touch is active.
    pub fn is_touching(&self) -> (r: bool)
        ensures
            r == (self@.touches != Set::<u64>::empty()),
    {
        !self.touches.is_empty()
    }

    /// Whether the touch `id` is active.
    pub fn touch(&self, id: u64) -> (r: bool)
        ensures
            r == self@.touches.contains(id),
    {
        self.touches.contains(&id)
    }
}

/// Pressing then releasing a button leaves it not held and just released; it also counts
/// as just pressed when it was not held before.
pub proof fn lemma_press_then_release<T>(v: ButtonView<T>, code: T)
    ensures
        !released_view(pressed_view(v, code, false), code).pressed.contains(code),
        released_view(pressed_view(v, code, false), code).just_released.contains(code),
        !v.pressed.contains(code) ==> released_view(
            pressed_view(v, code, false),
            code,
        ).just_pressed.contains(code),
{
}

/// A key-repeat press never counts as just pressed.
pub proof fn lemma_repeat_not_just_pressed<T>(v: ButtonView<T>, code: T)
    ensures
        pressed_view(v, code, true).just_pressed == v.just_pressed,
        pressed_view(v, code, true).pressed.contains(code),
{
}

/// After a poll, nothing is both just pressed and just released, what was just pressed is
/// held, and what was just released is not.
pub proof fn lemma_poll_partitions<T>(v: ButtonView<T>, before: Set<T>, now: Set<T>)
    ensures
        polled_view(v, before, now).just_pressed.disjoint(polled_view(v, before, now).just_released),
        polled_view(v, before, now).just_pressed.subset_of(polled_view(v, before, now).pressed),
        polled_view(v, before, now).just_released.disjoint(polled_view(v, before, now).pressed),
{
}

/// The source a "press any key" capture picks was pressed this frame.
pub proof fn lemma_captured_is_just_pressed(v: InputView, r: Option<InputSource>)
    requires
        captured_source(v, r),
        r is Some,
    ensures
        source_just_pressed(v, r.unwrap()),
{
}

/// An action rebound to the source a capture picked counts as just pressed in the same
/// frame.
pub proof fn lemma_rebound_action_just_pressed(v: InputView, name: Seq<char>, source: InputSource)
    requires
        captured_source(v, Some(source)),
    ensures
        action_just_pressed(
            InputView {
                actions: v.actions.insert(
                    name,
                    BindingView { positive: seq![source], negative: Seq::empty() },
                ),
                ..v
            },
            name,
        ),
{
    let v2 = InputView {
        actions: v.actions.insert(name, BindingView { positive: seq![source], negative: Seq::empty() }),
        ..v
    };
    lemma_captured_is_just_pressed(v, Some(source));
    assert(v2.actions[name].positive[0] == source);
    assert(source_just_pressed(v2, v2.actions[name].positive[0]));
}

/// Binding an action and then reading it gives the binding back; other actions are kept.
pub proof fn lemma_binding_after_bind(v: InputView, name: Seq<char>, b: BindingView)
    ensures
        v.actions.insert(name, b).contains_key(name),
        v.actions.insert(name, b)[name] == b,
        forall|n: Seq<char>|
            n != name ==> #[trigger] v.actions.insert(name, b).contains_key(n)
                == v.actions.contains_key(n),
{
}

/// An unbound action is gone.
pub proof fn lemma_unbound_action_is_gone(v: InputView, name: Seq<char>)
    ensures
        !v.actions.remove(name).contains_key(name),
        !action_held(InputView { actions: v.actions.remove(name), ..v }, name),
        !action_just_pressed(InputView { actions: v.actions.remove(name), ..v }, name),
{
}

} // verus!
