use vstd::prelude::*;

use crate::input::code_set::InputCode;

verus! {

/// A physical keyboard key (layout independent), identified by a stable code.
#[derive(Clone, Copy, Debug, PartialEq, Eq, Structural, Hash)]
pub struct KeyCode(pub u32);

/// A mouse button.
#[derive(Clone, Copy, Debug, PartialEq, Eq, Structural, Hash)]
pub enum MouseButton {
    Left,
    Right,
    Middle,
    Back,
    Forward,
    Other(u16),
}

/// A button on a gamepad.
#[derive(Clone, Copy, Debug, PartialEq, Eq, Structural, Hash)]
pub enum GamepadButton {
    South,
    East,
    North,
    West,
    C,
    Z,
    LeftTrigger,
    LeftTrigger2,
    RightTrigger,
    RightTrigger2,
    Select,
    Start,
    Mode,
    LeftThumb,
    RightThumb,
    DPadUp,
    DPadDown,
    DPadLeft,
    DPadRight,
    Unknown,
}

/// An analog axis on a gamepad.
#[derive(Clone, Copy, Debug, PartialEq, Eq, Structural, Hash)]
pub enum GamepadAxis {
    LeftStickX,
    LeftStickY,
    LeftZ,
    RightStickX,
    RightStickY,
    RightZ,
    DPadX,
    DPadY,
    Unknown,
}

impl InputCode for KeyCode {
    fn same(&self, other: &Self) -> (r: bool) {
        *self == *other
    }
}

impl InputCode for MouseButton {
    fn same(&self, other: &Self) -> (r: bool) {
        *self == *other
    }
}

impl InputCode for GamepadButton {
    fn same(&self, other: &Self) -> (r: bool) {
        *self == *other
    }
}

impl InputCode for GamepadAxis {
    fn same(&self, other: &Self) -> (r: bool) {
        *self == *other
    }
}

/// A single hardware source of input.
#[derive(Clone, Copy, Debug, PartialEq, Eq, Structural, Hash)]
pub enum InputSource {
    Noop,
    /// Physical key (layout independent, what games should use).
    Keyboard(KeyCode),
    /// A mouse button.
    Mouse(MouseButton),
    /// A button on a connected gamepad.
    GamepadButton(GamepadButton),
    /// An analog axis on a connected gamepad.
    GamepadAxis(GamepadAxis),
    /// Mouse wheel scrolled up this frame.
    MouseWheelUp,
    /// Mouse wheel scrolled down this frame.
    MouseWheelDown,
    /// Any active touch on the screen.
    Touch,
}

impl InputSource {
    /// Whether this source produces a continuous value.
    pub fn is_axis(&self) -> (r: bool)
        ensures
            r == (*self is GamepadAxis),
    {
        match self {
            InputSource::GamepadAxis(_) => true,
            _ => false,
        }
    }
}

/// The sources of a binding as sequences.
pub ghost struct BindingView {
    pub positive: Seq<InputSource>,
    pub negative: Seq<InputSource>,
}

/// A set of input sources that drive a single action.
#[derive(Clone, Debug)]
pub struct ActionBinding {
    pub positive: Vec<InputSource>,
    pub negative: Vec<InputSource>,
}

/// Whether a source differs from `source`.
pub open spec fn differs_from(source: InputSource) -> spec_fn(InputSource) -> bool {
    |s: InputSource| s != source
}

impl ActionBinding {
    /// The binding's sources.
    pub open spec fn view(&self) -> BindingView {
        BindingView { positive: self.positive@, negative: self.negative@ }
    }

    /// A binding with no source.
    pub fn new() -> (b: Self)
        ensures
            b@ == (BindingView { positive: Seq::empty(), negative: Seq::empty() }),
    {
        ActionBinding { positive: Vec::new(), negative: Vec::new() }
    }

    /// Binds a single button-style source.
    pub fn button(source: InputSource) -> (b: Self)
        ensures
            b@ == (BindingView { positive: seq![source], negative: Seq::empty() }),
    {
        let mut positive = Vec::new();
        positive.push(source);
        let b = ActionBinding { positive, negative: Vec::new() };
        assert(b@.positive =~= seq![source]);
        b
    }

    /// Binds an axis with a `positive` and `negative` side.
    pub fn axis(positive: InputSource, negative: InputSource) -> (b: Self)
        ensures
            b@ == (BindingView { positive: seq![positive], negative: seq![negative] }),
    {
        let mut p = Vec::new();
        p.push(positive);
        let mut n = Vec::new();
        n.push(negative);
        let b = ActionBinding { positive: p, negative: n };
        assert(b@.positive =~= seq![positive]);
        assert(b@.negative =~= seq![negative]);
        b
    }

    /// Adds a source to the positive side of the binding.
    pub fn with_positive(self, source: InputSource) -> (b: Self)
        ensures
            b@ == (BindingView { positive: self@.positive.push(source), negative: self@.negative }),
    {
        let mut b = self;
        b.positive.push(source);
        b
    }

    /// Adds a source to the negative side of the binding.
    pub fn with_negative(self, source: InputSource) -> (b: Self)
        ensures
            b@ == (BindingView { positive: self@.positive, negative: self@.negative.push(source) }),
    {
        let mut b = self;
        b.negative.push(source);
        b
    }

    /// Adds a source to the positive side of the binding, in place.
    pub fn bind(&mut self, source: InputSource)
        ensures
            final(self)@ == (BindingView {
                positive: old(self)@.positive.push(source),
                negative: old(self)@.negative,
            }),
    {
        self.positive.push(source);
    }

    /// Removes a source from both sides of the binding.
    pub fn unbind(&mut self, source: &InputSource)
        ensures
            final(self)@ == (BindingView {
                positive: old(self)@.positive.filter(differs_from(*source)),
                negative: old(self)@.negative.filter(differs_from(*source)),
            }),
    {
        let p = retain_other(&self.positive, source);
        let n = retain_other(&self.negative, source);
        self.positive = p;
        self.negative = n;
    }

    /// Whether the binding has no source.
    pub fn is_empty(&self) -> (r: bool)
        ensures
            r == (self@.positive.len() == 0 && self@.negative.len() == 0),
    {
        self.positive.len() == 0 && self.negative.len() == 0
    }

    /// A copy of the binding.
    pub fn duplicate(&self) -> (b: Self)
        ensures
            b@ == self@,
    {
        ActionBinding { positive: copy_sources(&self.positive), negative: copy_sources(&self.negative) }
    }
}

/// The sources of `v` other than `source`, in order.
fn retain_other(v: &Vec<InputSource>, source: &InputSource) -> (r: Vec<InputSource>)
    ensures
        r@ == v@.filter(differs_from(*source)),
{
    let mut r: Vec<InputSource> = Vec::new();
    let mut i: usize = 0;
    while i < v.len()
        invariant
            i <= v@.len(),
            r@ == v@.take(i as int).filter(differs_from(*source)),
        decreases v@.len() - i,
    {
        proof {
            assert(v@.take(i + 1).drop_last() =~= v@.take(i as int));
            reveal_with_fuel(Seq::filter, 1);
        }
        if v[i] != *source {
            r.push(v[i]);
        }
        i = i + 1;
    }
    assert(v@.take(v@.len() as int) =~= v@);
    r
}

/// A copy of a list of sources.
fn copy_sources(v: &Vec<InputSource>) -> (r: Vec<InputSource>)
    ensures
        r@ == v@,
{
    let mut r: Vec<InputSource> = Vec::new();
    let mut i: usize = 0;
    while i < v.len()
        invariant
            i <= v@.len(),
            r@ == v@.take(i as int),
        decreases v@.len() - i,
    {
        r.push(v[i]);
        i = i + 1;
        assert(r@ =~= v@.take(i as int));
    }
    assert(v@.take(v@.len() as int) =~= v@);
    r
}

/// Unbinding a source leaves no occurrence of it, and keeps every other source.
pub proof fn lemma_unbind_removes_source(s: Seq<InputSource>, source: InputSource)
    ensures
        !s.filter(differs_from(source)).contains(source),
        forall|x: InputSource| x != source && s.contains(x) ==> #[trigger] s.filter(
            differs_from(source),
        ).contains(x),
{
    let f = differs_from(source);
    if s.filter(f).contains(source) {
        let k = choose|k: int| 0 <= k < s.filter(f).len() && s.filter(f)[k] == source;
        s.lemma_filter_pred(f, k);
    }
    assert forall|x: InputSource| x != source && s.contains(x) implies #[trigger] s.filter(f).contains(
        x,
    ) by {
        s.lemma_filter_contains_rev(f, x);
    }
}

} // verus!
