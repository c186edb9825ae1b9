use vstd::prelude::*;

use crate::input::action::{ActionBinding, BindingView, InputSource, KeyCode};
use crate::input::{captured_source, InputManager, InputView, RegisteredInput};

verus! {

/// Marks that the settings window is open.
#[derive(Clone, Copy, Debug, PartialEq, Eq, Structural)]
pub struct SettingsOpen;

/// The tab the settings window shows.
#[derive(Clone, Copy, Debug, PartialEq, Eq, Structural)]
pub enum SettingsTab {
    Rendering,
    Inputs,
}

/// State of the settings window.
pub struct SettingsState {
    pub advanced_on: bool,
    pub tab: SettingsTab,
    /// Action currently waiting for a new input to be pressed.
    pub rebinding: Option<String>,
    /// Skips capturing the first frame so the click that opened capture isn't used.
    pub rebinding_skip_frame: bool,
}

impl Default for SettingsState {
    fn default() -> (s: Self)
        ensures
            !s.advanced_on,
            s.tab == SettingsTab::Rendering,
            s.rebinding is None,
            !s.rebinding_skip_frame,
    {
        SettingsState {
            advanced_on: false,
            tab: SettingsTab::Rendering,
            rebinding: None,
            rebinding_skip_frame: false,
        }
    }
}

/// `actions` with every registered action bound to its default, in registration order.
pub open spec fn bind_defaults(
    actions: Map<Seq<char>, BindingView>,
    registered: Seq<(Seq<char>, BindingView)>,
) -> Map<Seq<char>, BindingView>
    decreases registered.len(),
{
    if registered.len() == 0 {
        actions
    } else {
        bind_defaults(actions, registered.drop_last()).insert(
            registered.last().0,
            registered.last().1,
        )
    }
}

/// The name of the action being rebound, as characters.
pub open spec fn rebinding_name(s: &SettingsState) -> Option<Seq<char>> {
    match s.rebinding {
        Some(n) => Some(n@),
        None => None,
    }
}

/// The binding a settings row shows for a registered action: its current binding, or its
/// default when it is unbound.
pub open spec fn shown_binding(v: InputView, name: Seq<char>, default: BindingView) -> BindingView {
    if v.actions.contains_key(name) {
        v.actions[name]
    } else {
        default
    }
}

/// What the rendering settings tab shows.
#[derive(Clone, Copy, Debug, PartialEq, Eq, Structural)]
pub struct RenderSettingsSections {
    pub depth: bool,
    pub raster: bool,
    pub line_width: bool,
    pub image: bool,
    pub anisotropy_amount: bool,
}

/// Which parts of the rendering settings tab are shown: depth and raster settings only in
/// advanced mode, the line width only there and when polygons are drawn as lines, the image
/// settings always, and the anisotropy amount when anisotropy is on.
pub fn render_settings_tab(
    is_advanced: bool,
    polygon_mode_is_line: bool,
    anisotropy_enabled: bool,
) -> (s: RenderSettingsSections)
    ensures
        s.depth == is_advanced,
        s.raster == is_advanced,
        s.line_width == (is_advanced && polygon_mode_is_line),
        s.image,
        s.anisotropy_amount == anisotropy_enabled,
{
    RenderSettingsSections {
        depth: is_advanced,
        raster: is_advanced,
        line_width: is_advanced && polygon_mode_is_line,
        image: true,
        anisotropy_amount: anisotropy_enabled,
    }
}

/// How a depth test compares a fragment's depth with the stored one.
#[derive(Clone, Copy, Debug, PartialEq, Eq, Structural)]
pub enum CompareOp {
    Never,
    Less,
    Equal,
    LessOrEqual,
    Greater,
    NotEqual,
    GreaterOrEqual,
    Always,
}

/// How polygons are drawn.
#[derive(Clone, Copy, Debug, PartialEq, Eq, Structural)]
pub enum PolygonMode {
    Fill,
    Point,
    Line,
}

/// Which faces are culled.
#[derive(Clone, Copy, Debug, PartialEq, Eq, Structural)]
pub enum CullMode {
    Back,
    Front,
    FrontAndBack,
    NoFaces,
}

/// Which winding faces the front.
#[derive(Clone, Copy, Debug, PartialEq, Eq, Structural)]
pub enum FrontFace {
    Clockwise,
    CounterClockwise,
}

/// How textures are sampled.
#[derive(Clone, Copy, Debug, PartialEq, Eq, Structural)]
pub enum FilterMode {
    Linear,
    Nearest,
}

/// The anisotropic filtering levels the tab offers.
#[derive(Clone, Copy, Debug, PartialEq, Eq, Structural)]
pub enum AnisotropyAmount {
    X2,
    X4,
    X8,
    X16,
}

/// Depth test settings.
#[derive(Clone, Copy, Debug, PartialEq, Eq, Structural)]
pub struct DepthSettings {
    pub depth_test_enabled: bool,
    pub depth_compare_op: CompareOp,
}

/// Rasterization settings the tab edits (the line width, a float, is kept by the program).
#[derive(Clone, Copy, Debug, PartialEq, Eq, Structural)]
pub struct RasterizationSettings {
    pub polygon_mode: PolygonMode,
    pub cull_mode: CullMode,
    pub front_face: FrontFace,
}

/// Texture sampling settings.
#[derive(Clone, Copy, Debug, PartialEq, Eq, Structural)]
pub struct ImageSettings {
    pub filter_mode: FilterMode,
    pub anisotropy_enabled: bool,
    pub anisotropy_amount: AnisotropyAmount,
}

/// The rendering settings the tab edits.
#[derive(Clone, Copy, Debug, PartialEq, Eq, Structural)]
pub struct RenderingSettings {
    pub depth_settings: DepthSettings,
    pub rasterization_settings: RasterizationSettings,
    pub image_settings: ImageSettings,
}

/// One interaction with the rendering settings tab.
#[derive(Clone, Copy, Debug, PartialEq, Eq, Structural)]
pub enum RenderSettingsEvent {
    /// The depth test checkbox was clicked.
    ToggleDepthTest,
    /// A depth comparison was chosen.
    SelectDepthCompare(CompareOp),
    /// A polygon mode was chosen.
    SelectPolygonMode(PolygonMode),
    /// A cull mode was chosen.
    SelectCullMode(CullMode),
    /// A front face winding was chosen.
    SelectFrontFace(FrontFace),
    /// A filter mode was chosen.
    SelectFilter(FilterMode),
    /// The anisotropy checkbox was clicked.
    ToggleAnisotropy,
    /// An anisotropy level was chosen.
    SelectAnisotropyAmount(AnisotropyAmount),
}

/// The rendering settings after one interaction with the tab. Depth and raster controls are
/// only shown, and so only act, in advanced mode; the anisotropy level only while anisotropy
/// is on; the other image controls always act.
pub fn render_settings_step(
    settings: RenderingSettings,
    is_advanced: bool,
    event: RenderSettingsEvent,
) -> (r: RenderingSettings)
    ensures
        match event {
            RenderSettingsEvent::ToggleDepthTest => r == (if is_advanced {
                RenderingSettings {
                    depth_settings: DepthSettings {
                        depth_test_enabled: !settings.depth_settings.depth_test_enabled,
                        ..settings.depth_settings
                    },
                    ..settings
                }
            } else {
                settings
            }),
            RenderSettingsEvent::SelectDepthCompare(op) => r == (if is_advanced {
                RenderingSettings {
                    depth_settings: DepthSettings { depth_compare_op: op, ..settings.depth_settings },
                    ..settings
                }
            } else {
                settings
            }),
            RenderSettingsEvent::SelectPolygonMode(m) => r == (if is_advanced {
                RenderingSettings {
                    rasterization_settings: RasterizationSettings {
                        polygon_mode: m,
                        ..settings.rasterization_settings
                    },
                    ..settings
                }
            } else {
                settings
            }),
            RenderSettingsEvent::SelectCullMode(m) => r == (if is_advanced {
                RenderingSettings {
                    rasterization_settings: RasterizationSettings {
                        cull_mode: m,
                        ..settings.rasterization_settings
                    },
                    ..settings
                }
            } else {
                settings
            }),
            RenderSettingsEvent::SelectFrontFace(f) => r == (if is_advanced {
                RenderingSettings {
                    rasterization_settings: RasterizationSettings {
                        front_face: f,
                        ..settings.rasterization_settings
                    },
                    ..settings
                }
            } else {
                settings
            }),
            RenderSettingsEvent::SelectFilter(f) => r == (RenderingSettings {
                image_settings: ImageSettings { filter_mode: f, ..settings.image_settings },
                ..settings
            }),
            RenderSettingsEvent::ToggleAnisotropy => r == (RenderingSettings {
                image_settings: ImageSettings {
                    anisotropy_enabled: !settings.image_settings.anisotropy_enabled,
                    ..settings.image_settings
                },
                ..settings
            }),
            RenderSettingsEvent::SelectAnisotropyAmount(a) => r == (if settings.image_settings.anisotropy_enabled {
                RenderingSettings {
                    image_settings: ImageSettings { anisotropy_amount: a, ..settings.image_settings },
                    ..settings
                }
            } else {
                settings
            }),
        },
{
    let mut r = settings;
    match event {
        RenderSettingsEvent::ToggleDepthTest => {
            if is_advanced {
                r.depth_settings.depth_test_enabled = !settings.depth_settings.depth_test_enabled;
            }
        },
        RenderSettingsEvent::SelectDepthCompare(op) => {
            if is_advanced {
                r.depth_settings.depth_compare_op = op;
            }
        },
        RenderSettingsEvent::SelectPolygonMode(m) => {
            if is_advanced {
                r.rasterization_settings.polygon_mode = m;
            }
        },
        RenderSettingsEvent::SelectCullMode(m) => {
            if is_advanced {
                r.rasterization_settings.cull_mode = m;
            }
        },
        RenderSettingsEvent::SelectFrontFace(f) => {
            if is_advanced {
                r.rasterization_settings.front_face = f;
            }
        },
        RenderSettingsEvent::SelectFilter(f) => {
            r.image_settings.filter_mode = f;
        },
        RenderSettingsEvent::ToggleAnisotropy => {
            r.image_settings.anisotropy_enabled = !settings.image_settings.anisotropy_enabled;
        },
        RenderSettingsEvent::SelectAnisotropyAmount(a) => {
            if settings.image_settings.anisotropy_enabled {
                r.image_settings.anisotropy_amount = a;
            }
        },
    }
    r
}

impl SettingsState {
    /// Shows `tab`.
    pub fn select_tab(&mut self, tab: SettingsTab)
        ensures
            final(self).tab == tab,
            final(self).advanced_on == old(self).advanced_on,
            rebinding_name(final(self)) == rebinding_name(old(self)),
            final(self).rebinding_skip_frame == old(self).rebinding_skip_frame,
    {
        self.tab = tab;
    }

    /// Whether `name` is the action waiting for a new input.
    pub fn is_rebinding(&self, name: &String) -> (r: bool)
        ensures
            r == (rebinding_name(self) == Some(name@)),
    {
        match &self.rebinding {
            Some(n) => *n == *name,
            None => false,
        }
    }

    /// Starts capturing a new input for `action`, skipping the current frame.
    pub fn start_rebinding(&mut self, action: String)
        ensures
            rebinding_name(final(self)) == Some(action@),
            final(self).rebinding_skip_frame,
            final(self).tab == old(self).tab,
            final(self).advanced_on == old(self).advanced_on,
    {
        self.rebinding = Some(action);
        self.rebinding_skip_frame = true;
    }

    /// Unbinds `action` (it keeps an empty binding) and stops any capture.
    pub fn clear_binding(&mut self, input: &mut InputManager, action: String)
        requires
            old(input).wf(),
        ensures
            final(input).wf(),
            final(input)@ == (InputView {
                actions: old(input)@.actions.insert(
                    action@,
                    BindingView { positive: Seq::empty(), negative: Seq::empty() },
                ),
                ..old(input)@
            }),
            final(self).rebinding is None,
            final(self).tab == old(self).tab,
            final(self).advanced_on == old(self).advanced_on,
            final(self).rebinding_skip_frame == old(self).rebinding_skip_frame,
    {
        input.bind_action(action, ActionBinding::new());
        self.rebinding = None;
    }

    /// Binds every registered action to its default again and stops any capture.
    pub fn reset_to_defaults(&mut self, input: &mut InputManager)
        requires
            old(input).wf(),
        ensures
            final(input).wf(),
            final(input)@ == (InputView {
                actions: bind_defaults(old(input)@.actions, old(input)@.registered),
                ..old(input)@
            }),
            final(self).rebinding is None,
            final(self).tab == old(self).tab,
            final(self).advanced_on == old(self).advanced_on,
            final(self).rebinding_skip_frame == old(self).rebinding_skip_frame,
    {
        let mut defaults: Vec<(String, ActionBinding)> = Vec::new();
        let registered = input.registered_inputs();
        let ghost reg = old(input)@.registered;
        let mut i: usize = 0;
        while i < registered.len()
            invariant
                i <= registered@.len(),
                crate::input::registered_view(registered@) == reg,
                defaults@.len() == i,
                forall|k: int|
                    0 <= k < i ==> (#[trigger] defaults@[k]).0@ == reg[k].0 && defaults@[k].1@
                        == reg[k].1,
            decreases registered@.len() - i,
        {
            defaults.push((registered[i].name.to_owned(), registered[i].default.duplicate()));
            i = i + 1;
        }
        let n = defaults.len();
        let mut j: usize = 0;
        while j < n
            invariant
                input.wf(),
                n == defaults@.len(),
                n == reg.len(),
                j <= n,
                forall|k: int|
                    0 <= k < n ==> (#[trigger] defaults@[k]).0@ == reg[k].0 && defaults@[k].1@
                        == reg[k].1,
                input@ == (InputView {
                    actions: bind_defaults(old(input)@.actions, reg.take(j as int)),
                    ..old(input)@
                }),
            decreases n - j,
        {
            let (name, binding) = take_default(&defaults, j);
            input.bind_action(name, binding);
            proof {
                assert(reg.take(j + 1).drop_last() =~= reg.take(j as int));
                assert(reg.take(j + 1).last() == reg[j as int]);
            }
            j = j + 1;
        }
        proof {
            assert(reg.take(n as int) =~= reg);
        }
        self.rebinding = None;
    }

    /// One frame of input capture: the first frame after capture started is skipped; then
    /// `escape` cancels it, and the source [`InputManager::any_source_just_pressed`] returns
    /// becomes the action's only binding.
    pub fn poll_rebinding(&mut self, input: &mut InputManager, escape: KeyCode)
        requires
            old(input).wf(),
        ensures
            final(input).wf(),
            final(self).tab == old(self).tab,
            final(self).advanced_on == old(self).advanced_on,
            match rebinding_name(old(self)) {
                None => final(input)@ == old(input)@ && rebinding_name(final(self)) is None
                    && final(self).rebinding_skip_frame == old(self).rebinding_skip_frame,
                Some(action) => if old(self).rebinding_skip_frame {
                    &&& final(input)@ == old(input)@
                    &&& rebinding_name(final(self)) == Some(action)
                    &&& !final(self).rebinding_skip_frame
                } else if old(input)@.keyboard.just_pressed.contains(escape) {
                    &&& final(input)@ == old(input)@
                    &&& rebinding_name(final(self)) is None
                    &&& !final(self).rebinding_skip_frame
                } else {
                    match old(input).captured() {
                            Some(source) => {
                                &&& final(input)@ == (if old(input)@.actions.contains_key(action) {
                                    InputView {
                                        actions: old(input)@.actions.insert(
                                            action,
                                            BindingView {
                                                positive: seq![source],
                                                negative: Seq::empty(),
                                            },
                                        ),
                                        ..old(input)@
                                    }
                                } else {
                                    old(input)@
                                })
                                &&& rebinding_name(final(self)) is None
                                &&& !final(self).rebinding_skip_frame
                            },
                            None => {
                                &&& final(input)@ == old(input)@
                                &&& rebinding_name(final(self)) == Some(action)
                                &&& !final(self).rebinding_skip_frame
                            },
                        }
                },
            },
    {
        let action = match &self.rebinding {
            Some(a) => a.clone(),
            None => {
                return;
            },
        };
        if self.rebinding_skip_frame {
            self.rebinding_skip_frame = false;
        } else if input.key_just_pressed(escape) {
            self.rebinding = None;
        } else {
            let captured = input.any_source_just_pressed();
            match captured {
                Some(source) => {
                    input.rebind_action(action.as_str(), source);
                    self.rebinding = None;
                },
                None => {},
            }
            assert(captured_source(old(input)@, captured));
        }
    }

    /// The rows of the keybinding grid: each registered action in display order, with its
    /// current binding, or its default when it is unbound.
    pub fn binding_rows(input: &InputManager) -> (rows: Vec<(String, ActionBinding)>)
        requires
            input.wf(),
        ensures
            rows@.len() == input@.registered.len(),
            forall|k: int|
                0 <= k < rows@.len() ==> {
                    &&& (#[trigger] rows@[k]).0@ == input@.registered[k].0
                    &&& rows@[k].1@ == shown_binding(
                        input@,
                        input@.registered[k].0,
                        input@.registered[k].1,
                    )
                },
    {
        let registered = input.registered_inputs();
        let mut rows: Vec<(String, ActionBinding)> = Vec::new();
        let mut i: usize = 0;
        while i < registered.len()
            invariant
                input.wf(),
                crate::input::registered_view(registered@) == input@.registered,
                i <= registered@.len(),
                rows@.len() == i,
                forall|k: int|
                    0 <= k < i ==> {
                        &&& (#[trigger] rows@[k]).0@ == input@.registered[k].0
                        &&& rows@[k].1@ == shown_binding(
                            input@,
                            input@.registered[k].0,
                            input@.registered[k].1,
                        )
                    },
            decreases registered@.len() - i,
        {
            let r = &registered[i];
            let binding = match input.binding(r.name) {
                Some(b) => b.duplicate(),
                None => r.default.duplicate(),
            };
            rows.push((r.name.to_owned(), binding));
            i = i + 1;
        }
        rows
    }
}

/// The source a keybinding row shows: the first positive source, if any.
pub fn shown_source(binding: &ActionBinding) -> (r: Option<InputSource>)
    ensures
        r == (if binding@.positive.len() > 0 {
            Some(binding@.positive[0])
        } else {
            None::<InputSource>
        }),
{
    if binding.positive.len() > 0 {
        Some(binding.positive[0])
    } else {
        None
    }
}

/// A copy of the `j`-th (name, binding) pair.
fn take_default(defaults: &Vec<(String, ActionBinding)>, j: usize) -> (r: (String, ActionBinding))
    requires
        j < defaults@.len(),
    ensures
        r.0@ == defaults@[j as int].0@,
        r.1@ == defaults@[j as int].1@,
{
    (defaults[j].0.clone(), defaults[j].1.duplicate())
}

} // verus!
