use engine_core::client::hierarchy::hierarchy_action;
use engine_core::client::menu::{main_menu_action, MenuItem, MenuOutcome};
use engine_core::client::settings::{
    render_settings_step, AnisotropyAmount, CompareOp, CullMode, DepthSettings, FilterMode,
    FrontFace, ImageSettings, PolygonMode, RasterizationSettings, RenderSettingsEvent,
    RenderingSettings,
};
use engine_core::ecs::commands::Commands;
use engine_core::ecs::systems::{
    FixedSystemFn, FixedUpdateSystem, LateUpdateSystem, Schedule, SystemFn, UpdateSystem,
};
use engine_core::ecs::world::World;
use engine_core::entity::Entity;

struct Mark(u32, bool);

impl SystemFn<Vec<u32>> for Mark {
    fn call(&self, world: &mut Vec<u32>) -> bool {
        world.push(self.0);
        self.1
    }
}

struct Step(u32);

impl FixedSystemFn<Vec<u32>, u64> for Step {
    fn call(&self, world: &mut Vec<u32>, _delta: u64) -> bool {
        world.push(self.0);
        true
    }
}

#[test]
fn frame_runs_fixed_publish_then_stages_in_order() {
    let mut schedule = Schedule::new(10);
    let mut world: Vec<u32> = Vec::new();
    let fixed = vec![FixedUpdateSystem { name: "f", func: Step(1), priority: 0 }];
    let update = vec![UpdateSystem { name: "u", func: Mark(3, false), priority: 0 }];
    let late = vec![LateUpdateSystem { name: "l", func: Mark(4, true), priority: 0 }];
    let r = schedule.run_frame(&mut world, 25, &fixed, 10u64, &Mark(2, true), &Mark(9, true), &update, &late);
    assert_eq!(r, (2, true));
    assert_eq!(world, vec![1, 1, 2, 9, 3, 9, 4, 9]);
    assert_eq!(schedule.accumulator(), 5);
}

#[test]
fn failed_propagation_ends_the_frame() {
    let mut schedule = Schedule::new(10);
    let mut world: Vec<u32> = Vec::new();
    let fixed: Vec<FixedUpdateSystem<Step>> = Vec::new();
    let update = vec![UpdateSystem { name: "u", func: Mark(3, true), priority: 0 }];
    let late = vec![LateUpdateSystem { name: "l", func: Mark(4, true), priority: 0 }];
    let r = schedule.run_frame(&mut world, 5, &fixed, 10u64, &Mark(2, true), &Mark(9, false), &update, &late);
    assert_eq!(r, (0, false));
    assert_eq!(world, vec![2, 9]);
}

fn settings() -> RenderingSettings {
    RenderingSettings {
        depth_settings: DepthSettings { depth_test_enabled: true, depth_compare_op: CompareOp::Less },
        rasterization_settings: RasterizationSettings {
            polygon_mode: PolygonMode::Fill,
            cull_mode: CullMode::Back,
            front_face: FrontFace::CounterClockwise,
        },
        image_settings: ImageSettings {
            filter_mode: FilterMode::Linear,
            anisotropy_enabled: false,
            anisotropy_amount: AnisotropyAmount::X4,
        },
    }
}

#[test]
fn depth_and_raster_only_change_in_advanced_mode() {
    let s = settings();
    assert_eq!(render_settings_step(s, false, RenderSettingsEvent::ToggleDepthTest), s);
    assert_eq!(render_settings_step(s, false, RenderSettingsEvent::SelectCullMode(CullMode::Front)), s);
    let t = render_settings_step(s, true, RenderSettingsEvent::ToggleDepthTest);
    assert!(!t.depth_settings.depth_test_enabled);
    let u = render_settings_step(s, true, RenderSettingsEvent::SelectPolygonMode(PolygonMode::Line));
    assert_eq!(u.rasterization_settings.polygon_mode, PolygonMode::Line);
}

#[test]
fn anisotropy_amount_needs_anisotropy_on() {
    let s = settings();
    let a = render_settings_step(s, false, RenderSettingsEvent::SelectAnisotropyAmount(AnisotropyAmount::X16));
    assert_eq!(a, s);
    let on = render_settings_step(s, false, RenderSettingsEvent::ToggleAnisotropy);
    assert!(on.image_settings.anisotropy_enabled);
    let b = render_settings_step(on, false, RenderSettingsEvent::SelectAnisotropyAmount(AnisotropyAmount::X16));
    assert_eq!(b.image_settings.anisotropy_amount, AnisotropyAmount::X16);
    let f = render_settings_step(s, false, RenderSettingsEvent::SelectFilter(FilterMode::Nearest));
    assert_eq!(f.image_settings.filter_mode, FilterMode::Nearest);
    assert_eq!(f.depth_settings, s.depth_settings);
}

#[test]
fn main_menu_decisions() {
    assert_eq!(main_menu_action(true, Some(MenuItem::Exit)), MenuOutcome::Stay);
    assert_eq!(main_menu_action(false, None), MenuOutcome::Stay);
    assert_eq!(main_menu_action(false, Some(MenuItem::Continue)), MenuOutcome::StartPlaying);
    assert_eq!(main_menu_action(false, Some(MenuItem::NewGame)), MenuOutcome::StartPlaying);
    assert_eq!(main_menu_action(false, Some(MenuItem::Settings)), MenuOutcome::OpenSettings);
    assert_eq!(main_menu_action(false, Some(MenuItem::Exit)), MenuOutcome::Quit);
}

#[test]
fn hierarchy_spawns_then_deletes() {
    let mut world: World<String, u32> = World::new();
    let a = world.spawn();
    let mut commands: Commands<String, u32> = Commands::new(world.entity_counter());
    hierarchy_action(&mut commands, true, Some(a));
    commands.apply(&mut world);
    assert!(!world.contains(a));
    assert!(world.contains(Entity { index: 1, generation: 0 }));
    assert_eq!(world.entity_count(), 1);
}
