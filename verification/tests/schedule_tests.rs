use engine_core::ecs::systems::{
    run_fixed_update, run_system, sort_by_priority, FixedSystemFn, FixedUpdateSystem, HasPriority,
    LateUpdateSystem, Schedule, StartSystem, SystemFn, UpdateSystem, MAX_FIXED_STEPS,
};

struct Record(u32, bool);

impl SystemFn<Vec<u32>> for Record {
    fn call(&self, world: &mut Vec<u32>) -> bool {
        world.push(self.0);
        self.1
    }
}

struct Step(u32);

impl FixedSystemFn<Vec<(u32, u64)>, u64> for Step {
    fn call(&self, world: &mut Vec<(u32, u64)>, delta: u64) -> bool {
        world.push((self.0, delta));
        true
    }
}

fn update(name: &'static str, priority: u32, id: u32) -> UpdateSystem<Record> {
    UpdateSystem { name, func: Record(id, true), priority }
}

#[test]
fn tick_runs_one_step_per_whole_timestep() {
    let mut s = Schedule::new(100);
    assert_eq!(s.tick(250), 2);
    assert_eq!(s.accumulator(), 50);
    assert_eq!(s.tick(49), 0);
    assert_eq!(s.accumulator(), 99);
    assert_eq!(s.tick(1), 1);
    assert_eq!(s.accumulator(), 0);
}

#[test]
fn tick_caps_steps_and_drops_the_rest() {
    let mut s = Schedule::new(10);
    assert_eq!(s.tick(1_000), MAX_FIXED_STEPS);
    assert_eq!(s.accumulator(), 0);
    assert_eq!(s.tick(79), 7);
    assert_eq!(s.accumulator(), 9);
    assert_eq!(s.tick(71), 8);
    assert_eq!(s.accumulator(), 0);
}

#[test]
fn zero_timestep_runs_the_cap() {
    let mut s = Schedule::new(0);
    assert_eq!(s.tick(0), 8);
    assert_eq!(s.accumulator(), 0);
}

#[test]
fn sort_is_stable_by_priority() {
    let systems = vec![update("a", 2, 1), update("b", 1, 2), update("c", 2, 3), update("d", 0, 4)];
    let sorted = sort_by_priority(systems);
    let names: Vec<&str> = sorted.iter().map(|s| s.name).collect();
    assert_eq!(names, vec!["d", "b", "a", "c"]);
    let priorities: Vec<u32> = sorted.iter().map(|s| s.priority()).collect();
    assert_eq!(priorities, vec![0, 1, 2, 2]);
}

#[test]
fn run_system_runs_all_in_order_despite_errors() {
    let systems = vec![
        update("a", 0, 1),
        UpdateSystem { name: "b", func: Record(2, false), priority: 1 },
        update("c", 2, 3),
    ];
    let mut world: Vec<u32> = Vec::new();
    run_system(&mut world, &systems);
    assert_eq!(world, vec![1, 2, 3]);
    let late = vec![LateUpdateSystem { name: "l", func: Record(9, true), priority: 0 }];
    run_system(&mut world, &late);
    let start = vec![StartSystem { name: "s", func: Record(8, true), priority: 0 }];
    run_system(&mut world, &start);
    assert_eq!(world, vec![1, 2, 3, 9, 8]);
}

#[test]
fn fixed_update_passes_the_timestep() {
    let systems = vec![
        FixedUpdateSystem { name: "p", func: Step(1), priority: 0 },
        FixedUpdateSystem { name: "q", func: Step(2), priority: 0 },
    ];
    let mut world: Vec<(u32, u64)> = Vec::new();
    run_fixed_update(&mut world, &systems, 16u64);
    assert_eq!(world, vec![(1, 16), (2, 16)]);
}
