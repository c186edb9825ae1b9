use vstd::prelude::*;

use crate::ecs::component::ComponentTypeId;

verus! {

/// Metadata of a registered component type: its id and its name (used to serialize it).
pub struct ComponentRegistration {
    pub type_id: ComponentTypeId,
    pub name: String,
}

/// The position of the first registration of type `t`, if any.
pub open spec fn first_with_type(regs: Seq<ComponentRegistration>, t: ComponentTypeId) -> Option<int> {
    if exists|i: int| 0 <= i < regs.len() && regs[i].type_id == t {
        Some(
            choose|i: int|
                0 <= i < regs.len() && regs[i].type_id == t && forall|j: int|
                    0 <= j < i ==> regs[j].type_id != t,
        )
    } else {
        None
    }
}

/// The position of the first registration named `name`, if any.
pub open spec fn first_with_name(regs: Seq<ComponentRegistration>, name: Seq<char>) -> Option<int> {
    if exists|i: int| 0 <= i < regs.len() && regs[i].name@ == name {
        Some(
            choose|i: int|
                0 <= i < regs.len() && regs[i].name@ == name && forall|j: int|
                    0 <= j < i ==> regs[j].name@ != name,
        )
    } else {
        None
    }
}

pub(crate) proof fn lemma_first_with_type(regs: Seq<ComponentRegistration>, t: ComponentTypeId, i: int)
    requires
        0 <= i < regs.len(),
        regs[i].type_id == t,
        forall|j: int| 0 <= j < i ==> regs[j].type_id != t,
    ensures
        first_with_type(regs, t) == Some(i),
{
    let k = choose|k: int|
        0 <= k < regs.len() && regs[k].type_id == t && forall|j: int| 0 <= j < k ==> regs[j].type_id != t;
    assert(k == i);
}

pub(crate) proof fn lemma_first_with_name(regs: Seq<ComponentRegistration>, name: Seq<char>, i: int)
    requires
        0 <= i < regs.len(),
        regs[i].name@ == name,
        forall|j: int| 0 <= j < i ==> regs[j].name@ != name,
    ensures
        first_with_name(regs, name) == Some(i),
{
    let k = choose|k: int|
        0 <= k < regs.len() && regs[k].name@ == name && forall|j: int|
            0 <= j < k ==> regs[j].name@ != name;
    assert(k == i);
}

/// Looks up the registration of a component type by its id.
pub fn find_component_registration(regs: &Vec<ComponentRegistration>, t: ComponentTypeId) -> (r:
    Option<&ComponentRegistration>)
    ensures
        match r {
            Some(reg) => first_with_type(regs@, t) is Some && *reg == regs@[first_with_type(
                regs@,
                t,
            ).unwrap()],
            None => first_with_type(regs@, t) is None,
        },
{
    let mut i: usize = 0;
    while i < regs.len()
        invariant
            i <= regs@.len(),
            forall|j: int| 0 <= j < i ==> regs@[j].type_id != t,
        decreases regs@.len() - i,
    {
        if regs[i].type_id == t {
            proof {
                lemma_first_with_type(regs@, t, i as int);
            }
            return Some(&regs[i]);
        }
        i = i + 1;
    }
    None
}

/// Looks up the registration of a component type by its name.
pub fn find_component_registration_by_name<'a>(
    regs: &'a Vec<ComponentRegistration>,
    name: &String,
) -> (r: Option<&'a ComponentRegistration>)
    ensures
        match r {
            Some(reg) => first_with_name(regs@, name@) is Some && *reg == regs@[first_with_name(
                regs@,
                name@,
            ).unwrap()],
            None => first_with_name(regs@, name@) is None,
        },
{
    let mut i: usize = 0;
    while i < regs.len()
        invariant
            i <= regs@.len(),
            forall|j: int| 0 <= j < i ==> regs@[j].name@ != name@,
        decreases regs@.len() - i,
    {
        if regs[i].name == *name {
            proof {
                lemma_first_with_name(regs@, name@, i as int);
            }
            return Some(&regs[i]);
        }
        i = i + 1;
    }
    None
}

} // verus!
