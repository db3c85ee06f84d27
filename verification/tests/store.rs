use entity_store::ecs::ArchMarker;
use entity_store::ecs::ArchStorage;
use entity_store::ecs::DeadEntityError;
use entity_store::ecs::World;

struct EntHirFunction;

impl ArchMarker for EntHirFunction {
    fn cat_spec() -> u64 {
        1
    }

    fn category() -> u64 {
        1
    }
}

struct EntStatement;

impl ArchMarker for EntStatement {
    fn cat_spec() -> u64 {
        2
    }

    fn category() -> u64 {
        2
    }
}

#[derive(Debug)]
struct HirFunctionBase {
    name: &'static str,
}

#[test]
fn basic_use_test() {
    // Create the world
    let mut world = World::new();

    // Spawn some entities
    let func_1 = world.spawn::<EntHirFunction>();
    let func_2 = world.spawn::<EntHirFunction>();
    let func_3 = world.spawn::<EntHirFunction>();
    let func_4 = world.spawn::<EntHirFunction>();

    // Attach the entities to a storage
    let mut function_base: ArchStorage<EntHirFunction, HirFunctionBase> =
        ArchStorage::new(&mut world);
    function_base.insert(&world, func_2, HirFunctionBase { name: "func_2" });
    function_base.insert(&world, func_1, HirFunctionBase { name: "func_1" });
    function_base.insert(&world, func_4, HirFunctionBase { name: "func_4" });

    // Check accessors
    assert_eq!(function_base.try_get(func_1).unwrap().name, "func_1");
    assert_eq!(function_base.try_get(func_2).unwrap().name, "func_2");
    assert!(function_base.try_get(func_3).is_err());
    assert_eq!(function_base.try_get(func_4).unwrap().name, "func_4");

    function_base.try_get_mut(func_4).unwrap().name = "whee";
    assert_eq!(function_base.try_get(func_4).unwrap().name, "whee");

    function_base.remove(&world, func_4);
    assert!(function_base.try_get(func_4).is_err());
}

#[test]
fn default_store_is_empty() {
    let mut world = World::default();
    assert_eq!(world.category_offset::<EntHirFunction>(), 0);
    assert_eq!(world.category_slots::<EntHirFunction>(), 0);
    let e = world.spawn::<EntHirFunction>();
    assert_eq!(e.id(), 1);
}

#[test]
fn spawned_ids_are_sequential_per_category() {
    let mut world = World::new();
    let a1 = world.spawn::<EntHirFunction>();
    let a2 = world.spawn::<EntHirFunction>();
    let b1 = world.spawn::<EntStatement>();
    let a3 = world.spawn::<EntHirFunction>();
    let b2 = world.spawn::<EntStatement>();
    assert_eq!(a1.id(), 1);
    assert_eq!(a2.id(), 2);
    assert_eq!(a3.id(), 3);
    assert_eq!(b1.id(), 1);
    assert_eq!(b2.id(), 2);
}

#[test]
fn liveness_follows_spawn_and_despawn() {
    let mut world = World::new();
    let e1 = world.spawn::<EntHirFunction>();
    let e2 = world.spawn::<EntHirFunction>();
    assert!(world.is_alive(e1));
    assert!(world.is_alive(e2));

    assert!(world.try_despawn(e1).is_ok());
    assert!(!world.is_alive(e1));
    assert!(world.is_alive(e2));

    // A second despawn of the same handle reports a dead entity.
    assert_eq!(world.try_despawn(e1), Err(DeadEntityError));

    // A handle of a category the store never saw is not alive either.
    let mut other = World::new();
    let stray = other.spawn::<EntStatement>();
    assert!(!world.is_alive(stray));
    assert_eq!(world.try_despawn(stray), Err(DeadEntityError));
}

#[test]
fn boundary_despawn_compacts_table() {
    let mut world = World::new();
    let e1 = world.spawn::<EntHirFunction>();
    let e2 = world.spawn::<EntHirFunction>();
    let e3 = world.spawn::<EntHirFunction>();
    assert_eq!(e1.id(), 1);
    assert_eq!(e2.id(), 2);
    assert_eq!(e3.id(), 3);
    assert_eq!(world.category_offset::<EntHirFunction>(), 0);
    assert_eq!(world.category_slots::<EntHirFunction>(), 3);

    // Despawn the front boundary: the offset advances by 1 and the slot
    // sequence shrinks by 1.
    world.despawn(e1);
    assert_eq!(world.category_offset::<EntHirFunction>(), 1);
    assert_eq!(world.category_slots::<EntHirFunction>(), 2);

    // Despawn the new back boundary: the slot sequence shrinks again.
    world.despawn(e3);
    assert_eq!(world.category_offset::<EntHirFunction>(), 1);
    assert_eq!(world.category_slots::<EntHirFunction>(), 1);

    assert!(!world.is_alive(e1));
    assert!(world.is_alive(e2));
    assert!(!world.is_alive(e3));
}

#[test]
fn boundary_despawn_trims_whole_dead_run() {
    let mut world = World::new();
    let e1 = world.spawn::<EntHirFunction>();
    let e2 = world.spawn::<EntHirFunction>();
    let e3 = world.spawn::<EntHirFunction>();

    // Kill the interior first: it stays allocated as a hole.
    world.despawn(e2);
    assert_eq!(world.category_slots::<EntHirFunction>(), 3);

    // Now kill the front boundary: the trimmed run covers the hole too.
    world.despawn(e1);
    assert_eq!(world.category_offset::<EntHirFunction>(), 2);
    assert_eq!(world.category_slots::<EntHirFunction>(), 1);
    assert!(world.is_alive(e3));
}

#[test]
fn interior_despawn_keeps_length() {
    let mut world = World::new();
    let e1 = world.spawn::<EntHirFunction>();
    let e2 = world.spawn::<EntHirFunction>();
    let e3 = world.spawn::<EntHirFunction>();

    world.despawn(e2);
    assert_eq!(world.category_offset::<EntHirFunction>(), 0);
    assert_eq!(world.category_slots::<EntHirFunction>(), 3);
    assert!(world.is_alive(e1));
    assert!(!world.is_alive(e2));
    assert!(world.is_alive(e3));
}

#[test]
fn ids_reflect_table_span_after_trailing_trim() {
    let mut world = World::new();
    let e1 = world.spawn::<EntHirFunction>();
    let e2 = world.spawn::<EntHirFunction>();
    assert_eq!(e2.id(), 2);
    world.despawn(e2);
    // The back boundary was trimmed, so the span shrank and the next spawn
    // names the same numeric id again.
    let e2b = world.spawn::<EntHirFunction>();
    assert_eq!(e2b.id(), 2);
    assert!(world.is_alive(e1));
    assert!(world.is_alive(e2b));
}

#[test]
fn insert_lookup_round_trip() {
    let mut world = World::new();
    let e1 = world.spawn::<EntHirFunction>();
    let e2 = world.spawn::<EntHirFunction>();
    let mut column: ArchStorage<EntHirFunction, u32> = ArchStorage::new(&mut world);

    assert_eq!(column.insert(&world, e1, 11), None);
    assert_eq!(*column.try_get(e1).unwrap(), 11);

    // Overwriting returns the previous value.
    assert_eq!(column.insert(&world, e1, 12), Some(11));
    assert_eq!(*column.try_get(e1).unwrap(), 12);

    // A live entity without a value reports a missing value, not death.
    assert!(world.is_alive(e2));
    assert!(column.try_get(e2).is_err());

    // After a remove, the lookup reports a missing value again.
    assert_eq!(column.remove(&world, e1), Some(12));
    assert!(column.try_get(e1).is_err());
    assert_eq!(column.remove(&world, e1), None);
}

#[test]
fn inserting_into_dead_entity_fails() {
    let mut world = World::new();
    let e1 = world.spawn::<EntHirFunction>();
    let mut column: ArchStorage<EntHirFunction, u32> = ArchStorage::new(&mut world);
    world.despawn(e1);
    assert_eq!(column.try_insert(&world, e1, 5), Err(DeadEntityError));
    assert_eq!(column.try_remove(&world, e1), Err(DeadEntityError));
}

#[test]
fn full_cleanup_reclaims_values_of_despawned_entities() {
    let mut world = World::new();
    let e1 = world.spawn::<EntHirFunction>();
    let e2 = world.spawn::<EntHirFunction>();
    let e3 = world.spawn::<EntHirFunction>();
    let mut column: ArchStorage<EntHirFunction, u32> = ArchStorage::new(&mut world);
    column.insert(&world, e1, 10);
    column.insert(&world, e2, 20);
    column.insert(&world, e3, 30);

    // Despawn the interior entity without removing its value: the table
    // does not compact, and the stale value lingers in the column.
    world.despawn(e2);
    assert_eq!(*column.try_get(e2).unwrap(), 20);

    // A full cleanup reclaims exactly the values of despawned entities.
    column.full_cleanup(&world);
    assert!(column.try_get(e2).is_err());
    assert_eq!(*column.try_get(e1).unwrap(), 10);
    assert_eq!(*column.try_get(e3).unwrap(), 30);
}

#[test]
fn cleanup_capacity_drops_entries_outside_window() {
    let mut world = World::new();
    let e1 = world.spawn::<EntHirFunction>();
    let e2 = world.spawn::<EntHirFunction>();
    let mut column: ArchStorage<EntHirFunction, u32> = ArchStorage::new(&mut world);
    column.insert(&world, e1, 10);
    column.insert(&world, e2, 20);

    // Despawning the front boundary advances the table offset; the column
    // lags until it resynchronizes, then drops the orphaned leading entry.
    world.despawn(e1);
    column.cleanup_capacity(&world);
    assert!(column.try_get(e1).is_err());
    assert_eq!(*column.try_get(e2).unwrap(), 20);
}

#[test]
fn clear_drops_all_entries() {
    let mut world = World::new();
    let e1 = world.spawn::<EntHirFunction>();
    let mut column: ArchStorage<EntHirFunction, u32> = ArchStorage::new(&mut world);
    column.insert(&world, e1, 10);
    column.clear();
    assert!(column.try_get(e1).is_err());
    assert!(world.is_alive(e1));
}

#[test]
fn error_messages_name_the_failure() {
    assert_eq!(DeadEntityError.message(), "specified entity is dead");
    assert_eq!(
        entity_store::ecs::MissingValueError.message(),
        "specified entity is missing"
    );
}
