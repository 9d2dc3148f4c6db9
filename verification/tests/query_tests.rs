use archetype_ecs::archetype::Archetype;
use archetype_ecs::query::{CachedQueryResult, QuerySignature};
use std::any::TypeId;

fn archetype_with(types: &[TypeId]) -> Archetype {
    let mut arch = Archetype::new(types.to_vec());
    for &t in types {
        if t == TypeId::of::<u8>() {
            arch.register_component::<u8>();
        } else if t == TypeId::of::<u16>() {
            arch.register_component::<u16>();
        } else if t == TypeId::of::<u32>() {
            arch.register_component::<u32>();
        }
    }
    arch
}

#[test]
fn signature_needs_required_and_rejects_excluded() {
    let mut sig = QuerySignature::default();
    sig.required.push(TypeId::of::<u8>());
    sig.excluded.push(TypeId::of::<u16>());
    assert!(sig.matches(&archetype_with(&[TypeId::of::<u8>()])));
    assert!(sig.matches(&archetype_with(&[TypeId::of::<u8>(), TypeId::of::<u32>()])));
    assert!(!sig.matches(&archetype_with(&[TypeId::of::<u8>(), TypeId::of::<u16>()])));
    assert!(!sig.matches(&archetype_with(&[TypeId::of::<u32>()])));
    assert!(QuerySignature::new().matches(&archetype_with(&[])));
}

#[test]
fn cache_update_scans_only_new_archetypes() {
    let mut sig = QuerySignature::new();
    sig.required.push(TypeId::of::<u8>());
    let mut archetypes = vec![
        archetype_with(&[]),
        archetype_with(&[TypeId::of::<u8>()]),
        archetype_with(&[TypeId::of::<u16>()]),
    ];
    let mut cache = CachedQueryResult::new(sig.clone(), &archetypes);
    assert_eq!(cache.matches, vec![1]);
    assert_eq!(cache.seen_archetypes, 3);

    archetypes.push(archetype_with(&[TypeId::of::<u8>(), TypeId::of::<u16>()]));
    archetypes.push(archetype_with(&[TypeId::of::<u32>()]));
    archetypes.push(archetype_with(&[TypeId::of::<u8>(), TypeId::of::<u32>()]));
    cache.update(&archetypes);
    assert_eq!(cache.matches, vec![1, 3, 5]);
    assert_eq!(cache.seen_archetypes, 6);

    let fresh = CachedQueryResult::new(sig, &archetypes);
    assert_eq!(fresh.matches, cache.matches);

    cache.update(&archetypes[..2]);
    assert_eq!(cache.matches, vec![1, 3, 5]);
    assert_eq!(cache.seen_archetypes, 6);
}
