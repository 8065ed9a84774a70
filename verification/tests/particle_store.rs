use falling_sand::error::SimError;
use falling_sand::material::{Color, MaterialKind};
use falling_sand::particle::Particle;
use falling_sand::store::ParticleStore;

fn grain(lifetime: u32) -> Particle {
    Particle { kind: MaterialKind::Sand, color: Color { r: 1, g: 2, b: 3, a: 4 }, lifetime }
}

#[test]
fn new_store_is_empty() {
    let s = ParticleStore::new();
    assert_eq!(s.len(), 0);
}

#[test]
fn create_then_get_returns_the_record() {
    let mut s = ParticleStore::new();
    let a = s.create(grain(1));
    let b = s.create(grain(2));
    assert_ne!(a, b);
    assert_eq!(s.len(), 2);
    assert_eq!(s.get(a), Ok(grain(1)));
    assert_eq!(s.get(b), Ok(grain(2)));
    assert!(s.is_live(a));
    assert!(s.is_live(b));
}

#[test]
fn mutate_updates_in_place() {
    let mut s = ParticleStore::new();
    let a = s.create(grain(7));
    let b = s.create(grain(9));
    let r = s.mutate(a, |p| Particle { lifetime: p.lifetime - 1, ..p });
    assert_eq!(r, Ok(()));
    assert_eq!(s.get(a), Ok(grain(6)));
    assert_eq!(s.get(b), Ok(grain(9)));
    assert_eq!(s.len(), 2);
}

#[test]
fn set_replaces_the_record() {
    let mut s = ParticleStore::new();
    let a = s.create(grain(7));
    assert_eq!(s.set(a, grain(40)), Ok(()));
    assert_eq!(s.get(a), Ok(grain(40)));
}

#[test]
fn destroyed_handle_is_invalid_for_every_operation() {
    let mut s = ParticleStore::new();
    let a = s.create(grain(1));
    let b = s.create(grain(2));
    assert_eq!(s.destroy(a), Ok(()));
    assert_eq!(s.len(), 1);
    assert!(!s.is_live(a));
    assert_eq!(s.get(a), Err(SimError::InvalidHandle));
    assert_eq!(s.mutate(a, |p| p), Err(SimError::InvalidHandle));
    assert_eq!(s.set(a, grain(3)), Err(SimError::InvalidHandle));
    assert_eq!(s.destroy(a), Err(SimError::InvalidHandle));
    // The other record is untouched.
    assert_eq!(s.get(b), Ok(grain(2)));
    assert_eq!(s.len(), 1);
}

#[test]
fn stale_handle_stays_invalid_after_its_slot_is_used_again() {
    let mut s = ParticleStore::new();
    let a = s.create(grain(1));
    assert_eq!(s.destroy(a), Ok(()));
    let b = s.create(grain(2));
    assert_ne!(a, b);
    assert_eq!(s.get(a), Err(SimError::InvalidHandle));
    assert_eq!(s.get(b), Ok(grain(2)));
    assert_eq!(s.destroy(a), Err(SimError::InvalidHandle));
    assert_eq!(s.get(b), Ok(grain(2)));
    assert_eq!(s.len(), 1);
}

#[test]
fn handle_of_another_store_is_invalid_in_an_empty_store() {
    let mut other = ParticleStore::new();
    let h = other.create(grain(1));
    let s = ParticleStore::new();
    assert_eq!(s.get(h), Err(SimError::InvalidHandle));
    assert!(!s.is_live(h));
}

#[test]
fn many_creates_and_destroys_keep_the_count() {
    let mut s = ParticleStore::new();
    let mut live = Vec::new();
    for round in 0..50u32 {
        let h = s.create(grain(round));
        assert!(!live.contains(&h));
        live.push(h);
        if round % 3 == 2 {
            let gone = live.remove(0);
            assert_eq!(s.destroy(gone), Ok(()));
            assert_eq!(s.get(gone), Err(SimError::InvalidHandle));
        }
        assert_eq!(s.len(), live.len());
    }
    for h in &live {
        assert!(s.is_live(*h));
    }
}
