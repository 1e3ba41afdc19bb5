use mc_client::entities::{EntityLightningBolt, EntityWitherSkull, FireballParticleType, EntityDragonFireball};

#[test]
fn constructor_matches_vanilla_initial_state_ranges() {
    let bolt = EntityLightningBolt::new(7, false);
    assert_eq!(bolt.entityId, 7);
    assert_eq!(bolt.lightningState, 2);
    assert!((1..=3).contains(&bolt.boltLivingTime));
}

#[test]
fn bolt_counts_down_and_spends_flashes() {
    let mut bolt = EntityLightningBolt::new(1, true);
    bolt.boltLivingTime = 1;
    assert!(bolt.tickWithRoll(0));
    assert_eq!(bolt.lightningState, 1);
    assert!(bolt.tickWithRoll(0));
    assert_eq!(bolt.lightningState, 0);
    // below -0: a flash is spent and the state restarts at 1
    assert!(bolt.tickWithRoll(0));
    assert_eq!((bolt.lightningState, bolt.boltLivingTime), (1, 0));
    assert!(bolt.tickWithRoll(9));
    // no flashes left: the bolt dies
    assert!(!bolt.tickWithRoll(9));
    assert!(bolt.isDead);
    assert_eq!(bolt.ticksExisted, 5);
    let mut waiting = EntityLightningBolt::new(2, false);
    waiting.lightningState = 0;
    assert!(!waiting.tickWithRoll(9));
    assert_eq!(waiting.lightningState, -1);
    assert!(!waiting.isDead);
}

#[test]
fn fireball_constants() {
    assert_eq!(EntityDragonFireball::PARTICLE, FireballParticleType::DragonBreath);
    assert_eq!(EntityWitherSkull::INVULNERABLE_DATA_INDEX, 6);
}
