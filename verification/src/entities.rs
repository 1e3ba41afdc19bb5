use vstd::prelude::*;
use rand::Rng;

verus! {

/// A leash knot on a fence post (its geometry lives with the floating-point
/// entity state).
pub struct EntityLeashKnot;

impl EntityLeashKnot {
    /// Width of the knot, in pixels.
    pub const WIDTH_PIXELS: i32 = 9;
    /// Height of the knot, in pixels.
    pub const HEIGHT_PIXELS: i32 = 9;
}

/// The particle a fireball leaves behind.
#[derive(Debug, Clone, Copy, PartialEq, Eq)]
pub enum FireballParticleType {
    SmokeNormal,
    DragonBreath,
}

/// Constants shared by the fireballs.
pub struct EntityFireball;

impl EntityFireball {
    /// Packed light value of a fireball, which always renders full-bright.
    pub const PACKED_FULL_BRIGHT: u32 = 15_728_880;
}

/// A ghast's fireball.
pub struct EntityLargeFireball;

impl EntityLargeFireball {
    pub const FIERY: bool = true;
    pub const COLLIDABLE: bool = true;
    pub const PARTICLE: FireballParticleType = FireballParticleType::SmokeNormal;
}

/// A blaze's fireball.
pub struct EntitySmallFireball;

impl EntitySmallFireball {
    pub const FIERY: bool = true;
    pub const COLLIDABLE: bool = false;
    pub const PARTICLE: FireballParticleType = FireballParticleType::SmokeNormal;
}

/// The ender dragon's fireball.
pub struct EntityDragonFireball;

impl EntityDragonFireball {
    pub const FIERY: bool = false;
    pub const COLLIDABLE: bool = false;
    pub const PARTICLE: FireballParticleType = FireballParticleType::DragonBreath;
}

/// A wither's skull.
pub struct EntityWitherSkull;

impl EntityWitherSkull {
    pub const FIERY: bool = false;
    pub const COLLIDABLE: bool = false;
    pub const PARTICLE: FireballParticleType = FireballParticleType::SmokeNormal;
    /// Data index of the flag that makes the skull invulnerable.
    pub const INVULNERABLE_DATA_INDEX: u8 = 6;
}

/// A random integer in `[low, high]`, from the thread's generator
/// (`rand::Rng::gen_range` on an inclusive range). Only its bounds are
/// stated.
#[verifier::external_body]
fn random_in(low: i32, high: i32) -> (r: i32)
    requires
        low <= high,
    ensures
        low <= r <= high,
{
    rand::thread_rng().gen_range(low..=high)
}

/// A random 64-bit integer from the thread's generator
/// (`rand::Rng::gen`). Nothing is stated of its value.
#[verifier::external_body]
fn random_i64() -> (r: i64) {
    rand::thread_rng().gen()
}

/// The flashing and lifetime counters of a lightning bolt (its position is
/// floating-point entity state, kept beside it).
#[derive(Debug, Clone, Copy, PartialEq, Eq)]
pub struct EntityLightningBolt {
    pub entityId: i32,
    pub lightningState: i32,
    pub boltVertex: i64,
    pub boltLivingTime: i32,
    pub effectOnly: bool,
    pub ticksExisted: i32,
    pub isDead: bool,
}

/// Next `(lightningState, boltLivingTime, isDead)` of a bolt, given the
/// roll `roll` (0 to 9): the state counts down; once negative the bolt dies
/// if it has no flashes left, and otherwise, when the state has fallen below
/// `-roll`, spends a flash and restarts at 1.
pub open spec fn bolt_step(state: i32, living: i32, dead: bool, roll: i32) -> (i32, i32, bool) {
    let s = state - 1;
    if s < 0 {
        if living == 0 {
            (s as i32, living, true)
        } else if s < -roll {
            (1, (living - 1) as i32, dead)
        } else {
            (s as i32, living, dead)
        }
    } else {
        (s as i32, living, dead)
    }
}

impl EntityLightningBolt {
    /// A new bolt: state 2, a random vertex seed, one to three flashes.
    pub fn new(entityId: i32, effectOnly: bool) -> (b: EntityLightningBolt)
        ensures
            b.entityId == entityId,
            b.effectOnly == effectOnly,
            b.lightningState == 2,
            1 <= b.boltLivingTime <= 3,
            b.ticksExisted == 0,
            !b.isDead,
    {
        let boltVertex = random_i64();
        let boltLivingTime = random_in(1, 3);
        EntityLightningBolt {
            entityId,
            lightningState: 2,
            boltVertex,
            boltLivingTime,
            effectOnly,
            ticksExisted: 0,
            isDead: false,
        }
    }

    /// One tick with a given roll (0 to 9); returns whether the bolt lights
    /// the sky this tick (its state is not negative). See [`bolt_step`].
    pub fn tickWithRoll(&mut self, roll: i32) -> (flash: bool)
        requires
            0 <= roll <= 9,
            old(self).lightningState > i32::MIN,
            old(self).lightningState - 1 < -roll && old(self).boltLivingTime != 0 ==> old(self).boltLivingTime
                > i32::MIN,
        ensures
            final(self).ticksExisted == vstd::wrapping::i32_specs::wrapping_add(old(self).ticksExisted, 1),
            (final(self).lightningState, final(self).boltLivingTime, final(self).isDead) == bolt_step(
                old(self).lightningState,
                old(self).boltLivingTime,
                old(self).isDead,
                roll,
            ),
            final(self).entityId == old(self).entityId,
            final(self).boltVertex == old(self).boltVertex,
            final(self).effectOnly == old(self).effectOnly,
            flash == (final(self).lightningState >= 0),
    {
        self.ticksExisted = self.ticksExisted.wrapping_add(1);
        self.lightningState = self.lightningState - 1;
        if self.lightningState < 0 {
            if self.boltLivingTime == 0 {
                self.isDead = true;
            } else {
                let threshold = -roll;
                if self.lightningState < threshold {
                    self.boltLivingTime = self.boltLivingTime - 1;
                    self.lightningState = 1;
                }
            }
        }
        self.lightningState >= 0
    }

    /// One tick with a fresh roll from the thread's generator; see
    /// [`Self::tickWithRoll`].
    pub fn onUpdate(&mut self) -> (flash: bool)
        requires
            old(self).lightningState > i32::MIN,
            old(self).lightningState - 1 < 0 && old(self).boltLivingTime != 0 ==> old(self).boltLivingTime > i32::MIN,
        ensures
            exists|roll: i32|
                0 <= roll <= 9 && (final(self).lightningState, final(self).boltLivingTime, final(self).isDead)
                    == #[trigger] bolt_step(
                    old(self).lightningState,
                    old(self).boltLivingTime,
                    old(self).isDead,
                    roll,
                ),
            final(self).ticksExisted == vstd::wrapping::i32_specs::wrapping_add(old(self).ticksExisted, 1),
            final(self).entityId == old(self).entityId,
            final(self).boltVertex == old(self).boltVertex,
            final(self).effectOnly == old(self).effectOnly,
            flash == (final(self).lightningState >= 0),
    {
        let roll = random_in(0, 9);
        self.tickWithRoll(roll)
    }
}

} // verus!
