//! The kinds of object that live in the game world. The protocol moves their
//! ids and positions around; what each kind looks like or does is the
//! caller's business.

use vstd::prelude::*;

verus! {

/// What a world entity is.
#[derive(Debug, Clone)]
pub enum GameObject {
    Player,
    Monster,
    CheckPoint { priority: usize },
    Wall,
    Projectile,
}

} // verus!
