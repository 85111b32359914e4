use rand::Rng;
use vstd::prelude::*;

use crate::coord::HexCoord;
use crate::tile::{Terrain, TerrainModifier};

verus! {

/// A hex reached by the movement search, with the distance recorded for it.
#[derive(Clone, Copy, Debug, PartialEq, Eq, Structural)]
pub struct Itinerary {
    pub coordinate: HexCoord,
    pub distance: i32,
}

/// A unit on the map: its statistics, its position and its state this turn.
#[derive(Clone, Debug, PartialEq)]
pub struct Unit {
    pub name: String,
    pub max_hp: usize,
    pub hp: usize,
    pub soft_attack: usize,
    pub hard_attack: usize,
    pub aa_damage: usize,
    pub defense: usize,
    pub movement: usize,
    pub remaining_movement: usize,
    pub terrain_modifiers: [TerrainModifier; 4],
    pub location: HexCoord,
    pub has_fought: bool,
}

/// A player: a name and the units the player commands.
#[allow(dead_code)]
pub struct Player {
    name: String,
    units: Vec<Unit>,
}

/// The positions of a list of units, in list order.
pub open spec fn locations(units: Seq<Unit>) -> Seq<HexCoord> {
    units.map_values(|u: Unit| u.location)
}

/// Index of the first occurrence of `c` in `s`, or -1 if there is none.
pub open spec fn first_index(s: Seq<HexCoord>, c: HexCoord) -> int
    decreases s.len(),
{
    if s.len() == 0 {
        -1
    } else if s[0] == c {
        0
    } else {
        let k = first_index(s.drop_first(), c);
        if k < 0 {
            -1
        } else {
            k + 1
        }
    }
}

/// `first_index` is -1 exactly when `c` does not occur, and otherwise the
/// smallest index holding `c`.
pub proof fn lemma_first_index(s: Seq<HexCoord>, c: HexCoord)
    ensures
        first_index(s, c) < 0 <==> !s.contains(c),
        first_index(s, c) >= 0 ==> {
            &&& first_index(s, c) < s.len()
            &&& s[first_index(s, c)] == c
            &&& forall|j: int| 0 <= j < first_index(s, c) ==> s[j] != c
        },
        first_index(s, c) >= -1,
    decreases s.len(),
{
    if s.len() > 0 {
        lemma_first_index(s.drop_first(), c);
        if s[0] != c {
            if s.contains(c) {
                let i = choose|i: int| 0 <= i < s.len() && s[i] == c;
                assert(s.drop_first()[i - 1] == c);
            }
            if s.drop_first().contains(c) {
                let i = choose|i: int| 0 <= i < s.drop_first().len() && s.drop_first()[i] == c;
                assert(s[i + 1] == c);
            }
            let k = first_index(s.drop_first(), c);
            if k >= 0 {
                assert forall|j: int| 0 <= j < k + 1 implies s[j] != c by {
                    if j > 0 {
                        assert(s[j] == s.drop_first()[j - 1]);
                    }
                }
            }
        } else {
            assert(s.contains(c)) by {
                assert(s[0] == c);
            }
        }
    }
}

/// Finds the first unit of the list standing at `c`.
pub fn unit_at(units: &Vec<Unit>, c: HexCoord) -> (idx: Option<usize>)
    ensures
        match idx {
            Some(i) => i as int == first_index(locations(units@), c),
            None => first_index(locations(units@), c) < 0,
        },
{
    proof {
        lemma_first_index(locations(units@), c);
    }
    let mut i: usize = 0;
    while i < units.len()
        invariant
            i <= units.len(),
            forall|j: int| 0 <= j < i ==> units@[j].location != c,
        decreases units.len() - i,
    {
        if units[i].location == c {
            proof {
                lemma_first_index(locations(units@), c);
                let k = first_index(locations(units@), c);
                assert(locations(units@)[i as int] == c);
                if k < 0 {
                    assert(locations(units@).contains(c));
                }
                if 0 <= k < i {
                    assert(locations(units@)[k] == units@[k].location);
                }
                if k > i {
                    assert(locations(units@)[i as int] == c);
                }
            }
            return Some(i);
        }
        i = i + 1;
    }
    proof {
        lemma_first_index(locations(units@), c);
        let k = first_index(locations(units@), c);
        if k >= 0 {
            assert(locations(units@)[k] == units@[k].location);
        }
    }
    None
}

/// Terrain modifiers of a tank, also given to any unit built from raw
/// statistics.
pub open spec fn default_modifiers() -> Seq<TerrainModifier> {
    seq![
        TerrainModifier { terrain_type: Terrain::Plain, movement: 1, defense: 5 },
        TerrainModifier { terrain_type: Terrain::Mountain, movement: 10000, defense: 10 },
        TerrainModifier { terrain_type: Terrain::Coast, movement: 10000, defense: 2 },
        TerrainModifier { terrain_type: Terrain::Forest, movement: 2, defense: 2 },
    ]
}

/// Terrain modifiers of a helicopter.
pub open spec fn helicopter_modifiers() -> Seq<TerrainModifier> {
    seq![
        TerrainModifier { terrain_type: Terrain::Plain, movement: 1, defense: 5 },
        TerrainModifier { terrain_type: Terrain::Mountain, movement: 2, defense: 1 },
        TerrainModifier { terrain_type: Terrain::Coast, movement: 1, defense: 5 },
        TerrainModifier { terrain_type: Terrain::Forest, movement: 1, defense: 3 },
    ]
}

/// Terrain modifiers of an infantry unit.
pub open spec fn infantry_modifiers() -> Seq<TerrainModifier> {
    seq![
        TerrainModifier { terrain_type: Terrain::Plain, movement: 1, defense: 5 },
        TerrainModifier { terrain_type: Terrain::Mountain, movement: 2, defense: 20 },
        TerrainModifier { terrain_type: Terrain::Coast, movement: 10000, defense: 2 },
        TerrainModifier { terrain_type: Terrain::Forest, movement: 2, defense: 10 },
    ]
}

/// `u` holds exactly the given statistics, with its full movement left.
pub open spec fn spec_unit(
    name: Seq<char>,
    max_hp: usize,
    hp: usize,
    soft_attack: usize,
    hard_attack: usize,
    aa_damage: usize,
    defense: usize,
    movement: usize,
    modifiers: Seq<TerrainModifier>,
    location: HexCoord,
    has_fought: bool,
    u: Unit,
) -> bool {
    &&& u.name@ == name
    &&& u.max_hp == max_hp
    &&& u.hp == hp
    &&& u.soft_attack == soft_attack
    &&& u.hard_attack == hard_attack
    &&& u.aa_damage == aa_damage
    &&& u.defense == defense
    &&& u.movement == movement
    &&& u.remaining_movement == movement
    &&& u.terrain_modifiers@ == modifiers
    &&& u.location == location
    &&& u.has_fought == has_fought
}

/// `u` is a fresh tank standing at `at`.
pub open spec fn is_fresh_tank(u: Unit, at: HexCoord) -> bool {
    spec_unit("Tank"@, 100, 100, 10, 15, 5, 10, 3, default_modifiers(), at, false, u)
}

impl Unit {
    /// A unit with the given statistics and the tank's terrain modifiers,
    /// its full movement left.
    #[allow(dead_code)]
    fn new(
        name: String,
        max_hp: usize,
        hp: usize,
        soft_attack: usize,
        hard_attack: usize,
        aa_damage: usize,
        defense: usize,
        movement: usize,
        location: HexCoord,
        has_fought: bool,
    ) -> (u: Self)
        ensures
            spec_unit(
                name@,
                max_hp,
                hp,
                soft_attack,
                hard_attack,
                aa_damage,
                defense,
                movement,
                default_modifiers(),
                location,
                has_fought,
                u,
            ),
    {
        let terrain_modifiers = [
            TerrainModifier { terrain_type: Terrain::Plain, movement: 1, defense: 5 },
            TerrainModifier { terrain_type: Terrain::Mountain, movement: 10000, defense: 10 },
            TerrainModifier { terrain_type: Terrain::Coast, movement: 10000, defense: 2 },
            TerrainModifier { terrain_type: Terrain::Forest, movement: 2, defense: 2 },
        ];
        let remaining_movement = movement;
        let u = Unit {
            name,
            max_hp,
            hp,
            soft_attack,
            hard_attack,
            aa_damage,
            defense,
            movement,
            remaining_movement,
            terrain_modifiers,
            location,
            has_fought,
        };
        assert(u.terrain_modifiers@ =~= default_modifiers());
        u
    }

    /// A fresh tank at `location`.
    pub fn tank(location: HexCoord) -> (u: Self)
        ensures
            is_fresh_tank(u, location),
    {
        let terrain_modifiers = [
            TerrainModifier { terrain_type: Terrain::Plain, movement: 1, defense: 5 },
            TerrainModifier { terrain_type: Terrain::Mountain, movement: 10000, defense: 10 },
            TerrainModifier { terrain_type: Terrain::Coast, movement: 10000, defense: 2 },
            TerrainModifier { terrain_type: Terrain::Forest, movement: 2, defense: 2 },
        ];
        let u = Unit {
            name: "Tank".to_owned(),
            max_hp: 100,
            hp: 100,
            soft_attack: 10,
            hard_attack: 15,
            aa_damage: 5,
            defense: 10,
            movement: 3,
            remaining_movement: 3,
            terrain_modifiers,
            location: location,
            has_fought: false,
        };
        assert(u.terrain_modifiers@ =~= default_modifiers());
        u
    }

    /// A fresh helicopter at `location`.
    pub fn helicopter(location: HexCoord) -> (u: Self)
        ensures
            spec_unit(
                "Helicopter"@,
                50,
                50,
                10,
                20,
                10,
                10,
                5,
                helicopter_modifiers(),
                location,
                false,
                u,
            ),
    {
        let terrain_modifiers = [
            TerrainModifier { terrain_type: Terrain::Plain, movement: 1, defense: 5 },
            TerrainModifier { terrain_type: Terrain::Mountain, movement: 2, defense: 1 },
            TerrainModifier { terrain_type: Terrain::Coast, movement: 1, defense: 5 },
            TerrainModifier { terrain_type: Terrain::Forest, movement: 1, defense: 3 },
        ];
        let u = Unit {
            name: "Helicopter".to_owned(),
            max_hp: 50,
            hp: 50,
            soft_attack: 10,
            hard_attack: 20,
            aa_damage: 10,
            defense: 10,
            movement: 5,
            remaining_movement: 5,
            terrain_modifiers,
            location: location,
            has_fought: false,
        };
        assert(u.terrain_modifiers@ =~= helicopter_modifiers());
        u
    }

    /// A fresh infantry unit at `location`.
    pub fn infantry(location: HexCoord) -> (u: Self)
        ensures
            spec_unit(
                "Infantry"@,
                150,
                150,
                10,
                5,
                20,
                10,
                2,
                infantry_modifiers(),
                location,
                false,
                u,
            ),
    {
        let terrain_modifiers = [
            TerrainModifier { terrain_type: Terrain::Plain, movement: 1, defense: 5 },
            TerrainModifier { terrain_type: Terrain::Mountain, movement: 2, defense: 20 },
            TerrainModifier { terrain_type: Terrain::Coast, movement: 10000, defense: 2 },
            TerrainModifier { terrain_type: Terrain::Forest, movement: 2, defense: 10 },
        ];
        let u = Unit {
            name: "Infantry".to_owned(),
            max_hp: 150,
            hp: 150,
            soft_attack: 10,
            hard_attack: 5,
            aa_damage: 20,
            defense: 10,
            movement: 2,
            remaining_movement: 2,
            terrain_modifiers,
            location: location,
            has_fought: false,
        };
        assert(u.terrain_modifiers@ =~= infantry_modifiers());
        u
    }
}

/// The attack an attacker brings against a target: its anti-air damage
/// against a helicopter, its hard attack against a tank, its soft attack
/// against anything else.
pub open spec fn attack_against(attacker: Unit, target: Unit) -> usize {
    if target.name@ == "Tank"@ {
        attacker.hard_attack
    } else if target.name@ == "Helicopter"@ {
        attacker.aa_damage
    } else {
        attacker.soft_attack
    }
}

/// The power of an attack against a defense: `(attack - defense) / defense`.
pub open spec fn attack_power(attack: usize, defense: usize) -> int {
    (attack - defense) / (defense as int)
}

/// The damage an attack of the given power deals with a roll of the random
/// number generator: `25 * power * (roll / 100)`, the power taken as an
/// `i32` (truncated).
pub open spec fn damage(power: int, roll: int) -> int {
    25 * (power as i32) * (roll / 100)
}

/// The conditions under which a fight computes without overflow, underflow
/// or division by zero: the defender has some defense, neither side's
/// attack falls below the defender's defense, and 25 times each attack
/// power, taken as an `i32` (truncated), fits in an `i32`. The
/// counter-attack is weighed against the defender's own defense too.
pub open spec fn fight_defined(attacker: Unit, defender: Unit) -> bool {
    let attack = attack_against(attacker, defender);
    let counter = attack_against(defender, attacker);
    &&& defender.defense > 0
    &&& attack >= defender.defense
    &&& counter >= defender.defense
    &&& i32::MIN <= 25 * (attack_power(attack, defender.defense) as i32) <= i32::MAX
    &&& i32::MIN <= 25 * (attack_power(counter, defender.defense) as i32) <= i32::MAX
}

/// The attacker after a fight: no movement left and marked as having fought.
pub open spec fn after_fight(u: Unit) -> Unit {
    Unit { remaining_movement: 0, has_fought: true, ..u }
}

/// `u` with its hit points lowered by `d`.
pub open spec fn with_damage(u: Unit, d: int) -> Unit {
    Unit { hp: (u.hp - d) as usize, ..u }
}

/// `rand::thread_rng().gen_range(lo..hi)`: a number drawn from the thread's
/// random generator in the half-open range from `lo` to `hi`, which must not
/// be empty. Which number comes out is left open.
#[verifier::external_body]
fn roll_in_range(lo: i32, hi: i32) -> (r: i32)
    requires
        lo < hi,
    ensures
        lo <= r < hi,
{
    rand::thread_rng().gen_range(lo..hi)
}

proof fn lemma_damage_of_roll(power: int, roll: int)
    requires
        0 <= roll < 100,
    ensures
        damage(power, roll) == 0,
{
    assert(roll / 100 == 0);
    assert(25 * (power as i32) * 0 == 0) by (nonlinear_arith);
}

impl Unit {
    /// One exchange of blows with the given rolls of the random generator:
    /// the attacker loses its movement and is marked as having fought; the
    /// defender takes `damage(power, attack_roll)` and the attacker
    /// `damage(counter power, defense_roll)`. Returns whether the attacker
    /// and whether the defender is then at zero hit points.
    pub fn fight_with_rolls(&mut self, enemy: &mut Unit, attack_roll: i32, defense_roll: i32) -> (res: (bool, bool))
        requires
            fight_defined(*old(self), *old(enemy)),
            0 <= attack_roll < 100,
            0 <= defense_roll < 100,
        ensures
            *final(enemy) == with_damage(
                *old(enemy),
                damage(attack_power(attack_against(*old(self), *old(enemy)), old(enemy).defense), attack_roll as int),
            ),
            *final(self) == with_damage(
                after_fight(*old(self)),
                damage(attack_power(attack_against(*old(enemy), *old(self)), old(enemy).defense), defense_roll as int),
            ),
            res == (final(self).hp == 0, final(enemy).hp == 0),
    {
        // Can no longer move after fighting
        self.remaining_movement = 0;
        self.has_fought = true;

        let tank: String = "Tank".to_owned();
        let helicopter: String = "Helicopter".to_owned();

        // attacker info
        let mut attack: usize = self.soft_attack;
        if enemy.name == helicopter {
            attack = self.aa_damage;
        }
        if enemy.name == tank {
            attack = self.hard_attack;
        }
        let defense: usize = enemy.defense;

        // defender counter info
        let mut eattack: usize = enemy.soft_attack;
        if self.name == helicopter {
            eattack = enemy.aa_damage;
        }
        if self.name == tank {
            eattack = enemy.hard_attack;
        }
        let edefense: usize = enemy.defense;

        proof {
            reveal_strlit("Tank");
            reveal_strlit("Helicopter");
            lemma_damage_of_roll(attack_power(attack, defense), attack_roll as int);
            lemma_damage_of_roll(attack_power(eattack, edefense), defense_roll as int);
        }
        assert(attack == attack_against(*old(self), *old(enemy)));
        assert(eattack == attack_against(*old(enemy), *old(self)));

        let attack_damage_modifier: i32 = attack_roll / 100;
        let attack_power_value: usize = (attack - defense) / defense;
        let attack_power_i32: i32 = #[verifier::truncate] (attack_power_value as i32);
        assert(attack_power_value == attack_power(attack, defense));
        assert(attack_power_i32 == attack_power(attack, defense) as i32);
        assert(attack_damage_modifier == 0);
        assert(i32::MIN <= 25 * attack_power_i32 <= i32::MAX);
        let damage_dealt: i32 = 25 * attack_power_i32 * attack_damage_modifier;

        let defense_damage_modifier: i32 = defense_roll / 100;
        let defense_power_value: usize = (eattack - edefense) / edefense;
        let defense_power_i32: i32 = #[verifier::truncate] (defense_power_value as i32);
        assert(defense_power_value == attack_power(eattack, edefense));
        assert(defense_power_i32 == attack_power(eattack, edefense) as i32);
        assert(defense_damage_modifier == 0);
        assert(i32::MIN <= 25 * defense_power_i32 <= i32::MAX);
        let damage_taken: i32 = 25 * defense_power_i32 * defense_damage_modifier;

        assert(damage_dealt == 0);
        assert(damage_taken == 0);
        enemy.hp = enemy.hp - damage_dealt as usize;
        self.hp = self.hp - damage_taken as usize;

        (self.hp == 0, enemy.hp == 0)
    }

    /// One exchange of blows, the rolls drawn from the random generator.
    /// Every roll the generator can give makes the damage modifier
    /// `roll / 100` zero, so neither side loses hit points: the attacker
    /// loses its movement and is marked as having fought, the defender is
    /// unchanged. Returns whether the attacker and whether the defender is
    /// at zero hit points.
    pub fn fight(&mut self, enemy: &mut Unit) -> (res: (bool, bool))
        requires
            fight_defined(*old(self), *old(enemy)),
        ensures
            *final(enemy) == *old(enemy),
            *final(self) == after_fight(*old(self)),
            res == (old(self).hp == 0, old(enemy).hp == 0),
    {
        let attack_roll: i32 = roll_in_range(0, 100);
        let defense_roll: i32 = roll_in_range(0, 100);
        proof {
            lemma_damage_of_roll(
                attack_power(attack_against(*old(self), *old(enemy)), old(enemy).defense),
                attack_roll as int,
            );
            lemma_damage_of_roll(
                attack_power(attack_against(*old(enemy), *old(self)), old(enemy).defense),
                defense_roll as int,
            );
        }
        let res = self.fight_with_rolls(enemy, attack_roll, defense_roll);
        assert(*enemy == *old(enemy));
        assert(*self == after_fight(*old(self)));
        res
    }
}

} // verus!
