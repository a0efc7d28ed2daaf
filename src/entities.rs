use vstd::prelude::*;

verus! {

/// A hill of a player. `alive` is false once an enemy ant has razed it.
#[derive(Clone, Copy, Debug, PartialEq, Eq, Structural)]
pub struct Hill {
    pub player: usize,
    pub alive: bool,
}

impl Hill {
    pub fn new(player: usize, alive: bool) -> (r: Hill)
        ensures
            r.player == player,
            r.alive == alive,
    {
        Hill { player, alive }
    }

    /// The owner, as for any entity that has one.
    pub fn player(&self) -> (r: Option<usize>)
        ensures
            r == Some(self.player),
    {
        Some(self.player)
    }

    /// Whether the hill still stands, as for any entity that can die.
    pub fn alive(&self) -> (r: Option<bool>)
        ensures
            r == Some(self.alive),
    {
        Some(self.alive)
    }
}

/// An ant of a player. `on_ant_hill` holds the hill the ant stands on, if any.
#[derive(Clone, Copy, Debug, PartialEq, Eq, Structural)]
pub struct Ant {
    pub id: u64,
    pub player: usize,
    pub alive: bool,
    pub on_ant_hill: Option<Hill>,
}

impl Ant {
    pub fn new(id: u64, player: usize, alive: bool, on_ant_hill: Option<Hill>) -> (r: Ant)
        ensures
            r == (Ant { id, player, alive, on_ant_hill }),
    {
        Ant { id, player, alive, on_ant_hill }
    }

    /// A live ant standing on the given hill.
    pub fn from_ant_hill(id: u64, player: usize, ant_hill: Hill) -> (r: Ant)
        ensures
            r == (Ant { id, player, alive: true, on_ant_hill: Some(ant_hill) }),
    {
        Ant { id, player, alive: true, on_ant_hill: Some(ant_hill) }
    }
}

/// Food, to be harvested into a player's hive.
#[derive(Clone, Copy, Debug, PartialEq, Eq, Structural)]
pub struct Food;

/// Water: no ant can enter it.
#[derive(Clone, Copy, Debug, PartialEq, Eq, Structural)]
pub struct Water;

/// What a cell of the grid can hold.
#[derive(Clone, Copy, Debug, PartialEq, Eq, Structural)]
pub enum Entity {
    Ant(Ant),
    Hill(Hill),
    Food(Food),
    Water(Water),
}

pub open spec fn kind_name(e: Entity) -> Seq<char> {
    match e {
        Entity::Ant(_) => seq!['A', 'n', 't'],
        Entity::Hill(_) => seq!['H', 'i', 'l', 'l'],
        Entity::Food(_) => seq!['F', 'o', 'o', 'd'],
        Entity::Water(_) => seq!['W', 'a', 't', 'e', 'r'],
    }
}

pub open spec fn player_of(e: Entity) -> Option<usize> {
    match e {
        Entity::Ant(a) => Some(a.player),
        Entity::Hill(h) => Some(h.player),
        _ => None,
    }
}

pub open spec fn alive_of(e: Entity) -> Option<bool> {
    match e {
        Entity::Ant(a) => Some(a.alive),
        Entity::Hill(h) => Some(h.alive),
        _ => None,
    }
}

/// The entity is an ant that is alive.
pub open spec fn is_live_ant(e: Entity) -> bool {
    match e {
        Entity::Ant(a) => a.alive,
        _ => false,
    }
}

/// The character that stands for a cell in the map's text.
pub open spec fn cell_char_spec(e: Option<Entity>) -> char {
    match e {
        None => '.',
        Some(Entity::Ant(a)) => if !a.alive {
            '.'
        } else if a.on_ant_hill.is_some() {
            ((a.player + 65) as u8) as char
        } else {
            ((a.player + 97) as u8) as char
        },
        Some(Entity::Hill(h)) => if h.alive {
            ((h.player + 48) as u8) as char
        } else {
            'X'
        },
        Some(Entity::Food(_)) => '*',
        Some(Entity::Water(_)) => '%',
    }
}

impl Entity {
    /// The kind of the entity, as observers name it.
    pub fn name(&self) -> (r: &'static str)
        ensures
            r@ == kind_name(*self),
    {
        match self {
            Entity::Ant(_) => {
                proof {
                    reveal_strlit("Ant");
                }
                "Ant"
            },
            Entity::Hill(_) => {
                proof {
                    reveal_strlit("Hill");
                }
                "Hill"
            },
            Entity::Food(_) => {
                proof {
                    reveal_strlit("Food");
                }
                "Food"
            },
            Entity::Water(_) => {
                proof {
                    reveal_strlit("Water");
                }
                "Water"
            },
        }
    }

    pub fn player(&self) -> (r: Option<usize>)
        ensures
            r == player_of(*self),
    {
        match self {
            Entity::Ant(a) => Some(a.player),
            Entity::Hill(h) => Some(h.player),
            _ => None,
        }
    }

    pub fn alive(&self) -> (r: Option<bool>)
        ensures
            r == alive_of(*self),
    {
        match self {
            Entity::Ant(a) => Some(a.alive),
            Entity::Hill(h) => Some(h.alive),
            _ => None,
        }
    }

    /// The identifier of an ant; other entities have none.
    pub fn id(&self) -> (r: Option<u64>)
        ensures
            r == (match *self {
                Entity::Ant(a) => Some(a.id),
                _ => None,
            }),
    {
        match self {
            Entity::Ant(a) => Some(a.id),
            _ => None,
        }
    }

    /// The hill under an ant, if the entity is an ant standing on one.
    pub fn on_ant_hill(&self) -> (r: Option<Hill>)
        ensures
            r == (match *self {
                Entity::Ant(a) => a.on_ant_hill,
                _ => None,
            }),
    {
        match self {
            Entity::Ant(a) => a.on_ant_hill,
            _ => None,
        }
    }

    pub fn is_live_ant(&self) -> (r: bool)
        ensures
            r == is_live_ant(*self),
    {
        match self {
            Entity::Ant(a) => a.alive,
            _ => false,
        }
    }
}

/// The character that stands for a cell; players are at most ten.
pub fn cell_char(e: Option<Entity>) -> (r: char)
    requires
        match e {
            Some(Entity::Ant(a)) => a.player < 10,
            Some(Entity::Hill(h)) => h.player < 10,
            _ => true,
        },
    ensures
        r == cell_char_spec(e),
{
    match e {
        None => '.',
        Some(Entity::Ant(a)) => if !a.alive {
            '.'
        } else if a.on_ant_hill.is_some() {
            ((a.player + 65) as u8) as char
        } else {
            ((a.player + 97) as u8) as char
        },
        Some(Entity::Hill(h)) => if h.alive {
            ((h.player + 48) as u8) as char
        } else {
            'X'
        },
        Some(Entity::Food(_)) => '*',
        Some(Entity::Water(_)) => '%',
    }
}


/// Reads one character of the map's text. An ant gets the identifier `id`.
pub fn from_char(value: char, id: u64) -> (r: Option<Option<Entity>>)
    ensures
        r == from_char_spec(value, id),
{
    if value == '.' {
        Some(None)
    } else if 'a' <= value && value <= 'j' {
        let player = (value as u32 - 97) as usize;
        Some(Some(Entity::Ant(Ant { id, player, alive: true, on_ant_hill: None })))
    } else if 'A' <= value && value <= 'J' {
        let player = (value as u32 - 65) as usize;
        Some(
            Some(
                Entity::Ant(
                    Ant {
                        id,
                        player,
                        alive: true,
                        on_ant_hill: Some(Hill { player, alive: true }),
                    },
                ),
            ),
        )
    } else if value == '*' {
        Some(Some(Entity::Food(Food)))
    } else if '0' <= value && value <= '9' {
        let player = (value as u32 - 48) as usize;
        Some(Some(Entity::Hill(Hill { player, alive: true })))
    } else if value == '%' {
        Some(Some(Entity::Water(Water)))
    } else {
        None
    }
}

/// `None` for a character outside the map's alphabet; else what the cell holds.
pub open spec fn from_char_spec(value: char, id: u64) -> Option<Option<Entity>> {
    let v = value as u32;
    if value == '.' {
        Some(None)
    } else if 97 <= v && v <= 106 {
        Some(Some(Entity::Ant(Ant { id, player: (v - 97) as usize, alive: true, on_ant_hill: None })))
    } else if 65 <= v && v <= 74 {
        Some(
            Some(
                Entity::Ant(
                    Ant {
                        id,
                        player: (v - 65) as usize,
                        alive: true,
                        on_ant_hill: Some(Hill { player: (v - 65) as usize, alive: true }),
                    },
                ),
            ),
        )
    } else if value == '*' {
        Some(Some(Entity::Food(Food)))
    } else if 48 <= v && v <= 57 {
        Some(Some(Entity::Hill(Hill { player: (v - 48) as usize, alive: true })))
    } else if value == '%' {
        Some(Some(Entity::Water(Water)))
    } else {
        None
    }
}

} // verus!
