use vstd::prelude::*;

verus! {

/// What happened to an entity.
#[derive(Clone, Copy, Debug, PartialEq, Eq, Structural)]
pub enum EventType {
    Spawn,
    Remove,
    Move,
    Attack,
}

/// One change of the world within a turn.
#[derive(Clone, Debug)]
pub struct Event {
    pub event_type: EventType,
    /// The kind of entity concerned: "Ant", "Hill" or "Food".
    pub entity: String,
    pub entity_id: Option<u64>,
    pub player: Option<usize>,
    pub location: Option<(usize, usize)>,
    pub destination: Option<(usize, usize)>,
}

fn ant_word() -> (r: String)
    ensures
        r@ == seq!['A', 'n', 't'],
{
    proof {
        reveal_strlit("Ant");
    }
    "Ant".to_owned()
}

fn food_word() -> (r: String)
    ensures
        r@ == seq!['F', 'o', 'o', 'd'],
{
    proof {
        reveal_strlit("Food");
    }
    "Food".to_owned()
}

fn hill_word() -> (r: String)
    ensures
        r@ == seq!['H', 'i', 'l', 'l'],
{
    proof {
        reveal_strlit("Hill");
    }
    "Hill".to_owned()
}

impl Event {
    pub fn spawn_ant(id: u64, player: usize, location: (usize, usize)) -> (r: Event)
        ensures
            r.event_type == EventType::Spawn,
            r.entity@ == seq!['A', 'n', 't'],
            r.entity_id == Some(id),
            r.player == Some(player),
            r.location == Some(location),
            r.destination.is_none(),
    {
        Event {
            event_type: EventType::Spawn,
            entity: ant_word(),
            entity_id: Some(id),
            player: Some(player),
            location: Some(location),
            destination: None,
        }
    }

    pub fn spawn_food(location: (usize, usize)) -> (r: Event)
        ensures
            r.event_type == EventType::Spawn,
            r.entity@ == seq!['F', 'o', 'o', 'd'],
            r.entity_id.is_none(),
            r.player.is_none(),
            r.location == Some(location),
            r.destination.is_none(),
    {
        Event {
            event_type: EventType::Spawn,
            entity: food_word(),
            entity_id: None,
            player: None,
            location: Some(location),
            destination: None,
        }
    }

    pub fn remove_ant(id: u64) -> (r: Event)
        ensures
            r.event_type == EventType::Remove,
            r.entity@ == seq!['A', 'n', 't'],
            r.entity_id == Some(id),
            r.player.is_none(),
            r.location.is_none(),
            r.destination.is_none(),
    {
        Event {
            event_type: EventType::Remove,
            entity: ant_word(),
            entity_id: Some(id),
            player: None,
            location: None,
            destination: None,
        }
    }

    pub fn remove_hill(location: (usize, usize)) -> (r: Event)
        ensures
            r.event_type == EventType::Remove,
            r.entity@ == seq!['H', 'i', 'l', 'l'],
            r.entity_id.is_none(),
            r.location == Some(location),
            r.destination.is_none(),
    {
        Event {
            event_type: EventType::Remove,
            entity: hill_word(),
            entity_id: None,
            player: None,
            location: Some(location),
            destination: None,
        }
    }

    pub fn remove_food(location: (usize, usize)) -> (r: Event)
        ensures
            r.event_type == EventType::Remove,
            r.entity@ == seq!['F', 'o', 'o', 'd'],
            r.entity_id.is_none(),
            r.location == Some(location),
            r.destination.is_none(),
    {
        Event {
            event_type: EventType::Remove,
            entity: food_word(),
            entity_id: None,
            player: None,
            location: Some(location),
            destination: None,
        }
    }

    pub fn move_ant(id: u64, location: (usize, usize), destination: (usize, usize)) -> (r: Event)
        ensures
            r.event_type == EventType::Move,
            r.entity@ == seq!['A', 'n', 't'],
            r.entity_id == Some(id),
            r.location == Some(location),
            r.destination == Some(destination),
    {
        Event {
            event_type: EventType::Move,
            entity: ant_word(),
            entity_id: Some(id),
            player: None,
            location: Some(location),
            destination: Some(destination),
        }
    }

    pub fn attack(location: (usize, usize), destination: (usize, usize)) -> (r: Event)
        ensures
            r.event_type == EventType::Attack,
            r.entity@ == seq!['A', 'n', 't'],
            r.entity_id.is_none(),
            r.location == Some(location),
            r.destination == Some(destination),
    {
        Event {
            event_type: EventType::Attack,
            entity: ant_word(),
            entity_id: None,
            player: None,
            location: Some(location),
            destination: Some(destination),
        }
    }
}

/// The totals recorded at the end of a turn.
#[derive(Clone, Debug)]
pub struct Turn {
    pub turn: usize,
    pub ants: Vec<usize>,
    pub hive: Vec<usize>,
    pub scores: Vec<usize>,
}

/// Receives what happens during a game.
pub trait ReplayLogger {
    fn log_turn(&mut self, turn: usize, ants: Vec<usize>, hive: Vec<usize>, scores: Vec<usize>);

    fn log_end_game(&mut self, reason: String);

    fn log_event(&mut self, turn: usize, event: Event);

    fn clear(&mut self);
}

/// Discards everything.
pub struct NoOpReplayLogger;

impl ReplayLogger for NoOpReplayLogger {
    fn log_turn(&mut self, turn: usize, ants: Vec<usize>, hive: Vec<usize>, scores: Vec<usize>) {
    }

    fn log_end_game(&mut self, reason: String) {
    }

    fn log_event(&mut self, turn: usize, event: Event) {
    }

    fn clear(&mut self) {
    }
}

/// Keeps the whole game, to be written out as JSON under `filename`.
pub struct JsonReplayLogger {
    pub filename: String,
    pub players: usize,
    pub map_width: usize,
    pub map_height: usize,
    pub map_contents: String,
    pub turns: Vec<Turn>,
    /// Each event with the turn it happened in, in the order they happened.
    pub events: Vec<(usize, Event)>,
    pub finished_reason: Option<String>,
}

impl JsonReplayLogger {
    pub fn new(
        filename: String,
        players: usize,
        map_width: usize,
        map_height: usize,
        map_contents: String,
    ) -> (r: JsonReplayLogger)
        ensures
            r.filename@ == filename@,
            r.players == players,
            r.map_width == map_width,
            r.map_height == map_height,
            r.map_contents@ == map_contents@,
            r.turns@.len() == 0,
            r.events@.len() == 0,
            r.finished_reason.is_none(),
    {
        JsonReplayLogger {
            filename,
            players,
            map_width,
            map_height,
            map_contents,
            turns: Vec::new(),
            events: Vec::new(),
            finished_reason: None,
        }
    }
}

impl JsonReplayLogger {
    /// Adds the totals of a turn after those recorded so far.
    pub fn record_turn(&mut self, turn: usize, ants: Vec<usize>, hive: Vec<usize>, scores: Vec<usize>)
        ensures
            final(self).turns@.len() == old(self).turns@.len() + 1,
            final(self).turns@.subrange(0, old(self).turns@.len() as int) == old(self).turns@,
            final(self).turns@.last().turn == turn,
            final(self).turns@.last().ants@ == ants@,
            final(self).turns@.last().hive@ == hive@,
            final(self).turns@.last().scores@ == scores@,
            final(self).events@ == old(self).events@,
    {
        self.turns.push(Turn { turn, ants, hive, scores });
        proof {
            assert(self.turns@.subrange(0, old(self).turns@.len() as int) =~= old(self).turns@);
        }
    }

    /// Records why the game ended.
    pub fn record_end(&mut self, reason: String)
        ensures
            final(self).finished_reason matches Some(r) && r@ == reason@,
            final(self).turns@ == old(self).turns@,
            final(self).events@ == old(self).events@,
    {
        self.finished_reason = Some(reason);
    }

    /// Adds an event of `turn` after those recorded so far.
    pub fn record_event(&mut self, turn: usize, event: Event)
        ensures
            final(self).events@ == old(self).events@.push((turn, event)),
            final(self).turns@ == old(self).turns@,
    {
        self.events.push((turn, event));
    }

    /// Forgets every turn and event recorded so far.
    pub fn reset(&mut self)
        ensures
            final(self).turns@.len() == 0,
            final(self).events@.len() == 0,
            final(self).finished_reason == old(self).finished_reason,
    {
        self.turns.clear();
        self.events.clear();
    }
}

impl ReplayLogger for JsonReplayLogger {
    fn log_turn(&mut self, turn: usize, ants: Vec<usize>, hive: Vec<usize>, scores: Vec<usize>) {
        self.record_turn(turn, ants, hive, scores);
    }

    fn log_end_game(&mut self, reason: String) {
        self.record_end(reason);
    }

    fn log_event(&mut self, turn: usize, event: Event) {
        self.record_event(turn, event);
    }

    fn clear(&mut self) {
        self.reset();
    }
}

/// The sink that a game writes to: nothing, or a JSON replay.
pub enum Replay {
    NoOp(NoOpReplayLogger),
    Json(JsonReplayLogger),
}

impl ReplayLogger for Replay {
    fn log_turn(&mut self, turn: usize, ants: Vec<usize>, hive: Vec<usize>, scores: Vec<usize>) {
        match self {
            Replay::NoOp(l) => l.log_turn(turn, ants, hive, scores),
            Replay::Json(l) => l.log_turn(turn, ants, hive, scores),
        }
    }

    fn log_end_game(&mut self, reason: String) {
        match self {
            Replay::NoOp(l) => l.log_end_game(reason),
            Replay::Json(l) => l.log_end_game(reason),
        }
    }

    fn log_event(&mut self, turn: usize, event: Event) {
        match self {
            Replay::NoOp(l) => l.log_event(turn, event),
            Replay::Json(l) => l.log_event(turn, event),
        }
    }

    fn clear(&mut self) {
        match self {
            Replay::NoOp(l) => l.clear(),
            Replay::Json(l) => l.clear(),
        }
    }
}

/// No sink without a file name; else a JSON replay for that file.
pub fn create_replay_logger(
    filename: Option<String>,
    players: usize,
    map_width: usize,
    map_height: usize,
    map_contents: String,
) -> (r: Replay)
    ensures
        filename.is_none() <==> r is NoOp,
        filename matches Some(f) ==> r matches Replay::Json(l) && l.filename@ == f@ && l.players
            == players && l.map_width == map_width && l.map_height == map_height
            && l.map_contents@ == map_contents@ && l.turns@.len() == 0 && l.events@.len() == 0,
{
    match filename {
        None => Replay::NoOp(NoOpReplayLogger),
        Some(filename) => Replay::Json(
            JsonReplayLogger::new(filename, players, map_width, map_height, map_contents),
        ),
    }
}

} // verus!
