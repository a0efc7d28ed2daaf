use crate::grid::{map_board, map_ok, map_text, Board, Grid, MapError};
use vstd::prelude::*;
use vstd::string::StringSliceAdditionalSpecFns;

verus! {

/// A world to simulate, read from the text of a map.
pub struct Simulation {
    pub grid: Grid,
}

impl Simulation {
    /// Reads the world from a map's text; fails where the text cannot be read.
    pub fn new(map: &str) -> (r: Result<Simulation, MapError>)
        ensures
            match r {
                Ok(s) => map_text(map.spec_bytes()) == Ok::<Board, MapError>(s.grid@),
                Err(e) => map_text(map.spec_bytes()) == Err::<Board, MapError>(e),
            },
            r is Ok <==> map_ok(map.spec_bytes()),
            r matches Ok(s) ==> s.grid@ == map_board(map.spec_bytes()),
            r matches Ok(s) ==> s.grid.wf(),
    {
        match Grid::parse(map) {
            Ok(grid) => Ok(Simulation { grid }),
            Err(e) => Err(e),
        }
    }
}

} // verus!
