use vstd::prelude::*;
use crate::data::{Pos, Dir, Compass, command_dir, pos_int, step};
use crate::maze::{
    Maze, MazeMsg, MazeReply, processor, without, move_outcome, walk_outcome, compass_reads, has_id,
};
use crate::grid::cell_open;
use vstd::string::StringSliceAdditionalSpecFns;

verus! {

/// A player as the table stores it.
pub struct Player {
    pub name: String,
    pub pos: Pos,
}

/// A table row as the contracts see it.
pub open spec fn entry_view(e: (u64, Player)) -> (u64, Seq<char>, Pos) {
    (e.0, e.1.name@, e.1.pos)
}

impl Player {
    /// A copy of this player.
    pub fn snapshot(&self) -> (r: Player)
        ensures
            r.name@ == self.name@,
            r.pos == self.pos,
    {
        Player { name: self.name.clone(), pos: self.pos }
    }
}

/// What a connection holds of its player: the id, and the position last stored.
pub struct PlayerHandle {
    pub id: u64,
    pub pos: Pos,
}

impl PlayerHandle {
    /// Takes this player out of the maze; doing so again changes nothing.
    pub fn remove(&self, maze: &mut Maze)
        requires
            old(maze).wf(),
        ensures
            final(maze).wf(),
            final(maze).maze_info() == old(maze).maze_info(),
            final(maze).last_id() == old(maze).last_id(),
            final(maze).table() == without(old(maze).table(), self.id),
    {
        let _ = processor(maze, MazeMsg::RemovePlayer(self.id));
    }

    /// Asks the maze to store `pos` for this player; the handle follows where the
    /// maze stored it.
    pub fn set_pos(&mut self, maze: &mut Maze, pos: Pos) -> (r: bool)
        requires
            old(maze).wf(),
        ensures
            final(maze).wf(),
            final(maze).maze_info() == old(maze).maze_info(),
            final(maze).last_id() == old(maze).last_id(),
            move_outcome(
                old(maze).maze_info().walls@,
                old(maze).table(),
                old(self).id,
                pos,
                final(maze).table(),
                r,
            ),
            final(self).id == old(self).id,
            final(self).pos == if r {
                pos
            } else {
                old(self).pos
            },
    {
        match processor(maze, MazeMsg::MovePlayer(self.id, pos)) {
            MazeReply::Moved(b) => {
                if b {
                    self.pos = pos;
                }
                b
            },
            _ => false,
        }
    }

    /// The compass reading at this player's position.
    pub fn get_compass(&self, maze: &Maze) -> (r: Compass)
        requires
            maze.wf(),
        ensures
            compass_reads(maze.maze_info(), self.pos, r),
    {
        maze.info().compass_at(self.pos)
    }

    /// Takes one step in direction `d` where the cell ahead is inside the maze and
    /// open, and says whether it did; a blocked step changes nothing.
    pub fn walk(&mut self, maze: &mut Maze, d: Dir) -> (r: bool)
        requires
            old(maze).wf(),
        ensures
            final(maze).wf(),
            final(maze).maze_info() == old(maze).maze_info(),
            final(maze).last_id() == old(maze).last_id(),
            final(self).id == old(self).id,
            r == (has_id(old(maze).table(), old(self).id) && cell_open(
                old(maze).maze_info().walls@,
                step(pos_int(old(self).pos), d),
            )),
            walk_outcome(
                old(maze).maze_info().walls@,
                old(maze).table(),
                old(self).id,
                old(self).pos,
                d,
                final(maze).table(),
                final(self).pos,
            ),
    {
        match d.move_pos(self.pos) {
            None => {
                assert(!cell_open(maze.maze_info().walls@, step(pos_int(self.pos), d)));
                false
            },
            Some(target) => {
                if maze.info().is_valid_location(target) {
                    let ghost t0 = maze.table();
                    let moved = self.set_pos(maze, target);
                    if !moved {
                        assert(maze.table() =~= t0);
                    }
                    moved
                } else {
                    false
                }
            },
        }
    }

    /// Answers one command line: a direction letter takes a step (where it can)
    /// and returns the compass reading at the position after it; anything else
    /// returns `None` and changes nothing.
    pub fn handle_command(&mut self, maze: &mut Maze, line: &str) -> (r: Option<Compass>)
        requires
            old(maze).wf(),
        ensures
            final(maze).wf(),
            final(maze).maze_info() == old(maze).maze_info(),
            final(maze).last_id() == old(maze).last_id(),
            final(self).id == old(self).id,
            match command_dir(line.spec_bytes()) {
                None => {
                    &&& r is None
                    &&& final(self).pos == old(self).pos
                    &&& final(maze).table() == old(maze).table()
                },
                Some(d) => {
                    &&& walk_outcome(
                        old(maze).maze_info().walls@,
                        old(maze).table(),
                        old(self).id,
                        old(self).pos,
                        d,
                        final(maze).table(),
                        final(self).pos,
                    )
                    &&& r is Some
                    &&& compass_reads(final(maze).maze_info(), final(self).pos, r.unwrap())
                },
            },
    {
        match Dir::from_str(line) {
            None => None,
            Some(d) => {
                let _ = self.walk(maze, d);
                Some(self.get_compass(maze))
            },
        }
    }
}

} // verus!
