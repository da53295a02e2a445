use vstd::prelude::*;

verus! {

/// A directional input token. The closed set of directions comes from the
/// input interface; any other key press is carried as `Other`, which the
/// resolver consumes without moving anything.
#[derive(Clone, Copy, PartialEq, Eq, Structural, Debug)]
pub enum KeyCode {
    Up,
    Down,
    Left,
    Right,
    Other,
}

/// An ordered buffer of directional events, appended by the external input
/// source and drained most-recently-enqueued first by the movement resolver.
pub struct InputQueue {
    pub keys: Vec<KeyCode>,
}

impl Default for InputQueue {
    /// An empty queue.
    fn default() -> (q: InputQueue)
        ensures
            q.keys@.len() == 0,
    {
        InputQueue { keys: Vec::new() }
    }
}

/// Whether the current level is still being played or has been solved.
#[derive(Clone, Copy, PartialEq, Eq, Structural, Debug)]
pub enum GamePlayState {
    Playing,
    Won,
}

impl Default for GamePlayState {
    fn default() -> (s: GamePlayState)
        ensures
            s == GamePlayState::Playing,
    {
        GamePlayState::Playing
    }
}

impl GamePlayState {
    /// Short label for the presentation overlay.
    pub fn label(&self) -> (s: String)
        ensures
            *self == GamePlayState::Playing ==> s@ == "Playing"@,
            *self == GamePlayState::Won ==> s@ == "Won"@,
    {
        match self {
            GamePlayState::Playing => "Playing".to_owned(),
            GamePlayState::Won => "Won".to_owned(),
        }
    }
}

/// The singleton game-progress resource: the win flag and the number of
/// committed moves. Initialized to `{Playing, 0}` at world construction;
/// `moves_count` is mutated only by the movement resolver and `state` only
/// by the win detector.
pub struct GamePlay {
    pub state: GamePlayState,
    pub moves_count: u32,
}

impl Default for GamePlay {
    fn default() -> (g: GamePlay)
        ensures
            g.state == GamePlayState::Playing,
            g.moves_count == 0,
    {
        GamePlay { state: GamePlayState::Playing, moves_count: 0 }
    }
}

} // verus!
