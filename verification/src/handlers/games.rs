//! What is asked of the name of a game.

use crate::handlers::is_blank_text;
use crate::text::trim;
use vstd::prelude::*;

verus! {

/// Which game a request is about.
#[derive(Debug)]
pub struct GamePathParam {
    pub id: i64,
}

/// What is said of a game without a name.
pub const EMPTY_NAME: &'static str = "Game name cannot be empty";

/// What is said of a rating off the scale.
pub const BAD_COMPLEXITY: &'static str = "Complexity rating must be between 1.0 and 5.0";

/// Whether a new game may have this name: it holds more than whitespace.
pub fn check_game_name(name: &str) -> (r: Result<(), &'static str>)
    ensures
        r is Ok <==> trim(name@).len() > 0,
        r matches Err(message) ==> message@ == EMPTY_NAME@,
{
    if is_blank_text(name) {
        Err(EMPTY_NAME)
    } else {
        Ok(())
    }
}

/// Whether a game may be renamed as asked: a name that is given holds more
/// than whitespace.
pub fn check_new_game_name(name: &Option<String>) -> (r: Result<(), &'static str>)
    ensures
        r is Ok <==> (name matches Some(n) ==> trim(n@).len() > 0),
        r matches Err(message) ==> message@ == EMPTY_NAME@,
{
    match name {
        Some(n) => check_game_name(n.as_str()),
        None => Ok(()),
    }
}

} // verus!
