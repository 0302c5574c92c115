//! Core data model: characters, groups ("hats"), and scope sets.

use vstd::prelude::*;
use crate::text::str_eq;

verus! {

/// An authenticated EVE character.
#[derive(Debug, Clone, PartialEq, Eq)]
pub struct Character {
    /// ESI character id.
    pub id: i64,
    pub name: String,
    pub corporation_id: Option<i64>,
    pub alliance_id: Option<i64>,
    /// ESI scopes the user has granted for this character (incremental).
    pub scopes: Vec<String>,
    /// Whether this character is currently the foreground one.
    pub active: bool,
}

impl Character {
    /// A character with no corporation, alliance or scopes, not active.
    pub fn new(id: i64, name: &str) -> (r: Character)
        ensures
            r.id == id,
            r.name@ == name@,
            r.corporation_id is None,
            r.alliance_id is None,
            r.scopes@.len() == 0,
            !r.active,
    {
        Character {
            id,
            name: name.to_owned(),
            corporation_id: None,
            alliance_id: None,
            scopes: Vec::new(),
            active: false,
        }
    }

    /// Whether the character has granted a specific scope.
    pub fn has_scope(&self, scope: &str) -> (r: bool)
        ensures
            r == exists|i: int| 0 <= i < self.scopes@.len() && #[trigger] self.scopes@[i]@ == scope@,
    {
        let mut i: usize = 0;
        while i < self.scopes.len()
            invariant
                i <= self.scopes@.len(),
                forall|j: int| 0 <= j < i ==> #[trigger] self.scopes@[j]@ != scope@,
            decreases self.scopes@.len() - i,
        {
            if str_eq(self.scopes[i].as_str(), scope) {
                return true;
            }
            i += 1;
        }
        false
    }
}

/// A user-defined set of characters ("hat") used for aggregated views.
#[derive(Debug, Clone, PartialEq, Eq)]
pub struct CharacterGroup {
    pub id: i64,
    pub name: String,
    /// Member character ids.
    pub members: Vec<i64>,
}

} // verus!
