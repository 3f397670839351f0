//! Plain state helpers shared with front-ends: list sorting state, dialog
//! payloads and row models.
use vstd::prelude::*;

use crate::repo::DeployKind;

verus! {

/// Sort direction of a list column.
#[derive(Debug, Clone, Copy, PartialEq, Eq, Structural)]
pub enum SortDirection {
    Ascending,
    Descending,
}

/// The column a mod list can be sorted by.
#[derive(Debug, Clone, Copy, PartialEq, Eq, Structural)]
pub enum SortColumn {
    Name,
}

/// The current sort choice of a mod list.
#[derive(Debug, Clone, Copy, PartialEq, Eq, Structural)]
pub struct SortState {
    pub column: SortColumn,
    pub direction: SortDirection,
}

impl SortState {
    /// Selecting the sorted column flips the direction; selecting another
    /// column starts ascending on it.
    pub fn toggle(&self, column: SortColumn) -> (r: SortState)
        ensures
            r.column == column,
            self.column == column ==> r.direction != self.direction,
            self.column != column ==> r.direction == SortDirection::Ascending,
    {
        if self.column == column {
            let new_direction = match self.direction {
                SortDirection::Ascending => SortDirection::Descending,
                SortDirection::Descending => SortDirection::Ascending,
            };
            SortState { column, direction: new_direction }
        } else {
            SortState { column, direction: SortDirection::Ascending }
        }
    }
}

impl Default for SortState {
    /// Lists start sorted by name, ascending.
    fn default() -> (r: SortState)
        ensures
            r.column == SortColumn::Name,
            r.direction == SortDirection::Ascending,
    {
        SortState { column: SortColumn::Name, direction: SortDirection::Ascending }
    }
}

/// Which kind of path an add-mod dialog asks for.
#[derive(Debug, Clone, Copy, PartialEq, Eq, Structural)]
pub enum PickPathKind {
    Archive,
    Directory,
}

/// The tab selected in the library manager.
#[derive(Debug, Clone, Copy, PartialEq, Eq, Structural)]
pub enum TabId {
    Overview,
    Profiles,
}

/// Payload of a completed new-game dialog.
#[derive(Debug, Clone)]
pub struct NewGame {
    pub name: String,
    pub deploy_kind: DeployKind,
}

/// Payload of a completed new-profile dialog.
#[derive(Debug, Clone)]
pub struct NewProfile {
    pub name: String,
}

/// One row of a rendered mod list.
#[derive(Debug, Clone)]
pub struct ModRow {
    pub name: String,
    pub enabled: bool,
}

} // verus!
