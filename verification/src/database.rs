//! The store instance: its configuration, its root container tree and
//! its lifecycle state.  The network front end around it lives outside
//! the library.

use vstd::prelude::*;
use crate::constants::DBSTATE_START;
use crate::constants::DBSTATE_OK;
use crate::constants::DBSTATE_SHUTTING_DOWN;
use crate::containers::Container;
use crate::settings::Settings;
use crate::traits::NewType;

verus! {

/// The lifecycle of a store: starting, serving, or shutting down.
#[derive(Debug)]
pub struct DatabaseState(pub u8);

impl NewType for DatabaseState {
    fn new() -> Self {
        DatabaseState(DBSTATE_START)
    }
}

impl DatabaseState {
    /// Moves a starting store to serving; any other state refuses.
    pub fn to_ok(&mut self) -> (r: bool)
        ensures
            r == (old(self).0 == DBSTATE_START),
            r ==> final(self).0 == DBSTATE_OK,
            !r ==> *final(self) == *old(self),
    {
        if self.0 == DBSTATE_START {
            self.0 = DBSTATE_OK;
            true
        } else {
            false
        }
    }

    /// Moves a serving store to shutting down; any other state refuses.
    pub fn to_shutdown(&mut self) -> (r: bool)
        ensures
            r == (old(self).0 == DBSTATE_OK),
            r ==> final(self).0 == DBSTATE_SHUTTING_DOWN,
            !r ==> *final(self) == *old(self),
    {
        if self.0 == DBSTATE_OK {
            self.0 = DBSTATE_SHUTTING_DOWN;
            true
        } else {
            false
        }
    }
}

/// A store instance: its settings, its root map, and where it stands in
/// its lifecycle.
#[derive(Debug)]
pub struct Database {
    pub settings: Settings,
    pub data: Container,
    pub state: DatabaseState,
}

impl Database {
    /// The per-thread free-list limit this store was configured with.
    pub fn get_free_lim(&self) -> (r: u32)
        ensures
            r == self.settings.th_free_lim,
    {
        self.settings.th_free_lim
    }

    /// A store built from `settings`: a fresh root map of the configured
    /// size, in the starting state.
    pub fn new_from_settings(settings: Settings) -> (r: Database)
        requires
            settings.db_map_slots > 0,
        ensures
            r.settings == settings,
            r.data.map_wf(),
            r.data.deep_wf(),
            r.data.entries() =~= Map::<Seq<u8>, crate::shared::Shared<Container>>::empty(),
            r.state.0 == DBSTATE_START,
    {
        let slots_size = settings.db_map_slots;
        Database {
            settings,
            data: Container::new_map(slots_size),
            state: DatabaseState(DBSTATE_START),
        }
    }

    /// A store on default settings pointed at a caller-chosen test port.
    pub fn new_for_testing(port: u16) -> (r: Database)
        ensures
            r.settings.db_port == port,
            r.data.map_wf(),
            r.data.deep_wf(),
            r.state.0 == DBSTATE_START,
    {
        let mut opts = Settings::defaults();
        opts.set_port_for_testing(port);
        Database::new_from_settings(opts)
    }
}

} // verus!
