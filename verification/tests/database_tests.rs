use floton::database::DatabaseState;
use floton::database::Database;
use floton::constants::DBSTATE_START;
use floton::constants::DBSTATE_OK;
use floton::constants::DBSTATE_SHUTTING_DOWN;

#[test]
fn db_state_works() {
    let mut state = DatabaseState(DBSTATE_START);
    assert!(state.to_ok());
    assert!(state.to_shutdown());
}

#[test]
fn db_state_refuses_out_of_order_moves() {
    let mut state = DatabaseState(DBSTATE_START);
    assert!(!state.to_shutdown());
    assert_eq!(state.0, DBSTATE_START);
    assert!(state.to_ok());
    assert!(!state.to_ok());
    assert_eq!(state.0, DBSTATE_OK);
    assert!(state.to_shutdown());
    assert_eq!(state.0, DBSTATE_SHUTTING_DOWN);
}

#[test]
fn db_new_for_testing_takes_port() {
    let db = Database::new_for_testing(14001);
    assert_eq!(db.settings.db_port, 14001);
    assert_eq!(db.get_free_lim(), 5);
}
