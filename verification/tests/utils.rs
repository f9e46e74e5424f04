use minesweeper::logic::board::ConfigError;
use minesweeper::logic::game::{
    default_n_player, joined, ApplicationError, InvalidRequest, Player, ServiceError,
};
use minesweeper::utils::generate_room_id;
use minesweeper::utils::grid::{adjust_around, list_marked, make_grid, set_cell};
use minesweeper::utils::neighbors::Neighbors;
use minesweeper::utils::Point;

#[test]
fn room_id_is_fixed() {
    assert_eq!(generate_room_id(), "66666");
}

#[test]
fn rooms_are_for_two_unless_told() {
    assert_eq!(default_n_player(), 2);
}

#[test]
fn service_errors_in_words() {
    assert_eq!(
        ServiceError::RoomStillExists.message(),
        "ServiceError: Room still exists while trying to create or join"
    );
    assert_eq!(
        ServiceError::RoomOrPlayerLost.message(),
        "ServiceError: Room or player unexpectedly lost during player action"
    );
    assert_eq!(
        ServiceError::AbnormalDisconnection.message(),
        "ServiceError: Connection abnormal loss"
    );
    assert_eq!(ServiceError::ConnectionException.message(), "ServiceError: Connection exception");
}

#[test]
fn invalid_requests_in_words() {
    assert_eq!(
        InvalidRequest::InvalidMessage.message(),
        "InvalidRequest: Parsing message failed"
    );
    assert_eq!(InvalidRequest::RoomIsFulled.message(), "InvalidRequest: Room is already full");
    assert_eq!(InvalidRequest::RoomNotExist.message(), "InvalidRequest: Room does not exist");
}

#[test]
fn config_errors_in_words() {
    assert_eq!(ConfigError::EmptyGrid.message(), "ConfigError: The grid has no cells");
    assert_eq!(ConfigError::GridTooLarge.message(), "ConfigError: The grid has too many cells");
    assert_eq!(
        ConfigError::TooManyMines.message(),
        "ConfigError: The grid has no room for that many mines"
    );
}

#[test]
fn application_errors_wrap_the_others() {
    let e: ApplicationError = ServiceError::ConnectionException.into();
    assert_eq!(e, ApplicationError::ServiceError(ServiceError::ConnectionException));
    assert_eq!(e.message(), "Service error: ServiceError: Connection exception");
    let e = ApplicationError::from(InvalidRequest::RoomNotExist);
    assert_eq!(e, ApplicationError::InvalidRequest(InvalidRequest::RoomNotExist));
    assert_eq!(e.message(), "Request error: InvalidRequest: Room does not exist");
    let e = ApplicationError::from(ConfigError::EmptyGrid);
    assert_eq!(e, ApplicationError::ConfigError(ConfigError::EmptyGrid));
    assert_eq!(e.message(), "Config error: ConfigError: The grid has no cells");
}

#[test]
fn player_in_words() {
    let mut p = Player {
        id: "u1".to_string(),
        name: "Ann".to_string(),
        icon: "data".to_string(),
        is_ready: false,
    };
    assert_eq!(p.describe(), "Player { id: u1, name: Ann, is_ready:false }");
    p.is_ready = true;
    assert_eq!(p.describe(), "Player { id: u1, name: Ann, is_ready:true }");
    assert_eq!(p.clone(), p);
}

#[test]
fn joined_puts_head_before_tail() {
    assert_eq!(joined("ab", "cd".to_string()), "abcd");
    assert_eq!(joined("", String::new()), "");
}

#[test]
fn neighbors_are_handed_out_one_by_one() {
    let mut n = Neighbors::new(2, 3, 3, 4);
    assert_eq!(n.next(), Some((1, 2)));
    assert_eq!(n.next(), Some((1, 3)));
    assert_eq!(n.next(), Some((2, 2)));
    assert_eq!(n.next(), None);
    assert_eq!(n.next(), None);
}

#[test]
fn neighbors_of_a_lone_cell_and_of_cells_outside() {
    assert_eq!(Neighbors::new(0, 0, 1, 1).collect(), vec![]);
    assert_eq!(Neighbors::new(0, 0, 0, 0).collect(), vec![]);
    assert_eq!(Neighbors::new(3, 1, 3, 3).collect(), vec![(2, 0), (2, 1), (2, 2)]);
    assert_eq!(Neighbors::new(5, 5, 3, 3).collect(), vec![]);
    assert_eq!(Neighbors::new(usize::MAX, usize::MAX, 3, 3).collect(), vec![]);
    assert_eq!(
        Neighbors::new(usize::MAX - 1, 0, usize::MAX, 1).collect(),
        vec![(usize::MAX - 2, 0)]
    );
}

#[test]
fn neighbors_can_be_listed_again() {
    let first = Neighbors::new(1, 1, 2, 2).collect();
    let second = Neighbors::new(1, 1, 2, 2).collect();
    assert_eq!(first, vec![(0, 0), (0, 1), (1, 0)]);
    assert_eq!(first, second);
}

#[test]
fn grids_are_made_set_and_listed() {
    let mut g = make_grid(2, 3, false);
    assert_eq!(g, vec![vec![false; 3]; 2]);
    set_cell(&mut g, 1, 2, true);
    set_cell(&mut g, 0, 1, true);
    assert_eq!(list_marked(&g), vec![Point { x: 0, y: 1 }, Point { x: 1, y: 2 }]);
    assert_eq!(make_grid(0, 3, 1u8), Vec::<Vec<u8>>::new());
    assert_eq!(make_grid(2, 0, 1u8), vec![Vec::<u8>::new(); 2]);
}

#[test]
fn counters_around_a_cell_move_by_one_and_stay_in_range() {
    let mut g = make_grid(3, 3, 5u8);
    adjust_around(&mut g, 0, 0, 3, 3, true);
    assert_eq!(g, vec![vec![5, 6, 5], vec![6, 6, 5], vec![5, 5, 5]]);
    adjust_around(&mut g, 1, 1, 3, 3, false);
    assert_eq!(g, vec![vec![4, 5, 4], vec![5, 6, 4], vec![4, 4, 4]]);
    let mut low = make_grid(1, 2, 0u8);
    adjust_around(&mut low, 0, 0, 1, 2, false);
    assert_eq!(low, vec![vec![0, 0]]);
    let mut high = make_grid(1, 2, 255u8);
    adjust_around(&mut high, 0, 1, 1, 2, true);
    assert_eq!(high, vec![vec![255, 255]]);
}
