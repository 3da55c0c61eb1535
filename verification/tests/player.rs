use game_of_life::Player;

#[test]
fn test_player_attributes() {
    let player = Player::new(100, 12, 7);
    assert_eq!(*player.health(), 100);
    assert_eq!(*player.strength(), 12);
    assert_eq!(*player.luck(), 7);
}

#[test]
fn test_player_loses_health() {
    let mut player = Player::new(100, 12, 7);
    player.change_health_by(30);
    assert_eq!(*player.health(), 70);
    assert_eq!(*player.strength(), 12);
    assert_eq!(*player.luck(), 7);

    player.change_health_by(70);
    assert_eq!(*player.health(), 0);
}
