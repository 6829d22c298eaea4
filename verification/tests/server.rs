use judgment::credential::{authenticated_player, parse_seat};
use judgment::errors::{
    InvalidRoomId, InvalidToken, InvalidTransition, PlayError, RoomFull, RoomJoinError, ServerFull,
    TooEarly,
};
use judgment::{Action, Card, Claims, Server};
use pasetors::keys::{AsymmetricKeyPair, Generate};
use pasetors::version4::V4;

fn server(max_rooms: usize) -> Server {
    Server::new(AsymmetricKeyPair::<V4>::generate().unwrap(), max_rooms)
}

#[test]
fn registry_takes_rooms_up_to_its_bound() {
    let mut server = server(2);
    let first = server.create_room(2, 2, 1).unwrap();
    let second = server.create_room(3, 4, 1).unwrap();
    assert_ne!(first, second);
    assert_eq!(server.create_room(2, 2, 1), Err(ServerFull));
    assert!(server.room(&first).is_ok());
    assert!(server.room(&second).is_ok());
    assert!(!server.room(&first).unwrap().is_full());
}

#[test]
fn registry_without_room_for_rooms_is_full() {
    let mut server = server(0);
    assert_eq!(server.create_room(2, 2, 1), Err(ServerFull));
    assert_eq!(server.create_room_with_id(7, 2, 2, 1), Err(ServerFull));
}

#[test]
fn room_is_found_by_its_name_only() {
    let mut server = server(4);
    assert_eq!(server.create_room_with_id(77, 2, 2, 1), Ok(77));
    assert!(server.room(&77).is_ok());
    assert!(matches!(server.room(&78), Err(InvalidRoomId)));
    assert_eq!(
        server.join(&78),
        Err(RoomJoinError::InvalidRoomId(InvalidRoomId))
    );
    assert_eq!(
        server.take_seat(&78, [0; 32]),
        Err(RoomJoinError::InvalidRoomId(InvalidRoomId))
    );
    assert_eq!(
        server.play(Action::Deal, 0, &78),
        Err(PlayError::InvalidRoomId(InvalidRoomId))
    );
}

#[test]
fn joining_hands_out_a_credential_for_the_seat_and_the_room() {
    let mut server = server(4);
    let room_id = server.create_room(2, 2, 1).unwrap();
    let first = server.join(&room_id).unwrap();
    let second = server.join(&room_id).unwrap();
    assert_eq!(
        server.join(&room_id),
        Err(RoomJoinError::RoomFull(RoomFull { max_players: 2 }))
    );
    let holder = server.verify(&first).unwrap();
    assert_eq!(holder.player_id, 0);
    assert_eq!(holder.room_id, room_id);
    assert_eq!(holder.token, first);
    let holder = server.verify(&second).unwrap();
    assert_eq!(holder.player_id, 1);
    assert_eq!(holder.room_id, room_id);
    assert!(server.room(&room_id).unwrap().is_full());
    assert_eq!(server.room(&room_id).unwrap().hand_of_player(1).unwrap().len(), 2);
}

#[test]
fn credentials_of_others_and_damaged_ones_are_refused() {
    let mut ours = server(1);
    let mut theirs = server(1);
    let room_id = theirs.create_room(2, 2, 1).unwrap();
    let token = theirs.join(&room_id).unwrap();
    assert!(theirs.verify(&token).is_ok());
    assert!(matches!(ours.verify(&token), Err(InvalidToken)));
    assert!(matches!(theirs.verify(""), Err(InvalidToken)));
    assert!(matches!(theirs.verify("v4.public."), Err(InvalidToken)));
    assert!(matches!(theirs.verify("not a token"), Err(InvalidToken)));
    let mut damaged: Vec<char> = token.chars().collect();
    damaged[30] = if damaged[30] == 'A' { 'B' } else { 'A' };
    let damaged: String = damaged.into_iter().collect();
    assert!(matches!(theirs.verify(&damaged), Err(InvalidToken)));
    assert!(ours.create_room(2, 2, 1).is_ok());
}

#[test]
fn seats_are_taken_in_order_with_a_given_seed() {
    let mut server = server(1);
    let room_id = server.create_room_with_id(5, 3, 2, 1).unwrap();
    assert_eq!(server.take_seat(&room_id, [4; 32]), Ok(Claims { subject: 0 }));
    assert_eq!(server.take_seat(&room_id, [4; 32]), Ok(Claims { subject: 1 }));
    assert!(server.room(&room_id).unwrap().hand_of_player(0).unwrap().is_empty());
    assert_eq!(server.take_seat(&room_id, [4; 32]), Ok(Claims { subject: 2 }));
    assert_eq!(
        server.take_seat(&room_id, [4; 32]),
        Err(RoomJoinError::RoomFull(RoomFull { max_players: 3 }))
    );
    let dealt: Vec<Card> = server.room(&room_id).unwrap().hand_of_player(0).unwrap().to_vec();
    assert_eq!(dealt.len(), 2);

    let mut again = self::server(1);
    again.create_room_with_id(5, 3, 2, 1).unwrap();
    for _ in 0..3 {
        again.take_seat(&5, [4; 32]).unwrap();
    }
    assert_eq!(again.room(&5).unwrap().hand_of_player(0).unwrap(), &dealt[..]);
}

#[test]
fn refusals_of_the_game_come_through_unchanged() {
    let mut server = server(1);
    let room_id = server.create_room(2, 2, 1).unwrap();
    server.join(&room_id).unwrap();
    assert_eq!(
        server.play(Action::PredictScore(0), 0, &room_id),
        Err(PlayError::TooEarly(TooEarly))
    );
    assert_eq!(
        server.play(Action::Deal, 1, &room_id),
        Err(PlayError::TooEarly(TooEarly))
    );
    server.join(&room_id).unwrap();
    assert_eq!(
        server.play(Action::PredictScore(0), 1, &room_id),
        Err(PlayError::InvalidTransition(InvalidTransition::OutOfTurnPlay))
    );
    assert_eq!(
        server.play(Action::PredictScore(3), 0, &room_id),
        Err(PlayError::InvalidTransition(
            InvalidTransition::PredictionOutOfRange
        ))
    );
    assert_eq!(
        server.play(Action::Deal, 0, &room_id),
        Err(PlayError::InvalidTransition(InvalidTransition::ReDeal))
    );
    assert_eq!(server.play(Action::PredictScore(2), 0, &room_id), Ok(()));
}

fn play_any(server: &mut Server, room_id: u128, seats: usize) {
    for seat in 0..seats {
        let hand = server.room(&room_id).unwrap().hand_of_player(seat).unwrap().to_vec();
        if let Some(card) = hand.first() {
            match server.play(Action::Play(*card), seat, &room_id) {
                Ok(()) => return,
                Err(PlayError::InvalidTransition(InvalidTransition::OutOfTurnPlay)) => {}
                Err(other) => panic!("unexpected refusal {other:?}"),
            }
        }
    }
    panic!("no seat could play");
}

#[test]
fn finished_rooms_are_removed_and_others_stay() {
    let mut server = server(2);
    let short = server.create_room(2, 1, 1).unwrap();
    let long = server.create_room(2, 2, 1).unwrap();
    for room_id in [short, long] {
        server.join(&room_id).unwrap();
        server.join(&room_id).unwrap();
        server.play(Action::PredictScore(0), 0, &room_id).unwrap();
    }
    server.play(Action::PredictScore(0), 1, &short).unwrap();
    server.remove_finished_rooms();
    assert!(server.room(&short).is_ok());
    play_any(&mut server, short, 2);
    play_any(&mut server, short, 2);
    assert!(server.room(&short).unwrap().is_game_over());
    assert!(!server.room(&long).unwrap().is_game_over());
    assert_eq!(server.create_room(2, 2, 1), Err(ServerFull));
    server.remove_finished_rooms();
    assert!(matches!(server.room(&short), Err(InvalidRoomId)));
    assert!(server.room(&long).is_ok());
    assert_eq!(
        server.play(Action::Deal, 0, &short),
        Err(PlayError::InvalidRoomId(InvalidRoomId))
    );
    assert!(server.create_room(2, 2, 1).is_ok());
    server.remove_finished_rooms();
    assert!(server.room(&long).is_ok());
}

#[test]
fn seat_numbers_are_decimal_numerals() {
    assert_eq!(parse_seat("0"), Some(0));
    assert_eq!(parse_seat("7"), Some(7));
    assert_eq!(parse_seat("007"), Some(7));
    assert_eq!(parse_seat("255"), Some(255));
    assert_eq!(parse_seat("4096"), Some(4096));
    assert_eq!(parse_seat(""), None);
    assert_eq!(parse_seat("+5"), None);
    assert_eq!(parse_seat("-5"), None);
    assert_eq!(parse_seat("12a"), None);
    assert_eq!(parse_seat(" 12"), None);
    assert_eq!(parse_seat("١٢"), None);
    assert_eq!(parse_seat("99999999999999999999999999999999"), None);
    assert_eq!(
        parse_seat(&usize::MAX.to_string()),
        Some(usize::MAX)
    );
}

#[test]
fn claims_name_the_holder() {
    let room = "a1a2a3a4-b1b2-c1c2-d1d2-d3d4d5d6d7d8";
    let holder =
        authenticated_player("token", Some("12".to_string()), Some(room.to_string())).unwrap();
    assert_eq!(holder.token, "token");
    assert_eq!(holder.player_id, 12);
    assert_eq!(holder.room_id, 0xa1a2a3a4b1b2c1c2d1d2d3d4d5d6d7d8);
    assert!(authenticated_player("token", None, Some(room.to_string())).is_err());
    assert!(authenticated_player("token", Some("12".to_string()), None).is_err());
    assert!(authenticated_player("token", Some("x".to_string()), Some(room.to_string())).is_err());
    assert!(
        authenticated_player("token", Some("12".to_string()), Some("room".to_string())).is_err()
    );
}

#[test]
fn a_room_without_seats_can_be_set_up_and_is_full() {
    let mut server = server(2);
    let room_id = server.create_room(0, 0, 0).unwrap();
    assert!(server.room(&room_id).unwrap().is_full());
    assert_eq!(
        server.join(&room_id),
        Err(RoomJoinError::RoomFull(RoomFull { max_players: 0 }))
    );
    assert_eq!(
        server.play(Action::Deal, 0, &room_id),
        Err(PlayError::InvalidTransition(
            InvalidTransition::DealBeforeGameStart
        ))
    );
    server.remove_finished_rooms();
    assert!(server.room(&room_id).is_ok());
}
