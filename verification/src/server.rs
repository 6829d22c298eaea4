//! The registry: a bounded set of rooms by name, the credentials that bind a
//! client to a seat in a room, and the way from a credential to the room.

use crate::credential::{
    authenticated_player, fresh_room_id, holder_of, read_claims, room_id_text, seat_text,
    sign_claims, AuthenticatedPlayer, ROOM_CLAIM, RoomId, SUBJECT_CLAIM,
};
use crate::errors::{InvalidRoomId, InvalidToken, PlayError, RoomFull, RoomJoinError, ServerFull};
use crate::model::valid_config;
use crate::room::{
    act, fresh_seed, is_play_outcome, lemma_seated_in_play, new_room, seated, transition_of,
    Action, Claims, Room, RoomView,
};
use pasetors::keys::AsymmetricKeyPair;
use pasetors::version4::V4;
use std::collections::HashMap;
use vstd::prelude::*;

verus! {

/// What the registry holds: its rooms by name, and how many it may hold.
#[verifier::ext_equal]
pub struct ServerView {
    pub rooms: Map<RoomId, RoomView>,
    pub max_rooms: int,
}

/// The rooms of `server` with the room `room_id` put or replaced by `room`.
pub open spec fn with_room(server: ServerView, room_id: RoomId, room: RoomView) -> ServerView {
    ServerView { rooms: server.rooms.insert(room_id, room), ..server }
}

/// The rooms whose game has not ended.
pub open spec fn unfinished(rooms: Map<RoomId, RoomView>) -> Map<RoomId, RoomView> {
    rooms.restrict(Set::new(|room_id: RoomId| !(rooms[room_id].game.stage is Over)))
}

/// Why no seat can be taken in the room `room_id`, if none can: there is no
/// such room, or all its seats are taken.
pub open spec fn seat_refusal(server: ServerView, room_id: RoomId) -> Option<RoomJoinError> {
    if !server.rooms.contains_key(room_id) {
        Some(RoomJoinError::InvalidRoomId(InvalidRoomId))
    } else if server.rooms[room_id].joined_players == server.rooms[room_id].max_players {
        Some(
            RoomJoinError::RoomFull(
                RoomFull { max_players: server.rooms[room_id].max_players as u8 },
            ),
        )
    } else {
        None
    }
}

/// The registry after the next seat of the room `room_id` was taken, with
/// `seed` at hand for the deal.
pub open spec fn with_seat_taken(server: ServerView, room_id: RoomId, seed: [u8; 32]) -> ServerView {
    with_room(server, room_id, seated(server.rooms[room_id], seed))
}

/// What `action` does when it is asked for the seat `player` of the room
/// `room_id` with `seed` at hand: what it does to that room, or a refusal.
pub open spec fn acted(
    server: ServerView,
    action: Action,
    player: usize,
    room_id: RoomId,
    seed: [u8; 32],
) -> Result<ServerView, PlayError> {
    if !server.rooms.contains_key(room_id) {
        Err(PlayError::InvalidRoomId(InvalidRoomId))
    } else {
        match act(server.rooms[room_id], transition_of(action, player, seed)) {
            Ok(room) => Ok(with_room(server, room_id, room)),
            Err(reason) => Err(reason),
        }
    }
}

/// Whether a call that asked `action` for the seat `player` of the room
/// `room_id` with `seed` at hand may have ended in `after` with the answer
/// `res`.
pub open spec fn is_action_outcome(
    before: ServerView,
    action: Action,
    player: usize,
    room_id: RoomId,
    seed: [u8; 32],
    after: ServerView,
    res: Result<(), PlayError>,
) -> bool {
    match acted(before, action, player, room_id, seed) {
        Ok(next) => res is Ok && after == next,
        Err(reason) => res == Err::<(), PlayError>(reason) && after == before,
    }
}

/// The registry of rooms.
pub struct Server {
    key_pair: AsymmetricKeyPair<V4>,
    rooms: HashMap<RoomId, Room>,
    finished_rooms: Vec<RoomId>,
    max_rooms: usize,
}

impl View for Server {
    type V = ServerView;

    closed spec fn view(&self) -> ServerView {
        ServerView {
            rooms: self.rooms@.map_values(|room: Room| room@),
            max_rooms: self.max_rooms as int,
        }
    }
}

impl Server {
    /// The invariant of the registry: every room is in order, no more rooms
    /// are held than may be, and every room whose game has ended is noted for
    /// removal.
    pub closed spec fn wf(&self) -> bool {
        &&& self.rooms@.len() <= self.max_rooms
        &&& forall|room_id: RoomId|
            self.rooms@.contains_key(room_id) ==> (#[trigger] self.rooms@[room_id]).wf()
        &&& forall|room_id: RoomId|
            self.rooms@.contains_key(room_id) && (#[trigger] self.rooms@[room_id])@.game.stage
                is Over ==> self.finished_rooms@.contains(room_id)
    }

    /// The key pair with which the registry signs its credentials and reads
    /// them. It is the one the registry was made with, for as long as the
    /// registry lives.
    pub closed spec fn key_pair(&self) -> AsymmetricKeyPair<V4> {
        self.key_pair
    }

    /// A registry in order holds finitely many rooms, and no more than it
    /// may.
    pub proof fn lemma_rooms_bounded(&self)
        requires
            self.wf(),
        ensures
            self@.rooms.dom().finite(),
            self@.rooms.len() <= self@.max_rooms,
    {
        self.lemma_view_len();
    }

    /// A registry without rooms that may hold `max_rooms` of them and signs
    /// its credentials with `key_pair`.
    pub fn new(key_pair: AsymmetricKeyPair<V4>, max_rooms: usize) -> (server: Server)
        ensures
            server.wf(),
            server@ == (ServerView { rooms: Map::empty(), max_rooms: max_rooms as int }),
            server.key_pair() == key_pair,
    {
        let server = Server {
            key_pair,
            rooms: HashMap::new(),
            finished_rooms: Vec::new(),
            max_rooms,
        };
        assert(server@.rooms =~= Map::empty());
        server
    }

    /// Reads a credential. A token that this registry did not sign, that is
    /// damaged or no longer valid, or whose claims do not name a seat and a
    /// room, is answered with the one refusal; the holder of any other is the
    /// one its claims name, and shows the token it was read from.
    pub fn verify(&self, token: &str) -> (res: Result<AuthenticatedPlayer, InvalidToken>)
        ensures
            res matches Ok(player) ==> exists|subject: Seq<char>, room: Seq<char>|
                #[trigger] holder_of(token@, Some(subject), Some(room)) == Some(player.parts()),
    {
        match read_claims(&self.key_pair, token, SUBJECT_CLAIM, ROOM_CLAIM) {
            Ok((subject, room)) => {
                let ghost named = (subject, room);
                let res = authenticated_player(token, subject, room);
                proof {
                    if res is Ok {
                        assert(holder_of(token@, Some(named.0.unwrap()@), Some(named.1.unwrap()@))
                            == Some(res.unwrap().parts()));
                    }
                }
                res
            },
            Err(_) => Err(InvalidToken),
        }
    }

    /// Sets up a room under a name drawn at random, unless the registry is
    /// full.
    pub fn create_room(&mut self, players: u8, starting_hand_size: u8, decks: u8) -> (res: Result<
        RoomId,
        ServerFull,
    >)
        requires
            old(self).wf(),
            valid_config(players, starting_hand_size, Some(decks)),
        ensures
            final(self).wf(),
            final(self).key_pair() == old(self).key_pair(),
            old(self)@.rooms.len() == old(self)@.max_rooms ==> res is Err && final(self)@ == old(
                self,
            )@,
            old(self)@.rooms.len() != old(self)@.max_rooms ==> res is Ok && final(self)@
                == with_room(
                old(self)@,
                res.unwrap(),
                new_room(players, starting_hand_size, decks),
            ),
    {
        let room_id = fresh_room_id();
        self.create_room_with_id(room_id, players, starting_hand_size, decks)
    }

    /// Sets up a room under the name `room_id`, unless the registry is full.
    /// A room that had the name before is replaced.
    pub fn create_room_with_id(
        &mut self,
        room_id: RoomId,
        players: u8,
        starting_hand_size: u8,
        decks: u8,
    ) -> (res: Result<RoomId, ServerFull>)
        requires
            old(self).wf(),
            valid_config(players, starting_hand_size, Some(decks)),
        ensures
            final(self).wf(),
            final(self).key_pair() == old(self).key_pair(),
            old(self)@.rooms.len() == old(self)@.max_rooms ==> res == Err::<RoomId, ServerFull>(
                ServerFull,
            ) && final(self)@ == old(self)@,
            old(self)@.rooms.len() != old(self)@.max_rooms ==> res == Ok::<RoomId, ServerFull>(
                room_id,
            ) && final(self)@ == with_room(
                old(self)@,
                room_id,
                new_room(players, starting_hand_size, decks),
            ),
    {
        proof {
            self.lemma_view_len();
        }
        if self.max_rooms == self.rooms.len() {
            return Err(ServerFull);
        }
        let room = Room::new(players, starting_hand_size, decks);
        self.rooms.insert(room_id, room);
        proof {
            assert(self@.rooms =~= old(self)@.rooms.insert(
                room_id,
                new_room(players, starting_hand_size, decks),
            ));
        }
        Ok(room_id)
    }

    /// Takes the next seat of the room `room_id` and hands out the credential
    /// for it. The seat is taken only if the credential could be signed; a
    /// seat that fills the room has the first round dealt with a seed drawn
    /// at random.
    pub fn join(&mut self, room_id: &RoomId) -> (res: Result<String, RoomJoinError>)
        requires
            old(self).wf(),
        ensures
            final(self).wf(),
            final(self).key_pair() == old(self).key_pair(),
            match seat_refusal(old(self)@, *room_id) {
                Some(reason) => res == Err::<String, RoomJoinError>(reason) && final(self)@
                    == old(self)@,
                None => match res {
                    Ok(_) => exists|seed: [u8; 32]|
                        final(self)@ == #[trigger] with_seat_taken(old(self)@, *room_id, seed),
                    Err(reason) => reason == RoomJoinError::InvalidToken(InvalidToken)
                        && final(self)@ == old(self)@,
                },
            },
    {
        let seat = match self.rooms.get(room_id) {
            Some(room) => match room.next_seat() {
                Ok(claims) => claims.subject,
                Err(full) => {
                    return Err(RoomJoinError::RoomFull(full));
                },
            },
            None => {
                return Err(RoomJoinError::InvalidRoomId(InvalidRoomId));
            },
        };
        let subject = seat_text(seat);
        let room = room_id_text(*room_id);
        let token = match sign_claims(&self.key_pair, subject.as_str(), ROOM_CLAIM, room.as_str()) {
            Ok(token) => token,
            Err(_) => {
                return Err(RoomJoinError::InvalidToken(InvalidToken));
            },
        };
        let seed = fresh_seed();
        let _ = self.take_seat(room_id, seed);
        assert(self@ == with_seat_taken(old(self)@, *room_id, seed));
        Ok(token)
    }

    /// Takes the next seat of the room `room_id`; if the seat fills the room,
    /// its first round is dealt with `seed`.
    pub fn take_seat(&mut self, room_id: &RoomId, seed: [u8; 32]) -> (res: Result<
        Claims,
        RoomJoinError,
    >)
        requires
            old(self).wf(),
        ensures
            final(self).wf(),
            final(self).key_pair() == old(self).key_pair(),
            match seat_refusal(old(self)@, *room_id) {
                Some(reason) => res == Err::<Claims, RoomJoinError>(reason) && final(self)@
                    == old(self)@,
                None => res == Ok::<Claims, RoomJoinError>(
                    Claims { subject: old(self)@.rooms[*room_id].joined_players as u8 },
                ) && final(self)@ == with_seat_taken(old(self)@, *room_id, seed),
            },
    {
        proof {
            self.lemma_view_len();
        }
        let mut room = match self.rooms.remove(room_id) {
            Some(room) => room,
            None => {
                assert(self.rooms@ =~= old(self).rooms@);
                return Err(RoomJoinError::InvalidRoomId(InvalidRoomId));
            },
        };
        let ghost before = room@;
        let res = room.join_with_seed(seed);
        let ghost joined = room@;
        self.rooms.insert(*room_id, room);
        proof {
            if res is Ok {
                lemma_seated_in_play(before, seed);
            }
            assert(self.rooms@.dom() =~= old(self).rooms@.dom());
            self.lemma_view_len();
            old(self).lemma_view_len();
            match res {
                Ok(_) => {
                    assert(self@.rooms =~= old(self)@.rooms.insert(*room_id, joined));
                },
                Err(_) => {
                    assert(self@.rooms =~= old(self)@.rooms);
                },
            }
        }
        match res {
            Ok(claims) => Ok(claims),
            Err(full) => Err(RoomJoinError::RoomFull(full)),
        }
    }

    /// Carries out `action` for the seat `player` of the room `room_id`. A
    /// deal is made with a seed drawn at random. A room whose game ends with
    /// the action is noted for removal.
    pub fn play(&mut self, action: Action, player: usize, room_id: &RoomId) -> (res: Result<
        (),
        PlayError,
    >)
        requires
            old(self).wf(),
        ensures
            final(self).wf(),
            final(self).key_pair() == old(self).key_pair(),
            exists|seed: [u8; 32]|
                is_action_outcome(old(self)@, action, player, *room_id, seed, final(self)@, res),
    {
        let seed = match action {
            Action::Deal => fresh_seed(),
            _ => [0u8; 32],
        };
        let res = self.play_with_seed(action, player, room_id, seed);
        assert(is_action_outcome(old(self)@, action, player, *room_id, seed, self@, res));
        res
    }

    /// Carries out `action` for the seat `player` of the room `room_id`; a
    /// deal is made with `seed`.
    pub fn play_with_seed(
        &mut self,
        action: Action,
        player: usize,
        room_id: &RoomId,
        seed: [u8; 32],
    ) -> (res: Result<(), PlayError>)
        requires
            old(self).wf(),
        ensures
            final(self).wf(),
            final(self).key_pair() == old(self).key_pair(),
            is_action_outcome(old(self)@, action, player, *room_id, seed, final(self)@, res),
    {
        proof {
            self.lemma_view_len();
        }
        let mut room = match self.rooms.remove(room_id) {
            Some(room) => room,
            None => {
                assert(self.rooms@ =~= old(self).rooms@);
                return Err(PlayError::InvalidRoomId(InvalidRoomId));
            },
        };
        let ghost before = room@;
        let res = room.play_with_seed(action, player, seed);
        let over = room.is_game_over();
        let ghost after = room@;
        self.rooms.insert(*room_id, room);
        if res.is_ok() && over {
            self.finished_rooms.push(*room_id);
        }
        proof {
            assert(self.rooms@.dom() =~= old(self).rooms@.dom());
            self.lemma_view_len();
            old(self).lemma_view_len();
            assert(self@.rooms =~= old(self)@.rooms.insert(*room_id, after));
            assert(is_play_outcome(before, action, player, seed, after, res));
            assert(old(self)@.rooms.contains_key(*room_id));
            assert(old(self)@.rooms[*room_id] == before);
            if res is Err {
                assert(self@.rooms =~= old(self)@.rooms);
            }
            assert(is_action_outcome(old(self)@, action, player, *room_id, seed, self@, res));
            assert forall|id: RoomId|
                self.rooms@.contains_key(id) && (#[trigger] self.rooms@[id])@.game.stage
                    is Over implies self.finished_rooms@.contains(id) by {
                if id == *room_id {
                    if res.is_ok() {
                        assert(self.finished_rooms@.last() == id);
                    } else {
                        assert(old(self).finished_rooms@.contains(id));
                    }
                } else {
                    assert(old(self).rooms@[id] == self.rooms@[id]);
                    assert(old(self).finished_rooms@.contains(id));
                    let k = choose|k: int|
                        0 <= k < old(self).finished_rooms@.len() && old(self).finished_rooms@[k]
                            == id;
                    assert(self.finished_rooms@[k] == id);
                }
            }
        }
        res
    }

    /// The room `room_id`.
    pub fn room(&self, room_id: &RoomId) -> (res: Result<&Room, InvalidRoomId>)
        ensures
            match res {
                Ok(room) => self@.rooms.contains_key(*room_id) && room@ == self@.rooms[*room_id],
                Err(_) => !self@.rooms.contains_key(*room_id),
            },
    {
        match self.rooms.get(room_id) {
            Some(room) => Ok(room),
            None => Err(InvalidRoomId),
        }
    }

    /// Removes every room whose game has ended.
    pub fn remove_finished_rooms(&mut self)
        requires
            old(self).wf(),
        ensures
            final(self).wf(),
            final(self).key_pair() == old(self).key_pair(),
            final(self)@.rooms == unfinished(old(self)@.rooms),
            final(self)@.max_rooms == old(self)@.max_rooms,
    {
        let ghost noted = self.finished_rooms@;
        let ghost rooms = self.rooms@;
        proof {
            self.lemma_view_len();
        }
        while self.finished_rooms.len() > 0
            invariant
                self.max_rooms == old(self).max_rooms,
                self.key_pair == old(self).key_pair,
                self.finished_rooms@ == noted.take(self.finished_rooms@.len() as int),
                self.finished_rooms@.len() <= noted.len(),
                self.rooms@.len() <= self.max_rooms,
                forall|id: RoomId|
                    rooms.contains_key(id) && (#[trigger] rooms[id])@.game.stage is Over
                        ==> noted.contains(id),
                forall|id: RoomId| rooms.contains_key(id) ==> (#[trigger] rooms[id]).wf(),
                forall|id: RoomId|
                    #[trigger] self.rooms@.contains_key(id) <==> rooms.contains_key(id) && (!(
                    rooms[id]@.game.stage is Over) || !noted.skip(
                        self.finished_rooms@.len() as int,
                    ).contains(id)),
                forall|id: RoomId|
                    self.rooms@.contains_key(id) ==> (#[trigger] self.rooms@[id]) == rooms[id],
            decreases self.finished_rooms@.len(),
        {
            let ghost listed = self.finished_rooms@.len();
            let ghost held = self.rooms@;
            let room_id = self.finished_rooms[self.finished_rooms.len() - 1];
            self.finished_rooms.pop();
            match self.rooms.remove(&room_id) {
                Some(room) => {
                    if !room.is_game_over() {
                        self.rooms.insert(room_id, room);
                        assert(self.rooms@ =~= held);
                    }
                },
                None => {},
            }
            proof {
                assert(self.finished_rooms@ =~= noted.take(listed - 1));
                assert(noted.skip(listed - 1) =~= seq![room_id] + noted.skip(listed as int));
                assert(self.rooms@.dom().subset_of(held.dom()));
                vstd::set_lib::lemma_len_subset(self.rooms@.dom(), held.dom());
                assert forall|id: RoomId| #[trigger]
                    self.rooms@.contains_key(id) <==> rooms.contains_key(id) && (!(
                    rooms[id]@.game.stage is Over) || !noted.skip(
                        self.finished_rooms@.len() as int,
                    ).contains(id)) by {
                    let rest = noted.skip(listed as int);
                    let more = noted.skip(listed - 1);
                    if rest.contains(id) {
                        let k = choose|k: int| 0 <= k < rest.len() && rest[k] == id;
                        assert(more[k + 1] == id);
                    }
                    if more.contains(id) && id != room_id {
                        let k = choose|k: int| 0 <= k < more.len() && more[k] == id;
                        assert(rest[k - 1] == id);
                    }
                    assert(more[0] == room_id);
                }
            }
        }
        proof {
            assert(noted.skip(0) =~= noted);
            assert(self@.rooms =~= unfinished(old(self)@.rooms));
        }
    }

    /// The number of rooms seen is the number of rooms held.
    proof fn lemma_view_len(&self)
        ensures
            self@.rooms.len() == self.rooms@.len(),
            self@.rooms.dom() == self.rooms@.dom(),
            self.rooms@.dom().finite(),
    {
        assert(self@.rooms.dom() =~= self.rooms@.dom());
    }
}

} // verus!
