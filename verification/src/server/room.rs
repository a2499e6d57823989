//! Rooms: each has a host and the clients that have joined it.

use rand::Rng;
use vstd::prelude::*;
use vstd::string::*;
use crate::string_map::StringMap;
use crate::text;

verus! {

/// A client of a room.
#[verifier::ext_equal]
pub struct ClientModel {
    pub peer_id: Seq<char>,
    pub addr: Seq<char>,
}

/// A room.
#[verifier::ext_equal]
pub struct RoomModel {
    pub room_id: Seq<char>,
    pub host_peer_id: Seq<char>,
    pub host_addr: Seq<char>,
    pub clients: Map<Seq<char>, ClientModel>,
}

/// All rooms, and the room of each peer.
#[verifier::ext_equal]
pub struct RoomsModel {
    pub rooms: Map<Seq<char>, RoomModel>,
    pub peer_to_room: Map<Seq<char>, Seq<char>>,
}

/// Whether a byte is an ASCII letter or digit.
pub open spec fn is_alphanumeric(b: u8) -> bool {
    48 <= b <= 57 || 65 <= b <= 90 || 97 <= b <= 122
}

/// The character of a letter or digit, a letter made small.
pub open spec fn small_char(b: u8) -> char {
    if 65 <= b <= 90 {
        (b + 32) as char
    } else {
        b as char
    }
}

/// Whether bytes can make the name of a room: six letters or digits.
pub open spec fn is_draw(drawn: Seq<u8>) -> bool {
    drawn.len() == 6 && forall|i: int|
        0 <= i < drawn.len() ==> is_alphanumeric(#[trigger] drawn[i])
}

/// The name that letters and digits make, the letters made small.
pub open spec fn name_of(drawn: Seq<u8>) -> Seq<char> {
    Seq::new(drawn.len(), |i: int| small_char(drawn[i]))
}

/// Whether a character is a digit or a small ASCII letter.
pub open spec fn is_id_char(c: char) -> bool {
    '0' <= c <= '9' || 'a' <= c <= 'z'
}

/// Whether a text can name a room: six digits or small letters.
pub open spec fn is_room_id(id: Seq<char>) -> bool {
    id.len() == 6 && forall|i: int| 0 <= i < id.len() ==> is_id_char(#[trigger] id[i])
}

/// The name of the host of a room.
pub open spec fn host_id(room_id: Seq<char>) -> Seq<char> {
    "host_"@ + room_id.take(4)
}

/// The name of the `n`th client of a room.
pub open spec fn client_id(room_id: Seq<char>, n: nat) -> Seq<char> {
    "client_"@ + room_id.take(3) + "_"@ + text::decimal(n)
}

impl RoomModel {
    /// A room that nobody has joined.
    pub open spec fn opened(room_id: Seq<char>, host_addr: Seq<char>) -> RoomModel {
        RoomModel { room_id, host_peer_id: host_id(room_id), host_addr, clients: Map::empty() }
    }

    /// Whether a number is the first free one above the count of the clients.
    pub open spec fn is_next_number(self, room_id: Seq<char>, n: nat) -> bool {
        &&& n > self.clients.dom().len()
        &&& !self.clients.contains_key(client_id(room_id, n))
        &&& forall|m: nat|
            self.clients.dom().len() < m < n ==> self.clients.contains_key(
                #[trigger] client_id(room_id, m),
            )
    }

    /// The number that the next client gets.
    pub open spec fn next_number(self, room_id: Seq<char>) -> nat {
        choose|n: nat| self.is_next_number(room_id, n)
    }

    /// The name that the next client gets in the room called `room_id`.
    pub open spec fn next_client(self, room_id: Seq<char>) -> Seq<char> {
        client_id(room_id, self.next_number(room_id))
    }

    /// The names that the clients go by.
    pub open spec fn client_names(self) -> Set<Seq<char>> {
        Set::new(
            |name: Seq<char>|
                exists|key: Seq<char>| #[trigger]
                    self.clients.contains_key(key) && self.clients[key].peer_id == name,
        )
    }
}

impl RoomsModel {
    pub open spec fn empty() -> RoomsModel {
        RoomsModel { rooms: Map::empty(), peer_to_room: Map::empty() }
    }

    /// After a room was opened.
    pub open spec fn after_create(self, room_id: Seq<char>, host_addr: Seq<char>) -> RoomsModel {
        RoomsModel {
            rooms: self.rooms.insert(room_id, RoomModel::opened(room_id, host_addr)),
            peer_to_room: self.peer_to_room.insert(host_id(room_id), room_id),
        }
    }

    /// The name that the next client of a room gets.
    pub open spec fn next_client(self, room_id: Seq<char>) -> Seq<char> {
        self.rooms[room_id].next_client(room_id)
    }

    /// After a client joined a room.
    pub open spec fn after_join(self, room_id: Seq<char>, addr: Seq<char>) -> RoomsModel {
        if self.rooms.contains_key(room_id) {
            let room = self.rooms[room_id];
            let peer_id = self.next_client(room_id);
            RoomsModel {
                rooms: self.rooms.insert(
                    room_id,
                    RoomModel {
                        clients: room.clients.insert(peer_id, ClientModel { peer_id, addr }),
                        ..room
                    },
                ),
                peer_to_room: self.peer_to_room.insert(peer_id, room_id),
            }
        } else {
            self
        }
    }

    /// The room of a peer.
    pub open spec fn room_of(self, peer_id: Seq<char>) -> Option<Seq<char>> {
        if self.peer_to_room.contains_key(peer_id) {
            Some(self.peer_to_room[peer_id])
        } else {
            None
        }
    }

    /// The room that a peer is the host of.
    pub open spec fn hosted_by(self, peer_id: Seq<char>) -> Option<Seq<char>> {
        match self.room_of(peer_id) {
            Some(room_id) => if self.rooms.contains_key(room_id)
                && self.rooms[room_id].host_peer_id == peer_id {
                Some(room_id)
            } else {
                None
            },
            None => None,
        }
    }

    /// After a peer left: a client leaves its room, that of a host stays.
    pub open spec fn after_leave(self, peer_id: Seq<char>) -> RoomsModel {
        match self.room_of(peer_id) {
            None => self,
            Some(room_id) => RoomsModel {
                peer_to_room: self.peer_to_room.remove(peer_id),
                rooms: if self.rooms.contains_key(room_id) && self.hosted_by(peer_id) is None {
                    let room = self.rooms[room_id];
                    self.rooms.insert(
                        room_id,
                        RoomModel { clients: room.clients.remove(peer_id), ..room },
                    )
                } else {
                    self.rooms
                },
            },
        }
    }

    /// After a room was closed: it, its host and its clients are forgotten.
    pub open spec fn after_close(self, room_id: Seq<char>) -> RoomsModel {
        if self.rooms.contains_key(room_id) {
            let room = self.rooms[room_id];
            RoomsModel {
                rooms: self.rooms.remove(room_id),
                peer_to_room: self.peer_to_room.remove(room.host_peer_id).remove_keys(
                    room.client_names(),
                ),
            }
        } else {
            self
        }
    }
}

/// A client that has joined a room.
#[derive(Debug)]
pub struct ClientInfo {
    pub peer_id: String,
    pub addr: String,
}

impl View for ClientInfo {
    type V = ClientModel;

    open spec fn view(&self) -> ClientModel {
        ClientModel { peer_id: self.peer_id@, addr: self.addr@ }
    }
}

/// A room: its host, and the clients that have joined it.
pub struct Room {
    pub room_id: String,
    pub host_peer_id: String,
    pub host_addr: String,
    pub clients: StringMap<ClientInfo>,
}

/// Clients, each by its model.
pub open spec fn client_models(clients: Map<Seq<char>, ClientInfo>) -> Map<Seq<char>, ClientModel> {
    clients.map_values(|c: ClientInfo| c@)
}

impl View for Room {
    type V = RoomModel;

    open spec fn view(&self) -> RoomModel {
        RoomModel {
            room_id: self.room_id@,
            host_peer_id: self.host_peer_id@,
            host_addr: self.host_addr@,
            clients: client_models(self.clients@),
        }
    }
}

impl Room {
    pub open spec fn wf(&self) -> bool {
        self.clients.wf()
    }
}

/// Rooms, each by its model.
pub open spec fn room_models(rooms: Map<Seq<char>, Room>) -> Map<Seq<char>, RoomModel> {
    rooms.map_values(|r: Room| r@)
}

/// Names, each by its characters.
pub open spec fn name_models(names: Map<Seq<char>, String>) -> Map<Seq<char>, Seq<char>> {
    names.map_values(|s: String| s@)
}

/// The rooms of a server.
pub struct RoomManager {
    rooms: StringMap<Room>,
    peer_to_room: StringMap<String>,
}

impl View for RoomManager {
    type V = RoomsModel;

    closed spec fn view(&self) -> RoomsModel {
        RoomsModel {
            rooms: room_models(self.rooms@),
            peer_to_room: name_models(self.peer_to_room@),
        }
    }
}

/// `rng.sample(Alphanumeric)` of rand, on the thread's generator: an ASCII
/// letter or digit. Which one is chance.
#[verifier::external_body]
fn random_alphanumeric() -> (b: u8)
    ensures
        is_alphanumeric(b),
{
    rand::thread_rng().sample(rand::distributions::Alphanumeric)
}

/// Six bytes that chance chose, each an ASCII letter or digit.
fn draw() -> (drawn: Vec<u8>)
    ensures
        is_draw(drawn@),
{
    let mut drawn: Vec<u8> = Vec::new();
    while drawn.len() < 6
        invariant
            drawn@.len() <= 6,
            forall|j: int| 0 <= j < drawn@.len() ==> is_alphanumeric(#[trigger] drawn@[j]),
        decreases 6 - drawn@.len(),
    {
        drawn.push(random_alphanumeric());
    }
    drawn
}

/// The name of a room that six letters or digits make: each of them in its
/// place, the letters made small.
pub fn room_name(drawn: &Vec<u8>) -> (id: String)
    requires
        is_draw(drawn@),
    ensures
        id@ == name_of(drawn@),
        is_room_id(id@),
{
    let mut id = String::new();
    let mut i: usize = 0;
    assert(drawn@.take(0) =~= Seq::empty());
    assert(id@ =~= name_of(drawn@.take(0)));
    while i < drawn.len()
        invariant
            i <= drawn@.len(),
            is_draw(drawn@),
            id@ == name_of(drawn@.take(i as int)),
        decreases drawn.len() - i,
    {
        let b: u8 = drawn[i];
        let small: u8 = if 65 <= b && b <= 90 {
            b + 32
        } else {
            b
        };
        id.push(small as char);
        i = i + 1;
        assert(id@ =~= name_of(drawn@.take(i as int)));
    }
    assert(drawn@.take(i as int) =~= drawn@);
    id
}

/// A name for a room, from what chance chose.
fn generate_room_id() -> (id: String)
    ensures
        exists|drawn: Seq<u8>| #[trigger] is_draw(drawn) && id@ == name_of(drawn),
        is_room_id(id@),
{
    let drawn = draw();
    room_name(&drawn)
}

proof fn lemma_ascii(id: Seq<char>)
    requires
        is_room_id(id),
    ensures
        vstd::utf8::is_ascii_chars(id),
{
}

proof fn lemma_clients_insert(clients: Map<Seq<char>, ClientInfo>, key: Seq<char>, c: ClientInfo)
    ensures
        client_models(clients.insert(key, c)) == client_models(clients).insert(key, c@),
{
    assert(client_models(clients.insert(key, c)) =~= client_models(clients).insert(key, c@));
}

proof fn lemma_rooms_insert(rooms: Map<Seq<char>, Room>, key: Seq<char>, r: Room)
    ensures
        room_models(rooms.insert(key, r)) == room_models(rooms).insert(key, r@),
{
    assert(room_models(rooms.insert(key, r)) =~= room_models(rooms).insert(key, r@));
}

proof fn lemma_names_insert(names: Map<Seq<char>, String>, key: Seq<char>, s: String)
    ensures
        name_models(names.insert(key, s)) == name_models(names).insert(key, s@),
{
    assert(name_models(names.insert(key, s)) =~= name_models(names).insert(key, s@));
}

proof fn lemma_removed(
    clients: Map<Seq<char>, ClientInfo>,
    rooms: Map<Seq<char>, Room>,
    names: Map<Seq<char>, String>,
    key: Seq<char>,
)
    ensures
        client_models(clients.remove(key)) == client_models(clients).remove(key),
        room_models(rooms.remove(key)) == room_models(rooms).remove(key),
        name_models(names.remove(key)) == name_models(names).remove(key),
{
    assert(client_models(clients.remove(key)) =~= client_models(clients).remove(key));
    assert(room_models(rooms.remove(key)) =~= room_models(rooms).remove(key));
    assert(name_models(names.remove(key)) =~= name_models(names).remove(key));
}

/// As many numbers in a row can be taken as there are clients.
proof fn lemma_taken(names: Set<Seq<char>>, room_id: Seq<char>, base: nat, k: nat)
    requires
        names.finite(),
        forall|m: nat| base < m <= base + k ==> names.contains(#[trigger] client_id(room_id, m)),
    ensures
        k <= names.len(),
    decreases k,
{
    if k > 0 {
        let last = client_id(room_id, base + k);
        let rest = names.remove(last);
        assert(names.contains(last));
        assert forall|m: nat| base < m <= base + k - 1 implies rest.contains(
            #[trigger] client_id(room_id, m),
        ) by {
            if client_id(room_id, m) == last {
                law_client_names_differ(room_id, m, base + k);
            }
        }
        lemma_taken(rest, room_id, base, (k - 1) as nat);
    }
}

/// From `n` on there is a number that is free.
proof fn lemma_search(room: RoomModel, room_id: Seq<char>, n: nat)
    requires
        room.clients.dom().finite(),
        room.clients.dom().len() < n,
        forall|m: nat|
            room.clients.dom().len() < m < n ==> room.clients.contains_key(
                #[trigger] client_id(room_id, m),
            ),
    ensures
        exists|k: nat| room.is_next_number(room_id, k),
    decreases 2 * room.clients.dom().len() + 2 - n,
{
    let count = room.clients.dom().len();
    if room.clients.contains_key(client_id(room_id, n)) {
        assert forall|m: nat| count < m <= count + (n - count) implies room.clients.dom().contains(
            #[trigger] client_id(room_id, m),
        ) by {
            assert(room.clients.contains_key(client_id(room_id, m)));
        }
        lemma_taken(room.clients.dom(), room_id, count, (n - count) as nat);
        lemma_search(room, room_id, n + 1);
    } else {
        assert(room.is_next_number(room_id, n));
    }
}

/// There is always a next number, and only one.
pub proof fn lemma_next_number(room: RoomModel, room_id: Seq<char>)
    requires
        room.clients.dom().finite(),
    ensures
        room.is_next_number(room_id, room.next_number(room_id)),
        forall|n: nat| #[trigger]
            room.is_next_number(room_id, n) ==> n == room.next_number(room_id),
{
    lemma_search(room, room_id, room.clients.dom().len() + 1);
    let next = room.next_number(room_id);
    assert forall|n: nat| #[trigger] room.is_next_number(room_id, n) implies n == next by {
        if n < next {
            assert(room.clients.contains_key(client_id(room_id, n)));
        } else if next < n {
            assert(room.clients.contains_key(client_id(room_id, next)));
        }
    }
}

/// The name that the next client of a room gets.
fn first_free_name(room: &Room, room_id: &str) -> (name: String)
    requires
        room.wf(),
        is_room_id(room_id@),
    ensures
        room@.is_next_number(room_id@, room@.next_number(room_id@)),
        name@ == room@.next_client(room_id@),
{
    proof {
        lemma_ascii(room_id@);
        assert(room@.clients.dom() =~= room.clients@.dom());
    }
    let mut start = "client_".to_owned();
    start.append(room_id.substring_ascii(0, 3));
    start.append("_");
    let count: usize = room.clients.len();
    let mut n: u128 = count as u128 + 1;
    proof {
        lemma_next_number(room@, room_id@);
    }
    loop
        invariant
            room.wf(),
            room@.clients.dom() == room.clients@.dom(),
            room@.clients.dom().finite(),
            count == room@.clients.dom().len(),
            count < n <= 2 * count + 1,
            start@ == "client_"@ + room_id@.take(3) + "_"@,
            room@.is_next_number(room_id@, room@.next_number(room_id@)),
            forall|m: nat|
                count < m < n ==> room@.clients.contains_key(#[trigger] client_id(room_id@, m)),
        decreases 2 * count + 2 - n,
    {
        let mut name = start.clone();
        text::push_decimal(&mut name, n);
        assert(name@ =~= client_id(room_id@, n as nat));
        if !room.clients.contains_key(name.as_str()) {
            proof {
                lemma_next_number(room@, room_id@);
                assert(room@.is_next_number(room_id@, n as nat));
            }
            return name;
        }
        proof {
            assert forall|m: nat|
                count < m <= count + (n - count) implies room@.clients.dom().contains(
                #[trigger] client_id(room_id@, m),
            ) by {
                assert(room@.clients.contains_key(client_id(room_id@, m)));
            }
            lemma_taken(room@.clients.dom(), room_id@, count as nat, (n - count) as nat);
        }
        n = n + 1;
    }
}

impl RoomManager {
    /// Each room is well formed and has a name that can name a room.
    pub closed spec fn wf(&self) -> bool {
        &&& self.rooms.wf()
        &&& self.peer_to_room.wf()
        &&& forall|id: Seq<char>| #[trigger]
            self.rooms@.contains_key(id) ==> is_room_id(id) && self.rooms@[id].wf()
    }

    /// No rooms.
    pub fn new() -> (manager: RoomManager)
        ensures
            manager.wf(),
            manager@ == RoomsModel::empty(),
    {
        let manager = RoomManager { rooms: StringMap::new(), peer_to_room: StringMap::new() };
        assert(manager@ =~= RoomsModel::empty());
        manager
    }

    /// Opens a room under a name that chance chose, and gives that name and the
    /// name of its host.
    pub fn create_room(&mut self, host_addr: &str) -> (ids: (String, String))
        requires
            old(self).wf(),
        ensures
            final(self).wf(),
            is_room_id(ids.0@),
            exists|drawn: Seq<u8>| #[trigger] is_draw(drawn) && ids.0@ == name_of(drawn),
            ids.1@ == host_id(ids.0@),
            final(self)@ == old(self)@.after_create(ids.0@, host_addr@),
    {
        let room_id = generate_room_id();
        let host_peer_id = self.create_room_as(&room_id, host_addr);
        (room_id, host_peer_id)
    }

    /// Opens a room and gives the name of its host.
    pub fn create_room_as(&mut self, room_id: &String, host_addr: &str) -> (host_peer_id: String)
        requires
            old(self).wf(),
            is_room_id(room_id@),
        ensures
            final(self).wf(),
            host_peer_id@ == host_id(room_id@),
            final(self)@ == old(self)@.after_create(room_id@, host_addr@),
    {
        proof {
            lemma_ascii(room_id@);
        }
        let mut host_peer_id = "host_".to_owned();
        host_peer_id.append(room_id.as_str().substring_ascii(0, 4));
        assert(host_peer_id@ =~= host_id(room_id@));
        let room = Room {
            room_id: room_id.clone(),
            host_peer_id: host_peer_id.clone(),
            host_addr: host_addr.to_owned(),
            clients: StringMap::new(),
        };
        proof {
            assert(room@ =~= RoomModel::opened(room_id@, host_addr@));
            lemma_rooms_insert(self.rooms@, room_id@, room);
        }
        self.rooms.insert(room_id.clone(), room);
        let name = room_id.clone();
        proof {
            lemma_names_insert(self.peer_to_room@, host_peer_id@, name);
        }
        self.peer_to_room.insert(host_peer_id.clone(), name);
        host_peer_id
    }

    /// A room.
    pub fn get_room(&self, id: &str) -> (room: Option<&Room>)
        requires
            self.wf(),
        ensures
            match room {
                Some(r) => self@.rooms.contains_key(id@) && r@ == self@.rooms[id@] && r.wf(),
                None => !self@.rooms.contains_key(id@),
            },
    {
        match self.rooms.get(id) {
            None => None,
            Some(r) => {
                assert(self.rooms@.contains_key(id@));
                Some(r)
            },
        }
    }

    /// A room, to be changed in place.
    pub fn get_room_mut(&mut self, id: &str) -> (room: Option<&mut Room>)
        requires
            old(self).wf(),
        ensures
            match room {
                Some(r) => {
                    &&& old(self)@.rooms.contains_key(id@)
                    &&& r@ == old(self)@.rooms[id@]
                    &&& r.wf()
                    &&& final(self)@ == (RoomsModel {
                        rooms: old(self)@.rooms.insert(id@, final(r)@),
                        ..old(self)@
                    })
                    &&& final(r).wf() ==> final(self).wf()
                },
                None => !old(self)@.rooms.contains_key(id@) && final(self)@ == old(self)@
                    && final(self).wf(),
            },
    {
        proof {
            assert forall|r: Room| #[trigger]
                room_models(self.rooms@.insert(id@, r)) == room_models(self.rooms@).insert(
                    id@,
                    r@,
                ) by {
                lemma_rooms_insert(self.rooms@, id@, r);
            }
            assert(self.rooms@.contains_key(id@) ==> is_room_id(id@) && self.rooms@[id@].wf());
        }
        self.rooms.get_mut(id)
    }

    /// Takes a client into a room and gives its name and the address of the
    /// host; none where there is no such room.
    pub fn add_client(&mut self, room_id: &str, addr: &str) -> (joined: Option<(String, String)>)
        requires
            old(self).wf(),
        ensures
            final(self).wf(),
            match joined {
                Some((peer_id, host_addr)) => {
                    &&& old(self)@.rooms.contains_key(room_id@)
                    &&& peer_id@ == old(self)@.next_client(room_id@)
                    &&& !old(self)@.rooms[room_id@].clients.contains_key(peer_id@)
                    &&& exists|n: nat|
                        old(self)@.rooms[room_id@].is_next_number(room_id@, n) && peer_id@
                            == #[trigger] client_id(room_id@, n)
                    &&& host_addr@ == old(self)@.rooms[room_id@].host_addr
                },
                None => !old(self)@.rooms.contains_key(room_id@),
            },
            final(self)@ == old(self)@.after_join(room_id@, addr@),
    {
        let ghost before = self@;
        let ghost rooms = self.rooms@;
        match self.rooms.get_mut(room_id) {
            None => None,
            Some(room) => {
                let ghost room_before = *room;
                proof {
                    assert(rooms.contains_key(room_id@));
                    lemma_ascii(room_id@);
                }
                let peer_id = first_free_name(room, room_id);
                assert(peer_id@ == before.next_client(room_id@));
                let client = ClientInfo { peer_id: peer_id.clone(), addr: addr.to_owned() };
                proof {
                    lemma_clients_insert(room.clients@, peer_id@, client);
                }
                room.clients.insert(peer_id.clone(), client);
                let host_addr = room.host_addr.clone();
                proof {
                    lemma_rooms_insert(rooms, room_id@, *room);
                }
                let name = room_id.to_owned();
                proof {
                    lemma_names_insert(self.peer_to_room@, peer_id@, name);
                }
                self.peer_to_room.insert(peer_id.clone(), name);
                assert(self@ =~= before.after_join(room_id@, addr@));
                Some((peer_id, host_addr))
            },
        }
    }

    /// Forgets a peer. Of a host it gives the room, which stays; a client
    /// leaves its room.
    pub fn remove_peer(&mut self, peer_id: &str) -> (hosted: Option<String>)
        requires
            old(self).wf(),
        ensures
            final(self).wf(),
            match hosted {
                Some(room_id) => old(self)@.hosted_by(peer_id@) == Some(room_id@),
                None => old(self)@.hosted_by(peer_id@) is None,
            },
            final(self)@ == old(self)@.after_leave(peer_id@),
    {
        let ghost before = self@;
        let ghost rooms = self.rooms@;
        let ghost names = self.peer_to_room@;
        proof {
            lemma_removed(Map::empty(), rooms, names, peer_id@);
        }
        let room_id = match self.peer_to_room.remove(peer_id) {
            None => {
                assert(names.remove(peer_id@) =~= names);
                return None;
            },
            Some(id) => id,
        };
        let leaving = peer_id.to_owned();
        match self.rooms.get_mut(room_id.as_str()) {
            None => None,
            Some(room) => {
                assert(rooms.contains_key(room_id@));
                if room.host_peer_id == leaving {
                    proof {
                        lemma_rooms_insert(rooms, room_id@, *room);
                        assert(room_models(rooms).insert(room_id@, room@) =~= room_models(rooms));
                    }
                    Some(room_id)
                } else {
                    proof {
                        lemma_removed(room.clients@, rooms, names, peer_id@);
                    }
                    room.clients.remove(peer_id);
                    proof {
                        lemma_rooms_insert(rooms, room_id@, *room);
                    }
                    None
                }
            },
        }
    }

    /// Closes a room.
    pub fn remove_room(&mut self, room_id: &str)
        requires
            old(self).wf(),
        ensures
            final(self).wf(),
            final(self)@ == old(self)@.after_close(room_id@),
    {
        let ghost before = self@;
        let ghost rooms = self.rooms@;
        proof {
            lemma_removed(Map::empty(), rooms, self.peer_to_room@, room_id@);
            if rooms.contains_key(room_id@) {
                lemma_removed(
                    Map::empty(),
                    rooms,
                    self.peer_to_room@,
                    rooms[room_id@].host_peer_id@,
                );
            } else {
                assert(rooms.remove(room_id@) =~= rooms);
            }
        }
        if let Some(room) = self.rooms.remove(room_id) {
            self.peer_to_room.remove(room.host_peer_id.as_str());
            let ghost names = name_models(self.peer_to_room@);
            let keys: Vec<String> = room.clients.keys();
            let ghost row = crate::string_map::texts(keys@);
            let mut i: usize = 0;
            assert(names.remove_keys(names_in(room@, row.take(0))) =~= names);
            while i < keys.len()
                invariant
                    i <= keys@.len(),
                    row == crate::string_map::texts(keys@),
                    crate::string_map::lists(row, room.clients@.dom()),
                    room.clients.wf(),
                    self.peer_to_room.wf(),
                    self.rooms@ == rooms.remove(room_id@),
                    self.rooms.wf(),
                    name_models(self.peer_to_room@) == names.remove_keys(
                        names_in(room@, row.take(i as int)),
                    ),
                decreases keys.len() - i,
            {
                let ghost done = row.take(i as int);
                assert(row[i as int] == keys@[i as int]@);
                assert(row.to_set().contains(row[i as int]));
                if let Some(client) = room.clients.get(keys[i].as_str()) {
                    proof {
                        lemma_removed(Map::empty(), rooms, self.peer_to_room@, client.peer_id@);
                    }
                    self.peer_to_room.remove(client.peer_id.as_str());
                    proof {
                        assert(row.take(i + 1) =~= done.push(row[i as int]));
                        lemma_names_in_push(room@, done, row[i as int]);
                        assert(names.remove_keys(names_in(room@, done)).remove(client.peer_id@)
                            =~= names.remove_keys(names_in(room@, row.take(i + 1))));
                    }
                }
                i = i + 1;
            }
            proof {
                assert(row.take(i as int) =~= row);
                assert(names_in(room@, row) =~= room@.client_names()) by {
                    assert forall|name: Seq<char>|
                        room@.client_names().contains(name) implies names_in(
                        room@,
                        row,
                    ).contains(name) by {
                        let key = choose|key: Seq<char>| #[trigger]
                            room@.clients.contains_key(key) && room@.clients[key].peer_id == name;
                        assert(row.to_set().contains(key));
                    }
                    assert forall|name: Seq<char>|
                        names_in(room@, row).contains(name) implies room@.client_names().contains(
                        name,
                    ) by {
                        let key = choose|key: Seq<char>| #[trigger]
                            row.contains(key) && room@.clients[key].peer_id == name;
                        assert(row.to_set().contains(key));
                        assert(room@.clients.contains_key(key));
                    }
                }
            }
        }
    }

    /// The room of a peer.
    pub fn find_room_for_peer(&self, peer_id: &str) -> (room_id: Option<String>)
        requires
            self.wf(),
        ensures
            match room_id {
                Some(id) => self@.room_of(peer_id@) == Some(id@),
                None => self@.room_of(peer_id@) is None,
            },
    {
        match self.peer_to_room.get(peer_id) {
            None => None,
            Some(id) => Some(id.clone()),
        }
    }
}

/// The names that the clients under some keys go by.
spec fn names_in(room: RoomModel, keys: Seq<Seq<char>>) -> Set<Seq<char>> {
    Set::new(
        |name: Seq<char>|
            exists|key: Seq<char>| #[trigger]
                keys.contains(key) && room.clients[key].peer_id == name,
    )
}

proof fn lemma_names_in_push(room: RoomModel, keys: Seq<Seq<char>>, key: Seq<char>)
    ensures
        names_in(room, keys.push(key)) == names_in(room, keys).insert(room.clients[key].peer_id),
{
    let more = keys.push(key);
    assert forall|name: Seq<char>| names_in(room, more).contains(name) == names_in(
        room,
        keys,
    ).insert(room.clients[key].peer_id).contains(name) by {
        if names_in(room, more).contains(name) {
            let k = choose|k: Seq<char>| #[trigger]
                more.contains(k) && room.clients[k].peer_id == name;
            let i = choose|i: int| 0 <= i < more.len() && more[i] == k;
            if i < keys.len() {
                assert(keys[i] == k);
                assert(keys.contains(k));
            }
        }
        if names_in(room, keys).contains(name) {
            let k = choose|k: Seq<char>| #[trigger]
                keys.contains(k) && room.clients[k].peer_id == name;
            let i = choose|i: int| 0 <= i < keys.len() && keys[i] == k;
            assert(more[i] == k);
            assert(more.contains(k));
        }
        assert(more[keys.len() as int] == key);
        assert(more.contains(key));
    }
    assert(names_in(room, more) =~= names_in(room, keys).insert(room.clients[key].peer_id));
}

/// A room that was opened is found under its name, empty, and its host leads
/// to it.
pub proof fn law_created_room_is_found(
    manager: RoomsModel,
    room_id: Seq<char>,
    host_addr: Seq<char>,
)
    ensures
        manager.after_create(room_id, host_addr).rooms.contains_key(room_id),
        manager.after_create(room_id, host_addr).rooms[room_id].host_addr == host_addr,
        manager.after_create(room_id, host_addr).rooms[room_id].clients == Map::<
            Seq<char>,
            ClientModel,
        >::empty(),
        manager.after_create(room_id, host_addr).room_of(host_id(room_id)) == Some(room_id),
        manager.after_create(room_id, host_addr).hosted_by(host_id(room_id)) == Some(room_id),
{
}

/// Closing a new room undoes its opening.
pub proof fn law_closing_undoes_creating(
    manager: RoomsModel,
    room_id: Seq<char>,
    host_addr: Seq<char>,
)
    requires
        !manager.rooms.contains_key(room_id),
        !manager.peer_to_room.contains_key(host_id(room_id)),
    ensures
        manager.after_create(room_id, host_addr).after_close(room_id) == manager,
{
    let opened = manager.after_create(room_id, host_addr);
    assert(opened.after_close(room_id).rooms =~= manager.rooms);
    assert(opened.after_close(room_id).peer_to_room =~= manager.peer_to_room);
}

/// A client that leaves right after it joined leaves everything as it was.
pub proof fn law_leaving_undoes_joining(
    manager: RoomsModel,
    room_id: Seq<char>,
    addr: Seq<char>,
)
    requires
        manager.rooms.contains_key(room_id),
        manager.rooms[room_id].clients.dom().finite(),
        !manager.peer_to_room.contains_key(manager.next_client(room_id)),
        manager.rooms[room_id].host_peer_id != manager.next_client(room_id),
    ensures
        manager.after_join(room_id, addr).after_leave(manager.next_client(room_id)) == manager,
{
    let peer_id = manager.next_client(room_id);
    lemma_next_number(manager.rooms[room_id], room_id);
    let after = manager.after_join(room_id, addr).after_leave(peer_id);
    assert(after.rooms[room_id].clients =~= manager.rooms[room_id].clients);
    assert(after.rooms =~= manager.rooms);
    assert(after.peer_to_room =~= manager.peer_to_room);
}

/// A client that joins gets a name that no other client of the room has, whoever
/// has joined or left before; all others stay in the room as they are.
pub proof fn law_joining_gives_a_new_name(
    manager: RoomsModel,
    room_id: Seq<char>,
    addr: Seq<char>,
    other: Seq<char>,
)
    requires
        manager.rooms.contains_key(room_id),
        manager.rooms[room_id].clients.dom().finite(),
    ensures
        ({
            let clients = manager.rooms[room_id].clients;
            let new = manager.next_client(room_id);
            let after = manager.after_join(room_id, addr).rooms[room_id].clients;
            &&& !clients.contains_key(new)
            &&& after.contains_key(new)
            &&& after[new] == (ClientModel { peer_id: new, addr })
            &&& after.dom().finite()
            &&& after.dom().len() == clients.dom().len() + 1
            &&& clients.contains_key(other) ==> after.contains_key(other) && after[other]
                == clients[other]
        }),
{
    lemma_next_number(manager.rooms[room_id], room_id);
    let clients = manager.rooms[room_id].clients;
    let new = manager.next_client(room_id);
    let after = manager.after_join(room_id, addr).rooms[room_id].clients;
    assert(after.dom() =~= clients.dom().insert(new));
}

/// Whether the clients of a room have the numbers from one up.
pub open spec fn is_numbered(room: RoomModel, room_id: Seq<char>) -> bool {
    &&& room.clients.dom().finite()
    &&& forall|name: Seq<char>| #[trigger]
        room.clients.contains_key(name) ==> exists|k: nat|
            1 <= k <= room.clients.dom().len() && name == #[trigger] client_id(room_id, k)
}

/// The names of the clients of a room are told apart by their numbers.
pub proof fn law_client_names_differ(room_id: Seq<char>, a: nat, b: nat)
    requires
        client_id(room_id, a) == client_id(room_id, b),
    ensures
        a == b,
{
    let start = "client_"@ + room_id.take(3) + "_"@;
    assert(client_id(room_id, a).skip(start.len() as int) =~= text::decimal(a));
    assert(client_id(room_id, b).skip(start.len() as int) =~= text::decimal(b));
    text::lemma_decimal_injective(a, b);
}

/// While nobody leaves a room, its clients are numbered in the order in which
/// they join: the next one gets the number after the count.
pub proof fn law_names_count_up(
    manager: RoomsModel,
    room_id: Seq<char>,
    host_addr: Seq<char>,
    addr: Seq<char>,
)
    requires
        manager.rooms.contains_key(room_id),
        is_numbered(manager.rooms[room_id], room_id),
    ensures
        is_numbered(RoomModel::opened(room_id, host_addr), room_id),
        manager.next_client(room_id) == client_id(
            room_id,
            manager.rooms[room_id].clients.dom().len() + 1,
        ),
        is_numbered(manager.after_join(room_id, addr).rooms[room_id], room_id),
{
    let room = manager.rooms[room_id];
    let n = room.clients.dom().len();
    let first = client_id(room_id, n + 1);
    if room.clients.contains_key(first) {
        let k = choose|k: nat|
            1 <= k <= room.clients.dom().len() && first == #[trigger] client_id(room_id, k);
        law_client_names_differ(room_id, k, n + 1);
    }
    lemma_next_number(room, room_id);
    assert(room.is_next_number(room_id, n + 1));
    let new = manager.next_client(room_id);
    let after = manager.after_join(room_id, addr).rooms[room_id];
    assert(after.clients.dom() =~= room.clients.dom().insert(new));
    assert forall|name: Seq<char>| #[trigger] after.clients.contains_key(name) implies exists|
        k: nat,
    |
        1 <= k <= after.clients.dom().len() && name == #[trigger] client_id(room_id, k) by {
        if name == new {
            assert(name == client_id(room_id, n + 1));
        } else {
            assert(room.clients.contains_key(name));
            let k = choose|k: nat|
                1 <= k <= room.clients.dom().len() && name == #[trigger] client_id(room_id, k);
            assert(name == client_id(room_id, k));
        }
    }
    let opened = RoomModel::opened(room_id, host_addr);
    assert(opened.clients.dom() =~= Set::empty());
}

/// A client that leaves is in no room, and the other rooms and the other
/// clients of its room stay.
pub proof fn law_leaving_touches_no_other(
    manager: RoomsModel,
    peer_id: Seq<char>,
    room_id: Seq<char>,
    other: Seq<char>,
)
    requires
        other != peer_id,
        manager.rooms.contains_key(room_id),
        manager.rooms[room_id].clients.contains_key(other),
    ensures
        manager.after_leave(peer_id).room_of(peer_id) is None,
        manager.after_leave(peer_id).room_of(other) == manager.room_of(other),
        manager.after_leave(peer_id).rooms.contains_key(room_id),
        manager.after_leave(peer_id).rooms[room_id].clients.contains_key(other),
        manager.after_leave(peer_id).rooms[room_id].clients[other]
            == manager.rooms[room_id].clients[other],
{
}

/// Nobody is left in a room that was closed.
pub proof fn law_closed_room_is_gone(
    manager: RoomsModel,
    room_id: Seq<char>,
    client: Seq<char>,
)
    requires
        manager.rooms.contains_key(room_id),
        manager.rooms[room_id].clients.contains_key(client),
    ensures
        !manager.after_close(room_id).rooms.contains_key(room_id),
        manager.after_close(room_id).room_of(manager.rooms[room_id].host_peer_id) is None,
        manager.after_close(room_id).room_of(manager.rooms[room_id].clients[client].peer_id)
            is None,
{
    let room = manager.rooms[room_id];
    assert(room.client_names().contains(room.clients[client].peer_id));
}

/// Whether rooms and peers fit together: a room is called by its own name, its
/// host and its clients have the names that they should, and a peer that is
/// said to be in a room is its host or one of its clients.
pub open spec fn is_consistent(manager: RoomsModel) -> bool {
    &&& forall|id: Seq<char>| #[trigger]
        manager.rooms.contains_key(id) ==> manager.rooms[id].room_id == id
            && manager.rooms[id].host_peer_id == host_id(id)
    &&& forall|id: Seq<char>, name: Seq<char>|
        manager.rooms.contains_key(id) && #[trigger] manager.rooms[id].clients.contains_key(name)
            ==> manager.rooms[id].clients[name].peer_id == name
    &&& forall|peer: Seq<char>| #[trigger]
        manager.peer_to_room.contains_key(peer) ==> {
            let id = manager.peer_to_room[peer];
            manager.rooms.contains_key(id) && (peer == manager.rooms[id].host_peer_id
                || manager.rooms[id].clients.contains_key(peer))
        }
}

/// Rooms and peers fit together at first, and go on to do so whoever comes and
/// goes, as long as no room is opened under a name that is taken.
pub proof fn law_rooms_stay_consistent(
    manager: RoomsModel,
    room_id: Seq<char>,
    addr: Seq<char>,
    peer_id: Seq<char>,
)
    requires
        is_consistent(manager),
    ensures
        is_consistent(RoomsModel::empty()),
        !manager.rooms.contains_key(room_id) ==> is_consistent(
            manager.after_create(room_id, addr),
        ),
        is_consistent(manager.after_join(room_id, addr)),
        is_consistent(manager.after_leave(peer_id)),
        is_consistent(manager.after_close(room_id)),
{
    let closed = manager.after_close(room_id);
    if manager.rooms.contains_key(room_id) {
        let room = manager.rooms[room_id];
        assert forall|peer: Seq<char>| #[trigger] closed.peer_to_room.contains_key(peer) implies ({
            let id = closed.peer_to_room[peer];
            closed.rooms.contains_key(id) && (peer == closed.rooms[id].host_peer_id
                || closed.rooms[id].clients.contains_key(peer))
        }) by {
            assert(manager.peer_to_room.contains_key(peer));
            let id = manager.peer_to_room[peer];
            if id == room_id && room.clients.contains_key(peer) {
                assert(room.clients[peer].peer_id == peer);
                assert(room.client_names().contains(peer));
            }
        }
    }
}

/// Whether two states of the rooms agree in a room: both have it, with the same
/// host, address and clients, or neither has.
pub open spec fn same_room(a: RoomsModel, b: RoomsModel, room_id: Seq<char>) -> bool {
    &&& a.rooms.contains_key(room_id) <==> b.rooms.contains_key(room_id)
    &&& a.rooms.contains_key(room_id) ==> a.rooms[room_id] == b.rooms[room_id]
}

/// Opening a room makes just that room: it is called by its name, has its host,
/// with the host's address, and nobody else in it. All other rooms stay as they
/// are, and all other peers where they are.
pub proof fn law_opening_touches_no_other_room(
    manager: RoomsModel,
    room_id: Seq<char>,
    host_addr: Seq<char>,
    other: Seq<char>,
    peer: Seq<char>,
)
    requires
        other != room_id,
        peer != host_id(room_id),
    ensures
        ({
            let after = manager.after_create(room_id, host_addr);
            let room = after.rooms[room_id];
            &&& after.rooms.contains_key(room_id)
            &&& room.room_id == room_id
            &&& room.host_addr == host_addr
            &&& room.host_peer_id == host_id(room_id)
            &&& room.clients.dom() =~= Set::<Seq<char>>::empty()
            &&& after.room_of(host_id(room_id)) == Some(room_id)
            &&& same_room(manager, after, other)
            &&& after.room_of(peer) == manager.room_of(peer)
        }),
{
}

/// Joining a room adds one client to it, under a new name and with the given
/// address, and changes neither its name nor its host. All other rooms stay as
/// they are, and all other peers where they are. Nobody joins a room that is not
/// there.
pub proof fn law_joining_touches_no_other_room(
    manager: RoomsModel,
    room_id: Seq<char>,
    addr: Seq<char>,
    other: Seq<char>,
    peer: Seq<char>,
)
    requires
        other != room_id,
        peer != manager.next_client(room_id),
    ensures
        ({
            let after = manager.after_join(room_id, addr);
            let new = manager.next_client(room_id);
            &&& manager.rooms.contains_key(room_id) ==> {
                let room = manager.rooms[room_id];
                let joined = after.rooms[room_id];
                &&& after.rooms.contains_key(room_id)
                &&& joined.room_id == room.room_id
                &&& joined.host_peer_id == room.host_peer_id
                &&& joined.host_addr == room.host_addr
                &&& joined.clients.contains_key(new)
                &&& joined.clients[new].peer_id == new
                &&& joined.clients[new].addr == addr
                &&& joined.clients.contains_key(peer) == room.clients.contains_key(peer)
                &&& room.clients.contains_key(peer) ==> joined.clients[peer]
                    == room.clients[peer]
                &&& after.room_of(new) == Some(room_id)
                &&& after.room_of(peer) == manager.room_of(peer)
            }
            &&& !manager.rooms.contains_key(room_id) ==> after == manager
            &&& same_room(manager, after, other)
        }),
{
}

/// A peer that leaves is in no room. A client is taken out of its room, and it
/// alone; the room of a host stays as it is. All other rooms stay too, and all
/// other peers where they are.
pub proof fn law_leaving_touches_no_other_room(
    manager: RoomsModel,
    peer_id: Seq<char>,
    other: Seq<char>,
    peer: Seq<char>,
)
    requires
        peer != peer_id,
    ensures
        ({
            let after = manager.after_leave(peer_id);
            &&& after.room_of(peer_id) is None
            &&& after.room_of(peer) == manager.room_of(peer)
            &&& manager.room_of(peer_id) != Some(other) ==> same_room(manager, after, other)
            &&& manager.room_of(peer_id) == Some(other) && manager.rooms.contains_key(other) ==> {
                let room = manager.rooms[other];
                let left = after.rooms[other];
                &&& after.rooms.contains_key(other)
                &&& left.room_id == room.room_id
                &&& left.host_peer_id == room.host_peer_id
                &&& left.host_addr == room.host_addr
                &&& left.clients.contains_key(peer) == room.clients.contains_key(peer)
                &&& room.clients.contains_key(peer) ==> left.clients[peer] == room.clients[peer]
                &&& room.host_peer_id != peer_id ==> !left.clients.contains_key(peer_id)
                &&& room.host_peer_id == peer_id ==> left == room
            }
        }),
{
}

/// Closing a room closes that room alone: all others stay as they are, and each
/// peer that is neither its host nor one of its clients stays where it is.
pub proof fn law_closing_touches_no_other_room(
    manager: RoomsModel,
    room_id: Seq<char>,
    other: Seq<char>,
    peer: Seq<char>,
)
    requires
        other != room_id,
        manager.rooms.contains_key(room_id) ==> peer != manager.rooms[room_id].host_peer_id
            && forall|key: Seq<char>| #[trigger]
            manager.rooms[room_id].clients.contains_key(key)
                ==> manager.rooms[room_id].clients[key].peer_id != peer,
    ensures
        !manager.after_close(room_id).rooms.contains_key(room_id),
        same_room(manager, manager.after_close(room_id), other),
        manager.after_close(room_id).room_of(peer) == manager.room_of(peer),
        !manager.rooms.contains_key(room_id) ==> manager.after_close(room_id) == manager,
{
}

/// A host and a client never have the same name, in whatever rooms they are.
pub proof fn law_hosts_and_clients_are_told_apart(a: Seq<char>, b: Seq<char>, n: nat)
    ensures
        host_id(a) != client_id(b, n),
        host_id(a)[0] == 'h',
        client_id(b, n)[0] == 'c',
{
    reveal_strlit("host_");
    reveal_strlit("client_");
    assert(host_id(a)[0] == 'h');
    assert(client_id(b, n)[0] == 'c');
}

/// A peer is the host of a room just where it is said to be in that room and the
/// room says that it is its host.
pub proof fn law_host_is_known_to_its_room(
    manager: RoomsModel,
    peer_id: Seq<char>,
    room_id: Seq<char>,
)
    ensures
        manager.hosted_by(peer_id) == Some(room_id) <==> manager.peer_to_room.contains_key(
            peer_id,
        ) && manager.peer_to_room[peer_id] == room_id && manager.rooms.contains_key(room_id)
            && manager.rooms[room_id].host_peer_id == peer_id,
        manager.room_of(peer_id) == Some(room_id) <==> manager.peer_to_room.contains_key(peer_id)
            && manager.peer_to_room[peer_id] == room_id,
{
}

/// The name of a host shows the first four characters of its room; that of a
/// client shows the first three, and its number.
pub proof fn law_names_show_the_room(room_id: Seq<char>, n: nat)
    requires
        room_id.len() == 6,
    ensures
        host_id(room_id).len() == 9,
        host_id(room_id).skip(5) == room_id.take(4),
        client_id(room_id, n).subrange(7, 10) == room_id.take(3),
        text::read_decimal(client_id(room_id, n).skip(11)) == n,
{
    reveal_strlit("host_");
    reveal_strlit("client_");
    reveal_strlit("_");
    text::law_decimal_reads_back(n);
    assert(host_id(room_id).skip(5) =~= room_id.take(4));
    assert(client_id(room_id, n).subrange(7, 10) =~= room_id.take(3));
    assert(client_id(room_id, n).skip(11) =~= text::decimal(n));
}

/// The name of a room is what was drawn, each character in its place: a digit or
/// a small letter as it is, a capital letter made small.
pub proof fn law_room_name_is_the_draw(drawn: Seq<u8>, i: int)
    requires
        is_draw(drawn),
        0 <= i < 6,
    ensures
        name_of(drawn).len() == 6,
        65 <= drawn[i] <= 90 ==> name_of(drawn)[i] as int == drawn[i] + 32,
        !(65 <= drawn[i] <= 90) ==> name_of(drawn)[i] as int == drawn[i],
        is_room_id(name_of(drawn)),
{
}

/// The next client of a room gets the first free number above the count of those
/// that are in it.
pub proof fn law_next_client_gets_the_first_free_number(
    manager: RoomsModel,
    room_id: Seq<char>,
    m: nat,
)
    requires
        manager.rooms.contains_key(room_id),
        manager.rooms[room_id].clients.dom().finite(),
    ensures
        ({
            let clients = manager.rooms[room_id].clients;
            let n = manager.rooms[room_id].next_number(room_id);
            &&& manager.next_client(room_id) == client_id(room_id, n)
            &&& n > clients.dom().len()
            &&& !clients.contains_key(client_id(room_id, n))
            &&& clients.dom().len() < m < n ==> clients.contains_key(client_id(room_id, m))
        }),
{
    lemma_next_number(manager.rooms[room_id], room_id);
}

} // verus!
