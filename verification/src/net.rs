//! The networking rules: modes, channels and their configuration, the lobby
//! of connected players, and which chunks each remote player is sent.
use vstd::prelude::*;
use std::collections::HashMap;
use crate::chunk::Chunk;
use crate::ivec::{key_pos, pos_key, IVec3};
use crate::universe::Universe;
use crate::CHUNK_VOLUME;

verus! {

broadcast use vstd::std_specs::hash::group_hash_axioms;

/// Identifier of the protocol spoken by clients and servers.
pub const PROTOCOL_ID: u64 = 7;

/// Address of the server when none is given.
pub const DEFAULT_NETWORK_ADDRESS: &'static str = "127.0.0.1";

/// Port the server listens on.
pub const PORT: u32 = 54550;

/// Distance, in blocks, within which chunks are sent to a remote player.
pub const DEFAULT_REPLICATION_DISTANCE: u32 = 64;

/// Memory of a channel of player messages, in bytes.
pub const MESSAGES_CHANNEL_MEMORY: usize = 10485760;

/// Time before an unacknowledged reliable message is sent again, in
/// milliseconds.
pub const RESEND_TIME_MS: u64 = 200;

/// Bytes a connection may send per tick.
pub const AVAILABLE_BYTES_PER_TICK: u64 = 1048576;

/// Room kept in a message for the framing of one chunk, in bytes.
pub const CHUNK_MESSAGE_OVERHEAD: usize = 12;

/// Who this process is on the network.
#[derive(Debug, Clone, Copy, PartialEq, Eq, Structural)]
pub enum NetworkMode {
    Server,
    ClientAndServer,
    Client,
    Offline,
}

impl Default for NetworkMode {
    fn default() -> (r: Self)
        ensures
            r == NetworkMode::Offline,
    {
        NetworkMode::Offline
    }
}

/// The mode called `name`, if it is one of `client`, `server`, `offline`
/// and `clientserver`.
pub open spec fn mode_named(name: Seq<char>) -> Option<NetworkMode> {
    if name == "client"@ {
        Some(NetworkMode::Client)
    } else if name == "server"@ {
        Some(NetworkMode::Server)
    } else if name == "offline"@ {
        Some(NetworkMode::Offline)
    } else if name == "clientserver"@ {
        Some(NetworkMode::ClientAndServer)
    } else {
        None
    }
}

impl NetworkMode {
    /// The mode named on the command line: client and server in one process
    /// (the standard mode) when none is named, nothing when the name is
    /// unknown.
    pub fn from_name(name: Option<&str>) -> (r: Option<NetworkMode>)
        ensures
            r == match name {
                None => Some(NetworkMode::ClientAndServer),
                Some(s) => mode_named(s@),
            },
    {
        match name {
            None => Some(NetworkMode::ClientAndServer),
            Some(s) => {
                let owned = s.to_owned();
                if owned == "client".to_owned() {
                    Some(NetworkMode::Client)
                } else if owned == "server".to_owned() {
                    Some(NetworkMode::Server)
                } else if owned == "offline".to_owned() {
                    Some(NetworkMode::Offline)
                } else if owned == "clientserver".to_owned() {
                    Some(NetworkMode::ClientAndServer)
                } else {
                    None
                }
            },
        }
    }

    /// Whether a server is opened at start in this mode.
    pub fn opens_server(&self) -> (r: bool)
        ensures
            r == (*self == NetworkMode::Server || *self == NetworkMode::ClientAndServer),
    {
        match self {
            NetworkMode::Server => true,
            NetworkMode::ClientAndServer => true,
            NetworkMode::Client => false,
            NetworkMode::Offline => false,
        }
    }

    /// Whether a client connection is opened at start in this mode.
    pub fn opens_client(&self) -> (r: bool)
        ensures
            r == (*self == NetworkMode::Client),
    {
        match self {
            NetworkMode::Client => true,
            _ => false,
        }
    }
}

/// The network settings.
#[derive(Debug, Clone)]
pub struct NetSettings {
    pub server_address: String,
    pub network_mode: NetworkMode,
    pub replication_distance: u32,
}

impl Default for NetSettings {
    fn default() -> (r: Self)
        ensures
            r.server_address@ == DEFAULT_NETWORK_ADDRESS@,
            r.network_mode == NetworkMode::Offline,
            r.replication_distance == DEFAULT_REPLICATION_DISTANCE,
    {
        NetSettings {
            server_address: DEFAULT_NETWORK_ADDRESS.to_owned(),
            network_mode: NetworkMode::Offline,
            replication_distance: DEFAULT_REPLICATION_DISTANCE,
        }
    }
}

/// How a channel delivers its messages.
#[derive(Debug, Clone, Copy, PartialEq, Eq, Structural)]
pub enum SendKind {
    /// Every message arrives, in order; one not acknowledged is sent again
    /// after `resend_time_ms`.
    ReliableOrdered { resend_time_ms: u64 },
    /// Messages may be lost.
    Unreliable,
}

/// The configuration of one channel of a connection.
#[derive(Debug, Clone, Copy, PartialEq, Eq, Structural)]
pub struct ChannelSpec {
    pub channel_id: u8,
    pub max_memory_usage_bytes: usize,
    pub send_type: SendKind,
}

/// The channels on which clients send to the server.
#[derive(Debug, Clone, Copy, PartialEq, Eq, Structural)]
pub enum ClientChannel {
    ClientMessages,
    PlayerStates,
}

/// Identifier of a client channel.
pub open spec fn client_channel_id(c: ClientChannel) -> u8 {
    match c {
        ClientChannel::ClientMessages => 0,
        ClientChannel::PlayerStates => 1,
    }
}

impl From<ClientChannel> for u8 {
    fn from(channel_id: ClientChannel) -> (r: u8) {
        match channel_id {
            ClientChannel::ClientMessages => 0,
            ClientChannel::PlayerStates => 1,
        }
    }
}

impl vstd::std_specs::convert::FromSpecImpl<ClientChannel> for u8 {
    open spec fn obeys_from_spec() -> bool {
        true
    }

    open spec fn from_spec(v: ClientChannel) -> u8 {
        client_channel_id(v)
    }
}

/// The configuration of the client channels: reliable ordered client
/// messages and unreliable player states.
pub open spec fn client_channels() -> Seq<ChannelSpec> {
    seq![
        ChannelSpec {
            channel_id: 0,
            max_memory_usage_bytes: MESSAGES_CHANNEL_MEMORY,
            send_type: SendKind::ReliableOrdered { resend_time_ms: RESEND_TIME_MS },
        },
        ChannelSpec {
            channel_id: 1,
            max_memory_usage_bytes: MESSAGES_CHANNEL_MEMORY,
            send_type: SendKind::Unreliable,
        },
    ]
}

impl ClientChannel {
    /// The configuration of the client channels: reliable ordered client
    /// messages and unreliable player states.
    pub fn channels_config() -> (r: Vec<ChannelSpec>)
        ensures
            r@ == client_channels(),
    {
        let mut r: Vec<ChannelSpec> = Vec::new();
        r.push(
            ChannelSpec {
                channel_id: u8::from(ClientChannel::ClientMessages),
                max_memory_usage_bytes: MESSAGES_CHANNEL_MEMORY,
                send_type: SendKind::ReliableOrdered { resend_time_ms: RESEND_TIME_MS },
            },
        );
        r.push(
            ChannelSpec {
                channel_id: u8::from(ClientChannel::PlayerStates),
                max_memory_usage_bytes: MESSAGES_CHANNEL_MEMORY,
                send_type: SendKind::Unreliable,
            },
        );
        proof {
            assert(r@ =~= client_channels());
        }
        r
    }
}

/// The channels on which the server sends to the clients.
#[derive(Debug, Clone, Copy, PartialEq, Eq, Structural)]
pub enum ServerChannel {
    ServerMessages,
    ClientMessages,
    PlayerReplica,
    Universe,
}

/// Identifier of a server channel.
pub open spec fn server_channel_id(c: ServerChannel) -> u8 {
    match c {
        ServerChannel::ServerMessages => 0,
        ServerChannel::ClientMessages => 1,
        ServerChannel::PlayerReplica => 2,
        ServerChannel::Universe => 3,
    }
}

impl From<ServerChannel> for u8 {
    fn from(channel_id: ServerChannel) -> (r: u8) {
        match channel_id {
            ServerChannel::ServerMessages => 0,
            ServerChannel::ClientMessages => 1,
            ServerChannel::PlayerReplica => 2,
            ServerChannel::Universe => 3,
        }
    }
}

impl vstd::std_specs::convert::FromSpecImpl<ServerChannel> for u8 {
    open spec fn obeys_from_spec() -> bool {
        true
    }

    open spec fn from_spec(v: ServerChannel) -> u8 {
        server_channel_id(v)
    }
}

/// The configuration of the server channels: reliable ordered server and
/// client messages, unreliable player replicas, and a reliable ordered
/// universe channel with room for a hundred uncompressed chunks.
pub open spec fn server_channels() -> Seq<ChannelSpec> {
    seq![
        ChannelSpec {
            channel_id: 0,
            max_memory_usage_bytes: MESSAGES_CHANNEL_MEMORY,
            send_type: SendKind::ReliableOrdered { resend_time_ms: RESEND_TIME_MS },
        },
        ChannelSpec {
            channel_id: 1,
            max_memory_usage_bytes: MESSAGES_CHANNEL_MEMORY,
            send_type: SendKind::ReliableOrdered { resend_time_ms: RESEND_TIME_MS },
        },
        ChannelSpec {
            channel_id: 2,
            max_memory_usage_bytes: MESSAGES_CHANNEL_MEMORY,
            send_type: SendKind::Unreliable,
        },
        ChannelSpec {
            channel_id: 3,
            max_memory_usage_bytes: (100 * CHUNK_VOLUME * 4) as usize,
            send_type: SendKind::ReliableOrdered { resend_time_ms: RESEND_TIME_MS },
        },
    ]
}

impl ServerChannel {
    /// The configuration of the server channels: reliable ordered server and
    /// client messages, unreliable player replicas, and a reliable ordered
    /// universe channel with room for a hundred uncompressed chunks.
    pub fn channels_config() -> (r: Vec<ChannelSpec>)
        ensures
            r@ == server_channels(),
    {
        let mut r: Vec<ChannelSpec> = Vec::new();
        r.push(
            ChannelSpec {
                channel_id: u8::from(ServerChannel::ServerMessages),
                max_memory_usage_bytes: MESSAGES_CHANNEL_MEMORY,
                send_type: SendKind::ReliableOrdered { resend_time_ms: RESEND_TIME_MS },
            },
        );
        r.push(
            ChannelSpec {
                channel_id: u8::from(ServerChannel::ClientMessages),
                max_memory_usage_bytes: MESSAGES_CHANNEL_MEMORY,
                send_type: SendKind::ReliableOrdered { resend_time_ms: RESEND_TIME_MS },
            },
        );
        r.push(
            ChannelSpec {
                channel_id: u8::from(ServerChannel::PlayerReplica),
                max_memory_usage_bytes: MESSAGES_CHANNEL_MEMORY,
                send_type: SendKind::Unreliable,
            },
        );
        r.push(
            ChannelSpec {
                channel_id: u8::from(ServerChannel::Universe),
                max_memory_usage_bytes: 100 * (CHUNK_VOLUME * 4),
                send_type: SendKind::ReliableOrdered { resend_time_ms: RESEND_TIME_MS },
            },
        );
        proof {
            assert(r@ =~= server_channels());
        }
        r
    }
}

/// The configuration of a connection.
#[derive(Debug, Clone)]
pub struct ConnectionSpec {
    pub available_bytes_per_tick: u64,
    pub server_channels_config: Vec<ChannelSpec>,
    pub client_channels_config: Vec<ChannelSpec>,
}

/// The configuration of every connection: a mebibyte per tick and the
/// channels of both sides.
pub fn connection_config() -> (r: ConnectionSpec)
    ensures
        r.available_bytes_per_tick == AVAILABLE_BYTES_PER_TICK,
        r.server_channels_config@ == server_channels(),
        r.client_channels_config@ == client_channels(),
{
    ConnectionSpec {
        available_bytes_per_tick: AVAILABLE_BYTES_PER_TICK,
        server_channels_config: ServerChannel::channels_config(),
        client_channels_config: ClientChannel::channels_config(),
    }
}

} // verus!

verus! {

/// Identifier of a player in a remote connection.
#[derive(Debug, Clone, PartialEq, Eq, Hash)]
pub struct PlayerId {
    pub name: String,
}

impl PlayerId {
    /// The identifier of the player called `name`.
    pub fn from_name(name: String) -> (r: PlayerId)
        ensures
            r.name == name,
    {
        PlayerId { name }
    }

    /// Whether both identify the same player.
    pub fn same_as(&self, other: &PlayerId) -> (r: bool)
        ensures
            r == (self.name@ == other.name@),
    {
        self.name == other.name
    }

    /// A copy of this identifier.
    pub fn duplicate(&self) -> (r: PlayerId)
        ensures
            r.name@ == self.name@,
    {
        PlayerId { name: self.name.clone() }
    }
}

/// The names of a sequence of players.
pub open spec fn names(s: Seq<PlayerId>) -> Seq<Seq<char>> {
    s.map_values(|p: PlayerId| p.name@)
}

/// `s` with each run of equal consecutive names kept once.
pub open spec fn dedup(s: Seq<Seq<char>>) -> Seq<Seq<char>>
    decreases s.len(),
{
    if s.len() <= 1 {
        s
    } else {
        let prev = dedup(s.drop_last());
        if s.last() == s[s.len() - 2] {
            prev
        } else {
            prev.push(s.last())
        }
    }
}

/// The players known to this process: each connected client with its
/// player, and the local and remote players.
#[derive(Debug)]
pub struct Lobby {
    pub connections: HashMap<u64, PlayerId>,
    pub local_players: Vec<PlayerId>,
    pub remote_players: Vec<PlayerId>,
}

impl Lobby {
    /// The name of the player of each connected client.
    pub open spec fn connection_names(&self) -> Map<u64, Seq<char>> {
        self.connections@.map_values(|p: PlayerId| p.name@)
    }

    /// No player is known.
    pub fn new() -> (r: Lobby)
        ensures
            r.connection_names() == Map::<u64, Seq<char>>::empty(),
            r.local_players@.len() == 0,
            r.remote_players@.len() == 0,
    {
        let r = Lobby { connections: HashMap::new(), local_players: Vec::new(), remote_players: Vec::new() };
        proof {
            assert(r.connection_names() =~= Map::<u64, Seq<char>>::empty());
        }
        r
    }

    /// Every known player, remote ones first: what a newly connected client
    /// is told.
    pub fn connected_players(&self) -> (r: Vec<PlayerId>)
        ensures
            names(r@) == names(self.remote_players@) + names(self.local_players@),
    {
        let mut r: Vec<PlayerId> = Vec::new();
        append_copies(&mut r, &self.remote_players);
        append_copies(&mut r, &self.local_players);
        proof {
            assert(names(Seq::<PlayerId>::empty()) =~= Seq::<Seq<char>>::empty());
            assert(Seq::<Seq<char>>::empty() + names(self.remote_players@) =~= names(self.remote_players@));
        }
        r
    }

    /// A client logged in as player `id`: the player becomes a remote player
    /// of that client.
    pub fn login(&mut self, client_id: u64, id: PlayerId)
        ensures
            names(final(self).remote_players@) == names(old(self).remote_players@).push(id.name@),
            final(self).connection_names() == old(self).connection_names().insert(client_id, id.name@),
            final(self).local_players == old(self).local_players,
    {
        let copy = id.duplicate();
        self.remote_players.push(id);
        self.connections.insert(client_id, copy);
        proof {
            assert(names(self.remote_players@) =~= names(old(self).remote_players@).push(copy.name@));
            assert(self.connection_names() =~= old(self).connection_names().insert(client_id, copy.name@));
        }
    }

    /// A client disconnected: its player, if it had logged in, is forgotten
    /// and returned.
    pub fn disconnect(&mut self, client_id: u64) -> (r: Option<PlayerId>)
        ensures
            final(self).connection_names() == old(self).connection_names().remove(client_id),
            final(self).local_players == old(self).local_players,
            match r {
                Some(p) => old(self).connection_names().contains_key(client_id) && p.name@ == old(
                    self,
                ).connection_names()[client_id] && names(final(self).remote_players@) == names(
                    old(self).remote_players@,
                ).filter(|n: Seq<char>| n != p.name@),
                None => !old(self).connection_names().contains_key(client_id) && final(self).remote_players
                    == old(self).remote_players,
            },
    {
        let r = self.connections.remove(&client_id);
        proof {
            assert(self.connection_names() =~= old(self).connection_names().remove(client_id));
        }
        match r {
            Some(p) => {
                proof {
                    assert(old(self).connections@.contains_key(client_id));
                }
                self.remove_remote(&p);
                Some(p)
            },
            None => None,
        }
    }

    /// Forgets every remote player called like `id`, keeping the order of
    /// the others.
    pub fn remove_remote(&mut self, id: &PlayerId)
        ensures
            names(final(self).remote_players@) == names(old(self).remote_players@).filter(
                |n: Seq<char>| n != id.name@,
            ),
            final(self).local_players == old(self).local_players,
            final(self).connections == old(self).connections,
    {
        let mut kept: Vec<PlayerId> = Vec::new();
        let mut i: usize = 0;
        while i < self.remote_players.len()
            invariant
                *self == *old(self),
                i <= self.remote_players@.len(),
                names(kept@) == names(self.remote_players@.subrange(0, i as int)).filter(
                    |n: Seq<char>| n != id.name@,
                ),
            decreases self.remote_players.len() - i,
        {
            let p = &self.remote_players[i];
            let ghost s0 = names(self.remote_players@.subrange(0, i as int));
            proof {
                assert(names(self.remote_players@.subrange(0, i + 1)) =~= s0.push(p.name@));
                assert(s0.push(p.name@).drop_last() =~= s0);
                reveal(Seq::filter);
            }
            if !p.same_as(id) {
                kept.push(p.duplicate());
                proof {
                    assert(names(kept@) =~= names(kept@.drop_last()).push(p.name@));
                    assert(kept@.drop_last() =~= kept@.subrange(0, kept@.len() - 1));
                }
            }
            i = i + 1;
        }
        proof {
            assert(self.remote_players@.subrange(0, self.remote_players@.len() as int) =~= self.remote_players@);
        }
        self.remote_players = kept;
    }

    /// The server announced connected players: they are appended to the
    /// remote players, then runs of the same player are kept once.
    pub fn players_connected(&mut self, ids: Vec<PlayerId>)
        ensures
            names(final(self).remote_players@) == dedup(names(old(self).remote_players@) + names(ids@)),
            final(self).local_players == old(self).local_players,
            final(self).connections == old(self).connections,
    {
        let mut all: Vec<PlayerId> = Vec::new();
        append_copies(&mut all, &self.remote_players);
        append_copies(&mut all, &ids);
        proof {
            assert(names(Seq::<PlayerId>::empty()) =~= Seq::<Seq<char>>::empty());
            assert(Seq::<Seq<char>>::empty() + names(self.remote_players@) =~= names(self.remote_players@));
        }
        let ghost whole = names(all@);
        let mut out: Vec<PlayerId> = Vec::new();
        let mut k: usize = 0;
        while k < all.len()
            invariant
                k <= all@.len(),
                whole == names(all@),
                names(out@) == dedup(names(all@).subrange(0, k as int)),
                k > 0 ==> out@.len() > 0 && out@.last().name@ == all@[k - 1].name@,
            decreases all.len() - k,
        {
            let ghost s0 = names(all@).subrange(0, k as int);
            let ghost s1 = names(all@).subrange(0, k + 1);
            proof {
                assert(s1.drop_last() =~= s0);
            }
            let keep = k == 0 || !all[k].same_as(&all[k - 1]);
            if keep {
                out.push(all[k].duplicate());
                proof {
                    assert(names(out@) =~= names(out@.drop_last()).push(all@[k as int].name@));
                    assert(out@.drop_last() =~= out@.subrange(0, out@.len() - 1));
                }
            }
            proof {
                if k > 0 {
                    assert(s1.last() == all@[k as int].name@);
                    assert(s1[s1.len() - 2] == all@[k - 1].name@);
                }
            }
            k = k + 1;
        }
        proof {
            assert(names(all@).subrange(0, all@.len() as int) =~= names(all@));
        }
        self.remote_players = out;
    }

    /// A player was spawned: the local player, if not yet known as local,
    /// becomes a local player; otherwise a player not yet known as remote
    /// becomes a remote player.
    pub fn player_spawned(&mut self, local_id: &PlayerId, id: PlayerId)
        ensures
            final(self).connections == old(self).connections,
            ({
                let local_names = names(old(self).local_players@);
                let remote_names = names(old(self).remote_players@);
                if local_id.name@ == id.name@ && !local_names.contains(id.name@) {
                    &&& names(final(self).local_players@) == local_names.push(id.name@)
                    &&& final(self).remote_players == old(self).remote_players
                } else if !remote_names.contains(id.name@) {
                    &&& names(final(self).remote_players@) == remote_names.push(id.name@)
                    &&& final(self).local_players == old(self).local_players
                } else {
                    &&& final(self).local_players == old(self).local_players
                    &&& final(self).remote_players == old(self).remote_players
                }
            }),
    {
        let is_local = local_id.same_as(&id);
        if is_local && !contains_player(&self.local_players, &id) {
            self.local_players.push(id);
            proof {
                assert(names(self.local_players@) =~= names(old(self).local_players@).push(id.name@));
            }
        } else if !contains_player(&self.remote_players, &id) {
            self.remote_players.push(id);
            proof {
                assert(names(self.remote_players@) =~= names(old(self).remote_players@).push(id.name@));
            }
        }
    }

    /// The client whose player is `player`, if any.
    pub fn client_of(&self, player: &PlayerId) -> (r: Option<u64>)
        ensures
            match r {
                Some(c) => self.connection_names().contains_key(c) && self.connection_names()[c] == player.name@,
                None => forall|c: u64|
                    #[trigger] self.connection_names().contains_key(c) ==> self.connection_names()[c]
                        != player.name@,
            },
    {
        let keys = client_list(&self.connections);
        let mut i: usize = 0;
        while i < keys.len()
            invariant
                i <= keys@.len(),
                keys@.to_set() == self.connections@.dom(),
                forall|j: int| 0 <= j < i ==> #[trigger] self.connections@[keys@[j]].name@ != player.name@,
            decreases keys.len() - i,
        {
            let c = keys[i];
            proof {
                assert(keys@.to_set().contains(c));
            }
            match self.connections.get(&c) {
                Some(p) => {
                    if p.same_as(player) {
                        return Some(c);
                    }
                },
                None => {
                    proof {
                        assert(false);
                    }
                },
            }
            i = i + 1;
        }
        proof {
            assert forall|c: u64| #[trigger] self.connection_names().contains_key(c) implies self.connection_names()[c]
                != player.name@ by {
                assert(keys@.to_set().contains(c));
                let j = choose|j: int| 0 <= j < keys@.len() && keys@[j] == c;
                assert(self.connections@[keys@[j]].name@ != player.name@);
            }
        }
        None
    }
}

/// Appends copies of the players of `v` to `out`.
fn append_copies(out: &mut Vec<PlayerId>, v: &Vec<PlayerId>)
    ensures
        names(final(out)@) == names(old(out)@) + names(v@),
{
    let ghost o = out@;
    let mut i: usize = 0;
    while i < v.len()
        invariant
            i <= v@.len(),
            out@.len() == o.len() + i,
            forall|j: int| 0 <= j < o.len() ==> #[trigger] out@[j].name@ == o[j].name@,
            forall|j: int| 0 <= j < i ==> #[trigger] out@[o.len() + j].name@ == v@[j].name@,
        decreases v.len() - i,
    {
        let ghost before = out@;
        out.push(v[i].duplicate());
        proof {
            assert forall|j: int| 0 <= j < i + 1 implies #[trigger] out@[o.len() + j].name@ == v@[j].name@ by {
                if j < i {
                    assert(out@[o.len() + j] == before[o.len() + j]);
                }
            }
        }
        i = i + 1;
    }
    proof {
        assert forall|k: int| 0 <= k < out@.len() implies #[trigger] names(out@)[k] == (names(o) + names(v@))[k] by {
            if k < o.len() {
                assert(out@[k].name@ == o[k].name@);
            } else {
                assert(out@[o.len() + (k - o.len())].name@ == v@[k - o.len()].name@);
            }
        }
        assert(names(out@) =~= names(o) + names(v@));
    }
}

/// Whether a player called like `id` is in `v`.
fn contains_player(v: &Vec<PlayerId>, id: &PlayerId) -> (r: bool)
    ensures
        r == names(v@).contains(id.name@),
{
    let mut i: usize = 0;
    while i < v.len()
        invariant
            i <= v@.len(),
            forall|j: int| 0 <= j < i ==> #[trigger] v@[j].name@ != id.name@,
        decreases v.len() - i,
    {
        if v[i].same_as(id) {
            proof {
                assert(names(v@)[i as int] == id.name@);
            }
            return true;
        }
        i = i + 1;
    }
    proof {
        if names(v@).contains(id.name@) {
            let j = choose|j: int| 0 <= j < names(v@).len() && names(v@)[j] == id.name@;
            assert(v@[j].name@ != id.name@);
        }
    }
    false
}

/// The connected clients, each once.
fn client_list(m: &HashMap<u64, PlayerId>) -> (r: Vec<u64>)
    ensures
        r@.to_set() == m@.dom(),
{
    let mut r: Vec<u64> = Vec::new();
    let keys = m.keys();
    let ghost all = vstd::std_specs::iter::IteratorSpec::remaining(&keys).unref();
    proof {
        vstd::std_specs::hash::axiom_spec_keys_iter(m);
        assert(all.to_set() == m@.dom());
    }
    for k in it: keys
        invariant
            r@ == it.seq().take(it.index() as int).unref(),
            all == it.seq().unref(),
    {
        r.push(*k);
    }
    proof {
        assert(r@ =~= all);
    }
    r
}

/// A client that logs in and then disconnects hands back the player it
/// logged in as, and leaves the connected clients as they were before.
pub proof fn law_login_then_disconnect(
    before: Lobby,
    logged: Lobby,
    after: Lobby,
    client_id: u64,
    id: PlayerId,
    back: PlayerId,
)
    requires
        !before.connection_names().contains_key(client_id),
        logged.connection_names() == before.connection_names().insert(client_id, id.name@),
        after.connection_names() == logged.connection_names().remove(client_id),
        logged.connection_names().contains_key(client_id) && back.name@ == logged.connection_names()[client_id],
    ensures
        back.name@ == id.name@,
        after.connection_names() == before.connection_names(),
{
    assert(after.connection_names() =~= before.connection_names());
}

} // verus!

verus! {

/// The chunks asked for by a remote player and those already sent to it,
/// each with the version it had, keyed by the key of the chunk origin.
#[derive(Debug)]
pub struct ChunkReplication {
    pub requested: HashMap<u128, u32>,
    pub sent: HashMap<u128, u32>,
}

/// The chunk of key `k` is loaded and was never sent at its current
/// version.
pub open spec fn stale(u: Universe, sent: Map<u128, u32>, k: u128) -> bool {
    &&& u.chunks@.contains_key(k)
    &&& !(sent.contains_key(k) && sent[k] == u.chunks@[k].version)
}

/// The chunk of key `k` is one of `wanted` and stale.
pub open spec fn newly_requested(u: Universe, sent: Map<u128, u32>, wanted: Seq<IVec3>, k: u128) -> bool {
    &&& exists|i: int| 0 <= i < wanted.len() && pos_key(#[trigger] wanted[i]) == k
    &&& stale(u, sent, k)
}

/// One of the first `j` chunks of the batch has key `k`.
pub open spec fn batched(b: Seq<(IVec3, Vec<u8>)>, j: int, k: u128) -> bool {
    exists|a: int| 0 <= a < j && pos_key(#[trigger] b[a].0) == k
}

/// Total bytes of the compressed chunks of a batch.
pub open spec fn batch_bytes(s: Seq<(IVec3, Vec<u8>)>) -> int
    decreases s.len(),
{
    if s.len() == 0 {
        0
    } else {
        batch_bytes(s.drop_last()) + s.last().1@.len()
    }
}

impl ChunkReplication {
    /// Every requested key is the key of a point.
    pub open spec fn wf(&self) -> bool {
        forall|k: u128| #[trigger] self.requested@.contains_key(k) ==> (k as int) < 0x1_0000_0000_0000_0000_0000_0000
    }

    /// Nothing requested, nothing sent.
    pub fn new() -> (r: ChunkReplication)
        ensures
            r.wf(),
            r.requested@ == Map::<u128, u32>::empty(),
            r.sent@ == Map::<u128, u32>::empty(),
    {
        ChunkReplication { requested: HashMap::new(), sent: HashMap::new() }
    }

    /// Asks for the loaded chunks among `wanted` that were never sent at
    /// their current version, recording that version.
    pub fn request(&mut self, universe: &Universe, wanted: &Vec<IVec3>)
        requires
            old(self).wf(),
        ensures
            final(self).wf(),
            final(self).sent == old(self).sent,
            forall|k: u128|
                #[trigger] final(self).requested@.contains_key(k) <==> old(self).requested@.contains_key(k)
                    || newly_requested(*universe, old(self).sent@, wanted@, k),
            forall|k: u128|
                #[trigger] final(self).requested@.contains_key(k) ==> final(self).requested@[k] == if newly_requested(
                    *universe,
                    old(self).sent@,
                    wanted@,
                    k,
                ) {
                    universe.chunks@[k].version
                } else {
                    old(self).requested@[k]
                },
    {
        let ghost r0 = self.requested@;
        let mut i: usize = 0;
        while i < wanted.len()
            invariant
                i <= wanted@.len(),
                self.sent == old(self).sent,
                self.wf(),
                forall|k: u128|
                    #[trigger] self.requested@.contains_key(k) <==> r0.contains_key(k) || newly_requested(
                        *universe,
                        self.sent@,
                        wanted@.subrange(0, i as int),
                        k,
                    ),
                forall|k: u128|
                    #[trigger] self.requested@.contains_key(k) ==> self.requested@[k] == if newly_requested(
                        *universe,
                        self.sent@,
                        wanted@.subrange(0, i as int),
                        k,
                    ) {
                        universe.chunks@[k].version
                    } else {
                        r0[k]
                    },
            decreases wanted.len() - i,
        {
            let p = wanted[i];
            let k = p.key();
            let ghost before = self.requested@;
            let ghost w0 = wanted@.subrange(0, i as int);
            let ghost w1 = wanted@.subrange(0, i + 1);
            proof {
                crate::ivec::lemma_key_pos_inverse(p);
                assert forall|kk: u128| newly_requested(*universe, self.sent@, w1, kk) <==> newly_requested(
                    *universe,
                    self.sent@,
                    w0,
                    kk,
                ) || (kk == k && stale(*universe, self.sent@, k)) by {
                    if exists|j: int| 0 <= j < w1.len() && pos_key(#[trigger] w1[j]) == kk {
                        let j = choose|j: int| 0 <= j < w1.len() && pos_key(#[trigger] w1[j]) == kk;
                        if j < i {
                            assert(w0[j] == w1[j]);
                        }
                    }
                    if exists|j: int| 0 <= j < w0.len() && pos_key(#[trigger] w0[j]) == kk {
                        let j = choose|j: int| 0 <= j < w0.len() && pos_key(#[trigger] w0[j]) == kk;
                        assert(w1[j] == w0[j]);
                    }
                    if kk == k {
                        assert(w1[i as int] == p);
                    }
                }
            }
            match universe.chunks.get(&k) {
                Some(chunk) => {
                    let v = chunk.version;
                    let fresh = match self.sent.get(&k) {
                        Some(w) => *w != v,
                        None => true,
                    };
                    if fresh {
                        self.requested.insert(k, v);
                    }
                },
                None => {},
            }
            i = i + 1;
        }
        proof {
            assert(wanted@.subrange(0, wanted@.len() as int) =~= wanted@);
        }
    }

    /// Picks, among the requested chunks that are loaded, those whose
    /// compressed form still fits in `channel_size` bytes (keeping room for
    /// the framing of each), and moves them from requested to sent with
    /// their requested version. Returns them with their compressed form.
    pub fn take_batch(&mut self, universe: &Universe, channel_size: i32) -> (r: Vec<(IVec3, Vec<u8>)>)
        requires
            old(self).wf(),
            universe.wf(),
        ensures
            final(self).wf(),
            r@.len() > 0 ==> batch_bytes(r@) + CHUNK_MESSAGE_OVERHEAD < channel_size,
            forall|k: u128|
                old(self).requested@.contains_key(k) && universe.chunks@.contains_key(k) && !batched(
                    r@,
                    r@.len() as int,
                    k,
                ) ==> channel_size - batch_bytes(r@) <= #[trigger] crate::saveload::deflated(
                    crate::saveload::blocks_bytes(universe.chunks@[k].blocks@),
                    crate::saveload::CHUNK_COMPRESSION_LEVEL,
                ).len() + CHUNK_MESSAGE_OVERHEAD,
            forall|i: int|
                0 <= i < r@.len() ==> {
                    let k = pos_key(#[trigger] r@[i].0);
                    &&& old(self).requested@.contains_key(k)
                    &&& universe.chunks@.contains_key(k)
                    &&& r@[i].1@ == crate::saveload::deflated(
                        crate::saveload::blocks_bytes(universe.chunks@[k].blocks@),
                        crate::saveload::CHUNK_COMPRESSION_LEVEL,
                    )
                },
            forall|i: int, j: int| 0 <= i < j < r@.len() ==> r@[i].0 != r@[j].0,
            forall|k: u128|
                #[trigger] final(self).requested@.contains_key(k) <==> old(self).requested@.contains_key(k)
                    && !batched(r@, r@.len() as int, k),
            forall|k: u128|
                #[trigger] final(self).requested@.contains_key(k) ==> final(self).requested@[k] == old(
                    self,
                ).requested@[k],
            forall|k: u128|
                #[trigger] final(self).sent@.contains_key(k) <==> old(self).sent@.contains_key(k) || batched(
                    r@,
                    r@.len() as int,
                    k,
                ),
            forall|k: u128|
                #[trigger] final(self).sent@.contains_key(k) ==> final(self).sent@[k] == if batched(r@, r@.len() as int, k) {
                    old(self).requested@[k]
                } else {
                    old(self).sent@[k]
                },
    {
        let keys = crate::terrain::key_list(&self.requested);
        let ghost q0 = self.requested@;
        let ghost s0 = self.sent@;
        let mut available: i128 = channel_size as i128;
        let mut batch: Vec<(IVec3, Vec<u8>)> = Vec::new();
        let mut i: usize = 0;
        while i < keys.len()
            invariant
                i <= keys@.len(),
                keys@.to_set() == q0.dom(),
                keys@.no_duplicates(),
                self.requested@ == q0,
                self.sent@ == s0,
                self.wf(),
                universe.wf(),
                available == channel_size - batch_bytes(batch@),
                batch@.len() > 0 ==> available > CHUNK_MESSAGE_OVERHEAD,
                forall|j: int|
                    0 <= j < batch@.len() ==> {
                        let k = pos_key(#[trigger] batch@[j].0);
                        &&& keys@.subrange(0, i as int).contains(k)
                        &&& universe.chunks@.contains_key(k)
                        &&& batch@[j].1@ == crate::saveload::deflated(
                            crate::saveload::blocks_bytes(universe.chunks@[k].blocks@),
                            crate::saveload::CHUNK_COMPRESSION_LEVEL,
                        )
                    },
                forall|a: int, b: int| 0 <= a < b < batch@.len() ==> batch@[a].0 != batch@[b].0,
                forall|kk: u128|
                    keys@.subrange(0, i as int).contains(kk) && universe.chunks@.contains_key(kk) && !batched(
                        batch@,
                        batch@.len() as int,
                        kk,
                    ) ==> available <= #[trigger] crate::saveload::deflated(
                        crate::saveload::blocks_bytes(universe.chunks@[kk].blocks@),
                        crate::saveload::CHUNK_COMPRESSION_LEVEL,
                    ).len() + CHUNK_MESSAGE_OVERHEAD,
            decreases keys.len() - i,
        {
            let k = keys[i];
            proof {
                assert(keys@.to_set().contains(k));
                assert(keys@.subrange(0, i + 1) =~= keys@.subrange(0, i as int).push(k));
                assert(!keys@.subrange(0, i as int).contains(k)) by {
                    if keys@.subrange(0, i as int).contains(k) {
                        let j = choose|j: int| 0 <= j < i && keys@.subrange(0, i as int)[j] == k;
                        assert(keys@[j] == keys@[i as int]);
                    }
                }
            }
            let ghost b0 = batch@;
            let ghost a0 = available;
            match universe.chunks.get(&k) {
                Some(chunk) => {
                    proof {
                        assert(universe.chunks@.contains_key(k));
                    }
                    let compressed = crate::saveload::write_chunk_bytes(chunk);
                    let len = compressed.len();
                    if available > len as i128 + 12 {
                        available = available - len as i128;
                        let pos = IVec3::from_key(k);
                        proof {
                            crate::ivec::lemma_pos_key_of_key_pos(k);
                        }
                        batch.push((pos, compressed));
                        proof {
                            assert(batch@.drop_last() =~= b0);
                            assert forall|a: int, b: int| 0 <= a < b < batch@.len() implies batch@[a].0 != batch@[b].0 by {
                                if b == batch@.len() - 1 && batch@[a].0 == batch@[b].0 {
                                    assert(keys@.subrange(0, i as int).contains(pos_key(b0[a].0)));
                                }
                            }
                        }
                    }
                },
                None => {},
            }
            proof {
                assert forall|j: int|
                    0 <= j < batch@.len() implies {
                        let kk = pos_key(#[trigger] batch@[j].0);
                        &&& keys@.subrange(0, i + 1).contains(kk)
                        &&& universe.chunks@.contains_key(kk)
                        &&& batch@[j].1@ == crate::saveload::deflated(
                            crate::saveload::blocks_bytes(universe.chunks@[kk].blocks@),
                            crate::saveload::CHUNK_COMPRESSION_LEVEL,
                        )
                    } by {
                    if j < b0.len() {
                        assert(batch@[j] == b0[j]);
                        let kk = pos_key(b0[j].0);
                        let jj = choose|jj: int| 0 <= jj < i && keys@.subrange(0, i as int)[jj] == kk;
                        assert(keys@.subrange(0, i + 1)[jj] == kk);
                    } else {
                        assert(keys@.subrange(0, i + 1)[i as int] == k);
                    }
                }
                assert forall|kk: u128|
                    keys@.subrange(0, i + 1).contains(kk) && universe.chunks@.contains_key(kk) && !batched(
                        batch@,
                        batch@.len() as int,
                        kk,
                    ) implies available <= #[trigger] crate::saveload::deflated(
                        crate::saveload::blocks_bytes(universe.chunks@[kk].blocks@),
                        crate::saveload::CHUNK_COMPRESSION_LEVEL,
                    ).len() + CHUNK_MESSAGE_OVERHEAD by {
                    if kk == k {
                        if batch@.len() > b0.len() {
                            assert(pos_key(batch@[b0.len() as int].0) == kk);
                        }
                    } else {
                        let jj = choose|jj: int| 0 <= jj < i + 1 && #[trigger] keys@.subrange(0, i + 1)[jj] == kk;
                        assert(keys@.subrange(0, i as int)[jj] == kk);
                        if batched(b0, b0.len() as int, kk) {
                            let a = choose|a: int| 0 <= a < b0.len() && pos_key(#[trigger] b0[a].0) == kk;
                            assert(batch@[a] == b0[a]);
                        }
                    }
                }
            }
            i = i + 1;
        }
        proof {
            assert(keys@.subrange(0, keys@.len() as int) =~= keys@);
            assert forall|kk: u128|
                q0.contains_key(kk) && universe.chunks@.contains_key(kk) && !batched(batch@, batch@.len() as int, kk)
                implies channel_size - batch_bytes(batch@) <= #[trigger] crate::saveload::deflated(
                    crate::saveload::blocks_bytes(universe.chunks@[kk].blocks@),
                    crate::saveload::CHUNK_COMPRESSION_LEVEL,
                ).len() + CHUNK_MESSAGE_OVERHEAD by {
                assert(keys@.to_set().contains(kk));
            }
        }
        let mut j: usize = 0;
        while j < batch.len()
            invariant
                j <= batch@.len(),
                self.wf(),
                forall|k: u128|
                    #[trigger] self.requested@.contains_key(k) <==> q0.contains_key(k) && !batched(batch@, j as int, k),
                forall|k: u128| #[trigger] self.requested@.contains_key(k) ==> self.requested@[k] == q0[k],
                forall|k: u128|
                    #[trigger] self.sent@.contains_key(k) <==> s0.contains_key(k) || batched(batch@, j as int, k),
                forall|k: u128|
                    #[trigger] self.sent@.contains_key(k) ==> self.sent@[k] == if batched(batch@, j as int, k) {
                        q0[k]
                    } else {
                        s0[k]
                    },
                forall|a: int| 0 <= a < batch@.len() ==> #[trigger] q0.contains_key(pos_key(batch@[a].0)),
                forall|a: int, b: int| 0 <= a < b < batch@.len() ==> batch@[a].0 != batch@[b].0,
            decreases batch.len() - j,
        {
            let k = batch[j].0.key();
            let ghost qb = self.requested@;
            let ghost sb = self.sent@;
            proof {
                assert(q0.contains_key(k));
                assert(qb.contains_key(k)) by {
                    if batched(batch@, j as int, k) {
                        let a = choose|a: int| 0 <= a < j && pos_key(#[trigger] batch@[a].0) == k;
                        crate::ivec::lemma_pos_key_injective(batch@[a].0, batch@[j as int].0);
                    }
                }
            }
            let v = match self.requested.remove(&k) {
                Some(v) => v,
                None => {
                    proof {
                        assert(false);
                    }
                    0
                },
            };
            self.sent.insert(k, v);
            proof {
                assert forall|kk: u128|
                    #[trigger] batched(batch@, j + 1, kk) <==> (batched(batch@, j as int, kk) || kk == k) by {
                    if kk == k {
                        assert(pos_key(batch@[j as int].0) == kk);
                    }
                    if batched(batch@, j + 1, kk) {
                        let a = choose|a: int| 0 <= a < j + 1 && pos_key(#[trigger] batch@[a].0) == kk;
                        if a < j {
                            assert(0 <= a < j && pos_key(batch@[a].0) == kk);
                        }
                    }
                }
            }
            j = j + 1;
        }
        batch
    }
}

/// A chunk already sent at its current version is not asked for again:
/// only a new version of it is.
pub proof fn law_sent_version_not_requested(u: Universe, sent: Map<u128, u32>, wanted: Seq<IVec3>, k: u128)
    requires
        u.chunks@.contains_key(k),
        sent.contains_key(k),
        sent[k] == u.chunks@[k].version,
    ensures
        !newly_requested(u, sent, wanted, k),
{
}

/// Applies one chunk received from the server: its blocks replace those of
/// the loaded chunk at `pos`, whose version then advances by one, or are
/// loaded at `pos` as a fresh chunk. Nothing changes, and `false` is
/// returned, when the data does not inflate to exactly one chunk of blocks.
pub fn apply_received_chunk(universe: &mut Universe, pos: IVec3, compressed: &Vec<u8>) -> (r: bool)
    requires
        old(universe).wf(),
    ensures
        final(universe).wf(),
        r == match crate::saveload::inflated(compressed@, (CHUNK_VOLUME * 4 + CHUNK_MESSAGE_OVERHEAD) as usize) {
            Some(bytes) => crate::saveload::chunk_of_bytes(bytes).is_some(),
            None => false,
        },
        !r ==> final(universe).chunks@ == old(universe).chunks@,
        r ==> {
            let blocks = crate::saveload::chunk_of_bytes(
                crate::saveload::inflated(compressed@, (CHUNK_VOLUME * 4 + CHUNK_MESSAGE_OVERHEAD) as usize).unwrap(),
            ).unwrap();
            let n = final(universe).chunks@[pos_key(pos)];
            &&& final(universe).chunks@.dom() == old(universe).chunks@.dom().insert(pos_key(pos))
            &&& forall|k: u128|
                k != pos_key(pos) && #[trigger] old(universe).chunks@.contains_key(k) ==> final(universe).chunks@[k]
                    == old(universe).chunks@[k]
            &&& n.blocks@ == blocks
            &&& match old(universe).chunk_at(pos) {
                Some(c) => n.version == c.version.wrapping_add(1) && n.properties == c.properties,
                None => n.version == 0 && n.properties@ == Set::<u8>::empty(),
            }
        },
{
    match crate::saveload::inflate_chunk(compressed, CHUNK_VOLUME * 4 + CHUNK_MESSAGE_OVERHEAD) {
        Some(fresh) => {
            match universe.remove_chunk(&pos) {
                Some(old_chunk) => {
                    let updated = Chunk {
                        blocks: fresh.blocks,
                        version: old_chunk.version.wrapping_add(1),
                        properties: old_chunk.properties,
                    };
                    universe.insert_chunk(pos, updated);
                },
                None => {
                    universe.insert_chunk(pos, fresh);
                },
            }
            proof {
                assert(universe.chunks@.dom() =~= old(universe).chunks@.dom().insert(pos_key(pos)));
            }
            true
        },
        None => false,
    }
}

} // verus!
