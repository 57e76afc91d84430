use mcrs::block::Block;
use mcrs::chunk::Chunk;
use mcrs::ivec::IVec3;
use mcrs::net::{
    apply_received_chunk, connection_config, ChunkReplication, ClientChannel, Lobby, NetSettings, NetworkMode,
    PlayerId, SendKind, ServerChannel, AVAILABLE_BYTES_PER_TICK, CHUNK_MESSAGE_OVERHEAD, DEFAULT_NETWORK_ADDRESS,
    DEFAULT_REPLICATION_DISTANCE, MESSAGES_CHANNEL_MEMORY, PORT, PROTOCOL_ID, RESEND_TIME_MS,
};
use mcrs::saveload::write_chunk_bytes;
use mcrs::universe::Universe;
use mcrs::CHUNK_VOLUME;

fn player(name: &str) -> PlayerId {
    PlayerId::from_name(name.to_string())
}

fn names(v: &[PlayerId]) -> Vec<String> {
    v.iter().map(|p| p.name.clone()).collect()
}

#[test]
fn network_modes_by_name() {
    assert_eq!(NetworkMode::from_name(None), Some(NetworkMode::ClientAndServer));
    assert_eq!(NetworkMode::from_name(Some("client")), Some(NetworkMode::Client));
    assert_eq!(NetworkMode::from_name(Some("server")), Some(NetworkMode::Server));
    assert_eq!(NetworkMode::from_name(Some("offline")), Some(NetworkMode::Offline));
    assert_eq!(NetworkMode::from_name(Some("clientserver")), Some(NetworkMode::ClientAndServer));
    assert_eq!(NetworkMode::from_name(Some("Client")), None);
    assert_eq!(NetworkMode::from_name(Some("")), None);
    assert_eq!(NetworkMode::default(), NetworkMode::Offline);
    assert!(NetworkMode::Server.opens_server());
    assert!(NetworkMode::ClientAndServer.opens_server());
    assert!(!NetworkMode::Client.opens_server());
    assert!(NetworkMode::Client.opens_client());
    assert!(!NetworkMode::ClientAndServer.opens_client());
    assert!(!NetworkMode::Offline.opens_client());
}

#[test]
fn default_net_settings() {
    let s = NetSettings::default();
    assert_eq!(s.server_address, "127.0.0.1");
    assert_eq!(DEFAULT_NETWORK_ADDRESS, "127.0.0.1");
    assert_eq!(s.network_mode, NetworkMode::Offline);
    assert_eq!(s.replication_distance, DEFAULT_REPLICATION_DISTANCE);
    assert_eq!(DEFAULT_REPLICATION_DISTANCE, 64);
    assert_eq!(PORT, 54550);
    assert_eq!(PROTOCOL_ID, 7);
}

#[test]
fn channel_ids_and_configs() {
    assert_eq!(u8::from(ClientChannel::ClientMessages), 0);
    assert_eq!(u8::from(ClientChannel::PlayerStates), 1);
    assert_eq!(u8::from(ServerChannel::ServerMessages), 0);
    assert_eq!(u8::from(ServerChannel::ClientMessages), 1);
    assert_eq!(u8::from(ServerChannel::PlayerReplica), 2);
    assert_eq!(u8::from(ServerChannel::Universe), 3);
    let client = ClientChannel::channels_config();
    assert_eq!(client.len(), 2);
    assert_eq!(client[0].send_type, SendKind::ReliableOrdered { resend_time_ms: RESEND_TIME_MS });
    assert_eq!(client[1].send_type, SendKind::Unreliable);
    assert_eq!(client[1].max_memory_usage_bytes, MESSAGES_CHANNEL_MEMORY);
    let server = ServerChannel::channels_config();
    assert_eq!(server.len(), 4);
    assert_eq!(server[3].channel_id, 3);
    assert_eq!(server[3].max_memory_usage_bytes, 100 * CHUNK_VOLUME * 4);
    assert_eq!(server[2].send_type, SendKind::Unreliable);
    let conn = connection_config();
    assert_eq!(conn.available_bytes_per_tick, AVAILABLE_BYTES_PER_TICK);
    assert_eq!(AVAILABLE_BYTES_PER_TICK, 1024 * 1024);
    assert_eq!(conn.server_channels_config, server);
    assert_eq!(conn.client_channels_config, client);
}

#[test]
fn lobby_login_and_disconnect() {
    let mut lobby = Lobby::new();
    lobby.player_spawned(&player("me"), player("me"));
    assert_eq!(names(&lobby.local_players), vec!["me"]);
    lobby.login(7, player("ann"));
    lobby.login(9, player("bob"));
    assert_eq!(names(&lobby.remote_players), vec!["ann", "bob"]);
    assert_eq!(names(&lobby.connected_players()), vec!["ann", "bob", "me"]);
    assert_eq!(lobby.client_of(&player("bob")), Some(9));
    assert_eq!(lobby.client_of(&player("me")), None);
    let gone = lobby.disconnect(7).unwrap();
    assert_eq!(gone.name, "ann");
    assert_eq!(names(&lobby.remote_players), vec!["bob"]);
    assert!(lobby.disconnect(7).is_none());
    assert_eq!(lobby.client_of(&player("ann")), None);
    assert_eq!(names(&lobby.local_players), vec!["me"]);
}

#[test]
fn lobby_players_connected_and_spawned() {
    let mut lobby = Lobby::new();
    lobby.players_connected(vec![player("a"), player("a"), player("b"), player("a")]);
    assert_eq!(names(&lobby.remote_players), vec!["a", "b", "a"]);
    lobby.players_connected(vec![player("a"), player("c")]);
    assert_eq!(names(&lobby.remote_players), vec!["a", "b", "a", "c"]);
    lobby.remove_remote(&player("a"));
    assert_eq!(names(&lobby.remote_players), vec!["b", "c"]);
    lobby.player_spawned(&player("me"), player("b"));
    assert_eq!(names(&lobby.remote_players), vec!["b", "c"]);
    lobby.player_spawned(&player("me"), player("d"));
    assert_eq!(names(&lobby.remote_players), vec!["b", "c", "d"]);
    lobby.player_spawned(&player("me"), player("me"));
    lobby.player_spawned(&player("me"), player("me"));
    assert_eq!(names(&lobby.local_players), vec!["me"]);
    assert!(player("x").same_as(&player("x")));
    assert!(!player("x").same_as(&player("y")));
    assert_eq!(player("z").duplicate(), player("z"));
}

#[test]
fn replication_sends_each_version_once() {
    let mut u = Universe::new();
    let a = IVec3::new(0, 0, 0);
    let b = IVec3::new(32, 0, 0);
    let far = IVec3::new(64, 0, 0);
    u.insert_chunk(a, Chunk::empty());
    u.insert_chunk(b, Chunk::empty());
    let mut rep = ChunkReplication::new();
    rep.request(&u, &vec![a, b, far]);
    assert_eq!(rep.requested.len(), 2);
    assert_eq!(rep.requested[&a.key()], 0);
    assert!(!rep.requested.contains_key(&far.key()));
    let batch = rep.take_batch(&u, 10_000_000);
    assert_eq!(batch.len(), 2);
    assert!(batch.iter().all(|(_, bytes)| *bytes == write_chunk_bytes(&Chunk::empty())));
    assert!(rep.requested.is_empty());
    assert_eq!(rep.sent[&b.key()], 0);
    rep.request(&u, &vec![a, b]);
    assert!(rep.requested.is_empty());
    u.set_chunk_block(&IVec3::new(1, 1, 1), Block { id: 1, ..Block::default() });
    rep.request(&u, &vec![a, b]);
    assert_eq!(rep.requested.len(), 1);
    assert_eq!(rep.requested[&a.key()], 1);
}

#[test]
fn replication_respects_the_channel_size() {
    let mut u = Universe::new();
    let a = IVec3::new(0, 0, 0);
    u.insert_chunk(a, Chunk::empty());
    let mut rep = ChunkReplication::new();
    rep.request(&u, &vec![a]);
    let size = write_chunk_bytes(&Chunk::empty()).len() + CHUNK_MESSAGE_OVERHEAD;
    assert!(rep.take_batch(&u, size as i32).is_empty());
    assert_eq!(rep.requested.len(), 1);
    assert!(rep.sent.is_empty());
    let batch = rep.take_batch(&u, size as i32 + 1);
    assert_eq!(batch.len(), 1);
    assert_eq!(batch[0].0, a);
}

#[test]
fn received_chunks_replace_or_load() {
    let mut u = Universe::new();
    let pos = IVec3::new(0, 32, 0);
    let mut sent = Chunk::empty();
    sent.set_entire_block(IVec3::new(1, 2, 3), Block { id: 5, ..Block::default() });
    let bytes = write_chunk_bytes(&sent);
    assert!(apply_received_chunk(&mut u, pos, &bytes));
    assert_eq!(u.get_chunk(&pos).unwrap().blocks, sent.blocks);
    assert_eq!(u.get_chunk(&pos).unwrap().version, 0);
    assert!(apply_received_chunk(&mut u, pos, &bytes));
    assert_eq!(u.get_chunk(&pos).unwrap().version, 1);
    assert!(!apply_received_chunk(&mut u, pos, &vec![0, 1, 2]));
    assert_eq!(u.get_chunk(&pos).unwrap().version, 1);
    assert_eq!(u.read_chunk(&IVec3::new(1, 34, 3)).unwrap().id, 5);
}
