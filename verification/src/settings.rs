//! The settings of the game, from their defaults and the command line.
use vstd::prelude::*;
use crate::net::{mode_named, NetSettings, NetworkMode, DEFAULT_NETWORK_ADDRESS};

verus! {

/// Simulation ticks per second.
pub const DEFAULT_TICKS_PER_SECOND: u32 = 64;

/// What the command line may set.
#[derive(Debug, Clone)]
pub struct Args {
    pub network_mode: Option<String>,
    pub address_server: Option<String>,
    pub view_distance: Option<u32>,
}

/// The settings of the game.
#[derive(Debug, Clone)]
pub struct McrsSettings {
    pub ticks_per_second: u32,
    pub view_distance_blocks: u32,
    pub server_address: String,
    pub network_mode: NetworkMode,
}

/// The settings of the renderer.
#[derive(Debug, Clone, Copy, PartialEq, Eq, Structural)]
pub struct RenderSettings {
    pub view_distance_blocks: u32,
}

impl McrsSettings {
    /// The default settings, given the renderer's default view distance:
    /// client and server in one process, on the default address.
    pub fn defaults(default_view_distance: u32) -> (r: McrsSettings)
        ensures
            r.ticks_per_second == DEFAULT_TICKS_PER_SECOND,
            r.view_distance_blocks == default_view_distance,
            r.server_address@ == DEFAULT_NETWORK_ADDRESS@,
            r.network_mode == NetworkMode::ClientAndServer,
    {
        McrsSettings {
            ticks_per_second: DEFAULT_TICKS_PER_SECOND,
            view_distance_blocks: default_view_distance,
            server_address: DEFAULT_NETWORK_ADDRESS.to_owned(),
            network_mode: NetworkMode::ClientAndServer,
        }
    }

    /// The settings the command line asks for, the others being the
    /// defaults; nothing when it names an unknown network mode.
    pub fn from_args(args: Args, default_view_distance: u32) -> (r: Option<McrsSettings>)
        ensures
            ({
                let mode = match args.network_mode {
                    None => Some(NetworkMode::ClientAndServer),
                    Some(s) => mode_named(s@),
                };
                match r {
                    Some(s) => mode == Some(s.network_mode) && s.ticks_per_second == DEFAULT_TICKS_PER_SECOND
                        && s.view_distance_blocks == match args.view_distance {
                        Some(v) => v,
                        None => default_view_distance,
                    } && s.server_address@ == match args.address_server {
                        Some(a) => a@,
                        None => DEFAULT_NETWORK_ADDRESS@,
                    },
                    None => mode.is_none(),
                }
            }),
    {
        let mode = match &args.network_mode {
            Some(s) => NetworkMode::from_name(Some(s.as_str())),
            None => NetworkMode::from_name(None),
        };
        match mode {
            Some(network_mode) => {
                let view_distance_blocks = match args.view_distance {
                    Some(v) => v,
                    None => default_view_distance,
                };
                let server_address = match args.address_server {
                    Some(a) => a,
                    None => DEFAULT_NETWORK_ADDRESS.to_owned(),
                };
                Some(McrsSettings {
                    ticks_per_second: DEFAULT_TICKS_PER_SECOND,
                    view_distance_blocks,
                    server_address,
                    network_mode,
                })
            },
            None => None,
        }
    }

    /// The network settings: chunks are replicated up to the view distance.
    pub fn net_settings(self) -> (r: NetSettings)
        ensures
            r.server_address == self.server_address,
            r.network_mode == self.network_mode,
            r.replication_distance == self.view_distance_blocks,
    {
        NetSettings {
            server_address: self.server_address,
            network_mode: self.network_mode,
            replication_distance: self.view_distance_blocks,
        }
    }

    /// The renderer settings.
    pub fn render_settings(&self) -> (r: RenderSettings)
        ensures
            r.view_distance_blocks == self.view_distance_blocks,
    {
        RenderSettings { view_distance_blocks: self.view_distance_blocks }
    }
}

} // verus!
