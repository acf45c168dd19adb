//! The store's startup configuration and its defaults.

use vstd::prelude::*;
use crate::traits::NewType;

verus! {

/// Configuration for one store instance: root-map size, network address,
/// worker counts and queue sizes, parker timings and the free-list limit.
#[derive(Debug, Clone)]
pub struct Settings {
    pub db_map_slots: usize,
    pub db_port: u16,
    pub conn_th_count: usize,
    pub conn_queue_size: usize,
    pub serv_addr: String,
    pub tcp_park_min: u64,
    pub tcp_park_max: u64,
    pub tcp_park_seg: u64,
    pub th_free_lim: u32,
}

impl NewType for Settings {
    fn new() -> Self {
        Settings {
            db_map_slots: 100,
            db_port: 8080,
            conn_th_count: 4,
            conn_queue_size: 50,
            serv_addr: "127.0.0.1".to_owned(),
            tcp_park_min: 0,
            tcp_park_max: 1000,
            tcp_park_seg: 50,
            th_free_lim: 5,
        }
    }
}

impl Settings {
    /// The default settings.
    pub fn defaults() -> (r: Settings)
        ensures
            r.db_map_slots == 100,
            r.db_port == 8080,
            r.conn_th_count == 4,
            r.conn_queue_size == 50,
            r.serv_addr@ == "127.0.0.1"@,
            r.tcp_park_min == 0,
            r.tcp_park_max == 1000,
            r.tcp_park_seg == 50,
            r.th_free_lim == 5,
    {
        Settings {
            db_map_slots: 100,
            db_port: 8080,
            conn_th_count: 4,
            conn_queue_size: 50,
            serv_addr: "127.0.0.1".to_owned(),
            tcp_park_min: 0,
            tcp_park_max: 1000,
            tcp_park_seg: 50,
            th_free_lim: 5,
        }
    }

    /// Points the settings at a caller-chosen test port.
    pub fn set_port_for_testing(&mut self, port: u16)
        ensures
            *final(self) == (Settings { db_port: port, ..*old(self) }),
    {
        self.db_port = port;
    }
}

} // verus!
