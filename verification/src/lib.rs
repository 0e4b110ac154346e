//! Network usage accounting for a vnStat dashboard.

pub mod text;
pub mod number;
pub mod interface;
pub mod live;
pub mod net_dev;
pub mod sockets;
pub mod proc_io;
pub mod name_map;
pub mod daily_log;
pub mod tracker;
pub mod clock;
pub mod vnstat;
pub mod paths;
pub mod store;
pub mod http;
