pub mod buffered;
pub mod cluster;
pub mod connection;
pub mod errors;
pub mod master;
pub mod path_sync;
pub mod search;
pub mod slave;
pub mod utils;

pub use cluster::Cluster;
pub use errors::ClusterError;
pub use master::Master;
pub use slave::Slave;
