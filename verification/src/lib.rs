pub mod config;
pub mod connect;
pub mod connect_manager;
pub mod httpheader;
pub mod packet;
pub mod queue;
pub mod reassembly;
pub mod stage;
pub mod text;
