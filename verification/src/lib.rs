pub mod text;
pub mod data_engine;
pub mod quantum_bridge;
pub mod inference_handler;
pub mod grpc_client;
