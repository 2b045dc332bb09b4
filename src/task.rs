pub mod simple_executor;
