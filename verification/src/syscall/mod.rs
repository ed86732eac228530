pub mod dispatch;
pub mod numbers;
