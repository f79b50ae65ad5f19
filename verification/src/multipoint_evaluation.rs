pub mod u128;
