pub mod decimal;
pub mod keys;
pub mod merkle_hellman_knapsack;
pub mod primes;
