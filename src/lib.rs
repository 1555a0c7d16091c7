//! Word centipedes: chains of base words in which each word followed by the next
//! spells a known compound word. Words are split into base words by greedy
//! segmentation, a successor relation is built between base words, and a bounded
//! search with a shared exclusion set enumerates the chains from each base word.

pub mod words;
pub mod index;
pub mod compound;
pub mod successor;
pub mod search;
pub mod centipede;
pub mod collector;
