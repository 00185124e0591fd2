//! A character-level nano-GPT toolkit: the TinyShakespeare line dataset,
//! a character tokenizer, mini-batch sampling for next-token training, and
//! the integer rules of the model and of the training run.
pub mod batch;
mod code_points;
pub mod dataset;
pub mod model;
pub mod settings;
pub mod tokenizer;
