//! A word-level tokenizer and the text handling around a small LSTM text
//! generator: learning a vocabulary from a text, turning text into ids and
//! back, reading question and answer pairs, and drawing training batches.

pub mod index;
pub mod laws;
pub mod order;
pub mod qa;
pub mod text;
pub mod tokenizer;
pub mod training;

pub use qa::{extract_pairs, join_strings, question_prompt, training_parts};
pub use text::{strip_prefix, tokenize};
pub use tokenizer::{Tokenizer, UNK_ID};
pub use training::{
    batch_from_starts, draw_bound, get_batch, saves_checkpoint, shows_progress, train_plan, TrainPlan,
    BATCH_SIZE, EMBED_SIZE, EPOCHS, GEN_LEN, HIDDEN_SIZE, QA_LEN, SEQ_LEN, VOCAB_SIZE,
};
