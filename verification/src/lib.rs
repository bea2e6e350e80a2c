//! MnemoKanji core: the two-track study engine and its scheduler wiring, the review sitting,
//! the progress statistics, and the content-pipeline algorithms that order the curriculum and
//! select its readings, vocabulary, example sentences and stroke data.
//!
//! - `time`, `domain`, `scheduler`, `session`, `review`, `stats`: scheduling and study.
//! - `order`, `topo`, `pipeline`: learning order and the seed's kanji rows.
//! - `kana`, `vocab`, `sentence`, `stroke`, `phonetic`: the content derivations.
//! - `content`: the presentation model of a kanji (reading line, cloze).
//! - `json`: the source files as JSON values, and what the seed builder reads from them.
//! - `text`: character-level string handling.

use vstd::prelude::*;

pub mod text;
pub mod time;
pub mod domain;
pub mod scheduler;
pub mod order;
pub mod session;
pub mod stats;
pub mod kana;
pub mod topo;
pub mod pipeline;
pub mod stroke;
pub mod content;
pub mod vocab;
pub mod sentence;
pub mod phonetic;
pub mod review;
pub mod json;

verus! {

/// The crate version, as written in the package manifest.
pub fn version() -> (v: &'static str)
    ensures
        v@ == "0.1.0"@,
{
    let v = "0.1.0";
    proof {
        reveal_strlit("0.1.0");
    }
    v
}

} // verus!
