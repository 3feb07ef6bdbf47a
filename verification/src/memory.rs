//! The logic of the message store: the byte layout of stored embeddings,
//! the decisions taken around its SQL statements, and the clock.
use vstd::prelude::*;
use crate::text::{
    chars_of, double_quotes_spec, escape_fts_query, lemma_trim_idempotent, like_pattern,
    like_pattern_spec, same_text, string_of_range, trim_chars, trim_spec,
};
use std::time::{Duration, SystemTime, SystemTimeError};

verus! {

// ---------------------------------------------------------------------------
// Embedding blobs: little-endian 32-bit words
// ---------------------------------------------------------------------------

/// The four little-endian bytes of a 32-bit word.
pub open spec fn le_bytes(w: u32) -> Seq<u8> {
    seq![
        (w % 256) as u8,
        ((w / 256) % 256) as u8,
        ((w / 65536) % 256) as u8,
        (w / 16777216) as u8,
    ]
}

/// The words laid out one after the other, four little-endian bytes each.
pub open spec fn encode_words(ws: Seq<u32>) -> Seq<u8> {
    Seq::new(4 * ws.len(), |j: int| le_bytes(ws[j / 4])[j % 4])
}

/// The word made of the four little-endian bytes at `4 * i`.
pub open spec fn word_at(b: Seq<u8>, i: int) -> u32 {
    (b[4 * i] + 256 * b[4 * i + 1] + 65536 * b[4 * i + 2] + 16777216 * b[4 * i + 3]) as u32
}

/// The words of a byte string read four bytes at a time; trailing bytes that
/// do not make a whole word are ignored.
pub open spec fn decode_words(b: Seq<u8>) -> Seq<u32> {
    Seq::new(b.len() / 4, |i: int| word_at(b, i))
}

/// Serialises an embedding, given as the IEEE-754 bit patterns of its
/// `f32` components, into the blob stored in the database: each component as
/// four little-endian bytes (what `f32::to_le_bytes` gives).
pub fn f32_to_bytes(bits: &[u32]) -> (res: Vec<u8>)
    ensures
        res@ == encode_words(bits@),
{
    let mut res: Vec<u8> = Vec::new();
    let mut i: usize = 0;
    while i < bits.len()
        invariant
            i <= bits@.len(),
            res@ == encode_words(bits@.take(i as int)),
        decreases bits@.len() - i,
    {
        let w = bits[i];
        let ghost prev = res@;
        res.push((w % 256) as u8);
        res.push(((w / 256) % 256) as u8);
        res.push(((w / 65536) % 256) as u8);
        res.push((w / 16777216) as u8);
        proof {
            let next = bits@.take(i + 1);
            assert forall|j: int| 0 <= j < 4 * (i + 1) implies #[trigger] res@[j] == le_bytes(
                next[j / 4],
            )[j % 4] by {
                if j < 4 * i {
                    assert(prev[j] == le_bytes(bits@.take(i as int)[j / 4])[j % 4]);
                    assert(j / 4 < i);
                } else {
                    assert(j / 4 == i);
                }
            }
            assert(res@ =~= encode_words(next));
        }
        i = i + 1;
    }
    assert(bits@.take(bits@.len() as int) =~= bits@);
    res
}

/// Reads a stored blob back into the bit patterns of its `f32`
/// components: one per whole group of four bytes, little-endian (what
/// `chunks_exact(4)` and `f32::from_le_bytes` give). A trailing partial
/// group is ignored.
pub fn bytes_to_f32(b: &[u8]) -> (res: Vec<u32>)
    ensures
        res@ == decode_words(b@),
{
    let mut res: Vec<u32> = Vec::new();
    let len = b.len();
    let n = len / 4;
    let mut i: usize = 0;
    while i < n
        invariant
            len == b@.len(),
            n == b@.len() / 4,
            i <= n,
            res@ == decode_words(b@).take(i as int),
        decreases n - i,
    {
        assert(4 * i + 3 < len);
        let base = 4 * i;
        let w = b[base] as u32 + 256 * (b[base + 1] as u32) + 65536 * (b[base + 2] as u32)
            + 16777216 * (b[base + 3] as u32);
        res.push(w);
        i = i + 1;
        assert(res@ =~= decode_words(b@).take(i as int));
    }
    assert(decode_words(b@).take(n as int) =~= decode_words(b@));
    res
}

proof fn lemma_word_bytes(w: u32)
    ensures
        w == (w % 256) + 256 * ((w / 256) % 256) + 65536 * ((w / 65536) % 256) + 16777216 * (w
            / 16777216),
        w / 16777216 < 256,
{
}

/// Each word of an embedding is stored as its four little-endian bytes: the
/// byte at offset `k` of a word's group, weighted by `256^k`, sums to the word.
pub proof fn lemma_blob_little_endian(ws: Seq<u32>)
    ensures
        encode_words(ws).len() == 4 * ws.len(),
        forall|i: int|
            0 <= i < ws.len() ==> {
                let b = encode_words(ws);
                b[4 * i] + 256 * b[4 * i + 1] + 65536 * b[4 * i + 2] + 16777216 * b[4 * i + 3]
                    == #[trigger] ws[i]
            },
{
    let b = encode_words(ws);
    assert forall|i: int| 0 <= i < ws.len() implies b[4 * i] + 256 * b[4 * i + 1] + 65536 * b[4
        * i + 2] + 16777216 * b[4 * i + 3] == #[trigger] ws[i] by {
        lemma_word_bytes(ws[i]);
        assert((4 * i) / 4 == i && (4 * i) % 4 == 0);
        assert((4 * i + 1) / 4 == i && (4 * i + 1) % 4 == 1);
        assert((4 * i + 2) / 4 == i && (4 * i + 2) % 4 == 2);
        assert((4 * i + 3) / 4 == i && (4 * i + 3) % 4 == 3);
    }
}

/// Reading a blob takes each whole group of four bytes as a little-endian
/// word: the byte at offset `k` weighted by `256^k`.
pub proof fn lemma_blob_read_little_endian(b: Seq<u8>)
    ensures
        decode_words(b).len() == b.len() / 4,
        forall|i: int|
            0 <= i < b.len() / 4 ==> #[trigger] decode_words(b)[i] == b[4 * i] + 256 * b[4 * i + 1]
                + 65536 * b[4 * i + 2] + 16777216 * b[4 * i + 3],
{
    assert forall|i: int| 0 <= i < b.len() / 4 implies #[trigger] decode_words(b)[i] == b[4 * i]
        + 256 * b[4 * i + 1] + 65536 * b[4 * i + 2] + 16777216 * b[4 * i + 3] by {
        assert(4 * i + 3 < b.len());
    }
}

/// Reading back what was written gives the same components.
pub proof fn lemma_blob_roundtrip(ws: Seq<u32>)
    ensures
        decode_words(encode_words(ws)) == ws,
{
    let b = encode_words(ws);
    assert forall|i: int| 0 <= i < ws.len() implies #[trigger] word_at(b, i) == ws[i] by {
        lemma_word_bytes(ws[i]);
        assert((4 * i) / 4 == i && (4 * i) % 4 == 0);
        assert((4 * i + 1) / 4 == i && (4 * i + 1) % 4 == 1);
        assert((4 * i + 2) / 4 == i && (4 * i + 2) % 4 == 2);
        assert((4 * i + 3) / 4 == i && (4 * i + 3) % 4 == 3);
    }
    assert(decode_words(b) =~= ws);
}

/// Writing back what was read gives the blob without its trailing partial
/// group of bytes.
pub proof fn lemma_blob_rewrite(b: Seq<u8>)
    ensures
        encode_words(decode_words(b)) == b.take((4 * (b.len() / 4)) as int),
{
    let ws = decode_words(b);
    let e = encode_words(ws);
    assert forall|j: int| 0 <= j < 4 * (b.len() / 4) implies #[trigger] e[j] == b[j] by {
        let i = j / 4;
        let r = j % 4;
        assert(j == 4 * i + r && 0 <= r < 4);
        let w = word_at(b, i);
        let b0 = b[4 * i] as int;
        let b1 = b[4 * i + 1] as int;
        let b2 = b[4 * i + 2] as int;
        let b3 = b[4 * i + 3] as int;
        assert(w == b0 + 256 * b1 + 65536 * b2 + 16777216 * b3);
        assert(w % 256 == b0);
        assert((w / 256) % 256 == b1);
        assert((w / 65536) % 256 == b2);
        assert(w / 16777216 == b3);
    }
    assert(e =~= b.take((4 * (b.len() / 4)) as int));
}

// ---------------------------------------------------------------------------
// Keyword search: which statement to run for a user query
// ---------------------------------------------------------------------------

/// How the keyword candidates for a query are looked up.
#[derive(Debug, PartialEq, Eq)]
pub enum KeywordSearch {
    /// The query is blank: there is nothing to look up.
    Blank,
    /// Fewer than three characters, which the trigram index cannot match:
    /// a `LIKE` substring search with this pattern, newest first.
    Substring { pattern: String },
    /// An FTS5 `MATCH` with this phrase, best BM25 score first.
    Phrase { fts_query: String },
}

/// Decides how `HistoryStore::get_fts_candidates` looks up `query`: blank
/// queries find nothing; a trimmed query of one or two characters falls back
/// to a `LIKE` substring search; longer ones are matched as one FTS5 phrase.
pub fn plan_keyword_search(query: &str) -> (res: KeywordSearch)
    ensures
        ({
            let t = trim_spec(query@);
            match res {
                KeywordSearch::Blank => t.len() == 0,
                KeywordSearch::Substring { pattern } => 0 < t.len() < 3 && pattern@
                    == like_pattern_spec(t),
                KeywordSearch::Phrase { fts_query } => t.len() >= 3 && fts_query@ == seq!['"']
                    + double_quotes_spec(t) + seq!['"'],
            }
        }),
{
    let chars = chars_of(query);
    let t = trim_chars(&chars);
    if t.len() == 0 {
        return KeywordSearch::Blank;
    }
    let trimmed = string_of_range(&t, 0, t.len());
    assert(trimmed@ =~= trim_spec(query@));
    if t.len() < 3 {
        KeywordSearch::Substring { pattern: like_pattern(trimmed.as_str()) }
    } else {
        proof {
            lemma_trim_idempotent(query@);
        }
        KeywordSearch::Phrase { fts_query: escape_fts_query(trimmed.as_str()) }
    }
}

// ---------------------------------------------------------------------------
// Saving a message: refresh an identical fact, or insert a new row
// ---------------------------------------------------------------------------

/// A statement of `HistoryStore::save_message`, or the end of it.
#[derive(Debug, Clone, Copy, PartialEq, Eq)]
pub enum SaveStep {
    /// Update `created_at` and `embedding` of the rows with the same
    /// channel, author, role and content.
    RefreshFact,
    /// Insert the message as a new row.
    Insert,
    /// Nothing more to do.
    Done,
}

/// Facts are deduplicated; conversation messages never are.
pub open spec fn save_first_step_spec(role: Seq<char>) -> SaveStep {
    if role == "fact"@ {
        SaveStep::RefreshFact
    } else {
        SaveStep::Insert
    }
}

/// The step after `step` changed `affected` rows.
pub open spec fn save_next_step_spec(step: SaveStep, affected: nat) -> SaveStep {
    match step {
        SaveStep::RefreshFact => if affected == 0 {
            SaveStep::Insert
        } else {
            SaveStep::Done
        },
        _ => SaveStep::Done,
    }
}

/// The first statement that saving a message with this role runs: a fact
/// refreshes an identical existing fact, any other role inserts a new row.
pub fn save_first_step(role: &str) -> (res: SaveStep)
    ensures
        res == save_first_step_spec(role@),
{
    if same_text(role, "fact") {
        SaveStep::RefreshFact
    } else {
        SaveStep::Insert
    }
}

/// The statement that follows `step`, given the number of rows it changed:
/// a refresh that found no identical fact is followed by an insert.
pub fn save_next_step(step: SaveStep, affected: usize) -> (res: SaveStep)
    ensures
        res == save_next_step_spec(step, affected as nat),
{
    match step {
        SaveStep::RefreshFact => if affected == 0 {
            SaveStep::Insert
        } else {
            SaveStep::Done
        },
        _ => SaveStep::Done,
    }
}

/// Saving a message runs at most two statements, and inserts exactly when
/// the message is not a fact, or is a fact with no identical row to refresh:
/// conversation messages always add a row, facts never add a duplicate.
pub proof fn lemma_save_inserts_once_unless_refreshed(role: Seq<char>, refreshed: nat)
    ensures
        role != "fact"@ ==> save_first_step_spec(role) == SaveStep::Insert
            && save_next_step_spec(SaveStep::Insert, refreshed) == SaveStep::Done,
        role == "fact"@ ==> save_first_step_spec(role) == SaveStep::RefreshFact && (refreshed == 0
            <==> save_next_step_spec(SaveStep::RefreshFact, refreshed) == SaveStep::Insert)
            && save_next_step_spec(save_next_step_spec(SaveStep::RefreshFact, refreshed), 0)
            == SaveStep::Done,
{
}

// ---------------------------------------------------------------------------
// Keyword index set-up
// ---------------------------------------------------------------------------

/// Whether the keyword index must be rebuilt from the stored messages, given
/// how many keyword tables existed before it was created: only when there was
/// none, so that messages stored before the index existed become searchable.
pub fn keyword_index_needs_rebuild(existing_tables: i64) -> (res: bool)
    ensures
        res == (existing_tables <= 0),
{
    existing_tables <= 0
}

// ---------------------------------------------------------------------------
// History order
// ---------------------------------------------------------------------------

/// The rows read newest first, put back in chronological order (oldest
/// first), as a prompt wants them.
pub fn oldest_first<T>(newest_first: Vec<T>) -> (res: Vec<T>)
    ensures
        res@ == newest_first@.reverse(),
{
    let ghost orig = newest_first@;
    let mut rest = newest_first;
    let mut res: Vec<T> = Vec::new();
    while rest.len() > 0
        invariant
            rest@ == orig.take(rest@.len() as int),
            rest@.len() <= orig.len(),
            res@ == orig.subrange(rest@.len() as int, orig.len() as int).reverse(),
        decreases rest@.len(),
    {
        let x = rest.pop().unwrap();
        res.push(x);
        assert(rest@ =~= orig.take(rest@.len() as int));
        assert(res@ =~= orig.subrange(rest@.len() as int, orig.len() as int).reverse());
    }
    assert(orig.subrange(0, orig.len() as int) =~= orig);
    res
}

// ---------------------------------------------------------------------------
// Clock
// ---------------------------------------------------------------------------

#[verifier::external_type_specification]
#[verifier::external_body]
pub struct ExSystemTime(SystemTime);

#[verifier::external_type_specification]
#[verifier::external_body]
pub struct ExSystemTimeError(SystemTimeError);

/// `SystemTime::now`: the current reading of the system clock. Nothing is
/// claimed of it.
#[verifier::external_body]
fn system_time_now() -> SystemTime {
    SystemTime::now()
}

/// `SystemTime::duration_since(UNIX_EPOCH)`: the time elapsed since the Unix
/// epoch, or an error when the clock reads earlier. Nothing is claimed of
/// which comes back: it depends on the clock.
#[verifier::external_body]
fn since_unix_epoch(t: &SystemTime) -> Result<Duration, SystemTimeError> {
    t.duration_since(std::time::UNIX_EPOCH)
}

/// `Duration::as_secs`: the whole seconds of a duration. `Duration` is opaque
/// here, so nothing is claimed of the number.
#[verifier::external_body]
fn whole_seconds(d: &Duration) -> u64 {
    d.as_secs()
}

/// The `created_at` value of a time given in whole seconds since the Unix
/// epoch: the seconds as an `i64` (seconds beyond `i64::MAX` wrap, as an
/// `as` cast does).
pub fn created_at_of(secs: u64) -> (res: i64)
    ensures
        res == secs as i64,
{
    #[verifier::truncate]
    (secs as i64)
}

/// The current Unix time in whole seconds, as stored in `created_at`
/// (seconds beyond `i64::MAX` wrap, as an `as` cast does). `None` when the
/// system clock reads a time before the Unix epoch.
pub fn chrono_now() -> Option<i64> {
    let now = system_time_now();
    match since_unix_epoch(&now) {
        Ok(d) => Some(created_at_of(whole_seconds(&d))),
        Err(_) => None,
    }
}

}
