//! Cache keys: a chunk's text names the file that holds its audio.
use vstd::prelude::*;

verus! {

/// The digest that std's `DefaultHasher` gives for a string.
pub uninterp spec fn text_hash(s: Seq<char>) -> u64;

/// Relies on `BuildHasher::hash_one` with a default-built
/// `std::collections::hash_map::DefaultHasher`: every such hasher starts from
/// the same state, so the digest depends on the text alone.
#[verifier::external_body]
fn default_hash(text: &str) -> (r: u64)
    ensures
        r == text_hash(text@),
{
    std::hash::BuildHasher::hash_one(
        &std::hash::BuildHasherDefault::<std::collections::hash_map::DefaultHasher>::default(),
        text,
    )
}

/// The key under which the audio of `text` is cached.
pub fn calculate_hash(text: &str) -> (r: u64)
    ensures
        r == text_hash(text@),
{
    default_hash(text)
}

/// The decimal digit `d`.
pub open spec fn digit_char(d: nat) -> char {
    seq!['0', '1', '2', '3', '4', '5', '6', '7', '8', '9'][d as int]
}

/// `n` written in decimal, without leading zeros.
pub open spec fn decimal(n: nat) -> Seq<char>
    decreases n,
{
    if n < 10 {
        seq![digit_char(n)]
    } else {
        decimal(n / 10).push(digit_char(n % 10))
    }
}

/// The file, in directory `tmp_dir`, that holds the audio cached under `key`.
pub open spec fn cache_file(tmp_dir: Seq<char>, key: u64) -> Seq<char> {
    tmp_dir + seq!['/'] + decimal(key as nat) + seq!['.', 'w', 'a', 'v']
}

/// Appends `n` in decimal to `out`.
fn append_decimal(n: u64, out: &mut String)
    ensures
        final(out)@ == old(out)@ + decimal(n as nat),
    decreases n,
{
    if n >= 10 {
        append_decimal(n / 10, out);
    }
    let d = (n % 10) as usize;
    let digits = "0123456789";
    proof {
        reveal_strlit("0123456789");
    }
    out.append(digits.substring_char(d, d + 1));
    assert(out@ =~= old(out)@ + decimal(n as nat));
}

/// The path `{tmp_dir}/{key}.wav`, with `key` in decimal.
pub fn cache_path_for_key(tmp_dir: &str, key: u64) -> (r: String)
    ensures
        r@ == cache_file(tmp_dir@, key),
{
    let mut out = tmp_dir.to_owned();
    out.append("/");
    append_decimal(key, &mut out);
    out.append(".wav");
    proof {
        reveal_strlit("/");
        reveal_strlit(".wav");
    }
    assert(out@ =~= cache_file(tmp_dir@, key));
    out
}

/// The path under `tmp_dir` where the audio of `chunk` is cached.
pub fn cache_path(tmp_dir: &str, chunk: &str) -> (r: String)
    ensures
        r@ == cache_file(tmp_dir@, text_hash(chunk@)),
{
    let key = calculate_hash(chunk);
    cache_path_for_key(tmp_dir, key)
}

/// The same text always gets the same key, and so the same cache file.
pub proof fn lemma_same_text_same_file(tmp_dir: Seq<char>, a: Seq<char>, b: Seq<char>)
    requires
        a == b,
    ensures
        text_hash(a) == text_hash(b),
        cache_file(tmp_dir, text_hash(a)) == cache_file(tmp_dir, text_hash(b)),
{
}

} // verus!
