//! Cleaning raw text before it is split: pattern stripping, ordered
//! substitutions, trimming.
use vstd::prelude::*;

use crate::text::{chars_of, lemma_trim_idempotent, trim, trimmed_bounds, views};

verus! {

#[verifier::external_type_specification]
#[verifier::external_body]
pub struct ExRegexError(regex::Error);

/// Whether `regex::Regex::new` accepts `pattern`.
pub uninterp spec fn pattern_compiles(pattern: Seq<char>) -> bool;

/// What `regex::Regex::replace_all` makes of `haystack`: every
/// non-overlapping match of `pattern` replaced by `rep`, in which `$1`,
/// `$name` and `${name}` stand for the match's capture groups.
pub uninterp spec fn replaced_all(pattern: Seq<char>, haystack: Seq<char>, rep: Seq<char>) -> Seq<
    char,
>;

/// Relies on `regex::Regex::new`, which fails exactly on the patterns that do
/// not compile, and on `regex::Regex::replace_all`, whose result depends on the
/// pattern, the haystack and the replacement alone.
#[verifier::external_body]
fn re(pattern: &str, haystack: &str, rep: &str) -> (r: Result<String, regex::Error>)
    ensures
        r is Ok <==> pattern_compiles(pattern@),
        r matches Ok(s) ==> s@ == replaced_all(pattern@, haystack@, rep@),
{
    match regex::Regex::new(pattern) {
        Ok(r) => Ok(r.replace_all(haystack, rep).into_owned()),
        Err(e) => Err(e),
    }
}

/// Why text could not be normalized.
#[derive(Clone, Debug, PartialEq, Eq)]
pub enum NormalizeError {
    /// The pattern that does not compile.
    InvalidPattern(String),
}

/// The patterns joined into one alternation, `a|b|c`.
pub open spec fn join_alternatives(ps: Seq<Seq<char>>) -> Seq<char>
    decreases ps.len(),
{
    if ps.len() == 0 {
        Seq::empty()
    } else if ps.len() == 1 {
        ps[0]
    } else {
        join_alternatives(ps.drop_last()) + seq!['|'] + ps.last()
    }
}

/// `input` with every match of any strip pattern deleted.
pub open spec fn stripped(input: Seq<char>, strips: Seq<Seq<char>>) -> Seq<char> {
    if strips.len() == 0 {
        input
    } else {
        replaced_all(join_alternatives(strips), input, Seq::empty())
    }
}

/// `s` after each (pattern, replacement) pair is applied in order.
pub open spec fn substituted(s: Seq<char>, subs: Seq<(Seq<char>, Seq<char>)>) -> Seq<char>
    decreases subs.len(),
{
    if subs.len() == 0 {
        s
    } else {
        replaced_all(subs.last().0, substituted(s, subs.drop_last()), subs.last().1)
    }
}

/// Stripped, substituted and trimmed.
pub open spec fn normalized(
    input: Seq<char>,
    subs: Seq<(Seq<char>, Seq<char>)>,
    strips: Seq<Seq<char>>,
) -> Seq<char> {
    trim(substituted(stripped(input, strips), subs))
}

/// Every pattern that normalizing compiles does compile.
pub open spec fn patterns_valid(subs: Seq<(Seq<char>, Seq<char>)>, strips: Seq<Seq<char>>) -> bool {
    &&& (strips.len() == 0 || pattern_compiles(join_alternatives(strips)))
    &&& forall|i: int| 0 <= i < subs.len() ==> pattern_compiles(#[trigger] subs[i].0)
}

/// The pattern reported when normalizing fails: the joined strip patterns
/// when they do not compile, else the first substitution pattern that does
/// not.
pub open spec fn invalid_reported(
    p: Seq<char>,
    subs: Seq<(Seq<char>, Seq<char>)>,
    strips: Seq<Seq<char>>,
) -> bool {
    if strips.len() > 0 && !pattern_compiles(join_alternatives(strips)) {
        p == join_alternatives(strips)
    } else {
        exists|j: int|
            0 <= j < subs.len() && p == subs[j].0 && !pattern_compiles(p) && forall|k: int|
                0 <= k < j ==> pattern_compiles(#[trigger] subs[k].0)
    }
}

/// What a list of pairs of strings holds.
pub open spec fn pair_views(v: Seq<(String, String)>) -> Seq<(Seq<char>, Seq<char>)> {
    v.map_values(|p: (String, String)| (p.0@, p.1@))
}

/// The strip patterns joined with `|`.
fn join_patterns(strip_regex: &[String]) -> (r: String)
    ensures
        r@ == join_alternatives(views(strip_regex@)),
{
    let mut out = String::new();
    let mut i: usize = 0;
    while i < strip_regex.len()
        invariant
            i <= strip_regex.len(),
            out@ == join_alternatives(views(strip_regex@).take(i as int)),
        decreases strip_regex.len() - i,
    {
        let ghost before = out@;
        if i > 0 {
            out.append("|");
            proof {
                reveal_strlit("|");
            }
        }
        out.append(strip_regex[i].as_str());
        proof {
            let ps = views(strip_regex@).take(i as int + 1);
            assert(ps.drop_last() =~= views(strip_regex@).take(i as int));
            if i == 0 {
                assert(out@ =~= ps[0]);
            } else {
                assert(out@ =~= before + seq!['|'] + ps.last());
            }
        }
        i = i + 1;
    }
    assert(views(strip_regex@).take(strip_regex@.len() as int) =~= views(strip_regex@));
    out
}

/// `s` trimmed.
fn trim_string(s: &String) -> (r: String)
    ensures
        r@ == trim(s@),
{
    let cs = chars_of(s.as_str());
    let (a, b) = trimmed_bounds(&cs, 0, cs.len());
    assert(cs@.subrange(0, cs@.len() as int) =~= s@);
    s.as_str().substring_char(a, b).to_owned()
}

/// Deletes every match of the strip patterns, applies the substitutions in
/// order (each sees what the earlier ones wrote), and trims the result.
/// Fails with the first pattern that does not compile.
pub fn process_text(
    input: String,
    substitutions: &[(String, String)],
    strip_regex: &[String],
) -> (r: Result<String, NormalizeError>)
    ensures
        r is Ok <==> patterns_valid(pair_views(substitutions@), views(strip_regex@)),
        r matches Ok(out) ==> out@ == normalized(
            input@,
            pair_views(substitutions@),
            views(strip_regex@),
        ),
        r matches Err(NormalizeError::InvalidPattern(p)) ==> invalid_reported(
            p@,
            pair_views(substitutions@),
            views(strip_regex@),
        ),
{
    let ghost subs = pair_views(substitutions@);
    let ghost strips = views(strip_regex@);
    let mut text = input;
    if strip_regex.len() > 0 {
        let joined = join_patterns(strip_regex);
        proof {
            reveal_strlit("");
        }
        match re(joined.as_str(), text.as_str(), "") {
            Ok(s) => {
                assert(""@ =~= Seq::<char>::empty());
                text = s;
            },
            Err(_) => {
                return Err(NormalizeError::InvalidPattern(joined));
            },
        }
    }
    assert(strips.len() == strip_regex@.len());
    assert(text@ == stripped(input@, strips));
    let mut i: usize = 0;
    while i < substitutions.len()
        invariant
            i <= substitutions.len(),
            subs == pair_views(substitutions@),
            strips == views(strip_regex@),
            strips.len() == 0 || pattern_compiles(join_alternatives(strips)),
            forall|j: int| 0 <= j < i ==> pattern_compiles(#[trigger] subs[j].0),
            text@ == substituted(stripped(input@, strips), subs.take(i as int)),
        decreases substitutions.len() - i,
    {
        let pair = &substitutions[i];
        assert(subs[i as int].0 == pair.0@);
        match re(pair.0.as_str(), text.as_str(), pair.1.as_str()) {
            Ok(s) => {
                proof {
                    assert(subs.take(i as int + 1).drop_last() =~= subs.take(i as int));
                }
                text = s;
            },
            Err(_) => {
                assert(invalid_reported(pair.0@, subs, strips));
                return Err(NormalizeError::InvalidPattern(pair.0.clone()));
            },
        }
        i = i + 1;
    }
    assert(subs.take(substitutions@.len() as int) =~= subs);
    Ok(trim_string(&text))
}

/// Stripping with no patterns leaves the text as it is.
pub proof fn lemma_strip_nothing(s: Seq<char>)
    ensures
        stripped(s, Seq::empty()) == s,
{
}

/// Normalizing already-normalized text with no patterns and no substitutions
/// gives it back unchanged.
pub proof fn lemma_normalize_normalized(s: Seq<char>)
    ensures
        normalized(trim(s), Seq::empty(), Seq::empty()) == trim(s),
{
    lemma_trim_idempotent(s);
}

} // verus!
