//! Splitting normalized text into the ordered pieces that are synthesized and
//! played one after another.
use vstd::prelude::*;

use crate::text::{
    byte_len, chars_of, is_whitespace, lemma_byte_len_push, lemma_byte_len_subrange,
    lemma_trim_byte_len, lemma_trim_idempotent, lemma_trim_shape, trim, trimmed_bounds, utf8_width,
    views,
};

verus! {

/// Number of space characters (`' '`) in `s`.
pub open spec fn count_spaces(s: Seq<char>) -> nat
    decreases s.len(),
{
    if s.len() == 0 {
        0
    } else {
        count_spaces(s.drop_last()) + if s.last() == ' ' {
            1nat
        } else {
            0nat
        }
    }
}

/// From prefix length `i` on, the first prefix length `n > i` of `t` whose
/// space count is `k`, or the whole length when there is none.
pub open spec fn quick_scan(t: Seq<char>, k: nat, i: nat) -> nat
    decreases t.len() - i,
{
    if i >= t.len() {
        t.len()
    } else if count_spaces(t.take(i as int + 1)) == k {
        i + 1
    } else {
        quick_scan(t, k, i + 1)
    }
}

/// Where the quick first chunk of `t` ends: just after its `k`-th space, or
/// at its end when it has fewer spaces.
pub open spec fn quick_point(t: Seq<char>, k: nat) -> nat {
    quick_scan(t, k, 0)
}

/// The untrimmed pieces of `s`, with `acc` already gathered before it.
/// A run ends at a delimiter (kept in the run) or at the end of the text; a
/// piece is closed at the end of a run once it takes more than `min` bytes.
/// Whatever is left at the end is a last piece of its own.
pub open spec fn pieces(s: Seq<char>, delims: Seq<char>, min: nat, acc: Seq<char>) -> Seq<
    Seq<char>,
>
    decreases s.len(),
{
    if s.len() == 0 {
        if acc.len() > 0 {
            seq![acc]
        } else {
            seq![]
        }
    } else {
        let a = acc.push(s[0]);
        if (delims.contains(s[0]) || s.len() == 1) && byte_len(a) > min {
            seq![a] + pieces(s.drop_first(), delims, min, Seq::empty())
        } else {
            pieces(s.drop_first(), delims, min, a)
        }
    }
}


/// The pieces trimmed, in order, leaving out those that trim to nothing.
pub open spec fn nonblank_trimmed(ps: Seq<Seq<char>>) -> Seq<Seq<char>>
    decreases ps.len(),
{
    if ps.len() == 0 {
        Seq::empty()
    } else if trim(ps[0]).len() > 0 {
        seq![trim(ps[0])] + nonblank_trimmed(ps.drop_first())
    } else {
        nonblank_trimmed(ps.drop_first())
    }
}

/// The pieces that text `t` of at least `min` bytes is cut into: the prefix
/// up to the quick point first, when asked for, then the pieces of the rest.
pub open spec fn cut_text(
    t: Seq<char>,
    min: nat,
    quick_first: bool,
    quick_first_length: nat,
    delims: Seq<char>,
) -> Seq<Seq<char>> {
    if quick_first {
        let p = quick_point(t, quick_first_length);
        seq![t.take(p as int)] + pieces(t.skip(p as int), delims, min, Seq::empty())
    } else {
        pieces(t, delims, min, Seq::empty())
    }
}

/// The chunks of `text`: the trimmed text alone when it takes fewer than
/// `min` bytes; else its pieces, trimmed, without those that are blank.
pub open spec fn chunks(
    text: Seq<char>,
    min: nat,
    quick_first: bool,
    quick_first_length: nat,
    delims: Seq<char>,
) -> Seq<Seq<char>> {
    let t = trim(text);
    if byte_len(t) < min {
        seq![t]
    } else {
        nonblank_trimmed(cut_text(t, min, quick_first, quick_first_length, delims))
    }
}

/// `q` is `p` with only whitespace removed before and after it.
pub open spec fn ws_around(p: Seq<char>, q: Seq<char>) -> bool {
    exists|a: int, b: int|
        0 <= a <= b <= p.len() && q == p.subrange(a, b) && (forall|k: int|
            0 <= k < a ==> is_whitespace(#[trigger] p[k])) && (forall|k: int|
            b <= k < p.len() ==> is_whitespace(#[trigger] p[k]))
}

proof fn lemma_nonblank_cons(a: Seq<char>, ps: Seq<Seq<char>>)
    ensures
        nonblank_trimmed(seq![a] + ps) == if trim(a).len() > 0 {
            seq![trim(a)] + nonblank_trimmed(ps)
        } else {
            nonblank_trimmed(ps)
        },
{
    assert((seq![a] + ps).drop_first() =~= ps);
    assert((seq![a] + ps)[0] == a);
}

fn is_delimiter(split_on: &[char], c: char) -> (r: bool)
    ensures
        r == split_on@.contains(c),
{
    let mut i: usize = 0;
    while i < split_on.len()
        invariant
            i <= split_on.len(),
            forall|j: int| 0 <= j < i ==> split_on@[j] != c,
        decreases split_on.len() - i,
    {
        if split_on[i] == c {
            return true;
        }
        i = i + 1;
    }
    false
}

/// Byte length of `cs[lo..hi]`.
fn bytes_between(cs: &Vec<char>, lo: usize, hi: usize) -> (r: usize)
    requires
        lo <= hi <= cs.len(),
        byte_len(cs@) <= usize::MAX,
    ensures
        r == byte_len(cs@.subrange(lo as int, hi as int)),
{
    let mut n: usize = 0;
    let mut i: usize = lo;
    assert(cs@.subrange(lo as int, lo as int) =~= Seq::<char>::empty());
    while i < hi
        invariant
            lo <= i <= hi <= cs.len(),
            byte_len(cs@) <= usize::MAX,
            n == byte_len(cs@.subrange(lo as int, i as int)),
        decreases hi - i,
    {
        proof {
            lemma_byte_len_push(cs@.subrange(lo as int, i as int), cs@[i as int]);
            assert(cs@.subrange(lo as int, i as int).push(cs@[i as int]) =~= cs@.subrange(
                lo as int,
                i as int + 1,
            ));
            lemma_byte_len_subrange(cs@, lo as int, i as int + 1);
        }
        n = n + utf8_width(cs[i]);
        i = i + 1;
    }
    n
}

/// End of the quick first chunk of `cs[lo..hi]`.
fn quick_split_point(cs: &Vec<char>, lo: usize, hi: usize, k: usize) -> (r: usize)
    requires
        lo <= hi <= cs.len(),
    ensures
        lo <= r <= hi,
        r - lo == quick_point(cs@.subrange(lo as int, hi as int), k as nat),
{
    let ghost t = cs@.subrange(lo as int, hi as int);
    let mut i: usize = lo;
    let mut spaces: usize = 0;
    assert(t.take(0) =~= Seq::<char>::empty());
    while i < hi
        invariant
            lo <= i <= hi <= cs.len(),
            t == cs@.subrange(lo as int, hi as int),
            spaces == count_spaces(t.take(i - lo)),
            spaces <= i - lo,
            quick_point(t, k as nat) == quick_scan(t, k as nat, (i - lo) as nat),
        decreases hi - i,
    {
        assert(t.take(i - lo + 1).drop_last() =~= t.take(i - lo));
        assert(t.take(i - lo + 1).last() == cs@[i as int]);
        if cs[i] == ' ' {
            spaces = spaces + 1;
        }
        i = i + 1;
        if spaces == k {
            return i;
        }
    }
    i
}


/// Appends `cs[x..y]`, taken from `text`, to `out` when it is not empty.
fn push_nonempty(text: &str, cs: &Vec<char>, x: usize, y: usize, out: &mut Vec<String>)
    requires
        cs@ == text@,
        x <= y <= cs.len(),
    ensures
        views(final(out)@) == views(old(out)@) + if x < y {
            seq![cs@.subrange(x as int, y as int)]
        } else {
            Seq::empty()
        },
{
    if x < y {
        let piece = text.substring_char(x, y).to_owned();
        out.push(piece);
        assert(views(out@) =~= views(old(out)@) + seq![cs@.subrange(x as int, y as int)]);
    } else {
        assert(views(out@) =~= views(old(out)@) + Seq::<Seq<char>>::empty());
    }
}

/// Appends to `out` the chunks of the pieces of `cs[lo..hi]`.
fn push_pieces(
    text: &str,
    cs: &Vec<char>,
    lo: usize,
    hi: usize,
    split_on: &[char],
    min_length: usize,
    out: &mut Vec<String>,
)
    requires
        cs@ == text@,
        lo <= hi <= cs.len(),
        byte_len(cs@) <= usize::MAX,
    ensures
        views(final(out)@) == views(old(out)@) + nonblank_trimmed(
            pieces(cs@.subrange(lo as int, hi as int), split_on@, min_length as nat, Seq::empty()),
        ),
{
    let ghost d = split_on@;
    let ghost m = min_length as nat;
    let ghost goal = views(out@) + nonblank_trimmed(
        pieces(cs@.subrange(lo as int, hi as int), d, m, Seq::empty()),
    );
    let mut start: usize = lo;
    let mut length: usize = 0;
    let mut i: usize = lo;
    assert(cs@.subrange(lo as int, lo as int) =~= Seq::<char>::empty());
    while i < hi
        invariant
            cs@ == text@,
            lo <= start <= i <= hi <= cs.len(),
            byte_len(cs@) <= usize::MAX,
            d == split_on@,
            m == min_length as nat,
            length == byte_len(cs@.subrange(start as int, i as int)),
            goal == views(out@) + nonblank_trimmed(
                pieces(cs@.subrange(i as int, hi as int), d, m, cs@.subrange(start as int, i as int)),
            ),
        decreases hi - i,
    {
        let c = cs[i];
        let ghost acc = cs@.subrange(start as int, i as int);
        let ghost s = cs@.subrange(i as int, hi as int);
        proof {
            lemma_byte_len_push(acc, c);
            assert(acc.push(c) =~= cs@.subrange(start as int, i as int + 1));
            lemma_byte_len_subrange(cs@, start as int, i as int + 1);
            assert(s[0] == c);
            assert(s.drop_first() =~= cs@.subrange(i as int + 1, hi as int));
        }
        length = length + utf8_width(c);
        i = i + 1;
        if (is_delimiter(split_on, c) || i == hi) && length > min_length {
            let (x, y) = trimmed_bounds(cs, start, i);
            let ghost before = views(out@);
            push_nonempty(text, cs, x, y, out);
            proof {
                let a = cs@.subrange(start as int, i as int);
                let rest = pieces(cs@.subrange(i as int, hi as int), d, m, Seq::empty());
                lemma_nonblank_cons(a, rest);
                if x < y {
                    assert(before + seq![trim(a)] + nonblank_trimmed(rest) =~= before + (seq![
                        trim(a),
                    ] + nonblank_trimmed(rest)));
                } else {
                    assert(before + Seq::<Seq<char>>::empty() =~= before);
                }
                assert(cs@.subrange(i as int, i as int) =~= Seq::<char>::empty());
            }
            start = i;
            length = 0;
        }
    }
    let ghost before = views(out@);
    if start < hi {
        let (x, y) = trimmed_bounds(cs, start, hi);
        push_nonempty(text, cs, x, y, out);
        proof {
            let a = cs@.subrange(start as int, hi as int);
            lemma_nonblank_cons(a, Seq::empty());
            assert(seq![a] + Seq::<Seq<char>>::empty() =~= seq![a]);
            assert(nonblank_trimmed(Seq::<Seq<char>>::empty()) =~= Seq::<Seq<char>>::empty());
            assert(seq![trim(a)] + Seq::<Seq<char>>::empty() =~= seq![trim(a)]);
        }
    } else {
        proof {
            assert(nonblank_trimmed(Seq::<Seq<char>>::empty()) =~= Seq::<Seq<char>>::empty());
            assert(views(out@) + Seq::<Seq<char>>::empty() =~= views(out@));
        }
    }
}

/// Splits `text` into the chunks that are synthesized one after another.
///
/// Text whose trimmed form takes fewer than `min_length` bytes is one chunk.
/// Otherwise, with `quick_first`, a first piece runs up to and including the
/// `quick_first_length`-th space; the rest is cut into runs that end at a
/// character of `split_on`, and runs are gathered into a piece until it takes
/// more than `min_length` bytes. Every piece is trimmed, and one that trims
/// to nothing gives no chunk.
pub fn chunk_text(
    text: &str,
    min_length: usize,
    quick_first: bool,
    quick_first_length: usize,
    split_on: &[char],
) -> (r: Vec<String>)
    requires
        byte_len(text@) <= usize::MAX,
    ensures
        views(r@) == chunks(
            text@,
            min_length as nat,
            quick_first,
            quick_first_length as nat,
            split_on@,
        ),
{
    let cs = chars_of(text);
    let (a, b) = trimmed_bounds(&cs, 0, cs.len());
    assert(cs@.subrange(0, cs@.len() as int) =~= text@);
    let ghost t = cs@.subrange(a as int, b as int);
    let mut out: Vec<String> = Vec::new();
    let total = bytes_between(&cs, a, b);
    if total < min_length {
        let whole = text.substring_char(a, b).to_owned();
        out.push(whole);
        assert(views(out@) =~= seq![t]);
        return out;
    }
    let mut w: usize = a;
    let ghost head: Seq<Seq<char>> = Seq::empty();
    if quick_first {
        let p = quick_split_point(&cs, a, b, quick_first_length);
        let (x, y) = trimmed_bounds(&cs, a, p);
        assert(views(out@) =~= Seq::<Seq<char>>::empty());
        push_nonempty(text, &cs, x, y, &mut out);
        proof {
            assert(cs@.subrange(a as int, p as int) =~= t.take(p - a));
            assert(cs@.subrange(p as int, b as int) =~= t.skip(p - a));
            head = seq![t.take(p - a)];
        }
        w = p;
    } else {
        assert(views(out@) =~= Seq::<Seq<char>>::empty());
    }
    let ghost first = views(out@);
    push_pieces(text, &cs, w, b, split_on, min_length, &mut out);
    proof {
        let rest = pieces(cs@.subrange(w as int, b as int), split_on@, min_length as nat, Seq::empty());
        if quick_first {
            lemma_nonblank_cons(head[0], rest);
            assert(head =~= seq![head[0]]);
            if first.len() > 0 {
                assert(first + nonblank_trimmed(rest) =~= seq![trim(head[0])] + nonblank_trimmed(rest));
            } else {
                assert(first + nonblank_trimmed(rest) =~= nonblank_trimmed(rest));
            }
        } else {
            assert(first + nonblank_trimmed(rest) =~= nonblank_trimmed(rest));
        }
    }
    out
}

/// Put back together, the pieces give `acc` followed by `s`. No piece is
/// empty; every piece but the last ends with a delimiter and was closed once
/// it took more than `min` bytes.
pub proof fn lemma_pieces_cover(s: Seq<char>, delims: Seq<char>, min: nat, acc: Seq<char>)
    ensures
        pieces(s, delims, min, acc).flatten() == acc + s,
        forall|i: int|
            0 <= i < pieces(s, delims, min, acc).len() ==> (#[trigger] pieces(
                s,
                delims,
                min,
                acc,
            )[i]).len() > 0,
        forall|i: int|
            0 <= i < pieces(s, delims, min, acc).len() - 1 ==> byte_len(
                #[trigger] pieces(s, delims, min, acc)[i],
            ) > min && delims.contains(pieces(s, delims, min, acc)[i].last()),
    decreases s.len(),
{
    let ps = pieces(s, delims, min, acc);
    if s.len() == 0 {
        if acc.len() > 0 {
            seq![acc].lemma_flatten_one_element();
        }
        assert(acc + s =~= acc);
    } else {
        let a = acc.push(s[0]);
        let rest = s.drop_first();
        if (delims.contains(s[0]) || s.len() == 1) && byte_len(a) > min {
            let tail = pieces(rest, delims, min, Seq::empty());
            lemma_pieces_cover(rest, delims, min, Seq::empty());
            assert(ps.drop_first() =~= tail);
            assert(ps.first() == a);
            assert(Seq::<char>::empty() + rest =~= rest);
            assert(a + rest =~= acc + s);
            if rest.len() == 0 {
                assert(tail.len() == 0);
            }
            assert forall|i: int| 0 <= i < ps.len() implies (#[trigger] ps[i]).len() > 0 by {
                if i > 0 {
                    assert(ps[i] == tail[i - 1]);
                }
            }
            assert forall|i: int| 0 <= i < ps.len() - 1 implies byte_len(#[trigger] ps[i]) > min
                && delims.contains(ps[i].last()) by {
                if i > 0 {
                    assert(ps[i] == tail[i - 1]);
                } else {
                    assert(a.last() == s[0]);
                }
            }
        } else {
            lemma_pieces_cover(rest, delims, min, a);
            assert(a + rest =~= acc + s);
        }
    }
}

proof fn lemma_nonblank_trimmed_shape(ps: Seq<Seq<char>>)
    ensures
        forall|i: int|
            0 <= i < nonblank_trimmed(ps).len() ==> (#[trigger] nonblank_trimmed(ps)[i]).len()
                > 0 && trim(nonblank_trimmed(ps)[i]) == nonblank_trimmed(ps)[i],
    decreases ps.len(),
{
    if ps.len() > 0 {
        lemma_nonblank_trimmed_shape(ps.drop_first());
        lemma_trim_idempotent(ps[0]);
        let r = nonblank_trimmed(ps);
        let rest = nonblank_trimmed(ps.drop_first());
        if trim(ps[0]).len() > 0 {
            assert forall|i: int| 0 <= i < r.len() implies (#[trigger] r[i]).len() > 0 && trim(r[i])
                == r[i] by {
                if i > 0 {
                    assert(r[i] == rest[i - 1]);
                }
            }
        }
    }
}

/// Text that takes fewer than `min` bytes is a single chunk: itself, trimmed.
pub proof fn lemma_short_text_single_chunk(
    text: Seq<char>,
    min: nat,
    quick_first: bool,
    quick_first_length: nat,
    delims: Seq<char>,
)
    requires
        byte_len(text) < min,
    ensures
        chunks(text, min, quick_first, quick_first_length, delims) == seq![trim(text)],
{
    lemma_trim_byte_len(text);
}

/// Text of at least `min` bytes is cut into pieces that, put back together,
/// give the trimmed text. Each piece is its chunk with only whitespace around
/// it, and a piece that gives no chunk is whitespace alone. Past the quick
/// first piece, every piece but the last ends with a delimiter and took more
/// than `min` bytes when it was closed. Every chunk is non-empty and trimmed.
pub proof fn lemma_chunks_rebuild_text(
    text: Seq<char>,
    min: nat,
    quick_first: bool,
    quick_first_length: nat,
    delims: Seq<char>,
)
    requires
        byte_len(trim(text)) >= min,
    ensures
        ({
            let t = trim(text);
            let ps = cut_text(t, min, quick_first, quick_first_length, delims);
            let cs = chunks(text, min, quick_first, quick_first_length, delims);
            let q: int = if quick_first {
                1
            } else {
                0
            };
            &&& ps.flatten() == t
            &&& cs == nonblank_trimmed(ps)
            &&& forall|i: int| 0 <= i < ps.len() ==> ws_around(#[trigger] ps[i], trim(ps[i]))
            &&& forall|i: int|
                q <= i < ps.len() - 1 ==> byte_len(#[trigger] ps[i]) > min && delims.contains(
                    ps[i].last(),
                )
            &&& forall|i: int| 0 <= i < cs.len() ==> (#[trigger] cs[i]).len() > 0 && trim(cs[i]) == cs[i]
        }),
{
    let t = trim(text);
    let ps = cut_text(t, min, quick_first, quick_first_length, delims);
    if quick_first {
        let p = quick_point(t, quick_first_length) as int;
        lemma_quick_first_chunk(text, min, quick_first_length, delims);
        let rest = pieces(t.skip(p), delims, min, Seq::empty());
        lemma_pieces_cover(t.skip(p), delims, min, Seq::empty());
        assert(ps.drop_first() =~= rest);
        assert(Seq::<char>::empty() + t.skip(p) =~= t.skip(p));
        assert(t.take(p) + t.skip(p) =~= t);
        assert forall|i: int| 1 <= i < ps.len() - 1 implies byte_len(#[trigger] ps[i]) > min
            && delims.contains(ps[i].last()) by {
            assert(ps[i] == rest[i - 1]);
        }
    } else {
        lemma_pieces_cover(t, delims, min, Seq::empty());
        assert(Seq::<char>::empty() + t =~= t);
    }
    assert forall|i: int| 0 <= i < ps.len() implies ws_around(#[trigger] ps[i], trim(ps[i])) by {
        let r = lemma_trim_shape(ps[i]);
        assert(trim(ps[i]) == ps[i].subrange(r.0, r.1));
    }
    lemma_nonblank_trimmed_shape(ps);
}

proof fn lemma_count_spaces_step(t: Seq<char>, i: int)
    requires
        0 <= i < t.len(),
    ensures
        count_spaces(t.take(i + 1)) == count_spaces(t.take(i)) + if t[i] == ' ' {
            1nat
        } else {
            0nat
        },
{
    assert(t.take(i + 1).drop_last() =~= t.take(i));
}

proof fn lemma_quick_scan(t: Seq<char>, k: nat, i: nat)
    requires
        i <= t.len(),
        count_spaces(t.take(i as int)) < k,
    ensures
        ({
            let p = quick_scan(t, k, i);
            &&& i <= p <= t.len()
            &&& i < t.len() ==> i < p
            &&& count_spaces(t.take(p as int)) <= k
            &&& p < t.len() ==> count_spaces(t.take(p as int)) == k && t[p - 1] == ' '
        }),
    decreases t.len() - i,
{
    if i < t.len() {
        lemma_count_spaces_step(t, i as int);
        if count_spaces(t.take(i as int + 1)) != k {
            lemma_quick_scan(t, k, i + 1);
        }
    } else {
        assert(t.take(i as int) =~= t.take(t.len() as int));
    }
}

/// The quick first chunk is the trimmed text up to its `quick_first_length`-th
/// space, or the whole text when it has fewer spaces: the prefix holds at most
/// that many spaces, and where it stops short of the end it holds exactly that
/// many and ends with a space (unless no space was asked for).
pub proof fn lemma_quick_first_chunk(
    text: Seq<char>,
    min: nat,
    quick_first_length: nat,
    delims: Seq<char>,
)
    requires
        byte_len(trim(text)) >= min,
    ensures
        ({
            let t = trim(text);
            let p = quick_point(t, quick_first_length);
            &&& p <= t.len()
            &&& cut_text(t, min, true, quick_first_length, delims)[0] == t.take(p as int)
            &&& (t.len() > 0 ==> trim(t.take(p as int)).len() > 0 && chunks(
                text,
                min,
                true,
                quick_first_length,
                delims,
            )[0] == trim(t.take(p as int)))
            &&& count_spaces(t.take(p as int)) <= quick_first_length
            &&& p < t.len() ==> count_spaces(t.take(p as int)) == quick_first_length
            &&& p < t.len() && quick_first_length > 0 ==> t[p - 1] == ' '
        }),
{
    let t = trim(text);
    let k = quick_first_length;
    assert(t.take(0) =~= Seq::<char>::empty());
    if k > 0 {
        lemma_quick_scan(t, k, 0);
    } else if t.len() > 0 {
        lemma_trim_shape(text);
        lemma_count_spaces_step(t, 0);
        assert(t.take(1) =~= t.take(quick_point(t, k) as int));
    }
    if t.len() > 0 {
        let p = quick_point(t, k) as int;
        lemma_trim_shape(text);
        let u = t.take(p);
        assert(u[0] == t[0]);
        let r = lemma_trim_shape(u);
        if r.0 > 0 || r.1 == 0 {
            assert(is_whitespace(u[0]));
        }
        lemma_nonblank_cons(u, pieces(t.skip(p), delims, min, Seq::empty()));
    }
}

} // verus!
