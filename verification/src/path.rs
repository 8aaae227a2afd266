//! Dotted lookup paths.
//!
//! A lookup such as `items.bag.coins` is split on dots.  The data store
//! addresses a block by the first two segments joined back together (or the
//! single leading segment), and a key by the final segment.  Splitting
//! follows terminator rules: a trailing dot produces no empty segment.

use vstd::prelude::*;
use crate::text::{str_chars, chars_to_string};

verus! {

/// Index of the first dot, or `-1`.
pub open spec fn first_dot(s: Seq<char>) -> int
    decreases s.len(),
{
    if s.len() == 0 {
        -1
    } else if s[0] == '.' {
        0
    } else {
        let r = first_dot(s.drop_first());
        if r == -1 {
            -1
        } else {
            r + 1
        }
    }
}

/// Split on every dot; at least one piece.
pub open spec fn split_all(s: Seq<char>) -> Seq<Seq<char>>
    decreases s.len(),
{
    let d = first_dot(s);
    if d < 0 || d >= s.len() {
        seq![s]
    } else {
        seq![s.take(d)] + split_all(s.skip(d + 1))
    }
}

/// Split with terminator rules: a trailing dot yields no trailing empty
/// segment, and an empty lookup has no segments.
pub open spec fn split_term(s: Seq<char>) -> Seq<Seq<char>> {
    if s.len() == 0 {
        Seq::empty()
    } else if s.last() == '.' {
        split_all(s.drop_last())
    } else {
        split_all(s)
    }
}

/// The block and key a lookup denotes: `None` for a bare name; otherwise
/// the first segment (or first two, dotted, when there are more than two)
/// as the block, and the final segment as the key.
pub open spec fn path_block_key(s: Seq<char>) -> Option<(Seq<char>, Seq<char>)> {
    let segs = split_term(s);
    if segs.len() <= 1 {
        Option::None
    } else if segs.len() == 2 {
        Option::Some((segs[0], segs[1]))
    } else {
        Option::Some((segs[0] + seq!['.'] + segs[1], segs.last()))
    }
}

/// The name recorded on a freshly created block: the second segment when
/// the path has more than two segments, otherwise empty.
pub open spec fn path_new_block_name(s: Seq<char>) -> Seq<char> {
    let segs = split_term(s);
    if segs.len() > 2 {
        segs[1]
    } else {
        Seq::empty()
    }
}

proof fn lemma_first_dot_none(s: Seq<char>)
    requires
        forall|i: int| 0 <= i < s.len() ==> s[i] != '.',
    ensures
        first_dot(s) == -1,
    decreases s.len(),
{
    if s.len() > 0 {
        assert(forall|i: int|
            0 <= i < s.drop_first().len() ==> #[trigger] s.drop_first()[i] == s[i + 1]);
        lemma_first_dot_none(s.drop_first());
    }
}

proof fn lemma_first_dot_at(s: Seq<char>, k: int)
    requires
        0 <= k < s.len(),
        s[k] == '.',
        forall|i: int| 0 <= i < k ==> s[i] != '.',
    ensures
        first_dot(s) == k,
    decreases s.len(),
{
    if k > 0 {
        assert(forall|i: int|
            0 <= i < s.drop_first().len() ==> #[trigger] s.drop_first()[i] == s[i + 1]);
        lemma_first_dot_at(s.drop_first(), k - 1);
    }
}

/// Segment boundaries of `split_term(s@)`, as index pairs into `s`.
pub(crate) fn seg_bounds(s: &str) -> (r: Vec<(usize, usize)>)
    ensures
        r@.len() == split_term(s@).len(),
        forall|i: int|
            0 <= i < r@.len() ==> #[trigger] r@[i].0 <= r@[i].1 <= s@.len() && s@.subrange(
                r@[i].0 as int,
                r@[i].1 as int,
            ) == split_term(s@)[i],
{
    let n0 = s.unicode_len();
    if n0 == 0 {
        proof {
            assert(split_term(s@).len() == 0);
        }
        return Vec::new();
    }
    // Apply the terminator rule up front.
    let n: usize = if s.get_char(n0 - 1) == '.' {
        n0 - 1
    } else {
        n0
    };
    let ghost t = s@.subrange(0, n as int);
    proof {
        if s@.last() == '.' {
            assert(t =~= s@.drop_last());
        } else {
            assert(t =~= s@);
        }
        assert(split_term(s@) == split_all(t));
    }
    let mut r: Vec<(usize, usize)> = Vec::new();
    let mut seg_start: usize = 0;
    proof {
        assert(t.skip(0) =~= t);
        assert(r@.map_values(|b: (usize, usize)| s@.subrange(b.0 as int, b.1 as int))
            + split_all(t.skip(0)) =~~= split_all(t));
    }
    loop
        invariant
            seg_start <= n <= n0,
            n0 == s@.len(),
            t == s@.subrange(0, n as int),
            split_term(s@) == split_all(t),
            split_all(t) == r@.map_values(
                |b: (usize, usize)| s@.subrange(b.0 as int, b.1 as int),
            ) + split_all(t.skip(seg_start as int)),
            forall|i: int|
                0 <= i < r@.len() ==> #[trigger] r@[i].0 <= r@[i].1 <= n,
        decreases n - seg_start + 1,
    {
        let ghost mapped0 = r@.map_values(
            |b: (usize, usize)| s@.subrange(b.0 as int, b.1 as int),
        );
        // Scan for the next dot.
        let mut j = seg_start;
        while j < n && s.get_char(j) != '.'
            invariant
                seg_start <= j <= n,
                n <= n0 == s@.len(),
                forall|i: int| seg_start <= i < j ==> s@[i] != '.',
            decreases n - j,
        {
            j = j + 1;
        }
        let ghost rest = t.skip(seg_start as int);
        let ghost piece = s@.subrange(seg_start as int, j as int);
        proof {
            assert(forall|i: int|
                0 <= i < rest.len() ==> #[trigger] rest[i] == s@[seg_start + i]);
        }
        r.push((seg_start, j));
        proof {
            let mapped = r@.map_values(
                |b: (usize, usize)| s@.subrange(b.0 as int, b.1 as int),
            );
            assert(mapped =~~= mapped0.push(piece));
            if j == n {
                lemma_first_dot_none(rest);
                assert(rest =~= piece);
                assert(split_all(rest) == seq![rest]);
                assert(split_all(t) =~~= mapped);
            } else {
                assert(s@[j as int] == '.');
                assert(rest[j - seg_start] == '.');
                lemma_first_dot_at(rest, j - seg_start);
                assert(rest.take(j - seg_start) =~= piece);
                assert(rest.skip(j - seg_start + 1) =~= t.skip(j + 1));
                assert(split_all(rest) == seq![piece] + split_all(t.skip(j + 1)));
                assert(mapped0 + (seq![piece] + split_all(t.skip(j + 1))) =~~= mapped
                    + split_all(t.skip(j + 1)));
            }
        }
        if j == n {
            return r;
        }
        seg_start = j + 1;
    }
}

/// Split a lookup into its segments.
pub fn split_segments(s: &str) -> (r: Vec<String>)
    ensures
        r@.len() == split_term(s@).len(),
        forall|i: int| 0 <= i < r@.len() ==> #[trigger] r@[i]@ == split_term(s@)[i],
{
    let bounds = seg_bounds(s);
    let mut out: Vec<String> = Vec::new();
    let mut i: usize = 0;
    while i < bounds.len()
        invariant
            i <= bounds@.len(),
            bounds@.len() == split_term(s@).len(),
            forall|k: int|
                0 <= k < bounds@.len() ==> #[trigger] bounds@[k].0 <= bounds@[k].1 <= s@.len()
                    && s@.subrange(bounds@[k].0 as int, bounds@[k].1 as int) == split_term(
                    s@,
                )[k],
            out@.len() == i,
            forall|k: int| 0 <= k < i ==> #[trigger] out@[k]@ == split_term(s@)[k],
        decreases bounds@.len() - i,
    {
        let (lo, hi) = bounds[i];
        let piece = s.substring_char(lo, hi);
        let mut owned = String::new();
        owned.append(piece);
        out.push(owned);
        i = i + 1;
    }
    out
}

/// The block and key of a lookup, per `path_block_key`.
pub fn block_key(s: &str) -> (r: Option<(String, String)>)
    ensures
        match r {
            Option::Some(p) => path_block_key(s@) == Option::Some((p.0@, p.1@)),
            Option::None => path_block_key(s@) is None,
        },
{
    let segs = split_segments(s);
    let n = segs.len();
    if n <= 1 {
        return Option::None;
    }
    if n == 2 {
        let key = segs[1].clone();
        let blk = segs[0].clone();
        return Option::Some((blk, key));
    }
    let mut blk = segs[0].clone();
    crate::text::push_char(&mut blk, '.');
    blk.append(segs[1].as_str());
    let key = segs[n - 1].clone();
    proof {
        assert(blk@ =~= split_term(s@)[0] + seq!['.'] + split_term(s@)[1]);
    }
    Option::Some((blk, key))
}

/// The recorded name for a block freshly created from this lookup.
pub fn new_block_name(s: &str) -> (r: String)
    ensures
        r@ == path_new_block_name(s@),
{
    let segs = split_segments(s);
    if segs.len() > 2 {
        let mut out = String::new();
        out.append(segs[1].as_str());
        proof {
            assert(out@ =~= path_new_block_name(s@));
        }
        out
    } else {
        String::new()
    }
}

/// A nonempty lookup has at least one segment.
pub proof fn lemma_split_term_nonempty(s: Seq<char>)
    requires
        s.len() > 0,
    ensures
        split_term(s).len() >= 1,
{
}

} // verus!
