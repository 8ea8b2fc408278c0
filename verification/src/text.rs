//! Text utilities for the chat protocol: trimming a received line into a
//! nickname, and character-exact string comparison.

use vstd::prelude::*;
use vstd::string::StrSliceExecFns;

verus! {

/// A character that counts as surrounding whitespace when a received line is
/// trimmed: space, tab, carriage return, line feed.
pub open spec fn is_line_space(c: char) -> bool {
    c == ' ' || c == '\t' || c == '\r' || c == '\n'
}

/// The sequence with every leading whitespace character removed.
pub open spec fn trim_front(s: Seq<char>) -> Seq<char>
    decreases s.len(),
{
    if s.len() == 0 {
        s
    } else if is_line_space(s.first()) {
        trim_front(s.drop_first())
    } else {
        s
    }
}

/// The sequence with every trailing whitespace character removed.
pub open spec fn trim_back(s: Seq<char>) -> Seq<char>
    decreases s.len(),
{
    if s.len() == 0 {
        s
    } else if is_line_space(s.last()) {
        trim_back(s.drop_last())
    } else {
        s
    }
}

/// What trimming a received line means: whitespace removed from both ends.
pub open spec fn trim_spec(s: Seq<char>) -> Seq<char> {
    trim_back(trim_front(s))
}

fn space_char(c: char) -> (b: bool)
    ensures
        b == is_line_space(c),
{
    c == ' ' || c == '\t' || c == '\r' || c == '\n'
}

/// Removes leading and trailing whitespace from a received line.
pub fn trim_line(s: &str) -> (r: &str)
    ensures
        r@ == trim_spec(s@),
{
    let ghost v = s@;
    let len = s.unicode_len();
    let mut start: usize = 0;
    proof {
        assert(v.skip(0) =~= v);
    }
    while start < len && space_char(s.get_char(start))
        invariant
            start <= len,
            len == v.len(),
            v == s@,
            trim_front(v) == trim_front(v.skip(start as int)),
        decreases len - start,
    {
        proof {
            assert(v.skip(start as int).first() == v[start as int]);
            assert(v.skip(start as int).drop_first() =~= v.skip(start as int + 1));
        }
        start = start + 1;
    }
    proof {
        if start == len {
            assert(v.skip(start as int) =~= Seq::<char>::empty());
        } else {
            assert(v.skip(start as int).first() == v[start as int]);
        }
        assert(trim_front(v.skip(start as int)) == v.skip(start as int));
    }
    let ghost t = v.skip(start as int);
    let mut end: usize = len;
    proof {
        assert(t.take(len - start as int) =~= t);
    }
    while end > start && space_char(s.get_char(end - 1))
        invariant
            start <= end <= len,
            len == v.len(),
            v == s@,
            t == v.skip(start as int),
            trim_front(v) == t,
            trim_back(t) == trim_back(t.take(end - start as int)),
        decreases end,
    {
        proof {
            let k = end - 1 - start as int;
            assert(t.take(k + 1).last() == t[k]);
            assert(t[k] == v[end - 1]);
            assert(t.take(k + 1).drop_last() =~= t.take(k));
        }
        end = end - 1;
    }
    proof {
        if end == start {
            assert(t.take(0) =~= Seq::<char>::empty());
        } else {
            let k = end - 1 - start as int;
            assert(t.take(k + 1).last() == t[k]);
            assert(t[k] == v[end - 1]);
        }
        assert(trim_back(t.take(end - start as int)) == t.take(end - start as int));
    }
    let r = s.substring_char(start, end);
    proof {
        assert(t.take(end - start as int) =~= v.subrange(start as int, end as int));
        assert(r@ == trim_spec(v));
    }
    r
}

/// Character-exact comparison of two strings.
pub fn text_equal(a: &str, b: &str) -> (r: bool)
    ensures
        r == (a@ == b@),
{
    let alen = a.unicode_len();
    let blen = b.unicode_len();
    if alen != blen {
        return false;
    }
    let mut i: usize = 0;
    while i < alen
        invariant
            i <= alen,
            alen == a@.len(),
            alen == b@.len(),
            forall|k: int| 0 <= k < i ==> a@[k] == b@[k],
        decreases alen - i,
    {
        if a.get_char(i) != b.get_char(i) {
            return false;
        }
        i = i + 1;
    }
    proof {
        assert(a@ =~= b@);
    }
    true
}

/// A trimmed line is unchanged by trimming it again.
pub proof fn lemma_trim_idempotent(s: Seq<char>)
    ensures
        trim_spec(trim_spec(s)) == trim_spec(s),
{
    let u = trim_front(s);
    let t = trim_back(u);
    lemma_trim_back_no_trailing(u);
    if t.len() > 0 {
        lemma_trim_front_no_leading(s);
        lemma_trim_back_prefix(u);
        assert(t.first() == u.first());
    }
    assert(trim_front(t) == t);
    assert(trim_back(t) == t);
}

/// Trimming from the back yields a prefix of the original sequence.
proof fn lemma_trim_back_prefix(s: Seq<char>)
    ensures
        trim_back(s).len() <= s.len(),
        trim_back(s) == s.take(trim_back(s).len() as int),
    decreases s.len(),
{
    if s.len() == 0 {
        assert(s.take(0) =~= s);
    } else if is_line_space(s.last()) {
        lemma_trim_back_prefix(s.drop_last());
        assert(s.drop_last() =~= s.take(s.len() - 1));
        assert(s.drop_last().take(trim_back(s).len() as int) =~= s.take(
            trim_back(s).len() as int,
        ));
    } else {
        assert(s.take(s.len() as int) =~= s);
    }
}

/// After trimming from the front, no leading whitespace is left.
proof fn lemma_trim_front_no_leading(s: Seq<char>)
    ensures
        trim_front(s).len() == 0 || !is_line_space(trim_front(s).first()),
    decreases s.len(),
{
    if s.len() > 0 && is_line_space(s.first()) {
        lemma_trim_front_no_leading(s.drop_first());
    }
}

/// After trimming from the back, no trailing whitespace is left.
proof fn lemma_trim_back_no_trailing(s: Seq<char>)
    ensures
        trim_back(s).len() == 0 || !is_line_space(trim_back(s).last()),
    decreases s.len(),
{
    if s.len() > 0 && is_line_space(s.last()) {
        lemma_trim_back_no_trailing(s.drop_last());
    }
}

} // verus!
