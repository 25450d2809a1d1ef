//! Byte-string helpers shared by the parsers: prefixes, suffixes, splitting
//! into pieces and lines, and tokens delimited by whitespace.

use vstd::prelude::*;

verus! {

/// The line feed byte.
pub const NEWLINE: u8 = 0x0a;

/// The carriage return byte.
pub const CARRIAGE_RETURN: u8 = 0x0d;

/// The space byte.
pub const SPACE: u8 = 0x20;

/// The path separator `/`.
pub const SLASH: u8 = 0x2f;

/// The views of a sequence of byte vectors.
pub open spec fn views(v: Seq<Vec<u8>>) -> Seq<Seq<u8>> {
    v.map_values(|x: Vec<u8>| x@)
}

/// ASCII whitespace: space, tab, line feed, vertical tab, form feed, carriage return.
pub open spec fn is_space(b: u8) -> bool {
    b == 0x20 || (0x09 <= b && b <= 0x0d)
}

/// `s` begins with `p`.
pub open spec fn has_prefix(s: Seq<u8>, p: Seq<u8>) -> bool {
    p.len() <= s.len() && s.subrange(0, p.len() as int) == p
}

/// `s` ends with `p`.
pub open spec fn has_suffix(s: Seq<u8>, p: Seq<u8>) -> bool {
    p.len() <= s.len() && s.subrange(s.len() - p.len(), s.len() as int) == p
}

/// The pieces of `s` between occurrences of `sep`; there is always at least one piece.
pub open spec fn split(s: Seq<u8>, sep: u8) -> Seq<Seq<u8>>
    decreases s.len(),
{
    if s.len() == 0 {
        seq![Seq::<u8>::empty()]
    } else {
        let before = split(s.drop_last(), sep);
        if s.last() == sep {
            before.push(Seq::<u8>::empty())
        } else {
            before.drop_last().push(before.last().push(s.last()))
        }
    }
}

/// A line without the carriage return that preceded its line feed.
pub open spec fn strip_cr(line: Seq<u8>) -> Seq<u8> {
    if line.len() > 0 && line.last() == CARRIAGE_RETURN {
        line.drop_last()
    } else {
        line
    }
}

/// Every line of `ls` without its trailing carriage return.
pub open spec fn strip_all(ls: Seq<Seq<u8>>) -> Seq<Seq<u8>> {
    ls.map_values(|l: Seq<u8>| strip_cr(l))
}

/// The lines of a text. Each line ends at a line feed, which is dropped together
/// with a carriage return directly before it; text after the last line feed is a
/// line of its own if it is not empty.
pub open spec fn lines(s: Seq<u8>) -> Seq<Seq<u8>> {
    let pieces = split(s, NEWLINE);
    let ended = strip_all(pieces.drop_last());
    if pieces.last().len() == 0 {
        ended
    } else {
        ended.push(pieces.last())
    }
}

/// The number of occurrences of `b` in `s`.
pub open spec fn count(s: Seq<u8>, b: u8) -> nat
    decreases s.len(),
{
    if s.len() == 0 {
        0
    } else {
        count(s.drop_last(), b) + if s.last() == b { 1nat } else { 0nat }
    }
}

/// The first index at or after `i` that holds no whitespace, or the length of `s`.
pub open spec fn skip_spaces(s: Seq<u8>, i: int) -> int
    decreases s.len() - i,
{
    if 0 <= i < s.len() && is_space(s[i]) {
        skip_spaces(s, i + 1)
    } else {
        i
    }
}

/// The first index at or after `i` that holds whitespace, or the length of `s`.
pub open spec fn skip_word(s: Seq<u8>, i: int) -> int
    decreases s.len() - i,
{
    if 0 <= i < s.len() && !is_space(s[i]) {
        skip_word(s, i + 1)
    } else {
        i
    }
}

/// The first whitespace-delimited token of `s`; empty where `s` holds only whitespace.
pub open spec fn first_token(s: Seq<u8>) -> Seq<u8> {
    let a = skip_spaces(s, 0);
    let b = skip_word(s, a);
    s.subrange(a, b)
}

/// The first index at or after `i` where `b` stands in `s`, or the length of `s`.
pub open spec fn index_of(s: Seq<u8>, b: u8, i: int) -> int
    decreases s.len() - i,
{
    if 0 <= i < s.len() && s[i] != b {
        index_of(s, b, i + 1)
    } else {
        i
    }
}

/// The first index at or after `i` where `p` occurs in `s`, if there is one.
pub open spec fn first_match(s: Seq<u8>, p: Seq<u8>, i: int) -> Option<int>
    decreases s.len() + 1 - i,
{
    if i < 0 || i + p.len() > s.len() {
        None
    } else if s.subrange(i, i + p.len()) == p {
        Some(i)
    } else {
        first_match(s, p, i + 1)
    }
}

/// `s` up to and including the first occurrence of `p`, or all of `s` without one.
pub open spec fn through_first(s: Seq<u8>, p: Seq<u8>) -> Seq<u8> {
    match first_match(s, p, 0) {
        Some(i) => s.subrange(0, i + p.len()),
        None => s,
    }
}

/// Whether `b` is ASCII whitespace.
pub fn byte_is_space(b: u8) -> (r: bool)
    ensures
        r == is_space(b),
{
    b == 0x20 || (0x09 <= b && b <= 0x0d)
}

/// Whether `s` holds `p` at index `at`.
pub fn matches_at(s: &[u8], p: &[u8], at: usize) -> (r: bool)
    requires
        at + p@.len() <= s@.len(),
    ensures
        r == (s@.subrange(at as int, at + p@.len()) == p@),
{
    let n = s.len();
    let mut k: usize = 0;
    while k < p.len()
        invariant
            k <= p@.len(),
            n == s@.len(),
            at + p@.len() <= s@.len(),
            forall|j: int| 0 <= j < k ==> s@[at + j] == p@[j],
        decreases p@.len() - k,
    {
        if s[at + k] != p[k] {
            proof {
                assert(s@.subrange(at as int, at + p@.len())[k as int] == s@[at + k]);
            }
            return false;
        }
        k += 1;
    }
    proof {
        assert(s@.subrange(at as int, at + p@.len()) =~= p@);
    }
    true
}

/// Whether `s` begins with `p`.
pub fn starts_with(s: &[u8], p: &[u8]) -> (r: bool)
    ensures
        r == has_prefix(s@, p@),
{
    if p.len() > s.len() {
        return false;
    }
    matches_at(s, p, 0)
}

/// Whether `s` ends with `p`.
pub fn ends_with(s: &[u8], p: &[u8]) -> (r: bool)
    ensures
        r == has_suffix(s@, p@),
{
    if p.len() > s.len() {
        return false;
    }
    matches_at(s, p, s.len() - p.len())
}

/// Whether two byte strings are equal.
pub fn bytes_eq(a: &[u8], b: &[u8]) -> (r: bool)
    ensures
        r == (a@ == b@),
{
    if a.len() != b.len() {
        return false;
    }
    let r = matches_at(a, b, 0);
    proof {
        assert(a@.subrange(0, a@.len() as int) =~= a@);
    }
    r
}

/// A copy of `s[from..to]`.
pub fn copy_range(s: &[u8], from: usize, to: usize) -> (r: Vec<u8>)
    requires
        from <= to <= s@.len(),
    ensures
        r@ == s@.subrange(from as int, to as int),
{
    let mut r: Vec<u8> = Vec::new();
    let mut i: usize = from;
    while i < to
        invariant
            from <= i <= to <= s@.len(),
            r@ == s@.subrange(from as int, i as int),
        decreases to - i,
    {
        r.push(s[i]);
        proof {
            assert(r@ =~= s@.subrange(from as int, i + 1));
        }
        i += 1;
    }
    r
}

/// A copy of `s`.
pub fn copy_bytes(s: &[u8]) -> (r: Vec<u8>)
    ensures
        r@ == s@,
{
    let r = copy_range(s, 0, s.len());
    proof {
        assert(s@.subrange(0, s@.len() as int) =~= s@);
    }
    r
}

/// Appends `s` to `out`.
pub fn append(out: &mut Vec<u8>, s: &[u8])
    ensures
        final(out)@ == old(out)@ + s@,
{
    let ghost before = out@;
    let mut k: usize = 0;
    proof {
        assert(out@ =~= before + s@.subrange(0, 0));
    }
    while k < s.len()
        invariant
            k <= s@.len(),
            out@ == before + s@.subrange(0, k as int),
        decreases s@.len() - k,
    {
        out.push(s[k]);
        proof {
            assert(out@ =~= before + s@.subrange(0, k + 1));
        }
        k += 1;
    }
    proof {
        assert(s@.subrange(0, k as int) =~= s@);
    }
}

/// `s` without its leading whitespace.
pub open spec fn trimmed_start(s: Seq<u8>) -> Seq<u8> {
    s.subrange(skip_spaces(s, 0), s.len() as int)
}

/// `s` without its leading whitespace.
pub fn trim_start(s: &[u8]) -> (r: Vec<u8>)
    ensures
        r@ == trimmed_start(s@),
{
    let mut a: usize = 0;
    while a < s.len() && byte_is_space(s[a])
        invariant
            a <= s@.len(),
            skip_spaces(s@, 0) == skip_spaces(s@, a as int),
        decreases s@.len() - a,
    {
        a += 1;
    }
    copy_range(s, a, s.len())
}

/// Splits `s` at every occurrence of `sep`.
pub fn split_bytes(s: &[u8], sep: u8) -> (r: Vec<Vec<u8>>)
    ensures
        views(r@) == split(s@, sep),
{
    let mut done: Vec<Vec<u8>> = Vec::new();
    let mut cur: Vec<u8> = Vec::new();
    let mut i: usize = 0;
    proof {
        assert(s@.subrange(0, 0) =~= Seq::<u8>::empty());
        assert(views(done@).push(cur@) =~= seq![Seq::<u8>::empty()]);
    }
    while i < s.len()
        invariant
            i <= s@.len(),
            views(done@).push(cur@) == split(s@.subrange(0, i as int), sep),
        decreases s@.len() - i,
    {
        let ghost before = split(s@.subrange(0, i as int), sep);
        let ghost old_done = done@;
        let ghost old_cur = cur@;
        proof {
            assert(s@.subrange(0, i + 1).drop_last() =~= s@.subrange(0, i as int));
            assert(before.drop_last() =~= views(old_done));
            assert(before.last() == old_cur);
        }
        if s[i] == sep {
            done.push(cur);
            cur = Vec::new();
            proof {
                assert(views(done@) =~= before);
            }
        } else {
            cur.push(s[i]);
        }
        i += 1;
    }
    proof {
        assert(s@.subrange(0, i as int) =~= s@);
    }
    done.push(cur);
    proof {
        assert(views(done@) =~= split(s@, sep));
    }
    done
}

/// Splits a text into its lines.
pub fn split_lines(s: &[u8]) -> (r: Vec<Vec<u8>>)
    ensures
        views(r@) == lines(s@),
{
    let pieces = split_bytes(s, NEWLINE);
    let ghost all = split(s@, NEWLINE);
    proof {
        lemma_split_nonempty(s@, NEWLINE);
    }
    let n = pieces.len();
    let mut out: Vec<Vec<u8>> = Vec::new();
    let mut i: usize = 0;
    while i + 1 < n
        invariant
            n == pieces@.len(),
            n >= 1,
            i + 1 <= n,
            views(pieces@) == all,
            views(out@) == strip_all(all.subrange(0, i as int)),
        decreases n - i,
    {
        let line = &pieces[i];
        let m = line.len();
        let kept = if m > 0 && line[m - 1] == CARRIAGE_RETURN {
            copy_range(line.as_slice(), 0, m - 1)
        } else {
            copy_range(line.as_slice(), 0, m)
        };
        proof {
            assert(all[i as int] == line@);
            assert(line@.subrange(0, m as int) =~= line@);
            if m > 0 {
                assert(line@.subrange(0, m - 1) =~= line@.drop_last());
            }
            assert(kept@ == strip_cr(line@));
        }
        let ghost old_out = out@;
        out.push(kept);
        proof {
            let lhs = views(out@);
            let rhs = strip_all(all.subrange(0, i + 1));
            assert(views(pieces@).len() == n);
            assert(views(old_out).len() == old_out.len());
            assert(strip_all(all.subrange(0, i as int)).len() == i);
            assert(lhs.len() == i + 1 && rhs.len() == i + 1);
            assert forall|j: int| 0 <= j < lhs.len() implies lhs[j] == rhs[j] by {
                if j < i {
                    assert(views(old_out)[j] == strip_all(all.subrange(0, i as int))[j]);
                    assert(all.subrange(0, i as int)[j] == all.subrange(0, i + 1)[j]);
                }
            }
            assert(lhs =~= rhs);
        }
        i += 1;
    }
    proof {
        assert(all.subrange(0, n - 1) =~= all.drop_last());
        assert(all.last() == pieces@[n - 1]@);
    }
    if pieces[n - 1].len() > 0 {
        let tail = copy_range(pieces[n - 1].as_slice(), 0, pieces[n - 1].len());
        proof {
            assert(tail@ =~= all.last());
        }
        out.push(tail);
        proof {
            assert(views(out@) =~= lines(s@));
        }
    }
    out
}

/// Splitting always yields at least one piece.
pub proof fn lemma_split_nonempty(s: Seq<u8>, sep: u8)
    ensures
        split(s, sep).len() >= 1,
    decreases s.len(),
{
    if s.len() > 0 {
        lemma_split_nonempty(s.drop_last(), sep);
    }
}

/// Counts the occurrences of `b` in `s`.
pub fn count_byte(s: &[u8], b: u8) -> (r: usize)
    ensures
        r == count(s@, b),
{
    let mut r: usize = 0;
    let mut i: usize = 0;
    proof {
        assert(s@.subrange(0, 0) =~= Seq::<u8>::empty());
    }
    while i < s.len()
        invariant
            i <= s@.len(),
            r <= i,
            r == count(s@.subrange(0, i as int), b),
        decreases s@.len() - i,
    {
        proof {
            assert(s@.subrange(0, i + 1).drop_last() =~= s@.subrange(0, i as int));
        }
        if s[i] == b {
            r += 1;
        }
        i += 1;
    }
    proof {
        assert(s@.subrange(0, i as int) =~= s@);
    }
    r
}

/// The first whitespace-delimited token of `s`.
pub fn token(s: &[u8]) -> (r: Vec<u8>)
    ensures
        r@ == first_token(s@),
{
    let mut a: usize = 0;
    while a < s.len() && byte_is_space(s[a])
        invariant
            a <= s@.len(),
            skip_spaces(s@, 0) == skip_spaces(s@, a as int),
        decreases s@.len() - a,
    {
        a += 1;
    }
    let mut b: usize = a;
    while b < s.len() && !byte_is_space(s[b])
        invariant
            a <= b <= s@.len(),
            skip_word(s@, a as int) == skip_word(s@, b as int),
        decreases s@.len() - b,
    {
        b += 1;
    }
    copy_range(s, a, b)
}

/// The first index at or after `from` where `b` stands, or the length of `s`.
pub fn find_byte(s: &[u8], b: u8, from: usize) -> (r: usize)
    requires
        from <= s@.len(),
    ensures
        r == index_of(s@, b, from as int),
        from <= r <= s@.len(),
{
    let mut i: usize = from;
    while i < s.len() && s[i] != b
        invariant
            from <= i <= s@.len(),
            index_of(s@, b, from as int) == index_of(s@, b, i as int),
        decreases s@.len() - i,
    {
        i += 1;
    }
    i
}

/// `s` up to and including the first occurrence of `p`, or all of `s` without one.
pub fn cut_after(s: &[u8], p: &[u8]) -> (r: Vec<u8>)
    ensures
        r@ == through_first(s@, p@),
{
    let n = s.len();
    let m = p.len();
    let mut i: usize = 0;
    if m <= n {
        while i <= n - m
            invariant
                n == s@.len(),
                m == p@.len(),
                m <= n,
                first_match(s@, p@, 0) == first_match(s@, p@, i as int),
            decreases n + 1 - i,
        {
            if matches_at(s, p, i) {
                return copy_range(s, 0, i + m);
            }
            if i == n - m {
                let whole = copy_range(s, 0, n);
                proof {
                    assert(first_match(s@, p@, i + 1) == None::<int>);
                    assert(s@.subrange(0, n as int) =~= s@);
                }
                return whole;
            }
            i += 1;
        }
    }
    let r = copy_range(s, 0, s.len());
    proof {
        assert(s@.subrange(0, s@.len() as int) =~= s@);
    }
    r
}

} // verus!
