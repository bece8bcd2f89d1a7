//! Byte strings as text: literal search, newline counting, and splitting into and joining lines.
//!
//! A line is what lies between two newline bytes. Splitting yields every piece between
//! newlines; the lines of a text are those pieces without the empty piece after a final
//! newline, so a text and the same text with one newline appended have the same lines.
use vstd::prelude::*;

verus! {

/// The byte that ends a line.
pub const NEWLINE: u8 = 10u8;

/// Whether `pat` occurs in `hay` at byte offset `i`.
pub open spec fn occurs_at(hay: Seq<u8>, pat: Seq<u8>, i: int) -> bool {
    0 <= i && i + pat.len() <= hay.len() && hay.subrange(i, i + pat.len()) == pat
}

/// Whether `pat` occurs anywhere in `hay`.
pub open spec fn contains_seq(hay: Seq<u8>, pat: Seq<u8>) -> bool {
    exists|i: int| occurs_at(hay, pat, i)
}

/// The least offset at or after `i` at which `pat` occurs in `hay`.
pub open spec fn find_from(hay: Seq<u8>, pat: Seq<u8>, i: int) -> Option<int>
    decreases hay.len() - i,
{
    if i < 0 || i + pat.len() > hay.len() {
        None
    } else if pat.len() == 0 || occurs_at(hay, pat, i) {
        Some(i)
    } else {
        find_from(hay, pat, i + 1)
    }
}

/// The offset of the first occurrence of `pat` in `hay`.
pub open spec fn first_occurrence(hay: Seq<u8>, pat: Seq<u8>) -> Option<int> {
    find_from(hay, pat, 0)
}

/// How many newline bytes `s` holds.
pub open spec fn count_newlines(s: Seq<u8>) -> nat
    decreases s.len(),
{
    if s.len() == 0 {
        0
    } else {
        count_newlines(s.drop_last()) + if s.last() == NEWLINE {
            1nat
        } else {
            0nat
        }
    }
}

/// The pieces of `s` between newline bytes, in order; one more than the newlines.
pub open spec fn split_newlines(s: Seq<u8>) -> Seq<Seq<u8>>
    decreases s.len(),
{
    if s.len() == 0 {
        seq![Seq::empty()]
    } else {
        let init = split_newlines(s.drop_last());
        if s.last() == NEWLINE {
            init.push(Seq::empty())
        } else {
            init.update(init.len() - 1, init.last().push(s.last()))
        }
    }
}

/// The lines of `s`: its pieces between newlines, without an empty last piece.
pub open spec fn lines_of(s: Seq<u8>) -> Seq<Seq<u8>> {
    let pieces = split_newlines(s);
    if pieces.last().len() == 0 {
        pieces.drop_last()
    } else {
        pieces
    }
}

/// The lines `ls` with one newline byte between each two.
pub open spec fn join_lines(ls: Seq<Seq<u8>>) -> Seq<u8>
    decreases ls.len(),
{
    if ls.len() == 0 {
        Seq::empty()
    } else if ls.len() == 1 {
        ls[0]
    } else {
        join_lines(ls.drop_last()) + seq![NEWLINE] + ls.last()
    }
}

/// Whether no element of `ls` holds a newline byte.
pub open spec fn no_newlines(ls: Seq<Seq<u8>>) -> bool {
    forall|k: int| 0 <= k < ls.len() ==> !ls[k].contains(NEWLINE)
}

/// `find_from` is the least offset of an occurrence, and `None` when there is none.
pub proof fn lemma_find_from(hay: Seq<u8>, pat: Seq<u8>, i: int)
    requires
        0 <= i,
    ensures
        match find_from(hay, pat, i) {
            Some(k) => i <= k && occurs_at(hay, pat, k) && forall|j: int|
                i <= j < k ==> !occurs_at(hay, pat, j),
            None => forall|j: int| i <= j ==> !occurs_at(hay, pat, j),
        },
    decreases hay.len() - i,
{
    if i + pat.len() > hay.len() {
    } else if pat.len() == 0 {
        assert(hay.subrange(i, i) =~= pat);
    } else if occurs_at(hay, pat, i) {
    } else {
        lemma_find_from(hay, pat, i + 1);
    }
}

/// An occurrence with none before it is the first occurrence.
pub proof fn lemma_first_occurrence_at(hay: Seq<u8>, pat: Seq<u8>, k: int)
    requires
        occurs_at(hay, pat, k),
        forall|j: int| 0 <= j < k ==> !occurs_at(hay, pat, j),
    ensures
        first_occurrence(hay, pat) == Some(k),
{
    lemma_find_from(hay, pat, 0);
}

/// Splitting yields one piece more than there are newlines, none of which holds a newline.
pub proof fn lemma_split_newlines(s: Seq<u8>)
    ensures
        split_newlines(s).len() == count_newlines(s) + 1,
        no_newlines(split_newlines(s)),
    decreases s.len(),
{
    if s.len() > 0 {
        lemma_split_newlines(s.drop_last());
        let init = split_newlines(s.drop_last());
        if s.last() != NEWLINE {
            let p = split_newlines(s);
            assert forall|k: int| 0 <= k < p.len() implies !p[k].contains(NEWLINE) by {
                if k == p.len() - 1 {
                    if p[k].contains(NEWLINE) {
                        let j = choose|j: int| 0 <= j < p[k].len() && p[k][j] == NEWLINE;
                        if j < init.last().len() {
                            assert(init.last()[j] == NEWLINE);
                        }
                    }
                } else {
                    assert(p[k] == init[k]);
                }
            }
        } else {
            let p = split_newlines(s);
            assert forall|k: int| 0 <= k < p.len() implies !p[k].contains(NEWLINE) by {
                if k < p.len() - 1 {
                    assert(p[k] == init[k]);
                }
            }
        }
    }
}

/// Newlines in a prefix are no more than in a longer prefix.
pub proof fn lemma_count_newlines_prefix(s: Seq<u8>, j: int, k: int)
    requires
        0 <= j <= k <= s.len(),
    ensures
        count_newlines(s.subrange(0, j)) <= count_newlines(s.subrange(0, k)),
    decreases k - j,
{
    if j < k {
        lemma_count_newlines_prefix(s, j, k - 1);
        assert(s.subrange(0, k).drop_last() =~= s.subrange(0, k - 1));
    }
}

/// The line that holds the byte at offset `j` is one of the lines of `s`.
pub proof fn lemma_line_index_bound(s: Seq<u8>, j: int)
    requires
        0 <= j < s.len(),
    ensures
        count_newlines(s.subrange(0, j)) < lines_of(s).len(),
{
    lemma_split_newlines(s);
    assert(s.subrange(0, s.len() as int) =~= s);
    assert(s.drop_last() =~= s.subrange(0, s.len() - 1));
    let init = split_newlines(s.drop_last());
    lemma_split_newlines(s.drop_last());
    if s.last() == NEWLINE {
        lemma_count_newlines_prefix(s, j, s.len() - 1);
        assert(count_newlines(s) == count_newlines(s.drop_last()) + 1);
        assert(split_newlines(s) == init.push(Seq::empty()));
        assert(split_newlines(s).last().len() == 0);
    } else {
        lemma_count_newlines_prefix(s, j, s.len() as int);
        assert(split_newlines(s) == init.update(init.len() - 1, init.last().push(s.last())));
        assert(split_newlines(s).last().len() > 0);
    }
}

/// Newlines of a concatenation are those of its parts.
pub proof fn lemma_count_concat(a: Seq<u8>, b: Seq<u8>)
    ensures
        count_newlines(a + b) == count_newlines(a) + count_newlines(b),
    decreases b.len(),
{
    if b.len() == 0 {
        assert(a + b =~= a);
    } else {
        lemma_count_concat(a, b.drop_last());
        assert((a + b).drop_last() =~= a + b.drop_last());
    }
}

/// A text without a newline byte counts none.
pub proof fn lemma_count_none(a: Seq<u8>)
    requires
        !a.contains(NEWLINE),
    ensures
        count_newlines(a) == 0,
    decreases a.len(),
{
    if a.len() > 0 {
        assert(!a.drop_last().contains(NEWLINE)) by {
            if a.drop_last().contains(NEWLINE) {
                let k = choose|k: int| 0 <= k < a.len() - 1 && a.drop_last()[k] == NEWLINE;
                assert(a[k] == NEWLINE);
            }
        }
        lemma_count_none(a.drop_last());
        assert(a[a.len() - 1] != NEWLINE);
    }
}

/// A text without a newline byte is a single piece.
pub proof fn lemma_split_single(a: Seq<u8>)
    requires
        !a.contains(NEWLINE),
    ensures
        split_newlines(a) == seq![a],
    decreases a.len(),
{
    if a.len() == 0 {
        assert(a =~= Seq::<u8>::empty());
    } else {
        assert(!a.drop_last().contains(NEWLINE)) by {
            if a.drop_last().contains(NEWLINE) {
                let k = choose|k: int| 0 <= k < a.len() - 1 && a.drop_last()[k] == NEWLINE;
                assert(a[k] == NEWLINE);
            }
        }
        lemma_split_single(a.drop_last());
        assert(a[a.len() - 1] != NEWLINE);
        assert(a.drop_last().push(a.last()) =~= a);
        assert(split_newlines(a) =~= seq![a]);
    }
}

/// Splitting at a newline splits the pieces there.
pub proof fn lemma_split_concat(a: Seq<u8>, c: Seq<u8>)
    ensures
        split_newlines(a + seq![NEWLINE] + c) == split_newlines(a) + split_newlines(c),
    decreases c.len(),
{
    let x = a + seq![NEWLINE] + c;
    if c.len() == 0 {
        assert(x.drop_last() =~= a);
        assert(split_newlines(x) =~= split_newlines(a) + split_newlines(c));
    } else {
        lemma_split_concat(a, c.drop_last());
        lemma_split_newlines(c.drop_last());
        assert(x.drop_last() =~= a + seq![NEWLINE] + c.drop_last());
        assert(split_newlines(x) =~= split_newlines(a) + split_newlines(c));
    }
}

/// Joining a concatenation puts one newline between the joined parts.
pub proof fn lemma_join_concat(xs: Seq<Seq<u8>>, ys: Seq<Seq<u8>>)
    requires
        xs.len() >= 1,
        ys.len() >= 1,
    ensures
        join_lines(xs + ys) == join_lines(xs) + seq![NEWLINE] + join_lines(ys),
    decreases ys.len(),
{
    if ys.len() == 1 {
        assert((xs + ys).drop_last() =~= xs);
    } else {
        lemma_join_concat(xs, ys.drop_last());
        assert((xs + ys).drop_last() =~= xs + ys.drop_last());
        assert(join_lines(xs + ys) =~= join_lines(xs) + seq![NEWLINE] + join_lines(ys));
    }
}

/// Newline-free lines split back out of their join.
pub proof fn lemma_split_join(ys: Seq<Seq<u8>>)
    requires
        ys.len() >= 1,
        no_newlines(ys),
    ensures
        split_newlines(join_lines(ys)) == ys,
        count_newlines(join_lines(ys)) == ys.len() - 1,
    decreases ys.len(),
{
    if ys.len() == 1 {
        lemma_split_single(ys[0]);
        lemma_count_none(ys[0]);
        assert(split_newlines(join_lines(ys)) =~= ys);
    } else {
        let init = ys.drop_last();
        lemma_split_join(init);
        lemma_split_single(ys.last());
        lemma_count_none(ys.last());
        lemma_split_concat(join_lines(init), ys.last());
        lemma_count_concat(join_lines(init) + seq![NEWLINE], ys.last());
        lemma_count_concat(join_lines(init), seq![NEWLINE]);
        assert(count_newlines(seq![NEWLINE]) == 1) by {
            assert(seq![NEWLINE].drop_last() =~= Seq::<u8>::empty());
            assert(count_newlines(seq![NEWLINE].drop_last()) == 0);
        }
        assert(split_newlines(join_lines(ys)) =~= ys);
    }
}

/// Joining the pieces of a text gives the text back.
pub proof fn lemma_join_split(a: Seq<u8>)
    ensures
        join_lines(split_newlines(a)) == a,
    decreases a.len(),
{
    if a.len() == 0 {
        assert(a =~= Seq::<u8>::empty());
    } else {
        let init = split_newlines(a.drop_last());
        lemma_join_split(a.drop_last());
        lemma_split_newlines(a.drop_last());
        if a.last() == NEWLINE {
            assert(init.push(Seq::empty()).drop_last() =~= init);
            assert(join_lines(split_newlines(a)) =~= a);
        } else {
            let p = split_newlines(a);
            if init.len() == 1 {
                assert(join_lines(p) =~= a);
            } else {
                assert(p.drop_last() =~= init.drop_last());
                assert(join_lines(init) == join_lines(init.drop_last()) + seq![NEWLINE]
                    + init.last());
                assert(p.last() == init.last().push(a.last()));
                assert(a.drop_last().push(a.last()) =~= a);
                assert(join_lines(p) =~= a);
            }
        }
    }
}

/// Whether `p` occurring at `k` in `x + y` depends on `x` alone when it ends within `x`.
pub proof fn lemma_occurs_left(x: Seq<u8>, y: Seq<u8>, p: Seq<u8>, k: int)
    requires
        0 <= k,
        k + p.len() <= x.len(),
    ensures
        occurs_at(x + y, p, k) == occurs_at(x, p, k),
{
    assert((x + y).subrange(k, k + p.len()) =~= x.subrange(k, k + p.len()));
}

/// `p` occurs in `x + y` at `x.len() + k` exactly when it occurs in `y` at `k`.
pub proof fn lemma_occurs_right(x: Seq<u8>, y: Seq<u8>, p: Seq<u8>, k: int)
    requires
        0 <= k,
    ensures
        occurs_at(x + y, p, x.len() + k) == occurs_at(y, p, k),
{
    if k + p.len() <= y.len() {
        assert((x + y).subrange(x.len() + k, x.len() + k + p.len()) =~= y.subrange(
            k,
            k + p.len(),
        ));
    }
}

/// An occurrence of a newline-free pattern does not cover a newline byte.
pub proof fn lemma_occurs_avoids(h: Seq<u8>, p: Seq<u8>, k: int, q: int)
    requires
        occurs_at(h, p, k),
        !p.contains(NEWLINE),
        0 <= q < h.len(),
        h[q] == NEWLINE,
    ensures
        !(k <= q < k + p.len()),
{
    if k <= q < k + p.len() {
        assert(h.subrange(k, k + p.len())[q - k] == h[q]);
    }
}

/// The byte strings held by a vector of byte vectors.
pub open spec fn views(ls: Seq<Vec<u8>>) -> Seq<Seq<u8>> {
    ls.map_values(|l: Vec<u8>| l@)
}

/// The byte strings of a concatenation are the concatenation of the byte strings.
pub proof fn lemma_views_concat(a: Seq<Vec<u8>>, b: Seq<Vec<u8>>)
    ensures
        views(a + b) == views(a) + views(b),
{
    assert(views(a + b) =~= views(a) + views(b));
}

/// The byte strings of a part are that part of the byte strings.
pub proof fn lemma_views_subrange(a: Seq<Vec<u8>>, i: int, j: int)
    requires
        0 <= i <= j <= a.len(),
    ensures
        views(a.subrange(i, j)) == views(a).subrange(i, j),
{
    assert(views(a.subrange(i, j)) =~= views(a).subrange(i, j));
}

/// Appends the bytes of `src` to `out`.
pub(crate) fn push_all(out: &mut Vec<u8>, src: &Vec<u8>)
    ensures
        final(out)@ == old(out)@ + src@,
{
    let mut j: usize = 0;
    while j < src.len()
        invariant
            j <= src@.len(),
            out@ == old(out)@ + src@.subrange(0, j as int),
        decreases src@.len() - j,
    {
        out.push(src[j]);
        j = j + 1;
        assert(out@ =~= old(out)@ + src@.subrange(0, j as int));
    }
    assert(src@.subrange(0, src@.len() as int) =~= src@);
}

/// Whether `pat` occurs in `hay` at offset `i`.
pub fn matches_at(hay: &[u8], pat: &[u8], i: usize) -> (r: bool)
    ensures
        r == occurs_at(hay@, pat@, i as int),
{
    if pat.len() > hay.len() || i > hay.len() - pat.len() {
        return false;
    }
    let n = hay.len();
    let mut k: usize = 0;
    while k < pat.len()
        invariant
            n == hay@.len(),
            i + pat@.len() <= hay@.len(),
            k <= pat@.len(),
            forall|m: int| 0 <= m < k ==> hay@[i + m] == pat@[m],
        decreases pat@.len() - k,
    {
        if hay[i + k] != pat[k] {
            assert(hay@.subrange(i as int, i + pat@.len())[k as int] != pat@[k as int]);
            return false;
        }
        k = k + 1;
    }
    assert(hay@.subrange(i as int, i + pat@.len()) =~= pat@);
    true
}

/// Whether `pat` occurs anywhere in `hay`.
pub fn contains_bytes(hay: &[u8], pat: &[u8]) -> (r: bool)
    ensures
        r == contains_seq(hay@, pat@),
{
    if pat.len() > hay.len() {
        return false;
    }
    let last = hay.len() - pat.len();
    let mut i: usize = 0;
    loop
        invariant
            i <= last,
            last + pat@.len() == hay@.len(),
            forall|k: int| 0 <= k < i ==> !occurs_at(hay@, pat@, k),
        decreases last - i,
    {
        if matches_at(hay, pat, i) {
            return true;
        }
        if i == last {
            assert forall|k: int| !occurs_at(hay@, pat@, k) by {
                if k > last && occurs_at(hay@, pat@, k) {
                }
            }
            return false;
        }
        i = i + 1;
    }
}

/// Splits `s` into its lines.
pub fn split_lines(s: &[u8]) -> (r: Vec<Vec<u8>>)
    ensures
        views(r@) == lines_of(s@),
{
    let mut lines: Vec<Vec<u8>> = Vec::new();
    let mut cur: Vec<u8> = Vec::new();
    let mut i: usize = 0;
    while i < s.len()
        invariant
            i <= s@.len(),
            views(lines@).push(cur@) == split_newlines(s@.subrange(0, i as int)),
        decreases s@.len() - i,
    {
        let ghost before = s@.subrange(0, i as int);
        let ghost old_lines = lines@;
        let ghost old_cur = cur@;
        let b = s[i];
        assert(s@.subrange(0, i + 1).drop_last() =~= before);
        if b == NEWLINE {
            lines.push(cur);
            cur = Vec::new();
            assert(views(lines@).push(cur@) =~= split_newlines(before).push(Seq::empty()));
        } else {
            cur.push(b);
            assert(views(lines@).push(cur@) =~= split_newlines(before).update(
                split_newlines(before).len() - 1,
                split_newlines(before).last().push(b),
            ));
        }
        i = i + 1;
    }
    assert(s@.subrange(0, s@.len() as int) =~= s@);
    if cur.len() > 0 {
        lines.push(cur);
        assert(views(lines@) =~= split_newlines(s@));
    } else {
        assert(views(lines@) =~= split_newlines(s@).drop_last());
    }
    lines
}

/// Joins `ls` with a newline byte between each two lines.
pub fn join_with_newlines(ls: &Vec<Vec<u8>>) -> (r: Vec<u8>)
    ensures
        r@ == join_lines(views(ls@)),
{
    let mut out: Vec<u8> = Vec::new();
    let mut k: usize = 0;
    while k < ls.len()
        invariant
            k <= ls@.len(),
            out@ == join_lines(views(ls@).subrange(0, k as int)),
        decreases ls@.len() - k,
    {
        let ghost prefix = views(ls@).subrange(0, k as int + 1);
        assert(prefix.drop_last() =~= views(ls@).subrange(0, k as int));
        if k > 0 {
            out.push(NEWLINE);
        }
        push_all(&mut out, &ls[k]);
        k = k + 1;
        if k == 1 {
            assert(out@ =~= join_lines(prefix));
        } else {
            assert(out@ =~= join_lines(prefix));
        }
    }
    assert(views(ls@).subrange(0, ls@.len() as int) =~= views(ls@));
    out
}

} // verus!
