//! Replacing the body of a section: the lines strictly between its markers.
use vstd::prelude::*;
use vstd::string::*;

use crate::error::ParserError;
use crate::locate::{
    lemma_marker_no_newline, locate, locate_spec, marker_bytes, markers_compile, Location,
};
use crate::marker::{CommentBlock, Marker};
use crate::text::{
    contains_seq, count_newlines, first_occurrence, join_lines, join_with_newlines,
    lemma_count_concat, lemma_count_newlines_prefix, lemma_find_from, lemma_first_occurrence_at,
    lemma_join_concat, lemma_join_split, lemma_line_index_bound, lemma_occurs_avoids,
    lemma_occurs_left, lemma_occurs_right, lemma_split_concat, lemma_split_join,
    lemma_split_newlines, lemma_views_concat, lemma_views_subrange, lines_of, no_newlines,
    occurs_at, push_all, split_lines, split_newlines, views, NEWLINE,
};

verus! {

/// The text `buf` with the lines strictly between lines `s` and `e` replaced by the lines of
/// `body`: lines `0..=s` of `buf`, the lines of `body`, lines `e..` of `buf` and an empty
/// line, joined with newlines, so that the content ends with a newline.
pub open spec fn replaced_lines(buf: Seq<u8>, body: Seq<u8>, s: int, e: int) -> Seq<u8> {
    let ls = lines_of(buf);
    join_lines(
        ls.subrange(0, s + 1) + lines_of(body) + ls.subrange(e, ls.len() as int) + seq![
            Seq::empty(),
        ],
    )
}

/// Whether `r` is what replacing the section at location `l` of `buf` with `body` gives.
pub open spec fn replaced_as(
    r: Result<Vec<u8>, ParserError>,
    l: Location,
    buf: Seq<u8>,
    body: Seq<u8>,
) -> bool {
    match l {
        Location::Lines(s, e) => r matches Ok(v) && v@ == replaced_lines(buf, body, s as int, e as int),
        Location::NoStart => r matches Err(ParserError::MarkerNotFound(Marker::Start)),
        Location::NoEnd => r matches Err(ParserError::MarkerNotFound(Marker::End)),
        Location::Inconsistent => r matches Err(ParserError::LogicBug(_)),
    }
}

/// The content of `buf` with the lines strictly between lines `start_line` and `end_line`
/// replaced by the lines of `body`, ending with a newline; `None` unless
/// `start_line <= end_line` and `end_line` is a line of `buf`.
pub fn replace_lines(buf: &[u8], body: &[u8], start_line: usize, end_line: usize) -> (r: Option<
    Vec<u8>,
>)
    ensures
        r matches Some(v) ==> v@ == replaced_lines(
            buf@,
            body@,
            start_line as int,
            end_line as int,
        ),
        r is None <==> !(start_line <= end_line < lines_of(buf@).len()),
{
    let mut lines = split_lines(buf);
    if !(start_line <= end_line && end_line < lines.len()) {
        return None;
    }
    let ghost l0 = lines@;
    let mut body_lines = split_lines(body);
    let ghost b0 = body_lines@;
    let mut tail = lines.split_off(end_line);
    if start_line < end_line {
        lines.truncate(start_line + 1);
    } else {
        // Both markers are on one line, which is kept on both sides of the new body.
        let mut copy: Vec<u8> = Vec::new();
        push_all(&mut copy, &tail[0]);
        lines.push(copy);
    }
    let ghost mid = lines@;
    assert(views(mid) =~= views(l0).subrange(0, start_line + 1));
    lines.append(&mut body_lines);
    lines.append(&mut tail);
    let empty_line: Vec<u8> = Vec::new();
    let ghost last = seq![empty_line];
    lines.push(empty_line);
    proof {
        let n = l0.len() as int;
        let rest = l0.subrange(end_line as int, n);
        assert(lines@ =~= mid + b0 + rest + last);
        lemma_views_concat(mid + b0 + rest, last);
        lemma_views_concat(mid + b0, rest);
        lemma_views_concat(mid, b0);
        lemma_views_subrange(l0, end_line as int, n);
        assert(views(last) =~= seq![Seq::<u8>::empty()]);
    }
    Some(join_with_newlines(&lines))
}

/// The content of `buf` after replacing the body of the section `block` with `text`.
///
/// The section is located as [`locate`] does; the lines strictly between its markers give way
/// to the lines of `text`, and the content ends with a newline. [`ParserError::RegexError`]
/// comes exactly when a marker does not compile into a search pattern.
pub fn replace_section(buf: &str, text: &str, block: &CommentBlock) -> (r: Result<
    Vec<u8>,
    ParserError,
>)
    ensures
        (r matches Err(ParserError::RegexError(_))) <==> !markers_compile(block@),
        markers_compile(block@) ==> replaced_as(
            r,
            locate_spec(buf.spec_bytes(), marker_bytes(block@).0, marker_bytes(block@).1),
            buf.spec_bytes(),
            text.spec_bytes(),
        ),
{
    let (start_line, end_line) = match locate(buf, block) {
        Ok(p) => p,
        Err(e) => return Err(e),
    };
    let ghost b = buf.spec_bytes();
    proof {
        let (ps, pe) = marker_bytes(block@);
        lemma_find_from(b, ps, 0);
        lemma_find_from(b, pe, 0);
        let j = first_offset(b, pe);
        lemma_count_newlines_prefix(b, first_offset(b, ps), j);
        lemma_line_index_bound(b, j);
    }
    match replace_lines(buf.as_bytes(), text.as_bytes(), start_line, end_line) {
        Some(v) => Ok(v),
        None => Err(ParserError::LogicBug(String::from_str("the located lines are out of range"))),
    }
}

/// The body lines of `t` as they stand in a replaced text: each followed by a newline.
spec fn body_part(t: Seq<u8>) -> Seq<u8> {
    if lines_of(t).len() == 0 {
        Seq::empty()
    } else {
        join_lines(lines_of(t)) + seq![NEWLINE]
    }
}

/// The lines of a text are its pieces, less an empty last piece, and hold no newline.
proof fn lemma_lines_pieces(b: Seq<u8>)
    ensures
        no_newlines(split_newlines(b)),
        no_newlines(lines_of(b)),
        lines_of(b) == split_newlines(b) || (lines_of(b) == split_newlines(b).drop_last()
            && split_newlines(b).last() == Seq::<u8>::empty()),
        join_lines(split_newlines(b)) == b,
        split_newlines(b).len() >= 1,
{
    lemma_split_newlines(b);
    lemma_join_split(b);
    let p = split_newlines(b);
    if p.last().len() == 0 {
        assert(p.last() =~= Seq::<u8>::empty());
    }
}

/// `body_part(t)` is `t`, or `t` and a newline, and holds one newline per line of `t`.
proof fn lemma_body_part(t: Seq<u8>)
    ensures
        body_part(t) == t || body_part(t) == t + seq![NEWLINE],
        count_newlines(body_part(t)) == lines_of(t).len(),
        lines_of(t).len() > 0 ==> body_part(t).len() > 0 && body_part(t).last() == NEWLINE,
        lines_of(t).len() == 0 ==> body_part(t).len() == 0,
{
    lemma_lines_pieces(t);
    let p = split_newlines(t);
    let l = lines_of(t);
    if l.len() == 0 {
        assert(p =~= seq![Seq::<u8>::empty()]);
        assert(t =~= Seq::<u8>::empty());
    } else {
        lemma_split_join(l);
        lemma_count_concat(join_lines(l), seq![NEWLINE]);
        assert(seq![NEWLINE].drop_last() =~= Seq::<u8>::empty());
        assert(count_newlines(seq![NEWLINE].drop_last()) == 0);
        if l != p {
            assert(p =~= l.push(Seq::<u8>::empty()));
            assert(p.drop_last() =~= l);
            assert(join_lines(p) =~= join_lines(l) + seq![NEWLINE]);
        }
    }
}

/// The parts of a text around its lines `s` and `e`.
#[verifier::rlimit(40)]
#[verifier::spinoff_prover]
proof fn lemma_layout_buf(b: Seq<u8>, s: int, e: int)
    requires
        0 <= s < e < lines_of(b).len(),
    ensures
        ({
            let p = split_newlines(b);
            let l = lines_of(b);
            let h = join_lines(l.subrange(0, s + 1));
            let g = join_lines(p.subrange(0, e));
            let tl = join_lines(p.subrange(e, p.len() as int));
            let tl2 = join_lines(l.subrange(e, l.len() as int));
            &&& b == h + (seq![NEWLINE] + join_lines(p.subrange(s + 1, p.len() as int)))
            &&& b == g + (seq![NEWLINE] + tl)
            &&& (tl == tl2 || tl == tl2 + seq![NEWLINE])
            &&& count_newlines(h) == s
            &&& count_newlines(g) == e - 1
            &&& h.len() <= g.len()
        }),
{
    lemma_lines_pieces(b);
    let p = split_newlines(b);
    let l = lines_of(b);
    let n = p.len() as int;
    let tl = join_lines(p.subrange(e, n));
    let tl2 = join_lines(l.subrange(e, l.len() as int));
    assert(l.subrange(0, s + 1) =~= p.subrange(0, s + 1));
    assert(p =~= p.subrange(0, s + 1) + p.subrange(s + 1, n));
    lemma_join_concat(p.subrange(0, s + 1), p.subrange(s + 1, n));
    assert(p =~= p.subrange(0, e) + p.subrange(e, n));
    lemma_join_concat(p.subrange(0, e), p.subrange(e, n));
    assert(no_newlines(p.subrange(0, s + 1)));
    lemma_split_join(p.subrange(0, s + 1));
    assert(no_newlines(p.subrange(0, e)));
    lemma_split_join(p.subrange(0, e));
    if s + 1 < e {
        assert(p.subrange(0, e) =~= p.subrange(0, s + 1) + p.subrange(s + 1, e));
        lemma_join_concat(p.subrange(0, s + 1), p.subrange(s + 1, e));
    } else {
        assert(p.subrange(0, e) =~= p.subrange(0, s + 1));
    }
    if l != p {
        assert(p.subrange(e, n) =~= l.subrange(e, l.len() as int) + seq![Seq::<u8>::empty()]);
        lemma_join_concat(l.subrange(e, l.len() as int), seq![Seq::<u8>::empty()]);
        assert(tl =~= tl2 + seq![NEWLINE]);
    } else {
        assert(tl == tl2);
    }
}

/// The parts of the replacement of lines strictly between `s` and `e` of `b` by `t`.
proof fn lemma_layout_out(b: Seq<u8>, t: Seq<u8>, s: int, e: int)
    requires
        0 <= s < e < lines_of(b).len(),
    ensures
        ({
            let l = lines_of(b);
            let h = join_lines(l.subrange(0, s + 1));
            let tl2 = join_lines(l.subrange(e, l.len() as int));
            replaced_lines(b, t, s, e) == (h + seq![NEWLINE] + body_part(t)) + (tl2 + seq![
                NEWLINE,
            ])
        }),
{
    let l = lines_of(b);
    let h = join_lines(l.subrange(0, s + 1));
    let tl2 = join_lines(l.subrange(e, l.len() as int));
    let bl = lines_of(t);
    let rest = l.subrange(e, l.len() as int);
    let last = seq![Seq::<u8>::empty()];
    let head = l.subrange(0, s + 1);
    lemma_join_concat(head + bl + rest, last);
    assert(join_lines(last) == Seq::<u8>::empty());
    if bl.len() == 0 {
        assert(head + bl + rest =~= head + rest);
        lemma_join_concat(head, rest);
    } else {
        lemma_join_concat(head + bl, rest);
        lemma_join_concat(head, bl);
    }
    assert(replaced_lines(b, t, s, e) =~= (h + seq![NEWLINE] + body_part(t)) + (tl2 + seq![
        NEWLINE,
    ]));
}

/// One newline byte counts one.
proof fn lemma_count_one()
    ensures
        count_newlines(seq![NEWLINE]) == 1,
{
    assert(seq![NEWLINE].drop_last() =~= Seq::<u8>::empty());
    assert(count_newlines(seq![NEWLINE].drop_last()) == 0);
}

/// The lines of a replaced text: the kept lines of `b` around the lines of `t`.
proof fn lemma_lines_of_replaced(b: Seq<u8>, t: Seq<u8>, s: int, e: int)
    requires
        0 <= s < e < lines_of(b).len(),
    ensures
        lines_of(replaced_lines(b, t, s, e)) == lines_of(b).subrange(0, s + 1) + lines_of(t)
            + lines_of(b).subrange(e, lines_of(b).len() as int),
{
    lemma_lines_pieces(b);
    lemma_lines_pieces(t);
    let l = lines_of(b);
    let x = l.subrange(0, s + 1) + lines_of(t) + l.subrange(e, l.len() as int);
    assert(no_newlines(x)) by {
        assert forall|k: int| 0 <= k < x.len() implies !x[k].contains(NEWLINE) by {
            if k < s + 1 {
                assert(x[k] == l[k]);
            } else if k < s + 1 + lines_of(t).len() {
                assert(x[k] == lines_of(t)[k - s - 1]);
            } else {
                assert(x[k] == l[k - s - 1 - lines_of(t).len() + e]);
            }
        }
    }
    let last = seq![Seq::<u8>::empty()];
    lemma_join_concat(x, last);
    assert(join_lines(last) == Seq::<u8>::empty());
    lemma_split_join(x);
    lemma_split_concat(join_lines(x), Seq::<u8>::empty());
    assert(join_lines(x) + seq![NEWLINE] + Seq::<u8>::empty() =~= join_lines(x) + seq![NEWLINE]
        + join_lines(last));
    assert(split_newlines(Seq::<u8>::empty()) =~= last);
    assert((x + last).drop_last() =~= x);
}

/// In the replaced text the start marker is first found where it was in `b`, on the same line.
proof fn lemma_start_kept(b: Seq<u8>, t: Seq<u8>, start: Seq<u8>, s: int, e: int, i: int)
    requires
        0 <= s < e < lines_of(b).len(),
        first_occurrence(b, start) == Some(i),
        s == count_newlines(b.subrange(0, i)),
        !start.contains(NEWLINE),
    ensures
        first_occurrence(replaced_lines(b, t, s, e), start) == Some(i),
        count_newlines(replaced_lines(b, t, s, e).subrange(0, i)) == s,
        i <= join_lines(lines_of(b).subrange(0, s + 1)).len(),
{
    lemma_layout_buf(b, s, e);
    lemma_layout_out(b, t, s, e);
    lemma_find_from(b, start, 0);
    let p = split_newlines(b);
    let l = lines_of(b);
    let h = join_lines(l.subrange(0, s + 1));
    let rb = seq![NEWLINE] + join_lines(p.subrange(s + 1, p.len() as int));
    let tl2 = join_lines(l.subrange(e, l.len() as int));
    let out = replaced_lines(b, t, s, e);
    let ro = seq![NEWLINE] + body_part(t) + (tl2 + seq![NEWLINE]);
    assert(out =~= h + ro);
    if i > h.len() {
        lemma_count_newlines_prefix(b, h.len() + 1int, i);
        assert(b.subrange(0, h.len() + 1int) =~= h + seq![NEWLINE]);
        lemma_count_concat(h, seq![NEWLINE]);
        lemma_count_one();
    }
    assert(b[h.len() as int] == NEWLINE);
    lemma_occurs_avoids(b, start, i, h.len() as int);
    lemma_occurs_left(h, rb, start, i);
    lemma_occurs_left(h, ro, start, i);
    assert forall|k: int| 0 <= k < i implies !occurs_at(out, start, k) by {
        lemma_occurs_left(h, rb, start, k);
        lemma_occurs_left(h, ro, start, k);
    }
    lemma_first_occurrence_at(out, start, i);
    assert(out.subrange(0, i) =~= b.subrange(0, i));
}

/// In the replaced text the end marker is first found on the line after the new body, at the
/// same place in that line as in `b`.
#[verifier::rlimit(60)]
#[verifier::spinoff_prover]
proof fn lemma_end_moved(b: Seq<u8>, t: Seq<u8>, end: Seq<u8>, s: int, e: int, j: int)
    requires
        0 <= s < e < lines_of(b).len(),
        first_occurrence(b, end) == Some(j),
        e == count_newlines(b.subrange(0, j)),
        end.len() > 0,
        !end.contains(NEWLINE),
        !contains_seq(t, end),
    ensures
        ({
            let l = lines_of(b);
            let h = join_lines(l.subrange(0, s + 1));
            let g = join_lines(split_newlines(b).subrange(0, e));
            let out = replaced_lines(b, t, s, e);
            let j2 = h.len() + 1 + body_part(t).len() + (j - g.len() - 1);
            &&& first_occurrence(out, end) == Some(j2)
            &&& count_newlines(out.subrange(0, j2)) == s + 1 + lines_of(t).len()
            &&& h.len() < j2 < out.len()
        }),
{
    lemma_layout_buf(b, s, e);
    lemma_layout_out(b, t, s, e);
    lemma_body_part(t);
    lemma_find_from(b, end, 0);
    lemma_count_one();
    let p = split_newlines(b);
    let l = lines_of(b);
    let h = join_lines(l.subrange(0, s + 1));
    let g = join_lines(p.subrange(0, e));
    let tl = join_lines(p.subrange(e, p.len() as int));
    let tl2 = join_lines(l.subrange(e, l.len() as int));
    let m = body_part(t);
    let out = replaced_lines(b, t, s, e);
    let front = h + seq![NEWLINE] + m;
    let back = tl2 + seq![NEWLINE];
    let base = front.len() as int;
    let rb = seq![NEWLINE] + tl;
    // The end marker lies on a line after the one that ends `g`.
    if j <= g.len() {
        lemma_count_newlines_prefix(b, j, g.len() as int);
        assert(b.subrange(0, g.len() as int) =~= g);
    }
    let c = j - g.len() - 1;
    lemma_occurs_right(g, rb, end, 1 + c);
    lemma_occurs_right(seq![NEWLINE], tl, end, c);
    if tl != tl2 {
        assert(tl[tl2.len() as int] == NEWLINE);
        lemma_occurs_avoids(tl, end, c, tl2.len() as int);
        lemma_occurs_left(tl2, seq![NEWLINE], end, c);
    }
    assert(occurs_at(tl2, end, c));
    assert(back[tl2.len() as int] == NEWLINE);
    lemma_occurs_left(tl2, seq![NEWLINE], end, c);
    lemma_occurs_right(front, back, end, c);
    // No occurrence comes before it.
    assert forall|k: int| 0 <= k < base + c implies !occurs_at(out, end, k) by {
        if occurs_at(out, end, k) {
            lemma_occurrence_back(b, t, end, s, e, k);
        }
    }
    assert(out == front + back);
    lemma_first_occurrence_at(out, end, base + c);
    // Its line.
    assert(out.subrange(0, base + c) =~= front + tl2.subrange(0, c));
    lemma_count_concat(front, tl2.subrange(0, c));
    lemma_count_concat(h + seq![NEWLINE], m);
    lemma_count_concat(h, seq![NEWLINE]);
    assert(b.subrange(0, j) =~= g + seq![NEWLINE] + tl.subrange(0, c));
    lemma_count_concat(g + seq![NEWLINE], tl.subrange(0, c));
    lemma_count_concat(g, seq![NEWLINE]);
    assert(tl.subrange(0, c) =~= tl2.subrange(0, c));
}

/// Replacing the body of the section `name` of `buf` with `t`, and then replacing the body of
/// that section again in the result with the same `t`, gives the result of the first
/// replacement back: the second replacement finds the section where the first one left it and
/// writes the same content.
///
/// Stated for a buffer whose start marker lies on an earlier line than its end marker, for a
/// section name without a newline, and for a body that does not hold the end marker.
pub proof fn lemma_replace_idempotent(name: Seq<char>, buf: Seq<u8>, t: Seq<u8>)
    requires
        locate_spec(buf, marker_bytes(name).0, marker_bytes(name).1) matches Location::Lines(
            s,
            e,
        ) && s < e,
        !name.contains('\n'),
        !contains_seq(t, marker_bytes(name).1),
    ensures
        locate_spec(buf, marker_bytes(name).0, marker_bytes(name).1) matches Location::Lines(
            s,
            e,
        ) ==> {
            let out = replaced_lines(buf, t, s as int, e as int);
            locate_spec(out, marker_bytes(name).0, marker_bytes(name).1) matches Location::Lines(
                s2,
                e2,
            ) && replaced_lines(out, t, s2 as int, e2 as int) == out
        },
{
    let (ps, pe) = marker_bytes(name);
    if let Location::Lines(s, e) = locate_spec(buf, ps, pe) {
        let s = s as int;
        let e = e as int;
        let i = first_offset(buf, ps);
        let j = first_offset(buf, pe);
        lemma_find_from(buf, ps, 0);
        lemma_find_from(buf, pe, 0);
        lemma_marker_no_newline(Marker::Start, name);
        lemma_marker_no_newline(Marker::End, name);
        // The end marker is not empty: an empty one would be found at offset 0.
        assert(buf.subrange(0, 0) =~= Seq::<u8>::empty());
        if pe.len() == 0 {
            assert(occurs_at(buf, pe, 0));
        }
        lemma_line_index_bound(buf, j);
        lemma_start_kept(buf, t, ps, s, e, i);
        lemma_end_moved(buf, t, pe, s, e, j);
        lemma_lines_of_replaced(buf, t, s, e);
        let out = replaced_lines(buf, t, s, e);
        let l = lines_of(buf);
        let bl = lines_of(t);
        let e2 = s + 1 + bl.len();
        assert(locate_spec(out, ps, pe) == Location::Lines(s as nat, e2 as nat));
        let x = lines_of(out);
        assert(x.subrange(0, s + 1) =~= l.subrange(0, s + 1));
        assert(x.subrange(e2, x.len() as int) =~= l.subrange(e, l.len() as int));
    }
}

/// An occurrence in the replaced text of a newline-free pattern that `t` does not hold is an
/// occurrence in `b`: in the kept lines before the new body, or in those after it.
#[verifier::rlimit(60)]
#[verifier::spinoff_prover]
proof fn lemma_occurrence_back(b: Seq<u8>, t: Seq<u8>, pat: Seq<u8>, s: int, e: int, k: int)
    requires
        0 <= s < e < lines_of(b).len(),
        occurs_at(replaced_lines(b, t, s, e), pat, k),
        pat.len() > 0,
        !pat.contains(NEWLINE),
        !contains_seq(t, pat),
    ensures
        ({
            let h = join_lines(lines_of(b).subrange(0, s + 1));
            let g = join_lines(split_newlines(b).subrange(0, e));
            let base = h.len() + 1 + body_part(t).len();
            (k + pat.len() <= h.len() && occurs_at(b, pat, k)) || (k >= base && occurs_at(
                b,
                pat,
                k - base + g.len() + 1,
            ))
        }),
{
    lemma_layout_buf(b, s, e);
    lemma_layout_out(b, t, s, e);
    lemma_body_part(t);
    let p = split_newlines(b);
    let l = lines_of(b);
    let h = join_lines(l.subrange(0, s + 1));
    let g = join_lines(p.subrange(0, e));
    let tl = join_lines(p.subrange(e, p.len() as int));
    let tl2 = join_lines(l.subrange(e, l.len() as int));
    let m = body_part(t);
    let out = replaced_lines(b, t, s, e);
    let front = h + seq![NEWLINE] + m;
    let back = tl2 + seq![NEWLINE];
    let base = front.len() as int;
    let rb = seq![NEWLINE] + tl;
    assert(out == front + back);
    if k >= base {
        let c2 = k - base;
        lemma_occurs_right(front, back, pat, c2);
        assert(back[tl2.len() as int] == NEWLINE);
        lemma_occurs_avoids(back, pat, c2, tl2.len() as int);
        lemma_occurs_left(tl2, seq![NEWLINE], pat, c2);
        if tl != tl2 {
            lemma_occurs_left(tl2, seq![NEWLINE], pat, c2);
        }
        assert(occurs_at(tl, pat, c2));
        lemma_occurs_right(seq![NEWLINE], tl, pat, c2);
        lemma_occurs_right(g, rb, pat, 1 + c2);
    } else {
        assert(out[base - 1] == NEWLINE);
        lemma_occurs_avoids(out, pat, k, base - 1);
        assert(out[h.len() as int] == NEWLINE);
        lemma_occurs_avoids(out, pat, k, h.len() as int);
        if k + pat.len() <= h.len() {
            assert(out =~= h + (seq![NEWLINE] + m + back));
            lemma_occurs_left(h, seq![NEWLINE] + m + back, pat, k);
            lemma_occurs_left(
                h,
                seq![NEWLINE] + join_lines(p.subrange(s + 1, p.len() as int)),
                pat,
                k,
            );
        } else {
            let k2 = k - h.len() - 1;
            assert(out =~= (h + seq![NEWLINE]) + (m + back));
            lemma_occurs_right(h + seq![NEWLINE], m + back, pat, k2);
            lemma_occurs_left(m, back, pat, k2);
            if m != t {
                lemma_occurs_left(t, seq![NEWLINE], pat, k2);
            }
            assert(occurs_at(t, pat, k2));
        }
    }
}

/// Whether `pat` occurs in `hay` at `k` and nowhere else.
pub open spec fn occurs_only_at(hay: Seq<u8>, pat: Seq<u8>, k: int) -> bool {
    occurs_at(hay, pat, k) && forall|j: int| occurs_at(hay, pat, j) ==> j == k
}

/// Whether `pat` occurs exactly once in `hay`.
pub open spec fn occurs_once(hay: Seq<u8>, pat: Seq<u8>) -> bool {
    exists|k: int| occurs_only_at(hay, pat, k)
}

/// When `buf` holds each marker of the section `name` exactly once, the start marker first,
/// replacing the body of the section with `t` gives a text that again holds each marker
/// exactly once, the start marker first, each on its own line as before, with the lines of `t`
/// between them.
///
/// Stated for a buffer whose start marker lies on an earlier line than its end marker, for a
/// section name without a newline, and for a body that holds neither marker.
pub proof fn lemma_replace_keeps_markers(name: Seq<char>, buf: Seq<u8>, t: Seq<u8>)
    requires
        occurs_once(buf, marker_bytes(name).0),
        occurs_once(buf, marker_bytes(name).1),
        locate_spec(buf, marker_bytes(name).0, marker_bytes(name).1) matches Location::Lines(
            s,
            e,
        ) && s < e,
        !name.contains('\n'),
        !contains_seq(t, marker_bytes(name).0),
        !contains_seq(t, marker_bytes(name).1),
    ensures
        locate_spec(buf, marker_bytes(name).0, marker_bytes(name).1) matches Location::Lines(
            s,
            e,
        ) ==> {
            let out = replaced_lines(buf, t, s as int, e as int);
            let n = lines_of(t).len() as int;
            &&& exists|i: int, j: int|
                occurs_only_at(out, marker_bytes(name).0, i) && occurs_only_at(
                    out,
                    marker_bytes(name).1,
                    j,
                ) && i < j && count_newlines(out.subrange(0, i)) == s && count_newlines(
                    out.subrange(0, j),
                ) == s + 1 + n
            &&& lines_of(out).subrange(s + 1int, s + 1 + n) == lines_of(t)
            &&& lines_of(out)[s as int] == lines_of(buf)[s as int]
            &&& lines_of(out)[s + 1 + n] == lines_of(buf)[e as int]
        },
{
    let (ps, pe) = marker_bytes(name);
    if let Location::Lines(s, e) = locate_spec(buf, ps, pe) {
        let s = s as int;
        let e = e as int;
        let i = first_offset(buf, ps);
        let j = first_offset(buf, pe);
        lemma_find_from(buf, ps, 0);
        lemma_find_from(buf, pe, 0);
        lemma_marker_no_newline(Marker::Start, name);
        lemma_marker_no_newline(Marker::End, name);
        // The end marker is not empty: an empty one would be found at offset 0.
        assert(buf.subrange(0, 0) =~= Seq::<u8>::empty());
        if pe.len() == 0 {
            assert(occurs_at(buf, pe, 0));
        }
        lemma_line_index_bound(buf, j);
        lemma_start_kept(buf, t, ps, s, e, i);
        lemma_end_moved(buf, t, pe, s, e, j);
        lemma_lines_of_replaced(buf, t, s, e);
        lemma_layout_buf(buf, s, e);
        lemma_body_part(t);
        let out = replaced_lines(buf, t, s, e);
        let h = join_lines(lines_of(buf).subrange(0, s + 1));
        let g = join_lines(split_newlines(buf).subrange(0, e));
        let base = h.len() + 1 + body_part(t).len();
        let j2 = base + (j - g.len() - 1);
        if j <= g.len() {
            lemma_count_newlines_prefix(buf, j, g.len() as int);
            assert(buf.subrange(0, g.len() as int) =~= g);
        }
        let ki = choose|k: int| occurs_only_at(buf, ps, k);
        let kj = choose|k: int| occurs_only_at(buf, pe, k);
        assert(ki == i && kj == j);
        // The start marker is not empty: an empty one would occur at offsets 0 and 1.
        assert(buf.subrange(1, 1) =~= Seq::<u8>::empty());
        if ps.len() == 0 {
            assert(occurs_at(buf, ps, 0) && occurs_at(buf, ps, 1));
        }
        assert forall|k: int| occurs_at(out, ps, k) implies k == i by {
            lemma_occurrence_back(buf, t, ps, s, e, k);
        }
        assert forall|k: int| occurs_at(out, pe, k) implies k == j2 by {
            lemma_occurrence_back(buf, t, pe, s, e, k);
        }
        lemma_find_from(out, ps, 0);
        lemma_find_from(out, pe, 0);
        assert(occurs_only_at(out, ps, i) && occurs_only_at(out, pe, j2));
        let n = lines_of(t).len();
        let x = lines_of(out);
        assert(x.subrange(s + 1, s + 1 + n) =~= lines_of(t));
    }
}

/// The offset of the first occurrence of `p` in `b`, or 0 when there is none.
spec fn first_offset(b: Seq<u8>, p: Seq<u8>) -> int {
    match first_occurrence(b, p) {
        Some(i) => i,
        None => 0,
    }
}

} // verus!
