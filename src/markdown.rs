//! A line-by-line view of a managed section: which lines hold its markers, and rewriting the
//! section while scanning the lines.
use vstd::prelude::*;
use vstd::string::*;

use crate::error::ParserError;
use crate::marker::{marker_text, section_marker, Marker};
use crate::text::{contains_bytes, contains_seq, lines_of, push_all, split_lines, views, NEWLINE};

verus! {

/// Whether a line scan is inside a section, between its start and end markers.
#[derive(Debug, Clone, Copy, PartialEq, Eq, Structural)]
pub enum SectionState {
    OutsideSection,
    InSection,
}

/// The first of the lines `ls` that holds `pat`.
pub open spec fn first_line_with(ls: Seq<Seq<u8>>, pat: Seq<u8>) -> Option<int>
    decreases ls.len(),
{
    if ls.len() == 0 {
        None
    } else {
        match first_line_with(ls.drop_last(), pat) {
            Some(k) => Some(k),
            None => if contains_seq(ls.last(), pat) {
                Some(ls.len() - 1)
            } else {
                None
            },
        }
    }
}

/// The line found in a prefix of the lines is the line found in all of them.
pub proof fn lemma_first_line_prefix(ls: Seq<Seq<u8>>, pat: Seq<u8>, m: int, k: int)
    requires
        0 <= m <= ls.len(),
        first_line_with(ls.subrange(0, m), pat) == Some(k),
    ensures
        first_line_with(ls, pat) == Some(k),
    decreases ls.len() - m,
{
    if m == ls.len() {
        assert(ls.subrange(0, m) =~= ls);
    } else {
        assert(ls.subrange(0, m + 1).drop_last() =~= ls.subrange(0, m));
        lemma_first_line_prefix(ls, pat, m + 1, k);
    }
}

/// The marker comment of the end `m` of the section `tag`, as bytes.
pub open spec fn tag_marker(m: Marker, tag: Seq<char>) -> Seq<u8> {
    vstd::utf8::encode_utf8(marker_text(m, tag))
}

/// What a scan of the lines of `text` for the section `tag` finds: the first line holding the
/// start marker, up to and including the first line holding the end marker, and that line.
pub open spec fn scan_spec(text: Seq<u8>, tag: Seq<char>) -> (Option<int>, Option<int>) {
    let ls = lines_of(text);
    let end = first_line_with(ls, tag_marker(Marker::End, tag));
    let limit = match end {
        Some(k) => k + 1,
        None => ls.len() as int,
    };
    (first_line_with(ls.subrange(0, limit), tag_marker(Marker::Start, tag)), end)
}

/// Finds markers in text by scanning its lines.
pub struct RegexMd;

impl RegexMd {
    /// Scans the lines of `to_search` for the markers of the section `section_tag` and reports
    /// the first line holding the start marker and the first line holding the end marker; the
    /// scan stops at the end marker, so a start marker after it is not reported.
    pub fn find_in_text(to_search: &str, section_tag: &str) -> (r: (Option<usize>, Option<usize>))
        ensures
            r.0 matches Some(k) ==> scan_spec(to_search.spec_bytes(), section_tag@).0 == Some(
                k as int,
            ),
            r.0 is None ==> scan_spec(to_search.spec_bytes(), section_tag@).0 is None,
            r.1 matches Some(k) ==> scan_spec(to_search.spec_bytes(), section_tag@).1 == Some(
                k as int,
            ),
            r.1 is None ==> scan_spec(to_search.spec_bytes(), section_tag@).1 is None,
    {
        let start_marker = section_marker(Marker::Start, section_tag);
        let end_marker = section_marker(Marker::End, section_tag);
        let ps = start_marker.as_str().as_bytes();
        let pe = end_marker.as_str().as_bytes();
        let lines = split_lines(to_search.as_bytes());
        let ghost ls = views(lines@);
        let mut start: Option<usize> = None;
        let mut k: usize = 0;
        while k < lines.len()
            invariant
                k <= lines@.len(),
                ls == views(lines@),
                ls == lines_of(to_search.spec_bytes()),
                ps@ == tag_marker(Marker::Start, section_tag@),
                pe@ == tag_marker(Marker::End, section_tag@),
                first_line_with(ls.subrange(0, k as int), pe@) is None,
                match start {
                    Some(i) => first_line_with(ls.subrange(0, k as int), ps@) == Some(i as int),
                    None => first_line_with(ls.subrange(0, k as int), ps@) is None,
                },
            decreases lines@.len() - k,
        {
            let line = lines[k].as_slice();
            assert(ls.subrange(0, k + 1).drop_last() =~= ls.subrange(0, k as int));
            assert(line@ == ls[k as int]);
            if start.is_none() && contains_bytes(line, ps) {
                start = Some(k);
            }
            if contains_bytes(line, pe) {
                proof {
                    lemma_first_line_prefix(ls, pe@, k + 1, k as int);
                }
                return (start, Some(k));
            }
            k = k + 1;
        }
        assert(ls.subrange(0, k as int) =~= ls);
        (start, None)
    }
}

/// The first line of `buf` that holds `re`.
pub fn get_pos(buf: &str, re: &str) -> (r: Result<usize, ParserError>)
    ensures
        r matches Ok(k) ==> first_line_with(lines_of(buf.spec_bytes()), re.spec_bytes()) == Some(
            k as int,
        ),
        r is Err ==> first_line_with(lines_of(buf.spec_bytes()), re.spec_bytes()) is None,
        r matches Err(e) ==> e == ParserError::MarkerNotFound(Marker::Start),
{
    let pat = re.as_bytes();
    let lines = split_lines(buf.as_bytes());
    let ghost ls = views(lines@);
    let mut k: usize = 0;
    while k < lines.len()
        invariant
            k <= lines@.len(),
            ls == views(lines@),
            ls == lines_of(buf.spec_bytes()),
            pat@ == re.spec_bytes(),
            first_line_with(ls.subrange(0, k as int), pat@) is None,
        decreases lines@.len() - k,
    {
        assert(ls.subrange(0, k + 1).drop_last() =~= ls.subrange(0, k as int));
        if contains_bytes(lines[k].as_slice(), pat) {
            proof {
                lemma_first_line_prefix(ls, pat@, k + 1, k as int);
            }
            return Ok(k);
        }
        k = k + 1;
    }
    assert(ls.subrange(0, k as int) =~= ls);
    Err(ParserError::MarkerNotFound(Marker::Start))
}

/// The lines kept by a scan of `ls` that replaces the body of a section: a line holding the
/// start marker is kept and followed by the lines `content`, a line holding the end marker is
/// kept and closes the section, and any other line is kept only outside a section.
pub open spec fn section_update(
    ls: Seq<Seq<u8>>,
    ps: Seq<u8>,
    pe: Seq<u8>,
    content: Seq<Seq<u8>>,
) -> (SectionState, Seq<Seq<u8>>)
    decreases ls.len(),
{
    if ls.len() == 0 {
        (SectionState::OutsideSection, Seq::empty())
    } else {
        let (st, out) = section_update(ls.drop_last(), ps, pe, content);
        let line = ls.last();
        if contains_seq(line, ps) {
            (SectionState::InSection, out.push(line) + content)
        } else if contains_seq(line, pe) {
            (SectionState::OutsideSection, out.push(line))
        } else if st == SectionState::OutsideSection {
            (st, out.push(line))
        } else {
            (st, out)
        }
    }
}

/// The lines `ls`, each followed by a newline.
pub open spec fn terminated(ls: Seq<Seq<u8>>) -> Seq<u8>
    decreases ls.len(),
{
    if ls.len() == 0 {
        Seq::empty()
    } else {
        terminated(ls.drop_last()) + ls.last() + seq![NEWLINE]
    }
}

/// Terminating a concatenation of lines concatenates the terminated parts.
pub proof fn lemma_terminated_concat(a: Seq<Seq<u8>>, b: Seq<Seq<u8>>)
    ensures
        terminated(a + b) == terminated(a) + terminated(b),
    decreases b.len(),
{
    if b.len() == 0 {
        assert(a + b =~= a);
        assert(terminated(a) + terminated(b) =~= terminated(a));
    } else {
        lemma_terminated_concat(a, b.drop_last());
        assert((a + b).drop_last() =~= a + b.drop_last());
        assert(terminated(a + b) =~= terminated(a) + terminated(b));
    }
}

/// The lines `ls`, each followed by a newline.
fn terminate_lines(ls: &Vec<Vec<u8>>) -> (r: Vec<u8>)
    ensures
        r@ == terminated(views(ls@)),
{
    let mut out: Vec<u8> = Vec::new();
    let mut k: usize = 0;
    while k < ls.len()
        invariant
            k <= ls@.len(),
            out@ == terminated(views(ls@).subrange(0, k as int)),
        decreases ls@.len() - k,
    {
        let ghost o0 = out@;
        assert(views(ls@).subrange(0, k + 1).drop_last() =~= views(ls@).subrange(0, k as int));
        push_all(&mut out, &ls[k]);
        out.push(NEWLINE);
        k = k + 1;
        assert(out@ =~= terminated(views(ls@).subrange(0, k as int)));
    }
    assert(views(ls@).subrange(0, ls@.len() as int) =~= views(ls@));
    out
}

/// `text` with the body of the section `section_tag` replaced by the lines of `new_content`,
/// found by scanning its lines: each line holding the start marker of the section is kept and
/// followed by the lines of `new_content`, the lines after it up to a line holding the end
/// marker are dropped, and every kept line ends with a newline.
///
/// [`ParserError::MarkerNotFound`] names the start marker when no line holds it, and the end
/// marker when the scan ends inside a section.
pub fn update_section(text: &str, section_tag: &str, new_content: &str) -> (r: Result<
    Vec<u8>,
    ParserError,
>)
    ensures
        ({
            let ls = lines_of(text.spec_bytes());
            let ps = tag_marker(Marker::Start, section_tag@);
            let pe = tag_marker(Marker::End, section_tag@);
            let scan = section_update(ls, ps, pe, lines_of(new_content.spec_bytes()));
            match r {
                Err(ParserError::MarkerNotFound(Marker::Start)) => first_line_with(ls, ps) is None,
                Err(ParserError::MarkerNotFound(Marker::End)) => first_line_with(ls, ps) is Some
                    && scan.0 == SectionState::InSection,
                Ok(v) => first_line_with(ls, ps) is Some && scan.0 == SectionState::OutsideSection
                    && v@ == terminated(scan.1),
                _ => false,
            }
        }),
{
    let start_marker = section_marker(Marker::Start, section_tag);
    let end_marker = section_marker(Marker::End, section_tag);
    let ps = start_marker.as_str().as_bytes();
    let pe = end_marker.as_str().as_bytes();
    let content_lines = split_lines(new_content.as_bytes());
    let ghost cl = views(content_lines@);
    let block = terminate_lines(&content_lines);
    let lines = split_lines(text.as_bytes());
    let ghost ls = views(lines@);
    let mut state = SectionState::OutsideSection;
    let mut seen_start = false;
    let mut out: Vec<u8> = Vec::new();
    let mut k: usize = 0;
    while k < lines.len()
        invariant
            k <= lines@.len(),
            ls == views(lines@),
            block@ == terminated(cl),
            seen_start == first_line_with(ls.subrange(0, k as int), ps@) is Some,
            section_update(ls.subrange(0, k as int), ps@, pe@, cl).0 == state,
            terminated(section_update(ls.subrange(0, k as int), ps@, pe@, cl).1) == out@,
        decreases lines@.len() - k,
    {
        let ghost prev = section_update(ls.subrange(0, k as int), ps@, pe@, cl).1;
        assert(ls.subrange(0, k + 1).drop_last() =~= ls.subrange(0, k as int));
        let line = &lines[k];
        assert(line@ == ls[k as int]);
        let ghost o0 = out@;
        let ghost with_line = prev.push(line@);
        assert(with_line.drop_last() =~= prev);
        assert(terminated(with_line) == terminated(prev) + line@ + seq![NEWLINE]);
        if contains_bytes(line.as_slice(), ps) {
            state = SectionState::InSection;
            seen_start = true;
            push_all(&mut out, line);
            out.push(NEWLINE);
            push_all(&mut out, &block);
            proof {
                lemma_terminated_concat(with_line, cl);
            }
            assert(out@ =~= o0 + line@ + seq![NEWLINE] + block@);
        } else if contains_bytes(line.as_slice(), pe) {
            state = SectionState::OutsideSection;
            push_all(&mut out, line);
            out.push(NEWLINE);
            assert(out@ =~= o0 + line@ + seq![NEWLINE]);
        } else if state == SectionState::OutsideSection {
            push_all(&mut out, line);
            out.push(NEWLINE);
            assert(out@ =~= o0 + line@ + seq![NEWLINE]);
        }
        k = k + 1;
    }
    assert(ls.subrange(0, k as int) =~= ls);
    if !seen_start {
        Err(ParserError::MarkerNotFound(Marker::Start))
    } else if state == SectionState::InSection {
        Err(ParserError::MarkerNotFound(Marker::End))
    } else {
        Ok(out)
    }
}

} // verus!
