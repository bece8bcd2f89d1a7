//! Locating a section: the line numbers of its start and end markers in a buffer.
use vstd::prelude::*;
use vstd::string::*;

use crate::error::ParserError;
use crate::marker::{end_marker_text, start_marker_text, CommentBlock, Marker};
use crate::text::{count_newlines, first_occurrence, lemma_find_from, NEWLINE};

verus! {

/// What locating a section in a buffer yields.
pub enum Location {
    /// The zero-based lines of the start and end markers.
    Lines(nat, nat),
    /// The start marker is absent.
    NoStart,
    /// The start marker is present and the end marker absent.
    NoEnd,
    /// The end marker does not come after the start marker.
    Inconsistent,
}

/// The location given by the byte offsets at which the start and end markers were found.
pub open spec fn location_of(buf: Seq<u8>, start: Option<int>, end: Option<int>) -> Location {
    match start {
        None => Location::NoStart,
        Some(i) => match end {
            None => Location::NoEnd,
            Some(j) => if 0 <= i < j < buf.len() {
                Location::Lines(
                    count_newlines(buf.subrange(0, i)),
                    count_newlines(buf.subrange(0, j)),
                )
            } else {
                Location::Inconsistent
            },
        },
    }
}

/// The location of the section delimited by the first occurrences of `start` and `end`.
pub open spec fn locate_spec(buf: Seq<u8>, start: Seq<u8>, end: Seq<u8>) -> Location {
    location_of(buf, first_occurrence(buf, start), first_occurrence(buf, end))
}

/// Whether `r` reports the location `l`.
pub open spec fn reports(r: Result<(usize, usize), ParserError>, l: Location) -> bool {
    match l {
        Location::Lines(s, e) => r matches Ok(p) && p.0 == s && p.1 == e,
        Location::NoStart => r matches Err(ParserError::MarkerNotFound(Marker::Start)),
        Location::NoEnd => r matches Err(ParserError::MarkerNotFound(Marker::End)),
        Location::Inconsistent => r matches Err(ParserError::LogicBug(_)),
    }
}

/// Whether the text `pattern`, escaped, compiles into a regular expression: that is, whether
/// its compiled form stays within the `regex` crate's default size limit.
pub uninterp spec fn literal_compiles(pattern: Seq<char>) -> bool;

/// The offset in bytes of the first occurrence of `pattern` in `haystack`, taken literally.
///
/// Relies on `regex::escape`, `Regex::new` and `Regex::find`: the escaped pattern matches
/// exactly the text `pattern`, and `find` returns the leftmost match, whose start is the first
/// offset at which that text occurs. Whether `Regex::new` fails on the escaped pattern depends
/// on the pattern alone: it fails when the compiled pattern would exceed the crate's default
/// size limit.
#[verifier::external_body]
fn find_literal(haystack: &str, pattern: &str) -> (r: Result<Option<usize>, regex::Error>)
    ensures
        r is Err <==> !literal_compiles(pattern@),
        r matches Ok(Some(i)) ==> first_occurrence(haystack.spec_bytes(), pattern.spec_bytes())
            == Some(i as int),
        r matches Ok(None) ==> first_occurrence(haystack.spec_bytes(), pattern.spec_bytes())
            is None,
{
    let re = regex::Regex::new(&regex::escape(pattern))?;
    Ok(re.find(haystack).map(|m| m.start()))
}

/// How many newline bytes `b` holds before offset `end`.
fn count_newlines_before(b: &[u8], end: usize) -> (r: usize)
    requires
        end <= b@.len(),
    ensures
        r == count_newlines(b@.subrange(0, end as int)),
{
    let mut n: usize = 0;
    let mut i: usize = 0;
    while i < end
        invariant
            i <= end <= b@.len(),
            n <= i,
            n == count_newlines(b@.subrange(0, i as int)),
        decreases end - i,
    {
        assert(b@.subrange(0, i + 1).drop_last() =~= b@.subrange(0, i as int));
        if b[i] == NEWLINE {
            n = n + 1;
        }
        i = i + 1;
    }
    n
}

/// The line numbers of the markers found at byte offsets `start` and `end` of `buf`.
///
/// An absent marker is reported as [`ParserError::MarkerNotFound`]; offsets that do not
/// delimit a section of `buf` (the end not after the start) as [`ParserError::LogicBug`].
pub fn line_positions(buf: &str, start: Option<usize>, end: Option<usize>) -> (r: Result<
    (usize, usize),
    ParserError,
>)
    ensures
        reports(
            r,
            location_of(
                buf.spec_bytes(),
                match start {
                    Some(i) => Some(i as int),
                    None => None,
                },
                match end {
                    Some(j) => Some(j as int),
                    None => None,
                },
            ),
        ),
{
    let b = buf.as_bytes();
    match start {
        None => Err(ParserError::MarkerNotFound(Marker::Start)),
        Some(i) => match end {
            None => Err(ParserError::MarkerNotFound(Marker::End)),
            Some(j) => {
                if i < j && j < b.len() {
                    let s = count_newlines_before(b, i);
                    let e = count_newlines_before(b, j);
                    Ok((s, e))
                } else {
                    Err(
                        ParserError::LogicBug(
                            String::from_str("the end marker does not follow the start marker"),
                        ),
                    )
                }
            },
        },
    }
}

/// The line numbers of the first occurrences of `re_start` and `re_end` in `buf`, both taken
/// literally.
///
/// A marker that cannot be compiled into a search pattern gives
/// [`ParserError::RegexError`], and only such a marker does.
pub fn get_block_positions(buf: &str, re_start: &str, re_end: &str) -> (r: Result<
    (usize, usize),
    ParserError,
>)
    ensures
        (r matches Err(ParserError::RegexError(_))) <==> !(literal_compiles(re_start@)
            && literal_compiles(re_end@)),
        literal_compiles(re_start@) && literal_compiles(re_end@) ==> reports(
            r,
            locate_spec(buf.spec_bytes(), re_start.spec_bytes(), re_end.spec_bytes()),
        ),
{
    let start = match find_literal(buf, re_start) {
        Ok(found) => found,
        Err(e) => return Err(ParserError::RegexError(e)),
    };
    let end = match find_literal(buf, re_end) {
        Ok(found) => found,
        Err(e) => return Err(ParserError::RegexError(e)),
    };
    proof {
        lemma_find_from(buf.spec_bytes(), re_start.spec_bytes(), 0);
        lemma_find_from(buf.spec_bytes(), re_end.spec_bytes(), 0);
    }
    line_positions(buf, start, end)
}

/// The start and end marker of the section `block`, as bytes.
pub open spec fn marker_bytes(block: Seq<char>) -> (Seq<u8>, Seq<u8>) {
    (
        vstd::utf8::encode_utf8(start_marker_text(block)),
        vstd::utf8::encode_utf8(end_marker_text(block)),
    )
}

/// The UTF-8 encoding of characters other than the newline holds no newline byte: the one byte
/// of an ASCII character is its code, and the bytes of a longer encoding are all at least 0x80.
pub proof fn lemma_encode_no_newline(cs: Seq<char>)
    requires
        !cs.contains('\n'),
    ensures
        !vstd::utf8::encode_utf8(cs).contains(NEWLINE),
    decreases cs.len(),
{
    if cs.len() > 0 {
        let rest = cs.drop_first();
        assert(!rest.contains('\n')) by {
            if rest.contains('\n') {
                let k = choose|k: int| 0 <= k < rest.len() && rest[k] == '\n';
                assert(cs[k + 1] == '\n');
            }
        }
        lemma_encode_no_newline(rest);
        let c = cs[0];
        assert(c != '\n');
        let u = c as u32;
        vstd::utf8::char_u32_cast(c, u);
        vstd::utf8::char_u32_cast('\n', '\n' as u32);
        assert('\n' as u32 == 10u32);
        assert(u != 10u32);
        let first = vstd::utf8::encode_scalar(u);
        assert(forall|y: u8| #[trigger] (0x80u8 | y) != 10u8) by (bit_vector);
        assert(forall|y: u8| #[trigger] (0xC0u8 | y) != 10u8) by (bit_vector);
        assert(forall|y: u8| #[trigger] (0xE0u8 | y) != 10u8) by (bit_vector);
        assert(forall|y: u8| #[trigger] (0xF0u8 | y) != 10u8) by (bit_vector);
        assert(forall|v: u32| v <= 0x7F && v != 10 ==> #[trigger] ((v & 0x7F) as u8) != 10u8)
            by (bit_vector);
        assert(!first.contains(NEWLINE));
        let all = vstd::utf8::encode_utf8(cs);
        assert(all == first + vstd::utf8::encode_utf8(rest));
        if all.contains(NEWLINE) {
            let k = choose|k: int| 0 <= k < all.len() && all[k] == NEWLINE;
            if k < first.len() {
                assert(first[k] == NEWLINE);
            } else {
                assert(vstd::utf8::encode_utf8(rest)[k - first.len()] == NEWLINE);
            }
        }
    }
}

/// A marker of a section whose name holds no newline holds no newline byte.
pub proof fn lemma_marker_no_newline(m: Marker, name: Seq<char>)
    requires
        !name.contains('\n'),
    ensures
        !vstd::utf8::encode_utf8(crate::marker::marker_text(m, name)).contains(NEWLINE),
{
    reveal_strlit("<!--");
    reveal_strlit("START");
    reveal_strlit("END");
    reveal_strlit("_SECTION:");
    reveal_strlit("-->");
    let cs = crate::marker::marker_text(m, name);
    let before = "<!--"@ + crate::marker::marker_label(m) + "_SECTION:"@;
    assert(!cs.contains('\n')) by {
        if cs.contains('\n') {
            let k = choose|k: int| 0 <= k < cs.len() && cs[k] == '\n';
            if k >= before.len() && k < before.len() + name.len() {
                assert(name[k - before.len()] == '\n');
            }
        }
    }
    lemma_encode_no_newline(cs);
}

/// Whether both markers of the section `name` compile into search patterns.
pub open spec fn markers_compile(name: Seq<char>) -> bool {
    literal_compiles(start_marker_text(name)) && literal_compiles(end_marker_text(name))
}

/// The lines of the start and end markers of the section `block` in `buf`.
///
/// [`ParserError::RegexError`] comes exactly when a marker does not compile into a search
/// pattern.
pub fn locate(buf: &str, block: &CommentBlock) -> (r: Result<(usize, usize), ParserError>)
    ensures
        (r matches Err(ParserError::RegexError(_))) <==> !markers_compile(block@),
        markers_compile(block@) ==> reports(
            r,
            locate_spec(buf.spec_bytes(), marker_bytes(block@).0, marker_bytes(block@).1),
        ),
{
    let start = block.start_marker();
    let end = block.end_marker();
    get_block_positions(buf, start.as_str(), end.as_str())
}

} // verus!
