//! Section markers: the comments that open and close a managed section.
use vstd::prelude::*;
use vstd::string::*;

verus! {

/// Which end of a section a marker delimits.
#[derive(Debug, Clone, Copy, PartialEq, Eq, Structural)]
pub enum Marker {
    /// The closing marker.
    End,
    /// The opening marker.
    Start,
}

/// The word that names an end of a section inside its marker.
pub open spec fn marker_label(m: Marker) -> Seq<char> {
    match m {
        Marker::Start => "START"@,
        Marker::End => "END"@,
    }
}

/// The marker comment `<!--{label}_SECTION:{name}-->`.
pub open spec fn marker_text(m: Marker, name: Seq<char>) -> Seq<char> {
    "<!--"@ + marker_label(m) + "_SECTION:"@ + name + "-->"@
}

/// The marker comment that opens the section `name`.
pub open spec fn start_marker_text(name: Seq<char>) -> Seq<char> {
    marker_text(Marker::Start, name)
}

/// The marker comment that closes the section `name`.
pub open spec fn end_marker_text(name: Seq<char>) -> Seq<char> {
    marker_text(Marker::End, name)
}

impl Marker {
    /// The word that names this end inside a marker comment: `START` or `END`.
    pub fn label(&self) -> (r: &'static str)
        ensures
            r@ == marker_label(*self),
    {
        match self {
            Marker::Start => "START",
            Marker::End => "END",
        }
    }
}

/// Whether `c` has the Unicode `White_Space` property, which is what `char::is_whitespace`
/// tests.
pub open spec fn white_space(c: char) -> bool {
    let u = c as u32;
    (0x9 <= u <= 0xd) || u == 0x20 || u == 0x85 || u == 0xa0 || u == 0x1680 || (0x2000 <= u
        <= 0x200a) || u == 0x2028 || u == 0x2029 || u == 0x202f || u == 0x205f || u == 0x3000
}

/// `s` without its leading white space.
pub open spec fn trim_start_spec(s: Seq<char>) -> Seq<char>
    decreases s.len(),
{
    if s.len() > 0 && white_space(s[0]) {
        trim_start_spec(s.drop_first())
    } else {
        s
    }
}

/// `s` without its trailing white space.
pub open spec fn trim_end_spec(s: Seq<char>) -> Seq<char>
    decreases s.len(),
{
    if s.len() > 0 && white_space(s.last()) {
        trim_end_spec(s.drop_last())
    } else {
        s
    }
}

/// `s` without leading and trailing white space.
pub open spec fn trim_spec(s: Seq<char>) -> Seq<char> {
    trim_end_spec(trim_start_spec(s))
}

/// Whether `c` is white space.
pub fn is_white_space(c: char) -> (r: bool)
    ensures
        r == white_space(c),
{
    let u = c as u32;
    (0x9 <= u && u <= 0xd) || u == 0x20 || u == 0x85 || u == 0xa0 || u == 0x1680 || (0x2000 <= u
        && u <= 0x200a) || u == 0x2028 || u == 0x2029 || u == 0x202f || u == 0x205f || u == 0x3000
}

proof fn lemma_trim_start_skip(s: Seq<char>, i: int)
    requires
        0 <= i <= s.len(),
        forall|k: int| 0 <= k < i ==> white_space(#[trigger] s[k]),
    ensures
        trim_start_spec(s) == trim_start_spec(s.subrange(i, s.len() as int)),
    decreases i,
{
    if i > 0 {
        lemma_trim_start_skip(s.drop_first(), i - 1);
        assert(s.drop_first().subrange(i - 1, s.len() - 1) =~= s.subrange(i, s.len() as int));
    } else {
        assert(s.subrange(0, s.len() as int) =~= s);
    }
}

proof fn lemma_trim_end_skip(s: Seq<char>, j: int)
    requires
        0 <= j <= s.len(),
        forall|k: int| j <= k < s.len() ==> white_space(#[trigger] s[k]),
    ensures
        trim_end_spec(s) == trim_end_spec(s.subrange(0, j)),
    decreases s.len() - j,
{
    if j < s.len() {
        lemma_trim_end_skip(s.drop_last(), j);
        assert(s.drop_last().subrange(0, j) =~= s.subrange(0, j));
    } else {
        assert(s.subrange(0, j) =~= s);
    }
}

/// `s` without leading and trailing white space.
pub fn trim(s: &str) -> (r: String)
    ensures
        r@ == trim_spec(s@),
{
    let n = s.unicode_len();
    let mut i: usize = 0;
    while i < n && is_white_space(s.get_char(i))
        invariant
            n == s@.len(),
            i <= n,
            forall|k: int| 0 <= k < i ==> white_space(#[trigger] s@[k]),
        decreases n - i,
    {
        i = i + 1;
    }
    let mut j: usize = n;
    while j > i && is_white_space(s.get_char(j - 1))
        invariant
            n == s@.len(),
            i <= j <= n,
            forall|k: int| j <= k < n ==> white_space(#[trigger] s@[k]),
        decreases j - i,
    {
        j = j - 1;
    }
    proof {
        lemma_trim_start_skip(s@, i as int);
        let rest = s@.subrange(i as int, n as int);
        assert(trim_start_spec(rest) == rest);
        lemma_trim_end_skip(rest, j - i);
        let kept = rest.subrange(0, j - i);
        assert(kept =~= s@.subrange(i as int, j as int));
        assert(trim_end_spec(kept) == kept);
    }
    s.substring_char(i, j).to_string()
}

/// The marker comment `<!--{label}_SECTION:{name}-->` for the end `m` of the section `name`.
pub fn section_marker(m: Marker, name: &str) -> (r: String)
    ensures
        r@ == marker_text(m, name@),
{
    let mut r = String::from_str("<!--");
    r.append(m.label());
    r.append("_SECTION:");
    r.append(name);
    r.append("-->");
    r
}

/// A named section of a text file, delimited by a start and an end marker comment.
#[derive(Debug)]
pub struct CommentBlock {
    section_name: String,
    marker: (Marker, Marker),
}

impl View for CommentBlock {
    type V = Seq<char>;

    /// The section name.
    closed spec fn view(&self) -> Seq<char> {
        self.section_name@
    }
}

impl CommentBlock {
    #[verifier::type_invariant]
    spec fn markers_fixed(&self) -> bool {
        self.marker == (Marker::Start, Marker::End)
    }

    /// A block for the section `section_name`, with surrounding white space removed.
    pub fn new(section_name: String) -> (r: Self)
        ensures
            r@ == trim_spec(section_name@),
    {
        CommentBlock { section_name: trim(section_name.as_str()), marker: (Marker::Start, Marker::End) }
    }

    /// The section name.
    pub fn section_name(&self) -> (r: &str)
        ensures
            r@ == self@,
    {
        self.section_name.as_str()
    }

    fn marker_for(&self, m: Marker) -> (r: String)
        ensures
            r@ == marker_text(m, self@),
    {
        section_marker(m, self.section_name.as_str())
    }

    /// The marker that opens the section: `<!--START_SECTION:{name}-->`.
    pub fn start_marker(&self) -> (r: String)
        ensures
            r@ == start_marker_text(self@),
    {
        proof {
            use_type_invariant(self);
        }
        self.marker_for(self.marker.0)
    }

    /// The marker that closes the section: `<!--END_SECTION:{name}-->`.
    pub fn end_marker(&self) -> (r: String)
        ensures
            r@ == end_marker_text(self@),
    {
        proof {
            use_type_invariant(self);
        }
        self.marker_for(self.marker.1)
    }
}

} // verus!
