//! Markdown list items for repositories.
use vstd::prelude::*;
use vstd::string::*;
use vstd::utf8::{decode_utf8, encode_utf8, is_char_boundary};

use crate::model::{list_items, projects, GitRepo, GitRepoListItem};

verus! {

broadcast use vstd::utf8::encode_utf8_valid_utf8, vstd::utf8::encode_utf8_decode_utf8;

/// Longest description, in bytes, that a list item shows in full.
pub const DESC_WC: usize = 60;

/// The greatest character boundary of `b` that is at most `n`.
pub open spec fn floor_char_boundary(b: Seq<u8>, n: int) -> int
    decreases n,
{
    if n <= 0 {
        0
    } else if is_char_boundary(b, n) {
        n
    } else {
        floor_char_boundary(b, n - 1)
    }
}

/// The start of `desc` that a list item shows when `desc` is too long: its first `DESC_WC`
/// bytes, less a character cut in two at that point.
pub open spec fn truncated_description(desc: Seq<char>) -> Seq<char> {
    let b = encode_utf8(desc);
    decode_utf8(b.subrange(0, floor_char_boundary(b, DESC_WC as int)))
}

/// The Markdown list item for a repository with the given name, URL and description.
pub open spec fn list_item_text(name: Seq<char>, url: Seq<char>, desc: Seq<char>) -> Seq<char> {
    if desc.len() == 0 {
        "* ["@ + name + "]("@ + url + ")"@
    } else if encode_utf8(desc).len() > DESC_WC {
        "* ["@ + name + "]("@ + url + ") — "@ + truncated_description(desc) + "..."@
    } else {
        "* ["@ + name + "]("@ + url + ") — "@ + desc
    }
}

/// The Markdown list item for `i`: `* [name](url)`, followed by ` — ` and the description
/// unless it is empty; a description longer than `DESC_WC` bytes is cut and marked `...`.
pub fn fmt_markdown_list_item(i: &GitRepoListItem) -> (r: String)
    ensures
        r@ == list_item_text(i.name@, i.url@, i.description@),
{
    let d = i.description.as_str();
    let mut r = String::from_str("* [");
    r.append(i.name.as_str());
    r.append("](");
    r.append(i.url.as_str());
    if d.is_empty() {
        r.append(")");
        assert(r@ == list_item_text(i.name@, i.url@, i.description@));
    } else if d.as_bytes().len() > DESC_WC {
        let ghost b = d.spec_bytes();
        let mut cut: usize = DESC_WC;
        while cut > 0 && !d.is_char_boundary(cut)
            invariant
                cut <= DESC_WC < b.len(),
                b == d.spec_bytes(),
                floor_char_boundary(b, DESC_WC as int) == floor_char_boundary(b, cut as int),
            decreases cut,
        {
            cut = cut - 1;
        }
        proof {
            vstd::utf8::is_char_boundary_start_end_of_seq(b);
        }
        let (head, _rest) = d.split_at(cut);
        proof {
            assert(encode_utf8(head@) == b.subrange(0, cut as int));
            assert(head@ == decode_utf8(b.subrange(0, cut as int)));
            assert(floor_char_boundary(b, cut as int) == cut);
            assert(head@ == truncated_description(d@));
        }
        r.append(") — ");
        r.append(head);
        r.append("...");
        assert(r@ == list_item_text(i.name@, i.url@, i.description@));
    } else {
        r.append(") — ");
        r.append(d);
        assert(r@ == list_item_text(i.name@, i.url@, i.description@));
    }
    r
}

/// A description of exactly `DESC_WC` bytes is shown whole, and one of `DESC_WC + 1` bytes is
/// shown as exactly its first `DESC_WC` bytes followed by `...`.
///
/// The second part is stated for descriptions whose first `DESC_WC` bytes end on a character
/// boundary.
pub proof fn lemma_description_boundary(name: Seq<char>, url: Seq<char>, desc: Seq<char>)
    ensures
        encode_utf8(desc).len() == DESC_WC ==> list_item_text(name, url, desc) == "* ["@ + name
            + "]("@ + url + ") — "@ + desc,
        encode_utf8(desc).len() == DESC_WC + 1 && is_char_boundary(
            encode_utf8(desc),
            DESC_WC as int,
        ) ==> {
            let shown = truncated_description(desc);
            &&& list_item_text(name, url, desc) == "* ["@ + name + "]("@ + url + ") — "@ + shown
                + "..."@
            &&& encode_utf8(shown) == encode_utf8(desc).subrange(0, DESC_WC as int)
        },
{
    let b = encode_utf8(desc);
    if desc.len() == 0 {
        assert(b.len() == 0);
    }
    if b.len() == DESC_WC + 1 && is_char_boundary(b, DESC_WC as int) {
        assert(floor_char_boundary(b, DESC_WC as int) == DESC_WC);
        vstd::utf8::valid_utf8_split(b, DESC_WC as int);
        vstd::utf8::decode_utf8_encode_utf8(b.subrange(0, DESC_WC as int));
    }
}

/// The lines of a Markdown list: the list item of each of `items`, in order.
pub open spec fn list_lines(items: Seq<GitRepoListItem>) -> Seq<Seq<char>> {
    items.map_values(|i: GitRepoListItem| list_item_text(i.name@, i.url@, i.description@))
}

/// `ls` with a newline between each two.
pub open spec fn join_newline(ls: Seq<Seq<char>>) -> Seq<char>
    decreases ls.len(),
{
    if ls.len() == 0 {
        Seq::empty()
    } else if ls.len() == 1 {
        ls[0]
    } else {
        join_newline(ls.drop_last()) + "\n"@ + ls.last()
    }
}

/// The Markdown list for `items`: their list items joined with newlines.
pub fn markdown_list(items: &Vec<GitRepoListItem>) -> (r: String)
    ensures
        r@ == join_newline(list_lines(items@)),
{
    let mut r = String::new();
    let mut k: usize = 0;
    while k < items.len()
        invariant
            k <= items@.len(),
            r@ == join_newline(list_lines(items@.subrange(0, k as int))),
        decreases items@.len() - k,
    {
        let ghost prefix = list_lines(items@.subrange(0, k as int + 1));
        assert(prefix.drop_last() =~= list_lines(items@.subrange(0, k as int)));
        if k > 0 {
            r.append("\n");
        }
        let line = fmt_markdown_list_item(&items[k]);
        r.append(line.as_str());
        k = k + 1;
        assert(r@ =~= join_newline(prefix));
    }
    assert(items@.subrange(0, items@.len() as int) =~= items@);
    r
}

/// The Markdown list for `repos`: one list item per record, in order.
pub fn markdown_body(repos: &Vec<GitRepo>) -> (r: String)
    ensures
        exists|items: Seq<GitRepoListItem>|
            projects(items, repos@) && r@ == join_newline(#[trigger] list_lines(items)),
{
    let items = list_items(repos);
    markdown_list(&items)
}

} // verus!
