use vstd::prelude::*;
use vstd::string::StringSliceAdditionalSpecFns;
use vstd::utf8::*;

use crate::lines::{bytes_of_all, lines_of};
use crate::matching::{
    contains, lemma_filter_keeps_all, occurs_at, folded, has_query, has_query_any_case, matching_lines, matching_lines_any_case,
};

verus! {

broadcast use {vstd::seq_lib::group_filter_ensures, vstd::utf8::group_utf8_lib};

/// What a filter keeps comes from the filtered sequence.
proof fn lemma_filter_from_source(ls: Seq<Seq<u8>>, pred: spec_fn(Seq<u8>) -> bool)
    ensures
        forall|i: int| 0 <= i < ls.filter(pred).len() ==> ls.contains(#[trigger] ls.filter(pred)[i]),
    decreases ls.len(),
{
    reveal(Seq::filter);
    if ls.len() > 0 {
        let init = ls.drop_last();
        lemma_filter_from_source(init, pred);
        assert forall|i: int| 0 <= i < ls.filter(pred).len() implies ls.contains(
            #[trigger] ls.filter(pred)[i],
        ) by {
            if i < init.filter(pred).len() {
                let j = choose|j: int| 0 <= j < init.len() && init[j] == init.filter(pred)[i];
                assert(ls[j] == init[j]);
            } else {
                assert(ls[ls.len() - 1] == ls.filter(pred)[i]);
            }
        }
    }
}

/// A filter keeps exactly the elements that meet its predicate.
proof fn lemma_filter_exact(ls: Seq<Seq<u8>>, pred: spec_fn(Seq<u8>) -> bool)
    ensures
        forall|i: int|
            0 <= i < ls.filter(pred).len() ==> pred(#[trigger] ls.filter(pred)[i]) && ls.contains(
                ls.filter(pred)[i],
            ),
        forall|i: int| 0 <= i < ls.len() && pred(#[trigger] ls[i]) ==> ls.filter(pred).contains(ls[i]),
{
    lemma_filter_from_source(ls, pred);
    assert forall|i: int| 0 <= i < ls.len() && pred(#[trigger] ls[i]) implies ls.filter(
        pred,
    ).contains(ls[i]) by {
        ls.lemma_filter_contains(pred, i);
    }
}

/// A case-sensitive search keeps exactly the lines that contain the query:
/// every line it returns is a line of the content containing the query, and
/// every line of the content containing the query is among those returned.
pub proof fn lemma_search_selects(query: Seq<u8>, content: Seq<u8>)
    ensures
        forall|i: int|
            0 <= i < matching_lines(query, content).len() ==> {
                let l = #[trigger] matching_lines(query, content)[i];
                contains(l, query) && lines_of(content).contains(l)
            },
        forall|i: int|
            0 <= i < lines_of(content).len() && contains(#[trigger] lines_of(content)[i], query)
                ==> matching_lines(query, content).contains(lines_of(content)[i]),
{
    lemma_filter_exact(lines_of(content), has_query(query));
}

/// A case-insensitive search keeps exactly the lines whose lowercase form
/// contains the lowercase form of the query: every line it returns is such
/// a line of the content, and every such line is among those returned.
pub proof fn lemma_search_any_case_selects(query: Seq<u8>, content: Seq<u8>)
    ensures
        forall|i: int|
            0 <= i < matching_lines_any_case(query, content).len() ==> {
                let l = #[trigger] matching_lines_any_case(query, content)[i];
                contains(folded(l), folded(query)) && lines_of(content).contains(l)
            },
        forall|i: int|
            0 <= i < lines_of(content).len() && contains(
                folded(#[trigger] lines_of(content)[i]),
                folded(query),
            ) ==> matching_lines_any_case(query, content).contains(lines_of(content)[i]),
{
    lemma_filter_exact(lines_of(content), has_query_any_case(query));
}

/// Searching depends on the query and the content alone: two searches with
/// the same inputs, in either mode, return equal lines, element by element.
pub proof fn lemma_search_repeatable(
    query: &str,
    content: &str,
    first: Seq<&str>,
    second: Seq<&str>,
    case_sensitive: bool,
)
    requires
        case_sensitive ==> bytes_of_all(first) == matching_lines(
            query.spec_bytes(),
            content.spec_bytes(),
        ),
        case_sensitive ==> bytes_of_all(second) == matching_lines(
            query.spec_bytes(),
            content.spec_bytes(),
        ),
        !case_sensitive ==> bytes_of_all(first) == matching_lines_any_case(
            query.spec_bytes(),
            content.spec_bytes(),
        ),
        !case_sensitive ==> bytes_of_all(second) == matching_lines_any_case(
            query.spec_bytes(),
            content.spec_bytes(),
        ),
    ensures
        first.len() == second.len(),
        forall|i: int| 0 <= i < first.len() ==> (#[trigger] first[i])@ == second[i]@,
{
    assert(bytes_of_all(first).len() == bytes_of_all(second).len());
    assert forall|i: int| 0 <= i < first.len() implies (#[trigger] first[i])@ == second[i]@ by {
        assert(bytes_of_all(first)[i] == bytes_of_all(second)[i]);
        assert(decode_utf8(first[i].spec_bytes()) == decode_utf8(second[i].spec_bytes()));
    }
}

/// The empty query matches every line: a case-sensitive search for it
/// returns the content's lines unchanged.
pub proof fn lemma_empty_query_keeps_every_line(content: Seq<u8>)
    ensures
        matching_lines(Seq::empty(), content) == lines_of(content),
{
    let ls = lines_of(content);
    assert forall|k: int| 0 <= k < ls.len() implies has_query(Seq::empty())(ls[k]) by {
        assert(ls[k].subrange(0, 0) =~= Seq::<u8>::empty());
        assert(occurs_at(ls[k], Seq::empty(), 0));
    }
    lemma_filter_keeps_all(ls, has_query(Seq::empty()));
}

} // verus!
