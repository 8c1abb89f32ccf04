use vstd::prelude::*;
use vstd::string::StringSliceAdditionalSpecFns;
use vstd::utf8::*;

use crate::lines::{bytes_of_all, lines_of, split_lines};

verus! {

broadcast use vstd::utf8::group_utf8_lib;

/// `needle` occurs in `hay` starting at byte `i`.
pub open spec fn occurs_at(hay: Seq<u8>, needle: Seq<u8>, i: int) -> bool {
    0 <= i && i + needle.len() <= hay.len() && hay.subrange(i, i + needle.len()) == needle
}

/// `needle` is a contiguous run of bytes of `hay`.
pub open spec fn contains(hay: Seq<u8>, needle: Seq<u8>) -> bool {
    exists|i: int| occurs_at(hay, needle, i)
}

/// Whether `needle` occurs in `hay` at byte `i`, compared byte by byte.
fn occurs_at_exec(hay: &[u8], needle: &[u8], i: usize) -> (r: bool)
    requires
        i + needle@.len() <= hay@.len(),
    ensures
        r == occurs_at(hay@, needle@, i as int),
{
    let m = needle.len();
    let n = hay.len();
    let mut k: usize = 0;
    while k < m
        invariant
            m == needle@.len(),
            n == hay@.len(),
            i + m <= hay@.len(),
            k <= m,
            forall|t: int| 0 <= t < k ==> hay@[i + t] == needle@[t],
        decreases m - k,
    {
        if hay[i + k] != needle[k] {
            assert(hay@.subrange(i as int, i + m)[k as int] != needle@[k as int]);
            return false;
        }
        k = k + 1;
    }
    assert(hay@.subrange(i as int, i + m) =~= needle@);
    true
}

/// Whether `line` contains `query` as a contiguous run of bytes. The empty
/// query is contained in every line.
pub fn line_contains(line: &str, query: &str) -> (r: bool)
    ensures
        r == contains(line.spec_bytes(), query.spec_bytes()),
{
    let hay = line.as_bytes();
    let needle = query.as_bytes();
    let n = hay.len();
    let m = needle.len();
    if m > n {
        return false;
    }
    let mut i: usize = 0;
    loop
        invariant
            hay@ == line.spec_bytes(),
            needle@ == query.spec_bytes(),
            n == hay@.len(),
            m == needle@.len(),
            m <= n,
            i <= n - m,
            forall|t: int| 0 <= t < i ==> !occurs_at(hay@, needle@, t),
        decreases n - m - i,
    {
        if occurs_at_exec(hay, needle, i) {
            assert(occurs_at(hay@, needle@, i as int));
            return true;
        }
        if i == n - m {
            assert forall|t: int| !occurs_at(hay@, needle@, t) by {
                if occurs_at(hay@, needle@, t) {
                    assert(t <= i);
                }
            }
            return false;
        }
        i = i + 1;
    }
}

/// The lowercase form of a string, character by character as Unicode
/// defines it.
pub uninterp spec fn lower_of(s: Seq<char>) -> Seq<char>;

/// Relies on `str::to_lowercase`: the lowercase form depends on the
/// characters alone, and the empty string stays empty.
#[verifier::external_body]
fn to_lower(s: &str) -> (r: String)
    ensures
        r@ == lower_of(s@),
        s@.len() == 0 ==> r@.len() == 0,
{
    s.to_lowercase()
}

/// The bytes of a UTF-8 text after lowercasing it.
pub open spec fn folded(b: Seq<u8>) -> Seq<u8> {
    encode_utf8(lower_of(decode_utf8(b)))
}

/// A line is kept when it contains `query` byte for byte.
pub open spec fn has_query(query: Seq<u8>) -> spec_fn(Seq<u8>) -> bool {
    |l: Seq<u8>| contains(l, query)
}

/// A line is kept when its lowercase form contains the lowercase form of
/// `query`.
pub open spec fn has_query_any_case(query: Seq<u8>) -> spec_fn(Seq<u8>) -> bool {
    |l: Seq<u8>| contains(folded(l), folded(query))
}

/// The lines of `content` that contain `query`, in their original order.
pub open spec fn matching_lines(query: Seq<u8>, content: Seq<u8>) -> Seq<Seq<u8>> {
    lines_of(content).filter(has_query(query))
}

/// The lines of `content` that contain `query` when both are lowercased, in
/// their original order.
pub open spec fn matching_lines_any_case(query: Seq<u8>, content: Seq<u8>) -> Seq<Seq<u8>> {
    lines_of(content).filter(has_query_any_case(query))
}

/// A filter whose predicate holds everywhere keeps the whole sequence.
pub(crate) proof fn lemma_filter_keeps_all(ls: Seq<Seq<u8>>, pred: spec_fn(Seq<u8>) -> bool)
    requires
        forall|i: int| 0 <= i < ls.len() ==> pred(ls[i]),
    ensures
        ls.filter(pred) == ls,
    decreases ls.len(),
{
    reveal(Seq::filter);
    if ls.len() > 0 {
        lemma_filter_keeps_all(ls.drop_last(), pred);
        assert(ls.drop_last().push(ls.last()) =~= ls);
    }
}

/// The empty query occurs in every line.
proof fn lemma_empty_everywhere(l: Seq<u8>, q: Seq<u8>)
    requires
        q.len() == 0,
    ensures
        contains(l, q),
{
    assert(l.subrange(0, 0) =~= q);
    assert(occurs_at(l, q, 0));
}

/// The lines of `content` that contain `query`, in their original order,
/// compared byte for byte. An empty query keeps every line.
pub fn search<'a>(query: &str, content: &'a str) -> (r: Vec<&'a str>)
    ensures
        bytes_of_all(r@) == matching_lines(query.spec_bytes(), content.spec_bytes()),
        query@.len() == 0 ==> bytes_of_all(r@) == lines_of(content.spec_bytes()),
{
    let lines = split_lines(content);
    let ghost all = bytes_of_all(lines@);
    let ghost pred = has_query(query.spec_bytes());
    let mut results: Vec<&'a str> = Vec::new();
    let mut i: usize = 0;
    while i < lines.len()
        invariant
            all == bytes_of_all(lines@),
            all == lines_of(content.spec_bytes()),
            pred == has_query(query.spec_bytes()),
            i <= lines@.len(),
            bytes_of_all(results@) == all.take(i as int).filter(pred),
        decreases lines@.len() - i,
    {
        let line = lines[i];
        let ghost prev = results@;
        if line_contains(line, query) {
            results.push(line);
            assert(bytes_of_all(results@) =~= bytes_of_all(prev).push(line.spec_bytes()));
        }
        proof {
            reveal(Seq::filter);
            assert(all.take(i + 1).drop_last() =~= all.take(i as int));
        }
        i = i + 1;
    }
    assert(all.take(i as int) =~= all);
    proof {
        if query@.len() == 0 {
            assert(query.spec_bytes().len() == 0);
            assert forall|k: int| 0 <= k < all.len() implies pred(all[k]) by {
                lemma_empty_everywhere(all[k], query.spec_bytes());
            }
            lemma_filter_keeps_all(all, pred);
        }
    }
    results
}

/// The lines of `content` whose lowercase form contains the lowercase form of
/// `query`, in their original order and as they stand in `content`. The
/// query is lowercased once. An empty query keeps every line.
pub fn search_any_case<'a>(query: &str, content: &'a str) -> (r: Vec<&'a str>)
    ensures
        bytes_of_all(r@) == matching_lines_any_case(query.spec_bytes(), content.spec_bytes()),
        query@.len() == 0 ==> bytes_of_all(r@) == lines_of(content.spec_bytes()),
{
    let folded_query = to_lower(query);
    let needle = folded_query.as_str();
    let lines = split_lines(content);
    let ghost all = bytes_of_all(lines@);
    let ghost pred = has_query_any_case(query.spec_bytes());
    proof {
        assert(needle.spec_bytes() == folded(query.spec_bytes()));
    }
    let mut results: Vec<&'a str> = Vec::new();
    let mut i: usize = 0;
    while i < lines.len()
        invariant
            all == bytes_of_all(lines@),
            all == lines_of(content.spec_bytes()),
            pred == has_query_any_case(query.spec_bytes()),
            needle.spec_bytes() == folded(query.spec_bytes()),
            i <= lines@.len(),
            bytes_of_all(results@) == all.take(i as int).filter(pred),
        decreases lines@.len() - i,
    {
        let line = lines[i];
        let folded_line = to_lower(line);
        let hay = folded_line.as_str();
        let ghost prev = results@;
        proof {
            assert(hay.spec_bytes() == folded(line.spec_bytes()));
        }
        if line_contains(hay, needle) {
            results.push(line);
            assert(bytes_of_all(results@) =~= bytes_of_all(prev).push(line.spec_bytes()));
        }
        proof {
            reveal(Seq::filter);
            assert(all.take(i + 1).drop_last() =~= all.take(i as int));
        }
        i = i + 1;
    }
    assert(all.take(i as int) =~= all);
    proof {
        if query@.len() == 0 {
            assert(needle.spec_bytes().len() == 0) by {
                assert(needle@ =~= Seq::<char>::empty());
            }
            assert forall|k: int| 0 <= k < all.len() implies pred(all[k]) by {
                lemma_empty_everywhere(folded(all[k]), needle.spec_bytes());
            }
            lemma_filter_keeps_all(all, pred);
        }
    }
    results
}

} // verus!
