use vstd::prelude::*;
use vstd::string::StringSliceAdditionalSpecFns;
use vstd::utf8::*;

verus! {

broadcast use vstd::utf8::group_utf8_lib;

/// The line-feed byte that ends a line.
pub const LF: u8 = 10;

/// The carriage-return byte that may precede a line feed.
pub const CR: u8 = 13;

/// Index of the first line feed in `b` at or after `i`, or `b.len()` when
/// there is none.
pub open spec fn find_lf(b: Seq<u8>, i: int) -> int
    decreases b.len() - i,
{
    if i < 0 || i >= b.len() {
        b.len() as int
    } else if b[i] == LF {
        i
    } else {
        find_lf(b, i + 1)
    }
}

/// A line without its carriage return, if it ended in `"\r\n"`.
pub open spec fn strip_cr(l: Seq<u8>) -> Seq<u8> {
    if l.len() > 0 && l.last() == CR {
        l.drop_last()
    } else {
        l
    }
}

/// The lines of a buffer: pieces separated by `"\n"` or `"\r\n"`, with the
/// terminators removed. A final terminator is optional and does not start a
/// further, empty line; an empty buffer has no lines.
pub open spec fn lines_of(b: Seq<u8>) -> Seq<Seq<u8>>
    decreases b.len(),
{
    if b.len() == 0 {
        seq![]
    } else {
        let k = find_lf(b, 0);
        if 0 <= k < b.len() {
            seq![strip_cr(b.subrange(0, k))] + lines_of(b.subrange(k + 1, b.len() as int))
        } else {
            seq![b]
        }
    }
}

/// The bytes of each string in a sequence of string slices.
pub open spec fn bytes_of_all(v: Seq<&str>) -> Seq<Seq<u8>> {
    v.map_values(|s: &str| s.spec_bytes())
}

proof fn lemma_find_lf_bounds(b: Seq<u8>, i: int)
    requires
        0 <= i <= b.len(),
    ensures
        i <= find_lf(b, i) <= b.len(),
        find_lf(b, i) < b.len() ==> b[find_lf(b, i)] == LF,
    decreases b.len() - i,
{
    if i < b.len() && b[i] != LF {
        lemma_find_lf_bounds(b, i + 1);
    }
}

/// Splits `content` into its lines, each a slice of `content`, in order.
pub fn split_lines<'a>(content: &'a str) -> (r: Vec<&'a str>)
    ensures
        bytes_of_all(r@) == lines_of(content.spec_bytes()),
{
    let mut out: Vec<&'a str> = Vec::new();
    let mut rest: &'a str = content;
    while !rest.is_empty()
        invariant
            bytes_of_all(out@) + lines_of(rest.spec_bytes()) == lines_of(content.spec_bytes()),
        decreases rest.spec_bytes().len(),
    {
        let ghost rb = rest.spec_bytes();
        let bytes = rest.as_bytes();
        let n = bytes.len();
        let mut j: usize = 0;
        while j < n && bytes[j] != LF
            invariant
                n == rb.len(),
                bytes@ == rb,
                j <= n,
                find_lf(rb, j as int) == find_lf(rb, 0),
            decreases n - j,
        {
            j = j + 1;
        }
        proof {
            lemma_find_lf_bounds(rb, 0);
            lemma_find_lf_bounds(rb, j as int);
            assert(rb.subrange(0, n as int) =~= rb);
            encode_utf8_valid_utf8(rest@);
            is_char_boundary_start_end_of_seq(rb);
            if j < n {
                is_char_boundary_iff_not_is_continuation_byte(rb, j as int);
            }
        }
        let (line, tail) = rest.split_at(j);
        let ghost lb = line.spec_bytes();
        let ghost tb = tail.spec_bytes();
        let ghost prev = out@;
        if j == n {
            proof {
                assert(lb =~= rb);
                assert(lines_of(tb) =~= Seq::<Seq<u8>>::empty());
            }
            out.push(line);
            proof {
                assert(bytes_of_all(out@) =~= bytes_of_all(prev).push(lb));
                assert(bytes_of_all(out@) + lines_of(tb) =~= bytes_of_all(prev) + lines_of(rb));
            }
            rest = tail;
        } else {
            proof {
                reveal_with_fuel(is_char_boundary, 2);
            }
            let (_, after) = tail.split_at(1);
            let ghost ab = after.spec_bytes();
            proof {
                assert(ab =~= rb.subrange(j + 1, n as int));
                encode_utf8_valid_utf8(line@);
                if j > 0 {
                    is_char_boundary_iff_not_is_continuation_byte(lb, j - 1);
                }
            }
            let kept = if j > 0 && bytes[j - 1] == CR {
                line.split_at(j - 1).0
            } else {
                line
            };
            proof {
                assert(kept.spec_bytes() =~= strip_cr(rb.subrange(0, j as int)));
            }
            out.push(kept);
            proof {
                assert(bytes_of_all(out@) =~= bytes_of_all(prev).push(kept.spec_bytes()));
                assert(bytes_of_all(out@) + lines_of(ab) =~= bytes_of_all(prev) + lines_of(rb));
            }
            rest = after;
        }
    }
    assert(rest.spec_bytes().len() == 0) by {
        assert(rest@ =~= Seq::<char>::empty());
    }
    assert(lines_of(rest.spec_bytes()) =~= Seq::<Seq<u8>>::empty());
    assert(bytes_of_all(out@) + Seq::<Seq<u8>>::empty() =~= bytes_of_all(out@));
    out
}

} // verus!
