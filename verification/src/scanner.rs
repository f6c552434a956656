use crate::encoding::{cannot_start_scalar, lemma_cannot_start_scalar, utf8_range_valid};
use crate::error::SaveEditorError;
use vstd::prelude::*;
use vstd::utf8::valid_utf8;

verus! {

/// Index of the first newline byte in `s`, or `s.len()` when there is none.
pub open spec fn find_nl(s: Seq<u8>) -> int
    decreases s.len(),
{
    if s.len() == 0 {
        0
    } else if s[0] == 10 {
        0
    } else {
        1 + find_nl(s.subrange(1, s.len() as int))
    }
}

/// `find_nl` points at the first newline: nothing before it is a newline,
/// and it is a newline unless the sequence has none at all.
pub proof fn lemma_find_nl_bounds(s: Seq<u8>)
    ensures
        0 <= find_nl(s) <= s.len(),
        find_nl(s) < s.len() ==> s[find_nl(s)] == 10,
        forall|j: int| 0 <= j < find_nl(s) ==> s[j] != 10,
    decreases s.len(),
{
    if s.len() > 0 && s[0] != 10 {
        let t = s.subrange(1, s.len() as int);
        lemma_find_nl_bounds(t);
        assert forall|j: int| 0 <= j < find_nl(s) implies s[j] != 10 by {
            if j > 0 {
                assert(t[j - 1] == s[j]);
            }
        }
    }
}

/// Any position with no newline strictly before it, and a newline (or the
/// end of the sequence) at it, is where `find_nl` points.
pub proof fn lemma_find_nl_is(s: Seq<u8>, k: int)
    requires
        0 <= k <= s.len(),
        forall|j: int| 0 <= j < k ==> s[j] != 10,
        k < s.len() ==> s[k] == 10,
    ensures
        find_nl(s) == k,
    decreases s.len(),
{
    if k == 0 {
    } else {
        lemma_find_nl_is(s.subrange(1, s.len() as int), k - 1);
    }
}

/// Byte offset where the line-oriented header ends and the binary payload
/// begins: the total length of the leading run of newline-split lines that
/// decode as UTF-8, up to the first line that does not. `None` when every
/// line decodes, that is, when the stream holds no payload at all.
pub open spec fn header_end(s: Seq<u8>) -> Option<int>
    decreases s.len(),
    via header_end_decreases
{
    if s.len() == 0 {
        None
    } else {
        let k = find_nl(s);
        if !valid_utf8(s.subrange(0, k)) {
            Some(0)
        } else if k == s.len() {
            None
        } else {
            match header_end(s.subrange(k + 1, s.len() as int)) {
                Some(o) => Some(k + 1 + o),
                None => None,
            }
        }
    }
}

#[via_fn]
proof fn header_end_decreases(s: Seq<u8>) {
    lemma_find_nl_bounds(s);
}

/// Shifts an offset that was computed relative to a suffix back to the
/// enclosing stream.
pub open spec fn shift_opt(o: Option<int>, d: int) -> Option<int> {
    match o {
        Some(k) => Some(k + d),
        None => None,
    }
}

/// Finds the byte offset where the header of the given container ends and
/// the compressed payload begins: lines are read as newline-terminated
/// UTF-8 text, and the first line that fails to decode marks the start of
/// the payload. A stream whose every line decodes has no payload and is
/// rejected as `BadFormat`.
pub fn header_length(save: &Vec<u8>) -> (r: Result<usize, SaveEditorError>)
    ensures
        r matches Ok(n) ==> header_end(save@) == Some(n as int) && n <= save@.len(),
        r matches Err(e) ==> header_end(save@) is None && e == SaveEditorError::BadFormat,
{
    let n = save.len();
    proof {
        assert(save@.subrange(0, n as int) =~= save@);
    }
    let mut start: usize = 0;
    loop
        invariant
            0 <= start <= n,
            n == save@.len(),
            header_end(save@) == shift_opt(
                header_end(save@.subrange(start as int, n as int)),
                start as int,
            ),
        decreases n - start,
    {
        let ghost rest = save@.subrange(start as int, n as int);
        if start == n {
            assert(rest.len() == 0);
            return Err(SaveEditorError::BadFormat);
        }
        let mut j = start;
        while j < n && *vstd::slice::slice_index_get(save.as_slice(), j) != 10
            invariant
                start <= j <= n,
                n == save@.len(),
                forall|m: int| start <= m < j ==> save@[m] != 10,
            decreases n - j,
        {
            j = j + 1;
        }
        proof {
            lemma_find_nl_is(rest, j - start);
        }
        let valid = utf8_range_valid(save, start, j);
        proof {
            assert(rest.subrange(0, j - start) =~= save@.subrange(start as int, j as int));
        }
        if !valid {
            assert(header_end(rest) == Some(0int));
            return Ok(start);
        }
        if j == n {
            assert(header_end(rest) is None);
            return Err(SaveEditorError::BadFormat);
        }
        proof {
            assert(rest.subrange(j - start + 1, rest.len() as int) =~= save@.subrange(
                j + 1,
                n as int,
            ));
        }
        start = j + 1;
    }
}

/// A header region: a run of newline-terminated lines, each valid UTF-8.
pub open spec fn newline_terminated_text(h: Seq<u8>) -> bool
    decreases h.len(),
    via newline_terminated_text_decreases
{
    h.len() == 0 || {
        let k = find_nl(h);
        &&& k < h.len()
        &&& valid_utf8(h.subrange(0, k))
        &&& newline_terminated_text(h.subrange(k + 1, h.len() as int))
    }
}

#[via_fn]
proof fn newline_terminated_text_decreases(h: Seq<u8>) {
    lemma_find_nl_bounds(h);
}

/// Law (header boundary determinism): for a container built from a header
/// of newline-terminated UTF-8 lines followed by a payload whose first byte
/// cannot continue a UTF-8 text stream, the scanner finds exactly the
/// header's length.
pub proof fn lemma_header_boundary(h: Seq<u8>, p: Seq<u8>)
    requires
        newline_terminated_text(h),
        p.len() > 0,
        cannot_start_scalar(p[0]),
    ensures
        header_end(h + p) == Some(h.len() as int),
    decreases h.len(),
{
    lemma_find_nl_bounds(h);
    lemma_find_nl_bounds(p);
    if h.len() == 0 {
        assert(h + p =~= p);
        let k = find_nl(p);
        assert(p[0] != 10);
        assert(k >= 1) by {
            if k == 0 {
                assert(p[k] == 10);
            }
        }
        let line = p.subrange(0, k);
        assert(line[0] == p[0]);
        lemma_cannot_start_scalar(line);
        assert(header_end(p) == Some(0int));
    } else {
        let k = find_nl(h);
        let s = h + p;
        assert(forall|j: int| 0 <= j < k ==> s[j] == h[j] && s[j] != 10);
        assert(s[k] == h[k] && h[k] == 10);
        lemma_find_nl_is(s, k);
        assert(s.subrange(0, k) =~= h.subrange(0, k));
        assert(s.subrange(k + 1, s.len() as int) =~= h.subrange(k + 1, h.len() as int) + p);
        lemma_header_boundary(h.subrange(k + 1, h.len() as int), p);
        assert(header_end(s) == Some(k + 1 + (h.len() - (k + 1))));
    }
}

} // verus!
