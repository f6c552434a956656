use crate::encoding::utf8_range_valid;
use crate::error::SaveEditorError;
use crate::scanner::{find_nl, lemma_find_nl_bounds, lemma_find_nl_is};
use vstd::prelude::*;
use vstd::utf8::{encode_utf8, valid_utf8};

verus! {

/// Segments of `s` delimited by newline bytes. The result always holds at
/// least one segment; an empty `s` yields one empty segment.
pub open spec fn split_lines(s: Seq<u8>) -> Seq<Seq<u8>>
    decreases s.len(),
    via split_lines_decreases
{
    let k = find_nl(s);
    if k == s.len() {
        seq![s]
    } else {
        seq![s.subrange(0, k)] + split_lines(s.subrange(k + 1, s.len() as int))
    }
}

#[via_fn]
proof fn split_lines_decreases(s: Seq<u8>) {
    lemma_find_nl_bounds(s);
}

/// The lines of header text `s`: segments split at newline bytes, where one
/// trailing newline terminates the last line rather than opening an empty
/// one, and empty text has no lines.
pub open spec fn lines_of(s: Seq<u8>) -> Seq<Seq<u8>> {
    if s.len() == 0 {
        Seq::empty()
    } else if s.last() == 10 {
        split_lines(s.drop_last())
    } else {
        split_lines(s)
    }
}

/// The given lines joined with single newline bytes, with no trailing
/// newline.
pub open spec fn join_lines(ls: Seq<Seq<u8>>) -> Seq<u8>
    decreases ls.len(),
{
    if ls.len() == 0 {
        Seq::empty()
    } else if ls.len() == 1 {
        ls[0]
    } else {
        ls[0] + seq![10u8] + join_lines(ls.subrange(1, ls.len() as int))
    }
}

/// A single line after field rewriting: a line that starts with `key`
/// becomes `key:=value`; any other line is kept unchanged.
pub open spec fn rewrite_line(line: Seq<u8>, key: Seq<u8>, value: Seq<u8>) -> Seq<u8> {
    if key.is_prefix_of(line) {
        key + seq![58u8, 61u8] + value
    } else {
        line
    }
}

/// Every line after field rewriting, in the original order.
pub open spec fn rewrite_lines(ls: Seq<Seq<u8>>, key: Seq<u8>, value: Seq<u8>) -> Seq<Seq<u8>> {
    Seq::new(ls.len(), |i: int| rewrite_line(ls[i], key, value))
}

/// Header text after rewriting the field `key` to `value`: the lines of the
/// input, each rewritten, joined with newlines.
pub open spec fn rewritten_header(h: Seq<u8>, key: Seq<u8>, value: Seq<u8>) -> Seq<u8> {
    join_lines(rewrite_lines(lines_of(h), key, value))
}

/// True when `p` occurs as a literal prefix of the bytes of `s` between
/// `start` and `end`.
fn range_has_prefix(s: &Vec<u8>, start: usize, end: usize, p: &[u8]) -> (b: bool)
    requires
        start <= end <= s.len(),
    ensures
        b == p@.is_prefix_of(s@.subrange(start as int, end as int)),
{
    let ghost sub = s@.subrange(start as int, end as int);
    let m = p.len();
    if m > end - start {
        return false;
    }
    let mut i: usize = 0;
    while i < m
        invariant
            0 <= i <= m,
            m == p@.len(),
            start <= end <= s.len(),
            m <= end - start,
            sub == s@.subrange(start as int, end as int),
            forall|q: int| 0 <= q < i ==> p@[q] == sub[q],
        decreases m - i,
    {
        if *vstd::slice::slice_index_get(p, i) != s[start + i] {
            proof {
                assert(sub[i as int] == s@[start + i]);
                assert(sub.subrange(0, m as int)[i as int] == sub[i as int]);
            }
            return false;
        }
        i = i + 1;
    }
    proof {
        assert(p@ =~= sub.subrange(0, m as int));
    }
    true
}

/// Appends the bytes of `s` between `start` and `end` to `out`.
pub(crate) fn push_range(out: &mut Vec<u8>, s: &Vec<u8>, start: usize, end: usize)
    requires
        start <= end <= s.len(),
    ensures
        final(out)@ == old(out)@ + s@.subrange(start as int, end as int),
{
    proof {
        assert(old(out)@ + s@.subrange(start as int, start as int) =~= old(out)@);
    }
    let mut i = start;
    while i < end
        invariant
            start <= i <= end <= s.len(),
            out@ == old(out)@ + s@.subrange(start as int, i as int),
        decreases end - i,
    {
        let b = s[i];
        out.push(b);
        proof {
            assert(old(out)@ + s@.subrange(start as int, i + 1 as int) =~= (old(out)@
                + s@.subrange(start as int, i as int)).push(b));
        }
        i = i + 1;
    }
}

/// Appends all bytes of `p` to `out`.
fn push_slice(out: &mut Vec<u8>, p: &[u8])
    ensures
        final(out)@ == old(out)@ + p@,
{
    proof {
        assert(old(out)@ + p@.subrange(0, 0) =~= old(out)@);
    }
    let m = p.len();
    let mut i: usize = 0;
    while i < m
        invariant
            0 <= i <= m,
            m == p@.len(),
            out@ == old(out)@ + p@.subrange(0, i as int),
        decreases m - i,
    {
        let b = *vstd::slice::slice_index_get(p, i);
        out.push(b);
        proof {
            assert(old(out)@ + p@.subrange(0, i + 1 as int) =~= (old(out)@ + p@.subrange(
                0,
                i as int,
            )).push(b));
        }
        i = i + 1;
    }
    proof {
        assert(p@.subrange(0, p@.len() as int) =~= p@);
    }
}

/// One step of joining rewritten lines: splitting off the first line of
/// `rem` contributes that line, rewritten, plus a newline.
proof fn lemma_rewrite_step(rem: Seq<u8>, key: Seq<u8>, value: Seq<u8>)
    requires
        find_nl(rem) < rem.len(),
    ensures
        join_lines(rewrite_lines(split_lines(rem), key, value)) == rewrite_line(
            rem.subrange(0, find_nl(rem)),
            key,
            value,
        ) + seq![10u8] + join_lines(
            rewrite_lines(split_lines(rem.subrange(find_nl(rem) + 1, rem.len() as int)), key, value),
        ),
{
    lemma_find_nl_bounds(rem);
    let k = find_nl(rem);
    let rest = rem.subrange(k + 1, rem.len() as int);
    let rw = rewrite_lines(split_lines(rem), key, value);
    let rw_rest = rewrite_lines(split_lines(rest), key, value);
    assert(split_lines(rest).len() >= 1);
    assert(rw =~= seq![rewrite_line(rem.subrange(0, k), key, value)] + rw_rest);
    assert(rw.len() >= 2);
    assert(rw.subrange(1, rw.len() as int) =~= rw_rest);
    assert(join_lines(rw) == rw[0] + seq![10u8] + join_lines(rw_rest));
}

/// Rewrites the value of the header field `key`: in the unique line of the
/// UTF-8 header text that starts with `key`, the whole line is replaced by
/// `key:=value`; every other line is kept, in order, and the lines are
/// joined with single newlines. Header bytes that are not valid UTF-8 are
/// rejected as `BadFormat`; a key no line starts with leaves the lines
/// unchanged.
pub fn substitute_header_key(header: Vec<u8>, key: String, value: String) -> (r: Result<
    Vec<u8>,
    SaveEditorError,
>)
    ensures
        r is Ok <==> valid_utf8(header@),
        r matches Ok(out) ==> out@ == rewritten_header(
            header@,
            encode_utf8(key@),
            encode_utf8(value@),
        ),
        r matches Err(e) ==> e == SaveEditorError::BadFormat,
{
    let n = header.len();
    proof {
        assert(header@.subrange(0, n as int) =~= header@);
    }
    if !utf8_range_valid(&header, 0, n) {
        return Err(SaveEditorError::BadFormat);
    }
    let kb: &[u8] = key.as_str().as_bytes();
    let vb: &[u8] = value.as_str().as_bytes();
    let mut out: Vec<u8> = Vec::new();
    if n == 0 {
        proof {
            assert(rewrite_lines(lines_of(header@), kb@, vb@) =~= Seq::<Seq<u8>>::empty());
        }
        return Ok(out);
    }
    let body_end = if header[n - 1] == 10 {
        n - 1
    } else {
        n
    };
    let ghost body = header@.subrange(0, body_end as int);
    proof {
        if header@[n - 1] == 10 {
            assert(header@.drop_last() =~= body);
        } else {
            assert(header@ =~= body);
        }
        assert(lines_of(header@) == split_lines(body));
        assert(out@ + join_lines(rewrite_lines(split_lines(body), kb@, vb@)) =~= join_lines(
            rewrite_lines(split_lines(body), kb@, vb@),
        ));
    }
    let mut start: usize = 0;
    loop
        invariant
            0 <= start <= body_end <= n,
            n == header@.len(),
            body == header@.subrange(0, body_end as int),
            valid_utf8(header@),
            lines_of(header@) == split_lines(body),
            kb@ == encode_utf8(key@),
            vb@ == encode_utf8(value@),
            join_lines(rewrite_lines(split_lines(body), kb@, vb@)) == out@ + join_lines(
                rewrite_lines(
                    split_lines(header@.subrange(start as int, body_end as int)),
                    kb@,
                    vb@,
                ),
            ),
        decreases body_end - start,
    {
        let ghost rem = header@.subrange(start as int, body_end as int);
        let mut j = start;
        while j < body_end && header[j] != 10
            invariant
                start <= j <= body_end <= n,
                n == header@.len(),
                forall|m: int| start <= m < j ==> header@[m] != 10,
            decreases body_end - j,
        {
            j = j + 1;
        }
        proof {
            assert(forall|x: int| 0 <= x < rem.len() ==> rem[x] == header@[start + x]);
            lemma_find_nl_is(rem, j - start);
        }
        let matched = range_has_prefix(&header, start, j, kb);
        proof {
            assert(rem.subrange(0, j - start) =~= header@.subrange(start as int, j as int));
        }
        let ghost line = rem.subrange(0, j - start);
        let ghost rw = rewrite_line(line, kb@, vb@);
        let ghost out_before = out@;
        if matched {
            push_slice(&mut out, kb);
            out.push(58);
            out.push(61);
            push_slice(&mut out, vb);
            proof {
                assert(out@ =~= out_before + rw);
            }
        } else {
            push_range(&mut out, &header, start, j);
            proof {
                assert(out@ =~= out_before + rw);
            }
        }
        if j == body_end {
            proof {
                assert(find_nl(rem) == rem.len());
                assert(split_lines(rem) == seq![rem]);
                assert(line =~= rem);
                let rwl = rewrite_lines(split_lines(rem), kb@, vb@);
                assert(rwl.len() == 1 && rwl[0] == rw);
                assert(join_lines(rwl) == rw);
            }
            return Ok(out);
        }
        out.push(10);
        proof {
            lemma_rewrite_step(rem, kb@, vb@);
            assert(rem.subrange(find_nl(rem) + 1, rem.len() as int) =~= header@.subrange(
                j + 1,
                body_end as int,
            ));
            assert(out@ =~= out_before + rw + seq![10u8]);
            assert(out_before + (rw + seq![10u8] + join_lines(
                rewrite_lines(
                    split_lines(header@.subrange(j + 1, body_end as int)),
                    kb@,
                    vb@,
                ),
            )) =~= (out_before + rw + seq![10u8]) + join_lines(
                rewrite_lines(
                    split_lines(header@.subrange(j + 1, body_end as int)),
                    kb@,
                    vb@,
                ),
            ));
        }
        start = j + 1;
    }
}

/// No segment produced by splitting at newlines contains a newline.
pub proof fn lemma_split_lines_no_nl(s: Seq<u8>)
    ensures
        forall|i: int|
            0 <= i < split_lines(s).len() ==> !(#[trigger] split_lines(s)[i]).contains(10u8),
    decreases s.len(),
{
    lemma_find_nl_bounds(s);
    let k = find_nl(s);
    if k == s.len() {
        assert(!s.contains(10u8));
    } else {
        let line = s.subrange(0, k);
        assert(!line.contains(10u8));
        lemma_split_lines_no_nl(s.subrange(k + 1, s.len() as int));
        assert(forall|i: int|
            1 <= i < split_lines(s).len() ==> split_lines(s)[i] == split_lines(
                s.subrange(k + 1, s.len() as int),
            )[i - 1]);
    }
}

/// Joining the segments split at newlines gives the original bytes back.
pub proof fn lemma_join_split(s: Seq<u8>)
    ensures
        join_lines(split_lines(s)) == s,
    decreases s.len(),
{
    lemma_find_nl_bounds(s);
    let k = find_nl(s);
    if k < s.len() {
        let rest = s.subrange(k + 1, s.len() as int);
        lemma_join_split(rest);
        let ls = split_lines(s);
        assert(split_lines(rest).len() >= 1);
        assert(ls.subrange(1, ls.len() as int) =~= split_lines(rest));
        assert(join_lines(ls) == s.subrange(0, k) + seq![10u8] + rest);
        assert(s.subrange(0, k) + seq![10u8] + rest =~= s);
    }
}

/// A join of lines whose last line is nonempty is nonempty and ends with
/// the last line's last byte.
proof fn lemma_join_last(ls: Seq<Seq<u8>>)
    requires
        ls.len() > 0,
        ls.last().len() > 0,
    ensures
        join_lines(ls).len() > 0,
        join_lines(ls).last() == ls.last().last(),
    decreases ls.len(),
{
    if ls.len() > 1 {
        let rest = ls.subrange(1, ls.len() as int);
        assert(rest.last() == ls.last());
        lemma_join_last(rest);
    }
}

/// Splitting a join of newline-free lines recovers the lines, provided the
/// last line is nonempty (a join ending in an empty line ends in a newline,
/// which reads back as a line terminator instead).
pub proof fn lemma_lines_of_join(ls: Seq<Seq<u8>>)
    requires
        ls.len() > 0,
        forall|i: int| 0 <= i < ls.len() ==> !(#[trigger] ls[i]).contains(10u8),
        ls.last().len() > 0,
    ensures
        lines_of(join_lines(ls)) == ls,
    decreases ls.len(),
{
    lemma_join_last(ls);
    let jn = join_lines(ls);
    assert(ls.last().last() != 10) by {
        if ls.last().last() == 10 {
            assert(ls.last().contains(10u8));
        }
    }
    assert(lines_of(jn) == split_lines(jn));
    if ls.len() == 1 {
        assert(forall|j: int| 0 <= j < jn.len() ==> jn[j] != 10) by {
            assert(forall|j: int| 0 <= j < ls[0].len() && ls[0][j] == 10 ==> ls[0].contains(10u8));
        }
        lemma_find_nl_is(jn, jn.len() as int);
        assert(split_lines(jn) =~= ls);
    } else {
        let rest = ls.subrange(1, ls.len() as int);
        let jr = join_lines(rest);
        let k = ls[0].len() as int;
        assert(forall|j: int| 0 <= j < k ==> jn[j] == ls[0][j]);
        assert(forall|j: int| 0 <= j < k ==> jn[j] != 10) by {
            assert(forall|j: int| 0 <= j < k && ls[0][j] == 10 ==> ls[0].contains(10u8));
        }
        assert(jn[k] == 10);
        lemma_find_nl_is(jn, k);
        assert(rest.last() == ls.last());
        lemma_lines_of_join(rest);
        lemma_join_last(rest);
        assert(rest.last().last() != 10) by {
            if rest.last().last() == 10 {
                assert(rest.last().contains(10u8));
            }
        }
        assert(split_lines(jr) == lines_of(jr));
        assert(jn.subrange(0, k) =~= ls[0]);
        assert(jn.subrange(k + 1, jn.len() as int) =~= jr);
        assert(split_lines(jn) == seq![ls[0]] + split_lines(jr));
        assert(seq![ls[0]] + rest =~= ls);
    }
}

/// Every line of valid UTF-8 text is itself valid UTF-8.
pub proof fn lemma_split_lines_valid(s: Seq<u8>)
    requires
        valid_utf8(s),
    ensures
        forall|i: int|
            0 <= i < split_lines(s).len() ==> valid_utf8(#[trigger] split_lines(s)[i]),
    decreases s.len(),
{
    lemma_find_nl_bounds(s);
    let k = find_nl(s);
    if k == s.len() {
        assert(split_lines(s) == seq![s]);
    } else {
        vstd::utf8::is_char_boundary_iff_not_is_continuation_byte(s, k);
        assert(!vstd::utf8::is_continuation_byte(s[k]));
        vstd::utf8::valid_utf8_split(s, k);
        let tail = s.subrange(k, s.len() as int);
        let rest = s.subrange(k + 1, s.len() as int);
        assert(valid_utf8(tail));
        assert(tail[0] == 10);
        crate::encoding::lemma_first_scalar_ok(tail);
        assert(vstd::utf8::pop_first_scalar(tail) =~= rest);
        assert(valid_utf8(rest));
        lemma_split_lines_valid(rest);
        assert(forall|i: int|
            1 <= i < split_lines(s).len() ==> split_lines(s)[i] == split_lines(rest)[i - 1]);
    }
}

/// A join of valid UTF-8 lines is valid UTF-8.
pub proof fn lemma_join_lines_valid(ls: Seq<Seq<u8>>)
    requires
        forall|i: int| 0 <= i < ls.len() ==> valid_utf8(#[trigger] ls[i]),
    ensures
        valid_utf8(join_lines(ls)),
    decreases ls.len(),
{
    if ls.len() == 0 {
        assert(valid_utf8(join_lines(ls)));
    } else if ls.len() == 1 {
        assert(valid_utf8(ls[0]));
    } else {
        let rest = ls.subrange(1, ls.len() as int);
        lemma_join_lines_valid(rest);
        crate::encoding::lemma_ascii_bytes_valid_utf8(seq![10u8]);
        vstd::utf8::valid_utf8_concat(ls[0], seq![10u8]);
        vstd::utf8::valid_utf8_concat(ls[0] + seq![10u8], join_lines(rest));
        assert((ls[0] + seq![10u8]) + join_lines(rest) =~= ls[0] + seq![10u8] + join_lines(rest));
    }
}

/// Rewriting a field in valid UTF-8 header text with a valid UTF-8 key and
/// value yields valid UTF-8 header text, so rewrites can be chained.
pub proof fn lemma_rewritten_valid(h: Seq<u8>, key: Seq<u8>, value: Seq<u8>)
    requires
        valid_utf8(h),
        valid_utf8(key),
        valid_utf8(value),
    ensures
        valid_utf8(rewritten_header(h, key, value)),
{
    let ls = lines_of(h);
    let rw = rewrite_lines(ls, key, value);
    assert(forall|i: int| 0 <= i < ls.len() ==> valid_utf8(#[trigger] ls[i])) by {
        if h.len() > 0 {
            if h.last() == 10 {
                vstd::utf8::is_char_boundary_start_end_of_seq(h);
                if h.len() > 1 {
                    vstd::utf8::is_char_boundary_iff_not_is_continuation_byte(h, h.len() - 1);
                }
                vstd::utf8::valid_utf8_split(h, h.len() - 1);
                assert(h.drop_last() =~= h.subrange(0, h.len() - 1));
                lemma_split_lines_valid(h.drop_last());
            } else {
                lemma_split_lines_valid(h);
            }
        }
    }
    assert(valid_utf8(seq![58u8, 61u8])) by {
        crate::encoding::lemma_ascii_bytes_valid_utf8(seq![58u8, 61u8]);
    }
    assert(forall|i: int| 0 <= i < rw.len() ==> valid_utf8(#[trigger] rw[i])) by {
        assert forall|i: int| 0 <= i < rw.len() implies valid_utf8(#[trigger] rw[i]) by {
            if key.is_prefix_of(ls[i]) {
                vstd::utf8::valid_utf8_concat(key, seq![58u8, 61u8]);
                vstd::utf8::valid_utf8_concat(key + seq![58u8, 61u8], value);
                assert((key + seq![58u8, 61u8]) + value =~= key + seq![58u8, 61u8] + value);
            }
        }
    }
    lemma_join_lines_valid(rw);
}

/// Law (unrelated lines preserved): rewriting keeps the number and order of
/// lines, and every line that does not start with the key is unchanged.
pub proof fn lemma_rewrite_preserves_unrelated(h: Seq<u8>, key: Seq<u8>, value: Seq<u8>)
    ensures
        rewrite_lines(lines_of(h), key, value).len() == lines_of(h).len(),
        forall|i: int|
            0 <= i < lines_of(h).len() && !key.is_prefix_of(#[trigger] lines_of(h)[i])
                ==> rewrite_lines(lines_of(h), key, value)[i] == lines_of(h)[i],
{
}

/// Law (no-op on absent key): when no line starts with the key, rewriting
/// returns the header byte-for-byte unchanged. A trailing newline is the
/// one exception: the output is the joined lines, which never end with one.
pub proof fn lemma_rewrite_absent_key(h: Seq<u8>, key: Seq<u8>, value: Seq<u8>)
    requires
        forall|i: int| 0 <= i < lines_of(h).len() ==> !key.is_prefix_of(#[trigger] lines_of(h)[i]),
        h.len() > 0 ==> h.last() != 10,
    ensures
        rewritten_header(h, key, value) == h,
{
    if h.len() == 0 {
        assert(rewrite_lines(lines_of(h), key, value) =~= Seq::<Seq<u8>>::empty());
    } else {
        assert(rewrite_lines(lines_of(h), key, value) =~= lines_of(h));
        lemma_join_split(h);
    }
}

/// Law (unrelated lines preserved, in the output text): the lines of the
/// rewritten header are exactly the input's lines after rewriting — the
/// same count, in the same order, with every line that does not start with
/// the key carried over unchanged — for any newline-free key and value,
/// unless the rewrite ends in an empty line (which the joined output reads
/// back as a line terminator instead).
pub proof fn lemma_rewritten_lines(h: Seq<u8>, key: Seq<u8>, value: Seq<u8>)
    requires
        !key.contains(10u8),
        !value.contains(10u8),
        lines_of(h).len() > 0 ==> rewrite_line(lines_of(h).last(), key, value).len() > 0,
    ensures
        lines_of(rewritten_header(h, key, value)) == rewrite_lines(lines_of(h), key, value),
{
    let ls = lines_of(h);
    let rw = rewrite_lines(ls, key, value);
    if ls.len() == 0 {
        assert(rw =~= Seq::<Seq<u8>>::empty());
        assert(rewritten_header(h, key, value) == Seq::<u8>::empty());
    } else {
        lemma_split_lines_no_nl(if h.last() == 10 {
            h.drop_last()
        } else {
            h
        });
        assert(forall|i: int| 0 <= i < ls.len() ==> !(#[trigger] ls[i]).contains(10u8));
        assert(forall|i: int| 0 <= i < rw.len() ==> !(#[trigger] rw[i]).contains(10u8)) by {
            assert forall|i: int| 0 <= i < rw.len() implies !(#[trigger] rw[i]).contains(10u8) by {
                if key.is_prefix_of(ls[i]) {
                    let rep = key + seq![58u8, 61u8] + value;
                    assert forall|j: int| 0 <= j < rep.len() implies rep[j] != 10 by {
                        if j < key.len() {
                            assert(key[j] != 10) by {
                                if key[j] == 10 {
                                    assert(key.contains(10u8));
                                }
                            }
                        } else if j >= key.len() + 2 {
                            assert(rep[j] == value[j - key.len() - 2]);
                            assert(value[j - key.len() - 2] != 10) by {
                                if value[j - key.len() - 2] == 10 {
                                    assert(value.contains(10u8));
                                }
                            }
                        }
                    }
                    if rep.contains(10u8) {
                        let w = choose|j: int| 0 <= j < rep.len() && rep[j] == 10;
                        assert(rep[w] != 10);
                    }
                }
            }
        }
        assert(rw.last() == rewrite_line(ls.last(), key, value));
        lemma_lines_of_join(rw);
    }
}

/// Law (idempotent rewrite): rewriting the same field to the same value a
/// second time changes nothing, for any newline-free key and value, unless
/// the first rewrite left a trailing empty line (for instance a header that
/// ends in two newlines and does not match the key).
pub proof fn lemma_rewrite_idempotent(h: Seq<u8>, key: Seq<u8>, value: Seq<u8>)
    requires
        !key.contains(10u8),
        !value.contains(10u8),
        lines_of(h).len() > 0 ==> rewrite_line(lines_of(h).last(), key, value).len() > 0,
    ensures
        rewritten_header(rewritten_header(h, key, value), key, value) == rewritten_header(
            h,
            key,
            value,
        ),
{
    let ls = lines_of(h);
    let rw = rewrite_lines(ls, key, value);
    lemma_rewritten_lines(h, key, value);
    assert(rewrite_lines(rw, key, value) =~= rw) by {
        assert forall|i: int| 0 <= i < rw.len() implies rewrite_line(rw[i], key, value)
            == rw[i] by {
            if key.is_prefix_of(ls[i]) {
                let rep = key + seq![58u8, 61u8] + value;
                assert(key.is_prefix_of(rep)) by {
                    assert(rep.subrange(0, key.len() as int) =~= key);
                }
            }
        }
    }
}

} // verus!

