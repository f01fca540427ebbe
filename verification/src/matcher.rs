//! Finding and highlighting the non-overlapping occurrences of a literal
//! byte pattern in a line.

use vstd::prelude::*;

verus! {

/// The pattern occurs in `line` at offset `i`: the bytes of `line` from `i`
/// on, as many as the pattern has, are exactly the pattern.
pub open spec fn occurs_at(line: Seq<u8>, pat: Seq<u8>, i: int) -> bool {
    0 <= i && i + pat.len() <= line.len() && line.subrange(i, i + pat.len() as int) == pat
}

/// The pattern occurs somewhere in `line` at or after offset `start`.
pub open spec fn occurs_from(line: Seq<u8>, pat: Seq<u8>, start: int) -> bool {
    exists|i: int| start <= i && occurs_at(line, pat, i)
}

/// Compares the pattern against the bytes of `line` at offset `i`.
fn match_at(line: &[u8], pattern: &[u8], i: usize) -> (r: bool)
    requires
        i + pattern@.len() <= line@.len(),
    ensures
        r == occurs_at(line@, pattern@, i as int),
{
    let n: usize = pattern.len();
    let _line_len: usize = line.len();
    let mut j: usize = 0;
    while j < n
        invariant
            n == pattern@.len(),
            j <= n,
            i + n <= line@.len(),
            line@.len() <= usize::MAX,
            forall|t: int| 0 <= t < j ==> line@[i + t] == pattern@[t],
        decreases n - j,
    {
        if line[i + j] != pattern[j] {
            proof {
                let win = line@.subrange(i as int, i + pattern@.len() as int);
                assert(win[j as int] == line@[i + j]);
            }
            return false;
        }
        j = j + 1;
    }
    proof {
        assert(line@.subrange(i as int, i + pattern@.len() as int) =~= pattern@);
    }
    true
}

/// Finds the first occurrence of the pattern at or after `start`, as the
/// scan-and-splice loop asks for it: the offset returned is the least one
/// with an occurrence, and `None` means the rest of the line holds none.
pub fn find_from(line: &[u8], pattern: &[u8], start: usize) -> (r: Option<usize>)
    requires
        pattern@.len() >= 1,
        start <= line@.len(),
    ensures
        match r {
            Some(p) => {
                &&& start <= p
                &&& occurs_at(line@, pattern@, p as int)
                &&& forall|q: int| start <= q < p ==> !occurs_at(line@, pattern@, q)
            },
            None => forall|q: int| start <= q ==> !occurs_at(line@, pattern@, q),
        },
{
    if pattern.len() > line.len() {
        return None;
    }
    let last: usize = line.len() - pattern.len();
    if start > last {
        proof {
            assert forall|q: int| start <= q implies !occurs_at(line@, pattern@, q) by {
                assert(q + pattern@.len() > line@.len());
            }
        }
        return None;
    }
    let mut i: usize = start;
    while i <= last
        invariant
            pattern@.len() >= 1,
            last == line@.len() - pattern@.len(),
            line@.len() <= usize::MAX,
            start <= i,
            i <= last + 1,
            forall|q: int| start <= q < i ==> !occurs_at(line@, pattern@, q),
        decreases last + 1 - i,
    {
        if match_at(line, pattern, i) {
            return Some(i);
        }
        i = i + 1;
    }
    proof {
        assert forall|q: int| start <= q implies !occurs_at(line@, pattern@, q) by {
            if q < i {
            } else {
                assert(q + pattern@.len() > line@.len());
            }
        }
    }
    None
}

/// Plain substring containment, the test the driver makes before it renders
/// a line. An empty pattern is treated as occurring nowhere.
pub fn contains_pattern(line: &[u8], pattern: &[u8]) -> (r: bool)
    ensures
        r == (pattern@.len() >= 1 && occurs_from(line@, pattern@, 0)),
{
    if pattern.len() == 0 {
        return false;
    }
    match find_from(line, pattern, 0) {
        Some(p) => {
            proof {
                assert(occurs_at(line@, pattern@, p as int));
            }
            true
        },
        None => false,
    }
}

/// The ANSI escape sequence put in front of a matched occurrence:
/// `ESC [ 1 ; 3 3 m`, select-graphic-rendition bold yellow.
pub open spec fn mark_start() -> Seq<u8> {
    seq![27u8, 91u8, 49u8, 59u8, 51u8, 51u8, 109u8]
}

/// The ANSI escape sequence put after a matched occurrence: `ESC [ 0 m`,
/// select-graphic-rendition reset.
pub open spec fn mark_end() -> Seq<u8> {
    seq![27u8, 91u8, 48u8, 109u8]
}

/// The rendering of `line` from offset `start` on: a left-to-right scan
/// that copies unmatched bytes verbatim and wraps each occurrence of the
/// pattern in the marker pair, resuming strictly after the occurrence's
/// end, so occurrences never overlap.
pub open spec fn highlight_from(line: Seq<u8>, pat: Seq<u8>, start: int) -> Seq<u8>
    decreases line.len() - start,
{
    if pat.len() == 0 || start < 0 || start >= line.len() {
        if 0 <= start <= line.len() {
            line.subrange(start, line.len() as int)
        } else {
            Seq::empty()
        }
    } else if occurs_at(line, pat, start) {
        mark_start() + pat + mark_end() + highlight_from(line, pat, start + pat.len())
    } else {
        seq![line[start]] + highlight_from(line, pat, start + 1)
    }
}

/// The full highlighted rendering of a line. The empty pattern is treated
/// as occurring nowhere, so it leaves the line unchanged.
pub open spec fn highlighted(line: Seq<u8>, pat: Seq<u8>) -> Seq<u8> {
    highlight_from(line, pat, 0)
}

/// The offsets of the occurrences that the scan highlights, in the order
/// it meets them.
pub open spec fn match_positions(line: Seq<u8>, pat: Seq<u8>, start: int) -> Seq<int>
    decreases line.len() - start,
{
    if pat.len() == 0 || start < 0 || start >= line.len() {
        Seq::empty()
    } else if occurs_at(line, pat, start) {
        seq![start] + match_positions(line, pat, start + pat.len())
    } else {
        match_positions(line, pat, start + 1)
    }
}

/// The scan records an occurrence exactly when the pattern occurs at or
/// after `start`: a reported line carries at least one marker pair, and a
/// line without an occurrence carries none.
pub proof fn lemma_positions_iff_occurs(line: Seq<u8>, pat: Seq<u8>, start: int)
    requires
        pat.len() >= 1,
        0 <= start <= line.len(),
    ensures
        match_positions(line, pat, start).len() > 0 <==> occurs_from(line, pat, start),
    decreases line.len() - start,
{
    if start >= line.len() {
        assert forall|i: int| start <= i implies !occurs_at(line, pat, i) by {
            assert(i + pat.len() > line.len());
        }
    } else if occurs_at(line, pat, start) {
        assert(occurs_from(line, pat, start));
    } else {
        lemma_positions_iff_occurs(line, pat, start + 1);
        assert(match_positions(line, pat, start) == match_positions(line, pat, start + 1));
        if occurs_from(line, pat, start) {
            let i = choose|i: int| start <= i && occurs_at(line, pat, i);
            assert(i != start);
            assert(occurs_from(line, pat, start + 1));
        }
        if occurs_from(line, pat, start + 1) {
            let i = choose|i: int| start + 1 <= i && occurs_at(line, pat, i);
            assert(start <= i && occurs_at(line, pat, i));
        }
    }
}

/// The highlighted occurrences are genuine and non-overlapping: every
/// position the scan records is a real occurrence of the pattern at or
/// after `start`, and each later occurrence begins at or after the end of
/// the one before it, so a match is never re-highlighted.
pub proof fn lemma_matches_disjoint(line: Seq<u8>, pat: Seq<u8>, start: int)
    requires
        pat.len() >= 1,
        0 <= start <= line.len(),
    ensures
        forall|j: int|
            0 <= j < match_positions(line, pat, start).len() ==> start <= #[trigger] match_positions(
                line,
                pat,
                start,
            )[j] && occurs_at(line, pat, match_positions(line, pat, start)[j]),
        forall|j: int|
            0 <= j < match_positions(line, pat, start).len() - 1 ==> #[trigger] match_positions(
                line,
                pat,
                start,
            )[j] + pat.len() <= match_positions(line, pat, start)[j + 1],
    decreases line.len() - start,
{
    let ps = match_positions(line, pat, start);
    if start >= line.len() {
    } else if occurs_at(line, pat, start) {
        let rest = match_positions(line, pat, start + pat.len());
        lemma_matches_disjoint(line, pat, start + pat.len());
        assert(ps == seq![start] + rest);
        assert forall|j: int| 0 <= j < ps.len() implies start <= #[trigger] ps[j] && occurs_at(
            line,
            pat,
            ps[j],
        ) by {
            if j > 0 {
                assert(ps[j] == rest[j - 1]);
            }
        }
        assert forall|j: int| 0 <= j < ps.len() - 1 implies #[trigger] ps[j] + pat.len() <= ps[j
            + 1] by {
            if j == 0 {
                assert(ps[1] == rest[0]);
            } else {
                assert(ps[j] == rest[j - 1] && ps[j + 1] == rest[j]);
            }
        }
    } else {
        lemma_matches_disjoint(line, pat, start + 1);
        assert(ps == match_positions(line, pat, start + 1));
    }
}

/// Over a stretch with no occurrence, the rendering is the line itself:
/// the scan from `start` first copies the bytes up to `p` verbatim.
pub proof fn lemma_highlight_skip(line: Seq<u8>, pat: Seq<u8>, start: int, p: int)
    requires
        pat.len() >= 1,
        0 <= start <= p <= line.len(),
        forall|q: int| start <= q < p ==> !occurs_at(line, pat, q),
    ensures
        highlight_from(line, pat, start) == line.subrange(start, p) + highlight_from(
            line,
            pat,
            p,
        ),
    decreases p - start,
{
    if start == p {
        assert(line.subrange(start, p) + highlight_from(line, pat, p) =~= highlight_from(
            line,
            pat,
            p,
        ));
    } else {
        lemma_highlight_skip(line, pat, start + 1, p);
        assert(highlight_from(line, pat, start) == seq![line[start]] + highlight_from(
            line,
            pat,
            start + 1,
        ));
        assert(seq![line[start]] + (line.subrange(start + 1, p) + highlight_from(line, pat, p))
            =~= line.subrange(start, p) + highlight_from(line, pat, p));
    }
}

/// A line in which the pattern does not occur at or after `start` is
/// rendered unchanged from `start` on.
pub proof fn lemma_highlight_no_match(line: Seq<u8>, pat: Seq<u8>, start: int)
    requires
        pat.len() >= 1,
        0 <= start <= line.len(),
        forall|q: int| start <= q ==> !occurs_at(line, pat, q),
    ensures
        highlight_from(line, pat, start) == line.subrange(start, line.len() as int),
{
    lemma_highlight_skip(line, pat, start, line.len() as int);
    assert(line.subrange(start, line.len() as int) + highlight_from(
        line,
        pat,
        line.len() as int,
    ) =~= line.subrange(start, line.len() as int));
}

/// A line in which a non-empty pattern does not occur at all is rendered
/// as itself: no marker is ever inserted.
pub proof fn lemma_no_match_identity(line: Seq<u8>, pat: Seq<u8>)
    requires
        pat.len() >= 1,
        !occurs_from(line, pat, 0),
    ensures
        highlighted(line, pat) == line,
{
    assert forall|q: int| 0 <= q implies !occurs_at(line, pat, q) by {
        if occurs_at(line, pat, q) {
            assert(occurs_from(line, pat, 0));
        }
    }
    lemma_highlight_no_match(line, pat, 0);
    assert(line.subrange(0, line.len() as int) =~= line);
}

/// Appends `src[from..to]` to `out`, byte for byte.
pub(crate) fn append_slice_range(out: &mut Vec<u8>, src: &[u8], from: usize, to: usize)
    requires
        from <= to <= src@.len(),
    ensures
        final(out)@ == old(out)@ + src@.subrange(from as int, to as int),
{
    let ghost out0: Seq<u8> = out@;
    let _src_len: usize = src.len();
    let mut k: usize = from;
    proof {
        assert(out0 + src@.subrange(from as int, from as int) =~= out0);
    }
    while k < to
        invariant
            from <= k <= to <= src@.len(),
            src@.len() <= usize::MAX,
            out@ == out0 + src@.subrange(from as int, k as int),
        decreases to - k,
    {
        out.push(src[k]);
        proof {
            assert(src@.subrange(from as int, k + 1) =~= src@.subrange(
                from as int,
                k as int,
            ).push(src@[k as int]));
        }
        k = k + 1;
    }
}

/// Appends the start marker to `out`.
fn append_mark_start(out: &mut Vec<u8>)
    ensures
        final(out)@ == old(out)@ + mark_start(),
{
    let ghost out0: Seq<u8> = out@;
    out.push(27u8);
    out.push(91u8);
    out.push(49u8);
    out.push(59u8);
    out.push(51u8);
    out.push(51u8);
    out.push(109u8);
    proof {
        assert(out@ =~= out0 + mark_start());
    }
}

/// Appends the end marker to `out`.
fn append_mark_end(out: &mut Vec<u8>)
    ensures
        final(out)@ == old(out)@ + mark_end(),
{
    let ghost out0: Seq<u8> = out@;
    out.push(27u8);
    out.push(91u8);
    out.push(48u8);
    out.push(109u8);
    proof {
        assert(out@ =~= out0 + mark_end());
    }
}

/// The scan-and-splice rendering loop: every non-overlapping occurrence of
/// the pattern, left to right, is wrapped in the marker pair, and all other
/// bytes are copied verbatim. An empty pattern leaves the line unchanged.
pub fn highlight_pattern(line: &[u8], pattern: &[u8]) -> (r: Vec<u8>)
    ensures
        r@ == highlighted(line@, pattern@),
{
    let mut result: Vec<u8> = Vec::new();
    if pattern.len() == 0 {
        append_slice_range(&mut result, line, 0, line.len());
        proof {
            assert(Seq::<u8>::empty() + line@.subrange(0, line@.len() as int) =~= line@);
            assert(result@ =~= highlighted(line@, pattern@));
        }
        return result;
    }
    let _line_len: usize = line.len();
    let mut start: usize = 0;
    loop
        invariant
            pattern@.len() >= 1,
            start <= line@.len(),
            line@.len() <= usize::MAX,
            result@ + highlight_from(line@, pattern@, start as int) == highlighted(
                line@,
                pattern@,
            ),
        decreases line@.len() - start,
    {
        match find_from(line, pattern, start) {
            Some(p) => {
                proof {
                    lemma_highlight_skip(line@, pattern@, start as int, p as int);
                }
                append_slice_range(&mut result, line, start, p);
                append_mark_start(&mut result);
                append_slice_range(&mut result, line, p, p + pattern.len());
                append_mark_end(&mut result);
                proof {
                    let l = line@;
                    let pt = pattern@;
                    let s = start as int;
                    let pi = p as int;
                    assert(l.subrange(pi, pi + pt.len() as int) == pt);
                    assert(highlight_from(l, pt, pi) == mark_start() + pt + mark_end()
                        + highlight_from(l, pt, pi + pt.len()));
                }
                start = p + pattern.len();
                proof {
                    assert(result@ + highlight_from(line@, pattern@, start as int) =~= highlighted(
                        line@,
                        pattern@,
                    ));
                }
            },
            None => {
                proof {
                    lemma_highlight_no_match(line@, pattern@, start as int);
                }
                append_slice_range(&mut result, line, start, line.len());
                proof {
                    assert(result@ =~= highlighted(line@, pattern@));
                }
                return result;
            },
        }
    }
}

} // verus!
