//! Relating a highlighted rendering back to the line it was made from:
//! removing the two ANSI markers recovers the line exactly, and the
//! rendering holds exactly one marker pair per highlighted occurrence.
//!
//! Both statements are made for lines free of the escape byte `0x1b`: a
//! line that itself contains an ANSI sequence is rendered faithfully, but
//! nothing then distinguishes its own escapes from the inserted markers.

use crate::matcher::highlight_from;
use crate::matcher::highlighted;
use crate::matcher::mark_end;
use crate::matcher::mark_start;
use crate::matcher::match_positions;
use crate::matcher::occurs_at;
use vstd::prelude::*;

verus! {

/// `s` begins with `m`.
pub open spec fn starts_with(s: Seq<u8>, m: Seq<u8>) -> bool {
    m.len() <= s.len() && s.subrange(0, m.len() as int) == m
}

/// The escape byte `0x1b` does not occur in `s`. Both markers begin with
/// it, so no marker occurs in such a sequence.
pub open spec fn esc_free(s: Seq<u8>) -> bool {
    forall|i: int| 0 <= i < s.len() ==> s[i] != 27u8
}

/// Removes every occurrence of either marker from `s`, scanning left to
/// right and keeping all other bytes.
pub open spec fn strip_markers(s: Seq<u8>) -> Seq<u8>
    decreases s.len(),
{
    if s.len() == 0 {
        Seq::empty()
    } else if starts_with(s, mark_start()) {
        strip_markers(s.skip(mark_start().len() as int))
    } else if starts_with(s, mark_end()) {
        strip_markers(s.skip(mark_end().len() as int))
    } else {
        seq![s[0]] + strip_markers(s.skip(1))
    }
}

/// The number of offsets in `s` at which `m` occurs.
pub open spec fn count_occ(s: Seq<u8>, m: Seq<u8>) -> nat
    decreases s.len(),
{
    if s.len() == 0 {
        0
    } else {
        (if starts_with(s, m) {
            1nat
        } else {
            0nat
        }) + count_occ(s.skip(1), m)
    }
}

/// Stripping leaves a sequence without escape bytes unchanged.
proof fn lemma_strip_esc_free(s: Seq<u8>)
    requires
        esc_free(s),
    ensures
        strip_markers(s) == s,
    decreases s.len(),
{
    if s.len() == 0 {
        assert(strip_markers(s) =~= s);
    } else {
        assert(!starts_with(s, mark_start())) by {
            if starts_with(s, mark_start()) {
                assert(s.subrange(0, mark_start().len() as int)[0] == s[0]);
            }
        }
        assert(!starts_with(s, mark_end())) by {
            if starts_with(s, mark_end()) {
                assert(s.subrange(0, mark_end().len() as int)[0] == s[0]);
            }
        }
        assert(esc_free(s.skip(1))) by {
            assert(forall|i: int| 0 <= i < s.skip(1).len() ==> #[trigger] s.skip(1)[i] == s[i + 1]);
        }
        lemma_strip_esc_free(s.skip(1));
        assert(seq![s[0]] + s.skip(1) =~= s);
    }
}

/// Stripping walks through an escape-free prefix byte for byte.
proof fn lemma_strip_prepend_esc_free(a: Seq<u8>, b: Seq<u8>)
    requires
        esc_free(a),
    ensures
        strip_markers(a + b) == a + strip_markers(b),
    decreases a.len(),
{
    if a.len() == 0 {
        assert(a + b =~= b);
        assert(a + strip_markers(b) =~= strip_markers(b));
    } else {
        let s = a + b;
        assert(s[0] == a[0]);
        assert(!starts_with(s, mark_start())) by {
            if starts_with(s, mark_start()) {
                assert(s.subrange(0, mark_start().len() as int)[0] == s[0]);
            }
        }
        assert(!starts_with(s, mark_end())) by {
            if starts_with(s, mark_end()) {
                assert(s.subrange(0, mark_end().len() as int)[0] == s[0]);
            }
        }
        assert(esc_free(a.skip(1))) by {
            assert(forall|i: int| 0 <= i < a.skip(1).len() ==> #[trigger] a.skip(1)[i] == a[i + 1]);
        }
        assert(s.skip(1) =~= a.skip(1) + b);
        lemma_strip_prepend_esc_free(a.skip(1), b);
        assert(seq![a[0]] + (a.skip(1) + strip_markers(b)) =~= a + strip_markers(b));
    }
}

/// Stripping removes a marker standing at the front.
proof fn lemma_strip_marker(s: Seq<u8>)
    ensures
        strip_markers(mark_start() + s) == strip_markers(s),
        strip_markers(mark_end() + s) == strip_markers(s),
{
    let t1 = mark_start() + s;
    assert(starts_with(t1, mark_start())) by {
        assert(t1.subrange(0, mark_start().len() as int) =~= mark_start());
    }
    assert(t1.skip(mark_start().len() as int) =~= s);
    let t2 = mark_end() + s;
    assert(!starts_with(t2, mark_start())) by {
        if starts_with(t2, mark_start()) {
            assert(t2.subrange(0, mark_start().len() as int)[2] == t2[2]);
            assert(t2[2] == mark_end()[2]);
        }
    }
    assert(starts_with(t2, mark_end())) by {
        assert(t2.subrange(0, mark_end().len() as int) =~= mark_end());
    }
    assert(t2.skip(mark_end().len() as int) =~= s);
}

/// The pattern of an occurrence inside an escape-free line is itself
/// escape-free.
proof fn lemma_occurrence_esc_free(line: Seq<u8>, pat: Seq<u8>, p: int)
    requires
        esc_free(line),
        occurs_at(line, pat, p),
    ensures
        esc_free(pat),
{
    assert forall|i: int| 0 <= i < pat.len() implies pat[i] != 27u8 by {
        assert(line.subrange(p, p + pat.len() as int)[i] == line[p + i]);
    }
}

/// Stripping the markers out of the rendering of the tail from `start`
/// recovers that tail of the line.
proof fn lemma_strip_highlight_from(line: Seq<u8>, pat: Seq<u8>, start: int)
    requires
        pat.len() >= 1,
        0 <= start <= line.len(),
        esc_free(line),
    ensures
        strip_markers(highlight_from(line, pat, start)) == line.subrange(
            start,
            line.len() as int,
        ),
    decreases line.len() - start,
{
    let tail = line.subrange(start, line.len() as int);
    assert(esc_free(tail)) by {
        assert(forall|i: int| 0 <= i < tail.len() ==> #[trigger] tail[i] == line[start + i]);
    }
    if start >= line.len() {
        lemma_strip_esc_free(tail);
    } else if occurs_at(line, pat, start) {
        let h2 = highlight_from(line, pat, start + pat.len());
        lemma_occurrence_esc_free(line, pat, start);
        lemma_strip_highlight_from(line, pat, start + pat.len());
        assert(mark_start() + pat + mark_end() + h2 =~= mark_start() + (pat + (mark_end() + h2)));
        lemma_strip_marker(pat + (mark_end() + h2));
        lemma_strip_prepend_esc_free(pat, mark_end() + h2);
        lemma_strip_marker(h2);
        assert(pat + line.subrange(start + pat.len() as int, line.len() as int) =~= tail);
    } else {
        let h2 = highlight_from(line, pat, start + 1);
        lemma_strip_highlight_from(line, pat, start + 1);
        assert(esc_free(seq![line[start]]));
        lemma_strip_prepend_esc_free(seq![line[start]], h2);
        assert(seq![line[start]] + line.subrange(start + 1, line.len() as int) =~= tail);
    }
}

/// Round trip: for a non-empty pattern and a line free of escape bytes,
/// removing all markers from the highlighted rendering reconstructs the
/// line exactly.
pub proof fn lemma_strip_round_trip(line: Seq<u8>, pat: Seq<u8>)
    requires
        pat.len() >= 1,
        esc_free(line),
    ensures
        strip_markers(highlighted(line, pat)) == line,
{
    lemma_strip_highlight_from(line, pat, 0);
    assert(line.subrange(0, line.len() as int) =~= line);
}

/// Counting walks through an escape-free prefix without finding the
/// sought marker.
proof fn lemma_count_prepend_esc_free(a: Seq<u8>, b: Seq<u8>, m: Seq<u8>)
    requires
        esc_free(a),
        m.len() >= 1,
        m[0] == 27u8,
    ensures
        count_occ(a + b, m) == count_occ(b, m),
    decreases a.len(),
{
    if a.len() == 0 {
        assert(a + b =~= b);
    } else {
        let s = a + b;
        assert(s[0] == a[0]);
        assert(!starts_with(s, m)) by {
            if starts_with(s, m) {
                assert(s.subrange(0, m.len() as int)[0] == s[0]);
            }
        }
        assert(esc_free(a.skip(1))) by {
            assert(forall|i: int| 0 <= i < a.skip(1).len() ==> #[trigger] a.skip(1)[i] == a[i + 1]);
        }
        assert(s.skip(1) =~= a.skip(1) + b);
        lemma_count_prepend_esc_free(a.skip(1), b, m);
    }
}

/// Counting sees a marker standing at the front once, and never mistakes
/// one marker for the other.
proof fn lemma_count_marker(s: Seq<u8>)
    ensures
        count_occ(mark_start() + s, mark_start()) == 1 + count_occ(s, mark_start()),
        count_occ(mark_start() + s, mark_end()) == count_occ(s, mark_end()),
        count_occ(mark_end() + s, mark_end()) == 1 + count_occ(s, mark_end()),
        count_occ(mark_end() + s, mark_start()) == count_occ(s, mark_start()),
{
    let t1 = mark_start() + s;
    assert(starts_with(t1, mark_start())) by {
        assert(t1.subrange(0, mark_start().len() as int) =~= mark_start());
    }
    assert(!starts_with(t1, mark_end())) by {
        if starts_with(t1, mark_end()) {
            assert(t1.subrange(0, mark_end().len() as int)[2] == t1[2]);
            assert(t1[2] == mark_start()[2]);
        }
    }
    assert(esc_free(mark_start().skip(1)));
    assert(t1.skip(1) =~= mark_start().skip(1) + s);
    lemma_count_prepend_esc_free(mark_start().skip(1), s, mark_start());
    lemma_count_prepend_esc_free(mark_start().skip(1), s, mark_end());
    let t2 = mark_end() + s;
    assert(starts_with(t2, mark_end())) by {
        assert(t2.subrange(0, mark_end().len() as int) =~= mark_end());
    }
    assert(!starts_with(t2, mark_start())) by {
        if starts_with(t2, mark_start()) {
            assert(t2.subrange(0, mark_start().len() as int)[2] == t2[2]);
            assert(t2[2] == mark_end()[2]);
        }
    }
    assert(esc_free(mark_end().skip(1)));
    assert(t2.skip(1) =~= mark_end().skip(1) + s);
    lemma_count_prepend_esc_free(mark_end().skip(1), s, mark_start());
    lemma_count_prepend_esc_free(mark_end().skip(1), s, mark_end());
}

/// The rendering of the tail from `start` holds one occurrence of each
/// marker per highlighted occurrence of the pattern.
proof fn lemma_count_highlight_from(line: Seq<u8>, pat: Seq<u8>, start: int)
    requires
        pat.len() >= 1,
        0 <= start <= line.len(),
        esc_free(line),
    ensures
        count_occ(highlight_from(line, pat, start), mark_start()) == match_positions(
            line,
            pat,
            start,
        ).len(),
        count_occ(highlight_from(line, pat, start), mark_end()) == match_positions(
            line,
            pat,
            start,
        ).len(),
    decreases line.len() - start,
{
    if start >= line.len() {
        let tail = line.subrange(start, line.len() as int);
        assert(esc_free(tail)) by {
            assert(forall|i: int| 0 <= i < tail.len() ==> #[trigger] tail[i] == line[start + i]);
        }
        assert(tail + Seq::<u8>::empty() =~= tail);
        lemma_count_prepend_esc_free(tail, Seq::<u8>::empty(), mark_start());
        lemma_count_prepend_esc_free(tail, Seq::<u8>::empty(), mark_end());
    } else if occurs_at(line, pat, start) {
        let h2 = highlight_from(line, pat, start + pat.len());
        lemma_occurrence_esc_free(line, pat, start);
        lemma_count_highlight_from(line, pat, start + pat.len());
        assert(mark_start() + pat + mark_end() + h2 =~= mark_start() + (pat + (mark_end() + h2)));
        lemma_count_marker(pat + (mark_end() + h2));
        lemma_count_prepend_esc_free(pat, mark_end() + h2, mark_start());
        lemma_count_prepend_esc_free(pat, mark_end() + h2, mark_end());
        lemma_count_marker(h2);
    } else {
        let h2 = highlight_from(line, pat, start + 1);
        lemma_count_highlight_from(line, pat, start + 1);
        assert(esc_free(seq![line[start]]));
        lemma_count_prepend_esc_free(seq![line[start]], h2, mark_start());
        lemma_count_prepend_esc_free(seq![line[start]], h2, mark_end());
    }
}

/// Marker-pair count: for a non-empty pattern occurring `k` times (as the
/// non-overlapping left-to-right scan counts them) in a line free of
/// escape bytes, the highlighted rendering holds exactly `k` start markers
/// and exactly `k` end markers.
pub proof fn lemma_marker_pair_count(line: Seq<u8>, pat: Seq<u8>)
    requires
        pat.len() >= 1,
        esc_free(line),
    ensures
        count_occ(highlighted(line, pat), mark_start()) == match_positions(line, pat, 0).len(),
        count_occ(highlighted(line, pat), mark_end()) == match_positions(line, pat, 0).len(),
{
    lemma_count_highlight_from(line, pat, 0);
}

} // verus!
