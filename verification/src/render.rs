//! The driver's pure part: deciding which lines are reported and building
//! each report record `line number:highlighted line`, with 1-based line
//! numbers in decimal.

use crate::matcher::append_slice_range;
use crate::matcher::contains_pattern;
use crate::matcher::highlight_pattern;
use crate::matcher::highlighted;
use crate::matcher::occurs_from;
use vstd::prelude::*;

verus! {

/// The decimal rendering of `n`, most significant digit first, with no
/// leading zero except for `n == 0` itself.
pub open spec fn decimal_digits(n: nat) -> Seq<u8>
    decreases n,
{
    if n < 10 {
        seq![(48 + n) as u8]
    } else {
        decimal_digits(n / 10).push((48 + n % 10) as u8)
    }
}

/// Renders `n` in decimal, as the record prefix asks for it.
pub fn u64_to_decimal(n: u64) -> (r: Vec<u8>)
    ensures
        r@ == decimal_digits(n as nat),
    decreases n,
{
    if n < 10 {
        let mut v: Vec<u8> = Vec::new();
        v.push(48u8 + n as u8);
        proof {
            assert(v@ =~= decimal_digits(n as nat));
        }
        v
    } else {
        let mut v: Vec<u8> = u64_to_decimal(n / 10);
        v.push(48u8 + (n % 10) as u8);
        proof {
            assert(v@ =~= decimal_digits(n as nat));
        }
        v
    }
}

/// A line is reported when the pattern is non-empty and occurs in it.
pub open spec fn matches_line(line: Seq<u8>, pat: Seq<u8>) -> bool {
    pat.len() >= 1 && occurs_from(line, pat, 0)
}

/// The record written for a matching line: the 1-based line number in
/// decimal, a colon, and the highlighted rendering of the line.
pub open spec fn record_for(line_no: nat, line: Seq<u8>, pat: Seq<u8>) -> Seq<u8> {
    decimal_digits(line_no) + seq![58u8] + highlighted(line, pat)
}

/// Copies a byte slice into a fresh vector.
pub fn copy_bytes(src: &[u8]) -> (r: Vec<u8>)
    ensures
        r@ == src@,
{
    let mut v: Vec<u8> = Vec::new();
    append_slice_range(&mut v, src, 0, src.len());
    proof {
        assert(v@ =~= src@);
    }
    v
}

/// One step of the driver: tests whether the pattern occurs in the line
/// and, exactly when it does, builds the record for it. A line without an
/// occurrence, or an empty pattern, yields nothing.
pub fn process_line(line_no: u64, line: &[u8], pattern: &[u8]) -> (r: Option<Vec<u8>>)
    ensures
        r.is_some() == matches_line(line@, pattern@),
        match r {
            Some(rec) => rec@ == record_for(line_no as nat, line@, pattern@),
            None => true,
        },
{
    if contains_pattern(line, pattern) {
        let mut rec: Vec<u8> = u64_to_decimal(line_no);
        rec.push(58u8);
        let mut h: Vec<u8> = highlight_pattern(line, pattern);
        rec.append(&mut h);
        proof {
            assert(rec@ =~= record_for(line_no as nat, line@, pattern@));
        }
        Some(rec)
    } else {
        None
    }
}

/// The records of all matching lines from index `i` on, in order, each
/// under its 1-based line number. Every line read advances the number,
/// matching or not.
pub open spec fn records_from(lines: Seq<Seq<u8>>, pat: Seq<u8>, i: int) -> Seq<Seq<u8>>
    decreases lines.len() - i,
{
    if i < 0 || i >= lines.len() {
        Seq::empty()
    } else if matches_line(lines[i], pat) {
        seq![record_for((i + 1) as nat, lines[i], pat)] + records_from(lines, pat, i + 1)
    } else {
        records_from(lines, pat, i + 1)
    }
}

/// Everything the matcher program writes to standard output, one record
/// per matching line.
pub open spec fn grep_records(lines: Seq<Seq<u8>>, pat: Seq<u8>) -> Seq<Seq<u8>> {
    records_from(lines, pat, 0)
}

/// The whole driver run over an already-read file: scans the lines in
/// order, numbering from 1, and collects the record of every line the
/// pattern occurs in.
pub fn process_lines(lines: &Vec<Vec<u8>>, pattern: &[u8]) -> (r: Vec<Vec<u8>>)
    ensures
        r.deep_view() == grep_records(lines.deep_view(), pattern@),
{
    let ghost dl: Seq<Seq<u8>> = lines.deep_view();
    let mut r: Vec<Vec<u8>> = Vec::new();
    let n: usize = lines.len();
    proof {
        assert(r.deep_view() + records_from(dl, pattern@, 0) =~= grep_records(dl, pattern@));
    }
    let mut i: usize = 0;
    while i < n
        invariant
            n == lines@.len(),
            dl == lines.deep_view(),
            dl.len() == n,
            i <= n,
            r.deep_view() + records_from(dl, pattern@, i as int) == grep_records(dl, pattern@),
        decreases n - i,
    {
        let line_no: u64 = (i as u64) + 1;
        let ghost r0: Seq<Seq<u8>> = r.deep_view();
        proof {
            assert(dl[i as int] =~= lines@[i as int]@);
        }
        match process_line(line_no, (&lines[i]).as_slice(), pattern) {
            Some(rec) => {
                proof {
                    assert(rec@ == record_for((i + 1) as nat, dl[i as int], pattern@));
                }
                r.push(rec);
                proof {
                    assert(rec.deep_view() =~= rec@);
                    assert(r.deep_view() =~= r0.push(rec@));
                    assert(r0.push(rec@) + records_from(dl, pattern@, i + 1) =~= r0 + records_from(
                        dl,
                        pattern@,
                        i as int,
                    ));
                }
            },
            None => {
                proof {
                    assert(records_from(dl, pattern@, i as int) == records_from(
                        dl,
                        pattern@,
                        i + 1,
                    ));
                }
            },
        }
        i = i + 1;
    }
    r
}

/// Parses the matcher's command line: the arguments after the program name
/// must be at least a pattern and a file path, in that order. With fewer,
/// nothing is parsed and the caller reports usage and fails.
pub fn parse_grep_args(args: &Vec<Vec<u8>>) -> (r: Option<(Vec<u8>, Vec<u8>)>)
    ensures
        r.is_some() == (args@.len() >= 3),
        match r {
            Some(pf) => pf.0@ == args@[1]@ && pf.1@ == args@[2]@,
            None => true,
        },
{
    if args.len() < 3 {
        None
    } else {
        let pattern: Vec<u8> = copy_bytes((&args[1]).as_slice());
        let path: Vec<u8> = copy_bytes((&args[2]).as_slice());
        Some((pattern, path))
    }
}

} // verus!
