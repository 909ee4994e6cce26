use vstd::prelude::*;

use crate::engine::{bytes_view, ComparisonResult, ResultView};

verus! {

/// Ends each line.
pub const NEWLINE: u8 = 10;

/// `< `: a path only on the left.
pub open spec fn left_mark() -> Seq<u8> {
    seq![60u8, 32u8]
}

/// `> `: a path only on the right.
pub open spec fn right_mark() -> Seq<u8> {
    seq![62u8, 32u8]
}

/// `! `: a path whose contents differ.
pub open spec fn differ_mark() -> Seq<u8> {
    seq![33u8, 32u8]
}

/// One line per path, each the mark, the path and a newline.
pub open spec fn marked_lines(mark: Seq<u8>, paths: Seq<Seq<u8>>) -> Seq<u8>
    decreases paths.len(),
{
    if paths.len() == 0 {
        Seq::empty()
    } else {
        marked_lines(mark, paths.drop_last()) + mark + paths.last() + seq![NEWLINE]
    }
}

/// The text export of a result: the header line, then the paths only on the left, those only
/// on the right, and those that differ, each on a line of its own behind its mark.
pub open spec fn report_text(header: Seq<u8>, v: ResultView) -> Seq<u8> {
    header + seq![NEWLINE] + marked_lines(left_mark(), v.only_in_left) + marked_lines(right_mark(), v.only_in_right)
        + marked_lines(differ_mark(), v.differing)
}

fn append_bytes(out: &mut Vec<u8>, b: &[u8])
    ensures
        final(out)@ == old(out)@ + b@,
{
    let ghost start = out@;
    let mut i: usize = 0;
    while i < b.len()
        invariant
            i <= b.len(),
            out@ == start + b@.take(i as int),
        decreases b.len() - i,
    {
        out.push(b[i]);
        i = i + 1;
        assert(out@ =~= start + b@.take(i as int));
    }
    assert(b@.take(i as int) =~= b@);
}

fn append_lines(out: &mut Vec<u8>, mark: &[u8], paths: &Vec<Vec<u8>>)
    ensures
        final(out)@ == old(out)@ + marked_lines(mark@, bytes_view(paths@)),
{
    let ghost start = out@;
    let ghost ps = bytes_view(paths@);
    let mut k: usize = 0;
    assert(ps.take(0) =~= Seq::<Seq<u8>>::empty());
    assert(start + Seq::<u8>::empty() =~= start);
    while k < paths.len()
        invariant
            k <= paths.len(),
            ps == bytes_view(paths@),
            out@ == start + marked_lines(mark@, ps.take(k as int)),
        decreases paths.len() - k,
    {
        let ghost before = out@;
        append_bytes(out, mark);
        append_bytes(out, paths[k].as_slice());
        out.push(NEWLINE);
        proof {
            assert(ps.take(k + 1).drop_last() =~= ps.take(k as int));
            assert(ps.take(k + 1).last() == paths@[k as int]@);
            assert(out@ =~= start + marked_lines(mark@, ps.take(k + 1)));
        }
        k = k + 1;
    }
    assert(ps.take(k as int) =~= ps);
}

/// Renders a result as text, beginning with `header` on a line of its own.
pub fn render_report(header: &[u8], result: &ComparisonResult) -> (r: Vec<u8>)
    ensures
        r@ == report_text(header@, result@),
{
    let mut out: Vec<u8> = Vec::new();
    append_bytes(&mut out, header);
    out.push(NEWLINE);
    let lm: Vec<u8> = vec![60u8, 32u8];
    let rm: Vec<u8> = vec![62u8, 32u8];
    let dm: Vec<u8> = vec![33u8, 32u8];
    assert(lm@ =~= left_mark());
    assert(rm@ =~= right_mark());
    assert(dm@ =~= differ_mark());
    append_lines(&mut out, lm.as_slice(), &result.only_in_left);
    append_lines(&mut out, rm.as_slice(), &result.only_in_right);
    append_lines(&mut out, dm.as_slice(), &result.differing);
    assert(out@ =~= report_text(header@, result@));
    out
}

} // verus!
