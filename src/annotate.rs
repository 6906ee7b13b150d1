use vstd::prelude::*;

verus! {

/// The tag of the raw read.
pub open spec fn raw_tag() -> Seq<u8> {
    seq![67u8, 82, 58, 90, 58]
}

/// The tag of the corrected barcode, after a tab.
pub open spec fn corrected_tag() -> Seq<u8> {
    seq![9u8, 67, 66, 58, 90, 58]
}

/// The tag of the qualities, after a tab.
pub open spec fn quality_tag() -> Seq<u8> {
    seq![9u8, 67, 89, 58, 90, 58]
}

/// The description written for a read: `CR:Z:<raw>`, then `\tCB:Z:<corrected>` where the read
/// was corrected, then `\tCY:Z:<qualities>`.
pub open spec fn annotation_of(raw: Seq<u8>, corrected: Option<Seq<u8>>, qual: Seq<u8>) -> Seq<u8> {
    let middle = match corrected {
        Some(c) => corrected_tag() + c,
        None => Seq::<u8>::empty(),
    };
    raw_tag() + raw + middle + quality_tag() + qual
}

fn push_all(out: &mut Vec<u8>, s: &[u8])
    ensures
        final(out)@ == old(out)@ + s@,
{
    let mut i: usize = 0;
    while i < s.len()
        invariant
            i <= s@.len(),
            out@ == old(out)@ + s@.take(i as int),
        decreases s@.len() - i,
    {
        out.push(s[i]);
        i += 1;
        assert(out@ =~= old(out)@ + s@.take(i as int));
    }
    assert(s@.take(i as int) =~= s@);
}

/// The description of a read with its raw bases, its correction if any, and its qualities.
pub fn annotation(raw: &[u8], corrected: Option<&[u8]>, qual: &[u8]) -> (r: Vec<u8>)
    ensures
        r@ == annotation_of(
            raw@,
            match corrected {
                Some(c) => Some(c@),
                None => None,
            },
            qual@,
        ),
{
    let mut out: Vec<u8> = Vec::new();
    out.push(67);
    out.push(82);
    out.push(58);
    out.push(90);
    out.push(58);
    assert(out@ =~= raw_tag());
    push_all(&mut out, raw);
    let ghost head = out@;
    match corrected {
        Some(c) => {
            out.push(9);
            out.push(67);
            out.push(66);
            out.push(58);
            out.push(90);
            out.push(58);
            assert(out@ =~= head + corrected_tag());
            push_all(&mut out, c);
            assert(out@ =~= head + (corrected_tag() + c@));
        },
        None => {
            assert(out@ =~= head + Seq::<u8>::empty());
        },
    }
    let ghost mid = out@;
    out.push(9);
    out.push(67);
    out.push(89);
    out.push(58);
    out.push(90);
    out.push(58);
    assert(out@ =~= mid + quality_tag());
    push_all(&mut out, qual);
    out
}

} // verus!
