//! The concat-style input list handed to the external muxer: one line per
//! record, `file '<path>'`, in ordinal order.

use vstd::prelude::*;

verus! {

/// The bytes of one list line for `path`: `file '` + path + `'` + line
/// feed.
pub open spec fn list_line(path: Seq<u8>) -> Seq<u8> {
    seq![102u8, 105u8, 108u8, 101u8, 32u8, 39u8] + path + seq![39u8, 10u8]
}

/// The whole input list for `paths`, in order.
pub open spec fn file_list_bytes(paths: Seq<Seq<u8>>) -> Seq<u8> {
    paths.map_values(|p: Seq<u8>| list_line(p)).flatten()
}

/// Render the input list for the given record paths.
pub fn build_file_list(paths: &Vec<Vec<u8>>) -> (r: Vec<u8>)
    ensures
        r@ == file_list_bytes(paths@.map_values(|p: Vec<u8>| p@)),
{
    let ghost ps = paths@.map_values(|p: Vec<u8>| p@);
    let ghost lines = ps.map_values(|p: Seq<u8>| list_line(p));
    let mut r: Vec<u8> = Vec::new();
    let mut i: usize = 0;
    proof {
        assert(lines.take(0) =~= Seq::<Seq<u8>>::empty());
        assert(lines.take(0).flatten() =~= Seq::<u8>::empty());
    }
    while i < paths.len()
        invariant
            i <= paths@.len(),
            ps == paths@.map_values(|p: Vec<u8>| p@),
            lines == ps.map_values(|p: Seq<u8>| list_line(p)),
            r@ == lines.take(i as int).flatten(),
        decreases paths@.len() - i,
    {
        let ghost base = r@;
        r.push(102);
        r.push(105);
        r.push(108);
        r.push(101);
        r.push(32);
        r.push(39);
        let ghost opened = r@;
        proof {
            assert(opened =~= base + seq![102u8, 105u8, 108u8, 101u8, 32u8, 39u8]);
        }
        let p = &paths[i];
        let mut j: usize = 0;
        while j < p.len()
            invariant
                j <= p@.len(),
                p@ == paths@[i as int]@,
                i < paths@.len(),
                r@ == opened + p@.subrange(0, j as int),
            decreases p@.len() - j,
        {
            r.push(p[j]);
            proof {
                assert(r@ =~= opened + p@.subrange(0, j + 1));
            }
            j = j + 1;
        }
        r.push(39);
        r.push(10);
        proof {
            assert(p@.subrange(0, p@.len() as int) =~= p@);
            assert(r@ =~= base + list_line(ps[i as int]));
            lines.take(i as int).lemma_flatten_push(lines[i as int]);
            assert(lines.take(i as int).push(lines[i as int]) =~= lines.take(i + 1));
        }
        i = i + 1;
    }
    proof {
        assert(lines.take(paths@.len() as int) =~= lines);
    }
    r
}

} // verus!
