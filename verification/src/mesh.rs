//! Index lists of the simple meshes the renderer draws.
use vstd::prelude::*;

verus! {

/// The triangles of a cone whose base ring has `n` vertices, numbered `0..n`, and whose tip is
/// vertex `n`: triangle `i` joins ring vertex `i`, the next ring vertex (wrapping round), and
/// the tip.
pub fn cone_indices(n: usize) -> (indices: Vec<u32>)
    requires
        n < u32::MAX,
        3 * n <= usize::MAX,
    ensures
        indices@.len() == 3 * n,
        forall|i: int|
            0 <= i < n ==> {
                &&& #[trigger] indices@[3 * i] == i
                &&& indices@[3 * i + 1] == (i + 1) % (n as int)
                &&& indices@[3 * i + 2] == n
            },
{
    let mut indices: Vec<u32> = Vec::new();
    let mut i: usize = 0;
    while i < n
        invariant
            n < u32::MAX,
            0 <= i <= n,
            indices@.len() == 3 * i,
            forall|k: int|
                0 <= k < i ==> {
                    &&& #[trigger] indices@[3 * k] == k
                    &&& indices@[3 * k + 1] == (k + 1) % (n as int)
                    &&& indices@[3 * k + 2] == n
                },
        decreases n - i,
    {
        let i1 = (i + 1) % n;
        let ghost before = indices@;
        indices.push(i as u32);
        indices.push(i1 as u32);
        indices.push(n as u32);
        proof {
            assert forall|k: int| 0 <= k < i + 1 implies {
                &&& #[trigger] indices@[3 * k] == k
                &&& indices@[3 * k + 1] == (k + 1) % (n as int)
                &&& indices@[3 * k + 2] == n
            } by {
                if k < i {
                    assert(indices@[3 * k] == before[3 * k]);
                    assert(indices@[3 * k + 1] == before[3 * k + 1]);
                    assert(indices@[3 * k + 2] == before[3 * k + 2]);
                } else {
                    assert(indices@[3 * k] == i as u32);
                    assert(indices@[3 * k + 1] == i1 as u32);
                }
            }
        }
        i = i + 1;
    }
    indices
}

} // verus!
