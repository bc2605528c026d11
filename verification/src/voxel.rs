//! The integer side of marching cubes: the case number of a cube from which
//! corners are inside the surface; for each case, the cube edges that carry a
//! vertex and the triangles between them; and the indices a cube's triangles
//! add to the mesh.

use vstd::prelude::*;

verus! {

/// The number of edges of a cube.
pub const NUM_EDGES: u8 = 12;

/// The edge ids of `raw_tris`, triangle after triangle.
pub open spec fn flat_edges(raw_tris: Seq<[u8; 3]>) -> Seq<u8> {
    Seq::new(3 * raw_tris.len(), |p: int| raw_tris[p / 3][p % 3])
}

/// The values of `s`, each once, in the order they first occur.
pub open spec fn first_occurrences(s: Seq<u8>) -> Seq<u8>
    decreases s.len(),
{
    if s.len() == 0 {
        Seq::empty()
    } else {
        let p = first_occurrences(s.drop_last());
        if p.contains(s.last()) {
            p
        } else {
            p.push(s.last())
        }
    }
}

/// One case of marching cubes: the cube edges that carry a vertex, each once,
/// and the triangles, each as three indices into `edges`.
pub struct Case {
    pub edges: Vec<u8>,
    pub tris: Vec<[usize; 3]>,
}

impl Case {
    /// Builds a case from its triangles given as edge ids: each edge gets a
    /// vertex the first time a triangle names it, and the triangles name the
    /// vertices of their edges.
    pub fn from_raw(raw_tris: &[[u8; 3]]) -> (r: Case)
        requires
            forall|k: int, i: int| 0 <= k < raw_tris@.len() && 0 <= i < 3 ==> #[trigger] raw_tris@[k][i] < NUM_EDGES,
        ensures
            r.edges@ == first_occurrences(flat_edges(raw_tris@)),
            r.tris@.len() == raw_tris@.len(),
            forall|k: int, i: int|
                0 <= k < raw_tris@.len() && 0 <= i < 3 ==> {
                    &&& (#[trigger] r.tris@[k][i]) < r.edges@.len()
                    &&& r.edges@[r.tris@[k][i] as int] == raw_tris@[k][i]
                },
    {
        let ghost flat = flat_edges(raw_tris@);
        let mut edges: Vec<u8> = Vec::new();
        let mut edge_map: Vec<Option<usize>> = Vec::new();
        let mut e: u8 = 0;
        while e < NUM_EDGES
            invariant
                e <= NUM_EDGES,
                edge_map@.len() == e,
                forall|x: int| 0 <= x < e ==> (#[trigger] edge_map@[x]) is None,
            decreases NUM_EDGES - e,
        {
            edge_map.push(None);
            e += 1;
        }
        let mut tris: Vec<[usize; 3]> = Vec::new();
        let mut k: usize = 0;
        while k < raw_tris.len()
            invariant
                k <= raw_tris@.len(),
                flat == flat_edges(raw_tris@),
                forall|k2: int, i: int| 0 <= k2 < raw_tris@.len() && 0 <= i < 3 ==> #[trigger] raw_tris@[k2][i] < NUM_EDGES,
                edge_map@.len() == NUM_EDGES,
                edges@ == first_occurrences(flat.subrange(0, 3 * k as int)),
                forall|x: int| 0 <= x < NUM_EDGES ==> match #[trigger] edge_map@[x] {
                    Some(j) => j < edges@.len() && edges@[j as int] == x,
                    None => !edges@.contains(x as u8),
                },
                forall|j: int| 0 <= j < edges@.len() ==> (#[trigger] edges@[j]) < NUM_EDGES,
                tris@.len() == k,
                forall|k2: int, i: int|
                    0 <= k2 < k && 0 <= i < 3 ==> {
                        &&& (#[trigger] tris@[k2][i]) < edges@.len()
                        &&& edges@[tris@[k2][i] as int] == raw_tris@[k2][i]
                    },
            decreases raw_tris@.len() - k,
        {
            let raw_tri = raw_tris[k];
            let mut tri: [usize; 3] = [0, 0, 0];
            let mut i: usize = 0;
            while i < 3
                invariant
                    k < raw_tris@.len(),
                    raw_tri == raw_tris@[k as int],
                    i <= 3,
                    flat == flat_edges(raw_tris@),
                    forall|k2: int, i2: int| 0 <= k2 < raw_tris@.len() && 0 <= i2 < 3 ==> #[trigger] raw_tris@[k2][i2] < NUM_EDGES,
                    edge_map@.len() == NUM_EDGES,
                    edges@ == first_occurrences(flat.subrange(0, 3 * k + i)),
                    forall|x: int| 0 <= x < NUM_EDGES ==> match #[trigger] edge_map@[x] {
                        Some(j) => j < edges@.len() && edges@[j as int] == x,
                        None => !edges@.contains(x as u8),
                    },
                    forall|j: int| 0 <= j < edges@.len() ==> (#[trigger] edges@[j]) < NUM_EDGES,
                    forall|i2: int| 0 <= i2 < i ==> {
                        &&& (#[trigger] tri@[i2]) < edges@.len()
                        &&& edges@[tri@[i2] as int] == raw_tri[i2]
                    },
                    tris@.len() == k,
                    forall|k2: int, i2: int|
                        0 <= k2 < k && 0 <= i2 < 3 ==> {
                            &&& (#[trigger] tris@[k2][i2]) < edges@.len()
                            &&& edges@[tris@[k2][i2] as int] == raw_tris@[k2][i2]
                        },
                decreases 3 - i,
            {
                let edge = raw_tri[i];
                proof {
                    assert(raw_tri[i as int] == raw_tris@[k as int][i as int]);
                    let p = 3 * k + i;
                    assert(flat[p] == edge) by {
                        assert(p / 3 == k as int) by (nonlinear_arith)
                            requires p == 3 * k + i, 0 <= i < 3;
                        assert(p % 3 == i as int) by (nonlinear_arith)
                            requires p == 3 * k + i, 0 <= i < 3;
                    }
                    assert(3 * k + i < flat.len()) by (nonlinear_arith)
                        requires k < raw_tris@.len(), i < 3, flat.len() == 3 * raw_tris@.len();
                    assert(flat.subrange(0, p + 1).drop_last() =~= flat.subrange(0, p));
                }
                let ghost old_edges = edges@;
                let v = match edge_map[edge as usize] {
                    Some(j) => {
                        assert(old_edges.contains(edge));
                        j
                    },
                    None => {
                        let j = edges.len();
                        edges.push(edge);
                        edge_map.set(edge as usize, Some(j));
                        proof {
                            assert forall|x: int| 0 <= x < NUM_EDGES implies match #[trigger] edge_map@[x] {
                                Some(j2) => j2 < edges@.len() && edges@[j2 as int] == x,
                                None => !edges@.contains(x as u8),
                            } by {
                                if x != edge as int {
                                    if edges@.contains(x as u8) {
                                        let j3 = choose|j3: int| 0 <= j3 < edges@.len() && edges@[j3] == x as u8;
                                        if j3 < old_edges.len() {
                                            assert(old_edges.contains(x as u8));
                                        }
                                    }
                                }
                            }
                        }
                        j
                    },
                };
                tri[i] = v;
                i += 1;
            }
            tris.push(tri);
            proof {
                assert(3 * k + 3 == 3 * (k + 1));
            }
            k += 1;
        }
        proof {
            assert(flat.subrange(0, 3 * raw_tris@.len() as int) =~= flat);
        }
        Case { edges, tris }
    }
}

/// The case number of a cube whose corners inside the surface are those of
/// `inside` set: bit `c` stands for corner `c`.
pub open spec fn case_number(inside: Seq<bool>, n: int) -> nat
    decreases n,
{
    if n <= 0 {
        0
    } else {
        case_number(inside, n - 1) + if inside[n - 1] {
            vstd::arithmetic::power2::pow2((n - 1) as nat)
        } else {
            0
        }
    }
}

proof fn lemma_case_number_bound(inside: Seq<bool>, n: int)
    requires
        0 <= n,
    ensures
        case_number(inside, n) < vstd::arithmetic::power2::pow2(n as nat),
    decreases n,
{
    if n > 0 {
        lemma_case_number_bound(inside, n - 1);
        vstd::arithmetic::power2::lemma_pow2_unfold(n as nat);
    } else {
        vstd::arithmetic::power2::lemma2_to64();
    }
}

/// The case number of a cube from which of its eight corners are inside the
/// surface.
pub fn cell_case(inside: &[bool; 8]) -> (r: u8)
    ensures
        r as nat == case_number(inside@, 8),
{
    let mut case: u16 = 0;
    let mut bit: u16 = 1;
    let mut c: usize = 0;
    proof {
        vstd::arithmetic::power2::lemma2_to64();
    }
    while c < 8
        invariant
            c <= 8,
            bit as nat == vstd::arithmetic::power2::pow2(c as nat),
            case as nat == case_number(inside@, c as int),
            case < bit,
            bit <= 256,
        decreases 8 - c,
    {
        proof {
            vstd::arithmetic::power2::lemma2_to64();
            lemma_case_number_bound(inside@, c as int);
        }
        if inside[c] {
            case = case + bit;
        }
        proof {
            vstd::arithmetic::power2::lemma_pow2_unfold((c + 1) as nat);
        }
        bit = bit * 2;
        c += 1;
    }
    proof {
        vstd::arithmetic::power2::lemma2_to64();
    }
    case as u8
}

/// Appends the corners of the triangles `tris` of one cube as indices of
/// the mesh's vertices, whose first for this cube is at `base`; each index is
/// kept in 16 bits, cut to its low bits when larger.
pub fn append_cell_indices(indices: &mut Vec<u16>, base: usize, tris: &[[usize; 3]])
    requires
        forall|k: int, i: int| 0 <= k < tris@.len() && 0 <= i < 3 ==> base + #[trigger] tris@[k][i] <= usize::MAX,
    ensures
        final(indices)@.len() == old(indices)@.len() + 3 * tris@.len(),
        forall|j: int| 0 <= j < old(indices)@.len() ==> #[trigger] final(indices)@[j] == old(indices)@[j],
        forall|k: int, i: int|
            0 <= k < tris@.len() && 0 <= i < 3 ==> final(indices)@[old(indices)@.len() + 3 * k + i] == ((base + #[trigger] tris@[k][i])
                % 65536) as u16,
{
    let ghost start = indices@;
    let mut k: usize = 0;
    while k < tris.len()
        invariant
            k <= tris@.len(),
            forall|k2: int, i: int| 0 <= k2 < tris@.len() && 0 <= i < 3 ==> base + #[trigger] tris@[k2][i] <= usize::MAX,
            indices@.len() == start.len() + 3 * k,
            forall|j: int| 0 <= j < start.len() ==> #[trigger] indices@[j] == start[j],
            forall|k2: int, i: int|
                0 <= k2 < k && 0 <= i < 3 ==> indices@[start.len() + 3 * k2 + i] == ((base + #[trigger] tris@[k2][i]) % 65536) as u16,
        decreases tris@.len() - k,
    {
        let tri = tris[k];
        let mut i: usize = 0;
        while i < 3
            invariant
                k < tris@.len(),
                tri == tris@[k as int],
                i <= 3,
                forall|k2: int, i2: int| 0 <= k2 < tris@.len() && 0 <= i2 < 3 ==> base + #[trigger] tris@[k2][i2] <= usize::MAX,
                indices@.len() == start.len() + 3 * k + i,
                forall|j: int| 0 <= j < start.len() ==> #[trigger] indices@[j] == start[j],
                forall|k2: int, i2: int|
                    0 <= k2 < k && 0 <= i2 < 3 ==> indices@[start.len() + 3 * k2 + i2] == ((base + #[trigger] tris@[k2][i2]) % 65536) as u16,
                forall|i2: int| 0 <= i2 < i ==> indices@[start.len() + 3 * k + i2] == ((base + #[trigger] tri[i2]) % 65536) as u16,
            decreases 3 - i,
        {
            assert(tri[i as int] == tris@[k as int][i as int]);
            let v = base + tri[i];
            indices.push((v % 65536) as u16);
            i += 1;
        }
        proof {
            assert forall|k2: int, i2: int|
                0 <= k2 < k + 1 && 0 <= i2 < 3 implies indices@[start.len() + 3 * k2 + i2] == ((base + #[trigger] tris@[k2][i2]) % 65536) as u16 by {
                if k2 == k {
                    assert(tri[i2] == tris@[k as int][i2]);
                }
            }
        }
        k += 1;
    }
}

} // verus!
