use vstd::prelude::*;

verus! {

/// Index of a model vertex.
pub type VertexIndex = u16;

/// Three vertex indices.
pub type Triangle = [VertexIndex; 3];

/// The triangles among the first `n` that are kept, in their order.
pub open spec fn kept_triangles(triangles: Seq<Triangle>, keep: Seq<bool>, n: int) -> Seq<Triangle>
    decreases n,
{
    if n <= 0 {
        Seq::empty()
    } else if keep[n - 1] {
        kept_triangles(triangles, keep, n - 1).push(triangles[n - 1])
    } else {
        kept_triangles(triangles, keep, n - 1)
    }
}

proof fn lemma_kept_len(triangles: Seq<Triangle>, keep: Seq<bool>, n: int, m: int)
    requires
        0 <= n <= m,
    ensures
        kept_triangles(triangles, keep, n).len() <= kept_triangles(triangles, keep, m).len(),
        kept_triangles(triangles, keep, n).len() <= n,
    decreases m,
{
    if m > n {
        lemma_kept_len(triangles, keep, n, m - 1);
    } else if n > 0 {
        lemma_kept_len(triangles, keep, n - 1, n - 1);
    }
}

/// Copies the triangles that face the viewer (`front_facing[k]` for triangle `k`, decided from the
/// transformed vertices) to the start of `out_triangles`, in their order; returns how many there are.
pub fn reject_triangle_model_back_faces(
    triangles: &Vec<Triangle>,
    front_facing: &Vec<bool>,
    out_triangles: &mut Vec<Triangle>,
) -> (r: usize)
    requires
        front_facing@.len() == triangles@.len(),
        kept_triangles(triangles@, front_facing@, triangles@.len() as int).len() <= old(out_triangles)@.len(),
    ensures
        final(out_triangles)@.len() == old(out_triangles)@.len(),
        r == kept_triangles(triangles@, front_facing@, triangles@.len() as int).len(),
        final(out_triangles)@.take(r as int) == kept_triangles(triangles@, front_facing@, triangles@.len() as int),
        final(out_triangles)@.skip(r as int) == old(out_triangles)@.skip(r as int),
{
    let n = triangles.len();
    let mut num_visible: usize = 0;
    let mut k: usize = 0;
    while k < n
        invariant
            n == triangles@.len(),
            front_facing@.len() == n,
            k <= n,
            kept_triangles(triangles@, front_facing@, n as int).len() <= out_triangles@.len(),
            out_triangles@.len() == old(out_triangles)@.len(),
            num_visible == kept_triangles(triangles@, front_facing@, k as int).len(),
            out_triangles@.take(num_visible as int) == kept_triangles(triangles@, front_facing@, k as int),
            forall|i: int| num_visible <= i < out_triangles@.len() ==> #[trigger] out_triangles@[i] == old(out_triangles)@[i],
        decreases n - k,
    {
        proof {
            lemma_kept_len(triangles@, front_facing@, k as int + 1, n as int);
        }
        if front_facing[k] {
            out_triangles.set(num_visible, triangles[k]);
            num_visible = num_visible + 1;
            assert(out_triangles@.take(num_visible as int) =~= kept_triangles(triangles@, front_facing@, k as int + 1));
        }
        k = k + 1;
    }
    assert(out_triangles@.skip(num_visible as int) =~= old(out_triangles)@.skip(num_visible as int));
    num_visible
}

/// Depth key of a triangle: the greatest key of its three vertices.
pub open spec fn triangle_key(vertex_keys: Seq<i32>, t: Triangle) -> i32 {
    let a = vertex_keys[t[0] as int];
    let b = vertex_keys[t[1] as int];
    let c = vertex_keys[t[2] as int];
    let ab = if a > b {
        a
    } else {
        b
    };
    if ab > c {
        ab
    } else {
        c
    }
}

/// The triangles are ordered from the greatest depth key to the smallest.
pub open spec fn sorted_far_to_near(vertex_keys: Seq<i32>, triangles: Seq<Triangle>) -> bool {
    forall|a: int, b: int|
        0 <= a < b < triangles.len() ==> triangle_key(vertex_keys, #[trigger] triangles[a]) >= triangle_key(
            vertex_keys,
            #[trigger] triangles[b],
        )
}

/// Every vertex index of the triangles names a vertex.
pub open spec fn indices_valid(num_vertices: int, triangles: Seq<Triangle>) -> bool {
    forall|k: int, c: int| 0 <= k < triangles.len() && 0 <= c < 3 ==> (#[trigger] triangles[k][c]) < num_vertices
}

fn max_key(vertex_keys: &Vec<i32>, t: Triangle) -> (r: i32)
    requires
        t[0] < vertex_keys@.len(),
        t[1] < vertex_keys@.len(),
        t[2] < vertex_keys@.len(),
    ensures
        r == triangle_key(vertex_keys@, t),
{
    let a = vertex_keys[t[0] as usize];
    let b = vertex_keys[t[1] as usize];
    let c = vertex_keys[t[2] as usize];
    let ab = if a > b {
        a
    } else {
        b
    };
    if ab > c {
        ab
    } else {
        c
    }
}

/// Sorts the triangles from far to near, by the greatest depth key of their vertices
/// (`vertex_keys[v]` orders vertex `v` by its depth, greater is farther). Triangles with equal keys
/// may come in any order.
pub fn sort_model_triangles(vertex_keys: &Vec<i32>, triangles: &mut Vec<Triangle>)
    requires
        indices_valid(vertex_keys@.len() as int, old(triangles)@),
    ensures
        final(triangles)@.len() == old(triangles)@.len(),
        final(triangles)@.to_multiset() == old(triangles)@.to_multiset(),
        sorted_far_to_near(vertex_keys@, final(triangles)@),
{
    let n = triangles.len();
    if n == 0 {
        return;
    }
    let mut i: usize = 1;
    while i < n
        invariant
            1 <= i <= n,
            n == triangles@.len(),
            indices_valid(vertex_keys@.len() as int, triangles@),
            triangles@.to_multiset() == old(triangles)@.to_multiset(),
            forall|a: int, b: int|
                0 <= a < b < i ==> triangle_key(vertex_keys@, #[trigger] triangles@[a]) >= triangle_key(
                    vertex_keys@,
                    #[trigger] triangles@[b],
                ),
        decreases n - i,
    {
        let mut j = i;
        while j > 0 && max_key(vertex_keys, triangles[j - 1]) < max_key(vertex_keys, triangles[j])
            invariant
                0 <= j <= i < n,
                n == triangles@.len(),
                indices_valid(vertex_keys@.len() as int, triangles@),
                triangles@.to_multiset() == old(triangles)@.to_multiset(),
                forall|a: int, b: int|
                    0 <= a < b <= i && a != j && b != j ==> triangle_key(vertex_keys@, #[trigger] triangles@[a])
                        >= triangle_key(vertex_keys@, #[trigger] triangles@[b]),
                forall|b: int|
                    j < b <= i ==> triangle_key(vertex_keys@, triangles@[j as int]) >= triangle_key(
                        vertex_keys@,
                        #[trigger] triangles@[b],
                    ),
            decreases j,
        {
            let ghost before = triangles@;
            let left = triangles[j - 1];
            let right = triangles[j];
            triangles.set(j - 1, right);
            triangles.set(j, left);
            proof {
                crate::seq_util::lemma_swap_multiset(before, j - 1, j as int);
                assert(triangles@ =~= before.update(j - 1, before[j as int]).update(j as int, before[j - 1]));
                assert forall|k: int, c: int| 0 <= k < triangles@.len() && 0 <= c < 3 implies (
                #[trigger] triangles@[k][c]) < vertex_keys@.len() by {
                    if k == j - 1 {
                        assert(triangles@[k] == before[j as int]);
                    } else if k == j {
                        assert(triangles@[k] == before[j - 1]);
                    } else {
                        assert(triangles@[k] == before[k]);
                    }
                }
                assert forall|a: int, b: int|
                    0 <= a < b <= i && a != j - 1 && b != j - 1 implies triangle_key(
                    vertex_keys@,
                    #[trigger] triangles@[a],
                ) >= triangle_key(vertex_keys@, #[trigger] triangles@[b]) by {
                    if a == j {
                        assert(triangles@[a] == before[j - 1]);
                        assert(triangle_key(vertex_keys@, before[j - 1]) >= triangle_key(vertex_keys@, before[b]));
                    } else if b == j {
                        assert(triangles@[b] == before[j - 1]);
                        assert(triangle_key(vertex_keys@, before[a]) >= triangle_key(vertex_keys@, before[j - 1]));
                    } else {
                        assert(triangle_key(vertex_keys@, before[a]) >= triangle_key(vertex_keys@, before[b]));
                    }
                }
                assert forall|b: int| j - 1 < b <= i implies triangle_key(vertex_keys@, triangles@[j - 1])
                    >= triangle_key(vertex_keys@, #[trigger] triangles@[b]) by {
                    if b == j {
                    } else {
                        assert(triangle_key(vertex_keys@, before[j as int]) >= triangle_key(vertex_keys@, before[b]));
                    }
                }
            }
            j = j - 1;
        }
        proof {
            assert forall|a: int, b: int| 0 <= a < b < i + 1 implies triangle_key(
                vertex_keys@,
                #[trigger] triangles@[a],
            ) >= triangle_key(vertex_keys@, #[trigger] triangles@[b]) by {
                if a != j && b != j {
                } else if a == j {
                } else {
                    // b == j: the element before j is no smaller, or j is at the start.
                    assert(j > 0);
                    if a < j - 1 {
                        assert(triangle_key(vertex_keys@, triangles@[a]) >= triangle_key(
                            vertex_keys@,
                            triangles@[j - 1],
                        ));
                    }
                }
            }
        }
        i = i + 1;
    }
}


/// The depth key of a triangle is the greatest key of its vertices: no smaller than the key of any
/// of its three vertices, and equal to the key of one of them.
pub proof fn lemma_triangle_key_is_max(vertex_keys: Seq<i32>, t: Triangle)
    ensures
        forall|c: int| 0 <= c < 3 ==> triangle_key(vertex_keys, t) >= #[trigger] vertex_keys[t[c] as int],
        exists|c: int| 0 <= c < 3 && triangle_key(vertex_keys, t) == #[trigger] vertex_keys[t[c] as int],
{
    let k = triangle_key(vertex_keys, t);
    assert forall|c: int| 0 <= c < 3 implies k >= #[trigger] vertex_keys[t[c] as int] by {
        if c == 0 {
        } else if c == 1 {
        } else {
        }
    }
    if k == vertex_keys[t[0] as int] {
        assert(0 <= 0int < 3 && k == vertex_keys[t[0int] as int]);
    } else if k == vertex_keys[t[1] as int] {
        assert(0 <= 1int < 3 && k == vertex_keys[t[1int] as int]);
    } else {
        assert(0 <= 2int < 3 && k == vertex_keys[t[2int] as int]);
    }
}

/// Some vertex of `t` has a key of at least `k`.
pub open spec fn has_vertex_at_least(vertex_keys: Seq<i32>, t: Triangle, k: i32) -> bool {
    exists|d: int| 0 <= d < 3 && vertex_keys[t[d] as int] >= k
}

/// Triangles ordered far to near are drawn farthest first: the farthest vertex of a triangle is at
/// least as far as every vertex of each triangle after it.
pub proof fn lemma_sorted_triangles_far_first(vertex_keys: Seq<i32>, triangles: Seq<Triangle>)
    requires
        sorted_far_to_near(vertex_keys, triangles),
    ensures
        forall|a: int, b: int, c: int|
            0 <= a < b < triangles.len() && 0 <= c < 3 ==> has_vertex_at_least(
                vertex_keys,
                #[trigger] triangles[a],
                vertex_keys[#[trigger] triangles[b][c] as int],
            ),
{
    assert forall|a: int, b: int, c: int| 0 <= a < b < triangles.len() && 0 <= c < 3 implies has_vertex_at_least(
        vertex_keys,
        #[trigger] triangles[a],
        vertex_keys[#[trigger] triangles[b][c] as int],
    ) by {
        let ta = triangles[a];
        let tb = triangles[b];
        lemma_triangle_key_is_max(vertex_keys, ta);
        lemma_triangle_key_is_max(vertex_keys, tb);
        assert(triangle_key(vertex_keys, ta) >= triangle_key(vertex_keys, tb));
        assert(vertex_keys[tb[c] as int] <= triangle_key(vertex_keys, tb));
        let k = vertex_keys[tb[c] as int];
        if triangle_key(vertex_keys, ta) == vertex_keys[ta[0] as int] {
            assert(0 <= 0int < 3 && vertex_keys[ta[0int] as int] >= k);
        } else if triangle_key(vertex_keys, ta) == vertex_keys[ta[1] as int] {
            assert(0 <= 1int < 3 && vertex_keys[ta[1int] as int] >= k);
        } else {
            assert(0 <= 2int < 3 && vertex_keys[ta[2int] as int] >= k);
        }
    }
}

} // verus!
