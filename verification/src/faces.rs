//! Faces of polyhedron cells: splitting a cell's node list at the face
//! separators, matching faces by their node sets, and the orientation of a
//! face relative to a reference face.
use vstd::prelude::*;
use vstd::multiset::group_multiset_axioms;
use vstd::seq_lib::group_to_multiset_ensures;

verus! {

/// The separator value that ends each face in a polyhedron cell's node list.
pub open spec fn separator() -> usize {
    usize::MAX
}

/// Two node lists hold the same nodes, each as many times (the same node set
/// once sorted).
pub open spec fn same_nodes(a: Seq<usize>, b: Seq<usize>) -> bool {
    a.to_multiset() == b.to_multiset()
}

/// Splitting state after a prefix of a cell: the faces completed so far and
/// the face being gathered.
pub open spec fn split_state(s: Seq<usize>) -> (Seq<Seq<usize>>, Seq<usize>)
    decreases s.len(),
{
    if s.len() == 0 {
        (Seq::empty(), Seq::empty())
    } else {
        let (faces, cur) = split_state(s.drop_last());
        if s.last() == separator() {
            if cur.len() > 0 {
                (faces.push(cur), Seq::empty())
            } else {
                (faces, Seq::empty())
            }
        } else {
            (faces, cur.push(s.last()))
        }
    }
}

/// The non-empty pieces of a cell's node list between separators, in order.
pub open spec fn split_faces(s: Seq<usize>) -> Seq<Seq<usize>> {
    let (faces, cur) = split_state(s);
    if cur.len() > 0 {
        faces.push(cur)
    } else {
        faces
    }
}

/// A polyhedron cell's node list made of faces, each followed by the separator.
pub open spec fn join_faces(faces: Seq<Seq<usize>>) -> Seq<usize> {
    separated(faces).flatten()
}

/// Each face followed by the separator.
pub open spec fn separated(faces: Seq<Seq<usize>>) -> Seq<Seq<usize>> {
    faces.map_values(|f: Seq<usize>| f.push(separator()))
}

/// Splitting never yields more faces than the cell has values.
pub proof fn lemma_split_faces_len(s: Seq<usize>)
    ensures
        split_faces(s).len() <= s.len(),
        split_state(s).0.len() + split_state(s).1.len() <= s.len(),
    decreases s.len(),
{
    if s.len() > 0 {
        lemma_split_faces_len(s.drop_last());
    }
}

/// Orientation of `face` relative to the reference face `canon` holding the
/// same nodes: `1` when the node after `canon[0]` in `face` is `canon[1]`
/// (or when the face has fewer than three nodes), `-1` otherwise.
pub open spec fn orientation(canon: Seq<usize>, face: Seq<usize>) -> i64 {
    let n = canon.len();
    if n < 3 {
        1i64
    } else {
        let p = face.index_of_first(canon[0]).unwrap();
        if face[(p + 1) % (n as int)] == canon[1] {
            1i64
        } else {
            -1i64
        }
    }
}

/// `p` read cyclically from position `r`: `p[r], p[r+1], ..., p[r-1]`.
pub open spec fn rotated(p: Seq<usize>, r: int) -> Seq<usize> {
    Seq::new(p.len(), |i: int| p[(i + r) % (p.len() as int)])
}

/// Reduction of a value below twice the modulus.
proof fn lemma_wrap(x: int, n: int)
    requires
        0 < n,
        0 <= x < 2 * n,
    ensures
        x % n == if x < n {
            x
        } else {
            x - n
        },
{
    if x < n {
        vstd::arithmetic::div_mod::lemma_small_mod(x as nat, n as nat);
    } else {
        vstd::arithmetic::div_mod::lemma_mod_add_multiples_vanish(x - n, n);
        vstd::arithmetic::div_mod::lemma_small_mod((x - n) as nat, n as nat);
    }
}

/// Position of the first occurrence of `p[k]` in a list whose position `q`
/// holds it, when every other position holds another node of `p`.
proof fn lemma_first_position(f: Seq<usize>, p: Seq<usize>, q: int)
    requires
        0 <= q < f.len(),
        p.len() > 0,
        f[q] == p[0],
        forall|t: int| 0 <= t < q ==> f[t] != p[0],
    ensures
        f.index_of_first(p[0]) == Some(q),
{
    f.index_of_first_ensures(p[0]);
    assert(f.contains(p[0]));
    let i = f.index_of_first(p[0]).unwrap();
    if i < q {
        assert(f[i] != p[0]);
    }
    if q < i {
        assert(f[q] != p[0]);
    }
}

/// A face listed in the cyclic order of the reference face, from any of its
/// nodes, has orientation `1`; listed in the opposite cyclic order (a face of
/// three or more distinct nodes), it has orientation `-1`.
pub proof fn law_orientation_of_rotations(p: Seq<usize>, r: int)
    requires
        p.no_duplicates(),
        0 <= r < p.len(),
    ensures
        orientation(p, rotated(p, r)) == 1,
        p.len() >= 3 ==> orientation(p, rotated(p.reverse(), r)) == -1,
{
    let n = p.len() as int;
    if n >= 3 {
        let f = rotated(p, r);
        let q = if r == 0 {
            0
        } else {
            n - r
        };
        lemma_wrap(q + r, n);
        assert(f[q] == p[0]);
        assert forall|t: int| 0 <= t < q implies f[t] != p[0] by {
            lemma_wrap(t + r, n);
        }
        lemma_first_position(f, p, q);
        lemma_wrap(q + 1, n);
        let q1 = (q + 1) % n;
        lemma_wrap(q1 + r, n);
        assert(f[q1] == p[1]);

        let g = rotated(p.reverse(), r);
        let h = n - 1 - r;
        lemma_wrap(h + r, n);
        assert(g[h] == p[0]);
        assert forall|t: int| 0 <= t < h implies g[t] != p[0] by {
            lemma_wrap(t + r, n);
            assert(p.reverse()[(t + r) % n] == p[n - 1 - (t + r)]);
        }
        lemma_first_position(g, p, h);
        lemma_wrap(h + 1, n);
        let h1 = (h + 1) % n;
        lemma_wrap(h1 + r, n);
        assert(g[h1] == p[n - 1]);
        assert(p[n - 1] != p[1]);
    }
}

/// Number of times `x` occurs in `s`.
fn count_of(s: &Vec<usize>, x: usize) -> (c: usize)
    ensures
        c == s@.to_multiset().count(x),
{
    broadcast use group_to_multiset_ensures, group_multiset_axioms;

    let mut c: usize = 0;
    let mut i: usize = 0;
    while i < s.len()
        invariant
            i <= s.len(),
            c == s@.take(i as int).to_multiset().count(x),
            c <= i,
        decreases s.len() - i,
    {
        proof {
            assert(s@.take(i + 1) =~= s@.take(i as int).push(s@[i as int]));
            vstd::seq_lib::to_multiset_build(s@.take(i as int), s@[i as int]);
            assert(s@.take(i + 1).to_multiset() =~= s@.take(i as int).to_multiset().insert(
                s@[i as int],
            ));
        }
        if s[i] == x {
            c = c + 1;
        }
        i = i + 1;
    }
    assert(s@.take(s.len() as int) =~= s@);
    c
}

/// Every node of `a` occurs in `b` as often as in `a`.
fn counts_agree(a: &Vec<usize>, b: &Vec<usize>) -> (r: bool)
    ensures
        r == (forall|k: int|
            0 <= k < a.len() ==> a@.to_multiset().count(#[trigger] a@[k]) == b@.to_multiset().count(
                a@[k],
            )),
{
    let mut i: usize = 0;
    while i < a.len()
        invariant
            i <= a.len(),
            forall|k: int|
                0 <= k < i ==> a@.to_multiset().count(#[trigger] a@[k]) == b@.to_multiset().count(
                    a@[k],
                ),
        decreases a.len() - i,
    {
        if count_of(a, a[i]) != count_of(b, a[i]) {
            return false;
        }
        i = i + 1;
    }
    true
}

/// Whether two node lists hold the same nodes, each as many times.
pub fn same_node_set(a: &Vec<usize>, b: &Vec<usize>) -> (r: bool)
    ensures
        r == same_nodes(a@, b@),
{
    broadcast use group_to_multiset_ensures;

    let ab = counts_agree(a, b);
    let ba = counts_agree(b, a);
    proof {
        if ab && ba {
            assert forall|x: usize| a@.to_multiset().count(x) == b@.to_multiset().count(x) by {
                if a@.contains(x) {
                    let k = choose|k: int| 0 <= k < a.len() && a@[k] == x;
                    assert(a@.to_multiset().count(a@[k]) == b@.to_multiset().count(a@[k]));
                } else if b@.contains(x) {
                    let k = choose|k: int| 0 <= k < b.len() && b@[k] == x;
                    assert(b@.to_multiset().count(b@[k]) == a@.to_multiset().count(b@[k]));
                }
            }
            assert(a@.to_multiset() =~= b@.to_multiset());
        } else if !ab {
            let k = choose|k: int|
                0 <= k < a.len() && a@.to_multiset().count(#[trigger] a@[k])
                    != b@.to_multiset().count(a@[k]);
            assert(a@.to_multiset().count(a@[k]) != b@.to_multiset().count(a@[k]));
        } else {
            let k = choose|k: int|
                0 <= k < b.len() && b@.to_multiset().count(#[trigger] b@[k])
                    != a@.to_multiset().count(b@[k]);
            assert(b@.to_multiset().count(b@[k]) != a@.to_multiset().count(b@[k]));
        }
    }
    ab && ba
}

/// Faces of a polyhedron cell: the non-empty runs of nodes between separators.
pub fn split_cell_faces(cell: &Vec<usize>) -> (faces: Vec<Vec<usize>>)
    ensures
        faces@.map_values(|f: Vec<usize>| f@) == split_faces(cell@),
{
    let mut faces: Vec<Vec<usize>> = Vec::new();
    let mut cur: Vec<usize> = Vec::new();
    let mut i: usize = 0;
    while i < cell.len()
        invariant
            i <= cell.len(),
            split_state(cell@.take(i as int)) == (faces@.map_values(|f: Vec<usize>| f@), cur@),
        decreases cell.len() - i,
    {
        let x = cell[i];
        assert(cell@.take(i + 1).drop_last() =~= cell@.take(i as int));
        if x == usize::MAX {
            if cur.len() > 0 {
                let ghost before = faces@;
                faces.push(cur);
                assert(faces@.map_values(|f: Vec<usize>| f@) =~= before.map_values(
                    |f: Vec<usize>| f@,
                ).push(cur@));
                cur = Vec::new();
            }
        } else {
            cur.push(x);
        }
        i = i + 1;
        proof {
            assert(split_state(cell@.take(i as int)).1 =~= cur@);
        }
    }
    assert(cell@.take(cell.len() as int) =~= cell@);
    if cur.len() > 0 {
        let ghost before = faces@;
        faces.push(cur);
        assert(faces@.map_values(|f: Vec<usize>| f@) =~= before.map_values(|f: Vec<usize>| f@).push(
            cur@,
        ));
    }
    faces
}

/// Orientation of `face` relative to the reference face `canon`, which holds
/// the same nodes.
pub fn face_orientation(canon: &Vec<usize>, face: &Vec<usize>) -> (o: i64)
    requires
        same_nodes(canon@, face@),
    ensures
        o == orientation(canon@, face@),
{
    broadcast use group_to_multiset_ensures;

    let n = canon.len();
    if n < 3 {
        return 1;
    }
    assert(face.len() == canon.len()) by {
        assert(canon@.to_multiset().len() == face@.to_multiset().len());
    }
    let x = canon[0];
    assert(face@.contains(x)) by {
        assert(canon@.contains(x)) by {
            assert(canon@[0] == x);
        }
        assert(canon@.to_multiset().count(x) > 0);
    }
    let mut p: usize = 0;
    while p < face.len() && face[p] != x
        invariant
            p <= face.len(),
            face@.contains(x),
            forall|t: int| 0 <= t < p ==> face@[t] != x,
        decreases face.len() - p,
    {
        p = p + 1;
    }
    proof {
        if p == face.len() {
            let t = choose|t: int| 0 <= t < face.len() && face@[t] == x;
            assert(face@[t] != x);
        }
        face@.index_of_first_ensures(x);
        let q = face@.index_of_first(x).unwrap();
        if q < p {
            assert(face@[q] != x);
        }
        if p < q {
            assert(face@[p as int] != x);
        }
    }
    if face[(p + 1) % n] == canon[1] {
        1
    } else {
        -1
    }
}

} // verus!
