//! The points of the boolean hypercube and its edges.
use vstd::arithmetic::power2::*;
use vstd::prelude::*;

verus! {

/// The `n` binary digits of `k` (of `k` modulo `2^n`), most significant first.
pub open spec fn bit_seq(k: nat, n: nat) -> Seq<u8>
    decreases n,
{
    if n == 0 {
        Seq::empty()
    } else {
        bit_seq(k / 2, (n - 1) as nat).push((k % 2) as u8)
    }
}

/// The number of positions at which `a` and `b` differ, over the length of `a`.
pub open spec fn diff_count(a: Seq<u8>, b: Seq<u8>) -> nat
    decreases a.len(),
{
    if a.len() == 0 {
        0
    } else {
        diff_count(a.drop_last(), b) + if a.last() != b[a.len() - 1] { 1nat } else { 0nat }
    }
}

/// Points `i < j` of the hypercube in `n` variables that differ in one coordinate.
pub open spec fn is_edge(i: nat, j: nat, n: nat) -> bool {
    i < j < pow2(n) && diff_count(bit_seq(i, n), bit_seq(j, n)) == 1
}

/// Pair `p` comes before pair `q`, first by the first point, then by the second.
pub open spec fn pair_before(p: (usize, usize), q: (usize, usize)) -> bool {
    p.0 < q.0 || (p.0 == q.0 && p.1 < q.1)
}

/// The points of the boolean hypercube in `num_vars` variables: point `k` holds the
/// binary digits of `k`, most significant first.
pub fn generate_hypercube(num_vars: usize) -> (r: Vec<Vec<u8>>)
    requires
        num_vars < usize::BITS,
    ensures
        r.len() == pow2(num_vars as nat),
        forall|k: int| 0 <= k < r.len() ==> (#[trigger] r[k])@ == bit_seq(k as nat, num_vars as nat),
{
    let mut cube: Vec<Vec<u8>> = vec![Vec::new()];
    proof {
        lemma2_to64();
        assert(cube[0]@ =~= bit_seq(0, 0));
    }
    let mut i: usize = 0;
    while i < num_vars
        invariant
            i <= num_vars < usize::BITS,
            cube.len() == pow2(i as nat),
            forall|k: int| 0 <= k < cube.len() ==> (#[trigger] cube[k])@ == bit_seq(k as nat, i as nat),
        decreases num_vars - i,
    {
        proof {
            lemma_pow2_unfold((i + 1) as nat);
            vstd::bits::lemma_usize_pow2_no_overflow((i + 1) as nat);
        }
        let mut next: Vec<Vec<u8>> = Vec::new();
        let mut k: usize = 0;
        while k < cube.len()
            invariant
                k <= cube.len(),
                cube.len() == pow2(i as nat),
                2 * pow2(i as nat) <= usize::MAX,
                next.len() == 2 * k,
                forall|m: int| 0 <= m < cube.len() ==> (#[trigger] cube[m])@ == bit_seq(m as nat, i as nat),
                forall|m: int|
                    0 <= m < next.len() ==> (#[trigger] next[m])@ == bit_seq(m as nat, (i + 1) as nat),
            decreases cube.len() - k,
        {
            let mut zero = cube[k].clone();
            zero.push(0);
            let mut one = cube[k].clone();
            one.push(1);
            proof {
                assert(bit_seq((2 * k) as nat, (i + 1) as nat) == bit_seq(k as nat, i as nat).push(0u8));
                assert(bit_seq((2 * k + 1) as nat, (i + 1) as nat) == bit_seq(k as nat, i as nat).push(1u8));
            }
            next.push(zero);
            next.push(one);
            k = k + 1;
        }
        cube = next;
        i = i + 1;
    }
    cube
}

/// The number of coordinates at which two points differ.
fn differing(a: &Vec<u8>, b: &Vec<u8>) -> (r: usize)
    requires
        a.len() <= b.len(),
    ensures
        r == diff_count(a@, b@),
{
    let mut count: usize = 0;
    let mut t: usize = 0;
    while t < a.len()
        invariant
            t <= a.len() <= b.len(),
            count <= t,
            count == diff_count(a@.subrange(0, t as int), b@),
        decreases a.len() - t,
    {
        proof {
            assert(a@.subrange(0, t + 1).drop_last() =~= a@.subrange(0, t as int));
        }
        if a[t] != b[t] {
            count = count + 1;
        }
        t = t + 1;
    }
    assert(a@.subrange(0, a.len() as int) =~= a@);
    count
}

/// The edges of the hypercube in `num_vars` variables: the pairs of points `i < j`
/// that differ in exactly one coordinate, ordered by `i`, then by `j`.
pub fn hypercube_edges(num_vars: usize) -> (r: Vec<(usize, usize)>)
    requires
        num_vars < usize::BITS,
    ensures
        forall|e: int| 0 <= e < r.len() ==> is_edge((#[trigger] r[e]).0 as nat, r[e].1 as nat, num_vars as nat),
        forall|e: int, f: int| 0 <= e < f < r.len() ==> pair_before(#[trigger] r[e], #[trigger] r[f]),
        forall|i: nat, j: nat|
            #[trigger] is_edge(i, j, num_vars as nat) ==> exists|e: int|
                0 <= e < r.len() && r[e] == (i as usize, j as usize),
{
    let cube = generate_hypercube(num_vars);
    let n = cube.len();
    let ghost nv = num_vars as nat;
    let mut edges: Vec<(usize, usize)> = Vec::new();
    let mut i: usize = 0;
    while i < n
        invariant
            i <= n,
            n == cube.len(),
            n == pow2(nv),
            forall|k: int| 0 <= k < cube.len() ==> (#[trigger] cube[k])@ == bit_seq(k as nat, nv),
            forall|e: int| 0 <= e < edges.len() ==> is_edge((#[trigger] edges[e]).0 as nat, edges[e].1 as nat, nv),
            forall|e: int| 0 <= e < edges.len() ==> (#[trigger] edges[e]).0 < i,
            forall|e: int, f: int| 0 <= e < f < edges.len() ==> pair_before(#[trigger] edges[e], #[trigger] edges[f]),
            forall|a: nat, b: nat|
                #[trigger] is_edge(a, b, nv) && a < i ==> exists|e: int|
                    0 <= e < edges.len() && edges[e] == (a as usize, b as usize),
        decreases n - i,
    {
        let mut j: usize = i + 1;
        while j < n
            invariant
                i < n,
                i + 1 <= j <= n,
                n == cube.len(),
                n == pow2(nv),
                forall|k: int| 0 <= k < cube.len() ==> (#[trigger] cube[k])@ == bit_seq(k as nat, nv),
                forall|e: int| 0 <= e < edges.len() ==> is_edge((#[trigger] edges[e]).0 as nat, edges[e].1 as nat, nv),
                forall|e: int| 0 <= e < edges.len() ==> (#[trigger] edges[e]).0 < i || (edges[e].0 == i && edges[e].1 < j),
                forall|e: int, f: int| 0 <= e < f < edges.len() ==> pair_before(#[trigger] edges[e], #[trigger] edges[f]),
                forall|a: nat, b: nat|
                    #[trigger] is_edge(a, b, nv) && (a < i || (a == i && b < j)) ==> exists|e: int|
                        0 <= e < edges.len() && edges[e] == (a as usize, b as usize),
            decreases n - j,
        {
            proof {
                assert(cube[i as int]@ == bit_seq(i as nat, nv));
                assert(cube[j as int]@ == bit_seq(j as nat, nv));
                lemma_bit_seq_len(i as nat, nv);
                lemma_bit_seq_len(j as nat, nv);
            }
            let diff = differing(&cube[i], &cube[j]);
            if diff == 1 {
                let ghost old_edges = edges@;
                edges.push((i, j));
                proof {
                    assert forall|a: nat, b: nat|
                        #[trigger] is_edge(a, b, nv) && (a < i || (a == i && b < j + 1)) implies exists|e: int|
                            0 <= e < edges.len() && edges[e] == (a as usize, b as usize) by {
                        if a == i && b == j {
                            assert(edges[edges.len() - 1] == (a as usize, b as usize));
                        } else {
                            let e = choose|e: int| 0 <= e < old_edges.len() && old_edges[e] == (a as usize, b as usize);
                            assert(edges[e] == old_edges[e]);
                        }
                    }
                }
            } else {
                proof {
                    assert forall|a: nat, b: nat|
                        #[trigger] is_edge(a, b, nv) && (a < i || (a == i && b < j + 1)) implies exists|e: int|
                            0 <= e < edges.len() && edges[e] == (a as usize, b as usize) by {
                        if a == i && b == j {
                            assert(false);
                        }
                    }
                }
            }
            j = j + 1;
        }
        proof {
            assert forall|a: nat, b: nat|
                #[trigger] is_edge(a, b, nv) && a < i + 1 implies exists|e: int|
                    0 <= e < edges.len() && edges[e] == (a as usize, b as usize) by {
                if a == i {
                    assert(b < j);
                }
            }
        }
        i = i + 1;
    }
    proof {
        assert forall|a: nat, b: nat| #[trigger] is_edge(a, b, nv) implies exists|e: int|
            0 <= e < edges.len() && edges[e] == (a as usize, b as usize) by {
            assert(a < i);
        }
    }
    edges
}

/// A point has `n` digits.
proof fn lemma_bit_seq_len(k: nat, n: nat)
    ensures
        bit_seq(k, n).len() == n,
    decreases n,
{
    if n > 0 {
        lemma_bit_seq_len(k / 2, (n - 1) as nat);
    }
}

} // verus!
