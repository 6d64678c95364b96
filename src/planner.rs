//! Splits a table's files into partitions by greedy size balancing.
use vstd::prelude::*;

verus! {

/// `a` is taken before `b`: larger files first, equal sizes in file order.
pub open spec fn before(sizes: Seq<usize>, a: int, b: int) -> bool {
    sizes[a] > sizes[b] || (sizes[a] == sizes[b] && a < b)
}

/// `order` lists every file exactly once, largest first, ties in file order.
pub open spec fn is_size_order(sizes: Seq<usize>, order: Seq<usize>) -> bool {
    &&& order.len() == sizes.len()
    &&& forall|k: int| 0 <= k < order.len() ==> order[k] < sizes.len()
    &&& forall|f: usize| f < sizes.len() ==> #[trigger] order.contains(f)
    &&& forall|i: int, j: int|
        0 <= i < j < order.len() ==> #[trigger] before(sizes, order[i] as int, order[j] as int)
}

/// Among the first `m` partitions, the least loaded; a tie goes to the later one.
pub open spec fn pick_from(loads: Seq<int>, m: int) -> int
    decreases m,
{
    if m <= 1 {
        0
    } else {
        let b = pick_from(loads, m - 1);
        if loads[m - 1] <= loads[b] {
            m - 1
        } else {
            b
        }
    }
}

/// The partition that the next file goes to.
pub open spec fn pick(loads: Seq<int>) -> int {
    pick_from(loads, loads.len() as int)
}

/// The load of each of `parts` partitions after the first `k` files of `order`.
pub open spec fn loads_after(sizes: Seq<usize>, order: Seq<usize>, k: nat, parts: nat) -> Seq<int>
    decreases k,
{
    if k == 0 {
        Seq::new(parts, |q: int| 0int)
    } else {
        let l = loads_after(sizes, order, (k - 1) as nat, parts);
        let t = pick(l);
        l.update(t, l[t] + sizes[order[k - 1] as int])
    }
}

/// The partition chosen for the `k`-th file of `order`.
pub open spec fn greedy_choice(sizes: Seq<usize>, order: Seq<usize>, k: int, parts: nat) -> int {
    pick(loads_after(sizes, order, k as nat, parts))
}

/// `files` lists files below `n` in strictly increasing order.
pub open spec fn ascending_files(files: Seq<usize>, n: nat) -> bool {
    &&& forall|i: int| 0 <= i < files.len() ==> files[i] < n
    &&& forall|i: int, j: int| 0 <= i < j < files.len() ==> files[i] < files[j]
}

/// File `f` lies in one of `parts`.
pub open spec fn in_some(parts: Seq<Seq<usize>>, f: usize) -> bool {
    exists|q: int| 0 <= q < parts.len() && #[trigger] parts[q].contains(f)
}

/// Every file below `n` lies in exactly one of `parts`, each in file order.
pub open spec fn is_partition_of(parts: Seq<Seq<usize>>, n: nat) -> bool {
    &&& forall|q: int| 0 <= q < parts.len() ==> ascending_files(#[trigger] parts[q], n)
    &&& forall|f: usize| f < n ==> #[trigger] in_some(parts, f)
    &&& forall|q: int, r: int, f: usize|
        0 <= q < parts.len() && 0 <= r < parts.len() && #[trigger] parts[q].contains(f)
            && #[trigger] parts[r].contains(f) ==> q == r
}

/// `parts` is what greedy balancing gives for files of `sizes` rows over
/// `count` partitions: each file, taken largest first, goes to the least loaded
/// partition; and every file lies in exactly one partition, in file order.
pub open spec fn planned(sizes: Seq<usize>, parts: Seq<Seq<usize>>, count: nat) -> bool {
    &&& parts.len() == count
    &&& is_partition_of(parts, sizes.len())
    &&& exists|order: Seq<usize>|
        is_size_order(sizes, order) && forall|k: int, q: int|
            0 <= k < sizes.len() && 0 <= q < count ==> (#[trigger] parts[q].contains(order[k])
                <==> q == greedy_choice(sizes, order, k, count))
}

/// The files of one partition, in file order.
pub struct PartitionSpec {
    pub files: Vec<usize>,
}

/// Orders the files by descending size, equal sizes in file order.
pub fn size_order(sizes: &Vec<usize>) -> (order: Vec<usize>)
    ensures
        is_size_order(sizes@, order@),
{
    let n = sizes.len();
    let mut order: Vec<usize> = Vec::new();
    let mut i: usize = 0;
    while i < n
        invariant
            i <= n,
            n == sizes.len(),
            order.len() == i,
            forall|k: int| 0 <= k < order.len() ==> order[k] < i,
            forall|f: usize| f < i ==> #[trigger] order@.contains(f),
            forall|a: int, b: int|
                0 <= a < b < order.len() ==> #[trigger] before(sizes@, order[a] as int, order[b] as int),
        decreases n - i,
    {
        let mut pos: usize = 0;
        while pos < order.len() && sizes[order[pos]] >= sizes[i]
            invariant
                pos <= order.len(),
                i < n,
                n == sizes.len(),
                forall|k: int| 0 <= k < order.len() ==> order[k] < i,
                forall|k: int| 0 <= k < pos ==> before(sizes@, order[k] as int, i as int),
            decreases order.len() - pos,
        {
            pos = pos + 1;
        }
        proof {
            assert forall|k: int| pos <= k < order.len() implies before(sizes@, i as int, order[k] as int) by {
                if k > pos {
                    assert(before(sizes@, order[pos as int] as int, order[k] as int));
                }
            }
        }
        let ghost prev = order@;
        order.insert(pos, i);
        proof {
            assert forall|f: usize| f < i + 1 implies #[trigger] order@.contains(f) by {
                if f < i {
                    assert(prev.contains(f));
                    let k0 = choose|k: int| 0 <= k < prev.len() && prev[k] == f;
                    if k0 < pos {
                        assert(order[k0] == f);
                    } else {
                        assert(order[k0 + 1] == f);
                    }
                } else {
                    assert(order[pos as int] == f);
                }
            }
            assert forall|a: int, b: int|
                0 <= a < b < order.len() implies #[trigger] before(sizes@, order[a] as int, order[b] as int) by {
                if b < pos {
                    assert(before(sizes@, prev[a] as int, prev[b] as int));
                } else if b == pos {
                    assert(before(sizes@, prev[a] as int, i as int));
                } else if a < pos {
                    assert(before(sizes@, prev[a] as int, prev[b - 1] as int));
                } else if a == pos {
                    assert(before(sizes@, i as int, prev[b - 1] as int));
                } else {
                    assert(before(sizes@, prev[a - 1] as int, prev[b - 1] as int));
                }
            }
        }
        i = i + 1;
    }
    order
}


/// The loads as mathematical integers.
pub open spec fn load_values(loads: Seq<u128>) -> Seq<int> {
    loads.map_values(|x: u128| x as int)
}

/// The files of each partition.
pub open spec fn files_of(parts: Seq<PartitionSpec>) -> Seq<Seq<usize>> {
    parts.map_values(|p: PartitionSpec| p.files@)
}

fn least_loaded(loads: &Vec<u128>) -> (t: usize)
    requires
        loads.len() >= 1,
    ensures
        t == pick(load_values(loads@)),
        t < loads.len(),
{
    let ghost l = load_values(loads@);
    let mut b: usize = 0;
    let mut m: usize = 1;
    while m < loads.len()
        invariant
            1 <= m <= loads.len(),
            b < m,
            l == load_values(loads@),
            b == pick_from(l, m as int),
        decreases loads.len() - m,
    {
        if loads[m] <= loads[b] {
            b = m;
        }
        m = m + 1;
    }
    b
}

/// Gives each file, taken in `order`, to the least loaded of `parts` partitions.
pub fn assign(sizes: &Vec<usize>, order: &Vec<usize>, parts: usize) -> (owner: Vec<usize>)
    requires
        parts >= 1,
        is_size_order(sizes@, order@),
    ensures
        owner.len() == sizes.len(),
        forall|f: int| 0 <= f < owner.len() ==> owner[f] < parts,
        forall|k: int|
            0 <= k < order.len() ==> owner[#[trigger] order[k] as int] == greedy_choice(
                sizes@,
                order@,
                k,
                parts as nat,
            ),
{
    let n = sizes.len();
    let mut loads: Vec<u128> = Vec::new();
    while loads.len() < parts
        invariant
            loads.len() <= parts,
            forall|q: int| 0 <= q < loads.len() ==> loads[q] == 0,
        decreases parts - loads.len(),
    {
        loads.push(0);
    }
    let mut owner: Vec<usize> = Vec::new();
    while owner.len() < n
        invariant
            owner.len() <= n,
            forall|f: int| 0 <= f < owner.len() ==> owner[f] == 0,
        decreases n - owner.len(),
    {
        owner.push(0);
    }
    assert(load_values(loads@) =~= loads_after(sizes@, order@, 0, parts as nat));
    let mut k: usize = 0;
    while k < n
        invariant
            k <= n,
            n == sizes.len(),
            parts >= 1,
            is_size_order(sizes@, order@),
            loads.len() == parts,
            owner.len() == n,
            load_values(loads@) == loads_after(sizes@, order@, k as nat, parts as nat),
            forall|q: int| 0 <= q < loads.len() ==> loads[q] <= k * 0xffff_ffff_ffff_ffffu128,
            forall|f: int| 0 <= f < owner.len() ==> owner[f] < parts,
            forall|j: int|
                0 <= j < k ==> owner[#[trigger] order[j] as int] == greedy_choice(
                    sizes@,
                    order@,
                    j,
                    parts as nat,
                ),
        decreases n - k,
    {
        let t = least_loaded(&loads);
        let f = order[k];
        let grown = loads[t] + sizes[f] as u128;
        loads.set(t, grown);
        proof {
            assert(load_values(loads@) =~= loads_after(sizes@, order@, (k + 1) as nat, parts as nat));
            assert forall|j: int| 0 <= j < k implies order[j] != f by {
                assert(before(sizes@, order[j] as int, order[k as int] as int));
            }
        }
        owner.set(f, t);
        k = k + 1;
    }
    owner
}

/// Collects, for each partition, the files that `owner` gives it, in file order.
pub fn group(owner: &Vec<usize>, parts: usize) -> (r: Vec<PartitionSpec>)
    ensures
        r.len() == parts,
        forall|q: int|
            0 <= q < parts ==> ascending_files(#[trigger] r[q].files@, owner.len() as nat),
        forall|q: int, f: usize|
            0 <= q < parts ==> (#[trigger] r[q].files@.contains(f) <==> (f < owner.len() && owner[f as int] == q)),
{
    let n = owner.len();
    let mut r: Vec<PartitionSpec> = Vec::new();
    let mut q: usize = 0;
    while q < parts
        invariant
            q <= parts,
            n == owner.len(),
            r.len() == q,
            forall|p: int| 0 <= p < q ==> ascending_files(#[trigger] r[p].files@, n as nat),
            forall|p: int, f: usize|
                0 <= p < q ==> (#[trigger] r[p].files@.contains(f) <==> (f < n && owner[f as int] == p)),
        decreases parts - q,
    {
        let mut files: Vec<usize> = Vec::new();
        let mut f: usize = 0;
        while f < n
            invariant
                f <= n,
                n == owner.len(),
                ascending_files(files@, f as nat),
                forall|g: usize| #[trigger] files@.contains(g) <==> (g < f && owner[g as int] == q),
            decreases n - f,
        {
            if owner[f] == q {
                let ghost prev = files@;
                files.push(f);
                proof {
                    assert forall|g: usize| #[trigger] files@.contains(g) <==> (g < f + 1 && owner[g as int] == q) by {
                        if g == f {
                            assert(files@[prev.len() as int] == g);
                        }
                        if g < f && owner[g as int] == q {
                            assert(prev.contains(g));
                            let i = choose|i: int| 0 <= i < prev.len() && prev[i] == g;
                            assert(files@[i] == g);
                        }
                        if files@.contains(g) && g != f {
                            let i = choose|i: int| 0 <= i < files@.len() && files@[i] == g;
                            assert(i < prev.len());
                            assert(prev[i] == g);
                            assert(prev.contains(g));
                        }
                    }
                }
            }
            f = f + 1;
        }
        r.push(PartitionSpec { files });
        q = q + 1;
    }
    r
}

/// Splits the files, of the given sizes in rows, into `desired_partitions`
/// partitions: files are taken largest first (equal sizes in file order), and
/// each goes to the least loaded partition, a tie to the later one.
pub fn plan(sizes: &Vec<usize>, desired_partitions: usize) -> (r: Vec<PartitionSpec>)
    requires
        desired_partitions >= 1,
    ensures
        planned(sizes@, files_of(r@), desired_partitions as nat),
{
    let order = size_order(sizes);
    let ghost o = order@;
    let owner = assign(sizes, &order, desired_partitions);
    let r = group(&owner, desired_partitions);
    let ghost parts = files_of(r@);
    proof {
        assert forall|f: usize| f < sizes.len() implies #[trigger] in_some(parts, f) by {
            assert(parts[owner[f as int] as int].contains(f));
        }
        assert forall|k: int, q: int|
            0 <= k < sizes.len() && 0 <= q < desired_partitions implies (#[trigger] r[q].files@.contains(
                order[k],
            ) <==> q == greedy_choice(sizes@, order@, k, desired_partitions as nat)) by {
            assert(owner[order[k] as int] == greedy_choice(sizes@, order@, k, desired_partitions as nat));
        }
    }
    assert(files_of(r@).len() == desired_partitions);
    assert(is_size_order(sizes@, o));
    r
}


/// The rows in the files `files`.
pub open spec fn rows_in(sizes: Seq<usize>, files: Seq<usize>) -> int
    decreases files.len(),
{
    if files.len() == 0 {
        0
    } else {
        rows_in(sizes, files.drop_last()) + sizes[files.last() as int]
    }
}

/// The rows in all partitions together.
pub open spec fn rows_in_parts(sizes: Seq<usize>, parts: Seq<Seq<usize>>) -> int
    decreases parts.len(),
{
    if parts.len() == 0 {
        0
    } else {
        rows_in_parts(sizes, parts.drop_last()) + rows_in(sizes, parts.last())
    }
}

/// The rows in the whole table.
pub open spec fn table_rows(sizes: Seq<usize>) -> int
    decreases sizes.len(),
{
    if sizes.len() == 0 {
        0
    } else {
        table_rows(sizes.drop_last()) + sizes.last()
    }
}

proof fn lemma_parts_update(sizes: Seq<usize>, parts: Seq<Seq<usize>>, q: int, x: Seq<usize>)
    requires
        0 <= q < parts.len(),
    ensures
        rows_in_parts(sizes, parts.update(q, x)) == rows_in_parts(sizes, parts) - rows_in(sizes, parts[q])
            + rows_in(sizes, x),
    decreases parts.len(),
{
    if q == parts.len() - 1 {
        assert(parts.update(q, x).drop_last() =~= parts.drop_last());
    } else {
        lemma_parts_update(sizes, parts.drop_last(), q, x);
        assert(parts.update(q, x).drop_last() =~= parts.drop_last().update(q, x));
    }
}

proof fn lemma_parts_empty(sizes: Seq<usize>, parts: Seq<Seq<usize>>)
    requires
        forall|q: int| 0 <= q < parts.len() ==> (#[trigger] parts[q]).len() == 0,
    ensures
        rows_in_parts(sizes, parts) == 0,
    decreases parts.len(),
{
    if parts.len() > 0 {
        lemma_parts_empty(sizes, parts.drop_last());
    }
}

proof fn lemma_rows_cover(sizes: Seq<usize>, parts: Seq<Seq<usize>>, n: nat)
    requires
        n <= sizes.len(),
        sizes.len() <= usize::MAX,
        is_partition_of(parts, n),
    ensures
        rows_in_parts(sizes, parts) == table_rows(sizes.subrange(0, n as int)),
    decreases n,
{
    if n == 0 {
        assert forall|q: int| 0 <= q < parts.len() implies (#[trigger] parts[q]).len() == 0 by {
            if parts[q].len() > 0 {
                assert(ascending_files(parts[q], 0));
                let x = parts[q][0];
                assert(x < 0);
            }
        }
        lemma_parts_empty(sizes, parts);
    } else {
        let f = (n - 1) as usize;
        assert(in_some(parts, f));
        let q = choose|q: int| 0 <= q < parts.len() && #[trigger] parts[q].contains(f);
        let s = parts[q];
        assert(ascending_files(s, n));
        let i = choose|i: int| 0 <= i < s.len() && s[i] == f;
        if i < s.len() - 1 {
            assert(s[i] < s[i + 1]);
            assert(s[i + 1] < n);
        }
        assert(i == s.len() - 1);
        let t = s.drop_last();
        let parts2 = parts.update(q, t);
        assert forall|r: int| 0 <= r < parts2.len() implies ascending_files(#[trigger] parts2[r], (n - 1) as nat) by {
            assert(ascending_files(parts[r], n));
            if r == q {
                assert forall|j: int| 0 <= j < t.len() implies t[j] < n - 1 by {
                    assert(t[j] == s[j]);
                    assert(s[j] < s[i]);
                }
            } else {
                assert forall|j: int| 0 <= j < parts[r].len() implies parts[r][j] < n - 1 by {
                    if parts[r][j] == f {
                        assert(parts[r].contains(f));
                    }
                }
            }
        }
        assert forall|g: usize| g < n - 1 implies #[trigger] in_some(parts2, g) by {
            assert(in_some(parts, g));
            let r = choose|r: int| 0 <= r < parts.len() && #[trigger] parts[r].contains(g);
            if r == q {
                let j = choose|j: int| 0 <= j < s.len() && s[j] == g;
                assert(j != i);
                assert(t[j] == g);
                assert(parts2[q].contains(g));
            } else {
                assert(parts2[r].contains(g));
            }
        }
        assert forall|a: int, b: int, g: usize|
            0 <= a < parts2.len() && 0 <= b < parts2.len() && #[trigger] parts2[a].contains(g)
                && #[trigger] parts2[b].contains(g) implies a == b by {
            if a == q {
                let j = choose|j: int| 0 <= j < t.len() && t[j] == g;
                assert(s[j] == g);
                assert(parts[a].contains(g));
            } else {
                assert(parts[a].contains(g));
            }
            if b == q {
                let j = choose|j: int| 0 <= j < t.len() && t[j] == g;
                assert(s[j] == g);
                assert(parts[b].contains(g));
            } else {
                assert(parts[b].contains(g));
            }
        }
        lemma_rows_cover(sizes, parts2, (n - 1) as nat);
        lemma_parts_update(sizes, parts, q, t);
        assert(parts.update(q, t).update(q, s) =~= parts);
        assert(sizes.subrange(0, n as int).drop_last() =~= sizes.subrange(0, n - 1));
    }
}

/// Every file lies in exactly one partition of a plan, so the partitions'
/// rows together are the table's rows, none twice and none left out.
pub proof fn lemma_plan_covers(sizes: Seq<usize>, parts: Seq<Seq<usize>>, count: nat)
    requires
        planned(sizes, parts, count),
        sizes.len() <= usize::MAX,
    ensures
        is_partition_of(parts, sizes.len()),
        rows_in_parts(sizes, parts) == table_rows(sizes),
{
    lemma_rows_cover(sizes, parts, sizes.len());
    assert(sizes.subrange(0, sizes.len() as int) =~= sizes);
}

} // verus!
