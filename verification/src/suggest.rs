use vstd::prelude::*;
use vstd::string::StringSliceAdditionalSpecFns;
use crate::text::{chars_of, str_eq, to_string};

verus! {

/// Edit distance (insertions, deletions, substitutions of one character each).
pub open spec fn lev(a: Seq<char>, b: Seq<char>) -> nat
    decreases a.len() + b.len(),
{
    if a.len() == 0 {
        b.len()
    } else if b.len() == 0 {
        a.len()
    } else {
        let del = lev(a.drop_last(), b) + 1;
        let ins = lev(a, b.drop_last()) + 1;
        let sub = lev(a.drop_last(), b.drop_last()) + if a.last() == b.last() {
            0nat
        } else {
            1nat
        };
        min_nat(min_nat(del, ins), sub)
    }
}

pub open spec fn min_nat(x: nat, y: nat) -> nat {
    if x <= y {
        x
    } else {
        y
    }
}

pub open spec fn max_nat(x: nat, y: nat) -> nat {
    if x >= y {
        x
    } else {
        y
    }
}

/// The edit distance never exceeds the length of the longer string.
pub proof fn lemma_lev_bound(a: Seq<char>, b: Seq<char>)
    ensures
        lev(a, b) <= max_nat(a.len(), b.len()),
    decreases a.len() + b.len(),
{
    if a.len() > 0 && b.len() > 0 {
        lemma_lev_bound(a.drop_last(), b.drop_last());
    }
}

/// The edit distance does not depend on the order of its arguments.
pub proof fn lemma_lev_symmetric(a: Seq<char>, b: Seq<char>)
    ensures
        lev(a, b) == lev(b, a),
    decreases a.len() + b.len(),
{
    if a.len() > 0 && b.len() > 0 {
        lemma_lev_symmetric(a.drop_last(), b);
        lemma_lev_symmetric(a, b.drop_last());
        lemma_lev_symmetric(a.drop_last(), b.drop_last());
    }
}

/// The edit distance is zero exactly between equal strings.
pub proof fn lemma_lev_zero(a: Seq<char>, b: Seq<char>)
    ensures
        lev(a, b) == 0 <==> a == b,
    decreases a.len() + b.len(),
{
    if a.len() > 0 && b.len() > 0 {
        lemma_lev_zero(a.drop_last(), b.drop_last());
        if a == b {
            assert(a.drop_last() == b.drop_last());
        }
        if lev(a, b) == 0 {
            assert(a =~= a.drop_last().push(a.last()));
            assert(b =~= b.drop_last().push(b.last()));
        }
    } else if a.len() == 0 && b.len() == 0 {
        assert(a =~= b);
    }
}

/// The edit distance is at least the difference of the lengths.
pub proof fn lemma_lev_lower_bound(a: Seq<char>, b: Seq<char>)
    ensures
        lev(a, b) >= a.len() - b.len(),
        lev(a, b) >= b.len() - a.len(),
    decreases a.len() + b.len(),
{
    if a.len() > 0 && b.len() > 0 {
        lemma_lev_lower_bound(a.drop_last(), b);
        lemma_lev_lower_bound(a, b.drop_last());
        lemma_lev_lower_bound(a.drop_last(), b.drop_last());
    }
}

/// Levenshtein distance between `a` and `b`, counted in characters.
pub fn levenshtein(a: &str, b: &str) -> (d: usize)
    ensures
        d == lev(a@, b@),
{
    let av = chars_of(a);
    let bv = chars_of(b);
    let n = bv.len();
    let mut prev: Vec<usize> = Vec::new();
    prev.push(0);
    let mut k: usize = 0;
    while k < n
        invariant
            n == bv@.len(),
            k <= n,
            prev@.len() == k + 1,
            forall|j: int| 0 <= j <= k ==> prev@[j] == j,
        decreases n - k,
    {
        prev.push(k + 1);
        k = k + 1;
    }
    proof {
        assert forall|j: int| 0 <= j <= n implies prev@[j] == lev(
            av@.take(0),
            #[trigger] bv@.take(j),
        ) by {
            assert(av@.take(0).len() == 0);
            assert(bv@.take(j).len() == j);
        }
    }
    let mut i: usize = 0;
    assert(av@.len() == av.len());
    while i < av.len()
        invariant
            n == bv@.len(),
            av@ == a@,
            bv@ == b@,
            i <= av@.len(),
            av@.len() <= usize::MAX,
            prev@.len() == n + 1,
            forall|j: int| 0 <= j <= n ==> prev@[j] == lev(av@.take(i as int), bv@.take(j)),
        decreases av@.len() - i,
    {
        let ca = av[i];
        let mut curr: Vec<usize> = Vec::new();
        curr.push(i + 1);
        proof {
            assert(av@.take(i + 1).len() == i + 1);
            assert(bv@.take(0).len() == 0);
        }
        let mut j: usize = 0;
        while j < n
            invariant
                n == bv@.len(),
                av@ == a@,
                bv@ == b@,
                i < av@.len(),
                av@.len() <= usize::MAX,
                ca == av@[i as int],
                j <= n,
                prev@.len() == n + 1,
                forall|t: int| 0 <= t <= n ==> prev@[t] == lev(av@.take(i as int), bv@.take(t)),
                curr@.len() == j + 1,
                forall|t: int| 0 <= t <= j ==> curr@[t] == lev(av@.take(i + 1), bv@.take(t)),
            decreases n - j,
        {
            let cb = bv[j];
            let cost: usize = if ca == cb { 0 } else { 1 };
            proof {
                let x = av@.take(i + 1);
                let y = bv@.take(j + 1);
                assert(x.drop_last() =~= av@.take(i as int));
                assert(y.drop_last() =~= bv@.take(j as int));
                assert(x.last() == ca);
                assert(y.last() == cb);
                lemma_lev_bound(av@.take(i as int), bv@.take(j as int));
                assert(av@.take(i as int).len() == i);
                assert(bv@.take(j as int).len() == j);
                assert(prev@[j as int] == lev(av@.take(i as int), bv@.take(j as int)));
                assert(prev@[j as int] <= max_nat(i as nat, j as nat));
                assert(prev@[j as int] < usize::MAX);
            }
            let del = prev[j + 1];
            let ins = curr[j];
            let sub = prev[j] + cost;
            let m = if del <= ins { del } else { ins };
            let v = if m < sub { m + 1 } else { sub };
            curr.push(v);
            j = j + 1;
        }
        prev = curr;
        i = i + 1;
    }
    assert(av@.take(av@.len() as int) =~= a@);
    assert(bv@.take(n as int) =~= b@);
    prev[n]
}

/// Strict lexicographic order of byte strings (`str`'s `<`).
pub open spec fn bytes_lt(x: Seq<u8>, y: Seq<u8>) -> bool
    decreases x.len(),
{
    if y.len() == 0 {
        false
    } else if x.len() == 0 {
        true
    } else if x[0] != y[0] {
        x[0] < y[0]
    } else {
        bytes_lt(x.drop_first(), y.drop_first())
    }
}

pub proof fn lemma_bytes_lt_transitive(x: Seq<u8>, y: Seq<u8>, z: Seq<u8>)
    requires
        bytes_lt(x, y),
        bytes_lt(y, z),
    ensures
        bytes_lt(x, z),
    decreases x.len(),
{
    if x.len() > 0 && y.len() > 0 && z.len() > 0 && x[0] == y[0] && y[0] == z[0] {
        lemma_bytes_lt_transitive(x.drop_first(), y.drop_first(), z.drop_first());
    }
}

pub proof fn lemma_bytes_lt_irreflexive(x: Seq<u8>)
    ensures
        !bytes_lt(x, x),
    decreases x.len(),
{
    if x.len() > 0 {
        lemma_bytes_lt_irreflexive(x.drop_first());
    }
}

/// Whether `a < b` in `str`'s order.
pub fn str_lt(a: &str, b: &str) -> (r: bool)
    ensures
        r == bytes_lt(a.spec_bytes(), b.spec_bytes()),
{
    let x = a.as_bytes();
    let y = b.as_bytes();
    let mut i: usize = 0;
    assert(x@.skip(0) =~= x@);
    assert(y@.skip(0) =~= y@);
    while i < x.len() && i < y.len()
        invariant
            x@ == a.spec_bytes(),
            y@ == b.spec_bytes(),
            i <= x@.len(),
            i <= y@.len(),
            bytes_lt(x@, y@) == bytes_lt(x@.skip(i as int), y@.skip(i as int)),
        decreases x@.len() - i,
    {
        if x[i] != y[i] {
            assert(x@.skip(i as int)[0] == x@[i as int]);
            assert(y@.skip(i as int)[0] == y@[i as int]);
            return x[i] < y[i];
        }
        assert(x@.skip(i as int).drop_first() =~= x@.skip(i + 1));
        assert(y@.skip(i as int).drop_first() =~= y@.skip(i + 1));
        i = i + 1;
    }
    i < y.len()
}

/// The number of characters that `nearest` tolerates for `target`.
pub open spec fn threshold(target: Seq<char>) -> nat {
    if target.len() / 3 >= 1 {
        target.len() / 3
    } else {
        1
    }
}

/// Whether `cand` may be suggested for `target`.
pub open spec fn eligible(target: Seq<char>, cand: &str) -> bool {
    cand@ != target && lev(target, cand@) <= threshold(target)
}

/// Whether `c1` ranks strictly before `c2` as a suggestion for `target`:
/// closer first, ties broken by `str` order.
pub open spec fn ranks_before(target: Seq<char>, c1: &str, c2: &str) -> bool {
    lev(target, c1@) < lev(target, c2@) || (lev(target, c1@) == lev(target, c2@) && bytes_lt(
        c1.spec_bytes(),
        c2.spec_bytes(),
    ))
}

/// The best "did you mean?" suggestion for `target` among `candidates`: the
/// closest candidate other than `target` itself within the threshold.
pub fn nearest(target: &str, candidates: &[&str]) -> (r: Option<String>)
    ensures
        r is None <==> forall|k: int| 0 <= k < candidates@.len() ==> !eligible(
            target@,
            #[trigger] candidates@[k],
        ),
        r matches Some(s) ==> exists|k: int|
            0 <= k < candidates@.len() && eligible(target@, #[trigger] candidates@[k]) && s@
                == candidates@[k]@ && forall|k2: int|
                0 <= k2 < candidates@.len() && eligible(target@, #[trigger] candidates@[k2])
                    ==> !ranks_before(target@, candidates@[k2], candidates@[k]),
{
    let tv = chars_of(target);
    let t3 = tv.len() / 3;
    let thr = if t3 >= 1 { t3 } else { 1 };
    let mut best: Option<(usize, usize)> = None;
    let mut i: usize = 0;
    while i < candidates.len()
        invariant
            tv@ == target@,
            thr == threshold(target@),
            i <= candidates@.len(),
            best is None <==> forall|k: int| 0 <= k < i ==> !eligible(
                target@,
                #[trigger] candidates@[k],
            ),
            best matches Some(p) ==> {
                &&& p.1 < i
                &&& eligible(target@, candidates@[p.1 as int])
                &&& p.0 == lev(target@, candidates@[p.1 as int]@)
                &&& forall|k2: int|
                    0 <= k2 < i && eligible(target@, #[trigger] candidates@[k2]) ==> !ranks_before(
                        target@,
                        candidates@[k2],
                        candidates@[p.1 as int],
                    )
            },
        decreases candidates@.len() - i,
    {
        let cand = candidates[i];
        if str_eq(cand, target) {
            i = i + 1;
            continue;
        }
        let dist = levenshtein(target, cand);
        if dist > thr {
            i = i + 1;
            continue;
        }
        let better = match best {
            Some((bd, bi)) => dist < bd || (dist == bd && str_lt(cand, candidates[bi])),
            None => true,
        };
        proof {
            lemma_bytes_lt_irreflexive(cand.spec_bytes());
            if let Some(p) = best {
                let b = candidates@[p.1 as int];
                if better {
                    assert forall|k2: int|
                        0 <= k2 < i + 1 && eligible(
                            target@,
                            #[trigger] candidates@[k2],
                        ) implies !ranks_before(target@, candidates@[k2], cand) by {
                        if k2 < i && ranks_before(target@, candidates@[k2], cand) {
                            if lev(target@, candidates@[k2]@) == lev(target@, cand@) && lev(
                                target@,
                                cand@,
                            ) == lev(target@, b@) {
                                lemma_bytes_lt_transitive(
                                    candidates@[k2].spec_bytes(),
                                    cand.spec_bytes(),
                                    b.spec_bytes(),
                                );
                            }
                        }
                    }
                }
            }
        }
        if better {
            best = Some((dist, i));
        }
        i = i + 1;
    }
    match best {
        Some((_, bi)) => Some(to_string(candidates[bi])),
        None => None,
    }
}

} // verus!
