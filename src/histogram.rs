use vstd::prelude::*;

verus! {

/// How many times `x` occurs in `s`.
pub open spec fn occurrences(s: Seq<usize>, x: usize) -> nat
    decreases s.len(),
{
    if s.len() == 0 {
        0
    } else {
        occurrences(s.drop_last(), x) + if s.last() == x {
            1nat
        } else {
            0nat
        }
    }
}

/// A value that occurs in a sequence stands at some index of it.
pub proof fn lemma_occurrence_index(s: Seq<usize>, x: usize)
    requires
        occurrences(s, x) > 0,
    ensures
        exists|i: int| 0 <= i < s.len() && s[i] == x,
    decreases s.len(),
{
    if s.last() != x {
        lemma_occurrence_index(s.drop_last(), x);
        let i = choose|i: int| 0 <= i < s.len() - 1 && s.drop_last()[i] == x;
        assert(s[i] == x);
    } else {
        assert(s[s.len() - 1] == x);
    }
}

/// A most frequent value of a non-empty sequence; of several equally
/// frequent values, the one that occurs first.
pub fn most_frequent(samples: &Vec<usize>) -> (r: usize)
    requires
        samples@.len() > 0,
    ensures
        occurrences(samples@, r) > 0,
        forall|x: usize| #[trigger] occurrences(samples@, x) <= occurrences(samples@, r),
        forall|j: int|
            0 <= j < samples@.len() && (forall|i: int| 0 <= i <= j ==> samples@[i] != r)
                ==> occurrences(samples@, #[trigger] samples@[j]) < occurrences(samples@, r),
{
    // Distinct values in order of first occurrence, with their counts.
    let mut keys: Vec<usize> = Vec::new();
    let mut counts: Vec<usize> = Vec::new();
    // Where each key first occurs.
    let ghost mut first: Seq<int> = Seq::empty();
    let mut i: usize = 0;
    while i < samples.len()
        invariant
            i <= samples@.len(),
            keys@.len() == counts@.len(),
            first.len() == keys@.len(),
            forall|e: int|
                0 <= e < keys@.len() ==> 0 <= #[trigger] first[e] < i && samples@[first[e]]
                    == keys@[e],
            forall|e: int, f: int|
                0 <= e < f < keys@.len() ==> #[trigger] first[e] < #[trigger] first[f],
            forall|j: int|
                0 <= j < i ==> exists|e: int|
                    0 <= e < keys@.len() && keys@[e] == #[trigger] samples@[j] && first[e] <= j,
            i > 0 ==> keys@.len() > 0,
            forall|e: int|
                0 <= e < keys@.len() ==> #[trigger] counts@[e] == occurrences(
                    samples@.take(i as int),
                    keys@[e],
                ) && 1 <= counts@[e] <= i,
            forall|e: int, f: int|
                0 <= e < keys@.len() && 0 <= f < keys@.len() && e != f ==> #[trigger] keys@[e]
                    != #[trigger] keys@[f],
            forall|x: usize|
                !keys@.contains(x) ==> #[trigger] occurrences(samples@.take(i as int), x) == 0,
        decreases samples@.len() - i,
    {
        let x = samples[i];
        let mut e: usize = 0;
        while e < keys.len() && keys[e] != x
            invariant
                e <= keys@.len(),
                forall|f: int| 0 <= f < e ==> keys@[f] != x,
            decreases keys@.len() - e,
        {
            e = e + 1;
        }
        let ghost pre = samples@.take(i as int);
        let ghost post = samples@.take(i + 1);
        proof {
            assert(post.drop_last() =~= pre);
            assert(post.last() == x);
            assert forall|y: usize| #[trigger]
                occurrences(post, y) == occurrences(pre, y) + if y == x {
                    1nat
                } else {
                    0nat
                } by {}
        }
        if e < keys.len() {
            let c = counts[e];
            counts.set(e, c + 1);
            proof {
                assert forall|j: int| 0 <= j < i + 1 implies exists|e2: int|
                    0 <= e2 < keys@.len() && keys@[e2] == #[trigger] samples@[j] && first[e2] <= j by {
                    if j == i {
                        assert(keys@[e as int] == samples@[j] && first[e as int] <= j);
                    }
                }
            }
        } else {
            let ghost keys0 = keys@;
            keys.push(x);
            counts.push(1);
            proof {
                first = first.push(i as int);
                assert forall|j: int| 0 <= j < i + 1 implies exists|e2: int|
                    0 <= e2 < keys@.len() && keys@[e2] == #[trigger] samples@[j] && first[e2] <= j by {
                    if j < i {
                        let e2 = choose|e2: int|
                            0 <= e2 < keys0.len() && keys0[e2] == samples@[j] && first[e2] <= j;
                        assert(keys@[e2] == samples@[j]);
                    } else {
                        assert(keys@[keys0.len() as int] == samples@[j]);
                    }
                }
                assert forall|y: usize| !keys@.contains(y) implies #[trigger] occurrences(post, y)
                    == 0 by {
                    if keys0.contains(y) {
                        let f = choose|f: int| 0 <= f < keys0.len() && keys0[f] == y;
                        assert(keys@[f] == y);
                    }
                    assert(keys@[keys0.len() as int] == x);
                }
            }
        }
        proof {
            assert forall|y: usize| !keys@.contains(y) implies #[trigger] occurrences(post, y)
                == 0 by {
                if y == x {
                    assert(keys@[e as int] == x);
                }
            }
        }
        i = i + 1;
    }
    let mut best: usize = 0;
    let mut j: usize = 1;
    while j < keys.len()
        invariant
            keys@.len() == counts@.len(),
            keys@.len() > 0,
            best < keys@.len(),
            1 <= j <= keys@.len(),
            best < j,
            forall|f: int| 0 <= f < j ==> #[trigger] counts@[f] <= counts@[best as int],
            forall|f: int| 0 <= f < best ==> #[trigger] counts@[f] < counts@[best as int],
        decreases keys@.len() - j,
    {
        // A strict comparison keeps the earliest of equally frequent values.
        if counts[j] > counts[best] {
            best = j;
        }
        j = j + 1;
    }
    proof {
        assert(samples@.take(samples@.len() as int) =~= samples@);
        assert(keys@.contains(keys@[0]));
        assert forall|x: usize| #[trigger] occurrences(samples@, x) <= occurrences(
            samples@,
            keys@[best as int],
        ) by {
            if keys@.contains(x) {
                let f = choose|f: int| 0 <= f < keys@.len() && keys@[f] == x;
                assert(counts@[f] <= counts@[best as int]);
            }
        }
        assert(counts@[best as int] >= counts@[0]);
        let r = keys@[best as int];
        assert forall|j: int|
            0 <= j < samples@.len() && (forall|i: int| 0 <= i <= j ==> samples@[i] != r) implies occurrences(
            samples@,
            #[trigger] samples@[j],
        ) < occurrences(samples@, r) by {
            let e2 = choose|e2: int|
                0 <= e2 < keys@.len() && keys@[e2] == samples@[j] && first[e2] <= j;
            if e2 > best {
                assert(first[best as int] < first[e2]);
                assert(samples@[first[best as int]] == r);
            } else if e2 == best {
                assert(samples@[j] == r);
            } else {
                assert(counts@[e2] < counts@[best as int]);
            }
        }
    }
    keys[best]
}

} // verus!
