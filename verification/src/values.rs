//! Distinct values of a column, how often each occurs, and how the values of
//! one column group the values of another.
use vstd::prelude::*;

verus! {

/// The character sequences of a sequence of strings.
pub open spec fn strs(v: Seq<String>) -> Seq<Seq<char>> {
    v.map_values(|s: String| s@)
}

/// The distinct entries of `s`, each once, in the order of their first occurrence.
pub open spec fn distinct(s: Seq<Seq<char>>) -> Seq<Seq<char>>
    decreases s.len(),
{
    if s.len() == 0 {
        Seq::empty()
    } else {
        let d = distinct(s.drop_last());
        if d.contains(s.last()) {
            d
        } else {
            d.push(s.last())
        }
    }
}

/// How many entries of `s` equal `x`.
pub open spec fn occurrences(s: Seq<Seq<char>>, x: Seq<char>) -> nat
    decreases s.len(),
{
    if s.len() == 0 {
        0
    } else {
        occurrences(s.drop_last(), x) + if s.last() == x {
            1nat
        } else {
            0nat
        }
    }
}

/// The entries of `targets` whose key in `keys` (same position) equals `x`, in order.
pub open spec fn matching(keys: Seq<Seq<char>>, targets: Seq<Seq<char>>, x: Seq<char>) -> Seq<
    Seq<char>,
>
    decreases keys.len(),
{
    if keys.len() == 0 {
        Seq::empty()
    } else {
        let n = keys.len() - 1;
        let p = matching(keys.drop_last(), targets.take(n), x);
        if keys.last() == x {
            p.push(targets[n])
        } else {
            p
        }
    }
}

/// The sum of a sequence of counts.
pub open spec fn total(counts: Seq<usize>) -> int
    decreases counts.len(),
{
    if counts.len() == 0 {
        0
    } else {
        total(counts.drop_last()) + counts.last()
    }
}

/// `distinct` holds no entry twice, holds exactly the entries of its argument,
/// and is no longer than it.
pub proof fn lemma_distinct(s: Seq<Seq<char>>)
    ensures
        distinct(s).no_duplicates(),
        forall|x: Seq<char>| #[trigger] distinct(s).contains(x) <==> s.contains(x),
        distinct(s).len() <= s.len(),
    decreases s.len(),
{
    if s.len() > 0 {
        let p = s.drop_last();
        let x0 = s.last();
        lemma_distinct(p);
        assert forall|x: Seq<char>| s.contains(x) <==> (p.contains(x) || x == x0) by {
            if s.contains(x) && x != x0 {
                let k = choose|k: int| 0 <= k < s.len() && s[k] == x;
                assert(p[k] == x);
            }
            if p.contains(x) {
                let k = choose|k: int| 0 <= k < p.len() && p[k] == x;
                assert(s[k] == x);
            }
            if x == x0 {
                assert(s[s.len() - 1] == x);
            }
        }
        let d = distinct(p);
        if !d.contains(x0) {
            let ds = d.push(x0);
            assert(distinct(s) == ds);
            assert forall|x: Seq<char>| ds.contains(x) <==> (d.contains(x) || x == x0) by {
                if ds.contains(x) && x != x0 {
                    let k = choose|k: int| 0 <= k < ds.len() && ds[k] == x;
                    assert(d[k] == x);
                }
                if d.contains(x) {
                    let k = choose|k: int| 0 <= k < d.len() && d[k] == x;
                    assert(ds[k] == x);
                }
                if x == x0 {
                    assert(ds[ds.len() - 1] == x);
                }
            }
            assert forall|i: int, j: int|
                0 <= i < ds.len() && 0 <= j < ds.len() && i != j implies ds[i] != ds[j] by {
                if i < d.len() && j < d.len() {
                } else if i < d.len() {
                    assert(d.contains(ds[i]));
                } else {
                    assert(d.contains(ds[j]));
                }
            }
        }
    }
}

/// An entry that `s` does not hold occurs in it zero times; no entry occurs
/// more often than `s` is long.
pub proof fn lemma_occurrences(s: Seq<Seq<char>>, x: Seq<char>)
    ensures
        occurrences(s, x) <= s.len(),
        !s.contains(x) ==> occurrences(s, x) == 0,
    decreases s.len(),
{
    if s.len() > 0 {
        let p = s.drop_last();
        lemma_occurrences(p, x);
        if !s.contains(x) {
            assert forall|k: int| 0 <= k < p.len() implies p[k] != x by {
                assert(s[k] == p[k]);
            }
            assert(s[s.len() - 1] != x);
        }
    }
}

/// Adding one to a count adds one to the sum.
pub proof fn lemma_total_increment(counts: Seq<usize>, j: int)
    requires
        0 <= j < counts.len(),
        counts[j] < usize::MAX,
    ensures
        total(counts.update(j, (counts[j] + 1) as usize)) == total(counts) + 1,
    decreases counts.len(),
{
    let u = counts.update(j, (counts[j] + 1) as usize);
    if j < counts.len() - 1 {
        assert(u.drop_last() =~= counts.drop_last().update(j, (counts[j] + 1) as usize));
        lemma_total_increment(counts.drop_last(), j);
    } else {
        assert(u.drop_last() =~= counts.drop_last());
    }
}

/// The entries that a value groups are as many as its occurrences among the keys.
pub proof fn lemma_group_size(keys: Seq<Seq<char>>, targets: Seq<Seq<char>>, x: Seq<char>)
    requires
        keys.len() == targets.len(),
    ensures
        matching(keys, targets, x).len() == occurrences(keys, x),
    decreases keys.len(),
{
    if keys.len() > 0 {
        lemma_group_size(keys.drop_last(), targets.take(keys.len() - 1), x);
    }
}

/// The total number of occurrences in `s` of the entries of `d`.
pub open spec fn occurrence_total(s: Seq<Seq<char>>, d: Seq<Seq<char>>) -> int
    decreases d.len(),
{
    if d.len() == 0 {
        0
    } else {
        occurrence_total(s, d.drop_last()) + occurrences(s, d.last())
    }
}

proof fn lemma_occurrence_total_push(s: Seq<Seq<char>>, x: Seq<char>, d: Seq<Seq<char>>)
    requires
        d.no_duplicates(),
    ensures
        occurrence_total(s.push(x), d) == occurrence_total(s, d) + if d.contains(x) {
            1int
        } else {
            0int
        },
    decreases d.len(),
{
    if d.len() > 0 {
        let p = d.drop_last();
        assert(p.no_duplicates()) by {
            assert forall|i: int, j: int| 0 <= i < p.len() && 0 <= j < p.len() && i != j implies p[i] != p[j] by {
                assert(p[i] == d[i] && p[j] == d[j]);
            }
        }
        lemma_occurrence_total_push(s, x, p);
        assert(s.push(x).drop_last() =~= s);
        if d.last() == x {
            assert(!p.contains(x)) by {
                if p.contains(x) {
                    let k = choose|k: int| 0 <= k < p.len() && p[k] == x;
                    assert(d[k] == d[d.len() - 1]);
                }
            }
            assert(d[d.len() - 1] == x);
        } else {
            assert(d.contains(x) <==> p.contains(x)) by {
                if d.contains(x) {
                    let k = choose|k: int| 0 <= k < d.len() && d[k] == x;
                    assert(p[k] == x);
                }
                if p.contains(x) {
                    let k = choose|k: int| 0 <= k < p.len() && p[k] == x;
                    assert(d[k] == x);
                }
            }
        }
    }
}

/// Each entry of `s` is counted once among its distinct values: their numbers of
/// occurrences add up to the length of `s`.
pub proof fn lemma_distinct_occurrences(s: Seq<Seq<char>>)
    ensures
        occurrence_total(s, distinct(s)) == s.len(),
    decreases s.len(),
{
    if s.len() > 0 {
        let p = s.drop_last();
        let x = s.last();
        let d = distinct(p);
        lemma_distinct_occurrences(p);
        lemma_distinct(p);
        assert(p.push(x) =~= s);
        lemma_occurrence_total_push(p, x, d);
        if !d.contains(x) {
            lemma_occurrences(p, x);
            assert(!p.contains(x));
            assert(d.push(x).drop_last() =~= d);
            assert(occurrence_total(s, d.push(x)) == occurrence_total(s, d) + occurrences(s, x));
        }
    }
}

/// Index of the first entry of `v` equal to `x`, or `None` where `v` holds no such entry.
pub fn position_of(v: &Vec<String>, x: &String) -> (r: Option<usize>)
    ensures
        match r {
            Some(j) => j < v.len() && v@[j as int]@ == x@ && forall|k: int|
                0 <= k < j ==> v@[k]@ != x@,
            None => !strs(v@).contains(x@),
        },
{
    let mut j: usize = 0;
    while j < v.len()
        invariant
            j <= v.len(),
            forall|k: int| 0 <= k < j ==> v@[k]@ != x@,
        decreases v.len() - j,
    {
        if v[j] == *x {
            return Some(j);
        }
        j = j + 1;
    }
    assert forall|k: int| 0 <= k < strs(v@).len() implies strs(v@)[k] != x@ by {
        assert(strs(v@)[k] == v@[k]@);
    }
    None
}

proof fn lemma_take_step(s: Seq<Seq<char>>, i: int)
    requires
        0 <= i < s.len(),
    ensures
        s.take(i + 1).drop_last() == s.take(i),
        s.take(i + 1).last() == s[i],
        s.take(i + 1).len() == i + 1,
{
    assert(s.take(i + 1).drop_last() =~= s.take(i));
}

/// The distinct values of `values`, each once, in the order of their first occurrence.
pub fn distinct_values(values: &Vec<String>) -> (d: Vec<String>)
    ensures
        strs(d@) == distinct(strs(values@)),
{
    let ghost sv = strs(values@);
    let mut d: Vec<String> = Vec::new();
    let mut i: usize = 0;
    while i < values.len()
        invariant
            i <= values.len(),
            sv == strs(values@),
            strs(d@) == distinct(sv.take(i as int)),
        decreases values.len() - i,
    {
        proof {
            lemma_take_step(sv, i as int);
        }
        let found = position_of(&d, &values[i]);
        if found.is_none() {
            d.push(values[i].clone());
        }
        proof {
            let t = sv.take(i + 1);
            assert(t.last() == values@[i as int]@);
            if found.is_some() {
                let j = found.unwrap() as int;
                assert(strs(d@)[j] == values@[i as int]@);
                assert(distinct(t.drop_last()).contains(t.last()));
            }
            assert(strs(d@) =~= distinct(t));
        }
        i = i + 1;
    }
    proof {
        assert(sv.take(values.len() as int) =~= sv);
    }
    d
}

/// The distinct values of `values` in the order of their first occurrence, and how
/// often each occurs.
pub fn value_counts(values: &Vec<String>) -> (r: (Vec<String>, Vec<usize>))
    ensures
        strs(r.0@) == distinct(strs(values@)),
        r.1.len() == r.0.len(),
        forall|j: int|
            0 <= j < r.1.len() ==> r.1@[j] == occurrences(strs(values@), strs(r.0@)[j]),
        total(r.1@) == values.len(),
        forall|j: int|
            0 <= j < r.1.len() ==> r.1@[j] == strs(values@).filter(
                |y: Seq<char>| y == strs(r.0@)[j],
            ).len(),
{
    let ghost sv = strs(values@);
    let mut d: Vec<String> = Vec::new();
    let mut counts: Vec<usize> = Vec::new();
    let mut i: usize = 0;
    while i < values.len()
        invariant
            i <= values.len(),
            sv == strs(values@),
            strs(d@) == distinct(sv.take(i as int)),
            counts.len() == d.len(),
            forall|j: int|
                0 <= j < counts.len() ==> counts@[j] == occurrences(
                    sv.take(i as int),
                    strs(d@)[j],
                ),
            total(counts@) == i,
        decreases values.len() - i,
    {
        let ghost t = sv.take(i + 1);
        let ghost p = sv.take(i as int);
        let ghost old_d = strs(d@);
        let ghost old_counts = counts@;
        proof {
            lemma_take_step(sv, i as int);
            lemma_distinct(p);
        }
        let found = position_of(&d, &values[i]);
        match found {
            Some(j) => {
                proof {
                    lemma_occurrences(p, old_d[j as int]);
                    assert(old_d[j as int] == d@[j as int]@);
                }
                counts.set(j, counts[j] + 1);
                proof {
                    lemma_total_increment(old_counts, j as int);
                    assert(counts@ =~= old_counts.update(j as int, (old_counts[j as int] + 1) as usize));
                    assert forall|k: int| 0 <= k < counts.len() implies counts@[k] == occurrences(
                        t,
                        strs(d@)[k],
                    ) by {
                        if k != j {
                            assert(old_d[k] != old_d[j as int]);
                        }
                    }
                    assert(distinct(t.drop_last()).contains(t.last()));
                }
            },
            None => {
                d.push(values[i].clone());
                counts.push(1);
                proof {
                    assert(counts@.drop_last() =~= old_counts);
                    lemma_occurrences(p, values@[i as int]@);
                    assert(!p.contains(values@[i as int]@));
                    assert(strs(d@) =~= old_d.push(values@[i as int]@));
                    assert forall|k: int| 0 <= k < counts.len() implies counts@[k] == occurrences(
                        t,
                        strs(d@)[k],
                    ) by {
                        if k < old_counts.len() {
                            assert(strs(d@)[k] == old_d[k]);
                            assert(old_d[k] != values@[i as int]@);
                        }
                    }
                }
            },
        }
        proof {
            assert(strs(d@) =~= distinct(t));
        }
        i = i + 1;
    }
    proof {
        assert(sv.take(values.len() as int) =~= sv);
        assert forall|j: int| 0 <= j < counts.len() implies counts@[j] == sv.filter(
            |y: Seq<char>| y == strs(d@)[j],
        ).len() by {
            let x = strs(d@)[j];
            lemma_occurrences_count(sv, x);
            let p1 = |y: Seq<char>| y == x;
            let p2 = |y: Seq<char>| y == strs(d@)[j];
            assert(p1 =~= p2);
            assert(sv.filter(p1) == sv.filter(p2));
            assert(counts@[j] == occurrences(sv.take(values.len() as int), x));
        }
    }
    (d, counts)
}

/// The distinct values of `keys` in the order of their first occurrence, and for each
/// of them the entries of `targets` that stand beside it, in order.
pub fn group_by_value(keys: &Vec<String>, targets: &Vec<String>) -> (r: (Vec<String>, Vec<Vec<String>>))
    requires
        keys.len() == targets.len(),
    ensures
        strs(r.0@) == distinct(strs(keys@)),
        r.1.len() == r.0.len(),
        forall|j: int|
            0 <= j < r.1.len() ==> strs(#[trigger] r.1@[j]@) == matching(
                strs(keys@),
                strs(targets@),
                strs(r.0@)[j],
            ),
        forall|j: int|
            0 <= j < r.1.len() ==> strs(#[trigger] r.1@[j]@) == Seq::new(
                keys.len() as nat,
                |i: int| (keys@[i]@, targets@[i]@),
            ).filter(|p: (Seq<char>, Seq<char>)| p.0 == strs(r.0@)[j]).map_values(
                |p: (Seq<char>, Seq<char>)| p.1,
            ),
{
    let ghost sk = strs(keys@);
    let ghost st = strs(targets@);
    let mut d: Vec<String> = Vec::new();
    let mut groups: Vec<Vec<String>> = Vec::new();
    let mut i: usize = 0;
    while i < keys.len()
        invariant
            i <= keys.len(),
            keys.len() == targets.len(),
            sk == strs(keys@),
            st == strs(targets@),
            strs(d@) == distinct(sk.take(i as int)),
            groups.len() == d.len(),
            forall|j: int|
                0 <= j < groups.len() ==> strs(#[trigger] groups@[j]@) == matching(
                    sk.take(i as int),
                    st.take(i as int),
                    strs(d@)[j],
                ),
        decreases keys.len() - i,
    {
        let ghost p = sk.take(i as int);
        let ghost t = sk.take(i + 1);
        let ghost old_d = strs(d@);
        let ghost old_groups = groups@;
        proof {
            lemma_take_step(sk, i as int);
            lemma_distinct(p);
            assert(st.take(i + 1).take(i as int) =~= st.take(i as int));
            assert(st.take(i + 1)[i as int] == targets@[i as int]@);
        }
        let found = position_of(&d, &keys[i]);
        match found {
            Some(j) => {
                let mut g = groups[j].clone();
                proof {
                    assert(strs(g@) =~= strs(old_groups[j as int]@));
                }
                g.push(targets[i].clone());
                groups.set(j, g);
                proof {
                    assert forall|k: int| 0 <= k < groups.len() implies strs(
                        #[trigger] groups@[k]@,
                    ) == matching(t, st.take(i + 1), strs(d@)[k]) by {
                        if k != j {
                            assert(old_d[k] != old_d[j as int]);
                            assert(groups@[k] == old_groups[k]);
                        } else {
                            assert(strs(groups@[k]@) =~= strs(old_groups[k]@).push(
                                targets@[i as int]@,
                            ));
                        }
                    }
                    assert(distinct(t.drop_last()).contains(t.last()));
                }
            },
            None => {
                d.push(keys[i].clone());
                let mut g: Vec<String> = Vec::new();
                g.push(targets[i].clone());
                groups.push(g);
                proof {
                    assert(strs(d@) =~= old_d.push(keys@[i as int]@));
                    assert forall|k: int| 0 <= k < groups.len() implies strs(
                        #[trigger] groups@[k]@,
                    ) == matching(t, st.take(i + 1), strs(d@)[k]) by {
                        if k < old_groups.len() {
                            assert(strs(d@)[k] == old_d[k]);
                            assert(old_d[k] != keys@[i as int]@);
                            assert(groups@[k] == old_groups[k]);
                        } else {
                            lemma_matching_absent(p, st.take(i as int), keys@[i as int]@);
                            assert(strs(groups@[k]@) =~= seq![targets@[i as int]@]);
                            assert(matching(p, st.take(i as int), keys@[i as int]@).push(
                                targets@[i as int]@,
                            ) =~= seq![targets@[i as int]@]);
                        }
                    }
                }
            },
        }
        proof {
            assert(strs(d@) =~= distinct(t));
        }
        i = i + 1;
    }
    proof {
        assert(sk.take(keys.len() as int) =~= sk);
        assert(st.take(keys.len() as int) =~= st);
    }
    proof {
        let ps = Seq::new(keys.len() as nat, |i: int| (keys@[i]@, targets@[i]@));
        assert(ps =~= Seq::new(sk.len(), |i: int| (sk[i], st[i])));
        assert forall|j: int| 0 <= j < groups.len() implies strs(#[trigger] groups@[j]@) == ps.filter(
            |p: (Seq<char>, Seq<char>)| p.0 == strs(d@)[j],
        ).map_values(|p: (Seq<char>, Seq<char>)| p.1) by {
            let x = strs(d@)[j];
            lemma_matching_selects(sk, st, x);
            let q = Seq::new(sk.len(), |i: int| (sk[i], st[i]));
            let pred1 = |p: (Seq<char>, Seq<char>)| p.0 == x;
            let pred2 = |p: (Seq<char>, Seq<char>)| p.0 == strs(d@)[j];
            assert(pred1 =~= pred2);
            assert(ps == q);
            assert(q.filter(pred1) == ps.filter(pred2));
        }
    }
    (d, groups)
}

/// The group for `x` is the subsequence of `targets` at the positions where `keys`
/// holds `x`: pair each key with the target beside it, keep the pairs whose key is
/// `x`, in order, and take their targets.
pub proof fn lemma_matching_selects(keys: Seq<Seq<char>>, targets: Seq<Seq<char>>, x: Seq<char>)
    requires
        keys.len() == targets.len(),
    ensures
        matching(keys, targets, x) == Seq::new(keys.len(), |i: int| (keys[i], targets[i])).filter(
            |p: (Seq<char>, Seq<char>)| p.0 == x,
        ).map_values(|p: (Seq<char>, Seq<char>)| p.1),
    decreases keys.len(),
{
    let pred = |p: (Seq<char>, Seq<char>)| p.0 == x;
    let second = |p: (Seq<char>, Seq<char>)| p.1;
    let ps = Seq::new(keys.len(), |i: int| (keys[i], targets[i]));
    reveal(Seq::filter);
    if keys.len() == 0 {
        assert(ps.filter(pred) =~= ps);
        assert(ps.filter(pred).map_values(second) =~= Seq::<Seq<char>>::empty());
    } else {
        let n = keys.len() - 1;
        let k2 = keys.drop_last();
        let t2 = targets.take(n);
        lemma_matching_selects(k2, t2, x);
        let qs = Seq::new(k2.len(), |i: int| (k2[i], t2[i]));
        assert(ps.drop_last() =~= qs);
        assert(ps.last() == (keys[n], targets[n]));
        let f = qs.filter(pred);
        if keys.last() == x {
            assert(ps.filter(pred) == f.push(ps.last()));
            assert(f.push(ps.last()).map_values(second) =~= f.map_values(second).push(targets[n]));
        } else {
            assert(ps.filter(pred) == f);
        }
    }
}

/// The occurrences of `x` in `s` are as many as the entries that keeping only the
/// entries equal to `x` leaves.
pub proof fn lemma_occurrences_count(s: Seq<Seq<char>>, x: Seq<char>)
    ensures
        occurrences(s, x) == s.filter(|y: Seq<char>| y == x).len(),
    decreases s.len(),
{
    reveal(Seq::filter);
    if s.len() > 0 {
        lemma_occurrences_count(s.drop_last(), x);
    }
}

/// A key that `keys` does not hold selects nothing.
pub proof fn lemma_matching_absent(keys: Seq<Seq<char>>, targets: Seq<Seq<char>>, x: Seq<char>)
    requires
        !keys.contains(x),
    ensures
        matching(keys, targets, x) == Seq::<Seq<char>>::empty(),
    decreases keys.len(),
{
    if keys.len() > 0 {
        let p = keys.drop_last();
        assert forall|k: int| 0 <= k < p.len() implies p[k] != x by {
            assert(keys[k] == p[k]);
        }
        assert(keys[keys.len() - 1] != x);
        lemma_matching_absent(p, targets.take(keys.len() - 1), x);
    }
}

} // verus!
