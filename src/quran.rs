//! The book in memory: suras with their ayas, lookup, and subsets chosen by a predicate.

use vstd::prelude::*;
use crate::text::{matches_query, normalized, occurs_at, occurs_in};

verus! {

/// One sura: its name, the optional text said before it, and its ayas in order.
#[derive(Debug)]
pub struct Sura {
    pub name: String,
    pub bismillah: Option<String>,
    pub aya: Vec<String>,
}

/// A sura as plain values.
pub struct SuraView {
    pub name: Seq<char>,
    pub bismillah: Option<Seq<char>>,
    pub aya: Seq<Seq<char>>,
}

impl View for Sura {
    type V = SuraView;

    open spec fn view(&self) -> SuraView {
        SuraView {
            name: self.name@,
            bismillah: match self.bismillah {
                Some(b) => Some(b@),
                None => None,
            },
            aya: self.aya@.map_values(|a: String| a@),
        }
    }
}

/// The whole book: its suras in order; sura `k` stands at index `k - 1`.
#[derive(Debug)]
pub struct Quran {
    pub sura: Vec<Sura>,
}

impl View for Quran {
    type V = Seq<SuraView>;

    open spec fn view(&self) -> Seq<SuraView> {
        self.sura@.map_values(|s: Sura| s@)
    }
}

/// For each sura, in order, the 0-based positions of the ayas that a query kept.
#[derive(Debug, Clone, PartialEq, Eq)]
pub struct QuranSubset(pub Vec<Vec<usize>>);

impl View for QuranSubset {
    type V = Seq<Seq<usize>>;

    open spec fn view(&self) -> Seq<Seq<usize>> {
        self.0@.map_values(|v: Vec<usize>| v@)
    }
}

/// Whether the positions `p` are strictly increasing.
pub open spec fn increasing(p: Seq<usize>) -> bool {
    forall|a: int, b: int| 0 <= a < b < p.len() ==> p[a] < p[b]
}

/// The subset that keeps every aya of every sura of `q`.
pub open spec fn full_subset(q: Seq<SuraView>) -> Seq<Seq<usize>> {
    Seq::new(q.len(), |i: int| Seq::new(q[i].aya.len(), |j: int| j as usize))
}

/// The subset that keeps no aya at all.
pub open spec fn empty_subset(q: Seq<SuraView>) -> Seq<Seq<usize>> {
    Seq::new(q.len(), |i: int| Seq::<usize>::empty())
}

/// Whether `sub` is the subset of `q` that keeps exactly the aya at 0-based
/// position `j` of sura index `i` for which `keep(i, j)` holds, positions in order.
pub open spec fn selects(
    sub: Seq<Seq<usize>>,
    q: Seq<SuraView>,
    keep: spec_fn(int, int) -> bool,
) -> bool {
    &&& sub.len() == q.len()
    &&& forall|i: int| 0 <= i < q.len() ==> increasing(#[trigger] sub[i])
    &&& forall|i: int, k: int|
        0 <= i < q.len() && 0 <= k < sub[i].len() ==> #[trigger] sub[i][k] < q[i].aya.len()
    &&& forall|i: int, j: int|
        0 <= i < q.len() && 0 <= j < q[i].aya.len() ==> (#[trigger] sub[i].contains(j as usize)
            <==> keep(i, j))
}

/// Whether search keeps an aya of text `aya` for `query`: the normalized query
/// occurs as a contiguous run in the normalized text.
pub open spec fn aya_matches(aya: Seq<char>, query: Seq<char>) -> bool {
    occurs_in(normalized(aya), normalized(query))
}

/// Whether `f`, called on aya `j` of sura index `i` (both 0-based here, handed
/// to `f` counted from 1) with that aya's text, may answer `o`.
pub open spec fn answers<F: Fn(usize, usize, &str) -> bool>(
    f: F,
    q: Seq<SuraView>,
    i: int,
    j: int,
    o: bool,
) -> bool {
    exists|t: &str| t@ == q[i].aya[j] && f.ensures(((i + 1) as usize, (j + 1) as usize, t), o)
}

/// Whether every answer that `f` may give is `o`.
pub open spec fn always_answers<F: Fn(usize, usize, &str) -> bool>(f: F, o: bool) -> bool {
    forall|a: usize, b: usize, t: &str, x: bool| f.ensures((a, b, t), x) ==> x == o
}

/// Among the first `n` entries of `sub`, those that keep at least one aya, in
/// order, each with its sura number counted from 1.
pub open spec fn listed(sub: Seq<Seq<usize>>, n: nat) -> Seq<(int, Seq<usize>)>
    decreases n,
{
    if n == 0 {
        Seq::empty()
    } else if sub[n - 1].len() == 0 {
        listed(sub, (n - 1) as nat)
    } else {
        listed(sub, (n - 1) as nat).push((n as int, sub[n - 1]))
    }
}

/// Listing the subset that keeps every aya gives every sura, in order, with
/// every position of its ayas, as long as no sura is empty (an empty sura
/// keeps nothing and is passed over).
pub proof fn law_full_subset_lists_every_aya(q: Seq<SuraView>)
    requires
        forall|i: int| 0 <= i < q.len() ==> (#[trigger] q[i]).aya.len() > 0,
    ensures
        listed(full_subset(q), q.len()) == Seq::new(
            q.len(),
            |i: int| (i + 1, Seq::new(q[i].aya.len(), |j: int| j as usize)),
        ),
{
    lemma_full_prefix(q, q.len());
}

/// The first `n` suras of the full subset list as `n` entries.
proof fn lemma_full_prefix(q: Seq<SuraView>, n: nat)
    requires
        n <= q.len(),
        forall|i: int| 0 <= i < q.len() ==> (#[trigger] q[i]).aya.len() > 0,
    ensures
        listed(full_subset(q), n) == Seq::new(
            n,
            |i: int| (i + 1, Seq::new(q[i].aya.len(), |j: int| j as usize)),
        ),
    decreases n,
{
    if n == 0 {
        assert(listed(full_subset(q), n) =~= Seq::new(
            n,
            |i: int| (i + 1, Seq::new(q[i].aya.len(), |j: int| j as usize)),
        ));
    } else {
        lemma_full_prefix(q, (n - 1) as nat);
        assert(q[n - 1].aya.len() > 0);
        assert(full_subset(q)[n - 1].len() > 0);
        assert(listed(full_subset(q), n) =~= Seq::new(
            n,
            |i: int| (i + 1, Seq::new(q[i].aya.len(), |j: int| j as usize)),
        ));
    }
}

/// Listing the subset that keeps no aya gives nothing.
pub proof fn law_empty_subset_lists_nothing(q: Seq<SuraView>)
    ensures
        listed(empty_subset(q), q.len()) == Seq::<(int, Seq<usize>)>::empty(),
{
    lemma_empty_prefix(q, q.len());
}

/// No prefix of the empty subset lists anything.
proof fn lemma_empty_prefix(q: Seq<SuraView>, n: nat)
    requires
        n <= q.len(),
    ensures
        listed(empty_subset(q), n) == Seq::<(int, Seq<usize>)>::empty(),
    decreases n,
{
    if n > 0 {
        lemma_empty_prefix(q, (n - 1) as nat);
    }
}

/// When exactly one aya, position `v` of sura index `c`, satisfies `keep`, the
/// subset that selects by `keep` keeps that position alone, every other sura
/// keeps nothing, and listing the subset gives sura `c + 1` with that single
/// position.
pub proof fn law_single_match_lists_one(
    sub: Seq<Seq<usize>>,
    q: Seq<SuraView>,
    keep: spec_fn(int, int) -> bool,
    c: int,
    v: int,
)
    requires
        selects(sub, q, keep),
        0 <= c < q.len(),
        0 <= v < q[c].aya.len(),
        forall|i: int, j: int|
            0 <= i < q.len() && 0 <= j < q[i].aya.len() ==> (#[trigger] keep(i, j) <==> (i == c && j == v)),
    ensures
        sub[c] == seq![v as usize],
        forall|i: int| 0 <= i < q.len() && i != c ==> (#[trigger] sub[i]).len() == 0,
        listed(sub, q.len()) == seq![(c + 1, seq![v as usize])],
{
    assert forall|i: int| 0 <= i < q.len() && i != c implies (#[trigger] sub[i]).len() == 0 by {
        if sub[i].len() > 0 {
            let e = sub[i][0];
            assert(e < q[i].aya.len());
            assert(sub[i].contains((e as int) as usize));
        }
    }
    assert(sub[c].contains(v as usize));
    assert forall|k: int| 0 <= k < sub[c].len() implies sub[c][k] == v as usize by {
        let e = sub[c][k];
        assert(e < q[c].aya.len());
        assert(sub[c].contains((e as int) as usize));
    }
    assert(increasing(sub[c]));
    if sub[c].len() >= 2 {
        assert(sub[c][0] < sub[c][1]);
    }
    assert(sub[c] =~= seq![v as usize]);
    lemma_single_prefix(sub, q, c, v, q.len());
}

/// The first `n` entries of a subset that keeps only position `v` of sura
/// index `c` list that sura once `n` passes it.
proof fn lemma_single_prefix(sub: Seq<Seq<usize>>, q: Seq<SuraView>, c: int, v: int, n: nat)
    requires
        sub.len() == q.len(),
        0 <= c < q.len(),
        n <= q.len(),
        sub[c] == seq![v as usize],
        forall|i: int| 0 <= i < q.len() && i != c ==> (#[trigger] sub[i]).len() == 0,
    ensures
        listed(sub, n) == (if n <= c {
            Seq::<(int, Seq<usize>)>::empty()
        } else {
            seq![(c + 1, seq![v as usize])]
        }),
    decreases n,
{
    if n > 0 {
        lemma_single_prefix(sub, q, c, v, (n - 1) as nat);
        if n - 1 == c {
            assert(Seq::<(int, Seq<usize>)>::empty().push((c + 1, sub[c])) =~= seq![
                (c + 1, seq![v as usize]),
            ]);
        } else {
            assert(sub[n - 1].len() == 0);
        }
    }
}

impl QuranSubset {
    /// The suras of `quran` of which this subset keeps at least one aya, in
    /// order: each with its number counted from 1, the sura itself, and the
    /// kept positions.
    pub fn sura_iter<'a>(&'a self, quran: &'a Quran) -> (r: Vec<(usize, &'a Sura, &'a [usize])>)
        ensures
            ({
                let n = if self@.len() <= quran@.len() { self@.len() } else { quran@.len() };
                let l = listed(self@, n);
                &&& r@.len() == l.len()
                &&& forall|k: int|
                    0 <= k < r@.len() ==> {
                        &&& #[trigger] r@[k].0 == l[k].0
                        &&& r@[k].2@ == l[k].1
                        &&& r@[k].1@ == quran@[l[k].0 - 1]
                    }
            }),
    {
        let n: usize = if self.0.len() <= quran.sura.len() {
            self.0.len()
        } else {
            quran.sura.len()
        };
        let mut r: Vec<(usize, &'a Sura, &'a [usize])> = Vec::new();
        let mut i: usize = 0;
        while i < n
            invariant
                n <= self@.len(),
                n <= quran@.len(),
                i <= n,
                ({
                    let l = listed(self@, i as nat);
                    &&& r@.len() == l.len()
                    &&& forall|k: int|
                        0 <= k < r@.len() ==> {
                            &&& #[trigger] r@[k].0 == l[k].0
                            &&& r@[k].2@ == l[k].1
                            &&& r@[k].1@ == quran@[l[k].0 - 1]
                        }
                }),
            decreases n - i,
        {
            let kept = &self.0[i];
            assert(kept@ == self@[i as int]);
            assert(quran.sura@[i as int]@ == quran@[i as int]);
            if kept.len() > 0 {
                r.push((i + 1, &quran.sura[i], kept.as_slice()));
            }
            i = i + 1;
        }
        r
    }
}

impl Quran {
    /// Sura number `sura`, counted from 1; `None` when it is out of range.
    pub fn get_sura(&self, sura: usize) -> (r: Option<&Sura>)
        ensures
            match r {
                Some(s) => 1 <= sura <= self@.len() && s@ == self@[sura - 1],
                None => !(1 <= sura <= self@.len()),
            },
    {
        if sura == 0 || sura > self.sura.len() {
            return None;
        }
        Some(&self.sura[sura - 1])
    }

    /// The text of aya `aya` of sura `sura`, both counted from 1; `None` when
    /// either number is out of range.
    pub fn get_aya(&self, sura: usize, aya: usize) -> (r: Option<&str>)
        ensures
            match r {
                Some(t) => 1 <= sura <= self@.len() && 1 <= aya <= self@[sura - 1].aya.len()
                    && t@ == self@[sura - 1].aya[aya - 1],
                None => !(1 <= sura <= self@.len() && 1 <= aya <= self@[sura - 1].aya.len()),
            },
    {
        if sura == 0 || aya == 0 || sura > self.sura.len() {
            return None;
        }
        let s = &self.sura[sura - 1];
        if aya > s.aya.len() {
            return None;
        }
        Some(s.aya[aya - 1].as_str())
    }

    /// The subset of ayas for which `f(sura, aya, text)` returns true, sura and
    /// aya counted from 1, asked of every aya in book order.
    pub fn filter<F: Fn(usize, usize, &str) -> bool>(&self, f: F) -> (r: QuranSubset)
        requires
            forall|a: usize, b: usize, t: &str| f.requires((a, b, t)),
        ensures
            r@.len() == self@.len(),
            forall|i: int| 0 <= i < self@.len() ==> increasing(#[trigger] r@[i]),
            forall|i: int, k: int|
                0 <= i < self@.len() && 0 <= k < r@[i].len() ==> #[trigger] r@[i][k]
                    < self@[i].aya.len(),
            forall|i: int, j: int|
                0 <= i < self@.len() && 0 <= j < self@[i].aya.len() ==> (if #[trigger] r@[i].contains(
                    j as usize,
                ) {
                    answers(f, self@, i, j, true)
                } else {
                    answers(f, self@, i, j, false)
                }),
            always_answers(f, true) ==> r@ == full_subset(self@),
            always_answers(f, false) ==> r@ == empty_subset(self@),
    {
        let mut r: Vec<Vec<usize>> = Vec::new();
        let n: usize = self.sura.len();
        let mut i: usize = 0;
        while i < n
            invariant
                forall|a: usize, b: usize, t: &str| f.requires((a, b, t)),
                n == self@.len(),
                i <= self@.len(),
                r@.len() == i,
                forall|k: int| 0 <= k < i ==> increasing(#[trigger] r@[k]@),
                forall|k: int, m: int|
                    0 <= k < i && 0 <= m < r@[k]@.len() ==> #[trigger] r@[k]@[m]
                        < self@[k].aya.len(),
                forall|k: int, j: int|
                    0 <= k < i && 0 <= j < self@[k].aya.len() ==> (if #[trigger] r@[k]@.contains(
                        j as usize,
                    ) {
                        answers(f, self@, k, j, true)
                    } else {
                        answers(f, self@, k, j, false)
                    }),
                always_answers(f, true) ==> forall|k: int|
                    0 <= k < i ==> #[trigger] r@[k]@ == full_subset(self@)[k],
                always_answers(f, false) ==> forall|k: int|
                    0 <= k < i ==> #[trigger] r@[k]@ == Seq::<usize>::empty(),
            decreases self@.len() - i,
        {
            let s = &self.sura[i];
            assert(s@ == self@[i as int]);
            let mut p: Vec<usize> = Vec::new();
            let mut j: usize = 0;
            while j < s.aya.len()
                invariant
                    forall|a: usize, b: usize, t: &str| f.requires((a, b, t)),
                    i < self@.len(),
                    n == self@.len(),
                    s@ == self@[i as int],
                    j <= s@.aya.len(),
                    increasing(p@),
                    forall|m: int| 0 <= m < p@.len() ==> #[trigger] p@[m] < j,
                    forall|m: int|
                        0 <= m < j ==> (if #[trigger] p@.contains(m as usize) {
                            answers(f, self@, i as int, m, true)
                        } else {
                            answers(f, self@, i as int, m, false)
                        }),
                    always_answers(f, true) ==> p@ == Seq::new(j as nat, |m: int| m as usize),
                    always_answers(f, false) ==> p@ == Seq::<usize>::empty(),
                decreases s@.aya.len() - j,
            {
                let t = s.aya[j].as_str();
                let keep = f(i + 1, j + 1, t);
                assert(t@ == self@[i as int].aya[j as int]);
                assert(answers(f, self@, i as int, j as int, keep));
                let ghost before = p@;
                if keep {
                    p.push(j);
                }
                proof {
                    assert forall|m: int| 0 <= m <= j implies (if #[trigger] p@.contains(m as usize) {
                        answers(f, self@, i as int, m, true)
                    } else {
                        answers(f, self@, i as int, m, false)
                    }) by {
                        if m < j {
                            if keep {
                                assert(p@.contains(m as usize) <==> before.contains(m as usize)) by {
                                    if p@.contains(m as usize) {
                                        let x = choose|x: int| 0 <= x < p@.len() && p@[x] == m as usize;
                                        if x < before.len() {
                                            assert(before[x] == m as usize);
                                        }
                                    }
                                    if before.contains(m as usize) {
                                        let x = choose|x: int| 0 <= x < before.len() && before[x] == m as usize;
                                        assert(p@[x] == m as usize);
                                    }
                                }
                            }
                        } else {
                            if keep {
                                assert(p@[p@.len() - 1] == j);
                            } else {
                                assert(!before.contains(j));
                            }
                        }
                    }
                    if always_answers(f, true) {
                        assert(keep);
                        assert(p@ =~= Seq::new((j + 1) as nat, |m: int| m as usize));
                    }
                    if always_answers(f, false) {
                        assert(!keep);
                    }
                }
                j = j + 1;
            }
            r.push(p);
            i = i + 1;
        }
        let sub = QuranSubset(r);
        proof {
            if always_answers(f, true) {
                assert(sub@ =~= full_subset(self@));
            }
            if always_answers(f, false) {
                assert(sub@ =~= empty_subset(self@));
            }
        }
        sub
    }

    /// The ayas whose normalized text holds the normalized `query` as a
    /// contiguous run, in book order.
    pub fn search(&self, query: &str) -> (r: QuranSubset)
        ensures
            selects(r@, self@, |i: int, j: int| aya_matches(self@[i].aya[j], query@)),
            normalized(query@).len() == 0 ==> r@ == full_subset(self@),
    {
        let f = |_sura: usize, _aya: usize, text: &str| -> (b: bool)
            ensures
                b == aya_matches(text@, query@),
            { matches_query(text, query) };
        let r = self.filter(f);
        proof {
            if normalized(query@).len() == 0 {
                assert forall|a: usize, b: usize, t: &str, x: bool| f.ensures((a, b, t), x) implies x
                    == true by {
                    assert(normalized(t@).subrange(0, 0) =~= normalized(query@));
                    assert(occurs_at(normalized(t@), normalized(query@), 0));
                }
            }
        }
        r
    }
}

} // verus!
