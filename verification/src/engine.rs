//! The sort engine: orders the line collection in parallel with the
//! comparator, honoring the stable switch, and keeps only the first
//! occurrence of each distinct line when `unique` is set. The stable
//! order is modelled by an insertion sort over the comparator; the laws
//! proved here say the output is a sorted permutation, that a stable run
//! keeps equal lines in input order, and that sorting sorted input in
//! stable mode changes nothing.

use crate::compare::Comparison;
use crate::compare::flip;
use crate::strategy::SortConfig;
use crate::strategy::cmp_consistent;
use crate::strategy::compare;
use crate::strategy::line_cmp;
use crate::strategy::line_le;
use rayon::slice::ParallelSliceMut;
use vstd::prelude::*;

verus! {

broadcast use vstd::seq_lib::group_to_multiset_ensures, vstd::multiset::group_multiset_axioms, vstd::seq_lib::group_filter_ensures, Seq::filter_distributes_over_add;

/// Whether the lines stand in non-decreasing comparator order.
pub open spec fn sorted_lines(cfg: SortConfig, s: Seq<Seq<char>>) -> bool {
    forall|i: int, j: int| 0 <= i < j < s.len() ==> #[trigger] line_le(cfg, s[i], s[j])
}

/// Where a stable sort places `x` in the already sorted `s`: before the
/// first element not strictly below it, so after every earlier-input
/// element it ties with.
pub open spec fn insert_line(cfg: SortConfig, x: Seq<char>, s: Seq<Seq<char>>) -> Seq<Seq<char>>
    decreases s.len(),
{
    if s.len() == 0 {
        seq![x]
    } else if line_cmp(cfg, s[0], x) == Comparison::Less {
        seq![s[0]] + insert_line(cfg, x, s.drop_first())
    } else {
        seq![x] + s
    }
}

/// The stable sort of `s` under the comparator: the sorted permutation in
/// which comparator-equal lines keep their input order.
pub open spec fn stable_sort_spec(cfg: SortConfig, s: Seq<Seq<char>>) -> Seq<Seq<char>>
    decreases s.len(),
{
    if s.len() == 0 {
        s
    } else {
        insert_line(cfg, s[0], stable_sort_spec(cfg, s.drop_first()))
    }
}

proof fn lemma_insert_multiset(cfg: SortConfig, x: Seq<char>, s: Seq<Seq<char>>)
    ensures
        insert_line(cfg, x, s).to_multiset() =~= s.to_multiset().insert(x),
    decreases s.len(),
{
    if s.len() == 0 {
        assert(s.push(x) =~= seq![x]);
    } else if line_cmp(cfg, s[0], x) == Comparison::Less {
        let rest = s.drop_first();
        lemma_insert_multiset(cfg, x, rest);
        vstd::seq_lib::lemma_multiset_commutative(seq![s[0]], insert_line(cfg, x, rest));
        vstd::seq_lib::lemma_multiset_commutative(seq![s[0]], rest);
        assert(seq![s[0]] + rest =~= s);
    } else {
        vstd::seq_lib::lemma_multiset_commutative(seq![x], s);
        assert(seq![x].to_multiset() =~= Seq::<Seq<char>>::empty().push(x).to_multiset()) by {
            assert(Seq::<Seq<char>>::empty().push(x) =~= seq![x]);
        }
    }
}

proof fn lemma_insert_sorted(cfg: SortConfig, x: Seq<char>, s: Seq<Seq<char>>)
    requires
        cmp_consistent(cfg),
        sorted_lines(cfg, s),
    ensures
        sorted_lines(cfg, insert_line(cfg, x, s)),
    decreases s.len(),
{
    if s.len() == 0 {
    } else if line_cmp(cfg, s[0], x) == Comparison::Less {
        let rest = s.drop_first();
        assert(sorted_lines(cfg, rest)) by {
            assert(forall|i: int, j: int|
                0 <= i < j < rest.len() ==> rest[i] == s[i + 1] && rest[j] == s[j + 1]);
        }
        lemma_insert_sorted(cfg, x, rest);
        let t = insert_line(cfg, x, rest);
        lemma_insert_multiset(cfg, x, rest);
        assert(forall|j: int| 0 <= j < t.len() ==> #[trigger] line_le(cfg, s[0], t[j])) by {
            assert forall|j: int| 0 <= j < t.len() implies #[trigger] line_le(cfg, s[0], t[j]) by {
                assert(t.contains(t[j]));
                assert(t.to_multiset().count(t[j]) > 0);
                if t[j] == x {
                    assert(line_cmp(cfg, s[0], x) == Comparison::Less);
                } else {
                    assert(rest.to_multiset().count(t[j]) > 0);
                    assert(rest.contains(t[j]));
                    let k = choose|k: int| 0 <= k < rest.len() && rest[k] == t[j];
                    assert(rest[k] == s[k + 1]);
                    if k + 1 > 0 {
                        assert(line_le(cfg, s[0], s[k + 1]));
                    }
                }
            }
        }
        let r = insert_line(cfg, x, s);
        assert(r == seq![s[0]] + t);
        assert forall|i: int, j: int| 0 <= i < j < r.len() implies #[trigger] line_le(
            cfg,
            r[i],
            r[j],
        ) by {
            if i == 0 {
                assert(r[j] == t[j - 1]);
                assert(line_le(cfg, s[0], t[j - 1]));
            } else {
                assert(r[i] == t[i - 1] && r[j] == t[j - 1]);
                assert(line_le(cfg, t[i - 1], t[j - 1]));
            }
        }
    } else {
        let r = insert_line(cfg, x, s);
        assert(r == seq![x] + s);
        assert(line_cmp(cfg, x, s[0]) == flip(line_cmp(cfg, s[0], x)));
        assert(line_le(cfg, x, s[0]));
        assert forall|i: int, j: int| 0 <= i < j < r.len() implies #[trigger] line_le(
            cfg,
            r[i],
            r[j],
        ) by {
            if i == 0 {
                assert(r[j] == s[j - 1]);
                if j - 1 > 0 {
                    assert(line_le(cfg, s[0], s[j - 1]));
                    assert(line_le(cfg, x, s[j - 1]));
                }
            } else {
                assert(r[i] == s[i - 1] && r[j] == s[j - 1]);
                assert(line_le(cfg, s[i - 1], s[j - 1]));
            }
        }
    }
}

/// The stable sort model is a sorted permutation of its input.
pub proof fn lemma_stable_sort_ensures(cfg: SortConfig, s: Seq<Seq<char>>)
    requires
        cmp_consistent(cfg),
    ensures
        stable_sort_spec(cfg, s).to_multiset() =~= s.to_multiset(),
        sorted_lines(cfg, stable_sort_spec(cfg, s)),
    decreases s.len(),
{
    if s.len() > 0 {
        let rest = s.drop_first();
        lemma_stable_sort_ensures(cfg, rest);
        lemma_insert_sorted(cfg, s[0], stable_sort_spec(cfg, rest));
        lemma_insert_multiset(cfg, s[0], stable_sort_spec(cfg, rest));
        vstd::seq_lib::lemma_multiset_commutative(seq![s[0]], rest);
        assert(seq![s[0]] + rest =~= s);
        assert(seq![s[0]].to_multiset() =~= Seq::<Seq<char>>::empty().push(s[0]).to_multiset())
            by {
            assert(Seq::<Seq<char>>::empty().push(s[0]) =~= seq![s[0]]);
        }
    }
}

/// Whether every line the predicate selects ties with every other under
/// the comparator: the predicate picks out part of one equality class.
pub open spec fn all_equal_under(cfg: SortConfig, p: spec_fn(Seq<char>) -> bool) -> bool {
    forall|u: Seq<char>, v: Seq<char>|
        p(u) && p(v) ==> #[trigger] line_cmp(cfg, u, v) == Comparison::Equal
}

proof fn lemma_filter_singleton(e: Seq<char>, p: spec_fn(Seq<char>) -> bool)
    ensures
        p(e) ==> seq![e].filter(p) =~= seq![e],
        !p(e) ==> seq![e].filter(p) =~= Seq::<Seq<char>>::empty(),
{
    reveal_with_fuel(Seq::filter, 2);
    assert(seq![e].drop_last() =~= Seq::<Seq<char>>::empty());
}

proof fn lemma_insert_filter_in(
    cfg: SortConfig,
    x: Seq<char>,
    s: Seq<Seq<char>>,
    p: spec_fn(Seq<char>) -> bool,
)
    requires
        all_equal_under(cfg, p),
        p(x),
    ensures
        insert_line(cfg, x, s).filter(p) =~= seq![x] + s.filter(p),
    decreases s.len(),
{
    lemma_filter_singleton(x, p);
    if s.len() == 0 {
        assert(Seq::<Seq<char>>::empty().filter(p) =~= Seq::<Seq<char>>::empty());
        assert(s.filter(p) =~= Seq::<Seq<char>>::empty());
    } else if line_cmp(cfg, s[0], x) == Comparison::Less {
        let rest = s.drop_first();
        lemma_insert_filter_in(cfg, x, rest, p);
        lemma_filter_singleton(s[0], p);
        assert(!p(s[0]));
        assert(seq![s[0]] + rest =~= s);
    } else {
        assert(seq![x] + s =~= insert_line(cfg, x, s));
    }
}

proof fn lemma_insert_filter_out(
    cfg: SortConfig,
    x: Seq<char>,
    s: Seq<Seq<char>>,
    p: spec_fn(Seq<char>) -> bool,
)
    requires
        !p(x),
    ensures
        insert_line(cfg, x, s).filter(p) =~= s.filter(p),
    decreases s.len(),
{
    lemma_filter_singleton(x, p);
    if s.len() == 0 {
    } else if line_cmp(cfg, s[0], x) == Comparison::Less {
        let rest = s.drop_first();
        lemma_insert_filter_out(cfg, x, rest, p);
        assert(seq![s[0]] + rest =~= s);
    } else {
    }
}

/// The stable sort leaves the subsequence any equality-class predicate
/// selects exactly as it stood in the input.
pub proof fn lemma_stable_sort_class_order(
    cfg: SortConfig,
    s: Seq<Seq<char>>,
    p: spec_fn(Seq<char>) -> bool,
)
    requires
        all_equal_under(cfg, p),
    ensures
        stable_sort_spec(cfg, s).filter(p) =~= s.filter(p),
    decreases s.len(),
{
    if s.len() > 0 {
        let rest = s.drop_first();
        lemma_stable_sort_class_order(cfg, rest, p);
        lemma_filter_singleton(s[0], p);
        assert(seq![s[0]] + rest =~= s);
        if p(s[0]) {
            lemma_insert_filter_in(cfg, s[0], stable_sort_spec(cfg, rest), p);
        } else {
            lemma_insert_filter_out(cfg, s[0], stable_sort_spec(cfg, rest), p);
        }
    }
}

/// Stability: two lines the comparator ties keep their relative input
/// order through a stable sort — the subsequence of lines textually equal
/// to either one is unchanged.
pub proof fn lemma_stable_sort_stability(
    cfg: SortConfig,
    s: Seq<Seq<char>>,
    x: Seq<char>,
    y: Seq<char>,
)
    requires
        cmp_consistent(cfg),
        line_cmp(cfg, x, y) == Comparison::Equal,
    ensures
        stable_sort_spec(cfg, s).filter((|e: Seq<char>| e == x || e == y)) =~= s.filter(
            (|e: Seq<char>| e == x || e == y),
        ),
{
    let p = (|e: Seq<char>| e == x || e == y);
    assert(all_equal_under(cfg, p)) by {
        assert(line_cmp(cfg, y, x) == flip(line_cmp(cfg, x, y)));
        assert(line_cmp(cfg, x, x) == Comparison::Equal);
        assert(line_cmp(cfg, y, y) == Comparison::Equal);
    }
    lemma_stable_sort_class_order(cfg, s, p);
}

/// Idempotence: the stable sort of an already sorted sequence is that
/// sequence itself.
pub proof fn lemma_stable_sort_idempotent(cfg: SortConfig, s: Seq<Seq<char>>)
    requires
        cmp_consistent(cfg),
        sorted_lines(cfg, s),
    ensures
        stable_sort_spec(cfg, s) =~= s,
    decreases s.len(),
{
    if s.len() > 0 {
        let rest = s.drop_first();
        assert(sorted_lines(cfg, rest)) by {
            assert(forall|i: int, j: int|
                0 <= i < j < rest.len() ==> rest[i] == s[i + 1] && rest[j] == s[j + 1]);
        }
        lemma_stable_sort_idempotent(cfg, rest);
        if rest.len() == 0 {
            assert(stable_sort_spec(cfg, s) =~= seq![s[0]]);
        } else {
            assert(line_le(cfg, s[0], s[1]));
            assert(line_cmp(cfg, rest[0], s[0]) == flip(line_cmp(cfg, s[0], rest[0])));
            assert(line_cmp(cfg, rest[0], s[0]) != Comparison::Less);
            assert(stable_sort_spec(cfg, s) == seq![s[0]] + rest);
            assert(seq![s[0]] + rest =~= s);
        }
    }
}

/// What `unique` keeps: the first occurrence, in input order, of each
/// distinct line. Equality here is textual, independent of the comparator.
pub open spec fn dedup_spec(s: Seq<Seq<char>>) -> Seq<Seq<char>>
    decreases s.len(),
{
    if s.len() == 0 {
        s
    } else {
        let rest = dedup_spec(s.drop_last());
        if s.drop_last().contains(s.last()) {
            rest
        } else {
            rest.push(s.last())
        }
    }
}

/// Dropping later duplicates keeps exactly the lines that occur.
pub proof fn lemma_dedup_contains(s: Seq<Seq<char>>, e: Seq<char>)
    ensures
        dedup_spec(s).contains(e) <==> s.contains(e),
    decreases s.len(),
{
    if s.len() > 0 {
        let fore = s.drop_last();
        lemma_dedup_contains(fore, e);
        assert(s.contains(e) <==> (fore.contains(e) || e == s.last())) by {
            if s.contains(e) {
                let i = choose|i: int| 0 <= i < s.len() && s[i] == e;
                if i < s.len() - 1 {
                    assert(fore[i] == e);
                    assert(fore.contains(e));
                }
            }
            if fore.contains(e) {
                let i = choose|i: int| 0 <= i < fore.len() && fore[i] == e;
                assert(s[i] == e);
            }
            if e == s.last() {
                assert(s[s.len() - 1] == e);
            }
        }
        if fore.contains(s.last()) {
            assert(dedup_spec(s) == dedup_spec(fore));
        } else {
            assert(dedup_spec(s) == dedup_spec(fore).push(s.last()));
            assert(dedup_spec(s).contains(e) <==> (dedup_spec(fore).contains(e) || e
                == s.last())) by {
                let d = dedup_spec(fore);
                if d.contains(e) {
                    let i = choose|i: int| 0 <= i < d.len() && d[i] == e;
                    assert(d.push(s.last())[i] == e);
                }
                assert(d.push(s.last())[d.len() as int] == s.last());
                if d.push(s.last()).contains(e) {
                    let i = choose|i: int| 0 <= i < d.len() + 1 && d.push(s.last())[i] == e;
                    if i < d.len() {
                        assert(d[i] == e);
                    }
                }
            }
        }
    }
}

/// The lines `unique` keeps are pairwise distinct.
pub proof fn lemma_dedup_distinct(s: Seq<Seq<char>>)
    ensures
        forall|i: int, j: int|
            0 <= i < j < dedup_spec(s).len() ==> (#[trigger] dedup_spec(s)[i]) != (
            #[trigger] dedup_spec(s)[j]),
    decreases s.len(),
{
    if s.len() > 0 {
        let fore = s.drop_last();
        lemma_dedup_distinct(fore);
        if !fore.contains(s.last()) {
            let d = dedup_spec(fore);
            lemma_dedup_contains(fore, s.last());
            assert(!d.contains(s.last()));
            assert forall|i: int, j: int|
                0 <= i < j < d.push(s.last()).len() implies (#[trigger] d.push(s.last())[i]) != (
            #[trigger] d.push(s.last())[j]) by {
                if j == d.len() {
                    if d.push(s.last())[i] == s.last() {
                        assert(d[i] == s.last());
                        assert(d.contains(s.last()));
                    }
                } else {
                    assert(d.push(s.last())[i] == d[i] && d.push(s.last())[j] == d[j]);
                }
            }
        }
    }
}

/// Dropping later duplicates from a sequence of pairwise distinct lines
/// changes nothing.
pub proof fn lemma_dedup_of_distinct(s: Seq<Seq<char>>)
    requires
        forall|i: int, j: int| 0 <= i < j < s.len() ==> (#[trigger] s[i]) != (#[trigger] s[j]),
    ensures
        dedup_spec(s) =~= s,
    decreases s.len(),
{
    if s.len() > 0 {
        let fore = s.drop_last();
        assert(forall|i: int, j: int|
            0 <= i < j < fore.len() ==> (#[trigger] fore[i]) != (#[trigger] fore[j]));
        lemma_dedup_of_distinct(fore);
        assert(!fore.contains(s.last())) by {
            if fore.contains(s.last()) {
                let i = choose|i: int| 0 <= i < fore.len() && fore[i] == s.last();
                assert(s[i] == s[s.len() - 1]);
            }
        }
    }
}

/// Dropping later duplicates twice is dropping them once: with `unique`
/// set, re-sorting a result changes nothing more.
pub proof fn lemma_dedup_idempotent(s: Seq<Seq<char>>)
    ensures
        dedup_spec(dedup_spec(s)) =~= dedup_spec(s),
{
    lemma_dedup_distinct(s);
    lemma_dedup_of_distinct(dedup_spec(s));
}

fn contains_line(v: &Vec<String>, x: &String) -> (r: bool)
    ensures
        r == v.deep_view().contains(x@),
{
    let n = v.len();
    let mut i: usize = 0;
    while i < n
        invariant
            0 <= i <= n,
            n == v@.len(),
            forall|j: int| 0 <= j < i ==> (#[trigger] v@[j])@ != x@,
        decreases n - i,
    {
        if v[i].eq(x) {
            assert(v.deep_view()[i as int] == x@);
            return true;
        }
        i = i + 1;
    }
    proof {
        if v.deep_view().contains(x@) {
            let j = choose|j: int| 0 <= j < v@.len() && v.deep_view()[j] == x@;
            assert(v@[j]@ == x@);
        }
    }
    false
}

/// Keeps the first occurrence, in input order, of each distinct line.
fn unique_lines(v: &Vec<String>) -> (r: Vec<String>)
    ensures
        r.deep_view() == dedup_spec(v.deep_view()),
{
    let mut out: Vec<String> = Vec::new();
    let mut i: usize = 0;
    proof {
        assert(v.deep_view().take(0) =~= Seq::<Seq<char>>::empty());
        assert(out.deep_view() =~= Seq::<Seq<char>>::empty());
    }
    while i < v.len()
        invariant
            0 <= i <= v@.len(),
            out.deep_view() == dedup_spec(v.deep_view().take(i as int)),
        decreases v@.len() - i,
    {
        let line = v[i].clone();
        proof {
            assert(line@ == v.deep_view()[i as int]);
            assert(v.deep_view().take(i + 1).drop_last() =~= v.deep_view().take(i as int));
            assert(v.deep_view().take(i + 1).last() == v.deep_view()[i as int]);
            lemma_dedup_contains(v.deep_view().take(i as int), v.deep_view()[i as int]);
        }
        let ghost old_out = out.deep_view();
        if !contains_line(&out, &line) {
            out.push(line);
            proof {
                assert(out.deep_view() =~= old_out.push(v.deep_view()[i as int]));
            }
        }
        i = i + 1;
    }
    proof {
        assert(v.deep_view().take(v@.len() as int) =~= v.deep_view());
    }
    out
}

/// Relies on rayon's `ParallelSliceMut::par_sort_by`: a parallel stable
/// merge sort by the given comparator. The result holds the same lines;
/// when the comparator is a consistent total preorder the result is the
/// sorted permutation that keeps equal lines in input order — the one the
/// insertion-sort model describes. The closure only converts the verified
/// comparator's result.
#[verifier::external_body]
fn par_sort_stable(lines: &mut Vec<String>, config: &SortConfig)
    ensures
        final(lines).deep_view().to_multiset() == old(lines).deep_view().to_multiset(),
        cmp_consistent(*config) ==> final(lines).deep_view() == stable_sort_spec(
            *config,
            old(lines).deep_view(),
        ),
{
    lines.par_sort_by(|a, b| match compare(a, b, config) {
        Comparison::Less => core::cmp::Ordering::Less,
        Comparison::Equal => core::cmp::Ordering::Equal,
        Comparison::Greater => core::cmp::Ordering::Greater,
    });
}

/// Relies on rayon's `ParallelSliceMut::par_sort_unstable_by`: a parallel
/// pattern-defeating quicksort by the given comparator. The result holds
/// the same lines; when the comparator is a consistent total preorder the
/// result is sorted, with no promise among equal lines. The closure only
/// converts the verified comparator's result.
#[verifier::external_body]
fn par_sort_unstable(lines: &mut Vec<String>, config: &SortConfig)
    ensures
        final(lines).deep_view().to_multiset() == old(lines).deep_view().to_multiset(),
        cmp_consistent(*config) ==> sorted_lines(*config, final(lines).deep_view()),
{
    lines.par_sort_unstable_by(|a, b| match compare(a, b, config) {
        Comparison::Less => core::cmp::Ordering::Less,
        Comparison::Equal => core::cmp::Ordering::Equal,
        Comparison::Greater => core::cmp::Ordering::Greater,
    });
}

/// Sorts the lines in place under the configuration: first drops later
/// duplicates when `unique` is set, then orders the survivors in parallel,
/// stably when `stable` is set. The output is a permutation of the
/// survivors; whenever the comparator is consistent it is sorted, and a
/// stable run is exactly the insertion-sort model's output.
pub fn sort(lines: &mut Vec<String>, config: &SortConfig)
    ensures
        ({
            let base = if config.unique {
                dedup_spec(old(lines).deep_view())
            } else {
                old(lines).deep_view()
            };
            &&& final(lines).deep_view().to_multiset() == base.to_multiset()
            &&& cmp_consistent(*config) ==> sorted_lines(*config, final(lines).deep_view())
            &&& cmp_consistent(*config) && config.stable ==> final(lines).deep_view()
                == stable_sort_spec(*config, base)
        }),
{
    if config.unique {
        let u = unique_lines(lines);
        *lines = u;
    }
    let ghost base = lines.deep_view();
    if config.stable {
        par_sort_stable(lines, config);
        proof {
            if cmp_consistent(*config) {
                lemma_stable_sort_ensures(*config, base);
            }
        }
    } else {
        par_sort_unstable(lines, config);
    }
}

} // verus!
