//! Merging the requested icon states of a source file into a destination
//! file: a state of a name that the destination holds replaces it in place,
//! any other is appended.

use vstd::prelude::*;
use dmi::icon::IconState;
use crate::text::views;

verus! {

#[verifier::external_type_specification]
#[verifier::external_body]
pub struct ExIconState(IconState);

/// Relies on `IconState`'s `PartialEq` (derived in the dmi crate): whether two
/// icon states hold the same name, images and settings.
#[verifier::external_body]
fn same_state(a: &IconState, b: &IconState) -> (r: bool) {
    a == b
}

/// An icon state together with its name, which the merge goes by.
pub struct StateEntry {
    pub name: String,
    pub state: IconState,
}

/// What the merge did with one requested state.
#[derive(PartialEq, Eq, Structural, Clone, Copy, Debug)]
pub enum Outcome {
    /// The destination held an equal state of that name; nothing changed.
    Identical,
    /// The destination's state of that name was replaced in place.
    Replaced,
    /// The destination had no state of that name; it was appended.
    Added,
}

/// One line of the merge's report.
pub struct MergeReport {
    pub name: String,
    pub outcome: Outcome,
}

/// The first position at or after `i` of a state named `n`.
pub open spec fn find_from(d: Seq<StateEntry>, n: Seq<char>, i: int) -> Option<int>
    decreases d.len() - i,
{
    if i >= d.len() {
        None
    } else if d[i].name@ == n {
        Some(i)
    } else {
        find_from(d, n, i + 1)
    }
}

/// The first position of a state named `n`.
pub open spec fn find_name(d: Seq<StateEntry>, n: Seq<char>) -> Option<int> {
    find_from(d, n, 0)
}

/// The states of `source` whose name is requested, in the order of `source`.
pub open spec fn requested(source: Seq<StateEntry>, names: Seq<Seq<char>>) -> Seq<StateEntry> {
    source.filter(|e: StateEntry| names.contains(e.name@))
}

/// The outcomes in a report.
pub open spec fn outcomes(r: Seq<MergeReport>) -> Seq<Outcome> {
    r.map_values(|m: MergeReport| m.outcome)
}

/// Each incoming state is `Added` exactly when `d` has no state of its name.
pub open spec fn outcomes_fit(d: Seq<StateEntry>, sel: Seq<StateEntry>, outs: Seq<Outcome>) -> bool {
    &&& outs.len() == sel.len()
    &&& forall|k: int|
        0 <= k < sel.len() ==> (outs[k] == Outcome::Added) == (find_name(d, sel[k].name@) is None)
}

/// `d` with each incoming state that was `Replaced` put at the first position of its name.
pub open spec fn replaced(d: Seq<StateEntry>, sel: Seq<StateEntry>, outs: Seq<Outcome>) -> Seq<
    StateEntry,
>
    decreases sel.len(),
{
    if sel.len() == 0 {
        d
    } else {
        let prev = replaced(d, sel.drop_last(), outs.drop_last());
        let last = sel.last();
        match find_name(d, last.name@) {
            Some(j) => if outs.last() == Outcome::Replaced {
                prev.update(j, last)
            } else {
                prev
            },
            None => prev,
        }
    }
}

/// The incoming states that were `Added`, in their order.
pub open spec fn added(sel: Seq<StateEntry>, outs: Seq<Outcome>) -> Seq<StateEntry>
    decreases sel.len(),
{
    if sel.len() == 0 {
        Seq::empty()
    } else {
        let prev = added(sel.drop_last(), outs.drop_last());
        if outs.last() == Outcome::Added {
            prev.push(sel.last())
        } else {
            prev
        }
    }
}

/// The destination after the merge, given what was decided for each incoming state.
pub open spec fn merged(d: Seq<StateEntry>, sel: Seq<StateEntry>, outs: Seq<Outcome>) -> Seq<
    StateEntry,
> {
    replaced(d, sel, outs) + added(sel, outs)
}

/// Two sequences of states with the same names, position by position.
pub open spec fn same_names(a: Seq<StateEntry>, b: Seq<StateEntry>) -> bool {
    &&& a.len() == b.len()
    &&& forall|j: int| 0 <= j < a.len() ==> #[trigger] a[j].name@ == b[j].name@
}

proof fn lemma_find_from(d: Seq<StateEntry>, n: Seq<char>, i: int)
    requires
        0 <= i,
    ensures
        match find_from(d, n, i) {
            Some(j) => i <= j < d.len() && d[j].name@ == n && forall|k: int|
                i <= k < j ==> d[k].name@ != n,
            None => forall|k: int| i <= k < d.len() ==> d[k].name@ != n,
        },
    decreases d.len() - i,
{
    if i < d.len() && d[i].name@ != n {
        lemma_find_from(d, n, i + 1);
    }
}

proof fn lemma_find_same_names(a: Seq<StateEntry>, b: Seq<StateEntry>, n: Seq<char>, i: int)
    requires
        same_names(a, b),
        0 <= i,
    ensures
        find_from(a, n, i) == find_from(b, n, i),
    decreases a.len() - i,
{
    if i < a.len() {
        assert(a[i].name@ == b[i].name@);
        lemma_find_same_names(a, b, n, i + 1);
    }
}

proof fn lemma_replaced_names(d: Seq<StateEntry>, sel: Seq<StateEntry>, outs: Seq<Outcome>)
    ensures
        same_names(replaced(d, sel, outs), d),
    decreases sel.len(),
{
    if sel.len() > 0 {
        lemma_replaced_names(d, sel.drop_last(), outs.drop_last());
        lemma_find_from(d, sel.last().name@, 0);
        let prev = replaced(d, sel.drop_last(), outs.drop_last());
        let r = replaced(d, sel, outs);
        assert forall|j: int| 0 <= j < r.len() implies #[trigger] r[j].name@ == d[j].name@ by {
            assert(prev[j].name@ == d[j].name@);
        }
    }
}

/// Whether `names` holds `n`.
fn contains_name(names: &Vec<String>, n: &String) -> (r: bool)
    ensures
        r == views(names@).contains(n@),
{
    let mut i: usize = 0;
    while i < names.len()
        invariant
            i <= names@.len(),
            forall|k: int| 0 <= k < i ==> names@[k]@ != n@,
        decreases names@.len() - i,
    {
        if names[i] == *n {
            assert(views(names@)[i as int] == n@);
            return true;
        }
        i = i + 1;
    }
    proof {
        if views(names@).contains(n@) {
            let k = choose|k: int| 0 <= k < views(names@).len() && views(names@)[k] == n@;
            assert(names@[k]@ == n@);
        }
    }
    false
}

/// The first position in `d` of a state named `n`.
pub fn find_state(d: &Vec<StateEntry>, n: &String) -> (r: Option<usize>)
    ensures
        match r {
            Some(j) => find_name(d@, n@) == Some(j as int),
            None => find_name(d@, n@) is None,
        },
{
    let mut i: usize = 0;
    while i < d.len()
        invariant
            i <= d@.len(),
            find_name(d@, n@) == find_from(d@, n@, i as int),
        decreases d@.len() - i,
    {
        if d[i].name == *n {
            return Some(i);
        }
        i = i + 1;
    }
    None
}

/// The states of `source` whose name `names` holds, in the order of `source`.
pub fn select_requested(source: Vec<StateEntry>, names: &Vec<String>) -> (r: Vec<StateEntry>)
    ensures
        r@ == requested(source@, views(names@)),
{
    let n = source.len();
    let ghost all = source@;
    let ghost pred = |e: StateEntry| views(names@).contains(e.name@);
    let mut rest = source;
    let mut out: Vec<StateEntry> = Vec::new();
    let mut i: usize = 0;
    proof {
        reveal(Seq::filter);
        assert(all.take(0) =~= Seq::<StateEntry>::empty());
        assert(rest@ =~= all.skip(0));
    }
    while rest.len() > 0
        invariant
            i <= all.len(),
            all.len() == n,
            rest@ == all.skip(i as int),
            out@ == all.take(i as int).filter(pred),
            pred == (|e: StateEntry| views(names@).contains(e.name@)),
        decreases rest@.len(),
    {
        let e = rest.remove(0);
        proof {
            reveal(Seq::filter);
            assert(all.take(i + 1).drop_last() =~= all.take(i as int));
            assert(all.take(i + 1).last() == e);
            assert(rest@ =~= all.skip(i + 1));
        }
        if contains_name(names, &e.name) {
            out.push(e);
        }
        i = i + 1;
    }
    assert(all.take(i as int) =~= all);
    out
}

/// Merges one incoming state `e` into `dest`, given `equal`: whether `e`
/// equals the first state of its name in `dest`. Where `dest` has no state of
/// that name, `e` goes to the end of `pending` and is `Added`; where the two
/// are equal nothing changes and it is `Identical`; else `e` takes that
/// state's place and is `Replaced`.
pub fn merge_one(
    dest: &mut Vec<StateEntry>,
    pending: &mut Vec<StateEntry>,
    e: StateEntry,
    equal: bool,
) -> (o: Outcome)
    ensures
        match find_name(old(dest)@, e.name@) {
            None => {
                &&& o == Outcome::Added
                &&& final(dest)@ == old(dest)@
                &&& final(pending)@ == old(pending)@.push(e)
            },
            Some(j) => {
                &&& 0 <= j < old(dest)@.len()
                &&& final(pending)@ == old(pending)@
                &&& if equal {
                    o == Outcome::Identical && final(dest)@ == old(dest)@
                } else {
                    o == Outcome::Replaced && final(dest)@ == old(dest)@.update(j, e)
                }
            },
        },
{
    proof {
        lemma_find_from(dest@, e.name@, 0);
    }
    match find_state(dest, &e.name) {
        Some(j) => {
            if equal {
                Outcome::Identical
            } else {
                dest.set(j, e);
                Outcome::Replaced
            }
        },
        None => {
            pending.push(e);
            Outcome::Added
        },
    }
}

/// Merges the states of `source` whose name `names` holds into `dest`, and
/// reports, for each of them in the order of `source`, what became of it.
/// A state whose name `dest` holds is compared with the first state of that
/// name there by the equality of icon states, and [`merge_one`] does the
/// rest: if the two differ it replaces that state in place, else nothing
/// changes. A state whose name `dest` lacks is appended. Names that
/// `source` lacks are passed over.
#[verifier::spinoff_prover]
pub fn merge_states(dest: &mut Vec<StateEntry>, source: Vec<StateEntry>, names: &Vec<String>) -> (r:
    Vec<MergeReport>)
    ensures
        ({
            let sel = requested(source@, views(names@));
            &&& r@.len() == sel.len()
            &&& forall|k: int| 0 <= k < sel.len() ==> #[trigger] r@[k].name@ == sel[k].name@
            &&& outcomes_fit(old(dest)@, sel, outcomes(r@))
            &&& final(dest)@ == merged(old(dest)@, sel, outcomes(r@))
        }),
{
    let ghost d0 = dest@;
    let mut rest = select_requested(source, names);
    let n = rest.len();
    let ghost sel = rest@;
    let mut reports: Vec<MergeReport> = Vec::new();
    let mut pending: Vec<StateEntry> = Vec::new();
    let mut k: usize = 0;
    proof {
        assert(sel.take(0) =~= Seq::<StateEntry>::empty());
        assert(rest@ =~= sel.skip(0));
        assert(outcomes(reports@) =~= Seq::<Outcome>::empty());
    }
    while rest.len() > 0
        invariant
            k <= sel.len(),
            sel.len() == n,
            rest@ == sel.skip(k as int),
            reports@.len() == k,
            forall|i: int| 0 <= i < k ==> #[trigger] reports@[i].name@ == sel[i].name@,
            outcomes_fit(d0, sel.take(k as int), outcomes(reports@)),
            dest@ == replaced(d0, sel.take(k as int), outcomes(reports@)),
            pending@ == added(sel.take(k as int), outcomes(reports@)),
            same_names(dest@, d0),
        decreases rest@.len(),
    {
        let e = rest.remove(0);
        let ghost before = reports@;
        let ghost dest_before = dest@;
        proof {
            assert(sel.take(k + 1).drop_last() =~= sel.take(k as int));
            assert(sel.take(k + 1).last() == e);
            assert(rest@ =~= sel.skip(k + 1));
            lemma_find_same_names(dest@, d0, e.name@, 0);
            lemma_find_from(d0, e.name@, 0);
        }
        let ghost eg = e;
        assert(eg == sel[k as int]);
        let name = e.name.clone();
        let equal = match find_state(dest, &e.name) {
            Some(j) => same_state(&dest[j].state, &e.state),
            None => false,
        };
        let outcome = merge_one(dest, &mut pending, e, equal);
        reports.push(MergeReport { name, outcome });
        proof {
            assert forall|i: int| 0 <= i < k + 1 implies #[trigger] reports@[i].name@
                == sel[i].name@ by {
                if i < k {
                    assert(reports@[i] == before[i]);
                } else {
                    assert(reports@[k as int] == MergeReport { name, outcome });
                    assert(name@ == eg.name@);
                }
            }
            assert(outcomes(reports@) =~= outcomes(before).push(outcome));
            assert(outcomes(reports@).drop_last() =~= outcomes(before));
            assert(same_names(dest@, d0)) by {
                assert forall|j: int| 0 <= j < dest@.len() implies #[trigger] dest@[j].name@
                    == d0[j].name@ by {
                    assert(dest_before[j].name@ == d0[j].name@);
                }
            }
        }
        k = k + 1;
    }
    proof {
        assert(sel.take(k as int) =~= sel);
    }
    dest.append(&mut pending);
    reports
}

/// Every state that the selection keeps is one of `source`.
proof fn lemma_filter_from(source: Seq<StateEntry>, pred: spec_fn(StateEntry) -> bool)
    ensures
        forall|k: int|
            0 <= k < source.filter(pred).len() ==> exists|i: int|
                0 <= i < source.len() && source[i] == #[trigger] source.filter(pred)[k],
    decreases source.len(),
{
    reveal(Seq::filter);
    if source.len() > 0 {
        let s = source.drop_last();
        lemma_filter_from(s, pred);
        let f = source.filter(pred);
        assert forall|k: int| 0 <= k < f.len() implies exists|i: int|
            0 <= i < source.len() && source[i] == #[trigger] f[k] by {
            if k < s.filter(pred).len() {
                let i = choose|i: int| 0 <= i < s.len() && s[i] == s.filter(pred)[k];
                assert(source[i] == f[k]);
            } else {
                assert(source[source.len() - 1] == f[k]);
            }
        }
    }
}

/// A requested name of no state of `source` selects nothing, so the merge
/// reports nothing under it and changes nothing for it.
pub proof fn lemma_absent_names_unreported(
    source: Seq<StateEntry>,
    names: Seq<Seq<char>>,
    n: Seq<char>,
)
    requires
        forall|i: int| 0 <= i < source.len() ==> source[i].name@ != n,
    ensures
        forall|k: int|
            0 <= k < requested(source, names).len() ==> #[trigger] requested(
                source,
                names,
            )[k].name@ != n,
{
    lemma_filter_from(source, |e: StateEntry| names.contains(e.name@));
}

proof fn lemma_outcomes_fit_prefix(d: Seq<StateEntry>, sel: Seq<StateEntry>, outs: Seq<Outcome>)
    requires
        outcomes_fit(d, sel, outs),
        sel.len() > 0,
    ensures
        outcomes_fit(d, sel.drop_last(), outs.drop_last()),
{
}

proof fn lemma_replaced_untouched(
    d: Seq<StateEntry>,
    sel: Seq<StateEntry>,
    outs: Seq<Outcome>,
    j: int,
)
    requires
        0 <= j < d.len(),
        forall|k: int| 0 <= k < sel.len() ==> sel[k].name@ != d[j].name@,
    ensures
        replaced(d, sel, outs)[j] == d[j],
    decreases sel.len(),
{
    if sel.len() > 0 {
        lemma_replaced_untouched(d, sel.drop_last(), outs.drop_last(), j);
        lemma_find_from(d, sel.last().name@, 0);
        lemma_replaced_names(d, sel.drop_last(), outs.drop_last());
    }
}

proof fn lemma_added_is_filter(d: Seq<StateEntry>, sel: Seq<StateEntry>, outs: Seq<Outcome>)
    requires
        outcomes_fit(d, sel, outs),
    ensures
        added(sel, outs) == sel.filter(|e: StateEntry| find_name(d, e.name@) is None),
    decreases sel.len(),
{
    reveal(Seq::filter);
    if sel.len() > 0 {
        lemma_outcomes_fit_prefix(d, sel, outs);
        lemma_added_is_filter(d, sel.drop_last(), outs.drop_last());
        assert(outs.last() == outs[sel.len() - 1]);
    }
}

/// The merge keeps the destination's states where they stand: each position
/// keeps its name, and a state of a name that nothing incoming has stays as
/// it was. The states it adds come after them, in the order of the source.
pub proof fn lemma_merge_keeps_order(d: Seq<StateEntry>, sel: Seq<StateEntry>, outs: Seq<Outcome>)
    requires
        outcomes_fit(d, sel, outs),
    ensures
        ({
            let m = merged(d, sel, outs);
            &&& m.len() >= d.len()
            &&& forall|j: int| 0 <= j < d.len() ==> #[trigger] m[j].name@ == d[j].name@
            &&& forall|j: int|
                0 <= j < d.len() && (forall|k: int| 0 <= k < sel.len() ==> sel[k].name@ != d[j].name@)
                    ==> #[trigger] m[j] == d[j]
            &&& m.skip(d.len() as int) == sel.filter(|e: StateEntry| find_name(d, e.name@) is None)
        }),
{
    let m = merged(d, sel, outs);
    lemma_replaced_names(d, sel, outs);
    lemma_added_is_filter(d, sel, outs);
    assert forall|j: int| 0 <= j < d.len() implies #[trigger] m[j].name@ == d[j].name@ by {
        assert(replaced(d, sel, outs)[j].name@ == d[j].name@);
    }
    assert forall|j: int|
        0 <= j < d.len() && (forall|k: int| 0 <= k < sel.len() ==> sel[k].name@ != d[j].name@)
        implies #[trigger] m[j] == d[j] by {
        lemma_replaced_untouched(d, sel, outs, j);
    }
    assert(m.skip(d.len() as int) =~= added(sel, outs));
}

/// No two incoming states share a name.
pub open spec fn distinct_names(sel: Seq<StateEntry>) -> bool {
    forall|a: int, b: int| 0 <= a < b < sel.len() ==> sel[a].name@ != sel[b].name@
}

proof fn lemma_find_first(d: Seq<StateEntry>, n: Seq<char>, j: int)
    requires
        0 <= j < d.len(),
        d[j].name@ == n,
        forall|k: int| 0 <= k < j ==> d[k].name@ != n,
    ensures
        find_name(d, n) == Some(j),
{
    lemma_find_from(d, n, 0);
}

proof fn lemma_added_avoids(sel: Seq<StateEntry>, outs: Seq<Outcome>, n: Seq<char>)
    requires
        forall|i: int| 0 <= i < sel.len() ==> sel[i].name@ != n,
    ensures
        forall|q: int| 0 <= q < added(sel, outs).len() ==> (#[trigger] added(sel, outs)[q]).name@ != n,
    decreases sel.len(),
{
    if sel.len() > 0 {
        let s = sel.drop_last();
        let o = outs.drop_last();
        let prev = added(s, o);
        lemma_added_avoids(s, o, n);
        assert(sel.last() == sel[sel.len() - 1]);
        assert(added(sel, outs) == (if outs.last() == Outcome::Added {
            prev.push(sel.last())
        } else {
            prev
        }));
        assert forall|q: int| 0 <= q < added(sel, outs).len() implies (#[trigger] added(
            sel,
            outs,
        )[q]).name@ != n by {
            if q < prev.len() {
                assert(prev[q].name@ != n);
            }
        }
    }
}

proof fn lemma_added_position(sel: Seq<StateEntry>, outs: Seq<Outcome>, k: int)
    requires
        distinct_names(sel),
        outs.len() == sel.len(),
        0 <= k < sel.len(),
        outs[k] == Outcome::Added,
    ensures
        exists|p: int|
            0 <= p < added(sel, outs).len() && added(sel, outs)[p] == sel[k] && forall|q: int|
                0 <= q < p ==> (#[trigger] added(sel, outs)[q]).name@ != sel[k].name@,
    decreases sel.len(),
{
    let s = sel.drop_last();
    let o = outs.drop_last();
    let a = added(sel, outs);
    let prev = added(s, o);
    if k == sel.len() - 1 {
        lemma_added_avoids(s, o, sel[k].name@);
        let p = prev.len() as int;
        assert(a[p] == sel[k]);
        assert forall|q: int| 0 <= q < p implies (#[trigger] a[q]).name@ != sel[k].name@ by {
            assert(a[q] == prev[q]);
        }
    } else {
        lemma_added_position(s, o, k);
        let p = choose|p: int|
            0 <= p < prev.len() && prev[p] == s[k] && forall|q: int|
                0 <= q < p ==> (#[trigger] prev[q]).name@ != s[k].name@;
        assert(a[p] == sel[k]);
        assert forall|q: int| 0 <= q < p implies (#[trigger] a[q]).name@ != sel[k].name@ by {
            assert(a[q] == prev[q]);
        }
    }
}

proof fn lemma_replaced_at(d: Seq<StateEntry>, sel: Seq<StateEntry>, outs: Seq<Outcome>, k: int, j: int)
    requires
        distinct_names(sel),
        outs.len() == sel.len(),
        0 <= k < sel.len(),
        find_name(d, sel[k].name@) == Some(j),
    ensures
        0 <= j < d.len(),
        replaced(d, sel, outs)[j] == if outs[k] == Outcome::Replaced {
            sel[k]
        } else {
            d[j]
        },
    decreases sel.len(),
{
    let s = sel.drop_last();
    let o = outs.drop_last();
    lemma_find_from(d, sel[k].name@, 0);
    lemma_replaced_names(d, s, o);
    let last = sel.last();
    lemma_find_from(d, last.name@, 0);
    if k == sel.len() - 1 {
        lemma_replaced_untouched(d, s, o, j);
    } else {
        lemma_replaced_at(d, s, o, k, j);
        assert(last.name@ != sel[k].name@);
    }
}

proof fn lemma_added_none(sel: Seq<StateEntry>, outs: Seq<Outcome>)
    requires
        outs.len() == sel.len(),
        forall|k: int| 0 <= k < sel.len() ==> outs[k] != Outcome::Added,
    ensures
        added(sel, outs) == Seq::<StateEntry>::empty(),
    decreases sel.len(),
{
    if sel.len() > 0 {
        lemma_added_none(sel.drop_last(), outs.drop_last());
        assert(outs.last() == outs[sel.len() - 1]);
    }
}

proof fn lemma_replaced_noop(m: Seq<StateEntry>, sel: Seq<StateEntry>, outs: Seq<Outcome>)
    requires
        outs.len() == sel.len(),
        forall|k: int|
            0 <= k < sel.len() && outs[k] == Outcome::Replaced ==> match find_name(m, sel[k].name@) {
                Some(j) => m[j] == sel[k],
                None => true,
            },
    ensures
        replaced(m, sel, outs) == m,
    decreases sel.len(),
{
    if sel.len() > 0 {
        let s = sel.drop_last();
        let o = outs.drop_last();
        assert forall|k: int|
            0 <= k < s.len() && o[k] == Outcome::Replaced implies match find_name(m, s[k].name@) {
                Some(j) => m[j] == s[k],
                None => true,
            } by {
            assert(s[k] == sel[k] && o[k] == outs[k]);
        }
        lemma_replaced_noop(m, s, o);
        assert(outs.last() == outs[sel.len() - 1]);
        match find_name(m, sel.last().name@) {
            Some(j) => {
                lemma_find_from(m, sel.last().name@, 0);
                assert(m.update(j, m[j]) =~= m);
            },
            None => {},
        }
    }
}

/// After a merge, each incoming state stands first under its name, holding
/// that very state unless the merge judged the two identical.
proof fn lemma_merged_holds(d: Seq<StateEntry>, sel: Seq<StateEntry>, outs: Seq<Outcome>, k: int)
    requires
        distinct_names(sel),
        outcomes_fit(d, sel, outs),
        0 <= k < sel.len(),
    ensures
        ({
            let m = merged(d, sel, outs);
            &&& find_name(m, sel[k].name@) is Some
            &&& (m[find_name(m, sel[k].name@)->0] == sel[k] || outs[k] == Outcome::Identical)
        }),
{
    let m = merged(d, sel, outs);
    let r = replaced(d, sel, outs);
    let a = added(sel, outs);
    let n = sel[k].name@;
    lemma_replaced_names(d, sel, outs);
    lemma_find_from(d, n, 0);
    match find_name(d, n) {
        Some(j) => {
            lemma_replaced_at(d, sel, outs, k, j);
            assert(m[j] == r[j]);
            assert forall|i: int| 0 <= i < j implies m[i].name@ != n by {
                assert(m[i] == r[i]);
                assert(r[i].name@ == d[i].name@);
            }
            assert(m[j].name@ == n) by {
                assert(r[j].name@ == d[j].name@);
            }
            lemma_find_first(m, n, j);
        },
        None => {
            lemma_added_position(sel, outs, k);
            let p = choose|p: int|
                0 <= p < a.len() && a[p] == sel[k] && forall|q: int|
                    0 <= q < p ==> (#[trigger] a[q]).name@ != sel[k].name@;
            let at = r.len() + p;
            assert(m[at] == sel[k]);
            assert forall|i: int| 0 <= i < at implies m[i].name@ != n by {
                if i < r.len() {
                    assert(m[i] == r[i]);
                    assert(r[i].name@ == d[i].name@);
                } else {
                    assert(m[i] == a[i - r.len()]);
                }
            }
            lemma_find_first(m, n, at);
        },
    }
}

/// Merging the same states a second time finds every one of them under its
/// name, so nothing is added again; and where the equality of icon states
/// judges again as it did the first time, the destination stays exactly as
/// the first merge left it.
pub proof fn lemma_merge_twice(
    d: Seq<StateEntry>,
    sel: Seq<StateEntry>,
    outs1: Seq<Outcome>,
    outs2: Seq<Outcome>,
)
    requires
        distinct_names(sel),
        outcomes_fit(d, sel, outs1),
        outcomes_fit(merged(d, sel, outs1), sel, outs2),
    ensures
        forall|k: int| 0 <= k < sel.len() ==> #[trigger] outs2[k] != Outcome::Added,
        (forall|k: int| 0 <= k < sel.len() && outs1[k] == Outcome::Identical ==> #[trigger] outs2[k]
            == Outcome::Identical) ==> merged(merged(d, sel, outs1), sel, outs2) == merged(
            d,
            sel,
            outs1,
        ),
{
    let m = merged(d, sel, outs1);
    assert forall|k: int| 0 <= k < sel.len() implies #[trigger] outs2[k] != Outcome::Added by {
        lemma_merged_holds(d, sel, outs1, k);
    }
    if forall|k: int| 0 <= k < sel.len() && outs1[k] == Outcome::Identical ==> #[trigger] outs2[k]
        == Outcome::Identical {
        assert forall|k: int|
            0 <= k < sel.len() && outs2[k] == Outcome::Replaced implies match find_name(
                m,
                sel[k].name@,
            ) {
                Some(j) => m[j] == sel[k],
                None => true,
            } by {
            lemma_merged_holds(d, sel, outs1, k);
        }
        lemma_replaced_noop(m, sel, outs2);
        lemma_added_none(sel, outs2);
        assert(merged(m, sel, outs2) =~= m);
    }
}

} // verus!
