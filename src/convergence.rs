//! Over several passes: the states that passes go through, and the counts
//! that a folder ends with once the loader has settled every file.

use vstd::prelude::*;

use crate::folder::{
    count_candidates, count_outcome, distinct_ids, is_candidate, lemma_pass_monotone,
    lemma_run_unfold, outcome_of, run, step, all_settled, FileOutcome, MemberView, PassState,
};
use crate::ident::id_for_path;

verus! {

/// The identifier of a member that yields one.
pub open spec fn id_of<H>(m: MemberView<H>, ext: Seq<char>) -> Seq<char> {
    id_for_path(m.path, ext)->0
}

/// The members of `fin` that yield an identifier and whose outcome is `o`.
pub open spec fn has_outcome<H>(fin: Seq<MemberView<H>>, ext: Seq<char>, i: int, o: FileOutcome) -> bool {
    0 <= i < fin.len() && is_candidate(fin[i], ext) && outcome_of(fin[i].state, fin[i].content_ready)
        == o
}

/// The identifiers of the members of `fin` whose outcome is `o`.
pub open spec fn ids_with<H>(fin: Seq<MemberView<H>>, ext: Seq<char>, o: FileOutcome) -> Set<Seq<char>> {
    Set::new(|k: Seq<char>| exists|i: int| has_outcome(fin, ext, i, o) && id_of(fin[i], ext) == k)
}

/// The paths of the members of `fin` whose outcome is `o`.
pub open spec fn paths_with<H>(fin: Seq<MemberView<H>>, ext: Seq<char>, o: FileOutcome) -> Set<Seq<char>> {
    Set::new(|p: Seq<char>| exists|i: int| has_outcome(fin, ext, i, o) && fin[i].path == p)
}

/// The reports `ms` of one pass agree with the final reports `fin`: the
/// same files in the same order, and each file that yields an identifier
/// is either pending or has its final outcome.
pub open spec fn agrees_with<H>(ms: Seq<MemberView<H>>, fin: Seq<MemberView<H>>, ext: Seq<char>) -> bool {
    &&& ms.len() == fin.len()
    &&& forall|i: int|
        0 <= i < ms.len() ==> (#[trigger] ms[i]).path == (#[trigger] fin[i]).path && ms[i].handle
            == fin[i].handle && (is_candidate(ms[i], ext) ==> outcome_of(
            ms[i].state,
            ms[i].content_ready,
        ) == FileOutcome::Pending || outcome_of(ms[i].state, ms[i].content_ready) == outcome_of(
            fin[i].state,
            fin[i].content_ready,
        ))
}

/// What a state holds comes from the final reports `fin`: its identifiers
/// are those of ready files, its failed paths, each once, those of failed
/// files.
pub open spec fn drawn_from<H>(st: PassState<H>, fin: Seq<MemberView<H>>, ext: Seq<char>) -> bool {
    &&& st.index.dom().finite()
    &&& st.index.dom().subset_of(ids_with(fin, ext, FileOutcome::Ready))
    &&& st.failed.no_duplicates()
    &&& st.failed.to_set().subset_of(paths_with(fin, ext, FileOutcome::Failed))
}

proof fn lemma_same_id_same_member<H>(fin: Seq<MemberView<H>>, ext: Seq<char>, i: int, j: int)
    requires
        distinct_ids(fin, ext),
        0 <= i < fin.len(),
        0 <= j < fin.len(),
        is_candidate(fin[i], ext),
        is_candidate(fin[j], ext),
        id_of(fin[i], ext) == id_of(fin[j], ext) || fin[i].path == fin[j].path,
    ensures
        i == j,
{
    if i < j {
        assert(id_for_path(fin[i].path, ext) != id_for_path(fin[j].path, ext));
    } else if j < i {
        assert(id_for_path(fin[j].path, ext) != id_for_path(fin[i].path, ext));
    }
}

/// A pass over `ms.subrange(p, n)`.
proof fn lemma_pass_from<H>(
    st: PassState<H>,
    ms: Seq<MemberView<H>>,
    fin: Seq<MemberView<H>>,
    ext: Seq<char>,
    p: int,
)
    requires
        agrees_with(ms, fin, ext),
        distinct_ids(fin, ext),
        drawn_from(st, fin, ext),
        0 <= p <= ms.len(),
    ensures
        ({
            let res = run(st, ms.subrange(p, ms.len() as int), ext);
            &&& drawn_from(res, fin, ext)
            &&& res.pending >= st.pending
            &&& (forall|j: int|
                p <= j < ms.len() && is_candidate(ms[j], ext) ==> outcome_of(
                    ms[j].state,
                    ms[j].content_ready,
                ) != FileOutcome::Pending) ==> res.pending == st.pending
            &&& res.pending == st.pending ==> forall|j: int|
                p <= j < ms.len() && #[trigger] has_outcome(fin, ext, j, FileOutcome::Ready)
                    ==> res.index.contains_key(id_of(fin[j], ext))
            &&& res.pending == st.pending ==> forall|j: int|
                p <= j < ms.len() && #[trigger] has_outcome(fin, ext, j, FileOutcome::Failed)
                    ==> res.failed.contains(fin[j].path)
        }),
    decreases ms.len() - p,
{
    let n = ms.len() as int;
    if p == n {
        assert(ms.subrange(p, n) =~= Seq::<MemberView<H>>::empty());
    } else {
        lemma_run_unfold(st, ms, p, ext);
        let m = ms[p];
        let next = step(st, m, ext);
        assert(m.path == fin[p].path);
        // The step keeps the state drawn from `fin`.
        assert(drawn_from(next, fin, ext)) by {
            if is_candidate(m, ext) && !st.index.contains_key(id_of(m, ext)) && !st.failed.contains(
                m.path,
            ) {
                let o = outcome_of(m.state, m.content_ready);
                if o == FileOutcome::Ready {
                    assert(has_outcome(fin, ext, p, FileOutcome::Ready));
                    assert(ids_with(fin, ext, FileOutcome::Ready).contains(id_of(m, ext)));
                } else if o == FileOutcome::Failed {
                    assert(has_outcome(fin, ext, p, FileOutcome::Failed));
                    assert(paths_with(fin, ext, FileOutcome::Failed).contains(m.path));
                    assert(next.failed.to_set() =~= st.failed.to_set().insert(m.path)) by {
                        assert forall|x: Seq<char>| next.failed.to_set().contains(x) <==> st.failed.to_set().insert(m.path).contains(x) by {
                            if next.failed.contains(x) {
                                let j = choose|j: int| 0 <= j < next.failed.len() && next.failed[j] == x;
                                if j < st.failed.len() {
                                    assert(st.failed[j] == x);
                                }
                            }
                            if st.failed.contains(x) {
                                let j = choose|j: int| 0 <= j < st.failed.len() && st.failed[j] == x;
                                assert(next.failed[j] == x);
                            }
                            if x == m.path {
                                assert(next.failed[st.failed.len() as int] == x);
                            }
                        }
                    }
                    assert forall|a: int, b: int|
                        0 <= a < next.failed.len() && 0 <= b < next.failed.len() && a != b implies next.failed[a] != next.failed[b] by {
                        if a == st.failed.len() {
                            assert(!st.failed.contains(next.failed[b]) || next.failed[b] != m.path);
                        } else if b == st.failed.len() {
                            assert(st.failed[a] == next.failed[a]);
                        }
                    }
                }
            }
        }
        lemma_pass_from(next, ms, fin, ext, p + 1);
        let res = run(next, ms.subrange(p + 1, n), ext);
        lemma_pass_monotone(next, ms.subrange(p + 1, n), ext);
        if res.pending == st.pending {
            // Nothing was pending at `p`: member `p` is in place in `next`.
            assert(next.pending == st.pending);
            assert forall|j: int| p <= j < ms.len() implies (has_outcome(
                fin,
                ext,
                j,
                FileOutcome::Ready,
            ) ==> res.index.contains_key(id_of(fin[j], ext))) && (has_outcome(
                fin,
                ext,
                j,
                FileOutcome::Failed,
            ) ==> res.failed.contains(fin[j].path)) by {
                if j == p && is_candidate(fin[p], ext) {
                    assert(is_candidate(m, ext));
                    if st.index.contains_key(id_of(m, ext)) {
                        assert(next.index.contains_key(id_of(m, ext)));
                        if has_outcome(fin, ext, p, FileOutcome::Failed) {
                            assert(st.index.dom().contains(id_of(m, ext)));
                            let i = choose|i: int|
                                has_outcome(fin, ext, i, FileOutcome::Ready) && id_of(fin[i], ext)
                                    == id_of(m, ext);
                            lemma_same_id_same_member(fin, ext, i, p);
                        }
                    } else if st.failed.contains(m.path) {
                        assert(st.failed.to_set().contains(m.path));
                        let i = choose|i: int|
                            has_outcome(fin, ext, i, FileOutcome::Failed) && fin[i].path == m.path;
                        lemma_same_id_same_member(fin, ext, i, p);
                        let k = choose|k: int| 0 <= k < st.failed.len() && st.failed[k] == m.path;
                        assert(next.failed[k] == m.path);
                        assert(res.failed.subrange(0, next.failed.len() as int)[k] == m.path);
                    } else {
                        if has_outcome(fin, ext, p, FileOutcome::Failed) {
                            assert(next.failed[st.failed.len() as int] == m.path);
                            assert(res.failed.subrange(0, next.failed.len() as int)[st.failed.len() as int] == m.path);
                        }
                    }
                }
            }
        }
    }
}

proof fn lemma_outcome_sets<H>(fin: Seq<MemberView<H>>, ext: Seq<char>, o: FileOutcome)
    requires
        distinct_ids(fin, ext),
    ensures
        ids_with(fin, ext, o).finite(),
        ids_with(fin, ext, o).len() == count_outcome(fin, ext, o),
        paths_with(fin, ext, o).finite(),
        paths_with(fin, ext, o).len() == count_outcome(fin, ext, o),
    decreases fin.len(),
{
    if fin.len() == 0 {
        assert(ids_with(fin, ext, o) =~= Set::<Seq<char>>::empty());
        assert(paths_with(fin, ext, o) =~= Set::<Seq<char>>::empty());
    } else {
        let rest = fin.drop_first();
        assert forall|i: int, j: int|
            0 <= i < j < rest.len() && is_candidate(rest[i], ext) && is_candidate(
                rest[j],
                ext,
            ) implies id_for_path(rest[i].path, ext) != id_for_path(rest[j].path, ext) by {
            assert(rest[i] == fin[i + 1]);
            assert(rest[j] == fin[j + 1]);
        }
        lemma_outcome_sets(rest, ext, o);
        let ids = ids_with(fin, ext, o);
        let paths = paths_with(fin, ext, o);
        let rest_ids = ids_with(rest, ext, o);
        let rest_paths = paths_with(rest, ext, o);
        assert forall|k: Seq<char>| #[trigger] ids.contains(k) <==> rest_ids.contains(k) || (
        has_outcome(fin, ext, 0, o) && k == id_of(fin[0], ext)) by {
            if ids.contains(k) {
                let i = choose|i: int| has_outcome(fin, ext, i, o) && id_of(fin[i], ext) == k;
                if i > 0 {
                    assert(rest[i - 1] == fin[i]);
                    assert(has_outcome(rest, ext, i - 1, o));
                }
            }
            if rest_ids.contains(k) {
                let i = choose|i: int| has_outcome(rest, ext, i, o) && id_of(rest[i], ext) == k;
                assert(rest[i] == fin[i + 1]);
                assert(has_outcome(fin, ext, i + 1, o));
            }
            if has_outcome(fin, ext, 0, o) && k == id_of(fin[0], ext) {
                assert(has_outcome(fin, ext, 0, o));
            }
        }
        assert forall|x: Seq<char>| #[trigger] paths.contains(x) <==> rest_paths.contains(x) || (
        has_outcome(fin, ext, 0, o) && x == fin[0].path) by {
            if paths.contains(x) {
                let i = choose|i: int| has_outcome(fin, ext, i, o) && fin[i].path == x;
                if i > 0 {
                    assert(rest[i - 1] == fin[i]);
                    assert(has_outcome(rest, ext, i - 1, o));
                }
            }
            if rest_paths.contains(x) {
                let i = choose|i: int| has_outcome(rest, ext, i, o) && rest[i].path == x;
                assert(rest[i] == fin[i + 1]);
                assert(has_outcome(fin, ext, i + 1, o));
            }
            if has_outcome(fin, ext, 0, o) && x == fin[0].path {
                assert(has_outcome(fin, ext, 0, o));
            }
        }
        if has_outcome(fin, ext, 0, o) {
            assert(!rest_ids.contains(id_of(fin[0], ext))) by {
                if rest_ids.contains(id_of(fin[0], ext)) {
                    let i = choose|i: int|
                        has_outcome(rest, ext, i, o) && id_of(rest[i], ext) == id_of(fin[0], ext);
                    assert(rest[i] == fin[i + 1]);
                    lemma_same_id_same_member(fin, ext, 0, i + 1);
                }
            }
            assert(!rest_paths.contains(fin[0].path)) by {
                if rest_paths.contains(fin[0].path) {
                    let i = choose|i: int| has_outcome(rest, ext, i, o) && rest[i].path == fin[0].path;
                    assert(rest[i] == fin[i + 1]);
                    lemma_same_id_same_member(fin, ext, 0, i + 1);
                }
            }
            assert(ids =~= rest_ids.insert(id_of(fin[0], ext)));
            assert(paths =~= rest_paths.insert(fin[0].path));
        } else {
            assert(ids =~= rest_ids);
            assert(paths =~= rest_paths);
        }
    }
}

proof fn lemma_candidates_split<H>(ms: Seq<MemberView<H>>, ext: Seq<char>)
    requires
        all_settled(ms, ext),
    ensures
        count_candidates(ms, ext) == count_outcome(ms, ext, FileOutcome::Ready) + count_outcome(
            ms,
            ext,
            FileOutcome::Failed,
        ),
    decreases ms.len(),
{
    if ms.len() > 0 {
        let rest = ms.drop_first();
        assert forall|i: int| 0 <= i < rest.len() && is_candidate(rest[i], ext) implies outcome_of(
            rest[i].state,
            rest[i].content_ready,
        ) != FileOutcome::Pending by {
            assert(rest[i] == ms[i + 1]);
        }
        lemma_candidates_split(rest, ext);
    }
}

/// The state of a folder that no pass has touched yet holds nothing, so it
/// is drawn from any final reports.
pub proof fn lemma_fresh_state_drawn<H>(fin: Seq<MemberView<H>>, ext: Seq<char>)
    ensures
        drawn_from(
            PassState {
                index: Map::<Seq<char>, H>::empty(),
                failed: Seq::empty(),
                pending: 0,
                loaded: 0,
            },
            fin,
            ext,
        ),
{
    assert(Seq::<Seq<char>>::empty().to_set() =~= Set::empty());
}

/// Convergence over passes. Let `fin` be what the loader finally reports of
/// each file of a folder, no two of its files sharing an identifier, and let
/// every pass see, for each file, either no settled outcome yet or that
/// final one. Then from a state drawn from `fin` (a fresh one is), every
/// pass leaves a state drawn from `fin`; a pass in which every file is
/// settled leaves nothing pending; and a pass that leaves nothing pending
/// ends with one index entry per ready file and one failed path per failed
/// file. When every file is settled, those two counts add up to the number
/// of files that yield an identifier.
pub proof fn lemma_passes_converge<H>(
    st: PassState<H>,
    ms: Seq<MemberView<H>>,
    fin: Seq<MemberView<H>>,
    ext: Seq<char>,
)
    requires
        distinct_ids(fin, ext),
        agrees_with(ms, fin, ext),
        drawn_from(st, fin, ext),
        st.pending == 0,
    ensures
        drawn_from(run(st, ms, ext), fin, ext),
        all_settled(ms, ext) ==> run(st, ms, ext).pending == 0,
        run(st, ms, ext).pending == 0 ==> run(st, ms, ext).index.len() == count_outcome(
            fin,
            ext,
            FileOutcome::Ready,
        ) && run(st, ms, ext).failed.len() == count_outcome(fin, ext, FileOutcome::Failed),
        all_settled(fin, ext) ==> count_candidates(fin, ext) == count_outcome(
            fin,
            ext,
            FileOutcome::Ready,
        ) + count_outcome(fin, ext, FileOutcome::Failed),
{
    assert(ms.subrange(0, ms.len() as int) =~= ms);
    lemma_pass_from(st, ms, fin, ext, 0);
    let res = run(st, ms, ext);
    if res.pending == 0 {
        let ready = ids_with(fin, ext, FileOutcome::Ready);
        let failed = paths_with(fin, ext, FileOutcome::Failed);
        assert forall|k: Seq<char>| ready.contains(k) implies res.index.dom().contains(k) by {
            let j = choose|j: int| has_outcome(fin, ext, j, FileOutcome::Ready) && id_of(fin[j], ext) == k;
            assert(has_outcome(fin, ext, j, FileOutcome::Ready));
        }
        assert(res.index.dom() =~= ready);
        assert forall|x: Seq<char>| failed.contains(x) implies res.failed.to_set().contains(x) by {
            let j = choose|j: int| has_outcome(fin, ext, j, FileOutcome::Failed) && fin[j].path == x;
            assert(has_outcome(fin, ext, j, FileOutcome::Failed));
            assert(res.failed.contains(x));
        }
        assert(res.failed.to_set() =~= failed);
        lemma_outcome_sets(fin, ext, FileOutcome::Ready);
        lemma_outcome_sets(fin, ext, FileOutcome::Failed);
        res.failed.unique_seq_to_set();
    }
    if all_settled(fin, ext) {
        lemma_candidates_split(fin, ext);
    }
}

} // verus!
