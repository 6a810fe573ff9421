//! The load state of a folder, and the pass that reconciles the files of the
//! folder with the index.

use vstd::prelude::*;

use crate::ident::{id_for_path, id_from_filename_with_extension};
use crate::index::AssetFolder;

verus! {

/// What the asset loader reports of one file.
#[derive(Clone, Copy, Debug, PartialEq, Eq, Structural)]
pub enum LoadState {
    NotLoaded,
    Loading,
    Loaded,
    Failed,
}

/// What a report of the loader means for a file that is not in the index yet.
#[derive(Clone, Copy, Debug, PartialEq, Eq, Structural)]
pub enum FileOutcome {
    /// The content is loaded and can be read: it goes into the index.
    Ready,
    /// The load failed: the file is set aside for good.
    Failed,
    /// Not settled yet: the file is looked at again on the next pass.
    Pending,
}

/// A file is ready when the loader reports it loaded and its content can be
/// read; failed when the loader reports a failure; pending otherwise (not
/// started, loading, no state known, or loaded while the content cannot be
/// read yet).
pub open spec fn outcome_of(state: Option<LoadState>, content_ready: bool) -> FileOutcome {
    match state {
        Some(LoadState::Loaded) => if content_ready {
            FileOutcome::Ready
        } else {
            FileOutcome::Pending
        },
        Some(LoadState::Failed) => FileOutcome::Failed,
        _ => FileOutcome::Pending,
    }
}

/// The outcome of a file from what the loader reports of it.
pub fn classify(state: Option<LoadState>, content_ready: bool) -> (r: FileOutcome)
    ensures
        r == outcome_of(state, content_ready),
{
    match state {
        Some(LoadState::Loaded) => if content_ready {
            FileOutcome::Ready
        } else {
            FileOutcome::Pending
        },
        Some(LoadState::Failed) => FileOutcome::Failed,
        _ => FileOutcome::Pending,
    }
}

/// One file of a discovered folder, with what the loader reported of it on
/// this pass. `state` is `None` where the loader knows no state for the file,
/// or where it was not asked (see `AssetFolderHandle::needs_poll`).
pub struct FolderMember<H> {
    pub path: String,
    pub handle: H,
    pub state: Option<LoadState>,
    pub content_ready: bool,
}

/// A member file as plain values.
pub struct MemberView<H> {
    pub path: Seq<char>,
    pub handle: H,
    pub state: Option<LoadState>,
    pub content_ready: bool,
}

impl<H> View for FolderMember<H> {
    type V = MemberView<H>;

    open spec fn view(&self) -> MemberView<H> {
        MemberView {
            path: self.path@,
            handle: self.handle,
            state: self.state,
            content_ready: self.content_ready,
        }
    }
}

/// The member files as plain values, in order.
pub open spec fn members_view<H>(ms: Seq<FolderMember<H>>) -> Seq<MemberView<H>> {
    ms.map_values(|m: FolderMember<H>| m@)
}

/// The state of a pass: the index, the failed paths in the order they failed,
/// and the number of pending and of loaded files met so far.
pub struct PassState<H> {
    pub index: Map<Seq<char>, H>,
    pub failed: Seq<Seq<char>>,
    pub pending: nat,
    pub loaded: nat,
}

/// What a pass does with one member file. A file that yields no identifier
/// is ignored. A file whose identifier is in the index counts as loaded and
/// is left alone, whatever its path: the first entry for an identifier wins.
/// A file whose path failed before is ignored, and its state is not read.
/// Any other file goes by its outcome: a ready one enters the index, a failed
/// one is set aside, a pending one is counted.
pub open spec fn step<H>(st: PassState<H>, m: MemberView<H>, ext: Seq<char>) -> PassState<H> {
    match id_for_path(m.path, ext) {
        None => st,
        Some(k) => if st.index.contains_key(k) {
            PassState { loaded: st.loaded + 1, ..st }
        } else if st.failed.contains(m.path) {
            st
        } else {
            match outcome_of(m.state, m.content_ready) {
                FileOutcome::Ready => PassState {
                    index: st.index.insert(k, m.handle),
                    loaded: st.loaded + 1,
                    ..st
                },
                FileOutcome::Failed => PassState { failed: st.failed.push(m.path), ..st },
                FileOutcome::Pending => PassState { pending: st.pending + 1, ..st },
            }
        },
    }
}

/// A pass over the member files `ms`, in order, from the state `st`.
pub open spec fn run<H>(st: PassState<H>, ms: Seq<MemberView<H>>, ext: Seq<char>) -> PassState<
    H,
>
    decreases ms.len(),
{
    if ms.len() == 0 {
        st
    } else {
        run(step(st, ms[0], ext), ms.drop_first(), ext)
    }
}

/// The state that a pass starts from.
pub open spec fn pass_start<H>(index: Map<Seq<char>, H>, failed: Seq<Seq<char>>) -> PassState<H> {
    PassState { index, failed, pending: 0, loaded: 0 }
}

/// What a call of `load_assets_from_folder` did.
#[derive(Clone, Copy, Debug, PartialEq, Eq, Structural)]
pub enum PassResult {
    /// The folder has not been asked for yet: nothing was done.
    NotStarted,
    /// The folder was fully loaded before: nothing was done.
    AlreadyLoaded,
    /// The loader has not listed the folder's files yet: nothing was done.
    FolderPending,
    /// A pass was made, and this many files are still pending.
    Pending { pending: usize },
    /// A pass was made and no file is pending: the folder is now loaded.
    /// `loaded` files of the folder are in the index, `failed` paths failed.
    Completed { loaded: usize, failed: usize },
}

/// What the caller should do next for a folder.
#[derive(Clone, Copy, Debug, PartialEq, Eq, Structural)]
pub enum FolderAction {
    /// Ask the loader for the folder, and hand the token to `start_discovery`.
    RequestDiscovery,
    /// Poll the loader and call `load_assets_from_folder`.
    Reconcile,
    /// Nothing: the folder is loaded.
    Idle,
}

/// The load state of one folder: the token of the loader's request for the
/// folder, whether the folder is fully loaded, and the paths of the files
/// that failed to load, which are never tried again.
pub struct AssetFolderHandle<T> {
    pub handle: Option<T>,
    pub loaded: bool,
    pub failed_paths: Vec<String>,
}

impl<T> Default for AssetFolderHandle<T> {
    fn default() -> (r: AssetFolderHandle<T>)
        ensures
            r.handle is None,
            !r.loaded,
            r.failed_paths@.len() == 0,
    {
        AssetFolderHandle::new()
    }
}

impl<T> AssetFolderHandle<T> {
    /// The failed paths as plain values, in the order they failed.
    pub open spec fn failed_view(&self) -> Seq<Seq<char>> {
        self.failed_paths@.map_values(|s: String| s@)
    }

    /// A folder that has not been asked for.
    pub fn new() -> (r: AssetFolderHandle<T>)
        ensures
            r.handle is None,
            !r.loaded,
            r.failed_paths@.len() == 0,
    {
        AssetFolderHandle { handle: None, loaded: false, failed_paths: Vec::new() }
    }

    /// The folder has been asked for and is not fully loaded yet.
    pub fn is_loading(&self) -> (r: bool)
        ensures
            r == (self.handle is Some && !self.loaded),
    {
        self.handle.is_some() && !self.loaded
    }

    /// The folder is fully loaded.
    pub fn is_loaded(&self) -> (r: bool)
        ensures
            r == self.loaded,
    {
        self.loaded
    }

    /// What the caller should do next for this folder.
    pub fn next_action(&self) -> (r: FolderAction)
        ensures
            r == if self.handle is None {
                FolderAction::RequestDiscovery
            } else if self.loaded {
                FolderAction::Idle
            } else {
                FolderAction::Reconcile
            },
    {
        if self.handle.is_none() {
            FolderAction::RequestDiscovery
        } else if self.loaded {
            FolderAction::Idle
        } else {
            FolderAction::Reconcile
        }
    }

    /// Records the token of the loader's request for the folder. A folder
    /// that was asked for before keeps its token.
    pub fn start_discovery(&mut self, token: T)
        ensures
            final(self).handle == if old(self).handle is None {
                Some(token)
            } else {
                old(self).handle
            },
            final(self).loaded == old(self).loaded,
            final(self).failed_paths == old(self).failed_paths,
    {
        if self.handle.is_none() {
            self.handle = Some(token);
        }
    }

    /// Whether `path` failed to load before.
    pub fn is_failed(&self, path: &String) -> (r: bool)
        ensures
            r == self.failed_view().contains(path@),
    {
        let mut i: usize = 0;
        while i < self.failed_paths.len()
            invariant
                i <= self.failed_paths.len(),
                forall|j: int| 0 <= j < i ==> self.failed_view()[j] != path@,
            decreases self.failed_paths.len() - i,
        {
            if self.failed_paths[i] == *path {
                assert(self.failed_view()[i as int] == path@);
                return true;
            }
            i = i + 1;
        }
        false
    }

    /// Whether the loader must be asked for the state of the file at `path`
    /// on this pass: the file yields an identifier, that identifier is not in
    /// `library`, and the path has not failed before.
    pub fn needs_poll<H>(&self, library: &AssetFolder<H>, path: &String, file_extension: &str) -> (r:
        bool)
        requires
            library.wf(),
        ensures
            r == match id_for_path(path@, file_extension@) {
                Some(k) => !library@.contains_key(k) && !self.failed_view().contains(path@),
                None => false,
            },
    {
        match id_from_filename_with_extension(path.as_str(), file_extension) {
            Some(id) => !library.contains(&id) && !self.is_failed(path),
            None => false,
        }
    }
}

/// The state of a pass in progress: the index, the failed paths and the two
/// counters.
spec fn pass_now<T, H>(
    folder_handle: &AssetFolderHandle<T>,
    library: &AssetFolder<H>,
    pending: usize,
    loaded: usize,
) -> PassState<H> {
    PassState {
        index: library@,
        failed: folder_handle.failed_view(),
        pending: pending as nat,
        loaded: loaded as nat,
    }
}

/// A pass over the members from `done` on takes member `done` first.
pub(crate) proof fn lemma_run_unfold<H>(st: PassState<H>, ms: Seq<MemberView<H>>, done: int, ext: Seq<char>)
    requires
        0 <= done < ms.len(),
    ensures
        run(st, ms.subrange(done, ms.len() as int), ext) == run(
            step(st, ms[done], ext),
            ms.subrange(done + 1, ms.len() as int),
            ext,
        ),
{
    let rest = ms.subrange(done, ms.len() as int);
    assert(rest[0] == ms[done]);
    assert(rest.drop_first() =~= ms.subrange(done + 1, ms.len() as int));
}

/// One pass of the reconciliation of a folder with its index.
///
/// Nothing is done, and the result says why, when the folder has not been
/// asked for, when it is loaded already, or when its files are not listed
/// yet (`members` is `None`). Otherwise each member file is taken in turn
/// as `step` says; the folder becomes loaded when no file is left pending.
pub fn load_assets_from_folder<T, H>(
    folder_handle: &mut AssetFolderHandle<T>,
    library: &mut AssetFolder<H>,
    members: Option<Vec<FolderMember<H>>>,
    file_extension: &str,
) -> (r: PassResult)
    requires
        old(library).wf(),
    ensures
        final(library).wf(),
        final(folder_handle).handle == old(folder_handle).handle,
        old(folder_handle).handle is None ==> r == PassResult::NotStarted && *final(folder_handle)
            == *old(folder_handle) && *final(library) == *old(library),
        old(folder_handle).handle is Some && old(folder_handle).loaded ==> r
            == PassResult::AlreadyLoaded && *final(folder_handle) == *old(folder_handle)
            && *final(library) == *old(library),
        old(folder_handle).handle is Some && !old(folder_handle).loaded && members is None ==> r
            == PassResult::FolderPending && *final(folder_handle) == *old(folder_handle)
            && *final(library) == *old(library),
        old(folder_handle).handle is Some && !old(folder_handle).loaded && members is Some ==> ({
            let res = run(
                pass_start(old(library)@, old(folder_handle).failed_view()),
                members_view(members->0@),
                file_extension@,
            );
            &&& final(library)@ == res.index
            &&& final(folder_handle).failed_view() == res.failed
            &&& final(folder_handle).loaded == (res.pending == 0)
            &&& r == if res.pending == 0 {
                PassResult::Completed { loaded: res.loaded as usize, failed: res.failed.len() as usize }
            } else {
                PassResult::Pending { pending: res.pending as usize }
            }
        }),
{
    if folder_handle.handle.is_none() {
        return PassResult::NotStarted;
    }
    if folder_handle.loaded {
        return PassResult::AlreadyLoaded;
    }
    let mut members = match members {
        Some(ms) => ms,
        None => {
            return PassResult::FolderPending;
        },
    };
    let ghost ext = file_extension@;
    let ghost orig = members_view(members@);
    let ghost start = pass_start(library@, folder_handle.failed_view());
    let n = members.len();
    // The members are taken from the end of a vector: reverse them first, so
    // that they are met in the order given.
    let mut rev: Vec<FolderMember<H>> = Vec::new();
    while members.len() > 0
        invariant
            members.len() + rev.len() == n,
            orig.len() == n,
            forall|j: int| 0 <= j < members.len() ==> #[trigger] members@[j]@ == orig[j],
            forall|j: int| 0 <= j < rev.len() ==> #[trigger] rev@[j]@ == orig[n - 1 - j],
        decreases members.len(),
    {
        match members.pop() {
            Some(m) => {
                rev.push(m);
            },
            None => {},
        }
    }
    let mut pending: usize = 0;
    let mut loaded: usize = 0;
    assert(orig.subrange(0, n as int) =~= orig);
    while rev.len() > 0
        invariant
            rev.len() <= n,
            orig.len() == n,
            ext == file_extension@,
            library.wf(),
            pending <= n - rev.len(),
            loaded <= n - rev.len(),
            forall|j: int| 0 <= j < rev.len() ==> #[trigger] rev@[j]@ == orig[n - 1 - j],
            run(pass_now(folder_handle, library, pending, loaded), orig.subrange(n - rev.len(), n as int), ext)
                == run(start, orig, ext),
            folder_handle.handle == old(folder_handle).handle,
            !folder_handle.loaded,
        decreases rev.len(),
    {
        let ghost done = n - rev.len();
        let ghost before = pass_now(folder_handle, library, pending, loaded);
        proof {
            lemma_run_unfold(before, orig, done, ext);
        }
        let m = rev.pop().unwrap();
        assert(m@ == orig[done]);
        match id_from_filename_with_extension(m.path.as_str(), file_extension) {
            None => {
                assert(step(before, orig[done], ext) == before);
            },
            Some(id) => {
                assert(id_for_path(orig[done].path, ext) == Some(id@));
                if library.contains(&id) {
                    loaded = loaded + 1;
                } else if folder_handle.is_failed(&m.path) {
                    assert(step(before, orig[done], ext) == before);
                } else {
                    match classify(m.state, m.content_ready) {
                        FileOutcome::Ready => {
                            library.insert(id, m.handle);
                            loaded = loaded + 1;
                        },
                        FileOutcome::Failed => {
                            folder_handle.failed_paths.push(m.path);
                            proof {
                                assert(folder_handle.failed_view() =~= before.failed.push(orig[done].path));
                            }
                        },
                        FileOutcome::Pending => {
                            pending = pending + 1;
                        },
                    }
                }
            },
        }
        assert(pass_now(folder_handle, library, pending, loaded) == step(before, orig[done], ext));
    }
    assert(orig.subrange(n as int, n as int) =~= Seq::<MemberView<H>>::empty());
    if pending == 0 {
        folder_handle.loaded = true;
        PassResult::Completed { loaded, failed: folder_handle.failed_paths.len() }
    } else {
        PassResult::Pending { pending }
    }
}

/// A pass never takes anything away: every entry of the index stays, with
/// its handle, the failed paths stay in front of those that fail during the
/// pass, and the index never shrinks.
pub proof fn lemma_pass_monotone<H>(st: PassState<H>, ms: Seq<MemberView<H>>, ext: Seq<char>)
    ensures
        st.index.submap_of(run(st, ms, ext).index),
        st.failed.len() <= run(st, ms, ext).failed.len(),
        run(st, ms, ext).failed.subrange(0, st.failed.len() as int) == st.failed,
        st.index.dom().finite() ==> run(st, ms, ext).index.dom().finite() && st.index.len() <= run(
            st,
            ms,
            ext,
        ).index.len(),
    decreases ms.len(),
{
    if ms.len() > 0 {
        let next = step(st, ms[0], ext);
        lemma_pass_monotone(next, ms.drop_first(), ext);
        let res = run(st, ms, ext);
        assert(st.index.submap_of(next.index));
        assert forall|k: Seq<char>| #[trigger] st.index.contains_key(k) implies res.index.contains_key(k)
            && res.index[k] == st.index[k] by {
            assert(next.index.contains_key(k) && next.index[k] == st.index[k]);
        }
        assert(st.index.submap_of(res.index));
        assert(st.index.dom().subset_of(res.index.dom()));
        assert(next.failed.subrange(0, st.failed.len() as int) =~= st.failed);
        assert(res.failed.subrange(0, st.failed.len() as int) =~= next.failed.subrange(
            0,
            st.failed.len() as int,
        ));
        if st.index.dom().finite() {
            vstd::set_lib::lemma_len_subset(st.index.dom(), res.index.dom());
        }
    } else {
        assert(st.failed.subrange(0, st.failed.len() as int) =~= st.failed);
    }
}

/// Two lists of members that differ only in what the loader reported of
/// files that had failed before the pass lead to the same pass: the state of
/// a failed file is never read again.
pub proof fn lemma_failed_state_unread<H>(
    st: PassState<H>,
    ms1: Seq<MemberView<H>>,
    ms2: Seq<MemberView<H>>,
    ext: Seq<char>,
)
    requires
        ms1.len() == ms2.len(),
        forall|i: int|
            0 <= i < ms1.len() ==> (#[trigger] ms1[i]).path == (#[trigger] ms2[i]).path
                && ms1[i].handle == ms2[i].handle && (st.failed.contains(ms1[i].path) || (
            ms1[i].state == ms2[i].state && ms1[i].content_ready == ms2[i].content_ready)),
    ensures
        run(st, ms1, ext) == run(st, ms2, ext),
    decreases ms1.len(),
{
    if ms1.len() > 0 {
        let m1 = ms1[0];
        let m2 = ms2[0];
        if !st.failed.contains(m1.path) {
            assert(m1 == m2);
        }
        let next = step(st, m1, ext);
        assert(step(st, m2, ext) == next);
        assert forall|p: Seq<char>| st.failed.contains(p) implies next.failed.contains(p) by {
            let j = choose|j: int| 0 <= j < st.failed.len() && st.failed[j] == p;
            assert(next.failed[j] == p);
        }
        let r1 = ms1.drop_first();
        let r2 = ms2.drop_first();
        assert forall|i: int| 0 <= i < r1.len() implies (#[trigger] r1[i]).path == (
        #[trigger] r2[i]).path && r1[i].handle == r2[i].handle && (next.failed.contains(r1[i].path)
            || (r1[i].state == r2[i].state && r1[i].content_ready == r2[i].content_ready)) by {
            assert(r1[i] == ms1[i + 1]);
            assert(r2[i] == ms2[i + 1]);
        }
        lemma_failed_state_unread(next, r1, r2, ext);
    }
}

/// Of two files with the same identifier that come ready in one pass, the
/// first one met enters the index and the second is left out; an entry made
/// by an earlier pass is kept as it is (see `lemma_pass_monotone`).
pub proof fn lemma_first_ready_wins<H>(
    st: PassState<H>,
    first: MemberView<H>,
    second: MemberView<H>,
    ext: Seq<char>,
)
    requires
        id_for_path(first.path, ext) is Some,
        id_for_path(second.path, ext) == id_for_path(first.path, ext),
        !st.index.contains_key(id_for_path(first.path, ext)->0),
        !st.failed.contains(first.path),
        outcome_of(first.state, first.content_ready) == FileOutcome::Ready,
    ensures
        run(st, seq![first, second], ext).index == st.index.insert(
            id_for_path(first.path, ext)->0,
            first.handle,
        ),
{
    let ms = seq![first, second];
    let after_first = step(st, first, ext);
    assert(ms.drop_first() =~= seq![second]);
    assert(seq![second].drop_first() =~= Seq::<MemberView<H>>::empty());
    assert(run(after_first, seq![second], ext) == run(
        step(after_first, second, ext),
        Seq::<MemberView<H>>::empty(),
        ext,
    ));
}

/// The member yields an identifier under `ext`.
pub open spec fn is_candidate<H>(m: MemberView<H>, ext: Seq<char>) -> bool {
    id_for_path(m.path, ext) is Some
}

/// The number of members that yield an identifier and whose outcome is `o`.
pub open spec fn count_outcome<H>(ms: Seq<MemberView<H>>, ext: Seq<char>, o: FileOutcome) -> nat
    decreases ms.len(),
{
    if ms.len() == 0 {
        0
    } else {
        (if is_candidate(ms[0], ext) && outcome_of(ms[0].state, ms[0].content_ready) == o {
            1nat
        } else {
            0nat
        }) + count_outcome(ms.drop_first(), ext, o)
    }
}

/// The number of members that yield an identifier.
pub open spec fn count_candidates<H>(ms: Seq<MemberView<H>>, ext: Seq<char>) -> nat
    decreases ms.len(),
{
    if ms.len() == 0 {
        0
    } else {
        (if is_candidate(ms[0], ext) {
            1nat
        } else {
            0nat
        }) + count_candidates(ms.drop_first(), ext)
    }
}

/// No two members that yield an identifier yield the same one.
pub open spec fn distinct_ids<H>(ms: Seq<MemberView<H>>, ext: Seq<char>) -> bool {
    forall|i: int, j: int|
        0 <= i < j < ms.len() && is_candidate(ms[i], ext) && is_candidate(ms[j], ext) ==> id_for_path(
            ms[i].path,
            ext,
        ) != id_for_path(ms[j].path, ext)
}

/// Every member that yields an identifier is settled: ready or failed.
pub open spec fn all_settled<H>(ms: Seq<MemberView<H>>, ext: Seq<char>) -> bool {
    forall|i: int|
        0 <= i < ms.len() && is_candidate(ms[i], ext) ==> outcome_of(
            ms[i].state,
            ms[i].content_ready,
        ) != FileOutcome::Pending
}

} // verus!
