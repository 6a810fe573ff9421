//! Incremental loading of a folder of assets into an index keyed by
//! identifiers derived from file names.
//!
//! The library holds the decisions: which files of a folder are candidates,
//! which identifier each one gets, how the load state that the asset loader
//! reports for a file changes the index and the set of failed files, and when
//! a folder counts as fully loaded. The asset loader itself stays with the
//! caller, who polls it and hands the answers over as plain values.

mod convergence;
mod fields;
mod folder;
mod ident;
mod index;

pub use convergence::{
    agrees_with, drawn_from, has_outcome, id_of, ids_with, lemma_fresh_state_drawn,
    lemma_passes_converge, paths_with,
};
pub use fields::optional_string;
pub use folder::{
    all_settled, classify, count_candidates, count_outcome, distinct_ids, is_candidate,
    lemma_failed_state_unread, lemma_first_ready_wins, lemma_pass_monotone,
    load_assets_from_folder, members_view, outcome_of, pass_start, run, step, AssetFolderHandle,
    FileOutcome, FolderAction, FolderMember, LoadState, MemberView, PassResult, PassState,
};
pub use ident::{
    file_name_of, has_suffix, id_for_name, id_for_path, id_from_file_name, id_from_filename,
    id_from_filename_with_extension, is_hidden_file, is_hidden_file_name, is_hidden_name,
    lemma_id_of_stem, stem_of, AssetId,
};
pub use index::AssetFolder;
