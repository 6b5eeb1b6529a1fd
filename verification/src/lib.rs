//! Tracing attacks on ring-signature transaction graphs.
//!
//! A transaction graph is a bipartite graph between *key images* (one per
//! spend) and *public keys* (the ring members of each spend).  Key images and
//! public keys are dense indices: `ring[ki]` is the set of public keys that
//! key image `ki` may have spent, and `pk_to_ki[pk]` lists the key images
//! whose ring held `pk` when the graph was built.
//!
//! The crate offers three reductions of the rings, each of which only removes
//! public keys that cannot be the true spend:
//!
//! * the cascade (zero-mixin chain reaction), in [`mod@cascade`];
//! * the clustering search for closed sets, in [`mod@cluster`], with the
//!   split of a closed set into its irreducible parts in [`decompose`];
//! * the Dulmage-Mendelsohn decomposition, in [`dm`], on the maximum
//!   matching of [`matching`].
//!
//! The text of the files is read and written in [`loader`], [`ring_file`] and
//! [`block_file`]; the functions take and give bytes, and leave the files to
//! the caller.  The histograms of the reports are counted in [`stats`].
//!
//! The executable functions are verified against the contracts they carry,
//! with two exceptions: the functions of [`graphs`] and the two builders of
//! [`sparse`] call `petgraph` and `sprs`, and their contracts are taken on
//! trust.  What holds of every run is stated and proved in [`soundness`],
//! [`cascade_laws`], [`dm_laws`], [`exactness`] and [`round_trip`]: the
//! reductions keep every assignment of a public key to each key image, the
//! decomposition leaves exactly the public keys that some assignment spends,
//! and a ring file that was written reads back as the rings it was written
//! from.

pub mod error;
pub mod model;
pub mod sets;
pub mod text;
pub mod loader;
pub mod ring_file;
pub mod block_file;
pub mod round_trip;
pub mod stats;
pub mod closed_set;
pub mod cascade;
pub mod matching;
pub mod graphs;
pub mod sparse;
pub mod decompose;
pub mod cluster;
pub mod soundness;
pub mod rotation;
pub mod cascade_laws;
pub mod dm_laws;
pub mod exactness;
pub mod dm;

pub use crate::block_file::{write_closed_set_sizes, write_fine_decomposition};
pub use crate::cascade::cascade;
pub use crate::closed_set::{apply_closed_sets, remove_closed_set_pks};
pub use crate::cluster::{cluster, form_cluster};
pub use crate::decompose::decompose_closed_set;
pub use crate::dm::{dm_attack, dm_decomposition, DmAttack, DmDecomposition};
pub use crate::error::Error;
pub use crate::loader::{read_edges, rings_from_edges};
pub use crate::ring_file::{read_rings, write_edges, write_ring_sets, write_rings};
pub use crate::matching::{cn_txgraph_maximum_matching, CscGraph, UNMATCHED};
pub use crate::sparse::CsrGraph;
pub use crate::stats::{ring_size_histogram, traced_ring_histogram};
