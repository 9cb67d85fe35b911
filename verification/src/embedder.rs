//! Configuration of the embedding provider's model.
//!
//! The provider itself — a local language model reached over the network —
//! is an external collaborator: the store only ever sees the vectors it
//! returns. What the library holds is the description of which model to
//! run and how, assembled here and handed to the adapter that performs the
//! call.

use vstd::prelude::*;

verus! {

/// How the embedding model is to be loaded and run.
#[derive(Debug)]
pub struct EmbeddingArgs {
    pub cpu: bool,
    pub model_id: String,
    pub revision: String,
    pub use_pth: bool,
    pub normalize_embeddings: bool,
    pub approximate_gelu: bool,
}

impl EmbeddingArgs {
    pub fn new(
        cpu: bool,
        model_id: String,
        revision: String,
        use_pth: bool,
        normalize_embeddings: bool,
        approximate_gelu: bool,
    ) -> (r: EmbeddingArgs)
        ensures
            r.cpu == cpu,
            r.model_id@ == model_id@,
            r.revision@ == revision@,
            r.use_pth == use_pth,
            r.normalize_embeddings == normalize_embeddings,
            r.approximate_gelu == approximate_gelu,
    {
        EmbeddingArgs { cpu, model_id, revision, use_pth, normalize_embeddings, approximate_gelu }
    }
}

} // verus!
