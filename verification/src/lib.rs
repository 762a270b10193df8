//! Record-linkage engine for clinical-trial data: text normalization,
//! two-tier approximate string matching, candidate ranking, arm-to-intervention
//! linking, vocabulary mapping, and bulk-statement rendering.

pub mod dist;
pub mod linker;
pub mod ranker;
pub mod record;
pub mod report;
pub mod text;
pub mod vocab;
pub mod writer;
