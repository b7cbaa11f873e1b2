//! The run parameters the pipeline is driven with.

use vstd::prelude::*;

use crate::util::ExportFormat;
use crate::util::PageNs;

verus! {

/// Everything one run needs: the three dump paths, the output path, the two
/// namespace sets, the per-buffer size in MiB, the cutoff threshold, and the
/// export format. The embedding program fills one of these from its command
/// line and converts `buf_size_mib` to bytes before driving the passes.
pub struct CliParams {
    pub page_file: String,
    pub redirect_file: String,
    pub pagelinks_file: String,
    pub output_file: String,
    pub namespaces_from: Vec<PageNs>,
    pub namespaces_to: Vec<PageNs>,
    pub buf_size_mib: usize,
    pub cutoff_threshold: u32,
    pub export_format: ExportFormat,
}

} // verus!
