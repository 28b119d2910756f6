//! Structures for protocol analysis.
//!
//! Each structure may implement one or more analyzers.

mod fmlp;
mod olpf;
mod omlp;

pub use fmlp::FlexibleMulti;
pub use fmlp::fmlp_term;
pub use fmlp::fmlp_sum;
pub use fmlp::lemma_fmlp_pass_deterministic;
pub use olpf::OptimalFIFO;
pub use olpf::olpf_term;
pub use olpf::olpf_sum;
pub use olpf::olpf_rw_term;
pub use olpf::olpf_rw_sum;
pub use olpf::lemma_olpf_pass_deterministic;
pub use olpf::lemma_olpf_rw_pass_deterministic;
pub use omlp::GlobalOm;
pub use omlp::SingleClusterOm;
pub use omlp::count_nonzero_upto;
pub use omlp::omlp_term;
pub use omlp::omlp_sum;
pub use omlp::donation;
pub use omlp::donated;
pub use omlp::sco_term_total;
pub use omlp::sco_term_arrival;
pub use omlp::sco_pass_upto;
pub use omlp::crw_terms;
pub use omlp::crw_pass_upto;
pub use omlp::lemma_omlp_pass_deterministic;
pub use omlp::lemma_sco_pass_deterministic;
pub use omlp::lemma_crw_pass_deterministic;
