//! VMZ compiler core: design themes, style slicing, application relocation,
//! deployment graph proofs, template key rules, locale policy and emit helpers,
//! application mounts, proxy dispatch and cross-application links.

pub mod affected;
pub mod application;
pub mod bytes;
pub mod check;
pub mod composition;
pub mod contract;
pub mod dep_graph;
pub mod document;
pub mod dx_x1;
pub mod dx_x4;
pub mod emit;
pub mod isolation;
pub mod json;
pub mod locale;
pub mod method_compose;
pub mod multi_adapter;
pub mod native_host;
pub mod deployment;
pub mod deployment_doc;
pub mod designs;
pub mod diagnostic;
pub mod digest;
pub mod order;
pub mod plan_scan;
pub mod proxy;
pub mod reloc;
pub mod server_artifact;
pub mod static_delivery;
pub mod template;
pub mod test_select;
pub mod text;
pub mod theme_css;
pub mod token_file;
pub mod wechat_pack;
pub mod wechat_plan;
pub mod wechat_wxss;
