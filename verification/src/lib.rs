//! Curating one's own message history: the detector, the windows handed to a
//! model, the reading of its verdicts and the plan that comes out of them.

pub mod agree;
pub mod agree_laws;
pub mod audit;
pub mod audit_laws;
pub mod clock;
pub mod config;
pub mod dict;
pub mod dict_data;
pub mod dict_laws;
pub mod diff;
pub mod diff_laws;
pub mod error_laws;
pub mod eval;
pub mod eval_laws;
pub mod eval_report;
pub mod export;
pub mod export_laws;
pub mod fnv;
pub mod idset;
pub mod json;
pub mod json_laws;
pub mod llm;
pub mod model;
pub mod model_laws;
pub mod norm;
pub mod norm_laws;
pub mod norm_words;
pub mod order;
pub mod plan;
pub mod plan_laws;
pub mod prompt;
pub mod report_laws;
pub mod scan;
pub mod scan_laws;
pub mod scan_report;
pub mod schema;
pub mod search;
pub mod select;
pub mod select_laws;
pub mod text;
pub mod text_laws;
pub mod translit_laws;
pub mod triage;
pub mod triage_laws;
pub mod unicode;
pub mod window;
pub mod window_content_laws;
pub mod window_laws;
pub mod window_report;
