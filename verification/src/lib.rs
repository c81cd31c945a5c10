//! CodeIO core: the verified language front end, IR, routing engine, indexes
//! and the small data-processing kernels behind the CodeIO services.

pub mod text;
pub mod lexer;
pub mod parser;
pub mod precedence;
pub mod strmap;
pub mod digest;
pub mod values;
pub mod ir;
pub mod toklabel;
pub mod lower;
pub mod strs;
pub mod decimal;
pub mod selector;
pub mod router;
pub mod route_index;
pub mod records;
pub mod stdtext;
pub mod symbol_index;
pub mod store;
pub mod depmap;
pub mod trigram;
pub mod context;
pub mod messages;
pub mod web;
pub mod site;
pub mod features;
pub mod view;
pub mod scanner;
pub mod index_service;
pub mod spotlight;
