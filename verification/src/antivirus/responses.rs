//! What the file-analysis service answers, as plain values.
use vstd::prelude::*;
use std::collections::HashMap;

verus! {

#[derive(Debug, Default)]
pub struct AnalysisIdResponse {
    pub data: AnalysisIdData,
}

#[derive(Debug, Default)]
pub struct AnalysisIdData {
    pub _type: String,
    pub id: String,
    pub links: AnalysisLink,
    pub attributes: Option<AnalysisAttributes>,
    pub relationships: Option<AnalysisRelationships>,
}

#[derive(Debug, Default)]
pub struct AnalysisLink {
    pub _self: String,
}

#[derive(Debug, Default)]
pub struct AnalysisAttributes {
    pub integer_attribute: u64,
    pub string_attribute: String,
    pub dictionary_attribute: HashMap<String, u64>,
    pub list_attribute: Vec<String>,
}

#[derive(Debug, Default)]
pub struct AnalysisRelationships {
    pub x: String,
}

#[derive(Debug, Default)]
pub struct AnalysisReportResponse {
    pub _type: Option<String>,
    pub data: AnalysisReportData,
    pub id: Option<String>,
    pub links: Option<AnalysisReportLinks>,
    pub meta: Option<AnalysisReportMeta>,
}

#[derive(Debug, Default)]
pub struct AnalysisReportLinks {
    pub selff: String,
    pub item: String,
}

#[derive(Debug, Default)]
pub struct AnalysisReportMeta {
    pub file_info: MetaFileInfo,
}

#[derive(Debug, Default)]
pub struct MetaFileInfo {
    pub size: Option<u64>,
    pub sha256: Option<String>,
    pub sha1: Option<String>,
    pub md5: Option<String>,
}

#[derive(Debug, Default)]
pub struct AnalysisReportData {
    pub attributes: AnalysisReportAttribute,
}

#[derive(Debug, Default)]
pub struct AnalysisReportAttribute {
    /// When the analysis was made, as a timestamp.
    pub date: i64,
    pub results: HashMap<String, Analysis>,
    pub stats: ReportStats,
    pub status: String,
}

/// How many engines gave each verdict.
#[derive(Debug, Default)]
pub struct ReportStats {
    pub confirmed_timeout: u64,
    pub failure: u64,
    pub harmless: u64,
    pub malicious: u64,
    pub suspicious: u64,
    pub timeout: u64,
    pub type_unsupported: u64,
    pub undetected: u64,
}

/// The verdict of one engine.
#[derive(Debug, Default)]
pub struct Analysis {
    pub category: Option<String>,
    pub engine_name: Option<String>,
    pub engine_update: Option<String>,
    pub engine_version: Option<String>,
    pub method: Option<String>,
    pub result: Option<String>,
}

#[derive(Debug, Default)]
pub struct ErrorResponse {
    pub error: ErrorContent,
}

#[derive(Debug, Default)]
pub struct ErrorContent {
    pub message: String,
    pub code: String,
}

} // verus!
