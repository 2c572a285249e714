//! The verdict on a file from the report of the file-analysis service, and
//! the preparation of a file for upload.
pub mod responses;

use vstd::prelude::*;
use base64_stream::ToBase64Reader;
use std::io::{Cursor, Read};
use crate::antivirus::responses::{AnalysisReportData, AnalysisReportResponse, ErrorResponse};
use crate::utils::text::{same_chars, to_chars};

verus! {

/// Why no verdict was reached.
#[derive(Debug, PartialEq, Eq)]
pub enum AntivirusError {
    /// The service answered with an error of its own.
    ErrorApiResponse { message: String },
    /// The file to analyse is empty.
    CannotProcessEmptyFile,
    /// The service has not analysed the file yet.
    ApiCallQueued,
}

impl AntivirusError {
    /// What to tell the user about this error.
    pub fn message(&self) -> (text: String)
        ensures
            self matches AntivirusError::ErrorApiResponse { message } ==> text@ == message@,
            self is CannotProcessEmptyFile ==> text@ == "Cannot process empty file"@,
            self is ApiCallQueued ==> text@ == "API cannot process file yet. Try again later!"@,
    {
        match self {
            AntivirusError::ErrorApiResponse { message } => String::from_str(message.as_str()),
            AntivirusError::CannotProcessEmptyFile => String::from_str("Cannot process empty file"),
            AntivirusError::ApiCallQueued => String::from_str(
                "API cannot process file yet. Try again later!",
            ),
        }
    }
}

/// The text that `base64_stream::ToBase64Reader` gives for the bytes: their
/// standard Base64 encoding.
pub uninterp spec fn base64_text(bytes: Seq<u8>) -> Seq<char>;

/// `base64_stream::ToBase64Reader` encodes what it reads as standard
/// Base64. The text depends on the bytes alone; the contract names it.
#[verifier::external_body]
fn to_base64(bytes: &[u8]) -> (text: String)
    ensures
        text@ == base64_text(bytes@),
{
    let mut reader = ToBase64Reader::new(Cursor::new(bytes));
    let mut text = String::new();
    reader.read_to_string(&mut text).unwrap();
    text
}

/// The content of a file as Base64 text, for upload. An empty file is
/// refused with `CannotProcessEmptyFile`.
pub fn file_to_base64(file_content: &[u8]) -> (r: Result<String, AntivirusError>)
    ensures
        match r {
            Ok(text) => file_content@.len() > 0 && text@ == base64_text(file_content@),
            Err(e) => file_content@.len() == 0 && e == AntivirusError::CannotProcessEmptyFile,
        },
{
    if file_content.len() == 0 {
        return Err(AntivirusError::CannotProcessEmptyFile);
    }
    Ok(to_base64(file_content))
}

/// How many engines found the file malicious and how many found it
/// suspicious, in this order.
pub fn reports_key_data(report: AnalysisReportData) -> (r: (u64, u64))
    ensures
        r == (report.attributes.stats.malicious, report.attributes.stats.suspicious),
{
    let results = report.attributes.stats;
    let malicious_number = results.malicious;
    let suspicious_number = results.suspicious;
    (malicious_number, suspicious_number)
}

/// Whether a file counts as dangerous: some engine found it malicious or
/// suspicious.
pub fn is_dangerous(report: AnalysisReportData) -> (dangerous: bool)
    ensures
        dangerous == (report.attributes.stats.malicious + report.attributes.stats.suspicious > 0),
{
    let (malicious_number, suspicious_number) = reports_key_data(report);
    malicious_number > 0 || suspicious_number > 0
}

/// The report of a finished analysis. A report whose status is not
/// `completed` is refused with `ApiCallQueued`.
pub fn get_analysis_report(api_response: AnalysisReportResponse) -> (r: Result<
    AnalysisReportData,
    AntivirusError,
>)
    ensures
        match r {
            Ok(data) => api_response.data.attributes.status@ == "completed"@ && data
                == api_response.data,
            Err(e) => api_response.data.attributes.status@ != "completed"@ && e
                == AntivirusError::ApiCallQueued,
        },
{
    let status = to_chars(api_response.data.attributes.status.as_str());
    let completed = to_chars("completed");
    if !same_chars(status.as_slice(), completed.as_slice()) {
        return Err(AntivirusError::ApiCallQueued);
    }
    Ok(api_response.data)
}

/// The error that stands for an error answer of the service: it carries the
/// message of the answer.
pub fn api_failure(error_reponse: ErrorResponse) -> (e: AntivirusError)
    ensures
        e == (AntivirusError::ErrorApiResponse { message: error_reponse.error.message }),
{
    AntivirusError::ErrorApiResponse { message: error_reponse.error.message }
}

} // verus!
