use mucli::antivirus::responses::{
    AnalysisReportData, AnalysisReportResponse, ErrorContent, ErrorResponse, ReportStats,
};
use mucli::antivirus::{
    api_failure, file_to_base64, get_analysis_report, is_dangerous, reports_key_data,
    AntivirusError,
};
use mucli::currency::{exchange_rates_address, SUPPORTED_CURRENCIES};
use mucli::qrcode::{protocol, Security};
use mucli::update::{can_update, release_version, UpdateError};

fn report(malicious: u64, suspicious: u64) -> AnalysisReportData {
    let mut data = AnalysisReportData::default();
    data.attributes.stats = ReportStats {
        malicious,
        suspicious,
        harmless: 60,
        undetected: 10,
        ..ReportStats::default()
    };
    data
}

#[test]
fn versions_compare_by_their_number() {
    assert!(!can_update("v1.0.0", "v1.0.0"));
    assert!(!can_update("v1.0.0", "1.0.0"));
    assert!(!can_update(" version1.0.0 ", "vv1.0.0"));
    assert!(!can_update("versionversionv1", "1"));
    assert!(!can_update("", "v"));
    assert!(can_update("v1.0.0", "v1.0.1"));
    assert!(can_update("v1.0.0", "V1.0.0"));
    assert!(can_update("vversion1", "1"));
    assert!(can_update("v 1", "1"));
    assert!(can_update("1.0.0", "1.0.0v"));
}

#[test]
fn the_release_version_is_the_last_segment() {
    assert_eq!(release_version(Some("v1.2.0")), Ok("v1.2.0".to_string()));
    assert_eq!(release_version(Some("latest")), Ok("latest".to_string()));
    assert_eq!(release_version(Some("")), Ok(String::new()));
    assert_eq!(
        release_version(Some("releases")),
        Err(UpdateError::InvalidReleaseVersion)
    );
    assert_eq!(release_version(None), Err(UpdateError::ErrorRetrievingVersion));
    assert_eq!(
        UpdateError::InvalidReleaseVersion.message(),
        "No valid release version found"
    );
    assert_eq!(
        UpdateError::ErrorRetrievingVersion.message(),
        "Cannot find release version"
    );
}

#[test]
fn security_is_told_by_the_start_of_the_report() {
    assert_eq!(protocol("WEP"), Security::Wep);
    assert_eq!(protocol("WEP-40"), Security::Wep);
    assert_eq!(protocol("WPA2 Personal"), Security::Wpa);
    assert_eq!(protocol("RSN/PSK"), Security::Wpa);
    assert_eq!(protocol(""), Security::NoPassword);
    assert_eq!(protocol("Open"), Security::NoPassword);
    assert_eq!(protocol("wpa"), Security::NoPassword);
    assert_eq!(protocol(" WPA"), Security::NoPassword);
    assert_eq!(protocol("WP"), Security::NoPassword);
}

#[test]
fn the_rates_address_lists_the_currencies() {
    assert_eq!(SUPPORTED_CURRENCIES.len(), 33);
    assert_eq!(SUPPORTED_CURRENCIES[0], "EUR");
    assert_eq!(SUPPORTED_CURRENCIES[32], "ZAR");
    assert_eq!(
        exchange_rates_address("KEY", "EUR", &vec!["USD".to_string(), "JPY".to_string()]),
        "https://api.freecurrencyapi.com/v1/latest?apikey=KEY&currencies=USD%2CJPY&base_currency=EUR"
    );
    assert_eq!(
        exchange_rates_address("k", "CHF", &vec!["GBP".to_string()]),
        "https://api.freecurrencyapi.com/v1/latest?apikey=k&currencies=GBP&base_currency=CHF"
    );
    assert_eq!(
        exchange_rates_address("", "", &vec![]),
        "https://api.freecurrencyapi.com/v1/latest?apikey=&currencies=&base_currency="
    );
}

#[test]
fn a_file_is_dangerous_when_an_engine_says_so() {
    assert_eq!(reports_key_data(report(3, 1)), (3, 1));
    assert_eq!(reports_key_data(report(0, 0)), (0, 0));
    assert!(!is_dangerous(report(0, 0)));
    assert!(is_dangerous(report(1, 0)));
    assert!(is_dangerous(report(0, 1)));
    assert!(is_dangerous(report(u64::MAX, u64::MAX)));
}

#[test]
fn a_report_counts_once_it_is_completed() {
    let mut response = AnalysisReportResponse::default();
    response.data = report(2, 0);
    response.data.attributes.status = "queued".to_string();
    assert_eq!(
        get_analysis_report(response).unwrap_err(),
        AntivirusError::ApiCallQueued
    );
    let mut response = AnalysisReportResponse::default();
    response.data = report(2, 0);
    response.data.attributes.status = "completed".to_string();
    let data = get_analysis_report(response).unwrap();
    assert_eq!(data.attributes.stats.malicious, 2);
    assert_eq!(data.attributes.status, "completed");
}

#[test]
fn a_file_is_uploaded_as_base64() {
    assert_eq!(file_to_base64(b"hello"), Ok("aGVsbG8=".to_string()));
    assert_eq!(file_to_base64(b"hi"), Ok("aGk=".to_string()));
    assert_eq!(file_to_base64(&[0xFB, 0xFF, 0xBE]), Ok("+/++".to_string()));
    assert_eq!(
        file_to_base64(b""),
        Err(AntivirusError::CannotProcessEmptyFile)
    );
    let long = vec![b'a'; 10_000];
    assert_eq!(file_to_base64(&long).unwrap().len(), 13_336);
}

#[test]
fn an_error_answer_becomes_an_error() {
    let answer = ErrorResponse {
        error: ErrorContent {
            message: "Wrong API key".to_string(),
            code: "WrongCredentialsError".to_string(),
        },
    };
    let error = api_failure(answer);
    assert_eq!(
        error,
        AntivirusError::ErrorApiResponse {
            message: "Wrong API key".to_string()
        }
    );
    assert_eq!(error.message(), "Wrong API key");
    assert_eq!(
        AntivirusError::CannotProcessEmptyFile.message(),
        "Cannot process empty file"
    );
    assert_eq!(
        AntivirusError::ApiCallQueued.message(),
        "API cannot process file yet. Try again later!"
    );
}
