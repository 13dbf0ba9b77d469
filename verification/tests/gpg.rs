use courier::gpg::{
    available, first_line, list_secret_fingerprints, listing_query, version_line, version_query,
    GpgError, LaunchFailure, ToolOutput,
};

fn ran(success: bool, stdout: &[u8], stderr: &[u8]) -> Result<ToolOutput, LaunchFailure> {
    Ok(ToolOutput { success, stdout: stdout.to_vec(), stderr: stderr.to_vec() })
}

fn not_found() -> Result<ToolOutput, LaunchFailure> {
    Err(LaunchFailure { not_found: true, reason: "No such file or directory (os error 2)".to_string() })
}

fn denied() -> Result<ToolOutput, LaunchFailure> {
    Err(LaunchFailure { not_found: false, reason: "Permission denied (os error 13)".to_string() })
}

#[test]
fn queries_name_the_tool_and_its_arguments() {
    let version = version_query();
    assert_eq!(version.program, "gpg");
    assert_eq!(version.args, vec!["--version"]);
    let listing = listing_query();
    assert_eq!(listing.program, "gpg");
    assert_eq!(listing.args, vec!["--batch", "--with-colons", "--list-secret-keys"]);
}

#[test]
fn tool_that_is_not_found_is_not_available() {
    assert!(matches!(available(not_found()), Ok(false)));
}

#[test]
fn tool_that_exits_with_success_is_available() {
    assert!(matches!(available(ran(true, b"gpg (GnuPG) 2.4.4\n", b"")), Ok(true)));
    assert!(matches!(available(ran(true, b"", b"")), Ok(true)));
}

#[test]
fn tool_that_exits_with_failure_is_not_available() {
    assert!(matches!(available(ran(false, b"gpg (GnuPG) 2.4.4\n", b"")), Ok(false)));
}

#[test]
fn tool_that_cannot_be_run_is_an_error() {
    match available(denied()) {
        Err(GpgError::Launch(reason)) => assert_eq!(reason, "Permission denied (os error 13)"),
        other => panic!("unexpected {:?}", other),
    }
}

#[test]
fn version_line_is_the_first_line() {
    let out = b"gpg (GnuPG) 2.4.4\nlibgcrypt 1.10.3\nCopyright (C) 2024 g10 Code GmbH\n";
    assert_eq!(version_line(ran(true, out, b"")).unwrap(), "gpg (GnuPG) 2.4.4");
}

#[test]
fn version_line_of_empty_output_is_empty() {
    assert_eq!(version_line(ran(true, b"", b"")).unwrap(), "");
    assert_eq!(version_line(ran(true, b"\n", b"")).unwrap(), "");
    assert_eq!(version_line(ran(true, b"\nsecond\n", b"")).unwrap(), "");
}

#[test]
fn version_line_drops_a_carriage_return_before_the_newline() {
    assert_eq!(version_line(ran(true, b"gpg 2.4\r\nmore\r\n", b"")).unwrap(), "gpg 2.4");
    assert_eq!(version_line(ran(true, b"gpg 2.4\r\r\n", b"")).unwrap(), "gpg 2.4\r");
    assert_eq!(version_line(ran(true, b"gpg 2.4\r", b"")).unwrap(), "gpg 2.4\r");
    assert_eq!(version_line(ran(true, b"\r\n", b"")).unwrap(), "");
}

#[test]
fn version_line_replaces_what_is_not_utf8() {
    assert_eq!(version_line(ran(true, b"gpg \xff2.4\nx", b"")).unwrap(), "gpg \u{fffd}2.4");
    assert_eq!(version_line(ran(true, "gpg \u{e9}\n".as_bytes(), b"")).unwrap(), "gpg \u{e9}");
}

#[test]
fn version_line_of_a_failed_query_is_an_error() {
    let got = version_line(ran(false, b"gpg (GnuPG) 2.4.4\n", b"oops"));
    assert!(matches!(got, Err(GpgError::VersionQuery)));
    assert_eq!(got.unwrap_err().message(), "gpg --version failed");
}

#[test]
fn version_line_of_a_tool_that_is_not_found_is_an_error() {
    match version_line(not_found()) {
        Err(e) => {
            assert!(matches!(e, GpgError::Launch(_)));
            assert_eq!(e.message(), "Failed to run gpg: No such file or directory (os error 2)");
        }
        Ok(line) => panic!("unexpected {:?}", line),
    }
}

#[test]
fn first_line_agrees_with_the_standard_library() {
    for text in ["", "a", "a\n", "a\nb", "\n", "\r\n", "a\r\nb", "a\r", "a\r\r\nb", "\ra\n", "a\u{e9}\r\n"] {
        assert_eq!(first_line(text), text.lines().next().unwrap_or(""), "text {:?}", text);
    }
}

#[test]
fn fingerprints_are_listed_from_standard_output() {
    let out = b"fpr:::::::::BBB2:\nfpr:::::::::AAA1:\nfpr:::::::::BBB2:\nuid:::::::::x:\n";
    assert_eq!(
        list_secret_fingerprints(ran(true, out, b"warning: ignored")).unwrap(),
        vec!["AAA1".to_string(), "BBB2".to_string()]
    );
}

#[test]
fn fingerprints_of_an_empty_listing_are_none() {
    assert_eq!(list_secret_fingerprints(ran(true, b"", b"")).unwrap(), Vec::<String>::new());
}

#[test]
fn fingerprints_are_decoded_with_replacement() {
    let out = b"fpr:::::::::A\xffB:\n";
    assert_eq!(list_secret_fingerprints(ran(true, out, b"")).unwrap(), vec!["A\u{fffd}B".to_string()]);
}

#[test]
fn failed_listing_carries_the_diagnostics() {
    let got = list_secret_fingerprints(ran(false, b"fpr:::::::::AAA1:\n", b"gpg: keyring locked\n"));
    match got {
        Err(GpgError::Listing(diagnostics)) => assert_eq!(diagnostics, "gpg: keyring locked\n"),
        other => panic!("unexpected {:?}", other),
    }
    let again = list_secret_fingerprints(ran(false, b"", b"bad \xfe byte"));
    assert_eq!(again.unwrap_err().message(), "gpg list-secret-keys failed: bad \u{fffd} byte");
}

#[test]
fn listing_with_a_tool_that_cannot_be_run_is_an_error() {
    match list_secret_fingerprints(not_found()) {
        Err(GpgError::Launch(reason)) => assert_eq!(reason, "No such file or directory (os error 2)"),
        other => panic!("unexpected {:?}", other),
    }
    assert_eq!(
        list_secret_fingerprints(denied()).unwrap_err().message(),
        "Failed to run gpg: Permission denied (os error 13)"
    );
}
