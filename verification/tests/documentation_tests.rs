use energy_model_visualizer::documentation::{
    allowed_doc_paths, io_failure_message, select_available_files, validate_file_path,
    DocumentationError,
};

#[test]
fn test_allowed_paths_are_valid() {
    for path in allowed_doc_paths() {
        assert!(!path.contains(".."), "Path should not contain directory traversal: {}", path);
        assert!(path.ends_with(".md"), "Path should be a markdown file: {}", path);
    }
}

#[test]
fn test_validate_file_path_success() {
    let result = validate_file_path("docs/user-guide.md");
    assert!(result.is_ok());
}

#[test]
fn test_validate_file_path_access_denied() {
    let result = validate_file_path("docs/not-allowed.md");
    assert!(result.is_err());
    let error = result.unwrap_err();
    assert!(error.contains("Access denied"));
    assert!(error.contains("docs/not-allowed.md"));
}

#[test]
fn test_validate_file_path_directory_traversal() {
    let result = validate_file_path("../../../etc/passwd");
    assert!(result.is_err());
    let error = result.unwrap_err();
    assert!(error.contains("Access denied"));
}

#[test]
fn test_documentation_error_types() {
    let file_not_found = DocumentationError::FileNotFound("test.md".to_string());
    assert_eq!(file_not_found.to_string(), "File not found: test.md");

    let access_denied = DocumentationError::AccessDenied("blocked.md".to_string());
    assert_eq!(access_denied.to_string(), "Access denied: blocked.md");

    let io_error = std::io::Error::new(std::io::ErrorKind::PermissionDenied, "Access denied");
    let doc_error: DocumentationError = io_error.into();
    assert!(matches!(doc_error, DocumentationError::IoError(_)));
}

#[test]
fn test_security_constraints() {
    for path in allowed_doc_paths() {
        assert!(!path.contains(".."));
        assert!(!path.contains("./"));
        assert!(!path.starts_with("/"));

        assert!(path.ends_with(".md"));

        assert!(path.len() < 100);

        assert!(!path.contains('\0'));
        assert!(!path.contains('\r'));
        assert!(!path.contains('\n'));
    }
}

#[test]
fn validate_accepts_every_allowed_path() {
    for path in allowed_doc_paths() {
        assert_eq!(validate_file_path(path), Ok(()));
    }
}

#[test]
fn validate_message_names_the_path() {
    assert_eq!(
        validate_file_path("secret.md"),
        Err("Access denied to file: secret.md".to_string())
    );
    assert_eq!(validate_file_path(""), Err("Access denied to file: ".to_string()));
    assert!(validate_file_path("docs/user-guide.md ").is_err());
    assert!(validate_file_path("README.MD").is_err());
}

#[test]
fn io_error_message_has_its_prefix() {
    let io_error = std::io::Error::new(std::io::ErrorKind::PermissionDenied, "locked");
    let text = DocumentationError::IoError(io_error).to_string();
    assert!(text.starts_with("IO error: "));
    assert!(text.contains("locked"));
    let cause = std::io::Error::new(std::io::ErrorKind::PermissionDenied, "locked").to_string();
    assert_eq!(text, io_failure_message(&cause));
    assert_eq!(io_failure_message("locked"), "IO error: locked");
}

#[test]
fn available_files_follow_the_flags() {
    let files = select_available_files(&[true, true, false, false, true, false, true]);
    assert_eq!(
        files,
        vec![
            "docs/user-guide.md".to_string(),
            "docs/api-reference.md".to_string(),
            "docs/Testing.md".to_string(),
            "README.md".to_string()
        ]
    );
    assert!(select_available_files(&[false; 7]).is_empty());
    assert!(select_available_files(&[]).is_empty());
    assert_eq!(select_available_files(&[false, true]), vec!["docs/api-reference.md".to_string()]);
    assert_eq!(select_available_files(&[true; 9]).len(), 7);
    assert_eq!(select_available_files(&[true; 7]).len(), 7);
}
