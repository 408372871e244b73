use lib::error::AppError;

#[test]
fn describes_errors() {
    let error = AppError::Message("width must be between 1 and 64 bytes".into());
    assert_eq!(error.message(), "width must be between 1 and 64 bytes");
    assert!(!error.is_broken_pipe());

    let error = AppError::io("cannot write stdout", "Broken pipe (os error 32)".into(), true);
    assert_eq!(error.message(), "cannot write stdout: Broken pipe (os error 32)");
    assert!(error.is_broken_pipe());

    let error = AppError::io("cannot read /proc/self/maps", "Permission denied (os error 13)".into(), false);
    assert!(!error.is_broken_pipe());
}
