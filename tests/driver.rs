use vault_tidy::driver::{batch_status, parse_path, PathError};

#[test]
fn existing_path_is_accepted() {
    assert_eq!(parse_path("/vault", Ok(true)), Ok("/vault".to_string()));
}

#[test]
fn missing_path_is_refused() {
    assert_eq!(parse_path("/nowhere", Ok(false)), Err(PathError::NotFound));
}

#[test]
fn probe_error_is_passed_on() {
    assert_eq!(
        parse_path("/locked", Err("permission denied".to_string())),
        Err(PathError::Probe("permission denied".to_string()))
    );
}

#[test]
fn empty_batch_has_no_status() {
    assert_eq!(batch_status(&vec![]), None);
}

#[test]
fn batch_status_is_worst_case() {
    assert_eq!(batch_status(&vec![false, false]), Some(0));
    assert_eq!(batch_status(&vec![false, true, false]), Some(1));
}
