use dyndo::error::ServerError;
use dyndo::paths::resolve_within;

#[test]
fn path_joins_normal_components() {
    let base = "/srv/assets";
    assert_eq!(resolve_within(base, "bbb").unwrap(), "/srv/assets/bbb");
    assert_eq!(
        resolve_within(base, "bbb/video.mp4").unwrap(),
        "/srv/assets/bbb/video.mp4"
    );
}

#[test]
fn path_rejects_parent_and_absolute() {
    let base = "/srv/assets";
    assert!(matches!(
        resolve_within(base, "../etc/passwd"),
        Err(ServerError::BadRequest(_))
    ));
    assert!(matches!(
        resolve_within(base, "/etc/passwd"),
        Err(ServerError::BadRequest(_))
    ));
    assert!(matches!(
        resolve_within(base, "a/../../b"),
        Err(ServerError::BadRequest(_))
    ));
}

#[test]
fn routes_joins_normal_components() {
    let base = "/srv/assets";
    assert_eq!(resolve_within(base, "bbb").unwrap(), "/srv/assets/bbb");
    assert_eq!(
        resolve_within(base, "bbb/video.mp4").unwrap(),
        "/srv/assets/bbb/video.mp4"
    );
}

#[test]
fn routes_rejects_parent_and_absolute() {
    let base = "/srv/assets";
    assert!(matches!(
        resolve_within(base, "../etc/passwd"),
        Err(ServerError::BadRequest(_))
    ));
    assert!(matches!(
        resolve_within(base, "/etc/passwd"),
        Err(ServerError::BadRequest(_))
    ));
    assert!(matches!(
        resolve_within(base, "a/../../b"),
        Err(ServerError::BadRequest(_))
    ));
    // A sibling directory that shares the base as a string prefix must not pass.
    assert!(matches!(
        resolve_within(base, "../assets-evil/x"),
        Err(ServerError::BadRequest(_))
    ));
}

#[test]
fn mod_joins_normal_components() {
    let base = "/srv/assets";
    assert_eq!(resolve_within(base, "bbb").unwrap(), "/srv/assets/bbb");
    assert_eq!(
        resolve_within(base, "bbb/video.mp4").unwrap(),
        "/srv/assets/bbb/video.mp4"
    );
}

#[test]
fn mod_rejects_parent_and_absolute() {
    let base = "/srv/assets";
    assert!(matches!(
        resolve_within(base, "../etc/passwd"),
        Err(ServerError::BadRequest(_))
    ));
    assert!(matches!(
        resolve_within(base, "/etc/passwd"),
        Err(ServerError::BadRequest(_))
    ));
    assert!(matches!(
        resolve_within(base, "a/../../b"),
        Err(ServerError::BadRequest(_))
    ));
    assert!(matches!(
        resolve_within(base, "../assets-evil/x"),
        Err(ServerError::BadRequest(_))
    ));
}

#[test]
fn serve_joins_normal_components() {
    let base = "/srv/assets";
    assert_eq!(resolve_within(base, "bbb").unwrap(), "/srv/assets/bbb");
    assert_eq!(
        resolve_within(base, "bbb/video.mp4").unwrap(),
        "/srv/assets/bbb/video.mp4"
    );
    // Nested descriptor paths resolve just like any other relative path.
    assert_eq!(
        resolve_within(base, "movies/clip/asset.json").unwrap(),
        "/srv/assets/movies/clip/asset.json"
    );
}

#[test]
fn serve_rejects_parent_and_absolute() {
    let base = "/srv/assets";
    assert!(matches!(
        resolve_within(base, "../etc/passwd"),
        Err(ServerError::BadRequest(_))
    ));
    assert!(matches!(
        resolve_within(base, "/etc/passwd"),
        Err(ServerError::BadRequest(_))
    ));
    assert!(matches!(
        resolve_within(base, "a/../../b"),
        Err(ServerError::BadRequest(_))
    ));
    assert!(matches!(
        resolve_within(base, "../assets-evil/x"),
        Err(ServerError::BadRequest(_))
    ));
}

#[test]
fn a_leading_dot_is_refused_and_an_inner_one_folds_away() {
    assert!(matches!(
        resolve_within("/srv", "./x"),
        Err(ServerError::BadRequest(message)) if message == "invalid path component in: ./x"
    ));
    assert_eq!(resolve_within("/srv/", "a/./b").unwrap(), "/srv/a/./b");
    assert!(matches!(
        resolve_within("/srv", "/x"),
        Err(ServerError::BadRequest(message)) if message == "absolute path not allowed: /x"
    ));
}
