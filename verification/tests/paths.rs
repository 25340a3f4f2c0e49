use hibiki::infrastructure::audio::{PathError, SoundPackLoader};
use hibiki::infrastructure::paths::{
    contains_parent_dir, is_absolute, join_paths, path_components, starts_with_path,
};
use std::path::{Component, Path};

const SAMPLES: &[&str] = &[
    "",
    "/",
    "//",
    ".",
    "..",
    "./",
    "./a",
    ".a",
    "a",
    "a/",
    "a//b",
    "a/./b",
    "a/../b",
    "/a/b/",
    "/a/b/c",
    "/a/bc",
    "./../x",
    "..a/b",
    "a/..",
    "../",
    "key1.wav",
    "sounds/key 2.ogg",
    "/usr/share/hibiki/sounds",
    "é/ü",
    "a/.",
    "./.",
];

fn std_components(s: &str) -> Vec<String> {
    Path::new(s)
        .components()
        .map(|c| c.as_os_str().to_str().unwrap().to_string())
        .collect()
}

#[test]
fn components_match_std_paths() {
    for s in SAMPLES {
        assert_eq!(path_components(s), std_components(s), "components of {:?}", s);
    }
}

#[test]
fn parent_dir_detection_matches_std_paths() {
    for s in SAMPLES {
        let expected = Path::new(s).components().any(|c| matches!(c, Component::ParentDir));
        assert_eq!(contains_parent_dir(s), expected, "parent dir in {:?}", s);
    }
}

#[test]
fn absolute_detection_matches_std_paths() {
    for s in SAMPLES {
        assert_eq!(is_absolute(s), Path::new(s).is_absolute(), "absolute {:?}", s);
    }
}

#[test]
fn join_matches_std_paths() {
    for base in SAMPLES {
        for sub in SAMPLES {
            let expected = Path::new(base).join(sub).to_str().unwrap().to_string();
            assert_eq!(join_paths(base, sub), expected, "join {:?} {:?}", base, sub);
        }
    }
}

#[test]
fn starts_with_matches_std_paths() {
    for path in SAMPLES {
        for base in SAMPLES {
            let expected = Path::new(path).starts_with(base);
            assert_eq!(starts_with_path(path, base), expected, "{:?} under {:?}", path, base);
        }
    }
}

#[test]
fn safe_join_accepts_relative_paths() {
    assert_eq!(
        SoundPackLoader::safe_join("/packs/cherry", "key1.wav"),
        Ok("/packs/cherry/key1.wav".to_string())
    );
    assert_eq!(
        SoundPackLoader::safe_join("/packs/cherry/", "sub/./key.ogg"),
        Ok("/packs/cherry/sub/./key.ogg".to_string())
    );
    assert_eq!(SoundPackLoader::safe_join("", "a.wav"), Ok("a.wav".to_string()));
    assert_eq!(SoundPackLoader::safe_join("/p", "..a"), Ok("/p/..a".to_string()));
}

#[test]
fn safe_join_refuses_escapes() {
    for sub in ["../x.wav", "a/../../b", "..", "/etc/passwd", "a/..", "./../x"] {
        assert_eq!(
            SoundPackLoader::safe_join("/packs/cherry", sub),
            Err(PathError::ForbiddenComponent(sub.to_string())),
            "{:?}",
            sub
        );
    }
}

#[test]
fn confine_keeps_paths_under_base() {
    assert_eq!(
        SoundPackLoader::confine("/packs/cherry/a.wav", "/packs/cherry", "a.wav"),
        Ok("/packs/cherry/a.wav".to_string())
    );
    assert_eq!(
        SoundPackLoader::confine("/packs/cherry", "/packs/cherry", "."),
        Ok("/packs/cherry".to_string())
    );
    assert_eq!(
        SoundPackLoader::confine("/etc/passwd", "/packs/cherry", "link.wav"),
        Err(PathError::EscapesBase("link.wav".to_string()))
    );
    assert_eq!(
        SoundPackLoader::confine("/packs/cherryx/a.wav", "/packs/cherry", "a.wav"),
        Err(PathError::EscapesBase("a.wav".to_string()))
    );
}

#[test]
fn pack_dir_with_parent_step_is_refused() {
    assert_eq!(SoundPackLoader::check_pack_dir("assets/sounds/cherry"), Ok(()));
    assert_eq!(
        SoundPackLoader::check_pack_dir("assets/../secret"),
        Err(PathError::TraversalDetected("assets/../secret".to_string()))
    );
}

#[test]
fn config_path_is_inside_pack_dir() {
    assert_eq!(SoundPackLoader::config_path("/packs/cherry"), "/packs/cherry/config.json");
    assert_eq!(SoundPackLoader::config_path("/packs/cherry/"), "/packs/cherry/config.json");
}
