use hibiki::domain::audio::{KeyDefine, KeyDefineType, MechvibesConfig};
use hibiki::infrastructure::audio::{AudioBuffer, LoadedSoundPack, SoundPackLoader};
use hibiki::infrastructure::text_order::text_less_or_equal;
use std::sync::Arc;

fn config(kind: KeyDefineType, defines: Vec<(String, KeyDefine)>) -> MechvibesConfig {
    MechvibesConfig {
        id: "id".to_string(),
        name: "Cherry MX Blue".to_string(),
        key_define_type: kind,
        includes_numpad: false,
        sound: "sound.ogg".to_string(),
        defines,
        path: String::new(),
    }
}

#[test]
fn single_pack_reads_one_required_file() {
    let cfg = config(
        KeyDefineType::Single,
        vec![("1".to_string(), KeyDefine::Single(vec![10, 50]))],
    );
    let targets = SoundPackLoader::sound_targets(&cfg);
    assert_eq!(targets.len(), 1);
    assert_eq!(targets[0].key, "main");
    assert_eq!(targets[0].file, "sound.ogg");
    assert!(targets[0].required);
}

#[test]
fn multi_pack_reads_each_named_file() {
    let cfg = config(
        KeyDefineType::Multi,
        vec![
            ("1".to_string(), KeyDefine::Multi(Some("a.wav".to_string()))),
            ("2".to_string(), KeyDefine::Multi(None)),
            ("3".to_string(), KeyDefine::Single(vec![1, 2])),
            ("4".to_string(), KeyDefine::Multi(Some("b.wav".to_string()))),
        ],
    );
    let targets = SoundPackLoader::sound_targets(&cfg);
    let got: Vec<(String, String, bool)> =
        targets.into_iter().map(|t| (t.key, t.file, t.required)).collect();
    assert_eq!(
        got,
        vec![
            ("a.wav".to_string(), "a.wav".to_string(), false),
            ("b.wav".to_string(), "b.wav".to_string(), false),
        ]
    );
}

fn buf(v: i16) -> AudioBuffer {
    AudioBuffer { samples: Arc::new(vec![v]), sample_rate: 8000, channels: 1 }
}

#[test]
fn assembled_pack_keeps_last_sound_per_key() {
    let cfg = config(KeyDefineType::Multi, vec![]);
    let pack = LoadedSoundPack::assemble(
        cfg,
        vec![("a.wav".to_string(), buf(1)), ("b.wav".to_string(), buf(2)), ("a.wav".to_string(), buf(3))],
    );
    assert_eq!(pack.buffers.len(), 2);
    assert_eq!(pack.buffers.get("a.wav").unwrap().samples[0], 3);
    assert_eq!(pack.buffers.get("b.wav").unwrap().samples[0], 2);
    assert!(pack.buffers.get("c.wav").is_none());
    assert_eq!(pack.config.name, "Cherry MX Blue");
}

#[test]
fn display_name_comes_from_config_name() {
    let json = br#"{"id": "x", "name": "Cherry MX Blue", "sound": "s.ogg"}"#;
    assert_eq!(SoundPackLoader::pack_display_name("cherry", Some(&json[..])), "Cherry MX Blue");
}

#[test]
fn display_name_falls_back_to_directory() {
    assert_eq!(SoundPackLoader::pack_display_name("cherry", None), "cherry");
    assert_eq!(SoundPackLoader::pack_display_name("cherry", Some(&b"not json"[..])), "cherry");
    assert_eq!(SoundPackLoader::pack_display_name("cherry", Some(&br#"{"name": 3}"#[..])), "cherry");
    assert_eq!(SoundPackLoader::pack_display_name("cherry", Some(&br#"{"id": "x"}"#[..])), "cherry");
    assert_eq!(SoundPackLoader::pack_display_name("cherry", Some(&br#"["name"]"#[..])), "cherry");
    assert_eq!(
        SoundPackLoader::pack_display_name("cherry", Some(&br#"{"name": "x"} trailing"#[..])),
        "cherry"
    );
}

#[test]
fn display_name_or_dir_prefers_name() {
    assert_eq!(SoundPackLoader::display_name_or_dir("d", Some("N".to_string())), "N");
    assert_eq!(SoundPackLoader::display_name_or_dir("d", None), "d");
}

#[test]
fn pack_list_is_sorted_by_display_name() {
    let entries = vec![
        ("zeta".to_string(), None),
        ("b-dir".to_string(), Some(br#"{"name": "Alpha"}"#.to_vec())),
        ("gamma".to_string(), Some(b"{".to_vec())),
        ("beta".to_string(), None),
    ];
    let list = SoundPackLoader::build_pack_list(entries);
    let expected: Vec<(String, String)> = vec![
        ("b-dir", "Alpha"),
        ("beta", "beta"),
        ("gamma", "gamma"),
        ("zeta", "zeta"),
    ]
    .into_iter()
    .map(|(a, b)| (a.to_string(), b.to_string()))
    .collect();
    assert_eq!(list, expected);
}

#[test]
fn pack_list_sort_is_stable() {
    let entries = vec![
        ("one".to_string(), Some(br#"{"name": "Same"}"#.to_vec())),
        ("two".to_string(), Some(br#"{"name": "Other"}"#.to_vec())),
        ("three".to_string(), Some(br#"{"name": "Same"}"#.to_vec())),
        ("four".to_string(), Some(br#"{"name": "Same"}"#.to_vec())),
    ];
    let list = SoundPackLoader::build_pack_list(entries);
    let dirs: Vec<&str> = list.iter().map(|p| p.0.as_str()).collect();
    assert_eq!(dirs, vec!["two", "one", "three", "four"]);
}

#[test]
fn sort_matches_std_stable_sort() {
    let names = ["b", "a", "B", "é", "z", "", "ab", "a", "Z", "b"];
    let packs: Vec<(String, String)> =
        names.iter().enumerate().map(|(i, n)| (i.to_string(), n.to_string())).collect();
    let mut expected = packs.clone();
    expected.sort_by(|a, b| a.1.cmp(&b.1));
    assert_eq!(SoundPackLoader::sort_by_display_name(packs), expected);
}

#[test]
fn text_order_matches_string_order() {
    let words = ["", "a", "b", "ab", "B", "é", "z", "zz", "日本", "Ω"];
    for a in words {
        for b in words {
            assert_eq!(text_less_or_equal(a, b), a <= b, "{:?} <= {:?}", a, b);
        }
    }
}

#[test]
fn sound_dir_candidates_put_environment_first() {
    let with_env = SoundPackLoader::sound_dir_candidates(Some("/opt/sounds".to_string()));
    assert_eq!(
        with_env,
        vec![
            "/opt/sounds",
            "src/assets/sounds",
            "assets/sounds",
            "/usr/share/hibiki/sounds",
            "/usr/local/share/hibiki/sounds"
        ]
    );
    let without = SoundPackLoader::sound_dir_candidates(None);
    assert_eq!(without.len(), 4);
    assert_eq!(without[0], "src/assets/sounds");
}

#[test]
fn first_existing_sound_dir_is_chosen() {
    let candidates = SoundPackLoader::sound_dir_candidates(None);
    assert_eq!(
        SoundPackLoader::choose_sound_pack_dir(&candidates, &vec![false, false, true, true]),
        "/usr/share/hibiki/sounds"
    );
    assert_eq!(
        SoundPackLoader::choose_sound_pack_dir(&candidates, &vec![false; 4]),
        "assets/sounds"
    );
    assert_eq!(SoundPackLoader::choose_sound_pack_dir(&vec![], &vec![]), "assets/sounds");
}

#[test]
fn environment_sound_dir_wins_when_it_exists() {
    let candidates = SoundPackLoader::sound_dir_candidates(Some("/opt/sounds".to_string()));
    assert_eq!(
        SoundPackLoader::choose_sound_pack_dir(&candidates, &vec![true, true, false, false, false]),
        "/opt/sounds"
    );
    assert_eq!(
        SoundPackLoader::choose_sound_pack_dir(&candidates, &vec![false, false, true, false, true]),
        "assets/sounds"
    );
    assert_eq!(
        SoundPackLoader::choose_sound_pack_dir(&candidates, &vec![false, false, false, false, true]),
        "/usr/local/share/hibiki/sounds"
    );
}
