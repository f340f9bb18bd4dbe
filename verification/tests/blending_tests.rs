use face_stack::blending::BlendingMode;

const NAMES: [(&str, BlendingMode); 12] = [
    ("normal", BlendingMode::Normal),
    ("multiply", BlendingMode::Multiply),
    ("screen", BlendingMode::Screen),
    ("overlay", BlendingMode::Overlay),
    ("darken", BlendingMode::Darken),
    ("lighten", BlendingMode::Lighten),
    ("color-dodge", BlendingMode::ColorDodge),
    ("color-burn", BlendingMode::ColorBurn),
    ("hard-light", BlendingMode::HardLight),
    ("soft-light", BlendingMode::SoftLight),
    ("difference", BlendingMode::Difference),
    ("exclusion", BlendingMode::Exclusion),
];

#[test]
fn every_mode_has_its_name() {
    for (name, mode) in NAMES {
        assert_eq!(mode.name(), name);
    }
}

#[test]
fn every_name_finds_its_mode() {
    for (name, mode) in NAMES {
        assert_eq!(BlendingMode::from_name(name), Some(mode));
    }
}

#[test]
fn names_round_trip() {
    for mode in BlendingMode::all() {
        assert_eq!(BlendingMode::from_name(mode.name()), Some(mode));
    }
}

#[test]
fn all_lists_the_twelve_modes_once() {
    let modes = BlendingMode::all();
    assert_eq!(modes.len(), 12);
    for (i, (_, mode)) in NAMES.iter().enumerate() {
        assert_eq!(modes[i], *mode);
    }
}

#[test]
fn unknown_names_find_nothing() {
    for name in ["", "Normal", "NORMAL", "normal ", " normal", "color_dodge", "colordodge",
        "hard light", "add", "norma", "normall", "soft-light-"]
    {
        assert_eq!(BlendingMode::from_name(name), None, "{:?}", name);
    }
}

#[test]
fn default_is_normal() {
    assert_eq!(BlendingMode::default(), BlendingMode::Normal);
}
