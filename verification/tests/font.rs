use nacelle::font::{
    available_mono_families, available_ui_families, default_mono_patterns, default_ui_patterns,
    font_file_fits, mono_families, pattern_for, ui_families, variant_candidates,
};

#[test]
fn a_family_is_found_by_its_display_name() {
    assert_eq!(pattern_for("Fira Code"), Some("firacode"));
    assert_eq!(pattern_for("Inconsolata"), Some("inconsolata"));
    assert_eq!(pattern_for("Saira"), Some("saira"));
    assert_eq!(pattern_for("Exo 2"), Some("exo2"));
    assert_eq!(pattern_for("fira code"), None);
    assert_eq!(pattern_for("Comic Sans"), None);
    assert_eq!(pattern_for(""), None);
}

#[test]
fn only_installed_families_are_offered_in_catalogue_order() {
    let installed = ["hack", "firamono", "oxanium", "saira"];
    let present = |p: &str| installed.contains(&p);
    assert_eq!(available_mono_families(present), vec!["Fira Mono".to_string(), "Hack".to_string()]);
    assert_eq!(
        available_ui_families(present),
        vec!["Oxanium".to_string(), "Saira".to_string(), "Fira Mono".to_string(), "Hack".to_string()]
    );
    assert!(available_mono_families(|_p: &str| false).is_empty());
}

#[test]
fn the_catalogues_hold_the_curated_families() {
    assert_eq!(mono_families().len(), 12);
    assert_eq!(ui_families().len(), 7);
    assert_eq!(mono_families()[0], ("Fira Mono", "firamono"));
    assert_eq!(ui_families()[0], ("United Sans", "unitedsans"));
}

#[test]
fn font_files_match_by_their_stripped_lower_case_name() {
    assert!(font_file_fits("firamono-regular.ttf", "firamonoregular"));
    assert!(font_file_fits("fira_mono regular.otf", "firamono"));
    assert!(!font_file_fits("firamono-regular.woff2", "firamono"));
    assert!(!font_file_fits("firamono-italic.ttf", "firamono"));
    assert!(!font_file_fits("firamono-oblique.ttf", "firamono"));
    assert!(!font_file_fits("firamono-bold.ttf", "firamono"));
    assert!(font_file_fits("firamono-bold.ttf", "firamonobold"));
    assert!(!font_file_fits("hack-regular.ttf", "firamono"));
    assert!(!font_file_fits("", "firamono"));
}

#[test]
fn a_chosen_family_tries_the_weight_then_its_regular_files() {
    let c = variant_candidates(Some("Fira Code"), "semi bold", false);
    assert_eq!(c, vec!["firacodesemibold", "firacoderegular", "firacode"]);
    let c = variant_candidates(Some("Fira Code"), "regular", false);
    assert_eq!(c, vec!["firacoderegular", "firacode"]);
}

#[test]
fn the_default_interface_font_looks_for_weights_in_the_mono_families_too() {
    let c = variant_candidates(None, "bold", true);
    let ui = default_ui_patterns();
    let mono = default_mono_patterns();
    assert_eq!(c.len(), ui.len() + mono.len() + 2 * ui.len());
    assert_eq!(c[0], "unitedsansmediumbold");
    assert_eq!(c[ui.len()], "firamonoregularbold");
    assert_eq!(c[ui.len() + mono.len()], "unitedsansmediumregular");
    assert_eq!(c[ui.len() + mono.len() + 1], "unitedsansmedium");
    // an unknown family falls back to the defaults, without the mono extension
    let c = variant_candidates(Some("Comic Sans"), "bold", true);
    assert_eq!(c.len(), 3 * ui.len());
    let c = variant_candidates(None, "regular", false);
    assert_eq!(c.len(), 2 * mono.len());
    assert_eq!(c[0], "firamonoregularregular");
}
