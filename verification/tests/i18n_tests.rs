use dancing_datacollection::config::{Config, Sources};
use dancing_datacollection::i18n;
use dancing_datacollection::manifest::Manifest;
use dancing_datacollection::models::{AgeGroup, Dance, Date, Level, Style};
use dancing_datacollection::sources::ParsingError;
use dancing_datacollection::validation::{get_min_dances_for_level, LevelConfig};

#[test]
fn test_min_dances_policy_table() {
    let before = Date { year: 2025, month: 5, day: 11 };
    let after = Date { year: 2026, month: 5, day: 11 };
    assert_eq!(i18n::get_min_dances(Level::D, before), 3);
    assert_eq!(i18n::get_min_dances(Level::D, after), 4);
    assert_eq!(i18n::get_min_dances(Level::C, before), 4);
    assert_eq!(i18n::get_min_dances(Level::C, after), 5);
    assert_eq!(i18n::get_min_dances(Level::E, before), 3);
    assert_eq!(i18n::get_min_dances(Level::E, after), 3);
    assert_eq!(i18n::get_min_dances(Level::B, before), 5);
    assert_eq!(i18n::get_min_dances(Level::A, before), 5);
    assert_eq!(i18n::get_min_dances(Level::S, after), 5);
}

#[test]
fn test_min_dances_2026() {
    let config = Config {
        sources: Sources { urls: vec![] },
        levels: Some(vec![(
            "D".to_string(),
            LevelConfig {
                min_dances: None,
                min_dances_legacy: Some(3),
                min_dances_2026: Some(4),
            },
        )]),
    };

    let d2025 = Date { year: 2025, month: 1, day: 1 };
    let d2026 = Date { year: 2026, month: 1, day: 1 };

    assert_eq!(config.get_min_dances(&Level::D, &d2025), 3);
    assert_eq!(config.get_min_dances(&Level::D, &d2026), 4);
}

#[test]
fn test_min_dances_for_level_without_table() {
    let d = Date { year: 2025, month: 1, day: 1 };
    assert_eq!(get_min_dances_for_level(&None, &Level::D, &d), 0);
    let empty = Some(vec![]);
    assert_eq!(get_min_dances_for_level(&empty, &Level::D, &d), 0);
}

#[test]
fn test_level_config_override_wins() {
    let cfg = LevelConfig {
        min_dances: Some(6),
        min_dances_legacy: Some(3),
        min_dances_2026: Some(4),
    };
    let d = Date { year: 2030, month: 1, day: 1 };
    assert_eq!(cfg.get_min_dances(&d), 6);
}

#[test]
fn test_is_redance() {
    assert!(i18n::is_redance("Redance"));
    assert!(i18n::is_redance("Hoffnungslauf"));
    assert!(i18n::is_redance("2. H-Lauf"));
    assert!(!i18n::is_redance("Vorrunde"));
    assert!(!i18n::is_redance("Endrunde"));
}

#[test]
fn test_round_name_classifiers() {
    assert!(i18n::is_final_round("Endrunde"));
    assert!(i18n::is_final_round("FINALE"));
    assert!(!i18n::is_final_round("Vorrunde"));
    assert!(i18n::is_generic_round_name("Runde 3"));
    assert!(i18n::is_generic_round_name("round 2"));
    assert!(i18n::is_generic_round_name("Endrunde"));
    assert!(i18n::should_skip_round("Startliste"));
    assert!(!i18n::should_skip_round("Endrunde"));
    assert!(i18n::is_result_marker("Ergebnis"));
    assert!(i18n::is_result_marker("Results"));
    assert!(!i18n::is_result_marker("Platz"));
}

#[test]
fn test_is_final_id() {
    assert!(i18n::is_final_id("E"));
    assert!(i18n::is_final_id(" E "));
    assert!(!i18n::is_final_id("1"));
    assert!(!i18n::is_final_id("EE"));
}

#[test]
fn test_canonicalize_round_name() {
    assert_eq!(
        i18n::canonicalize_round_name("ZWISCHENRUNDE 2.").as_deref(),
        Some("2. Zwischenrunde")
    );
    assert_eq!(i18n::canonicalize_round_name("Siegerehrung"), None);
}

#[test]
fn test_parse_round_name() {
    assert_eq!(i18n::parse_round_name("1. Vorrunde").as_deref(), Some("Vorrunde"));
    assert_eq!(
        i18n::parse_round_name("2. Zwischenrunde").as_deref(),
        Some("2. Zwischenrunde")
    );
    assert_eq!(
        i18n::parse_round_name("Erste Zwischenrunde").as_deref(),
        Some("1. Zwischenrunde")
    );
    assert_eq!(i18n::parse_round_name("Grosses Finale").as_deref(), Some("Endrunde"));
    assert_eq!(i18n::parse_round_name("Startliste"), None);
}

#[test]
fn test_get_round_name_from_id() {
    assert_eq!(i18n::get_round_name_from_id("E"), "Endrunde");
    assert_eq!(i18n::get_round_name_from_id("1"), "Vorrunde");
    assert_eq!(i18n::get_round_name_from_id("2"), "1. Zwischenrunde");
    assert_eq!(i18n::get_round_name_from_id("13"), "12. Zwischenrunde");
    assert_eq!(i18n::get_round_name_from_id("0"), "0");
    assert_eq!(i18n::get_round_name_from_id("abc"), "abc");
}

#[test]
fn test_normalize_wdsf_round_name() {
    assert_eq!(i18n::normalize_wdsf_round_name("The Grand Final", 0, 1), "Final");
    assert_eq!(i18n::normalize_wdsf_round_name("Runde", 3, 4), "Final");
    assert_eq!(i18n::normalize_wdsf_round_name("Runde", 2, 4), "Semifinal");
    assert_eq!(i18n::normalize_wdsf_round_name("Runde", 1, 4), "Quarterfinal");
    assert_eq!(i18n::normalize_wdsf_round_name("Runde", 0, 4), "Runde");
    assert_eq!(i18n::normalize_wdsf_round_name("Runde", 1, 2), "Final");
    assert_eq!(i18n::normalize_wdsf_round_name("Runde", 0, 2), "Semifinal");
}

#[test]
fn test_generic_names() {
    assert_eq!(i18n::get_generic_round_name(0), "Runde 0");
    assert_eq!(i18n::get_generic_round_name(12), "Runde 12");
    assert_eq!(i18n::get_result_table_name(), "Ergebnis");
}

#[test]
fn test_map_role() {
    assert_eq!(i18n::map_role("Turnierleiter").as_deref(), Some("responsible_person"));
    assert_eq!(i18n::map_role("Beisitzer").as_deref(), Some("assistant"));
    assert_eq!(i18n::map_role("Wertungsrichter"), None);
}

#[test]
fn test_map_month() {
    assert_eq!(i18n::map_month("Mai"), Some(5));
    assert_eq!(i18n::map_month("jul"), Some(7));
    assert_eq!(i18n::map_month("DEZEMBER"), Some(12));
    assert_eq!(i18n::map_month("Brumaire"), None);
}

#[test]
fn test_parse_level_style_age_group() {
    assert_eq!(i18n::parse_level("d"), Some(Level::D));
    assert_eq!(i18n::parse_level("S"), Some(Level::S));
    assert_eq!(i18n::parse_level("X"), None);
    assert_eq!(i18n::parse_style("std"), Some(Style::Standard));
    assert_eq!(i18n::parse_style("Latein"), Some(Style::Latein));
    assert_eq!(i18n::parse_style("ballet"), None);
    assert_eq!(i18n::parse_age_group("adult_2"), Some(AgeGroup::Adult2));
    assert_eq!(i18n::parse_age_group("sen_3"), Some(AgeGroup::Sen3));
    assert_eq!(i18n::parse_age_group("toddler"), None);
    assert_eq!(i18n::map_age_group("Hgr.II"), Some(AgeGroup::Adult2));
    assert_eq!(i18n::map_age_group("Mas.IV"), Some(AgeGroup::Sen4));
    assert_eq!(i18n::map_age_group("Rising Stars"), Some(AgeGroup::Adult));
    assert_eq!(i18n::map_age_group("Unknown"), None);
    assert_eq!(i18n::map_discipline("Latin"), Some(Style::Latein));
    assert_eq!(i18n::map_discipline("Standard"), Some(Style::Standard));
}

#[test]
fn test_parse_dances() {
    assert_eq!(
        i18n::parse_dances("SW TG VW SF QS"),
        vec![
            Dance::SlowWaltz,
            Dance::Tango,
            Dance::VienneseWaltz,
            Dance::SlowFoxtrot,
            Dance::Quickstep,
        ]
    );
    assert_eq!(
        i18n::parse_dances("Hgr.II D Standard"),
        vec![
            Dance::SlowWaltz,
            Dance::Tango,
            Dance::VienneseWaltz,
            Dance::SlowFoxtrot,
            Dance::Quickstep,
        ]
    );
    assert_eq!(
        i18n::parse_dances("Latein"),
        vec![
            Dance::Samba,
            Dance::ChaChaCha,
            Dance::Rumba,
            Dance::PasoDoble,
            Dance::Jive,
        ]
    );
    // The federation acronym alone names no slow foxtrot.
    assert_eq!(i18n::parse_dances("WDSF Ranking"), Vec::<Dance>::new());
}

#[test]
fn test_table_markers() {
    assert!(i18n::is_organizer_marker("Veranstalter: TSC"));
    assert!(!i18n::is_organizer_marker("veranstalter"));
    assert!(i18n::is_hosting_club_marker("Ausrichter: TSC"));
    assert!(!i18n::is_hosting_club_marker("Gastgeber"));
}

#[test]
fn test_keys_lists() {
    let ages = i18n::age_group_keys();
    assert_eq!(ages.len(), 37);
    assert_eq!(ages[0], "Hgr");
    assert!(ages.contains(&"Senioren III"));
    let styles = i18n::style_keys();
    assert_eq!(styles, vec!["Standard", "Latein", "Latin"]);
}

#[test]
fn test_manifest_tracking() {
    let mut m = Manifest::new();
    assert!(!m.is_processed("http://example.com/a"));
    m.mark_processed("http://example.com/a".to_string());
    assert!(m.is_processed("http://example.com/a"));
    assert!(!m.is_processed("http://example.com/b"));
    m.mark_processed("http://example.com/b".to_string());
    assert!(m.is_processed("http://example.com/a"));
    assert!(m.is_processed("http://example.com/b"));
}

#[test]
fn test_parsing_error_messages() {
    let e = ParsingError::NetworkError("timeout".to_string());
    assert_eq!(e.message(), "NETWORK_ERROR: timeout");
    let e = ParsingError::ValidationError("bad record".to_string());
    assert_eq!(e.message(), "Validation error: bad record");
    let e = ParsingError::MissingRequiredData("officials".to_string());
    assert_eq!(e.message(), "MISSING_REQUIRED_DATA: officials");
}

#[test]
fn test_dance_canonical_order() {
    assert_eq!(Dance::SlowWaltz.index(), 0);
    assert_eq!(Dance::Jive.index(), 9);
    assert!(Dance::Tango.index() < Dance::Samba.index());
}
