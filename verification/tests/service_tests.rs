use fontsub::config::{AppConfig, FontConfig, FontFile};
use fontsub::error::AppError;
use fontsub::font::FontProcessor;
use fontsub::handlers::parse_request_chars;
use fontsub::service::{CacheOutcome, FontService};

fn descriptor(id: &str, fallback: Vec<&str>, families: Vec<&str>) -> FontConfig {
    FontConfig {
        id: String::from(id),
        version: String::from("1.0"),
        font_family: String::from(id),
        fallback: fallback.into_iter().map(String::from).collect(),
        license: String::from("OFL-1.1"),
        files: families
            .iter()
            .map(|fam| FontFile {
                name: String::from(*fam),
                path: format!("{}.ttf", fam),
                font_family: String::from(*fam),
            })
            .collect(),
    }
}

#[test]
fn unparsable_font_bytes_are_rejected() {
    let garbage: Vec<u8> = vec![0, 1, 2, 3, 4, 5, 6, 7];
    assert!(matches!(FontProcessor::new(garbage), Err(AppError::EngineFailure)));
    assert!(matches!(FontProcessor::new(Vec::new()), Err(AppError::EngineFailure)));
}

#[test]
fn corrupt_descriptor_does_not_block_the_others() {
    let mut service = FontService::new(AppConfig::default());
    let parsed = vec![
        Some(descriptor("first", vec![], vec!["First"])),
        None, // a corrupt descriptor: parsing failed, the entry is skipped
        Some(descriptor("third", vec![], vec!["Third"])),
    ];
    service.load_fonts(parsed);
    let listed = service.list_fonts();
    assert_eq!(listed.len(), 2);
    assert_eq!(listed[0].id, "first");
    assert_eq!(listed[1].id, "third");
}

#[test]
fn reloaded_descriptor_wins_over_the_earlier_one() {
    let mut service = FontService::new(AppConfig::default());
    service.register_font(descriptor("dup", vec![], vec!["A"]));
    service.register_font(descriptor("other", vec![], vec!["B"]));
    let mut newer = descriptor("dup", vec![], vec!["A"]);
    newer.version = String::from("2.0");
    service.register_font(newer);
    let listed = service.list_fonts();
    assert_eq!(listed.len(), 2);
    assert_eq!(listed[0].id, "dup");
    assert_eq!(listed[0].version, "2.0");
    assert_eq!(listed[1].id, "other");
}

#[test]
fn unparsable_file_costs_the_file_not_the_font() {
    let mut service = FontService::new(AppConfig::default());
    service.register_font(descriptor("broken", vec![], vec!["Broken"]));
    let added =
        service.add_processor(String::from("broken"), String::from("Broken"), vec![1, 2, 3]);
    assert!(!added);
    // the descriptor is still registered and listed
    assert_eq!(service.list_fonts().len(), 1);
}

#[test]
fn exhaustive_failure_reports_the_first_code_point() {
    let mut service = FontService::new(AppConfig::default());
    service.register_font(descriptor("a", vec!["b"], vec!["A"]));
    service.register_font(descriptor("b", vec![], vec!["B"]));
    // no pool handle at all: nothing covers code point 77
    let r = service.generate_font(None, &vec![77, 78]);
    assert!(matches!(r, Err(AppError::CharacterNotFound(77))));
}

#[test]
fn cyclic_fallback_terminates_with_failure() {
    let mut service = FontService::new(AppConfig::default());
    service.register_font(descriptor("a", vec!["b"], vec!["A"]));
    service.register_font(descriptor("b", vec!["a"], vec!["B"]));
    let r = service.generate_font_by_id(&String::from("a"), &vec![42]);
    assert!(matches!(r, Err(AppError::CharacterNotFound(42))));
}

#[test]
fn unknown_identity_is_reported_as_such() {
    let service = FontService::new(AppConfig::default());
    let r = service.generate_font(Some(&String::from("nope")), &vec![1]);
    match r {
        Err(AppError::FontNotFound(id)) => assert_eq!(id, "nope"),
        _ => panic!("expected FontNotFound"),
    }
}

#[test]
fn empty_request_is_invalid_input() {
    let service = FontService::new(AppConfig::default());
    let r = service.generate_font(None, &Vec::new());
    assert!(matches!(r, Err(AppError::InvalidInput)));
}

#[test]
fn cache_hit_is_served_without_generation() {
    let service = FontService::new(AppConfig::default());
    let cached: Vec<u8> = vec![10, 20, 30];
    // the identity is not even registered: a hit never consults the registry
    match service.get_cached_font(&String::from("any"), &vec![1], Some(cached.clone())) {
        Ok(CacheOutcome::Hit(bytes)) => assert_eq!(bytes, cached),
        _ => panic!("expected a cache hit"),
    }
}

#[test]
fn request_chars_are_validated() {
    assert_eq!(parse_request_chars("40339,40340").unwrap(), vec![40339, 40340]);
    assert!(matches!(parse_request_chars(""), Err(AppError::InvalidInput)));
    assert!(matches!(parse_request_chars("abc"), Err(AppError::InvalidInput)));
}

#[test]
fn error_kinds_map_to_generic_messages() {
    assert_eq!(AppError::InvalidInput.message(), "invalid code point request");
    assert_eq!(AppError::FontNotFound(String::from("x")).message(), "font not found");
    assert_eq!(AppError::CharacterNotFound(1).message(), "character not found");
    assert_eq!(AppError::EngineFailure.message(), "font processing failed");
    assert_eq!(AppError::StorageDegraded.message(), "cache storage degraded");
}
