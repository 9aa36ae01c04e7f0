use wiktionary::decode::NamedArgs;
use wiktionary::handlers::{alt_forms, alter, is_obsolete_tag, is_pos_header, lookup_handler,
    plural_of, process_section, Handler, TemplateContext};
use wiktionary::model::Wiktionary;

fn cxt(word: &[u8], section: Option<&[u8]>, args: &[&[u8]]) -> TemplateContext {
    TemplateContext {
        word: word.to_vec(),
        section: section.map(|s| s.to_vec()),
        args: args.iter().map(|a| a.to_vec()).collect(),
        kwargs: NamedArgs::new(),
    }
}

fn word_list(w: &Wiktionary) -> Vec<Vec<u8>> {
    let t = w.words();
    let mut out = Vec::new();
    for i in 0..t.len() {
        out.push(t.spelling(i).clone());
    }
    out
}

#[test]
fn alter_with_obsolete_dialect_tag_does_nothing() {
    let mut w = Wiktionary::new();
    let c = cxt(b"word", None, &[b"en", b"form1", b"form2", b"", b"archaic"]);
    assert!(alter(&mut w, c).is_ok());
    assert_eq!(w.alt_forms().cluster_lists().len(), 0);
    assert_eq!(w.words().len(), 0);
}

#[test]
fn alter_without_terminator_merges_all_forms() {
    let mut w = Wiktionary::new();
    let c = cxt(b"word", None, &[b"en", b"form1", b"form2"]);
    assert!(alter(&mut w, c).is_ok());
    assert_eq!(word_list(&w), vec![b"word".to_vec(), b"form1".to_vec(), b"form2".to_vec()]);
    let p = w.alt_forms();
    assert_eq!(p.rep_of(0), Some(0));
    assert_eq!(p.rep_of(1), Some(0));
    assert_eq!(p.rep_of(2), Some(0));
    assert_eq!(p.members_of(0).unwrap().as_slice(), &[0, 1, 2]);
}

#[test]
fn alter_with_terminator_merges_only_listed_forms() {
    let mut w = Wiktionary::new();
    let c = cxt(b"word", None, &[b"en", b"form1", b"", b"northern"]);
    assert!(alter(&mut w, c).is_ok());
    assert_eq!(word_list(&w), vec![b"word".to_vec(), b"form1".to_vec()]);
    assert_eq!(w.alt_forms().members_of(0).unwrap().as_slice(), &[0, 1]);
}

#[test]
fn alter_needs_the_language_marker() {
    let mut w = Wiktionary::new();
    assert!(alter(&mut w, cxt(b"word", None, &[])).is_err());
    assert!(alter(&mut w, cxt(b"word", None, &[b"fr", b"x"])).is_ok());
    assert_eq!(w.words().len(), 0);
}

#[test]
fn plural_of_records_a_directed_edge_under_noun() {
    let mut w = Wiktionary::new();
    let c = cxt(b"dogs", Some(b"noun"), &[b"en", b"dog"]);
    assert!(plural_of(&mut w, c).is_ok());
    assert_eq!(word_list(&w), vec![b"dogs".to_vec(), b"dog".to_vec()]);
    assert_eq!(w.plural_list().as_slice(), &[(0, 1)]);
}

#[test]
fn plural_of_is_inert_outside_noun_sections() {
    let mut w = Wiktionary::new();
    let c = cxt(b"dogs", Some(b"verb"), &[b"en", b"dog"]);
    assert!(plural_of(&mut w, c).is_ok());
    assert_eq!(w.words().len(), 0);
    assert_eq!(w.plural_list().len(), 0);
    let c = cxt(b"dogs", None, &[b"en", b"dog"]);
    assert!(plural_of(&mut w, c).is_ok());
    assert_eq!(w.plural_list().len(), 0);
}

#[test]
fn missing_argument_fails_without_partial_work() {
    let mut w = Wiktionary::new();
    assert!(plural_of(&mut w, cxt(b"dogs", Some(b"noun"), &[])).is_err());
    assert!(plural_of(&mut w, cxt(b"dogs", Some(b"noun"), &[b"en"])).is_err());
    assert!(alt_forms(&mut w, cxt(b"dogs", None, &[b"en"])).is_err());
    assert_eq!(w.words().len(), 0);
    assert_eq!(w.plural_list().len(), 0);
    assert_eq!(w.alt_forms().cluster_lists().len(), 0);
}

#[test]
fn alt_forms_merges_the_pair() {
    let mut w = Wiktionary::new();
    let c = cxt(b"colour", None, &[b"en", b"color"]);
    assert!(alt_forms(&mut w, c).is_ok());
    assert_eq!(w.alt_forms().members_of(0).unwrap().as_slice(), &[0, 1]);
}

#[test]
fn dispatch_table_matches_known_names() {
    assert_eq!(lookup_handler(b"plural of"), Some(Handler::PluralOf));
    assert_eq!(lookup_handler(b"alternative spelling of"), Some(Handler::AltForms));
    assert_eq!(lookup_handler(b"standard spelling of"), Some(Handler::AltForms));
    assert_eq!(lookup_handler(b"standard form of"), Some(Handler::AltForms));
    assert_eq!(lookup_handler(b"alternative form of"), Some(Handler::AltForms));
    assert_eq!(lookup_handler(b"stand sp"), Some(Handler::AltForms));
    assert_eq!(lookup_handler(b"alt sp"), Some(Handler::AltForms));
    assert_eq!(lookup_handler(b"alt spelling"), Some(Handler::AltForms));
    assert_eq!(lookup_handler(b"alt form"), Some(Handler::AltForms));
    assert_eq!(lookup_handler(b"altform"), Some(Handler::AltForms));
    assert_eq!(lookup_handler(b"alter"), Some(Handler::Alter));
    assert_eq!(lookup_handler(b"unknown template"), None);
}

#[test]
fn obsolete_tags_match_as_whole_words() {
    assert!(is_obsolete_tag(b"archaic"));
    assert!(is_obsolete_tag(b"now obsolete"));
    assert!(is_obsolete_tag(b"dated form"));
    assert!(is_obsolete_tag(b"rare"));
    assert!(!is_obsolete_tag(b"rarely"));
    assert!(!is_obsolete_tag(b"northern"));
    assert!(!is_obsolete_tag(b""));
}

#[test]
fn pos_headers_are_the_closed_list() {
    assert!(is_pos_header(b"noun"));
    assert!(is_pos_header(b"proper noun"));
    assert!(is_pos_header(b"article"));
    assert!(!is_pos_header(b"nouns"));
    assert!(!is_pos_header(b"etymology"));
}

#[test]
fn process_section_runs_scanner_dispatch_and_pos() {
    let mut w = Wiktionary::new();
    let r = process_section(
        &mut w,
        b"dogs",
        Some(b"noun"),
        b"text {{plural of|en|dog}} more",
    );
    assert!(r.is_ok());
    assert_eq!(word_list(&w), vec![b"dogs".to_vec(), b"dog".to_vec()]);
    assert_eq!(w.plural_list().as_slice(), &[(0, 1)]);
    let pos = w.pos_list();
    assert_eq!(pos.len(), 1);
    assert_eq!(pos[0].0.as_slice(), b"noun");
    assert_eq!(pos[0].1.as_slice(), &[0]);
}

#[test]
fn process_section_aborts_on_triple_brace() {
    let mut w = Wiktionary::new();
    let r = process_section(&mut w, b"dogs", Some(b"noun"), b"{{{x}}}");
    assert!(r.is_err());
    assert_eq!(w.words().len(), 0);
    assert_eq!(w.pos_list().len(), 0);
}

#[test]
fn process_section_ignores_unknown_templates_and_failures() {
    let mut w = Wiktionary::new();
    let r = process_section(
        &mut w,
        b"dogs",
        Some(b"noun"),
        b"{{mystery|en|x}} {{plural of|en}} {{plural of|en|dog}}",
    );
    assert!(r.is_ok());
    assert_eq!(w.plural_list().as_slice(), &[(0, 1)]);
}

#[test]
fn alternative_spellings_accumulate_across_invocations() {
    let mut w = Wiktionary::new();
    assert!(process_section(&mut w, b"colour", None, b"{{alt sp|en|color}}").is_ok());
    assert!(process_section(&mut w, b"colour", None, b"{{alter|en|colr}}").is_ok());
    assert_eq!(w.alt_forms().members_of(0).unwrap().as_slice(), &[0, 1, 2]);
}
