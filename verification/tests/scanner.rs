use wiktionary::template::{process_templates, Invocation, RawArg};

fn arg(a: &RawArg) -> (Option<&[u8]>, &[u8]) {
    (a.name.as_deref(), a.value.as_slice())
}

#[test]
fn single_invocation() {
    let invs = process_templates(b"{{name|a|b}}").unwrap();
    assert_eq!(invs.len(), 1);
    let inv: &Invocation = &invs[0];
    assert_eq!(inv.name.as_slice(), b"name");
    assert_eq!(inv.args.len(), 2);
    assert_eq!(arg(&inv.args[0]), (None, b"a".as_slice()));
    assert_eq!(arg(&inv.args[1]), (None, b"b".as_slice()));
}

#[test]
fn nested_invocations() {
    let invs = process_templates(b"{{outer|{{inner|x}}|y}}").unwrap();
    assert_eq!(invs.len(), 2);
    assert_eq!(invs[0].name.as_slice(), b"inner");
    assert_eq!(invs[0].args.len(), 1);
    assert_eq!(arg(&invs[0].args[0]), (None, b"x".as_slice()));
    assert_eq!(invs[1].name.as_slice(), b"outer");
    assert_eq!(invs[1].args.len(), 2);
    assert_eq!(arg(&invs[1].args[0]), (None, b"{{inner|x}}".as_slice()));
    assert_eq!(arg(&invs[1].args[1]), (None, b"y".as_slice()));
}

#[test]
fn nowiki_escape() {
    let invs = process_templates(b"{{a|<nowiki>{{b}}</nowiki>}}").unwrap();
    assert_eq!(invs.len(), 1);
    assert_eq!(invs[0].name.as_slice(), b"a");
    assert_eq!(invs[0].args.len(), 1);
    assert_eq!(
        arg(&invs[0].args[0]),
        (None, b"<nowiki>{{b}}</nowiki>".as_slice())
    );
}

#[test]
fn math_escape() {
    let invs = process_templates(b"{{a|<math>{{b}}</math>}}").unwrap();
    assert_eq!(invs.len(), 1);
    assert_eq!(invs[0].name.as_slice(), b"a");
    assert_eq!(invs[0].args.len(), 1);
    assert_eq!(arg(&invs[0].args[0]), (None, b"<math>{{b}}</math>".as_slice()));
}

#[test]
fn triple_brace_fatal() {
    let r = process_templates(b"{{{x}}}");
    assert!(r.is_err());
}

#[test]
fn triple_brace_after_callback_started() {
    let r = process_templates(b"{{a|b}} {{{x");
    assert!(r.is_err());
}

#[test]
fn named_argument_split_on_first_equals() {
    let invs = process_templates(b"{{t|x=1=2|y}}").unwrap();
    assert_eq!(invs.len(), 1);
    assert_eq!(invs[0].args.len(), 2);
    assert_eq!(arg(&invs[0].args[0]), (Some(b"x".as_slice()), b"1=2".as_slice()));
    assert_eq!(arg(&invs[0].args[1]), (None, b"y".as_slice()));
}

#[test]
fn template_name_is_trimmed() {
    let invs = process_templates(b"{{ plural of |en|dogs}}").unwrap();
    assert_eq!(invs.len(), 1);
    assert_eq!(invs[0].name.as_slice(), b"plural of");
}

#[test]
fn unclosed_invocation_yields_nothing() {
    let invs = process_templates(b"{{a|b").unwrap();
    assert_eq!(invs.len(), 0);
}

#[test]
fn unterminated_nowiki_swallows_rest() {
    let invs = process_templates(b"{{a|<nowiki>{{b}}").unwrap();
    assert_eq!(invs.len(), 0);
}

#[test]
fn plain_text_yields_nothing() {
    let invs = process_templates(b"no templates here").unwrap();
    assert_eq!(invs.len(), 0);
    let invs = process_templates(b"").unwrap();
    assert_eq!(invs.len(), 0);
}

#[test]
fn multibyte_text_is_preserved() {
    let text = "{{t|caf\u{e9}}}".as_bytes();
    let invs = process_templates(text).unwrap();
    assert_eq!(invs.len(), 1);
    assert_eq!(invs[0].args.len(), 1);
    assert_eq!(invs[0].args[0].value.as_slice(), "caf\u{e9}".as_bytes());
}

#[test]
fn stray_close_ends_the_top_level() {
    let invs = process_templates(b"a}}b").unwrap();
    assert_eq!(invs.len(), 1);
    assert_eq!(invs[0].name.as_slice(), b"a");
    assert_eq!(invs[0].args.len(), 0);
}

#[test]
fn name_comes_from_the_first_argument_value() {
    let invs = process_templates(b"{{x=y|a}}").unwrap();
    assert_eq!(invs.len(), 1);
    assert_eq!(invs[0].name.as_slice(), b"y");
    assert_eq!(invs[0].args.len(), 1);
    assert_eq!(arg(&invs[0].args[0]), (None, b"a".as_slice()));
}

#[test]
fn nested_invocation_inside_a_named_argument() {
    let invs = process_templates(b"{{a|x={{b|1}}}}").unwrap();
    assert_eq!(invs.len(), 2);
    assert_eq!(invs[0].name.as_slice(), b"b");
    assert_eq!(invs[1].name.as_slice(), b"a");
    assert_eq!(arg(&invs[1].args[0]), (Some(b"x".as_slice()), b"{{b|1}}".as_slice()));
}
