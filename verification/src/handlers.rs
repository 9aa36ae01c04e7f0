//! Template dispatch and the handlers: each template name maps to one
//! handler kind, and each handler checks its required arguments before it
//! touches the model, so a failed invocation leaves no trace.

use vstd::prelude::*;

use crate::bytes::{bytes_eq, contains_word, has_word, sub_bytes};
use crate::decode::{check_decodable, decodable, decode_arguments, decode_spec, vals_views,
    NamedArgs};
use crate::model::{edge_add, intern_spec, pos_add, word_id_spec, Wiktionary, WiktView};
use crate::partitioner::{insert_trans, PartView};
use crate::template::{inv_views, process_templates, scan_text, InvS, Invocation, ScanError,
    ScanOutcome};

verus! {

/// `"en"`: the language marker.
pub open spec fn lit_en() -> Seq<u8> {
    seq![101u8, 110u8]
}

/// `"noun"`: the noun section heading.
pub open spec fn lit_noun() -> Seq<u8> {
    seq![110u8, 111u8, 117u8, 110u8]
}

/// `"plural of"`: the plural-of template name.
pub open spec fn lit_plural_of_name() -> Seq<u8> {
    seq![112u8, 108u8, 117u8, 114u8, 97u8, 108u8, 32u8, 111u8, 102u8]
}

/// `"standard spelling of"`: an alternative-spelling template name.
pub open spec fn lit_standard_spelling_of() -> Seq<u8> {
    seq![115u8, 116u8, 97u8, 110u8, 100u8, 97u8, 114u8, 100u8, 32u8, 115u8, 112u8, 101u8, 108u8, 108u8, 105u8, 110u8, 103u8, 32u8, 111u8, 102u8]
}

/// `"alternative spelling of"`: an alternative-spelling template name.
pub open spec fn lit_alternative_spelling_of() -> Seq<u8> {
    seq![97u8, 108u8, 116u8, 101u8, 114u8, 110u8, 97u8, 116u8, 105u8, 118u8, 101u8, 32u8, 115u8, 112u8, 101u8, 108u8, 108u8, 105u8, 110u8, 103u8, 32u8, 111u8, 102u8]
}

/// `"standard form of"`: an alternative-spelling template name.
pub open spec fn lit_standard_form_of() -> Seq<u8> {
    seq![115u8, 116u8, 97u8, 110u8, 100u8, 97u8, 114u8, 100u8, 32u8, 102u8, 111u8, 114u8, 109u8, 32u8, 111u8, 102u8]
}

/// `"alternative form of"`: an alternative-spelling template name.
pub open spec fn lit_alternative_form_of() -> Seq<u8> {
    seq![97u8, 108u8, 116u8, 101u8, 114u8, 110u8, 97u8, 116u8, 105u8, 118u8, 101u8, 32u8, 102u8, 111u8, 114u8, 109u8, 32u8, 111u8, 102u8]
}

/// `"stand sp"`: an alternative-spelling template name.
pub open spec fn lit_stand_sp() -> Seq<u8> {
    seq![115u8, 116u8, 97u8, 110u8, 100u8, 32u8, 115u8, 112u8]
}

/// `"alt sp"`: an alternative-spelling template name.
pub open spec fn lit_alt_sp() -> Seq<u8> {
    seq![97u8, 108u8, 116u8, 32u8, 115u8, 112u8]
}

/// `"alt spelling"`: an alternative-spelling template name.
pub open spec fn lit_alt_spelling() -> Seq<u8> {
    seq![97u8, 108u8, 116u8, 32u8, 115u8, 112u8, 101u8, 108u8, 108u8, 105u8, 110u8, 103u8]
}

/// `"alt form"`: an alternative-spelling template name.
pub open spec fn lit_alt_form() -> Seq<u8> {
    seq![97u8, 108u8, 116u8, 32u8, 102u8, 111u8, 114u8, 109u8]
}

/// `"altform"`: an alternative-spelling template name.
pub open spec fn lit_altform() -> Seq<u8> {
    seq![97u8, 108u8, 116u8, 102u8, 111u8, 114u8, 109u8]
}

/// `"alter"`: the alternate-forms-list template name.
pub open spec fn lit_alter_name() -> Seq<u8> {
    seq![97u8, 108u8, 116u8, 101u8, 114u8]
}

/// `"obsolete"`: a register tag that suppresses merging.
pub open spec fn lit_obsolete() -> Seq<u8> {
    seq![111u8, 98u8, 115u8, 111u8, 108u8, 101u8, 116u8, 101u8]
}

/// `"archaic"`: a register tag that suppresses merging.
pub open spec fn lit_archaic() -> Seq<u8> {
    seq![97u8, 114u8, 99u8, 104u8, 97u8, 105u8, 99u8]
}

/// `"dated"`: a register tag that suppresses merging.
pub open spec fn lit_dated() -> Seq<u8> {
    seq![100u8, 97u8, 116u8, 101u8, 100u8]
}

/// `"rare"`: a register tag that suppresses merging.
pub open spec fn lit_rare() -> Seq<u8> {
    seq![114u8, 97u8, 114u8, 101u8]
}

/// The part-of-speech section headings that are collected.
pub open spec fn pos_header_spec(s: Seq<u8>) -> bool {
    s == seq![110u8, 111u8, 117u8, 110u8]
        || s == seq![118u8, 101u8, 114u8, 98u8]
        || s == seq![97u8, 100u8, 106u8, 101u8, 99u8, 116u8, 105u8, 118u8, 101u8]
        || s == seq![112u8, 114u8, 111u8, 112u8, 101u8, 114u8, 32u8, 110u8, 111u8, 117u8, 110u8]
        || s == seq![97u8, 100u8, 118u8, 101u8, 114u8, 98u8]
        || s == seq![105u8, 110u8, 116u8, 101u8, 114u8, 106u8, 101u8, 99u8, 116u8, 105u8, 111u8, 110u8]
        || s == seq![112u8, 114u8, 111u8, 110u8, 111u8, 117u8, 110u8]
        || s == seq![112u8, 114u8, 101u8, 112u8, 111u8, 115u8, 105u8, 116u8, 105u8, 111u8, 110u8]
        || s == seq![99u8, 111u8, 110u8, 106u8, 117u8, 99u8, 116u8, 105u8, 111u8, 110u8]
        || s == seq![100u8, 101u8, 116u8, 101u8, 114u8, 109u8, 105u8, 110u8, 101u8, 114u8]
        || s == seq![112u8, 97u8, 114u8, 116u8, 105u8, 99u8, 108u8, 101u8]
        || s == seq![97u8, 114u8, 116u8, 105u8, 99u8, 108u8, 101u8]
}

/// Test whether a section heading names a collected part of speech.
pub fn is_pos_header(s: &[u8]) -> (r: bool)
    ensures
        r == pos_header_spec(s@),
{
    let p0: [u8; 4] = [110, 111, 117, 110];
    proof { assert(p0@ =~= seq![110u8, 111u8, 117u8, 110u8]); }
    if bytes_eq(s, p0.as_slice()) {
        return true;
    }
    let p1: [u8; 4] = [118, 101, 114, 98];
    proof { assert(p1@ =~= seq![118u8, 101u8, 114u8, 98u8]); }
    if bytes_eq(s, p1.as_slice()) {
        return true;
    }
    let p2: [u8; 9] = [97, 100, 106, 101, 99, 116, 105, 118, 101];
    proof { assert(p2@ =~= seq![97u8, 100u8, 106u8, 101u8, 99u8, 116u8, 105u8, 118u8, 101u8]); }
    if bytes_eq(s, p2.as_slice()) {
        return true;
    }
    let p3: [u8; 11] = [112, 114, 111, 112, 101, 114, 32, 110, 111, 117, 110];
    proof { assert(p3@ =~= seq![112u8, 114u8, 111u8, 112u8, 101u8, 114u8, 32u8, 110u8, 111u8, 117u8, 110u8]); }
    if bytes_eq(s, p3.as_slice()) {
        return true;
    }
    let p4: [u8; 6] = [97, 100, 118, 101, 114, 98];
    proof { assert(p4@ =~= seq![97u8, 100u8, 118u8, 101u8, 114u8, 98u8]); }
    if bytes_eq(s, p4.as_slice()) {
        return true;
    }
    let p5: [u8; 12] = [105, 110, 116, 101, 114, 106, 101, 99, 116, 105, 111, 110];
    proof { assert(p5@ =~= seq![105u8, 110u8, 116u8, 101u8, 114u8, 106u8, 101u8, 99u8, 116u8, 105u8, 111u8, 110u8]); }
    if bytes_eq(s, p5.as_slice()) {
        return true;
    }
    let p6: [u8; 7] = [112, 114, 111, 110, 111, 117, 110];
    proof { assert(p6@ =~= seq![112u8, 114u8, 111u8, 110u8, 111u8, 117u8, 110u8]); }
    if bytes_eq(s, p6.as_slice()) {
        return true;
    }
    let p7: [u8; 11] = [112, 114, 101, 112, 111, 115, 105, 116, 105, 111, 110];
    proof { assert(p7@ =~= seq![112u8, 114u8, 101u8, 112u8, 111u8, 115u8, 105u8, 116u8, 105u8, 111u8, 110u8]); }
    if bytes_eq(s, p7.as_slice()) {
        return true;
    }
    let p8: [u8; 10] = [99, 111, 110, 106, 117, 99, 116, 105, 111, 110];
    proof { assert(p8@ =~= seq![99u8, 111u8, 110u8, 106u8, 117u8, 99u8, 116u8, 105u8, 111u8, 110u8]); }
    if bytes_eq(s, p8.as_slice()) {
        return true;
    }
    let p9: [u8; 10] = [100, 101, 116, 101, 114, 109, 105, 110, 101, 114];
    proof { assert(p9@ =~= seq![100u8, 101u8, 116u8, 101u8, 114u8, 109u8, 105u8, 110u8, 101u8, 114u8]); }
    if bytes_eq(s, p9.as_slice()) {
        return true;
    }
    let p10: [u8; 8] = [112, 97, 114, 116, 105, 99, 108, 101];
    proof { assert(p10@ =~= seq![112u8, 97u8, 114u8, 116u8, 105u8, 99u8, 108u8, 101u8]); }
    if bytes_eq(s, p10.as_slice()) {
        return true;
    }
    let p11: [u8; 7] = [97, 114, 116, 105, 99, 108, 101];
    proof { assert(p11@ =~= seq![97u8, 114u8, 116u8, 105u8, 99u8, 108u8, 101u8]); }
    if bytes_eq(s, p11.as_slice()) {
        return true;
    }
    false
}

/// The closed set of handler kinds.
#[derive(Clone, Copy, Debug, PartialEq, Eq, Structural)]
pub enum Handler {
    PluralOf,
    AltForms,
    Alter,
}

/// The handler a template name is dispatched to, if any; an unknown name is
/// ignored.
pub open spec fn handler_for(name: Seq<u8>) -> Option<Handler> {
    if name == lit_plural_of_name() {
        Some(Handler::PluralOf)
    } else if name == lit_standard_spelling_of() || name == lit_alternative_spelling_of() || name
        == lit_standard_form_of() || name == lit_alternative_form_of() || name == lit_stand_sp()
        || name == lit_alt_sp() || name == lit_alt_spelling() || name == lit_alt_form() || name
        == lit_altform() {
        Some(Handler::AltForms)
    } else if name == lit_alter_name() {
        Some(Handler::Alter)
    } else {
        None
    }
}

/// Look a template name up in the dispatch table.
pub fn lookup_handler(name: &[u8]) -> (r: Option<Handler>)
    ensures
        r == handler_for(name@),
{
    let p0: [u8; 9] = [112, 108, 117, 114, 97, 108, 32, 111, 102];
    proof { assert(p0@ =~= lit_plural_of_name()); }
    if bytes_eq(name, p0.as_slice()) {
        return Some(Handler::PluralOf);
    }
    let p1: [u8; 20] = [115, 116, 97, 110, 100, 97, 114, 100, 32, 115, 112, 101, 108, 108, 105, 110, 103, 32, 111, 102];
    proof { assert(p1@ =~= lit_standard_spelling_of()); }
    if bytes_eq(name, p1.as_slice()) {
        return Some(Handler::AltForms);
    }
    let p2: [u8; 23] = [97, 108, 116, 101, 114, 110, 97, 116, 105, 118, 101, 32, 115, 112, 101, 108, 108, 105, 110, 103, 32, 111, 102];
    proof { assert(p2@ =~= lit_alternative_spelling_of()); }
    if bytes_eq(name, p2.as_slice()) {
        return Some(Handler::AltForms);
    }
    let p3: [u8; 16] = [115, 116, 97, 110, 100, 97, 114, 100, 32, 102, 111, 114, 109, 32, 111, 102];
    proof { assert(p3@ =~= lit_standard_form_of()); }
    if bytes_eq(name, p3.as_slice()) {
        return Some(Handler::AltForms);
    }
    let p4: [u8; 19] = [97, 108, 116, 101, 114, 110, 97, 116, 105, 118, 101, 32, 102, 111, 114, 109, 32, 111, 102];
    proof { assert(p4@ =~= lit_alternative_form_of()); }
    if bytes_eq(name, p4.as_slice()) {
        return Some(Handler::AltForms);
    }
    let p5: [u8; 8] = [115, 116, 97, 110, 100, 32, 115, 112];
    proof { assert(p5@ =~= lit_stand_sp()); }
    if bytes_eq(name, p5.as_slice()) {
        return Some(Handler::AltForms);
    }
    let p6: [u8; 6] = [97, 108, 116, 32, 115, 112];
    proof { assert(p6@ =~= lit_alt_sp()); }
    if bytes_eq(name, p6.as_slice()) {
        return Some(Handler::AltForms);
    }
    let p7: [u8; 12] = [97, 108, 116, 32, 115, 112, 101, 108, 108, 105, 110, 103];
    proof { assert(p7@ =~= lit_alt_spelling()); }
    if bytes_eq(name, p7.as_slice()) {
        return Some(Handler::AltForms);
    }
    let p8: [u8; 8] = [97, 108, 116, 32, 102, 111, 114, 109];
    proof { assert(p8@ =~= lit_alt_form()); }
    if bytes_eq(name, p8.as_slice()) {
        return Some(Handler::AltForms);
    }
    let p9: [u8; 7] = [97, 108, 116, 102, 111, 114, 109];
    proof { assert(p9@ =~= lit_altform()); }
    if bytes_eq(name, p9.as_slice()) {
        return Some(Handler::AltForms);
    }
    let p10: [u8; 5] = [97, 108, 116, 101, 114];
    proof { assert(p10@ =~= lit_alter_name()); }
    if bytes_eq(name, p10.as_slice()) {
        return Some(Handler::Alter);
    }
    None
}

/// A register or dialect tag that suppresses merging: it holds one of the
/// obsolete, archaic, dated or rare markers as a whole word.
pub open spec fn matches_obsolete(s: Seq<u8>) -> bool {
    has_word(s, lit_obsolete()) || has_word(s, lit_archaic()) || has_word(s, lit_dated())
        || has_word(s, lit_rare())
}

/// Test a tag for the obsolete, archaic, dated and rare markers.
pub fn is_obsolete_tag(s: &[u8]) -> (r: bool)
    ensures
        r == matches_obsolete(s@),
{
    let p0: [u8; 8] = [111, 98, 115, 111, 108, 101, 116, 101];
    proof { assert(p0@ =~= lit_obsolete()); }
    if contains_word(s, p0.as_slice()) {
        return true;
    }
    let p1: [u8; 7] = [97, 114, 99, 104, 97, 105, 99];
    proof { assert(p1@ =~= lit_archaic()); }
    if contains_word(s, p1.as_slice()) {
        return true;
    }
    let p2: [u8; 5] = [100, 97, 116, 101, 100];
    proof { assert(p2@ =~= lit_dated()); }
    if contains_word(s, p2.as_slice()) {
        return true;
    }
    let p3: [u8; 4] = [114, 97, 114, 101];
    proof { assert(p3@ =~= lit_rare()); }
    if contains_word(s, p3.as_slice()) {
        return true;
    }
    false
}

/// A handler's recoverable failure: a required argument is missing. The
/// caller drops the invocation and goes on.
#[derive(Clone, Copy, Debug, PartialEq, Eq)]
pub enum Error {
    MissingTemplateArgument,
}

/// What a handler receives: the defining word, the enclosing section
/// heading if any, and the decoded arguments.
pub struct TemplateContext {
    pub word: Vec<u8>,
    pub section: Option<Vec<u8>>,
    pub args: Vec<Vec<u8>>,
    pub kwargs: NamedArgs,
}

/// The view of an optional owned section heading.
pub open spec fn sec_view(o: Option<Vec<u8>>) -> Option<Seq<u8>> {
    match o {
        Some(s) => Some(s@),
        None => None,
    }
}

/// The plural-of handler: active only under the noun heading; needs the
/// language marker and the base word; on success records one directed edge
/// from the defining word to the base word. `None` is the missing-argument
/// failure, which changes nothing.
pub open spec fn plural_spec(
    v: WiktView,
    word: Seq<u8>,
    section: Option<Seq<u8>>,
    args: Seq<Seq<u8>>,
) -> Option<WiktView> {
    if section != Some(lit_noun()) {
        Some(v)
    } else if args.len() < 1 {
        None
    } else if args[0] != lit_en() {
        Some(v)
    } else if args.len() < 2 {
        None
    } else {
        let id1 = word_id_spec(v.words, word) as usize;
        let w1 = intern_spec(v.words, word);
        let id2 = word_id_spec(w1, args[1]) as usize;
        let w2 = intern_spec(w1, args[1]);
        Some(WiktView { words: w2, plural_of: edge_add(v.plural_of, (id1, id2)), ..v })
    }
}

/// The alternative-spelling handler: needs the language marker and the
/// alternative spelling; on success merges the defining word and the
/// alternative into one cluster.
pub open spec fn alt_forms_spec(v: WiktView, word: Seq<u8>, args: Seq<Seq<u8>>) -> Option<
    WiktView,
> {
    if args.len() < 1 {
        None
    } else if args[0] != lit_en() {
        Some(v)
    } else if args.len() < 2 {
        None
    } else {
        let id1 = word_id_spec(v.words, word) as usize;
        let w1 = intern_spec(v.words, word);
        let id2 = word_id_spec(w1, args[1]) as usize;
        let w2 = intern_spec(w1, args[1]);
        Some(WiktView { words: w2, alt_forms: insert_trans(v.alt_forms, id1, id2), ..v })
    }
}

/// First empty argument at or after `from`: the terminator between listed
/// forms and register tags.
pub open spec fn find_empty(args: Seq<Seq<u8>>, from: int) -> Option<int>
    decreases args.len() - from + 1,
{
    if from < 0 || from >= args.len() {
        None
    } else if args[from].len() == 0 {
        Some(from)
    } else {
        find_empty(args, from + 1)
    }
}

proof fn lemma_find_empty_some(args: Seq<Seq<u8>>, from: int, d: int)
    requires
        find_empty(args, from) == Some(d),
    ensures
        from <= d < args.len(),
        args[d].len() == 0,
        forall|m: int| from <= m < d ==> (#[trigger] args[m]).len() != 0,
    decreases args.len() - from + 1,
{
    if from < 0 || from >= args.len() {
    } else if args[from].len() == 0 {
    } else {
        lemma_find_empty_some(args, from + 1, d);
    }
}

/// Find the terminator in a decoded positional argument list.
fn first_empty(args: &Vec<Vec<u8>>) -> (r: Option<usize>)
    ensures
        (match r {
            Some(d) => find_empty(vals_views(args@), 0) == Some(d as int),
            None => find_empty(vals_views(args@), 0) is None,
        }),
{
    let ghost vs = vals_views(args@);
    let mut k: usize = 0;
    while k < args.len()
        invariant
            vs == vals_views(args@),
            0 <= k <= args@.len(),
            vs.len() == args@.len(),
            find_empty(vs, 0) == find_empty(vs, k as int),
        decreases args@.len() - k,
    {
        if args[k].len() == 0 {
            proof {
                assert(vs[k as int].len() == 0);
            }
            return Some(k);
        }
        proof {
            assert(vs[k as int].len() != 0);
        }
        k = k + 1;
    }
    proof {
        assert(find_empty(vs, vs.len() as int) is None);
    }
    None
}

/// Merge each listed form into the defining word's cluster, left to right,
/// interning as encountered.
pub open spec fn merge_forms(
    words: Seq<Seq<u8>>,
    alt: PartView,
    id1: usize,
    forms: Seq<Seq<u8>>,
) -> (Seq<Seq<u8>>, PartView)
    decreases forms.len(),
{
    if forms.len() == 0 {
        (words, alt)
    } else {
        let (w1, a1) = merge_forms(words, alt, id1, forms.drop_last());
        let id2 = word_id_spec(w1, forms.last()) as usize;
        (intern_spec(w1, forms.last()), insert_trans(a1, id1, id2))
    }
}

/// Some register tag in the list suppresses merging.
pub open spec fn any_obsolete(dialects: Seq<Seq<u8>>) -> bool {
    exists|m: int| 0 <= m < dialects.len() && matches_obsolete(#[trigger] dialects[m])
}

/// The alternate-forms-list handler: needs the language marker; the
/// positional arguments up to the first empty placeholder are forms, the
/// rest are register tags; any obsolete, archaic, dated or rare tag
/// suppresses the whole invocation; otherwise every form is merged with the
/// defining word.
pub open spec fn alter_spec(v: WiktView, word: Seq<u8>, args: Seq<Seq<u8>>) -> Option<WiktView> {
    if args.len() < 1 {
        None
    } else if args[0] != lit_en() {
        Some(v)
    } else {
        let delim = find_empty(args, 0);
        let forms = match delim {
            Some(d) => args.subrange(1, d),
            None => args.subrange(1, args.len() as int),
        };
        let dialects = match delim {
            Some(d) => args.subrange(d + 1, args.len() as int),
            None => Seq::<Seq<u8>>::empty(),
        };
        if any_obsolete(dialects) {
            Some(v)
        } else {
            let id1 = word_id_spec(v.words, word) as usize;
            let w1 = intern_spec(v.words, word);
            let (wfin, afin) = merge_forms(w1, v.alt_forms, id1, forms);
            Some(WiktView { words: wfin, alt_forms: afin, ..v })
        }
    }
}

/// Record a directed "plural of" relation for the defining word.
pub fn plural_of(view: &mut Wiktionary, cxt: TemplateContext) -> (r: Result<(), Error>)
    requires
        old(view).well_formed(),
    ensures
        final(view).well_formed(),
        (match plural_spec(old(view)@, cxt.word@, sec_view(cxt.section), vals_views(cxt.args@)) {
            Some(w) => r is Ok && final(view)@ == w,
            None => r is Err && final(view)@ == old(view)@,
        }),
{
    let ghost args = vals_views(cxt.args@);
    let pn: [u8; 4] = [110, 111, 117, 110];
    proof {
        assert(pn@ =~= lit_noun());
    }
    let is_noun = match &cxt.section {
        Some(s) => bytes_eq(s.as_slice(), pn.as_slice()),
        None => false,
    };
    if !is_noun {
        return Ok(());
    }
    if cxt.args.len() < 1 {
        return Err(Error::MissingTemplateArgument);
    }
    let pe: [u8; 2] = [101, 110];
    proof {
        assert(pe@ =~= lit_en());
        assert(args[0] == cxt.args@[0]@);
    }
    if !bytes_eq(cxt.args[0].as_slice(), pe.as_slice()) {
        return Ok(());
    }
    if cxt.args.len() < 2 {
        return Err(Error::MissingTemplateArgument);
    }
    proof {
        assert(args[1] == cxt.args@[1]@);
    }
    let id1 = view.word_id(cxt.word.as_slice());
    let id2 = view.word_id(cxt.args[1].as_slice());
    view.add_plural_edge(id1, id2);
    proof {
        let w1 = intern_spec(old(view)@.words, cxt.word@);
        let w2 = intern_spec(w1, args[1]);
        assert(view@ =~= (WiktView {
            words: w2,
            plural_of: edge_add(old(view)@.plural_of, (id1, id2)),
            ..old(view)@
        }));
    }
    Ok(())
}

/// Merge an alternative spelling with the defining word.
pub fn alt_forms(view: &mut Wiktionary, cxt: TemplateContext) -> (r: Result<(), Error>)
    requires
        old(view).well_formed(),
    ensures
        final(view).well_formed(),
        (match alt_forms_spec(old(view)@, cxt.word@, vals_views(cxt.args@)) {
            Some(w) => r is Ok && final(view)@ == w,
            None => r is Err && final(view)@ == old(view)@,
        }),
{
    let ghost args = vals_views(cxt.args@);
    if cxt.args.len() < 1 {
        return Err(Error::MissingTemplateArgument);
    }
    let pe: [u8; 2] = [101, 110];
    proof {
        assert(pe@ =~= lit_en());
        assert(args[0] == cxt.args@[0]@);
    }
    if !bytes_eq(cxt.args[0].as_slice(), pe.as_slice()) {
        return Ok(());
    }
    if cxt.args.len() < 2 {
        return Err(Error::MissingTemplateArgument);
    }
    proof {
        assert(args[1] == cxt.args@[1]@);
    }
    let id1 = view.word_id(cxt.word.as_slice());
    let id2 = view.word_id(cxt.args[1].as_slice());
    view.merge_alt(id1, id2);
    proof {
        let w1 = intern_spec(old(view)@.words, cxt.word@);
        let w2 = intern_spec(w1, args[1]);
        assert(view@ =~= (WiktView {
            words: w2,
            alt_forms: insert_trans(old(view)@.alt_forms, id1, id2),
            ..old(view)@
        }));
    }
    Ok(())
}

/// Merge every listed alternate form with the defining word, unless a
/// register tag marks the list obsolete, archaic, dated or rare.
pub fn alter(view: &mut Wiktionary, cxt: TemplateContext) -> (r: Result<(), Error>)
    requires
        old(view).well_formed(),
    ensures
        final(view).well_formed(),
        (match alter_spec(old(view)@, cxt.word@, vals_views(cxt.args@)) {
            Some(w) => r is Ok && final(view)@ == w,
            None => r is Err && final(view)@ == old(view)@,
        }),
{
    let ghost args = vals_views(cxt.args@);
    if cxt.args.len() < 1 {
        return Err(Error::MissingTemplateArgument);
    }
    let pe: [u8; 2] = [101, 110];
    proof {
        assert(pe@ =~= lit_en());
        assert(args[0] == cxt.args@[0]@);
    }
    if !bytes_eq(cxt.args[0].as_slice(), pe.as_slice()) {
        return Ok(());
    }
    let delim = first_empty(&cxt.args);
    let dstart: usize = match delim {
        Some(d) => {
            proof {
                lemma_find_empty_some(args, 0, d as int);
            }
            d + 1
        },
        None => cxt.args.len(),
    };
    let dend: usize = cxt.args.len();
    let ghost dialects = (match find_empty(args, 0) {
        Some(d) => args.subrange(d + 1, args.len() as int),
        None => Seq::<Seq<u8>>::empty(),
    });
    let mut d: usize = dstart;
    while d < dend
        invariant
            *view == *old(view),
            old(view).well_formed(),
            args == vals_views(cxt.args@),
            args.len() == cxt.args@.len(),
            args.len() >= 1 && args[0] == lit_en(),
            dstart <= d <= dend == args.len(),
            dialects == (match find_empty(args, 0) {
                Some(q) => args.subrange(q + 1, args.len() as int),
                None => Seq::<Seq<u8>>::empty(),
            }),
            dstart == (match find_empty(args, 0) {
                Some(q) => q + 1,
                None => args.len() as int,
            }),
            dialects.len() == dend - dstart,
            forall|m: int| dstart <= m < d ==> !matches_obsolete(#[trigger] args[m]),
        decreases dend - d,
    {
        if is_obsolete_tag(cxt.args[d].as_slice()) {
            proof {
                assert(dialects[d - dstart] == args[d as int]);
                assert(matches_obsolete(dialects[d - dstart]));
                assert(0 <= d - dstart < dialects.len());
                assert(any_obsolete(dialects));
                assert(alter_spec(old(view)@, cxt.word@, args) == Some(old(view)@));
            }
            return Ok(());
        }
        d = d + 1;
    }
    proof {
        assert forall|m: int| 0 <= m < dialects.len() implies !matches_obsolete(
            #[trigger] dialects[m],
        ) by {
            assert(dialects[m] == args[dstart + m]);
        }
        assert(!any_obsolete(dialects));
    }
    let fend: usize = match delim {
        Some(dd) => dd,
        None => cxt.args.len(),
    };
    proof {
        if delim is Some {
            lemma_find_empty_some(args, 0, fend as int);
        }
    }
    let ghost forms = (match find_empty(args, 0) {
        Some(dd) => args.subrange(1, dd),
        None => args.subrange(1, args.len() as int),
    });
    let id1 = view.word_id(cxt.word.as_slice());
    let ghost v1 = view@;
    let mut m: usize = 1;
    proof {
        assert(forms.take(0) =~= Seq::<Seq<u8>>::empty());
    }
    while m < fend
        invariant
            old(view).well_formed(),
            args == vals_views(cxt.args@),
            args.len() == cxt.args@.len(),
            args.len() >= 1 && args[0] == lit_en(),
            !any_obsolete(dialects),
            dialects == (match find_empty(args, 0) {
                Some(q) => args.subrange(q + 1, args.len() as int),
                None => Seq::<Seq<u8>>::empty(),
            }),
            forms == (match find_empty(args, 0) {
                Some(q) => args.subrange(1, q),
                None => args.subrange(1, args.len() as int),
            }),
            fend == (match find_empty(args, 0) {
                Some(q) => q,
                None => args.len() as int,
            }),
            1 <= m <= fend <= args.len(),
            forms.len() == fend - 1,
            forall|q: int| 0 <= q < forms.len() ==> #[trigger] forms[q] == args[1 + q],
            v1 == (WiktView {
                words: intern_spec(old(view)@.words, cxt.word@),
                ..old(view)@
            }),
            id1 == word_id_spec(old(view)@.words, cxt.word@) as usize,
            id1 < view@.words.len(),
            view.well_formed(),
            ({
                let (wfin, afin) = merge_forms(v1.words, v1.alt_forms, id1, forms.take(m - 1));
                view@ == (WiktView { words: wfin, alt_forms: afin, ..v1 })
            }),
        decreases fend - m,
    {
        let ghost prefix = forms.take(m - 1);
        let ghost fullpre = forms.take(m as int);
        proof {
            assert(fullpre.drop_last() =~= prefix);
            assert(forms[m - 1] == args[m as int]);
            assert(fullpre.last() == args[m as int]);
        }
        let id2 = view.word_id(cxt.args[m].as_slice());
        proof {
            assert(id1 < view@.words.len());
        }
        view.merge_alt(id1, id2);
        proof {
            let (w1, a1) = merge_forms(v1.words, v1.alt_forms, id1, prefix);
            let (w2, a2) = merge_forms(v1.words, v1.alt_forms, id1, fullpre);
            assert(view@ =~= (WiktView { words: w2, alt_forms: a2, ..v1 }));
        }
        m = m + 1;
    }
    proof {
        assert(forms.take(fend - 1) =~= forms);
        let (wfin, afin) = merge_forms(v1.words, v1.alt_forms, id1, forms);
        assert(view@ =~= (WiktView { words: wfin, alt_forms: afin, ..old(view)@ }));
    }
    Ok(())
}

/// What running one handler does; a failed invocation leaves the model
/// unchanged, as the caller drops the failure.
pub open spec fn apply_handler(
    h: Handler,
    v: WiktView,
    word: Seq<u8>,
    section: Option<Seq<u8>>,
    args: Seq<Seq<u8>>,
) -> WiktView {
    match h {
        Handler::PluralOf => match plural_spec(v, word, section, args) {
            Some(w) => w,
            None => v,
        },
        Handler::AltForms => match alt_forms_spec(v, word, args) {
            Some(w) => w,
            None => v,
        },
        Handler::Alter => match alter_spec(v, word, args) {
            Some(w) => w,
            None => v,
        },
    }
}

/// What one scanned invocation does to the model: an unknown name is
/// ignored, an argument list with a zero numeric override is dropped, and
/// otherwise the decoded positional arguments reach the handler.
pub open spec fn apply_invocation(
    v: WiktView,
    word: Seq<u8>,
    section: Option<Seq<u8>>,
    inv: InvS,
) -> WiktView {
    match handler_for(inv.name) {
        None => v,
        Some(h) => if !decodable(inv.args) {
            v
        } else {
            apply_handler(h, v, word, section, decode_spec(inv.args).0)
        },
    }
}

/// The scanned invocations applied in completion order.
pub open spec fn apply_invocations(
    v: WiktView,
    word: Seq<u8>,
    section: Option<Seq<u8>>,
    invs: Seq<InvS>,
) -> WiktView
    decreases invs.len(),
{
    if invs.len() == 0 {
        v
    } else {
        apply_invocation(
            apply_invocations(v, word, section, invs.drop_last()),
            word,
            section,
            invs.last(),
        )
    }
}

/// Part-of-speech bookkeeping once a section's templates are done: under a
/// collected heading the defining word is interned and recorded.
pub open spec fn apply_pos(v: WiktView, word: Seq<u8>, section: Option<Seq<u8>>) -> WiktView {
    match section {
        Some(s) => if pos_header_spec(s) {
            let id = word_id_spec(v.words, word) as usize;
            WiktView { words: intern_spec(v.words, word), pos: pos_add(v.pos, s, id), ..v }
        } else {
            v
        },
        None => v,
    }
}

/// What processing one section's text does to the model: the structural
/// error aborts with the model untouched; otherwise every completed
/// invocation is applied in order and the part of speech is recorded.
pub open spec fn section_spec(
    v: WiktView,
    word: Seq<u8>,
    section: Option<Seq<u8>>,
    text: Seq<u8>,
) -> Option<WiktView> {
    match scan_text(text) {
        ScanOutcome::Ended { found } => Some(
            apply_pos(apply_invocations(v, word, section, found), word, section),
        ),
        ScanOutcome::Closed { found, next } => Some(
            apply_pos(apply_invocations(v, word, section, found), word, section),
        ),
        _ => None,
    }
}

/// The view of an optional borrowed section heading.
pub open spec fn slice_opt_view(o: Option<&[u8]>) -> Option<Seq<u8>> {
    match o {
        Some(s) => Some(s@),
        None => None,
    }
}

/// Process one section of one word's page: scan the text, dispatch every
/// completed invocation to its handler, and record the part of speech.
/// A `{{{` aborts with the model untouched.
pub fn process_section(
    view: &mut Wiktionary,
    word: &[u8],
    section: Option<&[u8]>,
    text: &[u8],
) -> (r: Result<(), ScanError>)
    requires
        old(view).well_formed(),
    ensures
        final(view).well_formed(),
        (match r {
            Ok(u) => section_spec(old(view)@, word@, slice_opt_view(section), text@) == Some(
                final(view)@,
            ),
            Err(e) => scan_text(text@) is Fatal && final(view)@ == old(view)@,
        }),
{
    let invs = match process_templates(text) {
        Ok(v) => v,
        Err(e) => {
            return Err(e);
        },
    };
    let ghost found = inv_views(invs@);
    let ghost v0 = view@;
    let ghost sec = slice_opt_view(section);
    let mut k: usize = 0;
    proof {
        assert(found.take(0) =~= Seq::<InvS>::empty());
    }
    while k < invs.len()
        invariant
            view.well_formed(),
            v0 == old(view)@,
            sec == slice_opt_view(section),
            found == inv_views(invs@),
            found.len() == invs@.len(),
            0 <= k <= invs@.len(),
            view@ == apply_invocations(v0, word@, sec, found.take(k as int)),
        decreases invs@.len() - k,
    {
        let ghost prefix = found.take(k as int);
        let ghost fullpre = found.take(k + 1);
        let ghost vpre = view@;
        proof {
            assert(fullpre.drop_last() =~= prefix);
            assert(found[k as int] == invs@[k as int]@);
            assert(fullpre.last() == invs@[k as int]@);
        }
        match lookup_handler(invs[k].name.as_slice()) {
            None => {
                proof {
                    assert(view@ == apply_invocation(vpre, word@, sec, fullpre.last()));
                }
            },
            Some(h) => {
                if check_decodable(&invs[k].args) {
                    let (pos_args, named) = decode_arguments(&invs[k].args);
                    let ghost dargs = decode_spec(fullpre.last().args).0;
                    proof {
                        assert(vals_views(pos_args@) == dargs);
                    }
                    let wcopy = sub_bytes(word, 0, word.len());
                    let scopy: Option<Vec<u8>> = match section {
                        Some(sv) => Some(sub_bytes(sv, 0, sv.len())),
                        None => None,
                    };
                    proof {
                        assert(wcopy@ =~= word@);
                        match section {
                            Some(sv) => {
                                assert(scopy->Some_0@ =~= sv@);
                            },
                            None => {},
                        }
                        assert(sec_view(scopy) == sec);
                    }
                    let cxt = TemplateContext {
                        word: wcopy,
                        section: scopy,
                        args: pos_args,
                        kwargs: named,
                    };
                    match h {
                        Handler::PluralOf => {
                            let _ = plural_of(view, cxt);
                        },
                        Handler::AltForms => {
                            let _ = alt_forms(view, cxt);
                        },
                        Handler::Alter => {
                            let _ = alter(view, cxt);
                        },
                    }
                    proof {
                        assert(view@ == apply_handler(h, vpre, word@, sec, dargs));
                        assert(view@ == apply_invocation(vpre, word@, sec, fullpre.last()));
                    }
                } else {
                    proof {
                        assert(view@ == apply_invocation(vpre, word@, sec, fullpre.last()));
                    }
                }
            },
        }
        proof {
            assert(view@ == apply_invocations(v0, word@, sec, fullpre));
        }
        k = k + 1;
    }
    proof {
        assert(found.take(invs@.len() as int) =~= found);
    }
    match section {
        Some(sv) => {
            if is_pos_header(sv) {
                let id = view.word_id(word);
                view.add_pos(sv, id);
            }
        },
        None => {},
    }
    proof {
        assert(view@ == apply_pos(apply_invocations(v0, word@, sec, found), word@, sec));
    }
    Ok(())
}


} // verus!
