//! Recursive-descent scanner for `{{...}}` template invocations: it walks a
//! byte slice once, finds every completed invocation (nested ones
//! innermost-first), and records its trimmed name with the raw ordered
//! argument list. The argument decoder then turns a raw list into positional
//! and named views.

use vstd::prelude::*;

use crate::bytes::{find_spec, lemma_find_spec_some, trim_spec, find_from, matches_at, sub_bytes,
    trim_bytes};

verus! {

/// One raw argument: the explicit name left of a first `=`, if any, and the
/// raw value text.
pub struct RawArg {
    pub name: Option<Vec<u8>>,
    pub value: Vec<u8>,
}

/// What a raw argument abstracts to.
impl View for RawArg {
    type V = (Option<Seq<u8>>, Seq<u8>);

    open spec fn view(&self) -> (Option<Seq<u8>>, Seq<u8>) {
        (
            match self.name {
                Some(ref n) => Some(n@),
                None => None,
            },
            self.value@,
        )
    }
}

/// An abstract invocation: trimmed template name, raw arguments in source
/// order.
#[verifier::ext_equal]
pub struct InvS {
    pub name: Seq<u8>,
    pub args: Seq<(Option<Seq<u8>>, Seq<u8>)>,
}

/// One completed template invocation.
pub struct Invocation {
    pub name: Vec<u8>,
    pub args: Vec<RawArg>,
}

impl View for Invocation {
    type V = InvS;

    open spec fn view(&self) -> InvS {
        InvS { name: self.name@, args: self.args@.map_values(|a: RawArg| a@) }
    }
}

/// The views of a sequence of collected invocations.
pub open spec fn inv_views(s: Seq<Invocation>) -> Seq<InvS> {
    s.map_values(|v: Invocation| v@)
}

/// The structural input-format violation: a `{{{` sequence.
#[derive(Clone, Copy, Debug, PartialEq, Eq)]
pub enum ScanError {
    TripleBrace,
}

/// What scanning from a given state yields. `OutOfFuel` never describes a
/// real run: the fuel bound below always suffices.
pub enum ScanOutcome {
    OutOfFuel,
    Fatal,
    Ended { found: Seq<InvS> },
    Closed { found: Seq<InvS>, next: int },
}

/// A byte on which a delimiter test may be made: not a UTF-8 continuation
/// byte, so no multi-byte code point is ever split.
pub open spec fn is_boundary(b: u8) -> bool {
    b < 128 || b >= 192
}

/// `<nowiki>` as bytes.
pub open spec fn nowiki_open() -> Seq<u8> {
    seq![60u8, 110u8, 111u8, 119u8, 105u8, 107u8, 105u8, 62u8]
}

/// `</nowiki>` as bytes.
pub open spec fn nowiki_close() -> Seq<u8> {
    seq![60u8, 47u8, 110u8, 111u8, 119u8, 105u8, 107u8, 105u8, 62u8]
}

/// `<math>` as bytes.
pub open spec fn math_open() -> Seq<u8> {
    seq![60u8, 109u8, 97u8, 116u8, 104u8, 62u8]
}

/// `</math>` as bytes.
pub open spec fn math_close() -> Seq<u8> {
    seq![60u8, 47u8, 109u8, 97u8, 116u8, 104u8, 62u8]
}

/// One level of the scan, from cursor `i`, with `start` the current
/// argument's first byte, `argname` a pending explicit name, and `args` the
/// completed arguments of the innermost open invocation. Yields every
/// invocation completed from here on at this level or deeper, in completion
/// order, and where a `}}` closes this level, the cursor position past it.
pub open spec fn scan(
    text: Seq<u8>,
    fuel: nat,
    i: int,
    start: int,
    argname: Option<Seq<u8>>,
    args: Seq<(Option<Seq<u8>>, Seq<u8>)>,
) -> ScanOutcome
    decreases fuel,
{
    if fuel == 0 {
        ScanOutcome::OutOfFuel
    } else {
        let len = text.len() as int;
        if i >= len {
            ScanOutcome::Ended { found: Seq::empty() }
        } else if !is_boundary(text[i]) {
            scan(text, (fuel - 1) as nat, i + 1, start, argname, args)
        } else if text[i] == 61 && argname is None {
            scan(text, (fuel - 1) as nat, i + 1, i + 1, Some(text.subrange(start, i)), args)
        } else if text[i] == 124 {
            scan(
                text,
                (fuel - 1) as nat,
                i + 1,
                i + 1,
                None,
                args.push((argname, text.subrange(start, i))),
            )
        } else if i + 2 < len && text[i] == 123 && text[i + 1] == 123 && text[i + 2] == 123 {
            ScanOutcome::Fatal
        } else if i + 1 < len && text[i] == 123 && text[i + 1] == 123 {
            match scan(text, (fuel - 1) as nat, i + 2, i + 2, None, Seq::empty()) {
                ScanOutcome::OutOfFuel => ScanOutcome::OutOfFuel,
                ScanOutcome::Fatal => ScanOutcome::Fatal,
                ScanOutcome::Ended { found } => ScanOutcome::Ended { found },
                ScanOutcome::Closed { found, next } => {
                    match scan(text, (fuel - 1) as nat, next, start, argname, args) {
                        ScanOutcome::OutOfFuel => ScanOutcome::OutOfFuel,
                        ScanOutcome::Fatal => ScanOutcome::Fatal,
                        ScanOutcome::Ended { found: after } => ScanOutcome::Ended {
                            found: found + after,
                        },
                        ScanOutcome::Closed { found: after, next: close } => ScanOutcome::Closed {
                            found: found + after,
                            next: close,
                        },
                    }
                },
            }
        } else if i + 1 < len && text[i] == 125 && text[i + 1] == 125 {
            let all = args.push((argname, text.subrange(start, i)));
            let inv = InvS { name: trim_spec(all[0].1), args: all.drop_first() };
            ScanOutcome::Closed { found: seq![inv], next: i + 2 }
        } else if i + 7 < len && text.subrange(i, i + 8) == nowiki_open() {
            match find_spec(text, nowiki_close(), i + 8) {
                Some(at) => scan(text, (fuel - 1) as nat, at + 9, start, argname, args),
                None => scan(text, (fuel - 1) as nat, len, start, argname, args),
            }
        } else if i + 5 < len && text.subrange(i, i + 6) == math_open() {
            match find_spec(text, math_close(), i + 6) {
                Some(at) => scan(text, (fuel - 1) as nat, at + 7, start, argname, args),
                None => scan(text, (fuel - 1) as nat, len, start, argname, args),
            }
        } else {
            scan(text, (fuel - 1) as nat, i + 1, start, argname, args)
        }
    }
}

/// Fuel that always suffices to scan the whole slice.
pub open spec fn fuel_for(text: Seq<u8>) -> nat {
    (2 * text.len() + 2) as nat
}

/// The scan from a state, with ample fuel.
pub open spec fn scan_total(
    text: Seq<u8>,
    i: int,
    start: int,
    argname: Option<Seq<u8>>,
    args: Seq<(Option<Seq<u8>>, Seq<u8>)>,
) -> ScanOutcome {
    scan(text, fuel_for(text), i, start, argname, args)
}

/// The scan of a whole slice, as the public entry point performs it.
pub open spec fn scan_text(text: Seq<u8>) -> ScanOutcome {
    scan_total(text, 0, 0, None, Seq::empty())
}

/// A level closed by `}}` ends past where it began, within the slice.
pub proof fn lemma_scan_closed_bounds(
    text: Seq<u8>,
    fuel: nat,
    i: int,
    start: int,
    argname: Option<Seq<u8>>,
    args: Seq<(Option<Seq<u8>>, Seq<u8>)>,
)
    requires
        scan(text, fuel, i, start, argname, args) is Closed,
    ensures
        i + 2 <= scan(text, fuel, i, start, argname, args)->next <= text.len(),
    decreases fuel,
{
    let len = text.len() as int;
    if fuel == 0 || i >= len {
    } else if !is_boundary(text[i]) {
        lemma_scan_closed_bounds(text, (fuel - 1) as nat, i + 1, start, argname, args);
    } else if text[i] == 61 && argname is None {
        lemma_scan_closed_bounds(
            text,
            (fuel - 1) as nat,
            i + 1,
            i + 1,
            Some(text.subrange(start, i)),
            args,
        );
    } else if text[i] == 124 {
        lemma_scan_closed_bounds(
            text,
            (fuel - 1) as nat,
            i + 1,
            i + 1,
            None,
            args.push((argname, text.subrange(start, i))),
        );
    } else if i + 2 < len && text[i] == 123 && text[i + 1] == 123 && text[i + 2] == 123 {
    } else if i + 1 < len && text[i] == 123 && text[i + 1] == 123 {
        match scan(text, (fuel - 1) as nat, i + 2, i + 2, None, Seq::empty()) {
            ScanOutcome::Closed { found, next } => {
                lemma_scan_closed_bounds(text, (fuel - 1) as nat, i + 2, i + 2, None, Seq::empty());
                match scan(text, (fuel - 1) as nat, next, start, argname, args) {
                    ScanOutcome::Closed { .. } => {
                        lemma_scan_closed_bounds(
                            text,
                            (fuel - 1) as nat,
                            next,
                            start,
                            argname,
                            args,
                        );
                    },
                    _ => {},
                }
            },
            _ => {},
        }
    } else if i + 1 < len && text[i] == 125 && text[i + 1] == 125 {
    } else if i + 7 < len && text.subrange(i, i + 8) == nowiki_open() {
        match find_spec(text, nowiki_close(), i + 8) {
            Some(at) => {
                lemma_find_spec_some(text, nowiki_close(), i + 8, at);
                lemma_scan_closed_bounds(text, (fuel - 1) as nat, at + 9, start, argname, args);
            },
            None => {
                lemma_scan_closed_bounds(text, (fuel - 1) as nat, len, start, argname, args);
            },
        }
    } else if i + 5 < len && text.subrange(i, i + 6) == math_open() {
        match find_spec(text, math_close(), i + 6) {
            Some(at) => {
                lemma_find_spec_some(text, math_close(), i + 6, at);
                lemma_scan_closed_bounds(text, (fuel - 1) as nat, at + 7, start, argname, args);
            },
            None => {
                lemma_scan_closed_bounds(text, (fuel - 1) as nat, len, start, argname, args);
            },
        }
    } else {
        lemma_scan_closed_bounds(text, (fuel - 1) as nat, i + 1, start, argname, args);
    }
}

/// With fuel at least twice the remaining length plus two, the scan
/// completes.
pub proof fn lemma_scan_defined(
    text: Seq<u8>,
    fuel: nat,
    i: int,
    start: int,
    argname: Option<Seq<u8>>,
    args: Seq<(Option<Seq<u8>>, Seq<u8>)>,
)
    requires
        0 <= i <= text.len(),
        fuel >= 2 * (text.len() - i) + 2,
    ensures
        !(scan(text, fuel, i, start, argname, args) is OutOfFuel),
    decreases fuel,
{
    let len = text.len() as int;
    if i >= len {
    } else if !is_boundary(text[i]) {
        lemma_scan_defined(text, (fuel - 1) as nat, i + 1, start, argname, args);
    } else if text[i] == 61 && argname is None {
        lemma_scan_defined(
            text,
            (fuel - 1) as nat,
            i + 1,
            i + 1,
            Some(text.subrange(start, i)),
            args,
        );
    } else if text[i] == 124 {
        lemma_scan_defined(
            text,
            (fuel - 1) as nat,
            i + 1,
            i + 1,
            None,
            args.push((argname, text.subrange(start, i))),
        );
    } else if i + 2 < len && text[i] == 123 && text[i + 1] == 123 && text[i + 2] == 123 {
    } else if i + 1 < len && text[i] == 123 && text[i + 1] == 123 {
        lemma_scan_defined(text, (fuel - 1) as nat, i + 2, i + 2, None, Seq::empty());
        match scan(text, (fuel - 1) as nat, i + 2, i + 2, None, Seq::empty()) {
            ScanOutcome::Closed { found, next } => {
                lemma_scan_closed_bounds(text, (fuel - 1) as nat, i + 2, i + 2, None, Seq::empty());
                lemma_scan_defined(text, (fuel - 1) as nat, next, start, argname, args);
            },
            _ => {},
        }
    } else if i + 1 < len && text[i] == 125 && text[i + 1] == 125 {
    } else if i + 7 < len && text.subrange(i, i + 8) == nowiki_open() {
        match find_spec(text, nowiki_close(), i + 8) {
            Some(at) => {
                lemma_find_spec_some(text, nowiki_close(), i + 8, at);
                lemma_scan_defined(text, (fuel - 1) as nat, at + 9, start, argname, args);
            },
            None => {
                lemma_scan_defined(text, (fuel - 1) as nat, len, start, argname, args);
            },
        }
    } else if i + 5 < len && text.subrange(i, i + 6) == math_open() {
        match find_spec(text, math_close(), i + 6) {
            Some(at) => {
                lemma_find_spec_some(text, math_close(), i + 6, at);
                lemma_scan_defined(text, (fuel - 1) as nat, at + 7, start, argname, args);
            },
            None => {
                lemma_scan_defined(text, (fuel - 1) as nat, len, start, argname, args);
            },
        }
    } else {
        lemma_scan_defined(text, (fuel - 1) as nat, i + 1, start, argname, args);
    }
}

/// Once the fuel suffices, more fuel does not change the outcome.
pub proof fn lemma_scan_fuel_mono(
    text: Seq<u8>,
    f1: nat,
    f2: nat,
    i: int,
    start: int,
    argname: Option<Seq<u8>>,
    args: Seq<(Option<Seq<u8>>, Seq<u8>)>,
)
    requires
        !(scan(text, f1, i, start, argname, args) is OutOfFuel),
        f1 <= f2,
    ensures
        scan(text, f2, i, start, argname, args) == scan(text, f1, i, start, argname, args),
    decreases f1,
{
    let len = text.len() as int;
    if i >= len {
    } else if !is_boundary(text[i]) {
        lemma_scan_fuel_mono(text, (f1 - 1) as nat, (f2 - 1) as nat, i + 1, start, argname, args);
    } else if text[i] == 61 && argname is None {
        lemma_scan_fuel_mono(
            text,
            (f1 - 1) as nat,
            (f2 - 1) as nat,
            i + 1,
            i + 1,
            Some(text.subrange(start, i)),
            args,
        );
    } else if text[i] == 124 {
        lemma_scan_fuel_mono(
            text,
            (f1 - 1) as nat,
            (f2 - 1) as nat,
            i + 1,
            i + 1,
            None,
            args.push((argname, text.subrange(start, i))),
        );
    } else if i + 2 < len && text[i] == 123 && text[i + 1] == 123 && text[i + 2] == 123 {
    } else if i + 1 < len && text[i] == 123 && text[i + 1] == 123 {
        lemma_scan_fuel_mono(
            text,
            (f1 - 1) as nat,
            (f2 - 1) as nat,
            i + 2,
            i + 2,
            None,
            Seq::empty(),
        );
        match scan(text, (f1 - 1) as nat, i + 2, i + 2, None, Seq::empty()) {
            ScanOutcome::Closed { found, next } => {
                lemma_scan_fuel_mono(
                    text,
                    (f1 - 1) as nat,
                    (f2 - 1) as nat,
                    next,
                    start,
                    argname,
                    args,
                );
            },
            _ => {},
        }
    } else if i + 1 < len && text[i] == 125 && text[i + 1] == 125 {
    } else if i + 7 < len && text.subrange(i, i + 8) == nowiki_open() {
        match find_spec(text, nowiki_close(), i + 8) {
            Some(at) => {
                lemma_scan_fuel_mono(
                    text,
                    (f1 - 1) as nat,
                    (f2 - 1) as nat,
                    at + 9,
                    start,
                    argname,
                    args,
                );
            },
            None => {
                lemma_scan_fuel_mono(text, (f1 - 1) as nat, (f2 - 1) as nat, len, start, argname, args);
            },
        }
    } else if i + 5 < len && text.subrange(i, i + 6) == math_open() {
        match find_spec(text, math_close(), i + 6) {
            Some(at) => {
                lemma_scan_fuel_mono(
                    text,
                    (f1 - 1) as nat,
                    (f2 - 1) as nat,
                    at + 7,
                    start,
                    argname,
                    args,
                );
            },
            None => {
                lemma_scan_fuel_mono(text, (f1 - 1) as nat, (f2 - 1) as nat, len, start, argname, args);
            },
        }
    } else {
        lemma_scan_fuel_mono(text, (f1 - 1) as nat, (f2 - 1) as nat, i + 1, start, argname, args);
    }
}

/// Any fuel at least twice the remaining length plus two gives the ample
/// outcome.
pub proof fn lemma_scan_total_eq(
    text: Seq<u8>,
    fuel: nat,
    i: int,
    start: int,
    argname: Option<Seq<u8>>,
    args: Seq<(Option<Seq<u8>>, Seq<u8>)>,
)
    requires
        0 <= i <= text.len(),
        fuel >= 2 * (text.len() - i) + 2,
    ensures
        scan(text, fuel, i, start, argname, args) == scan_total(text, i, start, argname, args),
{
    lemma_scan_defined(text, fuel, i, start, argname, args);
    if fuel <= fuel_for(text) {
        lemma_scan_fuel_mono(text, fuel, fuel_for(text), i, start, argname, args);
    } else {
        lemma_scan_defined(text, fuel_for(text), i, start, argname, args);
        lemma_scan_fuel_mono(text, fuel_for(text), fuel, i, start, argname, args);
    }
}

/// The view of a pending explicit argument name.
pub open spec fn opt_view(o: Option<Vec<u8>>) -> Option<Seq<u8>> {
    match o {
        Some(v) => Some(v@),
        None => None,
    }
}

/// The views of the collected raw arguments.
pub open spec fn args_views(s: Seq<RawArg>) -> Seq<(Option<Seq<u8>>, Seq<u8>)> {
    s.map_values(|a: RawArg| a@)
}

/// Emissions already made at a level, prefixed onto what the rest of the
/// level yields.
pub open spec fn combine(pre: Seq<InvS>, o: ScanOutcome) -> ScanOutcome {
    match o {
        ScanOutcome::OutOfFuel => ScanOutcome::OutOfFuel,
        ScanOutcome::Fatal => ScanOutcome::Fatal,
        ScanOutcome::Ended { found } => ScanOutcome::Ended { found: pre + found },
        ScanOutcome::Closed { found, next } => ScanOutcome::Closed { found: pre + found, next },
    }
}

fn pat_nowiki_open() -> (r: Vec<u8>)
    ensures
        r@ == nowiki_open(),
{
    let mut v: Vec<u8> = Vec::new();
    v.push(60);
    v.push(110);
    v.push(111);
    v.push(119);
    v.push(105);
    v.push(107);
    v.push(105);
    v.push(62);
    proof {
        assert(v@ =~= nowiki_open());
    }
    v
}

fn pat_nowiki_close() -> (r: Vec<u8>)
    ensures
        r@ == nowiki_close(),
{
    let mut v: Vec<u8> = Vec::new();
    v.push(60);
    v.push(47);
    v.push(110);
    v.push(111);
    v.push(119);
    v.push(105);
    v.push(107);
    v.push(105);
    v.push(62);
    proof {
        assert(v@ =~= nowiki_close());
    }
    v
}

fn pat_math_open() -> (r: Vec<u8>)
    ensures
        r@ == math_open(),
{
    let mut v: Vec<u8> = Vec::new();
    v.push(60);
    v.push(109);
    v.push(97);
    v.push(116);
    v.push(104);
    v.push(62);
    proof {
        assert(v@ =~= math_open());
    }
    v
}

fn pat_math_close() -> (r: Vec<u8>)
    ensures
        r@ == math_close(),
{
    let mut v: Vec<u8> = Vec::new();
    v.push(60);
    v.push(47);
    v.push(109);
    v.push(97);
    v.push(116);
    v.push(104);
    v.push(62);
    proof {
        assert(v@ =~= math_close());
    }
    v
}

/// One level of the scan, appending every invocation completed at this level
/// or deeper to `out` in completion order. Returns the cursor position at
/// which the level ended, or the structural error on a `{{{`.
pub fn process_templates_inner(text: &[u8], from: usize, out: &mut Vec<Invocation>) -> (r: Result<
    usize,
    ScanError,
>)
    requires
        from <= text@.len(),
    ensures
        match r {
            Ok(pos) => pos <= text@.len() && (match scan_total(
                text@,
                from as int,
                from as int,
                None,
                Seq::empty(),
            ) {
                ScanOutcome::Ended { found } => pos == text@.len() && inv_views(final(out)@)
                    == inv_views(old(out)@) + found,
                ScanOutcome::Closed { found, next } => pos == next && inv_views(final(out)@)
                    == inv_views(old(out)@) + found,
                _ => false,
            }),
            Err(_) => scan_total(text@, from as int, from as int, None, Seq::empty()) is Fatal,
        },
    decreases text@.len() - from,
{
    let ghost target = scan_total(text@, from as int, from as int, None, Seq::empty());
    let pno = pat_nowiki_open();
    let pnc = pat_nowiki_close();
    let pmo = pat_math_open();
    let pmc = pat_math_close();
    let mut i: usize = from;
    let mut start: usize = from;
    let mut argname: Option<Vec<u8>> = None;
    let mut args: Vec<RawArg> = Vec::new();
    let ghost mut acc: Seq<InvS> = Seq::empty();
    proof {
        assert(args_views(args@) =~= Seq::<(Option<Seq<u8>>, Seq<u8>)>::empty());
        assert((inv_views(old(out)@) + acc) =~= inv_views(old(out)@));
        match target {
            ScanOutcome::Ended { found } => {
                assert((Seq::<InvS>::empty() + found) =~= found);
            },
            ScanOutcome::Closed { found, next } => {
                assert((Seq::<InvS>::empty() + found) =~= found);
            },
            _ => {},
        }
    }
    while i < text.len()
        invariant
            from <= start <= i <= text@.len(),
            pno@ == nowiki_open(),
            pnc@ == nowiki_close(),
            pmo@ == math_open(),
            pmc@ == math_close(),
            target == scan_total(text@, from as int, from as int, None, Seq::empty()),
            inv_views(out@) == inv_views(old(out)@) + acc,
            combine(
                acc,
                scan_total(
                    text@,
                    i as int,
                    start as int,
                    opt_view(argname),
                    args_views(args@),
                ),
            ) == target,
        decreases text@.len() - i,
    {
        let ghost cur = scan_total(
            text@,
            i as int,
            start as int,
            opt_view(argname),
            args_views(args@),
        );
        let b = text[i];
        if b >= 128 && b < 192 {
            proof {
                lemma_scan_total_eq(
                    text@,
                    (fuel_for(text@) - 1) as nat,
                    i + 1,
                    start as int,
                    opt_view(argname),
                    args_views(args@),
                );
            }
            i = i + 1;
        } else if b == 61 && argname.is_none() {
            let nm = sub_bytes(text, start, i);
            proof {
                lemma_scan_total_eq(
                    text@,
                    (fuel_for(text@) - 1) as nat,
                    i + 1,
                    i + 1,
                    Some(text@.subrange(start as int, i as int)),
                    args_views(args@),
                );
            }
            argname = Some(nm);
            start = i + 1;
            i = i + 1;
        } else if b == 124 {
            let val = sub_bytes(text, start, i);
            let nm = argname;
            let ghost old_args = args_views(args@);
            argname = None;
            args.push(RawArg { name: nm, value: val });
            proof {
                assert(args_views(args@) =~= old_args.push(
                    (opt_view(nm), text@.subrange(start as int, i as int)),
                ));
                lemma_scan_total_eq(
                    text@,
                    (fuel_for(text@) - 1) as nat,
                    i + 1,
                    i + 1,
                    None,
                    args_views(args@),
                );
            }
            start = i + 1;
            i = i + 1;
        } else if text.len() - i > 2 && b == 123 && text[i + 1] == 123 && text[i + 2] == 123 {
            proof {
                assert(cur is Fatal);
            }
            return Err(ScanError::TripleBrace);
        } else if text.len() - i > 1 && b == 123 && text[i + 1] == 123 {
            let ghost nested = scan_total(text@, i + 2, i + 2, None, Seq::empty());
            proof {
                lemma_scan_total_eq(
                    text@,
                    (fuel_for(text@) - 1) as nat,
                    i + 2,
                    i + 2,
                    None,
                    Seq::empty(),
                );
            }
            match process_templates_inner(text, i + 2, out) {
                Err(e) => {
                    proof {
                        assert(cur is Fatal);
                    }
                    return Err(e);
                },
                Ok(pos) => {
                    proof {
                        let acc0 = acc;
                        match nested {
                            ScanOutcome::Ended { found } => {
                                assert(cur == ScanOutcome::Ended { found });
                                acc = acc + found;
                                assert(((inv_views(old(out)@) + acc0) + found) =~= (inv_views(
                                    old(out)@,
                                ) + acc));
                                assert(scan_total(
                                    text@,
                                    text@.len() as int,
                                    start as int,
                                    opt_view(argname),
                                    args_views(args@),
                                ) == (ScanOutcome::Ended { found: Seq::<InvS>::empty() }));
                                assert((acc + Seq::<InvS>::empty()) =~= acc);
                                assert((acc0 + found) =~= acc);
                            },
                            ScanOutcome::Closed { found, next } => {
                                lemma_scan_closed_bounds(
                                    text@,
                                    fuel_for(text@),
                                    i + 2,
                                    i + 2,
                                    None,
                                    Seq::empty(),
                                );
                                lemma_scan_total_eq(
                                    text@,
                                    (fuel_for(text@) - 1) as nat,
                                    next,
                                    start as int,
                                    opt_view(argname),
                                    args_views(args@),
                                );
                                let rest = scan_total(
                                    text@,
                                    next,
                                    start as int,
                                    opt_view(argname),
                                    args_views(args@),
                                );
                                assert(cur == combine(found, rest));
                                acc = acc + found;
                                assert(((inv_views(old(out)@) + acc0) + found) =~= (inv_views(
                                    old(out)@,
                                ) + acc));
                                match rest {
                                    ScanOutcome::Ended { found: after } => {
                                        assert((acc0 + (found + after)) =~= (acc + after));
                                    },
                                    ScanOutcome::Closed { found: after, next: close } => {
                                        assert((acc0 + (found + after)) =~= (acc + after));
                                    },
                                    _ => {},
                                }
                            },
                            _ => {},
                        }
                    }
                    i = pos;
                },
            }
        } else if text.len() - i > 1 && b == 125 && text[i + 1] == 125 {
            let val = sub_bytes(text, start, i);
            let nm = argname;
            let ghost old_args = args_views(args@);
            args.push(RawArg { name: nm, value: val });
            let ghost all = args_views(args@);
            proof {
                assert(all =~= old_args.push(
                    (opt_view(nm), text@.subrange(start as int, i as int)),
                ));
            }
            let first = args.remove(0);
            let name = trim_bytes(first.value.as_slice());
            let inv = Invocation { name, args };
            out.push(inv);
            proof {
                let spec_inv = InvS { name: trim_spec(all[0].1), args: all.drop_first() };
                assert(inv@.args =~= all.drop_first());
                assert(inv@ =~= spec_inv);
                assert(cur == ScanOutcome::Closed { found: seq![spec_inv], next: i + 2 });
                assert(inv_views(out@) =~= (inv_views(old(out)@) + acc).push(inv@));
                assert(((inv_views(old(out)@) + acc).push(inv@)) =~= (inv_views(old(out)@) + (acc
                    + seq![inv@])));
                assert((acc + seq![inv@]) =~= (acc + seq![spec_inv]));
                assert(target == ScanOutcome::Closed { found: acc + seq![spec_inv], next: i + 2 });
            }
            return Ok(i + 2);
        } else if matches_at(text, i, pno.as_slice()) {
            match find_from(text, i + 8, pnc.as_slice()) {
                Some(at) => {
                    proof {
                        lemma_find_spec_some(text@, nowiki_close(), i + 8, at as int);
                        lemma_scan_total_eq(
                            text@,
                            (fuel_for(text@) - 1) as nat,
                            at + 9,
                            start as int,
                            opt_view(argname),
                            args_views(args@),
                        );
                    }
                    i = at + 9;
                },
                None => {
                    proof {
                        lemma_scan_total_eq(
                            text@,
                            (fuel_for(text@) - 1) as nat,
                            text@.len() as int,
                            start as int,
                            opt_view(argname),
                            args_views(args@),
                        );
                    }
                    i = text.len();
                },
            }
        } else if matches_at(text, i, pmo.as_slice()) {
            match find_from(text, i + 6, pmc.as_slice()) {
                Some(at) => {
                    proof {
                        lemma_find_spec_some(text@, math_close(), i + 6, at as int);
                        lemma_scan_total_eq(
                            text@,
                            (fuel_for(text@) - 1) as nat,
                            at + 7,
                            start as int,
                            opt_view(argname),
                            args_views(args@),
                        );
                    }
                    i = at + 7;
                },
                None => {
                    proof {
                        lemma_scan_total_eq(
                            text@,
                            (fuel_for(text@) - 1) as nat,
                            text@.len() as int,
                            start as int,
                            opt_view(argname),
                            args_views(args@),
                        );
                    }
                    i = text.len();
                },
            }
        } else {
            proof {
                lemma_scan_total_eq(
                    text@,
                    (fuel_for(text@) - 1) as nat,
                    i + 1,
                    start as int,
                    opt_view(argname),
                    args_views(args@),
                );
            }
            i = i + 1;
        }
    }
    proof {
        assert(scan_total(text@, i as int, start as int, opt_view(argname), args_views(args@))
            == (ScanOutcome::Ended { found: Seq::<InvS>::empty() }));
        assert((acc + Seq::<InvS>::empty()) =~= acc);
        assert(target == (ScanOutcome::Ended { found: acc }));
    }
    Ok(i)
}

/// Scan a whole slice: every completed invocation, in completion order
/// (nested invocations complete first), or the structural error where a
/// `{{{` occurs.
pub fn process_templates(text: &[u8]) -> (r: Result<Vec<Invocation>, ScanError>)
    ensures
        match r {
            Ok(invs) => (match scan_text(text@) {
                ScanOutcome::Ended { found } => inv_views(invs@) == found,
                ScanOutcome::Closed { found, next } => inv_views(invs@) == found,
                _ => false,
            }),
            Err(_) => scan_text(text@) is Fatal,
        },
{
    let mut out: Vec<Invocation> = Vec::new();
    proof {
        assert(inv_views(out@) =~= Seq::<InvS>::empty());
    }
    match process_templates_inner(text, 0, &mut out) {
        Ok(_) => {
            proof {
                match scan_text(text@) {
                    ScanOutcome::Ended { found } => {
                        assert((Seq::<InvS>::empty() + found) =~= found);
                    },
                    ScanOutcome::Closed { found, next } => {
                        assert((Seq::<InvS>::empty() + found) =~= found);
                    },
                    _ => {},
                }
            }
            Ok(out)
        },
        Err(e) => Err(e),
    }
}

} // verus!
