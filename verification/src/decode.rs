//! Decoding of one invocation's raw argument list into a dense positional
//! sequence and a name-to-value mapping, resolving explicit numeric
//! overrides against a running implicit position counter.

use vstd::prelude::*;

use crate::bytes::{bytes_eq, is_numeric_name, numeric_name_value, parse_index, trim_bytes,
    trim_spec};
use crate::template::{args_views, RawArg};

verus! {

/// The views of a positional argument vector.
pub open spec fn vals_views(s: Seq<Vec<u8>>) -> Seq<Seq<u8>> {
    s.map_values(|x: Vec<u8>| x@)
}

/// The mapping a list of named-argument pairs denotes: a later pair with the
/// same name wins.
pub open spec fn named_map(s: Seq<(Vec<u8>, Vec<u8>)>) -> Map<Seq<u8>, Seq<u8>>
    decreases s.len(),
{
    if s.len() == 0 {
        Map::empty()
    } else {
        named_map(s.drop_last()).insert(s.last().0@, s.last().1@)
    }
}

proof fn lemma_named_absent(s: Seq<(Vec<u8>, Vec<u8>)>, k: Seq<u8>)
    requires
        forall|p: int| 0 <= p < s.len() ==> (#[trigger] s[p]).0@ != k,
    ensures
        !named_map(s).contains_key(k),
    decreases s.len(),
{
    if s.len() > 0 {
        assert(forall|p: int| 0 <= p < s.drop_last().len() ==> (#[trigger] s.drop_last()[p]).0@
            != k);
        lemma_named_absent(s.drop_last(), k);
    }
}

proof fn lemma_named_last(s: Seq<(Vec<u8>, Vec<u8>)>, p: int)
    requires
        0 <= p < s.len(),
        forall|q: int| p < q < s.len() ==> (#[trigger] s[q]).0@ != s[p].0@,
    ensures
        named_map(s).contains_key(s[p].0@),
        named_map(s)[s[p].0@] == s[p].1@,
    decreases s.len(),
{
    if p == s.len() - 1 {
    } else {
        assert(s.drop_last()[p] == s[p]);
        assert(forall|q: int| p < q < s.drop_last().len() ==> (#[trigger] s.drop_last()[q]).0@
            != s[p].0@);
        lemma_named_last(s.drop_last(), p);
        assert(s.last().0@ != s[p].0@);
    }
}

/// The named arguments of one invocation.
pub struct NamedArgs {
    entries: Vec<(Vec<u8>, Vec<u8>)>,
}

impl View for NamedArgs {
    type V = Map<Seq<u8>, Seq<u8>>;

    closed spec fn view(&self) -> Map<Seq<u8>, Seq<u8>> {
        named_map(self.entries@)
    }
}

impl NamedArgs {
    /// An empty mapping.
    pub fn new() -> (r: NamedArgs)
        ensures
            r@ == Map::<Seq<u8>, Seq<u8>>::empty(),
    {
        NamedArgs { entries: Vec::new() }
    }

    /// Bind a name to a value; a later binding of the same name wins.
    pub fn insert(&mut self, k: Vec<u8>, v: Vec<u8>)
        ensures
            final(self)@ == old(self)@.insert(k@, v@),
    {
        self.entries.push((k, v));
        proof {
            assert(self.entries@.drop_last() =~= old(self).entries@);
        }
    }

    /// The value bound to a name, if any.
    pub fn get(&self, k: &[u8]) -> (r: Option<&Vec<u8>>)
        ensures
            match r {
                Some(v) => self@.contains_key(k@) && self@[k@] == v@,
                None => !self@.contains_key(k@),
            },
    {
        let mut p: usize = self.entries.len();
        while p > 0
            invariant
                p <= self.entries@.len(),
                forall|q: int| p <= q < self.entries@.len() ==> (#[trigger] self.entries@[q]).0@
                    != k@,
            decreases p,
        {
            p = p - 1;
            if bytes_eq(self.entries[p].0.as_slice(), k) {
                proof {
                    lemma_named_last(self.entries@, p as int);
                }
                return Some(&self.entries[p].1);
            }
        }
        proof {
            lemma_named_absent(self.entries@, k@);
        }
        None
    }
}

/// Place a value at a 0-based position, growing the sequence on demand with
/// empty placeholders.
pub open spec fn place_at(s: Seq<Seq<u8>>, idx: int, v: Seq<u8>) -> Seq<Seq<u8>> {
    if idx < s.len() {
        s.update(idx, v)
    } else {
        Seq::new(
            (idx + 1) as nat,
            |k: int|
                if k < s.len() {
                    s[k]
                } else if k == idx {
                    v
                } else {
                    Seq::empty()
                },
        )
    }
}

/// The decode of a raw argument list: the positional sequence, the named
/// mapping, and the next implicit 0-based position.
pub open spec fn decode_spec(args: Seq<(Option<Seq<u8>>, Seq<u8>)>) -> (
    Seq<Seq<u8>>,
    Map<Seq<u8>, Seq<u8>>,
    int,
)
    decreases args.len(),
{
    if args.len() == 0 {
        (Seq::empty(), Map::empty(), 0)
    } else {
        let (pos, named, next) = decode_spec(args.drop_last());
        let (name, value) = args.last();
        let tv = trim_spec(value);
        match name {
            None => (place_at(pos, next, tv), named, next + 1),
            Some(nm) => {
                let tn = trim_spec(nm);
                if is_numeric_name(tn) && numeric_name_value(tn) <= usize::MAX {
                    (place_at(pos, numeric_name_value(tn) - 1, tv), named, next)
                } else {
                    (pos, named.insert(tn, tv), next)
                }
            },
        }
    }
}

/// No explicit numeric argument name denotes zero: position numbering is
/// 1-based, so a zero override has no slot.
pub open spec fn decodable(args: Seq<(Option<Seq<u8>>, Seq<u8>)>) -> bool {
    forall|k: int|
        0 <= k < args.len() ==> match (#[trigger] args[k]).0 {
            Some(nm) => is_numeric_name(trim_spec(nm)) ==> numeric_name_value(trim_spec(nm)) >= 1,
            None => true,
        }
}

/// Test the condition under which a raw argument list can be decoded.
pub fn check_decodable(args: &Vec<RawArg>) -> (r: bool)
    ensures
        r == decodable(args_views(args@)),
{
    let ghost vs = args_views(args@);
    let mut k: usize = 0;
    while k < args.len()
        invariant
            vs == args_views(args@),
            0 <= k <= args@.len(),
            vs.len() == args@.len(),
            forall|m: int|
                0 <= m < k ==> match (#[trigger] vs[m]).0 {
                    Some(nm) => is_numeric_name(trim_spec(nm)) ==> numeric_name_value(
                        trim_spec(nm),
                    ) >= 1,
                    None => true,
                },
        decreases args@.len() - k,
    {
        match &args[k].name {
            Some(nm) => {
                let tn = trim_bytes(nm.as_slice());
                match parse_index(tn.as_slice()) {
                    Some(n) => {
                        if n == 0 {
                            proof {
                                assert(vs[k as int].0 == Some(nm@));
                            }
                            return false;
                        }
                    },
                    None => {},
                }
                proof {
                    assert(vs[k as int].0 == Some(nm@));
                }
            },
            None => {
                proof {
                    assert(vs[k as int].0 is None);
                }
            },
        }
        k = k + 1;
    }
    true
}

/// Grow the vector with empty placeholders as needed and set one position.
fn set_grow(v: &mut Vec<Vec<u8>>, idx: usize, val: Vec<u8>)
    requires
        idx < usize::MAX,
    ensures
        vals_views(final(v)@) == place_at(vals_views(old(v)@), idx as int, val@),
{
    while v.len() < idx + 1
        invariant
            idx < usize::MAX,
            v@.len() >= old(v)@.len(),
            v@.len() <= idx + 1 || v@.len() == old(v)@.len(),
            forall|m: int| 0 <= m < old(v)@.len() ==> v@[m] == #[trigger] old(v)@[m],
            forall|m: int| old(v)@.len() <= m < v@.len() ==> (#[trigger] v@[m])@ == Seq::<u8>::empty(),
        decreases idx + 1 - v@.len(),
    {
        let empty: Vec<u8> = Vec::new();
        v.push(empty);
    }
    v[idx] = val;
    proof {
        assert(vals_views(v@) =~= place_at(vals_views(old(v)@), idx as int, val@));
    }
}

/// Decode a raw ordered argument list: implicit positions count up from the
/// first slot, an explicit numeric name overrides a slot directly, and any
/// other explicit name binds in the named mapping (later bindings win).
/// Unfilled gaps hold the empty placeholder; names and values are trimmed.
pub fn decode_arguments(args: &Vec<RawArg>) -> (r: (Vec<Vec<u8>>, NamedArgs))
    requires
        decodable(args_views(args@)),
    ensures
        ({
            let (pos, named, next) = decode_spec(args_views(args@));
            vals_views(r.0@) == pos && r.1@ == named
        }),
{
    let ghost vs = args_views(args@);
    let mut nargs: Vec<Vec<u8>> = Vec::new();
    let mut kwargs = NamedArgs::new();
    let mut next: usize = 0;
    let mut k: usize = 0;
    proof {
        assert(vals_views(nargs@) =~= Seq::<Seq<u8>>::empty());
        assert(vs.take(0) =~= Seq::<(Option<Seq<u8>>, Seq<u8>)>::empty());
    }
    while k < args.len()
        invariant
            vs == args_views(args@),
            decodable(vs),
            vs.len() == args@.len(),
            0 <= k <= args@.len(),
            next <= k,
            ({
                let (pos, named, c) = decode_spec(vs.take(k as int));
                vals_views(nargs@) == pos && kwargs@ == named && next == c
            }),
        decreases args@.len() - k,
    {
        let ghost prefix = vs.take(k as int);
        let ghost full = vs.take(k + 1);
        proof {
            assert(full.drop_last() =~= prefix);
            assert(full.last() == vs[k as int]);
        }
        let tv = trim_bytes(args[k].value.as_slice());
        match &args[k].name {
            None => {
                proof {
                    assert(vs[k as int].0 is None && vs[k as int].1 == args@[k as int].value@);
                }
                set_grow(&mut nargs, next, tv);
                next = next + 1;
            },
            Some(nm) => {
                let tn = trim_bytes(nm.as_slice());
                proof {
                    assert(vs[k as int].0 == Some(nm@) && vs[k as int].1 == args@[k as int].value@);
                }
                match parse_index(tn.as_slice()) {
                    Some(n) => {
                        proof {
                            assert(is_numeric_name(trim_spec(nm@)) && n == numeric_name_value(
                                trim_spec(nm@),
                            ));
                            assert(n >= 1);
                        }
                        set_grow(&mut nargs, n - 1, tv);
                    },
                    None => {
                        kwargs.insert(tn, tv);
                    },
                }
            },
        }
        k = k + 1;
    }
    proof {
        assert(vs.take(vs.len() as int) =~= vs);
    }
    (nargs, kwargs)
}

} // verus!
