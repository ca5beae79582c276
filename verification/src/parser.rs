//! The specifications and priorities of the `#[token]` and `#[regex]`
//! attributes of a lexer's variants.
use crate::regex::{converts, parse_outcome, parse_pattern, Regex};
use crate::specification::{
    bytes_to_specifications, is_str_specification, priority_fits, priority_of,
    Specification,
};
use vstd::prelude::*;
use vstd::string::StringSliceAdditionalSpecFns;

verus! {

/// `g` holds a look-around assertion somewhere.
pub open spec fn has_look(g: Regex) -> bool
    decreases g, 0nat,
{
    match g {
        Regex::Look => true,
        Regex::Repetition(rep) => has_look(*rep.sub),
        Regex::Capture(sub) => has_look(*sub),
        Regex::Concat(subs) => any_look(subs@),
        Regex::Alternation(subs) => any_look(subs@),
        _ => false,
    }
}

/// One of `gs` holds a look-around assertion.
pub open spec fn any_look(gs: Seq<Regex>) -> bool
    decreases gs, 1nat,
{
    if gs.len() == 0 {
        false
    } else {
        any_look(gs.drop_last()) || has_look(gs.last())
    }
}

/// An element of a sequence with a look-around assertion in a prefix has one.
proof fn lemma_any_look_prefix(gs: Seq<Regex>, n: int)
    requires
        0 <= n <= gs.len(),
        any_look(gs.take(n)),
    ensures
        any_look(gs),
    decreases gs.len() - n,
{
    if n < gs.len() {
        assert(gs.take(n + 1).drop_last() =~= gs.take(n));
        lemma_any_look_prefix(gs, n + 1);
    } else {
        assert(gs.take(n) =~= gs);
    }
}

/// The specification of `regex` as the attribute parser reads it: every
/// repetition becomes a loop, greedy or not; `None` when it holds a
/// look-around assertion.
pub fn specification_from_regex(regex: &Regex) -> (r: Option<Specification>)
    ensures
        match r {
            Some(s) => !has_look(*regex) && converts(*regex, s),
            None => has_look(*regex),
        },
    decreases regex, 0nat,
{
    match regex {
        Regex::Empty => Some(Specification::new_sequence(Vec::new())),
        Regex::Literal(bytes) => Some(Specification::new_sequence(bytes_to_specifications(bytes))),
        Regex::Bytes(_) | Regex::Unicode(_) => match Specification::try_from_regex(regex) {
            Ok(s) => Some(s),
            Err(_) => None,
        },
        Regex::Look => None,
        Regex::Repetition(rep) => match specification_from_regex(&rep.sub) {
            Some(inner) => {
                let max: Option<usize> = match rep.max {
                    Some(m) => Some(m as usize),
                    None => None,
                };
                Some(Specification::new_loop(rep.min as usize, max, inner))
            },
            None => None,
        },
        Regex::Capture(sub) => specification_from_regex(sub),
        Regex::Concat(subs) => match specifications_from_regexes(subs) {
            Some(v) => Some(Specification::new_sequence(v)),
            None => None,
        },
        Regex::Alternation(subs) => match specifications_from_regexes(subs) {
            Some(v) => Some(Specification::new_any(v)),
            None => None,
        },
    }
}

/// The specifications of `subs`, in order.
fn specifications_from_regexes(subs: &Vec<Regex>) -> (r: Option<Vec<Specification>>)
    ensures
        match r {
            Some(v) => !any_look(subs@) && crate::regex::all_convert(subs@, v@),
            None => any_look(subs@),
        },
    decreases subs, 1nat,
{
    let mut out: Vec<Specification> = Vec::new();
    let mut i: usize = 0;
    while i < subs.len()
        invariant
            i <= subs@.len(),
            !any_look(subs@.take(i as int)),
            crate::regex::all_convert(subs@.take(i as int), out@),
        decreases subs@.len() - i,
    {
        assert(subs@.take(i + 1).drop_last() =~= subs@.take(i as int));
        assert(decreases_to!(subs@ => subs@[i as int]));
        assert(decreases_to!(*subs => subs@[i as int]));
        match specification_from_regex(&subs[i]) {
            Some(s) => {
                let ghost before = out@;
                out.push(s);
                assert(out@.drop_last() =~= before);
            },
            None => {
                proof {
                    lemma_any_look_prefix(subs@, i as int + 1);
                }
                return None;
            },
        }
        i = i + 1;
    }
    assert(subs@.take(subs@.len() as int) =~= subs@);
    Some(out)
}

/// The specification of a `#[token]` string and its default priority;
/// `Err` when the priority does not fit in `usize`.
pub fn parse_token(value: &str) -> (r: Result<(Specification, usize), ()>)
    ensures
        match r {
            Ok((s, p)) => is_str_specification(s, value.spec_bytes()) && priority_fits(s) && p
                == priority_of(s),
            Err(()) => exists|s: Specification|
                is_str_specification(s, value.spec_bytes()) && !priority_fits(s),
        },
{
    let specification = Specification::new_str_sequence(value);
    match specification.checked_default_priority() {
        Some(priority) => Ok((specification, priority)),
        None => Err(()),
    }
}

/// The specification of a `#[regex]` pattern, read over UTF-8 text, and its
/// default priority. `Err` when the pattern does not parse, holds a
/// look-around assertion, nests too deeply, or its priority does not fit in
/// `usize`.
pub fn parse_regex(source: &str) -> (r: Result<(Specification, usize), ()>)
    ensures
        match parse_outcome(source@, true, true, false) {
            Ok(Some(g)) => match r {
                Ok((s, p)) => !has_look(g) && converts(g, s) && priority_fits(s) && p == priority_of(s),
                Err(()) => has_look(g) || exists|s: Specification| #[trigger] converts(g, s) && !priority_fits(s),
            },
            _ => r is Err,
        },
{
    let regex = match parse_pattern(source, true, true, false) {
        Ok(Some(regex)) => regex,
        _ => return Err(()),
    };
    let specification = match specification_from_regex(&regex) {
        Some(s) => s,
        None => return Err(()),
    };
    assert(!has_look(regex) && converts(regex, specification));
    match specification.checked_default_priority() {
        Some(priority) => Ok((specification, priority)),
        None => Err(()),
    }
}

} // verus!
