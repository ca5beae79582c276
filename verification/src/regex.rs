//! Specifications from regular expressions: a parsed expression is read into
//! a [`Regex`] of plain values, and a `Regex` is turned into a
//! [`Specification`] or refused.
use crate::specification::{
    byte_specifications, bytes_to_specifications, byte_span, is_str_specification, Specification,
};
use regex_syntax::hir::{Class, Hir, HirKind};
use regex_syntax::ParserBuilder;
use vstd::prelude::*;
use vstd::utf8::{encode_scalar, is_scalar};

verus! {

#[verifier::external_type_specification]
#[verifier::external_body]
pub struct ExHir(Hir);

#[verifier::external_type_specification]
#[verifier::external_body]
pub struct ExClass(Class);

/// What `regex_syntax`'s parser gives for `source` under these settings:
/// the parsed expression read into a [`Regex`] (`None` when it nests deeper
/// than [`Regex::from_hir`] reads), or the message of its error.
pub uninterp spec fn parse_outcome(
    source: Seq<char>,
    utf8: bool,
    unicode: bool,
    case_insensitive: bool,
) -> Result<Option<Regex>, Seq<char>>;

/// `regex_syntax::ParserBuilder` with `utf8`, `unicode` and
/// `case_insensitive` set as given, built into a parser that parses
/// `source`; the parsed expression is read by [`Regex::from_hir`], an error
/// is rendered by its `Display` impl. Claimed: the outcome depends on these
/// arguments alone (named [`parse_outcome`]); which expression a pattern
/// parses to is left unsaid.
#[verifier::external_body]
pub(crate) fn parse_pattern(source: &str, utf8: bool, unicode: bool, case_insensitive: bool) -> (r: Result<
    Option<Regex>,
    String,
>)
    ensures
        match r {
            Ok(g) => parse_outcome(source@, utf8, unicode, case_insensitive) == Ok::<Option<Regex>, Seq<char>>(g),
            Err(e) => parse_outcome(source@, utf8, unicode, case_insensitive) == Err::<Option<Regex>, Seq<char>>(e@),
        },
{
    ParserBuilder::new()
        .utf8(utf8)
        .unicode(unicode)
        .case_insensitive(case_insensitive)
        .build()
        .parse(source)
        .map(|hir| Regex::from_hir(hir, usize::MAX))
        .map_err(|e| e.to_string())
}

/// One level of a parsed expression, with the expressions under it still
/// parsed.
enum HirLevel {
    Empty,
    Literal(Vec<u8>),
    Class(Class),
    Look,
    Repetition(u32, Option<u32>, bool, Box<Hir>),
    Capture(Box<Hir>),
    Concat(Vec<Hir>),
    Alternation(Vec<Hir>),
}

/// The ranges of a character class.
enum ClassRanges {
    Bytes(Vec<(u8, u8)>),
    Unicode(Vec<(u32, u32)>),
}

/// `regex_syntax::hir::Hir::into_kind`, each kind moved into the variant of
/// the same name; of a repetition its `min`, `max`, `greedy` and `sub`, of a
/// capture its `sub`. Nothing is stated: Verus does not see into `hir`.
#[verifier::external_body]
fn hir_level(hir: Hir) -> HirLevel {
    match hir.into_kind() {
        HirKind::Empty => HirLevel::Empty,
        HirKind::Literal(literal) => HirLevel::Literal(literal.0.into_vec()),
        HirKind::Class(class) => HirLevel::Class(class),
        HirKind::Look(_) => HirLevel::Look,
        HirKind::Repetition(rep) => HirLevel::Repetition(rep.min, rep.max, rep.greedy, rep.sub),
        HirKind::Capture(capture) => HirLevel::Capture(capture.sub),
        HirKind::Concat(subs) => HirLevel::Concat(subs),
        HirKind::Alternation(subs) => HirLevel::Alternation(subs),
    }
}

/// The ranges that `regex_syntax::hir::ClassBytes::iter` or
/// `ClassUnicode::iter` yields, as pairs of `start()` and `end()` (a `char`
/// as its scalar value). Nothing is stated: Verus does not see into `class`.
#[verifier::external_body]
fn class_ranges(class: Class) -> ClassRanges {
    match class {
        Class::Bytes(c) => ClassRanges::Bytes(c.iter().map(|r| (r.start(), r.end())).collect()),
        Class::Unicode(c) => ClassRanges::Unicode(
            c.iter().map(|r| (r.start() as u32, r.end() as u32)).collect(),
        ),
    }
}

/// A regular expression, as far as a specification is built from it.
pub enum Regex {
    /// Matches the empty string.
    Empty,
    /// These bytes, one after the other.
    Literal(Vec<u8>),
    /// One byte out of the inclusive ranges.
    Bytes(Vec<(u8, u8)>),
    /// One Unicode scalar value out of the inclusive ranges, as UTF-8.
    Unicode(Vec<(u32, u32)>),
    /// A look-around assertion.
    Look,
    Repetition(Repetition),
    /// A capturing group around an expression.
    Capture(Box<Regex>),
    Concat(Vec<Regex>),
    Alternation(Vec<Regex>),
}

/// `sub` repeated between `min` and `max` times (unbounded when `max` is
/// `None`), greedily or not.
pub struct Repetition {
    pub min: u32,
    pub max: Option<u32>,
    pub greedy: bool,
    pub sub: Box<Regex>,
}

/// Why a regular expression has no specification.
#[derive(Clone, Copy, Debug, PartialEq, Eq, Structural)]
pub enum RegexError {
    /// A repetition that is not greedy.
    NonGreedy,
    /// `.*` or `.+` over any character or any byte.
    GreedyDot,
    /// A look-around assertion.
    LookAround,
    /// The parsed expression nests deeper than the levels that were read.
    TooDeep,
}

/// The text that each error is reported with.
pub open spec fn error_message(e: RegexError) -> Seq<char> {
    match e {
        RegexError::NonGreedy => "#[regex]: non-greedy parsing is currently unsupported."@,
        RegexError::GreedyDot => "#[regex]: \".+\" and \".*\" patterns will greedily consume the entire source till the end as Logos does not allow backtracking. If you are looking to match everything until a specific character, you should use a negative character class. E.g., use regex r\"'[^']*'\" to match anything in between two quotes. Read more about that here: https://github.com/maciejhirsz/logos/issues/302#issuecomment-1521342541."@,
        RegexError::LookAround => "#[regex]: look-around assertions are currently unsupported."@,
        RegexError::TooDeep => "#[regex]: the expression nests too deeply."@,
    }
}

/// `g` is the class of every Unicode scalar value or of every byte.
pub open spec fn is_dot(g: Regex) -> bool {
    match g {
        Regex::Unicode(ranges) => ranges@ == seq![(0u32, 0x10FFFFu32)],
        Regex::Bytes(ranges) => ranges@ == seq![(0u8, 255u8)],
        _ => false,
    }
}

/// The first reason, in reading order, why `g` has no specification.
pub open spec fn regex_error(g: Regex) -> Option<RegexError>
    decreases g, 0nat,
{
    match g {
        Regex::Look => Some(RegexError::LookAround),
        Regex::Repetition(rep) => if !rep.greedy {
            Some(RegexError::NonGreedy)
        } else if regex_error(*rep.sub) is Some {
            regex_error(*rep.sub)
        } else if rep.min <= 1 && rep.max is None && is_dot(*rep.sub) {
            Some(RegexError::GreedyDot)
        } else {
            None
        },
        Regex::Capture(sub) => regex_error(*sub),
        Regex::Concat(subs) => first_error(subs@),
        Regex::Alternation(subs) => first_error(subs@),
        _ => None,
    }
}

/// The first error among `gs`, in order.
pub open spec fn first_error(gs: Seq<Regex>) -> Option<RegexError>
    decreases gs, 1nat,
{
    if gs.len() == 0 {
        None
    } else if first_error(gs.drop_last()) is Some {
        first_error(gs.drop_last())
    } else {
        regex_error(gs.last())
    }
}

/// The bytes of the inclusive ranges, range after range.
pub open spec fn range_bytes(ranges: Seq<(u8, u8)>) -> Seq<u8>
    decreases ranges.len(),
{
    if ranges.len() == 0 {
        Seq::empty()
    } else {
        let (lo, hi) = ranges.last();
        range_bytes(ranges.drop_last()) + if lo <= hi {
            byte_span(lo, hi + 1)
        } else {
            Seq::empty()
        }
    }
}

/// The Unicode scalar values from `lo` to `hi`, ascending.
pub open spec fn scalar_run(lo: int, hi: int) -> Seq<u32>
    decreases hi - lo + 1,
{
    if hi < lo {
        Seq::empty()
    } else if is_scalar(hi as u32) && 0 <= hi <= u32::MAX {
        scalar_run(lo, hi - 1).push(hi as u32)
    } else {
        scalar_run(lo, hi - 1)
    }
}

/// The Unicode scalar values of the inclusive ranges, range after range.
pub open spec fn range_scalars(ranges: Seq<(u32, u32)>) -> Seq<u32>
    decreases ranges.len(),
{
    if ranges.len() == 0 {
        Seq::empty()
    } else {
        range_scalars(ranges.drop_last()) + scalar_run(
            ranges.last().0 as int,
            ranges.last().1 as int,
        )
    }
}

/// `specs[i]` is the specification of the UTF-8 encoding of `scalars[i]`.
pub open spec fn scalar_specifications(specs: Seq<Specification>, scalars: Seq<u32>) -> bool {
    &&& specs.len() == scalars.len()
    &&& forall|i: int|
        0 <= i < specs.len() ==> is_str_specification(
            #[trigger] specs[i],
            encode_scalar(scalars[i]),
        )
}

/// `s` is the specification that `g` is read into, `g` having no error.
pub open spec fn converts(g: Regex, s: Specification) -> bool
    decreases g, 0nat,
{
    match g {
        Regex::Empty => s matches Specification::Sequence(q) && q.specifications@.len() == 0,
        Regex::Literal(bytes) => s matches Specification::Sequence(q) && q.specifications@
            == byte_specifications(bytes@),
        Regex::Bytes(ranges) => s matches Specification::Any(a) && a.specifications@
            == byte_specifications(range_bytes(ranges@)),
        Regex::Unicode(ranges) => s matches Specification::Any(a) && scalar_specifications(
            a.specifications@,
            range_scalars(ranges@),
        ),
        Regex::Look => false,
        Regex::Repetition(rep) => s matches Specification::Loop(l) && l.min == rep.min as usize
            && l.max == (match rep.max {
            Some(m) => Some(m as usize),
            None => None,
        }) && converts(*rep.sub, *l.specification),
        Regex::Capture(sub) => converts(*sub, s),
        Regex::Concat(subs) => s matches Specification::Sequence(q) && all_convert(
            subs@,
            q.specifications@,
        ),
        Regex::Alternation(subs) => s matches Specification::Any(a) && all_convert(
            subs@,
            a.specifications@,
        ),
    }
}

/// Each of `gs` converts to the specification at the same place in `ss`.
pub open spec fn all_convert(gs: Seq<Regex>, ss: Seq<Specification>) -> bool
    decreases gs, 1nat,
{
    &&& gs.len() == ss.len()
    &&& gs.len() > 0 ==> all_convert(gs.drop_last(), ss.drop_last()) && converts(
        gs.last(),
        ss.last(),
    )
}

impl RegexError {
    /// The text that this error is reported with.
    pub fn message(&self) -> (m: &'static str)
        ensures
            m@ == error_message(*self),
    {
        match self {
            RegexError::NonGreedy => "#[regex]: non-greedy parsing is currently unsupported.",
            RegexError::GreedyDot => "#[regex]: \".+\" and \".*\" patterns will greedily consume the entire source till the end as Logos does not allow backtracking. If you are looking to match everything until a specific character, you should use a negative character class. E.g., use regex r\"'[^']*'\" to match anything in between two quotes. Read more about that here: https://github.com/maciejhirsz/logos/issues/302#issuecomment-1521342541.",
            RegexError::LookAround => "#[regex]: look-around assertions are currently unsupported.",
            RegexError::TooDeep => "#[regex]: the expression nests too deeply.",
        }
    }
}

/// Whether `g` is the class of every scalar value or of every byte.
fn is_dot_regex(g: &Regex) -> (b: bool)
    ensures
        b == is_dot(*g),
{
    match g {
        Regex::Unicode(ranges) => {
            let b = ranges.len() == 1 && ranges[0].0 == 0 && ranges[0].1 == 0x10FFFF;
            proof {
                if b {
                    assert(ranges@ =~= seq![(0u32, 0x10FFFFu32)]);
                }
            }
            b
        },
        Regex::Bytes(ranges) => {
            let b = ranges.len() == 1 && ranges[0].0 == 0 && ranges[0].1 == 255;
            proof {
                if b {
                    assert(ranges@ =~= seq![(0u8, 255u8)]);
                }
            }
            b
        },
        _ => false,
    }
}

/// The bytes of the inclusive ranges, range after range.
pub(crate) fn class_bytes(ranges: &Vec<(u8, u8)>) -> (r: Vec<u8>)
    ensures
        r@ == range_bytes(ranges@),
{
    let mut r: Vec<u8> = Vec::new();
    let mut i: usize = 0;
    while i < ranges.len()
        invariant
            i <= ranges@.len(),
            r@ == range_bytes(ranges@.take(i as int)),
        decreases ranges@.len() - i,
    {
        let (lo, hi) = ranges[i];
        let ghost before = r@;
        if lo <= hi {
            let mut b: u16 = lo as u16;
            while b <= hi as u16
                invariant
                    lo <= b <= hi + 1,
                    lo <= hi,
                    r@ == before + byte_span(lo, b as int),
                decreases hi + 1 - b,
            {
                r.push(b as u8);
                assert(byte_span(lo, b + 1) =~= byte_span(lo, b as int).push(b as u8));
                b = b + 1;
            }
        }
        assert(ranges@.take(i + 1).drop_last() =~= ranges@.take(i as int));
        assert(r@ =~= range_bytes(ranges@.take(i + 1)));
        i = i + 1;
    }
    assert(ranges@.take(ranges@.len() as int) =~= ranges@);
    r
}

/// The UTF-8 encoding of the scalar value `c`.
fn encode_scalar_bytes(c: u32) -> (r: Vec<u8>)
    requires
        is_scalar(c),
    ensures
        r@ == encode_scalar(c),
{
    let mut r: Vec<u8> = Vec::new();
    if c <= 0x7F {
        r.push((c & 0x7F) as u8);
        assert(r@ =~= encode_scalar(c));
    } else if c <= 0x7FF {
        r.push(0xC0 | ((c >> 6) & 0x1F) as u8);
        r.push(0x80 | (c & 0x3F) as u8);
        assert(r@ =~= encode_scalar(c));
    } else if c <= 0xFFFF {
        r.push(0xE0 | ((c >> 12) & 0x0F) as u8);
        r.push(0x80 | ((c >> 6) & 0x3F) as u8);
        r.push(0x80 | (c & 0x3F) as u8);
        assert(r@ =~= encode_scalar(c));
    } else {
        r.push(0xF0 | ((c >> 18) & 0x7) as u8);
        r.push(0x80 | ((c >> 12) & 0x3F) as u8);
        r.push(0x80 | ((c >> 6) & 0x3F) as u8);
        r.push(0x80 | (c & 0x3F) as u8);
        assert(r@ =~= encode_scalar(c));
    }
    r
}

/// Whether `c` is a Unicode scalar value.
fn scalar_test(c: u32) -> (b: bool)
    ensures
        b == is_scalar(c),
{
    c <= 0x10FFFF && !(0xD800 <= c && c <= 0xDFFF)
}

/// The specification of a string with these bytes.
fn bytes_specification(bytes: Vec<u8>) -> (s: Specification)
    ensures
        is_str_specification(s, bytes@),
{
    if bytes.len() == 1 {
        Specification::Byte(bytes[0])
    } else {
        Specification::new_sequence(bytes_to_specifications(&bytes))
    }
}

/// The specifications of the UTF-8 encodings of the scalar values in the
/// inclusive ranges, range after range.
fn unicode_specifications(ranges: &Vec<(u32, u32)>) -> (r: Vec<Specification>)
    ensures
        scalar_specifications(r@, range_scalars(ranges@)),
{
    let mut r: Vec<Specification> = Vec::new();
    let mut i: usize = 0;
    while i < ranges.len()
        invariant
            i <= ranges@.len(),
            scalar_specifications(r@, range_scalars(ranges@.take(i as int))),
        decreases ranges@.len() - i,
    {
        let (lo, hi) = ranges[i];
        let ghost done = range_scalars(ranges@.take(i as int));
        let mut c: u64 = lo as u64;
        if c <= hi as u64 {
            while c <= hi as u64
                invariant
                    lo <= c <= hi + 1,
                    scalar_specifications(r@, done + scalar_run(lo as int, c - 1)),
                decreases hi + 1 - c,
            {
                let v = c as u32;
                let ghost run = scalar_run(lo as int, c - 1);
                if scalar_test(v) {
                    let s = bytes_specification(encode_scalar_bytes(v));
                    let ghost old_r = r@;
                    r.push(s);
                    assert((done + run).push(v) =~= done + scalar_run(lo as int, c as int));
                    assert forall|k: int| 0 <= k < r@.len() implies is_str_specification(
                        #[trigger] r@[k],
                        encode_scalar((done + scalar_run(lo as int, c as int))[k]),
                    ) by {
                        if k < old_r.len() {
                            assert(r@[k] == old_r[k]);
                        }
                    }
                } else {
                    assert(scalar_run(lo as int, c as int) == run);
                }
                c = c + 1;
            }
        } else {
            assert(scalar_run(lo as int, hi as int) =~= Seq::<u32>::empty());
        }
        assert(c - 1 == hi || hi < lo);
        assert(ranges@.take(i + 1).drop_last() =~= ranges@.take(i as int));
        assert(range_scalars(ranges@.take(i + 1)) == done + scalar_run(lo as int, hi as int));
        i = i + 1;
    }
    assert(ranges@.take(ranges@.len() as int) =~= ranges@);
    r
}

impl Specification {
    /// The specification that `regex` is read into, or the first reason, in
    /// reading order, why it has none.
    pub fn try_from_regex(regex: &Regex) -> (r: Result<Specification, RegexError>)
        ensures
            match r {
                Ok(s) => regex_error(*regex) is None && converts(*regex, s),
                Err(e) => regex_error(*regex) == Some(e),
            },
        decreases regex, 0nat,
    {
        match regex {
            Regex::Empty => Ok(Self::new_sequence(Vec::new())),
            Regex::Literal(bytes) => Ok(Self::new_sequence(bytes_to_specifications(bytes))),
            Regex::Bytes(ranges) => Ok(Self::new_any(bytes_to_specifications(&class_bytes(ranges)))),
            Regex::Unicode(ranges) => Ok(Self::new_any(unicode_specifications(ranges))),
            Regex::Look => Err(RegexError::LookAround),
            Regex::Repetition(rep) => {
                if !rep.greedy {
                    return Err(RegexError::NonGreedy);
                }
                let is_dot = is_dot_regex(&rep.sub);
                let specification = match Self::try_from_regex(&rep.sub) {
                    Ok(s) => s,
                    Err(e) => return Err(e),
                };
                if rep.min <= 1 && rep.max.is_none() && is_dot {
                    Err(RegexError::GreedyDot)
                } else {
                    let max: Option<usize> = match rep.max {
                        Some(m) => Some(m as usize),
                        None => None,
                    };
                    Ok(Self::new_loop(rep.min as usize, max, specification))
                }
            },
            Regex::Capture(sub) => Self::try_from_regex(sub),
            Regex::Concat(subs) => match Self::try_from_regexes(subs) {
                Ok(specifications) => Ok(Self::new_sequence(specifications)),
                Err(e) => Err(e),
            },
            Regex::Alternation(subs) => match Self::try_from_regexes(subs) {
                Ok(specifications) => Ok(Self::new_any(specifications)),
                Err(e) => Err(e),
            },
        }
    }

    /// The specifications of `subs`, in order, or the first error among them.
    fn try_from_regexes(subs: &Vec<Regex>) -> (r: Result<Vec<Specification>, RegexError>)
        ensures
            match r {
                Ok(v) => first_error(subs@) is None && all_convert(subs@, v@),
                Err(e) => first_error(subs@) == Some(e),
            },
        decreases subs, 1nat,
    {
        let mut out: Vec<Specification> = Vec::new();
        let mut i: usize = 0;
        while i < subs.len()
            invariant
                i <= subs@.len(),
                first_error(subs@.take(i as int)) is None,
                all_convert(subs@.take(i as int), out@),
            decreases subs@.len() - i,
        {
            assert(subs@.take(i + 1).drop_last() =~= subs@.take(i as int));
            assert(decreases_to!(subs@ => subs@[i as int]));
            assert(decreases_to!(*subs => subs@[i as int]));
            match Self::try_from_regex(&subs[i]) {
                Ok(s) => {
                    let ghost before = out@;
                    out.push(s);
                    assert(out@.drop_last() =~= before);
                },
                Err(e) => {
                    proof {
                        lemma_first_error_prefix(subs@, i as int + 1);
                    }
                    return Err(e);
                },
            }
            i = i + 1;
        }
        assert(subs@.take(subs@.len() as int) =~= subs@);
        Ok(out)
    }
}

/// `r` is what reading a pattern gives when its parse has the outcome
/// `parse`: the parse error, or the specification of the parsed expression,
/// or the message of the reason why it has none.
pub open spec fn pattern_outcome(parse: Result<Option<Regex>, Seq<char>>, r: Result<Specification, String>) -> bool {
    match parse {
        Err(m) => r matches Err(e) && e@ == m,
        Ok(None) => r matches Err(e) && e@ == error_message(RegexError::TooDeep),
        Ok(Some(g)) => match regex_error(g) {
            Some(k) => r matches Err(e) && e@ == error_message(k),
            None => r matches Ok(s) && converts(g, s),
        },
    }
}

impl Regex {
    /// Reads a parsed expression into a `Regex`, reading at most `depth`
    /// levels of it; `None` when it nests deeper than that.
    pub fn from_hir(hir: Hir, depth: usize) -> (r: Option<Regex>)
        ensures
            depth == 0 ==> r is None,
        decreases depth, 0nat,
    {
        if depth == 0 {
            return None;
        }
        match hir_level(hir) {
            HirLevel::Empty => Some(Regex::Empty),
            HirLevel::Literal(bytes) => Some(Regex::Literal(bytes)),
            HirLevel::Class(class) => match class_ranges(class) {
                ClassRanges::Bytes(ranges) => Some(Regex::Bytes(ranges)),
                ClassRanges::Unicode(ranges) => Some(Regex::Unicode(ranges)),
            },
            HirLevel::Look => Some(Regex::Look),
            HirLevel::Repetition(min, max, greedy, sub) => match Self::from_hir(*sub, depth - 1) {
                Some(g) => Some(Regex::Repetition(Repetition { min, max, greedy, sub: Box::new(g) })),
                None => None,
            },
            HirLevel::Capture(sub) => match Self::from_hir(*sub, depth - 1) {
                Some(g) => Some(Regex::Capture(Box::new(g))),
                None => None,
            },
            HirLevel::Concat(subs) => match Self::from_hirs(subs, depth - 1) {
                Some(gs) => Some(Regex::Concat(gs)),
                None => None,
            },
            HirLevel::Alternation(subs) => match Self::from_hirs(subs, depth - 1) {
                Some(gs) => Some(Regex::Alternation(gs)),
                None => None,
            },
        }
    }

    /// Reads each of `subs`, in order, at most `depth` levels deep.
    fn from_hirs(subs: Vec<Hir>, depth: usize) -> (r: Option<Vec<Regex>>)
        ensures
            subs@.len() == 0 ==> (r matches Some(gs) && gs@.len() == 0),
            depth == 0 && subs@.len() > 0 ==> r is None,
            r matches Some(gs) ==> gs@.len() == subs@.len(),
        decreases depth, 1nat,
    {
        let ghost total = subs@.len();
        let mut rest = subs;
        let mut out: Vec<Regex> = Vec::new();
        while rest.len() > 0
            invariant
                out@.len() + rest@.len() == total,
                total == subs@.len(),
                depth == 0 && total > 0 ==> rest@.len() == total,
            decreases rest.len(),
        {
            let hir = rest.remove(0);
            match Self::from_hir(hir, depth) {
                Some(g) => out.push(g),
                None => return None,
            }
        }
        Some(out)
    }
}

impl Specification {
    /// The specification of a parsed expression: it is read into a [`Regex`]
    /// and converted by [`Specification::try_from_regex`].
    pub fn try_from_hir(hir: Hir) -> (r: Result<Specification, RegexError>)
        ensures
            r matches Ok(s) ==> exists|g: Regex| regex_error(g) is None && #[trigger] converts(g, s),
            r matches Err(e) ==> e == RegexError::TooDeep || exists|g: Regex| #[trigger] regex_error(g)
                == Some(e),
    {
        match Regex::from_hir(hir, usize::MAX) {
            Some(g) => {
                let r = Self::try_from_regex(&g);
                if let Ok(s) = &r {
                    assert(regex_error(g) is None && converts(g, *s));
                }
                if let Err(e) = &r {
                    assert(regex_error(g) == Some(*e));
                }
                r
            },
            None => Err(RegexError::TooDeep),
        }
    }

    fn from_pattern(source: &str, utf8: bool, unicode: bool, case_insensitive: bool) -> (r: Result<
        Self,
        String,
    >)
        ensures
            pattern_outcome(parse_outcome(source@, utf8, unicode, case_insensitive), r),
    {
        let e = match parse_pattern(source, utf8, unicode, case_insensitive) {
            Err(e) => return Err(e),
            Ok(None) => RegexError::TooDeep,
            Ok(Some(g)) => match Self::try_from_regex(&g) {
                Ok(s) => return Ok(s),
                Err(e) => e,
            },
        };
        let m = e.message().to_owned();
        assert(error_message(e) == m@);
        Err(m)
    }

    /// The specification of the regular expression `source` over UTF-8 text.
    pub fn utf8(source: &str) -> (r: Result<Self, String>)
        ensures
            pattern_outcome(parse_outcome(source@, true, true, false), r),
    {
        Self::from_pattern(source, true, true, false)
    }

    /// As [`Specification::utf8`], matching letters of either case.
    pub fn utf8_ignore_case(source: &str) -> (r: Result<Self, String>)
        ensures
            pattern_outcome(parse_outcome(source@, true, true, true), r),
    {
        Self::from_pattern(source, true, true, true)
    }

    /// The specification of the regular expression `source` over arbitrary
    /// bytes, without Unicode classes.
    pub fn binary(source: &str) -> (r: Result<Self, String>)
        ensures
            pattern_outcome(parse_outcome(source@, false, false, false), r),
    {
        Self::from_pattern(source, false, false, false)
    }

    /// As [`Specification::binary`], matching letters of either case.
    pub fn binary_ignore_case(source: &str) -> (r: Result<Self, String>)
        ensures
            pattern_outcome(parse_outcome(source@, false, false, true), r),
    {
        Self::from_pattern(source, false, false, true)
    }
}

/// An error in a prefix of `gs` is the first error of `gs`.
proof fn lemma_first_error_prefix(gs: Seq<Regex>, n: int)
    requires
        0 <= n <= gs.len(),
        first_error(gs.take(n)) is Some,
    ensures
        first_error(gs) == first_error(gs.take(n)),
    decreases gs.len() - n,
{
    if n < gs.len() {
        assert(gs.take(n + 1).drop_last() =~= gs.take(n));
        lemma_first_error_prefix(gs, n + 1);
    } else {
        assert(gs.take(n) =~= gs);
    }
}

} // verus!
