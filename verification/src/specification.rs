//! What a lexer variant matches: a tree of bytes, sequences, alternatives
//! and bounded or unbounded repetitions.
use vstd::prelude::*;
use vstd::string::StringSliceAdditionalSpecFns;

verus! {

/// A pattern over bytes.
pub enum Specification {
    Sequence(Sequence),
    Any(Any),
    Loop(Loop),
    Byte(u8),
}

/// All of the inner specifications, one after the other.
pub struct Sequence {
    pub specifications: Vec<Specification>,
}

/// One of the inner specifications.
pub struct Any {
    pub specifications: Vec<Specification>,
}

/// The inner specification repeated at least `min` times, and at most
/// `max` times when `max` is a bound. (How the graph builder chains the
/// copies, also when `min == max`, is told at
/// `GraphBuilder::node_for_specification`.)
pub struct Loop {
    pub min: usize,
    pub max: Option<usize>,
    pub specification: Box<Specification>,
}

/// Default priority of a specification: a byte weighs 2, a sequence the sum of
/// its parts, an alternative its lightest option (0 when there is none), and a
/// loop its minimal number of repetitions times the weight of its body.
pub open spec fn priority_of(s: Specification) -> nat
    decreases s, 0nat,
{
    match s {
        Specification::Sequence(seq) => priority_sum(seq.specifications@),
        Specification::Any(any) => priority_min(any.specifications@),
        Specification::Loop(l) => (l.min as nat) * priority_of(*l.specification),
        Specification::Byte(_) => 2,
    }
}

/// Sum of the default priorities of `specs`.
pub open spec fn priority_sum(specs: Seq<Specification>) -> nat
    decreases specs, 1nat,
{
    if specs.len() == 0 {
        0
    } else {
        priority_sum(specs.drop_last()) + priority_of(specs.last())
    }
}

/// Least default priority among `specs`, 0 when `specs` is empty.
pub open spec fn priority_min(specs: Seq<Specification>) -> nat
    decreases specs, 1nat,
{
    if specs.len() == 0 {
        0
    } else if specs.len() == 1 {
        priority_of(specs[0])
    } else {
        let rest = priority_min(specs.drop_last());
        let last = priority_of(specs.last());
        if last < rest {
            last
        } else {
            rest
        }
    }
}

/// Computing the default priority of `s` stays within `usize` at every step.
pub open spec fn priority_fits(s: Specification) -> bool
    decreases s, 0nat,
{
    &&& priority_of(s) <= usize::MAX
    &&& match s {
        Specification::Sequence(seq) => all_priorities_fit(seq.specifications@),
        Specification::Any(any) => all_priorities_fit(any.specifications@),
        Specification::Loop(l) => priority_fits(*l.specification),
        Specification::Byte(_) => true,
    }
}

/// Every specification of `specs` satisfies [`priority_fits`].
pub open spec fn all_priorities_fit(specs: Seq<Specification>) -> bool
    decreases specs, 1nat,
{
    if specs.len() == 0 {
        true
    } else {
        all_priorities_fit(specs.drop_last()) && priority_fits(specs.last())
    }
}

/// The graph builder accepts `s`: no loop in it has an upper bound of zero.
pub open spec fn buildable(s: Specification) -> bool
    decreases s, 0nat,
{
    match s {
        Specification::Sequence(seq) => all_buildable(seq.specifications@),
        Specification::Any(any) => all_buildable(any.specifications@),
        Specification::Loop(l) => l.max != Some(0usize) && buildable(*l.specification),
        Specification::Byte(_) => true,
    }
}

/// Every specification of `specs` satisfies [`buildable`].
pub open spec fn all_buildable(specs: Seq<Specification>) -> bool
    decreases specs, 1nat,
{
    if specs.len() == 0 {
        true
    } else {
        all_buildable(specs.drop_last()) && buildable(specs.last())
    }
}

/// Each element of a buildable sequence is buildable.
pub proof fn lemma_all_buildable_index(specs: Seq<Specification>, i: int)
    requires
        all_buildable(specs),
        0 <= i < specs.len(),
    ensures
        buildable(specs[i]),
    decreases specs.len(),
{
    if i < specs.len() - 1 {
        lemma_all_buildable_index(specs.drop_last(), i);
    }
}

/// `Byte(b)` for each byte of `bytes`, in order.
pub open spec fn byte_specifications(bytes: Seq<u8>) -> Seq<Specification> {
    bytes.map_values(|b: u8| Specification::Byte(b))
}

/// The bytes `lo, lo + 1, ..., hi - 1`.
pub open spec fn byte_span(lo: u8, hi: int) -> Seq<u8> {
    Seq::new((hi - lo) as nat, |i: int| (lo + i) as u8)
}

/// The bytes below `n`, ascending, that do not occur in `disallowed`.
pub open spec fn allowed_bytes(disallowed: Seq<u8>, n: nat) -> Seq<u8>
    decreases n,
{
    if n == 0 {
        Seq::empty()
    } else {
        let rest = allowed_bytes(disallowed, (n - 1) as nat);
        if disallowed.contains((n - 1) as u8) {
            rest
        } else {
            rest.push((n - 1) as u8)
        }
    }
}

/// `s` is the specification of a string with the given bytes: a single byte
/// stands alone, any other length gives a sequence of bytes.
pub open spec fn is_str_specification(s: Specification, bytes: Seq<u8>) -> bool {
    if bytes.len() == 1 {
        s == Specification::Byte(bytes[0])
    } else {
        s matches Specification::Sequence(seq) && seq.specifications@ == byte_specifications(bytes)
    }
}

/// The sum of the default priorities of a list of bytes is twice its
/// length.
proof fn lemma_bytes_priority_sum(bytes: Seq<u8>)
    ensures
        priority_sum(byte_specifications(bytes)) == 2 * bytes.len(),
    decreases bytes.len(),
{
    if bytes.len() > 0 {
        lemma_bytes_priority_sum(bytes.drop_last());
        assert(byte_specifications(bytes).drop_last() =~= byte_specifications(bytes.drop_last()));
        let x = byte_specifications(bytes);
        assert(x.last() == Specification::Byte(bytes.last()));
        assert(priority_of(x.last()) == 2);
        assert(priority_sum(x) == priority_sum(x.drop_last()) + priority_of(x.last()));
    } else {
        assert(byte_specifications(bytes).len() == 0);
    }
}

/// The default priority of the specification of a non-empty string is
/// twice the number of its bytes.
pub proof fn lemma_str_priority(s: Specification, bytes: Seq<u8>)
    requires
        is_str_specification(s, bytes),
        bytes.len() > 0,
    ensures
        priority_of(s) == 2 * bytes.len(),
{
    if bytes.len() != 1 {
        lemma_bytes_priority_sum(bytes);
    }
}

proof fn lemma_sum_push(specs: Seq<Specification>, i: int)
    requires
        0 <= i < specs.len(),
    ensures
        priority_sum(specs.take(i + 1)) == priority_sum(specs.take(i)) + priority_of(specs[i]),
{
    assert(specs.take(i + 1).drop_last() =~= specs.take(i));
}

proof fn lemma_sum_le(specs: Seq<Specification>, i: int)
    requires
        0 <= i <= specs.len(),
    ensures
        priority_sum(specs.take(i)) <= priority_sum(specs),
    decreases specs.len() - i,
{
    if i < specs.len() {
        lemma_sum_push(specs, i);
        lemma_sum_le(specs, i + 1);
    } else {
        assert(specs.take(i) =~= specs);
    }
}

proof fn lemma_min_push(specs: Seq<Specification>, i: int)
    requires
        1 <= i < specs.len(),
    ensures
        priority_min(specs.take(i + 1)) == (if priority_of(specs[i]) < priority_min(specs.take(i)) {
            priority_of(specs[i])
        } else {
            priority_min(specs.take(i))
        }),
{
    assert(specs.take(i + 1).drop_last() =~= specs.take(i));
}

proof fn lemma_all_fit_index(specs: Seq<Specification>, i: int)
    requires
        all_priorities_fit(specs),
        0 <= i < specs.len(),
    ensures
        priority_fits(specs[i]),
    decreases specs.len(),
{
    if i < specs.len() - 1 {
        lemma_all_fit_index(specs.drop_last(), i);
    }
}

impl Specification {
    /// The default priority of this specification, see [`priority_of`].
    pub fn default_priority(&self) -> (p: usize)
        requires
            priority_fits(*self),
        ensures
            p == priority_of(*self),
        decreases self, 0nat,
    {
        match self {
            Specification::Sequence(sequence) => sequence.default_priority(),
            Specification::Any(any) => any.default_priority(),
            Specification::Loop(l) => l.default_priority(),
            Specification::Byte(_) => 2,
        }
    }

    /// The default priority, or `None` when computing it would leave `usize`
    /// (see [`priority_fits`]).
    pub fn checked_default_priority(&self) -> (r: Option<usize>)
        ensures
            r == (if priority_fits(*self) {
                Some(priority_of(*self) as usize)
            } else {
                None::<usize>
            }),
        decreases self, 0nat,
    {
        match self {
            Specification::Sequence(sequence) => sequence.checked_default_priority(),
            Specification::Any(any) => any.checked_default_priority(),
            Specification::Loop(l) => match l.specification.checked_default_priority() {
                Some(inner) => l.min.checked_mul(inner),
                None => None,
            },
            Specification::Byte(_) => Some(2),
        }
    }

    /// Whether the graph builder accepts this specification: no loop in it
    /// has an upper bound of zero (see [`buildable`]).
    pub fn is_buildable(&self) -> (r: bool)
        ensures
            r == buildable(*self),
        decreases self, 0nat,
    {
        match self {
            Specification::Sequence(sequence) => all_are_buildable(&sequence.specifications),
            Specification::Any(any) => all_are_buildable(&any.specifications),
            Specification::Loop(l) => {
                let bounded_to_zero = match l.max {
                    Some(m) => m == 0,
                    None => false,
                };
                !bounded_to_zero && l.specification.is_buildable()
            },
            Specification::Byte(_) => true,
        }
    }

    /// The byte itself, for a `Byte` specification.
    pub fn as_byte(&self) -> (r: Option<&u8>)
        ensures
            r == (match *self {
                Specification::Byte(b) => Some(&b),
                _ => None,
            }),
    {
        match self {
            Specification::Byte(b) => Some(b),
            _ => None,
        }
    }

    /// `[a-zA-Z]`: the lower-case letters, then the upper-case ones.
    pub fn ascii_alphabetic() -> (s: Self)
        ensures
            s matches Specification::Any(any) && any.specifications@ == byte_specifications(
                byte_span(97, 123) + byte_span(65, 91),
            ),
    {
        let mut bytes: Vec<u8> = Vec::new();
        push_span(&mut bytes, 97, 123);
        push_span(&mut bytes, 65, 91);
        Self::Any(Any::new(bytes_to_specifications(&bytes)))
    }

    /// `[0-9]`.
    pub fn ascii_digit() -> (s: Self)
        ensures
            s matches Specification::Any(any) && any.specifications@ == byte_specifications(
                byte_span(48, 58),
            ),
    {
        let mut bytes: Vec<u8> = Vec::new();
        push_span(&mut bytes, 48, 58);
        Self::Any(Any::new(bytes_to_specifications(&bytes)))
    }

    /// `[0-9a-fA-F]`.
    pub fn ascii_hex_digit() -> (s: Self)
        ensures
            s matches Specification::Any(any) && any.specifications@ == byte_specifications(
                byte_span(48, 58) + byte_span(97, 103) + byte_span(65, 71),
            ),
    {
        let mut bytes: Vec<u8> = Vec::new();
        push_span(&mut bytes, 48, 58);
        push_span(&mut bytes, 97, 103);
        push_span(&mut bytes, 65, 71);
        Self::Any(Any::new(bytes_to_specifications(&bytes)))
    }

    /// The bytes of `s`, one after the other; a one-byte string gives a `Byte`.
    pub fn new_str_sequence(s: &str) -> (r: Self)
        ensures
            is_str_specification(r, s.spec_bytes()),
    {
        let bytes = s.as_bytes();
        if bytes.len() == 1 {
            Self::Byte(bytes[0])
        } else {
            Self::Sequence(Sequence::new_str_sequence(s))
        }
    }

    pub fn new_sequence(specifications: Vec<Self>) -> (r: Self)
        ensures
            r == Specification::Sequence(Sequence { specifications }),
    {
        Self::Sequence(Sequence::new(specifications))
    }

    pub fn new_any(specifications: Vec<Self>) -> (r: Self)
        ensures
            r == Specification::Any(Any { specifications }),
    {
        Self::Any(Any::new(specifications))
    }

    pub fn new_loop(min: usize, max: Option<usize>, specification: Self) -> (r: Self)
        ensures
            r matches Specification::Loop(l) && l.min == min && l.max == max && *l.specification
                == specification,
    {
        Self::Loop(Loop::new(min, max, specification))
    }

    /// Zero or one occurrence of `specification`.
    pub fn maybe(specification: Self) -> (r: Self)
        ensures
            r matches Specification::Loop(l) && l.min == 0 && l.max == Some(1usize)
                && *l.specification == specification,
    {
        Self::Loop(Loop::new(0, Some(1), specification))
    }

    /// Any single byte that does not occur in `bytes_disallowed`, as an
    /// alternative of bytes in ascending order.
    pub fn new_not(bytes_disallowed: &[u8]) -> (r: Self)
        ensures
            r matches Specification::Any(any) && any.specifications@ == byte_specifications(
                allowed_bytes(bytes_disallowed@, 256),
            ),
    {
        let mut bytes_allowed: Vec<bool> = Vec::new();
        let mut i: usize = 0;
        while i < 256
            invariant
                i <= 256,
                bytes_allowed@.len() == i,
                forall|j: int| 0 <= j < i ==> #[trigger] bytes_allowed@[j],
            decreases 256 - i,
        {
            bytes_allowed.push(true);
            i = i + 1;
        }
        let mut k: usize = 0;
        while k < bytes_disallowed.len()
            invariant
                k <= bytes_disallowed@.len(),
                bytes_allowed@.len() == 256,
                forall|j: int|
                    0 <= j < 256 ==> (#[trigger] bytes_allowed@[j] <==> forall|w: int|
                        0 <= w < k ==> bytes_disallowed@[w] != j as u8),
            decreases bytes_disallowed@.len() - k,
        {
            let byte = bytes_disallowed[k];
            bytes_allowed.set(byte as usize, false);
            proof {
                assert forall|j: int| 0 <= j < 256 implies (#[trigger] bytes_allowed@[j]
                    <==> forall|w: int| 0 <= w < k + 1 ==> bytes_disallowed@[w] != j as u8) by {
                    if j == byte as int {
                        assert(bytes_disallowed@[k as int] == j as u8);
                    }
                }
            }
            k = k + 1;
        }
        assert forall|j: int| 0 <= j < 256 implies (#[trigger] bytes_allowed@[j]
            <==> !bytes_disallowed@.contains(j as u8)) by {
            if !bytes_allowed@[j] {
                let w = choose|w: int|
                    0 <= w < bytes_disallowed@.len() && #[trigger] bytes_disallowed@[w] == j as u8;
                assert(bytes_disallowed@.contains(j as u8));
            }
        }
        let mut allowed: Vec<u8> = Vec::new();
        let mut b: usize = 0;
        while b < 256
            invariant
                b <= 256,
                bytes_allowed@.len() == 256,
                forall|j: int|
                    0 <= j < 256 ==> (#[trigger] bytes_allowed@[j] <==> !bytes_disallowed@.contains(
                        j as u8,
                    )),
                allowed@ == allowed_bytes(bytes_disallowed@, b as nat),
            decreases 256 - b,
        {
            if bytes_allowed[b] {
                allowed.push(b as u8);
            }
            b = b + 1;
        }
        Self::new_any(bytes_to_specifications(&allowed))
    }
}

/// Whether every specification of `specs` is buildable.
fn all_are_buildable(specs: &Vec<Specification>) -> (r: bool)
    ensures
        r == all_buildable(specs@),
    decreases specs, 1nat,
{
    let mut i: usize = 0;
    assert(specs@.take(0) =~= Seq::<Specification>::empty());
    while i < specs.len()
        invariant
            i <= specs@.len(),
            all_buildable(specs@.take(i as int)),
        decreases specs@.len() - i,
    {
        assert(specs@.take(i + 1).drop_last() =~= specs@.take(i as int));
        assert(specs@.take(i + 1).last() == specs@[i as int]);
        assert(decreases_to!(specs@ => specs@[i as int]));
        assert(decreases_to!(*specs => specs@[i as int]));
        if !specs[i].is_buildable() {
            proof {
                if all_buildable(specs@) {
                    lemma_all_buildable_index(specs@, i as int);
                }
            }
            return false;
        }
        i = i + 1;
    }
    assert(specs@.take(specs@.len() as int) =~= specs@);
    true
}

/// Appends the bytes `lo, ..., hi - 1` to `bytes`.
fn push_span(bytes: &mut Vec<u8>, lo: u8, hi: u8)
    requires
        lo <= hi,
    ensures
        final(bytes)@ == old(bytes)@ + byte_span(lo, hi as int),
{
    let ghost start = old(bytes)@;
    let mut b: u8 = lo;
    while b < hi
        invariant
            lo <= b <= hi,
            bytes@ == start + byte_span(lo, b as int),
        decreases hi - b,
    {
        bytes.push(b);
        assert(byte_span(lo, b + 1) =~= byte_span(lo, b as int).push(b));
        b = b + 1;
    }
}

/// `Byte(b)` for each byte of `bytes`.
pub(crate) fn bytes_to_specifications(bytes: &Vec<u8>) -> (r: Vec<Specification>)
    ensures
        r@ == byte_specifications(bytes@),
{
    let mut r: Vec<Specification> = Vec::new();
    let mut i: usize = 0;
    while i < bytes.len()
        invariant
            i <= bytes@.len(),
            r@ == byte_specifications(bytes@.take(i as int)),
        decreases bytes@.len() - i,
    {
        r.push(Specification::Byte(bytes[i]));
        assert(byte_specifications(bytes@.take(i + 1)) =~= byte_specifications(
            bytes@.take(i as int),
        ).push(Specification::Byte(bytes@[i as int])));
        i = i + 1;
    }
    assert(bytes@.take(bytes@.len() as int) =~= bytes@);
    r
}

impl Any {
    pub(crate) fn default_priority(&self) -> (p: usize)
        requires
            priority_fits(Specification::Any(*self)),
        ensures
            p == priority_min(self.specifications@),
        decreases self, 1nat,
    {
        if self.specifications.len() == 0 {
            return 0;
        }
        proof {
            lemma_all_fit_index(self.specifications@, 0);
        }
        let mut best = self.specifications[0].default_priority();
        assert(self.specifications@.take(1).drop_last() =~= Seq::<Specification>::empty());
        let mut i: usize = 1;
        while i < self.specifications.len()
            invariant
                1 <= i <= self.specifications@.len(),
                all_priorities_fit(self.specifications@),
                best == priority_min(self.specifications@.take(i as int)),
            decreases self.specifications@.len() - i,
        {
            proof {
                lemma_all_fit_index(self.specifications@, i as int);
                lemma_min_push(self.specifications@, i as int);
            }
            assert(decreases_to!(self.specifications@ => self.specifications@[i as int]));
            assert(decreases_to!(*self => self.specifications@[i as int]));
            let p = self.specifications[i].default_priority();
            if p < best {
                best = p;
            }
            i = i + 1;
        }
        assert(self.specifications@.take(self.specifications@.len() as int) =~= self.specifications@);
        best
    }

    pub(crate) fn iter(&self) -> (r: &Vec<Specification>)
        ensures
            r@ == self.specifications@,
    {
        &self.specifications
    }

    pub(crate) fn new(specifications: Vec<Specification>) -> (r: Self)
        ensures
            r.specifications == specifications,
    {
        Self { specifications }
    }

    fn checked_default_priority(&self) -> (r: Option<usize>)
        ensures
            r == (if priority_fits(Specification::Any(*self)) {
                Some(priority_min(self.specifications@) as usize)
            } else {
                None::<usize>
            }),
        decreases self, 1nat,
    {
        let ghost specs = self.specifications@;
        if self.specifications.len() == 0 {
            assert(all_priorities_fit(specs));
            assert(priority_min(specs) == 0);
            return Some(0);
        }
        assert(decreases_to!(specs => specs[0]));
        assert(decreases_to!(*self => specs[0]));
        let mut best = match self.specifications[0].checked_default_priority() {
            Some(p) => p,
            None => {
                proof {
                    if all_priorities_fit(specs) {
                        lemma_all_fit_index(specs, 0);
                    }
                }
                return None;
            },
        };
        assert(specs.take(1).drop_last() =~= Seq::<Specification>::empty());
        assert(specs.take(1)[0] == specs[0]);
        assert(specs.take(1).last() == specs[0]);
        assert(all_priorities_fit(Seq::<Specification>::empty()));
        assert(all_priorities_fit(specs.take(1)));
        let mut i: usize = 1;
        while i < self.specifications.len()
            invariant
                1 <= i <= specs.len(),
                specs == self.specifications@,
                all_priorities_fit(specs.take(i as int)),
                best == priority_min(specs.take(i as int)),
            decreases specs.len() - i,
        {
            assert(specs.take(i + 1).drop_last() =~= specs.take(i as int));
            assert(specs.take(i + 1).last() == specs[i as int]);
            assert(decreases_to!(specs => specs[i as int]));
            assert(decreases_to!(*self => specs[i as int]));
            proof {
                lemma_min_push(specs, i as int);
            }
            match self.specifications[i].checked_default_priority() {
                Some(p) => {
                    if p < best {
                        best = p;
                    }
                },
                None => {
                    proof {
                        if all_priorities_fit(specs) {
                            lemma_all_fit_index(specs, i as int);
                        }
                    }
                    return None;
                },
            }
            i = i + 1;
        }
        assert(specs.take(specs.len() as int) =~= specs);
        Some(best)
    }
}

impl Loop {
    pub(crate) fn default_priority(&self) -> (p: usize)
        requires
            priority_fits(Specification::Loop(*self)),
        ensures
            p == self.min * priority_of(*self.specification),
        decreases self, 1nat,
    {
        let inner = self.specification.default_priority();
        self.min * inner
    }

    pub(crate) fn new(min: usize, max: Option<usize>, specification: Specification) -> (r: Self)
        ensures
            r.min == min,
            r.max == max,
            *r.specification == specification,
    {
        Self { min, max, specification: Box::new(specification) }
    }

    pub fn min(&self) -> (r: usize)
        ensures
            r == self.min,
    {
        self.min
    }

    pub fn max(&self) -> (r: Option<usize>)
        ensures
            r == self.max,
    {
        self.max
    }

    pub fn specification(&self) -> (r: &Specification)
        ensures
            *r == *self.specification,
    {
        &self.specification
    }
}

impl Sequence {
    pub(crate) fn default_priority(&self) -> (p: usize)
        requires
            priority_fits(Specification::Sequence(*self)),
        ensures
            p == priority_sum(self.specifications@),
        decreases self, 1nat,
    {
        let mut total: usize = 0;
        let mut i: usize = 0;
        assert(self.specifications@.take(0) =~= Seq::<Specification>::empty());
        while i < self.specifications.len()
            invariant
                i <= self.specifications@.len(),
                all_priorities_fit(self.specifications@),
                priority_sum(self.specifications@) <= usize::MAX,
                total == priority_sum(self.specifications@.take(i as int)),
            decreases self.specifications@.len() - i,
        {
            proof {
                lemma_all_fit_index(self.specifications@, i as int);
                lemma_sum_push(self.specifications@, i as int);
                lemma_sum_le(self.specifications@, i + 1);
            }
            assert(decreases_to!(self.specifications@ => self.specifications@[i as int]));
            assert(decreases_to!(*self => self.specifications@[i as int]));
            let p = self.specifications[i].default_priority();
            total = total + p;
            i = i + 1;
        }
        assert(self.specifications@.take(self.specifications@.len() as int) =~= self.specifications@);
        total
    }

    fn checked_default_priority(&self) -> (r: Option<usize>)
        ensures
            r == (if priority_fits(Specification::Sequence(*self)) {
                Some(priority_sum(self.specifications@) as usize)
            } else {
                None::<usize>
            }),
        decreases self, 1nat,
    {
        let ghost specs = self.specifications@;
        let mut total: usize = 0;
        let mut i: usize = 0;
        assert(specs.take(0) =~= Seq::<Specification>::empty());
        while i < self.specifications.len()
            invariant
                i <= specs.len(),
                specs == self.specifications@,
                all_priorities_fit(specs.take(i as int)),
                total == priority_sum(specs.take(i as int)),
            decreases specs.len() - i,
        {
            assert(specs.take(i + 1).drop_last() =~= specs.take(i as int));
            assert(specs.take(i + 1).last() == specs[i as int]);
            assert(decreases_to!(specs => specs[i as int]));
            assert(decreases_to!(*self => specs[i as int]));
            proof {
                lemma_sum_push(specs, i as int);
            }
            match self.specifications[i].checked_default_priority() {
                Some(p) => match total.checked_add(p) {
                    Some(t) => {
                        total = t;
                    },
                    None => {
                        proof {
                            lemma_sum_le(specs, i + 1);
                        }
                        return None;
                    },
                },
                None => {
                    proof {
                        if all_priorities_fit(specs) {
                            lemma_all_fit_index(specs, i as int);
                        }
                    }
                    return None;
                },
            }
            i = i + 1;
        }
        assert(specs.take(specs.len() as int) =~= specs);
        Some(total)
    }

    pub(crate) fn new_str_sequence(s: &str) -> (r: Self)
        ensures
            r.specifications@ == byte_specifications(s.spec_bytes()),
    {
        let bytes = s.as_bytes();
        let mut specifications: Vec<Specification> = Vec::new();
        let mut i: usize = 0;
        while i < bytes.len()
            invariant
                i <= bytes@.len(),
                bytes@ == s.spec_bytes(),
                specifications@ == byte_specifications(bytes@.take(i as int)),
            decreases bytes@.len() - i,
        {
            specifications.push(Specification::Byte(bytes[i]));
            assert(byte_specifications(bytes@.take(i + 1)) =~= byte_specifications(
                bytes@.take(i as int),
            ).push(Specification::Byte(bytes@[i as int])));
            i = i + 1;
        }
        assert(bytes@.take(bytes@.len() as int) =~= bytes@);
        Self { specifications }
    }

    pub(crate) fn iter(&self) -> (r: &Vec<Specification>)
        ensures
            r@ == self.specifications@,
    {
        &self.specifications
    }

    pub(crate) fn len(&self) -> (r: usize)
        ensures
            r == self.specifications@.len(),
    {
        self.specifications.len()
    }

    pub(crate) fn new(specifications: Vec<Specification>) -> (r: Self)
        ensures
            r.specifications == specifications,
    {
        Self { specifications }
    }
}

} // verus!
