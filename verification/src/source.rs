//! Declared clocks, when they can be trusted, and the delays that ride on them.
//!
//! The core knows no particular clock. An interval timer, an event timer and a
//! part-specific timer an adopter alone has are all declarations of the same
//! shape, referenced by identifier.
use vstd::prelude::*;
use crate::interval::{ceil_multiple, group_interval, Interval};
use crate::provenance::Provenance;
use crate::quantity::Quantity;
use crate::rate::{lemma_product_is_exact, spec_gcd, Rate};
use crate::Count;

verus! {

broadcast use group_interval;

/// A declared clock, by index into the register's source table.
#[derive(Clone, Copy, PartialEq, Eq, Structural, Debug, Hash)]
pub struct SourceId(pub u16);

/// A position range on the register's abstract timeline.
///
/// Windows, deadlines and source validity are all spans, so overlap between
/// them is one comparison rather than three conventions.
#[derive(Clone, Copy, PartialEq, Eq, Structural, Debug, Hash)]
pub struct Span {
    from: Count,
    to: Count,
}

impl Span {
    /// Where the span starts.
    pub closed spec fn spec_from(self) -> Count {
        self.from
    }

    /// Where the span ends.
    pub closed spec fn spec_to(self) -> Count {
        self.to
    }

    #[verifier::type_invariant]
    spec fn ordered(self) -> bool {
        self.from <= self.to
    }

    /// The span from `from` to `to`, as a value to state things of.
    pub closed spec fn between(from: Count, to: Count) -> Span {
        Span { from, to }
    }

    /// A span from `from` to `to`, or `None` if they are the wrong way round.
    pub fn new(from: Count, to: Count) -> (r: Option<Self>)
        ensures
            r is Some <==> from <= to,
            r matches Some(s) ==> s.from() == from && s.to() == to,
            r matches Some(s) ==> s == Span::between(from, to),
    {
        if from <= to {
            Some(Self { from, to })
        } else {
            None
        }
    }

    /// Where the span starts.
    #[verifier::when_used_as_spec(spec_from)]
    pub fn from(self) -> (r: Count)
        ensures
            r == self.spec_from(),
            r <= self.spec_to(),
    {
        proof {
            use_type_invariant(&self);
        }
        self.from
    }

    /// Where the span ends.
    #[verifier::when_used_as_spec(spec_to)]
    pub fn to(self) -> (r: Count)
        ensures
            r == self.spec_to(),
            self.spec_from() <= r,
    {
        proof {
            use_type_invariant(&self);
        }
        self.to
    }

    /// Whether `inner` lies wholly inside this span.
    pub open spec fn spec_covers(self, inner: Span) -> bool {
        self.from() <= inner.from() && inner.to() <= self.to()
    }

    /// Whether `inner` lies wholly inside this span.
    #[verifier::when_used_as_spec(spec_covers)]
    pub fn covers(self, inner: Span) -> (r: bool)
        ensures
            r == self.spec_covers(inner),
    {
        self.from <= inner.from && inner.to <= self.to
    }
}

/// When a clock can be trusted.
#[derive(Clone, Copy, PartialEq, Eq, Structural, Debug, Hash)]
pub enum Validity {
    /// Trustworthy throughout.
    Always,
    /// Trustworthy only across this span.
    Over(Span),
}

impl Validity {
    /// Whether the clock can be trusted across the whole of `span`.
    pub open spec fn spec_covers(self, span: Span) -> bool {
        match self {
            Validity::Always => true,
            Validity::Over(v) => v.covers(span),
        }
    }

    /// Whether the clock can be trusted across the whole of `span`.
    ///
    /// Partial cover is not enough. A conversion taken across a span the clock
    /// is trustworthy for only part of is a conversion against a rate that
    /// changed underneath it.
    #[verifier::when_used_as_spec(spec_covers)]
    pub fn covers(self, span: Span) -> (r: bool)
        ensures
            r == self.spec_covers(span),
    {
        match self {
            Validity::Always => true,
            Validity::Over(v) => v.covers(span),
        }
    }
}

/// Where a clock's rate comes from.
#[derive(Clone, Copy, PartialEq, Eq, Structural, Debug, Hash)]
pub enum Origin {
    /// An independent input: a crystal, an external reference, a synthesiser
    /// the register treats as given.
    Root,
    /// Derived from another clock by an exact ratio.
    Derived { parent: SourceId, ratio: Rate },
}

/// A declared clock.
#[derive(Clone, Copy, Debug)]
pub struct Source {
    pub id: SourceId,
    /// Where this clock's rate comes from.
    pub origin: Origin,
    /// The nominal frequency, exactly.
    pub nominal: Rate,
    /// Where the frequency came from. This reaches every time derived from it.
    pub nominal_prov: Provenance,
    /// Crystal tolerance in parts per million, which widens every conversion.
    pub tolerance_ppm: u32,
    /// The counter's width in bits.
    pub width_bits: u8,
    /// What one read of this clock costs.
    pub read_cost: Quantity,
    pub valid: Validity,
}

/// The largest count a counter of `bits` bits holds.
pub open spec fn counter_max(bits: nat) -> int {
    if bits >= 128 {
        Count::MAX as int
    } else {
        vstd::arithmetic::power2::pow2(bits) - 1
    }
}

impl Source {
    /// The largest count this clock's counter holds before it wraps.
    pub fn counter_span(&self) -> (r: Count)
        ensures
            r == counter_max(self.width_bits as nat),
    {
        if self.width_bits >= 128 {
            Count::MAX
        } else {
            // Doubling from one, a bit at a time, reaches two to the width.
            let mut v: Count = 1;
            let mut i: u8 = 0;
            proof {
                vstd::arithmetic::power2::lemma2_to64();
            }
            while i < self.width_bits
                invariant
                    i <= self.width_bits < 128,
                    v == vstd::arithmetic::power2::pow2(i as nat),
                decreases self.width_bits - i,
            {
                proof {
                    vstd::arithmetic::power2::lemma_pow2_unfold((i + 1) as nat);
                    vstd::arithmetic::power2::lemma_pow2_strictly_increases(
                        (i + 1) as nat,
                        128,
                    );
                    vstd::arithmetic::power2::lemma2_to64_rest();
                    assert(vstd::arithmetic::power2::pow2(128) == Count::MAX + 1) by {
                        vstd::arithmetic::power2::lemma_pow2_adds(64, 64);
                    }
                }
                v = v * 2;
                i = i + 1;
            }
            proof {
                vstd::arithmetic::power2::lemma_pow2_pos(i as nat);
            }
            v - 1
        }
    }

    /// Whether `count` ticks fit in the counter without wrapping.
    pub fn holds(&self, count: Count) -> (r: bool)
        ensures
            r == (count <= counter_max(self.width_bits as nat)),
    {
        count <= self.counter_span()
    }
}

/// Why a declared tree of clocks does not hold together.
#[derive(Clone, Copy, PartialEq, Eq, Structural, Debug)]
pub enum TreeFault {
    /// A clock names a parent the register does not declare.
    UnknownParent { child: SourceId, parent: SourceId },
    /// The parent chain does not reach a root.
    Cycle(SourceId),
    /// The parent's rate times the declared ratio leaves the width the core
    /// holds.
    RateOverflow(SourceId),
    /// The declared frequency disagrees with the parent and the ratio.
    Disagrees { child: SourceId, declared: Rate, implied: Rate },
    /// No clock with that identifier is declared.
    Unknown(SourceId),
}

/// The register's declared clocks, as a tree.
#[derive(Debug)]
pub struct SourceTable {
    sources: Vec<Source>,
}

impl Default for SourceTable {
    fn default() -> (r: Self)
        ensures
            r@ == Seq::<Source>::empty(),
    {
        Self { sources: Vec::new() }
    }
}

impl SourceTable {
    /// Every rate the table holds has positive parts, as each `Rate` does.
    #[verifier::type_invariant]
    spec fn positive_rates(self) -> bool {
        rates_positive(self.sources@)
    }
}

impl View for SourceTable {
    type V = Seq<Source>;

    closed spec fn view(&self) -> Seq<Source> {
        self.sources@
    }
}

/// A depth beyond which a parent chain is treated as a cycle. Real trees are a
/// handful of levels; this is a backstop rather than a limit anyone meets.
pub open spec fn max_depth() -> nat {
    32
}

/// The first declared clock with this identifier.
pub open spec fn find_source(s: Seq<Source>, id: SourceId) -> Option<Source>
    decreases s.len(),
{
    if s.len() == 0 {
        None
    } else if s[0].id == id {
        Some(s[0])
    } else {
        find_source(s.drop_first(), id)
    }
}

/// The walk `SourceTable::resolve` makes from `cur` towards the root, with the
/// ratio accumulated so far and `fuel` levels left before it calls the chain a
/// cycle.
pub open spec fn resolve_walk(
    table: Seq<Source>,
    id: SourceId,
    declared: Rate,
    cur: Source,
    ratio: Rate,
    fuel: nat,
) -> Result<Rate, TreeFault>
    decreases fuel,
{
    if fuel == 0 {
        Err(TreeFault::Cycle(id))
    } else {
        match cur.origin {
            Origin::Root => match cur.nominal.spec_mul(ratio) {
                None => Err(TreeFault::RateOverflow(id)),
                Some(implied) => if implied == declared {
                    Ok(implied)
                } else {
                    Err(TreeFault::Disagrees { child: id, declared, implied })
                },
            },
            Origin::Derived { parent, ratio: r } => match ratio.spec_mul(r) {
                None => Err(TreeFault::RateOverflow(id)),
                Some(next) => match find_source(table, parent) {
                    None => Err(TreeFault::UnknownParent { child: cur.id, parent }),
                    Some(p) => resolve_walk(table, id, declared, p, next, (fuel - 1) as nat),
                },
            },
        }
    }
}

/// The frequency the tree implies for `id`, checked against the declaration.
pub open spec fn resolved(table: Seq<Source>, id: SourceId) -> Result<Rate, TreeFault> {
    match find_source(table, id) {
        None => Err(TreeFault::Unknown(id)),
        Some(s) => resolve_walk(table, id, s.nominal, s, Rate::reduced_of(1, 1), max_depth()),
    }
}

/// Where the parent chain from `cur` ends, and the product of the ratios on
/// the way up, as a numerator and a denominator; `None` where the chain names
/// an undeclared parent or runs longer than `fuel`.
pub open spec fn chain_to_root(table: Seq<Source>, cur: Source, fuel: nat) -> Option<(Source, nat, nat)>
    decreases fuel,
{
    if fuel == 0 {
        None
    } else {
        match cur.origin {
            Origin::Root => Some((cur, 1nat, 1nat)),
            Origin::Derived { parent, ratio } => match find_source(table, parent) {
                None => None,
                Some(p) => match chain_to_root(table, p, (fuel - 1) as nat) {
                    None => None,
                    Some((root, n, d)) => Some(
                        (root, n * (ratio.num() as nat), d * (ratio.den() as nat)),
                    ),
                },
            },
        }
    }
}

/// Whether every rate a table declares has positive parts.
pub open spec fn rates_positive(table: Seq<Source>) -> bool {
    forall|k: int|
        0 <= k < table.len() ==> {
            &&& (#[trigger] table[k]).nominal.num() > 0
            &&& table[k].nominal.den() > 0
            &&& (table[k].origin matches Origin::Derived { ratio, .. } ==> ratio.num() > 0
                && ratio.den() > 0)
        }
}

proof fn lemma_found_is_declared(table: Seq<Source>, id: SourceId)
    ensures
        find_source(table, id) matches Some(s) ==> exists|k: int|
            0 <= k < table.len() && #[trigger] table[k] == s,
    decreases table.len(),
{
    if table.len() > 0 && table[0].id != id {
        lemma_found_is_declared(table.drop_first(), id);
        if find_source(table, id) is Some {
            let s = find_source(table, id)->Some_0;
            let k = choose|k: int| 0 <= k < table.drop_first().len() && table.drop_first()[k] == s;
            assert(table[k + 1] == s);
        }
    }
}

proof fn lemma_walk_is_chain(
    table: Seq<Source>,
    id: SourceId,
    declared: Rate,
    cur: Source,
    acc: Rate,
    fuel: nat,
)
    requires
        rates_positive(table),
        exists|k: int| 0 <= k < table.len() && #[trigger] table[k] == cur,
        acc.num() > 0,
        acc.den() > 0,
    ensures
        resolve_walk(table, id, declared, cur, acc, fuel) matches Ok(rate) ==> chain_to_root(
            table,
            cur,
            fuel,
        ) matches Some((root, n, d)) && rate.num() * root.nominal.den() * acc.den() * d
            == rate.den() * root.nominal.num() * acc.num() * n,
    decreases fuel,
{
    if fuel > 0 {
        let k0 = choose|k: int| 0 <= k < table.len() && #[trigger] table[k] == cur;
        assert(rates_positive(table) ==> table[k0].nominal.num() > 0);
        match cur.origin {
            Origin::Root => {
                lemma_product_is_exact(cur.nominal, acc);
                if resolve_walk(table, id, declared, cur, acc, fuel) is Ok {
                    let rate = resolve_walk(table, id, declared, cur, acc, fuel)->Ok_0;
                    let (rn, rd, cn, cd, an, ad) = (
                        rate.num() as int,
                        rate.den() as int,
                        cur.nominal.num() as int,
                        cur.nominal.den() as int,
                        acc.num() as int,
                        acc.den() as int,
                    );
                    assert(rn * cd * ad * 1 == rd * cn * an * 1) by (nonlinear_arith)
                        requires
                            rn * (cd * ad) == rd * (cn * an),
                    ;
                }
            },
            Origin::Derived { parent, ratio } => {
                lemma_product_is_exact(acc, ratio);
                match acc.spec_mul(ratio) {
                    None => {},
                    Some(next) => match find_source(table, parent) {
                        None => {},
                        Some(p) => {
                            lemma_found_is_declared(table, parent);
                            lemma_walk_is_chain(table, id, declared, p, next, (fuel - 1) as nat);
                            if resolve_walk(table, id, declared, cur, acc, fuel) is Ok {
                                let rate = resolve_walk(table, id, declared, cur, acc, fuel)->Ok_0;
                                let (root, n2, d2) = chain_to_root(table, p, (fuel - 1) as nat)->Some_0;
                                let x = rate.num() * root.nominal.den();
                                let y = rate.den() * root.nominal.num();
                                let (nn, nd, an, ad, rn, rd) = (
                                    next.num() as int,
                                    next.den() as int,
                                    acc.num() as int,
                                    acc.den() as int,
                                    ratio.num() as int,
                                    ratio.den() as int,
                                );
                                let lhs = x * ad * (d2 * rd);
                                let rhs = y * an * (n2 * rn);
                                assert(nd * lhs == (x * nd * d2) * (ad * rd)) by (nonlinear_arith)
                                    requires
                                        lhs == x * ad * (d2 * rd),
                                ;
                                assert(nd * rhs == (y * n2) * (nd * (an * rn))) by (nonlinear_arith)
                                    requires
                                        rhs == y * an * (n2 * rn),
                                ;
                                assert((y * nn * n2) * (ad * rd) == (y * n2) * (nn * (ad * rd)))
                                    by (nonlinear_arith);
                                vstd::arithmetic::mul::lemma_mul_equality_converse(nd, lhs, rhs);
                            }
                        },
                    },
                }
            },
        }
    }
}

/// A resolved rate is the root's rate times the product of the ratios along
/// the parent chain: the tree implies the frequency exactly.
pub proof fn lemma_resolved_is_chain_product(table: Seq<Source>, id: SourceId)
    requires
        rates_positive(table),
    ensures
        resolved(table, id) matches Ok(rate) ==> find_source(table, id) matches Some(s)
            && chain_to_root(table, s, max_depth()) matches Some((root, n, d)) && rate.num()
            * root.nominal.den() * d == rate.den() * root.nominal.num() * n,
{
    match find_source(table, id) {
        None => {},
        Some(s) => {
            lemma_found_is_declared(table, id);
            let one = Rate::reduced_of(1, 1);
            assert(spec_gcd(1, 1) == 1) by {
                reveal_with_fuel(spec_gcd, 3);
            }
            Rate::lemma_reduced_of(1, 1);
            lemma_walk_is_chain(table, id, s.nominal, s, one, max_depth());
            if resolved(table, id) is Ok {
                let rate = resolved(table, id)->Ok_0;
                let (root, n, d) = chain_to_root(table, s, max_depth())->Some_0;
                let x = rate.num() * root.nominal.den();
                let y = rate.den() * root.nominal.num();
                assert(x * 1 * d == y * 1 * n ==> x * d == y * n) by (nonlinear_arith);
            }
        },
    }
}

/// The walk `SourceTable::valid_over` makes from `cur` towards the root.
pub open spec fn valid_walk(table: Seq<Source>, id: SourceId, cur: Source, span: Span, fuel: nat) -> Result<
    bool,
    TreeFault,
>
    decreases fuel,
{
    if fuel == 0 {
        Err(TreeFault::Cycle(id))
    } else if !cur.valid.covers(span) {
        Ok(false)
    } else {
        match cur.origin {
            Origin::Root => Ok(true),
            Origin::Derived { parent, .. } => match find_source(table, parent) {
                None => Err(TreeFault::UnknownParent { child: cur.id, parent }),
                Some(p) => valid_walk(table, id, p, span, (fuel - 1) as nat),
            },
        }
    }
}

/// Whether `id` and every clock above it can be trusted across `span`.
pub open spec fn valid_over_of(table: Seq<Source>, id: SourceId, span: Span) -> Result<
    bool,
    TreeFault,
> {
    match find_source(table, id) {
        None => Err(TreeFault::Unknown(id)),
        Some(s) => valid_walk(table, id, s, span, max_depth()),
    }
}

/// The walk `SourceTable::root_of` makes from `cur` towards the root.
pub open spec fn root_walk(table: Seq<Source>, id: SourceId, cur: Source, fuel: nat) -> Result<
    SourceId,
    TreeFault,
>
    decreases fuel,
{
    if fuel == 0 {
        Err(TreeFault::Cycle(id))
    } else {
        match cur.origin {
            Origin::Root => Ok(cur.id),
            Origin::Derived { parent, .. } => match find_source(table, parent) {
                None => Err(TreeFault::UnknownParent { child: cur.id, parent }),
                Some(p) => root_walk(table, id, p, (fuel - 1) as nat),
            },
        }
    }
}

/// The root `id` hangs off.
pub open spec fn root_of_spec(table: Seq<Source>, id: SourceId) -> Result<SourceId, TreeFault> {
    match find_source(table, id) {
        None => Err(TreeFault::Unknown(id)),
        Some(s) => root_walk(table, id, s, max_depth()),
    }
}

impl SourceTable {
    /// A table of the given clocks.
    pub fn new(sources: Vec<Source>) -> (r: Self)
        ensures
            r@ == sources@,
    {
        let mut k: usize = 0;
        while k < sources.len()
            invariant
                k <= sources@.len(),
                forall|j: int|
                    0 <= j < k ==> {
                        &&& (#[trigger] sources@[j]).nominal.num() > 0
                        &&& sources@[j].nominal.den() > 0
                        &&& (sources@[j].origin matches Origin::Derived { ratio, .. }
                            ==> ratio.num() > 0 && ratio.den() > 0)
                    },
            decreases sources@.len() - k,
        {
            let nominal = sources[k].nominal;
            let _ = nominal.num();
            let _ = nominal.den();
            match sources[k].origin {
                Origin::Derived { ratio, .. } => {
                    let _ = ratio.num();
                    let _ = ratio.den();
                },
                Origin::Root => {},
            }
            k = k + 1;
        }
        Self { sources }
    }

    /// The first declared clock with this identifier.
    pub fn get(&self, id: SourceId) -> (r: Option<&Source>)
        ensures
            r is None <==> find_source(self@, id) is None,
            r matches Some(s) ==> find_source(self@, id) == Some(*s),
    {
        let mut i: usize = 0;
        assert(self.sources@.subrange(0, self.sources@.len() as int) =~= self.sources@);
        while i < self.sources.len()
            invariant
                0 <= i <= self.sources@.len(),
                find_source(self.sources@, id) == find_source(
                    self.sources@.subrange(i as int, self.sources@.len() as int),
                    id,
                ),
            decreases self.sources@.len() - i,
        {
            let ghost rest = self.sources@.subrange(i as int, self.sources@.len() as int);
            assert(rest[0] == self.sources@[i as int]);
            if self.sources[i].id == id {
                return Some(&self.sources[i]);
            }
            assert(rest.drop_first() =~= self.sources@.subrange(
                i + 1,
                self.sources@.len() as int,
            ));
            i = i + 1;
        }
        None
    }

    fn require(&self, id: SourceId) -> (r: Result<&Source, TreeFault>)
        ensures
            r matches Err(e) ==> e == TreeFault::Unknown(id) && find_source(self@, id) is None,
            r matches Ok(s) ==> find_source(self@, id) == Some(*s),
    {
        match self.get(id) {
            Some(s) => Ok(s),
            None => Err(TreeFault::Unknown(id)),
        }
    }

    /// The frequency implied by walking to the root, and the check that the
    /// declared frequency agrees with it.
    pub fn resolve(&self, id: SourceId) -> (r: Result<Rate, TreeFault>)
        ensures
            r == resolved(self@, id),
            r matches Ok(rate) ==> find_source(self@, id) matches Some(s) && s.nominal == rate,
            r matches Ok(rate) ==> find_source(self@, id) matches Some(s) && chain_to_root(
                self@,
                s,
                max_depth(),
            ) matches Some((root, n, d)) && rate.num() * root.nominal.den() * d == rate.den()
                * root.nominal.num() * n,
    {
        proof {
            use_type_invariant(self);
        }
        let start = self.require(id)?;
        let declared = start.nominal;
        let mut cursor = start;
        let mut ratio = match Rate::hz(1) {
            Some(one) => one,
            None => return Err(TreeFault::Unknown(id)),
        };
        let mut fuel: usize = 32;
        while fuel > 0
            invariant
                fuel <= 32,
                resolve_walk(self@, id, declared, *cursor, ratio, fuel as nat) == resolved(
                    self@,
                    id,
                ),
                find_source(self@, id) == Some(*start),
                declared == start.nominal,
                rates_positive(self@),
            decreases fuel,
        {
            match cursor.origin {
                Origin::Root => {
                    proof {
                        lemma_resolved_is_chain_product(self@, id);
                    }
                    let implied = match cursor.nominal.checked_mul(ratio) {
                        Some(v) => v,
                        None => return Err(TreeFault::RateOverflow(id)),
                    };
                    return if implied == declared {
                        Ok(implied)
                    } else {
                        Err(TreeFault::Disagrees { child: id, declared, implied })
                    };
                },
                Origin::Derived { parent, ratio: r } => {
                    ratio = match ratio.checked_mul(r) {
                        Some(v) => v,
                        None => return Err(TreeFault::RateOverflow(id)),
                    };
                    cursor = match self.get(parent) {
                        Some(p) => p,
                        None => return Err(TreeFault::UnknownParent { child: cursor.id, parent }),
                    };
                },
            }
            fuel = fuel - 1;
        }
        Err(TreeFault::Cycle(id))
    }

    /// Whether this clock can be trusted across the whole of `span`, taking its
    /// ancestors into account.
    ///
    /// A clock is no more trustworthy than the clock it hangs off.
    pub fn valid_over(&self, id: SourceId, span: Span) -> (r: Result<bool, TreeFault>)
        ensures
            r == valid_over_of(self@, id, span),
    {
        let start = self.require(id)?;
        let mut cursor = start;
        let mut fuel: usize = 32;
        while fuel > 0
            invariant
                fuel <= 32,
                valid_walk(self@, id, *cursor, span, fuel as nat) == valid_over_of(self@, id, span),
            decreases fuel,
        {
            if !cursor.valid.covers(span) {
                return Ok(false);
            }
            match cursor.origin {
                Origin::Root => return Ok(true),
                Origin::Derived { parent, .. } => {
                    cursor = match self.get(parent) {
                        Some(p) => p,
                        None => return Err(TreeFault::UnknownParent { child: cursor.id, parent }),
                    };
                },
            }
            fuel = fuel - 1;
        }
        Err(TreeFault::Cycle(id))
    }

    /// The root this clock hangs off.
    pub fn root_of(&self, id: SourceId) -> (r: Result<SourceId, TreeFault>)
        ensures
            r == root_of_spec(self@, id),
    {
        let start = self.require(id)?;
        let mut cursor = start;
        let mut fuel: usize = 32;
        while fuel > 0
            invariant
                fuel <= 32,
                root_walk(self@, id, *cursor, fuel as nat) == root_of_spec(self@, id),
            decreases fuel,
        {
            match cursor.origin {
                Origin::Root => return Ok(cursor.id),
                Origin::Derived { parent, .. } => {
                    cursor = match self.get(parent) {
                        Some(p) => p,
                        None => return Err(TreeFault::UnknownParent { child: cursor.id, parent }),
                    };
                },
            }
            fuel = fuel - 1;
        }
        Err(TreeFault::Cycle(id))
    }

    /// Whether two clocks fail together: they share a root.
    pub fn correlated(&self, a: SourceId, b: SourceId) -> (r: Result<bool, TreeFault>)
        ensures
            r == (match (root_of_spec(self@, a), root_of_spec(self@, b)) {
                (Err(e), _) => Err(e),
                (Ok(_), Err(e)) => Err(e),
                (Ok(x), Ok(y)) => Ok(x == y),
            }),
    {
        let ra = self.root_of(a)?;
        let rb = self.root_of(b)?;
        Ok(ra == rb)
    }
}

/// A walk that settles with some fuel settles the same way with more.
proof fn lemma_valid_walk_fuel(table: Seq<Source>, id: SourceId, cur: Source, span: Span, f: nat, g: nat)
    requires
        f <= g,
        valid_walk(table, id, cur, span, f) is Ok,
    ensures
        valid_walk(table, id, cur, span, g) == valid_walk(table, id, cur, span, f),
    decreases f,
{
    if f > 0 && cur.valid.covers(span) {
        if let Origin::Derived { parent, .. } = cur.origin {
            if let Some(p) = find_source(table, parent) {
                lemma_valid_walk_fuel(table, id, p, span, (f - 1) as nat, (g - 1) as nat);
                lemma_valid_walk_ids(table, id, id, p, span, (f - 1) as nat);
            }
        }
    }
}

/// The identifier a walk reports faults under does not change whether it
/// settles, nor what it settles on.
proof fn lemma_valid_walk_ids(table: Seq<Source>, a: SourceId, b: SourceId, cur: Source, span: Span, f: nat)
    ensures
        valid_walk(table, a, cur, span, f) is Ok <==> valid_walk(table, b, cur, span, f) is Ok,
        valid_walk(table, a, cur, span, f) is Ok ==> valid_walk(table, a, cur, span, f)
            == valid_walk(table, b, cur, span, f),
    decreases f,
{
    if f > 0 && cur.valid.covers(span) {
        if let Origin::Derived { parent, .. } = cur.origin {
            if let Some(p) = find_source(table, parent) {
                lemma_valid_walk_ids(table, a, b, p, span, (f - 1) as nat);
            }
        }
    }
}

/// A clock is no more trustworthy than the clock it hangs off: where a derived
/// clock is found valid across a span, so is its parent, and so is it itself.
pub proof fn lemma_no_more_trustworthy_than_parent(
    table: Seq<Source>,
    id: SourceId,
    child: Source,
    parent: SourceId,
    ratio: Rate,
    span: Span,
)
    requires
        find_source(table, id) == Some(child),
        child.origin == (Origin::Derived { parent, ratio }),
        valid_over_of(table, id, span) == Ok::<bool, TreeFault>(true),
    ensures
        child.valid.covers(span),
        valid_over_of(table, parent, span) == Ok::<bool, TreeFault>(true),
{
    let p = find_source(table, parent).unwrap();
    lemma_valid_walk_fuel(table, id, p, span, (max_depth() - 1) as nat, max_depth());
    lemma_valid_walk_ids(table, id, parent, p, span, max_depth());
}

/// Correlation is symmetric.
pub proof fn lemma_correlated_symmetric(table: Seq<Source>, a: SourceId, b: SourceId)
    requires
        root_of_spec(table, a) is Ok,
        root_of_spec(table, b) is Ok,
    ensures
        (root_of_spec(table, a) == root_of_spec(table, b)) == (root_of_spec(table, b)
            == root_of_spec(table, a)),
{
}

/// How a sleep primitive turns a requested delay into a whole number of ticks.
#[derive(Clone, Copy, PartialEq, Eq, Structural, Debug, Hash)]
pub enum Rounding {
    /// Rounds up to a whole tick. The worst case takes the ceiling.
    Up,
    /// Returns as asked, to the resolution of the clock.
    Exact,
}

/// What a wait does between polls, and therefore which clock it rides on.
#[derive(Clone, Copy, Debug)]
pub enum Delay {
    /// A bare spin. Nothing here measures time, so the cost stays a count.
    Bare,
    /// A calibrated busy loop, with the clock the calibration was taken
    /// against.
    Spin { per_iter: Quantity, calibrated_against: Option<SourceId> },
    /// A timer-backed sleep.
    Sleep {
        source: SourceId,
        /// One tick, in the source's own ticks.
        granularity: Interval,
        rounding: Rounding,
    },
}

impl Delay {
    /// The clock this delay rides on, where it rides on one.
    pub fn source(&self) -> (r: Option<SourceId>)
        ensures
            r == (match *self {
                Delay::Bare => None,
                Delay::Spin { calibrated_against, .. } => calibrated_against,
                Delay::Sleep { source, .. } => Some(source),
            }),
    {
        match self {
            Delay::Bare => None,
            Delay::Spin { calibrated_against, .. } => *calibrated_against,
            Delay::Sleep { source, .. } => Some(*source),
        }
    }

    /// The cost of asking this delay for `asked`, in the unit `asked` is in.
    ///
    /// A sleep that rounds up takes the ceiling at both endpoints against the
    /// widest tick, which is exact rather than conservative because rounding
    /// up is monotone.
    pub fn cost_of(&self, asked: Interval) -> (r: Option<Interval>)
        ensures
            r == (match *self {
                Delay::Sleep { granularity, rounding: Rounding::Up, .. } => {
                    let g = granularity.hi() as int;
                    if g > 0 && ceil_multiple(asked.hi() as int, g) <= Count::MAX {
                        Some(
                            Interval::from_ends(
                                ceil_multiple(asked.lo() as int, g) as Count,
                                ceil_multiple(asked.hi() as int, g) as Count,
                            ),
                        )
                    } else {
                        None
                    }
                },
                _ => Some(asked),
            }),
    {
        match self {
            Delay::Bare | Delay::Spin { .. } => Some(asked),
            Delay::Sleep { granularity, rounding, .. } => match rounding {
                Rounding::Exact => Some(asked),
                Rounding::Up => asked.checked_round_up_to_multiple(granularity.hi()),
            },
        }
    }
}

} // verus!
