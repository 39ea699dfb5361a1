//! Sort modes and the order in which report rows are listed.
use vstd::prelude::*;
use crate::entry::ChildSizeEntry;

verus! {

/// Defined orderings for results.
#[derive(Debug, Clone, Copy, PartialEq, Eq, Structural)]
pub enum SortMode {
    /// Sort by contained number of files
    Count,
    /// Sort by total size of internal files
    Total,
    /// Sort by average size of internal files
    Average,
    /// Sort by maximum size of internal files
    Max,
    /// Sort by minimum size of internal files
    Min,
}

/// `str::to_lowercase` of a string.
pub uninterp spec fn lower_of(s: Seq<char>) -> Seq<char>;

/// Relies on `str::to_lowercase`: the lowercase form depends on the characters alone.
#[verifier::external_body]
fn lowercase(s: &str) -> (r: String)
    ensures
        r@ == lower_of(s@),
{
    s.to_lowercase()
}

/// The mode a lowercase name stands for.
pub open spec fn mode_named(s: Seq<char>) -> Option<SortMode> {
    if s == "count"@ {
        Some(SortMode::Count)
    } else if s == "total"@ {
        Some(SortMode::Total)
    } else if s == "average"@ {
        Some(SortMode::Average)
    } else if s == "max"@ {
        Some(SortMode::Max)
    } else if s == "min"@ {
        Some(SortMode::Min)
    } else {
        None
    }
}

/// Lexicographic order on keys, character by character.
pub open spec fn key_le(a: Seq<char>, b: Seq<char>) -> bool
    decreases a.len(),
{
    if a.len() == 0 {
        true
    } else if b.len() == 0 {
        false
    } else if (a[0] as u32) < (b[0] as u32) {
        true
    } else if (a[0] as u32) > (b[0] as u32) {
        false
    } else {
        key_le(a.drop_first(), b.drop_first())
    }
}

impl SortMode {
    /// The field of `e` that this mode sorts by.
    pub open spec fn metric_of(self, e: ChildSizeEntry) -> u64 {
        match self {
            SortMode::Count => e.count,
            SortMode::Total => e.total,
            SortMode::Average => e.average,
            SortMode::Max => e.max,
            SortMode::Min => e.min,
        }
    }

    /// Row `a` may come before row `b` in ascending order: a smaller field, or
    /// an equal field and a key that is not greater.
    pub open spec fn row_le(self, a: (Seq<char>, ChildSizeEntry), b: (Seq<char>, ChildSizeEntry)) -> bool {
        self.metric_of(a.1) < self.metric_of(b.1) || (self.metric_of(a.1) == self.metric_of(b.1)
            && key_le(a.0, b.0))
    }

    /// Row `a` may come before row `b`, in ascending order or, when `reverse`, descending.
    pub open spec fn in_order(
        self,
        reverse: bool,
        a: (Seq<char>, ChildSizeEntry),
        b: (Seq<char>, ChildSizeEntry),
    ) -> bool {
        if reverse {
            self.row_le(b, a)
        } else {
            self.row_le(a, b)
        }
    }

    /// The field of `e` that this mode sorts by.
    pub fn metric(&self, e: &ChildSizeEntry) -> (r: u64)
        ensures
            r == self.metric_of(*e),
    {
        match self {
            SortMode::Count => e.count,
            SortMode::Total => e.total,
            SortMode::Average => e.average,
            SortMode::Max => e.max,
            SortMode::Min => e.min,
        }
    }

    /// The mode named by an already lowercase name.
    pub fn from_lowercase(s: &str) -> (r: Option<SortMode>)
        ensures
            r == mode_named(s@),
    {
        let t = String::from_str(s);
        if t == String::from_str("count") {
            Some(SortMode::Count)
        } else if t == String::from_str("total") {
            Some(SortMode::Total)
        } else if t == String::from_str("average") {
            Some(SortMode::Average)
        } else if t == String::from_str("max") {
            Some(SortMode::Max)
        } else if t == String::from_str("min") {
            Some(SortMode::Min)
        } else {
            None
        }
    }

    /// The mode named by `s`, in any letter case.
    pub fn from_name(s: &str) -> (r: Option<SortMode>)
        ensures
            r == mode_named(lower_of(s@)),
    {
        let lower = lowercase(s);
        SortMode::from_lowercase(lower.as_str())
    }
}

impl std::str::FromStr for SortMode {
    type Err = &'static str;

    fn from_str(s: &str) -> (r: Result<SortMode, &'static str>)
        ensures
            match mode_named(lower_of(s@)) {
                Some(m) => r == Ok::<SortMode, &'static str>(m),
                None => r matches Err(e) && e@ == "no match"@,
            },
    {
        match SortMode::from_name(s) {
            Some(m) => Ok(m),
            None => Err("no match"),
        }
    }
}

/// Every key is ordered before itself.
pub proof fn lemma_key_le_reflexive(a: Seq<char>)
    ensures
        key_le(a, a),
    decreases a.len(),
{
    if a.len() > 0 {
        lemma_key_le_reflexive(a.drop_first());
    }
}

/// Of two keys, one is ordered before the other.
pub proof fn lemma_key_le_total(a: Seq<char>, b: Seq<char>)
    ensures
        key_le(a, b) || key_le(b, a),
    decreases a.len(),
{
    if a.len() > 0 && b.len() > 0 && a[0] as u32 == b[0] as u32 {
        lemma_key_le_total(a.drop_first(), b.drop_first());
    }
}

/// The order on keys is transitive.
pub proof fn lemma_key_le_transitive(a: Seq<char>, b: Seq<char>, c: Seq<char>)
    requires
        key_le(a, b),
        key_le(b, c),
    ensures
        key_le(a, c),
    decreases a.len(),
{
    if a.len() > 0 && b.len() > 0 && c.len() > 0 && a[0] as u32 == b[0] as u32 && b[0] as u32 == c[0] as u32 {
        lemma_key_le_transitive(a.drop_first(), b.drop_first(), c.drop_first());
    }
}

/// Two keys ordered both ways are equal.
pub proof fn lemma_key_le_antisymmetric(a: Seq<char>, b: Seq<char>)
    requires
        key_le(a, b),
        key_le(b, a),
    ensures
        a == b,
    decreases a.len(),
{
    if a.len() > 0 && b.len() > 0 {
        lemma_key_le_antisymmetric(a.drop_first(), b.drop_first());
        vstd::utf8::char_u32_cast(a[0], a[0] as u32);
        vstd::utf8::char_u32_cast(b[0], b[0] as u32);
        assert(a =~= seq![a[0]] + a.drop_first());
        assert(b =~= seq![b[0]] + b.drop_first());
    }
}

/// Two rows ordered both ways have the same key.
pub proof fn lemma_in_order_antisymmetric(
    mode: SortMode,
    reverse: bool,
    a: (Seq<char>, ChildSizeEntry),
    b: (Seq<char>, ChildSizeEntry),
)
    requires
        mode.in_order(reverse, a, b),
        mode.in_order(reverse, b, a),
    ensures
        a.0 == b.0,
{
    lemma_key_le_antisymmetric(a.0, b.0);
}

/// The order on rows is reflexive, total and transitive.
pub proof fn lemma_in_order(
    mode: SortMode,
    reverse: bool,
    a: (Seq<char>, ChildSizeEntry),
    b: (Seq<char>, ChildSizeEntry),
    c: (Seq<char>, ChildSizeEntry),
)
    ensures
        mode.in_order(reverse, a, a),
        mode.in_order(reverse, a, b) || mode.in_order(reverse, b, a),
        mode.in_order(reverse, a, b) && mode.in_order(reverse, b, c) ==> mode.in_order(
            reverse,
            a,
            c,
        ),
{
    lemma_key_le_reflexive(a.0);
    lemma_key_le_total(a.0, b.0);
    if key_le(a.0, b.0) && key_le(b.0, c.0) {
        lemma_key_le_transitive(a.0, b.0, c.0);
    }
    if key_le(c.0, b.0) && key_le(b.0, a.0) {
        lemma_key_le_transitive(c.0, b.0, a.0);
    }
}

} // verus!
