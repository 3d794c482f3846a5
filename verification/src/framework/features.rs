//! Named feature values of a position, and the definitions that describe them.

use vstd::prelude::*;
use vstd::string::*;
use crate::framework::text::text_eq;

verus! {

/// Which vocabulary a feature belongs to.
#[derive(Clone, Copy, Debug, PartialEq, Eq, Hash)]
pub enum Tier {
    /// Computed from a game's structural primitives alone.
    Primitive,
    /// Supplied by the game itself (strategic vocabulary such as threats).
    Supplied,
    /// Invented by concept induction.
    Invented,
}

/// The value of one feature at a position.
#[derive(Clone, Debug, PartialEq, Eq)]
pub enum FeatureValue {
    /// A truth value.
    Bool(bool),
    /// A count or other integer.
    Int(i64),
    /// A set of positions, ascending without repeats.
    CellSet(Vec<usize>),
}

/// The definition of one feature: its name, its tier and what it measures.
#[derive(Clone, Debug, PartialEq, Eq)]
pub struct FeatureDef {
    /// Unique feature name.
    pub name: String,
    /// Vocabulary tier.
    pub tier: Tier,
    /// What the feature measures.
    pub description: String,
}

/// Named feature values of one position, in the order they were computed.
#[derive(Clone, Debug, PartialEq, Eq)]
pub struct FeatureVector {
    /// `(name, value)` entries.
    pub entries: Vec<(String, FeatureValue)>,
}

impl FeatureVector {
    /// An empty vector.
    pub fn new() -> (v: FeatureVector)
        ensures
            v.entries@.len() == 0,
    {
        FeatureVector { entries: Vec::new() }
    }

    /// The value of the first entry named `name`, if any.
    pub fn get(&self, name: &str) -> (r: Option<&FeatureValue>)
        ensures
            match r {
                Some(v) => exists|k: int|
                    0 <= k < self.entries@.len() && (#[trigger] self.entries@[k]).0@ == name@
                        && self.entries@[k].1 == *v && forall|j: int|
                        0 <= j < k ==> self.entries@[j].0@ != name@,
                None => forall|k: int|
                    0 <= k < self.entries@.len() ==> (#[trigger] self.entries@[k]).0@ != name@,
            },
    {
        let mut k: usize = 0;
        while k < self.entries.len()
            invariant
                k <= self.entries@.len(),
                forall|j: int| 0 <= j < k ==> (#[trigger] self.entries@[j]).0@ != name@,
            decreases self.entries@.len() - k,
        {
            if text_eq(self.entries[k].0.as_str(), name) {
                return Some(&self.entries[k].1);
            }
            k = k + 1;
        }
        None
    }

    /// Number of entries.
    pub fn len(&self) -> (n: usize)
        ensures
            n == self.entries@.len(),
    {
        self.entries.len()
    }
}

/// The lower-case name of a tier.
pub open spec fn tier_text(tier: Tier) -> Seq<char> {
    match tier {
        Tier::Primitive => "primitive"@,
        Tier::Supplied => "supplied"@,
        Tier::Invented => "invented"@,
    }
}

/// The lower-case name of a tier, as datasets and vocabulary reports key it.
pub fn tier_name(tier: Tier) -> (s: &'static str)
    ensures
        s@ == tier_text(tier),
{
    proof {
        reveal_strlit("primitive");
        reveal_strlit("supplied");
        reveal_strlit("invented");
    }
    match tier {
        Tier::Primitive => "primitive",
        Tier::Supplied => "supplied",
        Tier::Invented => "invented",
    }
}

/// The truth a feature value stands for: the flag itself, a positive count, a non-empty set.
pub open spec fn truth(value: FeatureValue) -> bool {
    match value {
        FeatureValue::Bool(b) => b,
        FeatureValue::Int(i) => i > 0,
        FeatureValue::CellSet(s) => s@.len() > 0,
    }
}

/// Reads a feature value as a truth value: the flag itself, a positive count, a non-empty set.
pub fn boolify(value: &FeatureValue) -> (b: bool)
    ensures
        b == truth(*value),
{
    match value {
        FeatureValue::Bool(b) => *b,
        FeatureValue::Int(i) => *i > 0,
        FeatureValue::CellSet(s) => s.len() > 0,
    }
}

} // verus!
