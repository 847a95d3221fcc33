//! The names of the split rules that a sampler is configured with.
use vstd::prelude::*;

verus! {

broadcast use vstd::string::group_string_axioms;

/// A kind of split rule: continuous thresholds or one-hot categories.
#[derive(Debug, Clone, Copy, PartialEq, Eq, Structural)]
pub enum SplitRuleKind {
    /// Splits a continuous feature at a threshold.
    Continuous,
    /// Splits a categorical feature on one category.
    OneHot,
}

/// The rule kind that a name stands for, if any.
pub open spec fn rule_kind(name: Seq<char>) -> Option<SplitRuleKind> {
    if name == "ContinuousSplit"@ {
        Some(SplitRuleKind::Continuous)
    } else if name == "OneHotSplit"@ {
        Some(SplitRuleKind::OneHot)
    } else {
        None
    }
}

/// The kinds of the named split rules, in order; fails with the first name that is
/// neither "ContinuousSplit" nor "OneHotSplit".
pub fn parse_split_rules(names: &Vec<String>) -> (r: Result<Vec<SplitRuleKind>, String>)
    ensures
        r is Ok <==> forall|k: int| 0 <= k < names@.len() ==> #[trigger] rule_kind(names@[k]@) is Some,
        r matches Ok(kinds) ==> {
            &&& kinds@.len() == names@.len()
            &&& forall|k: int|
                0 <= k < names@.len() ==> Some(#[trigger] kinds@[k]) == rule_kind(names@[k]@)
        },
        r matches Err(name) ==> exists|j: int|
            {
                &&& 0 <= j < names@.len()
                &&& rule_kind(#[trigger] names@[j]@) is None
                &&& name@ == names@[j]@
                &&& forall|k: int| 0 <= k < j ==> #[trigger] rule_kind(names@[k]@) is Some
            },
{
    let mut kinds: Vec<SplitRuleKind> = Vec::new();
    let mut i: usize = 0;
    while i < names.len()
        invariant
            i <= names@.len(),
            kinds@.len() == i,
            forall|k: int| 0 <= k < i ==> Some(#[trigger] kinds@[k]) == rule_kind(names@[k]@),
        decreases names@.len() - i,
    {
        let continuous = "ContinuousSplit".to_string();
        let one_hot = "OneHotSplit".to_string();
        if names[i] == continuous {
            kinds.push(SplitRuleKind::Continuous);
        } else if names[i] == one_hot {
            kinds.push(SplitRuleKind::OneHot);
        } else {
            proof {
                assert(rule_kind(names@[i as int]@) is None);
                assert forall|k: int| 0 <= k < i implies #[trigger] rule_kind(names@[k]@) is Some by {
                    assert(Some(kinds@[k]) == rule_kind(names@[k]@));
                }
            }
            return Err(names[i].clone());
        }
        i += 1;
    }
    proof {
        assert forall|k: int| 0 <= k < names@.len() implies #[trigger] rule_kind(names@[k]@) is Some by {
            assert(Some(kinds@[k]) == rule_kind(names@[k]@));
        }
    }
    Ok(kinds)
}

} // verus!
