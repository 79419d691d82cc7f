//! The merge plan: files are paired level by level until one is left.

use vstd::arithmetic::power2::{lemma2_to64, lemma_pow2_unfold, pow2};
use vstd::prelude::*;
use crate::error::FqcatError;

verus! {

/// One planned merge: two file names.
pub ghost struct PairPlan {
    pub left: Seq<char>,
    pub right: Seq<char>,
}

/// One level of the plan.
pub ghost struct LevelPlan {
    /// The number of the level; the first level is 1.
    pub level: nat,
    /// The merges of the level, in order.
    pub pairs: Seq<PairPlan>,
    /// The names of the files that are expected to exist after the merges.
    pub survivors: Seq<Seq<char>>,
}

/// The names held by a list of strings.
pub open spec fn names_of(list: Seq<String>) -> Seq<Seq<char>> {
    Seq::new(list.len(), |i: int| list[i]@)
}

/// The pairs of a list of names: its first and second name, its third and
/// fourth, and so on. The last name of a list of odd length is in no pair.
pub open spec fn pairs_of(names: Seq<Seq<char>>) -> Seq<PairPlan> {
    Seq::new(names.len() / 2, |i: int| PairPlan { left: names[2 * i], right: names[2 * i + 1] })
}

/// The names that are left after a level: the left name of every pair and,
/// for a list of odd length, its last name.
pub open spec fn survivors_of(names: Seq<Seq<char>>) -> Seq<Seq<char>> {
    Seq::new((names.len() + 1) / 2, |i: int| names[2 * i])
}

/// The plan of a single level.
pub open spec fn level_plan(names: Seq<Seq<char>>, level: nat) -> LevelPlan {
    LevelPlan { level, pairs: pairs_of(names), survivors: survivors_of(names) }
}

/// The whole plan for a list of names: the level after `previous`, then the
/// plan for its survivors, as long as more than one name is left.
pub open spec fn plan(names: Seq<Seq<char>>, previous: nat) -> Seq<LevelPlan>
    decreases names.len(),
{
    if survivors_of(names).len() > 1 {
        seq![level_plan(names, previous + 1)] + plan(survivors_of(names), previous + 1)
    } else {
        seq![level_plan(names, previous + 1)]
    }
}

/// The number of levels in the plan for `count` names.
pub open spec fn depth(count: nat) -> nat
    decreases count,
{
    if (count + 1) / 2 > 1 {
        1 + depth((count + 1) / 2)
    } else {
        1
    }
}

/// The plan for a list of names has as many levels as `depth` says, and
/// never more than the list has names, but for the one level of an empty
/// list.
pub proof fn lemma_plan_depth(names: Seq<Seq<char>>, previous: nat)
    ensures
        plan(names, previous).len() == depth(names.len()),
        1 <= depth(names.len()),
        depth(names.len()) <= names.len() || names.len() == 0,
    decreases names.len(),
{
    if survivors_of(names).len() > 1 {
        lemma_plan_depth(survivors_of(names), previous + 1);
    }
}

/// `levels` is the logarithm of `count` to the base 2, rounded up: the
/// least number of doublings that take 1 to `count` or beyond.
pub open spec fn is_ceil_log2(levels: nat, count: nat) -> bool {
    &&& count <= pow2(levels)
    &&& levels > 0 ==> pow2((levels - 1) as nat) < count
}

/// A level pairs half of its names, rounded down, and leaves half of them,
/// rounded up.
pub proof fn lemma_level_counts(names: Seq<Seq<char>>)
    ensures
        pairs_of(names).len() == names.len() / 2,
        survivors_of(names).len() == (names.len() + 1) / 2,
        pairs_of(names).len() + survivors_of(names).len() == names.len(),
{
}

/// The plan for two or more names has as many levels as the logarithm of
/// their number to the base 2, rounded up, and its last level leaves a
/// single name: the first of the list.
pub proof fn lemma_plan_levels(names: Seq<Seq<char>>, previous: nat)
    requires
        names.len() >= 2,
    ensures
        is_ceil_log2(plan(names, previous).len(), names.len()),
        plan(names, previous).last().survivors == seq![names[0]],
    decreases names.len(),
{
    let left = survivors_of(names);
    if left.len() > 1 {
        let rest = plan(left, previous + 1);
        lemma_plan_levels(left, previous + 1);
        lemma_pow2_unfold(rest.len());
        lemma_pow2_unfold((rest.len() + 1) as nat);
        assert(plan(names, previous).last() == rest.last());
    } else {
        lemma2_to64();
        assert(plan(names, previous).last().survivors =~= seq![names[0]]);
    }
}

/// A merge that is still to be made.
#[derive(Clone, Debug)]
pub struct MergePair {
    left_file: String,
    right_file: String,
}

impl View for MergePair {
    type V = PairPlan;

    closed spec fn view(&self) -> PairPlan {
        PairPlan { left: self.left_file@, right: self.right_file@ }
    }
}

impl MergePair {
    /// A pair of two file names.
    pub fn new(left_file: String, right_file: String) -> (pair: MergePair)
        ensures
            pair@ == (PairPlan { left: left_file@, right: right_file@ }),
    {
        MergePair { left_file, right_file }
    }

    /// The first file of the pair.
    pub fn left_file(&self) -> (name: &String)
        ensures
            name@ == self@.left,
    {
        &self.left_file
    }

    /// The second file of the pair.
    pub fn right_file(&self) -> (name: &String)
        ensures
            name@ == self@.right,
    {
        &self.right_file
    }
}

/// The pairs held by a list.
pub open spec fn pair_plans(list: Seq<MergePair>) -> Seq<PairPlan> {
    Seq::new(list.len(), |i: int| list[i]@)
}

/// Plans one level: walks the list two names at a time. Returns the pairs
/// and the names that are left after the level.
pub fn plan_level(file_list: &Vec<String>) -> (out: (Vec<MergePair>, Vec<String>))
    ensures
        pair_plans(out.0@) == pairs_of(names_of(file_list@)),
        names_of(out.1@) == survivors_of(names_of(file_list@)),
{
    let ghost names = names_of(file_list@);
    let mut merge_pairs: Vec<MergePair> = Vec::new();
    let mut tmp_files: Vec<String> = Vec::new();
    let mut i: usize = 0;
    while i < file_list.len() && i + 1 < file_list.len()
        invariant
            i <= file_list.len(),
            i % 2 == 0,
            names == names_of(file_list@),
            merge_pairs@.len() == i / 2,
            tmp_files@.len() == i / 2,
            forall|k: int|
                0 <= k < merge_pairs@.len() ==> #[trigger] merge_pairs@[k]@ == (PairPlan {
                    left: names[2 * k],
                    right: names[2 * k + 1],
                }),
            forall|k: int| 0 <= k < tmp_files@.len() ==> #[trigger] tmp_files@[k]@ == names[2 * k],
        decreases file_list.len() - i,
    {
        let left = file_list[i].clone();
        let right = file_list[i + 1].clone();
        tmp_files.push(left.clone());
        merge_pairs.push(MergePair::new(left, right));
        i += 2;
    }
    if i < file_list.len() {
        tmp_files.push(file_list[i].clone());
    }
    assert(pair_plans(merge_pairs@) =~= pairs_of(names));
    assert(names_of(tmp_files@) =~= survivors_of(names));
    (merge_pairs, tmp_files)
}

/// The plan of a level together with the plan for what is left after it.
#[derive(Debug)]
pub struct MergeTree {
    level: usize,
    post_merge_files: Vec<String>,
    merge_pairs: Vec<MergePair>,
    subtree: Option<Box<MergeTree>>,
}

impl View for MergeTree {
    type V = Seq<LevelPlan>;

    /// The levels of the tree, from this one down.
    closed spec fn view(&self) -> Seq<LevelPlan> {
        self.levels()
    }
}

/// A chain of levels is well formed when every level keeps the left name
/// of each of its pairs and at most one name more, when a level follows
/// exactly where more than one name is left, and when that level is the
/// plan for the names that are left, numbered one higher.
pub open spec fn well_formed(chain: Seq<LevelPlan>) -> bool {
    &&& chain.len() >= 1
    &&& forall|k: int|
        0 <= k < chain.len() ==> {
            &&& (#[trigger] chain[k]).level >= 1
            &&& chain[k].pairs.len() <= chain[k].survivors.len() <= chain[k].pairs.len() + 1
            &&& forall|i: int|
                0 <= i < chain[k].pairs.len() ==> chain[k].survivors[i] == chain[k].pairs[i].left
            &&& (k + 1 < chain.len()) == (chain[k].survivors.len() > 1)
        }
    &&& forall|k: int|
        0 <= k < chain.len() - 1 ==> #[trigger] chain[k + 1] == level_plan(
            chain[k].survivors,
            chain[k].level + 1,
        )
}

/// Every plan is well formed.
pub proof fn lemma_plan_well_formed(names: Seq<Seq<char>>, previous: nat)
    ensures
        well_formed(plan(names, previous)),
        plan(names, previous)[0] == level_plan(names, previous + 1),
    decreases names.len(),
{
    let chain = plan(names, previous);
    let here = level_plan(names, previous + 1);
    if survivors_of(names).len() > 1 {
        let rest = plan(survivors_of(names), previous + 1);
        lemma_plan_well_formed(survivors_of(names), previous + 1);
        assert forall|k: int| 0 <= k < chain.len() implies {
            &&& (#[trigger] chain[k]).level >= 1
            &&& chain[k].pairs.len() <= chain[k].survivors.len() <= chain[k].pairs.len() + 1
            &&& forall|i: int|
                0 <= i < chain[k].pairs.len() ==> chain[k].survivors[i] == chain[k].pairs[i].left
            &&& (k + 1 < chain.len()) == (chain[k].survivors.len() > 1)
        } by {
            if k > 0 {
                assert(chain[k] == rest[k - 1]);
            }
        }
        assert forall|k: int| 0 <= k < chain.len() - 1 implies #[trigger] chain[k + 1]
            == level_plan(chain[k].survivors, chain[k].level + 1) by {
            if k > 0 {
                assert(chain[k] == rest[k - 1]);
                assert(chain[k + 1] == rest[k - 1 + 1]);
            } else {
                assert(chain[1] == rest[0]);
            }
        }
    }
}

impl MergeTree {
    spec fn levels(&self) -> Seq<LevelPlan>
        decreases self,
    {
        let here = LevelPlan {
            level: self.level as nat,
            pairs: pair_plans(self.merge_pairs@),
            survivors: names_of(self.post_merge_files@),
        };
        match self.subtree {
            Some(child) => seq![here] + child.levels(),
            None => seq![here],
        }
    }

    #[verifier::type_invariant]
    spec fn is_well_formed(self) -> bool {
        well_formed(self.levels())
    }

    /// The number of this level.
    pub fn level(&self) -> (level: usize)
        ensures
            well_formed(self@),
            level == self@[0].level,
    {
        proof {
            use_type_invariant(self);
        }
        self.level
    }

    /// The names of the files that are expected to exist after this level.
    pub fn post_merge_files(&self) -> (files: &Vec<String>)
        ensures
            well_formed(self@),
            names_of(files@) == self@[0].survivors,
    {
        proof {
            use_type_invariant(self);
        }
        &self.post_merge_files
    }

    /// The merges of this level.
    pub fn merge_pairs(&self) -> (pairs: &Vec<MergePair>)
        ensures
            well_formed(self@),
            pair_plans(pairs@) == self@[0].pairs,
    {
        proof {
            use_type_invariant(self);
        }
        &self.merge_pairs
    }

    /// The levels after this one, if there are any.
    pub fn subtree(&self) -> (child: Option<&MergeTree>)
        ensures
            well_formed(self@),
            match child {
                Some(tree) => self@.len() > 1 && tree@ == self@.skip(1),
                None => self@.len() == 1,
            },
    {
        proof {
            use_type_invariant(self);
        }
        match &self.subtree {
            Some(tree) => {
                proof {
                    use_type_invariant(&**tree);
                    assert(self@.skip(1) =~= tree@);
                }
                Some(&**tree)
            },
            None => None,
        }
    }
}

/// Builds the plan for a list of files. Its first level is numbered one
/// above `level`, or 1 where no level is given. The first level pairs half
/// of the files, rounded down, and leaves half of them, rounded up; the
/// plan for two or more files has as many levels as the logarithm of their
/// number to the base 2, rounded up, and that for fewer has one.
pub fn build_merge_tree(file_list: &Vec<String>, level: Option<&usize>) -> (r: Result<
    MergeTree,
    FqcatError,
>)
    requires
        level matches Some(previous) ==> *previous + depth(file_list@.len()) <= usize::MAX,
    ensures
        r matches Ok(tree) && {
            &&& tree@ == plan(
                names_of(file_list@),
                match level {
                    Some(previous) => *previous as nat,
                    None => 0,
                },
            )
            &&& tree@[0].pairs.len() == file_list@.len() / 2
            &&& tree@[0].survivors.len() == (file_list@.len() + 1) / 2
            &&& file_list@.len() >= 2 ==> is_ceil_log2(tree@.len(), file_list@.len())
            &&& file_list@.len() <= 1 ==> tree@.len() == 1
        },
    decreases file_list@.len(),
{
    let previous_level: usize = match level {
        Some(previous) => *previous,
        None => 0,
    };
    proof {
        lemma_plan_depth(names_of(file_list@), previous_level as nat);
        lemma_plan_well_formed(names_of(file_list@), previous_level as nat);
        if file_list@.len() >= 2 {
            lemma_plan_levels(names_of(file_list@), previous_level as nat);
        }
    }
    let (merge_pairs, tmp_files) = plan_level(file_list);
    let this_level: usize = previous_level + 1;
    let count: usize = file_list.len();
    proof {
        assert(names_of(file_list@).len() == count);
        assert(tmp_files@.len() == names_of(tmp_files@).len());
        assert(tmp_files@.len() == (count + 1) / 2);
        if tmp_files@.len() > 1 {
            assert(depth(count as nat) == 1 + depth(tmp_files@.len()));
            assert(this_level + depth(tmp_files@.len()) <= usize::MAX);
        }
    }
    let subtree = if tmp_files.len() > 1 {
        match build_merge_tree(&tmp_files, Some(&this_level)) {
            Ok(child) => Some(Box::new(child)),
            Err(e) => {
                return Err(e);
            },
        }
    } else {
        None
    };
    let tree = MergeTree { level: this_level, post_merge_files: tmp_files, merge_pairs, subtree };
    assert(tree@ =~= plan(names_of(file_list@), previous_level as nat));
    Ok(tree)
}

} // verus!
