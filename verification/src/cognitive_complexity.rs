//! The cognitive complexity of the functions of a syntax tree.

use crate::laws::{
    lemma_merge_empty, lemma_merge_into_empty, lemma_recorded_is_merge, lemma_share_concat,
    lemma_tallied_holds_shares, lemma_tallied_in_steps,
};
use crate::syntax::{Kind, Node};
use crate::table::{fits, merged, names, share, tallied, Overflow, Table};
use vstd::prelude::*;

verus! {

/// How many of `nodes`, from position `start` on, are match arms.
pub open spec fn arms_from(nodes: Seq<Node>, start: int) -> nat
    decreases nodes.len() - start,
{
    if 0 <= start < nodes.len() {
        arms_from(nodes, start + 1) + if nodes[start].kind is Arm {
            1nat
        } else {
            0nat
        }
    } else {
        0
    }
}

/// How many of `nodes`, from position `start` on, are match arms with a
/// guard.
pub open spec fn guards_from(nodes: Seq<Node>, start: int) -> nat
    decreases nodes.len() - start,
{
    if 0 <= start < nodes.len() {
        guards_from(nodes, start + 1) + if nodes[start].kind == (Kind::Arm { guarded: true }) {
            1nat
        } else {
            0nat
        }
    } else {
        0
    }
}

/// What a construct adds to the score by itself: an `if` with an `else`
/// adds one; a `match` adds one if it has more than one arm, and one for
/// each arm with a guard. Loops add nothing, and neither does anything else.
pub open spec fn construct_score(node: Node) -> nat {
    match node.kind {
        Kind::If { has_else } => if has_else {
            1
        } else {
            0
        },
        Kind::Match => guards_from(node.children@, 0) + if arms_from(node.children@, 0) > 1 {
            1nat
        } else {
            0nat
        },
        _ => 0,
    }
}

/// Whether what is under a node of this kind is scored apart from what is
/// around it: the body of a function, of a method or of a closure.
pub open spec fn is_context(kind: Kind) -> bool {
    kind is Function || kind is Method || kind is Closure
}

/// What the tree under `node` adds to the score of the function whose body
/// it stands in: nothing where it is a context of its own, else the score
/// of the construct and of all that is under it.
pub open spec fn nested_score(node: Node) -> nat
    decreases node, 0nat,
{
    if is_context(node.kind) {
        0
    } else {
        construct_score(node) + nested_score_from(node.children@, 0)
    }
}

pub open spec fn nested_score_from(nodes: Seq<Node>, start: int) -> nat
    decreases nodes, nodes.len() - start,
{
    if 0 <= start < nodes.len() {
        nested_score(nodes[start]) + nested_score_from(nodes, start + 1)
    } else {
        0
    }
}

/// The score of a function with this body: one, and what the body adds.
pub open spec fn body_score(body: Seq<Node>) -> nat {
    1 + nested_score_from(body, 0)
}

/// What one node adds to the complexity table by itself: a function or a
/// method adds its score under its identifier.
pub open spec fn own_score(node: Node) -> Seq<(Seq<char>, nat)> {
    match node.kind {
        Kind::Function { identifier } => seq![(identifier@, body_score(node.children@))],
        Kind::Method { identifier, .. } => seq![(identifier@, body_score(node.children@))],
        _ => Seq::empty(),
    }
}

/// The scores of all functions and methods in the tree under `node`, those
/// inside other functions and inside closures too.
pub open spec fn scores(node: Node) -> Seq<(Seq<char>, nat)>
    decreases node, 0nat,
{
    own_score(node) + scores_from(node.children@, 0)
}

pub open spec fn scores_from(nodes: Seq<Node>, start: int) -> Seq<(Seq<char>, nat)>
    decreases nodes, nodes.len() - start,
{
    if 0 <= start < nodes.len() {
        scores(nodes[start]) + scores_from(nodes, start + 1)
    } else {
        Seq::empty()
    }
}

/// The complexity table of a syntax tree: for each identifier, the sum of
/// the scores of the functions and methods that bear it.
pub open spec fn complexity_table(tree: Node) -> Map<Seq<char>, nat> {
    tallied::<u64>(scores(tree))
}

/// The score of `node` itself under the identifier `name`: that of a
/// function or a method of this name.
pub open spec fn own_score_for(node: Node, name: Seq<char>) -> nat {
    match node.kind {
        Kind::Function { identifier } => if identifier@ == name {
            body_score(node.children@)
        } else {
            0
        },
        Kind::Method { identifier, .. } => if identifier@ == name {
            body_score(node.children@)
        } else {
            0
        },
        _ => 0,
    }
}

/// The sum of the scores of the functions and methods named `name` in the
/// tree under `node`.
pub open spec fn score_for(node: Node, name: Seq<char>) -> nat
    decreases node, 0nat,
{
    own_score_for(node, name) + score_from(node.children@, 0, name)
}

pub open spec fn score_from(nodes: Seq<Node>, start: int, name: Seq<char>) -> nat
    decreases nodes, nodes.len() - start,
{
    if 0 <= start < nodes.len() {
        score_for(nodes[start], name) + score_from(nodes, start + 1, name)
    } else {
        0
    }
}

proof fn lemma_scores_share(node: Node, name: Seq<char>)
    ensures
        share::<u64>(scores(node), name) == score_for(node, name),
        forall|i: int| 0 <= i < scores(node).len() ==> (#[trigger] scores(node)[i]).1 > 0,
    decreases node, 0nat,
{
    let own = own_score(node);
    assert(share::<u64>(own, name) == own_score_for(node, name)) by {
        if own.len() > 0 {
            assert(own.drop_last() =~= Seq::empty());
            assert(share::<u64>(own.drop_last(), name) == 0);
        }
    }
    lemma_scores_from_share(node.children@, 0, name);
    lemma_share_concat::<u64>(own, scores_from(node.children@, 0), name);
}

proof fn lemma_scores_from_share(nodes: Seq<Node>, start: int, name: Seq<char>)
    ensures
        share::<u64>(scores_from(nodes, start), name) == score_from(nodes, start, name),
        forall|i: int|
            0 <= i < scores_from(nodes, start).len() ==> (#[trigger] scores_from(
                nodes,
                start,
            )[i]).1 > 0,
    decreases nodes, nodes.len() - start,
{
    if 0 <= start < nodes.len() {
        lemma_scores_share(nodes[start], name);
        lemma_scores_from_share(nodes, start + 1, name);
        lemma_share_concat::<u64>(scores(nodes[start]), scores_from(nodes, start + 1), name);
    }
}

/// Scores that are each at least one name an identifier exactly when they
/// give it a score.
proof fn lemma_positive_share(items: Seq<(Seq<char>, nat)>, name: Seq<char>)
    requires
        forall|i: int| 0 <= i < items.len() ==> (#[trigger] items[i]).1 > 0,
    ensures
        names::<u64>(items, name) <==> share::<u64>(items, name) > 0,
    decreases items.len(),
{
    if items.len() > 0 {
        let before = items.drop_last();
        assert forall|i: int| 0 <= i < before.len() implies (#[trigger] before[i]).1 > 0 by {
            assert(before[i] == items[i]);
        }
        lemma_positive_share(before, name);
        assert(items.last() == items[items.len() - 1]);
        if names::<u64>(before, name) {
            let i = choose|i: int| 0 <= i < before.len() && (#[trigger] before[i]).0 == name;
            assert(items[i].0 == name);
        }
        if names::<u64>(items, name) && items.last().0 != name {
            let i = choose|i: int| 0 <= i < items.len() && (#[trigger] items[i]).0 == name;
            assert(before[i].0 == name);
        }
    }
}

/// The complexity table holds the identifiers of the functions and methods
/// of the tree, and no other; and for each of them it holds the sum of the
/// scores of the functions and methods that bear it.
pub proof fn lemma_complexity_table_scores(tree: Node, name: Seq<char>)
    ensures
        complexity_table(tree).contains_key(name) <==> score_for(tree, name) > 0,
        complexity_table(tree).contains_key(name) ==> complexity_table(tree)[name] == score_for(
            tree,
            name,
        ),
{
    lemma_scores_share(tree, name);
    lemma_positive_share(scores(tree), name);
    lemma_tallied_holds_shares::<u64>(scores(tree), name);
}

/// The score of a `match` with these children, where it is in range.
fn match_score(children: &Vec<Node>) -> (r: Option<u64>)
    ensures
        r is Some <==> guards_from(children@, 0) + (if arms_from(children@, 0) > 1 {
            1nat
        } else {
            0nat
        }) <= u64::MAX,
        r matches Some(s) ==> s == guards_from(children@, 0) + (if arms_from(children@, 0) > 1 {
            1nat
        } else {
            0nat
        }),
{
    let mut arms: usize = 0;
    let mut guards: usize = 0;
    let mut i: usize = 0;
    while i < children.len()
        invariant
            i <= children.len(),
            guards <= arms <= i,
            arms_from(children@, 0) == arms + arms_from(children@, i as int),
            guards_from(children@, 0) == guards + guards_from(children@, i as int),
        decreases children.len() - i,
    {
        match &children[i].kind {
            Kind::Arm { guarded } => {
                arms += 1;
                if *guarded {
                    guards += 1;
                }
            },
            _ => {},
        }
        i += 1;
    }
    let base: u64 = if arms > 1 {
        1
    } else {
        0
    };
    base.checked_add(guards as u64)
}

/// What the trees of `nodes` add to the score of the function whose body
/// they stand in, where that is in range.
fn nested_score_of_all(nodes: &Vec<Node>) -> (r: Option<u64>)
    ensures
        r is Some <==> nested_score_from(nodes@, 0) <= u64::MAX,
        r matches Some(s) ==> s == nested_score_from(nodes@, 0),
    decreases nodes, 0nat,
{
    let mut sum: u64 = 0;
    let mut i: usize = 0;
    while i < nodes.len()
        invariant
            i <= nodes.len(),
            nested_score_from(nodes@, 0) == sum + nested_score_from(nodes@, i as int),
        decreases nodes.len() - i,
    {
        let part = match nested_score_of(&nodes[i]) {
            Some(part) => part,
            None => {
                return None;
            },
        };
        sum = match sum.checked_add(part) {
            Some(sum) => sum,
            None => {
                return None;
            },
        };
        i += 1;
    }
    Some(sum)
}

/// What the tree under `node` adds to the score of the function whose body
/// it stands in, where that is in range.
fn nested_score_of(node: &Node) -> (r: Option<u64>)
    ensures
        r is Some <==> nested_score(*node) <= u64::MAX,
        r matches Some(s) ==> s == nested_score(*node),
    decreases node, 1nat,
{
    let own: u64 = match &node.kind {
        Kind::Function { .. } | Kind::Method { .. } | Kind::Closure => {
            return Some(0);
        },
        Kind::If { has_else } => if *has_else {
            1
        } else {
            0
        },
        Kind::Match => match match_score(&node.children) {
            Some(own) => own,
            None => {
                return None;
            },
        },
        _ => 0,
    };
    match nested_score_of_all(&node.children) {
        Some(below) => own.checked_add(below),
        None => None,
    }
}

/// Takes the scores of the functions and methods in the tree under `node`
/// into `table`. When it fails, `table` holds a part of the work.
fn collect(node: &Node, table: &mut Table<u64>) -> (r: Result<(), Overflow>)
    requires
        old(table).wf(),
    ensures
        final(table).wf(),
        r is Ok <==> fits::<u64>(old(table)@, complexity_table(*node)),
        r is Ok ==> final(table)@ == merged::<u64>(old(table)@, complexity_table(*node)),
    decreases node,
{
    let ghost start = table@;
    let ghost whole = scores(*node);
    let ghost mut done: Seq<(Seq<char>, nat)> = Seq::empty();
    proof {
        lemma_merge_empty::<u64>(start);
    }
    let name = match &node.kind {
        Kind::Function { identifier } => Some(identifier),
        Kind::Method { identifier, .. } => Some(identifier),
        _ => None,
    };
    match name {
        Some(identifier) => {
            let ghost own = seq![(identifier@, body_score(node.children@))];
            proof {
                lemma_recorded_is_merge::<u64>(start, identifier@, body_score(node.children@));
                lemma_tallied_in_steps::<u64>(start, own, scores_from(node.children@, 0));
                assert(whole =~= own + scores_from(node.children@, 0));
                assert(tallied::<u64>(own).contains_key(identifier@));
            }
            let score = match nested_score_of_all(&node.children) {
                Some(below) => below.checked_add(1),
                None => None,
            };
            match score {
                Some(score) => {
                    match table.add(identifier.clone(), score) {
                        Ok(()) => {
                            proof {
                                done = own;
                            }
                        },
                        Err(e) => {
                            assert(!fits::<u64>(start, tallied::<u64>(own)));
                            return Err(e);
                        },
                    }
                },
                None => {
                    assert(!fits::<u64>(start, tallied::<u64>(own)));
                    return Err(Overflow);
                },
            }
        },
        None => {},
    }
    assert(done =~= own_score(*node));
    let mut i: usize = 0;
    while i < node.children.len()
        invariant
            table.wf(),
            i <= node.children.len(),
            start == old(table)@,
            whole == scores(*node),
            whole == done + scores_from(node.children@, i as int),
            table@ == merged::<u64>(start, tallied::<u64>(done)),
            fits::<u64>(start, tallied::<u64>(done)),
        decreases node.children.len() - i,
    {
        let ghost next = scores(node.children@[i as int]);
        let ghost rest = scores_from(node.children@, i + 1);
        proof {
            lemma_tallied_in_steps::<u64>(start, done, next);
            lemma_tallied_in_steps::<u64>(start, done + next, rest);
            assert(whole =~= (done + next) + rest);
        }
        match collect(&node.children[i], table) {
            Ok(()) => {},
            Err(e) => {
                return Err(e);
            },
        }
        proof {
            done = done + next;
        }
        i += 1;
    }
    assert(done =~= whole);
    Ok(())
}

/// A scorer of the functions and methods of syntax trees.
pub struct CognitiveComplexity {
    /// The scores by identifier.
    pub tree: Table<u64>,
}

impl CognitiveComplexity {
    pub fn new() -> (r: Self)
        ensures
            r.tree.wf(),
            r.tree@ == Map::<Seq<char>, nat>::empty(),
    {
        CognitiveComplexity { tree: Table::new() }
    }

    /// Scores one file: merges its complexity table into `tree`. On overflow
    /// the scorer stays as it was.
    pub fn visit_file(&mut self, file: &Node) -> (r: Result<(), Overflow>)
        requires
            old(self).tree.wf(),
        ensures
            final(self).tree.wf(),
            r is Ok <==> fits::<u64>(old(self).tree@, complexity_table(*file)),
            r is Ok ==> final(self).tree@ == merged::<u64>(
                old(self).tree@,
                complexity_table(*file),
            ),
            r is Err ==> final(self).tree@ == old(self).tree@,
    {
        let mut fresh: Table<u64> = Table::new();
        proof {
            lemma_merge_into_empty::<u64>(old(self).tree@, complexity_table(*file));
        }
        match collect(file, &mut fresh) {
            Ok(()) => {},
            Err(e) => {
                return Err(e);
            },
        }
        self.tree.merge(&fresh)
    }

    /// Merges the table of `other` into this scorer's, adding up the scores
    /// of an identifier that both hold. On overflow the scorer stays as it
    /// was.
    pub fn merge(&mut self, other: &CognitiveComplexity) -> (r: Result<(), Overflow>)
        requires
            old(self).tree.wf(),
            other.tree.wf(),
        ensures
            final(self).tree.wf(),
            r is Ok <==> fits::<u64>(old(self).tree@, other.tree@),
            r is Ok ==> final(self).tree@ == merged::<u64>(old(self).tree@, other.tree@),
            r is Err ==> final(self).tree@ == old(self).tree@,
    {
        self.tree.merge(&other.tree)
    }
}

impl Default for CognitiveComplexity {
    fn default() -> (r: CognitiveComplexity)
        ensures
            r.tree.wf(),
            r.tree@ == Map::<Seq<char>, nat>::empty(),
    {
        CognitiveComplexity::new()
    }
}

} // verus!
