//! AMF - Associated Methods and Functions: the functions that the
//! implementation blocks of a syntax tree give to each type.

use crate::laws::{
    lemma_merge_empty, lemma_merge_into_empty, lemma_recorded_is_merge, lemma_share_concat,
    lemma_tallied_holds_shares, lemma_tallied_in_steps,
};
use crate::syntax::{Kind, Node};
use crate::table::{fits, merged, names, share, tallied, texts, Additive, Overflow, Table};
use vstd::prelude::*;

verus! {

/// What an `ItemCount` stands for: so many public functions and so many
/// private ones.
pub struct Tally {
    pub public: nat,
    pub private: nat,
}

impl Tally {
    pub open spec fn total(self) -> nat {
        self.public + self.private
    }
}

/// The associated functions of one type, counted by visibility. The total
/// of the two counts is in the range of `u32`.
#[derive(Debug, PartialEq, Clone, Copy)]
pub struct ItemCount {
    /// Number of public associated functions or methods
    public: u32,
    /// Number of private associated functions or methods
    private: u32,
}

impl ItemCount {
    #[verifier::type_invariant]
    spec fn total_in_range(self) -> bool {
        self.public + self.private <= u32::MAX
    }

    /// The count of `public` public and `private` private functions, where
    /// their total is in range.
    pub fn new(public: u32, private: u32) -> (r: Option<ItemCount>)
        ensures
            r is Some <==> public + private <= u32::MAX,
            r matches Some(c) ==> c.amount() == (Tally {
                public: public as nat,
                private: private as nat,
            }),
    {
        if private <= u32::MAX - public {
            Some(ItemCount { public, private })
        } else {
            None
        }
    }

    pub fn private(self: Self) -> (r: u32)
        ensures
            r == self.amount().private,
    {
        self.private
    }

    pub fn public(self: Self) -> (r: u32)
        ensures
            r == self.amount().public,
    {
        self.public
    }

    pub fn total(self: Self) -> (r: u32)
        ensures
            r == self.amount().total(),
    {
        proof {
            use_type_invariant(&self);
        }
        self.private + self.public
    }
}

impl Default for ItemCount {
    fn default() -> (r: ItemCount)
        ensures
            r.amount() == (Tally { public: 0, private: 0 }),
    {
        ItemCount { public: 0, private: 0 }
    }
}

impl Additive for ItemCount {
    type Amount = Tally;

    closed spec fn amount(self) -> Tally {
        Tally { public: self.public as nat, private: self.private as nat }
    }

    open spec fn zero() -> Tally {
        Tally { public: 0, private: 0 }
    }

    open spec fn sum(a: Tally, b: Tally) -> Tally {
        Tally { public: a.public + b.public, private: a.private + b.private }
    }

    open spec fn representable(a: Tally) -> bool {
        a.total() <= u32::MAX
    }

    proof fn lemma_amount_determines(a: ItemCount, b: ItemCount) {
    }

    proof fn lemma_zero_is_neutral(a: Tally) {
    }

    proof fn lemma_sum_commutative(a: Tally, b: Tally) {
    }

    proof fn lemma_sum_associative(a: Tally, b: Tally, c: Tally) {
    }

    proof fn lemma_parts_representable(a: Tally, b: Tally) {
    }

    fn zeroed() -> (r: ItemCount) {
        ItemCount { public: 0, private: 0 }
    }

    fn checked_sum(self, other: ItemCount) -> (r: Option<ItemCount>) {
        proof {
            use_type_invariant(&self);
            use_type_invariant(&other);
        }
        let room = u32::MAX - self.public - self.private;
        if other.public <= room && other.private <= room - other.public {
            Some(
                ItemCount {
                    public: self.public + other.public,
                    private: self.private + other.private,
                },
            )
        } else {
            None
        }
    }
}

/// The functions among `nodes` from position `start` on, by visibility.
pub open spec fn members_from(nodes: Seq<Node>, start: int) -> Tally
    decreases nodes.len() - start,
{
    if 0 <= start < nodes.len() {
        let rest = members_from(nodes, start + 1);
        match nodes[start].kind {
            Kind::Method { visibility, .. } => if visibility.is_public() {
                Tally { public: rest.public + 1, private: rest.private }
            } else {
                Tally { public: rest.public, private: rest.private + 1 }
            },
            _ => rest,
        }
    } else {
        Tally { public: 0, private: 0 }
    }
}

/// What one node adds to the member table by itself: an implementation
/// block for a simply named type adds the tally of its functions under that
/// name, if it has any function. Nothing else adds anything.
pub open spec fn block_contribution(node: Node) -> Seq<(Seq<char>, Tally)> {
    match node.kind {
        Kind::Impl { target } => match target.simple_name() {
            Some(name) => {
                let tally = members_from(node.children@, 0);
                if tally.total() > 0 {
                    seq![(name, tally)]
                } else {
                    Seq::empty()
                }
            },
            None => Seq::empty(),
        },
        _ => Seq::empty(),
    }
}

/// The contributions of all implementation blocks in the tree under `node`.
pub open spec fn contributions(node: Node) -> Seq<(Seq<char>, Tally)>
    decreases node, 0nat,
{
    block_contribution(node) + contributions_from(node.children@, 0)
}

/// The contributions of the trees under `nodes` from position `start` on.
pub open spec fn contributions_from(nodes: Seq<Node>, start: int) -> Seq<(Seq<char>, Tally)>
    decreases nodes, nodes.len() - start,
{
    if 0 <= start < nodes.len() {
        contributions(nodes[start]) + contributions_from(nodes, start + 1)
    } else {
        Seq::empty()
    }
}

/// The member table of a syntax tree: for each type that has functions in
/// its implementation blocks, how many of them are public and how many
/// private.
pub open spec fn member_table(tree: Node) -> Map<Seq<char>, Tally> {
    tallied::<ItemCount>(contributions(tree))
}

/// Each contribution is of at least one function.
proof fn lemma_contributions_are_positive(node: Node, i: int)
    requires
        0 <= i < contributions(node).len(),
    ensures
        contributions(node)[i].1.total() > 0,
    decreases node, 0nat,
{
    if i >= block_contribution(node).len() {
        lemma_contributions_from_are_positive(
            node.children@,
            0,
            i - block_contribution(node).len(),
        );
    }
}

proof fn lemma_contributions_from_are_positive(nodes: Seq<Node>, start: int, i: int)
    requires
        0 <= i < contributions_from(nodes, start).len(),
    ensures
        contributions_from(nodes, start)[i].1.total() > 0,
    decreases nodes, nodes.len() - start,
{
    if 0 <= start < nodes.len() {
        let first = contributions(nodes[start]);
        if i < first.len() {
            lemma_contributions_are_positive(nodes[start], i);
        } else {
            lemma_contributions_from_are_positive(nodes, start + 1, i - first.len());
        }
    }
}

/// The functions that `node` itself gives to the type `name`: those of an
/// implementation block for that name.
pub open spec fn own_functions(node: Node, name: Seq<char>) -> Tally {
    match node.kind {
        Kind::Impl { target } => if target.simple_name() == Some(name) {
            members_from(node.children@, 0)
        } else {
            Tally { public: 0, private: 0 }
        },
        _ => Tally { public: 0, private: 0 },
    }
}

/// The functions that the implementation blocks in the tree under `node`
/// give to the type `name`, by visibility.
pub open spec fn functions_of(node: Node, name: Seq<char>) -> Tally
    decreases node, 0nat,
{
    ItemCount::sum(own_functions(node, name), functions_from(node.children@, 0, name))
}

pub open spec fn functions_from(nodes: Seq<Node>, start: int, name: Seq<char>) -> Tally
    decreases nodes, nodes.len() - start,
{
    if 0 <= start < nodes.len() {
        ItemCount::sum(functions_of(nodes[start], name), functions_from(nodes, start + 1, name))
    } else {
        Tally { public: 0, private: 0 }
    }
}

proof fn lemma_contributions_share(node: Node, name: Seq<char>)
    ensures
        share::<ItemCount>(contributions(node), name) == functions_of(node, name),
    decreases node, 0nat,
{
    let own = block_contribution(node);
    assert(share::<ItemCount>(own, name) == own_functions(node, name)) by {
        if own.len() > 0 {
            assert(own.drop_last() =~= Seq::empty());
            assert(share::<ItemCount>(own.drop_last(), name) == ItemCount::zero());
        }
    }
    lemma_contributions_from_share(node.children@, 0, name);
    lemma_share_concat::<ItemCount>(own, contributions_from(node.children@, 0), name);
}

proof fn lemma_contributions_from_share(nodes: Seq<Node>, start: int, name: Seq<char>)
    ensures
        share::<ItemCount>(contributions_from(nodes, start), name) == functions_from(
            nodes,
            start,
            name,
        ),
    decreases nodes, nodes.len() - start,
{
    if 0 <= start < nodes.len() {
        lemma_contributions_share(nodes[start], name);
        lemma_contributions_from_share(nodes, start + 1, name);
        lemma_share_concat::<ItemCount>(
            contributions(nodes[start]),
            contributions_from(nodes, start + 1),
            name,
        );
    }
}

/// Contributions that are each of at least one function name a type
/// exactly when they give it a function.
proof fn lemma_positive_share(items: Seq<(Seq<char>, Tally)>, name: Seq<char>)
    requires
        forall|i: int| 0 <= i < items.len() ==> (#[trigger] items[i]).1.total() > 0,
    ensures
        names::<ItemCount>(items, name) <==> share::<ItemCount>(items, name).total() > 0,
    decreases items.len(),
{
    if items.len() > 0 {
        let before = items.drop_last();
        assert forall|i: int| 0 <= i < before.len() implies (#[trigger] before[i]).1.total()
            > 0 by {
            assert(before[i] == items[i]);
        }
        lemma_positive_share(before, name);
        assert(items.last() == items[items.len() - 1]);
        if names::<ItemCount>(before, name) {
            let i = choose|i: int| 0 <= i < before.len() && (#[trigger] before[i]).0 == name;
            assert(items[i].0 == name);
        }
        if names::<ItemCount>(items, name) && items.last().0 != name {
            let i = choose|i: int| 0 <= i < items.len() && (#[trigger] items[i]).0 == name;
            assert(before[i].0 == name);
        }
    }
}

/// The member table holds the types that have a function in an
/// implementation block of the tree, and no other; and for each of them it
/// holds the number of its public and of its private functions.
pub proof fn lemma_member_table_counts(tree: Node, name: Seq<char>)
    ensures
        member_table(tree).contains_key(name) <==> functions_of(tree, name).total() > 0,
        member_table(tree).contains_key(name) ==> member_table(tree)[name] == functions_of(
            tree,
            name,
        ),
{
    let items = contributions(tree);
    assert forall|i: int| 0 <= i < items.len() implies (#[trigger] items[i]).1.total() > 0 by {
        lemma_contributions_are_positive(tree, i);
    }
    lemma_positive_share(items, name);
    lemma_contributions_share(tree, name);
    lemma_tallied_holds_shares::<ItemCount>(items, name);
}

/// The identifier of the module that `node` declares without a body, if it
/// is such a declaration.
pub open spec fn own_reference(node: Node) -> Seq<Seq<char>> {
    match node.kind {
        Kind::Module(module) => if module.has_inline_body {
            Seq::empty()
        } else {
            seq![module.identifier@]
        },
        _ => Seq::empty(),
    }
}

/// The identifiers of the modules that the tree under `node` declares
/// without a body, in the order of the text.
pub open spec fn references(node: Node) -> Seq<Seq<char>>
    decreases node, 0nat,
{
    own_reference(node) + references_from(node.children@, 0)
}

pub open spec fn references_from(nodes: Seq<Node>, start: int) -> Seq<Seq<char>>
    decreases nodes, nodes.len() - start,
{
    if 0 <= start < nodes.len() {
        references(nodes[start]) + references_from(nodes, start + 1)
    } else {
        Seq::empty()
    }
}

/// Counts the functions among the members of a block. There is a result
/// where the total is in the range of `u32`.
fn count_members(children: &Vec<Node>) -> (r: Option<ItemCount>)
    ensures
        r is Some <==> members_from(children@, 0).total() <= u32::MAX,
        r matches Some(c) ==> c.amount() == members_from(children@, 0),
{
    let mut public: usize = 0;
    let mut private: usize = 0;
    let mut i: usize = 0;
    while i < children.len()
        invariant
            i <= children.len(),
            public + private <= i,
            members_from(children@, 0) == ItemCount::sum(
                Tally { public: public as nat, private: private as nat },
                members_from(children@, i as int),
            ),
        decreases children.len() - i,
    {
        match &children[i].kind {
            Kind::Method { visibility, .. } => {
                if visibility.is_public() {
                    public += 1;
                } else {
                    private += 1;
                }
            },
            _ => {},
        }
        i += 1;
    }
    if public <= u32::MAX as usize && private <= u32::MAX as usize {
        ItemCount::new(public as u32, private as u32)
    } else {
        None
    }
}

/// Takes the tree under `node` into `table` and appends the modules that it
/// declares without a body to `found`. When it fails, `table` and `found`
/// hold a part of the work.
fn collect(node: &Node, table: &mut Table<ItemCount>, found: &mut Vec<String>) -> (r: Result<
    (),
    Overflow,
>)
    requires
        old(table).wf(),
    ensures
        final(table).wf(),
        r is Ok <==> fits::<ItemCount>(old(table)@, member_table(*node)),
        r is Ok ==> final(table)@ == merged::<ItemCount>(old(table)@, member_table(*node)),
        r is Ok ==> texts(final(found)@) == texts(old(found)@) + references(*node),
    decreases node,
{
    let ghost start = table@;
    let ghost whole = contributions(*node);
    let ghost mut done: Seq<(Seq<char>, Tally)> = Seq::empty();
    proof {
        lemma_merge_empty::<ItemCount>(start);
        assert(whole == block_contribution(*node) + contributions_from(node.children@, 0));
    }
    match &node.kind {
        Kind::Impl { target } => {
            match target.name() {
                Some(name) => {
                    let ghost own = seq![(name@, members_from(node.children@, 0))];
                    proof {
                        lemma_recorded_is_merge::<ItemCount>(
                            start,
                            name@,
                            members_from(node.children@, 0),
                        );
                    }
                    match count_members(&node.children) {
                        Some(count) => {
                            if count.total() > 0 {
                                proof {
                                    lemma_tallied_in_steps::<ItemCount>(
                                        start,
                                        own,
                                        contributions_from(node.children@, 0),
                                    );
                                }
                                match table.add(name.clone(), count) {
                                    Ok(()) => {
                                        proof {
                                            done = own;
                                        }
                                    },
                                    Err(e) => {
                                        proof {
                                            assert(whole =~= own + contributions_from(
                                                node.children@,
                                                0,
                                            ));
                                            assert(tallied::<ItemCount>(own).contains_key(name@));
                                            assert(!fits::<ItemCount>(
                                                start,
                                                tallied::<ItemCount>(own),
                                            ));
                                        }
                                        return Err(e);
                                    },
                                }
                            }
                        },
                        None => {
                            proof {
                                lemma_tallied_in_steps::<ItemCount>(
                                    start,
                                    own,
                                    contributions_from(node.children@, 0),
                                );
                                assert(whole =~= own + contributions_from(node.children@, 0));
                                assert(tallied::<ItemCount>(own).contains_key(name@));
                                assert(!fits::<ItemCount>(start, tallied::<ItemCount>(own)));
                            }
                            return Err(Overflow);
                        },
                    }
                },
                None => {},
            }
        },
        Kind::Module(module) => {
            if !module.has_inline_body {
                found.push(module.identifier.clone());
            }
        },
        _ => {},
    }
    assert(texts(found@) =~= texts(old(found)@) + own_reference(*node));
    assert(done =~= block_contribution(*node));
    let mut i: usize = 0;
    while i < node.children.len()
        invariant
            table.wf(),
            i <= node.children.len(),
            start == old(table)@,
            whole == contributions(*node),
            whole == done + contributions_from(node.children@, i as int),
            table@ == merged::<ItemCount>(start, tallied::<ItemCount>(done)),
            fits::<ItemCount>(start, tallied::<ItemCount>(done)),
            texts(found@) + references_from(node.children@, i as int) == texts(old(found)@)
                + references(*node),
        decreases node.children.len() - i,
    {
        let ghost next = contributions(node.children@[i as int]);
        let ghost rest = contributions_from(node.children@, i + 1);
        let ghost seen = texts(found@);
        proof {
            lemma_tallied_in_steps::<ItemCount>(start, done, next);
            lemma_tallied_in_steps::<ItemCount>(start, done + next, rest);
            assert(whole =~= (done + next) + rest);
        }
        match collect(&node.children[i], table, found) {
            Ok(()) => {},
            Err(e) => {
                proof {
                    assert(!fits::<ItemCount>(start, tallied::<ItemCount>(done + next)));
                    assert(!fits::<ItemCount>(start, tallied::<ItemCount>(whole)));
                }
                return Err(e);
            },
        }
        proof {
            done = done + next;
            assert(texts(found@) + references_from(node.children@, i + 1) =~= seen
                + references_from(node.children@, i as int));
        }
        i += 1;
    }
    assert(done =~= whole);
    assert(texts(found@) =~= texts(old(found)@) + references(*node));
    Ok(())
}

/// AMF - Associated Methods and Functions: a counter of the functions that
/// implementation blocks give to each type.
pub struct AMF {
    /// Map of results h(ident) -> ItemCount
    pub tree: Table<ItemCount>,
    ext_mods: Vec<String>,
    path: Option<Vec<String>>,
}

impl AMF {
    /// The invariant of the table.
    pub closed spec fn wf(&self) -> bool {
        self.tree.wf()
    }

    /// What `tree` holds: the counts by type.
    pub closed spec fn table(&self) -> Map<Seq<char>, Tally> {
        self.tree@
    }

    /// The directory in which the modules that a visited file declares
    /// without a body are looked up, component by component below the
    /// directory of the entry file. A counter without one keeps no such
    /// declarations.
    pub closed spec fn base(&self) -> Option<Seq<Seq<char>>> {
        match self.path {
            Some(path) => Some(texts(path@)),
            None => None,
        }
    }

    /// The identifiers of the modules declared without a body that were met
    /// and not yet handed out.
    pub closed spec fn pending(&self) -> Seq<Seq<char>> {
        texts(self.ext_mods@)
    }

    /// What visiting a file adds to `pending`.
    pub open spec fn kept_references(&self, file: Node) -> Seq<Seq<char>> {
        if self.base() is Some {
            references(file)
        } else {
            Seq::empty()
        }
    }

    pub fn new() -> (r: Self)
        ensures
            r.wf(),
            r.table() == Map::<Seq<char>, Tally>::empty(),
            r.base() is None,
            r.pending() == Seq::<Seq<char>>::empty(),
    {
        let r = AMF { tree: Table::new(), ext_mods: Vec::new(), path: None };
        assert(r.pending() =~= Seq::<Seq<char>>::empty());
        r
    }

    /// Store basic workdir for source file path resolve
    pub fn from_path(path: Option<Vec<String>>) -> (r: Self)
        ensures
            r.wf(),
            r.table() == Map::<Seq<char>, Tally>::empty(),
            r.base() == match path {
                Some(p) => Some(texts(p@)),
                None => None,
            },
            r.pending() == Seq::<Seq<char>>::empty(),
    {
        let r = AMF { tree: Table::new(), ext_mods: Vec::new(), path };
        assert(r.pending() =~= Seq::<Seq<char>>::empty());
        r
    }

    /// Counts one file: merges its member table into `tree`, and, where the
    /// counter has a base directory, keeps the modules that the file declares
    /// without a body. On overflow the counter stays as it was.
    pub fn visit_file(&mut self, file: &Node) -> (r: Result<(), Overflow>)
        requires
            old(self).wf(),
        ensures
            final(self).wf(),
            final(self).base() == old(self).base(),
            r is Ok <==> fits::<ItemCount>(old(self).table(), member_table(*file)),
            r is Ok ==> final(self).table() == merged::<ItemCount>(
                old(self).table(),
                member_table(*file),
            ),
            r is Ok ==> final(self).pending() == old(self).pending() + old(self).kept_references(
                *file,
            ),
            r is Err ==> final(self).table() == old(self).table() && final(self).pending() == old(
                self,
            ).pending(),
    {
        let mut fresh: Table<ItemCount> = Table::new();
        let mut found: Vec<String> = Vec::new();
        proof {
            lemma_merge_into_empty::<ItemCount>(old(self).table(), member_table(*file));
        }
        match collect(file, &mut fresh, &mut found) {
            Ok(()) => {},
            Err(e) => {
                return Err(e);
            },
        }
        assert(texts(found@) =~= references(*file));
        match self.tree.merge(&fresh) {
            Ok(()) => {},
            Err(e) => {
                return Err(e);
            },
        }
        if self.path.is_some() {
            self.ext_mods.append(&mut found);
            assert(texts(self.ext_mods@) =~= texts(old(self).ext_mods@) + references(*file));
        } else {
            assert(self.pending() =~= old(self).pending() + Seq::<Seq<char>>::empty());
        }
        Ok(())
    }

    /// Merges the table of `other` into this counter's, adding up the counts
    /// of a type that both hold. On overflow the counter stays as it was.
    pub fn merge(self: &mut Self, other: &mut Self) -> (r: Result<(), Overflow>)
        requires
            old(self).wf(),
            old(other).wf(),
        ensures
            final(self).wf(),
            *final(other) == *old(other),
            final(self).base() == old(self).base(),
            final(self).pending() == old(self).pending(),
            r is Ok <==> fits::<ItemCount>(old(self).table(), old(other).table()),
            r is Ok ==> final(self).table() == merged::<ItemCount>(
                old(self).table(),
                old(other).table(),
            ),
            r is Err ==> final(self).table() == old(self).table(),
    {
        self.tree.merge(&other.tree)
    }

    /// The base directory, if the counter has one.
    pub fn path(&self) -> (r: Option<&Vec<String>>)
        ensures
            match r {
                Some(path) => self.base() == Some(texts(path@)),
                None => self.base() is None,
            },
    {
        self.path.as_ref()
    }

    /// The table of the counter.
    pub fn into_table(self) -> (r: Table<ItemCount>)
        requires
            self.wf(),
        ensures
            r.wf(),
            r@ == self.table(),
    {
        self.tree
    }

    /// Hands out the modules declared without a body that were kept.
    pub fn take_references(&mut self) -> (r: Vec<String>)
        ensures
            texts(r@) == old(self).pending(),
            final(self).pending() == Seq::<Seq<char>>::empty(),
            final(self).wf() == old(self).wf(),
            final(self).table() == old(self).table(),
            final(self).base() == old(self).base(),
    {
        let mut out: Vec<String> = Vec::new();
        out.append(&mut self.ext_mods);
        assert(texts(out@) =~= old(self).pending());
        assert(self.pending() =~= Seq::<Seq<char>>::empty());
        out
    }
}

impl Default for AMF {
    fn default() -> (r: AMF)
        ensures
            r.wf(),
            r.table() == Map::<Seq<char>, Tally>::empty(),
            r.base() is None,
            r.pending() == Seq::<Seq<char>>::empty(),
    {
        AMF::new()
    }
}

} // verus!
