//! The tree of a license file: each node has child nodes and metadata
//! entries, written as a header of two numbers, the children, and the
//! entries.

use std::collections::HashMap;
use vstd::prelude::*;

verus! {

broadcast use {vstd::std_specs::hash::group_hash_axioms, vstd::std_specs::vec::group_vec_axioms};

pub struct Node {
    pub children: Vec<Node>,
    pub metadatas: Vec<u32>,
}

/// A node as the contracts see it.
pub struct Tree {
    pub children: Seq<Tree>,
    pub metadata: Seq<u32>,
}

impl Node {
    /// The tree that the node is the root of.
    pub open spec fn tree(self) -> Tree
        decreases self,
    {
        Tree {
            children: Seq::new(
                self.children@.len(),
                |i: int|
                    if 0 <= i < self.children@.len() {
                        self.children@[i].tree()
                    } else {
                        arbitrary()
                    },
            ),
            metadata: self.metadatas@,
        }
    }
}

/// The sum of the numbers `s`.
pub open spec fn sum(s: Seq<u32>) -> nat
    decreases s.len(),
{
    if s.len() == 0 {
        0
    } else {
        sum(s.drop_last()) + s.last() as nat
    }
}

/// The tree that `input` holds from the place `pos` on, and the place after
/// it; none if `input` ends before the tree does.
pub open spec fn parse_tree(input: Seq<u32>, pos: int) -> Option<(Tree, int)>
    decreases input.len() - pos, 0nat, 0nat,
{
    if pos < 0 || pos + 2 > input.len() {
        None
    } else {
        match parse_children(input, pos + 2, input[pos] as nat) {
            None => None,
            Some((children, after)) => {
                let nb_meta = input[pos + 1] as int;
                if after + nb_meta > input.len() {
                    None
                } else {
                    Some((Tree { children, metadata: input.subrange(after, after + nb_meta) }, after + nb_meta))
                }
            },
        }
    }
}

/// The `count` trees that `input` holds one after the other from the place
/// `pos` on, and the place after them.
pub open spec fn parse_children(input: Seq<u32>, pos: int, count: nat) -> Option<(Seq<Tree>, int)>
    decreases input.len() - pos, 1nat, count,
{
    if count == 0 {
        Some((Seq::empty(), pos))
    } else {
        match parse_tree(input, pos) {
            None => None,
            Some((first, after)) => {
                if after <= pos || after > input.len() {
                    None
                } else {
                    match parse_children(input, after, (count - 1) as nat) {
                        None => None,
                        Some((rest, end)) => Some((seq![first] + rest, end)),
                    }
                }
            },
        }
    }
}

/// A tree takes two places at least, and ends within the input.
pub proof fn lemma_parse_tree_advances(input: Seq<u32>, pos: int)
    ensures
        parse_tree(input, pos) matches Some((_, after)) ==> pos + 2 <= after <= input.len(),
    decreases input.len() - pos, 0nat, 0nat,
{
    if 0 <= pos && pos + 2 <= input.len() {
        lemma_parse_children_advances(input, pos + 2, input[pos] as nat);
    }
}

/// Trees end where they begin or after.
pub proof fn lemma_parse_children_advances(input: Seq<u32>, pos: int, count: nat)
    ensures
        parse_children(input, pos, count) matches Some((trees, after)) ==> pos <= after && trees.len()
            == count,
    decreases input.len() - pos, 1nat, count,
{
    if count > 0 {
        lemma_parse_tree_advances(input, pos);
        match parse_tree(input, pos) {
            None => {},
            Some((first, after)) => {
                if after > pos && after <= input.len() {
                    lemma_parse_children_advances(input, after, (count - 1) as nat);
                }
            },
        }
    }
}

/// The sum of all metadata entries of the tree.
pub open spec fn total_metadata(t: Tree) -> nat
    decreases t,
{
    total_of(t.children) + sum(t.metadata)
}

/// The sum of all metadata entries of the trees.
pub open spec fn total_of(trees: Seq<Tree>) -> nat
    decreases trees,
{
    if trees.len() == 0 {
        0
    } else {
        total_of(trees.drop_last()) + total_metadata(trees.last())
    }
}

/// What the entry `meta` adds to the value of a node with the children
/// `children`: the value of the child with that number, counted from 1, and
/// nothing where there is no such child.
pub open spec fn referred(children: Seq<Tree>, meta: u32) -> nat
    decreases children, 0nat,
{
    if 1 <= meta <= children.len() {
        value_of(children[meta - 1])
    } else {
        0
    }
}

/// What the entries `metas` add to the value of a node with the children
/// `children`.
pub open spec fn referred_sum(children: Seq<Tree>, metas: Seq<u32>) -> nat
    decreases children, 1nat, metas.len(),
{
    if metas.len() == 0 {
        0
    } else {
        referred_sum(children, metas.drop_last()) + referred(children, metas.last())
    }
}

/// The value of a tree: the sum of its entries if it has no children, and
/// else the sum of the values of the children that its entries refer to.
pub open spec fn value_of(t: Tree) -> nat
    decreases t, 2nat, 0nat,
{
    if t.children.len() == 0 {
        sum(t.metadata)
    } else {
        referred_sum(t.children, t.metadata)
    }
}

/// The sum of the numbers `s`; none if it does not fit in 32 bits.
pub fn checked_sum(s: &Vec<u32>) -> (r: Option<u32>)
    ensures
        r == if sum(s@) <= u32::MAX {
            Some(sum(s@) as u32)
        } else {
            None
        },
{
    let mut total: u32 = 0;
    for i in 0..s.len()
        invariant
            total == sum(s@.take(i as int)),
    {
        proof {
            assert(s@.take(i + 1).drop_last() =~= s@.take(i as int));
            lemma_sum_grows(s@, i + 1);
        }
        match total.checked_add(s[i]) {
            Some(t) => {
                total = t;
            },
            None => {
                return None;
            },
        }
    }
    assert(s@.take(s@.len() as int) =~= s@);
    Some(total)
}

/// A sum does not fall with more numbers.
pub proof fn lemma_sum_grows(s: Seq<u32>, k: int)
    requires
        0 <= k <= s.len(),
    ensures
        sum(s.take(k)) <= sum(s),
    decreases s.len() - k,
{
    if k < s.len() {
        assert(s.take(k + 1).drop_last() =~= s.take(k));
        lemma_sum_grows(s, k + 1);
    } else {
        assert(s.take(k) =~= s);
    }
}

/// The sum of all metadata entries of the tree; none if it does not fit in
/// 32 bits.
pub fn part1(node: &Node) -> (r: Option<u32>)
    ensures
        r == if total_metadata(node.tree()) <= u32::MAX {
            Some(total_metadata(node.tree()) as u32)
        } else {
            None
        },
    decreases node,
{
    let ghost t = node.tree();
    let mut children_sum: u32 = 0;
    for i in 0..node.children.len()
        invariant
            t == node.tree(),
            children_sum == total_of(t.children.take(i as int)),
    {
        proof {
            assert(t.children.take(i + 1).drop_last() =~= t.children.take(i as int));
            assert(t.children.take(i + 1).last() == node.children@[i as int].tree());
            lemma_total_of_grows(t.children, i + 1);
        }
        let child = match part1(&node.children[i]) {
            Some(v) => v,
            None => {
                return None;
            },
        };
        match children_sum.checked_add(child) {
            Some(s) => {
                children_sum = s;
            },
            None => {
                return None;
            },
        }
    }
    assert(t.children.take(t.children.len() as int) =~= t.children);
    match checked_sum(&node.metadatas) {
        Some(node_sum) => children_sum.checked_add(node_sum),
        None => None,
    }
}

/// The entries of more trees do not sum to less.
pub proof fn lemma_total_of_grows(trees: Seq<Tree>, k: int)
    requires
        0 <= k <= trees.len(),
    ensures
        total_of(trees.take(k)) <= total_of(trees),
    decreases trees.len() - k,
{
    if k < trees.len() {
        assert(trees.take(k + 1).drop_last() =~= trees.take(k));
        lemma_total_of_grows(trees, k + 1);
    } else {
        assert(trees.take(k) =~= trees);
    }
}

/// More entries do not add less to the value.
pub proof fn lemma_referred_sum_grows(children: Seq<Tree>, metas: Seq<u32>, k: int)
    requires
        0 <= k <= metas.len(),
    ensures
        referred_sum(children, metas.take(k)) <= referred_sum(children, metas),
    decreases metas.len() - k,
{
    if k < metas.len() {
        assert(metas.take(k + 1).drop_last() =~= metas.take(k));
        lemma_referred_sum_grows(children, metas, k + 1);
    } else {
        assert(metas.take(k) =~= metas);
    }
}

impl Node {
    /// Reads the tree that `input` holds from the place `pos` on.  Returns
    /// the tree and the place after it, or nothing if `input` ends before
    /// the tree does.
    pub fn new(input: &Vec<u32>, pos: usize) -> (r: Option<(Node, usize)>)
        ensures
            match r {
                Some((node, after)) => parse_tree(input@, pos as int) == Some((node.tree(), after as int)),
                None => parse_tree(input@, pos as int) is None,
            },
        decreases input@.len() - pos,
    {
        if pos >= input.len() || input.len() - pos < 2 {
            return None;
        }
        let nb_children = input[pos];
        let nb_meta = input[pos + 1];

        let mut children: Vec<Node> = Vec::new();
        let mut at = pos + 2;
        let mut k: u32 = 0;
        let ghost mut trees: Seq<Tree> = Seq::empty();
        while k < nb_children
            invariant
                input@.len() <= usize::MAX,
                pos + 2 <= at <= input@.len(),
                k <= nb_children,
                nb_children == input@[pos as int],
                children@.len() == k,
                trees.len() == k,
                forall|i: int| 0 <= i < k ==> trees[i] == #[trigger] children@[i].tree(),
                forall|rest: Seq<Tree>, end: int|
                    parse_children(input@, at as int, (nb_children - k) as nat) == Some((rest, end))
                        ==> parse_children(input@, pos + 2, nb_children as nat) == Some((trees + rest, end)),
                parse_children(input@, at as int, (nb_children - k) as nat) is None ==> parse_children(
                    input@,
                    pos + 2,
                    nb_children as nat,
                ) is None,
            decreases nb_children - k,
        {
            proof {
                lemma_parse_tree_advances(input@, at as int);
            }
            match Node::new(input, at) {
                Some((child, after)) => {
                    proof {
                        let first = child.tree();
                        assert forall|rest: Seq<Tree>, end: int|
                            parse_children(input@, after as int, (nb_children - k - 1) as nat) == Some(
                                (rest, end),
                            ) implies parse_children(input@, pos + 2, nb_children as nat) == Some(
                            (trees.push(first) + rest, end),
                        ) by {
                            assert(parse_children(input@, at as int, (nb_children - k) as nat) == Some(
                                (seq![first] + rest, end),
                            ));
                            assert(trees + (seq![first] + rest) =~= trees.push(first) + rest);
                        }
                        trees = trees.push(first);
                    }
                    children.push(child);
                    at = after;
                    k += 1;
                },
                None => {
                    assert(parse_children(input@, at as int, (nb_children - k) as nat) is None);
                    return None;
                },
            }
        }
        proof {
            assert(parse_children(input@, at as int, 0) == Some((Seq::<Tree>::empty(), at as int)));
            assert(trees + Seq::<Tree>::empty() =~= trees);
            assert(parse_children(input@, pos + 2, nb_children as nat) == Some((trees, at as int)));
        }

        if input.len() - at < nb_meta as usize {
            return None;
        }
        let mut metadatas: Vec<u32> = Vec::new();
        let start = at;
        let mut m: u32 = 0;
        while m < nb_meta
            invariant
                input@.len() <= usize::MAX,
                start + nb_meta <= input@.len(),
                m <= nb_meta,
                at == start + m,
                metadatas@ == input@.subrange(start as int, at as int),
            decreases nb_meta - m,
        {
            metadatas.push(input[at]);
            at += 1;
            m += 1;
            assert(metadatas@ =~= input@.subrange(start as int, at as int));
        }

        let node = Node { children, metadatas };
        proof {
            assert forall|i: int| 0 <= i < trees.len() implies node.tree().children[i] == trees[i] by {
                assert(trees[i] == node.children@[i].tree());
            }
            assert(node.tree().children =~= trees);
            assert(parse_children(input@, pos + 2, nb_children as nat) == Some((trees, start as int)));
        }
        Some((node, at))
    }

    /// The value of the node: the sum of its entries if it has no children,
    /// and else the sum of the values of the children that its entries
    /// refer to.  None if the value does not fit in 32 bits.
    pub fn value(&self) -> (r: Option<u32>)
        ensures
            value_of(self.tree()) <= u32::MAX ==> r == Some(value_of(self.tree()) as u32),
            r matches Some(v) ==> v == value_of(self.tree()),
        decreases self,
    {
        let ghost t = self.tree();
        if self.children.len() == 0 {
            checked_sum(&self.metadatas)
        } else {
            let mut cache: HashMap<u32, u32> = HashMap::new();
            let mut total: u32 = 0;

            for i in 0..self.metadatas.len()
                invariant
                    t == self.tree(),
                    t.children.len() > 0,
                    total == referred_sum(t.children, t.metadata.take(i as int)),
                    forall|index: u32| #[trigger]
                        cache@.contains_key(index) ==> index < t.children.len() && cache@[index]
                            == value_of(t.children[index as int]),
            {
                let meta = self.metadatas[i];
                proof {
                    assert(t.metadata.take(i + 1).drop_last() =~= t.metadata.take(i as int));
                    assert(t.metadata.take(i + 1).last() == meta);
                    lemma_referred_sum_grows(t.children, t.metadata, i + 1);
                    assert(referred_sum(t.children, t.metadata.take(i + 1)) == referred_sum(
                        t.children,
                        t.metadata.take(i as int),
                    ) + referred(t.children, meta));
                    assert(value_of(t) == referred_sum(t.children, t.metadata));
                }
                if meta >= 1 && ((meta - 1) as usize) < self.children.len() {
                    let index = meta - 1;
                    assert(t.children[index as int] == self.children@[index as int].tree());
                    let cached = cache.get(&index);
                    let value = match cached {
                        Some(value) => Some(*value),
                        None => {
                            let value = self.children[index as usize].value();
                            match value {
                                Some(v) => {
                                    cache.insert(index, v);
                                },
                                None => {},
                            }
                            value
                        },
                    };
                    let value = match value {
                        Some(v) => v,
                        None => {
                            return None;
                        },
                    };
                    match total.checked_add(value) {
                        Some(s) => {
                            total = s;
                        },
                        None => {
                            return None;
                        },
                    }
                }
            }
            assert(t.metadata.take(t.metadata.len() as int) =~= t.metadata);
            Some(total)
        }
    }
}

} // verus!
