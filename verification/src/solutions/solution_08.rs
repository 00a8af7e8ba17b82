//! Day 8: the licence file of the navigation system, a tree of nodes
//! written as numbers.

use crate::error::Error;
use crate::util::text::{decimal_u64, parse_u64, split_whitespace, whitespace_tokens};
use vstd::prelude::*;

verus! {

/// A node of the tree: its child nodes and its metadata entries.
#[derive(Debug, PartialEq, Eq)]
pub struct Node {
    pub children: Vec<Node>,
    pub meta: Vec<u64>,
}

/// What a node says, apart from how it is stored.
pub ghost struct Licence {
    pub children: Seq<Licence>,
    pub meta: Seq<u64>,
}

/// What the nodes say, one by one.
pub open spec fn views(all: Seq<Node>) -> Seq<Licence>
    decreases all,
{
    if all.len() == 0 {
        Seq::empty()
    } else {
        views(all.subrange(0, all.len() - 1)).push(all[all.len() - 1].view())
    }
}

impl Node {
    /// What the node says.
    pub open spec fn view(self) -> Licence
        decreases self,
    {
        Licence { children: views(self.children@), meta: self.meta@ }
    }
}

/// The views of a list that has grown by one node.
pub proof fn lemma_views_push(all: Seq<Node>, node: Node)
    ensures
        views(all.push(node)) == views(all).push(node.view()),
{
    let grown = all.push(node);
    assert(grown.subrange(0, grown.len() - 1) =~= all);
}

/// The views of a list are as many as its nodes, each the view of its
/// node.
pub proof fn lemma_views(all: Seq<Node>)
    ensures
        views(all).len() == all.len(),
        forall|i: int| 0 <= i < all.len() ==> #[trigger] views(all)[i] == all[i].view(),
    decreases all.len(),
{
    if all.len() > 0 {
        let head = all.subrange(0, all.len() - 1);
        lemma_views(head);
        assert forall|i: int| 0 <= i < all.len() implies #[trigger] views(all)[i] == all[i].view() by {
            if i < head.len() {
                assert(head[i] == all[i]);
            }
        }
    }
}

/// The number that token `pos` writes.
pub open spec fn number(tokens: Seq<Seq<char>>, pos: int) -> Option<u64> {
    if 0 <= pos < tokens.len() {
        decimal_u64(tokens[pos])
    } else {
        None
    }
}

/// The numbers that the `count` tokens from `pos` on write; nothing
/// where there are fewer tokens or one of them writes no number.
pub open spec fn metas_at(tokens: Seq<Seq<char>>, pos: int, count: nat) -> Option<Seq<u64>> {
    if 0 <= pos && pos + count <= tokens.len() && forall|i: int|
        pos <= i < pos + count ==> (#[trigger] number(tokens, i)) is Some {
        Some(Seq::new(count, |i: int| number(tokens, pos + i).unwrap()))
    } else {
        None
    }
}

/// The node that the tokens from `pos` on write, and where the tokens go
/// on behind it: the number of its child nodes, the number of its
/// metadata entries, the child nodes, and the metadata entries.
pub open spec fn node_at(tokens: Seq<Seq<char>>, pos: int) -> Option<(Licence, int)>
    decreases tokens.len() - pos, 0nat,
{
    if pos < 0 || pos + 2 > tokens.len() {
        None
    } else {
        match (number(tokens, pos), number(tokens, pos + 1)) {
            (Some(kids), Some(metas)) => match nodes_at(tokens, pos + 2, kids as nat) {
                Some((children, p)) => match metas_at(tokens, p, metas as nat) {
                    Some(meta) => Some((Licence { children, meta }, p + metas)),
                    None => None,
                },
                None => None,
            },
            _ => None,
        }
    }
}

/// The `count` nodes that the tokens from `pos` on write one after the
/// other, and where the tokens go on behind them.
pub open spec fn nodes_at(tokens: Seq<Seq<char>>, pos: int, count: nat) -> Option<
    (Seq<Licence>, int),
>
    decreases tokens.len() - pos, count,
{
    if count == 0 {
        Some((Seq::empty(), pos))
    } else if pos < 0 || pos > tokens.len() {
        None
    } else {
        match node_at(tokens, pos) {
            Some((first, next)) => if next <= pos || next > tokens.len() {
                None
            } else {
                match nodes_at(tokens, next, (count - 1) as nat) {
                    Some((rest, end)) => Some((seq![first] + rest, end)),
                    None => None,
                }
            },
            None => None,
        }
    }
}

/// The tree that the tokens write: its root is the first node. Tokens
/// behind the root are not read.
pub open spec fn tree_of(tokens: Seq<Seq<char>>) -> Option<Licence> {
    match node_at(tokens, 0) {
        Some((root, _)) => Some(root),
        None => None,
    }
}

/// The nodes `done` before the nodes of `rest`.
pub open spec fn joined(done: Seq<Licence>, rest: Option<(Seq<Licence>, int)>) -> Option<
    (Seq<Licence>, int),
> {
    match rest {
        Some((more, end)) => Some((done + more, end)),
        None => None,
    }
}

/// A node ends behind its two leading numbers, within the tokens.
pub proof fn lemma_node_at(tokens: Seq<Seq<char>>, pos: int)
    ensures
        match node_at(tokens, pos) {
            Some((_, next)) => pos + 2 <= next <= tokens.len(),
            None => true,
        },
    decreases tokens.len() - pos, 0nat,
{
    if !(pos < 0 || pos + 2 > tokens.len()) {
        match (number(tokens, pos), number(tokens, pos + 1)) {
            (Some(kids), Some(metas)) => {
                lemma_nodes_at(tokens, pos + 2, kids as nat);
            },
            _ => {},
        }
    }
}

/// Nodes one after the other end at or behind their beginning, within
/// the tokens.
pub proof fn lemma_nodes_at(tokens: Seq<Seq<char>>, pos: int, count: nat)
    requires
        0 <= pos <= tokens.len(),
    ensures
        match nodes_at(tokens, pos, count) {
            Some((all, end)) => pos <= end <= tokens.len() && all.len() == count,
            None => true,
        },
    decreases tokens.len() - pos, count,
{
    if count > 0 {
        lemma_node_at(tokens, pos);
        match node_at(tokens, pos) {
            Some((first, next)) => {
                if next > pos {
                    lemma_nodes_at(tokens, next, (count - 1) as nat);
                }
            },
            None => {},
        }
    }
}

/// Reads the number that token `pos` writes.
fn read_number(tokens: &Vec<String>, pos: usize) -> (r: Option<u64>)
    ensures
        r == number(tokens.deep_view(), pos as int),
{
    if pos < tokens.len() {
        assert(tokens.deep_view()[pos as int] == tokens@[pos as int]@);
        parse_u64(tokens[pos].as_str())
    } else {
        None
    }
}

/// Reads `count` metadata entries from token `pos` on.
fn read_metas(tokens: &Vec<String>, pos: usize, count: u64) -> (r: Option<Vec<u64>>)
    requires
        pos <= tokens@.len(),
    ensures
        match r {
            Some(meta) => metas_at(tokens.deep_view(), pos as int, count as nat) == Some(meta@),
            None => metas_at(tokens.deep_view(), pos as int, count as nat) is None,
        },
{
    let ghost all = tokens.deep_view();
    let n = tokens.len();
    if count > (n - pos) as u64 {
        return None;
    }
    let mut meta: Vec<u64> = Vec::new();
    let mut i: usize = 0;
    while i < count as usize
        invariant
            i <= count,
            pos + count <= n,
            n == tokens@.len(),
            all == tokens.deep_view(),
            meta@.len() == i,
            forall|j: int| pos <= j < pos + i ==> (#[trigger] number(all, j)) is Some,
            forall|j: int| 0 <= j < i ==> #[trigger] meta@[j] == number(all, pos + j).unwrap(),
        decreases count - i,
    {
        match read_number(tokens, pos + i) {
            Some(v) => {
                meta.push(v);
            },
            None => {
                return None;
            },
        }
        i += 1;
    }
    assert(meta@ =~= Seq::new(count as nat, |i: int| number(all, pos + i).unwrap()));
    Some(meta)
}

/// Reads the node that the tokens from `pos` on write.
pub fn read_node(tokens: &Vec<String>, pos: usize) -> (r: Option<(Node, usize)>)
    ensures
        match r {
            Some((node, next)) => node_at(tokens.deep_view(), pos as int) == Some(
                (node@, next as int),
            ),
            None => node_at(tokens.deep_view(), pos as int) is None,
        },
    decreases tokens@.len() - pos,
{
    let ghost all = tokens.deep_view();
    let n = tokens.len();
    if pos > n || n - pos < 2 {
        return None;
    }
    let (kids, metas) = match (read_number(tokens, pos), read_number(tokens, pos + 1)) {
        (Some(kids), Some(metas)) => (kids, metas),
        _ => {
            return None;
        },
    };
    let mut children: Vec<Node> = Vec::new();
    let mut p: usize = pos + 2;
    let mut k: u64 = 0;
    proof {
        assert(views(children@) + Seq::<Licence>::empty() =~= views(children@));
        assert(views(children@) =~= Seq::<Licence>::empty());
    }
    while k < kids
        invariant
            k <= kids,
            pos + 2 <= p <= n,
            n == tokens@.len(),
            all == tokens.deep_view(),
            number(all, pos as int) == Some(kids),
            number(all, pos + 1) == Some(metas),
            nodes_at(all, pos + 2, kids as nat) == joined(
                views(children@),
                nodes_at(all, p as int, (kids - k) as nat),
            ),
        decreases kids - k,
    {
        proof {
            lemma_node_at(all, p as int);
        }
        match read_node(tokens, p) {
            Some((child, next)) => {
                proof {
                    lemma_views_push(children@, child);
                    let rest = nodes_at(all, next as int, (kids - k - 1) as nat);
                    match rest {
                        Some((more, end)) => {
                            assert(views(children@) + (seq![child@] + more) =~= views(children@).push(
                                child@,
                            ) + more);
                        },
                        None => {},
                    }
                }
                children.push(child);
                p = next;
            },
            None => {
                proof {
                    assert(nodes_at(all, p as int, (kids - k) as nat) is None);
                    assert(nodes_at(all, pos + 2, kids as nat) is None);
                }
                return None;
            },
        }
        k += 1;
    }
    proof {
        assert(views(children@) + Seq::<Licence>::empty() =~= views(children@));
    }
    let meta = match read_metas(tokens, p, metas) {
        Some(meta) => meta,
        None => {
            return None;
        },
    };
    let next = p + metas as usize;
    Some((Node { children, meta }, next))
}

/// Reads the tree that the tokens write; `MalformedInput` where they
/// write none.
pub fn tree_from_tokens(tokens: &Vec<String>) -> (r: Result<Node, Error>)
    ensures
        match r {
            Ok(root) => tree_of(tokens.deep_view()) == Some(root@),
            Err(e) => e == Error::MalformedInput && tree_of(tokens.deep_view()) is None,
        },
{
    match read_node(tokens, 0) {
        Some((root, _)) => Ok(root),
        None => Err(Error::MalformedInput),
    }
}

/// Reads the tree that a text writes as numbers between blanks.
pub fn load_tree(text: &str) -> (r: Result<Node, Error>)
    ensures
        match r {
            Ok(root) => tree_of(whitespace_tokens(text@)) == Some(root@),
            Err(e) => e == Error::MalformedInput && tree_of(whitespace_tokens(text@)) is None,
        },
{
    let tokens = split_whitespace(text);
    tree_from_tokens(&tokens)
}

/// The sum of the numbers.
pub open spec fn sum(numbers: Seq<u64>) -> nat
    decreases numbers.len(),
{
    if numbers.len() == 0 {
        0
    } else {
        sum(numbers.drop_last()) + numbers.last() as nat
    }
}

/// The sum of the metadata entries of the nodes and of all nodes below
/// them.
pub open spec fn meta_sums(all: Seq<Licence>) -> nat
    decreases all,
{
    if all.len() == 0 {
        0
    } else {
        meta_sums(all.drop_last()) + all.last().meta_sum()
    }
}

/// The value of child `entry` of the nodes, counted from one; zero where
/// there is no such child.
pub open spec fn referred(all: Seq<Licence>, entry: u64) -> nat
    decreases all, 0nat,
{
    if 1 <= entry <= all.len() {
        all[entry - 1].value()
    } else {
        0
    }
}

/// The sum of the values of the children that the entries refer to.
pub open spec fn referred_sum(all: Seq<Licence>, entries: Seq<u64>) -> nat
    decreases all, entries.len(),
{
    if entries.len() == 0 {
        0
    } else {
        referred_sum(all, entries.drop_last()) + referred(all, entries.last())
    }
}

impl Licence {
    /// The sum of the metadata entries of the node and of all nodes
    /// below it.
    pub open spec fn meta_sum(self) -> nat
        decreases self,
    {
        sum(self.meta) + meta_sums(self.children)
    }

    /// The value of the node: without children the sum of its metadata
    /// entries, else the sum of the values of the children that its
    /// metadata entries refer to.
    pub open spec fn value(self) -> nat
        decreases self,
    {
        if self.children.len() == 0 {
            sum(self.meta)
        } else {
            referred_sum(self.children, self.meta)
        }
    }
}

/// A number that fits 64 bits, or nothing.
pub open spec fn fitting(n: nat) -> Option<u64> {
    if n <= u64::MAX {
        Some(n as u64)
    } else {
        None
    }
}

/// The sum of two numbers of which each may be too great already.
fn plus(a: Option<u64>, b: Option<u64>, Ghost(x): Ghost<nat>, Ghost(y): Ghost<nat>) -> (r: Option<u64>)
    requires
        a == fitting(x),
        b == fitting(y),
    ensures
        r == fitting(x + y),
{
    match (a, b) {
        (Some(a), Some(b)) => a.checked_add(b),
        _ => None,
    }
}

/// The sum of the numbers, where it fits 64 bits.
pub fn sum_of(numbers: &Vec<u64>) -> (r: Option<u64>)
    ensures
        r == fitting(sum(numbers@)),
{
    let mut total: Option<u64> = Some(0);
    let mut i: usize = 0;
    assert(numbers@.take(0) =~= Seq::<u64>::empty());
    while i < numbers.len()
        invariant
            i <= numbers@.len(),
            total == fitting(sum(numbers@.take(i as int))),
        decreases numbers@.len() - i,
    {
        proof {
            assert(numbers@.take(i + 1).drop_last() =~= numbers@.take(i as int));
        }
        total = plus(
            total,
            Some(numbers[i]),
            Ghost(sum(numbers@.take(i as int))),
            Ghost(numbers@[i as int] as nat),
        );
        i += 1;
    }
    assert(numbers@.take(i as int) =~= numbers@);
    total
}

impl Node {
    /// The sum of the metadata entries of the node and of all nodes
    /// below it, where it fits 64 bits.
    pub fn meta_sum(&self) -> (r: Option<u64>)
        ensures
            r == fitting(self@.meta_sum()),
        decreases self,
    {
        let mut total = sum_of(&self.meta);
        let ghost all = views(self.children@);
        let mut i: usize = 0;
        proof {
            lemma_views(self.children@);
            assert(all.take(0) =~= Seq::<Licence>::empty());
        }
        while i < self.children.len()
            invariant
                i <= self.children@.len(),
                all == views(self.children@),
                all.len() == self.children@.len(),
                forall|j: int| 0 <= j < all.len() ==> #[trigger] all[j] == self.children@[j].view(),
                total == fitting(sum(self.meta@) + meta_sums(all.take(i as int))),
            decreases self.children@.len() - i,
        {
            proof {
                assert(all.take(i + 1).drop_last() =~= all.take(i as int));
                assert(all.take(i + 1).last() == all[i as int]);
                assert(decreases_to!(self => self.children));
                assert(decreases_to!(self.children => self.children@));
                assert(decreases_to!(self.children@ => self.children@[i as int]));
            }
            let below = self.children[i].meta_sum();
            total = plus(
                total,
                below,
                Ghost(sum(self.meta@) + meta_sums(all.take(i as int))),
                Ghost(all[i as int].meta_sum()),
            );
            i += 1;
        }
        proof {
            assert(all.take(i as int) =~= all);
        }
        total
    }

    /// The value of the node, where it fits 64 bits.
    pub fn value(&self) -> (r: Option<u64>)
        ensures
            r == fitting(self@.value()),
        decreases self,
    {
        if self.children.len() == 0 {
            proof {
                lemma_views(self.children@);
            }
            return sum_of(&self.meta);
        }
        let ghost all = views(self.children@);
        let mut values: Vec<Option<u64>> = Vec::new();
        let mut i: usize = 0;
        proof {
            lemma_views(self.children@);
        }
        while i < self.children.len()
            invariant
                i <= self.children@.len(),
                all == views(self.children@),
                all.len() == self.children@.len(),
                forall|j: int| 0 <= j < all.len() ==> #[trigger] all[j] == self.children@[j].view(),
                values@.len() == i,
                forall|j: int| 0 <= j < i ==> #[trigger] values@[j] == fitting(all[j].value()),
            decreases self.children@.len() - i,
        {
            proof {
                assert(decreases_to!(self => self.children));
                assert(decreases_to!(self.children => self.children@));
                assert(decreases_to!(self.children@ => self.children@[i as int]));
            }
            let v = self.children[i].value();
            values.push(v);
            i += 1;
        }
        let mut total: Option<u64> = Some(0);
        let mut k: usize = 0;
        assert(self.meta@.take(0) =~= Seq::<u64>::empty());
        while k < self.meta.len()
            invariant
                k <= self.meta@.len(),
                values@.len() == all.len(),
                forall|j: int| 0 <= j < all.len() ==> #[trigger] values@[j] == fitting(all[j].value()),
                total == fitting(referred_sum(all, self.meta@.take(k as int))),
            decreases self.meta@.len() - k,
        {
            proof {
                assert(self.meta@.take(k + 1).drop_last() =~= self.meta@.take(k as int));
            }
            let entry = self.meta[k];
            let value = if 1 <= entry && entry <= values.len() as u64 {
                values[(entry - 1) as usize]
            } else {
                Some(0)
            };
            total = plus(
                total,
                value,
                Ghost(referred_sum(all, self.meta@.take(k as int))),
                Ghost(referred(all, entry)),
            );
            k += 1;
        }
        assert(self.meta@.take(k as int) =~= self.meta@);
        total
    }
}

/// The sum of all metadata entries of the tree; `Overflow` where it does
/// not fit 64 bits.
pub fn part1(t: &Node) -> (r: Result<u64, Error>)
    ensures
        r == (match fitting(t@.meta_sum()) {
            Some(total) => Ok::<u64, Error>(total),
            None => Err::<u64, Error>(Error::Overflow),
        }),
{
    match t.meta_sum() {
        Some(total) => Ok(total),
        None => Err(Error::Overflow),
    }
}

/// The value of the root of the tree; `Overflow` where it does not fit
/// 64 bits.
pub fn part2(t: &Node) -> (r: Result<u64, Error>)
    ensures
        r == (match fitting(t@.value()) {
            Some(value) => Ok::<u64, Error>(value),
            None => Err::<u64, Error>(Error::Overflow),
        }),
{
    match t.value() {
        Some(value) => Ok(value),
        None => Err(Error::Overflow),
    }
}

} // verus!
