use vstd::prelude::*;
use crate::graph::{Attributes, Edge, Graph, GraphError, NodeData, NodeId};
use crate::text::{chars_of, string_from};

verus! {

/// A mutation of the graph given as text.
#[derive(Debug)]
pub enum Command {
    /// `add node <label>`
    AddNode { label: String },
    /// `add edge <a>:<b>` (weight 1) or `add edge <a>:<b>:<weight>`
    AddEdge { a: String, b: String, weight: u64 },
}

pub ghost enum CommandView {
    AddNode(Seq<char>),
    AddEdge(Seq<char>, Seq<char>, u64),
}

impl View for Command {
    type V = CommandView;

    open spec fn view(&self) -> CommandView {
        match self {
            Command::AddNode { label } => CommandView::AddNode(label@),
            Command::AddEdge { a, b, weight } => CommandView::AddEdge(a@, b@, *weight),
        }
    }
}

/// The pieces of `s` between occurrences of `sep`; always at least one piece.
pub open spec fn split_on(s: Seq<char>, sep: char) -> Seq<Seq<char>>
    decreases s.len(),
{
    if s.len() == 0 {
        seq![Seq::<char>::empty()]
    } else {
        let p = split_on(s.drop_last(), sep);
        if s.last() == sep {
            p.push(Seq::<char>::empty())
        } else {
            p.update(p.len() - 1, p.last().push(s.last()))
        }
    }
}

pub proof fn lemma_split_nonempty(s: Seq<char>, sep: char)
    ensures
        split_on(s, sep).len() >= 1,
    decreases s.len(),
{
    if s.len() > 0 {
        lemma_split_nonempty(s.drop_last(), sep);
    }
}

pub open spec fn is_digit(c: char) -> bool {
    '0' <= c && c <= '9'
}

pub open spec fn is_digits(s: Seq<char>) -> bool {
    s.len() > 0 && forall|i: int| 0 <= i < s.len() ==> is_digit(#[trigger] s[i])
}

/// The number that the decimal digits `s` spell.
pub open spec fn digits_value(s: Seq<char>) -> nat
    decreases s.len(),
{
    if s.len() == 0 {
        0
    } else {
        (digits_value(s.drop_last()) * 10 + (s.last() as int - '0' as int)) as nat
    }
}

proof fn lemma_digits_grow(s: Seq<char>, k: int)
    requires
        0 <= k <= s.len(),
        forall|i: int| 0 <= i < s.len() ==> is_digit(#[trigger] s[i]),
    ensures
        digits_value(s.subrange(0, k)) <= digits_value(s),
    decreases s.len() - k,
{
    if k < s.len() {
        lemma_digits_grow(s, k + 1);
        assert(s.subrange(0, k + 1).drop_last() =~= s.subrange(0, k));
    } else {
        assert(s.subrange(0, k) =~= s);
    }
}

pub open spec fn node_prefix() -> Seq<char> {
    seq!['a', 'd', 'd', ' ', 'n', 'o', 'd', 'e', ' ']
}

pub open spec fn edge_prefix() -> Seq<char> {
    seq!['a', 'd', 'd', ' ', 'e', 'd', 'g', 'e', ' ']
}

/// The command that a line of text spells, if it is well formed.
pub open spec fn command_of(s: Seq<char>) -> Option<CommandView> {
    if s.len() > 9 && s.subrange(0, 9) == node_prefix() {
        Some(CommandView::AddNode(s.subrange(9, s.len() as int)))
    } else if s.len() >= 9 && s.subrange(0, 9) == edge_prefix() {
        let parts = split_on(s.subrange(9, s.len() as int), ':');
        if parts.len() == 2 && parts[0].len() > 0 && parts[1].len() > 0 {
            Some(CommandView::AddEdge(parts[0], parts[1], 1))
        } else if parts.len() == 3 && parts[0].len() > 0 && parts[1].len() > 0 && is_digits(parts[2])
            && digits_value(parts[2]) <= u64::MAX {
            Some(CommandView::AddEdge(parts[0], parts[1], digits_value(parts[2]) as u64))
        } else {
            None
        }
    } else {
        None
    }
}

/// The decimal number that `cs` spells, if it is one and fits in `u64`.
pub fn parse_weight(cs: &Vec<char>) -> (r: Option<u64>)
    ensures
        r == (if is_digits(cs@) && digits_value(cs@) <= u64::MAX {
            Some(digits_value(cs@) as u64)
        } else {
            None
        }),
{
    if cs.len() == 0 {
        return None;
    }
    let mut v: u64 = 0;
    let mut i: usize = 0;
    while i < cs.len()
        invariant
            i <= cs@.len(),
            forall|k: int| 0 <= k < i ==> is_digit(#[trigger] cs@[k]),
            v == digits_value(cs@.subrange(0, i as int)),
        decreases cs.len() - i,
    {
        let c = cs[i];
        if !('0' <= c && c <= '9') {
            return None;
        }
        proof {
            assert(cs@.subrange(0, i + 1).drop_last() =~= cs@.subrange(0, i as int));
        }
        let d = (c as u32 - '0' as u32) as u64;
        let next = match v.checked_mul(10) {
            Some(t) => t.checked_add(d),
            None => None,
        };
        match next {
            Some(w) => {
                v = w;
            },
            None => {
                proof {
                    if is_digits(cs@) {
                        lemma_digits_grow(cs@, i + 1);
                    }
                }
                return None;
            },
        }
        i = i + 1;
    }
    proof {
        assert(cs@.subrange(0, cs@.len() as int) =~= cs@);
    }
    Some(v)
}

fn starts_with(cs: &Vec<char>, p: &Vec<char>) -> (b: bool)
    ensures
        b == (p@.len() <= cs@.len() && cs@.subrange(0, p@.len() as int) == p@),
{
    if p.len() > cs.len() {
        return false;
    }
    let mut i: usize = 0;
    while i < p.len()
        invariant
            p@.len() <= cs@.len(),
            i <= p@.len(),
            forall|k: int| 0 <= k < i ==> cs@[k] == p@[k],
        decreases p.len() - i,
    {
        if cs[i] != p[i] {
            proof {
                assert(cs@.subrange(0, p@.len() as int)[i as int] != p@[i as int]);
            }
            return false;
        }
        i = i + 1;
    }
    proof {
        assert(cs@.subrange(0, p@.len() as int) =~= p@);
    }
    true
}

fn string_of(cs: &Vec<char>) -> (r: String)
    ensures
        r@ == cs@,
{
    proof {
        assert(cs@.subrange(0, cs@.len() as int) =~= cs@);
    }
    string_from(cs, 0, cs.len())
}

/// Reads a mutation command: `add node <label>` with a non-empty label, or
/// `add edge <a>:<b>` or `add edge <a>:<b>:<weight>` with non-empty labels and a
/// decimal weight (1 when left out). Anything else is `MalformedInput`.
pub fn parse_command(line: &str) -> (r: Result<Command, GraphError>)
    ensures
        r is Ok == command_of(line@) is Some,
        r is Ok ==> r->Ok_0@ == command_of(line@)->Some_0,
        r is Err ==> r->Err_0 == GraphError::MalformedInput,
{
    let cs = chars_of(line);
    let node_p: Vec<char> = vec!['a', 'd', 'd', ' ', 'n', 'o', 'd', 'e', ' '];
    let edge_p: Vec<char> = vec!['a', 'd', 'd', ' ', 'e', 'd', 'g', 'e', ' '];
    let n = cs.len();
    if n > 9 && starts_with(&cs, &node_p) {
        return Ok(Command::AddNode { label: string_from(&cs, 9, n) });
    }
    if !(n >= 9 && starts_with(&cs, &edge_p)) {
        return Err(GraphError::MalformedInput);
    }
    let ghost rest = cs@.subrange(9, n as int);
    let mut done: Vec<Vec<char>> = Vec::new();
    let mut cur: Vec<char> = Vec::new();
    let mut k: usize = 9;
    proof {
        assert(cs@.subrange(9, 9) =~= Seq::<char>::empty());
    }
    while k < n
        invariant
            n == cs@.len(),
            9 <= k <= n,
            done@.len() + 1 == split_on(cs@.subrange(9, k as int), ':').len(),
            forall|x: int| 0 <= x < done@.len() ==> (#[trigger] done@[x])@ == split_on(cs@.subrange(9, k as int), ':')[x],
            cur@ == split_on(cs@.subrange(9, k as int), ':').last(),
        decreases n - k,
    {
        let c = cs[k];
        let ghost sp = split_on(cs@.subrange(9, k as int), ':');
        proof {
            assert(cs@.subrange(9, k + 1).drop_last() =~= cs@.subrange(9, k as int));
            lemma_split_nonempty(cs@.subrange(9, k as int), ':');
        }
        if c == ':' {
            done.push(cur);
            cur = Vec::new();
            proof {
                let sp2 = split_on(cs@.subrange(9, k + 1), ':');
                assert(sp2 == sp.push(Seq::<char>::empty()));
                assert forall|x: int| 0 <= x < done@.len() implies (#[trigger] done@[x])@ == sp2[x] by {
                    if x < done@.len() - 1 {
                    }
                }
            }
        } else {
            cur.push(c);
            proof {
                let sp2 = split_on(cs@.subrange(9, k + 1), ':');
                assert(sp2 == sp.update(sp.len() - 1, sp.last().push(c)));
            }
        }
        k = k + 1;
    }
    proof {
        assert(cs@.subrange(9, n as int) == rest);
    }
    if done.len() == 1 {
        if done[0].len() > 0 && cur.len() > 0 {
            return Ok(Command::AddEdge { a: string_of(&done[0]), b: string_of(&cur), weight: 1 });
        }
    } else if done.len() == 2 {
        if done[0].len() > 0 && done[1].len() > 0 {
            match parse_weight(&cur) {
                Some(w) => {
                    return Ok(Command::AddEdge { a: string_of(&done[0]), b: string_of(&done[1]), weight: w });
                },
                None => {},
            }
        }
    }
    Err(GraphError::MalformedInput)
}

/// What a well-formed command did.
#[derive(Clone, Copy, Debug, PartialEq, Eq, Structural)]
pub enum Applied {
    /// A node was added under this handle.
    NodeAdded(NodeId),
    /// A node with that label was already present, under this handle; nothing changed.
    NodeExists(NodeId),
    /// An edge was added.
    EdgeAdded,
}

/// Reads a command and applies it. Labels are resolved to the first node that
/// carries them. A malformed command or an unknown label leaves the graph as it was.
pub fn apply_command(g: &mut Graph, line: &str) -> (r: Result<Applied, GraphError>)
    requires
        old(g)@.well_formed(),
    ensures
        final(g)@.well_formed(),
        command_of(line@) is None ==> r == Err::<Applied, GraphError>(GraphError::MalformedInput) && final(g)@
            == old(g)@,
        command_of(line@) matches Some(CommandView::AddNode(l)) ==> match old(g)@.label_slot(l) {
            Some(k) => r == Ok::<Applied, GraphError>(Applied::NodeExists(NodeId { slot: k as usize }))
                && final(g)@ == old(g)@,
            None => r == Ok::<Applied, GraphError>(Applied::NodeAdded(NodeId { slot: old(g)@.nodes.len() as usize }))
                && final(g)@.nodes.drop_last() == old(g)@.nodes && final(g)@.live(old(g)@.nodes.len() as int)
                && final(g)@.label(old(g)@.nodes.len() as int) == l && final(g)@.edges == old(g)@.edges,
        },
        command_of(line@) matches Some(CommandView::AddEdge(a, b, w)) ==> match (
            old(g)@.label_slot(a),
            old(g)@.label_slot(b),
        ) {
            (Some(ka), Some(kb)) => r == Ok::<Applied, GraphError>(Applied::EdgeAdded) && final(g)@.nodes
                == old(g)@.nodes && final(g)@.edges == old(g)@.edges.push(
                Edge { a: NodeId { slot: ka as usize }, b: NodeId { slot: kb as usize }, weight: w },
            ),
            _ => r == Err::<Applied, GraphError>(GraphError::UnknownNode) && final(g)@ == old(g)@,
        },
{
    let cmd = match parse_command(line) {
        Ok(c) => c,
        Err(e) => {
            return Err(e);
        },
    };
    match cmd {
        Command::AddNode { label } => {
            match g.find_by_label(label.as_str()) {
                Some(id) => Ok(Applied::NodeExists(id)),
                None => {
                    let id = g.add_node(NodeData { label, attributes: Attributes::unknown() });
                    proof {
                        assert(g@.nodes.drop_last() =~= old(g)@.nodes);
                    }
                    Ok(Applied::NodeAdded(id))
                },
            }
        },
        Command::AddEdge { a, b, weight } => {
            let ia = g.find_by_label(a.as_str());
            let ib = g.find_by_label(b.as_str());
            match (ia, ib) {
                (Some(x), Some(y)) => {
                    let r = g.add_edge(x, y, weight);
                    Ok(Applied::EdgeAdded)
                },
                _ => Err(GraphError::UnknownNode),
            }
        },
    }
}

} // verus!
