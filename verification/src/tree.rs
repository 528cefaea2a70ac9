//! Folder listings: the files below a folder, how many they are and how much room they take.
use crate::text;
use vstd::prelude::*;

verus! {

/// Something found in a folder.
pub enum Node {
    File {
        /// The name, with a replacement character for what is not Unicode.
        name: String,
        /// Nothing in the name had to be replaced.
        exact: bool,
        /// The size in bytes, where it is known.
        size: Option<u64>,
    },
    Folder {
        name: String,
        /// What is in the folder; nothing where it cannot be read.
        children: Vec<Node>,
    },
}

/// How many files there are in the listing, at any depth.
pub open spec fn count(nodes: Seq<Node>) -> nat
    decreases nodes,
{
    if nodes.len() == 0 {
        0
    } else {
        count(nodes.drop_last()) + count_in(nodes.last())
    }
}

pub open spec fn count_in(node: Node) -> nat
    decreases node,
{
    match node {
        Node::File { .. } => 1,
        Node::Folder { children, .. } => count(children@),
    }
}

/// How many bytes the files of the listing hold, at any depth; a file of unknown size counts as
/// empty.
pub open spec fn size(nodes: Seq<Node>) -> nat
    decreases nodes,
{
    if nodes.len() == 0 {
        0
    } else {
        size(nodes.drop_last()) + size_of(nodes.last())
    }
}

pub open spec fn size_of(node: Node) -> nat
    decreases node,
{
    match node {
        Node::File { size: known, .. } => match known {
            Some(n) => n as nat,
            None => 0,
        },
        Node::Folder { children, .. } => size(children@),
    }
}

/// The paths of the files of the listing, at any depth, each with `prefix` in front of it and with
/// forward slashes.
pub open spec fn walk(nodes: Seq<Node>, prefix: Seq<char>) -> Seq<Seq<char>>
    decreases nodes,
{
    if nodes.len() == 0 {
        Seq::empty()
    } else {
        walk(nodes.drop_last(), prefix) + walk_in(nodes.last(), prefix)
    }
}

pub open spec fn walk_in(node: Node, prefix: Seq<char>) -> Seq<Seq<char>>
    decreases node,
{
    match node {
        Node::File { name, .. } => seq![text::slashed(prefix + name@)],
        Node::Folder { name, children } => walk(children@, prefix + name@ + "/"@),
    }
}

proof fn lemma_count_grows(nodes: Seq<Node>, i: int)
    requires
        0 <= i <= nodes.len(),
    ensures
        count(nodes.take(i)) <= count(nodes),
        i < nodes.len() ==> count(nodes.take(i + 1)) == count(nodes.take(i)) + count_in(nodes[i]),
        i < nodes.len() ==> count(nodes.take(i)) + count_in(nodes[i]) <= count(nodes),
    decreases nodes.len(),
{
    if i < nodes.len() {
        assert(nodes.take(i + 1).drop_last() =~= nodes.take(i));
        if i + 1 == nodes.len() {
            assert(nodes.take(i + 1) =~= nodes);
        } else {
            lemma_count_grows(nodes.drop_last(), i + 1);
            assert(nodes.drop_last().take(i + 1) =~= nodes.take(i + 1));
        }
    } else {
        assert(nodes.take(i) =~= nodes);
    }
}

proof fn lemma_size_grows(nodes: Seq<Node>, i: int)
    requires
        0 <= i <= nodes.len(),
    ensures
        size(nodes.take(i)) <= size(nodes),
        i < nodes.len() ==> size(nodes.take(i + 1)) == size(nodes.take(i)) + size_of(nodes[i]),
        i < nodes.len() ==> size(nodes.take(i)) + size_of(nodes[i]) <= size(nodes),
    decreases nodes.len(),
{
    if i < nodes.len() {
        assert(nodes.take(i + 1).drop_last() =~= nodes.take(i));
        if i + 1 == nodes.len() {
            assert(nodes.take(i + 1) =~= nodes);
        } else {
            lemma_size_grows(nodes.drop_last(), i + 1);
            assert(nodes.drop_last().take(i + 1) =~= nodes.take(i + 1));
        }
    } else {
        assert(nodes.take(i) =~= nodes);
    }
}

/// How many files there are in the listing; nothing where the number is too large.
pub fn checked_count(nodes: &[Node]) -> (r: Option<usize>)
    ensures
        match r {
            Some(n) => n == count(nodes@),
            None => count(nodes@) > usize::MAX,
        },
    decreases nodes@,
{
    let mut n: usize = 0;
    assert(nodes@.take(0) =~= Seq::empty());
    for i in 0..nodes.len()
        invariant
            n == count(nodes@.take(i as int)),
    {
        proof {
            lemma_count_grows(nodes@, i as int);
        }
        let more: usize = match &nodes[i] {
            Node::File { .. } => 1,
            Node::Folder { children, .. } => match checked_count(children.as_slice()) {
                Some(k) => k,
                None => return None,
            },
        };
        match n.checked_add(more) {
            Some(sum) => n = sum,
            None => return None,
        }
    }
    assert(nodes@.take(nodes@.len() as int) =~= nodes@);
    Some(n)
}

/// How many bytes the files of the listing hold; nothing where the number is too large.
pub fn checked_size(nodes: &[Node]) -> (r: Option<u64>)
    ensures
        match r {
            Some(n) => n == size(nodes@),
            None => size(nodes@) > u64::MAX,
        },
    decreases nodes@,
{
    let mut n: u64 = 0;
    assert(nodes@.take(0) =~= Seq::empty());
    for i in 0..nodes.len()
        invariant
            n == size(nodes@.take(i as int)),
    {
        proof {
            lemma_size_grows(nodes@, i as int);
        }
        let more: u64 = match &nodes[i] {
            Node::File { size: known, .. } => match known {
                Some(k) => *k,
                None => 0,
            },
            Node::Folder { children, .. } => match checked_size(children.as_slice()) {
                Some(k) => k,
                None => return None,
            },
        };
        match n.checked_add(more) {
            Some(sum) => n = sum,
            None => return None,
        }
    }
    assert(nodes@.take(nodes@.len() as int) =~= nodes@);
    Some(n)
}

/// How many files there are in the listing.
pub fn count_files(nodes: &[Node]) -> (r: usize)
    requires
        count(nodes@) <= usize::MAX,
    ensures
        r == count(nodes@),
{
    match checked_count(nodes) {
        Some(n) => n,
        None => 0,
    }
}

/// How many bytes the files of the listing hold.
pub fn dir_size(nodes: &[Node]) -> (r: u64)
    requires
        size(nodes@) <= u64::MAX,
    ensures
        r == size(nodes@),
{
    match checked_size(nodes) {
        Some(n) => n,
        None => 0,
    }
}

fn walk_into(nodes: &[Node], prefix: &str, out: &mut Vec<String>)
    ensures
        text::texts(final(out)@) == text::texts(old(out)@) + walk(nodes@, prefix@),
    decreases nodes@,
{
    let ghost before = text::texts(out@);
    assert(nodes@.take(0) =~= Seq::empty());
    assert(before + walk(nodes@.take(0), prefix@) =~= before);
    for i in 0..nodes.len()
        invariant
            text::texts(out@) == before + walk(nodes@.take(i as int), prefix@),
    {
        let ghost so_far = text::texts(out@);
        assert(nodes@.take(i + 1).drop_last() =~= nodes@.take(i as int));
        match &nodes[i] {
            Node::File { name, .. } => {
                let path = text::concat(prefix, name.as_str());
                out.push(text::slashes(path.as_str()));
                assert(text::texts(out@) =~= so_far + walk_in(nodes@[i as int], prefix@));
            },
            Node::Folder { name, children } => {
                let mut inner = text::concat(prefix, name.as_str());
                inner.append("/");
                walk_into(children.as_slice(), inner.as_str(), out);
                assert(walk_in(nodes@[i as int], prefix@) == walk(children@, inner@));
            },
        }
        assert(text::texts(out@) =~= before + walk(nodes@.take(i + 1), prefix@));
    }
    assert(nodes@.take(nodes@.len() as int) =~= nodes@);
}

/// The paths of all files of the listing, relative to the listed folder, with forward slashes.
pub fn walk_files(nodes: &[Node]) -> (r: Vec<String>)
    ensures
        text::texts(r@) == walk(nodes@, Seq::<char>::empty()),
{
    let mut out: Vec<String> = Vec::new();
    let nowhere = String::new();
    assert(text::texts(out@) =~= Seq::empty());
    walk_into(nodes, nowhere.as_str(), &mut out);
    assert(text::texts(out@) =~= walk(nodes@, Seq::<char>::empty()));
    out
}

/// Counting the files of a listing and walking it agree.
pub proof fn law_every_file_is_walked(nodes: Seq<Node>, prefix: Seq<char>)
    ensures
        walk(nodes, prefix).len() == count(nodes),
    decreases nodes,
{
    if nodes.len() > 0 {
        law_every_file_is_walked(nodes.drop_last(), prefix);
        match nodes.last() {
            Node::File { .. } => {
                assert(walk_in(nodes.last(), prefix).len() == 1);
                assert(count_in(nodes.last()) == 1);
            },
            Node::Folder { name, children } => {
                law_every_file_is_walked(children@, prefix + name@ + "/"@);
                assert(walk_in(nodes.last(), prefix) == walk(children@, prefix + name@ + "/"@));
                assert(count_in(nodes.last()) == count(children@));
            },
        }
    }
}

} // verus!
