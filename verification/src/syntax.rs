//! A plain, owned syntax tree.
//!
//! Nodes are stored in preorder. Each node records its depth (the root has
//! depth 0) and `end`, the index one past its last descendant, so that the
//! subtree of node `i` is exactly the index range `i .. end`.
use vstd::prelude::*;
use vstd::utf8::*;

use crate::text::str_eq;

verus! {

/// One node of a [`SyntaxTree`].
pub struct SyntaxNode {
    /// Grammar node kind, such as `if_statement`.
    pub kind: String,
    /// Name of the field under which the node hangs in its parent, if any.
    pub field: Option<String>,
    /// Whether the node is a named node of the grammar.
    pub named: bool,
    pub start_byte: usize,
    pub end_byte: usize,
    /// Zero-based row of the first character.
    pub start_row: usize,
    /// Zero-based row of the last character.
    pub end_row: usize,
    /// Distance from the root.
    pub depth: usize,
    /// Index one past the last node of this node's subtree.
    pub end: usize,
    /// Identifier of the node in the parser that produced it.
    pub id: usize,
}

/// Description of a node before subtree extents are known; see
/// [`SyntaxTree::build`].
pub struct NodeEntry {
    pub kind: String,
    pub field: Option<String>,
    pub named: bool,
    pub start_byte: usize,
    pub end_byte: usize,
    pub start_row: usize,
    pub end_row: usize,
    pub depth: usize,
    pub id: usize,
}

/// A syntax tree stored as a preorder sequence of nodes; node 0 is the root.
pub struct SyntaxTree {
    pub nodes: Vec<SyntaxNode>,
}

/// Depth of an entry after it is made consistent with its predecessor:
/// at least 1 and at most one more than the previous depth.
pub open spec fn clamp_depth(prev: int, d: int) -> int {
    if d < 1 {
        1
    } else if d > prev + 1 {
        prev + 1
    } else {
        d
    }
}

/// The bytes `lo .. hi` decoded as UTF-8, as `Node::utf8_text` reads a node.
#[verifier::opaque]
pub open spec fn text_of(source: Seq<u8>, lo: int, hi: int) -> Option<Seq<char>> {
    if 0 <= lo <= hi <= source.len() && valid_utf8(source.subrange(lo, hi)) {
        Some(decode_utf8(source.subrange(lo, hi)))
    } else {
        None
    }
}

/// The bytes `b` decoded as UTF-8, when they are valid UTF-8.
#[verifier::external_body]
pub(crate) fn utf8_to_string(b: &[u8]) -> (r: Option<String>)
    ensures
        r is Some <==> valid_utf8(b@),
        r matches Some(s) ==> s@ == decode_utf8(b@),
{
    match std::str::from_utf8(b) {
        Ok(s) => Some(s.to_string()),
        Err(_) => None,
    }
}

impl SyntaxTree {
    pub open spec fn size(&self) -> int {
        self.nodes@.len() as int
    }

    pub open spec fn dep(&self, i: int) -> int {
        self.nodes@[i].depth as int
    }

    pub open spec fn fin(&self, i: int) -> int {
        self.nodes@[i].end as int
    }

    pub open spec fn kind(&self, i: int) -> Seq<char> {
        self.nodes@[i].kind@
    }

    /// Well-formedness: depths describe a preorder tree and `end` is the
    /// extent of each subtree.
    pub open spec fn wf(&self) -> bool {
        &&& self.size() >= 1
        &&& self.dep(0) == 0
        &&& forall|i: int| 0 < i < self.size() ==> #[trigger] self.dep(i) >= 1
        &&& forall|i: int, j: int|
            0 <= i && j == i + 1 && j < self.size() ==> #[trigger] self.dep(j) <= #[trigger] self.dep(i)
                + 1
        &&& forall|i: int| 0 <= i < self.size() ==> i < #[trigger] self.fin(i) <= self.size()
        &&& forall|i: int, j: int|
            #![trigger self.dep(j), self.fin(i)]
            0 <= i < self.size() && i < j < self.fin(i) ==> self.dep(j) > self.dep(i)
        &&& forall|i: int|
            0 <= i < self.size() && self.fin(i) < self.size() ==> self.dep(#[trigger] self.fin(i))
                <= self.dep(i)
    }

    /// Children of node `i`, starting from position `c`.
    pub open spec fn kids(&self, i: int, c: int) -> Seq<int>
        decreases self.fin(i) - c,
    {
        if 0 <= c < self.fin(i) && c < self.fin(c) <= self.fin(i) {
            seq![c] + self.kids(i, self.fin(c))
        } else {
            seq![]
        }
    }

    /// Children of node `i`, in order.
    pub open spec fn children(&self, i: int) -> Seq<int> {
        self.kids(i, i + 1)
    }

    /// First child of `i` at or after position `c` hanging under field `name`.
    pub open spec fn field_from(&self, i: int, c: int, name: Seq<char>) -> Option<int>
        decreases self.fin(i) - c,
    {
        if 0 <= c < self.fin(i) && c < self.fin(c) <= self.fin(i) {
            if self.nodes@[c].field matches Some(f) && f@ == name {
                Some(c)
            } else {
                self.field_from(i, self.fin(c), name)
            }
        } else {
            None
        }
    }

    /// `Node::child_by_field_name`: the first child of `i` under field `name`.
    pub open spec fn field_child(&self, i: int, name: Seq<char>) -> Option<int> {
        self.field_from(i, i + 1, name)
    }

    /// Text of node `i` within `source`.
    pub open spec fn text(&self, source: Seq<u8>, i: int) -> Option<Seq<char>> {
        text_of(source, self.nodes@[i].start_byte as int, self.nodes@[i].end_byte as int)
    }

    /// The first node of `s`, from position `j` on, whose kind is `k`.
    pub open spec fn first_kind_from(&self, s: Seq<int>, k: Seq<char>, j: int) -> Option<int>
        decreases s.len() - j,
    {
        if 0 <= j < s.len() {
            if self.kind(s[j]) == k {
                Some(s[j])
            } else {
                self.first_kind_from(s, k, j + 1)
            }
        } else {
            None
        }
    }

    /// The first child of `i` whose kind is `k`.
    pub open spec fn child_of_kind(&self, i: int, k: Seq<char>) -> Option<int> {
        self.first_kind_from(self.children(i), k, 0)
    }

    /// Node `i` has no children.
    pub open spec fn is_leaf(&self, i: int) -> bool {
        self.fin(i) == i + 1
    }

    /// A node inside the subtree of `i` has its whole subtree inside it too.
    pub proof fn lemma_nested(&self, i: int, j: int)
        requires
            self.wf(),
            0 <= i < self.size(),
            i < j < self.fin(i),
        ensures
            self.fin(j) <= self.fin(i),
            j < self.size(),
    {
        assert(i < self.fin(i) <= self.size());
        assert(j < self.fin(j) <= self.size());
        if self.fin(j) > self.fin(i) {
            let e = self.fin(i);
            assert(self.dep(e) <= self.dep(i));
            assert(self.dep(e) > self.dep(j));
            assert(self.dep(j) > self.dep(i));
        }
    }

    /// Every position visited while listing children is a child: it lies in
    /// the subtree, one level below `i`.
    pub proof fn lemma_kids(&self, i: int, c: int)
        requires
            self.wf(),
            0 <= i < self.size(),
            i < c <= self.fin(i),
            c < self.fin(i) ==> self.dep(c) == self.dep(i) + 1,
        ensures
            forall|k: int|
                0 <= k < self.kids(i, c).len() ==> {
                    let x = #[trigger] self.kids(i, c)[k];
                    &&& c <= x < self.fin(i)
                    &&& self.dep(x) == self.dep(i) + 1
                    &&& self.fin(x) <= self.fin(i)
                },
        decreases self.fin(i) - c,
    {
        if c < self.fin(i) {
            self.lemma_nested(i, c);
            let e = self.fin(c);
            if e < self.fin(i) {
                assert(self.dep(e) <= self.dep(c));
                assert(self.dep(e) > self.dep(i));
            }
            self.lemma_kids(i, e);
            let s = self.kids(i, c);
            assert(s == seq![c] + self.kids(i, e));
            assert forall|k: int| 0 <= k < s.len() implies {
                let x = #[trigger] s[k];
                &&& c <= x < self.fin(i)
                &&& self.dep(x) == self.dep(i) + 1
                &&& self.fin(x) <= self.fin(i)
            } by {
                if k > 0 {
                    assert(s[k] == self.kids(i, e)[k - 1]);
                }
            }
        }
    }

    /// The first node after `i` is its first child, when `i` has children.
    pub proof fn lemma_first_child(&self, i: int)
        requires
            self.wf(),
            0 <= i < self.size(),
        ensures
            i + 1 < self.fin(i) ==> self.dep(i + 1) == self.dep(i) + 1,
            self.fin(i) <= self.size(),
    {
        if i + 1 < self.fin(i) {
            assert(self.dep(i + 1) > self.dep(i));
            assert(self.dep(i + 1) <= self.dep(i) + 1);
        }
    }

    /// The node right after the subtree of a child of `i` is the next child.
    pub proof fn lemma_next_sibling(&self, i: int, c: int)
        requires
            self.wf(),
            0 <= i < self.size(),
            i < c < self.fin(i),
            self.dep(c) == self.dep(i) + 1,
        ensures
            self.fin(c) <= self.fin(i),
            self.fin(c) < self.fin(i) ==> self.dep(self.fin(c)) == self.dep(i) + 1,
            c < self.fin(c),
    {
        self.lemma_nested(i, c);
        let e = self.fin(c);
        if e < self.fin(i) {
            assert(self.dep(e) <= self.dep(c));
            assert(self.dep(e) > self.dep(i));
        }
    }

    /// The root's subtree is the whole tree.
    pub proof fn lemma_root_spans(&self)
        requires
            self.wf(),
        ensures
            self.fin(0) == self.size(),
    {
        if self.fin(0) < self.size() {
            assert(self.dep(self.fin(0)) >= 1);
        }
    }

    /// Node kind test: `self.nodes[i].kind == k`.
    pub fn kind_is(&self, i: usize, k: &str) -> (r: bool)
        requires
            i < self.nodes@.len(),
        ensures
            r == (self.kind(i as int) == k@),
    {
        str_eq(self.nodes[i].kind.as_str(), k)
    }

    /// `Node::child_by_field_name`.
    pub fn child_by_field(&self, i: usize, name: &str) -> (r: Option<usize>)
        requires
            self.wf(),
            i < self.nodes@.len(),
        ensures
            match r {
                Some(c) => self.field_child(i as int, name@) == Some(c as int),
                None => self.field_child(i as int, name@) is None,
            },
            r matches Some(c) ==> i < c < self.fin(i as int),
    {
        let stop = self.nodes[i].end;
        let mut c: usize = i + 1;
        proof {
            self.lemma_first_child(i as int);
        }
        while c < stop
            invariant
                self.wf(),
                i < self.nodes@.len(),
                stop == self.fin(i as int),
                i < c <= stop,
                c < stop ==> self.dep(c as int) == self.dep(i as int) + 1,
                self.field_child(i as int, name@) == self.field_from(i as int, c as int, name@),
            decreases stop - c,
        {
            proof {
                self.lemma_next_sibling(i as int, c as int);
            }
            let hit = match &self.nodes[c].field {
                Some(f) => str_eq(f.as_str(), name),
                None => false,
            };
            if hit {
                return Some(c);
            }
            c = self.nodes[c].end;
        }
        None
    }

    /// The children of node `i`, in order.
    pub fn child_list(&self, i: usize) -> (r: Vec<usize>)
        requires
            self.wf(),
            i < self.nodes@.len(),
        ensures
            r@.len() == self.children(i as int).len(),
            forall|k: int| 0 <= k < r@.len() ==> #[trigger] r@[k] == self.children(i as int)[k],
            forall|k: int|
                0 <= k < r@.len() ==> i < #[trigger] r@[k] < self.fin(i as int) && self.fin(i as int)
                    <= self.size(),
    {
        let stop = self.nodes[i].end;
        let mut out: Vec<usize> = Vec::new();
        proof {
            self.lemma_first_child(i as int);
            self.lemma_kids(i as int, i + 1);
        }
        let mut c: usize = i + 1;
        while c < stop
            invariant
                self.wf(),
                i < self.nodes@.len(),
                stop == self.fin(i as int),
                stop <= self.size(),
                i < c <= stop,
                c < stop ==> self.dep(c as int) == self.dep(i as int) + 1,
                self.children(i as int) == out@.map_values(|x: usize| x as int) + self.kids(
                    i as int,
                    c as int,
                ),
                forall|k: int| 0 <= k < out@.len() ==> i < #[trigger] out@[k] < stop,
            decreases stop - c,
        {
            proof {
                self.lemma_next_sibling(i as int, c as int);
            }
            let ghost before = out@;
            out.push(c);
            let next = self.nodes[c].end;
            proof {
                assert(self.kids(i as int, c as int) == seq![c as int] + self.kids(
                    i as int,
                    next as int,
                ));
                assert(out@.map_values(|x: usize| x as int) =~= before.map_values(
                    |x: usize| x as int,
                ).push(c as int));
                assert(self.children(i as int) =~= out@.map_values(|x: usize| x as int)
                    + self.kids(i as int, next as int));
            }
            c = next;
        }
        proof {
            assert(self.kids(i as int, c as int) =~= Seq::<int>::empty());
            assert forall|k: int| 0 <= k < out@.len() implies #[trigger] out@[k] == self.children(
                i as int,
            )[k] by {
                assert(self.children(i as int)[k] == out@.map_values(|x: usize| x as int)[k]);
            }
        }
        out
    }

    /// The first child of `i` whose kind is `k`.
    pub fn find_child_of_kind(&self, i: usize, k: &str) -> (r: Option<usize>)
        requires
            self.wf(),
            i < self.nodes@.len(),
        ensures
            match r {
                Some(c) => self.child_of_kind(i as int, k@) == Some(c as int) && i < c
                    < self.size(),
                None => self.child_of_kind(i as int, k@) is None,
            },
    {
        let kids = self.child_list(i);
        let ghost s = self.children(i as int);
        let mut j: usize = 0;
        while j < kids.len()
            invariant
                kids@.len() == s.len(),
                forall|x: int| 0 <= x < kids@.len() ==> #[trigger] kids@[x] == s[x],
                forall|x: int| 0 <= x < kids@.len() ==> i < #[trigger] kids@[x] < self.size(),
                j <= kids@.len(),
                self.child_of_kind(i as int, k@) == self.first_kind_from(s, k@, j as int),
            decreases kids@.len() - j,
        {
            let c = kids[j];
            if self.kind_is(c, k) {
                return Some(c);
            }
            j = j + 1;
        }
        None
    }

    /// `Node::utf8_text`: the source text of node `i`.
    pub fn node_text(&self, i: usize, source: &[u8]) -> (r: Option<String>)
        requires
            i < self.nodes@.len(),
        ensures
            match r {
                Some(s) => self.text(source@, i as int) == Some(s@),
                None => self.text(source@, i as int) is None,
            },
    {
        reveal(text_of);
        let lo = self.nodes[i].start_byte;
        let hi = self.nodes[i].end_byte;
        if lo <= hi && hi <= source.len() {
            let part = vstd::slice::slice_subrange(source, lo, hi);
            utf8_to_string(part)
        } else {
            None
        }
    }

    /// Builds a well-formed tree from preorder entries. Each entry's depth is
    /// first made consistent with the one before it (see [`clamp_depth`]);
    /// the first entry becomes the root.
    pub fn build(entries: Vec<NodeEntry>) -> (t: SyntaxTree)
        requires
            entries@.len() >= 1,
        ensures
            t.wf(),
            t.size() == entries@.len(),
            t.dep(0) == 0,
            forall|i: int|
                0 < i < t.size() ==> #[trigger] t.dep(i) == clamp_depth(
                    t.dep(i - 1),
                    entries@[i].depth as int,
                ),
            forall|i: int|
                0 <= i < t.size() ==> {
                    let n = #[trigger] t.nodes@[i];
                    let e = entries@[i];
                    &&& n.kind == e.kind
                    &&& n.field == e.field
                    &&& n.named == e.named
                    &&& n.start_byte == e.start_byte
                    &&& n.end_byte == e.end_byte
                    &&& n.start_row == e.start_row
                    &&& n.end_row == e.end_row
                    &&& n.id == e.id
                },
    {
        let n = entries.len();
        // Consistent depths.
        let mut depths: Vec<usize> = Vec::new();
        depths.push(0);
        let mut i: usize = 1;
        while i < n
            invariant
                n == entries@.len(),
                1 <= i <= n,
                depths@.len() == i,
                depths@[0] == 0,
                forall|k: int| 0 < k < i ==> #[trigger] depths@[k] >= 1,
                forall|k: int| 0 <= k < i ==> #[trigger] depths@[k] <= k,
                forall|k: int|
                    0 < k < i ==> #[trigger] depths@[k] as int == clamp_depth(
                        depths@[k - 1] as int,
                        entries@[k].depth as int,
                    ),
            decreases n - i,
        {
            let prev = depths[i - 1];
            let d = entries[i].depth;
            let c = if d < 1 {
                1
            } else if d > prev + 1 {
                prev + 1
            } else {
                d
            };
            depths.push(c);
            i = i + 1;
        }
        // Subtree extents, by a stack of open nodes.
        let mut ends: Vec<usize> = Vec::new();
        let mut k: usize = 0;
        while k < n
            invariant
                k <= n,
                ends@.len() == k,
                forall|x: int| 0 <= x < k ==> #[trigger] ends@[x] == n,
            decreases n - k,
        {
            ends.push(n);
            k = k + 1;
        }
        let mut stack: Vec<usize> = Vec::new();
        let mut j: usize = 0;
        while j < n
            invariant
                n == entries@.len(),
                n == depths@.len(),
                n == ends@.len(),
                j <= n,
                depths@[0] == 0,
                forall|x: int| 0 < x < n ==> #[trigger] depths@[x] >= 1,
                forall|x: int| 0 <= x < n - 1 ==> #[trigger] depths@[x + 1] <= depths@[x] + 1,
                forall|s: int| 0 <= s < stack@.len() ==> #[trigger] stack@[s] < j,
                forall|s: int, u: int|
                    0 <= s < u < stack@.len() ==> #[trigger] stack@[s] < #[trigger] stack@[u],
                forall|s: int|
                    0 <= s < stack@.len() ==> #[trigger] ends@[stack@[s] as int] == n,
                forall|s: int, m: int|
                    0 <= s < stack@.len() && stack@[s] < m < j ==> #[trigger] depths@[m]
                        > depths@[#[trigger] stack@[s] as int],
                forall|x: int|
                    0 <= x < j && ends@[x] == n ==> exists|s: int|
                        0 <= s < stack@.len() && #[trigger] stack@[s] == x,
                forall|x: int|
                    0 <= x < j && #[trigger] ends@[x] != n ==> {
                        &&& x < ends@[x] <= j
                        &&& depths@[ends@[x] as int] <= depths@[x]
                        &&& forall|m: int| x < m < ends@[x] ==> #[trigger] depths@[m] > depths@[x]
                    },
                forall|x: int| j <= x < n ==> #[trigger] ends@[x] == n,
            decreases n - j,
        {
            let dj = depths[j];
            while stack.len() > 0 && depths[stack[stack.len() - 1]] >= dj
                invariant
                    n == depths@.len(),
                    n == ends@.len(),
                    j < n,
                    dj == depths@[j as int],
                    forall|s: int| 0 <= s < stack@.len() ==> #[trigger] stack@[s] < j,
                    forall|s: int, u: int|
                        0 <= s < u < stack@.len() ==> #[trigger] stack@[s] < #[trigger] stack@[u],
                    forall|s: int|
                        0 <= s < stack@.len() ==> #[trigger] ends@[stack@[s] as int] == n,
                    forall|s: int, m: int|
                        0 <= s < stack@.len() && stack@[s] < m < j ==> #[trigger] depths@[m]
                            > depths@[#[trigger] stack@[s] as int],
                    forall|x: int|
                        0 <= x < j && ends@[x] == n ==> exists|s: int|
                            0 <= s < stack@.len() && #[trigger] stack@[s] == x,
                    forall|x: int|
                        0 <= x < j && #[trigger] ends@[x] != n ==> {
                            &&& x < ends@[x] <= j
                            &&& depths@[ends@[x] as int] <= depths@[x]
                            &&& forall|m: int|
                                x < m < ends@[x] ==> #[trigger] depths@[m] > depths@[x]
                        },
                    forall|x: int| j <= x < n ==> #[trigger] ends@[x] == n,
                decreases stack@.len(),
            {
                let ghost prev_stack = stack@;
                let top = stack.pop().unwrap();
                let ghost old_ends = ends@;
                ends.set(top, j);
                proof {
                    assert forall|x: int| 0 <= x < j && ends@[x] == n implies exists|s: int|
                        0 <= s < stack@.len() && #[trigger] stack@[s] == x by {
                        assert(x != top);
                        assert(old_ends[x] == n);
                        let s = choose|s: int|
                            0 <= s < prev_stack.len() && #[trigger] prev_stack[s] == x;
                        assert(s < stack@.len() || prev_stack[s] == top);
                        assert(s < stack@.len() ==> stack@[s] == prev_stack[s]);
                    }
                }
            }
            proof {
                assert forall|s: int, m: int|
                    0 <= s < stack@.len() && stack@[s] < m < j + 1 implies #[trigger] depths@[m]
                    > depths@[#[trigger] stack@[s] as int] by {
                    if m == j {
                        let t = stack@.len() - 1;
                        assert(depths@[stack@[t] as int] < dj);
                        if s < t {
                            assert(depths@[stack@[t] as int] > depths@[stack@[s] as int]);
                        }
                    }
                }
            }
            let ghost before_push = stack@;
            stack.push(j);
            proof {
                assert forall|x: int| 0 <= x < j + 1 && ends@[x] == n implies exists|s: int|
                    0 <= s < stack@.len() && #[trigger] stack@[s] == x by {
                    if x == j {
                        assert(stack@[stack@.len() - 1] == x);
                    } else {
                        let s = choose|s: int|
                            0 <= s < before_push.len() && #[trigger] before_push[s] == x;
                        assert(stack@[s] == x);
                    }
                }
            }
            j = j + 1;
        }
        // Assemble the nodes.
        let mut nodes: Vec<SyntaxNode> = Vec::new();
        let mut idx: usize = 0;
        for e in it: entries.into_iter()
            invariant
                it.seq() == entries@,
                idx == it.index(),
                n == entries@.len(),
                n == depths@.len(),
                n == ends@.len(),
                nodes@.len() == idx,
                forall|x: int|
                    0 <= x < idx ==> {
                        let nd = #[trigger] nodes@[x];
                        let en = entries@[x];
                        &&& nd.kind == en.kind
                        &&& nd.field == en.field
                        &&& nd.named == en.named
                        &&& nd.start_byte == en.start_byte
                        &&& nd.end_byte == en.end_byte
                        &&& nd.start_row == en.start_row
                        &&& nd.end_row == en.end_row
                        &&& nd.id == en.id
                        &&& nd.depth == depths@[x]
                        &&& nd.end == ends@[x]
                    },
        {
            nodes.push(
                SyntaxNode {
                    kind: e.kind,
                    field: e.field,
                    named: e.named,
                    start_byte: e.start_byte,
                    end_byte: e.end_byte,
                    start_row: e.start_row,
                    end_row: e.end_row,
                    depth: depths[idx],
                    end: ends[idx],
                    id: e.id,
                },
            );
            idx = idx + 1;
        }
        let t = SyntaxTree { nodes };
        assert(t.size() == n);
        assert forall|x: int| 0 <= x < t.size() implies x < #[trigger] t.fin(x) <= t.size() by {
            assert(t.nodes@[x].end == ends@[x]);
            if ends@[x] == n {
                let s = choose|s: int| 0 <= s < stack@.len() && #[trigger] stack@[s] == x;
            }
        }
        assert forall|x: int, m: int| 0 <= x < t.size() && x < m < t.fin(x) implies #[trigger] t.dep(m)
            > #[trigger] t.dep(x) by {
            assert(t.nodes@[x].depth == depths@[x]);
            assert(t.nodes@[x].end == ends@[x]);
            assert(x < ends@[x] <= n);
            assert(t.nodes@[m].depth == depths@[m]);
            if ends@[x] == n {
                let s = choose|s: int| 0 <= s < stack@.len() && #[trigger] stack@[s] == x;
                assert(stack@[s] < m < n);
                assert(depths@[m] > depths@[stack@[s] as int]);
            } else {
                assert(depths@[m] > depths@[x]);
            }
        }
        assert forall|x: int|
            0 <= x < t.size() && t.fin(x) < t.size() implies t.dep(#[trigger] t.fin(x)) <= t.dep(
            x,
        ) by {
            assert(t.nodes@[x].depth == depths@[x]);
            assert(t.nodes@[x].end == ends@[x]);
            assert(t.nodes@[ends@[x] as int].depth == depths@[ends@[x] as int]);
        }
        assert forall|x: int| 0 < x < t.size() implies #[trigger] t.dep(x) >= 1 by {
            assert(t.nodes@[x].depth == depths@[x]);
        }
        assert forall|x: int| 0 <= x < t.size() - 1 implies #[trigger] t.dep(x + 1) <= t.dep(x)
            + 1 by {
            assert(t.nodes@[x].depth == depths@[x]);
            assert(t.nodes@[x + 1].depth == depths@[x + 1]);
        }
        assert(t.nodes@[0].depth == depths@[0]);
        t
    }
}

} // verus!
