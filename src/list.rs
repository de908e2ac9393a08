use vstd::prelude::*;

use crate::error::Error;
use crate::text::{
    ascii_lowercase, chars_of, fold, lemma_piece_starts, no_empty_piece, piece, piece_count, piece_end, piece_starts,
    piece_starts_in, pieces_nonempty, sub_chars,
};

verus! {

/// The end of a rule: whether it is an exception rule.
#[derive(Debug)]
struct ListLeaf {
    is_exception_rule: bool,
}

impl ListLeaf {
    fn new(is_exception_rule: bool) -> (r: Self)
        ensures
            r.is_exception_rule == is_exception_rule,
    {
        Self { is_exception_rule }
    }
}

/// A node of the rule trie: its children by label, as indices into the
/// trie's node table, and the rule that ends here, if any.
#[derive(Debug)]
struct ListNode {
    children: Vec<(Vec<char>, usize)>,
    leaf: Option<ListLeaf>,
}

impl ListNode {
    fn new() -> (r: Self)
        ensures
            r.children@.len() == 0,
            r.leaf is None,
    {
        Self { children: Vec::new(), leaf: None }
    }
}

/// The first child in `ch` whose label is `label`.
pub closed spec fn find_in(ch: Seq<(Vec<char>, usize)>, label: Seq<char>) -> Option<int>
    decreases ch.len(),
{
    if ch.len() == 0 {
        None
    } else if ch[0].0@ == label {
        Some(ch[0].1 as int)
    } else {
        find_in(ch.drop_first(), label)
    }
}

/// The label of the wildcard rule.
pub open spec fn star() -> Seq<char> {
    seq!['*']
}

/// The `j`-th label of the dotted name `d`, counted from the right, from 1.
pub open spec fn label_from_right(d: Seq<char>, j: int) -> Seq<char> {
    piece(d, '.', piece_count(d, '.') - j)
}

/// Whether the rule entry `e` is an exception rule (`!` in front).
pub open spec fn rule_exception(e: Seq<char>) -> bool {
    e.len() > 0 && e[0] == '!'
}

/// The labels of the rule entry `e`, without its `!`.
pub open spec fn rule_body(e: Seq<char>) -> Seq<char> {
    if rule_exception(e) {
        e.drop_first()
    } else {
        e
    }
}

/// A rule is well formed when none of its labels is empty.
pub open spec fn valid_rule(e: Seq<char>) -> bool {
    no_empty_piece(rule_body(e), '.')
}

/// The label path of the rule entry `e`: its labels, rightmost first.
pub open spec fn rule_path(e: Seq<char>) -> Seq<Seq<char>> {
    body_path(rule_body(e))
}

/// The labels of the dotted text `b`, rightmost first.
pub open spec fn body_path(b: Seq<char>) -> Seq<Seq<char>> {
    Seq::new(piece_count(b, '.') as nat, |j: int| label_from_right(b, j + 1))
}

proof fn lemma_find_in_push(ch: Seq<(Vec<char>, usize)>, x: (Vec<char>, usize), l: Seq<char>)
    ensures
        find_in(ch.push(x), l) == if find_in(ch, l) is Some {
            find_in(ch, l)
        } else if x.0@ == l {
            Some(x.1 as int)
        } else {
            None
        },
    decreases ch.len(),
{
    let chx = ch.push(x);
    assert(chx.len() > 0);
    if ch.len() > 0 {
        assert(chx[0] == ch[0]);
        assert(chx.drop_first() =~= ch.drop_first().push(x));
        lemma_find_in_push(ch.drop_first(), x, l);
        if ch[0].0@ == l {
            assert(find_in(chx, l) == Some(ch[0].1 as int));
            assert(find_in(ch, l) == Some(ch[0].1 as int));
        } else {
            assert(find_in(chx, l) == find_in(chx.drop_first(), l));
            assert(find_in(ch, l) == find_in(ch.drop_first(), l));
        }
    } else {
        assert(chx[0] == x);
        assert(chx.drop_first() =~= Seq::<(Vec<char>, usize)>::empty());
        assert(find_in(chx.drop_first(), l) is None);
        assert(find_in(ch, l) is None);
    }
}

proof fn lemma_find_in_entry(ch: Seq<(Vec<char>, usize)>, l: Seq<char>)
    ensures
        find_in(ch, l) matches Some(c) ==> exists|i: int|
            0 <= i < ch.len() && ch[i].0@ == l && ch[i].1 as int == c,
    decreases ch.len(),
{
    if ch.len() > 0 && ch[0].0@ != l {
        lemma_find_in_entry(ch.drop_first(), l);
        if let Some(c) = find_in(ch, l) {
            let i = choose|i: int|
                0 <= i < ch.drop_first().len() && ch.drop_first()[i].0@ == l && ch.drop_first()[i].1 as int == c;
            assert(ch[i + 1] == ch.drop_first()[i]);
        }
    }
}

/// The rule that the first `k` entries of the rule text `t` give the label
/// path `p`: the last entry with that path decides whether it is an exception.
pub open spec fn entries_rule(t: Seq<char>, k: nat, p: Seq<Seq<char>>) -> Option<bool>
    decreases k,
{
    if k == 0 {
        None
    } else {
        let e = piece(t, ',', k - 1);
        if rule_path(e) == p {
            Some(rule_exception(e))
        } else {
            entries_rule(t, (k - 1) as nat, p)
        }
    }
}

/// `p` is a prefix of `q`.
pub open spec fn is_prefix(p: Seq<Seq<char>>, q: Seq<Seq<char>>) -> bool {
    p.len() <= q.len() && q.take(p.len() as int) == p
}

/// `p` begins the label path of one of the first `k` entries of `t`, or is
/// the empty path of the root.
pub open spec fn entries_node(t: Seq<char>, k: nat, p: Seq<Seq<char>>) -> bool
    decreases k,
{
    if k == 0 {
        p.len() == 0
    } else {
        entries_node(t, (k - 1) as nat, p) || is_prefix(p, rule_path(piece(t, ',', k - 1)))
    }
}

/// A non-empty path among the entries' beginnings starts with the first
/// label of one entry.
pub proof fn lemma_entries_node_first(t: Seq<char>, k: nat, p: Seq<Seq<char>>)
    requires
        p.len() >= 1,
        entries_node(t, k, p),
    ensures
        exists|i: int|
            0 <= i < k && rule_path(#[trigger] piece(t, ',', i)).len() >= 1 && rule_path(
                piece(t, ',', i),
            )[0] == p[0],
    decreases k,
{
    if entries_node(t, (k - 1) as nat, p) {
        lemma_entries_node_first(t, (k - 1) as nat, p);
    } else {
        let q = rule_path(piece(t, ',', k - 1));
        assert(q.take(p.len() as int)[0] == q[0]);
    }
}

/// Every one of the first `k` entries of `t` is a rule.
pub proof fn lemma_entry_compiled(t: Seq<char>, k: nat, i: int)
    requires
        0 <= i < k,
    ensures
        entries_rule(t, k, rule_path(piece(t, ',', i))) is Some,
    decreases k,
{
    if i < k - 1 {
        lemma_entry_compiled(t, (k - 1) as nat, i);
    }
}

/// A public suffix list, held as a trie of rules keyed by label from the
/// rightmost label inward. Node 0 is the root.
pub struct List {
    nodes: Vec<ListNode>,
    /// The label path from the root to each node.
    paths: Ghost<Seq<Seq<Seq<char>>>>,
}

impl List {
    /// Every child index names a node of the table, and the root exists.
    /// Each node knows its label path, and that path leads to it.
    pub closed spec fn wf(&self) -> bool {
        &&& self.nodes@.len() >= 1
        &&& self.paths@.len() == self.nodes@.len()
        &&& self.paths@[0] == Seq::<Seq<char>>::empty()
        &&& forall|n: int, c: int|
            0 <= n < self.nodes@.len() && 0 <= c < self.nodes@[n].children@.len() ==> {
                let e = #[trigger] self.nodes@[n].children@[c];
                &&& 1 <= e.1 < self.nodes@.len()
                &&& self.paths@[e.1 as int] == self.paths@[n].push(e.0@)
            }
        &&& forall|n: int| 0 <= n < self.nodes@.len() ==> #[trigger] self.path(0, self.paths@[n]) == Some(n)
    }

    /// The child of node `n` under `label`.
    pub closed spec fn child(&self, n: int, label: Seq<char>) -> Option<int> {
        find_in(self.nodes@[n].children@, label)
    }

    /// One step of a match: the child under `label`, else the wildcard child.
    pub closed spec fn step(&self, n: int, label: Seq<char>) -> Option<int> {
        match self.child(n, label) {
            Some(c) => Some(c),
            None => self.child(n, star()),
        }
    }

    /// Whether a rule ends at node `n`, and if so whether it is an exception.
    pub closed spec fn leaf_at(&self, n: int) -> Option<bool> {
        match self.nodes@[n].leaf {
            Some(l) => Some(l.is_exception_rule),
            None => None,
        }
    }

    /// The node that matching reaches after the `j` rightmost labels of `d`.
    pub closed spec fn reach(&self, d: Seq<char>, j: nat) -> Option<int>
        decreases j,
    {
        if j == 0 {
            Some(0)
        } else {
            match self.reach(d, (j - 1) as nat) {
                Some(n) => if j <= piece_count(d, '.') {
                    self.step(n, label_from_right(d, j as int))
                } else {
                    None
                },
                None => None,
            }
        }
    }

    /// The longest rule matched within the `j` rightmost labels of `d`:
    /// whether it is an exception and how many labels it covers.
    pub closed spec fn longest(&self, d: Seq<char>, j: nat) -> Option<(bool, nat)>
        decreases j,
    {
        if j == 0 {
            None
        } else {
            match self.reach(d, j) {
                Some(n) => match self.leaf_at(n) {
                    Some(e) => Some((e, j)),
                    None => self.longest(d, (j - 1) as nat),
                },
                None => self.longest(d, (j - 1) as nat),
            }
        }
    }

    /// The rule that matching `d` against this list selects.
    pub open spec fn best_match(&self, d: Seq<char>) -> Option<(bool, nat)> {
        self.longest(d, piece_count(d, '.') as nat)
    }

    /// The node reached from `n` by following exactly the labels of `p`.
    pub closed spec fn path(&self, n: int, p: Seq<Seq<char>>) -> Option<int>
        decreases p.len(),
    {
        if p.len() == 0 {
            Some(n)
        } else {
            match self.path(n, p.drop_last()) {
                Some(m) => self.child(m, p.last()),
                None => None,
            }
        }
    }

    /// The rule with the label path `p` (rightmost label first), if the list
    /// holds it: whether it is an exception rule.
    pub closed spec fn rule(&self, p: Seq<Seq<char>>) -> Option<bool> {
        match self.path(0, p) {
            Some(m) => self.leaf_at(m),
            None => None,
        }
    }

    /// Every child that `old` has, `self` has too.
    pub closed spec fn keeps_children(&self, old: &List) -> bool {
        forall|n: int, l: Seq<char>|
            0 <= n < old.nodes@.len() && (#[trigger] old.child(n, l)) is Some ==> self.child(n, l)
                == old.child(n, l)
    }

    proof fn lemma_keeps_paths(&self, old: &List, p: Seq<Seq<char>>)
        requires
            old.wf(),
            self.keeps_children(old),
            old.path(0, p) is Some,
        ensures
            self.path(0, p) == old.path(0, p),
            0 <= old.path(0, p)->0 < old.nodes@.len(),
        decreases p.len(),
    {
        if p.len() > 0 {
            self.lemma_keeps_paths(old, p.drop_last());
            let m = old.path(0, p.drop_last())->0;
            old.lemma_child_in_range(m, p.last());
        }
    }

    proof fn lemma_child_in_range(&self, n: int, l: Seq<char>)
        requires
            self.wf(),
            0 <= n < self.nodes@.len(),
        ensures
            self.child(n, l) matches Some(c) ==> 0 <= c < self.nodes@.len(),
    {
        let ch = self.nodes@[n].children@;
        assert forall|k: int| 0 <= k <= ch.len() implies (#[trigger] find_in(ch.subrange(k, ch.len() as int), l)) matches Some(c)
            ==> 0 <= c < self.nodes@.len() by {
            self.lemma_find_in_range(ch, k, l, n);
        }
        assert(ch.subrange(0, ch.len() as int) =~= ch);
    }

    proof fn lemma_find_in_range(&self, ch: Seq<(Vec<char>, usize)>, k: int, l: Seq<char>, n: int)
        requires
            self.wf(),
            0 <= n < self.nodes@.len(),
            ch == self.nodes@[n].children@,
            0 <= k <= ch.len(),
        ensures
            find_in(ch.subrange(k, ch.len() as int), l) matches Some(c) ==> 0 <= c < self.nodes@.len(),
        decreases ch.len() - k,
    {
        if k < ch.len() {
            let rest = ch.subrange(k, ch.len() as int);
            assert(rest.drop_first() =~= ch.subrange(k + 1, ch.len() as int));
            assert(rest[0] == ch[k]);
            self.lemma_find_in_range(ch, k + 1, l, n);
        }
    }

    /// The list has a node at the label path `p`: some rule goes through it.
    pub closed spec fn has_node(&self, p: Seq<Seq<char>>) -> bool {
        self.path(0, p) is Some
    }

    /// One step of a match from the path `p`: the same label if the list
    /// has it there, else the wildcard label, else no step.
    pub open spec fn path_step(&self, p: Seq<Seq<char>>, label: Seq<char>) -> Option<Seq<Seq<char>>> {
        if self.has_node(p.push(label)) {
            Some(p.push(label))
        } else if self.has_node(p.push(star())) {
            Some(p.push(star()))
        } else {
            None
        }
    }

    /// The path that matching reaches after the `j` rightmost labels of `d`.
    pub open spec fn walk(&self, d: Seq<char>, j: nat) -> Option<Seq<Seq<char>>>
        decreases j,
    {
        if j == 0 {
            Some(Seq::empty())
        } else {
            match self.walk(d, (j - 1) as nat) {
                Some(p) => if j <= piece_count(d, '.') {
                    self.path_step(p, label_from_right(d, j as int))
                } else {
                    None
                },
                None => None,
            }
        }
    }

    /// The deepest rule on the walk within the `j` rightmost labels of `d`.
    pub open spec fn walk_longest(&self, d: Seq<char>, j: nat) -> Option<(bool, nat)>
        decreases j,
    {
        if j == 0 {
            None
        } else {
            match self.walk(d, j) {
                Some(p) => match self.rule(p) {
                    Some(e) => Some((e, j)),
                    None => self.walk_longest(d, (j - 1) as nat),
                },
                None => self.walk_longest(d, (j - 1) as nat),
            }
        }
    }

    proof fn lemma_walk_reach(&self, d: Seq<char>, j: nat)
        requires
            self.wf(),
        ensures
            self.reach(d, j) is Some <==> self.walk(d, j) is Some,
            self.walk(d, j) matches Some(p) ==> self.path(0, p) == self.reach(d, j),
            self.walk_longest(d, j) == self.longest(d, j),
        decreases j,
    {
        if j > 0 {
            self.lemma_walk_reach(d, (j - 1) as nat);
            if let Some(p) = self.walk(d, (j - 1) as nat) {
                let l = label_from_right(d, j as int);
                assert(p.push(l).drop_last() =~= p);
                assert(p.push(star()).drop_last() =~= p);
            }
        }
    }

    /// Matching, stated over the rules and nodes of the list: follow the
    /// name's labels from the right, each by its own label or else by the
    /// wildcard, and take the deepest rule met on the way.
    pub proof fn lemma_best_match_walk(&self, d: Seq<char>)
        requires
            self.wf(),
        ensures
            self.best_match(d) == self.walk_longest(d, piece_count(d, '.') as nat),
    {
        self.lemma_walk_reach(d, piece_count(d, '.') as nat);
    }

    proof fn lemma_longest_bound(&self, d: Seq<char>, j: nat)
        ensures
            self.longest(d, j) matches Some((e, k)) ==> 1 <= k <= j,
        decreases j,
    {
        if j > 0 {
            self.lemma_longest_bound(d, (j - 1) as nat);
        }
    }

    /// A match covers at least one label and at most all of them.
    pub proof fn lemma_best_match_bound(&self, d: Seq<char>)
        ensures
            self.best_match(d) matches Some((e, k)) ==> 1 <= k <= piece_count(d, '.'),
    {
        self.lemma_longest_bound(d, piece_count(d, '.') as nat);
    }

    /// The list is what compiling the (folded) rule text `t` gives: the
    /// rule of each path is that of the last entry with that path, the
    /// wildcard fallback is a plain rule, and the nodes are exactly the
    /// beginnings of these rules' label paths.
    pub open spec fn built_from(&self, t: Seq<char>) -> bool {
        &&& self.wf()
        &&& self.rule(seq![star()]) == Some(false)
        &&& forall|p: Seq<Seq<char>>| p != seq![star()] ==> #[trigger] self.rule(p)
            == entries_rule(t, piece_count(t, ',') as nat, p)
        &&& forall|p: Seq<Seq<char>>| #[trigger] self.has_node(p) <==> entries_node(
            t,
            piece_count(t, ',') as nat,
            p,
        ) || is_prefix(p, seq![star()])
    }

    /// No rule at all is in the list.
    pub closed spec fn holds_no_rule(&self) -> bool {
        forall|p: Seq<Seq<char>>| #[trigger] self.rule(p) is None
    }

    proof fn lemma_empty_paths(&self, p: Seq<Seq<char>>)
        requires
            self.nodes@.len() == 1,
            self.nodes@[0].children@.len() == 0,
        ensures
            p.len() == 0 ==> self.path(0, p) == Some(0int),
            p.len() > 0 ==> self.path(0, p) is None,
        decreases p.len(),
    {
        if p.len() > 0 {
            self.lemma_empty_paths(p.drop_last());
        }
    }

    proof fn lemma_empty_matches(&self, d: Seq<char>, j: nat)
        requires
            self.nodes@.len() == 1,
            self.nodes@[0].children@.len() == 0,
            self.nodes@[0].leaf is None,
        ensures
            j > 0 ==> self.reach(d, j) is None,
            self.longest(d, j) is None,
        decreases j,
    {
        if j > 0 {
            self.lemma_empty_matches(d, (j - 1) as nat);
        }
    }

    /// Creates an empty list, without any rules: it matches no name.
    pub fn empty() -> (r: List)
        ensures
            r.wf(),
            r.holds_no_rule(),
            forall|d: Seq<char>| #[trigger] r.best_match(d) is None,
            forall|p: Seq<Seq<char>>| #[trigger] r.has_node(p) <==> p.len() == 0,
    {
        let mut nodes: Vec<ListNode> = Vec::new();
        nodes.push(ListNode::new());
        let ghost root_path: Seq<Seq<Seq<char>>> = seq![Seq::<Seq<char>>::empty()];
        let r = List { nodes, paths: Ghost(root_path) };
        assert(r.path(0, r.paths@[0]) == Some(0int));
        assert forall|p: Seq<Seq<char>>| #[trigger] r.rule(p) is None by {
            r.lemma_empty_paths(p);
        }
        assert forall|p: Seq<Seq<char>>| #[trigger] r.has_node(p) <==> p.len() == 0 by {
            r.lemma_empty_paths(p);
        }
        assert forall|d: Seq<char>| #[trigger] r.best_match(d) is None by {
            r.lemma_empty_matches(d, piece_count(d, '.') as nat);
        }
        r
    }

    /// Compiles a rule list, folded to lower case as names are: rule entries
    /// separated by `,`, each a dotted
    /// label sequence, `!` in front for an exception rule, `*` for any one
    /// label. The wildcard rule `*` is always added last, as the fallback.
    /// An empty text holds no rule (`EmptyList`); an entry with an empty
    /// label, an empty entry included, is `InvalidRule`.
    pub fn build(rules: &str) -> (r: Result<List, Error>)
        ensures
            r == Err::<List, Error>(Error::EmptyList) <==> rules@.len() == 0,
            r == Err::<List, Error>(Error::InvalidRule) <==> rules@.len() > 0 && exists|k: int|
                0 <= k < piece_count(fold(rules@), ',') && !valid_rule(
                    #[trigger] piece(fold(rules@), ',', k),
                ),
            r is Ok <==> rules@.len() > 0 && forall|k: int|
                0 <= k < piece_count(fold(rules@), ',') ==> valid_rule(
                    #[trigger] piece(fold(rules@), ',', k),
                ),
            r matches Ok(l) ==> l.built_from(fold(rules@)) && forall|k: int|
                0 <= k < piece_count(fold(rules@), ',') ==> (#[trigger] l.rule(
                    rule_path(piece(fold(rules@), ',', k)),
                )) is Some,
    {
        let folded = ascii_lowercase(rules);
        let text = chars_of(folded.as_str());
        if text.len() == 0 {
            return Err(Error::EmptyList);
        }
        let ghost t = fold(rules@);
        let len = text.len();
        assert(text@.subrange(0, len as int) =~= t);
        let starts = piece_starts_in(&text, 0, len, ',');
        proof {
            lemma_piece_starts(t, ',');
        }
        let mut list = List::empty();
        if !list.append_all(&text, &starts) {
            return Err(Error::InvalidRule);
        }
        let fallback: Vec<char> = vec!['*'];
        let ghost f = fallback@;
        assert(f.subrange(0, 1) =~= f);
        assert(f.drop_last() =~= Seq::<char>::empty());
        assert(f.len() == 1 && f[0] == '*' && f.last() != '.');
        assert(piece_starts(f.drop_last(), '.') == seq![0int]);
        assert(piece_starts(f, '.') == seq![0int]);
        assert(rule_body(f) == f);
        assert(piece(f, '.', 0) =~= star());
        assert(rule_path(f) =~= seq![star()]);
        assert(piece_end(f, '.', 0) == 1);
        assert(valid_rule(f));
        let ghost before = list;
        match list.append(&fallback, 0, 1) {
            Ok(()) => {},
            Err(e) => {
                return Err(e);
            },
        }
        assert forall|i: int| 0 <= i < piece_count(t, ',') implies (#[trigger] list.rule(rule_path(piece(t, ',', i)))) is Some by {
            lemma_entry_compiled(t, piece_count(t, ',') as nat, i);
        }
        Ok(list)
    }

    /// Adds every rule entry of `text`, whose entries start at `starts`;
    /// stops at the first entry with an empty label and says whether there was none.
    fn append_all(&mut self, text: &Vec<char>, starts: &Vec<usize>) -> (ok: bool)
        requires
            old(self).wf(),
            old(self).holds_no_rule(),
            forall|p: Seq<Seq<char>>| #[trigger] old(self).has_node(p) <==> p.len() == 0,
            text@.len() > 0,
            starts@.len() == piece_count(text@, ','),
            forall|i: int| 0 <= i < starts@.len() ==> #[trigger] starts@[i] == piece_starts(text@, ',')[i],
        ensures
            final(self).wf(),
            ok <==> forall|i: int| 0 <= i < piece_count(text@, ',') ==> valid_rule(#[trigger] piece(text@, ',', i)),
            ok ==> forall|p: Seq<Seq<char>>|
                #[trigger] final(self).rule(p) == entries_rule(text@, piece_count(text@, ',') as nat, p),
            ok ==> forall|p: Seq<Seq<char>>|
                #[trigger] final(self).has_node(p) <==> entries_node(text@, piece_count(text@, ',') as nat, p),
    {
        let ghost t = text@;
        let len = text.len();
        proof {
            lemma_piece_starts(t, ',');
        }
        let count = starts.len();
                let mut k: usize = 0;
        while k < count
            invariant
                text@ == t,
                len == t.len() > 0,
                count == starts@.len() == piece_count(t, ','),
                forall|i: int| 0 <= i < starts@.len() ==> #[trigger] starts@[i] == piece_starts(t, ',')[i],
                forall|i: int|
                    1 <= i < piece_count(t, ',') ==> 1 <= #[trigger] piece_starts(t, ',')[i] <= t.len(),
                forall|i: int|
                    0 <= i < piece_count(t, ',') - 1 ==> #[trigger] piece_starts(t, ',')[i] < piece_starts(t, ',')[i + 1],
                piece_starts(t, ',')[0] == 0,
                k <= count,
                self.wf(),
                forall|i: int| 0 <= i < k ==> valid_rule(#[trigger] piece(t, ',', i)),
                forall|p: Seq<Seq<char>>| #[trigger] self.rule(p) == entries_rule(t, k as nat, p),
                forall|p: Seq<Seq<char>>| #[trigger] self.has_node(p) <==> entries_node(t, k as nat, p),
            decreases count - k,
        {
            let from = starts[k];
            let to = if k + 1 < count {
                starts[k + 1] - 1
            } else {
                len
            };
            assert(text@.subrange(from as int, to as int) == piece(t, ',', k as int));
            let ghost before = *self;
            match self.append(&text, from, to) {
                Ok(()) => {},
                Err(e) => {
                    assert(!valid_rule(piece(t, ',', k as int)));
                    return false;
                },
            }
            assert forall|p: Seq<Seq<char>>| #[trigger] self.rule(p) == entries_rule(t, (k + 1) as nat, p) by {
                assert(before.rule(p) == entries_rule(t, k as nat, p));
            }
            assert forall|p: Seq<Seq<char>>| #[trigger] self.has_node(p) <==> entries_node(t, (k + 1) as nat, p) by {
                assert(before.has_node(p) <==> entries_node(t, k as nat, p));
            }
            k = k + 1;
        }
        true
    }

    proof fn lemma_same_paths(&self, other: &List, p: Seq<Seq<char>>)
        requires
            forall|n: int, l: Seq<char>|
                0 <= n < self.nodes@.len() ==> #[trigger] self.child(n, l) == other.child(n, l),
            self.wf(),
        ensures
            self.path(0, p) == other.path(0, p),
        decreases p.len(),
    {
        if p.len() > 0 {
            self.lemma_same_paths(other, p.drop_last());
            if let Some(m) = self.path(0, p.drop_last()) {
                self.lemma_path_unique(p.drop_last());
            }
        }
    }

    /// Distinct label paths lead to distinct nodes: the node a path reaches
    /// records that very path.
    proof fn lemma_path_unique(&self, p: Seq<Seq<char>>)
        requires
            self.wf(),
            self.path(0, p) is Some,
        ensures
            0 <= self.path(0, p)->0 < self.nodes@.len(),
            self.paths@[self.path(0, p)->0] == p,
        decreases p.len(),
    {
        if p.len() == 0 {
        } else {
            let q = p.drop_last();
            self.lemma_path_unique(q);
            let m = self.path(0, q)->0;
            let ch = self.nodes@[m].children@;
            lemma_find_in_entry(ch, p.last());
            let i = choose|i: int| 0 <= i < ch.len() && ch[i].0@ == p.last() && ch[i].1 as int == self.path(0, p)->0;
            let e = ch[i];
            assert(self.nodes@[m].children@[i] == e);
            assert(q.push(p.last()) =~= p);
        }
    }

    /// Adds a new node as the child of `cur` under `key`.
    fn add_child(&mut self, cur: usize, key: Vec<char>) -> (idx: usize)
        requires
            old(self).wf(),
            cur < old(self).nodes@.len(),
            old(self).child(cur as int, key@) is None,
        ensures
            final(self).wf(),
            idx == old(self).nodes@.len(),
            final(self).nodes@.len() == old(self).nodes@.len() + 1,
            final(self).keeps_children(old(self)),
            final(self).child(cur as int, key@) == Some(idx as int),
            forall|m: int|
                0 <= m < old(self).nodes@.len() ==> #[trigger] final(self).leaf_at(m) == old(
                    self,
                ).leaf_at(m),
            final(self).leaf_at(idx as int) is None,
            final(self).paths@ == old(self).paths@.push(old(self).paths@[cur as int].push(key@)),
    {
        let ghost before = *self;
        let ghost k = key@;
        let idx = self.nodes.len();
        self.nodes.push(ListNode::new());
        self.nodes[cur].children.push((key, idx));
        self.paths = Ghost(self.paths@.push(self.paths@[cur as int].push(k)));
        proof {
            let x = self.nodes@[cur as int].children@.last();
            assert(self.nodes@[cur as int].children@ == before.nodes@[cur as int].children@.push(x));
            assert forall|n: int, l: Seq<char>|
                0 <= n < before.nodes@.len() && (#[trigger] before.child(n, l)) is Some implies self.child(n, l)
                    == before.child(n, l) by {
                if n == cur {
                    lemma_find_in_push(before.nodes@[n].children@, x, l);
                }
            }
            lemma_find_in_push(before.nodes@[cur as int].children@, x, k);
            assert forall|n: int, c: int|
                0 <= n < self.nodes@.len() && 0 <= c < self.nodes@[n].children@.len() implies {
                let e = #[trigger] self.nodes@[n].children@[c];
                &&& 1 <= e.1 < self.nodes@.len()
                &&& self.paths@[e.1 as int] == self.paths@[n].push(e.0@)
            } by {
                if n != cur && n < before.nodes@.len() {
                    assert(self.nodes@[n] == before.nodes@[n]);
                    assert(before.nodes@[n].children@[c] == self.nodes@[n].children@[c]);
                } else if n == cur && c < before.nodes@[n].children@.len() {
                    assert(before.nodes@[n].children@[c] == self.nodes@[n].children@[c]);
                }
            }
            assert forall|m: int| 0 <= m < before.nodes@.len() implies #[trigger] self.leaf_at(m)
                == before.leaf_at(m) by {
                assert(self.nodes@[m].leaf == before.nodes@[m].leaf);
            }
            assert forall|n: int| 0 <= n < self.nodes@.len() implies #[trigger] self.path(0, self.paths@[n]) == Some(n) by {
                if n < before.nodes@.len() {
                    assert(before.path(0, before.paths@[n]) == Some(n));
                    self.lemma_keeps_paths(&before, before.paths@[n]);
                } else {
                    let q = before.paths@[cur as int];
                    assert(before.path(0, q) == Some(cur as int));
                    self.lemma_keeps_paths(&before, q);
                    assert(q.push(k).drop_last() =~= q);
                }
            }
        }
        idx
    }

    #[verifier::rlimit(80)]
    /// Follows, and creates where missing, the path of the labels of
    /// `text[start..to]`, rightmost first; returns the node at its end.
    fn insert_path(&mut self, text: &Vec<char>, start: usize, to: usize, starts: &Vec<usize>) -> (cur:
        usize)
        requires
            old(self).wf(),
            start <= to <= text@.len(),
            starts@.len() == piece_count(text@.subrange(start as int, to as int), '.'),
            forall|i: int|
                0 <= i < starts@.len() ==> #[trigger] starts@[i] == start + piece_starts(
                    text@.subrange(start as int, to as int),
                    '.',
                )[i],
        ensures
            final(self).wf(),
            final(self).nodes@.len() >= old(self).nodes@.len(),
            final(self).keeps_children(old(self)),
            forall|m: int|
                0 <= m < old(self).nodes@.len() ==> #[trigger] final(self).leaf_at(m) == old(
                    self,
                ).leaf_at(m),
            cur < final(self).nodes@.len(),
            final(self).path(0, body_path(text@.subrange(start as int, to as int))) == Some(
                cur as int,
            ),
            forall|m: int|
                0 <= m < old(self).nodes@.len() ==> #[trigger] final(self).paths@[m] == old(
                    self,
                ).paths@[m],
            forall|m: int|
                old(self).nodes@.len() <= m < final(self).nodes@.len()
                    ==> (#[trigger] final(self).leaf_at(m)) is None,
            forall|p: Seq<Seq<char>>|
                #[trigger] final(self).has_node(p) <==> old(self).has_node(p) || is_prefix(
                    p,
                    body_path(text@.subrange(start as int, to as int)),
                ),
    {
        let ghost b = text@.subrange(start as int, to as int);
        let ghost rp = body_path(b);
        proof {
            lemma_piece_starts(b, '.');
        }
        let ghost old_list = *self;
        let count = starts.len();
        let mut cur: usize = 0;
        let mut j: usize = 0;
        assert(rp.take(0) =~= Seq::<Seq<char>>::empty());
        while j < count
            invariant
                old_list.wf(),
                self.wf(),
                self.nodes@.len() >= old_list.nodes@.len(),
                self.keeps_children(&old_list),
                forall|m: int|
                    0 <= m < old_list.nodes@.len() ==> #[trigger] self.leaf_at(m) == old_list.leaf_at(m),
                start <= to <= text@.len(),
                b == text@.subrange(start as int, to as int),
                rp == body_path(b),
                count == starts@.len() == piece_count(b, '.'),
                forall|i: int| 0 <= i < starts@.len() ==> #[trigger] starts@[i] == start + piece_starts(b, '.')[i],
                forall|i: int|
                    1 <= i < piece_count(b, '.') ==> 1 <= #[trigger] piece_starts(b, '.')[i] <= b.len(),
                forall|i: int|
                    0 <= i < piece_count(b, '.') - 1 ==> #[trigger] piece_starts(b, '.')[i] < piece_starts(b, '.')[i + 1],
                piece_starts(b, '.')[0] == 0,
                j <= count,
                cur < self.nodes@.len(),
                self.path(0, rp.take(j as int)) == Some(cur as int),
                forall|m: int|
                    0 <= m < old_list.nodes@.len() ==> #[trigger] self.paths@[m] == old_list.paths@[m],
                forall|m: int|
                    old_list.nodes@.len() <= m < self.nodes@.len() ==> (#[trigger] self.leaf_at(m)) is None,
                forall|m: int|
                    old_list.nodes@.len() <= m < self.nodes@.len() ==> is_prefix(#[trigger] self.paths@[m], rp.take(j as int)),
                forall|i: int| 0 <= i <= j ==> self.has_node(#[trigger] rp.take(i)),
            decreases count - j,
        {
            let k = count - 1 - j;
            let lf = starts[k];
            let lt = if k + 1 < count {
                starts[k + 1] - 1
            } else {
                to
            };
            let ghost label = text@.subrange(lf as int, lt as int);
            assert(piece(b, '.', k as int) =~= label);
            assert(rp[j as int] == label);
            assert(rp.take(j + 1).drop_last() =~= rp.take(j as int));
            let ghost before = *self;
            let ghost cur_before = cur;
            proof {
                before.lemma_path_unique(rp.take(j as int));
            }
            match self.find_child(cur, text, lf, lt) {
                Some(c) => {
                    cur = c;
                },
                None => {
                    let key = sub_chars(text, lf, lt);
                    proof {
                        before.lemma_path_unique(rp.take(j as int));
                    }
                    cur = self.add_child(cur, key);
                    assert forall|m: int|
                        old_list.nodes@.len() <= m < self.nodes@.len() implies (#[trigger] self.leaf_at(m)) is None by {
                        if m < before.nodes@.len() {
                            assert(before.leaf_at(m) is None);
                        }
                    }
                },
            }
            proof {
                assert forall|n: int, l: Seq<char>|
                    0 <= n < old_list.nodes@.len() && (#[trigger] old_list.child(n, l)) is Some
                        implies self.child(n, l) == old_list.child(n, l) by {
                    assert(before.child(n, l) == old_list.child(n, l));
                }
                assert(self.path(0, rp.take(j as int)) == before.path(0, rp.take(j as int))) by {
                    self.lemma_keeps_paths(&before, rp.take(j as int));
                }
                assert forall|i: int| 0 <= i <= j + 1 implies self.has_node(#[trigger] rp.take(i)) by {
                    if i <= j {
                        self.lemma_keeps_paths(&before, rp.take(i));
                    }
                }
                assert forall|m: int|
                    old_list.nodes@.len() <= m < self.nodes@.len() implies is_prefix(#[trigger] self.paths@[m], rp.take(j + 1)) by {
                    assert(rp.take(j + 1).take(rp.take(j as int).len() as int) =~= rp.take(j as int));
                    if m < before.nodes@.len() {
                        assert(self.paths@[m] == before.paths@[m]);
                        let q = self.paths@[m];
                        assert(is_prefix(q, rp.take(j as int)));
                        assert(rp.take(j + 1).take(q.len() as int) =~= rp.take(j as int).take(q.len() as int));
                    } else {
                        assert(before.paths@[cur_before as int] == rp.take(j as int));
                        assert(rp.take(j as int).push(label) =~= rp.take(j + 1));
                        assert(rp.take(j + 1).take(j + 1) =~= rp.take(j + 1));
                    }
                }
            }
            j = j + 1;
        }
        assert(rp.take(count as int) =~= rp);
        proof {
            assert forall|p: Seq<Seq<char>>|
                #[trigger] self.has_node(p) <==> old_list.has_node(p) || is_prefix(p, rp) by {
                if old_list.has_node(p) {
                    self.lemma_keeps_paths(&old_list, p);
                }
                if is_prefix(p, rp) {
                    assert(rp.take(p.len() as int) == p);
                }
                if self.has_node(p) {
                    self.lemma_path_unique(p);
                    let m = self.path(0, p)->0;
                    if m < old_list.nodes@.len() {
                        assert(old_list.path(0, old_list.paths@[m]) == Some(m));
                    } else {
                        assert(rp.take(count as int).take(p.len() as int) =~= rp.take(p.len() as int));
                    }
                }
            }
        }
        cur
    }

    /// Marks the end of a rule at node `cur`.
    fn set_leaf(&mut self, cur: usize, exception: bool)
        requires
            old(self).wf(),
            cur < old(self).nodes@.len(),
        ensures
            final(self).wf(),
            final(self).nodes@.len() == old(self).nodes@.len(),
            final(self).keeps_children(old(self)),
            final(self).leaf_at(cur as int) == Some(exception),
            forall|m: int|
                0 <= m < old(self).nodes@.len() && m != cur ==> #[trigger] final(self).leaf_at(m)
                    == old(self).leaf_at(m),
            final(self).paths@ == old(self).paths@,
            forall|p: Seq<Seq<char>>| #[trigger] final(self).path(0, p) == old(self).path(0, p),
    {
        let ghost before = *self;
        self.nodes[cur].leaf = Some(ListLeaf::new(exception));
        assert forall|n: int| 0 <= n < self.nodes@.len() implies #[trigger] self.nodes@[n].children == before.nodes@[n].children by {}
        assert forall|n: int, l: Seq<char>| 0 <= n < before.nodes@.len() implies #[trigger] before.child(n, l) == self.child(n, l) by {
            assert(self.nodes@[n].children == before.nodes@[n].children);
        }
        assert forall|p: Seq<Seq<char>>| #[trigger] self.path(0, p) == before.path(0, p) by {
            before.lemma_same_paths(self, p);
        }
        assert forall|n: int, c: int|
            0 <= n < self.nodes@.len() && 0 <= c < self.nodes@[n].children@.len() implies {
            let e = #[trigger] self.nodes@[n].children@[c];
            &&& 1 <= e.1 < self.nodes@.len()
            &&& self.paths@[e.1 as int] == self.paths@[n].push(e.0@)
        } by {
            assert(self.nodes@[n].children == before.nodes@[n].children);
            assert(self.nodes@[n].children@[c] == before.nodes@[n].children@[c]);
        }
        assert forall|n: int| 0 <= n < self.nodes@.len() implies #[trigger] self.path(0, self.paths@[n]) == Some(n) by {
            assert(before.path(0, before.paths@[n]) == Some(n));
        }
        assert forall|n: int, l: Seq<char>|
            0 <= n < before.nodes@.len() && (#[trigger] before.child(n, l)) is Some implies self.child(n, l)
                == before.child(n, l) by {
            assert(self.nodes@[n].children == before.nodes@[n].children);
        }
    }

    /// Adds the rule entry `text[from..to]`; a rule with an empty label is refused.
    fn append(&mut self, text: &Vec<char>, from: usize, to: usize) -> (r: Result<(), Error>)
        requires
            old(self).wf(),
            from <= to <= text@.len(),
        ensures
            final(self).wf(),
            r is Ok <==> valid_rule(text@.subrange(from as int, to as int)),
            r is Err ==> r == Err::<(), Error>(Error::InvalidRule),
            r is Ok ==> final(self).rule(rule_path(text@.subrange(from as int, to as int))) == Some(
                rule_exception(text@.subrange(from as int, to as int)),
            ),
            forall|p: Seq<Seq<char>>|
                #[trigger] final(self).rule(p) == if r is Ok && p == rule_path(
                    text@.subrange(from as int, to as int),
                ) {
                    Some(rule_exception(text@.subrange(from as int, to as int)))
                } else {
                    old(self).rule(p)
                },
            forall|p: Seq<Seq<char>>|
                #[trigger] final(self).has_node(p) <==> old(self).has_node(p) || (r is Ok
                    && is_prefix(p, rule_path(text@.subrange(from as int, to as int)))),
    {
        let ghost e = text@.subrange(from as int, to as int);
        let exception = from < to && text[from] == '!';
        let start = if exception {
            from + 1
        } else {
            from
        };
        let ghost b = text@.subrange(start as int, to as int);
        assert(b =~= rule_body(e));
        let starts = piece_starts_in(text, start, to, '.');
        if !pieces_nonempty(text, start, to, '.', &starts) {
            return Err(Error::InvalidRule);
        }
        let ghost old_list = *self;
        let cur = self.insert_path(text, start, to, &starts);
        let ghost before = *self;
        self.set_leaf(cur, exception);
        proof {
            let rp = rule_path(e);
            assert forall|p: Seq<Seq<char>>| #[trigger] self.has_node(p) == before.has_node(p) by {
                assert(self.path(0, p) == before.path(0, p));
            }
            assert forall|p: Seq<Seq<char>>| #[trigger] self.rule(p) == if p == rp {
                Some(rule_exception(e))
            } else {
                old_list.rule(p)
            } by {
                assert(self.path(0, p) == before.path(0, p));
                if p == rp {
                } else {
                    // before the leaf is set, the list holds the same rules as at the start
                    if let Some(m) = old_list.path(0, p) {
                        before.lemma_keeps_paths(&old_list, p);
                        before.lemma_path_unique(rp);
                        before.lemma_path_unique(p);
                    } else if let Some(m) = before.path(0, p) {
                        before.lemma_path_unique(p);
                        before.lemma_path_unique(rp);
                        if m < old_list.nodes@.len() {
                            assert(old_list.path(0, old_list.paths@[m]) == Some(m));
                        }
                    }
                }
            }
        }
        Ok(())
    }

    /// One step of a match from node `n` with the label `s[from..to]`.
    fn step_exec(&self, n: usize, s: &Vec<char>, from: usize, to: usize, star_label: &Vec<char>) -> (r:
        Option<usize>)
        requires
            self.wf(),
            n < self.nodes@.len(),
            from <= to <= s@.len(),
            star_label@.len() == 1,
            star_label@.subrange(0, 1) == star(),
        ensures
            r matches Some(c) ==> self.step(n as int, s@.subrange(from as int, to as int)) == Some(
                c as int,
            ) && c < self.nodes@.len(),
            r is None ==> self.step(n as int, s@.subrange(from as int, to as int)) is None,
    {
        match self.find_child(n, s, from, to) {
            Some(c) => Some(c),
            None => self.find_child(n, star_label, 0, 1),
        }
    }

    /// The child of node `n` under `s[from..to]`.
    fn find_child(&self, n: usize, s: &Vec<char>, from: usize, to: usize) -> (r: Option<usize>)
        requires
            self.wf(),
            n < self.nodes@.len(),
            from <= to <= s@.len(),
        ensures
            r matches Some(c) ==> self.child(n as int, s@.subrange(from as int, to as int)) == Some(
                c as int,
            ) && c < self.nodes@.len(),
            r is None ==> self.child(n as int, s@.subrange(from as int, to as int)) is None,
    {
        let ch = &self.nodes[n].children;
        let ghost label = s@.subrange(from as int, to as int);
        let mut i: usize = 0;
        assert(ch@.subrange(0, ch@.len() as int) =~= ch@);
        while i < ch.len()
            invariant
                self.wf(),
                n < self.nodes@.len(),
                ch == &self.nodes@[n as int].children,
                i <= ch@.len(),
                from <= to <= s@.len(),
                label == s@.subrange(from as int, to as int),
                find_in(ch@, label) == find_in(ch@.subrange(i as int, ch@.len() as int), label),
            decreases ch.len() - i,
        {
            let ghost rest = ch@.subrange(i as int, ch@.len() as int);
            assert(rest.drop_first() =~= ch@.subrange(i + 1, ch@.len() as int));
            assert(rest[0] == ch@[i as int]);
            if same_text(&ch[i].0, s, from, to) {
                return Some(ch[i].1);
            }
            i = i + 1;
        }
        None
    }

    /// The longest rule that matches the name `d[..dlen]`, whose labels start
    /// at `starts`: whether it is an exception and how many labels it covers.
    #[verifier::rlimit(60)]
    pub(crate) fn longest_match(&self, d: &Vec<char>, dlen: usize, starts: &Vec<usize>) -> (r:
        Option<(bool, usize)>)
        requires
            self.wf(),
            dlen <= d@.len(),
            starts@.len() == piece_count(d@.subrange(0, dlen as int), '.'),
            forall|k: int|
                0 <= k < starts@.len() ==> #[trigger] starts@[k] == piece_starts(
                    d@.subrange(0, dlen as int),
                    '.',
                )[k],
        ensures
            agrees(r, self.best_match(d@.subrange(0, dlen as int))),
            r matches Some((e, n)) ==> 1 <= n <= starts@.len(),
    {
        let ghost dd = d@.subrange(0, dlen as int);
        proof {
            lemma_piece_starts(dd, '.');
        }
        let star_label: Vec<char> = vec!['*'];
        assert(star_label@.subrange(0, 1) =~= star());
        let count = starts.len();
        let mut cur: usize = 0;
        let mut alive = true;
        let mut best: Option<(bool, usize)> = None;
        let mut j: usize = 0;
        while j < count
            invariant
                self.wf(),
                dlen <= d@.len(),
                dd == d@.subrange(0, dlen as int),
                count == starts@.len() == piece_count(dd, '.'),
                forall|k: int| 0 <= k < starts@.len() ==> #[trigger] starts@[k] == piece_starts(dd, '.')[k],
                piece_starts(dd, '.')[0] == 0,
                forall|k: int|
                    1 <= k < piece_count(dd, '.') ==> 1 <= #[trigger] piece_starts(dd, '.')[k] <= dd.len(),
                forall|k: int|
                    0 <= k < piece_count(dd, '.') - 1 ==> #[trigger] piece_starts(dd, '.')[k] < piece_starts(dd, '.')[k + 1],
                star_label@.len() == 1,
                star_label@.subrange(0, 1) == star(),
                j <= count,
                alive ==> self.reach(dd, j as nat) == Some(cur as int) && cur < self.nodes@.len(),
                !alive ==> self.reach(dd, j as nat) is None,
                agrees(best, self.longest(dd, j as nat)),
                best matches Some((e, n)) ==> 1 <= n <= j,
            decreases count - j,
        {
            let k = count - 1 - j;
            let from = starts[k];
            let to = if k + 1 < count { starts[k + 1] - 1 } else { dlen };
            assert(dd.subrange(from as int, to as int) =~= d@.subrange(from as int, to as int));
            assert(label_from_right(dd, j + 1) == d@.subrange(from as int, to as int));
            let ghost label = d@.subrange(from as int, to as int);
            assert(self.reach(dd, (j + 1) as nat) == if alive {
                self.step(cur as int, label)
            } else {
                None
            });
            if alive {
                match self.step_exec(cur, d, from, to, &star_label) {
                    Some(c) => {
                        cur = c;
                        match &self.nodes[c].leaf {
                            Some(leaf) => {
                                best = Some((leaf.is_exception_rule, j + 1));
                            },
                            None => {},
                        }
                    },
                    None => {
                        alive = false;
                    },
                }
            }
            assert(self.longest(dd, (j + 1) as nat) == match self.reach(dd, (j + 1) as nat) {
                Some(n) => match self.leaf_at(n) {
                    Some(e) => Some((e, (j + 1) as nat)),
                    None => self.longest(dd, j as nat),
                },
                None => self.longest(dd, j as nat),
            });
            j = j + 1;
        }
        best
    }
}

/// `o` is the exec form of the match `m`.
pub open spec fn agrees(o: Option<(bool, usize)>, m: Option<(bool, nat)>) -> bool {
    match o {
        Some((e, n)) => m == Some((e, n as nat)),
        None => m is None,
    }
}

/// Whether `key` equals `s[from..to]`.
fn same_text(key: &Vec<char>, s: &Vec<char>, from: usize, to: usize) -> (r: bool)
    requires
        from <= to <= s@.len(),
    ensures
        r == (key@ == s@.subrange(from as int, to as int)),
{
    if key.len() != to - from {
        return false;
    }
    let mut i: usize = 0;
    while i < key.len()
        invariant
            from <= to <= s@.len(),
            key@.len() == to - from,
            i <= key@.len(),
            forall|k: int| 0 <= k < i ==> key@[k] == s@[from + k],
        decreases key.len() - i,
    {
        if key[i] != s[from + i] {
            assert(key@[i as int] != s@.subrange(from as int, to as int)[i as int]);
            return false;
        }
        i = i + 1;
    }
    assert(key@ =~= s@.subrange(from as int, to as int));
    true
}

impl std::str::FromStr for List {
    type Err = Error;

    fn from_str(s: &str) -> (r: Result<List, Error>)
        ensures
            r is Ok <==> s@.len() > 0 && forall|k: int|
                0 <= k < piece_count(fold(s@), ',') ==> valid_rule(
                    #[trigger] piece(fold(s@), ',', k),
                ),
            r matches Ok(l) ==> l.built_from(fold(s@)) && forall|k: int|
                0 <= k < piece_count(fold(s@), ',') ==> (#[trigger] l.rule(
                    rule_path(piece(fold(s@), ',', k)),
                )) is Some,
    {
        List::build(s)
    }
}

} // verus!
