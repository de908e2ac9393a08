use vstd::prelude::*;

use crate::error::Error;
use crate::list::{
    is_prefix, label_from_right, lemma_entries_node_first, rule_path, star, List,
};
use crate::name::{classify, outcome, trim_dot, valid_domain, NameView, DnsName};
use crate::text::{fold, fold_char, lemma_piece_starts, piece, piece_count, piece_end, piece_starts};

verus! {

/// The reversed name is the name read backwards, character by character,
/// and reading it backwards again gives the name back.
pub proof fn lemma_rname_round_trip(list: &List, s: Seq<char>)
    ensures
        classify(list, s) matches Ok(v) ==> v.rname == v.name.reverse() && v.rname.reverse()
            == v.name,
{
    if let Ok(v) = classify(list, s) {
        if s == seq!['.'] {
            assert(s.reverse() =~= s);
        }
        assert(v.name.reverse().reverse() =~= v.name);
    }
}

/// Where a registrable label is found, root and suffix are found too, and
/// the root is exactly the registrable label, a dot, and the suffix.
pub proof fn lemma_root_is_registrable_dot_suffix(list: &List, s: Seq<char>)
    ensures
        classify(list, s) matches Ok(v) ==> (v.registrable is Some ==> {
            &&& v.root is Some
            &&& v.suffix is Some
            &&& v.root->0 == v.registrable->0 + seq!['.'] + v.suffix->0
        }),
{
    if let Ok(v) = classify(list, s) {
        if s != seq!['.'] && v.registrable is Some {
            let n = fold(s);
            let d = trim_dot(n);
            lemma_piece_starts(d, '.');
            let m = list.best_match(d)->0;
            let k = if m.0 { m.1 - 1 } else { m.1 as int };
            let c = piece_count(d, '.');
            let st = piece_starts(d, '.')[c - k];
            let r = piece_starts(d, '.')[c - k - 1];
            assert(d[st - 1] == '.');
            assert(n[st - 1] == d[st - 1]);
            assert(n.subrange(r, n.len() as int) =~= n.subrange(r, st - 1) + seq!['.'] + n.subrange(
                st,
                n.len() as int,
            ));
        }
    }
}

proof fn lemma_fold_root(s: Seq<char>)
    ensures
        fold(s) == seq!['.'] <==> s == seq!['.'],
{
    if s == seq!['.'] {
        assert(fold(s) =~= seq!['.']);
    }
    if fold(s) == seq!['.'] {
        assert(s.len() == fold(s).len());
        assert(fold(s)[0] == fold_char(s[0]));
        assert(s =~= seq!['.']);
    }
}

/// Case does not matter: two names that fold to the same lower-case text
/// classify alike.
pub proof fn lemma_case_insensitive(list: &List, s1: Seq<char>, s2: Seq<char>)
    requires
        fold(s1) == fold(s2),
    ensures
        classify(list, s1) == classify(list, s2),
{
    lemma_fold_root(s1);
    lemma_fold_root(s2);
}

/// The root name `.` classifies, on every list, with no suffix, root or
/// registrable part.
pub proof fn lemma_root_name(list: &List)
    ensures
        classify(list, seq!['.']) == Ok::<NameView, Error>(
            NameView {
                name: seq!['.'],
                rname: seq!['.'],
                suffix: None,
                root: None,
                registrable: None,
            },
        ),
{
}

/// A name that starts with a dot, other than `.` itself, is invalid input.
pub proof fn lemma_leading_dot(list: &List, s: Seq<char>)
    requires
        s.len() > 0,
        s[0] == '.',
        s != seq!['.'],
    ensures
        classify(list, s) == Err::<NameView, Error>(Error::InvalidInput),
{
    let n = fold(s);
    let d = trim_dot(n);
    lemma_piece_starts(d, '.');
    assert(n[0] == fold_char(s[0]));
    if d.len() > 0 {
        assert(d[0] == '.');
    }
    assert(piece_end(d, '.', 0) <= piece_starts(d, '.')[0]) by {
        if piece_end(d, '.', 0) > 0 {
            assert(d[0] != '.');
        }
    }
    assert(!valid_domain(d));
}

/// Classifying one name twice against one list gives the same result: no
/// state is kept between calls.
pub proof fn lemma_classify_repeatable(
    list: &List,
    s: Seq<char>,
    r1: Result<DnsName, Error>,
    r2: Result<DnsName, Error>,
)
    requires
        outcome(r1) == classify(list, s),
        outcome(r2) == classify(list, s),
    ensures
        outcome(r1) == outcome(r2),
{
}

proof fn lemma_walk_stops(list: &List, d: Seq<char>, j: nat)
    requires
        j >= 2,
        list.walk(d, 2) is None,
    ensures
        list.walk(d, j) is None,
        list.walk_longest(d, j) == list.walk_longest(d, 1),
    decreases j,
{
    if j > 2 {
        lemma_walk_stops(list, d, (j - 1) as nat);
    }
}

/// On a list compiled from the rule text `t`, a name whose last label
/// begins no rule, where no rule begins with the wildcard either, falls
/// back to the wildcard rule: its suffix is its last label, and its root is
/// the last two labels when it has two.
pub proof fn lemma_fallback_suffix(list: &List, t: Seq<char>, s: Seq<char>)
    requires
        list.built_from(t),
        classify(list, s) is Ok,
        s != seq!['.'],
        forall|k: int|
            0 <= k < piece_count(t, ',') ==> rule_path(#[trigger] piece(t, ',', k))[0]
                != label_from_right(trim_dot(fold(s)), 1) && rule_path(piece(t, ',', k))[0] != star(),
    ensures
        ({
            let n = fold(s);
            let d = trim_dot(n);
            let c = piece_count(d, '.');
            let v = classify(list, s)->Ok_0;
            &&& v.suffix == Some(n.subrange(piece_starts(d, '.')[c - 1], n.len() as int))
            &&& v.root == if c >= 2 {
                Some(n.subrange(piece_starts(d, '.')[c - 2], n.len() as int))
            } else {
                None::<Seq<char>>
            }
        }),
{
    let n = fold(s);
    let d = trim_dot(n);
    let c = piece_count(d, '.');
    let k = piece_count(t, ',') as nat;
    lemma_piece_starts(d, '.');
    list.lemma_best_match_walk(d);
    let l = label_from_right(d, 1);
    let e = Seq::<Seq<char>>::empty();
    assert(e.push(l) =~= seq![l]);
    assert(e.push(star()) =~= seq![star()]);
    assert(seq![star()].take(1) =~= seq![star()]);
    assert(list.has_node(seq![star()]));
    if list.has_node(seq![l]) {
        if crate::list::entries_node(t, k, seq![l]) {
            lemma_entries_node_first(t, k, seq![l]);
        } else {
            assert(seq![star()].take(1) == seq![l]);
            assert(seq![star()].take(1)[0] == star());
            assert(seq![l][0] == l);
            assert(l == star());
        }
    }
    assert(list.walk(d, 0) == Some(e));
    assert(list.walk(d, 1) == list.path_step(e, l));
    assert(list.walk(d, 1) == Some(seq![star()]));
    assert(list.walk_longest(d, 1) == Some((false, 1nat)));
    if c >= 2 {
        let l2 = label_from_right(d, 2);
        let a = seq![star()].push(l2);
        let b = seq![star()].push(star());
        if list.has_node(a) {
            if crate::list::entries_node(t, k, a) {
                lemma_entries_node_first(t, k, a);
            }
        }
        if list.has_node(b) {
            if crate::list::entries_node(t, k, b) {
                lemma_entries_node_first(t, k, b);
            }
        }
        assert(list.walk(d, 2) == list.path_step(seq![star()], l2));
        assert(list.walk(d, 2) is None);
        lemma_walk_stops(list, d, c as nat);
    }
    assert(list.best_match(d) == Some((false, 1nat)));
}

} // verus!
