//! The dictionary index: a prefix tree (trie) over the reference word list.
//! Each node stands for one character; a node's children are keyed by the
//! next character, with keys unique under every node, and terminal nodes mark
//! the ends of full dictionary words.  The root stands for the empty prefix
//! and has no character of its own.

use vstd::prelude::*;
use crate::text::chars_of;
use crate::text::string_of_chars;
use crate::edit_distance::lev;
use crate::edit_distance::best_index;
use crate::edit_distance::scan_best;

verus! {

/// One node of the trie.
pub struct Node {
    /// The character this node stands for.
    pub data: char,
    /// Whether the path from the root down to this node spells a full
    /// dictionary word, rather than merely a prefix.
    pub terminal: bool,
    /// The subtrees for the characters that may follow, keyed by their
    /// `data`, in order of first insertion.
    pub children: Vec<Node>,
}

/// The dictionary index.  Built once from the word list and then only
/// queried; a duplicate insertion leaves it unchanged.
pub struct DictionaryTrie {
    /// The subtrees for the first characters of the held words.
    pub roots: Vec<Node>,
    /// Whether the empty word itself is a dictionary entry.
    pub empty_terminal: bool,
}

/// The words spelled by the subtree rooted at `n`, each extending `prefix`
/// by `n.data`, in pre-order: a word comes before its extensions, and
/// subtrees are visited in the order they stand in.
pub open spec fn node_words(prefix: Seq<char>, n: Node) -> Seq<Seq<char>>
    decreases n,
{
    let here = prefix.push(n.data);
    (if n.terminal {
        seq![here]
    } else {
        Seq::<Seq<char>>::empty()
    }) + list_words(here, n.children@)
}

/// The words spelled by a list of sibling subtrees, in order.
pub open spec fn list_words(prefix: Seq<char>, ns: Seq<Node>) -> Seq<Seq<char>>
    decreases ns,
{
    if ns.len() == 0 {
        Seq::<Seq<char>>::empty()
    } else {
        node_words(prefix, ns[0]) + list_words(prefix, ns.drop_first())
    }
}

/// Sibling lists are well-formed when their keys are pairwise distinct and
/// every subtree is well-formed in turn.
#[verifier::opaque]
pub open spec fn list_wf(ns: Seq<Node>) -> bool
    decreases ns,
{
    &&& forall|i: int, j: int|
        0 <= i < j < ns.len() ==> (#[trigger] ns[i].data) != (#[trigger] ns[j].data)
    &&& forall|i: int| 0 <= i < ns.len() ==> node_wf(#[trigger] ns[i])
}

/// A node is well-formed when its child list is.
#[verifier::opaque]
pub open spec fn node_wf(n: Node) -> bool
    decreases n,
{
    list_wf(n.children@)
}

/// Membership distributes over the concatenation of two sequences.
proof fn lemma_concat_contains<T>(x: Seq<T>, y: Seq<T>, e: T)
    ensures
        (x + y).contains(e) <==> x.contains(e) || y.contains(e),
{
    if x.contains(e) {
        let i = choose|i: int| 0 <= i < x.len() && x[i] == e;
        assert((x + y)[i] == e);
    }
    if y.contains(e) {
        let i = choose|i: int| 0 <= i < y.len() && y[i] == e;
        assert((x + y)[x.len() + i] == e);
    }
    if (x + y).contains(e) {
        let i = choose|i: int| 0 <= i < (x + y).len() && (x + y)[i] == e;
        if i < x.len() {
            assert(x[i] == e);
        } else {
            assert(y[i - x.len()] == e);
        }
    }
}

/// Every word under a node extends the prefix with that node's character.
proof fn lemma_node_words_shape(prefix: Seq<char>, n: Node)
    ensures
        forall|w: Seq<char>| #[trigger]
            node_words(prefix, n).contains(w) ==> w.len() > prefix.len() && w.take(
                prefix.len() as int + 1,
            ) == prefix.push(n.data),
    decreases n,
{
    let here = prefix.push(n.data);
    lemma_list_words_shape(here, n.children@);
    assert forall|w: Seq<char>| #[trigger]
        node_words(prefix, n).contains(w) implies w.len() > prefix.len() && w.take(
        prefix.len() as int + 1,
    ) == here by {
        let own: Seq<Seq<char>> = if n.terminal {
            seq![here]
        } else {
            Seq::<Seq<char>>::empty()
        };
        lemma_concat_contains(own, list_words(here, n.children@), w);
        if own.contains(w) {
            assert(w == here);
            assert(w.take(prefix.len() as int + 1) =~= w);
        } else {
            assert(list_words(here, n.children@).contains(w));
            assert(w.take(here.len() as int) == here);
            assert(w.take(prefix.len() as int + 1) == here);
        }
    }
}

/// Every word under a sibling list extends the prefix.
proof fn lemma_list_words_shape(prefix: Seq<char>, ns: Seq<Node>)
    ensures
        forall|w: Seq<char>| #[trigger]
            list_words(prefix, ns).contains(w) ==> w.len() > prefix.len() && w.take(
                prefix.len() as int,
            ) == prefix,
    decreases ns,
{
    if ns.len() == 0 {
    } else {
        lemma_node_words_shape(prefix, ns[0]);
        lemma_list_words_shape(prefix, ns.drop_first());
        assert forall|w: Seq<char>| #[trigger]
            list_words(prefix, ns).contains(w) implies w.len() > prefix.len() && w.take(
            prefix.len() as int,
        ) == prefix by {
            lemma_concat_contains(
                node_words(prefix, ns[0]),
                list_words(prefix, ns.drop_first()),
                w,
            );
            if node_words(prefix, ns[0]).contains(w) {
                assert(w.take(prefix.len() as int) =~= w.take(prefix.len() as int + 1).take(
                    prefix.len() as int,
                ));
                assert(prefix.push(ns[0].data).take(prefix.len() as int) =~= prefix);
            }
        }
    }
}

/// A word under a sibling list lies under the (unique) sibling keyed by the
/// word's character at the prefix's length.
proof fn lemma_list_words_member(prefix: Seq<char>, ns: Seq<Node>, w: Seq<char>)
    ensures
        list_words(prefix, ns).contains(w) <==> exists|i: int|
            0 <= i < ns.len() && node_words(prefix, #[trigger] ns[i]).contains(w),
    decreases ns,
{
    if ns.len() == 0 {
    } else {
        lemma_concat_contains(node_words(prefix, ns[0]), list_words(prefix, ns.drop_first()), w);
        lemma_list_words_member(prefix, ns.drop_first(), w);
        if node_words(prefix, ns[0]).contains(w) {
            assert(node_words(prefix, ns[0]).contains(w) && 0 <= 0 < ns.len());
        }
        if exists|i: int| 0 <= i < ns.drop_first().len() && node_words(prefix, #[trigger] ns.drop_first()[i]).contains(w) {
            let i = choose|i: int|
                0 <= i < ns.drop_first().len() && node_words(
                    prefix,
                    #[trigger] ns.drop_first()[i],
                ).contains(w);
            assert(ns.drop_first()[i] == ns[i + 1]);
        }
        if exists|i: int| 0 <= i < ns.len() && node_words(prefix, #[trigger] ns[i]).contains(w) {
            let i = choose|i: int|
                0 <= i < ns.len() && node_words(prefix, #[trigger] ns[i]).contains(w);
            if i > 0 {
                assert(ns.drop_first()[i - 1] == ns[i]);
            }
        }
    }
}

/// The words of a sibling list split around any one position.
proof fn lemma_list_words_decompose(prefix: Seq<char>, ns: Seq<Node>, j: int)
    requires
        0 <= j < ns.len(),
    ensures
        list_words(prefix, ns) == list_words(prefix, ns.take(j)) + node_words(prefix, ns[j])
            + list_words(prefix, ns.skip(j + 1)),
    decreases j,
{
    if j == 0 {
        assert(ns.take(0) =~= Seq::<Node>::empty());
        assert(ns.skip(1) =~= ns.drop_first());
        assert(list_words(prefix, ns) =~= list_words(prefix, ns.take(0)) + node_words(
            prefix,
            ns[0],
        ) + list_words(prefix, ns.skip(1)));
    } else {
        lemma_list_words_decompose(prefix, ns.drop_first(), j - 1);
        assert(ns.take(j).drop_first() =~= ns.drop_first().take(j - 1));
        assert(ns.skip(j + 1) =~= ns.drop_first().skip(j));
        assert(ns.drop_first()[j - 1] == ns[j]);
        assert(ns.take(j)[0] == ns[0]);
        assert(list_words(prefix, ns.take(j)) == node_words(prefix, ns[0]) + list_words(
            prefix,
            ns.drop_first().take(j - 1),
        ));
        assert(list_words(prefix, ns) =~= list_words(prefix, ns.take(j)) + node_words(
            prefix,
            ns[j],
        ) + list_words(prefix, ns.skip(j + 1)));
    }
}

/// Appending a sibling appends its words.
proof fn lemma_list_words_push(prefix: Seq<char>, ns: Seq<Node>, n: Node)
    ensures
        list_words(prefix, ns.push(n)) == list_words(prefix, ns) + node_words(prefix, n),
    decreases ns,
{
    if ns.len() == 0 {
        assert(ns.push(n)[0] == n);
        assert(ns.push(n).drop_first() =~= Seq::<Node>::empty());
        assert(list_words(prefix, Seq::<Node>::empty()) =~= Seq::<Seq<char>>::empty());
        assert(list_words(prefix, ns) =~= Seq::<Seq<char>>::empty());
        assert(list_words(prefix, ns.push(n)) == node_words(prefix, n) + list_words(
            prefix,
            ns.push(n).drop_first(),
        ));
        assert(list_words(prefix, ns.push(n)) =~= list_words(prefix, ns) + node_words(prefix, n));
    } else {
        lemma_list_words_push(prefix, ns.drop_first(), n);
        assert(ns.push(n).drop_first() =~= ns.drop_first().push(n));
        assert(ns.push(n)[0] == ns[0]);
        assert(list_words(prefix, ns.push(n)) =~= list_words(prefix, ns) + node_words(prefix, n));
    }
}

/// Membership distributes over a three-way concatenation.
proof fn lemma_concat3_contains<T>(x: Seq<T>, y: Seq<T>, z: Seq<T>, e: T)
    ensures
        (x + y + z).contains(e) <==> x.contains(e) || y.contains(e) || z.contains(e),
{
    lemma_concat_contains(x + y, z, e);
    lemma_concat_contains(x, y, e);
}

/// A word whose next character matches no sibling's key lies under none of
/// the siblings.
proof fn lemma_absent_when_key_differs(prefix: Seq<char>, ns: Seq<Node>, w: Seq<char>)
    requires
        w.len() > prefix.len(),
        forall|k: int| 0 <= k < ns.len() ==> (#[trigger] ns[k]).data != w[prefix.len() as int],
    ensures
        !list_words(prefix, ns).contains(w),
{
    lemma_list_words_member(prefix, ns, w);
    if list_words(prefix, ns).contains(w) {
        let k = choose|k: int|
            0 <= k < ns.len() && node_words(prefix, #[trigger] ns[k]).contains(w);
        lemma_node_words_shape(prefix, ns[k]);
        assert(w.take(prefix.len() as int + 1) == prefix.push(ns[k].data));
        assert(w.take(prefix.len() as int + 1)[prefix.len() as int] == w[prefix.len() as int]);
    }
}

/// A fresh non-terminal leaf spells no words and is well-formed.
proof fn lemma_node_words_leaf(prefix: Seq<char>, n: Node)
    requires
        !n.terminal,
        n.children@.len() == 0,
    ensures
        node_words(prefix, n) == Seq::<Seq<char>>::empty(),
        node_wf(n),
{
    reveal_with_fuel(list_wf, 2);
    reveal_with_fuel(node_wf, 2);
    assert(n.children@ =~= Seq::<Node>::empty());
    assert(list_words(prefix.push(n.data), n.children@) =~= Seq::<Seq<char>>::empty());
    assert(node_words(prefix, n) =~= Seq::<Seq<char>>::empty());
}

/// Appending a sibling with a fresh key and a well-formed subtree keeps the
/// list well-formed.
proof fn lemma_list_wf_push(ns: Seq<Node>, n: Node)
    requires
        list_wf(ns),
        node_wf(n),
        forall|k: int| 0 <= k < ns.len() ==> (#[trigger] ns[k]).data != n.data,
    ensures
        list_wf(ns.push(n)),
{
    reveal_with_fuel(list_wf, 2);
    reveal_with_fuel(node_wf, 2);
    assert forall|a: int, b: int| 0 <= a < b < ns.push(n).len() implies (#[trigger] ns.push(
        n,
    )[a].data) != (#[trigger] ns.push(n)[b].data) by {
        if b < ns.len() {
            assert(ns[a].data != ns[b].data);
        } else {
            assert(ns[a].data != n.data);
        }
    }
    assert forall|a: int| 0 <= a < ns.push(n).len() implies node_wf(#[trigger] ns.push(n)[a]) by {
        if a < ns.len() {
            assert(node_wf(ns[a]));
        }
    }
}

/// How a node's words read off from its parts.
proof fn lemma_node_words_unfold(prefix: Seq<char>, n: Node)
    ensures
        node_words(prefix, n) == (if n.terminal {
            seq![prefix.push(n.data)]
        } else {
            Seq::<Seq<char>>::empty()
        }) + list_words(prefix.push(n.data), n.children@),
{
}

/// How a node's well-formedness reads off from its child list.
proof fn lemma_node_wf_unfold(n: Node)
    ensures
        node_wf(n) == list_wf(n.children@),
{
    reveal_with_fuel(node_wf, 2);
    reveal_with_fuel(list_wf, 2);
}

/// What a well-formed sibling list gives for each member.
proof fn lemma_list_wf_member(ns: Seq<Node>)
    requires
        list_wf(ns),
    ensures
        forall|i: int, j: int|
            0 <= i < j < ns.len() ==> (#[trigger] ns[i].data) != (#[trigger] ns[j].data),
        forall|i: int| 0 <= i < ns.len() ==> node_wf(#[trigger] ns[i]),
{
    reveal_with_fuel(list_wf, 2);
    reveal_with_fuel(node_wf, 2);
}

/// A sibling list is well-formed when its keys are pairwise distinct and its
/// members are well-formed.
proof fn lemma_list_wf_intro(ns: Seq<Node>)
    requires
        forall|i: int, j: int|
            0 <= i < j < ns.len() ==> (#[trigger] ns[i].data) != (#[trigger] ns[j].data),
        forall|i: int| 0 <= i < ns.len() ==> node_wf(#[trigger] ns[i]),
    ensures
        list_wf(ns),
{
    reveal_with_fuel(list_wf, 2);
    reveal_with_fuel(node_wf, 2);
}

/// What appending one sibling does to the list.
proof fn lemma_push_facts(s: Seq<Node>, n: Node)
    ensures
        s.push(n).len() == s.len() + 1,
        s.push(n)[s.len() as int] == n,
        forall|k: int| 0 <= k < s.len() ==> s.push(n)[k] == s[k],
{
}

/// The position of the sibling keyed by `c`, scanning left to right.
fn find_child(nodes: &Vec<Node>, c: char) -> (r: Option<usize>)
    ensures
        match r {
            Some(j) => j < nodes@.len() && nodes@[j as int].data == c && forall|k: int|
                0 <= k < j ==> (#[trigger] nodes@[k]).data != c,
            None => forall|k: int| 0 <= k < nodes@.len() ==> (#[trigger] nodes@[k]).data != c,
        },
{
    let mut j: usize = 0;
    while j < nodes.len()
        invariant
            j <= nodes@.len(),
            forall|k: int| 0 <= k < j ==> (#[trigger] nodes@[k]).data != c,
        decreases nodes@.len() - j,
    {
        if nodes[j].data == c {
            return Some(j);
        }
        j = j + 1;
    }
    None
}

/// Inserts the suffix `w[i..]` of a word below the sibling list that stands
/// under the prefix `w[..i]`, creating nodes only for characters not yet
/// present; re-inserting a word that is already held changes nothing.
#[verifier::rlimit(100)]
fn insert_into_list(nodes: &mut Vec<Node>, w: &Vec<char>, i: usize)
    requires
        i < w@.len(),
        list_wf(old(nodes)@),
    ensures
        list_wf(final(nodes)@),
        forall|u: Seq<char>|
            #![trigger list_words(w@.take(i as int), final(nodes)@).contains(u)]
            #![trigger list_words(w@.take(i as int), old(nodes)@).contains(u)]
            list_words(w@.take(i as int), final(nodes)@).contains(u) <==> (list_words(
                w@.take(i as int),
                old(nodes)@,
            ).contains(u) || u == w@),
        list_words(w@.take(i as int), old(nodes)@).contains(w@) ==> list_words(
            w@.take(i as int),
            final(nodes)@,
        ) == list_words(w@.take(i as int), old(nodes)@),
    decreases w@.len() - i,
{
    let ghost p = w@.take(i as int);
    let ghost orig = nodes@;
    let c = *vstd::std_specs::vec::vec_index(w, i);
    let j: usize;
    match find_child(nodes, c) {
        Some(jj) => {
            j = jj;
        }
        None => {
            j = nodes.len();
            let fresh = Node { data: c, terminal: false, children: Vec::new() };
            let ghost freshg = fresh;
            proof {
                lemma_node_words_leaf(p, freshg);
                lemma_list_words_push(p, orig, freshg);
                lemma_list_wf_push(orig, freshg);
            }
            nodes.push(fresh);
            proof {
                lemma_push_facts(orig, freshg);
                assert(nodes@ == orig.push(freshg));
                assert(nodes@[j as int] == freshg);
                assert(list_words(p, nodes@) =~= list_words(p, orig));
                assert(list_wf(nodes@));
            }
        }
    }
    let ghost base = nodes@;
    proof {
        assert(list_wf(base));
        lemma_list_wf_member(base);
        assert(base[j as int].data == c);
        assert forall|k: int| 0 <= k < base.len() && k != j implies (#[trigger] base[k]).data
            != c by {
            if k < j {
            } else {
                assert(base[j as int].data != base[k].data);
            }
        }
        assert(list_words(p, base) == list_words(p, orig));
    }
    let n = w.len();
    let mut nd = nodes.remove(j);
    let ghost nd0 = nd;
    proof {
        assert(node_wf(nd0));
        lemma_node_wf_unfold(nd0);
    }
    let ghost own0: Seq<Seq<char>> = if nd0.terminal {
        seq![p.push(c)]
    } else {
        Seq::<Seq<char>>::empty()
    };
    if i + 1 == n {
        proof {
            assert(p.push(c) =~= w@);
        }
        nd.terminal = true;
        proof {
            let here = p.push(c);
            let sub = list_words(here, nd0.children@);
            lemma_list_words_shape(here, nd0.children@);
            lemma_node_words_unfold(p, nd);
            lemma_node_words_unfold(p, nd0);
            lemma_node_wf_unfold(nd);
            assert(node_wf(nd));
            assert(node_words(p, nd) == seq![here] + sub);
            assert(node_words(p, nd0) == own0 + sub);
            assert(seq![here][0] == w@);
            assert(seq![here].contains(w@));
            assert forall|u: Seq<char>| #[trigger]
                node_words(p, nd).contains(u) <==> (node_words(p, nd0).contains(u) || u
                == w@) by {
                lemma_concat_contains(seq![here], sub, u);
                lemma_concat_contains(own0, sub, u);
                if seq![here].contains(u) {
                    assert(u == w@);
                }
                if own0.contains(u) {
                    assert(u == here);
                }
            }
            if node_words(p, nd0).contains(w@) {
                lemma_concat_contains(own0, sub, w@);
                assert(!sub.contains(w@));
                assert(nd0.terminal);
                assert(node_words(p, nd) == node_words(p, nd0));
            }
        }
    } else {
        insert_into_list(&mut nd.children, w, i + 1);
        proof {
            let here = p.push(c);
            assert(here =~= w@.take(i as int + 1));
            let sub0 = list_words(here, nd0.children@);
            let sub1 = list_words(here, nd.children@);
            lemma_list_words_shape(here, nd0.children@);
            lemma_node_words_unfold(p, nd);
            lemma_node_words_unfold(p, nd0);
            lemma_node_wf_unfold(nd);
            assert(node_wf(nd));
            assert(node_words(p, nd) == own0 + sub1);
            assert(node_words(p, nd0) == own0 + sub0);
            assert(sub1.contains(w@));
            assert forall|u: Seq<char>| #[trigger]
                node_words(p, nd).contains(u) <==> (node_words(p, nd0).contains(u) || u
                == w@) by {
                lemma_concat_contains(own0, sub1, u);
                lemma_concat_contains(own0, sub0, u);
                if own0.contains(u) {
                    assert(u == here);
                }
            }
            if node_words(p, nd0).contains(w@) {
                lemma_concat_contains(own0, sub0, w@);
                assert(!own0.contains(w@));
                assert(sub0.contains(w@));
                assert(sub1 == sub0);
                assert(node_words(p, nd) == node_words(p, nd0));
            }
        }
    }
    proof {
        assert(node_wf(nd));
        assert(nd.data == c);
        assert(forall|u: Seq<char>| #[trigger]
            node_words(p, nd).contains(u) <==> (node_words(p, nd0).contains(u) || u == w@));
        assert(node_words(p, nd0).contains(w@) ==> node_words(p, nd) == node_words(p, nd0));
    }
    nodes.insert(j, nd);
    proof {
        assert(nodes@ =~= base.update(j as int, nd));
        let upd = base.update(j as int, nd);
        let t_part = list_words(p, base.take(j as int));
        let s_part = list_words(p, base.skip(j as int + 1));
        lemma_list_words_decompose(p, base, j as int);
        lemma_list_words_decompose(p, upd, j as int);
        assert(upd.take(j as int) =~= base.take(j as int));
        assert(upd.skip(j as int + 1) =~= base.skip(j as int + 1));
        assert(upd[j as int] == nd);
        assert(list_words(p, upd) == t_part + node_words(p, nd) + s_part);
        assert(list_words(p, base) == t_part + node_words(p, nd0) + s_part);
        // well-formedness of the updated list
        assert forall|a: int, b: int| 0 <= a < b < upd.len() implies (#[trigger] upd[a].data)
            != (#[trigger] upd[b].data) by {
            assert(upd[a].data == base[a].data);
            assert(upd[b].data == base[b].data);
        }
        assert forall|a: int| 0 <= a < upd.len() implies node_wf(#[trigger] upd[a]) by {
            if a != j {
                assert(upd[a] == base[a]);
            }
        }
        lemma_list_wf_intro(upd);
        assert(list_wf(nodes@));
        // membership in both directions
        assert forall|u: Seq<char>|
            #![trigger list_words(p, upd).contains(u)]
            #![trigger list_words(p, orig).contains(u)]
            list_words(p, upd).contains(u) <==> (list_words(p, orig).contains(u) || u
            == w@) by {
            lemma_concat3_contains(t_part, node_words(p, nd), s_part, u);
            lemma_concat3_contains(t_part, node_words(p, nd0), s_part, u);
        }
        // re-inserting a held word changes nothing
        if list_words(p, orig).contains(w@) {
            assert(w@[p.len() as int] == c);
            lemma_absent_when_key_differs(p, base.take(j as int), w@);
            lemma_absent_when_key_differs(p, base.skip(j as int + 1), w@);
            lemma_concat3_contains(t_part, node_words(p, nd0), s_part, w@);
            assert(node_words(p, nd0).contains(w@));
            assert(list_words(p, upd) == list_words(p, orig));
        }
    }
}

/// Appending an element appends to the members.
proof fn lemma_push_contains<T>(s: Seq<T>, e: T, u: T)
    ensures
        s.push(e).contains(u) <==> (s.contains(u) || u == e),
{
    assert(s.push(e) =~= s + seq![e]);
    lemma_concat_contains(s, seq![e], u);
    if u == e {
        assert(seq![e][0] == u);
    }
    if seq![e].contains(u) {
        assert(u == e);
    }
}

/// Taking one more element appends the element at that position.
proof fn lemma_take_push<T>(s: Seq<T>, k: int)
    requires
        0 <= k < s.len(),
    ensures
        s.take(k + 1) == s.take(k).push(s[k]),
{
    assert(s.take(k + 1) =~= s.take(k).push(s[k]));
}

impl Node {
    /// A leaf for the given character, not yet marking any word and with no
    /// subtrees.
    pub fn new(data: char) -> (n: Node)
        ensures
            n.data == data,
            !n.terminal,
            n.children@.len() == 0,
            node_wf(n),
    {
        let n = Node { data, terminal: false, children: Vec::new() };
        proof {
            lemma_node_words_leaf(Seq::<char>::empty(), n);
        }
        n
    }

    /// Adds `child` as a subtree unless a child with the same key is already
    /// present: a duplicate is silently skipped, and the existing subtree is
    /// never replaced.
    pub fn add_child(&mut self, child: Node)
        ensures
            (exists|k: int|
                0 <= k < old(self).children@.len() && (#[trigger] old(self).children@[k]).data
                    == child.data) ==> *final(self) == *old(self),
            (forall|k: int|
                0 <= k < old(self).children@.len() ==> (#[trigger] old(self).children@[k]).data
                    != child.data) ==> final(self).children@ == old(self).children@.push(child)
                && final(self).data == old(self).data && final(self).terminal == old(
                self,
            ).terminal,
    {
        match find_child(&self.children, child.data) {
            Some(_) => {
            }
            None => {
                self.children.push(child);
            }
        }
    }
}

impl DictionaryTrie {
    /// The dictionary words held by the index, read off in pre-order
    /// traversal: the empty word first if it is held, then each subtree's
    /// words, a word before its extensions and sibling subtrees in order of
    /// first insertion.  `nearest` breaks ties by this order.
    pub open spec fn words(self) -> Seq<Seq<char>> {
        (if self.empty_terminal {
            seq![Seq::<char>::empty()]
        } else {
            Seq::<Seq<char>>::empty()
        }) + list_words(Seq::<char>::empty(), self.roots@)
    }

    /// Well-formed: child keys are unique under every node, and every held
    /// word is shorter than `usize::MAX` characters (so that distances can
    /// be computed).  Construction through `new` and `insert` maintains
    /// this.
    pub open spec fn wf(self) -> bool {
        &&& list_wf(self.roots@)
        &&& forall|u: Seq<char>|
            #[trigger] list_words(Seq::<char>::empty(), self.roots@).contains(u) ==> u.len()
                < usize::MAX
    }

    /// An empty dictionary index.
    pub fn new() -> (t: DictionaryTrie)
        ensures
            t.wf(),
            t.words().len() == 0,
    {
        let t = DictionaryTrie { roots: Vec::new(), empty_terminal: false };
        proof {
            lemma_list_wf_intro(t.roots@);
            assert(list_words(Seq::<char>::empty(), t.roots@) =~= Seq::<Seq<char>>::empty());
        }
        t
    }

    /// Inserts one word into the index.  Inserting a word that is already
    /// held leaves the index unchanged, so insertion is idempotent; a new
    /// word adds exactly itself to the held words.
    pub fn insert(&mut self, word: &str)
        requires
            old(self).wf(),
            word@.len() < usize::MAX,
        ensures
            final(self).wf(),
            forall|u: Seq<char>|
                #![trigger final(self).words().contains(u)]
                #![trigger old(self).words().contains(u)]
                final(self).words().contains(u) <==> (old(self).words().contains(u) || u
                == word@),
            old(self).words().contains(word@) ==> final(self).words() == old(self).words(),
    {
        let ghost t0 = *old(self);
        let cs = chars_of(word);
        if cs.len() == 0 {
            proof {
                assert(word@ =~= Seq::<char>::empty());
            }
            self.empty_terminal = true;
            proof {
                lemma_list_words_shape(Seq::<char>::empty(), self.roots@);
                assert forall|u: Seq<char>|
                    #![trigger self.words().contains(u)]
                    #![trigger t0.words().contains(u)]
                    self.words().contains(u) <==> (t0.words().contains(u) || u == word@) by {
                    lemma_words_member(*self, u);
                    lemma_words_member(t0, u);
                }
                if t0.words().contains(word@) {
                    lemma_words_member(t0, word@);
                    assert(t0.empty_terminal);
                    assert(self.words() == t0.words());
                }
                assert forall|u: Seq<char>| #[trigger]
                    list_words(Seq::<char>::empty(), self.roots@).contains(u) implies u.len()
                    < usize::MAX by {}
            }
        } else {
            insert_into_list(&mut self.roots, &cs, 0);
            proof {
                assert(cs@.take(0) =~= Seq::<char>::empty());
                let e = Seq::<char>::empty();
                assert forall|u: Seq<char>|
                    #![trigger self.words().contains(u)]
                    #![trigger t0.words().contains(u)]
                    self.words().contains(u) <==> (t0.words().contains(u) || u == word@) by {
                    lemma_words_member(*self, u);
                    lemma_words_member(t0, u);
                    assert(list_words(e, self.roots@).contains(u) <==> (list_words(
                        e,
                        t0.roots@,
                    ).contains(u) || u == word@));
                }
                if t0.words().contains(word@) {
                    lemma_words_member(t0, word@);
                    assert(list_words(e, t0.roots@).contains(word@));
                    assert(list_words(e, self.roots@) == list_words(e, t0.roots@));
                    assert(self.words() == t0.words());
                }
                assert forall|u: Seq<char>| #[trigger]
                    list_words(e, self.roots@).contains(u) implies u.len() < usize::MAX by {
                    assert(list_words(e, self.roots@).contains(u) <==> (list_words(
                        e,
                        t0.roots@,
                    ).contains(u) || u == word@));
                }
            }
        }
    }
}

/// Walks the trie along the characters `w[i..]`, checking whether the word
/// is spelled by a path ending in a terminal node.
fn traverse(nodes: &Vec<Node>, w: &Vec<char>, i: usize) -> (r: bool)
    requires
        i < w@.len(),
        list_wf(nodes@),
    ensures
        r == list_words(w@.take(i as int), nodes@).contains(w@),
    decreases w@.len() - i,
{
    let ghost p = w@.take(i as int);
    let c = *vstd::std_specs::vec::vec_index(w, i);
    match find_child(nodes, c) {
        None => {
            proof {
                assert(w@[p.len() as int] == c);
                lemma_absent_when_key_differs(p, nodes@, w@);
            }
            false
        }
        Some(j) => {
            let n = w.len();
            let nd = vstd::std_specs::vec::vec_index(nodes, j);
            let ghost here = p.push(c);
            let ghost own: Seq<Seq<char>> = if nd.terminal {
                seq![here]
            } else {
                Seq::<Seq<char>>::empty()
            };
            let ghost sub = list_words(here, nd.children@);
            proof {
                assert(w@[p.len() as int] == c);
                lemma_list_wf_member(nodes@);
                lemma_node_wf_unfold(nodes@[j as int]);
                lemma_list_words_decompose(p, nodes@, j as int);
                assert forall|k: int|
                    0 <= k < nodes@.take(j as int).len() implies (#[trigger] nodes@.take(
                    j as int,
                )[k]).data != w@[p.len() as int] by {
                    assert(nodes@.take(j as int)[k] == nodes@[k]);
                }
                lemma_absent_when_key_differs(p, nodes@.take(j as int), w@);
                assert forall|k: int|
                    0 <= k < nodes@.skip(j as int + 1).len() implies (#[trigger] nodes@.skip(
                    j as int + 1,
                )[k]).data != w@[p.len() as int] by {
                    assert(nodes@.skip(j as int + 1)[k] == nodes@[k + j + 1]);
                    assert(nodes@[j as int].data != nodes@[k + j + 1].data);
                }
                lemma_absent_when_key_differs(p, nodes@.skip(j as int + 1), w@);
                lemma_concat3_contains(
                    list_words(p, nodes@.take(j as int)),
                    node_words(p, nodes@[j as int]),
                    list_words(p, nodes@.skip(j as int + 1)),
                    w@,
                );
                lemma_node_words_unfold(p, nodes@[j as int]);
                lemma_list_words_shape(here, nd.children@);
                lemma_concat_contains(own, sub, w@);
            }
            if n == i + 1 {
                proof {
                    assert(here =~= w@);
                    assert(!sub.contains(w@));
                    if nd.terminal {
                        assert(own[0] == w@);
                        assert(own.contains(w@));
                    }
                }
                nd.terminal
            } else {
                proof {
                    assert(here =~= w@.take(i as int + 1));
                    if own.contains(w@) {
                        assert(w@ == here);
                    }
                }
                let r = traverse(&nd.children, w, i + 1);
                r
            }
        }
    }
}

impl DictionaryTrie {
    /// Whether the given word is a dictionary entry, verbatim.
    pub fn contains(&self, word: &str) -> (r: bool)
        requires
            self.wf(),
        ensures
            r == self.words().contains(word@),
    {
        let cs = chars_of(word);
        if cs.len() == 0 {
            proof {
                assert(word@ =~= Seq::<char>::empty());
                lemma_words_member(*self, word@);
                lemma_list_words_shape(Seq::<char>::empty(), self.roots@);
            }
            self.empty_terminal
        } else {
            proof {
                assert(cs@.take(0) =~= Seq::<char>::empty());
                lemma_words_member(*self, word@);
            }
            let r = traverse(&self.roots, &cs, 0);
            r
        }
    }
}

/// A copy of a character vector.
fn clone_chars(v: &Vec<char>) -> (r: Vec<char>)
    ensures
        r@ == v@,
{
    let mut r: Vec<char> = Vec::new();
    let mut i: usize = 0;
    while i < v.len()
        invariant
            i <= v@.len(),
            r@ =~= v@.take(i as int),
        decreases v@.len() - i,
    {
        r.push(*vstd::std_specs::vec::vec_index(v, i));
        i = i + 1;
    }
    proof {
        assert(v@.take(v@.len() as int) =~= v@);
    }
    r
}

/// Collects the words under a sibling list, in pre-order, onto the end of
/// `out`.
fn collect_list(nodes: &Vec<Node>, prefix: &Vec<char>, out: &mut Vec<Vec<char>>)
    ensures
        final(out).deep_view() == old(out).deep_view() + list_words(prefix@, nodes@),
    decreases nodes@,
{
    let ghost dv0 = out.deep_view();
    let mut j: usize = 0;
    while j < nodes.len()
        invariant
            j <= nodes@.len(),
            out.deep_view() == dv0 + list_words(prefix@, nodes@.take(j as int)),
        decreases nodes@.len() - j,
    {
        let ghost dvb = out.deep_view();
        let nd = vstd::std_specs::vec::vec_index(nodes, j);
        let mut p2 = clone_chars(prefix);
        p2.push(nd.data);
        let ghost own: Seq<Seq<char>> = if nd.terminal {
            seq![prefix@.push(nd.data)]
        } else {
            Seq::<Seq<char>>::empty()
        };
        if nd.terminal {
            let here = clone_chars(&p2);
            let ghost dvx = out.deep_view();
            out.push(here);
            proof {
                assert(here.deep_view() =~= p2@);
                assert(out.deep_view() =~= dvx.push(p2@));
            }
        }
        proof {
            assert(out.deep_view() =~= dvb + own);
        }
        collect_list(&nd.children, &p2, out);
        proof {
            lemma_take_push(nodes@, j as int);
            lemma_list_words_push(prefix@, nodes@.take(j as int), nodes@[j as int]);
            lemma_node_words_unfold(prefix@, nodes@[j as int]);
            assert(out.deep_view() =~= dv0 + list_words(prefix@, nodes@.take(j as int + 1)));
        }
        j = j + 1;
    }
    proof {
        assert(nodes@.take(nodes@.len() as int) =~= nodes@);
    }
}

/// Every held word is shorter than `usize::MAX` characters.
proof fn lemma_words_bounded(t: DictionaryTrie)
    requires
        t.wf(),
    ensures
        forall|k: int| 0 <= k < t.words().len() ==> (#[trigger] t.words()[k]).len() < usize::MAX,
{
    assert forall|k: int|
        0 <= k < t.words().len() implies (#[trigger] t.words()[k]).len() < usize::MAX by {
        assert(t.words().contains(t.words()[k]));
        lemma_words_member(t, t.words()[k]);
    }
}

impl DictionaryTrie {
    /// The words held by the index, one vector of characters each, in
    /// traversal order.
    fn all_words(&self) -> (ws: Vec<Vec<char>>)
        ensures
            ws.deep_view() == self.words(),
            ws@.len() == self.words().len(),
    {
        let mut ws: Vec<Vec<char>> = Vec::new();
        if self.empty_terminal {
            ws.push(Vec::new());
        }
        let ghost head = ws.deep_view();
        proof {
            if self.empty_terminal {
                assert(ws.deep_view()[0] =~= Seq::<char>::empty());
                assert(ws.deep_view() =~= seq![Seq::<char>::empty()]);
            } else {
                assert(ws.deep_view() =~= Seq::<Seq<char>>::empty());
            }
        }
        let pre: Vec<char> = Vec::new();
        collect_list(&self.roots, &pre, &mut ws);
        proof {
            assert(ws.deep_view() =~= head + list_words(Seq::<char>::empty(), self.roots@));
            assert(ws.deep_view() =~= self.words());
        }
        ws
    }

    /// Whether the index holds no words at all.
    pub fn is_empty(&self) -> (b: bool)
        ensures
            b == (self.words().len() == 0),
    {
        let ws = self.all_words();
        ws.len() == 0
    }

    /// The dictionary word closest to `word` in edit distance, together with
    /// that distance, found by an exhaustive scan of the held words; `None`
    /// exactly when the dictionary is empty.  Among equally close words the
    /// first in traversal order is returned, so repeated queries against one
    /// index give identical answers.
    pub fn nearest(&self, word: &str) -> (r: Option<(String, usize)>)
        requires
            self.wf(),
            word@.len() < usize::MAX,
        ensures
            r is None <==> self.words().len() == 0,
            r matches Some(pair) ==> {
                let k = best_index(self.words(), word@);
                pair.0@ == self.words()[k] && pair.1 == lev(self.words()[k], word@)
            },
    {
        let ws = self.all_words();
        if ws.len() == 0 {
            return None;
        }
        let cs = chars_of(word);
        proof {
            lemma_words_bounded(*self);
        }
        let (bi, bd) = scan_best(&ws, &cs);
        proof {
            crate::edit_distance::lemma_best_index_minimal(ws.deep_view(), cs@);
            assert(ws@[bi as int].deep_view() =~= ws@[bi as int]@);
            assert(ws.deep_view()[bi as int] == ws@[bi as int].deep_view());
        }
        let closest = string_of_chars(vstd::std_specs::vec::vec_index(&ws, bi));
        Some((closest, bd))
    }
}

/// A word is held exactly when it is the held empty word or lies under the
/// root subtrees.
proof fn lemma_words_member(t: DictionaryTrie, u: Seq<char>)
    ensures
        t.words().contains(u) <==> ((t.empty_terminal && u == Seq::<char>::empty()) || list_words(
            Seq::<char>::empty(),
            t.roots@,
        ).contains(u)),
{
    let e: Seq<Seq<char>> = if t.empty_terminal {
        seq![Seq::<char>::empty()]
    } else {
        Seq::<Seq<char>>::empty()
    };
    lemma_concat_contains(e, list_words(Seq::<char>::empty(), t.roots@), u);
    if t.empty_terminal && u == Seq::<char>::empty() {
        assert(e[0] == u);
    }
    if e.contains(u) {
        assert(u == e[0]);
    }
}

/// Builds the dictionary index over an already-loaded word list, inserting
/// each word in turn: afterwards the index holds exactly the listed words,
/// duplicates collapsed.
pub fn get_words_from_file_as_tree(words: &Vec<String>) -> (t: DictionaryTrie)
    requires
        forall|k: int| 0 <= k < words@.len() ==> (#[trigger] words@[k])@.len() < usize::MAX,
    ensures
        t.wf(),
        forall|u: Seq<char>| #[trigger] t.words().contains(u) <==> words.deep_view().contains(u),
{
    let mut t = DictionaryTrie::new();
    let ghost dv = words.deep_view();
    let mut k: usize = 0;
    while k < words.len()
        invariant
            k <= words@.len(),
            dv == words.deep_view(),
            dv.len() == words@.len(),
            forall|k2: int| 0 <= k2 < words@.len() ==> (#[trigger] words@[k2])@.len() < usize::MAX,
            t.wf(),
            forall|u: Seq<char>| #[trigger] t.words().contains(u) <==> dv.take(k as int).contains(
                u,
            ),
        decreases words@.len() - k,
    {
        let ghost tprev = t;
        t.insert(words[k].as_str());
        proof {
            assert(dv[k as int] == words@[k as int]@);
            assert forall|u: Seq<char>| #[trigger]
                t.words().contains(u) <==> dv.take(k as int + 1).contains(u) by {
                lemma_take_push(dv, k as int);
                lemma_push_contains(dv.take(k as int), dv[k as int], u);
            }
        }
        k = k + 1;
    }
    proof {
        assert(dv.take(dv.len() as int) =~= dv);
    }
    t
}

} // verus!
