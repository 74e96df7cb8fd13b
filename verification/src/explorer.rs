//! The explorer state: a loaded document, a navigation path, the derived
//! current subtree, per-node expansion flags, the pretty-printed text pane,
//! and the display options.

use vstd::prelude::*;

use crate::nav::{resolve, resolve_path};
use crate::parse::{parse_doc, parse_json, ParseError};
use crate::pretty::{chars_to_string, ser, to_pretty};
use crate::value::{Jv, JsonValue};

verus! {

/// Expansion state as an association list from node paths to flags; the
/// earliest entry for a key wins, and an absent key means collapsed.
pub open spec fn exp_lookup(m: Seq<(Seq<Seq<char>>, bool)>, k: Seq<Seq<char>>) -> bool
    decreases m.len(),
{
    if m.len() == 0 {
        false
    } else if m[0].0 == k {
        m[0].1
    } else {
        exp_lookup(m.drop_first(), k)
    }
}

pub struct JsonExplorer {
    pub root_data: Option<JsonValue>,
    pub current_data: Option<JsonValue>,
    pub navigation_path: Vec<String>,
    pub current_file_name: Option<String>,
    pub selected_json: String,
    pub expanded_nodes: Vec<(Vec<String>, bool)>,
    pub show_node_types: bool,
    pub show_node_values: bool,
}

/// What navigation promises: against the root of `pre`, the candidate path
/// resolves to a prefix and a value; `post` carries that prefix, a copy of
/// that value, and its pretty-printed text. Expansion flags are keyed
/// relative to the displayed subtree, so re-rooting the view resets them;
/// the document and the display options are kept.
pub open spec fn nav_post(pre: JsonExplorer, path: Seq<Seq<char>>, post: JsonExplorer) -> bool {
    &&& pre.root_data is Some
    &&& {
        let root = pre.root_data->0@;
        let (p, r) = resolve(root, path);
        &&& post.navigation_path.deep_view() == p
        &&& post.current_data is Some
        &&& post.current_data->0@ == r
        &&& post.selected_json@ == ser(r, 0)
        &&& post.root_data == pre.root_data
        &&& post.current_file_name == pre.current_file_name
        &&& post.expanded_nodes@.len() == 0
        &&& post.show_node_types == pre.show_node_types
        &&& post.show_node_values == pre.show_node_values
    }
}

/// Segment-wise copy of a path.
pub fn dup_segs(v: &Vec<String>) -> (r: Vec<String>)
    ensures
        r.deep_view() == v.deep_view(),
{
    let mut r: Vec<String> = Vec::new();
    let mut i: usize = 0;
    while i < v.len()
        invariant
            i <= v@.len(),
            r@.len() == i,
            forall|j: int| 0 <= j < i ==> #[trigger] r@[j]@ == v@[j]@,
        decreases v@.len() - i,
    {
        r.push(v[i].clone());
        i = i + 1;
    }
    proof {
        assert(r.deep_view() =~= v.deep_view());
    }
    r
}

/// Segment-wise equality of two paths.
pub fn segs_eq(a: &Vec<String>, b: &Vec<String>) -> (r: bool)
    ensures
        r == (a.deep_view() == b.deep_view()),
{
    if a.len() != b.len() {
        proof {
            assert(a.deep_view().len() == a@.len());
            assert(b.deep_view().len() == b@.len());
        }
        return false;
    }
    let mut i: usize = 0;
    while i < a.len()
        invariant
            a@.len() == b@.len(),
            i <= a@.len(),
            forall|j: int| 0 <= j < i ==> #[trigger] a@[j]@ == b@[j]@,
        decreases a@.len() - i,
    {
        if !a[i].eq(&b[i]) {
            proof {
                assert(a.deep_view()[i as int] != b.deep_view()[i as int]);
            }
            return false;
        }
        i = i + 1;
    }
    proof {
        assert(a.deep_view() =~= b.deep_view());
    }
    true
}

/// Whether the expansion list holds the node at `k` as expanded; absent
/// keys are collapsed.
pub fn lookup_expanded(list: &Vec<(Vec<String>, bool)>, k: &Vec<String>) -> (r: bool)
    ensures
        r == exp_lookup(list.deep_view(), k.deep_view()),
{
    let ghost m = list.deep_view();
    let ghost kk = k.deep_view();
    proof {
        assert(m.skip(0) =~= m);
    }
    let mut i: usize = 0;
    while i < list.len()
        invariant
            m == list.deep_view(),
            m.len() == list@.len(),
            forall|j: int|
                0 <= j < m.len() ==> #[trigger] m[j] == (
                    list@[j].0.deep_view(),
                    list@[j].1,
                ),
            kk == k.deep_view(),
            i <= m.len(),
            exp_lookup(m, kk) == exp_lookup(m.skip(i as int), kk),
        decreases m.len() - i,
    {
        if segs_eq(&list[i].0, k) {
            proof {
                assert(m.skip(i as int)[0] == m[i as int]);
            }
            return list[i].1;
        }
        i = i + 1;
        proof {
            assert(m.skip(i - 1)[0] == m[i - 1]);
            assert(m.skip(i - 1).drop_first() =~= m.skip(i as int));
            assert(exp_lookup(m.skip(i - 1), kk) == exp_lookup(m.skip(i as int), kk));
        }
    }
    proof {
        assert(m.skip(i as int).len() == 0);
        assert(!exp_lookup(m.skip(i as int), kk));
    }
    false
}

impl JsonExplorer {
    /// A fresh explorer: nothing loaded, path at the root, everything
    /// collapsed, both display options off.
    pub fn new() -> (r: JsonExplorer)
        ensures
            r.root_data is None,
            r.current_data is None,
            r.navigation_path@.len() == 0,
            r.current_file_name is None,
            r.selected_json@.len() == 0,
            r.expanded_nodes@.len() == 0,
            !r.show_node_types,
            !r.show_node_values,
    {
        JsonExplorer {
            root_data: None,
            current_data: None,
            navigation_path: Vec::new(),
            current_file_name: None,
            selected_json: String::new(),
            expanded_nodes: Vec::new(),
            show_node_types: false,
            show_node_values: false,
        }
    }

    /// Load a document from its text. On success the parsed value replaces
    /// the document, navigation returns to the root, expansion state is
    /// cleared and the text pane is regenerated; on failure every part of
    /// the state is left exactly as it was.
    pub fn load_from_str(&mut self, content: &str, file_name: String) -> (r: Result<
        (),
        ParseError,
    >)
        ensures
            r is Ok <==> parse_doc(content@) is Some,
            r is Err ==> *final(self) == *old(self),
            r is Ok ==> {
                &&& final(self).root_data is Some
                &&& final(self).root_data->0@ == parse_doc(content@)->0
                &&& final(self).current_data is Some
                &&& final(self).current_data->0@ == parse_doc(content@)->0
                &&& final(self).navigation_path@.len() == 0
                &&& final(self).expanded_nodes@.len() == 0
                &&& final(self).current_file_name == Some(file_name)
                &&& final(self).selected_json@ == ser(parse_doc(content@)->0, 0)
                &&& final(self).show_node_types == old(self).show_node_types
                &&& final(self).show_node_values == old(self).show_node_values
            },
    {
        match parse_json(content) {
            Ok(v) => {
                let c = v.dup();
                let text = to_pretty(&c);
                self.root_data = Some(v);
                self.current_data = Some(c);
                self.current_file_name = Some(file_name);
                self.navigation_path.clear();
                self.expanded_nodes.clear();
                self.selected_json = text;
                Ok(())
            },
            Err(e) => Err(e),
        }
    }

    /// Set the navigation path to the longest valid prefix of `path`, the
    /// current subtree to the value reached, and the text pane to its
    /// pretty-printed form. Expansion flags are keyed against the displayed
    /// subtree, so navigation clears them. Without a document this does
    /// nothing.
    pub fn navigate_to_path(&mut self, path: Vec<String>)
        ensures
            old(self).root_data is None ==> *final(self) == *old(self),
            old(self).root_data is Some ==> nav_post(*old(self), path.deep_view(), *final(self)),
    {
        if self.root_data.is_none() {
            return ;
        }
        let (p, c) = resolve_path(self.root_data.as_ref().unwrap(), &path);
        let text = to_pretty(&c);
        self.navigation_path = p;
        self.current_data = Some(c);
        self.selected_json = text;
        self.expanded_nodes.clear();
    }

    /// Drop the last path segment and resolve again from the root. Does
    /// nothing at the root.
    pub fn go_back(&mut self)
        ensures
            old(self).navigation_path@.len() == 0 ==> *final(self) == *old(self),
            old(self).navigation_path@.len() > 0 && old(self).root_data is None ==> final(self)
                .navigation_path@ == old(self).navigation_path@.drop_last() && *final(self) == (
            JsonExplorer {
                navigation_path: final(self).navigation_path,
                ..*old(self)
            }),
            old(self).navigation_path@.len() > 0 && old(self).root_data is Some ==> nav_post(
                *old(self),
                old(self).navigation_path.deep_view().drop_last(),
                *final(self),
            ),
    {
        if self.navigation_path.len() == 0 {
            return ;
        }
        self.navigation_path.pop();
        let path = dup_segs(&self.navigation_path);
        proof {
            assert(path.deep_view() =~= old(self).navigation_path.deep_view().drop_last());
        }
        self.navigate_to_path(path);
    }

    /// Show one clicked value in the text pane, without touching navigation
    /// or anything else; the next navigation or load overrides it again.
    pub fn select_scalar(&mut self, v: &JsonValue)
        ensures
            final(self).selected_json@ == ser(v@, 0),
            *final(self) == (JsonExplorer {
                selected_json: final(self).selected_json,
                ..*old(self)
            }),
    {
        let text = to_pretty(v);
        self.selected_json = text;
    }

    /// Regenerate the text pane from the current subtree, if any.
    pub fn update_selected_json(&mut self)
        ensures
            old(self).current_data is None ==> *final(self) == *old(self),
            old(self).current_data is Some ==> final(self).selected_json@ == ser(
                old(self).current_data->0@,
                0,
            ) && *final(self) == (JsonExplorer {
                selected_json: final(self).selected_json,
                ..*old(self)
            }),
    {
        if self.current_data.is_none() {
            return ;
        }
        let text = to_pretty(self.current_data.as_ref().unwrap());
        self.selected_json = text;
    }

    /// The breadcrumb: `Root` at the root, else the segments joined by an
    /// arrow separator.
    pub fn get_current_path_string(&self) -> (r: String)
        ensures
            r@ == path_label(self.navigation_path.deep_view()),
    {
        let segs: &Vec<String> = &self.navigation_path;
        if segs.len() == 0 {
            let mut out: Vec<char> = Vec::new();
            out.push('R');
            out.push('o');
            out.push('o');
            out.push('t');
            proof {
                assert(out@ =~= seq!['R', 'o', 'o', 't']);
            }
            return chars_to_string(&out);
        }
        let ghost p = segs.deep_view();
        let mut out: Vec<char> = Vec::new();
        crate::pretty::push_string(&mut out, &segs[0]);
        proof {
            assert(out@ =~= p[0]);
            assert(p.subrange(1, 1) =~= Seq::<Seq<char>>::empty());
        }
        let mut i: usize = 1;
        while i < segs.len()
            invariant
                p == segs.deep_view(),
                p.len() == segs@.len(),
                forall|j: int| 0 <= j < p.len() ==> p[j] == #[trigger] segs@[j]@,
                1 <= i <= segs@.len(),
                out@ == p[0] + joined_rest(p.subrange(1, i as int)),
            decreases segs@.len() - i,
        {
            out.push(' ');
            out.push('\u{2192}');
            out.push(' ');
            crate::pretty::push_string(&mut out, &segs[i]);
            i = i + 1;
            proof {
                lemma_joined_rest_push(p.subrange(1, i - 1), p[i - 1]);
                assert(p.subrange(1, i as int) =~= p.subrange(1, i - 1).push(p[i - 1]));
                assert(out@ =~= p[0] + joined_rest(p.subrange(1, i as int)));
            }
        }
        proof {
            assert(p.subrange(1, p.len() as int) =~= p.drop_first());
        }
        chars_to_string(&out)
    }

    /// Whether the node at `node_path` is expanded; collapsed by default.
    pub fn is_expanded(&self, node_path: &Vec<String>) -> (r: bool)
        ensures
            r == exp_lookup(self.expanded_nodes.deep_view(), node_path.deep_view()),
    {
        lookup_expanded(&self.expanded_nodes, node_path)
    }

    /// Flip the expansion flag of the node at `node_path`, touching no other
    /// node and nothing else of the state.
    pub fn toggle_expansion(&mut self, node_path: &Vec<String>)
        ensures
            forall|k: Seq<Seq<char>>|
                #[trigger] exp_lookup(final(self).expanded_nodes.deep_view(), k) == if k
                    == node_path.deep_view() {
                    !exp_lookup(old(self).expanded_nodes.deep_view(), k)
                } else {
                    exp_lookup(old(self).expanded_nodes.deep_view(), k)
                },
            *final(self) == (JsonExplorer { expanded_nodes: final(self).expanded_nodes, ..*old(self) }),
    {
        let cur = self.is_expanded(node_path);
        let key = dup_segs(node_path);
        self.expanded_nodes.insert(0, (key, !cur));
        proof {
            let m0 = old(self).expanded_nodes.deep_view();
            let m1 = self.expanded_nodes.deep_view();
            let k0 = node_path.deep_view();
            assert(m1 =~= seq![(k0, !exp_lookup(m0, k0))] + m0);
            assert(m1.drop_first() =~= m0);
            assert forall|k: Seq<Seq<char>>| #[trigger] exp_lookup(m1, k) == if k == k0 {
                !exp_lookup(m0, k)
            } else {
                exp_lookup(m0, k)
            } by {
                assert(m1[0] == (k0, !exp_lookup(m0, k0)));
            }
        }
    }

    /// Turn the kind-and-count annotations on or off; nothing else changes.
    pub fn set_show_node_types(&mut self, on: bool)
        ensures
            *final(self) == (JsonExplorer { show_node_types: on, ..*old(self) }),
    {
        self.show_node_types = on;
    }

    /// Turn the scalar value text on or off; nothing else changes.
    pub fn set_show_node_values(&mut self, on: bool)
        ensures
            *final(self) == (JsonExplorer { show_node_values: on, ..*old(self) }),
    {
        self.show_node_values = on;
    }
}

/// The separator and segment text that follows the first breadcrumb segment.
pub open spec fn joined_rest(p: Seq<Seq<char>>) -> Seq<char>
    decreases p.len(),
{
    if p.len() == 0 {
        Seq::empty()
    } else {
        seq![' ', '\u{2192}', ' '] + p[0] + joined_rest(p.drop_first())
    }
}

/// The breadcrumb text for a path.
pub open spec fn path_label(p: Seq<Seq<char>>) -> Seq<char> {
    if p.len() == 0 {
        seq!['R', 'o', 'o', 't']
    } else {
        p[0] + joined_rest(p.drop_first())
    }
}

pub proof fn lemma_joined_rest_push(p: Seq<Seq<char>>, x: Seq<char>)
    ensures
        joined_rest(p.push(x)) == joined_rest(p) + seq![' ', '\u{2192}', ' '] + x,
    decreases p.len(),
{
    if p.len() == 0 {
        assert(p.push(x)[0] == x);
        assert(p.push(x).drop_first() =~= Seq::<Seq<char>>::empty());
        assert(joined_rest(Seq::<Seq<char>>::empty()) == Seq::<char>::empty());
        assert(joined_rest(p.push(x)) =~= joined_rest(p) + seq![' ', '\u{2192}', ' '] + x);
    } else {
        assert(p.push(x).drop_first() =~= p.drop_first().push(x));
        lemma_joined_rest_push(p.drop_first(), x);
        assert(joined_rest(p.push(x)) =~= joined_rest(p) + seq![' ', '\u{2192}', ' '] + x);
    }
}

/// Navigating to the same candidate path twice in a row yields the same
/// navigation path, current subtree and selected text as the first time.
pub proof fn lemma_navigate_idempotent(
    s0: JsonExplorer,
    s1: JsonExplorer,
    s2: JsonExplorer,
    path: Seq<Seq<char>>,
)
    requires
        nav_post(s0, path, s1),
        nav_post(s1, path, s2),
    ensures
        s2.navigation_path.deep_view() == s1.navigation_path.deep_view(),
        s2.current_data->0@ == s1.current_data->0@,
        s2.selected_json@ == s1.selected_json@,
{
}

/// After navigating along a fully valid path, going back reaches the same
/// subtree as navigating along that path without its last segment.
pub proof fn lemma_go_back_inverse(
    s0: JsonExplorer,
    s1: JsonExplorer,
    s2: JsonExplorer,
    t1: JsonExplorer,
    path: Seq<Seq<char>>,
)
    requires
        path.len() > 0,
        nav_post(s0, path, s1),
        resolve(s0.root_data->0@, path).0 == path,
        nav_post(s1, s1.navigation_path.deep_view().drop_last(), s2),
        nav_post(s0, path.drop_last(), t1),
    ensures
        s2.current_data->0@ == t1.current_data->0@,
        s2.selected_json@ == t1.selected_json@,
        s2.navigation_path.deep_view() == t1.navigation_path.deep_view(),
{
}

} // verus!
