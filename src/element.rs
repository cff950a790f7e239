use vstd::prelude::*;
use vstd::seq_lib::lemma_multiset_commutative;
use vstd::utf8::*;

use crate::utf8::{lemma_drop_encoded_prefix, lemma_prefix_end_is_boundary};

verus! {

/// A node of a compressed prefix tree, generic over the stored value type.
///
/// Every kind carries a label (the key fragment owned by the edge that leads
/// to it) and an ordered sequence of children. Only `Value` holds a value.
pub enum Element<T> {
    Value { label: String, value: T, children: Vec<Element<T>> },
    Node { label: String, children: Vec<Element<T>> },
    Base { label: String, children: Vec<Element<T>> },
}

impl<T> Element<T> {
    /// The label of any kind of element, as characters.
    pub open spec fn spec_label(self) -> Seq<char> {
        match self {
            Element::Value { label, .. } => label@,
            Element::Node { label, .. } => label@,
            Element::Base { label, .. } => label@,
        }
    }

    /// The children of any kind of element, in order.
    pub open spec fn spec_children(self) -> Seq<Element<T>> {
        match self {
            Element::Value { children, .. } => children@,
            Element::Node { children, .. } => children@,
            Element::Base { children, .. } => children@,
        }
    }

    /// The value held by a `Value` element; `None` for the other kinds.
    pub open spec fn spec_value(self) -> Option<T> {
        match self {
            Element::Value { value, .. } => Some(value),
            _ => None,
        }
    }

    /// The label as the string it is stored in.
    pub open spec fn spec_label_string(self) -> String {
        match self {
            Element::Value { label, .. } => label,
            Element::Node { label, .. } => label,
            Element::Base { label, .. } => label,
        }
    }

    /// The same element with its label replaced by `l`.
    pub open spec fn with_label(self, l: String) -> Element<T> {
        match self {
            Element::Value { value, children, .. } => Element::Value { label: l, value, children },
            Element::Node { children, .. } => Element::Node { label: l, children },
            Element::Base { children, .. } => Element::Base { label: l, children },
        }
    }

    /// The children as the vector they are stored in.
    pub open spec fn spec_children_vec(self) -> Vec<Element<T>> {
        match self {
            Element::Value { children, .. } => children,
            Element::Node { children, .. } => children,
            Element::Base { children, .. } => children,
        }
    }

    /// The same element with its children replaced by `cs`.
    pub open spec fn with_children(self, cs: Vec<Element<T>>) -> Element<T> {
        match self {
            Element::Value { label, value, .. } => Element::Value { label, value, children: cs },
            Element::Node { label, .. } => Element::Node { label, children: cs },
            Element::Base { label, .. } => Element::Base { label, children: cs },
        }
    }

    /// The same element with the value of a `Value` replaced by `v`; other
    /// kinds are left as they are.
    pub open spec fn with_value(self, v: T) -> Element<T> {
        match self {
            Element::Value { label, children, .. } => Element::Value { label, value: v, children },
            _ => self,
        }
    }

    /// Number of elements in the subtree rooted here.
    pub open spec fn size(self) -> nat
        decreases self, 0nat,
    {
        1 + Self::sizes_from(self.spec_children(), 0)
    }

    /// Sum of the subtree sizes of `s[i..]`.
    pub open spec fn sizes_from(s: Seq<Element<T>>, i: nat) -> nat
        decreases s, s.len() - i,
    {
        if i >= s.len() {
            0
        } else {
            s[i as int].size() + Self::sizes_from(s, i + 1)
        }
    }

    /// Each of `cs`, beside the full key `key` of their parent.
    pub open spec fn tagged(key: Seq<char>, cs: Seq<Element<T>>) -> Seq<(Seq<char>, Element<T>)> {
        cs.map_values(|c: Element<T>| (key, c))
    }

    /// Number of elements in all subtrees still waiting in a walk.
    pub open spec fn queue_size(q: Seq<(Seq<char>, Element<T>)>) -> nat
        decreases q.len(),
    {
        if q.len() == 0 {
            0
        } else {
            q[0].1.size() + Self::queue_size(q.drop_first())
        }
    }

    /// The entry that `e`, with full key `key`, contributes: one if it holds a value.
    pub open spec fn emitted(key: Seq<char>, e: Element<T>) -> Seq<(Seq<char>, T)> {
        match e.spec_value() {
            Some(v) => seq![(key, v)],
            None => seq![],
        }
    }

    /// Level-order walk over a first-in first-out queue of elements, each beside
    /// the full key of its parent: the front element's key is its parent's key
    /// followed by its own label, and its children join the back of the queue.
    pub open spec fn walk(q: Seq<(Seq<char>, Element<T>)>) -> Seq<(Seq<char>, T)>
        decreases Self::queue_size(q),
        via Self::walk_decreases
    {
        if q.len() == 0 {
            seq![]
        } else {
            let key = q[0].0 + q[0].1.spec_label();
            Self::emitted(key, q[0].1) + Self::walk(
                q.drop_first() + Self::tagged(key, q[0].1.spec_children()),
            )
        }
    }

    #[via_fn]
    proof fn walk_decreases(q: Seq<(Seq<char>, Element<T>)>) {
        if q.len() != 0 {
            let key = q[0].0 + q[0].1.spec_label();
            Self::lemma_step_size(q, key);
        }
    }

    proof fn lemma_queue_size_concat(a: Seq<(Seq<char>, Element<T>)>, b: Seq<(Seq<char>, Element<T>)>)
        ensures
            Self::queue_size(a + b) == Self::queue_size(a) + Self::queue_size(b),
        decreases a.len(),
    {
        if a.len() == 0 {
            assert(a + b =~= b);
        } else {
            assert((a + b).drop_first() =~= a.drop_first() + b);
            Self::lemma_queue_size_concat(a.drop_first(), b);
        }
    }

    proof fn lemma_queue_size_tagged(key: Seq<char>, cs: Seq<Element<T>>, i: nat)
        requires
            i <= cs.len(),
        ensures
            Self::queue_size(Self::tagged(key, cs).skip(i as int)) == Self::sizes_from(cs, i),
        decreases cs.len() - i,
    {
        if i < cs.len() {
            assert(Self::tagged(key, cs).skip(i as int).drop_first() =~= Self::tagged(key, cs).skip(
                (i + 1) as int,
            ));
            Self::lemma_queue_size_tagged(key, cs, i + 1);
        } else {
            assert(Self::tagged(key, cs).skip(i as int) =~= seq![]);
        }
    }

    /// One step of the walk removes exactly one element from what is waiting.
    proof fn lemma_step_size(q: Seq<(Seq<char>, Element<T>)>, key: Seq<char>)
        requires
            q.len() > 0,
        ensures
            Self::queue_size(q.drop_first() + Self::tagged(key, q[0].1.spec_children())) + 1
                == Self::queue_size(q),
    {
        let cs = q[0].1.spec_children();
        Self::lemma_queue_size_concat(q.drop_first(), Self::tagged(key, cs));
        Self::lemma_queue_size_tagged(key, cs, 0);
        assert(Self::tagged(key, cs).skip(0) =~= Self::tagged(key, cs));
    }

    /// All `(full key, value)` pairs below and including `self`, in level order.
    pub open spec fn all_child_values(self) -> Seq<(Seq<char>, T)> {
        Self::walk(seq![(Seq::<char>::empty(), self)])
    }

    /// The pairs that the elements of `q` contribute themselves, in order,
    /// each keyed by its parent's full key followed by its own label.
    pub open spec fn emitted_all(q: Seq<(Seq<char>, Element<T>)>) -> Seq<(Seq<char>, T)>
        decreases q.len(),
    {
        if q.len() == 0 {
            seq![]
        } else {
            Self::emitted(q[0].0 + q[0].1.spec_label(), q[0].1) + Self::emitted_all(q.drop_first())
        }
    }

    /// The next generation of `q`: the children of its elements, in order,
    /// each beside the full key of its parent.
    pub open spec fn expand(q: Seq<(Seq<char>, Element<T>)>) -> Seq<(Seq<char>, Element<T>)>
        decreases q.len(),
    {
        if q.len() == 0 {
            seq![]
        } else {
            Self::tagged(q[0].0 + q[0].1.spec_label(), q[0].1.spec_children()) + Self::expand(
                q.drop_first(),
            )
        }
    }

    proof fn lemma_walk_prefix_first(a: Seq<(Seq<char>, Element<T>)>, b: Seq<(Seq<char>, Element<T>)>)
        ensures
            Self::walk(a + b) == Self::emitted_all(a) + Self::walk(b + Self::expand(a)),
        decreases a.len(),
    {
        if a.len() == 0 {
            assert(a + b =~= b);
            assert(b + Self::expand(a) =~= b);
            assert(Self::emitted_all(a) + Self::walk(b) =~= Self::walk(b));
        } else {
            let key = a[0].0 + a[0].1.spec_label();
            let t = Self::tagged(key, a[0].1.spec_children());
            assert((a + b)[0] == a[0]);
            assert((a + b).drop_first() + t =~= a.drop_first() + (b + t));
            Self::lemma_walk_prefix_first(a.drop_first(), b + t);
            assert((b + t) + Self::expand(a.drop_first()) =~= b + Self::expand(a));
            assert(Self::emitted(key, a[0].1) + (Self::emitted_all(a.drop_first()) + Self::walk(
                b + Self::expand(a),
            )) =~= Self::emitted_all(a) + Self::walk(b + Self::expand(a)));
        }
    }

    /// The walk is breadth first: it emits the pairs of every element waiting
    /// in `q` before any pair of the next generation, which it then walks in
    /// the order of their parents and, among siblings, in children order.
    pub proof fn lemma_walk_level_by_level(q: Seq<(Seq<char>, Element<T>)>)
        ensures
            Self::walk(q) == Self::emitted_all(q) + Self::walk(Self::expand(q)),
    {
        Self::lemma_walk_prefix_first(q, seq![]);
        assert(q + seq![] =~= q);
        assert(seq![] + Self::expand(q) =~= Self::expand(q));
    }

    /// Every `(full key, value)` pair of the subtree rooted at `e`, whose parent
    /// has full key `prefix`: one for each `Value` element, keyed by `prefix`
    /// followed by the labels from `e` down to that element (depth first).
    pub open spec fn subtree_values(prefix: Seq<char>, e: Element<T>) -> Seq<(Seq<char>, T)>
        decreases e, 0nat,
    {
        let key = prefix + e.spec_label();
        Self::emitted(key, e) + Self::forest_values(key, e.spec_children(), 0)
    }

    /// The pairs of the subtrees `cs[i..]`, all children of a parent with full key `key`.
    pub open spec fn forest_values(key: Seq<char>, cs: Seq<Element<T>>, i: nat) -> Seq<(Seq<char>, T)>
        decreases cs, cs.len() - i,
    {
        if i >= cs.len() {
            seq![]
        } else {
            Self::subtree_values(key, cs[i as int]) + Self::forest_values(key, cs, i + 1)
        }
    }

    /// The pairs of all subtrees waiting in a walk.
    pub open spec fn queue_values(q: Seq<(Seq<char>, Element<T>)>) -> Seq<(Seq<char>, T)>
        decreases q.len(),
    {
        if q.len() == 0 {
            seq![]
        } else {
            Self::subtree_values(q[0].0, q[0].1) + Self::queue_values(q.drop_first())
        }
    }

    proof fn lemma_queue_values_concat(a: Seq<(Seq<char>, Element<T>)>, b: Seq<(Seq<char>, Element<T>)>)
        ensures
            Self::queue_values(a + b) == Self::queue_values(a) + Self::queue_values(b),
        decreases a.len(),
    {
        if a.len() == 0 {
            assert(a + b =~= b);
            assert(Self::queue_values(a) + Self::queue_values(b) =~= Self::queue_values(b));
        } else {
            assert((a + b).drop_first() =~= a.drop_first() + b);
            Self::lemma_queue_values_concat(a.drop_first(), b);
            assert(Self::subtree_values(a[0].0, a[0].1) + (Self::queue_values(a.drop_first())
                + Self::queue_values(b)) =~= (Self::subtree_values(a[0].0, a[0].1)
                + Self::queue_values(a.drop_first())) + Self::queue_values(b));
        }
    }

    proof fn lemma_queue_values_tagged(key: Seq<char>, cs: Seq<Element<T>>, i: nat)
        requires
            i <= cs.len(),
        ensures
            Self::queue_values(Self::tagged(key, cs).skip(i as int)) == Self::forest_values(key, cs, i),
        decreases cs.len() - i,
    {
        if i < cs.len() {
            assert(Self::tagged(key, cs).skip(i as int).drop_first() =~= Self::tagged(key, cs).skip(
                (i + 1) as int,
            ));
            Self::lemma_queue_values_tagged(key, cs, i + 1);
        } else {
            assert(Self::tagged(key, cs).skip(i as int) =~= seq![]);
        }
    }

    proof fn lemma_walk_permutes(q: Seq<(Seq<char>, Element<T>)>)
        ensures
            Self::walk(q).to_multiset() == Self::queue_values(q).to_multiset(),
        decreases Self::queue_size(q),
    {
        if q.len() > 0 {
            let e = q[0].1;
            let key = q[0].0 + e.spec_label();
            let cs = e.spec_children();
            let rest = q.drop_first() + Self::tagged(key, cs);
            Self::lemma_step_size(q, key);
            Self::lemma_walk_permutes(rest);
            Self::lemma_queue_values_concat(q.drop_first(), Self::tagged(key, cs));
            Self::lemma_queue_values_tagged(key, cs, 0);
            assert(Self::tagged(key, cs).skip(0) =~= Self::tagged(key, cs));
            let em = Self::emitted(key, e);
            let fv = Self::forest_values(key, cs, 0);
            let qr = Self::queue_values(q.drop_first());
            lemma_multiset_commutative(em, Self::walk(rest));
            lemma_multiset_commutative(qr, fv);
            lemma_multiset_commutative(em, fv);
            lemma_multiset_commutative(em + fv, qr);
            assert(Self::walk(q).to_multiset() =~= Self::queue_values(q).to_multiset());
        }
    }

    /// The level-order collection holds exactly the pairs of the subtree: one
    /// per `Value` element below and including `e`, none for `Node` or `Base`
    /// elements, each keyed by the labels from `e` down to it; only the order
    /// differs from a depth-first listing.
    pub proof fn lemma_collect_is_complete(e: Element<T>)
        ensures
            e.all_child_values().to_multiset() == Self::subtree_values(Seq::empty(), e).to_multiset(),
    {
        let q = seq![(Seq::<char>::empty(), e)];
        Self::lemma_walk_permutes(q);
        assert(q.drop_first() =~= seq![]);
        assert(Self::queue_values(q.drop_first()) =~= seq![]);
        assert(Self::subtree_values(Seq::empty(), e) + seq![] =~= Self::subtree_values(
            Seq::empty(),
            e,
        ));
        assert(Self::queue_values(q) =~= Self::subtree_values(Seq::empty(), e));
    }

    /// What is waiting in the executable walk from position `head` on, with
    /// each parent index resolved to the parent's full key.
    pub open spec fn pending(
        labels: Seq<String>,
        queue: Seq<(usize, &Element<T>)>,
        head: int,
    ) -> Seq<(Seq<char>, Element<T>)> {
        queue.skip(head).map_values(|p: (usize, &Element<T>)| (labels[p.0 as int]@, *p.1))
    }

    /// The pairs collected so far, as keys and values.
    pub open spec fn entries_view(r: Seq<(String, &T)>) -> Seq<(Seq<char>, T)> {
        r.map_values(|p: (String, &T)| (p.0@, *p.1))
    }

    pub fn label(&self) -> (r: &str)
        ensures
            r@ == self.spec_label(),
    {
        match self {
            Element::Value { label, .. } => label.as_str(),
            Element::Node { label, .. } => label.as_str(),
            Element::Base { label, .. } => label.as_str(),
        }
    }

    /// Deletes the first `prefix_len` bytes of the label. The cut must fall on
    /// a character boundary of the label's UTF-8 encoding.
    pub fn remove_label_prefix(&mut self, prefix_len: usize)
        requires
            is_char_boundary(encode_utf8(old(self).spec_label()), prefix_len as int),
        ensures
            encode_utf8(final(self).spec_label()) == encode_utf8(old(self).spec_label()).subrange(
                prefix_len as int,
                encode_utf8(old(self).spec_label()).len() as int,
            ),
            final(self).spec_label() == decode_utf8(
                encode_utf8(old(self).spec_label()).subrange(
                    prefix_len as int,
                    encode_utf8(old(self).spec_label()).len() as int,
                ),
            ),
            *final(self) == old(self).with_label(final(self).spec_label_string()),
    {
        let label = self.label_mut();
        let rest = label.as_str().split_at(prefix_len).1.to_owned();
        proof {
            encode_utf8_decode_utf8(rest@);
        }
        *label = rest;
    }

    /// Puts `prefix` in front of the label.
    pub fn add_label_prefix(&mut self, prefix: &str)
        ensures
            final(self).spec_label() == prefix@ + old(self).spec_label(),
            *final(self) == old(self).with_label(final(self).spec_label_string()),
    {
        let label = self.label_mut();
        let mut joined = prefix.to_owned();
        joined.append(label.as_str());
        *label = joined;
    }

    /// Putting a prefix `p` in front of the label, then deleting as many
    /// bytes as `p` has, gives back the original label: the cut falls on a
    /// character boundary, and the element is otherwise untouched.
    pub proof fn lemma_label_prefix_round_trip(e: Element<T>, p: Seq<char>, added: String, removed: String)
        requires
            added@ == p + e.spec_label(),
            removed@ == decode_utf8(
                encode_utf8(added@).subrange(
                    encode_utf8(p).len() as int,
                    encode_utf8(added@).len() as int,
                ),
            ),
        ensures
            is_char_boundary(encode_utf8(added@), encode_utf8(p).len() as int),
            removed@ == e.spec_label(),
            e.with_label(added).with_label(removed) == e.with_label(removed),
            e.with_label(removed).spec_label() == e.spec_label(),
    {
        lemma_prefix_end_is_boundary(p, e.spec_label());
        lemma_drop_encoded_prefix(p, e.spec_label());
    }

    fn label_mut(&mut self) -> (r: &mut String)
        ensures
            *r == old(self).spec_label_string(),
            *final(self) == old(self).with_label(*final(r)),
    {
        match self {
            Element::Value { label, .. } => label,
            Element::Node { label, .. } => label,
            Element::Base { label, .. } => label,
        }
    }

    pub fn children_mut(&mut self) -> (r: &mut Vec<Element<T>>)
        ensures
            *r == old(self).spec_children_vec(),
            *final(self) == old(self).with_children(*final(r)),
    {
        match self {
            Element::Value { children, .. } => children,
            Element::Node { children, .. } => children,
            Element::Base { children, .. } => children,
        }
    }

    /// Moves the children out, in order, leaving an empty sequence behind.
    fn take_children(&mut self) -> (r: Vec<Element<T>>)
        ensures
            r@ == old(self).spec_children(),
            final(self).spec_children().len() == 0,
            *final(self) == old(self).with_children(final(self).spec_children_vec()),
    {
        let children = self.children_mut();
        let mut taken: Vec<Element<T>> = Vec::new();
        std::mem::swap(children, &mut taken);
        taken
    }

    /// Promotes a `Node` in place into a `Value` holding `value`, keeping its
    /// label and its children in their order.
    pub fn node_to_value(node: &mut Element<T>, value: T)
        requires
            *old(node) is Node,
        ensures
            *final(node) is Value,
            final(node).spec_label() == old(node).spec_label(),
            final(node).spec_children() == old(node).spec_children(),
            final(node).spec_value() == Some(value),
    {
        let children = node.take_children();
        let label = node.label().to_owned();
        *node = Element::Value { label, value, children };
    }

    pub fn value_mut(&mut self) -> (r: Option<&mut T>)
        ensures
            r is None <==> old(self).spec_value() is None,
            r is None ==> *final(self) == *old(self),
            r matches Some(v) ==> old(self).spec_value() == Some(*v) && *final(self)
                == old(self).with_value(*final(v)),
    {
        match self {
            Element::Value { value, .. } => Some(value),
            _ => None,
        }
    }

    pub fn is_node(&self) -> (r: bool)
        ensures
            r == self is Node,
    {
        match self {
            Element::Node { .. } => true,
            _ => false,
        }
    }

    /// Takes the element apart into its label, its value if any, and its children.
    pub fn unpack(self) -> (r: (String, Option<T>, Vec<Element<T>>))
        ensures
            r.0 == self.spec_label_string(),
            r.1 == self.spec_value(),
            r.2@ == self.spec_children(),
    {
        match self {
            Element::Value { label, value, children } => (label, Some(value), children),
            Element::Node { label, children } => (label, None, children),
            Element::Base { label, children } => (label, None, children),
        }
    }

    pub fn children(&self) -> (r: &Vec<Element<T>>)
        ensures
            r@ == self.spec_children(),
    {
        match self {
            Element::Value { children, .. } => children,
            Element::Node { children, .. } => children,
            Element::Base { children, .. } => children,
        }
    }

    pub fn value(&self) -> (r: Option<&T>)
        ensures
            r matches Some(v) ==> self.spec_value() == Some(*v),
            r is None <==> self.spec_value() is None,
    {
        match self {
            Element::Value { value, .. } => Some(value),
            _ => None,
        }
    }

    /// Appends each of `cs` to `queue`, in order, beside the parent index `index`.
    fn enqueue_children<'a>(queue: &mut Vec<(usize, &'a Element<T>)>, index: usize, cs: &'a Vec<Element<T>>)
        ensures
            final(queue)@.len() == old(queue)@.len() + cs@.len(),
            forall|j: int| 0 <= j < old(queue)@.len() ==> final(queue)@[j] == old(queue)@[j],
            forall|j: int|
                0 <= j < cs@.len() ==> #[trigger] final(queue)@[old(queue)@.len() + j] == (
                    index,
                    &cs@[j],
                ),
    {
        let ghost queue0 = queue@;
        let mut k: usize = 0;
        while k < cs.len()
            invariant
                k <= cs.len(),
                queue@.len() == queue0.len() + k,
                forall|j: int| 0 <= j < queue0.len() ==> queue@[j] == queue0[j],
                forall|j: int| 0 <= j < k ==> #[trigger] queue@[queue0.len() + j] == (index, &cs@[j]),
            decreases cs.len() - k,
        {
            queue.push((index, &cs[k]));
            k += 1;
        }
    }

    /// Collects every `(full key, value)` pair of the `Value` elements in the
    /// subtree rooted at `self`, `self` included, in level order. A full key is
    /// the concatenation of the labels from `self` down to the element.
    pub fn collect_all_child_values(&self) -> (r: Vec<(String, &T)>)
        ensures
            Self::entries_view(r@) == self.all_child_values(),
    {
        // full keys of the elements visited so far, by position of visit
        let mut labels: Vec<String> = Vec::new();
        labels.push(self.label().to_owned());
        let mut res: Vec<(String, &T)> = Vec::new();
        match self.value() {
            Some(v) => {
                res.push((self.label().to_owned(), v));
            },
            None => {},
        }
        // elements still to visit, each beside the position of its parent's key
        let mut queue: Vec<(usize, &Element<T>)> = Vec::new();
        Self::enqueue_children(&mut queue, 0, self.children());
        let mut head: usize = 0;
        proof {
            let root = seq![(Seq::<char>::empty(), *self)];
            let key = Seq::<char>::empty() + self.spec_label();
            assert(key =~= self.spec_label());
            assert forall|j: int| 0 <= j < queue.len() implies (#[trigger] queue@[j]).0 < labels.len() by {
                assert(queue@[0 + j] == (0usize, &self.spec_children()[j]));
            }
            assert forall|j: int| 0 <= j < queue.len() implies Self::pending(labels@, queue@, 0)[j]
                == Self::tagged(key, self.spec_children())[j] by {
                assert(queue@[0 + j] == (0usize, &self.spec_children()[j]));
            }
            assert(root.drop_first() + Self::tagged(key, self.spec_children()) =~= Self::pending(
                labels@,
                queue@,
                0,
            ));
            assert(Self::entries_view(res@) =~= Self::emitted(key, *self));
        }
        while head < queue.len()
            invariant
                head <= queue.len(),
                forall|j: int| 0 <= j < queue.len() ==> (#[trigger] queue@[j]).0 < labels.len(),
                Self::entries_view(res@) + Self::walk(Self::pending(labels@, queue@, head as int))
                    == self.all_child_values(),
            decreases Self::queue_size(Self::pending(labels@, queue@, head as int)),
        {
            let ghost q = Self::pending(labels@, queue@, head as int);
            let ghost labels0 = labels@;
            let ghost queue0 = queue@;
            let ghost res0 = res@;
            let (parent, e) = queue[head];
            let mut key = labels[parent].clone();
            key.append(e.label());
            proof {
                assert(q[0] == (labels@[parent as int]@, *e));
            }
            labels.push(key);
            let index = labels.len() - 1;
            match e.value() {
                Some(v) => {
                    res.push((labels[index].clone(), v));
                },
                None => {},
            }
            assert(Self::entries_view(res@) =~= Self::entries_view(res0) + Self::emitted(
                labels@[index as int]@,
                *e,
            ));
            let cs = e.children();
            Self::enqueue_children(&mut queue, index, cs);
            assert forall|j: int| 0 <= j < queue.len() implies (#[trigger] queue@[j]).0 < labels.len() by {
                if j >= queue0.len() {
                    assert(queue@[queue0.len() + (j - queue0.len())] == (index, &cs@[j - queue0.len()]));
                }
            }
            head += 1;
            proof {
                let key = labels@[index as int]@;
                let p1 = Self::pending(labels@, queue@, head as int);
                let p2 = q.drop_first() + Self::tagged(key, cs@);
                assert(p1.len() == p2.len());
                assert forall|j: int| 0 <= j < p1.len() implies p1[j] == p2[j] by {
                    if j < q.len() - 1 {
                        assert(queue@[head + j] == queue0[head + j]);
                        assert(labels@[queue0[head + j].0 as int] == labels0[queue0[head + j].0 as int]);
                    } else {
                        let m = j - (q.len() - 1);
                        assert(queue@[queue0.len() + m] == (index, &cs@[m]));
                    }
                }
                assert(p1 =~= p2);
                Self::lemma_step_size(q, key);
                assert(Self::entries_view(res0) + Self::emitted(key, *e) + Self::walk(p1)
                    =~= Self::entries_view(res0) + Self::walk(q));
            }
        }
        assert(Self::pending(labels@, queue@, head as int) =~= seq![]);
        assert(Self::entries_view(res@) + seq![] =~= Self::entries_view(res@));
        res
    }
}

} // verus!
