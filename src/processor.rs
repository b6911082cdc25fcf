//! Rewriting semantic trees with transforms registered by tag name.
use vstd::prelude::*;

use crate::tree::{Attrs, Tree};

verus! {

/// Rewrites semantic trees by tag name, with a table of transforms.
pub struct Processor<F> {
    transforms: Vec<(String, F)>,
}

/// The table that a list of registrations builds: a later registration of a
/// name replaces an earlier one.
pub open spec fn table_of<F>(entries: Seq<(String, F)>) -> Map<Seq<char>, F>
    decreases entries.len(),
{
    if entries.len() == 0 {
        Map::empty()
    } else {
        table_of(entries.drop_last()).insert(entries.last().0@, entries.last().1)
    }
}

impl<F: Fn(Attrs, Vec<Tree>) -> Tree> Processor<F> {
    /// The transform registered for each tag name.
    pub closed spec fn table(&self) -> Map<Seq<char>, F> {
        table_of(self.transforms@)
    }

    /// Every registered transform accepts every argument.
    pub open spec fn accepts_all(&self) -> bool {
        forall|name: Seq<char>, attrs: Attrs, children: Vec<Tree>|
            self.table().contains_key(name) ==> #[trigger] call_requires(
                self.table()[name],
                (attrs, children),
            )
    }

    /// `r` is a result of processing `t`, with at most `n` nested
    /// re-expansions: children first, then the transform registered for the
    /// tag, whose output is processed again.
    pub open spec fn processed(&self, t: Tree, r: Tree, n: nat) -> bool
        decreases n, t,
    {
        match t {
            Tree::Text(_) => r == t,
            Tree::Inner { tag_name, attrs, children } => {
                if self.table().contains_key(tag_name@) {
                    &&& n > 0
                    &&& exists|v: Vec<Tree>, out: Tree|
                        {
                            &&& v@.len() == children@.len()
                            &&& forall|i: int|
                                0 <= i < children@.len() ==> self.processed(
                                    #[trigger] children@[i],
                                    v@[i],
                                    n,
                                )
                            &&& call_ensures(self.table()[tag_name@], (attrs, v), out)
                            &&& self.processed(out, r, (n - 1) as nat)
                        }
                } else {
                    &&& r matches Tree::Inner { tag_name: t2, attrs: a2, children: c2 }
                    &&& t2 == tag_name
                    &&& a2 == attrs
                    &&& c2@.len() == children@.len()
                    &&& forall|i: int|
                        0 <= i < children@.len() ==> self.processed(
                            #[trigger] children@[i],
                            c2@[i],
                            n,
                        )
                }
            },
        }
    }

    /// Processing `t` ends within `n` nested re-expansions, whatever the
    /// transforms return.
    pub open spec fn halts(&self, t: Tree, n: nat) -> bool
        decreases n, t,
    {
        match t {
            Tree::Text(_) => true,
            Tree::Inner { tag_name, attrs, children } => {
                &&& forall|i: int| 0 <= i < children@.len() ==> self.halts(#[trigger] children@[i], n)
                &&& self.table().contains_key(tag_name@) ==> {
                    &&& n > 0
                    &&& forall|v: Vec<Tree>, out: Tree|
                        {
                            &&& v@.len() == children@.len()
                            &&& forall|i: int|
                                0 <= i < children@.len() ==> self.processed(
                                    #[trigger] children@[i],
                                    v@[i],
                                    n,
                                )
                            &&& #[trigger] call_ensures(self.table()[tag_name@], (attrs, v), out)
                        } ==> self.halts(out, (n - 1) as nat)
                }
            },
        }
    }

    /// A processor with no transforms.
    pub fn new() -> (r: Processor<F>)
        ensures
            r.table() == Map::<Seq<char>, F>::empty(),
    {
        Processor { transforms: Vec::new() }
    }

    /// Registers `transform` for elements tagged `name`, in place of any
    /// earlier one.
    pub fn add_transform(&mut self, name: &str, transform: F)
        ensures
            final(self).table() == old(self).table().insert(name@, transform),
    {
        let entry = (name.to_owned(), transform);
        self.transforms.push(entry);
        proof {
            assert(self.transforms@.drop_last() =~= old(self).transforms@);
        }
    }

    /// The transform registered for `name`, if any.
    fn find(&self, name: &String) -> (r: Option<&F>)
        ensures
            match r {
                Some(f) => self.table().contains_key(name@) && self.table()[name@] == *f,
                None => !self.table().contains_key(name@),
            },
    {
        let ghost entries = self.transforms@;
        let mut i = self.transforms.len();
        proof {
            assert(entries.take(i as int) =~= entries);
        }
        while i > 0
            invariant
                i <= entries.len(),
                entries == self.transforms@,
                table_of(entries).contains_key(name@) == table_of(entries.take(i as int)).contains_key(name@),
                table_of(entries).contains_key(name@) ==> table_of(entries)[name@] == table_of(entries.take(i as int))[name@],
            decreases i,
        {
            i = i - 1;
            proof {
                assert(entries.take(i + 1).drop_last() =~= entries.take(i as int));
                assert(entries.take(i + 1).last() == entries[i as int]);
            }
            if self.transforms[i].0 == *name {
                return Some(&self.transforms[i].1);
            }
        }
        proof {
            assert(entries.take(0) =~= Seq::<(String, F)>::empty());
        }
        None
    }

    /// Processes `tree`: each element's children first, then the transform
    /// registered for its tag, if any, whose output is processed again.
    /// Nothing bounds these re-expansions: the caller vouches that they end.
    pub fn process(&self, tree: Tree) -> (r: Tree)
        requires
            self.accepts_all(),
            exists|n: nat| self.halts(tree, n),
        ensures
            exists|n: nat| self.processed(tree, r, n),
    {
        let ghost n = choose|n: nat| self.halts(tree, n);
        self.process_within(tree, Ghost(n))
    }

    fn process_within(&self, tree: Tree, Ghost(n): Ghost<nat>) -> (r: Tree)
        requires
            self.accepts_all(),
            self.halts(tree, n),
        ensures
            self.processed(tree, r, n),
        decreases n, tree,
    {
        let ghost t = tree;
        match tree {
            Tree::Text(_) => tree,
            Tree::Inner { tag_name, attrs, mut children } => {
                // The children are moved out in order: reversed onto `rest`,
                // then popped from it.
                let ghost orig = children@;
                let len = children.len();
                let mut rest: Vec<Tree> = Vec::new();
                while children.len() > 0
                    invariant
                        rest@.len() + children@.len() == len,
                        len == orig.len(),
                        children@ == orig.take(children@.len() as int),
                        forall|j: int| 0 <= j < rest@.len() ==> rest@[j] == orig[len - 1 - j],
                    decreases children@.len(),
                {
                    let c = children.pop().unwrap();
                    rest.push(c);
                }
                let mut done: Vec<Tree> = Vec::new();
                while rest.len() > 0
                    invariant
                        t == tree,
                        t == (Tree::Inner { tag_name, attrs, children: t->Inner_children }),
                        orig == t->Inner_children@,
                        len == orig.len(),
                        rest@.len() + done@.len() == len,
                        forall|j: int| 0 <= j < rest@.len() ==> rest@[j] == orig[len - 1 - j],
                        forall|j: int| 0 <= j < done@.len() ==> self.processed(orig[j], #[trigger] done@[j], n),
                        self.accepts_all(),
                        self.halts(t, n),
                    decreases rest@.len(),
                {
                    let c = rest.pop().unwrap();
                    let ghost k = done@.len() as int;
                    proof {
                        assert(c == orig[k]);
                        assert(decreases_to!(t => t->Inner_children));
                        assert(decreases_to!(t->Inner_children => t->Inner_children@));
                        assert(decreases_to!(t->Inner_children@ => t->Inner_children@[k]));
                        assert(decreases_to!(t => c));
                    }
                    let p = self.process_within(c, Ghost(n));
                    done.push(p);
                }
                match self.find(&tag_name) {
                    Some(f) => {
                        let out = f(attrs, done);
                        self.process_within(out, Ghost((n - 1) as nat))
                    },
                    None => Tree::Inner { tag_name, attrs, children: done },
                }
            },
        }
    }

    /// An element whose tag has a transform becomes the transform's output
    /// on its processed children, and that output is processed again, so a
    /// tag in the output is expanded in turn.
    pub proof fn lemma_registered_tag_expanded(
        &self,
        tag_name: String,
        attrs: Attrs,
        children: Vec<Tree>,
        r: Tree,
        n: nat,
    )
        requires
            self.table().contains_key(tag_name@),
            self.processed(Tree::Inner { tag_name, attrs, children }, r, n),
        ensures
            n > 0,
            exists|v: Vec<Tree>, out: Tree|
                {
                    &&& v@.len() == children@.len()
                    &&& forall|i: int|
                        0 <= i < children@.len() ==> self.processed(#[trigger] children@[i], v@[i], n)
                    &&& call_ensures(self.table()[tag_name@], (attrs, v), out)
                    &&& self.processed(out, r, (n - 1) as nat)
                },
    {
    }

    /// An element whose tag has no transform keeps its tag and attributes,
    /// and its children are processed in place.
    pub proof fn lemma_unregistered_tag_kept(
        &self,
        tag_name: String,
        attrs: Attrs,
        children: Vec<Tree>,
        r: Tree,
        n: nat,
    )
        requires
            !self.table().contains_key(tag_name@),
            self.processed(Tree::Inner { tag_name, attrs, children }, r, n),
        ensures
            r is Inner,
            r->Inner_tag_name == tag_name,
            r->Inner_attrs == attrs,
            r->Inner_children@.len() == children@.len(),
            forall|i: int|
                0 <= i < children@.len() ==> self.processed(
                    #[trigger] children@[i],
                    r->Inner_children@[i],
                    n,
                ),
    {
    }

    /// Text is never changed.
    pub proof fn lemma_text_unchanged(&self, t: Tree, r: Tree, n: nat)
        requires
            t is Text,
            self.processed(t, r, n),
        ensures
            r == t,
    {
    }

}

} // verus!
