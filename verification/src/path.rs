//! Paths that name a container and the scopes nested in it.
use vstd::prelude::*;

verus! {

/// What a [`PathComponent`] denotes.
pub enum ComponentView {
    Persistent(Seq<char>),
    Transient(Option<Seq<char>>),
}

/// One step of a path: a scope that lasts, or one that ends with a request.
#[derive(Debug)]
pub enum PathComponent {
    Persistent(String),
    Transient(Option<String>),
}

impl View for PathComponent {
    type V = ComponentView;

    open spec fn view(&self) -> ComponentView {
        match self {
            PathComponent::Persistent(name) => ComponentView::Persistent(name@),
            PathComponent::Transient(name) => ComponentView::Transient(name.deep_view()),
        }
    }
}

impl DeepView for PathComponent {
    type V = ComponentView;

    open spec fn deep_view(&self) -> ComponentView {
        self@
    }
}

impl ComponentView {
    /// Whether a component may stand directly behind `last`: all may but a
    /// transient one behind a transient one.
    pub open spec fn may_follow(self, last: ComponentView) -> bool {
        !(self is Transient && last is Transient)
    }
}

/// Whether `coms` is a path: it starts with a persistent component, and no
/// transient component follows another.
pub open spec fn is_path(coms: Seq<ComponentView>) -> bool {
    &&& coms.len() >= 1
    &&& coms[0] is Persistent
    &&& forall|i: int| 1 <= i < coms.len() ==> (#[trigger] coms[i]).may_follow(coms[i - 1])
}

impl PathComponent {
    /// Whether this component may stand directly behind `last`.
    pub fn may_follow(&self, last: &PathComponent) -> (r: bool)
        ensures
            r == self@.may_follow(last@),
    {
        match (self, last) {
            (PathComponent::Transient(_), PathComponent::Transient(_)) => false,
            _ => true,
        }
    }
}

/// The components from the root to a scope.
#[derive(Debug)]
pub struct Path {
    coms: Vec<PathComponent>,
}

impl View for Path {
    type V = Seq<ComponentView>;

    closed spec fn view(&self) -> Seq<ComponentView> {
        self.coms.deep_view()
    }
}

impl Path {
    /// Whether the components form a path.
    pub open spec fn wf(&self) -> bool {
        is_path(self@)
    }

    /// The path of the root scope `root`.
    pub fn new(root: String) -> (r: Self)
        ensures
            r@ == seq![ComponentView::Persistent(root@)],
            r.wf(),
    {
        let mut coms: Vec<PathComponent> = Vec::new();
        coms.push(PathComponent::Persistent(root));
        assert(coms.deep_view() =~= seq![ComponentView::Persistent(root@)]);
        Path { coms }
    }

    /// The last component.
    pub fn last(&self) -> (r: &PathComponent)
        requires
            self.wf(),
        ensures
            r@ == self@.last(),
    {
        &self.coms[self.coms.len() - 1]
    }

    /// Appends `com`, which must be allowed behind the last component.
    pub fn push(&mut self, com: PathComponent)
        requires
            old(self).wf(),
            com@.may_follow(old(self)@.last()),
        ensures
            final(self)@ == old(self)@.push(com@),
            final(self).wf(),
    {
        let ghost before = self.coms.deep_view();
        self.coms.push(com);
        proof {
            let after = self.coms.deep_view();
            assert(after =~= before.push(com@));
            assert forall|i: int| 1 <= i < after.len() implies (#[trigger] after[i]).may_follow(
                after[i - 1],
            ) by {
                if i < before.len() {
                    assert(before[i].may_follow(before[i - 1]));
                }
            }
        }
    }

    /// Whether the path is that of a root scope.
    pub fn is_root(&self) -> (r: bool)
        ensures
            r == (self@.len() == 1),
    {
        self.coms.len() == 1
    }

    /// Whether the scope lasts.
    pub fn is_persistent(&self) -> (r: bool)
        requires
            self.wf(),
        ensures
            r == (self@.last() is Persistent),
    {
        match self.last() {
            PathComponent::Persistent(_) => true,
            _ => false,
        }
    }

    /// Whether the scope ends with a request.
    pub fn is_transient(&self) -> (r: bool)
        requires
            self.wf(),
        ensures
            r == (self@.last() is Transient),
    {
        match self.last() {
            PathComponent::Transient(_) => true,
            _ => false,
        }
    }

    /// The number of components.
    pub fn len(&self) -> (r: usize)
        ensures
            r == self@.len(),
    {
        self.coms.len()
    }
}

} // verus!
