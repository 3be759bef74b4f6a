use vstd::prelude::*;

use crate::entry::{
    all_well_formed, lemma_all_well_formed_push, lemma_nodes_of_push, node_of,
    nodes_of, well_formed, Entry, Node,
};

verus! {

/// What the caller saw next while listing the directory it is in.
pub enum Event {
    /// An entry that is not a directory, with its name as text.
    File(String),
    /// A directory entry, with its name as text; the caller lists it next.
    Dir(String),
    /// An entry whose read failed.
    Skipped,
    /// An entry whose name is not valid text.
    BadName,
    /// An entry whose file type could not be determined.
    UnknownType,
    /// The directory could not be listed.
    ListFailed,
    /// The listing of the current directory is over.
    End,
}

/// The model of an event.
pub enum EventModel {
    File(Seq<char>),
    Dir(Seq<char>),
    Skipped,
    BadName,
    UnknownType,
    ListFailed,
    End,
}

/// What the caller does next.
pub enum Step {
    /// Read the next entry of the current listing.
    Next,
    /// List the directory just reported, then go on with the current one.
    Descend,
    /// The scan is over: here is the root.
    Done(Entry),
}

/// The model of a step.
pub enum StepModel {
    Next,
    Descend,
    Done(Node),
}

/// Why a scan stops.
#[derive(Clone, Copy, Debug, PartialEq, Eq, Structural)]
pub enum ScanError {
    /// A directory could not be listed.
    DirectoryRead,
    /// A name is not valid text, or an entry's type is unknown.
    Encoding,
}

impl Event {
    pub open spec fn view(&self) -> EventModel {
        match self {
            Event::File(n) => EventModel::File(n@),
            Event::Dir(n) => EventModel::Dir(n@),
            Event::Skipped => EventModel::Skipped,
            Event::BadName => EventModel::BadName,
            Event::UnknownType => EventModel::UnknownType,
            Event::ListFailed => EventModel::ListFailed,
            Event::End => EventModel::End,
        }
    }
}

/// The model of what a step returns.
pub open spec fn outcome_of(r: Result<Step, ScanError>) -> Result<StepModel, ScanError> {
    match r {
        Ok(Step::Next) => Ok(StepModel::Next),
        Ok(Step::Descend) => Ok(StepModel::Descend),
        Ok(Step::Done(e)) => Ok(StepModel::Done(node_of(e))),
        Err(e) => Err(e),
    }
}

/// The directories being listed, outermost first: each with its name and
/// the children gathered so far.
pub type Stack = Seq<(Seq<char>, Seq<Node>)>;

/// The stack with `n` added to the children of the innermost directory.
pub open spec fn add_child(st: Stack, n: Node) -> Stack {
    st.update(st.len() - 1, (st.last().0, st.last().1.push(n)))
}

/// The stack with `ns` added to the children of the innermost directory.
pub open spec fn add_children(st: Stack, ns: Seq<Node>) -> Stack {
    st.update(st.len() - 1, (st.last().0, st.last().1 + ns))
}

/// One step of a scan: the next stack and what the caller is told.
pub open spec fn next(st: Stack, ev: EventModel) -> (Stack, Result<StepModel, ScanError>) {
    match ev {
        EventModel::File(n) => (
            add_child(st, Node { name: n, is_dir: false, children: Seq::empty() }),
            Ok(StepModel::Next),
        ),
        EventModel::Dir(n) => (st.push((n, Seq::empty())), Ok(StepModel::Descend)),
        EventModel::Skipped => (st, Ok(StepModel::Next)),
        EventModel::BadName => (st, Err(ScanError::Encoding)),
        EventModel::UnknownType => (st, Err(ScanError::Encoding)),
        EventModel::ListFailed => (st, Err(ScanError::DirectoryRead)),
        EventModel::End => {
            let dir = Node { name: st.last().0, is_dir: true, children: st.last().1 };
            let rest = st.drop_last();
            if rest.len() == 0 {
                (rest, Ok(StepModel::Done(dir)))
            } else {
                (add_child(rest, dir), Ok(StepModel::Next))
            }
        },
    }
}

/// The stack after a run of events, each of which tells the caller to go
/// on (`Next` or `Descend`); `None` where one of them does not.
pub open spec fn feed(st: Stack, evs: Seq<EventModel>) -> Option<Stack>
    decreases evs.len(),
{
    if evs.len() == 0 {
        Some(st)
    } else {
        let (st2, r) = next(st, evs[0]);
        if r matches Ok(StepModel::Next) || r matches Ok(StepModel::Descend) {
            feed(st2, evs.subrange(1, evs.len() as int))
        } else {
            None
        }
    }
}

/// The events of a pre-order listing of the nodes `ns`, in order.
pub open spec fn listing(ns: Seq<Node>) -> Seq<EventModel>
    decreases ns, 0int,
{
    if ns.len() == 0 {
        Seq::empty()
    } else {
        listing(ns.subrange(0, ns.len() - 1)) + node_events(ns[ns.len() - 1])
    }
}

/// The events of a pre-order listing of one node: a file is reported; a
/// directory is reported, listed, and closed.
pub open spec fn node_events(n: Node) -> Seq<EventModel>
    decreases n, 1int,
{
    if n.is_dir {
        seq![EventModel::Dir(n.name)] + listing(n.children) + seq![EventModel::End]
    } else {
        seq![EventModel::File(n.name)]
    }
}

/// The stack at the start of a scan of the directory named `name`.
pub open spec fn start(name: Seq<char>) -> Stack {
    seq![(name, Seq::<Node>::empty())]
}

/// The children of every open directory are well formed.
pub open spec fn stack_well_formed(st: Stack) -> bool {
    forall|i: int| 0 <= i < st.len() ==> #[trigger] all_well_formed(st[i].1)
}

struct Frame {
    name: String,
    children: Vec<Entry>,
}

/// The decisions of a depth-first scan. The caller lists directories and
/// reports what it sees, one event at a time; the walker builds the tree.
pub struct Walker {
    open: Vec<Frame>,
}

impl Walker {
    pub closed spec fn view(&self) -> Stack {
        Seq::new(
            self.open@.len(),
            |i: int| (self.open@[i].name@, nodes_of(self.open@[i].children@)),
        )
    }

    /// The invariant kept between steps.
    pub closed spec fn inv(&self) -> bool {
        stack_well_formed(self@)
    }

    /// A walker at the start of a scan of the directory named `root_name`;
    /// the caller lists that directory first.
    pub fn new(root_name: String) -> (w: Walker)
        ensures
            w@ == start(root_name@),
            w.inv(),
    {
        let mut open: Vec<Frame> = Vec::new();
        open.push(Frame { name: root_name, children: Vec::new() });
        let w = Walker { open };
        assert(nodes_of(w.open@[0].children@) =~= Seq::<Node>::empty());
        assert(w@ =~= start(w.open@[0].name@));
        w
    }

    /// Whether the scan is still going on, i.e. a step may be taken.
    pub fn is_active(&self) -> (r: bool)
        ensures
            r == (self@.len() > 0),
    {
        self.open.len() > 0
    }

    proof fn lemma_push(&self, f: Frame, w: Walker)
        requires
            w.open@ == self.open@.push(f),
        ensures
            w@ == self@.push((f.name@, nodes_of(f.children@))),
    {
        assert(w@ =~= self@.push((f.name@, nodes_of(f.children@))));
    }

    proof fn lemma_pop(&self, w: Walker)
        requires
            self.open@.len() > 0,
            w.open@ == self.open@.drop_last(),
        ensures
            w@ == self@.drop_last(),
            self@.last() == (self.open@.last().name@, nodes_of(self.open@.last().children@)),
    {
        assert(w@ =~= self@.drop_last());
    }

    /// Adds `e` to the children of the innermost open directory.
    fn add(&mut self, e: Entry)
        requires
            old(self)@.len() > 0,
            old(self).inv(),
            well_formed(node_of(e)),
        ensures
            final(self)@ == add_child(old(self)@, node_of(e)),
            final(self).inv(),
    {
        let ghost before = *self;
        let ghost st = self@;
        let mut f = self.open.pop().unwrap();
        proof {
            before.lemma_pop(*self);
            lemma_nodes_of_push(f.children@, e);
        }
        let ghost mid = *self;
        f.children.push(e);
        let ghost fv = f;
        self.open.push(f);
        proof {
            mid.lemma_push(fv, *self);
            lemma_all_well_formed_push(st.last().1, node_of(e));
            assert(self@ =~= add_child(st, node_of(e)));
            assert forall|i: int| 0 <= i < self@.len() implies #[trigger] all_well_formed(
                self@[i].1,
            ) by {
                if i == self@.len() - 1 {
                    assert(all_well_formed(st[i].1));
                }
                else {
                    assert(all_well_formed(st[i].1));
                }
            }
        }
    }

    /// Takes one step of the scan on the event `ev`.
    pub fn step(&mut self, ev: Event) -> (r: Result<Step, ScanError>)
        requires
            old(self).inv(),
            old(self)@.len() > 0,
        ensures
            (final(self)@, outcome_of(r)) == next(old(self)@, ev@),
            final(self).inv(),
            r matches Ok(Step::Done(e)) ==> well_formed(node_of(e)),
    {
        match ev {
            Event::File(name) => {
                let e = Entry::file(name);
                self.add(e);
                Ok(Step::Next)
            },
            Event::Dir(name) => {
                let ghost before = *self;
                let f = Frame { name, children: Vec::new() };
                let ghost fv = f;
                self.open.push(f);
                proof {
                    before.lemma_push(fv, *self);
                    assert(nodes_of(fv.children@) =~= Seq::<Node>::empty());
                    assert(all_well_formed(self@[self@.len() - 1].1));
                    assert forall|i: int| 0 <= i < self@.len() implies #[trigger] all_well_formed(
                        self@[i].1,
                    ) by {
                        if i < self@.len() - 1 {
                            assert(self@[i] == before@[i]);
                        }
                    }
                }
                Ok(Step::Descend)
            },
            Event::Skipped => Ok(Step::Next),
            Event::BadName => Err(ScanError::Encoding),
            Event::UnknownType => Err(ScanError::Encoding),
            Event::ListFailed => Err(ScanError::DirectoryRead),
            Event::End => {
                let ghost before = *self;
                let f = self.open.pop().unwrap();
                proof {
                    before.lemma_pop(*self);
                }
                let dir = Entry { name: f.name, is_dir: true, children: f.children };
                proof {
                    let top = before@.last();
                    assert(node_of(dir) == (Node { name: top.0, is_dir: true, children: top.1 }));
                    assert(all_well_formed(before@[before@.len() - 1].1));
                    assert forall|i: int| 0 <= i < self@.len() implies #[trigger] all_well_formed(
                        self@[i].1,
                    ) by {
                        assert(self@[i] == before@[i]);
                    }
                }
                if self.open.len() == 0 {
                    Ok(Step::Done(dir))
                } else {
                    self.add(dir);
                    Ok(Step::Next)
                }
            },
        }
    }
}

} // verus!
