//! Chunks: the text of one translatable block, its fragments joined by the
//! reserved separator, and the two queues that carry chunks to and from
//! translation.
use std::collections::VecDeque;
use vstd::prelude::*;
use crate::chunk::fragment::texts;

pub mod fragment;
pub mod tree;
pub mod walk;
pub mod markdown;
pub mod laws;
pub mod pandoc_ast;

verus! {

/// The reserved separator between the fragments of a chunk.
pub const TOK_SEP: char = '\u{10459}';

/// Which queue a chunk belongs to.
#[derive(Debug, Clone, Copy, PartialEq, Eq)]
pub enum TaskType {
    /// Blocks of the document body.
    Main,
    /// Blocks of footnote bodies.
    Side,
}

/// Why a document tree could not be walked to the end.
#[derive(Debug, Clone, Copy, PartialEq, Eq)]
pub enum ChunkError {
    /// The tree holds an element that is not supported.
    Unsupported,
    /// A queue ran out of chunks before the walk was over.
    Exhausted,
    /// A chunk has another number of fragments than its block has text
    /// leaves.
    Mismatch,
}

/// The two chunk queues, each in document order.
#[derive(Debug, Clone)]
pub struct Tasks {
    pub main: VecDeque<String>,
    pub sides: VecDeque<String>,
}

/// Mathematical model of [`Tasks`]: the chunks of each queue, front first.
#[verifier::ext_equal]
pub struct TasksView {
    pub main: Seq<Seq<char>>,
    pub sides: Seq<Seq<char>>,
}

impl TasksView {
    /// Two empty queues.
    pub open spec fn empty() -> TasksView {
        TasksView { main: Seq::empty(), sides: Seq::empty() }
    }

    /// The queue that `task_type` names.
    pub open spec fn queue(self, task_type: TaskType) -> Seq<Seq<char>> {
        match task_type {
            TaskType::Main => self.main,
            TaskType::Side => self.sides,
        }
    }

    /// The queues after `chunk` joined the back of one of them.
    pub open spec fn added(self, chunk: Seq<char>, task_type: TaskType) -> TasksView {
        match task_type {
            TaskType::Main => TasksView { main: self.main.push(chunk), sides: self.sides },
            TaskType::Side => TasksView { main: self.main, sides: self.sides.push(chunk) },
        }
    }

    /// The queues after `chunk` joined the front of one of them.
    pub open spec fn added_front(self, chunk: Seq<char>, task_type: TaskType) -> TasksView {
        match task_type {
            TaskType::Main => TasksView { main: seq![chunk] + self.main, sides: self.sides },
            TaskType::Side => TasksView { main: self.main, sides: seq![chunk] + self.sides },
        }
    }

    /// The queues after the front chunk of one of them left.
    pub open spec fn collected(self, task_type: TaskType) -> TasksView {
        match task_type {
            TaskType::Main => TasksView { main: self.main.drop_first(), sides: self.sides },
            TaskType::Side => TasksView { main: self.main, sides: self.sides.drop_first() },
        }
    }

    /// Each queue of `self` followed by the same queue of `more`.
    pub open spec fn concat(self, more: TasksView) -> TasksView {
        TasksView { main: self.main + more.main, sides: self.sides + more.sides }
    }
}

impl View for Tasks {
    type V = TasksView;

    open spec fn view(&self) -> TasksView {
        TasksView { main: texts(self.main@), sides: texts(self.sides@) }
    }
}

/// A document that gives its translatable text out as chunks and takes
/// translated chunks back in.
pub trait AST: View {
    /// What [`AST::to_mipcs`] gives for this document.
    spec fn mipcs(&self) -> Result<TasksView, ChunkError>;

    /// The document that [`AST::apply_mipcs`] turns this one into when it is
    /// handed `mipcs`, or the error it ends with.
    spec fn applied(&self, mipcs: TasksView) -> Result<Self::V, ChunkError>;

    /// Extracts the chunks of the document into the two queues.
    fn to_mipcs(&self) -> (r: Result<Tasks, ChunkError>)
        ensures
            match self.mipcs() {
                Ok(queues) => r is Ok && r->Ok_0@ == queues,
                Err(e) => r is Err && r->Err_0 == e,
            },
    ;

    /// Writes the chunks of `mipcs` back into the document.
    fn apply_mipcs(&mut self, mipcs: Tasks) -> (r: Result<(), ChunkError>)
        ensures
            match old(self).applied(mipcs@) {
                Ok(document) => r is Ok && final(self)@ == document,
                Err(e) => r == Err::<(), ChunkError>(e),
            },
    ;
}

impl Tasks {
    /// Two empty queues.
    pub fn new() -> (tasks: Self)
        ensures
            tasks@ == TasksView::empty(),
    {
        let tasks = Tasks { main: VecDeque::new(), sides: VecDeque::new() };
        assert(tasks@.main =~= Seq::empty());
        assert(tasks@.sides =~= Seq::empty());
        tasks
    }

    /// The queues that hold the chunks of `main` and of `sides`, in order.
    pub fn from_queues(main: Vec<String>, sides: Vec<String>) -> (tasks: Self)
        ensures
            tasks@.main == texts(main@),
            tasks@.sides == texts(sides@),
    {
        let mut tasks = Tasks::new();
        for chunk in it: main
            invariant
                it.seq() == main@,
                tasks@.main == texts(main@).take(it.index() as int),
                tasks@.sides == Seq::<Seq<char>>::empty(),
        {
            tasks.add(chunk, TaskType::Main);
            assert(tasks@.main =~= texts(main@).take(it.index() + 1));
        }
        assert(tasks@.main =~= texts(main@));
        for chunk in it: sides
            invariant
                it.seq() == sides@,
                tasks@.main == texts(main@),
                tasks@.sides == texts(sides@).take(it.index() as int),
        {
            tasks.add(chunk, TaskType::Side);
            assert(tasks@.sides =~= texts(sides@).take(it.index() + 1));
        }
        assert(tasks@.sides =~= texts(sides@));
        tasks
    }

    /// The chunks of the main queue and those of the side queue, in
    /// order.
    pub fn into_queues(self) -> (queues: (Vec<String>, Vec<String>))
        ensures
            texts(queues.0@) == self@.main,
            texts(queues.1@) == self@.sides,
    {
        let mut tasks = self;
        let mut main: Vec<String> = Vec::new();
        while tasks.main.len() > 0
            invariant
                texts(main@) + tasks@.main == self@.main,
                tasks@.sides == self@.sides,
            decreases tasks.main@.len(),
        {
            let ghost before = texts(main@);
            let ghost rest = tasks@.main;
            let chunk = tasks.collect(TaskType::Main);
            main.push(chunk);
            assert(texts(main@) =~= before.push(rest[0]));
            assert(texts(main@) + tasks@.main =~= before + rest);
        }
        assert(texts(main@) =~= self@.main);
        let mut sides: Vec<String> = Vec::new();
        while tasks.sides.len() > 0
            invariant
                texts(sides@) + tasks@.sides == self@.sides,
            decreases tasks.sides@.len(),
        {
            let ghost before = texts(sides@);
            let ghost rest = tasks@.sides;
            let chunk = tasks.collect(TaskType::Side);
            sides.push(chunk);
            assert(texts(sides@) =~= before.push(rest[0]));
            assert(texts(sides@) + tasks@.sides =~= before + rest);
        }
        assert(texts(sides@) =~= self@.sides);
        (main, sides)
    }

    /// Appends `str` at the back of the queue that `task_type` names.
    pub fn add(&mut self, str: String, task_type: TaskType)
        ensures
            final(self)@ == old(self)@.added(str@, task_type),
    {
        match task_type {
            TaskType::Main => {
                self.main.push_back(str);
                assert(self@.main =~= old(self)@.main.push(str@));
            },
            TaskType::Side => {
                self.sides.push_back(str);
                assert(self@.sides =~= old(self)@.sides.push(str@));
            },
        }
    }

    /// Takes the front chunk off the queue that `task_type` names.
    pub fn collect(&mut self, task_type: TaskType) -> (chunk: String)
        requires
            old(self)@.queue(task_type).len() > 0,
        ensures
            chunk@ == old(self)@.queue(task_type)[0],
            final(self)@ == old(self)@.collected(task_type),
    {
        match task_type {
            TaskType::Main => {
                let chunk = self.main.pop_front().unwrap();
                assert(self@.main =~= old(self)@.main.drop_first());
                chunk
            },
            TaskType::Side => {
                let chunk = self.sides.pop_front().unwrap();
                assert(self@.sides =~= old(self)@.sides.drop_first());
                chunk
            },
        }
    }
}

} // verus!
