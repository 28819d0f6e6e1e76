//! A task: one reminder, with its firing policy, owning context and
//! optional notification media. Immutable once created except for the
//! media fields; the random `task_id` is the sole handle used for
//! cancellation.

use vstd::prelude::*;

use crate::clock::ClockType;
use crate::sys;

verus! {

pub type TaskID = String;

pub type TaskContext = String;

/// The name of the built-in context every daemon starts with.
pub open spec fn spec_default_context() -> Seq<char> {
    "default"@
}

/// The built-in default context.
pub fn default_context() -> (r: TaskContext)
    ensures
        r@ == spec_default_context(),
{
    String::from_str("default")
}

/// One reminder.
pub struct Task {
    pub created_at: i64,
    pub description: String,
    pub task_id: TaskID,
    pub clock_type: ClockType,
    pub context: TaskContext,
    pub image_path: Option<String>,
    pub sound_path: Option<String>,
}

/// The mathematical value of a task: every field as a plain value.
pub struct TaskView {
    pub created_at: int,
    pub description: Seq<char>,
    pub task_id: Seq<char>,
    pub clock_type: ClockType,
    pub context: Seq<char>,
    pub image_path: Option<Seq<char>>,
    pub sound_path: Option<Seq<char>>,
}

pub open spec fn view_opt_string(o: Option<String>) -> Option<Seq<char>> {
    match o {
        Some(s) => Some(s@),
        None => None,
    }
}

impl View for Task {
    type V = TaskView;

    open spec fn view(&self) -> TaskView {
        TaskView {
            created_at: self.created_at as int,
            description: self.description@,
            task_id: self.task_id@,
            clock_type: self.clock_type,
            context: self.context@,
            image_path: view_opt_string(self.image_path),
            sound_path: view_opt_string(self.sound_path),
        }
    }
}

fn clone_opt_string(o: &Option<String>) -> (r: Option<String>)
    ensures
        r == *o,
{
    match o {
        Some(s) => Some(s.clone()),
        None => None,
    }
}

impl Clone for Task {
    fn clone(&self) -> (r: Self)
        ensures
            r == *self,
    {
        Task {
            created_at: self.created_at,
            description: self.description.clone(),
            task_id: self.task_id.clone(),
            clock_type: self.clock_type,
            context: self.context.clone(),
            image_path: clone_opt_string(&self.image_path),
            sound_path: clone_opt_string(&self.sound_path),
        }
    }
}

impl Task {
    /// A new task with a fresh random id, stamped with the current time
    /// and tagged with the built-in default context until a manager
    /// re-tags it.
    pub fn new(description: String, clock_type: ClockType) -> (r: Task)
        ensures
            r@.description == description@,
            r@.clock_type == clock_type,
            r@.context == spec_default_context(),
            r@.image_path is None,
            r@.sound_path is None,
            r@.task_id.len() == 21,
    {
        Task {
            created_at: sys::now_unix(),
            description,
            task_id: sys::fresh_task_id(),
            clock_type,
            context: default_context(),
            image_path: None,
            sound_path: None,
        }
    }

    /// The same task, re-tagged to live in `context`.
    pub fn with_context(self, context: TaskContext) -> (r: Task)
        ensures
            r@ == (TaskView { context: context@, ..self@ }),
    {
        Task { context, ..self }
    }

    pub fn add_image(&mut self, image_path: String)
        ensures
            final(self)@ == (TaskView { image_path: Some(image_path@), ..old(self)@ }),
    {
        self.image_path = Some(image_path);
    }

    pub fn add_sound(&mut self, sound_path: String)
        ensures
            final(self)@ == (TaskView { sound_path: Some(sound_path@), ..old(self)@ }),
    {
        self.sound_path = Some(sound_path);
    }

    pub fn get_image(&self) -> (r: Option<&str>)
        ensures
            match r {
                Some(s) => self@.image_path == Some(s@),
                None => self@.image_path is None,
            },
    {
        match &self.image_path {
            Some(s) => Some(s.as_str()),
            None => None,
        }
    }

    pub fn get_sound(&self) -> (r: Option<&str>)
        ensures
            match r {
                Some(s) => self@.sound_path == Some(s@),
                None => self@.sound_path is None,
            },
    {
        match &self.sound_path {
            Some(s) => Some(s.as_str()),
            None => None,
        }
    }
}

} // verus!
