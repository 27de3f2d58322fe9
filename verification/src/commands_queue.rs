use vstd::prelude::*;
use crate::text::{chars_equal, chars_of, has_prefix, starts_with};

verus! {

/// Arguments of one command invocation.
pub type CommandArgs = Vec<String>;

/// The texts held by a sequence of strings.
pub open spec fn string_views(v: Seq<String>) -> Seq<Seq<char>> {
    v.map_values(|s: String| s@)
}

/// Names that start with `start`, in their order.
pub open spec fn names_with_prefix(names: Seq<Seq<char>>, start: Seq<char>) -> Seq<Seq<char>>
    decreases names.len(),
{
    if names.len() == 0 {
        seq![]
    } else {
        let rest = names_with_prefix(names.drop_last(), start);
        if has_prefix(names.last(), start) {
            rest.push(names.last())
        } else {
            rest
        }
    }
}

/// Pending invocations in the order they are run: handler by handler, and for
/// each handler in the order they came.
pub open spec fn run_order(pending: Seq<Seq<Seq<Seq<char>>>>) -> Seq<(int, Seq<Seq<char>>)>
    decreases pending.len(),
{
    if pending.len() == 0 {
        seq![]
    } else {
        run_order(pending.drop_last()) + pending.last().map_values(
            |args: Seq<Seq<char>>| ((pending.len() - 1) as int, args),
        )
    }
}

/// What a command queue offers to the command processor.
pub trait CommandsQueueInterface {
    fn has_handler(&self, command: &str) -> bool;

    fn add_invocation(&mut self, command: &str, args: CommandArgs);

    fn get_commands_started_with(&self, command_start: &str) -> Vec<String>;
}

/// Named commands, and for each the invocations that wait to be run.
pub struct CommandsQueue {
    handlers: Vec<String>,
    // Queue of invocations for each registered command.
    invocations: Vec<Vec<CommandArgs>>,
}

impl CommandsQueue {
    #[verifier::type_invariant]
    spec fn inv(self) -> bool {
        self.invocations@.len() == self.handlers@.len()
    }

    /// Names of the commands, in registration order.
    pub closed spec fn names(self) -> Seq<Seq<char>> {
        string_views(self.handlers@)
    }

    /// Waiting invocations of each command: for each its argument lists.
    pub closed spec fn pending(self) -> Seq<Seq<Seq<Seq<char>>>> {
        self.invocations@.map_values(|inv: Vec<CommandArgs>| inv@.map_values(|a: CommandArgs| string_views(a@)))
    }

    /// A queue for the named commands, with nothing pending.
    pub fn new(handlers: Vec<String>) -> (r: CommandsQueue)
        ensures
            r.names() == string_views(handlers@),
            r.pending().len() == handlers@.len(),
            forall|i: int| 0 <= i < handlers@.len() ==> #[trigger] r.pending()[i].len() == 0,
    {
        let mut invocations: Vec<Vec<CommandArgs>> = Vec::new();
        let mut i: usize = 0;
        while i < handlers.len()
            invariant
                i <= handlers@.len(),
                invocations@.len() == i,
                forall|j: int| 0 <= j < i ==> #[trigger] invocations@[j]@.len() == 0,
            decreases handlers@.len() - i,
        {
            invocations.push(Vec::new());
            i = i + 1;
        }
        CommandsQueue { handlers, invocations }
    }

    fn find_handler(&self, command: &Vec<char>) -> (r: Option<usize>)
        ensures
            match r {
                Some(i) => i < self.names().len() && self.names()[i as int] == command@ && forall|j: int|
                    0 <= j < i ==> #[trigger] self.names()[j] != command@,
                None => !self.names().contains(command@),
            },
    {
        let mut i: usize = 0;
        while i < self.handlers.len()
            invariant
                i <= self.handlers@.len(),
                forall|j: int| 0 <= j < i ==> #[trigger] self.names()[j] != command@,
            decreases self.handlers@.len() - i,
        {
            let name = chars_of(self.handlers[i].as_str());
            if chars_equal(&name, command) {
                return Some(i);
            }
            i = i + 1;
        }
        proof {
            if self.names().contains(command@) {
                let j = choose|j: int| 0 <= j < self.names().len() && self.names()[j] == command@;
                assert(self.names()[j] != command@);
            }
        }
        None
    }

    /// Takes every waiting invocation, in run order, leaving none pending.
    /// The caller runs each invocation with the handler of the returned index.
    pub fn process_commands(&mut self) -> (r: Vec<(usize, CommandArgs)>)
        ensures
            final(self).names() == old(self).names(),
            final(self).pending().len() == old(self).pending().len(),
            forall|i: int| 0 <= i < final(self).pending().len() ==> #[trigger] final(self).pending()[i].len() == 0,
            r@.map_values(|e: (usize, CommandArgs)| (e.0 as int, string_views(e.1@))) == run_order(
                old(self).pending(),
            ),
    {
        proof {
            use_type_invariant(&*self);
        }
        let n = self.handlers.len();
        let mut fresh: Vec<Vec<CommandArgs>> = Vec::new();
        let mut k: usize = 0;
        while k < n
            invariant
                k <= n,
                fresh@.len() == k,
                forall|j: int| 0 <= j < k ==> #[trigger] fresh@[j]@.len() == 0,
            decreases n - k,
        {
            fresh.push(Vec::new());
            k = k + 1;
        }
        let ghost old_pending = self.pending();
        std::mem::swap(&mut self.invocations, &mut fresh);
        let taken = fresh;
        let mut r: Vec<(usize, CommandArgs)> = Vec::new();
        let mut i: usize = 0;
        assert(old_pending.take(0) =~= seq![]);
        while i < n
            invariant
                n == taken@.len(),
                i <= n,
                old_pending == taken@.map_values(|inv: Vec<CommandArgs>| inv@.map_values(|a: CommandArgs| string_views(a@))),
                r@.map_values(|e: (usize, CommandArgs)| (e.0 as int, string_views(e.1@))) == run_order(old_pending.take(i as int)),
            decreases n - i,
        {
            let list = &taken[i];
            let mut j: usize = 0;
            let ghost r_start = r@.map_values(|e: (usize, CommandArgs)| (e.0 as int, string_views(e.1@)));
            while j < list.len()
                invariant
                    i < n,
                    n == taken@.len(),
                    list == &taken@[i as int],
                    j <= list@.len(),
                    old_pending == taken@.map_values(|inv: Vec<CommandArgs>| inv@.map_values(|a: CommandArgs| string_views(a@))),
                    r@.map_values(|e: (usize, CommandArgs)| (e.0 as int, string_views(e.1@))) == r_start + old_pending[i as int].take(
                        j as int,
                    ).map_values(|args: Seq<Seq<char>>| (i as int, args)),
                decreases list@.len() - j,
            {
                let args = list[j].clone();
                proof {
                    assert(string_views(args@) =~= string_views(list@[j as int]@)) by {
                        assert forall|t: int| 0 <= t < args@.len() implies args@[t] == list@[j as int]@[t] by {
                            assert(vstd::pervasive::cloned::<String>(list@[j as int]@[t], args@[t]));
                        }
                    }
                    assert(old_pending[i as int].take(j + 1) =~= old_pending[i as int].take(j as int).push(string_views(list@[j as int]@)));
                }
                let ghost r_before = r@;
                r.push((i, args));
                proof {
                    assert(r@.map_values(|e: (usize, CommandArgs)| (e.0 as int, string_views(e.1@))) =~= r_before.map_values(
                        |e: (usize, CommandArgs)| (e.0 as int, string_views(e.1@)),
                    ).push((i as int, string_views(args@))));
                    assert(old_pending[i as int].take(j + 1).map_values(|args: Seq<Seq<char>>| (i as int, args)) =~= old_pending[i as int].take(
                        j as int,
                    ).map_values(|args: Seq<Seq<char>>| (i as int, args)).push((i as int, string_views(args@))));
                    assert(r@.map_values(|e: (usize, CommandArgs)| (e.0 as int, string_views(e.1@))) =~= r_start + old_pending[i as int].take(
                        j + 1,
                    ).map_values(|args: Seq<Seq<char>>| (i as int, args)));
                }
                j = j + 1;
            }
            proof {
                assert(old_pending[i as int].take(list@.len() as int) =~= old_pending[i as int]);
                assert(old_pending.take(i + 1).drop_last() =~= old_pending.take(i as int));
                assert(old_pending.take(i + 1).last() == old_pending[i as int]);
            }
            i = i + 1;
        }
        assert(old_pending.take(n as int) =~= old_pending);
        r
    }
}

impl CommandsQueueInterface for CommandsQueue {
    fn has_handler(&self, command: &str) -> (r: bool)
        ensures
            r == self.names().contains(command@),
    {
        let c = chars_of(command);
        self.find_handler(&c).is_some()
    }

    fn add_invocation(&mut self, command: &str, args: CommandArgs)
        ensures
            final(self).names() == old(self).names(),
            ({
                let i = old(self).names().index_of_first(command@);
                match i {
                    Some(i) => final(self).pending() == old(self).pending().update(
                        i,
                        old(self).pending()[i].push(string_views(args@)),
                    ),
                    None => final(self).pending() == old(self).pending(),
                }
            }),
    {
        proof {
            use_type_invariant(&*self);
        }
        let c = chars_of(command);
        match self.find_handler(&c) {
            Some(i) => {
                let ghost old_pending = self.pending();
                let ghost old_inv = self.invocations@;
                let mut list = Vec::new();
                std::mem::swap(&mut list, &mut self.invocations[i]);
                list.push(args);
                std::mem::swap(&mut list, &mut self.invocations[i]);
                proof {
                    assert(self.invocations@ =~= old_inv.update(i as int, self.invocations@[i as int]));
                    assert(self.invocations@[i as int]@ == old_inv[i as int]@.push(args));
                    assert(self.invocations@[i as int]@.map_values(|a: CommandArgs| string_views(a@)) =~= old_inv[i as int]@.map_values(
                        |a: CommandArgs| string_views(a@),
                    ).push(string_views(args@)));
                    assert(self.pending() =~= old_pending.update(i as int, old_pending[i as int].push(string_views(args@))));
                    let f = old(self).names().index_of_first(command@);
                    assert(f == Some(i as int)) by {
                        old(self).names().index_of_first_ensures(command@);
                    }
                }
            },
            None => {
                proof {
                    old(self).names().index_of_first_ensures(command@);
                }
            },
        }
    }

    fn get_commands_started_with(&self, command_start: &str) -> (r: Vec<String>)
        ensures
            string_views(r@) == names_with_prefix(self.names(), command_start@),
    {
        let start = chars_of(command_start);
        let mut r: Vec<String> = Vec::new();
        let mut i: usize = 0;
        while i < self.handlers.len()
            invariant
                i <= self.handlers@.len(),
                start@ == command_start@,
                string_views(r@) == names_with_prefix(self.names().take(i as int), command_start@),
            decreases self.handlers@.len() - i,
        {
            let name = chars_of(self.handlers[i].as_str());
            let matched = starts_with(&name, &start) || command_start.is_empty();
            proof {
                assert(self.names().take(i + 1).drop_last() =~= self.names().take(i as int));
                assert(self.names().take(i + 1).last() == name@);
                if command_start@.len() == 0 {
                    assert(name@.take(0) =~= command_start@);
                }
            }
            if matched {
                let copy = self.handlers[i].clone();
                r.push(copy);
                assert(string_views(r@) =~= string_views(r@.drop_last()).push(name@));
            }
            i = i + 1;
        }
        assert(self.names().take(self.handlers@.len() as int) =~= self.names());
        r
    }
}

} // verus!
