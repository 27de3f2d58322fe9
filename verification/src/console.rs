use vstd::prelude::*;
use std::collections::VecDeque;
use crate::commands_processor::{CommandOutcome, CommandsProcessor, command_effect, completion_ok, config_matches, queue_matches};
use crate::commands_queue::string_views;
use crate::config_value::ConfigValue;

verus! {

/// Lines of output the console keeps.
pub const LINES_BUFFER_LEN: usize = 128;

/// Entered lines the console remembers.
pub const HISTORY_BUFFER_LEN: usize = 32;

/// Keys the console reacts to.
#[derive(Copy, Clone, PartialEq, Eq, Structural)]
pub enum ConsoleKey {
    Return,
    Backspace,
    Up,
    Down,
    Tab,
    Other,
}

/// Removes the last character of a string, if any.
#[verifier::external_body]
fn string_pop(s: &mut String)
    ensures
        final(s)@ == if old(s)@.len() > 0 { old(s)@.drop_last() } else { old(s)@ },
{
    s.pop();
}

/// The drop-down console: output lines, the line being typed and the history of entered lines.
pub struct Console {
    is_active: bool,
    lines: VecDeque<String>,
    input_history: VecDeque<String>,
    current_history_index: usize,
    input_line: String,
}

/// `line` appended to a buffer that keeps at most `cap` lines (the oldest goes first).
pub open spec fn push_capped(buffer: Seq<Seq<char>>, line: Seq<char>, cap: int) -> Seq<Seq<char>> {
    if buffer.len() >= cap { buffer.drop_first().push(line) } else { buffer.push(line) }
}

/// The output buffer after adding `texts` one after another.
pub open spec fn push_all_capped(buffer: Seq<Seq<char>>, texts: Seq<Seq<char>>, cap: int) -> Seq<Seq<char>>
    decreases texts.len(),
{
    if texts.len() == 0 {
        buffer
    } else {
        push_capped(push_all_capped(buffer, texts.drop_last(), cap), texts.last(), cap)
    }
}

/// How many of `total` lines a buffer of `cap` lines cannot keep: the oldest ones.
pub open spec fn lines_dropped(total: int, cap: int) -> int {
    if total > cap {
        total - cap
    } else {
        0
    }
}

/// A buffer that keeps at most `cap` lines holds, after lines are added one after another, the
/// most recent `cap` of all its lines, oldest first: of what it held followed by what was added,
/// only the oldest lines beyond `cap` are gone.
pub proof fn lemma_buffer_keeps_most_recent(buffer: Seq<Seq<char>>, texts: Seq<Seq<char>>, cap: int)
    requires
        1 <= cap,
        buffer.len() <= cap,
    ensures
        push_all_capped(buffer, texts, cap) == (buffer + texts).skip(
            lines_dropped(buffer.len() + texts.len() as int, cap),
        ),
    decreases texts.len(),
{
    if texts.len() == 0 {
        assert((buffer + texts).skip(0) =~= buffer);
    } else {
        let rest = texts.drop_last();
        lemma_buffer_keeps_most_recent(buffer, rest, cap);
        let all = buffer + texts;
        let before = (buffer + rest).skip(lines_dropped(buffer.len() + rest.len() as int, cap));
        assert(buffer + rest =~= all.drop_last());
        if before.len() >= cap {
            assert(before.drop_first().push(texts.last()) =~= all.skip(lines_dropped(buffer.len() + texts.len() as int, cap)));
        } else {
            assert(before.push(texts.last()) =~= all.skip(lines_dropped(buffer.len() + texts.len() as int, cap)));
        }
    }
}

/// Adding a line to a buffer of at most `cap` lines keeps the most recent `cap` lines in order:
/// the new line comes last, the line that was last comes right before it, and a full buffer loses
/// only its oldest line.
pub proof fn lemma_push_keeps_most_recent(buffer: Seq<Seq<char>>, line: Seq<char>, cap: int)
    requires
        1 <= cap,
        buffer.len() <= cap,
    ensures
        push_capped(buffer, line, cap) == buffer.push(line).skip(lines_dropped(buffer.len() + 1int, cap)),
        push_capped(buffer, line, cap).len() <= cap,
        push_capped(buffer, line, cap).last() == line,
        cap >= 2 && buffer.len() > 0 ==> push_capped(buffer, line, cap)[push_capped(buffer, line, cap).len() - 2]
            == buffer.last(),
        buffer.len() == cap ==> push_capped(buffer, line, cap) == buffer.subrange(1, cap).push(line),
{
    lemma_buffer_keeps_most_recent(buffer, seq![line], cap);
    assert(push_all_capped(buffer, seq![line], cap) == push_capped(
        push_all_capped(buffer, seq![line].drop_last(), cap),
        line,
        cap,
    ));
    assert(seq![line].drop_last() =~= Seq::<Seq<char>>::empty());
    assert(buffer + seq![line] =~= buffer.push(line));
}

impl Console {
    pub closed spec fn active(self) -> bool {
        self.is_active
    }

    /// Output lines, oldest first.
    pub closed spec fn lines_view(self) -> Seq<Seq<char>> {
        string_views(self.lines@)
    }

    /// Entered lines, oldest first.
    pub closed spec fn history_view(self) -> Seq<Seq<char>> {
        string_views(self.input_history@)
    }

    pub closed spec fn history_index(self) -> usize {
        self.current_history_index
    }

    /// The line being typed.
    pub closed spec fn input_view(self) -> Seq<char> {
        self.input_line@
    }

    pub fn new() -> (r: Console)
        ensures
            !r.active(),
            r.lines_view().len() == 0,
            r.history_view().len() == 0,
            r.history_index() == 0,
            r.input_view().len() == 0,
    {
        let r = Console {
            is_active: false,
            lines: VecDeque::with_capacity(LINES_BUFFER_LEN),
            input_history: VecDeque::with_capacity(HISTORY_BUFFER_LEN),
            current_history_index: 0,
            input_line: String::new(),
        };
        assert(r.lines_view() =~= seq![]);
        assert(r.history_view() =~= seq![]);
        r
    }

    /// Adds an output line; the oldest goes when the buffer is full.
    pub fn add_text(&mut self, text: String)
        ensures
            final(self).lines_view() == push_capped(old(self).lines_view(), text@, LINES_BUFFER_LEN as int),
            final(self).history_view() == old(self).history_view(),
            final(self).history_index() == old(self).history_index(),
            final(self).input_view() == old(self).input_view(),
            final(self).active() == old(self).active(),
    {
        let ghost before = self.lines@;
        if self.lines.len() >= LINES_BUFFER_LEN {
            self.lines.pop_front();
        }
        self.lines.push_back(text);
        proof {
            if before.len() >= LINES_BUFFER_LEN {
                assert(string_views(self.lines@) =~= string_views(before).drop_first().push(text@));
            } else {
                assert(string_views(self.lines@) =~= string_views(before).push(text@));
            }
        }
    }

    pub fn toggle(&mut self)
        ensures
            final(self).active() == !old(self).active(),
            final(self).lines_view() == old(self).lines_view(),
            final(self).history_view() == old(self).history_view(),
            final(self).history_index() == old(self).history_index(),
            final(self).input_view() == old(self).input_view(),
    {
        self.is_active = !self.is_active;
    }

    pub fn is_active(&self) -> (r: bool)
        ensures
            r == self.active(),
    {
        self.is_active
    }

    /// Typed text goes to the end of the input line.
    pub fn process_text_input(&mut self, text: &str)
        ensures
            final(self).input_view() == old(self).input_view() + text@,
            final(self).lines_view() == old(self).lines_view(),
            final(self).history_view() == old(self).history_view(),
            final(self).history_index() == old(self).history_index(),
            final(self).active() == old(self).active(),
    {
        self.input_line.append(text);
    }

    /// The line being typed.
    pub fn get_input_line(&self) -> (r: String)
        ensures
            r@ == self.input_view(),
    {
        self.input_line.clone()
    }

    /// The output lines, oldest first.
    pub fn get_lines(&self) -> (r: Vec<String>)
        ensures
            string_views(r@) == self.lines_view(),
    {
        let mut r: Vec<String> = Vec::new();
        let mut i: usize = 0;
        while i < self.lines.len()
            invariant
                i <= self.lines@.len(),
                string_views(r@) == string_views(self.lines@).take(i as int),
            decreases self.lines@.len() - i,
        {
            let ghost before = r@;
            let line = self.lines[i].clone();
            assert(line@ == self.lines@[i as int]@);
            r.push(line);
            assert(string_views(r@) =~= string_views(before).push(self.lines@[i as int]@));
            assert(string_views(self.lines@).take(i + 1) =~= string_views(self.lines@).take(i as int).push(
                self.lines@[i as int]@,
            ));
            i = i + 1;
        }
        assert(string_views(self.lines@).take(i as int) =~= string_views(self.lines@));
        r
    }
}

} // verus!

verus! {

/// The output lines that show the completions of a command.
pub open spec fn completion_lines(results: Seq<Seq<char>>) -> Seq<Seq<char>> {
    seq!["> "@] + results.map_values(|s: Seq<char>| " "@ + s)
}

/// What a key press does to the console, the commands processor and the configuration, and
/// what it returns (see `Console::process_key_press`).
pub open spec fn key_press_effect(
    c0: Console,
    c1: Console,
    key: ConsoleKey,
    p0: CommandsProcessor,
    p1: CommandsProcessor,
    g0: ConfigValue,
    g1: ConfigValue,
    r: CommandOutcome,
) -> bool {
    &&& (c1.active() == c0.active())
    &&& (key != ConsoleKey::Return ==> r is Done && p1 == p0 && g1
        == g0)
    &&& (key == ConsoleKey::Return ==> {
        let line = c0.input_view();
        let history = push_capped(c0.history_view(), line, HISTORY_BUFFER_LEN as int);
        &&& c1.history_view() == history
        &&& c1.history_index() == history.len()
        &&& c1.input_view().len() == 0
        &&& command_effect(p0, p1, line, g0, g1, r)
        &&& c1.lines_view() == match r {
            CommandOutcome::Message(m) => push_capped(
                push_capped(c0.lines_view(), line, LINES_BUFFER_LEN as int),
                m@,
                LINES_BUFFER_LEN as int,
            ),
            _ => push_capped(c0.lines_view(), line, LINES_BUFFER_LEN as int),
        }
    })
    &&& (key == ConsoleKey::Backspace ==> {
        &&& c1.input_view() == if c0.input_view().len() > 0 {
            c0.input_view().drop_last()
        } else {
            c0.input_view()
        }
        &&& c1.lines_view() == c0.lines_view()
        &&& c1.history_view() == c0.history_view()
        &&& c1.history_index() == c0.history_index()
    })
    &&& (key == ConsoleKey::Up ==> {
        let i = c0.history_index() as int;
        &&& c1.history_index() == if i > 0 { i - 1 } else { i }
        &&& c1.input_view() == if i > 0 && i - 1 < c0.history_view().len() {
            c0.history_view()[i - 1]
        } else {
            c0.input_view()
        }
        &&& c1.lines_view() == c0.lines_view()
        &&& c1.history_view() == c0.history_view()
    })
    &&& (key == ConsoleKey::Down ==> {
        let i = c0.history_index() as int;
        let n = c0.history_view().len();
        &&& c1.history_index() == if i < n { i + 1 } else { i }
        &&& c1.input_view() == if i < n {
            if i + 1 < n { c0.history_view()[i + 1] } else { seq![] }
        } else {
            c0.input_view()
        }
        &&& c1.lines_view() == c0.lines_view()
        &&& c1.history_view() == c0.history_view()
    })
    &&& (key == ConsoleKey::Tab ==> {
        let input = c0.input_view();
        let all = queue_matches(p0.queues(), input) + config_matches(g0, input);
        &&& c1.history_view() == c0.history_view()
        &&& c1.history_index() == c0.history_index()
        &&& exists|results: Seq<Seq<char>>|
            #![trigger completion_ok(all, input, results)]
            completion_ok(all, input, results) && if results.len() == 1 {
                c1.input_view() == results[0] && c1.lines_view() == c0.lines_view()
            } else {
                c1.input_view() == input && c1.lines_view() == push_all_capped(
                    c0.lines_view(),
                    completion_lines(results),
                    LINES_BUFFER_LEN as int,
                )
            }
    })
    &&& (key == ConsoleKey::Other ==> {
        &&& c1.input_view() == c0.input_view()
        &&& c1.lines_view() == c0.lines_view()
        &&& c1.history_view() == c0.history_view()
        &&& c1.history_index() == c0.history_index()
    })
}

impl Console {
    /// Reacts to a key: Return runs the input line (see `CommandsProcessor::process_command`),
    /// Backspace deletes a character, Up and Down walk the history, Tab completes the input.
    /// Returns what running a line came to (`Done` for other keys); a message, a shown
    /// configuration value among them, is already added to the output.
    pub fn process_key_press(
        &mut self,
        key: ConsoleKey,
        processor: &mut CommandsProcessor,
        config: &mut ConfigValue,
    ) -> (r: CommandOutcome)
        ensures
            key_press_effect(*old(self), *final(self), key, *old(processor), *final(processor), *old(config), *final(config), r),
    {
        match key {
            ConsoleKey::Return => self.process_enter(processor, config),
            ConsoleKey::Backspace => {
                string_pop(&mut self.input_line);
                CommandOutcome::Done
            },
            ConsoleKey::Up => {
                if self.current_history_index > 0 {
                    self.current_history_index = self.current_history_index - 1;
                    if self.current_history_index < self.input_history.len() {
                        self.input_line = self.input_history[self.current_history_index].clone();
                    }
                }
                CommandOutcome::Done
            },
            ConsoleKey::Down => {
                if self.current_history_index < self.input_history.len() {
                    self.current_history_index = self.current_history_index + 1;
                    if self.current_history_index < self.input_history.len() {
                        self.input_line = self.input_history[self.current_history_index].clone();
                    } else {
                        self.input_line = String::new();
                    }
                }
                CommandOutcome::Done
            },
            ConsoleKey::Tab => {
                self.complete_input(processor, config);
                CommandOutcome::Done
            },
            ConsoleKey::Other => CommandOutcome::Done,
        }
    }

    fn complete_input(&mut self, processor: &CommandsProcessor, config: &ConfigValue)
        ensures
            final(self).active() == old(self).active(),
            final(self).history_view() == old(self).history_view(),
            final(self).history_index() == old(self).history_index(),
            ({
                let input = old(self).input_view();
                let all = queue_matches(processor.queues(), input) + config_matches(*config, input);
                exists|results: Seq<Seq<char>>|
                    #![trigger completion_ok(all, input, results)]
                    completion_ok(all, input, results) && if results.len() == 1 {
                        final(self).input_view() == results[0] && final(self).lines_view() == old(self).lines_view()
                    } else {
                        final(self).input_view() == input && final(self).lines_view() == push_all_capped(
                            old(self).lines_view(),
                            completion_lines(results),
                            LINES_BUFFER_LEN as int,
                        )
                    }
            }),
    {
        let mut completion_result = processor.complete_command(self.input_line.as_str(), config);
        let ghost results = string_views(completion_result@);
        let ghost input = self.input_line@;
        let ghost all = queue_matches(processor.queues(), input) + config_matches(*config, input);
        assert(completion_ok(all, input, results));
        if completion_result.len() == 1 {
            self.input_line = completion_result.pop().unwrap();
            assert(self.input_line@ == results[0]);
            assert(results.len() == 1);
            assert(self.lines_view() == old(self).lines_view());
            assert(input == old(self).input_view());
            return;
        }
        let ghost start_lines = self.lines_view();
        let prompt = crate::text::chars_of("> ");
        self.add_text(crate::text::string_of(&prompt));
        proof {
            let first = completion_lines(results).take(1);
            assert(first =~= seq!["> "@]);
            assert(first.drop_last() =~= seq![]);
            assert(push_all_capped(start_lines, first.drop_last(), LINES_BUFFER_LEN as int) == start_lines);
        }
        let mut i: usize = 0;
        while i < completion_result.len()
            invariant
                i <= completion_result@.len(),
                results == string_views(completion_result@),
                self.lines_view() == push_all_capped(start_lines, completion_lines(results).take(i + 1), LINES_BUFFER_LEN as int),
                self.input_view() == old(self).input_view(),
                self.active() == old(self).active(),
                self.history_view() == old(self).history_view(),
                self.history_index() == old(self).history_index(),
            decreases completion_result@.len() - i,
        {
            let mut text = crate::text::chars_of(" ");
            let name = crate::text::chars_of(completion_result[i].as_str());
            let ghost space = text@;
            let mut t: usize = 0;
            while t < name.len()
                invariant
                    t <= name@.len(),
                    text@ == space + name@.take(t as int),
                decreases name@.len() - t,
            {
                text.push(name[t]);
                t = t + 1;
                assert(text@ =~= space + name@.take(t as int));
            }
            assert(name@.take(name@.len() as int) =~= name@);
            self.add_text(crate::text::string_of(&text));
            proof {
                let cl = completion_lines(results);
                assert(cl.take(i + 2).drop_last() =~= cl.take(i + 1));
                assert(cl.take(i + 2).last() == cl[i + 1]);
                assert(cl[i + 1] == " "@ + results[i as int]);
            }
            i = i + 1;
        }
        assert(completion_lines(results).take(completion_result@.len() as int + 1) =~= completion_lines(results));
    }

    fn process_enter(&mut self, processor: &mut CommandsProcessor, config: &mut ConfigValue) -> (r: CommandOutcome)
        ensures
            final(self).active() == old(self).active(),
            ({
                let line = old(self).input_view();
                let history = push_capped(old(self).history_view(), line, HISTORY_BUFFER_LEN as int);
                &&& final(self).history_view() == history
                &&& final(self).history_index() == history.len()
                &&& final(self).input_view().len() == 0
                &&& command_effect(*old(processor), *final(processor), line, *old(config), *final(config), r)
                &&& final(self).lines_view() == match r {
                    CommandOutcome::Message(m) => push_capped(
                        push_capped(old(self).lines_view(), line, LINES_BUFFER_LEN as int),
                        m@,
                        LINES_BUFFER_LEN as int,
                    ),
                    _ => push_capped(old(self).lines_view(), line, LINES_BUFFER_LEN as int),
                }
            }),
    {
        let ghost before_history = self.input_history@;
        if self.input_history.len() >= HISTORY_BUFFER_LEN {
            self.input_history.pop_front();
        }
        self.input_history.push_back(self.input_line.clone());
        proof {
            if before_history.len() >= HISTORY_BUFFER_LEN {
                assert(string_views(self.input_history@) =~= string_views(before_history).drop_first().push(self.input_line@));
            } else {
                assert(string_views(self.input_history@) =~= string_views(before_history).push(self.input_line@));
            }
        }
        self.current_history_index = self.input_history.len();
        let outcome = processor.process_command(self.input_line.as_str(), config);
        let line = self.input_line.clone();
        self.add_text(line);
        self.input_line = String::new();
        match outcome {
            CommandOutcome::Message(m) => {
                let copy = m.clone();
                self.add_text(copy);
                CommandOutcome::Message(m)
            },
            other => other,
        }
    }
}

} // verus!
