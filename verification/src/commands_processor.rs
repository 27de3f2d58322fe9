use vstd::prelude::*;
use crate::commands_queue::{CommandArgs, CommandsQueue, CommandsQueueInterface, names_with_prefix, string_views};
use crate::config_value::{ConfigValue, config_json_text, config_value_text, find_at, lookup, replaced, with_value_at};
use crate::number_text::{
    float_text_finite, float_text_ok, i64_text_value, is_finite_float_text, is_float_text, json_float_text,
    json_float_text_of, parse_i64, parse_u64, u64_text_value,
};
use crate::text::{chars_equal, chars_of, split_at_char, split_pieces, split_words, string_of, views, words};

verus! {

/// Identifies a registered command queue.
pub type QueueId = u64;

/// What processing a command line came to.
pub enum CommandOutcome {
    /// Nothing to report.
    Done,
    /// A message for the user.
    Message(String),
}

/// Routes typed commands to command queues and to the configuration.
pub struct CommandsProcessor {
    commands_queues: Vec<(QueueId, CommandsQueue)>,
    next_id: QueueId,
}

/// Separator of configuration path components.
pub const CONFIG_PATH_SEPARATOR: char = '.';

/// Index of the first queue that has a command named `c`, or -1.
pub open spec fn queue_with_handler(queues: Seq<(QueueId, CommandsQueue)>, c: Seq<char>) -> int
    decreases queues.len(),
{
    if queues.len() == 0 {
        -1
    } else {
        let rest = queue_with_handler(queues.drop_last(), c);
        if rest >= 0 {
            rest
        } else if queues.last().1.names().contains(c) {
            queues.len() - 1
        } else {
            -1
        }
    }
}

/// The queues without those registered under `id`.
pub open spec fn without_queue(queues: Seq<(QueueId, CommandsQueue)>, id: QueueId) -> Seq<(QueueId, CommandsQueue)>
    decreases queues.len(),
{
    if queues.len() == 0 {
        seq![]
    } else {
        let rest = without_queue(queues.drop_last(), id);
        if queues.last().0 == id {
            rest
        } else {
            rest.push(queues.last())
        }
    }
}

/// Command names of all queues that start with `start`, queue by queue.
pub open spec fn queue_matches(queues: Seq<(QueueId, CommandsQueue)>, start: Seq<char>) -> Seq<Seq<char>>
    decreases queues.len(),
{
    if queues.len() == 0 {
        seq![]
    } else {
        queue_matches(queues.drop_last(), start) + names_with_prefix(queues.last().1.names(), start)
    }
}

} // verus!

verus! {

/// Configuration members named `key` with `last` as a prefix, in member order,
/// each written as `lead` followed by its name.
pub open spec fn key_matches(entries: Seq<(String, ConfigValue)>, last: Seq<char>, lead: Seq<char>) -> Seq<Seq<char>>
    decreases entries.len(),
{
    if entries.len() == 0 {
        seq![]
    } else {
        let rest = key_matches(entries.drop_last(), last, lead);
        if crate::text::has_prefix(entries.last().0@, last) {
            rest.push(lead + entries.last().0@)
        } else {
            rest
        }
    }
}

/// Configuration paths that complete `start`: `start` split at the separator, all
/// pieces but the last name an object, and its members starting with the last piece
/// complete it.
pub open spec fn config_matches(config: ConfigValue, start: Seq<char>) -> Seq<Seq<char>> {
    let parts = split_pieces(start, CONFIG_PATH_SEPARATOR);
    let dir = parts.drop_last();
    let last = parts.last();
    let joined = crate::text::join_pieces(dir, CONFIG_PATH_SEPARATOR);
    let lead = if joined.len() > 0 { joined.push(CONFIG_PATH_SEPARATOR) } else { joined };
    match lookup(config, dir) {
        Some(ConfigValue::Object(entries)) => key_matches(entries@, last, lead),
        _ => seq![],
    }
}

/// What completing `start` yields: nothing or the single match; else the common
/// prefix of all matches when it is longer (in UTF-8 bytes) than `start`; else all
/// matches in sorted order.
pub open spec fn completion_ok(all: Seq<Seq<char>>, start: Seq<char>, result: Seq<Seq<char>>) -> bool {
    if all.len() <= 1 {
        result == all
    } else if crate::text::utf8_len(crate::text::common_prefix(all)) > crate::text::utf8_len(start) {
        result == seq![crate::text::common_prefix(all)]
    } else {
        crate::text::lex_sorted(result) && result.to_multiset() == all.to_multiset()
    }
}

impl CommandsProcessor {
    /// The registered queues with their identifiers, in registration order.
    pub closed spec fn queues(self) -> Seq<(QueueId, CommandsQueue)> {
        self.commands_queues@
    }

    /// The identifier the next registered queue gets.
    pub closed spec fn next_queue_id(self) -> QueueId {
        self.next_id
    }

    /// Queue identifiers grow in registration order and stay below the next identifier, so no
    /// two queues share one. Every processor keeps this.
    #[verifier::type_invariant]
    pub closed spec fn ids_fresh(self) -> bool {
        &&& forall|i: int, j: int|
            0 <= i < j < self.commands_queues@.len() ==> #[trigger] self.commands_queues@[i].0
                < #[trigger] self.commands_queues@[j].0
        &&& forall|i: int| 0 <= i < self.commands_queues@.len() ==> #[trigger] self.commands_queues@[i].0 < self.next_id
    }

    pub fn new() -> (r: CommandsProcessor)
        ensures
            r.queues().len() == 0,
            r.next_queue_id() == 0,
            r.ids_fresh(),
    {
        CommandsProcessor { commands_queues: Vec::new(), next_id: 0 }
    }

    /// Registers a queue after those registered before; returns its identifier.
    pub fn register_command_queue(&mut self, queue: CommandsQueue) -> (r: QueueId)
        requires
            old(self).next_queue_id() < u64::MAX,
        ensures
            r == old(self).next_queue_id(),
            final(self).next_queue_id() == r + 1,
            final(self).queues() == old(self).queues().push((r, queue)),
            final(self).ids_fresh(),
    {
        proof {
            use_type_invariant(&*self);
        }
        let id = self.next_id;
        let mut queues = Vec::new();
        std::mem::swap(&mut queues, &mut self.commands_queues);
        queues.push((id, queue));
        self.next_id = id + 1;
        self.commands_queues = queues;
        id
    }

    /// Unregisters the queue with the given identifier.
    pub fn remove_command_queue(&mut self, id: QueueId)
        ensures
            final(self).queues() == without_queue(old(self).queues(), id),
            final(self).next_queue_id() == old(self).next_queue_id(),
            final(self).ids_fresh(),
    {
        proof {
            use_type_invariant(&*self);
        }
        let mut old_queues = Vec::new();
        std::mem::swap(&mut old_queues, &mut self.commands_queues);
        let ghost all = old_queues@;
        // Walk from the back so that the kept queues keep their order.
        let mut kept_reversed: Vec<(QueueId, CommandsQueue)> = Vec::new();
        while old_queues.len() > 0
            invariant
                all.len() >= old_queues@.len(),
                old_queues@ == all.take(old_queues@.len() as int),
                without_queue(all, id) == without_queue(old_queues@, id) + kept_reversed@.reverse(),
            decreases old_queues@.len(),
        {
            let ghost before = old_queues@;
            let ghost kept_before = kept_reversed@;
            let q = old_queues.pop().unwrap();
            proof {
                assert(before.drop_last() =~= old_queues@);
                assert(before.last() == q);
            }
            if q.0 != id {
                kept_reversed.push(q);
                assert(kept_reversed@.reverse() =~= seq![q] + kept_before.reverse());
            }
            assert(old_queues@ =~= all.take(old_queues@.len() as int));
        }
        let mut kept: Vec<(QueueId, CommandsQueue)> = Vec::new();
        while kept_reversed.len() > 0
            invariant
                without_queue(all, id) == kept@ + kept_reversed@.reverse(),
            decreases kept_reversed@.len(),
        {
            let ghost before = kept_reversed@;
            let q = kept_reversed.pop().unwrap();
            assert(before.reverse() =~= seq![q] + kept_reversed@.reverse());
            kept.push(q);
        }
        assert(kept_reversed@.reverse() =~= seq![]);
        assert(without_queue(old_queues@, id) =~= seq![]);
        assert(kept@ =~= without_queue(all, id));
        proof {
            lemma_without_queue_fresh(all, id, self.next_id as int);
            assert(ids_increasing_below(kept@, self.next_id as int));
        }
        self.commands_queues = kept;
    }

    /// Takes the waiting invocations of the queue with the given identifier
    /// (see `CommandsQueue::process_commands`); `None` when no queue has it.
    pub fn process_queue_commands(&mut self, id: QueueId) -> (r: Option<Vec<(usize, CommandArgs)>>)
        ensures
            final(self).next_queue_id() == old(self).next_queue_id(),
            final(self).queues().len() == old(self).queues().len(),
            forall|j: int| 0 <= j < old(self).queues().len() ==> #[trigger] final(self).queues()[j].0 == old(
                self,
            ).queues()[j].0,
            final(self).ids_fresh(),
            match r {
                None => final(self).queues() == old(self).queues() && forall|j: int|
                    0 <= j < old(self).queues().len() ==> #[trigger] old(self).queues()[j].0 != id,
                Some(list) => exists|k: int|
                    0 <= k < old(self).queues().len() && old(self).queues()[k].0 == id && (forall|j: int|
                        0 <= j < k ==> #[trigger] old(self).queues()[j].0 != id) && final(self).queues() == old(
                        self,
                    ).queues().update(k, (id, final(self).queues()[k].1)) && final(self).queues()[k].1.names()
                        == old(self).queues()[k].1.names() && (forall|i: int|
                        0 <= i < final(self).queues()[k].1.pending().len() ==> #[trigger] final(self).queues()[k].1.pending()[i].len()
                            == 0) && final(self).queues()[k].1.pending().len() == old(self).queues()[k].1.pending().len()
                        && list@.map_values(|e: (usize, CommandArgs)| (e.0 as int, string_views(e.1@)))
                        == crate::commands_queue::run_order(old(self).queues()[k].1.pending()),
            },
    {
        proof {
            use_type_invariant(&*self);
        }
        let mut k: usize = 0;
        while k < self.commands_queues.len()
            invariant
                k <= self.commands_queues@.len(),
                self.commands_queues@ == old(self).commands_queues@,
                self.next_id == old(self).next_id,
                old(self).ids_fresh(),
                forall|j: int| 0 <= j < k ==> #[trigger] self.commands_queues@[j].0 != id,
            decreases self.commands_queues@.len() - k,
        {
            if self.commands_queues[k].0 == id {
                let ghost before = self.commands_queues@;
                let mut queues = Vec::new();
                std::mem::swap(&mut queues, &mut self.commands_queues);
                let mut q = CommandsQueue::new(Vec::new());
                std::mem::swap(&mut q, &mut queues[k].1);
                let list = q.process_commands();
                std::mem::swap(&mut q, &mut queues[k].1);
                assert(queues@ =~= before.update(k as int, (id, queues@[k as int].1)));
                assert(forall|j: int| 0 <= j < queues@.len() ==> #[trigger] queues@[j].0 == before[j].0);
                self.commands_queues = queues;
                return Some(list);
            }
            k = k + 1;
        }
        None
    }
}

} // verus!

verus! {

impl CommandsProcessor {
    /// Completes a partly typed command from the commands of all queues and the
    /// configuration paths: returns the single completion, or the common prefix of
    /// several when it is longer than what was typed, or else all of them sorted.
    pub fn complete_command(&self, command_start: &str, config: &ConfigValue) -> (r: Vec<String>)
        ensures
            completion_ok(
                queue_matches(self.queues(), command_start@) + config_matches(*config, command_start@),
                command_start@,
                string_views(r@),
            ),
    {
        let start = chars_of(command_start);
        let mut matched: Vec<Vec<char>> = Vec::new();
        let mut i: usize = 0;
        while i < self.commands_queues.len()
            invariant
                i <= self.commands_queues@.len(),
                start@ == command_start@,
                views(matched@) == queue_matches(self.queues().take(i as int), command_start@),
            decreases self.commands_queues@.len() - i,
        {
            let names = self.commands_queues[i].1.get_commands_started_with(command_start);
            let names_chars = crate::text::chars_of_strings(&names);
            let ghost before = matched@;
            let mut j: usize = 0;
            while j < names_chars.len()
                invariant
                    j <= names_chars@.len(),
                    views(matched@) == views(before) + views(names_chars@).take(j as int),
                decreases names_chars@.len() - j,
            {
                let ghost m = matched@;
                matched.push(names_chars[j].clone());
                proof {
                    assert(views(matched@) =~= views(m).push(names_chars@[j as int]@));
                    assert(views(names_chars@).take(j + 1) =~= views(names_chars@).take(j as int).push(names_chars@[j as int]@));
                }
                j = j + 1;
            }
            proof {
                assert(views(names_chars@).take(names_chars@.len() as int) =~= views(names_chars@));
                assert(self.queues().take(i + 1).drop_last() =~= self.queues().take(i as int));
                assert(self.queues().take(i + 1).last() == self.queues()[i as int]);
            }
            i = i + 1;
        }
        assert(self.queues().take(self.commands_queues@.len() as int) =~= self.queues());
        let ghost from_queues = views(matched@);

        // Configuration paths.
        let mut parts = split_at_char(&start, CONFIG_PATH_SEPARATOR);
        let ghost all_parts = views(parts@);
        let last = parts.pop().unwrap();
        proof {
            assert(views(parts@) =~= all_parts.drop_last());
            assert(last@ == all_parts.last());
        }
        let mut lead = crate::text::join_with(&parts, CONFIG_PATH_SEPARATOR);
        if lead.len() > 0 {
            lead.push(CONFIG_PATH_SEPARATOR);
        }
        let ghost before_config = matched@;
        match find_at(config, &parts, 0) {
            Some(ConfigValue::Object(entries)) => {
                assert(views(parts@).skip(0) =~= views(parts@));
                let mut k: usize = 0;
                while k < entries.len()
                    invariant
                        k <= entries@.len(),
                        views(matched@) == views(before_config) + key_matches(entries@.take(k as int), last@, lead@),
                    decreases entries@.len() - k,
                {
                    let key = chars_of(entries[k].0.as_str());
                    proof {
                        assert(entries@.take(k + 1).drop_last() =~= entries@.take(k as int));
                        assert(entries@.take(k + 1).last() == entries@[k as int]);
                    }
                    if crate::text::starts_with(&key, &last) {
                        let mut full = lead.clone();
                        let mut t: usize = 0;
                        while t < key.len()
                            invariant
                                t <= key@.len(),
                                full@ == lead@ + key@.take(t as int),
                            decreases key@.len() - t,
                        {
                            full.push(key[t]);
                            t = t + 1;
                            assert(full@ =~= lead@ + key@.take(t as int));
                        }
                        assert(key@.take(key@.len() as int) =~= key@);
                        let ghost m = matched@;
                        matched.push(full);
                        assert(views(matched@) =~= views(m).push(lead@ + key@));
                    }
                    k = k + 1;
                }
                assert(entries@.take(entries@.len() as int) =~= entries@);
            },
            _ => {
                assert(views(parts@).skip(0) =~= views(parts@));
            },
        }
        let ghost all = views(matched@);
        assert(all == queue_matches(self.queues(), command_start@) + config_matches(*config, command_start@));
        if matched.len() <= 1 {
            return crate::text::strings_of(&matched);
        }
        let prefix = crate::text::find_common_prefix(&matched);
        if crate::text::utf8_length(&prefix) > crate::text::utf8_length(&start) {
            let one = vec![prefix];
            let r = crate::text::strings_of(&one);
            assert(views(one@) =~= seq![prefix@]);
            return r;
        }
        crate::text::sort_texts(&mut matched);
        crate::text::strings_of(&matched)
    }
}

} // verus!

verus! {

/// How an argument sets a configuration value of a given kind.
pub enum SetRule {
    Text,
    Float,
    /// A float text that reads as infinity or NaN: JSON keeps such a number as `null`.
    Null,
    Unsigned(u64),
    Negative(i64),
    Bool(bool),
    Fail,
}

/// The rule for setting `v` from `arg`: text takes it as it is; a number is
/// read by the rules of its kind (a value at or above zero stays unsigned; a float
/// that reads as infinity or NaN becomes null, as JSON keeps it); a boolean takes
/// `1`/`true` or `0`/`false`; other kinds cannot be set.
pub open spec fn set_rule(v: ConfigValue, arg: Seq<char>) -> SetRule {
    match v {
        ConfigValue::Text(_) => SetRule::Text,
        ConfigValue::Unsigned(_) => match u64_text_value(arg) {
            Some(n) => SetRule::Unsigned(n),
            None => SetRule::Fail,
        },
        ConfigValue::Negative(_) => match i64_text_value(arg) {
            Some(n) => if n < 0 { SetRule::Negative(n) } else { SetRule::Unsigned(n as u64) },
            None => SetRule::Fail,
        },
        ConfigValue::Float(_) => if !float_text_ok(arg) {
            SetRule::Fail
        } else if float_text_finite(arg) {
            SetRule::Float
        } else {
            SetRule::Null
        },
        ConfigValue::Bool(_) => if arg == "1"@ || arg == "true"@ {
            SetRule::Bool(true)
        } else if arg == "0"@ || arg == "false"@ {
            SetRule::Bool(false)
        } else {
            SetRule::Fail
        },
        _ => SetRule::Fail,
    }
}

/// The message for a value that cannot be set from the argument.
pub open spec fn failure_message(v: ConfigValue) -> Seq<char> {
    match v {
        ConfigValue::Unsigned(_) => "Failed to parse u64"@,
        ConfigValue::Negative(_) => "Failed to parse i64"@,
        ConfigValue::Float(_) => "Failed to parse f64"@,
        ConfigValue::Bool(_) => "Failed to parse bool"@,
        _ => "Can't set value of this type"@,
    }
}

/// `nv` is the value that `rule` makes of `arg`.
pub open spec fn set_value(rule: SetRule, arg: Seq<char>, nv: ConfigValue) -> bool {
    match rule {
        SetRule::Text => nv matches ConfigValue::Text(t) && t@ == arg,
        SetRule::Float => nv matches ConfigValue::Float(t) && t@ == json_float_text(arg),
        SetRule::Null => nv == ConfigValue::Null,
        SetRule::Unsigned(n) => nv == ConfigValue::Unsigned(n),
        SetRule::Negative(n) => nv == ConfigValue::Negative(n),
        SetRule::Bool(b) => nv == ConfigValue::Bool(b),
        SetRule::Fail => false,
    }
}

/// What a configuration command (path `c`, arguments `args`) does to the
/// configuration and what it reports.
pub open spec fn config_command(
    old: ConfigValue,
    c: Seq<char>,
    args: Seq<Seq<char>>,
    new: ConfigValue,
    r: CommandOutcome,
) -> bool {
    let path = split_pieces(c, CONFIG_PATH_SEPARATOR);
    match lookup(old, path) {
        None => new == old && (r matches CommandOutcome::Message(m) && m@ == c + " not found"@),
        Some(v) => if args.len() == 0 {
            new == old && (r matches CommandOutcome::Message(m) && m@ == c + " is "@ + config_json_text(v))
        } else {
            let rule = set_rule(v, args[0]);
            if rule is Fail {
                new == old && (r matches CommandOutcome::Message(m) && m@ == failure_message(v))
            } else {
                &&& r is Done
                &&& lookup(new, path) is Some
                &&& replaced(old, path, lookup(new, path)->0, new)
                &&& set_value(rule, args[0], lookup(new, path)->0)
            }
        },
    }
}

fn text_from_literal(s: &str) -> (r: String)
    ensures
        r@ == s@,
{
    let c = chars_of(s);
    string_of(&c)
}

fn push_chars(out: &mut Vec<char>, more: &Vec<char>)
    ensures
        final(out)@ == old(out)@ + more@,
{
    let mut i: usize = 0;
    while i < more.len()
        invariant
            i <= more@.len(),
            out@ == old(out)@ + more@.take(i as int),
        decreases more@.len() - i,
    {
        out.push(more[i]);
        i = i + 1;
        assert(out@ =~= old(out)@ + more@.take(i as int));
    }
    assert(more@.take(more@.len() as int) =~= more@);
}

fn chars_are(v: &Vec<char>, s: &str) -> (r: bool)
    ensures
        r == (v@ == s@),
{
    let c = chars_of(s);
    chars_equal(v, &c)
}

/// Applies a configuration command: reports the value at path `c`, or sets it from the first argument.
fn apply_config_command(config: &mut ConfigValue, c: &Vec<char>, args: &Vec<Vec<char>>) -> (r: CommandOutcome)
    ensures
        config_command(*old(config), c@, views(args@), *final(config), r),
{
    let path = split_at_char(c, CONFIG_PATH_SEPARATOR);
    assert(views(path@).skip(0) =~= views(path@));
    let found = find_at(config, &path, 0);
    let v = match found {
        None => {
            let mut m = c.clone();
            let suffix = chars_of(" not found");
            let mut i: usize = 0;
            while i < suffix.len()
                invariant
                    i <= suffix@.len(),
                    m@ == c@ + suffix@.take(i as int),
                decreases suffix@.len() - i,
            {
                m.push(suffix[i]);
                i = i + 1;
                assert(m@ =~= c@ + suffix@.take(i as int));
            }
            assert(suffix@.take(suffix@.len() as int) =~= suffix@);
            return CommandOutcome::Message(string_of(&m));
        },
        Some(v) => v,
    };
    if args.len() == 0 {
        let shown = chars_of(config_value_text(v).as_str());
        let mut m = c.clone();
        push_chars(&mut m, &chars_of(" is "));
        push_chars(&mut m, &shown);
        return CommandOutcome::Message(string_of(&m));
    }
    let arg = &args[0];
    let ghost rule = set_rule(*v, arg@);
    let new_value = match v {
        ConfigValue::Text(_) => ConfigValue::Text(string_of(arg)),
        ConfigValue::Unsigned(_) => match parse_u64(arg) {
            Some(n) => ConfigValue::Unsigned(n),
            None => {
                return CommandOutcome::Message(text_from_literal("Failed to parse u64"));
            },
        },
        ConfigValue::Negative(_) => match parse_i64(arg) {
            Some(n) => if n < 0 {
                ConfigValue::Negative(n)
            } else {
                ConfigValue::Unsigned(n as u64)
            },
            None => {
                return CommandOutcome::Message(text_from_literal("Failed to parse i64"));
            },
        },
        ConfigValue::Float(_) => {
            if is_float_text(arg) {
                if is_finite_float_text(arg) {
                    ConfigValue::Float(string_of(&json_float_text_of(arg)))
                } else {
                    ConfigValue::Null
                }
            } else {
                return CommandOutcome::Message(text_from_literal("Failed to parse f64"));
            }
        },
        ConfigValue::Bool(_) => {
            if chars_are(arg, "1") || chars_are(arg, "true") {
                ConfigValue::Bool(true)
            } else if chars_are(arg, "0") || chars_are(arg, "false") {
                ConfigValue::Bool(false)
            } else {
                return CommandOutcome::Message(text_from_literal("Failed to parse bool"));
            }
        },
        _ => {
            return CommandOutcome::Message(text_from_literal("Can't set value of this type"));
        },
    };
    assert(set_value(rule, arg@, new_value));
    let mut current = ConfigValue::Null;
    std::mem::swap(&mut current, config);
    let updated = with_value_at(current, &path, 0, new_value);
    *config = updated;
    proof {
        crate::config_value::lemma_read_after_write(*old(config), views(path@), new_value, *config);
    }
    CommandOutcome::Done
}

} // verus!

verus! {

proof fn lemma_queue_with_handler_first(queues: Seq<(QueueId, CommandsQueue)>, c: Seq<char>, k: int)
    requires
        0 <= k <= queues.len(),
        forall|j: int| 0 <= j < k ==> !(#[trigger] queues[j].1.names().contains(c)),
        k < queues.len() ==> queues[k].1.names().contains(c),
    ensures
        queue_with_handler(queues, c) == if k < queues.len() { k } else { -1 },
    decreases queues.len(),
{
    if queues.len() > 0 {
        assert forall|j: int| 0 <= j < k && j < queues.len() - 1 implies !(#[trigger] queues.drop_last()[j].1.names().contains(c)) by {
            assert(queues.drop_last()[j] == queues[j]);
        }
        if k < queues.len() - 1 {
            lemma_queue_with_handler_first(queues.drop_last(), c, k);
        } else {
            lemma_queue_with_handler_first(queues.drop_last(), c, queues.len() - 1);
        }
    }
}

impl CommandsProcessor {
    /// Processes a typed command line: its first word names a command or a
    /// configuration path, the other words are arguments. A command is queued on
    /// the first queue that has it; a configuration path is reported (without
    /// arguments) or set from the first argument.
    pub fn process_command(&mut self, command_line: &str, config: &mut ConfigValue) -> (r: CommandOutcome)
        ensures
            command_effect(*old(self), *final(self), command_line@, *old(config), *final(config), r),
    {
        proof {
            use_type_invariant(&*self);
        }
        let line = chars_of(command_line);
        let ws = split_words(&line);
        if ws.len() == 0 {
            return CommandOutcome::Done;
        }
        let c = ws[0].clone();
        assert(c@ == ws@[0]@);
        let mut arg_chars: Vec<Vec<char>> = Vec::new();
        let mut t: usize = 1;
        while t < ws.len()
            invariant
                1 <= t <= ws@.len(),
                views(arg_chars@) == views(ws@).subrange(1, t as int),
            decreases ws@.len() - t,
        {
            let ghost before = arg_chars@;
            arg_chars.push(ws[t].clone());
            assert(views(arg_chars@) =~= views(before).push(ws@[t as int]@));
            assert(views(ws@).subrange(1, t + 1) =~= views(ws@).subrange(1, t as int).push(ws@[t as int]@));
            t = t + 1;
        }
        assert(views(ws@).subrange(1, ws@.len() as int) =~= views(ws@).drop_first());
        let command = string_of(&c);
        let ghost old_queues = self.commands_queues@;
        let mut k: usize = 0;
        while k < self.commands_queues.len()
            invariant
                k <= self.commands_queues@.len(),
                self.commands_queues@ == old_queues,
                self.next_id == old(self).next_id,
                command@ == c@,
                ws@.len() > 0,
                views(ws@) == words(command_line@),
                c@ == views(ws@)[0],
                views(arg_chars@) == views(ws@).drop_first(),
                *config == *old(config),
                old_queues == old(self).commands_queues@,
                old(self).ids_fresh(),
                forall|j: int| 0 <= j < k ==> !(#[trigger] old_queues[j].1.names().contains(c@)),
            decreases self.commands_queues@.len() - k,
        {
            if self.commands_queues[k].1.has_handler(command.as_str()) {
                proof {
                    lemma_queue_with_handler_first(old_queues, c@, k as int);
                }
                let args = crate::text::strings_of(&arg_chars);
                let mut queues = Vec::new();
                std::mem::swap(&mut queues, &mut self.commands_queues);
                let mut q = CommandsQueue::new(Vec::new());
                std::mem::swap(&mut q, &mut queues[k].1);
                let ghost q0 = q;
                assert(q0 == old_queues[k as int].1);
                q.add_invocation(command.as_str(), args);
                let ghost q1 = q;
                std::mem::swap(&mut q, &mut queues[k].1);
                assert(queues@ =~= old_queues.update(k as int, (old_queues[k as int].0, q1)));
                assert(forall|j: int| 0 <= j < queues@.len() ==> #[trigger] queues@[j].0 == old_queues[j].0);
                self.commands_queues = queues;
                proof {
                    assert(self.commands_queues@ =~= old_queues.update(k as int, (old_queues[k as int].0, q1)));
                    q0.names().index_of_first_ensures(c@);
                    assert(string_views(args@) =~= views(arg_chars@));
                    assert(q0.names().contains(c@));
                    assert(q0.names().index_of_first(c@) is Some);
                    let ws_v = words(command_line@);
                    assert(ws_v == views(ws@));
                    assert(ws_v[0] == c@);
                    assert(ws_v.drop_first() == views(arg_chars@));
                    assert(queue_with_handler(old(self).queues(), c@) == k);
                    let i = q0.names().index_of_first(c@)->0;
                    assert(q1.pending() == q0.pending().update(i, q0.pending()[i].push(ws_v.drop_first())));
                    assert(self.queues()[k as int].1 == q1);
                }
                return CommandOutcome::Done;
            }
            k = k + 1;
        }
        proof {
            lemma_queue_with_handler_first(old_queues, c@, old_queues.len() as int);
        }
        apply_config_command(config, &c, &arg_chars)
    }
}

} // verus!

verus! {

/// What processing `command_line` does: to the queues of the processor, to the
/// configuration, and what it reports (see `CommandsProcessor::process_command`).
pub open spec fn command_effect(
    old: CommandsProcessor,
    new: CommandsProcessor,
    command_line: Seq<char>,
    old_config: ConfigValue,
    new_config: ConfigValue,
    r: CommandOutcome,
) -> bool {
    &&& new.next_queue_id() == old.next_queue_id()
    &&& new.ids_fresh()
    &&& {
                let ws = words(command_line);
                if ws.len() == 0 {
                    &&& r is Done
                    &&& new.queues() == old.queues()
                    &&& new_config == old_config
                } else {
                    let c = ws[0];
                    let args = ws.drop_first();
                    let k = queue_with_handler(old.queues(), c);
                    if k >= 0 {
                        let q = old.queues()[k].1;
                        let i = q.names().index_of_first(c)->0;
                        &&& r is Done
                        &&& new_config == old_config
                        &&& new.queues().len() == old.queues().len()
                        &&& forall|j: int| 0 <= j < old.queues().len() && j != k ==> #[trigger] new.queues()[j] == old.queues()[j]
                        &&& new.queues()[k].0 == old.queues()[k].0
                        &&& new.queues()[k].1.names() == q.names()
                        &&& new.queues()[k].1.pending() == q.pending().update(i, q.pending()[i].push(args))
                    } else {
                        &&& new.queues() == old.queues()
                        &&& config_command(old_config, c, args, new_config, r)
                    }
                }
            }
}

} // verus!

verus! {

/// Identifiers grow along the queues and stay below `bound`.
pub open spec fn ids_increasing_below(queues: Seq<(QueueId, CommandsQueue)>, bound: int) -> bool {
    &&& forall|i: int, j: int| 0 <= i < j < queues.len() ==> #[trigger] queues[i].0 < #[trigger] queues[j].0
    &&& forall|i: int| 0 <= i < queues.len() ==> #[trigger] queues[i].0 < bound
}

proof fn lemma_without_queue_fresh(queues: Seq<(QueueId, CommandsQueue)>, id: QueueId, bound: int)
    requires
        ids_increasing_below(queues, bound),
    ensures
        ids_increasing_below(without_queue(queues, id), bound),
    decreases queues.len(),
{
    if queues.len() > 0 {
        let rest = queues.drop_last();
        let last = queues.last();
        assert(ids_increasing_below(rest, last.0 as int)) by {
            assert forall|i: int| 0 <= i < rest.len() implies #[trigger] rest[i].0 < last.0 by {
                assert(queues[i].0 < queues[queues.len() - 1].0);
            }
            assert forall|i: int, j: int| 0 <= i < j < rest.len() implies #[trigger] rest[i].0 < #[trigger] rest[j].0 by {
                assert(queues[i].0 < queues[j].0);
            }
        }
        lemma_without_queue_fresh(rest, id, last.0 as int);
        let w = without_queue(rest, id);
        assert(queues[queues.len() - 1].0 < bound);
        if last.0 != id {
            let pushed = w.push(last);
            assert forall|i: int, j: int| 0 <= i < j < pushed.len() implies #[trigger] pushed[i].0 < #[trigger] pushed[j].0 by {
                if j == pushed.len() - 1 {
                    assert(w[i].0 < last.0);
                } else {
                    assert(w[i].0 < w[j].0);
                }
            }
            assert forall|i: int| 0 <= i < pushed.len() implies #[trigger] pushed[i].0 < bound by {
                if i < w.len() {
                    assert(w[i].0 < last.0);
                }
            }
        } else {
            assert forall|i: int| 0 <= i < w.len() implies #[trigger] w[i].0 < bound by {
                assert(w[i].0 < last.0);
            }
        }
    }
}

/// Removing an identifier that no queue has leaves the queues as they are.
proof fn lemma_without_absent_queue(queues: Seq<(QueueId, CommandsQueue)>, id: QueueId)
    requires
        forall|i: int| 0 <= i < queues.len() ==> #[trigger] queues[i].0 != id,
    ensures
        without_queue(queues, id) == queues,
    decreases queues.len(),
{
    if queues.len() > 0 {
        let rest = queues.drop_last();
        assert forall|i: int| 0 <= i < rest.len() implies #[trigger] rest[i].0 != id by {
            assert(queues[i].0 != id);
        }
        lemma_without_absent_queue(rest, id);
        assert(queues[queues.len() - 1].0 != id);
        assert(rest.push(queues.last()) =~= queues);
    }
}

impl CommandsProcessor {
    /// Removing a queue right after registering it gives back the queues as they were: the new
    /// queue's identifier is fresh, and no other queue goes with it. The requirement is the type
    /// invariant of the processor, so every processor that exists meets it.
    pub proof fn lemma_remove_after_register(p: CommandsProcessor, queue: CommandsQueue)
        requires
            p.ids_fresh(),
        ensures
            without_queue(p.queues().push((p.next_queue_id(), queue)), p.next_queue_id()) == p.queues(),
    {
        let qs = p.queues().push((p.next_queue_id(), queue));
        assert(qs.drop_last() =~= p.queues());
        assert forall|i: int| 0 <= i < p.queues().len() implies #[trigger] p.queues()[i].0 != p.next_queue_id() by {
            assert(p.commands_queues@[i].0 < p.next_id);
        }
        lemma_without_absent_queue(p.queues(), p.next_queue_id());
    }

    /// A queue registered last gets a command that it has and no earlier queue has; a command of
    /// an earlier queue stays with that queue.
    pub proof fn lemma_registered_queue_priority(p: CommandsProcessor, queue: CommandsQueue, c: Seq<char>)
        ensures
            queue_with_handler(p.queues().push((p.next_queue_id(), queue)), c) == if queue_with_handler(
                p.queues(),
                c,
            ) >= 0 {
                queue_with_handler(p.queues(), c)
            } else if queue.names().contains(c) {
                p.queues().len() as int
            } else {
                -1
            },
    {
        assert(p.queues().push((p.next_queue_id(), queue)).drop_last() =~= p.queues());
    }
}

} // verus!
