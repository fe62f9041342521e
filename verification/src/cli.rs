//! The textual front of the store: a line of text becomes a command, and a
//! command that only reads becomes its reply.

use crate::db::{Command, CommandView, KvState};
use crate::error::{DbError, DbResult};
use crate::sorted::{in_key_order, keys_of, range_of, values_of, Entry};
use crate::text::{decimal, push_decimal, str_eq};
use vstd::prelude::*;
use vstd::std_specs::iter::IteratorSpec;
use vstd::string::StringExecFns;

verus! {

/// Whether a character separates words: what `char::is_whitespace` says of
/// it, which is whether Unicode gives it the property `White_Space`.
pub uninterp spec fn is_space(c: char) -> bool;

/// How `Debug` writes a list of strings: what `format!("{:?}", ..)` gives for
/// it, with its brackets, quotes and escapes.
pub uninterp spec fn debug_text(args: Seq<Seq<char>>) -> Seq<char>;

/// Calls `char::is_whitespace`.  Taken on trust: what it answers depends on
/// the character alone, so that `is_space` can stand for it.
#[verifier::external_body]
fn char_is_whitespace(c: char) -> (b: bool)
    ensures
        b == is_space(c),
{
    c.is_whitespace()
}

/// Formats a list of strings with `{:?}`.  Taken on trust: the text
/// depends on the strings alone, so that `debug_text` can stand for it.
#[verifier::external_body]
fn debug_list(args: &Vec<String>) -> (shown: String)
    ensures
        shown@ == debug_text(args.deep_view()),
{
    format!("{:?}", args)
}

/// Calls `String::push`.  Taken on trust: the string afterwards is the
/// string before with the character at its end.
#[verifier::external_body]
fn push_char(s: &mut String, c: char)
    ensures
        final(s)@ == old(s)@.push(c),
{
    s.push(c)
}

/// The word that has come to its end, if it has any characters.
pub open spec fn ended(word: Seq<char>) -> Seq<Seq<char>> {
    if word.len() == 0 {
        Seq::empty()
    } else {
        seq![word]
    }
}

/// The words of `rest`, where `word` holds the characters of a word that
/// began just before `rest`.
pub open spec fn words_after(word: Seq<char>, rest: Seq<char>) -> Seq<Seq<char>>
    decreases rest.len(),
{
    if rest.len() == 0 {
        ended(word)
    } else if is_space(rest[0]) {
        ended(word) + words_after(Seq::empty(), rest.drop_first())
    } else {
        words_after(word.push(rest[0]), rest.drop_first())
    }
}

/// The words of a line: its longest runs of characters that are no
/// whitespace, from left to right.
pub open spec fn words(line: Seq<char>) -> Seq<Seq<char>> {
    words_after(Seq::empty(), line)
}

/// The command that a list of words stands for.
pub open spec fn command_of(args: Seq<Seq<char>>) -> Option<CommandView> {
    if args.len() == 3 && args[0] == "put"@ {
        Some(CommandView::Put { key: args[1], value: args[2] })
    } else if args.len() == 2 && args[0] == "delete"@ {
        Some(CommandView::Delete { key: args[1] })
    } else if args.len() == 2 && args[0] == "get"@ {
        Some(CommandView::Get { key: args[1] })
    } else if args.len() == 3 && args[0] == "range"@ {
        Some(CommandView::Range { start: args[1], end: args[2] })
    } else if args.len() == 2 && args[0] == "keys"@ {
        Some(CommandView::Keys { needle: args[1] })
    } else if args.len() == 2 && args[0] == "values"@ {
        Some(CommandView::Values { needle: args[1] })
    } else if args.len() == 1 && args[0] == "amount"@ {
        Some(CommandView::Amount)
    } else if args.len() == 1 && args[0] == "dump_all"@ {
        Some(CommandView::DumpAll)
    } else if args.len() == 1 && args[0] == "shutdown"@ {
        Some(CommandView::Shutdown)
    } else {
        None
    }
}

/// No character of `word` is whitespace.
pub open spec fn spaceless(word: Seq<char>) -> bool {
    forall|j: int| 0 <= j < word.len() ==> !is_space(#[trigger] word[j])
}

/// Every word that follows a begun word without whitespace has a character
/// and no whitespace.
pub proof fn lemma_words_after_are_clean(word: Seq<char>, rest: Seq<char>)
    requires
        spaceless(word),
    ensures
        forall|i: int|
            0 <= i < words_after(word, rest).len() ==> (#[trigger] words_after(word, rest)[i]).len()
                > 0 && spaceless(words_after(word, rest)[i]),
    decreases rest.len(),
{
    let all = words_after(word, rest);
    if rest.len() == 0 {
        assert forall|i: int| 0 <= i < all.len() implies (#[trigger] all[i]).len() > 0 && spaceless(
            all[i],
        ) by {
            assert(all[i] == word);
        }
    } else if is_space(rest[0]) {
        let later = words_after(Seq::empty(), rest.drop_first());
        lemma_words_after_are_clean(Seq::empty(), rest.drop_first());
        assert forall|i: int| 0 <= i < all.len() implies (#[trigger] all[i]).len() > 0 && spaceless(
            all[i],
        ) by {
            if i < ended(word).len() {
                assert(all[i] == word);
            } else {
                assert(all[i] == later[i - ended(word).len()]);
            }
        }
    } else {
        let longer = word.push(rest[0]);
        assert forall|j: int| 0 <= j < longer.len() implies !is_space(#[trigger] longer[j]) by {
            if j < word.len() {
                assert(longer[j] == word[j]);
            }
        }
        lemma_words_after_are_clean(longer, rest.drop_first());
        assert(all == words_after(longer, rest.drop_first()));
    }
}

/// Every word of a line has a character and no whitespace.
pub proof fn lemma_words_are_clean(line: Seq<char>)
    ensures
        forall|i: int|
            0 <= i < words(line).len() ==> (#[trigger] words(line)[i]).len() > 0 && spaceless(
                words(line)[i],
            ),
{
    lemma_words_after_are_clean(Seq::empty(), line);
}

/// Splits a line into its words.
pub fn split_words(line: &str) -> (args: Vec<String>)
    ensures
        args.deep_view() == words(line@),
{
    broadcast use vstd::string::group_string_axioms;

    let mut args: Vec<String> = Vec::new();
    let mut word = String::new();
    let mut rest = line.chars();
    assert(args.deep_view() =~= Seq::<Seq<char>>::empty());
    assert(args.deep_view() + words_after(word@, rest.remaining()) =~= words(line@));
    loop
        invariant
            rest.obeys_prophetic_iter_laws(),
            rest.decrease() is Some,
            args.deep_view() + words_after(word@, rest.remaining()) == words(line@),
        ensures
            args.deep_view() + ended(word@) == words(line@),
        decreases rest.decrease()->0,
    {
        let ghost before = rest.remaining();
        let ghost done = args.deep_view();
        let ghost begun = word@;
        match rest.next() {
            None => {
                break ;
            },
            Some(c) => {
                assert(c == before[0] && rest.remaining() == before.drop_first());
                if char_is_whitespace(c) {
                    if !word.as_str().is_empty() {
                        args.push(word);
                        word = String::new();
                        assert(args.deep_view() =~= done + seq![begun]);
                    }
                    assert(word@ =~= Seq::<char>::empty());
                    assert(args.deep_view() + words_after(word@, rest.remaining()) =~= done + (
                    ended(begun) + words_after(Seq::empty(), rest.remaining())));
                } else {
                    push_char(&mut word, c);
                }
            },
        }
    }
    if !word.as_str().is_empty() {
        let ghost done = args.deep_view();
        let ghost w = word@;
        args.push(word);
        assert(args.deep_view() =~= done + seq![w]);
    } else {
        assert(args.deep_view() + ended(word@) =~= args.deep_view());
    }
    args
}

/// The command that a list of words stands for, if it stands for one.
pub fn command_from(args: &Vec<String>) -> (r: Option<Command>)
    ensures
        match r {
            Some(c) => command_of(args.deep_view()) == Some(c@),
            None => command_of(args.deep_view()) is None,
        },
{
    let ghost views = args.deep_view();
    let n: usize = args.len();
    if n == 0 || n > 3 {
        return None;
    }
    let name = args[0].as_str();
    assert(views[0] == name@);
    if n == 1 {
        if str_eq(name, "amount") {
            Some(Command::Amount)
        } else if str_eq(name, "dump_all") {
            Some(Command::DumpAll)
        } else if str_eq(name, "shutdown") {
            Some(Command::Shutdown)
        } else {
            None
        }
    } else if n == 2 {
        assert(views[1] == args@[1]@);
        if str_eq(name, "delete") {
            Some(Command::Delete { key: args[1].clone() })
        } else if str_eq(name, "get") {
            Some(Command::Get { key: args[1].clone() })
        } else if str_eq(name, "keys") {
            Some(Command::Keys { needle: args[1].clone() })
        } else if str_eq(name, "values") {
            Some(Command::Values { needle: args[1].clone() })
        } else {
            None
        }
    } else {
        assert(views[1] == args@[1]@);
        assert(views[2] == args@[2]@);
        if str_eq(name, "put") {
            Some(Command::Put { key: args[1].clone(), value: args[2].clone() })
        } else if str_eq(name, "range") {
            Some(Command::Range { start: args[1].clone(), end: args[2].clone() })
        } else {
            None
        }
    }
}

/// Reads a line of text as a command.  A line that is none comes back as the
/// list of its words, written as `Debug` writes it.
pub fn parse_command(input: &str) -> (r: Result<Command, String>)
    ensures
        match r {
            Ok(c) => command_of(words(input@)) == Some(c@),
            Err(shown) => command_of(words(input@)) is None && shown@ == debug_text(words(input@)),
        },
{
    let args = split_words(input);
    match command_from(&args) {
        Some(c) => Ok(c),
        None => Err(debug_list(&args)),
    }
}

/// Whether a line asks to end the session: it holds the one word `exit`.
pub fn is_exit(line: &str) -> (r: bool)
    ensures
        r == (words(line@) == seq!["exit"@]),
{
    let args = split_words(line);
    if args.len() == 1 {
        let ghost views = args.deep_view();
        assert(views[0] == args@[0]@);
        let r = str_eq(args[0].as_str(), "exit");
        assert(r ==> views =~= seq!["exit"@]);
        assert(!r ==> views[0] != seq!["exit"@][0]);
        r
    } else {
        assert(seq!["exit"@].len() == 1);
        false
    }
}

/// The strings of `parts`, one after another.
pub open spec fn concat(parts: Seq<Seq<char>>) -> Seq<char>
    decreases parts.len(),
{
    if parts.len() == 0 {
        Seq::empty()
    } else {
        concat(parts.drop_last()) + parts.last()
    }
}

/// The line that shows an entry of a range.
pub open spec fn range_line(e: Entry) -> Seq<char> {
    "key: "@ + e.0 + ", val: "@ + e.1 + "\n"@
}

/// The line that shows an entry of a dump.
pub open spec fn dump_line(e: Entry) -> Seq<char> {
    "DEBUG: key: "@ + e.0 + ", val: "@ + e.1 + "\n"@
}

/// The line that shows a key.
pub open spec fn key_line(k: Seq<char>) -> Seq<char> {
    "key: "@ + k + "\n"@
}

/// The line that shows a value.
pub open spec fn value_line(v: Seq<char>) -> Seq<char> {
    "val: "@ + v + "\n"@
}

/// The reply of the store `m` to the command `c`: the value for `Get`, or
/// nothing where the key is absent; the matching entries, keys or values,
/// one per line, for `Range`, `Keys`, `Values` and `DumpAll`; the count for
/// `Amount`; and the acknowledgement `OK` for the commands that are not
/// answered from the store.
pub open spec fn reply_of(m: Map<Seq<char>, Seq<char>>, c: CommandView) -> Option<Seq<char>> {
    match c {
        CommandView::Get { key } => if m.dom().contains(key) {
            Some(m[key])
        } else {
            None
        },
        CommandView::Range { start, end } => Some(
            concat(range_of(m, start, end).map_values(|e: Entry| range_line(e))),
        ),
        CommandView::Keys { needle } => Some(
            concat(keys_of(m, needle).map_values(|k: Seq<char>| key_line(k))),
        ),
        CommandView::Values { needle } => Some(
            concat(values_of(m, needle).map_values(|v: Seq<char>| value_line(v))),
        ),
        CommandView::Amount => Some("Amount of keys: "@ + decimal(m.len())),
        CommandView::DumpAll => Some(concat(in_key_order(m).map_values(|e: Entry| dump_line(e)))),
        CommandView::Put { .. } => Some("OK"@),
        CommandView::Delete { .. } => Some("OK"@),
        CommandView::Shutdown => Some("OK"@),
    }
}

/// Writes each entry as a line that starts with `lead`.
fn entry_lines(list: &Vec<(String, String)>, lead: &str) -> (out: String)
    ensures
        out@ == concat(
            list.deep_view().map_values(|e: Entry| lead@ + e.0 + ", val: "@ + e.1 + "\n"@),
        ),
{
    let ghost f = |e: Entry| lead@ + e.0 + ", val: "@ + e.1 + "\n"@;
    let ghost all = list.deep_view();
    let mut out = String::new();
    let mut i: usize = 0;
    assert(all.subrange(0, 0).map_values(f) =~= Seq::<Seq<char>>::empty());
    while i < list.len()
        invariant
            i <= list@.len(),
            all == list.deep_view(),
            f == |e: Entry| lead@ + e.0 + ", val: "@ + e.1 + "\n"@,
            out@ == concat(all.subrange(0, i as int).map_values(f)),
        decreases list@.len() - i,
    {
        let ghost so_far = out@;
        out.append(lead);
        out.append(list[i].0.as_str());
        out.append(", val: ");
        out.append(list[i].1.as_str());
        out.append("\n");
        proof {
            let done = all.subrange(0, i as int).map_values(f);
            let now = all.subrange(0, i + 1).map_values(f);
            assert(all[i as int] == (list@[i as int].0@, list@[i as int].1@));
            assert(now.drop_last() =~= done);
            assert(now.last() == f(all[i as int]));
            assert(out@ =~= so_far + f(all[i as int]));
        }
        i += 1;
    }
    assert(all.subrange(0, i as int) =~= all);
    out
}

/// Writes each string as a line that starts with `lead`.
fn string_lines(list: &Vec<String>, lead: &str) -> (out: String)
    ensures
        out@ == concat(list.deep_view().map_values(|s: Seq<char>| lead@ + s + "\n"@)),
{
    let ghost f = |s: Seq<char>| lead@ + s + "\n"@;
    let ghost all = list.deep_view();
    let mut out = String::new();
    let mut i: usize = 0;
    assert(all.subrange(0, 0).map_values(f) =~= Seq::<Seq<char>>::empty());
    while i < list.len()
        invariant
            i <= list@.len(),
            all == list.deep_view(),
            f == |s: Seq<char>| lead@ + s + "\n"@,
            out@ == concat(all.subrange(0, i as int).map_values(f)),
        decreases list@.len() - i,
    {
        let ghost so_far = out@;
        out.append(lead);
        out.append(list[i].as_str());
        out.append("\n");
        proof {
            let done = all.subrange(0, i as int).map_values(f);
            let now = all.subrange(0, i + 1).map_values(f);
            assert(all[i as int] == list@[i as int]@);
            assert(now.drop_last() =~= done);
            assert(now.last() == f(all[i as int]));
            assert(out@ =~= so_far + f(all[i as int]));
        }
        i += 1;
    }
    assert(all.subrange(0, i as int) =~= all);
    out
}

/// Answers a command from the store, without changing it.  A `Get` for a
/// key that the store does not hold fails with `KeyNotFound`; nothing else
/// fails.
pub fn answer(state: &KvState, cmd: &Command) -> (r: DbResult<String>)
    ensures
        match r {
            Ok(text) => reply_of(state@, cmd@) == Some(text@),
            Err(e) => reply_of(state@, cmd@) is None && e is KeyNotFound,
        },
{
    match cmd {
        Command::Get { key } => match state.get(key.as_str()) {
            Some(value) => Ok(value.clone()),
            None => Err(DbError::KeyNotFound),
        },
        Command::Range { start, end } => {
            let list = state.range(start.as_str(), end.as_str());
            let text = entry_lines(&list, "key: ");
            assert(list.deep_view().map_values(
                |e: Entry| "key: "@ + e.0 + ", val: "@ + e.1 + "\n"@,
            ) =~= range_of(state@, start@, end@).map_values(|e: Entry| range_line(e)));
            Ok(text)
        },
        Command::Keys { needle } => {
            let list = state.keys_with(needle.as_str());
            let text = string_lines(&list, "key: ");
            assert(list.deep_view().map_values(|s: Seq<char>| "key: "@ + s + "\n"@) =~= keys_of(
                state@,
                needle@,
            ).map_values(|k: Seq<char>| key_line(k)));
            Ok(text)
        },
        Command::Values { needle } => {
            let list = state.values_with(needle.as_str());
            let text = string_lines(&list, "val: ");
            assert(list.deep_view().map_values(|s: Seq<char>| "val: "@ + s + "\n"@) =~= values_of(
                state@,
                needle@,
            ).map_values(|v: Seq<char>| value_line(v)));
            Ok(text)
        },
        Command::Amount => {
            let mut text = "Amount of keys: ".to_owned();
            push_decimal(&mut text, state.len() as u64);
            Ok(text)
        },
        Command::DumpAll => {
            let list = state.entries();
            let text = entry_lines(&list, "DEBUG: key: ");
            assert(list.deep_view().map_values(
                |e: Entry| "DEBUG: key: "@ + e.0 + ", val: "@ + e.1 + "\n"@,
            ) =~= in_key_order(state@).map_values(|e: Entry| dump_line(e)));
            Ok(text)
        },
        _ => Ok("OK".to_owned()),
    }
}

/// The line that goes back to the client: the reply, or `ERR: ` and the
/// error, each with a line feed at its end.
pub fn response_line(result: &DbResult<String>) -> (line: String)
    ensures
        match result {
            Ok(text) => line@ == text@ + "\n"@,
            Err(e) => exists|detail: Seq<char>| line@ == "ERR: "@ + e.text(detail) + "\n"@,
        },
{
    let mut line = String::new();
    match result {
        Ok(text) => {
            line.append(text.as_str());
            line.append("\n");
            assert(line@ =~= text@ + "\n"@);
        },
        Err(e) => {
            let shown = e.to_string();
            line.append("ERR: ");
            line.append(shown.as_str());
            line.append("\n");
            assert(line@ =~= "ERR: "@ + shown@ + "\n"@);
        },
    }
    line
}

} // verus!
