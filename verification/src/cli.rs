//! What the command line and the lines of input files mean.

use vstd::prelude::*;
use vstd::string::StrSliceExecFns;
use crate::codec;
use crate::codec::GramDbKey;

verus! {

/// What the program is asked to do.
pub enum Action {
    /// Print how to use the program, and exit with this code.
    GeneralUsage { code: i32 },
    /// Say that there is no such command, print how to use the program, and fail.
    UnknownCommand,
    /// Print how to use the command, and exit with this code.
    ExportUsage { code: i32 },
    BuildUsage { code: i32 },
    QueryUsage { code: i32 },
    /// Say that there is no place to write to, print how to use the command, and fail.
    ExportNeedsOutput,
    /// Say that there is no place to read from, and fail.
    BuildNeedsInput,
    Export { gram: String, output: String },
    Build { output: String, input: Option<String> },
    Query { gram: String, keys: Vec<String> },
}

/// An action, in terms of characters.
pub enum Plan {
    GeneralUsage { code: int },
    UnknownCommand,
    ExportUsage { code: int },
    BuildUsage { code: int },
    QueryUsage { code: int },
    ExportNeedsOutput,
    BuildNeedsInput,
    Export { gram: Seq<char>, output: Seq<char> },
    Build { output: Seq<char>, input: Option<Seq<char>> },
    Query { gram: Seq<char>, keys: Seq<Seq<char>> },
}

/// The characters of some strings.
pub open spec fn texts(args: Seq<String>) -> Seq<Seq<char>> {
    Seq::new(args.len(), |i: int| args[i]@)
}

impl View for Action {
    type V = Plan;

    open spec fn view(&self) -> Plan {
        match self {
            Action::GeneralUsage { code } => Plan::GeneralUsage { code: *code as int },
            Action::UnknownCommand => Plan::UnknownCommand,
            Action::ExportUsage { code } => Plan::ExportUsage { code: *code as int },
            Action::BuildUsage { code } => Plan::BuildUsage { code: *code as int },
            Action::QueryUsage { code } => Plan::QueryUsage { code: *code as int },
            Action::ExportNeedsOutput => Plan::ExportNeedsOutput,
            Action::BuildNeedsInput => Plan::BuildNeedsInput,
            Action::Export { gram, output } => Plan::Export { gram: gram@, output: output@ },
            Action::Build { output, input } => Plan::Build {
                output: output@,
                input: match input {
                    Some(path) => Some(path@),
                    None => None,
                },
            },
            Action::Query { gram, keys } => Plan::Query { gram: gram@, keys: texts(keys@) },
        }
    }
}

/// Whether an argument asks for help.
pub open spec fn is_help(arg: Seq<char>) -> bool {
    arg == "--help"@ || arg == "-h"@
}

/// Whether one of the arguments from `from` on asks for help.
pub open spec fn help_requested(args: Seq<Seq<char>>, from: int) -> bool {
    exists|i: int| from <= i < args.len() && is_help(#[trigger] args[i])
}

/// The argument behind the first of the arguments from `from` on that is one of the flags, if
/// there is such a flag and something behind it.
pub open spec fn flag_value(args: Seq<Seq<char>>, from: int, flags: Seq<Seq<char>>) -> Option<Option<Seq<char>>>
    decreases args.len() - from,
{
    if from >= args.len() {
        None
    } else if flags.contains(args[from]) {
        Some(if from + 1 < args.len() {
            Some(args[from + 1])
        } else {
            None
        })
    } else {
        flag_value(args, from + 1, flags)
    }
}

/// The flags that name the output.
pub open spec fn output_flags() -> Seq<Seq<char>> {
    seq!["-o"@, "--output"@]
}

/// The flags that name the input.
pub open spec fn input_flags() -> Seq<Seq<char>> {
    seq!["-i"@, "--input"@]
}

/// The exit code of a command whose use is explained: only who asked for it gets zero.
pub open spec fn usage_code(args: Seq<Seq<char>>) -> int {
    if help_requested(args, 2) {
        0
    } else {
        1
    }
}

/// What the arguments, the first of which is the name of the program, ask for.
pub open spec fn plan(args: Seq<Seq<char>>) -> Plan {
    let explain = help_requested(args, 2) || args.len() < 3;
    if args.len() < 2 {
        Plan::GeneralUsage { code: 1 }
    } else if is_help(args[1]) {
        Plan::GeneralUsage { code: 0 }
    } else if args[1] == "export"@ {
        if explain {
            Plan::ExportUsage { code: usage_code(args) }
        } else {
            match flag_value(args, 3, output_flags()) {
                Some(Some(path)) => Plan::Export { gram: args[2], output: path },
                _ => Plan::ExportNeedsOutput,
            }
        }
    } else if args[1] == "build"@ {
        if explain {
            Plan::BuildUsage { code: usage_code(args) }
        } else {
            match flag_value(args, 3, input_flags()) {
                Some(Some(path)) => Plan::Build { output: args[2], input: Some(path) },
                Some(None) => Plan::BuildNeedsInput,
                None => Plan::Build { output: args[2], input: None },
            }
        }
    } else if args[1] == "query"@ {
        if explain {
            Plan::QueryUsage { code: usage_code(args) }
        } else {
            Plan::Query { gram: args[2], keys: args.skip(3) }
        }
    } else {
        Plan::UnknownCommand
    }
}

/// Whether two strings have the same characters.
fn same(a: &str, b: &str) -> (res: bool)
    ensures
        res == (a@ == b@),
{
    let x: String = a.to_owned();
    let y: String = b.to_owned();
    x == y
}

/// Whether an argument asks for help.
pub fn is_help_flag(arg: &str) -> (res: bool)
    ensures
        res == (arg@ == "--help"@ || arg@ == "-h"@),
        res == is_help(arg@),
{
    same(arg, "--help") || same(arg, "-h")
}

/// Looking for one of the flags among the arguments gives `res`.
pub open spec fn flag_found(args: Seq<String>, flags: Seq<&str>, res: Option<Option<&str>>) -> bool {
    let wanted = Seq::new(flags.len(), |i: int| flags[i]@);
    match flag_value(texts(args), 0, wanted) {
        None => res is None,
        Some(None) => res == Some(None::<&str>),
        Some(Some(text)) => res matches Some(Some(found)) && found@ == text,
    }
}

/// Looks for a flag among the arguments. Returns what follows the first flag that is found:
/// an argument, or nothing.
pub fn get_flag_value<'a>(args: &'a [String], flags: &[&str]) -> (res: Option<Option<&'a str>>)
    ensures
        flag_found(args@, flags@, res),
{
    let ghost wanted: Seq<Seq<char>> = Seq::new(flags@.len(), |i: int| flags@[i]@);
    let ghost ts: Seq<Seq<char>> = texts(args@);
    let mut i: usize = 0;
    while i < args.len()
        invariant
            i <= args@.len(),
            ts == texts(args@),
            wanted == Seq::new(flags@.len(), |i: int| flags@[i]@),
            flag_value(ts, 0, wanted) == flag_value(ts, i as int, wanted),
        decreases args@.len() - i,
    {
        let mut found: bool = false;
        let mut j: usize = 0;
        while j < flags.len()
            invariant
                i < args@.len(),
                j <= flags@.len(),
                ts == texts(args@),
                wanted == Seq::new(flags@.len(), |i: int| flags@[i]@),
                found == (exists|x: int| 0 <= x < j && #[trigger] wanted[x] == ts[i as int]),
            decreases flags@.len() - j,
        {
            let hit: bool = same(args[i].as_str(), flags[j]);
            assert(hit == (wanted[j as int] == ts[i as int]));
            proof {
                if found {
                    let x = choose|x: int| 0 <= x < j && #[trigger] wanted[x] == ts[i as int];
                    assert(wanted[x] == ts[i as int]);
                }
            }
            found = found || hit;
            j += 1;
        }
        assert(found == wanted.contains(ts[i as int])) by {
            if wanted.contains(ts[i as int]) {
                let x = choose|x: int| 0 <= x < wanted.len() && wanted[x] == ts[i as int];
                assert(wanted[x] == ts[i as int]);
            }
        }
        if found {
            if i + 1 < args.len() {
                return Some(Some(args[i + 1].as_str()));
            }
            return Some(None);
        }
        i += 1;
    }
    None
}

/// The value of a flag does not depend on the arguments before those that are searched.
proof fn lemma_flag_skip(args: Seq<Seq<char>>, n: int, from: int, flags: Seq<Seq<char>>)
    requires
        0 <= n <= args.len(),
        from >= 0,
    ensures
        flag_value(args.skip(n), from, flags) == flag_value(args, n + from, flags),
    decreases args.len() - n - from,
{
    if n + from < args.len() {
        lemma_flag_skip(args, n, from + 1, flags);
        assert(args.skip(n)[from] == args[n + from]);
    }
}

/// The arguments ask for `res`.
pub open spec fn decided(args: Seq<String>, res: Action) -> bool {
    res@ == plan(texts(args))
}

/// What the arguments, the first of which is the name of the program, ask for.
pub fn decide(args: &[String]) -> (res: Action)
    ensures
        decided(args@, res),
{
    let ghost ts: Seq<Seq<char>> = texts(args@);
    if args.len() < 2 {
        return Action::GeneralUsage { code: 1 };
    }
    if is_help_flag(args[1].as_str()) {
        return Action::GeneralUsage { code: 0 };
    }
    let mut help: bool = false;
    let mut i: usize = 2;
    while i < args.len()
        invariant
            2 <= i <= args@.len(),
            ts == texts(args@),
            help == (exists|x: int| 2 <= x < i && is_help(#[trigger] ts[x])),
        decreases args@.len() - i,
    {
        let hit: bool = is_help_flag(args[i].as_str());
        assert(hit == is_help(ts[i as int]));
        proof {
            if help {
                let x = choose|x: int| 2 <= x < i && is_help(#[trigger] ts[x]);
                assert(is_help(ts[x]));
            }
        }
        help = help || hit;
        i += 1;
    }
    assert(help == help_requested(ts, 2));
    let code: i32 = if help {
        0
    } else {
        1
    };
    let cmd: &str = args[1].as_str();
    let explain: bool = help || args.len() < 3;
    if same(cmd, "export") {
        if explain {
            return Action::ExportUsage { code: code };
        }
        let flags: [&str; 2] = ["-o", "--output"];
        let rest: &[String] = &args[3..args.len()];
        proof {
            assert(texts(rest@) =~= ts.skip(3));
            lemma_flag_skip(ts, 3, 0, output_flags());
            assert(Seq::new(flags@.len(), |i: int| flags@[i]@) =~= output_flags());
        }
        match get_flag_value(rest, &flags) {
            Some(Some(path)) => Action::Export { gram: args[2].clone(), output: path.to_owned() },
            _ => Action::ExportNeedsOutput,
        }
    } else if same(cmd, "build") {
        if explain {
            return Action::BuildUsage { code: code };
        }
        let flags: [&str; 2] = ["-i", "--input"];
        let rest: &[String] = &args[3..args.len()];
        proof {
            assert(texts(rest@) =~= ts.skip(3));
            lemma_flag_skip(ts, 3, 0, input_flags());
            assert(Seq::new(flags@.len(), |i: int| flags@[i]@) =~= input_flags());
        }
        match get_flag_value(rest, &flags) {
            Some(Some(path)) => Action::Build { output: args[2].clone(), input: Some(path.to_owned()) },
            Some(None) => Action::BuildNeedsInput,
            None => Action::Build { output: args[2].clone(), input: None },
        }
    } else if same(cmd, "query") {
        if explain {
            return Action::QueryUsage { code: code };
        }
        let mut keys: Vec<String> = Vec::new();
        let mut j: usize = 3;
        while j < args.len()
            invariant
                3 <= j <= args@.len(),
                ts == texts(args@),
                texts(keys@) == ts.subrange(3, j as int),
            decreases args@.len() - j,
        {
            let ghost before: Seq<String> = keys@;
            keys.push(args[j].clone());
            assert(texts(keys@) =~= texts(before).push(ts[j as int]));
            assert(ts.subrange(3, j + 1) =~= ts.subrange(3, j as int).push(ts[j as int]));
            j += 1;
        }
        assert(texts(keys@) =~= ts.skip(3));
        Action::Query { gram: args[2].clone(), keys: keys }
    } else {
        Action::UnknownCommand
    }
}

/// The position of the first tab at or behind `from`, or the length.
pub open spec fn next_tab(s: Seq<char>, from: int) -> int
    decreases s.len() - from,
{
    if from >= s.len() {
        s.len() as int
    } else if s[from] == '\t' {
        from
    } else {
        next_tab(s, from + 1)
    }
}

/// The position behind the last tab among the first `n` characters, or zero.
pub open spec fn after_last_tab(s: Seq<char>, n: int) -> int
    decreases n,
{
    if n <= 0 {
        0
    } else if s[n - 1] == '\t' {
        n
    } else {
        after_last_tab(s, n - 1)
    }
}

/// Whether a line says nothing: it is empty, or a comment.
pub open spec fn is_blank(line: Seq<char>) -> bool {
    line.len() == 0 || line[0] == '#'
}

/// What a line of the input of a build says.
pub enum Entry {
    /// Nothing.
    Blank,
    /// It has no tab.
    Invalid,
    /// A key, up to the first tab, and a value, behind the last.
    Pair { key: String, value: String },
}

/// The characters of a line.
fn chars_of(line: &str) -> (res: Vec<char>)
    ensures
        res@ == line@,
{
    let mut cs: Vec<char> = Vec::new();
    for c in it: line.chars()
        invariant
            it.seq() == line@,
            cs@ == line@.take(it.index() as int),
    {
        cs.push(c);
        assert(cs@ =~= line@.take(it.index() + 1));
    }
    assert(line@.take(line@.len() as int) =~= line@);
    cs
}

/// A line of the input of a build says `res`.
pub open spec fn entry_read(line: Seq<char>, res: Entry) -> bool {
    match res {
        Entry::Blank => is_blank(line),
        Entry::Invalid => !is_blank(line) && next_tab(line, 0) == line.len(),
        Entry::Pair { key, value } => {
            &&& !is_blank(line)
            &&& next_tab(line, 0) < line.len()
            &&& key@ == line.take(next_tab(line, 0))
            &&& value@ == line.skip(after_last_tab(line, line.len() as int))
        },
    }
}

/// Reads a line of the input of a build.
pub fn parse_entry(line: &str) -> (res: Entry)
    ensures
        entry_read(line@, res),
{
    let cs: Vec<char> = chars_of(line);
    if cs.len() == 0 || cs[0] == '#' {
        return Entry::Blank;
    }
    let first: usize = find_tab(&cs);
    if first == cs.len() {
        return Entry::Invalid;
    }
    let mut last: usize = cs.len();
    while last > 0 && cs[last - 1] != '\t'
        invariant
            last <= cs@.len(),
            cs@ == line@,
            after_last_tab(line@, last as int) == after_last_tab(line@, line@.len() as int),
        decreases last,
    {
        last -= 1;
    }
    proof {
        assert(last == after_last_tab(line@, line@.len() as int));
        assert(line@.subrange(0, first as int) =~= line@.take(first as int));
        assert(line@.subrange(last as int, line@.len() as int) =~= line@.skip(last as int));
    }
    Entry::Pair {
        key: line.substring_char(0, first).to_owned(),
        value: line.substring_char(last, cs.len()).to_owned(),
    }
}

/// The position of the first tab, or the length.
fn find_tab(cs: &Vec<char>) -> (res: usize)
    ensures
        res == next_tab(cs@, 0),
        res <= cs@.len(),
{
    let mut i: usize = 0;
    while i < cs.len() && cs[i] != '\t'
        invariant
            i <= cs@.len(),
            next_tab(cs@, i as int) == next_tab(cs@, 0),
        decreases cs@.len() - i,
    {
        i += 1;
    }
    i
}

/// A line of the input of a query asks for `res`.
pub open spec fn query_read(line: Seq<char>, res: Option<(String, String)>) -> bool {
    match res {
        None => is_blank(line),
        Some((context, word)) => {
            let tab = next_tab(line, 0);
            &&& !is_blank(line)
            &&& if tab < line.len() {
                context@ == line.take(tab) && word@ == line.skip(tab + 1)
            } else {
                context@ == Seq::<char>::empty() && word@ == line
            }
        },
    }
}

/// Reads a line of the input of a query: a word, or a context and a word with a tab between
/// them. A line that says nothing asks for nothing.
pub fn parse_query(line: &str) -> (res: Option<(String, String)>)
    ensures
        query_read(line@, res),
{
    let cs: Vec<char> = chars_of(line);
    if cs.len() == 0 || cs[0] == '#' {
        return None;
    }
    let tab: usize = find_tab(&cs);
    if tab == cs.len() {
        return Some((String::new(), line.to_owned()));
    }
    proof {
        assert(line@.subrange(0, tab as int) =~= line@.take(tab as int));
        assert(line@.subrange(tab + 1, line@.len() as int) =~= line@.skip(tab + 1));
    }
    Some((line.substring_char(0, tab).to_owned(), line.substring_char(tab + 1, cs.len()).to_owned()))
}

/// The keys of a query ask for the lookups `pairs`.
pub open spec fn paired(keys: Seq<String>, pairs: Seq<(String, String)>) -> bool {
    &&& pairs.len() == (if keys.len() < 2 {
        keys.len() as int
    } else {
        keys.len() - 1
    })
    &&& forall|i: int|
        #![trigger pairs[i]]
        0 <= i < pairs.len() ==> if keys.len() < 2 {
            pairs[i].0@ == Seq::<char>::empty() && pairs[i].1@ == keys[i]@
        } else if i == 0 {
            pairs[i].0@ == keys[0]@ && pairs[i].1@ == keys[1]@
        } else {
            pairs[i].0@ == Seq::<char>::empty() && pairs[i].1@ == keys[i + 1]@
        }
}

/// The lookups that the keys of a query ask for: one key is a word; of more keys the first two
/// are a context and a word, and each of the others is a word.
pub fn query_pairs(keys: &[String]) -> (res: Vec<(String, String)>)
    ensures
        paired(keys@, res@),
{
    let mut pairs: Vec<(String, String)> = Vec::new();
    if keys.len() == 1 {
        pairs.push((String::new(), keys[0].clone()));
    } else if keys.len() > 1 {
        pairs.push((keys[0].clone(), keys[1].clone()));
        let mut i: usize = 2;
        while i < keys.len()
            invariant
                2 <= i <= keys@.len(),
                pairs@.len() == i - 1,
                pairs@[0].0@ == keys@[0]@ && pairs@[0].1@ == keys@[1]@,
                forall|j: int|
                    #![trigger pairs@[j]]
                    0 < j < pairs@.len() ==> pairs@[j].0@ == Seq::<char>::empty() && pairs@[j].1@ == keys@[j + 1]@,
            decreases keys@.len() - i,
        {
            pairs.push((String::new(), keys[i].clone()));
            i += 1;
        }
    }
    pairs
}

/// The key that a lookup found reads `res`.
pub open spec fn key_named(context: Seq<char>, word: Seq<char>, length: usize, res: Seq<char>) -> bool {
    res == codec::decode_bytes(codec::encode_chars(context) + codec::encode_chars(word).take(length as int))
}

/// The key that a lookup found: the context and the first `length` bytes of the encoded word.
pub fn matched_key(context: &str, word: &str, length: usize) -> (res: String)
    requires
        length <= codec::encode_chars(word@).len(),
    ensures
        key_named(context@, word@, length, res@),
{
    let mut key: Vec<u8> = GramDbKey::encode(context);
    let word_bytes: Vec<u8> = GramDbKey::encode(word);
    let mut i: usize = 0;
    assert(key@ =~= codec::encode_chars(context@) + word_bytes@.take(0));
    while i < length
        invariant
            i <= length <= word_bytes@.len(),
            key@ == codec::encode_chars(context@) + word_bytes@.take(i as int),
        decreases length - i,
    {
        key.push(word_bytes[i]);
        assert(key@ =~= codec::encode_chars(context@) + word_bytes@.take(i + 1));
        i += 1;
    }
    GramDbKey::decode(key.as_slice())
}

} // verus!
