//! What users of the command line can rely on, in terms of what they write.

use vstd::prelude::*;
use crate::cli;
use crate::cli::{Action, Entry};
use crate::codec;

verus! {

/// Where the first tab at or behind a position is.
proof fn lemma_next_tab(s: Seq<char>, from: int)
    requires
        0 <= from <= s.len(),
    ensures
        from <= cli::next_tab(s, from) <= s.len(),
        forall|i: int| from <= i < cli::next_tab(s, from) ==> #[trigger] s[i] != '\t',
        cli::next_tab(s, from) < s.len() ==> s[cli::next_tab(s, from)] == '\t',
    decreases s.len() - from,
{
    if from < s.len() && s[from] != '\t' {
        lemma_next_tab(s, from + 1);
    }
}

/// Where the last tab before a position is.
proof fn lemma_last_tab(s: Seq<char>, n: int)
    requires
        0 <= n <= s.len(),
    ensures
        0 <= cli::after_last_tab(s, n) <= n,
        forall|i: int| cli::after_last_tab(s, n) <= i < n ==> #[trigger] s[i] != '\t',
        cli::after_last_tab(s, n) > 0 ==> s[cli::after_last_tab(s, n) - 1] == '\t',
    decreases n,
{
    if n > 0 && s[n - 1] != '\t' {
        lemma_last_tab(s, n - 1);
    }
}

/// A line of the input of a build says nothing exactly if it is empty or begins with a number
/// sign; else it is an entry exactly if it has a tab. The key of an entry is what is before the
/// first tab of the line, and the value is what is behind the last.
pub proof fn law_entry(line: Seq<char>, res: Entry)
    requires
        cli::entry_read(line, res),
    ensures
        res is Blank <==> line.len() == 0 || line[0] == '#',
        res is Invalid <==> line.len() > 0 && line[0] != '#' && !line.contains('\t'),
        res matches Entry::Pair { key, value } ==> {
            &&& !key@.contains('\t')
            &&& exists|rest: Seq<char>| line == #[trigger] (key@ + seq!['\t'] + rest)
            &&& !value@.contains('\t')
            &&& exists|front: Seq<char>| line == #[trigger] (front + seq!['\t'] + value@)
        },
{
    let n = line.len() as int;
    let first = cli::next_tab(line, 0);
    let last = cli::after_last_tab(line, n);
    lemma_next_tab(line, 0);
    lemma_last_tab(line, n);
    if first < n {
        assert(line.contains(line[first]));
    } else if line.contains('\t') {
        let i = choose|i: int| 0 <= i < line.len() && line[i] == '\t';
        assert(line[i] == '\t');
    }
    if let Entry::Pair { key, value } = res {
        if last <= first {
            assert(line[first] == '\t');
        }
        assert(line =~= key@ + seq!['\t'] + line.skip(first + 1));
        assert(line =~= line.take(last - 1) + seq!['\t'] + value@);
        if key@.contains('\t') {
            let i = choose|i: int| 0 <= i < key@.len() && key@[i] == '\t';
            assert(line[i] == '\t');
        }
        if value@.contains('\t') {
            let i = choose|i: int| 0 <= i < value@.len() && value@[i] == '\t';
            assert(line[last + i] == '\t');
        }
    }
}

/// A line that is made of a key without tabs, a tab, perhaps other fields, each with a tab
/// behind it, and a value without tabs gives back the key and the value.
pub proof fn law_entry_made(key: Seq<char>, fields: Seq<char>, value: Seq<char>, res: Entry)
    requires
        !key.contains('\t'),
        !value.contains('\t'),
        key.len() > 0 ==> key[0] != '#',
        fields.len() > 0 ==> fields.last() == '\t',
        cli::entry_read(key + seq!['\t'] + fields + value, res),
    ensures
        res matches Entry::Pair { key: k, value: v } && k@ == key && v@ == value,
{
    let line = key + seq!['\t'] + fields + value;
    let n = line.len() as int;
    let first = cli::next_tab(line, 0);
    let last = cli::after_last_tab(line, n);
    let k = key.len() as int;
    let e = n - value.len();
    assert(line[k] == '\t');
    assert(line[e - 1] == '\t') by {
        if fields.len() > 0 {
            assert(line[e - 1] == fields.last());
        }
    }
    law_entry(line, res);
    assert(line.contains('\t'));
    lemma_next_tab(line, 0);
    lemma_last_tab(line, n);
    if first < k {
        assert(line[first] == key[first]);
    }
    if last > e {
        assert(line[last - 1] == value[last - 1 - e]);
    }
    assert(line.take(k) =~= key);
    assert(line.skip(e) =~= value);
    assert(k > 0 ==> line[0] == key[0]);
}

/// A line of the input of a query asks for nothing exactly if it is empty or begins with a
/// number sign. Another line without a tab is a word, and one with a tab has its context before
/// the first tab and its word behind it.
pub proof fn law_query(line: Seq<char>, res: Option<(String, String)>)
    requires
        cli::query_read(line, res),
    ensures
        res is None <==> line.len() == 0 || line[0] == '#',
        res matches Some((context, word)) ==> if line.contains('\t') {
            line == context@ + seq!['\t'] + word@ && !context@.contains('\t')
        } else {
            context@.len() == 0 && word@ == line
        },
{
    let n = line.len() as int;
    let first = cli::next_tab(line, 0);
    lemma_next_tab(line, 0);
    if first < n {
        assert(line.contains(line[first]));
    } else if line.contains('\t') {
        let i = choose|i: int| 0 <= i < line.len() && line[i] == '\t';
        assert(line[i] == '\t');
    }
    if let Some((context, word)) = res {
        if first < n {
            assert(line =~= context@ + seq!['\t'] + word@);
            if context@.contains('\t') {
                let i = choose|i: int| 0 <= i < context@.len() && context@[i] == '\t';
                assert(line[i] == '\t');
            }
        }
    }
}

/// One key asks for a word, two ask for a context and a word, and every further one asks for
/// another word.
pub proof fn law_query_keys(keys: Seq<String>, pairs: Seq<(String, String)>)
    requires
        cli::paired(keys, pairs),
    ensures
        keys.len() == 0 ==> pairs.len() == 0,
        keys.len() == 1 ==> pairs.len() == 1 && pairs[0].0@.len() == 0 && pairs[0].1@ == keys[0]@,
        keys.len() == 2 ==> pairs.len() == 1 && pairs[0].0@ == keys[0]@ && pairs[0].1@ == keys[1]@,
        keys.len() > 2 ==> {
            &&& pairs.len() > 1
            &&& cli::paired(keys.drop_last(), pairs.drop_last())
            &&& pairs.last().0@.len() == 0
            &&& pairs.last().1@ == keys.last()@
        },
{
    if keys.len() > 2 {
        let ks = keys.drop_last();
        let ps = pairs.drop_last();
        assert forall|i: int| #![trigger ps[i]] 0 <= i < ps.len() implies if i == 0 {
            ps[i].0@ == ks[0]@ && ps[i].1@ == ks[1]@
        } else {
            ps[i].0@ == Seq::<char>::empty() && ps[i].1@ == ks[i + 1]@
        } by {
            assert(ps[i] == pairs[i]);
        }
    }
}

/// Whether a flag is found is decided by the first of the arguments that is a flag.
proof fn lemma_flag(args: Seq<Seq<char>>, from: int, flags: Seq<Seq<char>>, j: int)
    requires
        0 <= from <= j <= args.len(),
        forall|i: int| from <= i < j ==> !flags.contains(#[trigger] args[i]),
        j < args.len() ==> flags.contains(args[j]),
    ensures
        cli::flag_value(args, from, flags) == (if j >= args.len() {
            None
        } else if j + 1 < args.len() {
            Some(Some(args[j + 1]))
        } else {
            Some(None)
        }),
    decreases j - from,
{
    if from < j {
        lemma_flag(args, from + 1, flags, j);
    }
}

/// A flag is found exactly if it is one of the arguments. If `j` is the position of the first
/// one that is, its value is the argument behind it, if there is one.
pub proof fn law_flag(args: Seq<String>, flags: Seq<&str>, j: int, res: Option<Option<&str>>)
    requires
        cli::flag_found(args, flags, res),
        0 <= j <= args.len(),
        forall|i: int, f: int| 0 <= i < j && 0 <= f < flags.len() ==> #[trigger] args[i]@ != #[trigger] flags[f]@,
        j < args.len() ==> exists|f: int| 0 <= f < flags.len() && args[j]@ == #[trigger] flags[f]@,
    ensures
        j == args.len() ==> res is None,
        j + 1 == args.len() ==> res == Some(None::<&str>),
        j + 1 < args.len() ==> (res matches Some(Some(value)) && value@ == args[j + 1]@),
{
    let ts = cli::texts(args);
    let wanted = Seq::new(flags.len(), |i: int| flags[i]@);
    assert forall|i: int| 0 <= i < j implies !wanted.contains(#[trigger] ts[i]) by {
        if wanted.contains(ts[i]) {
            let f = choose|f: int| 0 <= f < wanted.len() && wanted[f] == ts[i];
            assert(args[i]@ != flags[f]@);
        }
    }
    if j < args.len() {
        let f = choose|f: int| 0 <= f < flags.len() && args[j]@ == #[trigger] flags[f]@;
        assert(wanted[f] == ts[j]);
    }
    lemma_flag(ts, 0, wanted, j);
}

/// The words of the command line are different.
proof fn lemma_literals()
    ensures
        "export"@ != "build"@,
        "export"@ != "query"@,
        "build"@ != "query"@,
        !cli::is_help("export"@),
        !cli::is_help("build"@),
        !cli::is_help("query"@),
{
    reveal_strlit("export");
    reveal_strlit("build");
    reveal_strlit("query");
    reveal_strlit("--help");
    reveal_strlit("-h");
    assert("export"@[0] == 'e');
    assert("build"@[0] == 'b');
    assert("query"@[0] == 'q');
    assert("--help"@[0] == '-');
    assert("-h"@[0] == '-');
}

/// Without a command, or with "--help" or "-h" in its place, the program explains itself; the
/// exit code is zero only for those who asked. A command that is neither "export" nor "build"
/// nor "query" is unknown.
pub proof fn law_decide_general(args: Seq<String>, res: Action)
    requires
        cli::decided(args, res),
    ensures
        args.len() < 2 <==> res == (Action::GeneralUsage { code: 1 }),
        args.len() >= 2 && (args[1]@ == "--help"@ || args[1]@ == "-h"@) <==> res == (Action::GeneralUsage { code: 0 }),
        args.len() >= 2 && args[1]@ != "--help"@ && args[1]@ != "-h"@ && args[1]@ != "export"@ && args[1]@ != "build"@
            && args[1]@ != "query"@ <==> res is UnknownCommand,
{
    lemma_literals();
    assert(args.len() >= 2 ==> cli::texts(args)[1] == args[1]@);
}

/// A command that is given "--help" or "-h" behind it, at any place, explains itself and the
/// program ends with zero. So does a command with nothing behind it, but the program ends with
/// one.
pub proof fn law_decide_help(args: Seq<String>, res: Action)
    requires
        cli::decided(args, res),
        args.len() >= 2,
    ensures
        ({
            let asked = exists|i: int|
                2 <= i < args.len() && ((#[trigger] args[i])@ == "--help"@ || args[i]@ == "-h"@);
            let code: i32 = if asked {
                0
            } else {
                1
            };
            asked || args.len() == 2 ==> {
                &&& args[1]@ == "export"@ ==> res == (Action::ExportUsage { code: code })
                &&& args[1]@ == "build"@ ==> res == (Action::BuildUsage { code: code })
                &&& args[1]@ == "query"@ ==> res == (Action::QueryUsage { code: code })
            }
        }),
{
    let ts = cli::texts(args);
    lemma_literals();
    lemma_asked(args);
    assert(ts[1] == args[1]@);
}

proof fn lemma_asked(args: Seq<String>)
    ensures
        cli::help_requested(cli::texts(args), 2) <==> exists|i: int|
            2 <= i < args.len() && ((#[trigger] args[i])@ == "--help"@ || args[i]@ == "-h"@),
{
    let ts = cli::texts(args);
    if cli::help_requested(ts, 2) {
        let i = choose|i: int| 2 <= i < ts.len() && cli::is_help(#[trigger] ts[i]);
        assert(args[i]@ == "--help"@ || args[i]@ == "-h"@);
    }
    if exists|i: int| 2 <= i < args.len() && ((#[trigger] args[i])@ == "--help"@ || args[i]@ == "-h"@) {
        let i = choose|i: int| 2 <= i < args.len() && ((#[trigger] args[i])@ == "--help"@ || args[i]@ == "-h"@);
        assert(cli::is_help(ts[i]));
    }
}

/// The command "export" takes a file, and behind it, at the first place where there is "-o" or
/// "--output", the output: the argument behind that. It fails if there is none.
pub proof fn law_decide_export(args: Seq<String>, j: int, res: Action)
    requires
        cli::decided(args, res),
        args.len() >= 3,
        args[1]@ == "export"@,
        forall|i: int| 2 <= i < args.len() ==> (#[trigger] args[i])@ != "--help"@ && args[i]@ != "-h"@,
        3 <= j <= args.len(),
        forall|i: int| 3 <= i < j ==> (#[trigger] args[i])@ != "-o"@ && args[i]@ != "--output"@,
        j < args.len() ==> args[j]@ == "-o"@ || args[j]@ == "--output"@,
    ensures
        j + 1 < args.len() ==> (res matches Action::Export { gram, output } && gram@ == args[2]@ && output@ == args[j
            + 1]@),
        j + 1 >= args.len() ==> res is ExportNeedsOutput,
{
    let ts = cli::texts(args);
    let flags = cli::output_flags();
    lemma_literals();
    lemma_asked(args);
    assert(flags[0] == "-o"@ && flags[1] == "--output"@);
    assert forall|i: int| 3 <= i < j implies !flags.contains(#[trigger] ts[i]) by {
        assert(args[i]@ != "-o"@ && args[i]@ != "--output"@);
    }
    lemma_flag(ts, 3, flags, j);
    assert(ts[1] == args[1]@ && ts[2] == args[2]@);
}

/// The command "build" takes a file, and behind it, at the first place where there is "-i" or
/// "--input", the input: the argument behind that. Without such a flag there is no input, and
/// it fails if there is a flag but nothing behind it.
pub proof fn law_decide_build(args: Seq<String>, j: int, res: Action)
    requires
        cli::decided(args, res),
        args.len() >= 3,
        args[1]@ == "build"@,
        forall|i: int| 2 <= i < args.len() ==> (#[trigger] args[i])@ != "--help"@ && args[i]@ != "-h"@,
        3 <= j <= args.len(),
        forall|i: int| 3 <= i < j ==> (#[trigger] args[i])@ != "-i"@ && args[i]@ != "--input"@,
        j < args.len() ==> args[j]@ == "-i"@ || args[j]@ == "--input"@,
    ensures
        j + 1 < args.len() ==> (res matches Action::Build { output, input: Some(input) } && output@ == args[2]@
            && input@ == args[j + 1]@),
        j + 1 == args.len() ==> res is BuildNeedsInput,
        j == args.len() ==> (res matches Action::Build { output, input: None } && output@ == args[2]@),
{
    let ts = cli::texts(args);
    let flags = cli::input_flags();
    lemma_literals();
    lemma_asked(args);
    assert(flags[0] == "-i"@ && flags[1] == "--input"@);
    assert forall|i: int| 3 <= i < j implies !flags.contains(#[trigger] ts[i]) by {
        assert(args[i]@ != "-i"@ && args[i]@ != "--input"@);
    }
    lemma_flag(ts, 3, flags, j);
    assert(ts[1] == args[1]@ && ts[2] == args[2]@);
}

/// The command "query" takes a file, and everything behind it is a key.
pub proof fn law_decide_query(args: Seq<String>, res: Action)
    requires
        cli::decided(args, res),
        args.len() >= 3,
        args[1]@ == "query"@,
        forall|i: int| 2 <= i < args.len() ==> (#[trigger] args[i])@ != "--help"@ && args[i]@ != "-h"@,
    ensures
        res matches Action::Query { gram, keys } && gram@ == args[2]@ && keys@.len() == args.len() - 3 && (forall|i: int|
            0 <= i < keys@.len() ==> (#[trigger] keys@[i])@ == args[i + 3]@),
{
    let ts = cli::texts(args);
    lemma_literals();
    lemma_asked(args);
    assert(ts[1] == args[1]@ && ts[2] == args[2]@);
    if let Action::Query { gram, keys } = res {
        assert(cli::texts(keys@) == ts.skip(3));
        assert(cli::texts(keys@).len() == ts.skip(3).len());
        assert forall|i: int| 0 <= i < keys@.len() implies (#[trigger] keys@[i])@ == args[i + 3]@ by {
            assert(cli::texts(keys@)[i] == ts.skip(3)[i]);
            assert(ts.skip(3)[i] == ts[i + 3]);
        }
    }
}

/// A key that was found reads as the context and as many characters of the word as were
/// matched, if these are ASCII or from 0x4000 to below 0xA000.
pub proof fn law_key_named(context: Seq<char>, word: Seq<char>, m: int, length: usize, res: Seq<char>)
    requires
        0 <= m <= word.len(),
        length == codec::encode_chars(word.take(m)).len(),
        forall|i: int|
            0 <= i < context.len() ==> (#[trigger] context[i] as u32) < 0x80 || 0x4000 <= context[i] as u32
                && (context[i] as u32) < 0xA000,
        forall|i: int|
            0 <= i < m ==> (#[trigger] word[i] as u32) < 0x80 || 0x4000 <= word[i] as u32 && (word[i] as u32) < 0xA000,
        cli::key_named(context, word, length, res),
    ensures
        res == context + word.take(m),
{
    let head = word.take(m);
    let rest = word.skip(m);
    assert(word =~= head + rest);
    codec::lemma_encode_concat(head, rest);
    assert(codec::encode_chars(word).take(length as int) =~= codec::encode_chars(head));
    codec::lemma_encode_concat(context, head);
    let full = context + head;
    assert forall|i: int| 0 <= i < full.len() implies codec::is_plain(#[trigger] full[i]) by {
        if i < context.len() {
            assert(full[i] == context[i]);
        } else {
            assert(full[i] == word[i - context.len()]);
        }
    }
    codec::law_decode_encode(full);
}

/// The key that was found depends on the bytes of the context and the word alone: it reads as if
/// both were the word. A word that was matched as a whole is decoded from its own bytes.
pub proof fn law_key_joined(
    context: Seq<char>,
    word: Seq<char>,
    length: usize,
    total: usize,
    res: Seq<char>,
    joined: Seq<char>,
)
    requires
        length <= codec::encode_chars(word).len(),
        total == codec::encode_chars(context).len() + length,
        cli::key_named(context, word, length, res),
        cli::key_named(Seq::empty(), context + word, total, joined),
    ensures
        res == joined,
        context.len() == 0 && length == codec::encode_chars(word).len() ==> res == codec::decode_bytes(
            codec::encode_chars(word),
        ),
{
    let c = codec::encode_chars(context);
    let w = codec::encode_chars(word);
    codec::lemma_encode_concat(context, word);
    let none = codec::encode_chars(Seq::<char>::empty());
    assert(none =~= Seq::<u8>::empty());
    assert(none + (c + w).take(total as int) =~= c + w.take(length as int));
    assert(w.take(w.len() as int) =~= w);
    if context.len() == 0 {
        assert(context =~= Seq::<char>::empty());
        assert(none + w =~= w);
    }
}

} // verus!
