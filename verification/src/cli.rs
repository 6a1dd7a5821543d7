//! Command-line arguments and the text of the `models` and `info` commands.
use crate::meta::{ModelStatus, RunMeta};
use crate::names;
use crate::order;
use crate::steps;
use crate::store::SPATIAL_PREFIX;
use crate::text;
use crate::timefmt;
use crate::timefmt::UtcTime;
use vstd::prelude::*;
use vstd::slice::slice_subrange;
use vstd::string::*;

verus! {

/// How much is logged.
#[derive(Debug, Clone, Copy, PartialEq, Eq, Structural)]
pub enum Verbosity {
    Warn,
    Info,
    Debug,
    Trace,
}

/// The log level that `-q` and the number of `-v` ask for.
pub fn verbosity(quiet: bool, verbose: u8) -> (r: Verbosity)
    ensures
        r == (if quiet {
            Verbosity::Warn
        } else if verbose == 0 {
            Verbosity::Info
        } else if verbose == 1 {
            Verbosity::Debug
        } else {
            Verbosity::Trace
        }),
{
    if quiet {
        return Verbosity::Warn;
    }
    match verbose {
        0 => Verbosity::Info,
        1 => Verbosity::Debug,
        _ => Verbosity::Trace,
    }
}

/// The read-cache block size in bytes: at least 16 KiB.
pub fn block_bytes(block_kib: u64) -> (r: u64)
    requires
        block_kib * 1024 <= u64::MAX,
    ensures
        r == (if block_kib < 16 {
            16384int
        } else {
            block_kib * 1024
        }),
{
    if block_kib < 16 {
        16 * 1024
    } else {
        block_kib * 1024
    }
}

/// The variables as they are asked for: trimmed, without empty ones, and
/// without one that repeats the one before it.
pub open spec fn asked_variables(args: Seq<Seq<char>>) -> Seq<Seq<char>>
    decreases args.len(),
{
    if args.len() == 0 {
        Seq::empty()
    } else {
        let rest = asked_variables(args.drop_last());
        let v = text::trimmed(args.last());
        if v.len() == 0 || (rest.len() > 0 && rest.last() == v) {
            rest
        } else {
            rest.push(v)
        }
    }
}

/// Clean up the variables of the command line.
pub fn clean_variables(args: &[String]) -> (r: Vec<String>)
    ensures
        text::texts(r@) == asked_variables(text::texts(args@)),
{
    let ghost all = text::texts(args@);
    let mut out: Vec<String> = Vec::new();
    let mut i: usize = 0;
    assert(all.take(0) == Seq::<Seq<char>>::empty());
    assert(text::texts(out@) == Seq::<Seq<char>>::empty());
    while i < args.len()
        invariant
            i <= args.len(),
            all == text::texts(args@),
            text::texts(out@) == asked_variables(all.take(i as int)),
        decreases args.len() - i,
    {
        let ghost before = out@;
        assert(all.take(i + 1).drop_last() == all.take(i as int));
        assert(text::texts(before).len() == before.len());
        let c = text::chars_of(args[i].as_str());
        let t = text::trim_chars(c.as_slice());
        let v = text::string_of(t);
        let n: usize = out.len();
        if t.len() > 0 && !(n > 0 && text::same(out[n - 1].as_str(), v.as_str())) {
            out.push(v);
            assert(text::texts(out@) == text::texts(before).push(text::trimmed(all[i as int])));
        }
        i += 1;
    }
    assert(all.take(i as int) == all);
    out
}

/// A character that needs quoting on a command line.
pub open spec fn is_special(c: char) -> bool {
    text::is_space(c) || c == '"' || c == '\'' || c == '$' || c == '`' || c == '\\'
}

pub open spec fn needs_quotes(word: Seq<char>) -> bool {
    word.len() == 0 || exists|i: int| 0 <= i < word.len() && is_special(#[trigger] word[i])
}

/// The word with each single quote written as `'\''`.
pub open spec fn escaped(word: Seq<char>) -> Seq<char>
    decreases word.len(),
{
    if word.len() == 0 {
        Seq::empty()
    } else if word.last() == '\'' {
        escaped(word.drop_last()) + "'\\''"@
    } else {
        escaped(word.drop_last()).push(word.last())
    }
}

/// A word as it is written on a command line.
pub open spec fn shell_word(word: Seq<char>) -> Seq<char> {
    if needs_quotes(word) {
        seq!['\''] + escaped(word) + seq!['\'']
    } else {
        word
    }
}

pub open spec fn shell_text(argv: Seq<Seq<char>>) -> Seq<char> {
    text::join(argv.map_values(|a: Seq<char>| shell_word(a)), " "@)
}

fn quoted_word(word: &str) -> (r: String)
    ensures
        r@ == shell_word(word@),
{
    let c = text::chars_of(word);
    let mut special = c.len() == 0;
    let mut i: usize = 0;
    while i < c.len()
        invariant
            i <= c.len(),
            c@ == word@,
            special == (c@.len() == 0 || exists|k: int| 0 <= k < i && is_special(#[trigger] c@[k])),
        decreases c.len() - i,
    {
        let x = c[i];
        if text::is_space_char(x) || x == '"' || x == '\'' || x == '$' || x == '`' || x == '\\' {
            assert(is_special(c@[i as int]));
            special = true;
        }
        i += 1;
    }
    if !special {
        return word.to_owned();
    }
    let mut out = String::new();
    out.push('\'');
    let ghost open = out@;
    let mut j: usize = 0;
    assert(c@.take(0) == Seq::<char>::empty());
    assert(out@ == open + escaped(c@.take(0)));
    while j < c.len()
        invariant
            j <= c.len(),
            out@ == open + escaped(c@.take(j as int)),
        decreases c.len() - j,
    {
        let ghost t = c@.take(j + 1);
        assert(t.drop_last() == c@.take(j as int));
        if c[j] == '\'' {
            out.append("'\\''");
        } else {
            out.push(c[j]);
        }
        assert(out@ == open + escaped(t));
        j += 1;
    }
    assert(c@.take(j as int) == c@);
    assert(open == seq!['\'']);
    out.push('\'');
    assert(out@ == seq!['\''] + escaped(word@) + seq!['\'']);
    out
}

/// Re-quote argv for the `history` attribute.
pub fn shell_words(argv: &[String]) -> (r: String)
    ensures
        r@ == shell_text(text::texts(argv@)),
{
    let ghost want = text::texts(argv@).map_values(|a: Seq<char>| shell_word(a));
    let mut out: Vec<String> = Vec::new();
    let mut i: usize = 0;
    while i < argv.len()
        invariant
            i <= argv.len(),
            want == text::texts(argv@).map_values(|a: Seq<char>| shell_word(a)),
            out@.len() == i,
            forall|k: int| 0 <= k < i ==> (#[trigger] out@[k])@ == want[k],
        decreases argv.len() - i,
    {
        out.push(quoted_word(argv[i].as_str()));
        i += 1;
    }
    assert(text::texts(out@) == want);
    text::join_texts(out.as_slice(), " ")
}

/// Where a shell is while it splits a line into words.
pub enum ShellMode {
    Plain,
    /// Inside single quotes.
    Quoted,
    /// Behind a backslash.
    Escaped,
}

/// What a shell has split off a line: the words that are complete, and the one
/// that has begun.
pub struct Shell {
    pub words: Seq<Seq<char>>,
    pub word: Option<Seq<char>>,
    pub mode: ShellMode,
}

impl Shell {
    pub open spec fn new() -> Shell {
        Shell { words: Seq::empty(), word: None, mode: ShellMode::Plain }
    }

    /// The word that has begun, empty where none has.
    pub open spec fn begun(self) -> Seq<char> {
        match self.word {
            Some(w) => w,
            None => Seq::empty(),
        }
    }

    /// All words, where the line ends here.
    pub open spec fn all_words(self) -> Seq<Seq<char>> {
        match self.word {
            Some(w) => self.words.push(w),
            None => self.words,
        }
    }

    /// Words are separated by whitespace. Single quotes keep what they hold as it
    /// is, a backslash the character behind it.
    pub open spec fn step(self, c: char) -> Shell {
        match self.mode {
            ShellMode::Plain => if text::is_space(c) {
                Shell { words: self.all_words(), word: None, mode: ShellMode::Plain }
            } else if c == '\'' {
                Shell { word: Some(self.begun()), mode: ShellMode::Quoted, ..self }
            } else if c == '\\' {
                Shell { word: Some(self.begun()), mode: ShellMode::Escaped, ..self }
            } else {
                Shell { word: Some(self.begun().push(c)), ..self }
            },
            ShellMode::Quoted => if c == '\'' {
                Shell { mode: ShellMode::Plain, ..self }
            } else {
                Shell { word: Some(self.begun().push(c)), ..self }
            },
            ShellMode::Escaped => Shell {
                word: Some(self.begun().push(c)),
                mode: ShellMode::Plain,
                ..self
            },
        }
    }

    pub open spec fn read(self, line: Seq<char>) -> Shell
        decreases line.len(),
    {
        if line.len() == 0 {
            self
        } else {
            self.read(line.drop_last()).step(line.last())
        }
    }
}

/// The words of a line as a shell splits it; none where a quote is left open.
pub open spec fn shell_split(line: Seq<char>) -> Option<Seq<Seq<char>>> {
    let end = Shell::new().read(line);
    if end.mode is Plain {
        Some(end.all_words())
    } else {
        None
    }
}

proof fn lemma_read_on(s: Shell, a: Seq<char>, b: Seq<char>)
    ensures
        s.read(a + b) == s.read(a).read(b),
    decreases b.len(),
{
    if b.len() == 0 {
        assert(a + b == a);
    } else {
        assert((a + b).drop_last() == a + b.drop_last());
        assert((a + b).last() == b.last());
        lemma_read_on(s, a, b.drop_last());
    }
}

proof fn lemma_read_char(s: Shell, c: char)
    ensures
        s.read(seq![c]) == s.step(c),
{
    assert(seq![c].drop_last() == Seq::<char>::empty());
    assert(s.read(seq![c].drop_last()) == s);
}

/// Inside quotes, an escaped word is read as the word.
proof fn lemma_read_escaped(s: Shell, word: Seq<char>)
    requires
        s.mode is Quoted,
        s.word == Some(Seq::<char>::empty()),
    ensures
        s.read(escaped(word)) == (Shell { word: Some(word), ..s }),
    decreases word.len(),
{
    if word.len() > 0 {
        let front = word.drop_last();
        let t = s.read(escaped(front));
        lemma_read_escaped(s, front);
        assert(front.push(word.last()) == word);
        if word.last() == '\'' {
            let q = "'\\''"@;
            reveal_strlit("'\\''");
            assert(q == seq!['\'', '\\', '\'', '\'']);
            lemma_read_on(s, escaped(front), q);
            lemma_read_on(t, seq!['\'', '\\', '\''], seq!['\'']);
            lemma_read_on(t, seq!['\'', '\\'], seq!['\'']);
            lemma_read_on(t, seq!['\''], seq!['\\']);
            assert(seq!['\'', '\\', '\''] + seq!['\''] == q);
            assert(seq!['\'', '\\'] + seq!['\''] == seq!['\'', '\\', '\'']);
            assert(seq!['\''] + seq!['\\'] == seq!['\'', '\\']);
            lemma_read_char(t, '\'');
            let t1 = t.step('\'');
            lemma_read_char(t1, '\\');
            let t2 = t1.step('\\');
            lemma_read_char(t2, '\'');
            let t3 = t2.step('\'');
            lemma_read_char(t3, '\'');
        } else {
            let e = escaped(front).push(word.last());
            assert(e.drop_last() == escaped(front));
        }
    } else {
        assert(word == Seq::<char>::empty());
    }
}

/// A word without special characters is read as it is.
proof fn lemma_read_plain(s: Shell, word: Seq<char>)
    requires
        s.mode is Plain,
        s.word is None,
        word.len() > 0,
        forall|i: int| 0 <= i < word.len() ==> !is_special(#[trigger] word[i]),
    ensures
        s.read(word) == (Shell { word: Some(word), ..s }),
    decreases word.len(),
{
    let front = word.drop_last();
    assert(!is_special(word[word.len() - 1]));
    assert(front.push(word.last()) == word);
    if front.len() > 0 {
        assert forall|i: int| 0 <= i < front.len() implies !is_special(#[trigger] front[i]) by {
            assert(front[i] == word[i]);
        }
        lemma_read_plain(s, front);
    } else {
        assert(s.read(front) == s);
        assert(front == Seq::<char>::empty());
    }
}

proof fn lemma_read_word(s: Shell, word: Seq<char>)
    requires
        s.mode is Plain,
        s.word is None,
    ensures
        s.read(shell_word(word)) == (Shell { word: Some(word), ..s }),
{
    if needs_quotes(word) {
        let open = s.step('\'');
        lemma_read_char(s, '\'');
        lemma_read_on(s, seq!['\''], escaped(word));
        lemma_read_escaped(open, word);
        lemma_read_on(s, seq!['\''] + escaped(word), seq!['\'']);
        lemma_read_char(s.read(seq!['\''] + escaped(word)), '\'');
    } else {
        lemma_read_plain(s, word);
    }
}

proof fn lemma_read_words(argv: Seq<Seq<char>>)
    requires
        argv.len() > 0,
    ensures
        Shell::new().read(shell_text(argv)) == (Shell {
            words: argv.drop_last(),
            word: Some(argv.last()),
            mode: ShellMode::Plain,
        }),
    decreases argv.len(),
{
    let s = Shell::new();
    let parts = argv.map_values(|a: Seq<char>| shell_word(a));
    let front = argv.drop_last();
    if argv.len() == 1 {
        lemma_read_word(s, argv[0]);
        assert(argv.drop_last() == Seq::<Seq<char>>::empty());
    } else {
        reveal_strlit(" ");
        assert(" "@ == seq![' ']);
        let t = s.read(shell_text(front));
        assert(parts.drop_last() == front.map_values(|a: Seq<char>| shell_word(a)));
        lemma_read_words(front);
        lemma_read_on(s, shell_text(front), seq![' ']);
        lemma_read_char(t, ' ');
        let u = t.step(' ');
        assert(front.drop_last().push(front.last()) == front);
        assert(u == (Shell { words: front, word: None, mode: ShellMode::Plain }));
        lemma_read_on(s, shell_text(front) + seq![' '], parts.last());
        lemma_read_word(u, argv.last());
    }
}

/// A shell splits the re-quoted arguments into the same arguments again,
/// whatever they hold.
pub proof fn law_quoted_arguments_are_split_back(argv: Seq<Seq<char>>)
    ensures
        shell_split(shell_text(argv)) == Some(argv),
{
    if argv.len() > 0 {
        lemma_read_words(argv);
        assert(argv.drop_last().push(argv.last()) == argv);
    } else {
        assert(argv == Seq::<Seq<char>>::empty());
    }
}

/// An argument that is not empty and holds no whitespace, quote, `$`, backtick
/// or backslash stands as it is.
pub proof fn law_plain_arguments_are_not_quoted(word: Seq<char>)
    requires
        word.len() > 0,
        forall|i: int| 0 <= i < word.len() ==> !is_special(#[trigger] word[i]),
    ensures
        shell_word(word) == word,
{
}

/// The `history` attribute: when and how the program was called.
pub fn history(now: UtcTime, version: &str, argv: &[String]) -> (r: String)
    requires
        now.valid(),
    ensures
        r@ == timefmt::iso_text(now) + " om2nc "@ + version@ + ": "@ + shell_text(
            text::texts(argv@),
        ),
{
    let mut out = timefmt::iso(now);
    out.append(" om2nc ");
    out.append(version);
    out.append(": ");
    out.append(shell_words(argv).as_str());
    out
}

/// A list in full, or its two ends where it is long.
pub open spec fn compact(hours: Seq<Seq<char>>) -> Seq<char> {
    if hours.len() <= 16 {
        text::join(hours, ","@)
    } else {
        text::join(hours.take(8), ","@) + " ... "@ + text::join(
            hours.skip(hours.len() - 4),
            ","@,
        )
    }
}

pub fn compact_steps(hours: &[String]) -> (r: String)
    ensures
        r@ == compact(text::texts(hours@)),
{
    if hours.len() <= 16 {
        text::join_texts(hours, ",")
    } else {
        let n: usize = hours.len();
        let mut out = text::join_texts(slice_subrange(hours, 0, 8), ",");
        out.append(" ... ");
        text::join_onto(&mut out, slice_subrange(hours, n - 4, n), ",");
        assert(text::texts(hours@.subrange(0, 8)) == text::texts(hours@).take(8));
        assert(text::texts(hours@.subrange(n - 4, n as int)) == text::texts(hours@).skip(n - 4));
        out
    }
}

/// An entry of a listing.
#[derive(Debug)]
pub struct Entry {
    pub name: String,
    pub is_dir: bool,
}

/// The names of the directories in a listing, without the slash at their end.
pub open spec fn directory_names(entries: Seq<Entry>) -> Seq<Seq<char>>
    decreases entries.len(),
{
    if entries.len() == 0 {
        Seq::empty()
    } else {
        let rest = directory_names(entries.drop_last());
        let name = text::strip_end(entries.last().name@, '/');
        if entries.last().is_dir && name.len() > 0 {
            rest.push(name)
        } else {
            rest
        }
    }
}

/// The models in a listing, in order.
pub fn model_names(entries: &[Entry]) -> (r: Result<Vec<String>, String>)
    ensures
        match r {
            Ok(v) => {
                &&& v@.len() > 0
                &&& names::sorted(text::texts(v@))
                &&& text::texts(v@).to_multiset() == directory_names(entries@).to_multiset()
            },
            Err(e) => directory_names(entries@).len() == 0 && e@ == "no models found under "@
                + SPATIAL_PREFIX@ + "/"@,
        },
{
    let mut out: Vec<String> = Vec::new();
    let mut i: usize = 0;
    assert(entries@.take(0) == Seq::<Entry>::empty());
    assert(text::texts(out@) == Seq::<Seq<char>>::empty());
    while i < entries.len()
        invariant
            i <= entries.len(),
            text::texts(out@) == directory_names(entries@.take(i as int)),
        decreases entries.len() - i,
    {
        let ghost before = out@;
        assert(entries@.take(i + 1).drop_last() == entries@.take(i as int));
        let c = text::chars_of(entries[i].name.as_str());
        let name = text::strip_end_chars(c.as_slice(), '/');
        if entries[i].is_dir && name.len() > 0 {
            out.push(text::string_of(name));
            assert(text::texts(out@) == text::texts(before).push(name@));
        }
        i += 1;
    }
    assert(entries@.take(i as int) == entries@);
    assert(text::texts(out@).len() == out@.len());
    if out.len() == 0 {
        let mut e = "no models found under ".to_owned();
        e.append(SPATIAL_PREFIX);
        e.append("/");
        return Err(e);
    }
    let sorted = names::sort_names(out.as_slice());
    proof {
        text::texts(sorted@).to_multiset_ensures();
        text::texts(out@).to_multiset_ensures();
        assert(text::texts(sorted@).len() == sorted@.len());
    }
    Ok(sorted)
}

/// The first line of a text, trimmed.
pub open spec fn first_line(s: Seq<char>) -> Seq<char> {
    text::trimmed(
        match text::find(s, "\n"@) {
            Some(i) => s.take(i),
            None => s,
        },
    )
}

fn first_line_of(s: &str) -> (r: String)
    ensures
        r@ == first_line(s@),
{
    let c = text::chars_of(s);
    let end = text::chars_of("\n");
    let n: usize = match text::find_chars(c.as_slice(), end.as_slice()) {
        Some(i) => i,
        None => c.len(),
    };
    let line = slice_subrange(c.as_slice(), 0, n);
    assert(line@ == c@.take(n as int));
    assert(c@.take(c@.len() as int) == c@);
    text::string_of(text::trim_chars(line))
}

/// The variables in lines of four.
pub open spec fn variable_lines(vars: Seq<Seq<char>>) -> Seq<Seq<char>>
    decreases vars.len(),
{
    if vars.len() == 0 {
        Seq::empty()
    } else if vars.len() <= 4 {
        seq!["    "@ + text::join(vars, ", "@)]
    } else {
        seq!["    "@ + text::join(vars.take(4), ", "@)] + variable_lines(vars.skip(4))
    }
}

/// When the status file was last modified, where it says so.
pub open spec fn modified_line(m: RunMeta) -> Seq<Seq<char>> {
    match m.last_modified_time {
        Some(t) => seq!["  last_modified:  "@ + t@],
        None => Seq::empty(),
    }
}

/// The first line of the coordinate system, where the status file has it.
pub open spec fn crs_line(m: RunMeta) -> Seq<Seq<char>> {
    match m.crs_wkt {
        Some(w) => seq!["  crs:            "@ + first_line(w@)],
        None => Seq::empty(),
    }
}

/// The lines that describe a status file whose steps are `steps`.
pub open spec fn status_lines(label: Seq<char>, m: RunMeta, steps: Seq<i64>) -> Seq<Seq<char>> {
    seq![
        label + ":"@,
        "  reference_time: "@ + m.reference_time@,
        "  completed:      "@ + (if m.completed {
            "true"@
        } else {
            "false"@
        }),
    ] + modified_line(m) + seq![
        "  steps ("@ + text::dec(steps.len()) + "):     "@ + compact(steps::hours_texts(steps)),
        "  variables ("@ + text::dec(m.variables@.len()) + "):"@,
    ] + variable_lines(text::texts(m.variables@)) + crs_line(m)
}

/// The lines of the `info` command for one status file.
pub open spec fn info_text(label: Seq<char>, file: Option<RunMeta>) -> Result<
    Seq<Seq<char>>,
    Seq<char>,
> {
    match file {
        None => Ok(seq![label + ": (absent)"@]),
        Some(m) => match m.listed_minutes() {
            Ok(l) => Ok(status_lines(label, m, order::sorted_set(l))),
            Err(e) => Err(e),
        },
    }
}

fn push_line(out: &mut Vec<String>, line: String)
    ensures
        text::texts(final(out)@) == text::texts(old(out)@).push(line@),
{
    let ghost l = line@;
    out.push(line);
    assert(text::texts(out@) == text::texts(old(out)@).push(l));
}

fn labelled(label: &str, value: &str) -> (r: String)
    ensures
        r@ == label@ + value@,
{
    let mut out = label.to_owned();
    out.append(value);
    out
}

fn push_variable_lines(out: &mut Vec<String>, vars: &[String])
    ensures
        text::texts(final(out)@) == text::texts(old(out)@) + variable_lines(text::texts(vars@)),
{
    let ghost all = text::texts(vars@);
    let ghost before = text::texts(out@);
    let mut i: usize = 0;
    assert(all.skip(0) == all);
    assert(text::texts(out@) + variable_lines(all.skip(0)) == before + variable_lines(all));
    while vars.len() - i > 4
        invariant
            i <= vars.len(),
            all == text::texts(vars@),
            text::texts(out@) + variable_lines(all.skip(i as int)) == before + variable_lines(all),
        decreases vars.len() - i,
    {
        let ghost was = text::texts(out@);
        let mut line = "    ".to_owned();
        text::join_onto(&mut line, slice_subrange(vars, i, i + 4), ", ");
        proof {
            let rest = all.skip(i as int);
            assert(text::texts(vars@.subrange(i as int, i + 4)) == rest.take(4));
            assert(rest.skip(4) == all.skip(i + 4));
            assert(variable_lines(rest) == seq![line@] + variable_lines(all.skip(i + 4)));
        }
        let ghost l = line@;
        push_line(out, line);
        assert(text::texts(out@) + variable_lines(all.skip(i + 4)) == was + (seq![l]
            + variable_lines(all.skip(i + 4))));
        i += 4;
    }
    if i < vars.len() {
        let ghost was = text::texts(out@);
        let mut line = "    ".to_owned();
        text::join_onto(&mut line, slice_subrange(vars, i, vars.len()), ", ");
        assert(text::texts(vars@.subrange(i as int, vars@.len() as int)) == all.skip(i as int));
        let ghost l = line@;
        push_line(out, line);
        assert(text::texts(out@) == was + seq![l]);
    } else {
        assert(all.skip(i as int).len() == 0);
        assert(text::texts(out@) + variable_lines(all.skip(i as int)) == text::texts(out@));
    }
}

/// The lines of the `info` command for one status file.
pub fn info_lines(label: &str, file: Option<&RunMeta>) -> (r: Result<Vec<String>, String>)
    ensures
        match r {
            Ok(v) => info_text(
                label@,
                match file {
                    Some(m) => Some(*m),
                    None => None,
                },
            ) == Ok::<_, Seq<char>>(text::texts(v@)),
            Err(e) => info_text(
                label@,
                match file {
                    Some(m) => Some(*m),
                    None => None,
                },
            ) == Err::<Seq<Seq<char>>, _>(e@),
        },
{
    let mut out: Vec<String> = Vec::new();
    assert(text::texts(out@) == Seq::<Seq<char>>::empty());
    let m = match file {
        None => {
            push_line(&mut out, labelled(label, ": (absent)"));
            return Ok(out);
        },
        Some(m) => m,
    };
    let steps = match m.steps_minutes() {
        Ok(v) => v,
        Err(e) => {
            return Err(e);
        },
    };
    proof {
        order::lemma_sorted_set(steps@, m.listed_minutes()->Ok_0);
    }
    let hours = steps::hours_strings(steps.as_slice());
    push_line(&mut out, labelled(label, ":"));
    push_line(&mut out, labelled("  reference_time: ", m.reference_time.as_str()));
    let completed = if m.completed {
        "true"
    } else {
        "false"
    };
    push_line(&mut out, labelled("  completed:      ", completed));
    let ghost head = text::texts(out@);
    if let Some(t) = &m.last_modified_time {
        push_line(&mut out, labelled("  last_modified:  ", t.as_str()));
    }
    assert(text::texts(out@) == head + modified_line(*m));
    let mut line = "  steps (".to_owned();
    text::push_dec(&mut line, steps.len() as u128);
    line.append("):     ");
    line.append(compact_steps(hours.as_slice()).as_str());
    push_line(&mut out, line);
    let mut count = "  variables (".to_owned();
    text::push_dec(&mut count, m.variables.len() as u128);
    count.append("):");
    push_line(&mut out, count);
    push_variable_lines(&mut out, m.variables.as_slice());
    let ghost body = text::texts(out@);
    if let Some(w) = &m.crs_wkt {
        push_line(&mut out, labelled("  crs:            ", first_line_of(w.as_str()).as_str()));
    }
    assert(text::texts(out@) == body + crs_line(*m));
    assert(text::texts(out@) == status_lines(label@, *m, steps@));
    Ok(out)
}

/// The one step of the `inspect` command.
pub fn single_step(spec: &str) -> (r: Result<i64, String>)
    ensures
        match r {
            Ok(m) => steps::listed_steps(spec@) matches Ok(l) && order::is_sorted_set(seq![m], l),
            Err(e) => match steps::listed_steps(spec@) {
                Err(reason) => e@ == "invalid step spec "@ + text::quoted(spec@) + ": "@ + reason,
                Ok(l) => order::sorted_set(l).len() != 1 && e@
                    == "--step must be a single value for inspect"@,
            },
        },
{
    match steps::parse_steps(spec) {
        Err(e) => Err(e.message()),
        Ok(v) => {
            proof {
                order::lemma_sorted_set(v@, steps::listed_steps(spec@)->Ok_0);
            }
            if v.len() != 1 {
                return Err("--step must be a single value for inspect".to_owned());
            }
            assert(seq![v@[0]] == v@);
            Ok(v[0])
        },
    }
}

/// The run of the `inspect` command: the given one, or the latest.
pub fn inspected_run(init: Option<UtcTime>, status: &ModelStatus) -> (r: Result<UtcTime, String>)
    requires
        init matches Some(t) ==> t.valid(),
    ensures
        match r {
            Ok(t) => t.valid() && (match init {
                Some(i) => t == i,
                None => status.latest matches Some(m) && m.reference() == Ok::<_, Seq<char>>(t),
            }),
            Err(e) => init is None && (match status.latest {
                Some(m) => m.reference() == Err::<UtcTime, _>(e@),
                None => e@ == "latest.json missing; pass --init"@,
            }),
        },
{
    match init {
        Some(t) => Ok(t),
        None => match &status.latest {
            Some(m) => m.reference_time(),
            None => Err("latest.json missing; pass --init".to_owned()),
        },
    }
}

/// The variables are those that are asked for, whatever white space stands around
/// them, and none of them follows itself.
pub proof fn law_asked_variables(args: Seq<Seq<char>>, v: Seq<char>)
    ensures
        asked_variables(args).contains(v) <==> v.len() > 0 && exists|k: int|
            0 <= k < args.len() && text::trimmed(#[trigger] args[k]) == v,
        forall|i: int|
            0 < i < asked_variables(args).len() ==> #[trigger] asked_variables(args)[i]
                != asked_variables(args)[i - 1],
    decreases args.len(),
{
    if args.len() > 0 {
        let rest = args.drop_last();
        let n = rest.len() as int;
        let was = asked_variables(rest);
        let now = asked_variables(args);
        let w = text::trimmed(args[n]);
        law_asked_variables(rest, v);
        if exists|k: int| 0 <= k < rest.len() && text::trimmed(#[trigger] rest[k]) == v {
            let k = choose|k: int| 0 <= k < rest.len() && text::trimmed(#[trigger] rest[k]) == v;
            assert(text::trimmed(args[k]) == v);
        }
        if exists|k: int| 0 <= k < args.len() && text::trimmed(#[trigger] args[k]) == v {
            let k = choose|k: int| 0 <= k < args.len() && text::trimmed(#[trigger] args[k]) == v;
            if k < n {
                assert(text::trimmed(rest[k]) == v);
            }
        }
        if was.contains(v) {
            let k = choose|k: int| 0 <= k < was.len() && was[k] == v;
            assert(now[k] == v);
        }
        if now.contains(v) {
            let k = choose|k: int| 0 <= k < now.len() && now[k] == v;
            if k < was.len() {
                assert(was[k] == v);
            } else {
                assert(text::trimmed(args[n]) == v);
            }
        }
        if w == v && v.len() > 0 {
            if was.len() > 0 && was.last() == w {
                assert(was[was.len() - 1] == v);
            } else {
                assert(now[was.len() as int] == v);
            }
        }
        assert forall|i: int| 0 < i < now.len() implies #[trigger] now[i] != now[i - 1] by {
            if i < was.len() {
                assert(was[i] != was[i - 1]);
            }
        }
    }
}

/// The models of a listing are its directories, without the slashes at their end.
pub proof fn law_models_are_directories(entries: Seq<Entry>, name: Seq<char>)
    ensures
        directory_names(entries).contains(name) <==> name.len() > 0 && exists|k: int|
            0 <= k < entries.len() && (#[trigger] entries[k]).is_dir && text::strip_end(
                entries[k].name@,
                '/',
            ) == name,
    decreases entries.len(),
{
    if entries.len() > 0 {
        let rest = entries.drop_last();
        let n = rest.len() as int;
        let was = directory_names(rest);
        let now = directory_names(entries);
        law_models_are_directories(rest, name);
        if exists|k: int|
            0 <= k < rest.len() && (#[trigger] rest[k]).is_dir && text::strip_end(
                rest[k].name@,
                '/',
            ) == name {
            let k = choose|k: int|
                0 <= k < rest.len() && (#[trigger] rest[k]).is_dir && text::strip_end(
                    rest[k].name@,
                    '/',
                ) == name;
            assert(entries[k].is_dir);
        }
        if exists|k: int|
            0 <= k < entries.len() && (#[trigger] entries[k]).is_dir && text::strip_end(
                entries[k].name@,
                '/',
            ) == name {
            let k = choose|k: int|
                0 <= k < entries.len() && (#[trigger] entries[k]).is_dir && text::strip_end(
                    entries[k].name@,
                    '/',
                ) == name;
            if k < n {
                assert(rest[k].is_dir);
            } else if name.len() > 0 {
                assert(now[was.len() as int] == name);
            }
        }
        if was.contains(name) {
            let k = choose|k: int| 0 <= k < was.len() && was[k] == name;
            assert(now[k] == name);
        }
        if now.contains(name) {
            let k = choose|k: int| 0 <= k < now.len() && now[k] == name;
            if k < was.len() {
                assert(was[k] == name);
            } else {
                assert(entries[n].is_dir);
            }
        }
    }
}

/// The variables stand four to a line, in their order.
pub proof fn law_four_variables_to_a_line(vars: Seq<Seq<char>>, k: int)
    requires
        0 <= k,
        4 * k < vars.len(),
    ensures
        variable_lines(vars).len() == (vars.len() + 3) / 4,
        variable_lines(vars)[k] == "    "@ + text::join(
            vars.subrange(4 * k, order::min(4 * k + 4, vars.len() as int)),
            ", "@,
        ),
    decreases vars.len(),
{
    if vars.len() <= 4 {
        assert(vars.subrange(0, vars.len() as int) == vars);
    } else {
        let rest = vars.skip(4);
        let j = if k > 0 {
            k - 1
        } else {
            0
        };
        law_four_variables_to_a_line(rest, j);
        if k > 0 {
            assert(variable_lines(vars)[k] == variable_lines(rest)[k - 1]);
            assert(rest.subrange(4 * j, order::min(4 * j + 4, rest.len() as int)) == vars.subrange(
                4 * k,
                order::min(4 * k + 4, vars.len() as int),
            ));
        } else {
            assert(vars.take(4) == vars.subrange(0, 4));
        }
    }
}

/// The first line of a text is what stands before its first line break, trimmed.
pub proof fn law_first_line(line: Seq<char>, rest: Seq<char>)
    requires
        forall|i: int| 0 <= i < line.len() ==> #[trigger] line[i] != '\n',
    ensures
        first_line(line) == text::trimmed(line),
        first_line(line + "\n"@ + rest) == text::trimmed(line),
{
    reveal_strlit("\n");
    let n = line.len() as int;
    let s = line + "\n"@ + rest;
    text::law_find(line, "\n"@);
    text::law_find(s, "\n"@);
    assert forall|i: int| !text::occurs_at(line, "\n"@, i) by {
        if text::occurs_at(line, "\n"@, i) {
            assert(line.subrange(i, i + 1)[0] == line[i]);
        }
    }
    assert(text::occurs_at(s, "\n"@, n)) by {
        assert(s.subrange(n, n + 1) == "\n"@);
    }
    assert forall|i: int| 0 <= i < n implies !text::occurs_at(s, "\n"@, i) by {
        if text::occurs_at(s, "\n"@, i) {
            assert(s.subrange(i, i + 1)[0] == s[i]);
            assert(s[i] == line[i]);
        }
    }
    assert(s.take(n) == line);
}

/// A list of up to sixteen is shown in full; of a longer one the first eight and the
/// last four.
pub proof fn law_long_step_lists_are_cut(hours: Seq<Seq<char>>)
    ensures
        hours.len() <= 16 ==> compact(hours) == text::join(hours, ","@),
        hours.len() > 16 ==> compact(hours) == text::join(hours.subrange(0, 8), ","@) + " ... "@
            + text::join(hours.subrange(hours.len() - 4, hours.len() as int), ","@),
{
    if hours.len() > 16 {
        let n = hours.len() as int;
        assert(hours.take(8) == hours.subrange(0, 8));
        assert(hours.skip(n - 4) == hours.subrange(n - 4, n));
    }
}

} // verus!
